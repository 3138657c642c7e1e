use mor_proj::logger::level::{level_name, DEBUG, ERROR, INFO};
use mor_proj::logger::{debug, error, format_line, info, level_of, set_level};

#[test]
fn levels_have_names() {
    assert_eq!(level_name(DEBUG), "DEBUG");
    assert_eq!(level_name(INFO), "INFO");
    assert_eq!(level_name(ERROR), "ERROR");
    assert_eq!(level_name(3), "UNKOWN");
    assert_eq!(level_name(-1), "UNKOWN");
    assert_eq!((DEBUG, INFO, ERROR), (0, 1, 2));
}

#[test]
fn level_is_set_by_name() {
    assert_eq!(set_level(INFO, "debug"), DEBUG);
    assert_eq!(set_level(DEBUG, "info"), INFO);
    assert_eq!(set_level(DEBUG, "error"), ERROR);
    assert_eq!(set_level(DEBUG, "Error"), ERROR);
    assert_eq!(set_level(ERROR, "DEBUG"), DEBUG);
    assert_eq!(set_level(ERROR, "loud"), ERROR);
    assert_eq!(set_level(INFO, ""), INFO);
    assert_eq!(level_of("error", DEBUG), ERROR);
    assert_eq!(level_of("Error", DEBUG), DEBUG);
}

#[test]
fn a_line_has_time_level_and_message() {
    assert_eq!(format_line("now", INFO, "hello"), "now | INFO | hello");
    assert_eq!(format_line("", 7, ""), " | UNKOWN | ");
}

#[test]
fn the_threshold_lets_lines_through() {
    assert_eq!(debug(INFO, String::from("quiet")), None);
    assert_eq!(debug(ERROR, String::from("quiet")), None);
    assert_eq!(info(ERROR, String::from("quiet")), None);
    let line = debug(DEBUG, String::from("loud")).unwrap();
    assert!(line.ends_with(" | DEBUG | loud"));
    assert!(line.len() > " | DEBUG | loud".len());
    assert!(info(DEBUG, String::from("a")).unwrap().ends_with(" | INFO | a"));
    assert!(info(INFO, String::from("a")).unwrap().ends_with(" | INFO | a"));
    assert!(error(DEBUG, String::from("b")).unwrap().ends_with(" | ERROR | b"));
    assert!(error(ERROR, String::from("b")).unwrap().ends_with(" | ERROR | b"));
    assert_eq!(error(3, String::from("b")), None);
}
