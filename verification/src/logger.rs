//! Log lines and the threshold that decides which of them are written.
//! Nothing is written here: a caller prints the lines it is handed.

use vstd::prelude::*;
use vstd::string::StringExecFns;
use chrono::Local;

pub mod level;

use level::{level_name, name_of, DEBUG, ERROR, INFO};

verus! {

/// The text in lower case, as `str::to_lowercase` gives it.
pub uninterp spec fn lowercased(text: Seq<char>) -> Seq<char>;

/// `str::to_lowercase`: the text in lower case.
#[verifier::external_body]
fn lowercase(text: &str) -> (r: String)
    ensures
        r@ == lowercased(text@),
{
    text.to_lowercase()
}

/// `chrono::Local::now`, as its `Display` writes it: the local time of the
/// call, as text. Nothing is known of it.
#[verifier::external_body]
fn now_text() -> String {
    Local::now().to_string()
}

/// The threshold that a name in lower case stands for; `current` for any
/// other text.
pub open spec fn level_for(name: Seq<char>, current: i32) -> i32 {
    if name == "debug"@ {
        DEBUG
    } else if name == "info"@ {
        INFO
    } else if name == "error"@ {
        ERROR
    } else {
        current
    }
}

/// The line of a message: the time, the name of the level and the message,
/// with ` | ` between them.
pub open spec fn line_of(now: Seq<char>, level: i32, message: Seq<char>) -> Seq<char> {
    now + " | "@ + name_of(level) + " | "@ + message
}

/// The threshold that a name in lower case stands for; `current` for any
/// other text.
pub fn level_of(name: &str, current: i32) -> (r: i32)
    ensures
        r == level_for(name@, current),
{
    let given = name.to_owned();
    if given == "debug".to_owned() {
        DEBUG
    } else if given == "info".to_owned() {
        INFO
    } else if given == "error".to_owned() {
        ERROR
    } else {
        current
    }
}

/// The threshold after it is set by name: that of `debug`, `info` or
/// `error`, in any case of letters; for any other text it stays as it is.
pub fn set_level(current: i32, level: &str) -> (r: i32)
    ensures
        r == level_for(lowercased(level@), current),
{
    let name = lowercase(level);
    level_of(name.as_str(), current)
}

/// The line of a message, for a given time.
pub fn format_line(now: &str, level: i32, message: &str) -> (r: String)
    ensures
        r@ == line_of(now@, level, message@),
{
    let mut line = now.to_owned();
    line.append(" | ");
    line.append(level_name(level));
    line.append(" | ");
    line.append(message);
    line
}

/// The line of a message of the given level, if the threshold lets it
/// through: that is, if the threshold is not above the level.
fn log(threshold: i32, message: String, level: i32) -> (r: Option<String>)
    ensures
        r is Some <==> threshold <= level,
        r is Some ==> exists|now: Seq<char>| r.unwrap()@ == line_of(now, level, message@),
{
    if threshold > level {
        return None;
    }
    let now = now_text();
    Some(format_line(now.as_str(), level, message.as_str()))
}

/// The line of a debug message, if the threshold lets it through.
pub fn debug(threshold: i32, message: String) -> (r: Option<String>)
    ensures
        r is Some <==> threshold <= DEBUG,
        r is Some ==> exists|now: Seq<char>| r.unwrap()@ == line_of(now, DEBUG, message@),
{
    log(threshold, message, DEBUG)
}

/// The line of an info message, if the threshold lets it through.
pub fn info(threshold: i32, message: String) -> (r: Option<String>)
    ensures
        r is Some <==> threshold <= INFO,
        r is Some ==> exists|now: Seq<char>| r.unwrap()@ == line_of(now, INFO, message@),
{
    log(threshold, message, INFO)
}

/// The line of an error message, if the threshold lets it through.
pub fn error(threshold: i32, message: String) -> (r: Option<String>)
    ensures
        r is Some <==> threshold <= ERROR,
        r is Some ==> exists|now: Seq<char>| r.unwrap()@ == line_of(now, ERROR, message@),
{
    log(threshold, message, ERROR)
}

} // verus!
