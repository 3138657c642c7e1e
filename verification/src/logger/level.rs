use vstd::prelude::*;

verus! {

pub const DEBUG: i32 = 0;

pub const INFO: i32 = 1;

pub const ERROR: i32 = 2;

/// The name of a level.
pub open spec fn name_of(level: i32) -> Seq<char> {
    if level == DEBUG {
        "DEBUG"@
    } else if level == INFO {
        "INFO"@
    } else if level == ERROR {
        "ERROR"@
    } else {
        "UNKOWN"@
    }
}

/// The name of a level: `DEBUG`, `INFO` or `ERROR`, and `UNKOWN` for any
/// other number.
pub fn level_name(level: i32) -> (r: &'static str)
    ensures
        r@ == name_of(level),
{
    if level == DEBUG {
        "DEBUG"
    } else if level == INFO {
        "INFO"
    } else if level == ERROR {
        "ERROR"
    } else {
        "UNKOWN"
    }
}

} // verus!
