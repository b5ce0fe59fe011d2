//! ANSI colour codes for decorating console banners.  The printing itself
//! is I/O and lives with the caller; this module only builds the escape
//! sequences.

use vstd::prelude::*;
use crate::strutil::{dec_str, u8_to_string};

verus! {

pub const BLACK: &'static str = "\x1b[30m";

pub const RED: &'static str = "\x1b[31m";

pub const GREEN: &'static str = "\x1b[32m";

pub const YELLOW: &'static str = "\x1b[33m";

pub const BLUE: &'static str = "\x1b[34m";

pub const MAGENTA: &'static str = "\x1b[35m";

pub const CYAN: &'static str = "\x1b[36m";

pub const WHITE: &'static str = "\x1b[371m";

pub const RESET: &'static str = "\x1b[0m";

/// Picks a control code from an 8-bit colour palette.
pub fn colour_256(code: u8) -> (r: String)
    ensures
        r@ == "\x1b[38;5;$"@ + dec_str(code as int) + "m"@,
{
    let mut s = String::from_str("\x1b[38;5;$");
    let num = u8_to_string(code);
    s.append(num.as_str());
    s.append("m");
    proof {
        assert(s@ =~= "\x1b[38;5;$"@ + dec_str(code as int) + "m"@);
    }
    s
}

} // verus!
