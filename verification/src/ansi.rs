//! Builders for the ANSI escape sequences the display uses: screen and
//! line clearing, cursor visibility and movement, and simple colors by
//! name.
use crate::fmtnum::{dec_chars, push_dec};
use crate::unicode::{chars_to_string, lower_of, lowercase};
use vstd::prelude::*;
use vstd::string::StringExecFns;

verus! {

/// The control sequence introducer followed by `sequence`.
fn escape(sequence: &str) -> (r: String)
    ensures
        r@ == "\x1B["@ + sequence@,
{
    let mut s = String::from_str("\x1B[");
    s.append(sequence);
    s
}

/// The sequence that clears the whole screen.
pub fn clear() -> (r: String)
    ensures
        r@ == "\x1B[2J"@,
{
    let r = escape("2J");
    proof {
        reveal_strlit("\x1B[");
        reveal_strlit("2J");
        reveal_strlit("\x1B[2J");
        assert(r@ =~= "\x1B[2J"@);
    }
    r
}

/// The sequence that hides the cursor.
pub fn hide_cursor() -> (r: String)
    ensures
        r@ == "\x1B[?25l"@,
{
    let r = escape("?25l");
    proof {
        reveal_strlit("\x1B[");
        reveal_strlit("?25l");
        reveal_strlit("\x1B[?25l");
        assert(r@ =~= "\x1B[?25l"@);
    }
    r
}

/// The sequence that shows the cursor.
pub fn show_cursor() -> (r: String)
    ensures
        r@ == "\x1B[?25h"@,
{
    let r = escape("?25h");
    proof {
        reveal_strlit("\x1B[");
        reveal_strlit("?25h");
        reveal_strlit("\x1B[?25h");
        assert(r@ =~= "\x1B[?25h"@);
    }
    r
}

/// The sequence that moves the cursor up the given number of rows.
pub fn cursor_up(lines: usize) -> (r: String)
    ensures
        r@ == "\x1B["@ + dec_chars(lines as nat) + "A"@,
{
    let mut digits: Vec<char> = Vec::new();
    push_dec(&mut digits, lines);
    let ds = chars_to_string(&digits);
    let mut s = String::from_str("\x1B[");
    s.append(ds.as_str());
    s.append("A");
    s
}

/// The sequence that clears the current line.
pub fn clear_line() -> (r: String)
    ensures
        r@ == "\x1B[2K"@,
{
    let r = escape("2K");
    proof {
        reveal_strlit("\x1B[");
        reveal_strlit("2K");
        reveal_strlit("\x1B[2K");
        assert(r@ =~= "\x1B[2K"@);
    }
    r
}

/// The ANSI foreground code of a color name (lowercased), or the default
/// foreground when the name is unknown.
pub open spec fn fg_code(name: Seq<char>) -> int {
    if name == "black"@ {
        30
    } else if name == "red"@ {
        31
    } else if name == "green"@ {
        32
    } else if name == "yellow"@ {
        33
    } else if name == "blue"@ {
        34
    } else if name == "magenta"@ {
        35
    } else if name == "cyan"@ {
        36
    } else if name == "white"@ {
        37
    } else {
        39
    }
}

/// The ANSI background code of a color name: ten past its foreground code.
pub open spec fn bg_code(name: Seq<char>) -> int {
    fg_code(name) + 10
}

/// Whether a string holds the same characters as a literal.
fn str_eq_lit(name: &String, lit: &str) -> (r: bool)
    ensures
        r == (name@ == lit@),
{
    let other = String::from_str(lit);
    name.eq(&other)
}

/// The foreground code of a lowercased color name.
fn fg_code_of(name: &String) -> (r: usize)
    ensures
        r as int == fg_code(name@),
{
    if str_eq_lit(name, "black") {
        30
    } else if str_eq_lit(name, "red") {
        31
    } else if str_eq_lit(name, "green") {
        32
    } else if str_eq_lit(name, "yellow") {
        33
    } else if str_eq_lit(name, "blue") {
        34
    } else if str_eq_lit(name, "magenta") {
        35
    } else if str_eq_lit(name, "cyan") {
        36
    } else if str_eq_lit(name, "white") {
        37
    } else {
        39
    }
}

/// The sequence that sets the foreground and background to the named
/// colors, case-insensitively; unknown names select the defaults.
pub fn color(fg: &str, bg: &str) -> (r: String)
    ensures
        r@ == "\x1B["@ + dec_chars(fg_code(lower_of(fg@)) as nat) + ";"@ + dec_chars(
            bg_code(lower_of(bg@)) as nat,
        ) + "m"@,
{
    let fg_low = lowercase(fg);
    let bg_low = lowercase(bg);
    let fg_c = fg_code_of(&fg_low);
    let bg_c = fg_code_of(&bg_low) + 10;
    let mut digits: Vec<char> = Vec::new();
    push_dec(&mut digits, fg_c);
    let fg_s = chars_to_string(&digits);
    let mut digits2: Vec<char> = Vec::new();
    push_dec(&mut digits2, bg_c);
    let bg_s = chars_to_string(&digits2);
    let mut s = String::from_str("\x1B[");
    s.append(fg_s.as_str());
    s.append(";");
    s.append(bg_s.as_str());
    s.append("m");
    s
}

/// The sequence that switches to inverted colors.
pub fn inverse() -> (r: String)
    ensures
        r@ == "\x1B[7m"@,
{
    let r = escape("7m");
    proof {
        reveal_strlit("\x1B[");
        reveal_strlit("7m");
        reveal_strlit("\x1B[7m");
        assert(r@ =~= "\x1B[7m"@);
    }
    r
}

/// The sequence that resets colors and styles.
pub fn reset() -> (r: String)
    ensures
        r@ == "\x1B[0m"@,
{
    let r = escape("0m");
    proof {
        reveal_strlit("\x1B[");
        reveal_strlit("0m");
        reveal_strlit("\x1B[0m");
        assert(r@ =~= "\x1B[0m"@);
    }
    r
}

} // verus!
