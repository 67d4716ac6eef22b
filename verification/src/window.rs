//! The viewer invoker's arithmetic: the fixed-size display window centered a
//! third of the way below its top edge, and the decimal rendering of the
//! window bounds into the flags handed to the external pretty-printer.

use vstd::prelude::*;
use vstd::string::*;

verus! {

/// The number of lines shown by the external viewer.
pub const WINDOW_SIZE: usize = 40;

/// The range of lines handed to the external viewer, with the matched line
/// to be highlighted.
pub struct DisplayWindow {
    pub first: usize,
    pub last: usize,
    pub highlight: usize,
}

/// The first line of the window: a third of the window above the center,
/// clamped to line 1 when the subtraction would fall below the first line
/// of the file.
pub open spec fn spec_window_first(center: usize) -> int {
    if center > WINDOW_SIZE / 3 {
        center - WINDOW_SIZE / 3
    } else {
        1
    }
}

/// The last line of the window: one window below the first line, clamped to
/// the largest representable line when that addition would overflow.
pub open spec fn spec_window_last(center: usize) -> int {
    if spec_window_first(center) + (WINDOW_SIZE - 1) <= usize::MAX {
        spec_window_first(center) + (WINDOW_SIZE - 1)
    } else {
        usize::MAX as int
    }
}

/// Computes the display window around `center`. The window never starts
/// before line 1, and a center inside the file always lies within it.
pub fn display_window(center: usize) -> (w: DisplayWindow)
    ensures
        w.first == spec_window_first(center),
        w.last == spec_window_last(center),
        w.highlight == center,
        w.first >= 1,
        center >= 1 ==> w.first <= center <= w.last,
{
    let third: usize = WINDOW_SIZE / 3;
    let first: usize = if center > third {
        center - third
    } else {
        1
    };
    let last: usize = if first <= usize::MAX - (WINDOW_SIZE - 1) {
        first + (WINDOW_SIZE - 1)
    } else {
        usize::MAX
    };
    DisplayWindow { first, last, highlight: center }
}

/// The character for a decimal digit.
pub open spec fn digit_char(d: int) -> char
    recommends
        0 <= d < 10,
{
    (48 + d) as char
}

/// The decimal digits of `n`, most significant first, with no sign and no
/// leading zero except on `n == 0` itself.
pub open spec fn dec_digits(n: int) -> Seq<char>
    recommends
        n >= 0,
    decreases n,
{
    if n < 10 {
        seq![digit_char(n)]
    } else {
        dec_digits(n / 10).push(digit_char(n % 10))
    }
}

/// The one-character string for a decimal digit.
fn digit_str(d: usize) -> (r: &'static str)
    requires
        d < 10,
    ensures
        r@ == seq![digit_char(d as int)],
{
    proof {
        reveal_strlit("0");
        reveal_strlit("1");
        reveal_strlit("2");
        reveal_strlit("3");
        reveal_strlit("4");
        reveal_strlit("5");
        reveal_strlit("6");
        reveal_strlit("7");
        reveal_strlit("8");
        reveal_strlit("9");
    }
    let r = if d == 0 {
        "0"
    } else if d == 1 {
        "1"
    } else if d == 2 {
        "2"
    } else if d == 3 {
        "3"
    } else if d == 4 {
        "4"
    } else if d == 5 {
        "5"
    } else if d == 6 {
        "6"
    } else if d == 7 {
        "7"
    } else if d == 8 {
        "8"
    } else {
        "9"
    };
    proof {
        assert(r@ =~= seq![digit_char(d as int)]);
    }
    r
}

/// Renders `n` in decimal.
pub fn fmt_usize(n: usize) -> (r: String)
    ensures
        r@ == dec_digits(n as int),
    decreases n,
{
    if n < 10 {
        digit_str(n).to_owned()
    } else {
        let mut r = fmt_usize(n / 10);
        r.append(digit_str(n % 10));
        proof {
            assert(dec_digits((n / 10) as int) + seq![digit_char((n % 10) as int)] =~= dec_digits(
                (n / 10) as int,
            ).push(digit_char((n % 10) as int)));
        }
        r
    }
}

/// The full argument vector handed to the external viewer for one parsed
/// location: fixed presentation flags, the line range of the display window
/// around `center`, the highlight flag for `center` itself, and the file
/// path last.
pub fn viewer_args(path: String, center: usize) -> (args: Vec<String>)
    ensures
        args@.len() == 6,
        args@[0]@ == "--style=numbers"@,
        args@[1]@ == "--color=always"@,
        args@[2]@ == "--pager=never"@,
        args@[3]@ == "--line-range="@ + dec_digits(spec_window_first(center)) + seq![':']
            + dec_digits(spec_window_last(center)),
        args@[4]@ == "--highlight-line="@ + dec_digits(center as int),
        args@[5]@ == path@,
{
    let w = display_window(center);
    let mut range = "--line-range=".to_owned();
    let first_digits = fmt_usize(w.first);
    range.append(first_digits.as_str());
    proof {
        reveal_strlit(":");
        assert(":"@ =~= seq![':']);
    }
    range.append(":");
    let last_digits = fmt_usize(w.last);
    range.append(last_digits.as_str());
    let mut highlight = "--highlight-line=".to_owned();
    let center_digits = fmt_usize(center);
    highlight.append(center_digits.as_str());
    let mut args: Vec<String> = Vec::new();
    args.push("--style=numbers".to_owned());
    args.push("--color=always".to_owned());
    args.push("--pager=never".to_owned());
    args.push(range);
    args.push(highlight);
    args.push(path);
    args
}

} // verus!
