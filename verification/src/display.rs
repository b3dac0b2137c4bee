//! Formatting of a displayed cell as the percentage string the table shows.
//!
//! The tenths value is printed with one decimal place and a `%` suffix
//! (`6.0%`, `92.2%`). When the rounded value would read `100.0`, the
//! trailing `.0` is dropped and the cell reads `100%`; values that merely
//! round to one hundred (such as an exact 99.96%) therefore also read
//! `100%`, because the collapse looks at the rounded text, not at the
//! unrounded number.

use crate::eval::DisplayCell;
use vstd::prelude::*;
use vstd::string::StringExecFns;

verus! {

/// The character for a single decimal digit.
pub open spec fn digit_char(d: int) -> char {
    if d == 0 {
        '0'
    } else if d == 1 {
        '1'
    } else if d == 2 {
        '2'
    } else if d == 3 {
        '3'
    } else if d == 4 {
        '4'
    } else if d == 5 {
        '5'
    } else if d == 6 {
        '6'
    } else if d == 7 {
        '7'
    } else if d == 8 {
        '8'
    } else {
        '9'
    }
}

/// The exact text shown for a tenths-of-a-percent value in `[0, 1000]`:
/// one decimal place and a `%` sign, except that exactly 1000 tenths
/// collapses to `100%`.
pub open spec fn percent_chars(tenths: int) -> Seq<char> {
    if tenths == 1000 {
        seq!['1', '0', '0', '%']
    } else if tenths >= 100 {
        seq![
            digit_char(tenths / 100),
            digit_char((tenths / 10) % 10),
            '.',
            digit_char(tenths % 10),
            '%',
        ]
    } else {
        seq![digit_char(tenths / 10), '.', digit_char(tenths % 10), '%']
    }
}

/// The one-character string for a decimal digit.
fn digit_str(d: u64) -> (s: &'static str)
    requires
        d < 10,
    ensures
        s@ =~= seq![digit_char(d as int)],
{
    if d == 0 {
        proof {
            reveal_strlit("0");
        }
        "0"
    } else if d == 1 {
        proof {
            reveal_strlit("1");
        }
        "1"
    } else if d == 2 {
        proof {
            reveal_strlit("2");
        }
        "2"
    } else if d == 3 {
        proof {
            reveal_strlit("3");
        }
        "3"
    } else if d == 4 {
        proof {
            reveal_strlit("4");
        }
        "4"
    } else if d == 5 {
        proof {
            reveal_strlit("5");
        }
        "5"
    } else if d == 6 {
        proof {
            reveal_strlit("6");
        }
        "6"
    } else if d == 7 {
        proof {
            reveal_strlit("7");
        }
        "7"
    } else if d == 8 {
        proof {
            reveal_strlit("8");
        }
        "8"
    } else {
        proof {
            reveal_strlit("9");
        }
        "9"
    }
}

/// Render a tenths-of-a-percent value as its table text.
pub fn percent_text(tenths: u16) -> (s: String)
    requires
        tenths <= 1000,
    ensures
        s@ == percent_chars(tenths as int),
{
    if tenths == 1000 {
        let s = String::from_str("100%");
        proof {
            reveal_strlit("100%");
            assert(s@ =~= percent_chars(1000));
        }
        return s;
    }
    let t: u64 = tenths as u64;
    let mut s = String::new();
    if t >= 100 {
        s.append(digit_str(t / 100));
    }
    s.append(digit_str((t / 10) % 10));
    proof {
        reveal_strlit(".");
    }
    s.append(".");
    s.append(digit_str(t % 10));
    proof {
        reveal_strlit("%");
    }
    s.append("%");
    proof {
        if t >= 100 {
            assert(s@ =~= percent_chars(tenths as int));
        } else {
            assert(t / 10 == (t / 10) % 10);
            assert(s@ =~= percent_chars(tenths as int));
        }
    }
    s
}

impl DisplayCell {
    /// The text this cell shows, per the formatting policy above.
    pub fn text(&self) -> (s: String)
        requires
            self.tenths <= 1000,
        ensures
            s@ == percent_chars(self.tenths as int),
    {
        percent_text(self.tenths)
    }
}

} // verus!
