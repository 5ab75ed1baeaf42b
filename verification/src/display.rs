//! Presentation helpers for the selectable list: played hours, truncated
//! titles, column padding, and mapping a selected row back to its index.
use vstd::prelude::*;

verus! {

use vstd::string::StrSliceExecFns;
use vstd::string::StringExecFns;
use crate::numbers::decimal_string;
use crate::numbers::digits_val;
use crate::numbers::is_digit_char;

/// Whole hours played, rendered as decimal digits followed by `h`.
pub fn format_hours(playtime_minutes: u64) -> (r: String)
    ensures
        r@.len() >= 2,
        r@.last() == 'h',
        forall|k: int| 0 <= k < r@.len() - 1 ==> is_digit_char(r@[k]),
        digits_val(r@.drop_last()) == playtime_minutes as int / 60,
        r@.len() > 2 ==> r@[0] != '0',
{
    let mut s = decimal_string(playtime_minutes / 60);
    let ghost digits = s@;
    proof {
        reveal_strlit("h");
    }
    s.append("h");
    proof {
        assert(s@.drop_last() =~= digits);
        assert(s@.last() == 'h');
    }
    s
}

/// A title cut to at most `max_chars` characters: short titles unchanged,
/// longer ones end in an ellipsis, and a very narrow column is all dots.
pub fn truncate_title(title: &str, max_chars: usize) -> (r: String)
    ensures
        max_chars == 0 ==> r@ == Seq::<char>::empty(),
        title@.len() <= max_chars ==> r@ == title@,
        title@.len() > max_chars && 0 < max_chars <= 3 ==> r@.len() == max_chars && (forall|k: int|
            0 <= k < r@.len() ==> r@[k] == '.'),
        title@.len() > max_chars && max_chars > 3 ==> r@ == title@.take(max_chars - 3) + "..."@,
{
    if max_chars == 0 {
        return String::new();
    }
    let count = title.unicode_len();
    if count <= max_chars {
        return title.to_owned();
    }
    if max_chars == 1 {
        proof {
            reveal_strlit(".");
        }
        return ".".to_owned();
    }
    if max_chars == 2 {
        proof {
            reveal_strlit("..");
        }
        return "..".to_owned();
    }
    if max_chars == 3 {
        proof {
            reveal_strlit("...");
        }
        return "...".to_owned();
    }
    let head = title.substring_char(0, max_chars - 3);
    let mut out = head.to_owned();
    proof {
        reveal_strlit("...");
    }
    out.append("...");
    out
}

/// `s` padded on the right with spaces to at least `width` characters.
pub fn pad_right(s: &str, width: usize) -> (r: String)
    ensures
        r@.len() == (if s@.len() >= width {
            s@.len() as int
        } else {
            width as int
        }),
        r@.subrange(0, s@.len() as int) == s@,
        forall|k: int| s@.len() <= k < r@.len() ==> r@[k] == ' ',
{
    let mut out = s.to_owned();
    let mut len = s.unicode_len();
    proof {
        assert(out@.subrange(0, s@.len() as int) =~= s@);
    }
    while len < width
        invariant
            len == out@.len(),
            out@.len() >= s@.len(),
            out@.subrange(0, s@.len() as int) == s@,
            forall|k: int| s@.len() <= k < out@.len() ==> out@[k] == ' ',
            s@.len() >= width ==> len == s@.len(),
            s@.len() < width ==> len <= width,
        decreases width - len,
    {
        proof {
            reveal_strlit(" ");
        }
        let ghost before = out@;
        out.append(" ");
        proof {
            assert(out@ =~= before.push(' '));
            assert(out@.subrange(0, s@.len() as int) =~= before.subrange(0, s@.len() as int));
        }
        len = len + 1;
    }
    out
}

/// `s` padded on the left with spaces to at least `width` characters.
pub fn pad_left(s: &str, width: usize) -> (r: String)
    ensures
        r@.len() == (if s@.len() >= width {
            s@.len() as int
        } else {
            width as int
        }),
        r@.subrange(r@.len() - s@.len(), r@.len() as int) == s@,
        forall|k: int| 0 <= k < r@.len() - s@.len() ==> r@[k] == ' ',
{
    let sl = s.unicode_len();
    let mut out = String::new();
    let mut len: usize = 0;
    while sl < width && len < width - sl
        invariant
            len == out@.len(),
            sl == s@.len(),
            forall|k: int| 0 <= k < out@.len() ==> out@[k] == ' ',
            sl >= width ==> len == 0,
            sl < width ==> len <= width - sl,
        decreases width - sl - len,
    {
        proof {
            reveal_strlit(" ");
        }
        let ghost before = out@;
        out.append(" ");
        proof {
            assert(out@ =~= before.push(' '));
        }
        len = len + 1;
    }
    out.append(s);
    proof {
        assert(out@.subrange(out@.len() - s@.len(), out@.len() as int) =~= s@);
    }
    out
}

/// The index of the first row equal to the selected line, if any.
pub fn find_selected_index(rows: &Vec<String>, selected: &str) -> (r: Option<usize>)
    ensures
        match r {
            Some(i) => i < rows@.len() && rows.deep_view()[i as int] == selected@ && (forall|j: int|
                0 <= j < i ==> rows.deep_view()[j] != selected@),
            None => forall|j: int| 0 <= j < rows@.len() ==> rows.deep_view()[j] != selected@,
        },
{
    let wanted = selected.to_owned();
    let n = rows.len();
    let mut i: usize = 0;
    while i < n
        invariant
            n == rows@.len(),
            i <= n,
            wanted@ == selected@,
            forall|j: int| 0 <= j < i ==> rows.deep_view()[j] != selected@,
        decreases n - i,
    {
        if rows[i] == wanted {
            proof {
                assert(rows.deep_view()[i as int] == selected@);
            }
            return Some(i);
        }
        i = i + 1;
    }
    None
}

} // verus!
