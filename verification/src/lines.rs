//! Splitting a text file's contents into lines, with the same semantics as
//! `str::lines`: lines are separated by `'\n'`, a carriage return just
//! before the separator is removed with it, and a trailing separator
//! produces no final empty line.
use vstd::prelude::*;

verus! {

use vstd::string::StrSliceExecFns;

/// A line with a trailing carriage return removed, as `str::lines` does.
pub open spec fn strip_cr(line: Seq<char>) -> Seq<char> {
    if line.len() > 0 && line.last() == '\r' {
        line.drop_last()
    } else {
        line
    }
}

/// The lines of `s[i..]`, given that the characters `cur` have already been
/// read from the current (unfinished) line.
pub open spec fn lines_from(s: Seq<char>, i: int, cur: Seq<char>) -> Seq<Seq<char>>
    decreases s.len() - i,
{
    if i < 0 || i >= s.len() {
        if cur.len() == 0 {
            Seq::empty()
        } else {
            seq![cur]
        }
    } else if s[i] == '\n' {
        seq![strip_cr(cur)] + lines_from(s, i + 1, Seq::empty())
    } else {
        lines_from(s, i + 1, cur.push(s[i]))
    }
}

/// The sequence of lines of `s`.
pub open spec fn lines_spec(s: Seq<char>) -> Seq<Seq<char>> {
    lines_from(s, 0, Seq::empty())
}

/// Split `s` into its lines.
pub fn split_lines(s: &str) -> (lines: Vec<String>)
    ensures
        lines.deep_view() == lines_spec(s@),
{
    let n = s.unicode_len();
    let mut out: Vec<String> = Vec::new();
    let mut start: usize = 0;
    let mut i: usize = 0;
    proof {
        assert(s@.subrange(0, 0) =~= Seq::<char>::empty());
        assert(out.deep_view() =~= Seq::<Seq<char>>::empty());
        assert(Seq::<Seq<char>>::empty() + lines_spec(s@) =~= lines_spec(s@));
    }
    while i < n
        invariant
            n == s@.len(),
            start <= i <= n,
            lines_spec(s@) == out.deep_view() + lines_from(
                s@,
                i as int,
                s@.subrange(start as int, i as int),
            ),
        decreases n - i,
    {
        let ghost cur = s@.subrange(start as int, i as int);
        let c = s.get_char(i);
        if c == '\n' {
            let end = if i > start && s.get_char(i - 1) == '\r' {
                i - 1
            } else {
                i
            };
            let piece = s.substring_char(start, end);
            proof {
                assert(strip_cr(cur) =~= s@.subrange(start as int, end as int));
            }
            let owned = piece.to_owned();
            let ghost old_deep = out.deep_view();
            out.push(owned);
            start = i + 1;
            proof {
                assert(out.deep_view() =~= old_deep.push(strip_cr(cur)));
                assert(s@.subrange(start as int, i as int + 1) =~= Seq::<char>::empty());
                assert(old_deep + (seq![strip_cr(cur)] + lines_from(
                    s@,
                    i as int + 1,
                    Seq::<char>::empty(),
                )) =~= old_deep.push(strip_cr(cur)) + lines_from(
                    s@,
                    i as int + 1,
                    Seq::<char>::empty(),
                ));
            }
        } else {
            proof {
                assert(s@.subrange(start as int, i as int + 1) =~= cur.push(s@[i as int]));
            }
        }
        i = i + 1;
    }
    let ghost cur = s@.subrange(start as int, n as int);
    if start < n {
        let piece = s.substring_char(start, n);
        let owned = piece.to_owned();
        let ghost old_deep = out.deep_view();
        out.push(owned);
        proof {
            assert(out.deep_view() =~= old_deep.push(cur));
            assert(old_deep + seq![cur] =~= old_deep.push(cur));
        }
    } else {
        proof {
            assert(cur =~= Seq::<char>::empty());
            assert(out.deep_view() + lines_from(s@, n as int, cur) =~= out.deep_view());
        }
    }
    out
}

} // verus!
