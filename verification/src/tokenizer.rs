//! The line tokenizer: the ordered sequence of substrings of one line that
//! are enclosed in double-quote characters. Characters outside quotes are
//! ignored, and an unterminated quote at end of line yields no value.
use vstd::prelude::*;

verus! {

use vstd::string::StrSliceExecFns;

/// The quoted values of `line[i..]`, where `cur` is `Some(chars)` if a quote
/// is currently open and `chars` have been read inside it.
pub open spec fn qv_from(line: Seq<char>, i: int, cur: Option<Seq<char>>) -> Seq<Seq<char>>
    decreases line.len() - i,
{
    if i < 0 || i >= line.len() {
        Seq::empty()
    } else if line[i] == '"' {
        match cur {
            Some(c) => seq![c] + qv_from(line, i + 1, None),
            None => qv_from(line, i + 1, Some(Seq::empty())),
        }
    } else {
        match cur {
            Some(c) => qv_from(line, i + 1, Some(c.push(line[i]))),
            None => qv_from(line, i + 1, None),
        }
    }
}

/// The ordered sequence of double-quoted substrings of `line`.
pub open spec fn quoted_values_spec(line: Seq<char>) -> Seq<Seq<char>> {
    qv_from(line, 0, None)
}

/// Extract the double-quoted values of one line, in order of appearance.
pub fn quoted_values(line: &str) -> (values: Vec<String>)
    ensures
        values.deep_view() == quoted_values_spec(line@),
{
    let n = line.unicode_len();
    let mut values: Vec<String> = Vec::new();
    let mut in_quotes = false;
    let mut start: usize = 0;
    let mut i: usize = 0;
    proof {
        assert(values.deep_view() =~= Seq::<Seq<char>>::empty());
        assert(Seq::<Seq<char>>::empty() + quoted_values_spec(line@) =~= quoted_values_spec(line@));
    }
    while i < n
        invariant
            n == line@.len(),
            i <= n,
            in_quotes ==> start <= i,
            quoted_values_spec(line@) == values.deep_view() + qv_from(
                line@,
                i as int,
                if in_quotes {
                    Some(line@.subrange(start as int, i as int))
                } else {
                    None
                },
            ),
        decreases n - i,
    {
        let ghost cur = line@.subrange(start as int, i as int);
        let c = line.get_char(i);
        if c == '"' {
            if in_quotes {
                let piece = line.substring_char(start, i);
                let owned = piece.to_owned();
                let ghost old_deep = values.deep_view();
                values.push(owned);
                in_quotes = false;
                proof {
                    assert(values.deep_view() =~= old_deep.push(cur));
                    assert(old_deep + (seq![cur] + qv_from(line@, i as int + 1, None)) =~= old_deep.push(
                        cur,
                    ) + qv_from(line@, i as int + 1, None));
                }
            } else {
                in_quotes = true;
                start = i + 1;
                proof {
                    assert(line@.subrange(start as int, i as int + 1) =~= Seq::<char>::empty());
                }
            }
        } else {
            proof {
                if in_quotes {
                    assert(line@.subrange(start as int, i as int + 1) =~= cur.push(line@[i as int]));
                }
            }
        }
        i = i + 1;
    }
    proof {
        assert(values.deep_view() + qv_from(
            line@,
            n as int,
            if in_quotes {
                Some(line@.subrange(start as int, n as int))
            } else {
                None
            },
        ) =~= values.deep_view());
    }
    values
}

} // verus!
