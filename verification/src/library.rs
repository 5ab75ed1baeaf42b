//! Resolving the set of library roots: the `"path"` entries of the
//! library-index text, with the two-character backslash escape collapsed, and
//! the fallback to the primary root when the index is absent or yields
//! nothing.
use vstd::prelude::*;

verus! {

use vstd::string::StrSliceExecFns;
use vstd::string::StringExecFns;
use crate::lines::lines_spec;
use crate::lines::split_lines;
use crate::tokenizer::quoted_values;
use crate::tokenizer::quoted_values_spec;

/// `s` with each two-backslash pair collapsed to one backslash, left to
/// right, as `str::replace` rewrites it.
pub open spec fn collapse_bs(s: Seq<char>) -> Seq<char>
    decreases s.len(),
{
    if s.len() == 0 {
        s
    } else if s.len() >= 2 && s[0] == '\\' && s[1] == '\\' {
        seq!['\\'] + collapse_bs(s.skip(2))
    } else {
        seq![s[0]] + collapse_bs(s.skip(1))
    }
}

/// Collapse each doubled backslash in `s` to a single one.
pub fn collapse_backslashes(s: &str) -> (r: String)
    ensures
        r@ == collapse_bs(s@),
{
    let n = s.unicode_len();
    let mut out = String::new();
    let mut i: usize = 0;
    proof {
        assert(s@.skip(0) =~= s@);
        assert(Seq::<char>::empty() + collapse_bs(s@) =~= collapse_bs(s@));
    }
    while i < n
        invariant
            n == s@.len(),
            i <= n,
            collapse_bs(s@) == out@ + collapse_bs(s@.skip(i as int)),
        decreases n - i,
    {
        let ghost rest = s@.skip(i as int);
        let ghost before = out@;
        let c = s.get_char(i);
        if c == '\\' && i + 1 < n && s.get_char(i + 1) == '\\' {
            proof {
                reveal_strlit("\\");
                assert(rest[0] == s@[i as int]);
                assert(rest[1] == s@[i as int + 1]);
                assert(collapse_bs(rest) == seq!['\\'] + collapse_bs(rest.skip(2)));
                assert(rest.skip(2) =~= s@.skip(i as int + 2));
            }
            out.append("\\");
            proof {
                assert(out@ =~= before.push('\\'));
                assert(before + (seq!['\\'] + collapse_bs(s@.skip(i as int + 2))) =~= before.push(
                    '\\',
                ) + collapse_bs(s@.skip(i as int + 2)));
            }
            i = i + 2;
        } else {
            proof {
                assert(rest[0] == s@[i as int]);
                if rest.len() >= 2 {
                    assert(rest[1] == s@[i as int + 1]);
                }
                assert(collapse_bs(rest) == seq![rest[0]] + collapse_bs(rest.skip(1)));
                assert(rest.skip(1) =~= s@.skip(i as int + 1));
            }
            let piece = s.substring_char(i, i + 1);
            out.append(piece);
            proof {
                assert(piece@ =~= seq![s@[i as int]]);
                assert(out@ =~= before.push(s@[i as int]));
                assert(before + (seq![s@[i as int]] + collapse_bs(s@.skip(i as int + 1)))
                    =~= before.push(s@[i as int]) + collapse_bs(s@.skip(i as int + 1)));
            }
            i = i + 1;
        }
    }
    proof {
        assert(collapse_bs(s@.skip(n as int)) =~= Seq::<char>::empty());
        assert(out@ + Seq::<char>::empty() =~= out@);
    }
    out
}

/// The library paths named by the index lines: the second quoted value of
/// each line whose first quoted value is `path`, escapes collapsed.
pub open spec fn lib_paths_spec(lines: Seq<Seq<char>>) -> Seq<Seq<char>>
    decreases lines.len(),
{
    if lines.len() == 0 {
        Seq::empty()
    } else {
        let q = quoted_values_spec(lines[0]);
        let rest = lib_paths_spec(lines.skip(1));
        if q.len() >= 2 && q[0] == "path"@ {
            seq![collapse_bs(q[1])] + rest
        } else {
            rest
        }
    }
}

/// Extract the library root paths from the index text.
pub fn parse_library_paths(content: &str) -> (r: Vec<String>)
    ensures
        r.deep_view() == lib_paths_spec(lines_spec(content@)),
{
    let lines = split_lines(content);
    let path_key = "path".to_owned();
    let mut out: Vec<String> = Vec::new();
    let n = lines.len();
    let mut i: usize = 0;
    proof {
        assert(lines.deep_view().skip(0) =~= lines.deep_view());
        assert(out.deep_view() =~= Seq::<Seq<char>>::empty());
        assert(Seq::<Seq<char>>::empty() + lib_paths_spec(lines.deep_view()) =~= lib_paths_spec(
            lines.deep_view(),
        ));
    }
    while i < n
        invariant
            n == lines@.len(),
            i <= n,
            lines.deep_view() == lines_spec(content@),
            path_key@ == "path"@,
            lib_paths_spec(lines_spec(content@)) == out.deep_view() + lib_paths_spec(
                lines.deep_view().skip(i as int),
            ),
        decreases n - i,
    {
        let q = quoted_values(&lines[i]);
        let ghost qs = quoted_values_spec(lines.deep_view()[i as int]);
        let ghost rest = lib_paths_spec(lines.deep_view().skip(i as int + 1));
        proof {
            assert(lines[i as int].deep_view() == lines.deep_view()[i as int]);
            assert(lines.deep_view().skip(i as int)[0] == lines.deep_view()[i as int]);
            assert(lines.deep_view().skip(i as int).skip(1) =~= lines.deep_view().skip(
                i as int + 1,
            ));
            assert(q.deep_view() == qs);
        }
        if q.len() >= 2 {
            proof {
                assert(q.deep_view()[0] == q@[0]@);
                assert(q.deep_view()[1] == q@[1]@);
            }
            if q[0] == path_key {
                let collapsed = collapse_backslashes(q[1].as_str());
                let ghost before = out.deep_view();
                out.push(collapsed);
                proof {
                    assert(out.deep_view() =~= before.push(collapse_bs(qs[1])));
                    assert(before + (seq![collapse_bs(qs[1])] + rest) =~= before.push(
                        collapse_bs(qs[1]),
                    ) + rest);
                }
            }
        }
        i = i + 1;
    }
    proof {
        assert(lib_paths_spec(lines.deep_view().skip(n as int)) =~= Seq::<Seq<char>>::empty());
        assert(out.deep_view() + Seq::<Seq<char>>::empty() =~= out.deep_view());
    }
    out
}

/// The library roots to scan, given the index text (when the index file
/// exists) and the primary root: the listed paths, or the primary root alone
/// when the index is absent or names none.
pub open spec fn resolved_roots_spec(content: Option<Seq<char>>, primary: Seq<char>) -> Seq<
    Seq<char>,
> {
    match content {
        Some(c) => {
            let p = lib_paths_spec(lines_spec(c));
            if p.len() == 0 {
                seq![primary]
            } else {
                p
            }
        },
        None => seq![primary],
    }
}

/// Resolve the library roots to scan.
pub fn resolve_library_roots(index_content: Option<&str>, primary: &str) -> (r: Vec<String>)
    ensures
        r.deep_view() == resolved_roots_spec(index_content.deep_view(), primary@),
{
    match index_content {
        Some(content) => {
            let paths = parse_library_paths(content);
            if paths.len() == 0 {
                let mut out: Vec<String> = Vec::new();
                out.push(primary.to_owned());
                proof {
                    assert(out.deep_view() =~= seq![primary@]);
                }
                out
            } else {
                paths
            }
        },
        None => {
            let mut out: Vec<String> = Vec::new();
            out.push(primary.to_owned());
            proof {
                assert(out.deep_view() =~= seq![primary@]);
            }
            out
        },
    }
}

} // verus!
