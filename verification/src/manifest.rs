//! Parsing one per-application manifest: the `name`, `appid` and
//! `LastPlayed` keys of its quoted key/value lines. A manifest that lacks an
//! application id or a non-empty name contributes no record at all.
use vstd::prelude::*;

verus! {

use vstd::string::StrSliceExecFns;
use crate::game::GameView;
use crate::game::SteamGame;
use crate::lines::lines_spec;
use crate::lines::split_lines;
use crate::numbers::parse_u64;
use crate::numbers::parse_u64_spec;
use crate::tokenizer::quoted_values;
use crate::tokenizer::quoted_values_spec;

/// The fields gathered while reading a manifest's lines.
pub struct ManifestState {
    pub name: Option<Seq<char>>,
    pub appid: Option<Seq<char>>,
    pub last_played: u64,
}

/// The state before any line was read.
pub open spec fn manifest_init() -> ManifestState {
    ManifestState { name: None, appid: None, last_played: 0 }
}

/// The effect of one manifest line on the gathered fields.
pub open spec fn manifest_step(st: ManifestState, line: Seq<char>) -> ManifestState {
    let q = quoted_values_spec(line);
    if q.len() < 2 {
        st
    } else if q[0] == "name"@ {
        ManifestState { name: Some(q[1]), ..st }
    } else if q[0] == "appid"@ {
        ManifestState { appid: Some(q[1]), ..st }
    } else if q[0] == "LastPlayed"@ {
        match parse_u64_spec(q[1]) {
            Some(v) => ManifestState { last_played: v, ..st },
            None => st,
        }
    } else {
        st
    }
}

/// The fields gathered from all of `lines`, starting from `st`.
pub open spec fn manifest_fold(lines: Seq<Seq<char>>, st: ManifestState) -> ManifestState
    decreases lines.len(),
{
    if lines.len() == 0 {
        st
    } else {
        manifest_fold(lines.skip(1), manifest_step(st, lines[0]))
    }
}

/// The record a manifest text yields: its final name and id if the id is
/// present and the name is present and non-empty (a record's display name is
/// required to be non-empty, so an empty final name counts as missing), with
/// the last-played time (zero when absent or unparsable) and no playtime
/// yet.
pub open spec fn manifest_result(content: Seq<char>) -> Option<GameView> {
    let st = manifest_fold(lines_spec(content), manifest_init());
    match st.name {
        Some(n) => if n.len() == 0 {
            None
        } else {
            match st.appid {
                Some(a) => Some(
                    GameView {
                        name: n,
                        appid: a,
                        last_played: st.last_played,
                        playtime_minutes: 0,
                    },
                ),
                None => None,
            }
        },
        None => None,
    }
}

/// The directory-entry names that mark a per-application manifest file: the
/// fixed prefix and the fixed extension, both exact and case-sensitive.
pub open spec fn is_manifest_filename_spec(s: Seq<char>) -> bool {
    &&& s.len() >= "appmanifest_"@.len()
    &&& s.take("appmanifest_"@.len() as int) == "appmanifest_"@
    &&& s.len() >= ".acf"@.len()
    &&& s.skip(s.len() - ".acf"@.len()) == ".acf"@
}

/// Does this directory-entry name mark a per-application manifest?
pub fn is_manifest_filename(filename: &str) -> (r: bool)
    ensures
        r == is_manifest_filename_spec(filename@),
{
    proof {
        reveal_strlit("appmanifest_");
        reveal_strlit(".acf");
    }
    let prefix = "appmanifest_";
    let suffix = ".acf";
    let n = filename.unicode_len();
    let pl = prefix.unicode_len();
    let sl = suffix.unicode_len();
    if n < pl || n < sl {
        return false;
    }
    let head = filename.substring_char(0, pl);
    let tail = filename.substring_char(n - sl, n);
    let starts = head.to_owned() == prefix.to_owned();
    let ends = tail.to_owned() == suffix.to_owned();
    proof {
        assert(head@ == filename@.take(pl as int));
        assert(tail@ == filename@.skip(n as int - sl as int));
    }
    starts && ends
}

/// Parse one per-application manifest.
pub fn parse_appmanifest(content: &str) -> (r: Option<SteamGame>)
    ensures
        r.deep_view() == manifest_result(content@),
{
    let lines = split_lines(content);
    let name_key = "name".to_owned();
    let appid_key = "appid".to_owned();
    let last_played_key = "LastPlayed".to_owned();
    let mut name: Option<String> = None;
    let mut appid: Option<String> = None;
    let mut last_played: u64 = 0;
    let n = lines.len();
    proof {
        assert(lines.deep_view().skip(0) =~= lines.deep_view());
    }
    let mut i: usize = 0;
    while i < n
        invariant
            n == lines@.len(),
            i <= n,
            lines.deep_view() == lines_spec(content@),
            name_key@ == "name"@,
            appid_key@ == "appid"@,
            last_played_key@ == "LastPlayed"@,
            manifest_fold(lines_spec(content@), manifest_init()) == manifest_fold(
                lines.deep_view().skip(i as int),
                ManifestState { name: name.deep_view(), appid: appid.deep_view(), last_played },
            ),
        decreases n - i,
    {
        let ghost st = ManifestState {
            name: name.deep_view(),
            appid: appid.deep_view(),
            last_played,
        };
        let q = quoted_values(&lines[i]);
        proof {
            assert(lines[i as int].deep_view() == lines.deep_view()[i as int]);
            assert(lines.deep_view().skip(i as int)[0] == lines.deep_view()[i as int]);
            assert(lines.deep_view().skip(i as int).skip(1) =~= lines.deep_view().skip(
                i as int + 1,
            ));
            assert(q.deep_view() == quoted_values_spec(lines.deep_view()[i as int]));
        }
        if q.len() >= 2 {
            proof {
                assert(q.deep_view()[0] == q@[0]@);
                assert(q.deep_view()[1] == q@[1]@);
            }
            if q[0] == name_key {
                name = Some(q[1].clone());
            } else if q[0] == appid_key {
                appid = Some(q[1].clone());
            } else if q[0] == last_played_key {
                match parse_u64(q[1].as_str()) {
                    Some(v) => {
                        last_played = v;
                    },
                    None => {},
                }
            }
        }
        proof {
            assert(manifest_fold(lines.deep_view().skip(i as int), st) == manifest_fold(
                lines.deep_view().skip(i as int + 1),
                manifest_step(st, lines.deep_view()[i as int]),
            ));
        }
        i = i + 1;
    }
    proof {
        assert(lines.deep_view().skip(n as int).len() == 0);
    }
    match name {
        Some(n_val) => if n_val.as_str().is_empty() {
            None
        } else {
            match appid {
                Some(a_val) => Some(
                    SteamGame { name: n_val, appid: a_val, last_played, playtime_minutes: 0 },
                ),
                None => None,
            }
        },
        None => None,
    }
}

} // verus!
