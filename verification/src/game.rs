//! The record produced for one installed game, and the filter that keeps
//! pseudo-entries (compatibility layer, container runtime, shared
//! redistributables) out of every result list.
use vstd::prelude::*;

verus! {

use vstd::string::StrSliceExecFns;

/// One installed game: identity, recency and playtime.
#[derive(Clone, Debug, PartialEq, Eq)]
pub struct SteamGame {
    pub name: String,
    pub appid: String,
    pub last_played: u64,
    pub playtime_minutes: u64,
}

/// The mathematical content of a `SteamGame`.
pub struct GameView {
    pub name: Seq<char>,
    pub appid: Seq<char>,
    pub last_played: u64,
    pub playtime_minutes: u64,
}

impl View for SteamGame {
    type V = GameView;

    open spec fn view(&self) -> GameView {
        GameView {
            name: self.name@,
            appid: self.appid@,
            last_played: self.last_played,
            playtime_minutes: self.playtime_minutes,
        }
    }
}

impl DeepView for SteamGame {
    type V = GameView;

    open spec fn deep_view(&self) -> GameView {
        self@
    }
}

/// The code point of `c` with an ASCII capital letter lowered, as
/// `char::to_ascii_lowercase` computes it.
pub open spec fn lower_val(c: char) -> int {
    if 65 <= c as u32 <= 90 {
        c as u32 + 32
    } else {
        c as u32 as int
    }
}

/// `pat` occurs at position `i` of `s`, comparing ASCII case-insensitively.
pub open spec fn ci_matches_at(s: Seq<char>, pat: Seq<char>, i: int) -> bool {
    forall|k: int| 0 <= k < pat.len() ==> lower_val(s[i + k]) == lower_val(pat[k])
}

/// `pat` occurs somewhere in `s`, comparing ASCII case-insensitively.
pub open spec fn contains_ci(s: Seq<char>, pat: Seq<char>) -> bool {
    exists|i: int| 0 <= i && i + pat.len() <= s.len() && ci_matches_at(s, pat, i)
}

/// A display name that denotes an actual game: it contains none of the three
/// known non-game substrings.
pub open spec fn is_game_name(name: Seq<char>) -> bool {
    &&& !contains_ci(name, "proton"@)
    &&& !contains_ci(name, "steam linux runtime"@)
    &&& !contains_ci(name, "steamworks common redistributables"@)
}

fn lower_u32(c: char) -> (r: u32)
    ensures
        r == lower_val(c),
{
    let v = c as u32;
    if 65 <= v && v <= 90 {
        v + 32
    } else {
        v
    }
}

/// Does `s` contain `pat`, ignoring ASCII case?
pub fn contains_ci_str(s: &str, pat: &str) -> (r: bool)
    ensures
        r == contains_ci(s@, pat@),
{
    let n = s.unicode_len();
    let m = pat.unicode_len();
    if m > n {
        return false;
    }
    let mut i: usize = 0;
    while i <= n - m
        invariant
            m <= n == s@.len(),
            m == pat@.len(),
            i <= n - m + 1,
            forall|j: int| 0 <= j < i ==> !ci_matches_at(s@, pat@, j),
        decreases n - m + 1 - i,
    {
        let mut k: usize = 0;
        let mut mismatch = false;
        while k < m
            invariant
                m <= n == s@.len(),
                m == pat@.len(),
                i + m <= n,
                k <= m,
                !mismatch ==> forall|t: int|
                    0 <= t < k ==> lower_val(s@[i + t]) == lower_val(pat@[t]),
                mismatch ==> !ci_matches_at(s@, pat@, i as int),
            decreases m - k,
        {
            if !mismatch {
                let a = lower_u32(s.get_char(i + k));
                let b = lower_u32(pat.get_char(k));
                if a != b {
                    mismatch = true;
                    proof {
                        assert(lower_val(s@[i + k]) != lower_val(pat@[k as int]));
                    }
                }
            }
            k = k + 1;
        }
        if !mismatch {
            proof {
                assert(ci_matches_at(s@, pat@, i as int));
            }
            return true;
        }
        i = i + 1;
    }
    false
}

/// Keep only actual games: a record whose name contains a known non-game
/// substring (ignoring ASCII case) is not a game entry.
pub fn is_game_entry(game: &SteamGame) -> (r: bool)
    ensures
        r == is_game_name(game@.name),
{
    let proton = contains_ci_str(game.name.as_str(), "proton");
    let runtime = contains_ci_str(game.name.as_str(), "steam linux runtime");
    let redist = contains_ci_str(game.name.as_str(), "steamworks common redistributables");
    !proton && !runtime && !redist
}

} // verus!
