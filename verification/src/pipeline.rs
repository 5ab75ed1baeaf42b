//! The aggregation pipeline: filter out non-game pseudo-entries, keep the
//! first record per application id, attach playtime, and sort the result by
//! last-played time descending with the id as ascending tie-break.
use vstd::prelude::*;

verus! {

use vstd::multiset::Multiset;
use crate::game::GameView;
use crate::game::SteamGame;
use crate::game::is_game_entry;
use crate::game::is_game_name;
use crate::playtime::PlaytimeTable;
use crate::strorder::lex_le;
use crate::strorder::lemma_lex_le_antisym;
use crate::strorder::lemma_lex_le_total;
use crate::strorder::lemma_lex_le_trans;
use crate::strorder::str_le;

broadcast use vstd::seq_lib::group_to_multiset_ensures;

/// `a` may stand before `b`: later last-played time first, and the
/// application id ascending between equal times.
pub open spec fn record_le(a: GameView, b: GameView) -> bool {
    ||| a.last_played > b.last_played
    ||| (a.last_played == b.last_played && lex_le(a.appid, b.appid))
}

/// Every pair of positions is ordered.
pub open spec fn sorted_records(s: Seq<GameView>) -> bool {
    forall|i: int, j: int| 0 <= i < j < s.len() ==> record_le(s[i], s[j])
}

pub proof fn lemma_record_le_total(a: GameView, b: GameView)
    ensures
        record_le(a, b) || record_le(b, a),
{
    lemma_lex_le_total(a.appid, b.appid);
}

pub proof fn lemma_record_le_trans(a: GameView, b: GameView, c: GameView)
    requires
        record_le(a, b),
        record_le(b, c),
    ensures
        record_le(a, c),
{
    if a.last_played == b.last_played && b.last_played == c.last_played {
        lemma_lex_le_trans(a.appid, b.appid, c.appid);
    }
}

proof fn lemma_record_le_antisym_ids(a: GameView, b: GameView)
    requires
        record_le(a, b),
        record_le(b, a),
    ensures
        a.last_played == b.last_played,
        a.appid == b.appid,
{
    lemma_lex_le_antisym(a.appid, b.appid);
}

/// The order pins the arrangement: a list sorted by last-played descending
/// and id ascending, with pairwise-distinct ids, is the only sorted
/// arrangement of its records.
pub proof fn lemma_sorted_arrangement_unique(s1: Seq<GameView>, s2: Seq<GameView>)
    requires
        sorted_records(s1),
        sorted_records(s2),
        s1.to_multiset() == s2.to_multiset(),
        forall|i: int, j: int|
            0 <= i < j < s1.len() ==> #[trigger] s1[i].appid != #[trigger] s1[j].appid,
    ensures
        s1 == s2,
    decreases s1.len(),
{
    assert(s1.len() == s1.to_multiset().len());
    assert(s2.len() == s2.to_multiset().len());
    if s1.len() == 0 {
        assert(s1 =~= s2);
    } else {
        assert(s1.contains(s1[0]));
        assert(s1.to_multiset().count(s1[0]) > 0);
        assert(s2.to_multiset().count(s1[0]) > 0);
        assert(s2.contains(s1[0]));
        let i2 = choose|i: int| 0 <= i < s2.len() && s2[i] == s1[0];
        assert(s2.contains(s2[0]));
        assert(s2.to_multiset().count(s2[0]) > 0);
        assert(s1.to_multiset().count(s2[0]) > 0);
        assert(s1.contains(s2[0]));
        let i1 = choose|i: int| 0 <= i < s1.len() && s1[i] == s2[0];
        if s1[0] != s2[0] {
            assert(i2 > 0);
            assert(i1 > 0);
            assert(record_le(s2[0], s2[i2]));
            assert(record_le(s1[0], s1[i1]));
            lemma_record_le_antisym_ids(s1[0], s2[0]);
            assert(s1[0].appid == s1[i1].appid);
            assert(false);
        }
        let t1 = s1.drop_first();
        let t2 = s2.drop_first();
        assert(s1 =~= seq![s1[0]] + t1);
        assert(s2 =~= seq![s2[0]] + t2);
        vstd::seq_lib::lemma_multiset_commutative(seq![s1[0]], t1);
        vstd::seq_lib::lemma_multiset_commutative(seq![s2[0]], t2);
        assert(seq![s1[0]].to_multiset() =~= Multiset::<GameView>::empty().insert(s1[0])) by {
            assert(seq![s1[0]] =~= Seq::<GameView>::empty().push(s1[0]));
            assert forall|x: GameView|
                Seq::<GameView>::empty().to_multiset().count(x) == 0 by {
                assert(!Seq::<GameView>::empty().contains(x));
            }
            assert(Seq::<GameView>::empty().to_multiset() =~= Multiset::<GameView>::empty());
        }
        assert forall|x: GameView| t1.to_multiset().count(x) == t2.to_multiset().count(x) by {
            assert(s1.to_multiset().count(x) == seq![s1[0]].to_multiset().count(x)
                + t1.to_multiset().count(x));
            assert(s2.to_multiset().count(x) == seq![s2[0]].to_multiset().count(x)
                + t2.to_multiset().count(x));
        }
        assert(t1.to_multiset() =~= t2.to_multiset());
        assert forall|i: int, j: int| 0 <= i < j < t1.len() implies record_le(t1[i], t1[j]) by {
            assert(t1[i] == s1[i + 1]);
            assert(t1[j] == s1[j + 1]);
        }
        assert forall|i: int, j: int| 0 <= i < j < t2.len() implies record_le(t2[i], t2[j]) by {
            assert(t2[i] == s2[i + 1]);
            assert(t2[j] == s2[j + 1]);
        }
        assert forall|i: int, j: int|
            0 <= i < j < t1.len() implies #[trigger] t1[i].appid != #[trigger] t1[j].appid by {
            assert(t1[i] == s1[i + 1]);
            assert(t1[j] == s1[j + 1]);
            assert(s1[i + 1].appid != s1[j + 1].appid);
        }
        lemma_sorted_arrangement_unique(t1, t2);
        assert forall|k: int| 0 <= k < s1.len() implies s1[k] == s2[k] by {
            if k > 0 {
                assert(t1[k - 1] == s1[k]);
                assert(t2[k - 1] == s2[k]);
            }
        }
        assert(s1 =~= s2);
    }
}

/// The record at `i` of the scan order survives: it is a game entry and no
/// earlier game entry has the same application id.
pub open spec fn survives(s: Seq<GameView>, i: int) -> bool {
    &&& is_game_name(s[i].name)
    &&& forall|j: int| 0 <= j < i ==> !(is_game_name(s[j].name) && s[j].appid == s[i].appid)
}

/// The surviving records, in scan order.
pub open spec fn selected(s: Seq<GameView>) -> Seq<GameView>
    decreases s.len(),
{
    if s.len() == 0 {
        Seq::empty()
    } else {
        let prefix = selected(s.drop_last());
        if survives(s, s.len() - 1) {
            prefix.push(s.last())
        } else {
            prefix
        }
    }
}

/// `g` with its playtime looked up in the table, zero when absent.
pub open spec fn with_playtime(g: GameView, table: Map<Seq<char>, u64>) -> GameView {
    GameView {
        playtime_minutes: if table.contains_key(g.appid) {
            table[g.appid]
        } else {
            0
        },
        ..g
    }
}

/// Each record of `s` with its playtime attached.
pub open spec fn with_playtimes(s: Seq<GameView>, table: Map<Seq<char>, u64>) -> Seq<GameView> {
    Seq::new(s.len(), |i: int| with_playtime(s[i], table))
}

/// Every survivor is a game entry.
pub proof fn lemma_selected_all_games(s: Seq<GameView>)
    ensures
        forall|k: int| 0 <= k < selected(s).len() ==> is_game_name(selected(s)[k].name),
    decreases s.len(),
{
    if s.len() > 0 {
        let d = s.drop_last();
        lemma_selected_all_games(d);
        assert forall|k: int| 0 <= k < selected(s).len() implies is_game_name(
            selected(s)[k].name,
        ) by {
            if k < selected(d).len() {
                assert(selected(s)[k] == selected(d)[k]);
            } else {
                assert(survives(s, s.len() - 1));
                assert(selected(s)[k] == s.last());
            }
        }
    }
}

/// `g` stands at a surviving position of the scan `s`.
pub open spec fn appears_as_survivor(s: Seq<GameView>, g: GameView) -> bool {
    exists|j: int| 0 <= j < s.len() && survives(s, j) && s[j] == g
}

/// Every survivor is one of the scanned records, at a surviving position.
pub proof fn lemma_selected_membership(s: Seq<GameView>)
    ensures
        forall|k: int|
            0 <= k < selected(s).len() ==> appears_as_survivor(s, #[trigger] selected(s)[k]),
    decreases s.len(),
{
    if s.len() > 0 {
        let d = s.drop_last();
        lemma_selected_membership(d);
        assert(forall|i: int| 0 <= i < s.len() - 1 ==> d[i] == s[i]);
        assert forall|k: int| 0 <= k < selected(s).len() implies appears_as_survivor(
            s,
            #[trigger] selected(s)[k],
        ) by {
            if k < selected(d).len() {
                assert(selected(s)[k] == selected(d)[k]);
                assert(appears_as_survivor(d, selected(d)[k]));
                let j = choose|j: int| 0 <= j < d.len() && survives(d, j) && d[j] == selected(d)[k];
                assert(survives(s, j));
                assert(s[j] == selected(s)[k]);
            } else {
                assert(survives(s, s.len() - 1));
                assert(s[s.len() - 1] == selected(s)[k]);
            }
        }
    }
}

/// No two survivors share an application id: the deduplication key is unique
/// in every produced list.
pub proof fn lemma_selected_unique_ids(s: Seq<GameView>)
    ensures
        forall|k1: int, k2: int|
            0 <= k1 < k2 < selected(s).len() ==> #[trigger] selected(s)[k1].appid
                != #[trigger] selected(s)[k2].appid,
    decreases s.len(),
{
    if s.len() > 0 {
        let d = s.drop_last();
        lemma_selected_unique_ids(d);
        lemma_selected_membership(d);
        lemma_selected_all_games(d);
        assert(forall|i: int| 0 <= i < s.len() - 1 ==> d[i] == s[i]);
        assert forall|k1: int, k2: int|
            0 <= k1 < k2 < selected(s).len() implies #[trigger] selected(s)[k1].appid
            != #[trigger] selected(s)[k2].appid by {
            if k2 < selected(d).len() {
                assert(selected(s)[k1] == selected(d)[k1]);
                assert(selected(s)[k2] == selected(d)[k2]);
            } else {
                assert(survives(s, s.len() - 1));
                assert(selected(s)[k2] == s.last());
                assert(selected(s)[k1] == selected(d)[k1]);
                assert(appears_as_survivor(d, selected(d)[k1]));
                let sel1 = selected(d)[k1];
                let j = choose|j: int| 0 <= j < d.len() && survives(d, j) && d[j] == sel1;
                assert(is_game_name(s[j].name));
                assert(!(is_game_name(s[j].name) && s[j].appid == s[s.len() - 1].appid));
            }
        }
    }
}

/// What the sort order means, spelled out: earlier records were played at
/// least as recently, and between records with the same last-played time the
/// application id ascends.
pub proof fn lemma_sorted_order_meaning(s: Seq<GameView>, i: int, j: int)
    requires
        sorted_records(s),
        0 <= i < j < s.len(),
    ensures
        s[i].last_played >= s[j].last_played,
        s[i].last_played == s[j].last_played ==> lex_le(s[i].appid, s[j].appid),
{
    assert(record_le(s[i], s[j]));
}

/// When every scanned record is a game entry and the application ids are
/// pairwise distinct, nothing is dropped: every record survives, in scan
/// order.
pub proof fn lemma_distinct_ids_all_survive(s: Seq<GameView>)
    requires
        forall|i: int| 0 <= i < s.len() ==> is_game_name(#[trigger] s[i].name),
        forall|i: int, j: int|
            0 <= i < j < s.len() ==> #[trigger] s[i].appid != #[trigger] s[j].appid,
    ensures
        selected(s) == s,
    decreases s.len(),
{
    if s.len() == 0 {
        assert(selected(s) =~= s);
    } else {
        let d = s.drop_last();
        assert(forall|i: int| 0 <= i < s.len() - 1 ==> d[i] == s[i]);
        lemma_distinct_ids_all_survive(d);
        assert(survives(s, s.len() - 1));
        assert(selected(s) =~= s);
    }
}

/// The first game entry with a given application id survives; every later
/// record with the same id is dropped.
pub proof fn lemma_first_occurrence_wins(s: Seq<GameView>, i: int, j: int)
    requires
        0 <= i < j < s.len(),
        is_game_name(s[i].name),
        s[j].appid == s[i].appid,
        forall|k: int| 0 <= k < i ==> !(is_game_name(#[trigger] s[k].name) && s[k].appid == s[i].appid),
    ensures
        survives(s, i),
        !survives(s, j),
{
    assert(is_game_name(s[i].name) && s[i].appid == s[j].appid);
}

fn record_le_exec(a: &SteamGame, b: &SteamGame) -> (r: bool)
    ensures
        r == record_le(a@, b@),
{
    if a.last_played > b.last_played {
        true
    } else if a.last_played == b.last_played {
        str_le(a.appid.as_str(), b.appid.as_str())
    } else {
        false
    }
}

proof fn lemma_to_multiset_insert(s: Seq<GameView>, j: int, x: GameView)
    requires
        0 <= j <= s.len(),
    ensures
        s.insert(j, x).to_multiset() == s.to_multiset().insert(x),
{
    let t = s.insert(j, x);
    assert(t.remove(j) =~= s);
    assert(t[j] == x);
    assert(t.contains(x));
    assert(t.to_multiset().count(x) > 0);
    assert(t.to_multiset().remove(x) == s.to_multiset());
    assert(t.to_multiset() =~= s.to_multiset().insert(x));
}

/// Insert one record into a sorted list, keeping it sorted.
fn insert_sorted(out: &mut Vec<SteamGame>, g: SteamGame)
    requires
        sorted_records(old(out).deep_view()),
    ensures
        sorted_records(final(out).deep_view()),
        final(out).deep_view().to_multiset() == old(out).deep_view().to_multiset().insert(g@),
        final(out).deep_view().len() == old(out).deep_view().len() + 1,
{
    let ghost s0 = out.deep_view();
    let n = out.len();
    let mut j: usize = 0;
    while j < n && record_le_exec(&out[j], &g)
        invariant
            n == out@.len(),
            j <= n,
            out.deep_view() == s0,
            sorted_records(s0),
            forall|k: int| 0 <= k < j ==> record_le(s0[k], g@),
        decreases n - j,
    {
        proof {
            assert(out@[j as int]@ == s0[j as int]);
        }
        j = j + 1;
    }
    proof {
        if j < n {
            assert(out@[j as int]@ == s0[j as int]);
            lemma_record_le_total(s0[j as int], g@);
        }
    }
    out.insert(j, g);
    proof {
        let nd = out.deep_view();
        assert(nd =~= s0.insert(j as int, g@));
        lemma_to_multiset_insert(s0, j as int, g@);
        assert forall|x: int, y: int| 0 <= x < y < nd.len() implies record_le(nd[x], nd[y]) by {
            let jj = j as int;
            if y < jj {
                assert(nd[x] == s0[x] && nd[y] == s0[y]);
            } else if x < jj && y == jj {
                assert(nd[x] == s0[x] && nd[y] == g@);
            } else if x < jj && y > jj {
                assert(nd[x] == s0[x] && nd[y] == s0[y - 1]);
            } else if x == jj {
                assert(nd[x] == g@ && nd[y] == s0[y - 1]);
                assert(record_le(g@, s0[jj]));
                if y - 1 > jj {
                    assert(record_le(s0[jj], s0[y - 1]));
                    lemma_record_le_trans(g@, s0[jj], s0[y - 1]);
                }
            } else {
                assert(nd[x] == s0[x - 1] && nd[y] == s0[y - 1]);
            }
        }
    }
}

/// Sort records by last-played time descending, application id ascending.
fn sort_records(input: Vec<SteamGame>) -> (r: Vec<SteamGame>)
    ensures
        sorted_records(r.deep_view()),
        r.deep_view().to_multiset() == input.deep_view().to_multiset(),
        r.deep_view().len() == input.deep_view().len(),
{
    let ghost v0 = input.deep_view();
    let mut rest = input;
    let mut out: Vec<SteamGame> = Vec::new();
    proof {
        assert(out.deep_view() =~= Seq::<GameView>::empty());
        assert(out.deep_view().to_multiset().add(rest.deep_view().to_multiset())
            =~= v0.to_multiset());
    }
    loop
        invariant
            sorted_records(out.deep_view()),
            out.deep_view().to_multiset().add(rest.deep_view().to_multiset())
                == v0.to_multiset(),
            out.deep_view().len() + rest.deep_view().len() == v0.len(),
        ensures
            rest@.len() == 0,
            sorted_records(out.deep_view()),
            out.deep_view().to_multiset().add(rest.deep_view().to_multiset())
                == v0.to_multiset(),
            out.deep_view().len() + rest.deep_view().len() == v0.len(),
        decreases rest@.len(),
    {
        let ghost rd = rest.deep_view();
        let ghost od = out.deep_view();
        if rest.len() == 0 {
            break ;
        }
        let g = match rest.pop() {
            Some(g) => g,
            None => {
                proof {
                    assert(false);
                }
                unreached()
            },
        };
        proof {
            assert(rest.deep_view() =~= rd.drop_last());
            assert(g@ == rd.last());
            assert(rd.drop_last().push(rd.last()) =~= rd);
            assert(rd.drop_last().to_multiset().insert(rd.last()) =~= rd.to_multiset());
        }
        insert_sorted(&mut out, g);
        proof {
            assert(out.deep_view().to_multiset() =~= od.to_multiset().insert(g@));
            assert(out.deep_view().to_multiset().add(rest.deep_view().to_multiset())
                =~= v0.to_multiset());
        }
    }
    proof {
        assert forall|x: GameView| rest.deep_view().to_multiset().count(x) == 0 by {
            assert(!rest.deep_view().contains(x));
        }
        assert(out.deep_view().to_multiset() =~= v0.to_multiset());
        assert(v0.to_multiset().len() == v0.len());
        assert(out.deep_view().to_multiset().len() == out.deep_view().len());
    }
    out
}

/// Some game entry among the first `bound` scanned records carries `id`.
pub open spec fn id_seen_from_scan(s: Seq<GameView>, bound: int, id: Seq<char>) -> bool {
    exists|j: int| 0 <= j < bound && is_game_name(s[j].name) && s[j].appid == id
}

fn seen_contains(seen: &Vec<String>, id: &String) -> (r: bool)
    ensures
        r == seen.deep_view().contains(id@),
{
    let n = seen.len();
    let mut i: usize = 0;
    while i < n
        invariant
            n == seen@.len(),
            i <= n,
            forall|j: int| 0 <= j < i ==> seen.deep_view()[j] != id@,
        decreases n - i,
    {
        if seen[i] == *id {
            proof {
                assert(seen.deep_view()[i as int] == id@);
            }
            return true;
        }
        i = i + 1;
    }
    proof {
        assert(!seen.deep_view().contains(id@));
    }
    false
}

/// Aggregate the scanned records: drop non-game entries, keep the first
/// record per application id, attach each kept record's playtime from the
/// table, and sort. The result holds exactly the surviving records (each a
/// game entry), ordered by last-played descending with ascending id as the
/// tie-break.
pub fn aggregate_games(scanned: &Vec<SteamGame>, playtimes: &PlaytimeTable) -> (r: Vec<SteamGame>)
    ensures
        r.deep_view().to_multiset() == with_playtimes(
            selected(scanned.deep_view()),
            playtimes@,
        ).to_multiset(),
        r.deep_view().len() == selected(scanned.deep_view()).len(),
        sorted_records(r.deep_view()),
        forall|i: int| 0 <= i < r.deep_view().len() ==> is_game_name(r.deep_view()[i].name),
        forall|i: int, j: int|
            0 <= i < j < r.deep_view().len() ==> #[trigger] r.deep_view()[i].appid
                != #[trigger] r.deep_view()[j].appid,
{
    let ghost sv = scanned.deep_view();
    let mut filtered: Vec<SteamGame> = Vec::new();
    let mut seen: Vec<String> = Vec::new();
    let n = scanned.len();
    let mut i: usize = 0;
    proof {
        assert(sv.take(0) =~= Seq::<GameView>::empty());
        assert(filtered.deep_view() =~= with_playtimes(selected(sv.take(0)), playtimes@));
    }
    while i < n
        invariant
            n == scanned@.len(),
            i <= n,
            sv == scanned.deep_view(),
            filtered.deep_view() == with_playtimes(selected(sv.take(i as int)), playtimes@),
            forall|j: int|
                0 <= j < i && is_game_name(#[trigger] sv[j].name) ==> seen.deep_view().contains(
                    sv[j].appid,
                ),
            forall|k: int|
                0 <= k < seen.deep_view().len() ==> id_seen_from_scan(
                    sv,
                    i as int,
                    #[trigger] seen.deep_view()[k],
                ),
        decreases n - i,
    {
        let ghost ii = i as int;
        let g = &scanned[i];
        proof {
            assert(g@ == sv[ii]);
            assert(sv.take(ii + 1).drop_last() =~= sv.take(ii));
            assert(sv.take(ii + 1).last() == sv[ii]);
            assert(forall|j: int| 0 <= j < ii ==> sv.take(ii + 1)[j] == sv[j]);
        }
        let is_game = is_game_entry(g);
        if is_game {
            let dup = seen_contains(&seen, &g.appid);
            if !dup {
                proof {
                    // no earlier game entry carries this id, else its id
                    // would already be recorded in `seen`
                    assert forall|j: int|
                        0 <= j < ii implies !(is_game_name(sv[j].name) && sv[j].appid
                        == sv[ii].appid) by {
                        if is_game_name(sv[j].name) && sv[j].appid == sv[ii].appid {
                            assert(seen.deep_view().contains(sv[j].appid));
                        }
                    }
                    assert(survives(sv.take(ii + 1), ii));
                }
                let minutes = playtimes.get_minutes(&g.appid);
                let record = SteamGame {
                    name: g.name.clone(),
                    appid: g.appid.clone(),
                    last_played: g.last_played,
                    playtime_minutes: minutes,
                };
                let ghost fbefore = filtered.deep_view();
                let ghost sbefore = seen.deep_view();
                filtered.push(record);
                seen.push(g.appid.clone());
                proof {
                    assert(record@ == with_playtime(sv[ii], playtimes@));
                    assert(filtered.deep_view() =~= fbefore.push(record@));
                    assert(seen.deep_view() =~= sbefore.push(sv[ii].appid));
                    assert(selected(sv.take(ii + 1)) == selected(sv.take(ii)).push(sv[ii]));
                    assert(filtered.deep_view() =~= with_playtimes(
                        selected(sv.take(ii + 1)),
                        playtimes@,
                    ));
                    assert forall|x: Seq<char>| sbefore.contains(x) implies seen.deep_view()
                        .contains(x) by {
                        let k = choose|k: int| 0 <= k < sbefore.len() && sbefore[k] == x;
                        assert(seen.deep_view()[k] == x);
                    }
                    assert(seen.deep_view()[sbefore.len() as int] == sv[ii].appid);
                    assert(seen.deep_view().contains(sv[ii].appid));
                    assert forall|k: int| 0 <= k < seen.deep_view().len() implies id_seen_from_scan(
                        sv,
                        ii + 1,
                        #[trigger] seen.deep_view()[k],
                    ) by {
                        if k < sbefore.len() {
                            assert(seen.deep_view()[k] == sbefore[k]);
                            assert(id_seen_from_scan(sv, ii, sbefore[k]));
                            let sk = sbefore[k];
                            let j = choose|j: int|
                                0 <= j < ii && is_game_name(sv[j].name) && sv[j].appid == sk;
                            assert(0 <= j < ii + 1 && is_game_name(sv[j].name) && sv[j].appid
                                == seen.deep_view()[k]);
                        } else {
                            assert(seen.deep_view()[k] == sv[ii].appid);
                            assert(is_game_name(sv[ii].name));
                        }
                    }
                }
            } else {
                proof {
                    assert(seen.deep_view().contains(sv[ii].appid));
                    let k = choose|k: int|
                        0 <= k < seen.deep_view().len() && seen.deep_view()[k] == sv[ii].appid;
                    assert(id_seen_from_scan(sv, ii, sv[ii].appid));
                    let j = choose|j: int|
                        0 <= j < ii && is_game_name(sv[j].name) && sv[j].appid == sv[ii].appid;
                    assert(sv.take(ii + 1)[j] == sv[j]);
                    assert(!survives(sv.take(ii + 1), ii));
                    assert(selected(sv.take(ii + 1)) == selected(sv.take(ii)));
                }
            }
        } else {
            proof {
                assert(!survives(sv.take(ii + 1), ii));
                assert(selected(sv.take(ii + 1)) == selected(sv.take(ii)));
            }
        }
        i = i + 1;
    }
    proof {
        assert(sv.take(n as int) =~= sv);
    }
    let result = sort_records(filtered);
    proof {
        let rd = result.deep_view();
        let sel = with_playtimes(selected(sv), playtimes@);
        lemma_selected_all_games(sv);
        assert forall|k: int| 0 <= k < rd.len() implies is_game_name(rd[k].name) by {
            assert(rd.contains(rd[k]));
            assert(rd.to_multiset().count(rd[k]) > 0);
            assert(sel.to_multiset().count(rd[k]) > 0);
            assert(sel.contains(rd[k]));
            let m = choose|m: int| 0 <= m < sel.len() && sel[m] == rd[k];
            assert(sel[m] == with_playtime(selected(sv)[m], playtimes@));
        }
        lemma_selected_unique_ids(sv);
        assert forall|m1: int, m2: int| 0 <= m1 < m2 < sel.len() implies #[trigger] sel[m1].appid
            != #[trigger] sel[m2].appid by {
            assert(sel[m1] == with_playtime(selected(sv)[m1], playtimes@));
            assert(sel[m2] == with_playtime(selected(sv)[m2], playtimes@));
        }
        assert(sel.no_duplicates()) by {
            assert forall|m1: int, m2: int|
                0 <= m1 < sel.len() && 0 <= m2 < sel.len() && m1 != m2 implies sel[m1]
                != sel[m2] by {
                if m1 < m2 {
                    assert(sel[m1].appid != sel[m2].appid);
                } else {
                    assert(sel[m2].appid != sel[m1].appid);
                }
            }
        }
        sel.lemma_multiset_has_no_duplicates();
        rd.lemma_multiset_has_no_duplicates_conv();
        assert forall|i: int, j: int| 0 <= i < j < rd.len() implies #[trigger] rd[i].appid
            != #[trigger] rd[j].appid by {
            if rd[i].appid == rd[j].appid {
                assert(rd[i] != rd[j]);
                assert(rd.contains(rd[i]));
                assert(rd.to_multiset().count(rd[i]) > 0);
                assert(sel.to_multiset().count(rd[i]) > 0);
                assert(sel.contains(rd[i]));
                assert(rd.contains(rd[j]));
                assert(rd.to_multiset().count(rd[j]) > 0);
                assert(sel.to_multiset().count(rd[j]) > 0);
                assert(sel.contains(rd[j]));
                let m1 = choose|m: int| 0 <= m < sel.len() && sel[m] == rd[i];
                let m2 = choose|m: int| 0 <= m < sel.len() && sel[m] == rd[j];
                assert(m1 != m2);
                if m1 < m2 {
                    assert(sel[m1].appid != sel[m2].appid);
                } else {
                    assert(sel[m2].appid != sel[m1].appid);
                }
            }
        }
    }
    result
}

} // verus!
