//! Playtime per application id: parsing one user profile's nested
//! configuration text with a key-stack context tracker, and merging tables
//! across profiles by keeping the maximum value per id.
use vstd::prelude::*;

verus! {

use vstd::string::StrSliceExecFns;
use crate::lines::lines_spec;
use crate::lines::split_lines;
use crate::numbers::parse_u64;
use crate::numbers::parse_u64_spec;
use crate::tokenizer::quoted_values;
use crate::tokenizer::quoted_values_spec;

/// The mapping that an association list denotes; a later entry for the same
/// key overrides an earlier one.
pub open spec fn entries_map(s: Seq<(Seq<char>, u64)>) -> Map<Seq<char>, u64>
    decreases s.len(),
{
    if s.len() == 0 {
        Map::empty()
    } else {
        entries_map(s.drop_last()).insert(s.last().0, s.last().1)
    }
}

proof fn lemma_entries_map_contains(s: Seq<(Seq<char>, u64)>, k: Seq<char>)
    ensures
        entries_map(s).contains_key(k) <==> (exists|i: int| 0 <= i < s.len() && s[i].0 == k),
    decreases s.len(),
{
    if s.len() > 0 {
        lemma_entries_map_contains(s.drop_last(), k);
        assert(forall|i: int| 0 <= i < s.len() - 1 ==> s.drop_last()[i] == s[i]);
        if s.last().0 == k {
            assert(s[s.len() - 1].0 == k);
        } else if exists|i: int| 0 <= i < s.len() && s[i].0 == k {
            let i = choose|i: int| 0 <= i < s.len() && s[i].0 == k;
            assert(i < s.len() - 1);
            assert(s.drop_last()[i].0 == k);
        }
    }
}

proof fn lemma_entries_map_value(s: Seq<(Seq<char>, u64)>, i: int)
    requires
        0 <= i < s.len(),
        forall|j: int| i < j < s.len() ==> s[j].0 != s[i].0,
    ensures
        entries_map(s).contains_key(s[i].0),
        entries_map(s)[s[i].0] == s[i].1,
    decreases s.len(),
{
    if i < s.len() - 1 {
        assert(forall|j: int| 0 <= j < s.len() - 1 ==> s.drop_last()[j] == s[j]);
        lemma_entries_map_value(s.drop_last(), i);
        assert(s.last().0 != s[i].0);
    }
}

/// Playtime in minutes per application id.
pub struct PlaytimeTable {
    entries: Vec<(String, u64)>,
}

impl View for PlaytimeTable {
    type V = Map<Seq<char>, u64>;

    closed spec fn view(&self) -> Map<Seq<char>, u64> {
        entries_map(self.entries.deep_view())
    }
}

impl PlaytimeTable {
    #[verifier::type_invariant]
    spec fn wf(self) -> bool {
        forall|i: int, j: int|
            0 <= i < j < self.entries.deep_view().len() ==> #[trigger] self.entries.deep_view()[i].0
                != #[trigger] self.entries.deep_view()[j].0
    }

    /// An empty table.
    pub fn new() -> (t: PlaytimeTable)
        ensures
            t@ == Map::<Seq<char>, u64>::empty(),
    {
        let t = PlaytimeTable { entries: Vec::new() };
        proof {
            assert(t.entries.deep_view() =~= Seq::<(Seq<char>, u64)>::empty());
        }
        t
    }

    /// The minutes recorded for `id`, or zero when there is no record.
    pub fn get_minutes(&self, id: &String) -> (r: u64)
        ensures
            r == (if self@.contains_key(id@) {
                self@[id@]
            } else {
                0
            }),
    {
        proof {
            use_type_invariant(&*self);
        }
        let n = self.entries.len();
        let mut i: usize = 0;
        while i < n
            invariant
                n == self.entries@.len(),
                i <= n,
                self.wf(),
                forall|j: int| 0 <= j < i ==> self.entries.deep_view()[j].0 != id@,
            decreases n - i,
        {
            if self.entries[i].0 == *id {
                proof {
                    assert(self.entries.deep_view()[i as int].0 == id@);
                    lemma_entries_map_value(self.entries.deep_view(), i as int);
                }
                return self.entries[i].1;
            }
            i = i + 1;
        }
        proof {
            lemma_entries_map_contains(self.entries.deep_view(), id@);
        }
        0
    }

    /// Record `minutes` for `id`, replacing any earlier record.
    pub fn insert(&mut self, id: String, minutes: u64)
        ensures
            final(self)@ == old(self)@.insert(id@, minutes),
    {
        proof {
            use_type_invariant(&*self);
        }
        let ghost s0 = self.entries.deep_view();
        let mut entries: Vec<(String, u64)> = Vec::new();
        core::mem::swap(&mut entries, &mut self.entries);
        proof {
            assert(self.entries.deep_view() =~= Seq::<(Seq<char>, u64)>::empty());
        }
        proof {
            assert(forall|x: int, y: int|
                0 <= x < y < s0.len() ==> #[trigger] s0[x].0 != #[trigger] s0[y].0);
        }
        let n = entries.len();
        let mut i: usize = 0;
        while i < n
            invariant
                n == entries@.len(),
                i <= n,
                entries.deep_view() == s0,
                s0 == old(self).entries.deep_view(),
                forall|x: int, y: int|
                    0 <= x < y < s0.len() ==> #[trigger] s0[x].0 != #[trigger] s0[y].0,
                forall|j: int| 0 <= j < i ==> s0[j].0 != id@,
            decreases n - i,
        {
            if entries[i].0 == id {
                let ghost ii = i as int;
                proof {
                    assert(s0[ii].0 == entries@[ii].0@);
                    assert(s0[ii].0 == id@);
                }
                let pair = entries.remove(i);
                let key = pair.0;
                entries.insert(i, (key, minutes));
                proof {
                    assert(entries.deep_view() =~= s0.update(ii, (s0[ii].0, minutes)));
                    assert forall|j: int| 0 <= j < s0.len() && j != ii implies s0[j].0 != s0[ii].0 by {
                        if j < ii {
                            assert(s0[j].0 != id@);
                        } else {
                            assert(s0[ii].0 != s0[j].0);
                        }
                    }
                    lemma_entries_map_update(s0, ii, minutes);
                    let nd = entries.deep_view();
                    assert forall|x: int, y: int|
                        0 <= x < y < nd.len() implies #[trigger] nd[x].0 != #[trigger] nd[y].0 by {
                        assert(nd[x].0 == s0[x].0);
                        assert(nd[y].0 == s0[y].0);
                        assert(s0[x].0 != s0[y].0);
                    }
                }
                self.entries = entries;
                return ;
            }
            i = i + 1;
        }
        let ghost before = entries.deep_view();
        entries.push((id, minutes));
        proof {
            assert(entries.deep_view() =~= before.push((id@, minutes)));
            assert(entries.deep_view().drop_last() =~= before);
            lemma_entries_map_contains(before, id@);
            assert forall|x: int, y: int|
                0 <= x < y < entries.deep_view().len() implies #[trigger] entries.deep_view()[x].0
                != #[trigger] entries.deep_view()[y].0 by {
                if y == before.len() as int {
                    assert(before[x].0 != id@);
                }
            }
        }
        self.entries = entries;
    }

    /// Merge `other` into this table: each of `other`'s records is kept
    /// unless this table already holds a larger value for the same id.
    pub fn merge_max_from(&mut self, other: &PlaytimeTable)
        ensures
            final(self)@ == merged_playtimes(old(self)@, other@),
    {
        proof {
            use_type_invariant(&*self);
            use_type_invariant(&*other);
        }
        let ghost a = old(self)@;
        let ghost bdeep = other.entries.deep_view();
        let n = other.entries.len();
        let mut j: usize = 0;
        proof {
            assert(bdeep.take(0) =~= Seq::<(Seq<char>, u64)>::empty());
            assert(self@ =~= merged_playtimes(a, entries_map(bdeep.take(0))));
        }
        while j < n
            invariant
                n == other.entries@.len(),
                j <= n,
                bdeep == other.entries.deep_view(),
                forall|x: int, y: int|
                    0 <= x < y < bdeep.len() ==> #[trigger] bdeep[x].0 != #[trigger] bdeep[y].0,
                self@ == merged_playtimes(a, entries_map(bdeep.take(j as int))),
            decreases n - j,
        {
            let ghost mt = entries_map(bdeep.take(j as int));
            let key = other.entries[j].0.clone();
            let minutes = other.entries[j].1;
            proof {
                assert((key@, minutes) == bdeep[j as int]);
                assert(key@ == bdeep[j as int].0);
                lemma_entries_map_contains(bdeep.take(j as int), key@);
                assert(forall|x: int| 0 <= x < j ==> bdeep.take(j as int)[x] == bdeep[x]);
                assert forall|x: int| 0 <= x < j implies bdeep.take(j as int)[x].0 != key@ by {
                    assert(bdeep[x].0 != bdeep[j as int].0);
                }
                assert(!mt.contains_key(key@));
            }
            let current = self.get_minutes(&key);
            let updated = if current > minutes {
                current
            } else {
                minutes
            };
            self.insert(key, updated);
            proof {
                assert(bdeep.take(j as int + 1).drop_last() =~= bdeep.take(j as int));
                assert(bdeep.take(j as int + 1).last() == bdeep[j as int]);
                assert(entries_map(bdeep.take(j as int + 1)) == mt.insert(
                    bdeep[j as int].0,
                    bdeep[j as int].1,
                ));
                assert(self@ =~= merged_playtimes(a, entries_map(bdeep.take(j as int + 1))));
            }
            j = j + 1;
        }
        proof {
            assert(bdeep.take(n as int) =~= bdeep);
        }
    }
}

proof fn lemma_entries_map_update(s: Seq<(Seq<char>, u64)>, i: int, v: u64)
    requires
        0 <= i < s.len(),
        forall|j: int| 0 <= j < s.len() && j != i ==> s[j].0 != s[i].0,
    ensures
        entries_map(s.update(i, (s[i].0, v))) == entries_map(s).insert(s[i].0, v),
    decreases s.len(),
{
    let t = s.update(i, (s[i].0, v));
    if i == s.len() - 1 {
        assert(t.drop_last() =~= s.drop_last());
        assert(t.last() == (s[i].0, v));
        assert(entries_map(s.drop_last()).insert(s[i].0, v) =~= entries_map(s.drop_last()).insert(
            s[i].0,
            s[i].1,
        ).insert(s[i].0, v));
    } else {
        assert(forall|j: int| 0 <= j < s.len() - 1 ==> s.drop_last()[j] == s[j]);
        assert(t.drop_last() =~= s.drop_last().update(i, (s[i].0, v)));
        lemma_entries_map_update(s.drop_last(), i, v);
        assert(t.last() == s.last());
        assert(s.last().0 != s[i].0);
        assert(entries_map(s.drop_last()).insert(s[i].0, v).insert(s.last().0, s.last().1)
            =~= entries_map(s.drop_last()).insert(s.last().0, s.last().1).insert(s[i].0, v));
    }
}

/// The merge of two playtime tables: every id either table knows, with the
/// larger of the two values where both record one.
pub open spec fn merged_playtimes(a: Map<Seq<char>, u64>, b: Map<Seq<char>, u64>) -> Map<
    Seq<char>,
    u64,
> {
    Map::new(
        |k: Seq<char>| a.contains_key(k) || b.contains_key(k),
        |k: Seq<char>|
            if b.contains_key(k) {
                if a.contains_key(k) && a[k] > b[k] {
                    a[k]
                } else {
                    b[k]
                }
            } else {
                a[k]
            },
    )
}

/// The parser state while reading a nested configuration file: the stack of
/// enclosing block keys, the key waiting for its opening brace, and the
/// playtime records found so far.
pub struct PtState {
    pub stack: Seq<Seq<char>>,
    pub pending: Option<Seq<char>>,
    pub table: Map<Seq<char>, u64>,
}

/// The state before any line was read.
pub open spec fn pt_init() -> PtState {
    PtState { stack: Seq::empty(), pending: None, table: Map::empty() }
}

/// The effect of one line's quoted values: a lone value becomes the pending
/// key; a `Playtime` pair directly inside a block of the `apps` block records
/// the enclosing block's key as an application id.
pub open spec fn pt_tokens_step(st: PtState, line: Seq<char>) -> PtState {
    let q = quoted_values_spec(line);
    if q.len() == 1 {
        PtState { pending: Some(q[0]), ..st }
    } else if q.len() >= 2 && q[0] == "Playtime"@ && st.stack.len() >= 2 && st.stack[st.stack.len()
        - 2] == "apps"@ {
        match parse_u64_spec(q[1]) {
            Some(v) => PtState { table: st.table.insert(st.stack.last(), v), ..st },
            None => st,
        }
    } else {
        st
    }
}

/// The effect of one raw character's brace, if any: an opening brace pushes
/// the pending key (when one is pending), a closing brace pops (when the
/// stack is not empty; an extra closing brace is a no-op).
pub open spec fn pt_brace_step(st: PtState, c: char) -> PtState {
    if c == '{' {
        match st.pending {
            Some(k) => PtState { stack: st.stack.push(k), pending: None, ..st },
            None => st,
        }
    } else if c == '}' {
        if st.stack.len() > 0 {
            PtState { stack: st.stack.drop_last(), ..st }
        } else {
            st
        }
    } else {
        st
    }
}

/// The brace effects of `line[i..]`.
pub open spec fn pt_braces(st: PtState, line: Seq<char>, i: int) -> PtState
    decreases line.len() - i,
{
    if i < 0 || i >= line.len() {
        st
    } else {
        pt_braces(pt_brace_step(st, line[i]), line, i + 1)
    }
}

/// One full line: its quoted values first, then its braces character by
/// character.
pub open spec fn pt_line(st: PtState, line: Seq<char>) -> PtState {
    pt_braces(pt_tokens_step(st, line), line, 0)
}

/// All of `lines`, in order.
pub open spec fn pt_fold(lines: Seq<Seq<char>>, st: PtState) -> PtState
    decreases lines.len(),
{
    if lines.len() == 0 {
        st
    } else {
        pt_fold(lines.skip(1), pt_line(st, lines[0]))
    }
}

/// The playtime records of one profile's configuration text.
pub open spec fn localconfig_playtimes_spec(content: Seq<char>) -> Map<Seq<char>, u64> {
    pt_fold(lines_spec(content), pt_init()).table
}

/// Parse one profile's nested configuration text into its playtime table.
pub fn parse_localconfig_playtimes(content: &str) -> (t: PlaytimeTable)
    ensures
        t@ == localconfig_playtimes_spec(content@),
{
    let lines = split_lines(content);
    let playtime_key = "Playtime".to_owned();
    let apps_key = "apps".to_owned();
    let mut stack: Vec<String> = Vec::new();
    let mut pending: Option<String> = None;
    let mut table = PlaytimeTable::new();
    let n = lines.len();
    let mut i: usize = 0;
    proof {
        assert(lines.deep_view().skip(0) =~= lines.deep_view());
        assert(stack.deep_view() =~= Seq::<Seq<char>>::empty());
    }
    while i < n
        invariant
            n == lines@.len(),
            i <= n,
            lines.deep_view() == lines_spec(content@),
            playtime_key@ == "Playtime"@,
            apps_key@ == "apps"@,
            pt_fold(lines_spec(content@), pt_init()) == pt_fold(
                lines.deep_view().skip(i as int),
                (PtState {
                    stack: stack.deep_view(),
                    pending: pending.deep_view(),
                    table: table@,
                }),
            ),
        decreases n - i,
    {
        let ghost st0 = PtState {
            stack: stack.deep_view(),
            pending: pending.deep_view(),
            table: table@,
        };
        let ghost lseq = lines.deep_view()[i as int];
        proof {
            assert(lines[i as int].deep_view() == lseq);
            assert(lines.deep_view().skip(i as int)[0] == lseq);
            assert(lines.deep_view().skip(i as int).skip(1) =~= lines.deep_view().skip(
                i as int + 1,
            ));
        }
        let q = quoted_values(&lines[i]);
        proof {
            assert(q.deep_view() == quoted_values_spec(lseq));
        }
        if q.len() == 1 {
            proof {
                assert(q.deep_view()[0] == q@[0]@);
            }
            pending = Some(q[0].clone());
        } else if q.len() >= 2 {
            proof {
                assert(q.deep_view()[0] == q@[0]@);
                assert(q.deep_view()[1] == q@[1]@);
            }
            if q[0] == playtime_key {
                let depth = stack.len();
                if depth >= 2 {
                    proof {
                        assert(stack.deep_view()[depth - 2] == stack@[depth - 2]@);
                        assert(stack.deep_view()[depth - 1] == stack@[depth - 1]@);
                        assert(st0.stack.last() == stack.deep_view()[depth - 1]);
                    }
                    if stack[depth - 2] == apps_key {
                        match parse_u64(q[1].as_str()) {
                            Some(minutes) => {
                                let id = stack[depth - 1].clone();
                                table.insert(id, minutes);
                            },
                            None => {},
                        }
                    }
                }
            }
        }
        proof {
            assert(PtState {
                stack: stack.deep_view(),
                pending: pending.deep_view(),
                table: table@,
            } == pt_tokens_step(st0, lseq));
        }
        // the brace pass over the raw line
        let line_len = lines[i].as_str().unicode_len();
        let mut k: usize = 0;
        let ghost st1 = pt_tokens_step(st0, lseq);
        while k < line_len
            invariant
                line_len == lseq.len(),
                k <= line_len,
                lseq == lines.deep_view()[i as int],
                i < n == lines@.len(),
                lines.deep_view() == lines_spec(content@),
                pt_braces(st1, lseq, 0) == pt_braces(
                    (PtState {
                        stack: stack.deep_view(),
                        pending: pending.deep_view(),
                        table: table@,
                    }),
                    lseq,
                    k as int,
                ),
            decreases line_len - k,
        {
            let ghost cur = PtState {
                stack: stack.deep_view(),
                pending: pending.deep_view(),
                table: table@,
            };
            let c = lines[i].as_str().get_char(k);
            if c == '{' {
                match pending {
                    Some(key) => {
                        let ghost sbefore = stack.deep_view();
                        stack.push(key);
                        pending = None;
                        proof {
                            assert(stack.deep_view() =~= sbefore.push(cur.pending->Some_0));
                        }
                    },
                    None => {
                        pending = None;
                    },
                }
            } else if c == '}' {
                if stack.len() > 0 {
                    let ghost sbefore = stack.deep_view();
                    let _popped = stack.pop();
                    proof {
                        assert(stack.deep_view() =~= sbefore.drop_last());
                    }
                } else {
                    proof {
                        assert(stack.deep_view().len() == 0);
                    }
                }
            }
            proof {
                assert(PtState {
                    stack: stack.deep_view(),
                    pending: pending.deep_view(),
                    table: table@,
                } == pt_brace_step(cur, lseq[k as int]));
            }
            k = k + 1;
        }
        i = i + 1;
    }
    proof {
        assert(lines.deep_view().skip(n as int).len() == 0);
    }
    table
}

} // verus!
