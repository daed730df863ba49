//! The request-metrics table.
//!
//! A [`RequestCounter`] maps operation names to how often the caller has
//! reported them. Its mathematical view is the map from each reported name,
//! as a character sequence, to its count. A name that was never reported is
//! absent, not present with count zero.

use vstd::prelude::*;

verus! {

/// The request-metrics table. Created with no entries; a name appears with
/// count 1 on its first report and its count rises by exactly 1 per report.
pub struct RequestCounter {
    entries: Vec<(String, u64)>,
}

/// No operation name occurs twice among the entries.
pub open spec fn distinct_names(s: Seq<(String, u64)>) -> bool {
    forall|i: int, j: int| 0 <= i < j < s.len() ==> s[i].0@ != s[j].0@
}

/// The mathematical content of a list of named counts: the map from each
/// name to the count stored beside it (beside its last occurrence, if a name
/// were repeated; the counter never repeats one).
pub open spec fn entries_map(s: Seq<(String, u64)>) -> Map<Seq<char>, nat>
    decreases s.len(),
{
    if s.len() == 0 {
        Map::empty()
    } else {
        entries_map(s.drop_last()).insert(s.last().0@, s.last().1 as nat)
    }
}

impl View for RequestCounter {
    type V = Map<Seq<char>, nat>;

    closed spec fn view(&self) -> Map<Seq<char>, nat> {
        entries_map(self.entries@)
    }
}

/// One report of a name: the name's count rises by 1, a first report sets
/// it to 1, and every other name is untouched.
pub open spec fn spec_bump(m: Map<Seq<char>, nat>, n: Seq<char>) -> Map<Seq<char>, nat> {
    m.insert(n, if m.dom().contains(n) { (m[n] + 1) as nat } else { 1nat })
}

proof fn lemma_entries_map_props(s: Seq<(String, u64)>)
    requires
        distinct_names(s),
    ensures
        forall|n: Seq<char>|
            #[trigger] entries_map(s).dom().contains(n) <==> (exists|i: int|
                0 <= i < s.len() && s[i].0@ == n),
        forall|i: int|
            0 <= i < s.len() ==> entries_map(s).dom().contains(#[trigger] s[i].0@) && entries_map(
                s,
            )[s[i].0@] == s[i].1 as nat,
    decreases s.len(),
{
    if s.len() > 0 {
        let d = s.drop_last();
        assert(distinct_names(d)) by {
            assert(forall|i: int| 0 <= i < d.len() ==> d[i] == s[i]);
        }
        lemma_entries_map_props(d);
        assert forall|n: Seq<char>| #[trigger]
            entries_map(s).dom().contains(n) implies (exists|i: int|
            0 <= i < s.len() && s[i].0@ == n) by {
            if n == s.last().0@ {
                assert(s[s.len() - 1].0@ == n);
            } else {
                assert(entries_map(s) == entries_map(d).insert(s.last().0@, s.last().1 as nat));
                assert(entries_map(d).dom().contains(n));
                let i = choose|i: int| 0 <= i < d.len() && d[i].0@ == n;
                assert(d[i] == s[i]);
                assert(s[i].0@ == n);
            }
        }
        assert forall|i: int| 0 <= i < s.len() implies entries_map(s).dom().contains(
            #[trigger] s[i].0@,
        ) && entries_map(s)[s[i].0@] == s[i].1 as nat by {
            if i < s.len() - 1 {
                assert(d[i] == s[i]);
                assert(s[i].0@ != s.last().0@);
            }
        }
    }
}

impl RequestCounter {
    #[verifier::type_invariant]
    spec fn wf(self) -> bool {
        distinct_names(self.entries@)
    }

    /// A counter with no entries.
    pub fn new() -> (c: RequestCounter)
        ensures
            c@ == Map::<Seq<char>, nat>::empty(),
    {
        RequestCounter { entries: Vec::new() }
    }

    /// Reports one completed operation under `name`: a first report creates
    /// the name with count 1, a later one raises its count by exactly 1.
    ///
    /// The bound on the old count is forced by the machine: a count is held
    /// in 64 bits, and `u64::MAX` reports cannot happen in a process's
    /// lifetime.
    #[verifier::loop_isolation(false)]
    pub fn add(&mut self, name: String)
        requires
            old(self)@.dom().contains(name@) ==> old(self)@[name@] < u64::MAX,
        ensures
            final(self)@ == spec_bump(old(self)@, name@),
    {
        proof {
            use_type_invariant(&*self);
        }
        let mut es: Vec<(String, u64)> = Vec::new();
        std::mem::swap(&mut es, &mut self.entries);
        let ghost s0 = es@;
        let ghost m0 = entries_map(s0);
        proof {
            lemma_entries_map_props(s0);
        }
        let n: usize = es.len();
        let mut i: usize = 0;
        while i < n
            invariant
                i <= n,
                es@ == s0,
                forall|j: int| 0 <= j < i ==> s0[j].0@ != name@,
            decreases n - i,
        {
            if es[i].0 == name {
                let c = es[i].1;
                assert(m0[name@] == c as nat);
                es[i].1 = c + 1;
                proof {
                    let s1 = es@;
                    assert(forall|j: int| 0 <= j < s1.len() ==> s1[j].0 == s0[j].0);
                    assert(distinct_names(s1));
                    lemma_entries_map_props(s1);
                    assert(entries_map(s1) =~= spec_bump(m0, name@)) by {
                        assert forall|x: Seq<char>| #[trigger]
                            entries_map(s1).dom().contains(x) implies spec_bump(
                            m0,
                            name@,
                        ).dom().contains(x) by {
                            let j = choose|j: int| 0 <= j < s1.len() && s1[j].0@ == x;
                            assert(s0[j].0@ == x);
                        }
                        assert forall|x: Seq<char>| #[trigger]
                            spec_bump(m0, name@).dom().contains(x) implies entries_map(
                            s1,
                        ).dom().contains(x) by {
                            if x == name@ {
                                assert(s1[i as int].0@ == x);
                            } else {
                                let j = choose|j: int| 0 <= j < s0.len() && s0[j].0@ == x;
                                assert(s1[j].0@ == x);
                            }
                        }
                        assert forall|x: Seq<char>| #[trigger]
                            spec_bump(m0, name@).dom().contains(x) implies entries_map(s1)[x]
                            == spec_bump(m0, name@)[x] by {
                            if x == name@ {
                                assert(s1[i as int].0@ == x);
                                assert(entries_map(s1)[x] == s1[i as int].1 as nat);
                            } else {
                                let j = choose|j: int| 0 <= j < s0.len() && s0[j].0@ == x;
                                assert(j != i);
                                assert(s1[j] == s0[j]);
                                assert(entries_map(s1)[x] == s1[j].1 as nat);
                                assert(m0[x] == s0[j].1 as nat);
                            }
                        }
                    }
                }
                self.entries = es;
                return;
            }
            i = i + 1;
        }
        es.push((name, 1));
        proof {
            let s1 = es@;
            assert(s1.drop_last() =~= s0);
            assert(s1.last() == (name, 1u64));
            assert(distinct_names(s1)) by {
                assert(forall|j: int| 0 <= j < s0.len() ==> s1[j] == s0[j]);
            }
            assert(!m0.dom().contains(name@));
            assert(entries_map(s1) == spec_bump(m0, name@)) by {
                assert(entries_map(s1) == entries_map(s0).insert(name@, 1nat));
            }
        }
        self.entries = es;
    }

    /// The count recorded under `name`: its value if the name was ever
    /// reported, `None` if and only if it never was.
    #[verifier::loop_isolation(false)]
    pub fn get(&self, name: &String) -> (r: Option<u64>)
        ensures
            match r {
                Some(c) => self@.dom().contains(name@) && c as nat == self@[name@],
                None => !self@.dom().contains(name@),
            },
    {
        proof {
            use_type_invariant(&*self);
            lemma_entries_map_props(self.entries@);
        }
        let n: usize = self.entries.len();
        let mut i: usize = 0;
        while i < n
            invariant
                i <= n,
                forall|j: int| 0 <= j < i ==> self.entries@[j].0@ != name@,
            decreases n - i,
        {
            if self.entries[i].0 == *name {
                return Some(self.entries[i].1);
            }
            i = i + 1;
        }
        None
    }

    /// A full copy of the table, one entry per reported name: internally
    /// consistent, names pairwise distinct, denoting exactly the counter's
    /// current content.
    #[verifier::loop_isolation(false)]
    pub fn all(&self) -> (r: Vec<(String, u64)>)
        ensures
            distinct_names(r@),
            entries_map(r@) == self@,
    {
        proof {
            use_type_invariant(&*self);
        }
        let n: usize = self.entries.len();
        let mut r: Vec<(String, u64)> = Vec::new();
        let mut i: usize = 0;
        while i < n
            invariant
                i <= n,
                r@.len() == i,
                forall|j: int| 0 <= j < i ==> r@[j] == self.entries@[j],
            decreases n - i,
        {
            let name = self.entries[i].0.clone();
            let count = self.entries[i].1;
            r.push((name, count));
            i = i + 1;
        }
        proof {
            assert(r@ =~= self.entries@);
        }
        r
    }
}

/// The counter that a run of reports leaves behind: starting from `m0`,
/// each name in `names` is reported once, in order. Each element is the
/// argument of one `add` call, as a character sequence.
pub open spec fn counter_after(m0: Map<Seq<char>, nat>, names: Seq<Seq<char>>) -> Map<
    Seq<char>,
    nat,
>
    decreases names.len(),
{
    if names.len() == 0 {
        m0
    } else {
        spec_bump(counter_after(m0, names.drop_last()), names.last())
    }
}

/// How many of the reports in `names` were of exactly the name `n`.
pub open spec fn count_of(names: Seq<Seq<char>>, n: Seq<char>) -> nat
    decreases names.len(),
{
    if names.len() == 0 {
        0nat
    } else {
        count_of(names.drop_last(), n) + (if names.last() == n {
            1nat
        } else {
            0nat
        })
    }
}

proof fn lemma_count_of_contains(names: Seq<Seq<char>>, n: Seq<char>)
    ensures
        count_of(names, n) > 0 <==> names.contains(n),
    decreases names.len(),
{
    if names.len() > 0 {
        let d = names.drop_last();
        lemma_count_of_contains(d, n);
        if count_of(names, n) > 0 {
            if names.last() == n {
                assert(names[names.len() - 1] == n);
            } else {
                let i = choose|i: int| 0 <= i < d.len() && d[i] == n;
                assert(names[i] == n);
            }
        }
        if names.contains(n) {
            let i = choose|i: int| 0 <= i < names.len() && names[i] == n;
            if i < names.len() - 1 {
                assert(d[i] == n);
                assert(d.contains(n));
            }
        }
    }
}

/// Law: after any run of reports starting from an empty counter, each
/// name's recorded count equals the number of reports of exactly that name,
/// and a name never reported is absent — not present with count zero.
pub proof fn lemma_counts_match_calls(names: Seq<Seq<char>>, n: Seq<char>)
    ensures
        counter_after(Map::empty(), names).dom().contains(n) <==> names.contains(n),
        names.contains(n) ==> counter_after(Map::empty(), names)[n] == count_of(names, n),
    decreases names.len(),
{
    lemma_count_of_contains(names, n);
    if names.len() > 0 {
        let d = names.drop_last();
        lemma_counts_match_calls(d, n);
        lemma_count_of_contains(d, n);
        if names.contains(n) && names.last() != n {
            let i = choose|i: int| 0 <= i < names.len() && names[i] == n;
            assert(d[i] == n);
            assert(d.contains(n));
        }
        if d.contains(n) {
            let i = choose|i: int| 0 <= i < d.len() && d[i] == n;
            assert(names[i] == n);
        }
    }
}

/// Law: one report touches one name. Reporting a name leaves every other
/// name's presence and count exactly as they were.
pub proof fn lemma_counter_isolation(
    m: Map<Seq<char>, nat>,
    reported: Seq<char>,
    other: Seq<char>,
)
    requires
        reported != other,
    ensures
        spec_bump(m, reported).dom().contains(other) <==> m.dom().contains(other),
        m.dom().contains(other) ==> spec_bump(m, reported)[other] == m[other],
{
}

} // verus!
