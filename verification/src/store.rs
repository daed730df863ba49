//! The identifier-to-URL table.
//!
//! A [`Store`] maps 64-bit identifiers to URL strings. Identifiers are drawn
//! at random on insertion and are guaranteed fresh: no insertion ever
//! overwrites an entry, and entries are never removed. Its mathematical view
//! is the map from each identifier to the character sequence of its URL.

use std::collections::HashMap;
use vstd::prelude::*;

verus! {

broadcast use vstd::std_specs::hash::group_hash_axioms;

/// The one failure of this component: `Store::lookup` on an identifier that
/// has no entry.
#[derive(Clone, Copy, Debug, PartialEq, Eq, Structural)]
pub enum StoreError {
    NotFound,
}

/// The identifier-to-URL table. Created empty; grows by one entry per
/// `insert`; never shrinks.
pub struct Store {
    map: HashMap<u64, String>,
}

/// The mathematical content of an identifier table: each identifier maps to
/// the character sequence of its URL.
pub open spec fn string_views(m: Map<u64, String>) -> Map<u64, Seq<char>> {
    m.map_values(|s: String| s@)
}

impl View for Store {
    type V = Map<u64, Seq<char>>;

    closed spec fn view(&self) -> Map<u64, Seq<char>> {
        string_views(self.map@)
    }
}

proof fn lemma_string_views_dom(m: Map<u64, String>)
    ensures
        string_views(m).dom() == m.dom(),
{
    assert(string_views(m).dom() =~= m.dom());
}

proof fn lemma_string_views_insert(m: Map<u64, String>, id: u64, url: String)
    ensures
        string_views(m.insert(id, url)) == string_views(m).insert(id, url@),
{
    assert(string_views(m.insert(id, url)) =~= string_views(m).insert(id, url@));
}

/// The identifiers below `k`.
spec fn ids_below(k: u64) -> Set<u64> {
    Set::new(|j: u64| j < k)
}

proof fn lemma_ids_below_len(k: u64)
    ensures
        ids_below(k).finite(),
        ids_below(k).len() == k,
    decreases k,
{
    if k == 0 {
        assert(ids_below(0) =~= Set::<u64>::empty());
    } else {
        let p = (k - 1) as u64;
        lemma_ids_below_len(p);
        assert(ids_below(k) =~= ids_below(p).insert(p));
    }
}

/// How many random draws `Store::insert` makes before it falls back to
/// probing identifiers in order. With a 64-bit identifier space the first
/// draw is already free except with vanishing probability; the fallback
/// exists so that `insert` provably terminates even then.
pub const RANDOM_RETRIES: u64 = 64;

/// Relies on `rand::random`: a fresh draw from the thread-local generator.
/// Nothing is assumed of the value.
#[verifier::external_body]
fn random_u64() -> u64 {
    rand::random::<u64>()
}

impl Store {
    /// A store with no entries.
    pub fn new() -> (s: Store)
        ensures
            s@ == Map::<u64, Seq<char>>::empty(),
    {
        let s = Store { map: HashMap::new() };
        proof {
            assert(s@ =~= Map::<u64, Seq<char>>::empty());
        }
        s
    }

    /// Stores a URL under a fresh identifier and returns that identifier.
    ///
    /// The identifier is drawn at random and redrawn on collision; in the
    /// astronomically unlikely event that `RANDOM_RETRIES` draws all collide,
    /// the store probes identifiers in order, which must find a free one
    /// because the table has fewer than `u64::MAX` entries. The URL is taken
    /// as the caller validated and normalized it and is stored verbatim.
    ///
    /// The bound on the table size is forced by the machine: a table of
    /// `u64::MAX` live entries cannot exist in memory.
    #[verifier::loop_isolation(false)]
    pub fn insert(&mut self, url: String) -> (id: u64)
        requires
            old(self)@.dom().len() < u64::MAX,
        ensures
            !old(self)@.dom().contains(id),
            final(self)@ == old(self)@.insert(id, url@),
    {
        proof {
            lemma_string_views_dom(self.map@);
        }
        let ghost m0 = self.map@;
        let mut tries: u64 = RANDOM_RETRIES;
        loop
            invariant
                self.map@ == m0,
            decreases tries,
        {
            let id = random_u64();
            if !self.map.contains_key(&id) {
                proof {
                    lemma_string_views_dom(m0);
                    lemma_string_views_insert(m0, id, url);
                }
                self.map.insert(id, url);
                return id;
            }
            if tries == 0 {
                break;
            }
            tries = tries - 1;
        }
        let mut k: u64 = 0;
        loop
            invariant
                self.map@ == m0,
                forall|j: u64| j < k ==> m0.dom().contains(j),
            decreases u64::MAX - k,
        {
            if !self.map.contains_key(&k) {
                proof {
                    lemma_string_views_dom(m0);
                    lemma_string_views_insert(m0, k, url);
                }
                self.map.insert(k, url);
                return k;
            }
            proof {
                if k == u64::MAX {
                    lemma_ids_below_len(u64::MAX);
                    lemma_string_views_dom(m0);
                    assert(ids_below(u64::MAX).subset_of(m0.dom()));
                    vstd::set_lib::lemma_len_subset(ids_below(u64::MAX), m0.dom());
                }
            }
            assert(k < u64::MAX);
            k = k + 1;
        }
    }

    /// Resolves an identifier: the stored URL if the identifier has an entry,
    /// `NotFound` if and only if it has none.
    pub fn lookup(&self, id: u64) -> (r: Result<String, StoreError>)
        ensures
            match r {
                Ok(url) => self@.dom().contains(id) && url@ == self@[id],
                Err(e) => !self@.dom().contains(id) && e == StoreError::NotFound,
            },
    {
        proof {
            lemma_string_views_dom(self.map@);
        }
        match self.map.get(&id) {
            Some(url) => Ok(url.clone()),
            None => Err(StoreError::NotFound),
        }
    }

    /// The number of entries.
    pub fn len(&self) -> (n: usize)
        ensures
            n == self@.dom().len(),
    {
        proof {
            lemma_string_views_dom(self.map@);
        }
        self.map.len()
    }
}

/// The table that a run of insertions leaves behind: starting from `m0`,
/// each step adds one identifier-URL pair, in order. Each step's pair holds
/// the identifier an `insert` call returned and the URL it was given.
pub open spec fn store_after(m0: Map<u64, Seq<char>>, steps: Seq<(u64, Seq<char>)>) -> Map<
    u64,
    Seq<char>,
>
    decreases steps.len(),
{
    if steps.len() == 0 {
        m0
    } else {
        store_after(m0, steps.drop_last()).insert(steps.last().0, steps.last().1)
    }
}

/// Each step's identifier is absent from the table at the moment of its
/// insertion. This is exactly what the `ensures` of `Store::insert` grants
/// of every call, so any run of insertions satisfies it.
pub open spec fn fresh_steps(m0: Map<u64, Seq<char>>, steps: Seq<(u64, Seq<char>)>) -> bool {
    forall|i: int|
        0 <= i < steps.len() ==> !store_after(m0, #[trigger] steps.take(i)).dom().contains(
            steps[i].0,
        )
}

proof fn lemma_store_after_step(m0: Map<u64, Seq<char>>, steps: Seq<(u64, Seq<char>)>, i: int)
    requires
        0 <= i < steps.len(),
    ensures
        store_after(m0, steps.take(i + 1)) == store_after(m0, steps.take(i)).insert(
            steps[i].0,
            steps[i].1,
        ),
{
    assert(steps.take(i + 1).drop_last() =~= steps.take(i));
    assert(steps.take(i + 1).last() == steps[i]);
}

proof fn lemma_store_after_grows(
    m0: Map<u64, Seq<char>>,
    steps: Seq<(u64, Seq<char>)>,
    k: u64,
    i: int,
    j: int,
)
    requires
        0 <= i <= j <= steps.len(),
        store_after(m0, steps.take(i)).dom().contains(k),
    ensures
        store_after(m0, steps.take(j)).dom().contains(k),
    decreases j - i,
{
    if i < j {
        lemma_store_after_grows(m0, steps, k, i, j - 1);
        lemma_store_after_step(m0, steps, j - 1);
    }
}

/// Law: across any run of insertions in which every identifier is free at
/// the moment it is inserted — which the `ensures` of `Store::insert`
/// grants of every call — no two insertions use the same identifier.
pub proof fn lemma_insert_ids_distinct(m0: Map<u64, Seq<char>>, steps: Seq<(u64, Seq<char>)>)
    requires
        fresh_steps(m0, steps),
    ensures
        forall|i: int, j: int| 0 <= i < j < steps.len() ==> steps[i].0 != steps[j].0,
{
    assert forall|i: int, j: int| 0 <= i < j < steps.len() implies steps[i].0 != steps[j].0 by {
        lemma_store_after_step(m0, steps, i);
        assert(store_after(m0, steps.take(i + 1)).dom().contains(steps[i].0));
        lemma_store_after_grows(m0, steps, steps[i].0, i + 1, j);
        assert(!store_after(m0, steps.take(j)).dom().contains(steps[j].0));
    }
}

proof fn lemma_store_after_dom(m0: Map<u64, Seq<char>>, steps: Seq<(u64, Seq<char>)>)
    ensures
        forall|k: u64|
            #[trigger] store_after(m0, steps).dom().contains(k) <==> (m0.dom().contains(k) || exists|
                i: int,
            |
                0 <= i < steps.len() && steps[i].0 == k),
    decreases steps.len(),
{
    if steps.len() > 0 {
        lemma_store_after_dom(m0, steps.drop_last());
        assert forall|k: u64| #[trigger]
            store_after(m0, steps).dom().contains(k) implies (m0.dom().contains(k) || exists|i: int|
            0 <= i < steps.len() && steps[i].0 == k) by {
            if k == steps.last().0 {
                assert(steps[steps.len() - 1].0 == k);
            } else {
                assert(store_after(m0, steps.drop_last()).dom().contains(k));
                if !m0.dom().contains(k) {
                    let i = choose|i: int|
                        0 <= i < steps.drop_last().len() && steps.drop_last()[i].0 == k;
                    assert(steps[i].0 == k);
                }
            }
        }
        assert forall|k: u64|
            (m0.dom().contains(k) || exists|i: int|
                0 <= i < steps.len() && steps[i].0 == k) implies #[trigger] store_after(
            m0,
            steps,
        ).dom().contains(k) by {
            if m0.dom().contains(k) {
                assert(store_after(m0, steps.drop_last()).dom().contains(k));
            } else {
                let i = choose|i: int| 0 <= i < steps.len() && steps[i].0 == k;
                if i < steps.len() - 1 {
                    assert(steps.drop_last()[i].0 == k);
                    assert(store_after(m0, steps.drop_last()).dom().contains(k));
                }
            }
        }
    }
}

/// Law: an identifier that no insertion ever returned has no entry, so
/// `Store::lookup` on it yields `NotFound` by `lookup`'s contract.
pub proof fn lemma_unknown_id(steps: Seq<(u64, Seq<char>)>, id: u64)
    requires
        forall|i: int| 0 <= i < steps.len() ==> steps[i].0 != id,
    ensures
        !store_after(Map::empty(), steps).dom().contains(id),
{
    lemma_store_after_dom(Map::empty(), steps);
}

/// Law: looking up the identifier an insertion returned yields exactly the
/// URL that was stored, by the contracts of `insert` and `lookup`.
pub proof fn lemma_round_trip(m: Map<u64, Seq<char>>, id: u64, url: Seq<char>)
    ensures
        m.insert(id, url).dom().contains(id),
        m.insert(id, url)[id] == url,
{
}

/// Law: after any run of fresh insertions into an empty store, every
/// identifier that was returned still resolves to exactly the URL inserted
/// with it, and the number of entries equals the number of insertions.
pub proof fn lemma_mixed_workload(steps: Seq<(u64, Seq<char>)>)
    requires
        fresh_steps(Map::empty(), steps),
    ensures
        forall|i: int|
            0 <= i < steps.len() ==> #[trigger] store_after(Map::empty(), steps).dom().contains(
                steps[i].0,
            ) && store_after(Map::empty(), steps)[steps[i].0] == steps[i].1,
        store_after(Map::empty(), steps).dom().finite(),
        store_after(Map::empty(), steps).dom().len() == steps.len(),
    decreases steps.len(),
{
    let e = Map::<u64, Seq<char>>::empty();
    if steps.len() > 0 {
        let d = steps.drop_last();
        let n = steps.len() - 1;
        assert(d =~= steps.take(n));
        assert(fresh_steps(e, d)) by {
            assert forall|i: int|
                0 <= i < d.len() implies !store_after(e, #[trigger] d.take(i)).dom().contains(
                d[i].0,
            ) by {
                assert(d.take(i) =~= steps.take(i));
                assert(d[i] == steps[i]);
            }
        }
        lemma_mixed_workload(d);
        lemma_store_after_step(e, steps, n);
        assert(steps.take(n + 1) =~= steps);
        assert(!store_after(e, d).dom().contains(steps[n].0));
        assert(store_after(e, steps) == store_after(e, d).insert(steps[n].0, steps[n].1));
        assert(store_after(e, steps).dom() =~= store_after(e, d).dom().insert(steps[n].0));
        assert forall|i: int|
            0 <= i < steps.len() implies #[trigger] store_after(e, steps).dom().contains(steps[i].0)
            && store_after(e, steps)[steps[i].0] == steps[i].1 by {
            if i < n {
                assert(d[i] == steps[i]);
                assert(store_after(e, d).dom().contains(steps[i].0));
                assert(steps[i].0 != steps[n].0);
            }
        }
    }
}

} // verus!
