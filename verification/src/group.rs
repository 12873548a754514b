//! Grouping of the raw pair sequence by key.
//!
//! A [`GroupedMap`] is an insertion-ordered association from key text to the
//! [`ValOrVec`] cell of all values seen for that key. Keys keep their
//! first-occurrence order: a later repeat of a key grows its cell but never
//! moves it. The mathematical counterpart is [`spec_group`].

use vstd::prelude::*;

use crate::slot::ValOrVec;

verus! {

/// The grouped image of a pair sequence: ordered `(key, value texts)` entries.
pub type SpecGrouped = Seq<(Seq<char>, Seq<Seq<char>>)>;

/// Index of the entry of `key` in `entries`, or `-1` if there is none.
pub open spec fn find_in(entries: SpecGrouped, key: Seq<char>) -> int
    decreases entries,
{
    if entries.len() == 0 {
        -1
    } else if entries[0].0 == key {
        0
    } else {
        let rest = find_in(entries.drop_first(), key);
        if rest < 0 {
            -1
        } else {
            rest + 1
        }
    }
}

/// `find_in` names the first entry of the key, and `-1` means no entry.
pub proof fn lemma_find_in(entries: SpecGrouped, key: Seq<char>)
    ensures
        find_in(entries, key) == -1 ==> forall|j: int|
            0 <= j < entries.len() ==> (#[trigger] entries[j]).0 != key,
        find_in(entries, key) != -1 ==> {
            let f = find_in(entries, key);
            &&& 0 <= f < entries.len()
            &&& entries[f].0 == key
            &&& forall|j: int| 0 <= j < f ==> (#[trigger] entries[j]).0 != key
        },
    decreases entries,
{
    if entries.len() > 0 {
        lemma_find_in(entries.drop_first(), key);
        assert forall|j: int| 1 <= j < entries.len() implies entries.drop_first()[j - 1]
            == #[trigger] entries[j] by {}
    }
}

/// One grouping step: record `value` under `key`, growing the existing entry
/// or appending a fresh one.
pub open spec fn group_step(entries: SpecGrouped, key: Seq<char>, value: Seq<char>) -> SpecGrouped {
    let f = find_in(entries, key);
    if f == -1 {
        entries.push((key, seq![value]))
    } else {
        entries.update(f, (key, entries[f].1.push(value)))
    }
}

/// The grouped image of a pair sequence, processed in arrival order.
pub open spec fn spec_group(pairs: Seq<(Seq<char>, Seq<char>)>) -> SpecGrouped
    decreases pairs,
{
    if pairs.len() == 0 {
        Seq::empty()
    } else {
        group_step(spec_group(pairs.drop_last()), pairs.last().0, pairs.last().1)
    }
}

/// The keys of a pair sequence, in arrival order.
pub open spec fn pair_keys(pairs: Seq<(Seq<char>, Seq<char>)>) -> Seq<Seq<char>> {
    pairs.map_values(|p: (Seq<char>, Seq<char>)| p.0)
}

/// The keys of a grouped image, in entry order.
pub open spec fn grouped_keys(entries: SpecGrouped) -> Seq<Seq<char>> {
    entries.map_values(|e: (Seq<char>, Seq<Seq<char>>)| e.0)
}

/// `keys` with every occurrence after the first removed: each key stands at
/// the position of its first occurrence.
pub open spec fn first_occurrences(keys: Seq<Seq<char>>) -> Seq<Seq<char>>
    decreases keys,
{
    if keys.len() == 0 {
        Seq::empty()
    } else {
        let rest = first_occurrences(keys.drop_last());
        if rest.contains(keys.last()) {
            rest
        } else {
            rest.push(keys.last())
        }
    }
}

/// A key has an entry exactly when it is among the grouped keys.
proof fn lemma_find_in_contains(entries: SpecGrouped, key: Seq<char>)
    ensures
        find_in(entries, key) != -1 <==> grouped_keys(entries).contains(key),
{
    lemma_find_in(entries, key);
    if find_in(entries, key) != -1 {
        assert(grouped_keys(entries)[find_in(entries, key)] == key);
    }
    if grouped_keys(entries).contains(key) {
        let w = choose|w: int| 0 <= w < grouped_keys(entries).len()
            && grouped_keys(entries)[w] == key;
        assert(entries[w].0 == key);
    }
}

/// Key order after grouping equals first-distinct-occurrence order in the
/// input: later repeats of a key never move it.
pub proof fn lemma_group_keeps_first_occurrence_order(pairs: Seq<(Seq<char>, Seq<char>)>)
    ensures
        grouped_keys(spec_group(pairs)) == first_occurrences(pair_keys(pairs)),
    decreases pairs,
{
    if pairs.len() == 0 {
        assert(grouped_keys(spec_group(pairs)) =~= first_occurrences(pair_keys(pairs)));
    } else {
        let prefix = pairs.drop_last();
        lemma_group_keeps_first_occurrence_order(prefix);
        let g = spec_group(prefix);
        let key = pairs.last().0;
        lemma_find_in_contains(g, key);
        lemma_find_in(g, key);
        assert(pair_keys(pairs).drop_last() =~= pair_keys(prefix));
        assert(pair_keys(pairs).last() == key);
        if find_in(g, key) == -1 {
            assert(grouped_keys(group_step(g, key, pairs.last().1))
                =~= grouped_keys(g).push(key));
        } else {
            assert(grouped_keys(group_step(g, key, pairs.last().1)) =~= grouped_keys(g));
        }
    }
}

/// Grouped entries carry pairwise distinct keys.
pub proof fn lemma_group_distinct_keys(pairs: Seq<(Seq<char>, Seq<char>)>)
    ensures
        forall|i: int, j: int|
            0 <= i < j < spec_group(pairs).len()
                ==> (#[trigger] spec_group(pairs)[i]).0 != (#[trigger] spec_group(pairs)[j]).0,
    decreases pairs,
{
    if pairs.len() > 0 {
        let prefix = pairs.drop_last();
        lemma_group_distinct_keys(prefix);
        let g = spec_group(prefix);
        let key = pairs.last().0;
        lemma_find_in(g, key);
        if find_in(g, key) == -1 {
            assert forall|i: int, j: int|
                0 <= i < j < spec_group(pairs).len() implies (#[trigger] spec_group(pairs)[i]).0
                != (#[trigger] spec_group(pairs)[j]).0 by {
                if j == g.len() {
                    assert(g[i].0 != key);
                }
            }
        }
    }
}

/// The view of a vector of `(key, cell)` entries.
pub open spec fn map_entries_view(entries: Seq<(String, ValOrVec)>) -> SpecGrouped {
    Seq::new(entries.len(), |i: int| (entries[i].0@, entries[i].1@))
}

/// An insertion-ordered mapping from key text to the cell of all values seen
/// for that key.
#[derive(Debug)]
pub struct GroupedMap {
    entries: Vec<(String, ValOrVec)>,
}

impl View for GroupedMap {
    type V = SpecGrouped;

    closed spec fn view(&self) -> SpecGrouped {
        map_entries_view(self.entries@)
    }
}

impl GroupedMap {
    /// An empty mapping.
    pub fn new() -> (r: GroupedMap)
        ensures
            r@ == Seq::<(Seq<char>, Seq<Seq<char>>)>::empty(),
    {
        let r = GroupedMap { entries: Vec::new() };
        proof {
            assert(r@ =~= Seq::<(Seq<char>, Seq<Seq<char>>)>::empty());
        }
        r
    }

    /// Index of the entry of `key`, if the key has one.
    pub fn find(&self, key: &String) -> (r: Option<usize>)
        ensures
            match r {
                Some(i) => find_in(self@, key@) == i,
                None => find_in(self@, key@) == -1,
            },
    {
        proof {
            lemma_find_in(self@, key@);
        }
        let n = self.entries.len();
        let mut i: usize = 0;
        while i < n
            invariant
                n == self.entries.len(),
                0 <= i <= n,
                forall|j: int| 0 <= j < i ==> (#[trigger] self@[j]).0 != key@,
            decreases n - i,
        {
            if self.entries[i].0.eq(key) {
                proof {
                    lemma_find_in_unique(self@, key@, i as int);
                }
                return Some(i);
            }
            i = i + 1;
        }
        None
    }

    /// Record one more `(key, value)` pair, in arrival order.
    pub fn insert_pair(&mut self, key: String, value: String)
        ensures
            final(self)@ == group_step(old(self)@, key@, value@),
    {
        proof {
            lemma_find_in(self@, key@);
        }
        let found = self.find(&key);
        match found {
            Some(i) => {
                let (stored_key, mut cell) = self.entries.remove(i);
                cell.push(value);
                self.entries.insert(i, (stored_key, cell));
                proof {
                    assert(final(self)@ =~= group_step(old(self)@, key@, value@));
                }
            }
            None => {
                self.entries.push((key, ValOrVec::Scalar(value)));
                proof {
                    assert(final(self)@ =~= group_step(old(self)@, key@, value@));
                }
            }
        }
    }

    /// Remove the entry of `key`, keeping the order of the remaining
    /// entries. Returns the removed cell, or `None` if the key has none.
    pub fn remove(&mut self, key: &String) -> (r: Option<ValOrVec>)
        ensures
            match r {
                Some(cell) => {
                    let f = find_in(old(self)@, key@);
                    &&& f != -1
                    &&& cell@ == old(self)@[f].1
                    &&& final(self)@ == old(self)@.remove(f)
                },
                None => {
                    &&& find_in(old(self)@, key@) == -1
                    &&& final(self)@ == old(self)@
                },
            },
    {
        proof {
            lemma_find_in(self@, key@);
        }
        let found = self.find(key);
        match found {
            Some(i) => {
                let (_, cell) = self.entries.remove(i);
                proof {
                    assert(final(self)@ =~= old(self)@.remove(i as int));
                }
                Some(cell)
            }
            None => {
                proof {
                    assert(final(self)@ =~= old(self)@);
                }
                None
            }
        }
    }

    /// How many keys have an entry.
    pub fn len(&self) -> (n: usize)
        ensures
            n == self@.len(),
    {
        self.entries.len()
    }

    /// The ordered entries, consuming the mapping.
    pub fn into_entries(self) -> (r: Vec<(String, ValOrVec)>)
        ensures
            map_entries_view(r@) == self@,
    {
        self.entries
    }
}

/// If the keys before `at` differ from `key` and the entry at `at` carries
/// `key`, then `at` is where `find_in` points.
proof fn lemma_find_in_unique(entries: SpecGrouped, key: Seq<char>, at: int)
    requires
        0 <= at < entries.len(),
        entries[at].0 == key,
        forall|j: int| 0 <= j < at ==> (#[trigger] entries[j]).0 != key,
    ensures
        find_in(entries, key) == at,
{
    lemma_find_in(entries, key);
}

/// Group a raw pair sequence: one pass in arrival order, each pair recorded
/// under its key.
pub fn group_entries(pairs: &Vec<(String, String)>) -> (r: GroupedMap)
    ensures
        r@ == spec_group(pairs.deep_view()),
{
    let n = pairs.len();
    let mut grouped = GroupedMap::new();
    let mut i: usize = 0;
    proof {
        assert(pairs.deep_view().take(0) =~= Seq::<(Seq<char>, Seq<char>)>::empty());
    }
    while i < n
        invariant
            n == pairs.len(),
            0 <= i <= n,
            grouped@ == spec_group(pairs.deep_view().take(i as int)),
        decreases n - i,
    {
        let key = pairs[i].0.clone();
        let value = pairs[i].1.clone();
        grouped.insert_pair(key, value);
        proof {
            let dv = pairs.deep_view();
            assert(dv.take(i + 1).drop_last() =~= dv.take(i as int));
            assert(dv.take(i + 1).last() == dv[i as int]);
            assert(dv[i as int] == (pairs[i as int].0@, pairs[i as int].1@));
        }
        i = i + 1;
    }
    proof {
        assert(pairs.deep_view().take(n as int) =~= pairs.deep_view());
    }
    grouped
}

} // verus!
