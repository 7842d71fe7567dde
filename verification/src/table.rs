//! The in-memory map of the store: a list of entries in which no key occurs
//! twice, found by hashing.

use vstd::hash_map::StringHashMap;
use vstd::prelude::*;

verus! {

/// The keys and values of a list of entries, as mathematical strings.
pub open spec fn pairs_of(entries: Seq<(String, String)>) -> Seq<(Seq<char>, Seq<char>)> {
    entries.map_values(|entry: (String, String)| (entry.0@, entry.1@))
}

/// The map that a list of pairs stands for. Where a key occurs more than
/// once, its last pair counts.
pub open spec fn map_of(pairs: Seq<(Seq<char>, Seq<char>)>) -> Map<Seq<char>, Seq<char>>
    decreases pairs.len(),
{
    if pairs.len() == 0 {
        Map::empty()
    } else {
        map_of(pairs.drop_last()).insert(pairs.last().0, pairs.last().1)
    }
}

/// No key occurs twice among the pairs.
pub open spec fn distinct_keys(pairs: Seq<(Seq<char>, Seq<char>)>) -> bool {
    forall|i: int, j: int| 0 <= i < j < pairs.len() ==> pairs[i].0 != pairs[j].0
}

/// The keys of `map_of(pairs)` are the keys among the pairs.
pub proof fn lemma_map_of_keys(pairs: Seq<(Seq<char>, Seq<char>)>)
    ensures
        forall|key: Seq<char>|
            map_of(pairs).contains_key(key) <==> exists|i: int|
                0 <= i < pairs.len() && #[trigger] pairs[i].0 == key,
    decreases pairs.len(),
{
    if pairs.len() > 0 {
        let front = pairs.drop_last();
        lemma_map_of_keys(front);
        assert forall|key: Seq<char>|
            map_of(pairs).contains_key(key) <==> exists|i: int|
                0 <= i < pairs.len() && #[trigger] pairs[i].0 == key by {
            if map_of(front).contains_key(key) {
                let i = choose|i: int| 0 <= i < front.len() && #[trigger] front[i].0 == key;
                assert(pairs[i].0 == key);
            } else if key != pairs.last().0 && exists|i: int|
                0 <= i < pairs.len() && #[trigger] pairs[i].0 == key {
                let i = choose|i: int| 0 <= i < pairs.len() && #[trigger] pairs[i].0 == key;
                assert(front[i].0 == key);
            }
        }
    }
}

/// Where no key occurs twice, `map_of(pairs)` binds the key of each pair to
/// the value of that pair.
pub proof fn lemma_map_of_values(pairs: Seq<(Seq<char>, Seq<char>)>)
    requires
        distinct_keys(pairs),
    ensures
        forall|i: int|
            0 <= i < pairs.len() ==> map_of(pairs).contains_key(#[trigger] pairs[i].0) && map_of(
                pairs,
            )[pairs[i].0] == pairs[i].1,
    decreases pairs.len(),
{
    if pairs.len() > 0 {
        let front = pairs.drop_last();
        lemma_map_of_values(front);
        assert forall|i: int| 0 <= i < pairs.len() implies map_of(pairs).contains_key(
            #[trigger] pairs[i].0,
        ) && map_of(pairs)[pairs[i].0] == pairs[i].1 by {
            if i < pairs.len() - 1 {
                assert(front[i] == pairs[i]);
            }
        }
    }
}

/// The map of the store: its entries in a list, each key once, and for each
/// key the place of its entry in the list.
pub(crate) struct Table {
    entries: Vec<(String, String)>,
    index: StringHashMap<usize>,
}

impl Table {
    /// The entries as pairs of mathematical strings.
    pub(crate) closed spec fn pairs(&self) -> Seq<(Seq<char>, Seq<char>)> {
        pairs_of(self.entries@)
    }

    /// The index knows every entry's place, and nothing else.
    pub(crate) closed spec fn wf(&self) -> bool {
        &&& forall|i: int|
            0 <= i < self.pairs().len() ==> self.index@.contains_key(#[trigger] self.pairs()[i].0)
                && self.index@[self.pairs()[i].0] == i
        &&& forall|key: Seq<char>| #[trigger]
            self.index@.contains_key(key) ==> self.index@[key] < self.pairs().len()
                && self.pairs()[self.index@[key] as int].0 == key
    }

    /// The map that the table holds.
    pub(crate) closed spec fn model(&self) -> Map<Seq<char>, Seq<char>> {
        map_of(self.pairs())
    }

    /// In a well-formed table no key occurs twice.
    proof fn lemma_distinct(&self)
        requires
            self.wf(),
        ensures
            distinct_keys(self.pairs()),
    {
    }

    /// The empty table.
    pub(crate) fn new() -> (res: Table)
        ensures
            res.wf(),
            res.model() == Map::<Seq<char>, Seq<char>>::empty(),
    {
        Table { entries: Vec::new(), index: StringHashMap::new() }
    }

    /// Where `key` stands in the list, if it is there.
    fn position(&self, key: &String) -> (res: Option<usize>)
        requires
            self.wf(),
        ensures
            match res {
                Some(i) => i < self.pairs().len() && self.pairs()[i as int].0 == key@,
                None => forall|i: int| 0 <= i < self.pairs().len() ==> self.pairs()[i].0 != key@,
            },
    {
        match self.index.get(key.as_str()) {
            Some(place) => Some(*place),
            None => None,
        }
    }

    /// The value that `key` is bound to, if any.
    pub(crate) fn get(&self, key: &String) -> (res: Option<String>)
        requires
            self.wf(),
        ensures
            match res {
                Some(value) => self.model().contains_key(key@) && self.model()[key@] == value@,
                None => !self.model().contains_key(key@),
            },
    {
        proof {
            self.lemma_distinct();
            lemma_map_of_keys(self.pairs());
            lemma_map_of_values(self.pairs());
        }
        match self.position(key) {
            Some(i) => Some(self.entries[i].1.clone()),
            None => None,
        }
    }

    /// Binds `key` to `value`, whatever it was bound to before.
    pub(crate) fn insert(&mut self, key: String, value: String)
        requires
            old(self).wf(),
        ensures
            final(self).wf(),
            final(self).model() == old(self).model().insert(key@, value@),
    {
        let ghost before = self.pairs();
        proof {
            self.lemma_distinct();
        }
        match self.position(&key) {
            Some(i) => {
                self.entries.set(i, (key, value));
                proof {
                    let after = self.pairs();
                    assert(after =~= before.update(i as int, (key@, value@)));
                    lemma_insert_at(before, i as int, value@);
                }
            },
            None => {
                self.index.insert(key.clone(), self.entries.len());
                self.entries.push((key, value));
                proof {
                    let after = self.pairs();
                    assert(after =~= before.push((key@, value@)));
                    assert(after.drop_last() =~= before);
                }
            },
        }
    }

    /// Unbinds `key`, and says whether it was bound.
    pub(crate) fn remove(&mut self, key: &String) -> (res: bool)
        requires
            old(self).wf(),
        ensures
            final(self).wf(),
            final(self).model() == old(self).model().remove(key@),
            res == old(self).model().contains_key(key@),
    {
        let ghost before = self.pairs();
        proof {
            self.lemma_distinct();
            lemma_map_of_keys(before);
        }
        match self.position(key) {
            Some(i) => {
                self.index.remove(key.as_str());
                self.entries.swap_remove(i);
                proof {
                    let after = self.pairs();
                    assert(after =~= before.update(i as int, before.last()).drop_last());
                    lemma_swap_remove(before, i as int);
                }
                if i < self.entries.len() {
                    let moved = self.entries[i].0.clone();
                    self.index.insert(moved, i);
                }
                true
            },
            None => false,
        }
    }

    /// A copy of the entries, each key once.
    pub(crate) fn entries(&self) -> (res: Vec<(String, String)>)
        requires
            self.wf(),
        ensures
            distinct_keys(pairs_of(res@)),
            map_of(pairs_of(res@)) == self.model(),
    {
        let mut copy: Vec<(String, String)> = Vec::new();
        let mut i: usize = 0;
        while i < self.entries.len()
            invariant
                i <= self.entries.len(),
                pairs_of(copy@) == self.pairs().take(i as int),
            decreases self.entries.len() - i,
        {
            let ghost copied = pairs_of(copy@);
            let entry = &self.entries[i];
            let key = entry.0.clone();
            let value = entry.1.clone();
            copy.push((key, value));
            i += 1;
            assert(self.pairs().take(i as int) =~= copied.push(self.pairs()[i - 1]));
        }
        proof {
            assert(self.pairs().take(i as int) =~= self.pairs());
            self.lemma_distinct();
        }
        copy
    }

    /// The table that a list of entries stands for. Where a key occurs more
    /// than once, its last entry counts.
    pub(crate) fn from_entries(entries: &Vec<(String, String)>) -> (res: Table)
        ensures
            res.wf(),
            res.model() == map_of(pairs_of(entries@)),
    {
        let mut table = Table::new();
        let mut i: usize = 0;
        while i < entries.len()
            invariant
                i <= entries.len(),
                table.wf(),
                table.model() == map_of(pairs_of(entries@).take(i as int)),
            decreases entries.len() - i,
        {
            let entry = &entries[i];
            table.insert(entry.0.clone(), entry.1.clone());
            i += 1;
            proof {
                let pairs = pairs_of(entries@);
                assert(pairs.take(i as int).drop_last() =~= pairs.take(i as int - 1));
            }
        }
        assert(pairs_of(entries@).take(i as int) =~= pairs_of(entries@));
        table
    }
}

/// Replacing the value of the pair at `i` binds its key anew and leaves the
/// other keys alone.
proof fn lemma_insert_at(pairs: Seq<(Seq<char>, Seq<char>)>, i: int, value: Seq<char>)
    requires
        distinct_keys(pairs),
        0 <= i < pairs.len(),
    ensures
        distinct_keys(pairs.update(i, (pairs[i].0, value))),
        map_of(pairs.update(i, (pairs[i].0, value))) == map_of(pairs).insert(pairs[i].0, value),
{
    let key = pairs[i].0;
    let after = pairs.update(i, (key, value));
    assert forall|a: int| 0 <= a < after.len() implies (#[trigger] after[a]).0 == pairs[a].0 by {}
    lemma_map_of_keys(pairs);
    lemma_map_of_keys(after);
    lemma_map_of_values(pairs);
    lemma_map_of_values(after);
    let left = map_of(after);
    let right = map_of(pairs).insert(key, value);
    assert forall|q: Seq<char>| left.contains_key(q) == right.contains_key(q) by {
        if left.contains_key(q) {
            let j = choose|j: int| 0 <= j < after.len() && #[trigger] after[j].0 == q;
            assert(pairs[j].0 == q);
        }
        if right.contains_key(q) && q != key {
            let j = choose|j: int| 0 <= j < pairs.len() && #[trigger] pairs[j].0 == q;
            assert(after[j].0 == q);
        }
        assert(after[i].0 == key);
    }
    assert forall|q: Seq<char>| left.contains_key(q) implies left[q] == right[q] by {
        let j = choose|j: int| 0 <= j < after.len() && #[trigger] after[j].0 == q;
        assert(left[q] == after[j].1);
        assert(j != i ==> after[j] == pairs[j]);
    }
}

/// Moving the last pair into the place of the pair at `i` unbinds the key
/// of that pair and leaves the other keys alone.
proof fn lemma_swap_remove(pairs: Seq<(Seq<char>, Seq<char>)>, i: int)
    requires
        distinct_keys(pairs),
        0 <= i < pairs.len(),
    ensures
        distinct_keys(pairs.update(i, pairs.last()).drop_last()),
        map_of(pairs.update(i, pairs.last()).drop_last()) == map_of(pairs).remove(pairs[i].0),
{
    let key = pairs[i].0;
    let last = pairs.len() - 1;
    let after = pairs.update(i, pairs.last()).drop_last();
    assert forall|a: int| 0 <= a < after.len() implies #[trigger] after[a] == pairs[if a == i {
        last
    } else {
        a
    }] by {}
    lemma_map_of_keys(pairs);
    lemma_map_of_keys(after);
    lemma_map_of_values(pairs);
    lemma_map_of_values(after);
    let left = map_of(after);
    let right = map_of(pairs).remove(key);
    assert forall|q: Seq<char>| left.contains_key(q) == right.contains_key(q) by {
        if left.contains_key(q) {
            let j = choose|j: int| 0 <= j < after.len() && #[trigger] after[j].0 == q;
            assert(pairs[if j == i { last } else { j }].0 == q);
        }
        if right.contains_key(q) {
            let j = choose|j: int| 0 <= j < pairs.len() && #[trigger] pairs[j].0 == q;
            assert(after[if j == last { i } else { j }].0 == q);
        }
    }
    assert forall|q: Seq<char>| left.contains_key(q) implies left[q] == right[q] by {
        let j = choose|j: int| 0 <= j < after.len() && #[trigger] after[j].0 == q;
        assert(left[q] == after[j].1);
        assert(after[j] == pairs[if j == i { last } else { j }]);
    }
}

} // verus!
