//! Grouping of decoded pairs by name.

use vstd::hash_map::StringHashMap;
use vstd::prelude::*;

verus! {

/// The test of a pair for its name being `key`.
pub open spec fn named(key: Seq<char>) -> spec_fn((Seq<char>, Seq<char>)) -> bool {
    |p: (Seq<char>, Seq<char>)| p.0 == key
}

/// The values that `pairs` give for `key`, in the order of the pairs.
pub open spec fn values_of(pairs: Seq<(Seq<char>, Seq<char>)>, key: Seq<char>) -> Seq<Seq<char>> {
    pairs.filter(named(key)).map_values(|p: (Seq<char>, Seq<char>)| p.1)
}

/// The mapping from each name that occurs in `pairs` to its values.
pub open spec fn grouped(pairs: Seq<(Seq<char>, Seq<char>)>) -> Map<Seq<char>, Seq<Seq<char>>> {
    Map::new(
        |key: Seq<char>| values_of(pairs, key).len() > 0,
        |key: Seq<char>| values_of(pairs, key),
    )
}

/// The distinct names of `pairs`, each at the place of its first occurrence.
pub open spec fn first_seen(pairs: Seq<(Seq<char>, Seq<char>)>) -> Seq<Seq<char>>
    decreases pairs.len(),
{
    if pairs.len() == 0 {
        Seq::empty()
    } else {
        let before = first_seen(pairs.drop_last());
        if before.contains(pairs.last().0) {
            before
        } else {
            before.push(pairs.last().0)
        }
    }
}

/// Appending a pair appends its value to the values of its name, and to no others.
pub proof fn lemma_values_of_push(
    pairs: Seq<(Seq<char>, Seq<char>)>,
    pair: (Seq<char>, Seq<char>),
    key: Seq<char>,
)
    ensures
        values_of(pairs.push(pair), key) == if pair.0 == key {
            values_of(pairs, key).push(pair.1)
        } else {
            values_of(pairs, key)
        },
{
    pairs.lemma_filter_push(pair, named(key));
    if pair.0 == key {
        assert(values_of(pairs.push(pair), key) =~= values_of(pairs, key).push(pair.1));
    }
}

/// The values for a name in a sequence of pairs followed by another are
/// those in the first followed by those in the second.
pub proof fn lemma_values_of_concat(
    front: Seq<(Seq<char>, Seq<char>)>,
    back: Seq<(Seq<char>, Seq<char>)>,
    key: Seq<char>,
)
    ensures
        values_of(front + back, key) == values_of(front, key) + values_of(back, key),
{
    Seq::filter_distributes_over_add(front, back, named(key));
    assert(values_of(front + back, key) =~= values_of(front, key) + values_of(back, key));
}

/// `pairs` with the pairs at indices `i` and `j` exchanged.
pub open spec fn swapped(pairs: Seq<(Seq<char>, Seq<char>)>, i: int, j: int) -> Seq<
    (Seq<char>, Seq<char>),
> {
    pairs.update(i, pairs[j]).update(j, pairs[i])
}

/// The number of values that `pairs` give for `key` before index `i`: the
/// place, among the values of `key`, of a pair of that name at index `i`.
pub open spec fn rank(pairs: Seq<(Seq<char>, Seq<char>)>, key: Seq<char>, i: int) -> int {
    values_of(pairs.take(i), key).len() as int
}

/// The grouping of pairs depends on nothing but the values of each name in
/// their order: two sequences of pairs that give every name the same values
/// in the same order are grouped into the same map, however the names are
/// interleaved in them.
pub proof fn lemma_grouping_by_name(
    left: Seq<(Seq<char>, Seq<char>)>,
    right: Seq<(Seq<char>, Seq<char>)>,
)
    requires
        forall|key: Seq<char>| values_of(left, key) == values_of(right, key),
    ensures
        grouped(left) == grouped(right),
{
    assert(grouped(left) =~= grouped(right));
}

/// Every name that occurs in `pairs` is mapped to the values of the pairs of
/// that name, in their order, and to at least one; no other name is mapped.
pub proof fn lemma_grouped_values(pairs: Seq<(Seq<char>, Seq<char>)>, key: Seq<char>)
    ensures
        grouped(pairs).contains_key(key) <==> exists|i: int|
            0 <= i < pairs.len() && (#[trigger] pairs[i]).0 == key,
        grouped(pairs).contains_key(key) ==> grouped(pairs)[key] == values_of(pairs, key)
            && grouped(pairs)[key].len() > 0,
{
    let hits = pairs.filter(named(key));
    if values_of(pairs, key).len() > 0 {
        assert(hits.contains(hits[0]));
        pairs.lemma_filter_pred(named(key), 0);
        pairs.lemma_filter_contains_rev(named(key), hits[0]);
        let i = choose|i: int| 0 <= i < pairs.len() && pairs[i] == hits[0];
        assert(pairs[i].0 == key);
    }
    if exists|i: int| 0 <= i < pairs.len() && (#[trigger] pairs[i]).0 == key {
        let i = choose|i: int| 0 <= i < pairs.len() && (#[trigger] pairs[i]).0 == key;
        pairs.lemma_filter_contains(named(key), i);
    }
}

/// Exchanging two neighbours of different names changes no name's values:
/// which of two names comes first does not matter to the map.
pub proof fn lemma_swap_neighbours_of_different_names(
    pairs: Seq<(Seq<char>, Seq<char>)>,
    i: int,
)
    requires
        0 <= i,
        i + 1 < pairs.len(),
        pairs[i].0 != pairs[i + 1].0,
    ensures
        grouped(swapped(pairs, i, i + 1)) == grouped(pairs),
{
    let front = pairs.take(i);
    let back = pairs.skip(i + 2);
    let a = pairs[i];
    let b = pairs[i + 1];
    assert(pairs =~= front.push(a).push(b) + back);
    assert(swapped(pairs, i, i + 1) =~= front.push(b).push(a) + back);
    assert forall|key: Seq<char>| values_of(swapped(pairs, i, i + 1), key) == values_of(
        pairs,
        key,
    ) by {
        lemma_values_of_concat(front.push(a).push(b), back, key);
        lemma_values_of_concat(front.push(b).push(a), back, key);
        lemma_values_of_push(front, a, key);
        lemma_values_of_push(front.push(a), b, key);
        lemma_values_of_push(front, b, key);
        lemma_values_of_push(front.push(b), a, key);
    }
    lemma_grouping_by_name(swapped(pairs, i, i + 1), pairs);
}

/// Exchanging two pairs of the same name exchanges their values in the list
/// of that name, at the places that the two pairs have among the pairs of
/// that name, and changes the values of no other name.
pub proof fn lemma_swap_of_same_name(pairs: Seq<(Seq<char>, Seq<char>)>, i: int, j: int)
    requires
        0 <= i < j < pairs.len(),
        pairs[i].0 == pairs[j].0,
    ensures
        0 <= rank(pairs, pairs[i].0, i) < rank(pairs, pairs[i].0, j) < values_of(
            pairs,
            pairs[i].0,
        ).len(),
        values_of(pairs, pairs[i].0)[rank(pairs, pairs[i].0, i)] == pairs[i].1,
        values_of(pairs, pairs[i].0)[rank(pairs, pairs[i].0, j)] == pairs[j].1,
        values_of(swapped(pairs, i, j), pairs[i].0) == values_of(pairs, pairs[i].0).update(
            rank(pairs, pairs[i].0, i),
            pairs[j].1,
        ).update(rank(pairs, pairs[i].0, j), pairs[i].1),
        forall|key: Seq<char>|
            key != pairs[i].0 ==> values_of(swapped(pairs, i, j), key) == values_of(pairs, key),
{
    let name = pairs[i].0;
    let a = pairs[i];
    let b = pairs[j];
    let front = pairs.take(i);
    let middle = pairs.subrange(i + 1, j);
    let back = pairs.skip(j + 1);
    assert(pairs.take(j) =~= front.push(a) + middle);
    assert(pairs =~= (front.push(a) + middle).push(b) + back);
    assert(swapped(pairs, i, j) =~= (front.push(b) + middle).push(a) + back);
    assert forall|key: Seq<char>|
        {
            &&& values_of(pairs.take(j), key) == values_of(front.push(a), key) + values_of(
                middle,
                key,
            )
            &&& values_of(pairs, key) == values_of((front.push(a) + middle).push(b), key)
                + values_of(back, key)
            &&& values_of(swapped(pairs, i, j), key) == values_of(
                (front.push(b) + middle).push(a),
                key,
            ) + values_of(back, key)
            &&& values_of((front.push(a) + middle).push(b), key) == if key == name {
                (values_of(front, key).push(a.1) + values_of(middle, key)).push(b.1)
            } else {
                values_of(front, key) + values_of(middle, key)
            }
            &&& values_of((front.push(b) + middle).push(a), key) == if key == name {
                (values_of(front, key).push(b.1) + values_of(middle, key)).push(a.1)
            } else {
                values_of(front, key) + values_of(middle, key)
            }
            &&& values_of(front.push(a), key) == if key == name {
                values_of(front, key).push(a.1)
            } else {
                values_of(front, key)
            }
        } by {
        lemma_values_of_concat(front.push(a), middle, key);
        lemma_values_of_concat(front.push(b), middle, key);
        lemma_values_of_concat((front.push(a) + middle).push(b), back, key);
        lemma_values_of_concat((front.push(b) + middle).push(a), back, key);
        lemma_values_of_push(front, a, key);
        lemma_values_of_push(front, b, key);
        lemma_values_of_push(front.push(a) + middle, b, key);
        lemma_values_of_push(front.push(b) + middle, a, key);
    }
    assert(values_of(swapped(pairs, i, j), name) =~= values_of(pairs, name).update(
        rank(pairs, name, i),
        b.1,
    ).update(rank(pairs, name, j), a.1));
}

/// The texts of a sequence of strings.
pub open spec fn texts(strings: Seq<String>) -> Seq<Seq<char>> {
    strings.map_values(|s: String| s@)
}

/// A mapping from each name to the values given for it, in the order in which
/// they arrived. The names are kept in the order in which each was first seen.
pub struct QueryMap {
    keys: Vec<String>,
    lists: Vec<Vec<String>>,
    index: StringHashMap<usize>,
}

impl View for QueryMap {
    type V = Map<Seq<char>, Seq<Seq<char>>>;

    closed spec fn view(&self) -> Map<Seq<char>, Seq<Seq<char>>> {
        Map::new(
            |key: Seq<char>| self.index@.contains_key(key),
            |key: Seq<char>| texts(self.lists@[self.index@[key] as int]@),
        )
    }
}

impl QueryMap {
    /// The names, each at the place of its first occurrence.
    pub closed spec fn key_order(&self) -> Seq<Seq<char>> {
        texts(self.keys@)
    }

    /// The values given for `key`, in the order in which they arrived: at
    /// least one, or `None` where no pair had that name.
    pub fn get(&self, key: &str) -> (r: Option<&Vec<String>>)
        ensures
            match r {
                Some(list) => self@.contains_key(key@) && texts(list@) == self@[key@] && list.len()
                    > 0,
                None => !self@.contains_key(key@),
            },
    {
        proof {
            use_type_invariant(self);
        }
        match self.index.get(key) {
            Some(at) => Some(&self.lists[*at]),
            None => None,
        }
    }

    /// Whether any pair had the name `key`.
    pub fn contains_key(&self, key: &str) -> (r: bool)
        ensures
            r == self@.contains_key(key@),
    {
        self.index.contains_key(key)
    }

    /// The names, each once, in the order in which each was first seen.
    pub fn keys(&self) -> (r: &Vec<String>)
        ensures
            texts(r@) == self.key_order(),
            self.key_order().no_duplicates(),
            self.key_order().to_set() == self@.dom(),
    {
        proof {
            use_type_invariant(self);
            self.lemma_names();
        }
        &self.keys
    }

    /// The number of names.
    pub fn len(&self) -> (r: usize)
        ensures
            r == self.key_order().len(),
            r == self@.len(),
            self@.dom().finite(),
    {
        proof {
            use_type_invariant(self);
            self.lemma_names();
            self.key_order().unique_seq_to_set();
        }
        self.keys.len()
    }

    /// Whether there is no name at all.
    pub fn is_empty(&self) -> (r: bool)
        ensures
            r == (self.key_order().len() == 0),
            r == (self@ == Map::<Seq<char>, Seq<Seq<char>>>::empty()),
    {
        proof {
            use_type_invariant(self);
            self.lemma_names();
            if self.keys.len() > 0 {
                assert(self@.contains_key(self.key_order()[0]));
            } else {
                assert(self@ =~= Map::<Seq<char>, Seq<Seq<char>>>::empty());
            }
        }
        self.keys.len() == 0
    }

    proof fn lemma_names(&self)
        requires
            self.well_formed(),
        ensures
            self.key_order().no_duplicates(),
            self.key_order().to_set() == self@.dom(),
    {
        let order = self.key_order();
        assert forall|i: int, j: int|
            0 <= i < order.len() && 0 <= j < order.len() && i != j implies order[i]
            != order[j] by {
            assert(order[i] == self.keys[i]@);
            assert(order[j] == self.keys[j]@);
        }
        assert forall|key: Seq<char>|
            order.to_set().contains(key) <==> self@.dom().contains(key) by {
            if order.to_set().contains(key) {
                let i = choose|i: int| 0 <= i < order.len() && order[i] == key;
                assert(order[i] == self.keys[i]@);
            }
            if self@.dom().contains(key) {
                let i = self.index@[key] as int;
                assert(order[i] == key);
            }
        }
        assert(order.to_set() =~= self@.dom());
    }

    #[verifier::type_invariant]
    spec fn well_formed(&self) -> bool {
        &&& self.keys.len() == self.lists.len()
        &&& forall|i: int|
            0 <= i < self.keys.len() ==> self.index@.contains_key(#[trigger] self.keys[i]@)
                && self.index@[self.keys[i]@] == i
        &&& forall|key: Seq<char>| #[trigger]
            self.index@.contains_key(key) ==> self.index@[key] < self.keys.len()
                && self.keys[self.index@[key] as int]@ == key
        &&& forall|i: int| 0 <= i < self.lists.len() ==> (#[trigger] self.lists[i]).len() > 0
    }
}

/// Convert a list of (name, value) pairs into a map from each name to the
/// list of its values.
pub fn combine_duplicates(q: Vec<(String, String)>) -> (m: QueryMap)
    ensures
        m@ == grouped(q.deep_view()),
        m.key_order() == first_seen(q.deep_view()),
{
    let ghost pairs = q.deep_view();
    let mut keys: Vec<String> = Vec::new();
    let mut lists: Vec<Vec<String>> = Vec::new();
    let mut index: StringHashMap<usize> = StringHashMap::new();
    for pair in it: q
        invariant
            pairs == it.seq().map_values(|p: (String, String)| (p.0@, p.1@)),
            keys.len() == lists.len(),
            texts(keys@) == first_seen(pairs.take(it.index() as int)),
            forall|j: int|
                0 <= j < keys.len() ==> index@.contains_key(#[trigger] keys[j]@) && index@[keys[j]@]
                    == j,
            forall|key: Seq<char>| #[trigger]
                index@.contains_key(key) ==> index@[key] < keys.len() && keys[index@[key] as int]@
                    == key,
            forall|key: Seq<char>|
                index@.contains_key(key) <==> (#[trigger] values_of(
                    pairs.take(it.index() as int),
                    key,
                )).len() > 0,
            forall|j: int|
                0 <= j < lists.len() ==> texts((#[trigger] lists[j])@) == values_of(
                    pairs.take(it.index() as int),
                    keys[j]@,
                ),
    {
        let (key, value) = pair;
        proof {
            let before = pairs.take(it.index() as int);
            let pair = (key@, value@);
            assert(pairs[it.index() as int] == pair);
            assert(pairs.take(it.index() + 1) =~= before.push(pair));
            assert(before.push(pair).drop_last() =~= before);
            assert forall|k: Seq<char>|
                values_of(before.push(pair), k) == if pair.0 == k {
                    values_of(before, k).push(pair.1)
                } else {
                    values_of(before, k)
                } by {
                lemma_values_of_push(before, pair, k);
            }
            assert(texts(keys@).contains(key@) <==> index@.contains_key(key@)) by {
                if index@.contains_key(key@) {
                    assert(texts(keys@)[index@[key@] as int] == key@);
                }
                if texts(keys@).contains(key@) {
                    let j = choose|j: int| 0 <= j < keys.len() && texts(keys@)[j] == key@;
                    assert(keys[j]@ == key@);
                }
            }
        }
        match index.get(key.as_str()) {
            Some(at) => {
                let at: usize = *at;
                let ghost old_lists = lists@;
                lists[at].push(value);
                proof {
                    assert(texts(lists[at as int]@) =~= texts(old_lists[at as int]@).push(value@));
                    assert(forall|j: int|
                        0 <= j < lists.len() && j != at ==> lists[j] == old_lists[j]);
                }
            },
            None => {
                let at: usize = keys.len();
                let mut list: Vec<String> = Vec::new();
                list.push(value);
                proof {
                    assert(texts(list@) =~= Seq::<Seq<char>>::empty().push(value@));
                    assert(texts(keys@.push(key)) =~= texts(keys@).push(key@));
                }
                index.insert(key.clone(), at);
                keys.push(key);
                lists.push(list);
            },
        }
    }
    proof {
        assert(pairs.take(pairs.len() as int) =~= pairs);
    }
    let m = QueryMap { keys, lists, index };
    proof {
        assert(m@ =~= grouped(pairs));
    }
    m
}

} // verus!
