//! A map from strings to values, kept as a list of entries in the order in
//! which their keys were first inserted. No key occurs twice.

use vstd::prelude::*;
use vstd::std_specs::cmp::PartialEqSpecImpl;
use crate::text::{same_text, texts, SameAs};

verus! {

/// The map that the keys and the values at the same positions stand for.
spec fn entries_model<V: View>(keys: Seq<String>, values: Seq<V>) -> Map<Seq<char>, V::V>
    decreases keys.len(),
{
    if keys.len() == 0 || values.len() != keys.len() {
        Map::empty()
    } else {
        entries_model(keys.drop_last(), values.drop_last()).insert(keys.last()@, values.last()@)
    }
}

/// No two of `keys` hold the same text.
spec fn distinct_keys(keys: Seq<String>) -> bool {
    forall|i: int, j: int| 0 <= i < j < keys.len() ==> keys[i]@ != keys[j]@
}

/// Whether one of `keys` holds the text `k`.
spec fn has_key(keys: Seq<String>, k: Seq<char>) -> bool {
    exists|i: int| 0 <= i < keys.len() && (#[trigger] keys[i])@ == k
}

proof fn lemma_model_domain<V: View>(keys: Seq<String>, values: Seq<V>, k: Seq<char>)
    requires
        keys.len() == values.len(),
    ensures
        entries_model(keys, values).contains_key(k) <==> has_key(keys, k),
        entries_model(keys, values).dom().finite(),
    decreases keys.len(),
{
    if keys.len() > 0 {
        lemma_model_domain(keys.drop_last(), values.drop_last(), k);
        if has_key(keys, k) {
            let i = choose|i: int| 0 <= i < keys.len() && (#[trigger] keys[i])@ == k;
            if i < keys.len() - 1 {
                assert(keys.drop_last()[i]@ == k);
            }
        }
        if has_key(keys.drop_last(), k) {
            let i = choose|i: int|
                0 <= i < keys.drop_last().len() && (#[trigger] keys.drop_last()[i])@ == k;
            assert(keys[i]@ == k);
        }
        if keys.last()@ == k {
            assert(keys[keys.len() - 1]@ == k);
        }
    }
}

proof fn lemma_model_at<V: View>(keys: Seq<String>, values: Seq<V>, i: int)
    requires
        keys.len() == values.len(),
        distinct_keys(keys),
        0 <= i < keys.len(),
    ensures
        entries_model(keys, values).contains_key(keys[i]@),
        entries_model(keys, values)[keys[i]@] == values[i]@,
    decreases keys.len(),
{
    if i < keys.len() - 1 {
        lemma_model_at(keys.drop_last(), values.drop_last(), i);
    }
}

proof fn lemma_model_len<V: View>(keys: Seq<String>, values: Seq<V>)
    requires
        keys.len() == values.len(),
        distinct_keys(keys),
    ensures
        entries_model(keys, values).dom().finite(),
        entries_model(keys, values).len() == keys.len(),
        texts(keys).no_duplicates(),
        texts(keys).to_set() == entries_model(keys, values).dom(),
    decreases keys.len(),
{
    assert forall|k: Seq<char>| texts(keys).to_set().contains(k) <==> entries_model(
        keys,
        values,
    ).dom().contains(k) by {
        lemma_model_domain(keys, values, k);
        if texts(keys).contains(k) {
            let i = choose|i: int| 0 <= i < texts(keys).len() && texts(keys)[i] == k;
            assert(keys[i]@ == k);
        }
        if has_key(keys, k) {
            let i = choose|i: int| 0 <= i < keys.len() && (#[trigger] keys[i])@ == k;
            assert(texts(keys)[i] == k);
        }
    }
    assert(texts(keys).to_set() =~= entries_model(keys, values).dom());
    if keys.len() > 0 {
        lemma_model_len(keys.drop_last(), values.drop_last());
        lemma_model_domain(keys.drop_last(), values.drop_last(), keys.last()@);
        if has_key(keys.drop_last(), keys.last()@) {
            let i = choose|i: int|
                0 <= i < keys.drop_last().len() && (#[trigger] keys.drop_last()[i])@
                    == keys.last()@;
            assert(keys[i]@ == keys[keys.len() - 1]@);
        }
    }
}

proof fn lemma_model_update<V: View>(keys: Seq<String>, values: Seq<V>, i: int, v: V)
    requires
        keys.len() == values.len(),
        distinct_keys(keys),
        0 <= i < keys.len(),
    ensures
        entries_model(keys, values.update(i, v)) == entries_model(keys, values).insert(
            keys[i]@,
            v@,
        ),
    decreases keys.len(),
{
    let last = keys.len() - 1;
    if i < last {
        lemma_model_update(keys.drop_last(), values.drop_last(), i, v);
        assert(values.update(i, v).drop_last() =~= values.drop_last().update(i, v));
    } else {
        assert(values.update(i, v).drop_last() =~= values.drop_last());
    }
    assert(entries_model(keys, values.update(i, v)) =~= entries_model(keys, values).insert(
        keys[i]@,
        v@,
    ));
}

proof fn lemma_model_same<V: View>(
    keys: Seq<String>,
    values: Seq<V>,
    other_keys: Seq<String>,
    other_values: Seq<V>,
)
    requires
        texts(keys) == texts(other_keys),
        values.len() == other_values.len(),
        forall|i: int| 0 <= i < values.len() ==> values[i]@ == other_values[i]@,
    ensures
        entries_model(keys, values) == entries_model(other_keys, other_values),
    decreases keys.len(),
{
    assert(keys.len() == texts(keys).len());
    assert(other_keys.len() == texts(other_keys).len());
    if keys.len() > 0 && values.len() == keys.len() {
        assert(texts(keys.drop_last()) =~= texts(keys).drop_last());
        assert(texts(other_keys.drop_last()) =~= texts(other_keys).drop_last());
        lemma_model_same(
            keys.drop_last(),
            values.drop_last(),
            other_keys.drop_last(),
            other_values.drop_last(),
        );
        assert(keys.last()@ == texts(keys).last());
        assert(other_keys.last()@ == texts(other_keys).last());
    }
}

/// A finite map from strings to values.
#[derive(Debug)]
pub struct StringMap<V> {
    keys: Vec<String>,
    values: Vec<V>,
}

impl<V: View> View for StringMap<V> {
    type V = Map<Seq<char>, V::V>;

    closed spec fn view(&self) -> Map<Seq<char>, V::V> {
        entries_model(self.keys@, self.values@)
    }
}

impl<V> StringMap<V> {
    #[verifier::type_invariant]
    spec fn inv(&self) -> bool {
        &&& self.keys@.len() == self.values@.len()
        &&& distinct_keys(self.keys@)
    }

    /// The keys, in the order in which they were first inserted.
    pub closed spec fn keys(&self) -> Seq<Seq<char>> {
        texts(self.keys@)
    }

    /// The values, each at the position of its key.
    pub closed spec fn values(&self) -> Seq<V> {
        self.values@
    }
}

/// Two maps with the same keys in the same order, and with values at each
/// position that stand for the same, are the same map.
pub proof fn lemma_same_entries<V: View>(a: StringMap<V>, b: StringMap<V>)
    requires
        a.keys() == b.keys(),
        a.values().len() == b.values().len(),
        forall|i: int| 0 <= i < a.values().len() ==> a.values()[i]@ == b.values()[i]@,
    ensures
        a@ == b@,
{
    lemma_model_same(a.keys@, a.values@, b.keys@, b.values@);
}

impl<V: View> StringMap<V> {
    /// The map without entries.
    pub fn new() -> (map: Self)
        ensures
            map@ == Map::<Seq<char>, V::V>::empty(),
            map.keys() == Seq::<Seq<char>>::empty(),
    {
        let map = StringMap { keys: Vec::new(), values: Vec::new() };
        assert(map.keys() =~= Seq::<Seq<char>>::empty());
        map
    }

    /// The position of the entry with the key `k`, if there is one.
    fn find(&self, k: &str) -> (at: Option<usize>)
        ensures
            match at {
                Some(i) => i < self.keys@.len() && self.keys@[i as int]@ == k@,
                None => !has_key(self.keys@, k@),
            },
    {
        let mut i: usize = 0;
        while i < self.keys.len()
            invariant
                i <= self.keys@.len(),
                forall|j: int| 0 <= j < i ==> (#[trigger] self.keys@[j])@ != k@,
            decreases self.keys@.len() - i,
        {
            if same_text(self.keys[i].as_str(), k) {
                return Some(i);
            }
            i += 1;
        }
        None
    }

    /// The number of entries.
    pub fn len(&self) -> (n: usize)
        ensures
            self@.dom().finite(),
            n == self@.len(),
            n == self.keys().len(),
            n == self.values().len(),
            self.keys().no_duplicates(),
            self.keys().to_set() == self@.dom(),
    {
        proof {
            use_type_invariant(self);
            lemma_model_len(self.keys@, self.values@);
        }
        self.keys.len()
    }

    /// Whether the map has no entry.
    pub fn is_empty(&self) -> (empty: bool)
        ensures
            empty == (self@ == Map::<Seq<char>, V::V>::empty()),
    {
        proof {
            use_type_invariant(self);
            if self.keys@.len() > 0 {
                lemma_model_at(self.keys@, self.values@, 0);
            }
        }
        self.keys.len() == 0
    }

    /// The entry at the position `i`, in the order in which the keys were
    /// first inserted.
    pub fn entry_at(&self, i: usize) -> (entry: (&String, &V))
        requires
            i < self.keys().len(),
        ensures
            entry.0@ == self.keys()[i as int],
            *entry.1 == self.values()[i as int],
            self@.contains_key(entry.0@),
            self@[entry.0@] == entry.1@,
    {
        proof {
            use_type_invariant(self);
            lemma_model_at(self.keys@, self.values@, i as int);
        }
        (&self.keys[i], &self.values[i])
    }

    /// Whether the map has an entry with the key `k`.
    pub fn contains_key(&self, k: &str) -> (found: bool)
        ensures
            found == self@.contains_key(k@),
    {
        proof {
            use_type_invariant(self);
            lemma_model_domain(self.keys@, self.values@, k@);
        }
        self.find(k).is_some()
    }

    /// The value that the key `k` maps to, if there is one.
    pub fn get(&self, k: &str) -> (value: Option<&V>)
        ensures
            match value {
                Some(v) => self@.contains_key(k@) && v@ == self@[k@],
                None => !self@.contains_key(k@),
            },
    {
        proof {
            use_type_invariant(self);
            lemma_model_domain(self.keys@, self.values@, k@);
        }
        match self.find(k) {
            Some(i) => {
                proof {
                    lemma_model_at(self.keys@, self.values@, i as int);
                }
                Some(&self.values[i])
            },
            None => None,
        }
    }

    /// The value that the key `k` maps to, if there is one, for changing it
    /// in place.
    pub fn get_mut(&mut self, k: &str) -> (value: Option<&mut V>)
        ensures
            final(self).keys() == old(self).keys(),
            match value {
                Some(v) => old(self)@.contains_key(k@) && v@ == old(self)@[k@] && final(self)@
                    == old(self)@.insert(k@, final(v)@),
                None => !old(self)@.contains_key(k@) && final(self)@ == old(self)@,
            },
    {
        proof {
            use_type_invariant(&*self);
            lemma_model_domain(self.keys@, self.values@, k@);
        }
        match self.find(k) {
            Some(i) => {
                proof {
                    lemma_model_at(self.keys@, self.values@, i as int);
                }
                let slot = &mut self.values[i];
                proof {
                    lemma_model_update(old(self).keys@, old(self).values@, i as int, *final(slot));
                }
                Some(slot)
            },
            None => None,
        }
    }

    /// Maps the key `k` to `v`, in place of what `k` mapped to before. A new
    /// key comes last in the order of the keys.
    pub fn insert(&mut self, k: String, v: V)
        ensures
            final(self)@ == old(self)@.insert(k@, v@),
            final(self).keys() == if old(self)@.contains_key(k@) {
                old(self).keys()
            } else {
                old(self).keys().push(k@)
            },
    {
        proof {
            use_type_invariant(&*self);
            lemma_model_domain(self.keys@, self.values@, k@);
        }
        match self.find(k.as_str()) {
            Some(i) => {
                proof {
                    lemma_model_update(self.keys@, self.values@, i as int, v);
                }
                self.values[i] = v;
            },
            None => {
                let mut taken = StringMap::new();
                core::mem::swap(self, &mut taken);
                let StringMap { mut keys, mut values } = taken;
                keys.push(k);
                values.push(v);
                proof {
                    assert(keys@.drop_last() =~= old(self).keys@);
                    assert(values@.drop_last() =~= old(self).values@);
                    assert(texts(keys@) =~= texts(old(self).keys@).push(k@));
                }
                *self = StringMap { keys, values };
            },
        }
    }
}

impl<V: View + Clone> Clone for StringMap<V> {
    /// A map with the same keys in the same order, and a clone of each value
    /// at its position.
    fn clone(&self) -> (copy: Self)
        ensures
            copy.keys() == self.keys(),
            copy.values().len() == self.values().len(),
            forall|i: int|
                0 <= i < self.values().len() ==> cloned::<V>(
                    #[trigger] self.values()[i],
                    copy.values()[i],
                ),
    {
        proof {
            use_type_invariant(self);
        }
        let keys = self.keys.clone();
        let values = self.values.clone();
        proof {
            assert(keys@ =~= self.keys@);
        }
        StringMap { keys, values }
    }
}

impl<V: SameAs> SameAs for StringMap<V> {
    fn same_as(&self, other: &Self) -> (same: bool) {
        let n = self.len();
        if n != other.len() {
            return false;
        }
        let mut i: usize = 0;
        while i < n
            invariant
                i <= n,
                n == self.keys().len(),
                forall|j: int|
                    0 <= j < i ==> other@.contains_key(#[trigger] self.keys()[j]) && other@[self.keys()[j]]
                        == self@[self.keys()[j]],
            decreases n - i,
        {
            let (k, v) = self.entry_at(i);
            match other.get(k.as_str()) {
                Some(w) => {
                    if !v.same_as(w) {
                        return false;
                    }
                },
                None => {
                    return false;
                },
            }
            i += 1;
        }
        proof {
            assert forall|k: Seq<char>| self@.dom().contains(k) implies other@.dom().contains(
                k,
            ) && other@[k] == self@[k] by {
                assert(self.keys().to_set().contains(k));
                let j = choose|j: int| 0 <= j < self.keys().len() && self.keys()[j] == k;
                assert(other@.contains_key(self.keys()[j]));
            }
            vstd::set_lib::lemma_subset_equality(self@.dom(), other@.dom());
            assert(self@ =~= other@);
        }
        true
    }
}

impl<V: SameAs> PartialEq for StringMap<V> {
    fn eq(&self, other: &Self) -> (same: bool) {
        self.same_as(other)
    }
}

impl<V: SameAs> PartialEqSpecImpl for StringMap<V> {
    open spec fn obeys_eq_spec() -> bool {
        true
    }

    open spec fn eq_spec(&self, other: &Self) -> bool {
        self@ == other@
    }
}

} // verus!
