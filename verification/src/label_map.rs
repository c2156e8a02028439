//! A map from text labels to values, kept as a list of distinct labels in
//! the order they were first inserted.
use vstd::prelude::*;
use vstd::std_specs::cmp::PartialEqSpecImpl;

use crate::stats::TransportRow;

verus! {

/// The map that a list of entries stands for: each label to the value of
/// its last entry.
pub open spec fn map_of<V>(es: Seq<(String, V)>) -> Map<Seq<char>, V>
    decreases es.len(),
{
    if es.len() == 0 {
        Map::empty()
    } else {
        map_of(es.drop_last()).insert(es.last().0@, es.last().1)
    }
}

/// No label occurs twice among the entries.
pub open spec fn labels_distinct<V>(es: Seq<(String, V)>) -> bool {
    forall|i: int, j: int| 0 <= i < j < es.len() ==> es[i].0@ != es[j].0@
}

/// A map keyed by labels such as `estab` or `UDP`.
#[derive(Debug)]
pub struct LabelMap<V> {
    entries: Vec<(String, V)>,
}

pub proof fn lemma_map_of_entries<V>(es: Seq<(String, V)>)
    requires
        labels_distinct(es),
    ensures
        map_of(es).dom().finite(),
        map_of(es).dom().len() == es.len(),
        forall|k: Seq<char>|
            #[trigger] map_of(es).contains_key(k) <==> exists|i: int|
                0 <= i < es.len() && es[i].0@ == k,
        forall|i: int| 0 <= i < es.len() ==> #[trigger] map_of(es)[es[i].0@] == es[i].1,
    decreases es.len(),
{
    if es.len() > 0 {
        let init = es.drop_last();
        lemma_map_of_entries(init);
        let k = es.last().0@;
        assert(!map_of(init).contains_key(k)) by {
            if map_of(init).contains_key(k) {
                let i = choose|i: int| 0 <= i < init.len() && init[i].0@ == k;
                assert(es[i].0@ == es[es.len() - 1].0@);
            }
        }
        assert forall|kk: Seq<char>| #[trigger]
            map_of(es).contains_key(kk) <==> exists|i: int|
                0 <= i < es.len() && es[i].0@ == kk by {
            if map_of(es).contains_key(kk) && kk != k {
                let i = choose|i: int| 0 <= i < init.len() && init[i].0@ == kk;
                assert(es[i].0@ == kk);
            }
            if exists|i: int| 0 <= i < es.len() && es[i].0@ == kk {
                let i = choose|i: int| 0 <= i < es.len() && es[i].0@ == kk;
                if i < es.len() - 1 {
                    assert(init[i].0@ == kk);
                }
            }
        }
        assert forall|i: int| 0 <= i < es.len() implies #[trigger] map_of(es)[es[i].0@]
            == es[i].1 by {
            if i < es.len() - 1 {
                assert(init[i] == es[i]);
                assert(es[i].0@ != k);
            }
        }
    }
}

proof fn lemma_map_of_update<V>(es: Seq<(String, V)>, i: int, e: (String, V))
    requires
        labels_distinct(es),
        0 <= i < es.len(),
        es[i].0@ == e.0@,
    ensures
        map_of(es.update(i, e)) == map_of(es).insert(e.0@, e.1),
        labels_distinct(es.update(i, e)),
    decreases es.len(),
{
    let es2 = es.update(i, e);
    if i == es.len() - 1 {
        assert(es2.drop_last() =~= es.drop_last());
    } else {
        let init = es.drop_last();
        assert(es2.drop_last() =~= init.update(i, e));
        lemma_map_of_update(init, i, e);
        assert(es.last().0@ != e.0@);
        assert(map_of(es2) =~= map_of(es).insert(e.0@, e.1));
    }
}

impl<V> View for LabelMap<V> {
    type V = Map<Seq<char>, V>;

    closed spec fn view(&self) -> Map<Seq<char>, V> {
        map_of(self.entries@)
    }
}

impl<V> LabelMap<V> {
    #[verifier::type_invariant]
    spec fn distinct(self) -> bool {
        labels_distinct(self.entries@)
    }

    /// The entries, in the order of first insertion.
    pub closed spec fn contents(self) -> Seq<(String, V)> {
        self.entries@
    }

    /// An empty map.
    pub fn new() -> (r: Self)
        ensures
            r@ == Map::<Seq<char>, V>::empty(),
    {
        LabelMap { entries: Vec::new() }
    }

    /// The number of labels.
    pub fn len(&self) -> (r: usize)
        ensures
            r == self@.len(),
            self@.dom().finite(),
    {
        proof {
            use_type_invariant(self);
            lemma_map_of_entries(self.entries@);
        }
        self.entries.len()
    }

    /// Whether no label is present.
    pub fn is_empty(&self) -> (r: bool)
        ensures
            r == (self@ == Map::<Seq<char>, V>::empty()),
    {
        proof {
            use_type_invariant(self);
            lemma_map_of_entries(self.entries@);
            if self.entries@.len() > 0 {
                assert(self@.contains_key(self.entries@[0].0@));
            } else {
                assert(self@ =~= Map::<Seq<char>, V>::empty());
            }
        }
        self.entries.len() == 0
    }

    /// The value stored under `label`, if any.
    pub fn get(&self, label: &str) -> (r: Option<&V>)
        ensures
            r == (if self@.contains_key(label@) {
                Some(&self@[label@])
            } else {
                None
            }),
    {
        proof {
            use_type_invariant(self);
            lemma_map_of_entries(self.entries@);
        }
        let wanted = label.to_owned();
        let mut i: usize = 0;
        while i < self.entries.len()
            invariant
                i <= self.entries@.len(),
                wanted@ == label@,
                forall|j: int| 0 <= j < i ==> self.entries@[j].0@ != label@,
            decreases self.entries@.len() - i,
        {
            if self.entries[i].0 == wanted {
                proof {
                    use_type_invariant(self);
                    lemma_map_of_entries(self.entries@);
                    assert(self@[label@] == self.entries@[i as int].1);
                }
                return Some(&self.entries[i].1);
            }
            i = i + 1;
        }
        None
    }

    /// Stores `value` under `label`, in place of what was there.
    pub fn insert(&mut self, label: String, value: V)
        ensures
            final(self)@ == old(self)@.insert(label@, value),
    {
        proof {
            use_type_invariant(&*self);
        }
        let mut es: Vec<(String, V)> = Vec::new();
        std::mem::swap(&mut es, &mut self.entries);
        let mut i: usize = 0;
        while i < es.len()
            invariant
                i <= es@.len(),
                es@ == old(self).entries@,
                labels_distinct(es@),
                forall|j: int| 0 <= j < i ==> es@[j].0@ != label@,
            decreases es@.len() - i,
        {
            if es[i].0 == label {
                proof {
                    lemma_map_of_update(es@, i as int, (label, value));
                }
                es.set(i, (label, value));
                self.entries = es;
                return;
            }
            i = i + 1;
        }
        let ghost before = es@;
        es.push((label, value));
        assert(es@.drop_last() =~= before);
        self.entries = es;
    }

    /// The entries, each label once, in the order of first insertion.
    pub fn entries(&self) -> (r: &Vec<(String, V)>)
        ensures
            r@ == self.contents(),
            labels_distinct(r@),
            map_of(r@) == self@,
    {
        proof {
            use_type_invariant(self);
        }
        &self.entries
    }
}

/// Values that a verified test tells equal or not.
pub trait SameValue: Sized {
    fn same_value(&self, other: &Self) -> (r: bool)
        ensures
            r == (*self == *other),
    ;
}

impl SameValue for u64 {
    fn same_value(&self, other: &u64) -> (r: bool) {
        *self == *other
    }
}

impl SameValue for TransportRow {
    fn same_value(&self, other: &TransportRow) -> (r: bool) {
        *self == *other
    }
}

impl<V: Copy> Clone for LabelMap<V> {
    fn clone(&self) -> (r: Self)
        ensures
            r@ == self@,
    {
        proof {
            use_type_invariant(self);
        }
        let mut es: Vec<(String, V)> = Vec::new();
        let mut i: usize = 0;
        while i < self.entries.len()
            invariant
                i <= self.entries@.len(),
                labels_distinct(self.entries@),
                es@ == self.entries@.take(i as int),
            decreases self.entries@.len() - i,
        {
            es.push((self.entries[i].0.clone(), self.entries[i].1));
            assert(es@ =~= self.entries@.take(i + 1));
            i = i + 1;
        }
        assert(es@ =~= self.entries@);
        LabelMap { entries: es }
    }
}

/// Two maps are equal when they hold the same labels with the same
/// values, in whatever order they were inserted.
impl<V: Copy + SameValue> PartialEq for LabelMap<V> {
    fn eq(&self, other: &Self) -> (r: bool) {
        proof {
            use_type_invariant(self);
            use_type_invariant(other);
            lemma_map_of_entries(self.entries@);
            lemma_map_of_entries(other.entries@);
        }
        if self.entries.len() != other.entries.len() {
            assert(self@.dom().len() != other@.dom().len());
            return false;
        }
        let mut i: usize = 0;
        while i < self.entries.len()
            invariant
                i <= self.entries@.len(),
                forall|j: int|
                    0 <= j < i ==> #[trigger] other@.contains_key(self.entries@[j].0@)
                        && other@[self.entries@[j].0@] == self.entries@[j].1,
            decreases self.entries@.len() - i,
        {
            proof {
                use_type_invariant(self);
                lemma_map_of_entries(self.entries@);
            }
            let k = self.entries[i].0.as_str();
            match other.get(k) {
                Some(v) => {
                    if !v.same_value(&self.entries[i].1) {
                        assert(self@[k@] == self.entries@[i as int].1);
                        return false;
                    }
                },
                None => {
                    assert(self@.contains_key(k@));
                    return false;
                },
            }
            i = i + 1;
        }
        proof {
            assert forall|k: Seq<char>| self@.contains_key(k) implies #[trigger] other@.contains_key(k)
                && other@[k] == self@[k] by {
                let j = choose|j: int| 0 <= j < self.entries@.len() && self.entries@[j].0@ == k;
                assert(other@.contains_key(self.entries@[j].0@));
            }
            vstd::set_lib::lemma_subset_equality(self@.dom(), other@.dom());
            assert(self@ =~= other@);
        }
        true
    }
}

impl<V: Copy + SameValue> PartialEqSpecImpl for LabelMap<V> {
    open spec fn obeys_eq_spec() -> bool {
        true
    }

    open spec fn eq_spec(&self, other: &Self) -> bool {
        self@ == other@
    }
}

impl<V: Copy + SameValue> Eq for LabelMap<V> {

}

} // verus!
