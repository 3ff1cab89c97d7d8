use vstd::prelude::*;
use crate::value::{
    Kind, Sample, Value, kind_at, kind_of, sample_of, same_sample, classify, to_sample,
    samples_equal,
};

verus! {

/// The most distinct values a type keeps as its sample. Sampling keeps the
/// first values seen, not a random selection of them.
pub const SAMPLE_CAP: usize = 20;

/// Statistics for one kind of value observed under one field path.
#[derive(Debug)]
pub struct FieldType {
    /// The kind of value these statistics are about.
    pub bson_type: Kind,
    /// The dotted path of the field.
    pub path: String,
    /// How many observations were of this kind.
    pub count: usize,
    /// The first distinct values seen, at most `SAMPLE_CAP` of them.
    pub values: Vec<Sample>,
    /// How many observations brought a value not already in the sample.
    pub unique: usize,
    /// Whether an observation repeated a sampled value.
    pub has_duplicates: bool,
    /// For arrays, one entry per kind of element seen inside them.
    pub elements: Vec<FieldType>,
}

/// `x` is one of the sampled values.
pub open spec fn sample_in(s: Seq<Sample>, x: Sample) -> bool {
    exists|i: int| 0 <= i < s.len() && same_sample(#[trigger] s[i], x)
}

/// No value occurs twice in the sample.
pub open spec fn distinct_samples(s: Seq<Sample>) -> bool {
    forall|i: int, j: int| 0 <= i < j < s.len() ==> !same_sample(#[trigger] s[i], #[trigger] s[j])
}

/// No kind occurs twice among the entries.
pub open spec fn kinds_distinct(s: Seq<FieldType>) -> bool {
    forall|i: int, j: int|
        0 <= i < j < s.len() ==> (#[trigger] s[i]).bson_type != (#[trigger] s[j]).bson_type
}

/// Some entry is about kind `k`.
pub open spec fn has_kind(s: Seq<FieldType>, k: Kind) -> bool {
    exists|i: int| 0 <= i < s.len() && (#[trigger] s[i]).bson_type == k
}

/// The sum of the counts of the entries.
pub open spec fn type_total(s: Seq<FieldType>) -> int
    decreases s.len(),
{
    if s.len() == 0 {
        0
    } else {
        type_total(s.drop_last()) + s.last().count
    }
}

/// The observations of kind `k` among the entries.
pub open spec fn count_of(s: Seq<FieldType>, k: Kind) -> int
    decreases s.len(),
{
    if s.len() == 0 {
        0
    } else {
        count_of(s.drop_last(), k) + if s.last().bson_type == k { s.last().count as int } else { 0 }
    }
}

/// Replacing one entry changes both sums by the difference of the counts.
pub proof fn lemma_update_sums(s: Seq<FieldType>, i: int, x: FieldType)
    requires
        0 <= i < s.len(),
    ensures
        type_total(s.update(i, x)) == type_total(s) - s[i].count + x.count,
        forall|k: Kind|
            #[trigger] count_of(s.update(i, x), k) == count_of(s, k) - (if s[i].bson_type == k {
                s[i].count as int
            } else {
                0
            }) + (if x.bson_type == k { x.count as int } else { 0 }),
    decreases s.len(),
{
    let t = s.update(i, x);
    if i == s.len() - 1 {
        assert(t.drop_last() =~= s.drop_last());
    } else {
        lemma_update_sums(s.drop_last(), i, x);
        assert(t.drop_last() =~= s.drop_last().update(i, x));
    }
    assert forall|k: Kind|
        #[trigger] count_of(t, k) == count_of(s, k) - (if s[i].bson_type == k {
            s[i].count as int
        } else {
            0
        }) + (if x.bson_type == k { x.count as int } else { 0 }) by {
        if i != s.len() - 1 {
            assert(count_of(t.drop_last(), k) == count_of(s.drop_last(), k) - (if s[i].bson_type == k {
                s[i].count as int
            } else {
                0
            }) + (if x.bson_type == k { x.count as int } else { 0 }));
        }
    }
}

/// With distinct kinds, the observations of the kind of entry `i` are its count.
pub proof fn lemma_count_of_entry(s: Seq<FieldType>, i: int)
    requires
        0 <= i < s.len(),
        kinds_distinct(s),
    ensures
        count_of(s, s[i].bson_type) == s[i].count,
    decreases s.len(),
{
    if i < s.len() - 1 {
        assert(kinds_distinct(s.drop_last()));
        lemma_count_of_entry(s.drop_last(), i);
        assert(s.drop_last()[i] == s[i]);
    } else {
        lemma_count_of_absent(s.drop_last(), s[i].bson_type);
    }
}

/// Without an entry of kind `k` there are no observations of it.
pub proof fn lemma_count_of_absent(s: Seq<FieldType>, k: Kind)
    requires
        !has_kind(s, k),
    ensures
        count_of(s, k) == 0,
    decreases s.len(),
{
    if s.len() > 0 {
        assert(s.last() == s[s.len() - 1]);
        assert(!has_kind(s.drop_last(), k)) by {
            if has_kind(s.drop_last(), k) {
                let j = choose|j: int| 0 <= j < s.drop_last().len() && (#[trigger] s.drop_last()[j]).bson_type == k;
                assert(s[j] == s.drop_last()[j]);
            }
        }
        lemma_count_of_absent(s.drop_last(), k);
    }
}

/// The index of the entry of kind `k`, if there is one.
pub fn position_of_kind(s: &Vec<FieldType>, k: Kind) -> (r: Option<usize>)
    ensures
        match r {
            Some(i) => i < s@.len() && s@[i as int].bson_type == k,
            None => !has_kind(s@, k),
        },
{
    let mut i: usize = 0;
    while i < s.len()
        invariant
            i <= s@.len(),
            forall|j: int| 0 <= j < i ==> (#[trigger] s@[j]).bson_type != k,
        decreases s@.len() - i,
    {
        if s[i].bson_type == k {
            return Some(i);
        }
        i = i + 1;
    }
    None
}

/// Whether the sample holds a value equal to `x`.
pub fn sample_contains(s: &Vec<Sample>, x: &Sample) -> (r: bool)
    ensures
        r == sample_in(s@, *x),
{
    let mut i: usize = 0;
    while i < s.len()
        invariant
            i <= s@.len(),
            forall|j: int| 0 <= j < i ==> !same_sample(#[trigger] s@[j], *x),
        decreases s@.len() - i,
    {
        if samples_equal(&s[i], x) {
            return true;
        }
        i = i + 1;
    }
    false
}

/// `e` is what one observation of `v` makes of statistics that stood at
/// `count` observations, sample `values`, `unique` distinct values and
/// duplicate flag `dup`: one more observation; a primitive value already
/// sampled sets the flag, a new one counts as distinct and joins the sample
/// while it has room.
pub open spec fn sampled(
    count: int,
    values: Seq<Sample>,
    unique: int,
    dup: bool,
    e: FieldType,
    v: Value,
) -> bool {
    &&& e.count == count + 1
    &&& match sample_of(v) {
        None => {
            &&& e.values@ == values
            &&& e.unique == unique
            &&& e.has_duplicates == dup
        },
        Some(s) => if sample_in(values, s) {
            &&& e.values@ == values
            &&& e.unique == unique
            &&& e.has_duplicates
        } else {
            &&& e.unique == unique + 1
            &&& e.has_duplicates == dup
            &&& if values.len() < SAMPLE_CAP {
                &&& e.values@.len() == values.len() + 1
                &&& e.values@.drop_last() == values
                &&& same_sample(e.values@.last(), s)
            } else {
                e.values@ == values
            }
        },
    }
}

/// How many of the values are of kind `k`.
pub open spec fn items_of_kind(s: Seq<Value>, k: Kind) -> int
    decreases s.len(),
{
    if s.len() == 0 {
        0
    } else {
        items_of_kind(s.drop_last(), k) + if kind_at(s.last()) == k { 1int } else { 0 }
    }
}

/// No more values are of one kind than there are values.
pub proof fn lemma_items_of_kind_le(s: Seq<Value>, k: Kind)
    ensures
        0 <= items_of_kind(s, k) <= s.len(),
    decreases s.len(),
{
    if s.len() > 0 {
        lemma_items_of_kind_le(s.drop_last(), k);
    }
}

/// The element entries `e` are the entries `elems` with the elements of `v`
/// tallied, when `v` is an array: each kind counts its elements, as long as
/// the tally cannot reach `usize::MAX`. Other values leave them as they were.
pub open spec fn tallied(elems: Seq<FieldType>, e: Seq<FieldType>, v: Value) -> bool {
    match v {
        Value::Array(items) => forall|k: Kind|
            count_of(elems, k) + items.len() <= usize::MAX ==> #[trigger] count_of(e, k)
                == count_of(elems, k) + items_of_kind(items@, k),
        _ => e == elems,
    }
}

/// Entry `e`, at index `i` of entries that were `old`, is what one
/// observation of `v` made of the entry that stood there, or, at the end, of
/// a fresh entry under `path`.
pub open spec fn recorded(old: Seq<FieldType>, e: FieldType, i: int, path: Seq<char>, v: Value) -> bool {
    if 0 <= i < old.len() {
        &&& e.path == old[i].path
        &&& sampled(
            old[i].count as int,
            old[i].values@,
            old[i].unique as int,
            old[i].has_duplicates,
            e,
            v,
        )
    } else {
        &&& i == old.len()
        &&& e.path@ == path
        &&& sampled(0, Seq::empty(), 0, false, e, v)
    }
}

impl FieldType {
    /// The sample is bounded, duplicate-free, and no larger than the
    /// distinct values counted, which are no more than the observations.
    pub open spec fn sample_ok(&self) -> bool {
        &&& self.values@.len() <= SAMPLE_CAP
        &&& distinct_samples(self.values@)
        &&& self.values@.len() <= self.unique <= self.count
    }

    /// The sample is sound, and so is each element entry, which has no
    /// entries of its own; element kinds do not repeat.
    pub open spec fn wf(&self) -> bool {
        &&& self.sample_ok()
        &&& forall|i: int|
            0 <= i < self.elements@.len() ==> {
                &&& (#[trigger] self.elements@[i]).sample_ok()
                &&& self.elements@[i].elements@.len() == 0
            }
        &&& kinds_distinct(self.elements@)
    }

    /// An empty entry, under `path`, for the kind of `value`.
    pub fn new(path: &str, value: &Value) -> (r: FieldType)
        requires
            kind_of(*value) is Some,
        ensures
            r.wf(),
            r.bson_type == kind_of(*value)->0,
            r.path@ == path@,
            r.count == 0,
            r.unique == 0,
            r.values@.len() == 0,
            !r.has_duplicates,
            r.elements@.len() == 0,
    {
        let kind = match classify(value) {
            Some(k) => k,
            None => Kind::Null,
        };
        FieldType {
            bson_type: kind,
            path: path.to_string(),
            count: 0,
            values: Vec::new(),
            unique: 0,
            has_duplicates: false,
            elements: Vec::new(),
        }
    }

    /// Counts one observation of `value` and feeds its sample.
    pub fn add_observation(&mut self, value: &Value)
        requires
            old(self).sample_ok(),
            old(self).count < usize::MAX,
        ensures
            final(self).sample_ok(),
            final(self).count == old(self).count + 1,
            final(self).bson_type == old(self).bson_type,
            final(self).path == old(self).path,
            final(self).elements == old(self).elements,
            sampled(
                old(self).count as int,
                old(self).values@,
                old(self).unique as int,
                old(self).has_duplicates,
                *final(self),
                *value,
            ),
    {
        self.count = self.count + 1;
        match to_sample(value) {
            None => {},
            Some(s) => {
                if sample_contains(&self.values, &s) {
                    self.has_duplicates = true;
                } else {
                    self.unique = self.unique + 1;
                    if self.values.len() < SAMPLE_CAP {
                        let ghost old_values = self.values@;
                        self.values.push(s);
                        proof {
                            assert(self.values@.drop_last() =~= old_values);
                            assert forall|i: int, j: int| 0 <= i < j < self.values@.len() implies
                                !same_sample(#[trigger] self.values@[i], #[trigger] self.values@[j]) by {
                                if j == self.values@.len() - 1 {
                                    assert(old_values[i] == self.values@[i]);
                                    if same_sample(self.values@[i], self.values@[j]) {
                                        assert(same_sample(old_values[i], sample_of(*value)->0));
                                    }
                                }
                            }
                        }
                    }
                }
            },
        }
    }
    /// Counts one element of an array under the entry for its kind, which
    /// is created on first sight. A tally that reached `usize::MAX` stays.
    pub fn observe_element(&mut self, value: &Value)
        requires
            old(self).wf(),
            kind_of(*value) is Some,
        ensures
            final(self).wf(),
            final(self).bson_type == old(self).bson_type,
            final(self).path == old(self).path,
            final(self).count == old(self).count,
            final(self).values == old(self).values,
            final(self).unique == old(self).unique,
            final(self).has_duplicates == old(self).has_duplicates,
            has_kind(final(self).elements@, kind_of(*value)->0),
            forall|k: Kind|
                #[trigger] count_of(final(self).elements@, k) == count_of(old(self).elements@, k) + (
                if k == kind_of(*value)->0 && count_of(old(self).elements@, k) < usize::MAX {
                    1int
                } else {
                    0
                }),
            count_of(old(self).elements@, kind_of(*value)->0) < usize::MAX ==> forall|i: int|
                0 <= i < final(self).elements@.len() && (#[trigger] final(self).elements@[i]).bson_type
                    == kind_of(*value)->0 ==> recorded(
                    old(self).elements@,
                    final(self).elements@[i],
                    i,
                    old(self).path@,
                    *value,
                ),
    {
        let ghost old_elements = self.elements@;
        let k = match classify(value) {
            Some(k) => k,
            None => Kind::Null,
        };
        let i = match position_of_kind(&self.elements, k) {
            Some(i) => i,
            None => {
                proof {
                    lemma_count_of_absent(self.elements@, k);
                }
                let entry = FieldType::new(&self.path, value);
                let ghost before = self.elements@;
                self.elements.push(entry);
                proof {
                    assert(self.elements@.drop_last() =~= before);
                }
                self.elements.len() - 1
            },
        };
        proof {
            lemma_count_of_entry(self.elements@, i as int);
        }
        if self.elements[i].count < usize::MAX {
            let ghost before = self.elements@;
            let mut entry = self.elements.remove(i);
            proof {
                assert(entry == before[i as int]);
            }
            entry.add_observation(value);
            self.elements.insert(i, entry);
            proof {
                assert(self.elements@ =~= before.update(i as int, entry));
                lemma_update_sums(before, i as int, entry);
                if i >= old_elements.len() {
                    assert(before[i as int].values@ =~= Seq::<Sample>::empty());
                } else {
                    assert(before[i as int] == old_elements[i as int]);
                }
                assert(recorded(old_elements, self.elements@[i as int], i as int, old(self).path@, *value));
                assert forall|j: int| 0 <= j < self.elements@.len() && (#[trigger] self.elements@[j]).bson_type == k
                    implies j == i as int by {
                    if j != i as int {
                        assert(kinds_distinct(self.elements@));
                    }
                }
            }
        }
        assert(self.elements@[i as int].bson_type == k);
    }
}

} // verus!
