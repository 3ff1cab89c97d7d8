use vstd::prelude::*;
use vstd::string::StringExecFns;
use crate::value::{Kind, Sample, SchemaError, Value, kind_of, supported, classify};
use crate::field_type::{
    FieldType, count_of, recorded, sampled, tallied, items_of_kind, lemma_items_of_kind_le,
    has_kind, kinds_distinct, position_of_kind, type_total,
    lemma_count_of_absent, lemma_count_of_entry, lemma_update_sums,
};

verus! {

/// A probability kept as an exact ratio.
#[derive(Clone, Copy, Debug, PartialEq, Eq, Structural)]
pub struct Probability {
    pub numerator: usize,
    pub denominator: usize,
}

/// Statistics for one field path across the documents.
#[derive(Debug)]
pub struct Field {
    /// The last segment of the path.
    pub name: String,
    /// The full dotted path.
    pub path: String,
    /// The documents in which the field was present, counting those
    /// reconciled as missing once the batch is finalized.
    pub count: usize,
    /// The kind of each observation, in the order met.
    pub bson_types: Vec<Kind>,
    /// The share of the documents that really carried the field, set when
    /// finalizing: absences reconciled as `Null` are left out of the
    /// numerator, so a field present in two documents of three has 2/3.
    pub probability: Option<Probability>,
    /// Whether any of the types saw a repeated value.
    pub has_duplicates: bool,
    /// One entry per kind observed under the path.
    pub types: Vec<FieldType>,
    /// The documents that lacked the field, counted as `Null` observations.
    pub missing: usize,
    /// The number (from 1) of the last document in which the field was met.
    pub last_document: usize,
}

/// Some entry reports duplicate values.
pub open spec fn any_duplicates(s: Seq<FieldType>) -> bool {
    exists|i: int| 0 <= i < s.len() && (#[trigger] s[i]).has_duplicates
}

/// The path of `name` under an optional parent path.
pub open spec fn joined_path(name: Seq<char>, parent: Option<Seq<char>>) -> Seq<char> {
    match parent {
        None => name,
        Some(p) => p + seq!['.'] + name,
    }
}

/// The observations of one kind are no more than all of them.
pub proof fn lemma_count_of_le_total(s: Seq<FieldType>, k: Kind)
    ensures
        0 <= count_of(s, k) <= type_total(s),
    decreases s.len(),
{
    if s.len() > 0 {
        lemma_count_of_le_total(s.drop_last(), k);
    }
}

impl Field {
    /// Each type entry is sound and of its own kind; the reconciled
    /// documents are among the `Null` observations and the presences.
    pub open spec fn wf(&self) -> bool {
        &&& forall|i: int| 0 <= i < self.types@.len() ==> (#[trigger] self.types@[i]).wf()
        &&& kinds_distinct(self.types@)
        &&& self.missing <= count_of(self.types@, Kind::Null)
        &&& self.missing <= self.count
    }

    /// A field met for the first time, counted once, with no types yet.
    pub fn new(name: String, path: &str) -> (r: Field)
        ensures
            r.wf(),
            r.name == name,
            r.path@ == path@,
            r.count == 1,
            r.bson_types@.len() == 0,
            r.types@.len() == 0,
            r.probability is None,
            !r.has_duplicates,
            r.missing == 0,
            r.last_document == 0,
    {
        let r = Field {
            name,
            count: 1,
            path: path.to_string(),
            bson_types: Vec::new(),
            probability: None,
            has_duplicates: false,
            types: Vec::new(),
            missing: 0,
            last_document: 0,
        };
        proof {
            lemma_count_of_absent(r.types@, Kind::Null);
        }
        r
    }

    /// Records one observation of `value`: the entry of its kind, created on
    /// first sight, counts it and samples it, and the kind is logged. The
    /// elements of an array are tallied under the array's entry.
    pub fn create_type(&mut self, value: &Value)
        requires
            old(self).wf(),
            supported(*value),
            type_total(old(self).types@) < usize::MAX,
        ensures
            final(self).wf(),
            final(self).name == old(self).name,
            final(self).path == old(self).path,
            final(self).count == old(self).count,
            final(self).probability == old(self).probability,
            final(self).has_duplicates == old(self).has_duplicates,
            final(self).missing == old(self).missing,
            final(self).last_document == old(self).last_document,
            final(self).bson_types@ == old(self).bson_types@.push(kind_of(*value)->0),
            has_kind(final(self).types@, kind_of(*value)->0),
            type_total(final(self).types@) == type_total(old(self).types@) + 1,
            forall|k: Kind|
                #[trigger] count_of(final(self).types@, k) == count_of(old(self).types@, k) + (
                if k == kind_of(*value)->0 {
                    1int
                } else {
                    0
                }),
            final(self).types@.len() == old(self).types@.len() + if has_kind(
                old(self).types@,
                kind_of(*value)->0,
            ) {
                0int
            } else {
                1
            },
            forall|i: int|
                0 <= i < old(self).types@.len() && old(self).types@[i].bson_type != kind_of(
                    *value,
                )->0 ==> final(self).types@[i] == old(self).types@[i],
            forall|i: int|
                0 <= i < final(self).types@.len() && (#[trigger] final(self).types@[i]).bson_type
                    == kind_of(*value)->0 ==> {
                    &&& recorded(old(self).types@, final(self).types@[i], i, old(self).path@, *value)
                    &&& tallied(
                        if i < old(self).types@.len() {
                            old(self).types@[i].elements@
                        } else {
                            Seq::empty()
                        },
                        final(self).types@[i].elements@,
                        *value,
                    )
                },
    {
        let k = match classify(value) {
            Some(k) => k,
            None => Kind::Null,
        };
        let ghost old_types = self.types@;
        let i = match position_of_kind(&self.types, k) {
            Some(i) => i,
            None => {
                proof {
                    lemma_count_of_absent(self.types@, k);
                }
                let entry = FieldType::new(&self.path, value);
                self.types.push(entry);
                proof {
                    assert(self.types@.drop_last() =~= old_types);
                }
                self.types.len() - 1
            },
        };
        proof {
            lemma_count_of_entry(self.types@, i as int);
            lemma_count_of_le_total(self.types@, k);
        }
        let ghost before = self.types@;
        let mut entry = self.types.remove(i);
        proof {
            assert(entry == before[i as int]);
        }
        entry.add_observation(value);
        let ghost base = before[i as int].elements@;
        if let Value::Array(items) = value {
            let mut j: usize = 0;
            proof {
                assert(items@.take(0) =~= Seq::<Value>::empty());
            }
            while j < items.len()
                invariant
                    entry.wf(),
                    entry.bson_type == k,
                    entry.path == before[i as int].path,
                    sampled(
                        before[i as int].count as int,
                        before[i as int].values@,
                        before[i as int].unique as int,
                        before[i as int].has_duplicates,
                        entry,
                        *value,
                    ),
                    j <= items@.len(),
                    i < before.len(),
                    base == before[i as int].elements@,
                    forall|t: int| 0 <= t < items@.len() ==> supported(#[trigger] items@[t]),
                    forall|x: Kind|
                        count_of(base, x) + items@.len() <= usize::MAX ==> #[trigger] count_of(
                            entry.elements@,
                            x,
                        ) == count_of(base, x) + items_of_kind(items@.take(j as int), x),
                decreases items@.len() - j,
            {
                assert(supported(items@[j as int]));
                let ghost prev = entry.elements@;
                entry.observe_element(&items[j]);
                proof {
                    let t = items@.take(j as int + 1);
                    assert(t.drop_last() =~= items@.take(j as int));
                    assert(t.last() == items@[j as int]);
                    assert forall|x: Kind|
                        count_of(base, x) + items@.len() <= usize::MAX implies #[trigger] count_of(
                            entry.elements@,
                            x,
                        ) == count_of(base, x) + items_of_kind(t, x) by {
                        lemma_items_of_kind_le(items@.take(j as int), x);
                        assert(count_of(prev, x) < usize::MAX);
                    }
                }
                j = j + 1;
            }
            proof {
                assert(items@.take(items@.len() as int) =~= items@);
            }
        }
        self.types.insert(i, entry);
        self.bson_types.push(k);
        proof {
            assert(self.types@ =~= before.update(i as int, entry));
            lemma_update_sums(before, i as int, entry);
            assert(self.types@[i as int].bson_type == k);
            if i >= old_types.len() {
                assert(before[i as int].values@ =~= Seq::<Sample>::empty());
                assert(before[i as int].elements@ =~= Seq::<FieldType>::empty());
            } else {
                assert(before[i as int] == old_types[i as int]);
            }
            assert(recorded(old_types, self.types@[i as int], i as int, old(self).path@, *value));
            assert forall|a: int, b: int| 0 <= a < b < self.types@.len() implies
                (#[trigger] self.types@[a]).bson_type != (#[trigger] self.types@[b]).bson_type by {
                assert(before[a].bson_type != before[b].bson_type);
            }
            assert(kinds_distinct(self.types@));
            assert(count_of(self.types@, Kind::Null) >= count_of(old_types, Kind::Null));
            assert forall|j: int| 0 <= j < self.types@.len() && (#[trigger] self.types@[j]).bson_type == k
                implies j == i as int by {
                if j != i as int {
                    assert(self.types@[j].bson_type != self.types@[i as int].bson_type);
                }
            }
        }
    }

    /// Whether the kind of `value` was already observed under this field.
    pub fn does_field_type_exist(&self, value: &Value) -> (r: bool)
        ensures
            r == (kind_of(*value) matches Some(k) && has_kind(self.types@, k)),
    {
        match classify(value) {
            Some(k) => position_of_kind(&self.types, k).is_some(),
            None => false,
        }
    }

    /// The dotted path of `name` under `path`, or `name` alone at the top.
    pub fn get_path(name: String, path: Option<String>) -> (r: String)
        ensures
            r@ == joined_path(
                name@,
                match path {
                    Some(p) => Some(p@),
                    None => None,
                },
            ),
    {
        match path {
            None => name,
            Some(p) => {
                let mut joined = p.clone();
                joined.append(".");
                joined.append(name.as_str());
                proof {
                    reveal_strlit(".");
                }
                joined
            },
        }
    }

    /// Counts one more document that carries the field.
    pub fn update_count(&mut self)
        requires
            old(self).count < usize::MAX,
        ensures
            final(self).count == old(self).count + 1,
            old(self).wf() ==> final(self).wf(),
            final(self).types == old(self).types,
            final(self).bson_types == old(self).bson_types,
            final(self).name == old(self).name,
            final(self).path == old(self).path,
            final(self).probability == old(self).probability,
            final(self).has_duplicates == old(self).has_duplicates,
            final(self).missing == old(self).missing,
            final(self).last_document == old(self).last_document,
    {
        self.count = self.count + 1;
    }

    /// Counts `num` more documents that carry the field.
    pub fn update_count_by(&mut self, num: usize)
        requires
            old(self).count + num <= usize::MAX,
        ensures
            final(self).count == old(self).count + num,
            final(self).types == old(self).types,
            final(self).bson_types == old(self).bson_types,
            final(self).name == old(self).name,
            final(self).path == old(self).path,
            final(self).probability == old(self).probability,
            final(self).has_duplicates == old(self).has_duplicates,
            final(self).missing == old(self).missing,
            final(self).last_document == old(self).last_document,
    {
        self.count = self.count + num;
    }
    /// Accounts for `missing` documents that lacked the field: they become
    /// observations of kind `Null` (the entry is created if need be) and
    /// count as presences, while `missing` remembers how many were added.
    pub fn update_for_missing(&mut self, missing: usize)
        requires
            old(self).wf(),
            old(self).count + missing <= usize::MAX,
            type_total(old(self).types@) + missing <= usize::MAX,
        ensures
            final(self).wf(),
            final(self).count == old(self).count + missing,
            final(self).missing == old(self).missing + missing,
            final(self).bson_types@ == old(self).bson_types@.push(Kind::Null),
            has_kind(final(self).types@, Kind::Null),
            type_total(final(self).types@) == type_total(old(self).types@) + missing,
            forall|k: Kind|
                #[trigger] count_of(final(self).types@, k) == count_of(old(self).types@, k) + (
                if k == Kind::Null {
                    missing as int
                } else {
                    0
                }),
            forall|i: int|
                0 <= i < old(self).types@.len() && old(self).types@[i].bson_type != Kind::Null
                    ==> final(self).types@[i] == old(self).types@[i],
            final(self).types@.len() == old(self).types@.len() + if has_kind(
                old(self).types@,
                Kind::Null,
            ) {
                0int
            } else {
                1
            },
            !has_kind(old(self).types@, Kind::Null) ==> {
                let e = final(self).types@[old(self).types@.len() as int];
                &&& e.bson_type == Kind::Null
                &&& e.path@ == old(self).path@
                &&& e.count == missing
                &&& e.values@.len() == 0
                &&& e.unique == 0
                &&& !e.has_duplicates
                &&& e.elements@.len() == 0
            },
            final(self).name == old(self).name,
            final(self).path == old(self).path,
            final(self).probability == old(self).probability,
            final(self).has_duplicates == old(self).has_duplicates,
            final(self).last_document == old(self).last_document,
    {
        let ghost old_types = self.types@;
        let i = match position_of_kind(&self.types, Kind::Null) {
            Some(i) => i,
            None => {
                proof {
                    lemma_count_of_absent(self.types@, Kind::Null);
                }
                let entry = FieldType::new(&self.path, &Value::Null);
                self.types.push(entry);
                proof {
                    assert(self.types@.drop_last() =~= old_types);
                }
                self.types.len() - 1
            },
        };
        proof {
            lemma_count_of_entry(self.types@, i as int);
            lemma_count_of_le_total(self.types@, Kind::Null);
        }
        let ghost before = self.types@;
        let mut entry = self.types.remove(i);
        proof {
            assert(entry == before[i as int]);
        }
        entry.count = entry.count + missing;
        self.types.insert(i, entry);
        self.bson_types.push(Kind::Null);
        self.count = self.count + missing;
        self.missing = self.missing + missing;
        proof {
            assert(self.types@ =~= before.update(i as int, entry));
            lemma_update_sums(before, i as int, entry);
            assert(self.types@[i as int].bson_type == Kind::Null);
            assert forall|a: int, b: int| 0 <= a < b < self.types@.len() implies
                (#[trigger] self.types@[a]).bson_type != (#[trigger] self.types@[b]).bson_type by {
                assert(before[a].bson_type != before[b].bson_type);
            }
        }
    }

    /// Sets the probability to the documents that really carried the field
    /// (those reconciled as missing left out) over `parent_count`.
    pub fn set_probability(&mut self, parent_count: usize)
        requires
            old(self).wf(),
        ensures
            final(self).probability == Some(
                Probability {
                    numerator: (old(self).count - old(self).missing) as usize,
                    denominator: parent_count,
                },
            ),
            final(self).wf(),
            final(self).count == old(self).count,
            final(self).missing == old(self).missing,
            final(self).types == old(self).types,
            final(self).bson_types == old(self).bson_types,
            final(self).name == old(self).name,
            final(self).path == old(self).path,
            final(self).has_duplicates == old(self).has_duplicates,
            final(self).last_document == old(self).last_document,
    {
        self.probability = Some(
            Probability { numerator: self.count - self.missing, denominator: parent_count },
        );
    }

    /// Sets the duplicate flag.
    pub fn set_duplicates(&mut self, duplicates: bool)
        ensures
            final(self).has_duplicates == duplicates,
            old(self).wf() ==> final(self).wf(),
            final(self).count == old(self).count,
            final(self).missing == old(self).missing,
            final(self).types == old(self).types,
            final(self).bson_types == old(self).bson_types,
            final(self).name == old(self).name,
            final(self).path == old(self).path,
            final(self).probability == old(self).probability,
            final(self).last_document == old(self).last_document,
    {
        self.has_duplicates = duplicates;
    }

    /// Sets the duplicate flag from the types: whether any saw a repeat.
    pub fn finalize_duplicates(&mut self)
        ensures
            final(self).has_duplicates == any_duplicates(old(self).types@),
            old(self).wf() ==> final(self).wf(),
            final(self).count == old(self).count,
            final(self).missing == old(self).missing,
            final(self).types == old(self).types,
            final(self).bson_types == old(self).bson_types,
            final(self).name == old(self).name,
            final(self).path == old(self).path,
            final(self).probability == old(self).probability,
            final(self).last_document == old(self).last_document,
    {
        let mut found = false;
        let mut i: usize = 0;
        while i < self.types.len()
            invariant
                i <= self.types@.len(),
                found == exists|j: int| 0 <= j < i && (#[trigger] self.types@[j]).has_duplicates,
            decreases self.types@.len() - i,
        {
            if self.types[i].has_duplicates {
                found = true;
            }
            i = i + 1;
        }
        self.set_duplicates(found);
    }

    /// The probability, which exists only once the batch was finalized.
    pub fn get_probability(&self) -> (r: Result<Probability, SchemaError>)
        ensures
            match self.probability {
                Some(p) => r == Ok::<Probability, SchemaError>(p),
                None => r matches Err(SchemaError::InvariantViolation),
            },
    {
        match self.probability {
            Some(p) => Ok(p),
            None => Err(SchemaError::InvariantViolation),
        }
    }
}

} // verus!
