use vstd::prelude::*;
use crate::value::{Kind, Sample, SchemaError, Value, entries_supported, kind_at, supported};
use crate::field::{Field, Probability, any_duplicates, joined_path};
use crate::field_type::{FieldType, SAMPLE_CAP, type_total, count_of};

verus! {

broadcast use vstd::std_specs::vec::axiom_vec_index_decreases;

/// The aggregate schema of a batch of documents: one `Field` per dotted path
/// met in any document.
#[derive(Debug)]
pub struct SchemaAggregator {
    /// The documents folded in so far.
    pub document_count: usize,
    /// The fields, one per path, in the order they were first met.
    pub fields: Vec<Field>,
    /// Whether the batch was finalized.
    pub finalized: bool,
}

/// No two fields share a path.
pub open spec fn paths_distinct(s: Seq<Field>) -> bool {
    forall|i: int, j: int| 0 <= i < j < s.len() ==> (#[trigger] s[i]).path@ != (#[trigger] s[j]).path@
}

/// A field of an aggregate over `n` documents: its type counts add up to
/// its count, which is at most `n`. Before finalizing nothing is reconciled
/// and no probability is set; after it, the field counts every document and
/// its probability is its real presences over `n`.
pub open spec fn field_ok(f: Field, n: int, finalized: bool) -> bool {
    &&& f.wf()
    &&& type_total(f.types@) == f.count
    &&& f.count <= n
    &&& f.last_document <= n
    &&& if finalized {
        &&& f.count == n
        &&& f.probability == Some(
            Probability { numerator: (f.count - f.missing) as usize, denominator: n as usize },
        )
        &&& f.has_duplicates == any_duplicates(f.types@)
    } else {
        &&& f.missing == 0
        &&& f.probability is None
    }
}

/// A field while document `d` is walked: met in it already, or counted in
/// fewer than `d` documents.
pub open spec fn walk_ok(f: Field, d: int) -> bool {
    &&& f.wf()
    &&& type_total(f.types@) == f.count
    &&& f.missing == 0
    &&& f.probability is None
    &&& f.count <= d
    &&& f.last_document <= d
    &&& (f.last_document == d || f.count < d)
}

/// The position of the field whose path is `path`, if there is one.
pub fn find_field(fields: &Vec<Field>, path: &String) -> (r: Option<usize>)
    ensures
        match r {
            Some(i) => i < fields@.len() && fields@[i as int].path@ == path@,
            None => forall|i: int| 0 <= i < fields@.len() ==> (#[trigger] fields@[i]).path@ != path@,
        },
{
    let mut i: usize = 0;
    while i < fields.len()
        invariant
            i <= fields@.len(),
            forall|j: int| 0 <= j < i ==> (#[trigger] fields@[j]).path@ != path@,
        decreases fields@.len() - i,
    {
        if fields[i].path.eq(path) {
            return Some(i);
        }
        i = i + 1;
    }
    None
}

/// The path of the first value outside the classification in `v`, met at
/// `path`, in document order; an array's elements are reported at the
/// array's own path.
pub open spec fn bad_in_value(path: Seq<char>, v: Value) -> Option<Seq<char>>
    decreases v, 0nat,
{
    match v {
        Value::Other => Some(path),
        Value::Document(sub) => bad_in_entries(Some(path), sub, sub.len() as nat),
        Value::Array(items) => bad_in_items(path, items, items.len() as nat),
        _ => None,
    }
}

/// The first unsupported path among the first `n` elements of an array.
pub open spec fn bad_in_items(path: Seq<char>, items: Vec<Value>, n: nat) -> Option<Seq<char>>
    decreases items, n,
{
    if n == 0 || n > items.len() {
        None
    } else {
        match bad_in_items(path, items, (n - 1) as nat) {
            Some(p) => Some(p),
            None => bad_in_value(path, items[n - 1]),
        }
    }
}

/// The first unsupported path among the first `n` entries of a document
/// at path `parent`.
pub open spec fn bad_in_entries(
    parent: Option<Seq<char>>,
    entries: Vec<(String, Value)>,
    n: nat,
) -> Option<Seq<char>>
    decreases entries, n,
{
    if n == 0 || n > entries.len() {
        None
    } else {
        match bad_in_entries(parent, entries, (n - 1) as nat) {
            Some(p) => Some(p),
            None => bad_in_value(joined_path(entries[n - 1].0@, parent), entries[n - 1].1),
        }
    }
}

/// The view of an optional parent path.
pub open spec fn parent_view(parent: Option<&String>) -> Option<Seq<char>> {
    match parent {
        Some(p) => Some(p@),
        None => None,
    }
}

/// The path, under `path`, of the first value outside the classification
/// found in `v`, if any.
fn unsupported_in_value(v: &Value, path: &String) -> (r: Option<String>)
    ensures
        r is None <==> supported(*v),
        match r {
            Some(p) => bad_in_value(path@, *v) == Some(p@),
            None => bad_in_value(path@, *v) is None,
        },
    decreases v,
{
    match v {
        Value::Other => Some(path.clone()),
        Value::Document(entries) => unsupported_in_entries(entries, Some(path)),
        Value::Array(items) => unsupported_in_items(items, path),
        _ => None,
    }
}

/// The path, under `path`, of the first value outside the classification
/// found among the elements of an array, if any.
fn unsupported_in_items(items: &Vec<Value>, path: &String) -> (r: Option<String>)
    ensures
        r is None <==> forall|t: int| 0 <= t < items@.len() ==> supported(#[trigger] items@[t]),
        match r {
            Some(p) => bad_in_items(path@, *items, items.len() as nat) == Some(p@),
            None => bad_in_items(path@, *items, items.len() as nat) is None,
        },
    decreases items,
{
    let mut j: usize = 0;
    while j < items.len()
        invariant
            j <= items@.len(),
            forall|t: int| 0 <= t < j ==> supported(#[trigger] items@[t]),
            bad_in_items(path@, *items, j as nat) is None,
        decreases items@.len() - j,
    {
        proof {
            assert(decreases_to!(*items => items[j as int]));
        }
        match unsupported_in_value(&items[j], path) {
            Some(p) => {
                assert(!supported(items@[j as int]));
                assert(bad_in_items(path@, *items, (j + 1) as nat) == Some(p@));
                proof {
                    lemma_bad_in_items_stays(path@, *items, (j + 1) as nat);
                }
                return Some(p);
            },
            None => {},
        }
        j = j + 1;
    }
    None
}

/// Once an unsupported path is found in a prefix, longer prefixes report it.
proof fn lemma_bad_in_items_stays(path: Seq<char>, items: Vec<Value>, n: nat)
    requires
        n <= items.len(),
        bad_in_items(path, items, n) is Some,
    ensures
        bad_in_items(path, items, items.len() as nat) == bad_in_items(path, items, n),
    decreases items.len() - n,
{
    if n < items.len() {
        assert(bad_in_items(path, items, (n + 1) as nat) == bad_in_items(path, items, n));
        lemma_bad_in_items_stays(path, items, (n + 1) as nat);
    }
}

/// Once an unsupported path is found in a prefix, longer prefixes report it.
proof fn lemma_bad_in_entries_stays(parent: Option<Seq<char>>, entries: Vec<(String, Value)>, n: nat)
    requires
        n <= entries.len(),
        bad_in_entries(parent, entries, n) is Some,
    ensures
        bad_in_entries(parent, entries, entries.len() as nat) == bad_in_entries(parent, entries, n),
    decreases entries.len() - n,
{
    if n < entries.len() {
        assert(bad_in_entries(parent, entries, (n + 1) as nat) == bad_in_entries(parent, entries, n));
        lemma_bad_in_entries_stays(parent, entries, (n + 1) as nat);
    }
}

/// The path of the first value outside the classification found in a
/// document whose own path is `parent`, if any.
fn unsupported_in_entries(entries: &Vec<(String, Value)>, parent: Option<&String>) -> (r: Option<String>)
    ensures
        r is None <==> entries_supported(entries@),
        match r {
            Some(p) => bad_in_entries(parent_view(parent), *entries, entries.len() as nat) == Some(p@),
            None => bad_in_entries(parent_view(parent), *entries, entries.len() as nat) is None,
        },
    decreases entries,
{
    let mut k: usize = 0;
    while k < entries.len()
        invariant
            k <= entries@.len(),
            forall|t: int| 0 <= t < k ==> supported(#[trigger] entries@[t].1),
            bad_in_entries(parent_view(parent), *entries, k as nat) is None,
        decreases entries@.len() - k,
    {
        let parent_path = match parent {
            Some(p) => Some(p.clone()),
            None => None,
        };
        let path = Field::get_path(entries[k].0.clone(), parent_path);
        proof {
            assert(decreases_to!(*entries => entries[k as int]));
        }
        match unsupported_in_value(&entries[k].1, &path) {
            Some(p) => {
                assert(!supported(entries@[k as int].1));
                assert(path@ == joined_path(entries[k as int].0@, parent_view(parent)));
                assert(bad_in_entries(parent_view(parent), *entries, (k + 1) as nat) == Some(p@));
                proof {
                    lemma_bad_in_entries_stays(parent_view(parent), *entries, (k + 1) as nat);
                }
                return Some(p);
            },
            None => {},
        }
        k = k + 1;
    }
    None
}

/// Every field is sound for the walk of document `d`, and paths are distinct.
pub open spec fn walk_inv(fs: Seq<Field>, d: int) -> bool {
    &&& d >= 1
    &&& forall|i: int| 0 <= i < fs.len() ==> walk_ok(#[trigger] fs[i], d)
    &&& paths_distinct(fs)
}

/// The paths that a walk visits in a value met at `path`, each with the
/// kind of the value found there, in order: the value itself, then what a
/// nested document holds.
pub open spec fn value_visits(path: Seq<char>, v: Value) -> Seq<(Seq<char>, Kind)>
    decreases v, 0nat,
{
    seq![(path, kind_at(v))] + match v {
        Value::Document(sub) => entries_visits(Some(path), sub, sub.len() as nat),
        _ => Seq::empty(),
    }
}

/// The visits of the first `n` entries of a document at path `parent`.
pub open spec fn entries_visits(
    parent: Option<Seq<char>>,
    entries: Vec<(String, Value)>,
    n: nat,
) -> Seq<(Seq<char>, Kind)>
    decreases entries, n,
{
    if n == 0 || n > entries.len() {
        Seq::empty()
    } else {
        entries_visits(parent, entries, (n - 1) as nat) + value_visits(
            joined_path(entries[n - 1].0@, parent),
            entries[n - 1].1,
        )
    }
}

/// The visits of a whole top-level document.
pub open spec fn document_visits(doc: Vec<(String, Value)>) -> Seq<(Seq<char>, Kind)> {
    entries_visits(None, doc, doc.len() as nat)
}

/// Some visit is at path `p`.
pub open spec fn reached(vs: Seq<(Seq<char>, Kind)>, p: Seq<char>) -> bool {
    exists|j: int| 0 <= j < vs.len() && (#[trigger] vs[j]).0 == p
}

/// The kind found at the first visit of path `p`.
pub open spec fn first_kind(vs: Seq<(Seq<char>, Kind)>, p: Seq<char>) -> Kind
    decreases vs.len(),
{
    if vs.len() == 0 {
        Kind::Null
    } else if reached(vs.drop_last(), p) {
        first_kind(vs.drop_last(), p)
    } else {
        vs.last().1
    }
}

/// The kind counts of field `f` are those of `o` plus one observation of
/// kind `k`.
pub open spec fn counts_one_more(o: Field, f: Field, k: Kind) -> bool {
    forall|x: Kind|
        #[trigger] count_of(f.types@, x) == count_of(o.types@, x) + if x == k {
            1int
        } else {
            0
        }
}

/// What the visits `vs` of document `d` make of the fields `s0` that stood
/// before it: a field whose path was visited is counted once more, with one
/// observation of the kind met at its first visit; the others are left as
/// they were; each other visited path got a new field, counted once, after
/// the old ones.
pub open spec fn walked(s0: Seq<Field>, cur: Seq<Field>, vs: Seq<(Seq<char>, Kind)>, d: int) -> bool {
    &&& cur.len() >= s0.len()
    &&& forall|i: int|
        0 <= i < s0.len() ==> {
            let o = #[trigger] s0[i];
            let f = cur[i];
            &&& f.path == o.path
            &&& f.name == o.name
            &&& if reached(vs, o.path@) {
                &&& f.count == o.count + 1
                &&& f.last_document == d
                &&& counts_one_more(o, f, first_kind(vs, o.path@))
            } else {
                &&& f.count == o.count
                &&& f.last_document == o.last_document
                &&& forall|x: Kind| #[trigger] count_of(f.types@, x) == count_of(o.types@, x)
            }
        }
    &&& forall|i: int|
        s0.len() <= i < cur.len() ==> {
            let f = #[trigger] cur[i];
            &&& reached(vs, f.path@)
            &&& f.count == 1
            &&& f.last_document == d
            &&& forall|x: Kind|
                #[trigger] count_of(f.types@, x) == if x == first_kind(vs, f.path@) {
                    1int
                } else {
                    0
                }
        }
    &&& forall|p: Seq<char>|
        reached(vs, p) ==> exists|i: int| 0 <= i < cur.len() && (#[trigger] cur[i]).path@ == p
}

/// The fields before document `d` was walked: none was met in it yet.
pub open spec fn before_walk(s0: Seq<Field>, d: int) -> bool {
    forall|i: int| 0 <= i < s0.len() ==> (#[trigger] s0[i]).last_document < d
}

/// One more visit at the end adds its path to those reached, and is the
/// first visit of that path only when it was not reached before.
proof fn lemma_first_kind_push(vs: Seq<(Seq<char>, Kind)>, x: (Seq<char>, Kind), p: Seq<char>)
    ensures
        reached(vs.push(x), p) == (reached(vs, p) || x.0 == p),
        first_kind(vs.push(x), p) == if reached(vs, p) {
            first_kind(vs, p)
        } else {
            x.1
        },
{
    let w = vs.push(x);
    assert(w.drop_last() =~= vs);
    if reached(vs, p) {
        let j = choose|j: int| 0 <= j < vs.len() && (#[trigger] vs[j]).0 == p;
        assert(w[j] == vs[j]);
    }
    if x.0 == p {
        assert(w[vs.len() as int] == x);
    }
    if reached(w, p) && !reached(vs, p) {
        let j = choose|j: int| 0 <= j < w.len() && (#[trigger] w[j]).0 == p;
        if j < vs.len() {
            assert(vs[j] == w[j]);
        }
    }
}

/// Visits that reach the same paths, first with the same kinds, describe
/// the same walk.
proof fn lemma_walked_same_reach(
    s0: Seq<Field>,
    cur: Seq<Field>,
    vs: Seq<(Seq<char>, Kind)>,
    vs1: Seq<(Seq<char>, Kind)>,
    d: int,
)
    requires
        walked(s0, cur, vs, d),
        forall|q: Seq<char>| #[trigger] reached(vs1, q) == reached(vs, q),
        forall|q: Seq<char>| reached(vs, q) ==> #[trigger] first_kind(vs1, q) == first_kind(vs, q),
    ensures
        walked(s0, cur, vs1, d),
{
    assert forall|i: int| 0 <= i < s0.len() && reached(vs1, (#[trigger] s0[i]).path@) implies
        counts_one_more(s0[i], cur[i], first_kind(vs1, s0[i].path@)) by {
        assert(counts_one_more(s0[i], cur[i], first_kind(vs, s0[i].path@)));
    }
    assert forall|i: int| s0.len() <= i < cur.len() implies
        forall|x: Kind| #[trigger] count_of((#[trigger] cur[i]).types@, x) == if x == first_kind(vs1, cur[i].path@) {
            1int
        } else {
            0
        } by {
        assert(reached(vs, cur[i].path@));
    }
    assert forall|p: Seq<char>| reached(vs1, p) implies
        exists|i: int| 0 <= i < cur.len() && (#[trigger] cur[i]).path@ == p by {
        assert(reached(vs, p));
    }
}

/// Records `value` under `path` (whose last segment is `name`) for
/// document `d`, unless the document already reached that path, then walks
/// a nested document under it.
fn record_at(
    fields: &mut Vec<Field>,
    name: &String,
    path: String,
    value: &Value,
    d: usize,
    Ghost(s0): Ghost<Seq<Field>>,
    Ghost(vs): Ghost<Seq<(Seq<char>, Kind)>>,
)
    requires
        walk_inv(old(fields)@, d as int),
        before_walk(s0, d as int),
        walked(s0, old(fields)@, vs, d as int),
        supported(*value),
    ensures
        walk_inv(final(fields)@, d as int),
        walked(s0, final(fields)@, vs + value_visits(path@, *value), d as int),
    decreases value,
{
    let ghost before = fields@;
    let ghost k = kind_at(*value);
    let ghost vs1 = vs.push((path@, k));
    proof {
        assert forall|q: Seq<char>| #[trigger] reached(vs1, q) == (reached(vs, q) || q == path@) by {
            lemma_first_kind_push(vs, (path@, k), q);
        }
        assert forall|q: Seq<char>|
            #[trigger] first_kind(vs1, q) == (if reached(vs, q) { first_kind(vs, q) } else { k }) by {
            lemma_first_kind_push(vs, (path@, k), q);
        }
    }
    match find_field(fields, &path) {
        Some(i) => {
            if fields[i].last_document == d {
                proof {
                    if !reached(vs, path@) {
                        if i < s0.len() {
                            assert(fields@[i as int].last_document == s0[i as int].last_document);
                        } else {
                            assert(reached(vs, fields@[i as int].path@));
                        }
                    }
                    lemma_walked_same_reach(s0, fields@, vs, vs1, d as int);
                }
            } else {
                let mut f = fields.remove(i);
                proof {
                    assert(f == before[i as int]);
                    assert(!reached(vs, path@)) by {
                        if reached(vs, path@) {
                            let j = choose|j: int| 0 <= j < before.len() && (#[trigger] before[j]).path@ == path@;
                            assert(j == i as int);
                        }
                    }
                    assert(i < s0.len()) by {
                        if i >= s0.len() {
                            assert(reached(vs, before[i as int].path@));
                        }
                    }
                }
                f.update_count();
                f.last_document = d;
                f.create_type(value);
                fields.insert(i, f);
                proof {
                    assert(fields@ =~= before.update(i as int, f));
                    assert(walk_ok(fields@[i as int], d as int));
                    assert forall|x: Kind| #[trigger] count_of(f.types@, x) == count_of(s0[i as int].types@, x) + if x == first_kind(vs1, s0[i as int].path@) {
                        1int
                    } else {
                        0
                    } by {
                        assert(count_of(before[i as int].types@, x) == count_of(s0[i as int].types@, x));
                    }
                    assert forall|p: Seq<char>| reached(vs1, p) implies exists|j: int|
                        0 <= j < fields@.len() && (#[trigger] fields@[j]).path@ == p by {
                        if p == path@ {
                            assert(fields@[i as int].path@ == p);
                        } else {
                            let j = choose|j: int| 0 <= j < before.len() && (#[trigger] before[j]).path@ == p;
                            assert(fields@[j].path@ == p);
                        }
                    }
                    assert forall|j: int| 0 <= j < s0.len() && j != i implies {
                        let o = #[trigger] s0[j];
                        let g = fields@[j];
                        if reached(vs1, o.path@) {
                            &&& g.count == o.count + 1
                            &&& g.last_document == d
                            &&& counts_one_more(o, g, first_kind(vs1, o.path@))
                        } else {
                            &&& g.count == o.count
                            &&& g.last_document == o.last_document
                            &&& forall|x: Kind| #[trigger] count_of(g.types@, x) == count_of(o.types@, x)
                        }
                    } by {
                        assert(fields@[j] == before[j]);
                        assert(before[j].path@ != before[i as int].path@);
                        assert(reached(vs1, s0[j].path@) == reached(vs, s0[j].path@));
                        if reached(vs, s0[j].path@) {
                            assert(first_kind(vs1, s0[j].path@) == first_kind(vs, s0[j].path@));
                        }
                    }
                    assert(first_kind(vs1, path@) == k);
                    assert(reached(vs1, path@));
                    assert forall|j: int| s0.len() <= j < fields@.len() implies {
                        let g = #[trigger] fields@[j];
                        &&& reached(vs1, g.path@)
                        &&& g.count == 1
                        &&& g.last_document == d
                        &&& forall|x: Kind|
                            #[trigger] count_of(g.types@, x) == if x == first_kind(vs1, g.path@) {
                                1int
                            } else {
                                0
                            }
                    } by {
                        assert(fields@[j] == before[j]);
                        assert(reached(vs, before[j].path@));
                        assert(first_kind(vs1, before[j].path@) == first_kind(vs, before[j].path@));
                    }
                    assert(walked(s0, fields@, vs1, d as int));
                }
            }
        },
        None => {
            let mut f = Field::new(name.clone(), path.as_str());
            f.last_document = d;
            proof {
                assert forall|x: Kind| #[trigger] count_of(f.types@, x) == 0 by {
                    crate::field_type::lemma_count_of_absent(f.types@, x);
                }
            }
            f.create_type(value);
            fields.push(f);
            proof {
                assert(fields@.drop_last() =~= before);
                assert(walk_ok(fields@[fields@.len() - 1], d as int));
                assert(!reached(vs, path@)) by {
                    if reached(vs, path@) {
                        let j = choose|j: int| 0 <= j < before.len() && (#[trigger] before[j]).path@ == path@;
                    }
                }
                assert forall|p: Seq<char>| reached(vs1, p) implies exists|j: int|
                    0 <= j < fields@.len() && (#[trigger] fields@[j]).path@ == p by {
                    if p == path@ {
                        assert(fields@[fields@.len() - 1].path@ == p);
                    } else {
                        let j = choose|j: int| 0 <= j < before.len() && (#[trigger] before[j]).path@ == p;
                        assert(fields@[j].path@ == p);
                    }
                }
                assert forall|j: int| 0 <= j < s0.len() implies {
                    let o = #[trigger] s0[j];
                    let g = fields@[j];
                    if reached(vs1, o.path@) {
                        &&& g.count == o.count + 1
                        &&& g.last_document == d
                        &&& counts_one_more(o, g, first_kind(vs1, o.path@))
                    } else {
                        &&& g.count == o.count
                        &&& g.last_document == o.last_document
                        &&& forall|x: Kind| #[trigger] count_of(g.types@, x) == count_of(o.types@, x)
                    }
                } by {
                    assert(fields@[j] == before[j]);
                    assert(before[j].path@ != path@);
                }
                assert(first_kind(vs1, path@) == k);
                assert forall|j: int| s0.len() <= j < fields@.len() implies {
                    let g = #[trigger] fields@[j];
                    &&& reached(vs1, g.path@)
                    &&& g.count == 1
                    &&& g.last_document == d
                    &&& forall|x: Kind|
                        #[trigger] count_of(g.types@, x) == if x == first_kind(vs1, g.path@) {
                            1int
                        } else {
                            0
                        }
                } by {
                    if j < before.len() {
                        assert(fields@[j] == before[j]);
                        assert(reached(vs, before[j].path@));
                    }
                }
                assert(walked(s0, fields@, vs1, d as int));
            }
        },
    }
    if let Value::Document(entries) = value {
        walk_entries(fields, Some(&path), entries, d, Ghost(s0), Ghost(vs1));
        proof {
            assert(vs + value_visits(path@, *value) =~= vs1 + entries_visits(
                Some(path@),
                *entries,
                entries.len() as nat,
            ));
        }
    } else {
        proof {
            assert(vs + value_visits(path@, *value) =~= vs1);
        }
    }
}

/// Records, for document `d`, each entry of a document whose own path is
/// `parent`.
fn walk_entries(
    fields: &mut Vec<Field>,
    parent: Option<&String>,
    entries: &Vec<(String, Value)>,
    d: usize,
    Ghost(s0): Ghost<Seq<Field>>,
    Ghost(vs): Ghost<Seq<(Seq<char>, Kind)>>,
)
    requires
        walk_inv(old(fields)@, d as int),
        before_walk(s0, d as int),
        walked(s0, old(fields)@, vs, d as int),
        entries_supported(entries@),
    ensures
        walk_inv(final(fields)@, d as int),
        walked(
            s0,
            final(fields)@,
            vs + entries_visits(parent_view(parent), *entries, entries.len() as nat),
            d as int,
        ),
    decreases entries,
{
    let mut k: usize = 0;
    proof {
        assert(vs + entries_visits(parent_view(parent), *entries, 0) =~= vs);
    }
    while k < entries.len()
        invariant
            k <= entries@.len(),
            entries_supported(entries@),
            before_walk(s0, d as int),
            walk_inv(fields@, d as int),
            walked(s0, fields@, vs + entries_visits(parent_view(parent), *entries, k as nat), d as int),
        decreases entries@.len() - k,
    {
        let parent_path = match parent {
            Some(p) => Some(p.clone()),
            None => None,
        };
        let path = Field::get_path(entries[k].0.clone(), parent_path);
        proof {
            assert(decreases_to!(*entries => entries[k as int]));
            assert(supported(entries@[k as int].1));
        }
        let ghost prior = vs + entries_visits(parent_view(parent), *entries, k as nat);
        record_at(fields, &entries[k].0, path, &entries[k].1, d, Ghost(s0), Ghost(prior));
        proof {
            assert(path@ == joined_path(entries[k as int].0@, parent_view(parent)));
            assert(prior + value_visits(path@, entries[k as int].1) =~= vs + entries_visits(
                parent_view(parent),
                *entries,
                (k + 1) as nat,
            ));
        }
        k = k + 1;
    }
}

/// What finalizing an aggregate of `n` documents makes of field `o`: the
/// documents that lacked it become `Null` observations, and its probability
/// is its real presences over `n`.
pub open spec fn finalize_step(o: Field, f: Field, n: int) -> bool {
    &&& f.path == o.path
    &&& f.name == o.name
    &&& f.count == n
    &&& f.missing == n - o.count
    &&& f.probability == Some(Probability { numerator: o.count, denominator: n as usize })
    &&& forall|k: Kind|
        #[trigger] count_of(f.types@, k) == count_of(o.types@, k) + if k == Kind::Null {
            n - o.count
        } else {
            0
        }
    &&& f.has_duplicates == any_duplicates(f.types@)
    &&& f.bson_types@ == if n > o.count {
        o.bson_types@.push(Kind::Null)
    } else {
        o.bson_types@
    }
}

impl SchemaAggregator {
    /// Every field is sound for the documents counted and the state of the
    /// batch, and no two fields share a path.
    pub open spec fn wf(&self) -> bool {
        &&& forall|i: int|
            0 <= i < self.fields@.len() ==> field_ok(
                #[trigger] self.fields@[i],
                self.document_count as int,
                self.finalized,
            )
        &&& paths_distinct(self.fields@)
    }

    /// An aggregate that has seen no document.
    pub fn new() -> (r: SchemaAggregator)
        ensures
            r.wf(),
            r.document_count == 0,
            r.fields@.len() == 0,
            !r.finalized,
    {
        SchemaAggregator { document_count: 0, fields: Vec::new(), finalized: false }
    }

    /// Folds one document into the aggregate. A document holding a value
    /// outside the classification is refused whole and changes nothing; so
    /// does any document once the batch is finalized. Otherwise every path
    /// the document visits is counted once: a field already known gets one
    /// more presence and one more observation of the kind met at the path's
    /// first visit; an unknown path gets a new field after the others. A path
    /// that one document reaches twice is recorded at its first visit only.
    pub fn add_document(&mut self, doc: &Vec<(String, Value)>) -> (r: Result<(), SchemaError>)
        requires
            old(self).wf(),
            old(self).document_count < usize::MAX,
        ensures
            final(self).wf(),
            old(self).finalized ==> (r matches Err(SchemaError::InvariantViolation)),
            !old(self).finalized && !entries_supported(doc@) ==> (r matches Err(
                SchemaError::UnsupportedType { .. },
            )),
            !old(self).finalized ==> match r {
                Err(SchemaError::UnsupportedType { path }) => bad_in_entries(
                    None,
                    *doc,
                    doc.len() as nat,
                ) == Some(path@),
                _ => true,
            },
            r is Err ==> *final(self) == *old(self),
            !old(self).finalized && entries_supported(doc@) ==> {
                &&& r is Ok
                &&& !final(self).finalized
                &&& final(self).document_count == old(self).document_count + 1
                &&& walked(
                    old(self).fields@,
                    final(self).fields@,
                    document_visits(*doc),
                    final(self).document_count as int,
                )
            },
    {
        if self.finalized {
            return Err(SchemaError::InvariantViolation);
        }
        match unsupported_in_entries(doc, None) {
            Some(path) => {
                return Err(SchemaError::UnsupportedType { path });
            },
            None => {},
        }
        let d = self.document_count + 1;
        proof {
            assert forall|i: int| 0 <= i < self.fields@.len() implies walk_ok(
                #[trigger] self.fields@[i],
                d as int,
            ) by {
                assert(field_ok(self.fields@[i], self.document_count as int, false));
            }
        }
        let ghost s0 = self.fields@;
        proof {
            assert(walked(s0, s0, Seq::empty(), d as int));
        }
        walk_entries(&mut self.fields, None, doc, d, Ghost(s0), Ghost(Seq::empty()));
        proof {
            assert(Seq::<(Seq<char>, Kind)>::empty() + document_visits(*doc) =~= document_visits(*doc));
        }
        self.document_count = d;
        proof {
            assert forall|i: int| 0 <= i < self.fields@.len() implies field_ok(
                #[trigger] self.fields@[i],
                d as int,
                false,
            ) by {
                assert(walk_ok(self.fields@[i], d as int));
            }
        }
        Ok(())
    }
    /// Ends the batch: each field is reconciled with the documents that
    /// lacked it, then gets its probability and its duplicate flag. A second
    /// call is refused and changes nothing.
    pub fn finalize(&mut self) -> (r: Result<(), SchemaError>)
        requires
            old(self).wf(),
        ensures
            final(self).wf(),
            old(self).finalized ==> (r matches Err(SchemaError::InvariantViolation)),
            r is Err ==> *final(self) == *old(self),
            !old(self).finalized ==> {
                &&& r is Ok
                &&& final(self).finalized
                &&& final(self).document_count == old(self).document_count
                &&& final(self).fields@.len() == old(self).fields@.len()
                &&& forall|i: int|
                    0 <= i < old(self).fields@.len() ==> finalize_step(
                        #[trigger] old(self).fields@[i],
                        final(self).fields@[i],
                        old(self).document_count as int,
                    )
            },
    {
        if self.finalized {
            return Err(SchemaError::InvariantViolation);
        }
        let n = self.document_count;
        let ghost orig = self.fields@;
        let mut i: usize = 0;
        while i < self.fields.len()
            invariant
                !self.finalized,
                self.document_count == n,
                self.fields@.len() == orig.len(),
                i <= orig.len(),
                paths_distinct(orig),
                forall|j: int| 0 <= j < orig.len() ==> field_ok(#[trigger] orig[j], n as int, false),
                forall|j: int| 0 <= j < orig.len() ==> (#[trigger] self.fields@[j]).path == orig[j].path,
                forall|j: int| i <= j < orig.len() ==> #[trigger] self.fields@[j] == orig[j],
                forall|j: int|
                    0 <= j < i ==> field_ok(#[trigger] self.fields@[j], n as int, true)
                        && finalize_step(orig[j], self.fields@[j], n as int),
            decreases orig.len() - i,
        {
            let ghost before = self.fields@;
            let mut f = self.fields.remove(i);
            proof {
                assert(f == orig[i as int]);
                assert(field_ok(f, n as int, false));
            }
            let missing = n - f.count;
            if missing > 0 {
                f.update_for_missing(missing);
            }
            f.set_probability(n);
            f.finalize_duplicates();
            self.fields.insert(i, f);
            proof {
                assert(self.fields@ =~= before.update(i as int, f));
                assert(field_ok(f, n as int, true));
                assert(finalize_step(orig[i as int], f, n as int));
            }
            i = i + 1;
        }
        self.finalized = true;
        proof {
            assert forall|a: int, b: int| 0 <= a < b < self.fields@.len() implies
                (#[trigger] self.fields@[a]).path@ != (#[trigger] self.fields@[b]).path@ by {
                assert(orig[a].path@ != orig[b].path@);
            }
        }
        Ok(())
    }
}

/// For every field of a sound aggregate, the counts of its types add up to
/// the field's count; this holds at every step, and so after finalizing.
pub proof fn lemma_count_conservation(a: SchemaAggregator, i: int)
    requires
        a.wf(),
        0 <= i < a.fields@.len(),
    ensures
        type_total(a.fields@[i].types@) == a.fields@[i].count,
{
    assert(field_ok(a.fields@[i], a.document_count as int, a.finalized));
}

/// Once a batch of at least one document is finalized, every field's
/// probability is a ratio over the document count between 0 and 1.
pub proof fn lemma_probability_bounds(a: SchemaAggregator, i: int)
    requires
        a.wf(),
        a.finalized,
        a.document_count > 0,
        0 <= i < a.fields@.len(),
    ensures
        a.fields@[i].probability matches Some(p) && p.denominator == a.document_count
            && p.numerator <= p.denominator,
{
    assert(field_ok(a.fields@[i], a.document_count as int, a.finalized));
}

/// No field is counted in more documents than the aggregate has seen.
pub proof fn lemma_presence_bounded(a: SchemaAggregator, i: int)
    requires
        a.wf(),
        0 <= i < a.fields@.len(),
    ensures
        a.fields@[i].count <= a.document_count,
{
    assert(field_ok(a.fields@[i], a.document_count as int, a.finalized));
}

/// No sample, of a type or of the elements of an array type, holds more
/// than `SAMPLE_CAP` values.
pub proof fn lemma_sample_cap(a: SchemaAggregator, i: int, j: int)
    requires
        a.wf(),
        0 <= i < a.fields@.len(),
        0 <= j < a.fields@[i].types@.len(),
    ensures
        a.fields@[i].types@[j].values@.len() <= SAMPLE_CAP,
        forall|e: int|
            0 <= e < a.fields@[i].types@[j].elements@.len()
                ==> (#[trigger] a.fields@[i].types@[j].elements@[e]).values@.len() <= SAMPLE_CAP,
{
    assert(field_ok(a.fields@[i], a.document_count as int, a.finalized));
    assert(a.fields@[i].types@[j].wf());
}

/// A fixed example schema: four documents, of which one carried the field
/// `_id`, holding the number 1.
pub fn parser() -> (r: SchemaAggregator)
    ensures
        r.wf(),
        r.document_count == 4,
        !r.finalized,
        r.fields@.len() == 1,
        r.fields@[0].name@ == "_id"@,
        r.fields@[0].count == 1,
        r.fields@[0].types@.len() == 1,
        r.fields@[0].types@[0].bson_type == Kind::Number,
        r.fields@[0].types@[0].count == 1,
        r.fields@[0].path@ == "_id"@,
        r.fields@[0].types@[0].path@ == "_id"@,
        r.fields@[0].types@[0].unique == 1,
        !r.fields@[0].types@[0].has_duplicates,
        r.fields@[0].types@[0].values@.len() == 1,
        r.fields@[0].types@[0].values@[0] matches Sample::Int32(1),
        r.fields@[0].bson_types@ == seq![Kind::Number],
        !r.fields@[0].has_duplicates,
{
    let mut values = Vec::new();
    values.push(Sample::Int32(1));
    let number = FieldType {
        bson_type: Kind::Number,
        path: "_id".to_string(),
        count: 1,
        values,
        unique: 1,
        has_duplicates: false,
        elements: Vec::new(),
    };
    let mut types = Vec::new();
    types.push(number);
    let mut bson_types = Vec::new();
    bson_types.push(Kind::Number);
    let field = Field {
        name: "_id".to_string(),
        path: "_id".to_string(),
        count: 1,
        bson_types,
        probability: None,
        has_duplicates: false,
        types,
        missing: 0,
        last_document: 1,
    };
    proof {
        reveal_strlit("_id");
        assert(field.types@.drop_last().len() == 0);
        assert(count_of(field.types@.drop_last(), Kind::Null) == 0);
        assert(type_total(field.types@.drop_last()) == 0);
    }
    let mut fields = Vec::new();
    fields.push(field);
    SchemaAggregator { document_count: 4, fields, finalized: false }
}

/// Folding one document into an empty aggregate, then folding the same
/// document again, counts every field, and every kind under it, exactly
/// twice, and creates no further field.
pub proof fn lemma_duplicate_document_doubles(
    e: SchemaAggregator,
    a: SchemaAggregator,
    b: SchemaAggregator,
    doc: Vec<(String, Value)>,
)
    requires
        e.fields@.len() == 0,
        a.wf(),
        a.document_count == 1,
        walked(e.fields@, a.fields@, document_visits(doc), 1),
        b.wf(),
        walked(a.fields@, b.fields@, document_visits(doc), 2),
    ensures
        b.fields@.len() == a.fields@.len(),
        forall|i: int|
            0 <= i < a.fields@.len() ==> {
                &&& (#[trigger] b.fields@[i]).path == a.fields@[i].path
                &&& b.fields@[i].count == 2 * a.fields@[i].count
                &&& forall|k: Kind|
                    #[trigger] count_of(b.fields@[i].types@, k) == 2 * count_of(
                        a.fields@[i].types@,
                        k,
                    )
            },
{
    let vs = document_visits(doc);
    if b.fields@.len() > a.fields@.len() {
        let i = a.fields@.len() as int;
        let p = b.fields@[i].path@;
        assert(reached(vs, p));
        let j = choose|j: int| 0 <= j < a.fields@.len() && (#[trigger] a.fields@[j]).path@ == p;
        assert(b.fields@[j].path == a.fields@[j].path);
    }
    assert forall|i: int| 0 <= i < a.fields@.len() implies {
        &&& (#[trigger] b.fields@[i]).path == a.fields@[i].path
        &&& b.fields@[i].count == 2 * a.fields@[i].count
        &&& forall|k: Kind|
            #[trigger] count_of(b.fields@[i].types@, k) == 2 * count_of(a.fields@[i].types@, k)
    } by {
        assert(reached(vs, a.fields@[i].path@));
        assert(counts_one_more(a.fields@[i], b.fields@[i], first_kind(vs, a.fields@[i].path@)));
    }
}

/// Both probabilities are set and stand for the same ratio.
pub open spec fn same_ratio(x: Option<Probability>, y: Option<Probability>) -> bool {
    match (x, y) {
        (Some(p), Some(q)) => p.numerator * q.denominator == q.numerator * p.denominator,
        _ => false,
    }
}

/// After finalizing both, the aggregate of one document and that of the
/// same document folded twice give every field the same probability.
pub proof fn lemma_duplicate_document_keeps_probability(
    e: SchemaAggregator,
    a: SchemaAggregator,
    b: SchemaAggregator,
    fa: SchemaAggregator,
    fb: SchemaAggregator,
    doc: Vec<(String, Value)>,
)
    requires
        e.fields@.len() == 0,
        a.wf(),
        !a.finalized,
        a.document_count == 1,
        walked(e.fields@, a.fields@, document_visits(doc), 1),
        b.wf(),
        b.document_count == 2,
        walked(a.fields@, b.fields@, document_visits(doc), 2),
        fa.fields@.len() == a.fields@.len(),
        forall|i: int| 0 <= i < a.fields@.len() ==> finalize_step(#[trigger] a.fields@[i], fa.fields@[i], 1),
        fb.fields@.len() == b.fields@.len(),
        forall|i: int| 0 <= i < b.fields@.len() ==> finalize_step(#[trigger] b.fields@[i], fb.fields@[i], 2),
    ensures
        fa.fields@.len() == fb.fields@.len(),
        forall|i: int|
            0 <= i < fa.fields@.len() ==> same_ratio(
                (#[trigger] fa.fields@[i]).probability,
                fb.fields@[i].probability,
            ),
{
    lemma_duplicate_document_doubles(e, a, b, doc);
    assert forall|i: int| 0 <= i < fa.fields@.len() implies same_ratio(
        (#[trigger] fa.fields@[i]).probability,
        fb.fields@[i].probability,
    ) by {
        assert(finalize_step(a.fields@[i], fa.fields@[i], 1));
        assert(finalize_step(b.fields@[i], fb.fields@[i], 2));
        assert(field_ok(a.fields@[i], 1, false));
        assert(a.fields@[i].count == 1);
        assert(b.fields@[i].count == 2);
        let p = fa.fields@[i].probability->0;
        let q = fb.fields@[i].probability->0;
        assert(p.numerator == 1 && p.denominator == 1);
        assert(q.numerator == 2 && q.denominator == 2);
        assert(fa.fields@[i].probability == Some(p));
        assert(fb.fields@[i].probability == Some(q));
        assert(p.numerator * q.denominator == q.numerator * p.denominator);
    }
}

} // verus!
