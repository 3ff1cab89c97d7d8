use vstd::prelude::*;

verus! {

/// The canonical category of a value, as reported in a schema.
#[derive(Clone, Copy, Debug, PartialEq, Eq, Structural)]
pub enum Kind {
    Number,
    Boolean,
    Text,
    Document,
    Array,
    Null,
}

impl Kind {
    /// The name under which the kind is reported.
    pub fn name(&self) -> (r: &'static str)
        ensures
            *self == Kind::Number ==> r@ == "Number"@,
            *self == Kind::Boolean ==> r@ == "Boolean"@,
            *self == Kind::Text ==> r@ == "String"@,
            *self == Kind::Document ==> r@ == "Document"@,
            *self == Kind::Array ==> r@ == "Array"@,
            *self == Kind::Null ==> r@ == "Null"@,
    {
        proof {
            reveal_strlit("Number");
            reveal_strlit("Boolean");
            reveal_strlit("String");
            reveal_strlit("Document");
            reveal_strlit("Array");
            reveal_strlit("Null");
        }
        match self {
            Kind::Number => "Number",
            Kind::Boolean => "Boolean",
            Kind::Text => "String",
            Kind::Document => "Document",
            Kind::Array => "Array",
            Kind::Null => "Null",
        }
    }
}

/// A decoded document value. Floating-point numbers are carried as their
/// IEEE-754 bit pattern, so that they can be compared and sampled exactly.
#[derive(Debug)]
pub enum Value {
    Double(u64),
    Int32(i32),
    Int64(i64),
    Boolean(bool),
    Str(String),
    Null,
    Document(Vec<(String, Value)>),
    Array(Vec<Value>),
    /// Any other kind of value (binary data, timestamps, ...): it has no
    /// place in the classification and is rejected.
    Other,
}

/// A primitive value kept in a type's sample.
#[derive(Clone, Debug)]
pub enum Sample {
    Double(u64),
    Int32(i32),
    Int64(i64),
    Boolean(bool),
    Str(String),
    Null,
}

/// The errors of schema inference.
#[derive(Clone, Debug)]
pub enum SchemaError {
    /// A value outside the classification was met under this path.
    UnsupportedType { path: String },
    /// The aggregate was used out of order: finalized twice, fed after
    /// finalizing, or a probability was read before finalizing.
    InvariantViolation,
}

/// The kind of a value, or `None` for a kind outside the classification.
pub open spec fn kind_of(v: Value) -> Option<Kind> {
    match v {
        Value::Double(_) | Value::Int32(_) | Value::Int64(_) => Some(Kind::Number),
        Value::Boolean(_) => Some(Kind::Boolean),
        Value::Str(_) => Some(Kind::Text),
        Value::Null => Some(Kind::Null),
        Value::Document(_) => Some(Kind::Document),
        Value::Array(_) => Some(Kind::Array),
        Value::Other => None,
    }
}

/// The kind of a supported value.
pub open spec fn kind_at(v: Value) -> Kind {
    match kind_of(v) {
        Some(k) => k,
        None => Kind::Null,
    }
}

/// The sample that stands for a primitive value; composite values have none.
pub open spec fn sample_of(v: Value) -> Option<Sample> {
    match v {
        Value::Double(x) => Some(Sample::Double(x)),
        Value::Int32(x) => Some(Sample::Int32(x)),
        Value::Int64(x) => Some(Sample::Int64(x)),
        Value::Boolean(x) => Some(Sample::Boolean(x)),
        Value::Str(s) => Some(Sample::Str(s)),
        Value::Null => Some(Sample::Null),
        _ => None,
    }
}

/// Two samples hold the same value (strings compared by their characters).
pub open spec fn same_sample(a: Sample, b: Sample) -> bool {
    match (a, b) {
        (Sample::Double(x), Sample::Double(y)) => x == y,
        (Sample::Int32(x), Sample::Int32(y)) => x == y,
        (Sample::Int64(x), Sample::Int64(y)) => x == y,
        (Sample::Boolean(x), Sample::Boolean(y)) => x == y,
        (Sample::Str(x), Sample::Str(y)) => x@ == y@,
        (Sample::Null, Sample::Null) => true,
        _ => false,
    }
}

/// Whether a value, and everything nested in it, is inside the classification.
pub open spec fn supported(v: Value) -> bool
    decreases v,
{
    match v {
        Value::Other => false,
        Value::Document(entries) => forall|i: int|
            0 <= i < entries.len() ==> supported(#[trigger] entries@[i].1),
        Value::Array(items) => forall|i: int|
            0 <= i < items.len() ==> supported(#[trigger] items@[i]),
        _ => true,
    }
}

/// Whether every value of a document is supported.
pub open spec fn entries_supported(entries: Seq<(String, Value)>) -> bool {
    forall|i: int| 0 <= i < entries.len() ==> supported(#[trigger] entries[i].1)
}

/// Classifies a value.
pub fn classify(v: &Value) -> (r: Option<Kind>)
    ensures
        r == kind_of(*v),
{
    match v {
        Value::Double(_) | Value::Int32(_) | Value::Int64(_) => Some(Kind::Number),
        Value::Boolean(_) => Some(Kind::Boolean),
        Value::Str(_) => Some(Kind::Text),
        Value::Null => Some(Kind::Null),
        Value::Document(_) => Some(Kind::Document),
        Value::Array(_) => Some(Kind::Array),
        Value::Other => None,
    }
}

/// The sample that stands for a primitive value.
pub fn to_sample(v: &Value) -> (r: Option<Sample>)
    ensures
        match (r, sample_of(*v)) {
            (Some(a), Some(b)) => same_sample(a, b),
            (None, None) => true,
            _ => false,
        },
{
    match v {
        Value::Double(x) => Some(Sample::Double(*x)),
        Value::Int32(x) => Some(Sample::Int32(*x)),
        Value::Int64(x) => Some(Sample::Int64(*x)),
        Value::Boolean(x) => Some(Sample::Boolean(*x)),
        Value::Str(s) => Some(Sample::Str(s.clone())),
        Value::Null => Some(Sample::Null),
        _ => None,
    }
}

/// Compares two samples.
pub fn samples_equal(a: &Sample, b: &Sample) -> (r: bool)
    ensures
        r == same_sample(*a, *b),
{
    match (a, b) {
        (Sample::Double(x), Sample::Double(y)) => *x == *y,
        (Sample::Int32(x), Sample::Int32(y)) => *x == *y,
        (Sample::Int64(x), Sample::Int64(y)) => *x == *y,
        (Sample::Boolean(x), Sample::Boolean(y)) => *x == *y,
        (Sample::Str(x), Sample::Str(y)) => x.eq(y),
        (Sample::Null, Sample::Null) => true,
        _ => false,
    }
}

} // verus!
