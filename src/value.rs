//! Structured values as they come out of the decode step, their kinds, and
//! the exact equality that sample retention relies on.
use vstd::prelude::*;

verus! {

/// The closed set of kinds a value is classified into.
#[derive(PartialEq, Eq, Structural, Clone, Copy, Debug)]
pub enum Kind {
    Null,
    Boolean,
    Int32,
    Int64,
    Double,
    Decimal,
    String,
    Binary,
    ObjectId,
    DateTime,
    Timestamp,
    RegExp,
    Array,
    Document,
}

/// A node of a structured document tree.
///
/// Floating-point numbers are carried as their IEEE-754 bit pattern and
/// decimals as their 16-byte encoding, so that equality is exact.
#[derive(Debug)]
pub enum Value {
    Null,
    Boolean(bool),
    Int32(i32),
    Int64(i64),
    Double(u64),
    Decimal(Vec<u8>),
    String(String),
    Binary(u8, Vec<u8>),
    ObjectId(Vec<u8>),
    DateTime(i64),
    Timestamp(u32, u32),
    RegExp(String, String),
    Array(Vec<Value>),
    Document(Vec<(String, Value)>),
}

/// The mathematical content of a [`Value`].
pub enum ValueModel {
    Null,
    Boolean(bool),
    Int32(i32),
    Int64(i64),
    Double(u64),
    Decimal(Seq<u8>),
    String(Seq<char>),
    Binary(u8, Seq<u8>),
    ObjectId(Seq<u8>),
    DateTime(i64),
    Timestamp(u32, u32),
    RegExp(Seq<char>, Seq<char>),
    Array(Seq<ValueModel>),
    Document(Seq<(Seq<char>, ValueModel)>),
}

pub open spec fn kind_of(v: ValueModel) -> Kind {
    match v {
        ValueModel::Null => Kind::Null,
        ValueModel::Boolean(_) => Kind::Boolean,
        ValueModel::Int32(_) => Kind::Int32,
        ValueModel::Int64(_) => Kind::Int64,
        ValueModel::Double(_) => Kind::Double,
        ValueModel::Decimal(_) => Kind::Decimal,
        ValueModel::String(_) => Kind::String,
        ValueModel::Binary(_, _) => Kind::Binary,
        ValueModel::ObjectId(_) => Kind::ObjectId,
        ValueModel::DateTime(_) => Kind::DateTime,
        ValueModel::Timestamp(_, _) => Kind::Timestamp,
        ValueModel::RegExp(_, _) => Kind::RegExp,
        ValueModel::Array(_) => Kind::Array,
        ValueModel::Document(_) => Kind::Document,
    }
}

impl View for Value {
    type V = ValueModel;

    open spec fn view(&self) -> ValueModel
        decreases self,
    {
        match self {
            Value::Null => ValueModel::Null,
            Value::Boolean(b) => ValueModel::Boolean(*b),
            Value::Int32(i) => ValueModel::Int32(*i),
            Value::Int64(i) => ValueModel::Int64(*i),
            Value::Double(d) => ValueModel::Double(*d),
            Value::Decimal(d) => ValueModel::Decimal(d@),
            Value::String(s) => ValueModel::String(s@),
            Value::Binary(t, b) => ValueModel::Binary(*t, b@),
            Value::ObjectId(o) => ValueModel::ObjectId(o@),
            Value::DateTime(t) => ValueModel::DateTime(*t),
            Value::Timestamp(t, i) => ValueModel::Timestamp(*t, *i),
            Value::RegExp(p, o) => ValueModel::RegExp(p@, o@),
            Value::Array(items) => ValueModel::Array(
                Seq::new(
                    items.len() as nat,
                    |i: int|
                        if 0 <= i < items.len() {
                            items@[i].view()
                        } else {
                            ValueModel::Null
                        },
                ),
            ),
            Value::Document(entries) => ValueModel::Document(
                Seq::new(
                    entries.len() as nat,
                    |i: int|
                        if 0 <= i < entries.len() {
                            (entries@[i].0@, entries@[i].1.view())
                        } else {
                            (Seq::empty(), ValueModel::Null)
                        },
                ),
            ),
        }
    }
}


fn bytes_equal(a: &Vec<u8>, b: &Vec<u8>) -> (r: bool)
    ensures
        r == (a@ == b@),
{
    if a.len() != b.len() {
        return false;
    }
    let mut i: usize = 0;
    while i < a.len()
        invariant
            a.len() == b.len(),
            i <= a.len(),
            forall|j: int| 0 <= j < i ==> a@[j] == b@[j],
        decreases a.len() - i,
    {
        if a[i] != b[i] {
            return false;
        }
        i += 1;
    }
    assert(a@ =~= b@);
    true
}

pub open spec fn array_view_facts(v: Value) -> bool {
    &&& v@ is Array
    &&& v@->Array_0.len() == v->Array_0.len()
    &&& forall|i: int|
        0 <= i < v->Array_0.len() ==> #[trigger] v@->Array_0[i] == v->Array_0@[i]@
}

pub open spec fn document_view_facts(v: Value) -> bool {
    &&& v@ is Document
    &&& v@->Document_0.len() == v->Document_0.len()
    &&& forall|i: int|
        0 <= i < v->Document_0.len() ==> #[trigger] v@->Document_0[i] == (
        v->Document_0@[i].0@,
        v->Document_0@[i].1@,
    )
}

pub proof fn lemma_array_view(v: Value)
    requires
        v is Array,
    ensures
        array_view_facts(v),
{
    reveal_with_fuel(<Value as View>::view, 2);
}

pub proof fn lemma_document_view(v: Value)
    requires
        v is Document,
    ensures
        document_view_facts(v),
{
    reveal_with_fuel(<Value as View>::view, 2);
}

fn copy_bytes(a: &Vec<u8>) -> (r: Vec<u8>)
    ensures
        r@ == a@,
{
    let mut r: Vec<u8> = Vec::new();
    let mut i: usize = 0;
    while i < a.len()
        invariant
            i <= a.len(),
            r@ == a@.subrange(0, i as int),
        decreases a.len() - i,
    {
        r.push(a[i]);
        i += 1;
    }
    assert(a@.subrange(0, a.len() as int) =~= a@);
    r
}

impl Value {
    /// An independent copy of this value.
    pub fn duplicate(&self) -> (r: Value)
        ensures
            r@ == self@,
        decreases self@,
    {
        match self {
            Value::Null => Value::Null,
            Value::Boolean(b) => Value::Boolean(*b),
            Value::Int32(i) => Value::Int32(*i),
            Value::Int64(i) => Value::Int64(*i),
            Value::Double(d) => Value::Double(*d),
            Value::Decimal(d) => Value::Decimal(copy_bytes(d)),
            Value::String(s) => Value::String(s.clone()),
            Value::Binary(t, b) => Value::Binary(*t, copy_bytes(b)),
            Value::ObjectId(o) => Value::ObjectId(copy_bytes(o)),
            Value::DateTime(t) => Value::DateTime(*t),
            Value::Timestamp(t, i) => Value::Timestamp(*t, *i),
            Value::RegExp(p, o) => Value::RegExp(p.clone(), o.clone()),
            Value::Array(a) => {
                proof {
                    lemma_array_view(*self);
                }
                let mut items: Vec<Value> = Vec::new();
                let mut i: usize = 0;
                while i < a.len()
                    invariant
                        i <= a.len(),
                        items.len() == i,
                        forall|j: int| 0 <= j < i ==> items@[j]@ == a@[j]@,
                        *self == Value::Array(*a),
                        array_view_facts(*self),
                    decreases a.len() - i,
                {
                    proof {
                        let ghost m = self@;
                        assert(decreases_to!(m => m->Array_0));
                        assert(decreases_to!(m->Array_0 => m->Array_0[i as int]));
                    }
                    items.push(a[i].duplicate());
                    i += 1;
                }
                let r = Value::Array(items);
                proof {
                    lemma_array_view(r);
                    assert(r@->Array_0 =~= self@->Array_0);
                }
                r
            },
            Value::Document(a) => {
                proof {
                    lemma_document_view(*self);
                }
                let mut entries: Vec<(String, Value)> = Vec::new();
                let mut i: usize = 0;
                while i < a.len()
                    invariant
                        i <= a.len(),
                        entries.len() == i,
                        forall|j: int|
                            0 <= j < i ==> entries@[j].0@ == a@[j].0@ && entries@[j].1@ == a@[j].1@,
                        *self == Value::Document(*a),
                        document_view_facts(*self),
                    decreases a.len() - i,
                {
                    proof {
                        let ghost m = self@;
                        assert(decreases_to!(m => m->Document_0));
                        assert(decreases_to!(m->Document_0 => m->Document_0[i as int]));
                        assert(decreases_to!(m->Document_0[i as int] => m->Document_0[i as int].1));
                    }
                    let v = a[i].1.duplicate();
                    entries.push((a[i].0.clone(), v));
                    i += 1;
                }
                let r = Value::Document(entries);
                proof {
                    lemma_document_view(r);
                    assert(r@->Document_0 =~= self@->Document_0);
                }
                r
            },
        }
    }

    /// The kind this value is classified into.
    pub fn kind(&self) -> (r: Kind)
        ensures
            r == kind_of(self@),
    {
        match self {
            Value::Null => Kind::Null,
            Value::Boolean(_) => Kind::Boolean,
            Value::Int32(_) => Kind::Int32,
            Value::Int64(_) => Kind::Int64,
            Value::Double(_) => Kind::Double,
            Value::Decimal(_) => Kind::Decimal,
            Value::String(_) => Kind::String,
            Value::Binary(_, _) => Kind::Binary,
            Value::ObjectId(_) => Kind::ObjectId,
            Value::DateTime(_) => Kind::DateTime,
            Value::Timestamp(_, _) => Kind::Timestamp,
            Value::RegExp(_, _) => Kind::RegExp,
            Value::Array(_) => Kind::Array,
            Value::Document(_) => Kind::Document,
        }
    }

    /// Exact equality of the two values' contents.
    pub fn same_as(&self, other: &Value) -> (r: bool)
        ensures
            r == (self@ == other@),
        decreases self@,
    {
        match (self, other) {
            (Value::Null, Value::Null) => true,
            (Value::Boolean(a), Value::Boolean(b)) => *a == *b,
            (Value::Int32(a), Value::Int32(b)) => *a == *b,
            (Value::Int64(a), Value::Int64(b)) => *a == *b,
            (Value::Double(a), Value::Double(b)) => *a == *b,
            (Value::Decimal(a), Value::Decimal(b)) => bytes_equal(a, b),
            (Value::String(a), Value::String(b)) => *a == *b,
            (Value::Binary(s, a), Value::Binary(t, b)) => *s == *t && bytes_equal(a, b),
            (Value::ObjectId(a), Value::ObjectId(b)) => bytes_equal(a, b),
            (Value::DateTime(a), Value::DateTime(b)) => *a == *b,
            (Value::Timestamp(a, c), Value::Timestamp(b, d)) => *a == *b && *c == *d,
            (Value::RegExp(p, o), Value::RegExp(q, r)) => *p == *q && *o == *r,
            (Value::Array(a), Value::Array(b)) => {
                proof {
                    lemma_array_view(*self);
                    lemma_array_view(*other);
                }
                if a.len() != b.len() {
                    assert(self@->Array_0.len() != other@->Array_0.len());
                    return false;
                }
                let mut i: usize = 0;
                while i < a.len()
                    invariant
                        a.len() == b.len(),
                        i <= a.len(),
                        forall|j: int| 0 <= j < i ==> a@[j]@ == b@[j]@,
                        *self == Value::Array(*a),
                        *other == Value::Array(*b),
                        array_view_facts(*self),
                        array_view_facts(*other),
                    decreases a.len() - i,
                {
                    proof {
                        let ghost m = self@;
                        assert(a@[i as int]@ == m->Array_0[i as int]);
                        assert(decreases_to!(m => m->Array_0));
                        assert(decreases_to!(m->Array_0 => m->Array_0[i as int]));
                        assert(decreases_to!(m => m->Array_0[i as int]));
                    }
                    if !a[i].same_as(&b[i]) {
                        assert(self@->Array_0[i as int] != other@->Array_0[i as int]);
                        return false;
                    }
                    i += 1;
                }
                assert(self@->Array_0 =~= other@->Array_0);
                true
            },
            (Value::Document(a), Value::Document(b)) => {
                proof {
                    lemma_document_view(*self);
                    lemma_document_view(*other);
                }
                if a.len() != b.len() {
                    assert(self@->Document_0.len() != other@->Document_0.len());
                    return false;
                }
                let mut i: usize = 0;
                while i < a.len()
                    invariant
                        a.len() == b.len(),
                        i <= a.len(),
                        forall|j: int| 0 <= j < i ==> a@[j].0@ == b@[j].0@ && a@[j].1@ == b@[j].1@,
                        *self == Value::Document(*a),
                        *other == Value::Document(*b),
                        document_view_facts(*self),
                        document_view_facts(*other),
                    decreases a.len() - i,
                {
                    if a[i].0 != b[i].0 {
                        assert(self@->Document_0[i as int].0 != other@->Document_0[i as int].0);
                        return false;
                    }
                    proof {
                        let ghost m = self@;
                        assert(a@[i as int].1@ == m->Document_0[i as int].1);
                        assert(decreases_to!(m => m->Document_0));
                        assert(decreases_to!(m->Document_0 => m->Document_0[i as int]));
                        assert(decreases_to!(m->Document_0[i as int] => m->Document_0[i as int].1));
                        assert(decreases_to!(m => m->Document_0[i as int].1));
                    }
                    if !a[i].1.same_as(&b[i].1) {
                        assert(self@->Document_0[i as int] != other@->Document_0[i as int]);
                        return false;
                    }
                    i += 1;
                }
                assert(self@->Document_0 =~= other@->Document_0);
                true
            },
            _ => false,
        }
    }
}

} // verus!
