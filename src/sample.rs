//! Bounded, duplicate-free retention of representative values.
use vstd::prelude::*;

use crate::value::{Value, ValueModel};

verus! {

/// How many distinct values a sample keeps at most.
pub const SAMPLE_LIMIT: usize = 10;

/// The first `SAMPLE_LIMIT` distinct values routed to one (path, kind) pair.
pub struct ValueSample {
    values: Vec<Value>,
}

/// What retaining `v` does to the retained values `s`: a value already held,
/// or one that arrives once the sample is full, is dropped.
pub open spec fn sample_insert(s: Seq<ValueModel>, v: ValueModel) -> Seq<ValueModel> {
    if s.contains(v) || s.len() >= SAMPLE_LIMIT {
        s
    } else {
        s.push(v)
    }
}

/// A sample within its bound and without repetitions.
pub open spec fn sample_wf(s: Seq<ValueModel>) -> bool {
    s.len() <= SAMPLE_LIMIT && s.no_duplicates()
}

impl View for ValueSample {
    type V = Seq<ValueModel>;

    closed spec fn view(&self) -> Seq<ValueModel> {
        Seq::new(self.values.len() as nat, |i: int| self.values@[i]@)
    }
}

impl ValueSample {
    pub fn new() -> (r: ValueSample)
        ensures
            r@ == Seq::<ValueModel>::empty(),
    {
        let r = ValueSample { values: Vec::new() };
        assert(r@ =~= Seq::<ValueModel>::empty());
        r
    }

    /// Number of values retained.
    pub fn len(&self) -> (r: usize)
        ensures
            r == self@.len(),
    {
        self.values.len()
    }

    /// The retained value at position `i`, in order of arrival.
    pub fn get(&self, i: usize) -> (r: &Value)
        requires
            i < self@.len(),
        ensures
            r@ == self@[i as int],
    {
        &self.values[i]
    }

    /// Copies of the retained values, in order of arrival.
    pub fn to_vec(&self) -> (r: Vec<Value>)
        ensures
            r@.len() == self@.len(),
            forall|i: int| 0 <= i < r@.len() ==> #[trigger] r@[i]@ == self@[i],
    {
        let mut r: Vec<Value> = Vec::new();
        let mut i: usize = 0;
        while i < self.values.len()
            invariant
                i <= self.values.len(),
                r@.len() == i,
                forall|j: int| 0 <= j < i ==> #[trigger] r@[j]@ == self@[j],
            decreases self.values.len() - i,
        {
            r.push(self.values[i].duplicate());
            i += 1;
        }
        r
    }

    /// Whether a value equal to `v` is retained.
    pub fn contains(&self, v: &Value) -> (r: bool)
        ensures
            r == self@.contains(v@),
    {
        let mut i: usize = 0;
        while i < self.values.len()
            invariant
                i <= self.values.len(),
                forall|j: int| 0 <= j < i ==> self@[j] != v@,
            decreases self.values.len() - i,
        {
            if self.values[i].same_as(v) {
                assert(self@[i as int] == v@);
                return true;
            }
            i += 1;
        }
        false
    }

    /// Retains a copy of `v` unless it is already held or the sample is full.
    pub fn insert(&mut self, v: &Value)
        ensures
            final(self)@ == sample_insert(old(self)@, v@),
    {
        if self.contains(v) || self.values.len() >= SAMPLE_LIMIT {
            return;
        }
        let c = v.duplicate();
        self.values.push(c);
        assert(self@ =~= old(self)@.push(v@));
    }
}

/// Retaining a value keeps a sample within its bound and free of repetitions.
pub proof fn lemma_sample_insert_wf(s: Seq<ValueModel>, v: ValueModel)
    requires
        sample_wf(s),
    ensures
        sample_wf(sample_insert(s, v)),
        s.contains(v) ==> sample_insert(s, v) == s,
        sample_insert(s, v).contains(v) || s.len() >= SAMPLE_LIMIT,
{
    if !s.contains(v) && s.len() < SAMPLE_LIMIT {
        let t = s.push(v);
        assert(t.last() == v);
        assert forall|i: int, j: int| 0 <= i < t.len() && 0 <= j < t.len() && i != j implies t[i]
            != t[j] by {
            if i < s.len() && j < s.len() {
                assert(t[i] == s[i] && t[j] == s[j]);
            } else if i < s.len() {
                assert(t[i] == s[i]);
                assert(s.contains(s[i]));
            } else {
                assert(t[j] == s[j]);
                assert(s.contains(s[j]));
            }
        }
    }
}

} // verus!
