//! Per-path and per-(path, kind) accumulators.
use vstd::prelude::*;

use crate::sample::{sample_insert, ValueSample};
use crate::value::{kind_of, Kind, Value, ValueModel};

verus! {

/// The content of a [`KindStat`].
pub struct KindView {
    pub kind: Kind,
    pub path: Seq<char>,
    pub count: nat,
    pub samples: Seq<ValueModel>,
}

/// The content of a [`FieldStat`]; `seen` is the number of the last
/// document that counted towards `count`.
pub struct FieldView {
    pub name: Seq<char>,
    pub path: Seq<char>,
    pub count: nat,
    pub seen: nat,
    pub kinds: Seq<KindView>,
}

/// Occurrences of one kind of value under one path.
pub struct KindStat {
    kind: Kind,
    path: String,
    count: u64,
    samples: ValueSample,
}

/// Occurrences of one path, and the kinds of value seen there.
pub struct FieldStat {
    name: String,
    path: String,
    count: u64,
    seen: u64,
    kinds: Vec<KindStat>,
}

impl View for KindStat {
    type V = KindView;

    closed spec fn view(&self) -> KindView {
        KindView {
            kind: self.kind,
            path: self.path@,
            count: self.count as nat,
            samples: self.samples@,
        }
    }
}

impl View for FieldStat {
    type V = FieldView;

    closed spec fn view(&self) -> FieldView {
        FieldView {
            name: self.name@,
            path: self.path@,
            count: self.count as nat,
            seen: self.seen as nat,
            kinds: Seq::new(self.kinds.len() as nat, |i: int| self.kinds@[i]@),
        }
    }
}

/// No two entries of `kinds` have the same kind.
pub open spec fn kinds_unique(kinds: Seq<KindView>) -> bool {
    forall|i: int, j: int|
        0 <= i < kinds.len() && 0 <= j < kinds.len() && i != j ==> kinds[i].kind != kinds[j].kind
}

pub open spec fn has_kind(kinds: Seq<KindView>, k: Kind) -> bool {
    exists|j: int| 0 <= j < kinds.len() && kinds[j].kind == k
}

/// Where kind `k` stands in `kinds`.
pub open spec fn kind_index(kinds: Seq<KindView>, k: Kind) -> int {
    choose|j: int| 0 <= j < kinds.len() && kinds[j].kind == k
}

pub open spec fn empty_kind(k: Kind, path: Seq<char>) -> KindView {
    KindView { kind: k, path, count: 0, samples: Seq::empty() }
}

/// One observation of `v` under `path`: the entry for its kind, appended
/// if new, counts one more and is offered `v` as a sample.
pub open spec fn record_kind(kinds: Seq<KindView>, path: Seq<char>, v: ValueModel) -> Seq<
    KindView,
> {
    let k = kind_of(v);
    let ks = if has_kind(kinds, k) {
        kinds
    } else {
        kinds.push(empty_kind(k, path))
    };
    let j = kind_index(ks, k);
    ks.update(j, KindView { count: ks[j].count + 1, samples: sample_insert(ks[j].samples, v), ..ks[j] })
}

/// Counts the field once for document number `doc`, whatever number of
/// times the document holds its path.
pub open spec fn mark_seen(f: FieldView, doc: nat) -> FieldView {
    if f.seen == doc {
        f
    } else {
        FieldView { count: f.count + 1, seen: doc, ..f }
    }
}

pub open spec fn empty_field(name: Seq<char>, path: Seq<char>) -> FieldView {
    FieldView { name, path, count: 0, seen: 0, kinds: Seq::empty() }
}

impl KindStat {
    pub fn new(kind: Kind, path: String) -> (r: KindStat)
        ensures
            r@ == empty_kind(kind, path@),
    {
        KindStat { kind, path, count: 0, samples: ValueSample::new() }
    }

    pub fn kind(&self) -> (r: Kind)
        ensures
            r == self@.kind,
    {
        self.kind
    }

    pub fn path(&self) -> (r: &String)
        ensures
            r@ == self@.path,
    {
        &self.path
    }

    pub fn count(&self) -> (r: u64)
        ensures
            r == self@.count,
    {
        self.count
    }

    pub fn samples(&self) -> (r: &ValueSample)
        ensures
            r@ == self@.samples,
    {
        &self.samples
    }

    /// Counts one more value of this kind and offers it as a sample.
    pub fn observe(&mut self, v: &Value)
        requires
            old(self)@.count < u64::MAX,
        ensures
            final(self)@ == (KindView {
                count: old(self)@.count + 1,
                samples: sample_insert(old(self)@.samples, v@),
                ..old(self)@
            }),
    {
        self.count = self.count + 1;
        self.samples.insert(v);
    }
}

impl FieldStat {
    pub fn new(name: String, path: String) -> (r: FieldStat)
        ensures
            r@ == empty_field(name@, path@),
    {
        let r = FieldStat { name, path, count: 0, seen: 0, kinds: Vec::new() };
        assert(r@.kinds =~= Seq::<KindView>::empty());
        r
    }

    pub fn name(&self) -> (r: &String)
        ensures
            r@ == self@.name,
    {
        &self.name
    }

    pub fn path(&self) -> (r: &String)
        ensures
            r@ == self@.path,
    {
        &self.path
    }

    pub fn count(&self) -> (r: u64)
        ensures
            r == self@.count,
    {
        self.count
    }

    pub fn kinds(&self) -> (r: &Vec<KindStat>)
        ensures
            r@.len() == self@.kinds.len(),
            forall|i: int| 0 <= i < r@.len() ==> #[trigger] r@[i]@ == self@.kinds[i],
    {
        &self.kinds
    }

    /// Counts this field for document number `doc`, once per document.
    pub fn mark_seen(&mut self, doc: u64)
        requires
            old(self)@.count <= old(self)@.seen <= doc,
        ensures
            final(self)@ == mark_seen(old(self)@, doc as nat),
    {
        if self.seen != doc {
            self.count = self.count + 1;
            self.seen = doc;
        }
        assert(self@.kinds =~= old(self)@.kinds);
    }

    /// Where the entry for kind `k` stands, if there is one.
    pub fn find_kind(&self, k: Kind) -> (r: Option<usize>)
        ensures
            match r {
                Some(j) => j < self@.kinds.len() && self@.kinds[j as int].kind == k,
                None => !has_kind(self@.kinds, k),
            },
    {
        let mut i: usize = 0;
        while i < self.kinds.len()
            invariant
                i <= self.kinds.len(),
                forall|j: int| 0 <= j < i ==> self@.kinds[j].kind != k,
            decreases self.kinds.len() - i,
        {
            if self.kinds[i].kind == k {
                return Some(i);
            }
            i += 1;
        }
        None
    }

    /// Records one observation of the value `v` under this field's path.
    pub fn record(&mut self, v: &Value)
        requires
            kinds_unique(old(self)@.kinds),
            forall|j: int|
                0 <= j < old(self)@.kinds.len() ==> #[trigger] old(self)@.kinds[j].count
                    < u64::MAX,
        ensures
            final(self)@ == (FieldView {
                kinds: record_kind(old(self)@.kinds, old(self)@.path, v@),
                ..old(self)@
            }),
    {
        let k = v.kind();
        let ghost ks0 = self@.kinds;
        let j = match self.find_kind(k) {
            Some(j) => j,
            None => {
                let p = self.path.clone();
                self.kinds.push(KindStat::new(k, p));
                assert(self@.kinds =~= ks0.push(empty_kind(k, self@.path)));
                self.kinds.len() - 1
            },
        };
        let ghost ks = self@.kinds;
        assert(ks[j as int].kind == k);
        assert(j as int == kind_index(ks, k)) by {
            let c = kind_index(ks, k);
            assert(0 <= c < ks.len() && ks[c].kind == k);
            if c != j {
                if c < ks0.len() && j < ks0.len() {
                    assert(ks[c] == ks0[c] && ks[j as int] == ks0[j as int]);
                } else if c < ks0.len() {
                    assert(ks[c] == ks0[c]);
                } else {
                    assert(ks[j as int] == ks0[j as int]);
                }
            }
        }
        let mut stat = self.kinds.remove(j);
        stat.observe(v);
        self.kinds.insert(j, stat);
        assert(self@.kinds =~= record_kind(ks0, self@.path, v@));
    }
}

} // verus!
