//! The aggregation engine: documents in, per-path statistics out.
use vstd::prelude::*;

use crate::sample::{lemma_sample_insert_wf, sample_wf};
use crate::stats::{
    empty_field, empty_kind, has_kind, kind_index, kinds_unique, mark_seen, record_kind,
    FieldStat, FieldView, KindView,
};
use crate::value::{document_view_facts, kind_of, lemma_document_view, Kind, Value, ValueModel};

verus! {

/// Why a document could not be ingested, or a snapshot not taken.
#[derive(Debug)]
pub enum SchemaError {
    /// The document could not be decoded, or its root is not a mapping.
    Decode(DecodeError),
    /// No document has been ingested, so no probability is defined.
    EmptyModel,
}

#[derive(Debug)]
pub enum DecodeError {
    /// The root of the decoded value is not a mapping.
    NotADocument,
    /// The text could not be decoded; the decoder's message.
    Malformed(String),
}

/// A probability as an exact fraction.
#[derive(PartialEq, Eq, Structural, Clone, Copy, Debug)]
pub struct Ratio {
    pub numerator: u64,
    pub denominator: u64,
}

/// One kind of value seen under a path, with its share of the field's
/// occurrences.
pub struct KindSnapshot {
    pub kind: Kind,
    pub path: String,
    pub count: u64,
    pub probability: Ratio,
    pub samples: Vec<Value>,
}

/// One path, with its share of the documents and its kinds in first-seen
/// order.
pub struct FieldSnapshot {
    pub name: String,
    pub path: String,
    pub count: u64,
    pub probability: Ratio,
    pub kinds: Vec<KindSnapshot>,
}

/// A read-only copy of the model with its probabilities.
pub struct SchemaSnapshot {
    pub document_count: u64,
    pub fields: Vec<FieldSnapshot>,
}

pub open spec fn kind_snapshot_of(s: KindSnapshot, k: KindView, field_count: nat) -> bool {
    &&& s.kind == k.kind
    &&& s.path@ == k.path
    &&& s.count == k.count
    &&& s.probability.numerator == k.count
    &&& s.probability.denominator == field_count
    &&& s.samples@.len() == k.samples.len()
    &&& forall|i: int| 0 <= i < s.samples@.len() ==> #[trigger] s.samples@[i]@ == k.samples[i]
}

pub open spec fn field_snapshot_of(s: FieldSnapshot, f: FieldView, documents: nat) -> bool {
    &&& s.name@ == f.name
    &&& s.path@ == f.path
    &&& s.count == f.count
    &&& s.probability.numerator == f.count
    &&& s.probability.denominator == documents
    &&& s.kinds@.len() == f.kinds.len()
    &&& forall|j: int|
        0 <= j < s.kinds@.len() ==> kind_snapshot_of(#[trigger] s.kinds@[j], f.kinds[j], f.count)
}

/// `s` holds exactly the fields and kinds of `m`, in order, with each
/// field's count over the number of documents and each kind's count over
/// its field's count.
pub open spec fn snapshot_of(s: SchemaSnapshot, m: ModelView) -> bool {
    &&& s.document_count == m.count
    &&& s.fields@.len() == m.fields.len()
    &&& forall|i: int|
        0 <= i < s.fields@.len() ==> field_snapshot_of(#[trigger] s.fields@[i], m.fields[i], m.count)
}

/// One occurrence of a key while a document is walked: the field's full
/// path, its key, and the value unless the value is a subdocument.
pub struct Visit {
    pub path: Seq<char>,
    pub name: Seq<char>,
    pub leaf: Option<ValueModel>,
}

/// The content of a [`SchemaParser`].
pub struct ModelView {
    pub count: nat,
    pub visits: nat,
    pub fields: Seq<FieldView>,
}

/// The path of `key` under `prefix`; keys at the root have no prefix.
pub open spec fn join_path(prefix: Option<Seq<char>>, key: Seq<char>) -> Seq<char> {
    match prefix {
        None => key,
        Some(p) => p + seq!['.'] + key,
    }
}

/// The occurrences met when walking `entries` depth-first, in key order.
pub open spec fn visits(entries: Seq<(Seq<char>, ValueModel)>, prefix: Option<Seq<char>>) -> Seq<
    Visit,
>
    decreases entries,
{
    if entries.len() == 0 {
        Seq::empty()
    } else {
        let i = entries.len() - 1;
        visits(entries.subrange(0, i), prefix) + entry_visits(entries[i].0, entries[i].1, prefix)
    }
}

/// The occurrences met at one entry: the key itself, then, for a
/// subdocument, those met inside it.
pub open spec fn entry_visits(key: Seq<char>, value: ValueModel, prefix: Option<Seq<char>>) -> Seq<
    Visit,
>
    decreases value,
{
    let path = join_path(prefix, key);
    match value {
        ValueModel::Document(sub) => seq![Visit { path, name: key, leaf: None }] + visits(
            sub,
            Some(path),
        ),
        _ => seq![Visit { path, name: key, leaf: Some(value) }],
    }
}

/// The occurrences of a whole document; none for a value that is not one.
pub open spec fn document_visits(doc: ValueModel) -> Seq<Visit> {
    match doc {
        ValueModel::Document(entries) => visits(entries, None),
        _ => Seq::empty(),
    }
}

pub open spec fn has_field(fields: Seq<FieldView>, path: Seq<char>) -> bool {
    exists|i: int| 0 <= i < fields.len() && fields[i].path == path
}

/// Where the field with path `path` stands in `fields`.
pub open spec fn field_index(fields: Seq<FieldView>, path: Seq<char>) -> int {
    choose|i: int| 0 <= i < fields.len() && fields[i].path == path
}

/// Records one occurrence during the document numbered `m.count`: the field
/// of its path, appended if new, is counted for this document, and a leaf
/// value is recorded under its kind.
pub open spec fn step(m: ModelView, v: Visit) -> ModelView {
    let fs = if has_field(m.fields, v.path) {
        m.fields
    } else {
        m.fields.push(empty_field(v.name, v.path))
    };
    let i = field_index(fs, v.path);
    let f = mark_seen(fs[i], m.count);
    let g = match v.leaf {
        Some(x) => FieldView { kinds: record_kind(f.kinds, f.path, x), ..f },
        None => f,
    };
    ModelView { fields: fs.update(i, g), visits: m.visits + 1, ..m }
}

/// The occurrences `s` recorded one after another.
pub open spec fn apply(m: ModelView, s: Seq<Visit>) -> ModelView
    decreases s.len(),
{
    if s.len() == 0 {
        m
    } else {
        step(apply(m, s.drop_last()), s.last())
    }
}

/// The model after ingesting `doc`; unchanged where `doc` is not a document.
pub open spec fn ingest(m: ModelView, doc: ValueModel) -> ModelView {
    match doc {
        ValueModel::Document(entries) => apply(ModelView { count: m.count + 1, ..m }, visits(entries, None)),
        _ => m,
    }
}

/// No two fields share a path.
pub open spec fn fields_unique(fields: Seq<FieldView>) -> bool {
    forall|i: int, j: int|
        0 <= i < fields.len() && 0 <= j < fields.len() && i != j ==> fields[i].path != fields[j].path
}

pub open spec fn kinds_wf(kinds: Seq<KindView>, path: Seq<char>, visits: nat) -> bool {
    &&& kinds_unique(kinds)
    &&& forall|j: int|
        0 <= j < kinds.len() ==> {
            let k = #[trigger] kinds[j];
            &&& 1 <= k.count <= visits
            &&& k.path == path
            &&& k.kind != Kind::Document
            &&& sample_wf(k.samples)
        }
}

pub open spec fn field_wf(f: FieldView, documents: nat, visits: nat) -> bool {
    &&& 1 <= f.count <= f.seen <= documents
    &&& kinds_wf(f.kinds, f.path, visits)
}

proof fn lemma_kinds_wf_grow(kinds: Seq<KindView>, path: Seq<char>, visits: nat, more: nat)
    requires
        kinds_wf(kinds, path, visits),
        visits <= more,
    ensures
        kinds_wf(kinds, path, more),
{
}

proof fn lemma_record_kind_wf(kinds: Seq<KindView>, path: Seq<char>, visits: nat, v: ValueModel)
    requires
        kinds_wf(kinds, path, visits),
        !(v is Document),
    ensures
        kinds_wf(record_kind(kinds, path, v), path, visits + 1),
{
    let k = kind_of(v);
    let ks = if has_kind(kinds, k) {
        kinds
    } else {
        kinds.push(empty_kind(k, path))
    };
    assert(has_kind(ks, k)) by {
        if !has_kind(kinds, k) {
            assert(ks[kinds.len() as int].kind == k);
        }
    }
    assert(kinds_unique(ks)) by {
        if !has_kind(kinds, k) {
            assert forall|i: int, j: int|
                0 <= i < ks.len() && 0 <= j < ks.len() && i != j implies ks[i].kind != ks[j].kind by {
                if i < kinds.len() && j < kinds.len() {
                    assert(ks[i] == kinds[i] && ks[j] == kinds[j]);
                } else if i < kinds.len() {
                    assert(ks[i] == kinds[i]);
                } else {
                    assert(ks[j] == kinds[j]);
                }
            }
        }
    }
    let j = kind_index(ks, k);
    assert(0 <= j < ks.len() && ks[j].kind == k);
    assert(sample_wf(ks[j].samples)) by {
        if j < kinds.len() {
            assert(ks[j] == kinds[j]);
        }
    }
    lemma_sample_insert_wf(ks[j].samples, v);
    let r = record_kind(kinds, path, v);
    assert forall|i: int| 0 <= i < r.len() implies {
        let q = #[trigger] r[i];
        &&& 1 <= q.count <= visits + 1
        &&& q.path == path
        &&& q.kind != Kind::Document
        &&& sample_wf(q.samples)
    } by {
        if i < kinds.len() {
            assert(ks[i] == kinds[i]);
        }
    }
}


proof fn lemma_apply_one(m: ModelView, v: Visit)
    ensures
        apply(m, seq![v]) == step(m, v),
{
    assert(seq![v].drop_last() =~= Seq::<Visit>::empty());
    assert(apply(m, Seq::<Visit>::empty()) == m);
    assert(seq![v].last() == v);
}

/// Recording `a` and then `b` is recording `a + b`.
pub proof fn lemma_apply_concat(m: ModelView, a: Seq<Visit>, b: Seq<Visit>)
    ensures
        apply(m, a + b) == apply(apply(m, a), b),
    decreases b.len(),
{
    if b.len() == 0 {
        assert(a + b =~= a);
    } else {
        assert((a + b).drop_last() =~= a + b.drop_last());
        lemma_apply_concat(m, a, b.drop_last());
    }
}

/// Recording occurrences counts them and leaves the document count alone.
pub proof fn lemma_apply_counts(m: ModelView, s: Seq<Visit>)
    ensures
        apply(m, s).visits == m.visits + s.len(),
        apply(m, s).count == m.count,
    decreases s.len(),
{
    if s.len() > 0 {
        lemma_apply_counts(m, s.drop_last());
    }
}

proof fn lemma_visits_take(
    entries: Seq<(Seq<char>, ValueModel)>,
    i: int,
    prefix: Option<Seq<char>>,
)
    requires
        0 <= i < entries.len(),
    ensures
        visits(entries.subrange(0, i + 1), prefix) == visits(entries.subrange(0, i), prefix)
            + entry_visits(entries[i].0, entries[i].1, prefix),
{
    let t = entries.subrange(0, i + 1);
    assert(t.subrange(0, i) =~= entries.subrange(0, i));
    assert(t[i] == entries[i]);
}

proof fn lemma_visits_len_mono(
    entries: Seq<(Seq<char>, ValueModel)>,
    i: int,
    prefix: Option<Seq<char>>,
)
    requires
        0 <= i <= entries.len(),
    ensures
        visits(entries.subrange(0, i), prefix).len() <= visits(entries, prefix).len(),
    decreases entries.len() - i,
{
    if i < entries.len() {
        lemma_visits_take(entries, i, prefix);
        lemma_visits_len_mono(entries, i + 1, prefix);
    } else {
        assert(entries.subrange(0, i) =~= entries);
    }
}

/// The invariant of a model: paths identify fields, and every count lies
/// within what has been ingested.
pub open spec fn model_wf(m: ModelView) -> bool {
    &&& fields_unique(m.fields)
    &&& forall|i: int| 0 <= i < m.fields.len() ==> field_wf(#[trigger] m.fields[i], m.count, m.visits)
}

/// The accumulated schema of the documents ingested so far.
pub struct SchemaParser {
    count: u64,
    visits: u64,
    fields: Vec<FieldStat>,
}

impl View for SchemaParser {
    type V = ModelView;

    closed spec fn view(&self) -> ModelView {
        ModelView {
            count: self.count as nat,
            visits: self.visits as nat,
            fields: Seq::new(self.fields.len() as nat, |i: int| self.fields@[i]@),
        }
    }
}

pub open spec fn opt_view(p: Option<&String>) -> Option<Seq<char>> {
    match p {
        Some(s) => Some(s@),
        None => None,
    }
}

pub open spec fn leaf_view(v: Option<&Value>) -> Option<ValueModel> {
    match v {
        Some(x) => Some(x@),
        None => None,
    }
}

fn join(prefix: Option<&String>, key: &String) -> (r: String)
    ensures
        r@ == join_path(opt_view(prefix), key@),
{
    match prefix {
        None => key.clone(),
        Some(p) => {
            proof {
                reveal_strlit(".");
            }
            p.clone().concat(".").concat(key.as_str())
        },
    }
}

impl SchemaParser {
    pub open spec fn wf(&self) -> bool {
        model_wf(self@)
    }

    pub fn new() -> (r: SchemaParser)
        ensures
            r@ == (ModelView { count: 0, visits: 0, fields: Seq::empty() }),
            r.wf(),
    {
        let r = SchemaParser { count: 0, visits: 0, fields: Vec::new() };
        assert(r@.fields =~= Seq::<FieldView>::empty());
        r
    }

    /// Number of documents ingested.
    pub fn document_count(&self) -> (r: u64)
        ensures
            r == self@.count,
    {
        self.count
    }

    /// Number of key occurrences ingested, over all documents.
    pub fn visit_count(&self) -> (r: u64)
        ensures
            r == self@.visits,
    {
        self.visits
    }

    pub fn fields(&self) -> (r: &Vec<FieldStat>)
        ensures
            r@.len() == self@.fields.len(),
            forall|i: int| 0 <= i < r@.len() ==> #[trigger] r@[i]@ == self@.fields[i],
    {
        &self.fields
    }

    fn find_field(&self, path: &String) -> (r: Option<usize>)
        ensures
            match r {
                Some(i) => i < self@.fields.len() && self@.fields[i as int].path == path@,
                None => !has_field(self@.fields, path@),
            },
    {
        let mut i: usize = 0;
        while i < self.fields.len()
            invariant
                i <= self.fields.len(),
                forall|j: int| 0 <= j < i ==> self@.fields[j].path != path@,
            decreases self.fields.len() - i,
        {
            if *self.fields[i].path() == *path {
                return Some(i);
            }
            i += 1;
        }
        None
    }

    /// Records one occurrence of `path` in the document being ingested.
    fn record_visit(&mut self, path: String, name: &String, leaf: Option<&Value>)
        requires
            old(self).wf(),
            old(self)@.count >= 1,
            old(self)@.visits < u64::MAX,
            match leaf {
                Some(x) => !(x@ is Document),
                None => true,
            },
        ensures
            final(self)@ == step(
                old(self)@,
                Visit { path: path@, name: name@, leaf: leaf_view(leaf) },
            ),
            final(self).wf(),
    {
        let ghost m = self@;
        let ghost v = Visit { path: path@, name: name@, leaf: leaf_view(leaf) };
        let i = match self.find_field(&path) {
            Some(i) => i,
            None => {
                self.fields.push(FieldStat::new(name.clone(), path));
                assert(self@.fields =~= m.fields.push(empty_field(v.name, v.path)));
                self.fields.len() - 1
            },
        };
        let ghost fs = self@.fields;
        assert(fs[i as int].path == v.path);
        assert(fields_unique(fs)) by {
            if !has_field(m.fields, v.path) {
                assert forall|a: int, b: int|
                    0 <= a < fs.len() && 0 <= b < fs.len() && a != b implies fs[a].path
                    != fs[b].path by {
                    if a < m.fields.len() && b < m.fields.len() {
                        assert(fs[a] == m.fields[a] && fs[b] == m.fields[b]);
                    } else if a < m.fields.len() {
                        assert(fs[a] == m.fields[a]);
                    } else {
                        assert(fs[b] == m.fields[b]);
                    }
                }
            }
        }
        assert(i as int == field_index(fs, v.path)) by {
            let c = field_index(fs, v.path);
            assert(0 <= c < fs.len() && fs[c].path == v.path);
        }
        assert(has_field(m.fields, v.path) ==> fs == m.fields);
        assert(fs[i as int].count <= fs[i as int].seen <= m.count && kinds_wf(
            fs[i as int].kinds,
            fs[i as int].path,
            m.visits,
        )) by {
            if i < m.fields.len() {
                assert(fs[i as int] == m.fields[i as int]);
            }
        }
        let mut f = self.fields.remove(i);
        f.mark_seen(self.count);
        match leaf {
            Some(x) => {
                f.record(x);
            },
            None => {},
        }
        self.fields.insert(i, f);
        self.visits = self.visits + 1;
        proof {
            let g = self@.fields[i as int];
            let f0 = mark_seen(fs[i as int], m.count);
            assert(self@.fields =~= step(m, v).fields);
            lemma_kinds_wf_grow(f0.kinds, f0.path, m.visits, m.visits + 1);
            match leaf {
                Some(x) => {
                    lemma_record_kind_wf(f0.kinds, f0.path, m.visits, x@);
                },
                None => {},
            }
            assert(field_wf(g, m.count, m.visits + 1));
            assert forall|a: int| 0 <= a < self@.fields.len() implies field_wf(
                #[trigger] self@.fields[a],
                self@.count,
                self@.visits,
            ) by {
                if a != i {
                    if a < m.fields.len() {
                        assert(fs[a] == m.fields[a]);
                    }
                    assert(self@.fields[a] == fs[a]);
                    lemma_kinds_wf_grow(fs[a].kinds, fs[a].path, m.visits, m.visits + 1);
                }
            }
            assert(fields_unique(self@.fields)) by {
                assert forall|a: int, b: int|
                    0 <= a < self@.fields.len() && 0 <= b < self@.fields.len() && a != b implies self@.fields[a].path
                    != self@.fields[b].path by {
                    assert(self@.fields[a].path == fs[a].path);
                    assert(self@.fields[b].path == fs[b].path);
                }
            }
        }
    }

    /// Ingests one document: counts it, then merges its entries.
    pub fn write(&mut self, doc: &Value) -> (r: Result<(), SchemaError>)
        requires
            old(self).wf(),
            old(self)@.count < u64::MAX,
            old(self)@.visits + document_visits(doc@).len() <= u64::MAX,
        ensures
            final(self).wf(),
            final(self)@ == ingest(old(self)@, doc@),
            r is Ok <==> doc@ is Document,
            !(doc@ is Document) ==> r matches Err(SchemaError::Decode(DecodeError::NotADocument)),
    {
        match doc {
            Value::Document(_) => {
                let ghost m = self@;
                self.count = self.count + 1;
                assert(self@.fields == m.fields);
                assert forall|i: int| 0 <= i < self@.fields.len() implies field_wf(
                    #[trigger] self@.fields[i],
                    self@.count,
                    self@.visits,
                ) by {
                    assert(field_wf(m.fields[i], m.count, m.visits));
                }
                assert(self@ == (ModelView { count: m.count + 1, ..m }));
                self.merge_document(doc, None);
                Ok(())
            },
            _ => Err(SchemaError::Decode(DecodeError::NotADocument)),
        }
    }

    /// The model with its probabilities; there are none before the first
    /// document.
    pub fn snapshot(&self) -> (r: Result<SchemaSnapshot, SchemaError>)
        requires
            self.wf(),
        ensures
            r is Err <==> self@.count == 0,
            r matches Err(e) ==> e is EmptyModel,
            r matches Ok(s) ==> snapshot_of(s, self@),
    {
        if self.count == 0 {
            return Err(SchemaError::EmptyModel);
        }
        let mut fields: Vec<FieldSnapshot> = Vec::new();
        let mut i: usize = 0;
        while i < self.fields.len()
            invariant
                i <= self.fields.len(),
                fields@.len() == i,
                forall|a: int|
                    0 <= a < i ==> field_snapshot_of(#[trigger] fields@[a], self@.fields[a], self@.count),
            decreases self.fields.len() - i,
        {
            let f = &self.fields[i];
            let stats = f.kinds();
            let mut kinds: Vec<KindSnapshot> = Vec::new();
            let mut j: usize = 0;
            while j < stats.len()
                invariant
                    j <= stats.len(),
                    stats@.len() == f@.kinds.len(),
                    forall|b: int| 0 <= b < stats@.len() ==> #[trigger] stats@[b]@ == f@.kinds[b],
                    kinds@.len() == j,
                    forall|b: int|
                        0 <= b < j ==> kind_snapshot_of(#[trigger] kinds@[b], f@.kinds[b], f@.count),
                decreases stats.len() - j,
            {
                let k = &stats[j];
                kinds.push(
                    KindSnapshot {
                        kind: k.kind(),
                        path: k.path().clone(),
                        count: k.count(),
                        probability: Ratio { numerator: k.count(), denominator: f.count() },
                        samples: k.samples().to_vec(),
                    },
                );
                j += 1;
            }
            fields.push(
                FieldSnapshot {
                    name: f.name().clone(),
                    path: f.path().clone(),
                    count: f.count(),
                    probability: Ratio { numerator: f.count(), denominator: self.count },
                    kinds,
                },
            );
            i += 1;
        }
        Ok(SchemaSnapshot { document_count: self.count, fields })
    }

    /// Walks the entries of the mapping `doc`, whose path is `prefix`.
    fn merge_document(&mut self, doc: &Value, prefix: Option<&String>)
        requires
            old(self).wf(),
            old(self)@.count >= 1,
            doc@ is Document,
            old(self)@.visits + visits(doc@->Document_0, opt_view(prefix)).len() <= u64::MAX,
        ensures
            final(self)@ == apply(old(self)@, visits(doc@->Document_0, opt_view(prefix))),
            final(self).wf(),
        decreases doc@,
    {
        let ghost m0 = self@;
        let ghost pv = opt_view(prefix);
        match doc {
            Value::Document(entries) => {
                proof {
                    lemma_document_view(*doc);
                }
                let ghost es = doc@->Document_0;
                let mut i: usize = 0;
                proof {
                    assert(es.subrange(0, 0) =~= Seq::<(Seq<char>, ValueModel)>::empty());
                }
                while i < entries.len()
                    invariant
                        i <= entries.len(),
                        *doc == Value::Document(*entries),
                        document_view_facts(*doc),
                        es == doc@->Document_0,
                        pv == opt_view(prefix),
                        self.wf(),
                        m0.count >= 1,
                        self@ == apply(m0, visits(es.subrange(0, i as int), pv)),
                        m0.visits + visits(es, pv).len() <= u64::MAX,
                    decreases entries.len() - i,
                {
                    let ghost before = visits(es.subrange(0, i as int), pv);
                    let ghost here = entry_visits(es[i as int].0, es[i as int].1, pv);
                    proof {
                        lemma_visits_take(es, i as int, pv);
                        lemma_visits_len_mono(es, i as int + 1, pv);
                        lemma_apply_concat(m0, before, here);
                        lemma_apply_counts(m0, before);
                    }
                    let key = &entries[i].0;
                    let value = &entries[i].1;
                    let path = join(prefix, key);
                    let ghost visit = Visit { path: path@, name: key@, leaf: None };
                    match value {
                        Value::Document(_) => {
                            self.record_visit(path.clone(), key, None);
                            proof {
                                let ghost sub = value@->Document_0;
                                assert(here == seq![visit] + visits(sub, Some(path@)));
                                lemma_apply_one(apply(m0, before), visit);
                                lemma_apply_concat(apply(m0, before), seq![visit], visits(sub, Some(path@)));
                                lemma_apply_counts(m0, before + seq![visit]);
                                lemma_apply_concat(m0, before, seq![visit]);
                                let ghost m = doc@;
                                assert(decreases_to!(m => m->Document_0));
                                assert(decreases_to!(m->Document_0 => m->Document_0[i as int]));
                                assert(decreases_to!(m->Document_0[i as int] => m->Document_0[i as int].1));
                            }
                            self.merge_document(value, Some(&path));
                        },
                        _ => {
                            proof {
                                assert(here == seq![Visit { path: path@, name: key@, leaf: Some(value@) }]);
                                lemma_apply_one(apply(m0, before), here[0]);
                            }
                            self.record_visit(path, key, Some(value));
                        },
                    }
                    i += 1;
                }
                proof {
                    assert(es.subrange(0, entries.len() as int) =~= es);
                }
            },
            _ => {},
        }
    }
}

} // verus!
