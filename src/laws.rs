//! Properties of the model that hold across calls.
use vstd::prelude::*;

use crate::parser::{
    apply, document_visits, field_index, field_wf, fields_unique, has_field, ingest, lemma_apply_counts, model_wf,
    snapshot_of, step, ModelView, SchemaSnapshot, Visit,
};
use crate::sample::SAMPLE_LIMIT;
use crate::stats::{empty_field, empty_kind, has_kind, kind_index, kinds_unique, FieldView, KindView};
use crate::value::{kind_of, Kind, ValueModel};

verus! {

/// The model that nothing has been ingested into.
pub open spec fn empty_model() -> ModelView {
    ModelView { count: 0, visits: 0, fields: Seq::empty() }
}

/// The documents `docs` ingested one after another.
pub open spec fn ingest_all(m: ModelView, docs: Seq<ValueModel>) -> ModelView
    decreases docs.len(),
{
    if docs.len() == 0 {
        m
    } else {
        ingest(ingest_all(m, docs.drop_last()), docs.last())
    }
}

/// After `n` documents have been ingested, the document count is `n`.
pub proof fn law_document_count(docs: Seq<ValueModel>)
    requires
        forall|i: int| 0 <= i < docs.len() ==> #[trigger] docs[i] is Document,
    ensures
        ingest_all(empty_model(), docs).count == docs.len(),
    decreases docs.len(),
{
    if docs.len() > 0 {
        let rest = docs.drop_last();
        assert forall|i: int| 0 <= i < rest.len() implies #[trigger] rest[i] is Document by {
            assert(rest[i] == docs[i]);
        }
        law_document_count(rest);
        let m = ingest_all(empty_model(), rest);
        let d = docs.last();
        assert(docs[docs.len() - 1] is Document);
        lemma_apply_counts(ModelView { count: m.count + 1, ..m }, document_visits(d));
    }
}

/// Every field was counted at least once and at most once per document,
/// and its probability in a snapshot is its count over the document count.
pub proof fn law_field_probability(m: ModelView, s: SchemaSnapshot)
    requires
        model_wf(m),
        snapshot_of(s, m),
    ensures
        forall|i: int|
            0 <= i < m.fields.len() ==> 1 <= #[trigger] m.fields[i].count <= m.count,
        forall|i: int|
            0 <= i < s.fields@.len() ==> {
                &&& (#[trigger] s.fields@[i]).probability.numerator == s.fields@[i].count
                &&& s.fields@[i].probability.denominator == s.document_count
                &&& s.fields@[i].count <= s.document_count
            },
{
    assert forall|i: int| 0 <= i < s.fields@.len() implies (#[trigger] s.fields@[i]).count
        <= s.document_count by {
        assert(m.fields[i].count <= m.count);
    }
}

/// In a snapshot, each kind's probability is its count over its field's
/// count, and both are positive.
pub proof fn law_kind_probability(m: ModelView, s: SchemaSnapshot)
    requires
        model_wf(m),
        snapshot_of(s, m),
    ensures
        forall|i: int, j: int|
            0 <= i < s.fields@.len() && 0 <= j < s.fields@[i].kinds@.len() ==> {
                let k = #[trigger] s.fields@[i].kinds@[j];
                &&& k.probability.numerator == k.count
                &&& k.probability.denominator == s.fields@[i].count
                &&& 0 < k.probability.numerator
                &&& 0 < k.probability.denominator
            },
{
    assert forall|i: int, j: int|
        0 <= i < s.fields@.len() && 0 <= j < s.fields@[i].kinds@.len() implies {
        let k = #[trigger] s.fields@[i].kinds@[j];
        &&& k.probability.numerator == k.count
        &&& k.probability.denominator == s.fields@[i].count
        &&& 0 < k.probability.numerator
        &&& 0 < k.probability.denominator
    } by {
        let f = m.fields[i];
        assert(f.kinds[j].count >= 1);
    }
}

/// Every retained sample is within its bound and holds no value twice.
pub proof fn law_samples_bounded(m: ModelView)
    requires
        model_wf(m),
    ensures
        forall|i: int, j: int|
            0 <= i < m.fields.len() && 0 <= j < m.fields[i].kinds.len() ==> {
                let v = (#[trigger] m.fields[i].kinds[j]).samples;
                &&& v.len() <= SAMPLE_LIMIT
                &&& v.no_duplicates()
            },
{
    assert forall|i: int, j: int|
        0 <= i < m.fields.len() && 0 <= j < m.fields[i].kinds.len() implies {
        let v = (#[trigger] m.fields[i].kinds[j]).samples;
        &&& v.len() <= SAMPLE_LIMIT
        &&& v.no_duplicates()
    } by {
        assert(m.fields[i].kinds[j] == m.fields[i].kinds[j]);
    }
}

proof fn lemma_step_keeps_paths(m: ModelView, v: Visit)
    ensures
        has_field(step(m, v).fields, v.path),
        forall|p: Seq<char>| has_field(m.fields, p) ==> has_field(step(m, v).fields, p),
{
    let fs = if has_field(m.fields, v.path) {
        m.fields
    } else {
        m.fields.push(empty_field(v.name, v.path))
    };
    assert(has_field(fs, v.path)) by {
        if !has_field(m.fields, v.path) {
            assert(fs[m.fields.len() as int].path == v.path);
        }
    }
    let r = step(m, v).fields;
    assert(r.len() == fs.len());
    assert forall|i: int| 0 <= i < fs.len() implies #[trigger] r[i].path == fs[i].path by {}
    assert forall|p: Seq<char>| has_field(m.fields, p) implies has_field(r, p) by {
        let i = choose|i: int| 0 <= i < m.fields.len() && m.fields[i].path == p;
        assert(fs[i] == m.fields[i]);
        assert(r[i].path == p);
    }
    let c = choose|i: int| 0 <= i < fs.len() && fs[i].path == v.path;
    assert(r[c].path == v.path);
}

proof fn lemma_apply_keeps_paths(m: ModelView, s: Seq<Visit>)
    ensures
        forall|i: int| 0 <= i < s.len() ==> has_field(apply(m, s).fields, #[trigger] s[i].path),
    decreases s.len(),
{
    if s.len() > 0 {
        let t = s.drop_last();
        lemma_apply_keeps_paths(m, t);
        lemma_step_keeps_paths(apply(m, t), s.last());
        assert forall|i: int| 0 <= i < s.len() implies has_field(
            apply(m, s).fields,
            #[trigger] s[i].path,
        ) by {
            if i < t.len() {
                assert(s[i] == t[i]);
            }
        }
    }
}


/// Whether some occurrence in `s` has path `p`.
pub open spec fn path_in(s: Seq<Visit>, p: Seq<char>) -> bool {
    exists|i: int| 0 <= i < s.len() && s[i].path == p
}

/// How many occurrences in `s` carry a value of kind `k` under path `p`.
pub open spec fn kind_occ(s: Seq<Visit>, p: Seq<char>, k: Kind) -> nat
    decreases s.len(),
{
    if s.len() == 0 {
        0
    } else {
        kind_occ(s.drop_last(), p, k) + if hits(s.last(), p, k) {
            1nat
        } else {
            0nat
        }
    }
}

pub open spec fn hits(v: Visit, p: Seq<char>, k: Kind) -> bool {
    v.path == p && v.leaf is Some && kind_of(v.leaf->Some_0) == k
}

spec fn base_count(b: Option<FieldView>) -> nat {
    match b {
        Some(f) => f.count,
        None => 0,
    }
}

spec fn base_seen(b: Option<FieldView>) -> nat {
    match b {
        Some(f) => f.seen,
        None => 0,
    }
}

spec fn base_kinds(b: Option<FieldView>) -> Seq<KindView> {
    match b {
        Some(f) => f.kinds,
        None => Seq::empty(),
    }
}

/// `f` is the field `b` (or a new one) after the occurrences `t` of
/// document number `n`.
spec fn field_grown(b: Option<FieldView>, f: FieldView, t: Seq<Visit>, n: nat) -> bool {
    let bk = base_kinds(b);
    &&& f.count == base_count(b) + if path_in(t, f.path) {
        1nat
    } else {
        0nat
    }
    &&& f.seen == if path_in(t, f.path) {
        n
    } else {
        base_seen(b)
    }
    &&& bk.len() <= f.kinds.len()
    &&& forall|j: int| 0 <= j < bk.len() ==> #[trigger] f.kinds[j].kind == bk[j].kind
    &&& forall|j: int|
        bk.len() <= j < f.kinds.len() ==> kind_occ(t, f.path, #[trigger] f.kinds[j].kind) > 0
    &&& forall|k: Kind| kind_occ(t, f.path, k) > 0 ==> has_kind(f.kinds, k)
    &&& forall|j: int|
        0 <= j < f.kinds.len() ==> #[trigger] f.kinds[j].count == (if j < bk.len() {
            bk[j].count
        } else {
            0
        }) + kind_occ(t, f.path, f.kinds[j].kind)
}

spec fn base(m: ModelView, i: int) -> Option<FieldView> {
    if i < m.fields.len() {
        Some(m.fields[i])
    } else {
        None
    }
}

spec fn structure_ok(m: ModelView) -> bool {
    &&& fields_unique(m.fields)
    &&& forall|i: int| 0 <= i < m.fields.len() ==> kinds_unique(#[trigger] m.fields[i].kinds)
}

/// A model ready for a new document: every field was last counted for an
/// earlier one.
spec fn fresh(m: ModelView) -> bool {
    &&& structure_ok(m)
    &&& m.count >= 1
    &&& forall|i: int| 0 <= i < m.fields.len() ==> #[trigger] m.fields[i].seen < m.count
}

/// `r` is `m` after the occurrences `t`.
spec fn grown(m: ModelView, r: ModelView, t: Seq<Visit>) -> bool {
    &&& r.count == m.count
    &&& structure_ok(r)
    &&& m.fields.len() <= r.fields.len()
    &&& forall|i: int| 0 <= i < m.fields.len() ==> #[trigger] r.fields[i].path == m.fields[i].path
    &&& forall|i: int| m.fields.len() <= i < r.fields.len() ==> path_in(t, #[trigger] r.fields[i].path)
    &&& forall|p: Seq<char>| path_in(t, p) ==> has_field(r.fields, p)
    &&& forall|i: int| 0 <= i < r.fields.len() ==> field_grown(base(m, i), #[trigger] r.fields[i], t, m.count)
}

proof fn lemma_grown_start(m: ModelView)
    requires
        fresh(m),
    ensures
        grown(m, m, Seq::empty()),
{
    assert forall|i: int| 0 <= i < m.fields.len() implies field_grown(base(m, i), #[trigger] m.fields[i], Seq::empty(), m.count) by {
        let f = m.fields[i];
        assert(!path_in(Seq::<Visit>::empty(), f.path));
        assert forall|k: Kind| kind_occ(Seq::<Visit>::empty(), f.path, k) == 0 by {}
    }
}

proof fn lemma_kind_occ_push(t: Seq<Visit>, v: Visit, p: Seq<char>, k: Kind)
    ensures
        kind_occ(t.push(v), p, k) == kind_occ(t, p, k) + if hits(v, p, k) {
            1nat
        } else {
            0nat
        },
{
    assert(t.push(v).drop_last() =~= t);
}

proof fn lemma_path_in_push(t: Seq<Visit>, v: Visit, p: Seq<char>)
    ensures
        path_in(t.push(v), p) == (path_in(t, p) || v.path == p),
{
    let u = t.push(v);
    if path_in(t, p) {
        let i = choose|i: int| 0 <= i < t.len() && t[i].path == p;
        assert(u[i] == t[i]);
    }
    if v.path == p {
        assert(u[t.len() as int] == v);
    }
    if path_in(u, p) {
        let i = choose|i: int| 0 <= i < u.len() && u[i].path == p;
        if i < t.len() {
            assert(u[i] == t[i]);
        }
    }
}

proof fn lemma_step_grown(m: ModelView, r: ModelView, t: Seq<Visit>, v: Visit)
    requires
        fresh(m),
        grown(m, r, t),
    ensures
        grown(m, step(r, v), t.push(v)),
{
    let u = t.push(v);
    let n = m.count;
    let fs = if has_field(r.fields, v.path) {
        r.fields
    } else {
        r.fields.push(empty_field(v.name, v.path))
    };
    assert(has_field(fs, v.path)) by {
        if !has_field(r.fields, v.path) {
            assert(fs[r.fields.len() as int].path == v.path);
        }
    }
    assert(fields_unique(fs)) by {
        if !has_field(r.fields, v.path) {
            assert forall|a: int, b: int|
                0 <= a < fs.len() && 0 <= b < fs.len() && a != b implies fs[a].path != fs[b].path by {
                if a < r.fields.len() && b < r.fields.len() {
                    assert(fs[a] == r.fields[a] && fs[b] == r.fields[b]);
                } else if a < r.fields.len() {
                    assert(fs[a] == r.fields[a]);
                } else {
                    assert(fs[b] == r.fields[b]);
                }
            }
        }
    }
    let x = field_index(fs, v.path);
    assert(0 <= x < fs.len() && fs[x].path == v.path);
    let r2 = step(r, v);
    assert forall|p: Seq<char>| #![auto] path_in(u, p) == (path_in(t, p) || v.path == p) by {
        lemma_path_in_push(t, v, p);
    }
    assert forall|p: Seq<char>, k: Kind| #![auto] kind_occ(u, p, k) == kind_occ(t, p, k) + if hits(v, p, k) {
        1nat
    } else {
        0nat
    } by {
        lemma_kind_occ_push(t, v, p, k);
    }
    // the field that the occurrence lands on, before this step
    let f0 = fs[x];
    assert(field_grown(base(m, x), f0, t, n) && kinds_unique(f0.kinds) && (x < m.fields.len()
        ==> f0.seen <= n)) by {
        if x < r.fields.len() {
            assert(f0 == r.fields[x]);
            if x < m.fields.len() {
                assert(m.fields[x].seen < n);
            }
        } else {
            assert(x == r.fields.len());
            assert(!path_in(t, v.path));
            assert forall|k: Kind| kind_occ(t, v.path, k) == 0 by {
                if kind_occ(t, v.path, k) > 0 {
                    lemma_kind_occ_positive(t, v.path, k);
                }
            }
        }
    }
    // the field was already counted for this document exactly when its
    // path was met before
    assert((f0.seen == n) == path_in(t, v.path)) by {
        if !path_in(t, v.path) {
            if x < m.fields.len() {
                assert(m.fields[x].seen < n);
            }
        }
    }
    let g = r2.fields[x];
    assert(g == field_step(f0, v, n));
    lemma_field_step(base(m, x), f0, t, v, n);
    assert forall|i: int| 0 <= i < r2.fields.len() implies field_grown(
        base(m, i),
        #[trigger] r2.fields[i],
        u,
        n,
    ) && kinds_unique(r2.fields[i].kinds) by {
        if i != x {
            assert(r2.fields[i] == fs[i]);
            assert(fs[i] == r.fields[i]);
            let f = r.fields[i];
            assert(f.path != v.path);
            assert(path_in(u, f.path) == path_in(t, f.path));
            assert forall|k: Kind| kind_occ(u, f.path, k) == kind_occ(t, f.path, k) by {
                assert(!hits(v, f.path, k));
            }
        }
    }
    assert forall|a: int, b: int|
        0 <= a < r2.fields.len() && 0 <= b < r2.fields.len() && a != b implies r2.fields[a].path
        != r2.fields[b].path by {
        assert(r2.fields[a].path == fs[a].path);
        assert(r2.fields[b].path == fs[b].path);
    }
    assert forall|i: int| 0 <= i < m.fields.len() implies #[trigger] r2.fields[i].path
        == m.fields[i].path by {
        assert(r2.fields[i].path == fs[i].path);
        assert(fs[i] == r.fields[i]);
    }
    assert forall|i: int| m.fields.len() <= i < r2.fields.len() implies path_in(
        u,
        #[trigger] r2.fields[i].path,
    ) by {
        assert(r2.fields[i].path == fs[i].path);
        if i < r.fields.len() {
            assert(fs[i] == r.fields[i]);
        }
    }
    assert forall|p: Seq<char>| path_in(u, p) implies has_field(r2.fields, p) by {
        if p == v.path {
            assert(r2.fields[x].path == p);
        } else {
            let i = choose|i: int| 0 <= i < r.fields.len() && r.fields[i].path == p;
            assert(fs[i] == r.fields[i]);
            assert(r2.fields[i].path == p);
        }
    }
}

spec fn field_step(f: FieldView, v: Visit, n: nat) -> FieldView {
    let h = crate::stats::mark_seen(f, n);
    match v.leaf {
        Some(y) => FieldView { kinds: crate::stats::record_kind(h.kinds, h.path, y), ..h },
        None => h,
    }
}

proof fn lemma_field_step(b: Option<FieldView>, f: FieldView, t: Seq<Visit>, v: Visit, n: nat)
    requires
        field_grown(b, f, t, n),
        kinds_unique(f.kinds),
        f.path == v.path,
        (f.seen == n) == path_in(t, v.path),
        forall|p: Seq<char>| #![auto] path_in(t.push(v), p) == (path_in(t, p) || v.path == p),
        forall|p: Seq<char>, k: Kind| #![auto] kind_occ(t.push(v), p, k) == kind_occ(t, p, k) + if hits(v, p, k) {
            1nat
        } else {
            0nat
        },
    ensures
        field_grown(b, field_step(f, v, n), t.push(v), n),
        kinds_unique(field_step(f, v, n).kinds),
{
    let u = t.push(v);
    let g = field_step(f, v, n);
    let bk = base_kinds(b);
    assert(path_in(u, f.path));
    match v.leaf {
        None => {
            assert forall|k: Kind| kind_occ(u, f.path, k) == kind_occ(t, f.path, k) by {
                assert(!hits(v, f.path, k));
            }
        },
        Some(y) => {
            let k = kind_of(y);
            let ks0 = f.kinds;
            let ks = if has_kind(ks0, k) {
                ks0
            } else {
                ks0.push(empty_kind(k, f.path))
            };
            assert(has_kind(ks, k)) by {
                if !has_kind(ks0, k) {
                    assert(ks[ks0.len() as int].kind == k);
                }
            }
            assert(kinds_unique(ks)) by {
                if !has_kind(ks0, k) {
                    assert forall|a: int, c: int|
                        0 <= a < ks.len() && 0 <= c < ks.len() && a != c implies ks[a].kind != ks[c].kind by {
                        if a < ks0.len() && c < ks0.len() {
                            assert(ks[a] == ks0[a] && ks[c] == ks0[c]);
                        } else if a < ks0.len() {
                            assert(ks[a] == ks0[a]);
                        } else {
                            assert(ks[c] == ks0[c]);
                        }
                    }
                }
            }
            let j = kind_index(ks, k);
            assert(0 <= j < ks.len() && ks[j].kind == k);
            assert(hits(v, f.path, k));
            assert forall|q: Kind| q != k implies kind_occ(u, f.path, q) == kind_occ(t, f.path, q) by {
                assert(!hits(v, f.path, q));
            }
            assert(g.kinds.len() == ks.len());
            assert forall|a: int| 0 <= a < ks.len() && a != j implies #[trigger] g.kinds[a] == ks[a] by {}
            assert(!has_kind(ks0, k) ==> j == ks0.len()) by {
                if !has_kind(ks0, k) && j < ks0.len() {
                    assert(ks[j] == ks0[j]);
                }
            }
            assert(!has_kind(ks0, k) ==> kind_occ(t, f.path, k) == 0);
            assert forall|a: int| 0 <= a < bk.len() implies #[trigger] g.kinds[a].kind == bk[a].kind by {
                assert(ks[a] == ks0[a]);
            }
            assert forall|a: int| bk.len() <= a < g.kinds.len() implies kind_occ(
                u,
                f.path,
                #[trigger] g.kinds[a].kind,
            ) > 0 by {
                if a < ks0.len() {
                    assert(ks[a] == ks0[a]);
                }
            }
            assert forall|q: Kind| kind_occ(u, f.path, q) > 0 implies has_kind(g.kinds, q) by {
                if q == k {
                    assert(g.kinds[j].kind == k);
                } else {
                    assert(kind_occ(t, f.path, q) > 0);
                    assert(has_kind(ks0, q));
                    let a = choose|a: int| 0 <= a < ks0.len() && ks0[a].kind == q;
                    assert(ks[a] == ks0[a]);
                    assert(a != j);
                    assert(g.kinds[a].kind == q);
                }
            }
            assert forall|a: int| 0 <= a < g.kinds.len() implies #[trigger] g.kinds[a].count == (if a
                < bk.len() {
                bk[a].count
            } else {
                0
            }) + kind_occ(u, f.path, g.kinds[a].kind) by {
                if a < ks0.len() {
                    assert(ks[a] == ks0[a]);
                }
            }
            assert forall|a: int, c: int|
                0 <= a < g.kinds.len() && 0 <= c < g.kinds.len() && a != c implies g.kinds[a].kind
                != g.kinds[c].kind by {
                assert(g.kinds[a].kind == ks[a].kind);
                assert(g.kinds[c].kind == ks[c].kind);
            }
        },
    }
}

proof fn lemma_kind_occ_positive(t: Seq<Visit>, p: Seq<char>, k: Kind)
    requires
        kind_occ(t, p, k) > 0,
    ensures
        path_in(t, p),
    decreases t.len(),
{
    let w = t.drop_last();
    if hits(t.last(), p, k) {
        assert(t[t.len() - 1].path == p);
    } else {
        lemma_kind_occ_positive(w, p, k);
        let i = choose|i: int| 0 <= i < w.len() && w[i].path == p;
        assert(t[i] == w[i]);
    }
}

proof fn lemma_apply_grown(m: ModelView, s: Seq<Visit>)
    requires
        fresh(m),
    ensures
        grown(m, apply(m, s), s),
    decreases s.len(),
{
    if s.len() == 0 {
        lemma_grown_start(m);
        assert(s =~= Seq::<Visit>::empty());
    } else {
        let t = s.drop_last();
        lemma_apply_grown(m, t);
        lemma_step_grown(m, apply(m, t), t, s.last());
        assert(t.push(s.last()) =~= s);
    }
}

/// Ingesting the same document twice into an empty model doubles every
/// field's and every kind's count, and finds no path or kind the first
/// ingestion did not.
pub proof fn law_ingest_twice_doubles(doc: ValueModel)
    requires
        doc is Document,
    ensures
        ({
            let m1 = ingest(empty_model(), doc);
            let m2 = ingest(m1, doc);
            &&& m2.count == 2 * m1.count
            &&& m2.fields.len() == m1.fields.len()
            &&& forall|i: int|
                0 <= i < m1.fields.len() ==> {
                    &&& (#[trigger] m2.fields[i]).path == m1.fields[i].path
                    &&& m2.fields[i].count == 2 * m1.fields[i].count
                    &&& m2.fields[i].kinds.len() == m1.fields[i].kinds.len()
                    &&& forall|j: int|
                        0 <= j < m1.fields[i].kinds.len() ==> {
                            &&& (#[trigger] m2.fields[i].kinds[j]).kind == m1.fields[i].kinds[j].kind
                            &&& m2.fields[i].kinds[j].count == 2 * m1.fields[i].kinds[j].count
                        }
                }
        }),
{
    let s = document_visits(doc);
    let m0 = ModelView { count: 1, ..empty_model() };
    lemma_apply_grown(m0, s);
    let m1 = apply(m0, s);
    assert(m1 == ingest(empty_model(), doc));
    let n1 = ModelView { count: 2, ..m1 };
    assert forall|i: int| 0 <= i < n1.fields.len() implies #[trigger] n1.fields[i].seen < n1.count by {
        assert(field_grown(base(m0, i), m1.fields[i], s, 1));
        assert(path_in(s, m1.fields[i].path));
    }
    lemma_apply_grown(n1, s);
    let m2 = apply(n1, s);
    assert(m2 == ingest(m1, doc));
    if m2.fields.len() > m1.fields.len() {
        let i = m1.fields.len() as int;
        let p = m2.fields[i].path;
        assert(path_in(s, p));
        let j = choose|j: int| 0 <= j < m1.fields.len() && m1.fields[j].path == p;
        assert(m2.fields[j].path == p);
        assert(false);
    }
    assert forall|i: int| 0 <= i < m1.fields.len() implies {
        &&& (#[trigger] m2.fields[i]).path == m1.fields[i].path
        &&& m2.fields[i].count == 2 * m1.fields[i].count
        &&& m2.fields[i].kinds.len() == m1.fields[i].kinds.len()
        &&& forall|j: int|
            0 <= j < m1.fields[i].kinds.len() ==> {
                &&& (#[trigger] m2.fields[i].kinds[j]).kind == m1.fields[i].kinds[j].kind
                &&& m2.fields[i].kinds[j].count == 2 * m1.fields[i].kinds[j].count
            }
    } by {
        let f1 = m1.fields[i];
        let f2 = m2.fields[i];
        assert(field_grown(base(m0, i), f1, s, 1));
        assert(field_grown(base(n1, i), f2, s, 2));
        assert(path_in(s, f1.path));
        if f2.kinds.len() > f1.kinds.len() {
            let a = f1.kinds.len() as int;
            let k = f2.kinds[a].kind;
            assert(kind_occ(s, f1.path, k) > 0);
            assert(has_kind(f1.kinds, k));
            let c = choose|c: int| 0 <= c < f1.kinds.len() && f1.kinds[c].kind == k;
            assert(f2.kinds[c].kind == k);
            assert(false);
        }
        assert forall|j: int| 0 <= j < f1.kinds.len() implies {
            &&& (#[trigger] f2.kinds[j]).kind == f1.kinds[j].kind
            &&& f2.kinds[j].count == 2 * f1.kinds[j].count
        } by {
            assert(f1.kinds[j].count == kind_occ(s, f1.path, f1.kinds[j].kind));
        }
    }
}

/// No two occurrences in `s` share a path.
pub open spec fn paths_distinct(s: Seq<Visit>) -> bool {
    forall|i: int, j: int| 0 <= i < s.len() && 0 <= j < s.len() && i != j ==> s[i].path != s[j].path
}

proof fn lemma_kind_occ_at_most_one(s: Seq<Visit>, p: Seq<char>, k: Kind)
    requires
        paths_distinct(s),
    ensures
        kind_occ(s, p, k) <= 1,
    decreases s.len(),
{
    if s.len() > 0 {
        let t = s.drop_last();
        assert(paths_distinct(t)) by {
            assert forall|i: int, j: int|
                0 <= i < t.len() && 0 <= j < t.len() && i != j implies t[i].path != t[j].path by {
                assert(t[i] == s[i] && t[j] == s[j]);
            }
        }
        lemma_kind_occ_at_most_one(t, p, k);
        if hits(s.last(), p, k) && kind_occ(t, p, k) > 0 {
            lemma_kind_occ_positive(t, p, k);
            let i = choose|i: int| 0 <= i < t.len() && t[i].path == p;
            assert(s[i] == t[i]);
            assert(s[s.len() - 1].path == p);
        }
    }
}

/// Where no document repeats a path (such as `a.b` written out beside `b`
/// nested under `a`), no kind is seen more often than its field, so each
/// kind's probability is at most one. Ingesting such a document keeps that
/// true of a model.
pub proof fn law_kind_share_at_most_one(m: ModelView, doc: ValueModel)
    requires
        model_wf(m),
        doc is Document,
        paths_distinct(document_visits(doc)),
        forall|i: int, j: int|
            0 <= i < m.fields.len() && 0 <= j < m.fields[i].kinds.len() ==> #[trigger] m.fields[i].kinds[j].count
                <= m.fields[i].count,
    ensures
        ({
            let r = ingest(m, doc);
            forall|i: int, j: int|
                0 <= i < r.fields.len() && 0 <= j < r.fields[i].kinds.len() ==> #[trigger] r.fields[i].kinds[j].count
                    <= r.fields[i].count
        }),
{
    let s = document_visits(doc);
    let n = ModelView { count: m.count + 1, ..m };
    assert forall|i: int| 0 <= i < n.fields.len() implies #[trigger] n.fields[i].seen < n.count by {
        assert(field_wf(m.fields[i], m.count, m.visits));
    }
    assert forall|i: int| 0 <= i < n.fields.len() implies kinds_unique(#[trigger] n.fields[i].kinds) by {
        assert(field_wf(m.fields[i], m.count, m.visits));
    }
    lemma_apply_grown(n, s);
    let r = apply(n, s);
    assert forall|i: int, j: int|
        0 <= i < r.fields.len() && 0 <= j < r.fields[i].kinds.len() implies #[trigger] r.fields[i].kinds[j].count
        <= r.fields[i].count by {
        let f = r.fields[i];
        let k = f.kinds[j].kind;
        assert(field_grown(base(n, i), f, s, n.count));
        lemma_kind_occ_at_most_one(s, f.path, k);
        if kind_occ(s, f.path, k) > 0 {
            lemma_kind_occ_positive(s, f.path, k);
        }
        if i < m.fields.len() && j < m.fields[i].kinds.len() {
            assert(m.fields[i].kinds[j].count <= m.fields[i].count);
        }
    }
}

/// Two different paths met in a document, such as `a.name` and `b.name`,
/// end up as two separate fields of the model.
pub proof fn law_paths_tracked_apart(m: ModelView, doc: ValueModel, a: Seq<char>, b: Seq<char>)
    requires
        doc is Document,
        a != b,
        exists|i: int| 0 <= i < document_visits(doc).len() && document_visits(doc)[i].path == a,
        exists|i: int| 0 <= i < document_visits(doc).len() && document_visits(doc)[i].path == b,
    ensures
        exists|i: int, j: int|
            0 <= i < ingest(m, doc).fields.len() && 0 <= j < ingest(m, doc).fields.len() && i != j
                && ingest(m, doc).fields[i].path == a && ingest(m, doc).fields[j].path == b,
{
    let s = document_visits(doc);
    let m1 = ModelView { count: m.count + 1, ..m };
    lemma_apply_keeps_paths(m1, s);
    let x = choose|i: int| 0 <= i < s.len() && s[i].path == a;
    let y = choose|i: int| 0 <= i < s.len() && s[i].path == b;
    assert(has_field(apply(m1, s).fields, s[x].path));
    assert(has_field(apply(m1, s).fields, s[y].path));
    let fs = ingest(m, doc).fields;
    assert(fs == apply(m1, s).fields);
    let i = choose|i: int| 0 <= i < fs.len() && fs[i].path == a;
    let j = choose|j: int| 0 <= j < fs.len() && fs[j].path == b;
    assert(i != j);
}

} // verus!
