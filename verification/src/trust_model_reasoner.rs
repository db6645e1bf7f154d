//! The executable trust-evaluation reasoner.
//!
//! A [`TrustModelReasoner`] is constructed with the trusted keys, the
//! default threshold, and the expected root derivation. Facts are added
//! through the ingestion API (`add_fod`, `add_unresolved_derivation`,
//! `add_resolved_derivation` and `add_build_output_claim`, with
//! `add_trust_model` for further composite trust models); then a single
//! call to `compute_result` runs the trust-propagation closure and
//! returns the names of the verified resolutions of the root.
//!
//! Every public method is specified against the abstract [`Model`] of
//! `crate::model`: the view of a reasoner is its model, ingestion is
//! `apply_op`, and `compute_result` returns exactly `result_names`.

use vstd::prelude::*;
use vstd::set_lib::lemma_len_subset;
use vstd::string::StringExecFns;

use crate::engine::{contains_att, count_of, has_key, Att, Counter, Variable};
use crate::model::{add_tm_confused, add_tm_valid, apply_add_tm, apply_op, attested,
    lemma_attested_least,
    attested_bound, attesting_children, cardinality, default_tm_name, default_threshold,
    fod_violation, initial_model, lemma_attested_at_in_attested, lemma_attested_at_mono_k,
    lemma_attested_closed, lemma_attested_finite, lemma_attested_unfold, lemma_children_finite,
    lemma_children_mono, lemma_claims_in_attested, model_wf, new_ok, op_allowed, out_name,
    result_names, root_candidate_verified, rows_wf, verified_names, with_completed, Fact, Model,
    Op, TmRow};
use crate::string_interner::{cat_names, entries_distinct, has_entry, has_text, intern_ok,
    intern_refused, Category, ContentHash, Entry, RDrv, StringInterner, TrustModel, UDrv,
    UDrvOutput};

verus! {

/// Errors reported by the reasoner.
///
/// `InvalidConfig` reports bad trust configuration (at construction or in
/// `add_trust_model`); `StateMisuse` reports ingestion after evaluation or
/// a second evaluation; `UnknownInput` reports an identifier already in
/// use under a different category.
#[derive(Debug, Clone, Copy, PartialEq, Eq, Structural)]
pub enum ReasonerError {
    InvalidConfig,
    StateMisuse,
    UnknownInput,
}

/// One configured trust element.
#[derive(Debug, Clone, Copy)]
pub struct TmRowRec {
    pub tm: TrustModel,
    pub threshold: usize,
    pub is_key: bool,
    pub parent: Option<TrustModel>,
}

// ---------------------------------------------------------------------
// Spec helpers: from interned ids to names
// ---------------------------------------------------------------------

pub open spec fn udrv_ok(iv: Seq<Entry>, u: UDrv) -> bool {
    u.0 < iv.len() && iv[u.0 as int].cat == Category::Udrv
}

pub open spec fn rdrv_ok(iv: Seq<Entry>, r: RDrv) -> bool {
    r.0 < iv.len() && iv[r.0 as int].cat == Category::Rdrv
}

pub open spec fn tm_ok(iv: Seq<Entry>, t: TrustModel) -> bool {
    t.0 < iv.len() && iv[t.0 as int].cat == Category::TrustModel
}

pub open spec fn hash_ok(iv: Seq<Entry>, h: ContentHash) -> bool {
    h.0 < iv.len() && iv[h.0 as int].cat == Category::ContentHash
}

pub open spec fn out_ok(iv: Seq<Entry>, o: UDrvOutput) -> bool {
    o.0 < iv.len() && iv[o.0 as int].cat == Category::Output
}

pub open spec fn att_ok(iv: Seq<Entry>, a: Att) -> bool {
    tm_ok(iv, a.tm) && rdrv_ok(iv, a.rdrv) && hash_ok(iv, a.hash) && out_ok(iv, a.output)
}

/// The name an id stands for.
pub open spec fn txt(iv: Seq<Entry>, id: int) -> Seq<char> {
    iv[id].text
}

pub open spec fn fod_str(iv: Seq<Entry>, t: (UDrv, ContentHash)) -> (Seq<char>, Seq<char>) {
    (txt(iv, t.0.0 as int), txt(iv, t.1.0 as int))
}

pub open spec fn has_output_str(iv: Seq<Entry>, t: (UDrv, UDrvOutput)) -> (Seq<char>, Seq<char>) {
    (txt(iv, t.0.0 as int), txt(iv, t.1.0 as int))
}

pub open spec fn resolves_str(iv: Seq<Entry>, t: (RDrv, UDrv)) -> (Seq<char>, Seq<char>) {
    (txt(iv, t.0.0 as int), txt(iv, t.1.0 as int))
}

pub open spec fn resolves_with_str(iv: Seq<Entry>, t: (RDrv, UDrvOutput, ContentHash)) -> (
    Seq<char>,
    Seq<char>,
    Seq<char>,
) {
    (txt(iv, t.0.0 as int), txt(iv, t.1.0 as int), txt(iv, t.2.0 as int))
}

/// The fact an attestation tuple stands for.
pub open spec fn att_fact(iv: Seq<Entry>, a: Att) -> Fact {
    Fact {
        rdrv: txt(iv, a.rdrv.0 as int),
        hash: txt(iv, a.hash.0 as int),
        output: txt(iv, a.output.0 as int),
    }
}

/// The attestation pair (asserter name, fact) a tuple stands for.
pub open spec fn att_str(iv: Seq<Entry>, a: Att) -> (Seq<char>, Fact) {
    (txt(iv, a.tm.0 as int), att_fact(iv, a))
}

pub open spec fn fods_view(iv: Seq<Entry>, v: Seq<(UDrv, ContentHash)>) -> Set<
    (Seq<char>, Seq<char>),
> {
    v.map_values(|t: (UDrv, ContentHash)| fod_str(iv, t)).to_set()
}

pub open spec fn has_output_view(iv: Seq<Entry>, v: Seq<(UDrv, UDrvOutput)>) -> Set<
    (Seq<char>, Seq<char>),
> {
    v.map_values(|t: (UDrv, UDrvOutput)| has_output_str(iv, t)).to_set()
}

pub open spec fn resolves_view(iv: Seq<Entry>, v: Seq<(RDrv, UDrv)>) -> Set<
    (Seq<char>, Seq<char>),
> {
    v.map_values(|t: (RDrv, UDrv)| resolves_str(iv, t)).to_set()
}

pub open spec fn resolves_with_view(iv: Seq<Entry>, v: Seq<(RDrv, UDrvOutput, ContentHash)>) -> Set<
    (Seq<char>, Seq<char>, Seq<char>),
> {
    v.map_values(|t: (RDrv, UDrvOutput, ContentHash)| resolves_with_str(iv, t)).to_set()
}

pub open spec fn claims_view(iv: Seq<Entry>, v: Seq<Att>) -> Set<(Seq<char>, Fact)> {
    v.map_values(|a: Att| att_str(iv, a)).to_set()
}

/// The name of the trust element configured by row `j`.
pub open spec fn row_text(iv: Seq<Entry>, v: Seq<TmRowRec>, j: int) -> Seq<char> {
    txt(iv, v[j].tm.0 as int)
}

/// The abstract row a record stands for.
pub open spec fn row_str(iv: Seq<Entry>, rec: TmRowRec) -> TmRow {
    TmRow {
        threshold: rec.threshold as nat,
        is_key: rec.is_key,
        parent: match rec.parent {
            Some(p) => Some(txt(iv, p.0 as int)),
            None => None,
        },
    }
}

pub open spec fn rows_view(iv: Seq<Entry>, v: Seq<TmRowRec>) -> Map<Seq<char>, TmRow> {
    Map::new(
        |t: Seq<char>| exists|j: int| 0 <= j < v.len() && #[trigger] row_text(iv, v, j) == t,
        |t: Seq<char>|
            row_str(iv, v[choose|j: int| 0 <= j < v.len() && #[trigger] row_text(iv, v, j) == t]),
    )
}

// ---------------------------------------------------------------------
// The reasoner
// ---------------------------------------------------------------------

/// The trust-evaluation reasoner. See the module documentation.
pub struct TrustModelReasoner {
    interner: StringInterner,
    fods: Vec<(UDrv, ContentHash)>,
    has_output: Vec<(UDrv, UDrvOutput)>,
    depends_on: Vec<(UDrv, UDrvOutput)>,
    resolves: Vec<(RDrv, UDrv)>,
    resolves_with: Vec<(RDrv, UDrvOutput, ContentHash)>,
    claims: Vec<Att>,
    tm_rows: Vec<TmRowRec>,
    expected_root: UDrv,
    default_tm: TrustModel,
    completed: bool,
}

impl View for TrustModelReasoner {
    type V = Model;

    closed spec fn view(&self) -> Model {
        Model {
            completed: self.completed,
            udrv_names: cat_names(self.interner@, Category::Udrv),
            rdrv_names: cat_names(self.interner@, Category::Rdrv),
            tm_names: cat_names(self.interner@, Category::TrustModel),
            hash_names: cat_names(self.interner@, Category::ContentHash),
            output_names: cat_names(self.interner@, Category::Output),
            fods: fods_view(self.interner@, self.fods@),
            has_output: has_output_view(self.interner@, self.has_output@),
            depends_on: has_output_view(self.interner@, self.depends_on@),
            resolves: resolves_view(self.interner@, self.resolves@),
            resolves_with: resolves_with_view(self.interner@, self.resolves_with@),
            claims: claims_view(self.interner@, self.claims@),
            rows: rows_view(self.interner@, self.tm_rows@),
            root: txt(self.interner@, self.expected_root.0 as int),
        }
    }
}

impl TrustModelReasoner {
    /// Every id stored in the relations is interned under the category
    /// its tagged type promises.
    spec fn ids_ok(&self) -> bool {
        let iv = self.interner@;
        &&& forall|j: int| 0 <= j < self.fods@.len() ==> udrv_ok(iv, (#[trigger] self.fods@[j]).0)
            && hash_ok(iv, self.fods@[j].1)
        &&& forall|j: int| 0 <= j < self.has_output@.len() ==> udrv_ok(
            iv,
            (#[trigger] self.has_output@[j]).0,
        ) && out_ok(iv, self.has_output@[j].1)
        &&& forall|j: int| 0 <= j < self.depends_on@.len() ==> udrv_ok(
            iv,
            (#[trigger] self.depends_on@[j]).0,
        ) && out_ok(iv, self.depends_on@[j].1)
        &&& forall|j: int| 0 <= j < self.resolves@.len() ==> rdrv_ok(
            iv,
            (#[trigger] self.resolves@[j]).0,
        ) && udrv_ok(iv, self.resolves@[j].1)
        &&& forall|j: int| 0 <= j < self.resolves_with@.len() ==> rdrv_ok(
            iv,
            (#[trigger] self.resolves_with@[j]).0,
        ) && out_ok(iv, self.resolves_with@[j].1) && hash_ok(iv, self.resolves_with@[j].2)
        &&& forall|j: int| 0 <= j < self.claims@.len() ==> att_ok(iv, #[trigger] self.claims@[j])
        &&& forall|j: int| 0 <= j < self.tm_rows@.len() ==> tm_ok(
            iv,
            (#[trigger] self.tm_rows@[j]).tm,
        ) && (match self.tm_rows@[j].parent {
            Some(p) => tm_ok(iv, p),
            None => true,
        })
        &&& udrv_ok(iv, self.expected_root)
        &&& tm_ok(iv, self.default_tm)
    }

    /// The relations are stored without duplicates, and the row table has
    /// one row per trust element.
    spec fn rels_distinct(&self) -> bool {
        &&& self.fods@.no_duplicates()
        &&& self.has_output@.no_duplicates()
        &&& self.depends_on@.no_duplicates()
        &&& self.resolves@.no_duplicates()
        &&& self.resolves_with@.no_duplicates()
        &&& self.claims@.no_duplicates()
        &&& forall|i: int, j: int|
            0 <= i < j < self.tm_rows@.len() ==> (#[trigger] self.tm_rows@[i]).tm != (
            #[trigger] self.tm_rows@[j]).tm
    }

    /// The row table is coherent: positive thresholds, parents configured,
    /// and the default trust model present under its reserved name.
    spec fn rows_ok(&self) -> bool {
        &&& forall|j: int| 0 <= j < self.tm_rows@.len() ==> (#[trigger] self.tm_rows@[j]).threshold
            >= 1
        &&& forall|j: int| 0 <= j < self.tm_rows@.len() ==> (match (
        #[trigger] self.tm_rows@[j]).parent {
            Some(p) => exists|k: int|
                0 <= k < self.tm_rows@.len() && (#[trigger] self.tm_rows@[k]).tm == p,
            None => true,
        })
        &&& forall|j: int| 0 <= j < self.tm_rows@.len() ==> (match (
        #[trigger] self.tm_rows@[j]).parent {
            Some(p) => p != self.tm_rows@[j].tm,
            None => true,
        })
        &&& exists|j: int|
            0 <= j < self.tm_rows@.len() && (#[trigger] self.tm_rows@[j]).tm == self.default_tm
        &&& txt(self.interner@, self.default_tm.0 as int) == default_tm_name()
    }

    /// Well-formedness of the reasoner.
    pub closed spec fn wf(&self) -> bool {
        &&& self.interner.wf()
        &&& self.ids_ok()
        &&& self.rels_distinct()
        &&& self.rows_ok()
    }
}

// ---------------------------------------------------------------------
// Correspondence lemmas between ids and names
// ---------------------------------------------------------------------

/// Distinct ids carry distinct names.
proof fn lemma_txt_inj(iv: Seq<Entry>, i: int, j: int)
    requires
        entries_distinct(iv),
        0 <= i < iv.len(),
        0 <= j < iv.len(),
        txt(iv, i) == txt(iv, j),
    ensures
        i == j,
{
    if i < j {
        assert(iv[i].text != iv[j].text);
    } else if j < i {
        assert(iv[j].text != iv[i].text);
    }
}

/// Distinct in-range ids have distinct names; contrapositive form used
/// for row-name distinctness.
proof fn lemma_txt_inj_contra(iv: Seq<Entry>, i: int, j: int)
    requires
        entries_distinct(iv),
        0 <= i < iv.len(),
        0 <= j < iv.len(),
        i != j,
    ensures
        txt(iv, i) != txt(iv, j),
{
    if i < j {
        assert(iv[i].text != iv[j].text);
    } else {
        assert(iv[j].text != iv[i].text);
    }
}

/// Names interned under one category are untouched when an entry of any
/// category is appended, except that the appended entry's name joins its
/// own category.
proof fn lemma_cat_names_push(iv: Seq<Entry>, e: Entry)
    ensures
        cat_names(iv.push(e), e.cat) == cat_names(iv, e.cat).insert(e.text),
        forall|c: Category| c != e.cat ==> cat_names(iv.push(e), c) == cat_names(iv, c),
{
    let iv2 = iv.push(e);
    assert forall|c: Category, s: Seq<char>|
        #[trigger] has_entry(iv2, s, c) == (has_entry(iv, s, c) || (c == e.cat && s
        == e.text)) by {
        if has_entry(iv2, s, c) {
            let i = choose|i: int| 0 <= i < iv2.len() && #[trigger] iv2[i].text == s && iv2[i].cat
                == c;
            if i < iv.len() {
                assert(iv[i].text == s && iv[i].cat == c);
            }
        }
        if has_entry(iv, s, c) {
            let i = choose|i: int| 0 <= i < iv.len() && #[trigger] iv[i].text == s && iv[i].cat
                == c;
            assert(iv2[i].text == s && iv2[i].cat == c);
        }
        if c == e.cat && s == e.text {
            assert(iv2[iv.len() as int].text == s && iv2[iv.len() as int].cat == c);
        }
    }
    assert(cat_names(iv2, e.cat) =~= cat_names(iv, e.cat).insert(e.text));
    assert forall|c: Category| c != e.cat implies cat_names(iv2, c) == cat_names(iv, c) by {
        assert(cat_names(iv2, c) =~= cat_names(iv, c));
    }
}

/// A name lives in at most one category, and being interned at all means
/// being interned in one of the five.
proof fn lemma_text_category(iv: Seq<Entry>, s: Seq<char>)
    requires
        entries_distinct(iv),
    ensures
        has_text(iv, s) == (cat_names(iv, Category::Udrv).contains(s) || cat_names(
            iv,
            Category::Rdrv,
        ).contains(s) || cat_names(iv, Category::TrustModel).contains(s) || cat_names(
            iv,
            Category::ContentHash,
        ).contains(s) || cat_names(iv, Category::Output).contains(s)),
        forall|c1: Category, c2: Category|
            c1 != c2 ==> !(#[trigger] cat_names(iv, c1).contains(s) && #[trigger] cat_names(
                iv,
                c2,
            ).contains(s)),
{
    if has_text(iv, s) {
        let e = choose|e: int| 0 <= e < iv.len() && #[trigger] iv[e].text == s;
        assert(has_entry(iv, s, iv[e].cat));
        assert(cat_names(iv, iv[e].cat).contains(s));
    }
    assert forall|c1: Category, c2: Category|
        c1 != c2 implies !(#[trigger] cat_names(iv, c1).contains(s) && #[trigger] cat_names(
        iv,
        c2,
    ).contains(s)) by {
        if cat_names(iv, c1).contains(s) && cat_names(iv, c2).contains(s) {
            let e1 = choose|e: int| 0 <= e < iv.len() && #[trigger] iv[e].text == s && iv[e].cat
                == c1;
            let e2 = choose|e: int| 0 <= e < iv.len() && #[trigger] iv[e].text == s && iv[e].cat
                == c2;
            lemma_txt_inj(iv, e1, e2);
        }
    }
}

/// `iv1` extends `iv0` without touching existing entries.
pub open spec fn iv_extends(iv0: Seq<Entry>, iv1: Seq<Entry>) -> bool {
    iv1.len() >= iv0.len() && forall|e: int| 0 <= e < iv0.len() ==> iv1[e] == #[trigger] iv0[e]
}

/// A name that could be interned before, and differs from every name the
/// interner gained since, can still be interned.
proof fn lemma_intern_chain(iv0: Seq<Entry>, iv1: Seq<Entry>, s: Seq<char>, cat: Category)
    requires
        iv_extends(iv0, iv1),
        !intern_refused(iv0, s, cat),
        forall|e: int|
            iv0.len() <= e < iv1.len() ==> (#[trigger] iv1[e]).text != s || iv1[e].cat == cat,
    ensures
        !intern_refused(iv1, s, cat),
{
    if has_text(iv1, s) {
        let e = choose|e: int| 0 <= e < iv1.len() && #[trigger] iv1[e].text == s;
        if e < iv0.len() {
            assert(iv0[e].text == s);
            assert(has_text(iv0, s));
            assert(has_entry(iv0, s, cat));
            let e2 = choose|e2: int|
                0 <= e2 < iv0.len() && #[trigger] iv0[e2].text == s && iv0[e2].cat == cat;
            assert(iv1[e2].text == s && iv1[e2].cat == cat);
            assert(has_entry(iv1, s, cat));
        } else {
            assert(iv1[e].cat == cat);
            assert(has_entry(iv1, s, cat));
        }
    }
}

/// The synthesized output name of a derivation differs from the
/// derivation's own name.
proof fn lemma_out_name_ne(u: Seq<char>)
    ensures
        out_name(u) != u,
{
    reveal_strlit("$out");
    assert(out_name(u).len() == u.len() + 4);
}

// ---------------------------------------------------------------------
// Membership of the mapped relation views
// ---------------------------------------------------------------------

proof fn lemma_fods_view_members(iv: Seq<Entry>, v: Seq<(UDrv, ContentHash)>)
    ensures
        forall|x: (Seq<char>, Seq<char>)| #[trigger] fods_view(iv, v).contains(x) == exists|j: int|
            0 <= j < v.len() && fod_str(iv, #[trigger] v[j]) == x,
{
    let ms = v.map_values(|t: (UDrv, ContentHash)| fod_str(iv, t));
    assert forall|x: (Seq<char>, Seq<char>)| #[trigger] fods_view(iv, v).contains(x) == (exists|
        j: int,
    | 0 <= j < v.len() && fod_str(iv, #[trigger] v[j]) == x) by {
        if fods_view(iv, v).contains(x) {
            let j = choose|j: int| 0 <= j < ms.len() && ms[j] == x;
            assert(fod_str(iv, v[j]) == x);
        }
        if exists|j: int| 0 <= j < v.len() && fod_str(iv, #[trigger] v[j]) == x {
            let j = choose|j: int| 0 <= j < v.len() && fod_str(iv, #[trigger] v[j]) == x;
            assert(ms[j] == x);
            assert(ms.contains(x));
        }
    }
}

proof fn lemma_has_output_view_members(iv: Seq<Entry>, v: Seq<(UDrv, UDrvOutput)>)
    ensures
        forall|x: (Seq<char>, Seq<char>)| #[trigger] has_output_view(iv, v).contains(x) == exists|
            j: int,
        | 0 <= j < v.len() && has_output_str(iv, #[trigger] v[j]) == x,
{
    let ms = v.map_values(|t: (UDrv, UDrvOutput)| has_output_str(iv, t));
    assert forall|x: (Seq<char>, Seq<char>)| #[trigger] has_output_view(iv, v).contains(x) == (
    exists|j: int| 0 <= j < v.len() && has_output_str(iv, #[trigger] v[j]) == x) by {
        if has_output_view(iv, v).contains(x) {
            let j = choose|j: int| 0 <= j < ms.len() && ms[j] == x;
            assert(has_output_str(iv, v[j]) == x);
        }
        if exists|j: int| 0 <= j < v.len() && has_output_str(iv, #[trigger] v[j]) == x {
            let j = choose|j: int| 0 <= j < v.len() && has_output_str(iv, #[trigger] v[j]) == x;
            assert(ms[j] == x);
            assert(ms.contains(x));
        }
    }
}

proof fn lemma_resolves_view_members(iv: Seq<Entry>, v: Seq<(RDrv, UDrv)>)
    ensures
        forall|x: (Seq<char>, Seq<char>)| #[trigger] resolves_view(iv, v).contains(x) == exists|
            j: int,
        | 0 <= j < v.len() && resolves_str(iv, #[trigger] v[j]) == x,
{
    let ms = v.map_values(|t: (RDrv, UDrv)| resolves_str(iv, t));
    assert forall|x: (Seq<char>, Seq<char>)| #[trigger] resolves_view(iv, v).contains(x) == (
    exists|j: int| 0 <= j < v.len() && resolves_str(iv, #[trigger] v[j]) == x) by {
        if resolves_view(iv, v).contains(x) {
            let j = choose|j: int| 0 <= j < ms.len() && ms[j] == x;
            assert(resolves_str(iv, v[j]) == x);
        }
        if exists|j: int| 0 <= j < v.len() && resolves_str(iv, #[trigger] v[j]) == x {
            let j = choose|j: int| 0 <= j < v.len() && resolves_str(iv, #[trigger] v[j]) == x;
            assert(ms[j] == x);
            assert(ms.contains(x));
        }
    }
}

proof fn lemma_resolves_with_view_members(iv: Seq<Entry>, v: Seq<(RDrv, UDrvOutput, ContentHash)>)
    ensures
        forall|x: (Seq<char>, Seq<char>, Seq<char>)|
            #[trigger] resolves_with_view(iv, v).contains(x) == exists|j: int|
                0 <= j < v.len() && resolves_with_str(iv, #[trigger] v[j]) == x,
{
    let ms = v.map_values(|t: (RDrv, UDrvOutput, ContentHash)| resolves_with_str(iv, t));
    assert forall|x: (Seq<char>, Seq<char>, Seq<char>)|
        #[trigger] resolves_with_view(iv, v).contains(x) == (exists|j: int|
            0 <= j < v.len() && resolves_with_str(iv, #[trigger] v[j]) == x) by {
        if resolves_with_view(iv, v).contains(x) {
            let j = choose|j: int| 0 <= j < ms.len() && ms[j] == x;
            assert(resolves_with_str(iv, v[j]) == x);
        }
        if exists|j: int| 0 <= j < v.len() && resolves_with_str(iv, #[trigger] v[j]) == x {
            let j = choose|j: int|
                0 <= j < v.len() && resolves_with_str(iv, #[trigger] v[j]) == x;
            assert(ms[j] == x);
            assert(ms.contains(x));
        }
    }
}

proof fn lemma_claims_view_members(iv: Seq<Entry>, v: Seq<Att>)
    ensures
        forall|x: (Seq<char>, Fact)| #[trigger] claims_view(iv, v).contains(x) == exists|j: int|
            0 <= j < v.len() && att_str(iv, #[trigger] v[j]) == x,
{
    let ms = v.map_values(|a: Att| att_str(iv, a));
    assert forall|x: (Seq<char>, Fact)| #[trigger] claims_view(iv, v).contains(x) == (exists|
        j: int,
    | 0 <= j < v.len() && att_str(iv, #[trigger] v[j]) == x) by {
        if claims_view(iv, v).contains(x) {
            let j = choose|j: int| 0 <= j < ms.len() && ms[j] == x;
            assert(att_str(iv, v[j]) == x);
        }
        if exists|j: int| 0 <= j < v.len() && att_str(iv, #[trigger] v[j]) == x {
            let j = choose|j: int| 0 <= j < v.len() && att_str(iv, #[trigger] v[j]) == x;
            assert(ms[j] == x);
            assert(ms.contains(x));
        }
    }
}

// ---------------------------------------------------------------------
// Push and membership of the relation views
// ---------------------------------------------------------------------

proof fn lemma_fods_view_push(iv: Seq<Entry>, v: Seq<(UDrv, ContentHash)>, t: (UDrv, ContentHash))
    ensures
        fods_view(iv, v.push(t)) == fods_view(iv, v).insert(fod_str(iv, t)),
{
    lemma_fods_view_members(iv, v);
    lemma_fods_view_members(iv, v.push(t));
    assert forall|x: (Seq<char>, Seq<char>)|
        #[trigger] fods_view(iv, v.push(t)).contains(x) == (fods_view(iv, v).contains(x) || x
        == fod_str(iv, t)) by {
        if fods_view(iv, v.push(t)).contains(x) {
            let j = choose|j: int|
                0 <= j < v.push(t).len() && fod_str(iv, #[trigger] v.push(t)[j]) == x;
            if j < v.len() {
                assert(fod_str(iv, v[j]) == x);
            }
        }
        if fods_view(iv, v).contains(x) {
            let j = choose|j: int| 0 <= j < v.len() && fod_str(iv, #[trigger] v[j]) == x;
            assert(fod_str(iv, v.push(t)[j]) == x);
        }
        if x == fod_str(iv, t) {
            assert(fod_str(iv, v.push(t)[v.len() as int]) == x);
        }
    }
    assert(fods_view(iv, v.push(t)) =~= fods_view(iv, v).insert(fod_str(iv, t)));
}

proof fn lemma_fods_view_contains(iv: Seq<Entry>, v: Seq<(UDrv, ContentHash)>, t: (
    UDrv,
    ContentHash,
))
    requires
        v.contains(t),
    ensures
        fods_view(iv, v).contains(fod_str(iv, t)),
{
    lemma_fods_view_members(iv, v);
    let j = choose|j: int| 0 <= j < v.len() && v[j] == t;
    assert(fod_str(iv, #[trigger] v[j]) == fod_str(iv, t));
}

proof fn lemma_has_output_view_push(iv: Seq<Entry>, v: Seq<(UDrv, UDrvOutput)>, t: (
    UDrv,
    UDrvOutput,
))
    ensures
        has_output_view(iv, v.push(t)) == has_output_view(iv, v).insert(has_output_str(iv, t)),
{
    lemma_has_output_view_members(iv, v);
    lemma_has_output_view_members(iv, v.push(t));
    assert forall|x: (Seq<char>, Seq<char>)|
        #[trigger] has_output_view(iv, v.push(t)).contains(x) == (has_output_view(iv, v).contains(
            x,
        ) || x == has_output_str(iv, t)) by {
        if has_output_view(iv, v.push(t)).contains(x) {
            let j = choose|j: int|
                0 <= j < v.push(t).len() && has_output_str(iv, #[trigger] v.push(t)[j]) == x;
            if j < v.len() {
                assert(has_output_str(iv, v[j]) == x);
            }
        }
        if has_output_view(iv, v).contains(x) {
            let j = choose|j: int| 0 <= j < v.len() && has_output_str(iv, #[trigger] v[j]) == x;
            assert(has_output_str(iv, v.push(t)[j]) == x);
        }
        if x == has_output_str(iv, t) {
            assert(has_output_str(iv, v.push(t)[v.len() as int]) == x);
        }
    }
    assert(has_output_view(iv, v.push(t)) =~= has_output_view(iv, v).insert(
        has_output_str(iv, t),
    ));
}

proof fn lemma_has_output_view_contains(iv: Seq<Entry>, v: Seq<(UDrv, UDrvOutput)>, t: (
    UDrv,
    UDrvOutput,
))
    requires
        v.contains(t),
    ensures
        has_output_view(iv, v).contains(has_output_str(iv, t)),
{
    lemma_has_output_view_members(iv, v);
    let j = choose|j: int| 0 <= j < v.len() && v[j] == t;
    assert(has_output_str(iv, #[trigger] v[j]) == has_output_str(iv, t));
}

proof fn lemma_resolves_view_push(iv: Seq<Entry>, v: Seq<(RDrv, UDrv)>, t: (RDrv, UDrv))
    ensures
        resolves_view(iv, v.push(t)) == resolves_view(iv, v).insert(resolves_str(iv, t)),
{
    lemma_resolves_view_members(iv, v);
    lemma_resolves_view_members(iv, v.push(t));
    assert forall|x: (Seq<char>, Seq<char>)|
        #[trigger] resolves_view(iv, v.push(t)).contains(x) == (resolves_view(iv, v).contains(x)
        || x == resolves_str(iv, t)) by {
        if resolves_view(iv, v.push(t)).contains(x) {
            let j = choose|j: int|
                0 <= j < v.push(t).len() && resolves_str(iv, #[trigger] v.push(t)[j]) == x;
            if j < v.len() {
                assert(resolves_str(iv, v[j]) == x);
            }
        }
        if resolves_view(iv, v).contains(x) {
            let j = choose|j: int| 0 <= j < v.len() && resolves_str(iv, #[trigger] v[j]) == x;
            assert(resolves_str(iv, v.push(t)[j]) == x);
        }
        if x == resolves_str(iv, t) {
            assert(resolves_str(iv, v.push(t)[v.len() as int]) == x);
        }
    }
    assert(resolves_view(iv, v.push(t)) =~= resolves_view(iv, v).insert(resolves_str(iv, t)));
}

proof fn lemma_resolves_view_contains(iv: Seq<Entry>, v: Seq<(RDrv, UDrv)>, t: (RDrv, UDrv))
    requires
        v.contains(t),
    ensures
        resolves_view(iv, v).contains(resolves_str(iv, t)),
{
    lemma_resolves_view_members(iv, v);
    let j = choose|j: int| 0 <= j < v.len() && v[j] == t;
    assert(resolves_str(iv, #[trigger] v[j]) == resolves_str(iv, t));
}

proof fn lemma_resolves_with_view_push(
    iv: Seq<Entry>,
    v: Seq<(RDrv, UDrvOutput, ContentHash)>,
    t: (RDrv, UDrvOutput, ContentHash),
)
    ensures
        resolves_with_view(iv, v.push(t)) == resolves_with_view(iv, v).insert(
            resolves_with_str(iv, t),
        ),
{
    lemma_resolves_with_view_members(iv, v);
    lemma_resolves_with_view_members(iv, v.push(t));
    assert forall|x: (Seq<char>, Seq<char>, Seq<char>)|
        #[trigger] resolves_with_view(iv, v.push(t)).contains(x) == (resolves_with_view(
            iv,
            v,
        ).contains(x) || x == resolves_with_str(iv, t)) by {
        if resolves_with_view(iv, v.push(t)).contains(x) {
            let j = choose|j: int|
                0 <= j < v.push(t).len() && resolves_with_str(iv, #[trigger] v.push(t)[j]) == x;
            if j < v.len() {
                assert(resolves_with_str(iv, v[j]) == x);
            }
        }
        if resolves_with_view(iv, v).contains(x) {
            let j = choose|j: int|
                0 <= j < v.len() && resolves_with_str(iv, #[trigger] v[j]) == x;
            assert(resolves_with_str(iv, v.push(t)[j]) == x);
        }
        if x == resolves_with_str(iv, t) {
            assert(resolves_with_str(iv, v.push(t)[v.len() as int]) == x);
        }
    }
    assert(resolves_with_view(iv, v.push(t)) =~= resolves_with_view(iv, v).insert(
        resolves_with_str(iv, t),
    ));
}

proof fn lemma_resolves_with_view_contains(
    iv: Seq<Entry>,
    v: Seq<(RDrv, UDrvOutput, ContentHash)>,
    t: (RDrv, UDrvOutput, ContentHash),
)
    requires
        v.contains(t),
    ensures
        resolves_with_view(iv, v).contains(resolves_with_str(iv, t)),
{
    lemma_resolves_with_view_members(iv, v);
    let j = choose|j: int| 0 <= j < v.len() && v[j] == t;
    assert(resolves_with_str(iv, #[trigger] v[j]) == resolves_with_str(iv, t));
}

proof fn lemma_claims_view_push(iv: Seq<Entry>, v: Seq<Att>, t: Att)
    ensures
        claims_view(iv, v.push(t)) == claims_view(iv, v).insert(att_str(iv, t)),
{
    lemma_claims_view_members(iv, v);
    lemma_claims_view_members(iv, v.push(t));
    assert forall|x: (Seq<char>, Fact)|
        #[trigger] claims_view(iv, v.push(t)).contains(x) == (claims_view(iv, v).contains(x) || x
        == att_str(iv, t)) by {
        if claims_view(iv, v.push(t)).contains(x) {
            let j = choose|j: int|
                0 <= j < v.push(t).len() && att_str(iv, #[trigger] v.push(t)[j]) == x;
            if j < v.len() {
                assert(att_str(iv, v[j]) == x);
            }
        }
        if claims_view(iv, v).contains(x) {
            let j = choose|j: int| 0 <= j < v.len() && att_str(iv, #[trigger] v[j]) == x;
            assert(att_str(iv, v.push(t)[j]) == x);
        }
        if x == att_str(iv, t) {
            assert(att_str(iv, v.push(t)[v.len() as int]) == x);
        }
    }
    assert(claims_view(iv, v.push(t)) =~= claims_view(iv, v).insert(att_str(iv, t)));
}

proof fn lemma_claims_view_contains(iv: Seq<Entry>, v: Seq<Att>, t: Att)
    requires
        v.contains(t),
    ensures
        claims_view(iv, v).contains(att_str(iv, t)),
{
    lemma_claims_view_members(iv, v);
    let j = choose|j: int| 0 <= j < v.len() && v[j] == t;
    assert(att_str(iv, #[trigger] v[j]) == att_str(iv, t));
}

// ---------------------------------------------------------------------
// Row-table lemmas
// ---------------------------------------------------------------------

/// No two rows configure the same name.
pub open spec fn row_names_distinct(iv: Seq<Entry>, v: Seq<TmRowRec>) -> bool {
    forall|i: int, j: int|
        0 <= i < j < v.len() ==> #[trigger] row_text(iv, v, i) != #[trigger] row_text(iv, v, j)
}

/// Two interner states that agree on every id a row table uses give the
/// same row view.
proof fn lemma_rows_view_congruent(iv1: Seq<Entry>, iv2: Seq<Entry>, v: Seq<TmRowRec>)
    requires
        row_names_distinct(iv1, v),
        forall|j: int| 0 <= j < v.len() ==> #[trigger] row_text(iv1, v, j) == row_text(iv2, v, j),
        forall|j: int| 0 <= j < v.len() ==> #[trigger] row_str(iv1, v[j]) == row_str(iv2, v[j]),
    ensures
        rows_view(iv1, v) == rows_view(iv2, v),
{
    let m1 = rows_view(iv1, v);
    let m2 = rows_view(iv2, v);
    assert forall|t: Seq<char>| m1.dom().contains(t) == m2.dom().contains(t) by {
        if m1.dom().contains(t) {
            let j = choose|j: int| 0 <= j < v.len() && #[trigger] row_text(iv1, v, j) == t;
            assert(row_text(iv2, v, j) == t);
        }
        if m2.dom().contains(t) {
            let j = choose|j: int| 0 <= j < v.len() && #[trigger] row_text(iv2, v, j) == t;
            assert(row_text(iv1, v, j) == t);
        }
    }
    assert forall|t: Seq<char>| #[trigger] m1.dom().contains(t) implies m1[t] == m2[t] by {
        let j1 = choose|j: int| 0 <= j < v.len() && #[trigger] row_text(iv1, v, j) == t;
        let j2 = choose|j: int| 0 <= j < v.len() && #[trigger] row_text(iv2, v, j) == t;
        assert(row_text(iv1, v, j2) == t);
        if j1 != j2 {
            assert(row_text(iv1, v, j1) != row_text(iv1, v, j2));
        }
        assert(m1[t] == row_str(iv1, v[j1]));
        assert(m2[t] == row_str(iv2, v[j2]));
    }
    assert(m1 =~= m2);
}

/// Appending a row for a name not yet configured inserts that name.
proof fn lemma_rows_view_push(iv: Seq<Entry>, v: Seq<TmRowRec>, rec: TmRowRec)
    requires
        row_names_distinct(iv, v),
        forall|j: int| 0 <= j < v.len() ==> #[trigger] row_text(iv, v, j) != txt(
            iv,
            rec.tm.0 as int,
        ),
    ensures
        rows_view(iv, v.push(rec)) == rows_view(iv, v).insert(
            txt(iv, rec.tm.0 as int),
            row_str(iv, rec),
        ),
{
    let v2 = v.push(rec);
    let name = txt(iv, rec.tm.0 as int);
    let m1 = rows_view(iv, v2);
    let m2 = rows_view(iv, v).insert(name, row_str(iv, rec));
    assert forall|j: int| 0 <= j < v.len() implies #[trigger] row_text(iv, v2, j) == row_text(
        iv,
        v,
        j,
    ) by {}
    assert(row_text(iv, v2, v.len() as int) == name);
    assert forall|t: Seq<char>| m1.dom().contains(t) == m2.dom().contains(t) by {
        if m1.dom().contains(t) {
            let j = choose|j: int| 0 <= j < v2.len() && #[trigger] row_text(iv, v2, j) == t;
            if j < v.len() {
                assert(row_text(iv, v, j) == t);
            }
        }
        if m2.dom().contains(t) && t != name {
            let j = choose|j: int| 0 <= j < v.len() && #[trigger] row_text(iv, v, j) == t;
            assert(row_text(iv, v2, j) == t);
        }
    }
    assert forall|t: Seq<char>| #[trigger] m1.dom().contains(t) implies m1[t] == m2[t] by {
        let j1 = choose|j: int| 0 <= j < v2.len() && #[trigger] row_text(iv, v2, j) == t;
        if t == name {
            if j1 < v.len() {
                assert(row_text(iv, v, j1) == name);
            }
            assert(j1 == v.len() as int);
            assert(m1[t] == row_str(iv, rec));
        } else {
            assert(j1 < v.len());
            assert(row_text(iv, v, j1) == t);
            let j2 = choose|j: int| 0 <= j < v.len() && #[trigger] row_text(iv, v, j) == t;
            if j1 != j2 {
                assert(row_text(iv, v, j1) != row_text(iv, v, j2));
            }
            assert(m1[t] == row_str(iv, v2[j1]));
            assert(m2[t] == row_str(iv, v[j2]));
        }
    }
    assert(m1 =~= m2);
}

// ---------------------------------------------------------------------
// Executable membership checks
// ---------------------------------------------------------------------

fn contains_fod(v: &Vec<(UDrv, ContentHash)>, t: (UDrv, ContentHash)) -> (r: bool)
    ensures
        r == v@.contains(t),
{
    let n = v.len();
    let mut i: usize = 0;
    while i < n
        invariant
            n == v@.len(),
            i <= n,
            forall|j: int| 0 <= j < i ==> v@[j] != t,
        decreases n - i,
    {
        if v[i].0 == t.0 && v[i].1 == t.1 {
            return true;
        }
        i = i + 1;
    }
    false
}

fn contains_uo(v: &Vec<(UDrv, UDrvOutput)>, t: (UDrv, UDrvOutput)) -> (r: bool)
    ensures
        r == v@.contains(t),
{
    let n = v.len();
    let mut i: usize = 0;
    while i < n
        invariant
            n == v@.len(),
            i <= n,
            forall|j: int| 0 <= j < i ==> v@[j] != t,
        decreases n - i,
    {
        if v[i].0 == t.0 && v[i].1 == t.1 {
            return true;
        }
        i = i + 1;
    }
    false
}

fn contains_ru(v: &Vec<(RDrv, UDrv)>, t: (RDrv, UDrv)) -> (r: bool)
    ensures
        r == v@.contains(t),
{
    let n = v.len();
    let mut i: usize = 0;
    while i < n
        invariant
            n == v@.len(),
            i <= n,
            forall|j: int| 0 <= j < i ==> v@[j] != t,
        decreases n - i,
    {
        if v[i].0 == t.0 && v[i].1 == t.1 {
            return true;
        }
        i = i + 1;
    }
    false
}

fn contains_rwt(v: &Vec<(RDrv, UDrvOutput, ContentHash)>, t: (RDrv, UDrvOutput, ContentHash)) -> (r:
    bool)
    ensures
        r == v@.contains(t),
{
    let n = v.len();
    let mut i: usize = 0;
    while i < n
        invariant
            n == v@.len(),
            i <= n,
            forall|j: int| 0 <= j < i ==> v@[j] != t,
        decreases n - i,
    {
        if v[i].0 == t.0 && v[i].1 == t.1 && v[i].2 == t.2 {
            return true;
        }
        i = i + 1;
    }
    false
}

/// Updating a row in place, keeping its trust element, re-states that
/// element's name in the row view.
proof fn lemma_rows_view_update(iv: Seq<Entry>, v: Seq<TmRowRec>, j: int, rec: TmRowRec)
    requires
        row_names_distinct(iv, v),
        0 <= j < v.len(),
        rec.tm == v[j].tm,
    ensures
        rows_view(iv, v.update(j, rec)) == rows_view(iv, v).insert(
            row_text(iv, v, j),
            row_str(iv, rec),
        ),
{
    let v2 = v.update(j, rec);
    let name = row_text(iv, v, j);
    let m1 = rows_view(iv, v2);
    let m2 = rows_view(iv, v).insert(name, row_str(iv, rec));
    assert forall|k: int| 0 <= k < v.len() implies #[trigger] row_text(iv, v2, k) == row_text(
        iv,
        v,
        k,
    ) by {}
    assert forall|t: Seq<char>| m1.dom().contains(t) == m2.dom().contains(t) by {
        if m1.dom().contains(t) {
            let k = choose|k: int| 0 <= k < v2.len() && #[trigger] row_text(iv, v2, k) == t;
            assert(row_text(iv, v, k) == t);
        }
        if m2.dom().contains(t) {
            if t == name {
                assert(row_text(iv, v2, j) == t);
            } else {
                let k = choose|k: int| 0 <= k < v.len() && #[trigger] row_text(iv, v, k) == t;
                assert(row_text(iv, v2, k) == t);
            }
        }
    }
    assert forall|t: Seq<char>| #[trigger] m1.dom().contains(t) implies m1[t] == m2[t] by {
        let k1 = choose|k: int| 0 <= k < v2.len() && #[trigger] row_text(iv, v2, k) == t;
        if t == name {
            if k1 != j {
                assert(row_text(iv, v, k1) != row_text(iv, v, j));
            }
            assert(m1[t] == row_str(iv, rec));
        } else {
            assert(k1 != j);
            assert(row_text(iv, v, k1) == t);
            let k2 = choose|k: int| 0 <= k < v.len() && #[trigger] row_text(iv, v, k) == t;
            if k1 != k2 {
                assert(row_text(iv, v, k1) != row_text(iv, v, k2));
            }
            assert(m1[t] == row_str(iv, v2[k1]));
            assert(m2[t] == row_str(iv, v[k2]));
        }
    }
    assert(m1 =~= m2);
}

/// The index of the row configuring trust element `tm`, if any.
fn find_row(rows: &Vec<TmRowRec>, tm: TrustModel) -> (r: Option<usize>)
    ensures
        match r {
            Some(i) => i < rows@.len() && rows@[i as int].tm == tm,
            None => forall|j: int| 0 <= j < rows@.len() ==> (#[trigger] rows@[j]).tm != tm,
        },
{
    let n = rows.len();
    let mut i: usize = 0;
    while i < n
        invariant
            n == rows@.len(),
            i <= n,
            forall|j: int| 0 <= j < i ==> (#[trigger] rows@[j]).tm != tm,
        decreases n - i,
    {
        if rows[i].tm == tm {
            return Some(i);
        }
        i = i + 1;
    }
    None
}

/// The names of a list of strings.
pub open spec fn string_views(v: Seq<String>) -> Seq<Seq<char>> {
    v.map_values(|s: String| s@)
}

/// Taking one more element appends it, for membership and set purposes.
proof fn lemma_take_succ<A>(v: Seq<A>, i: int)
    requires
        0 <= i < v.len(),
    ensures
        v.take(i + 1) == v.take(i).push(v[i]),
        forall|t: A| #[trigger] v.take(i + 1).contains(t) == (v.take(i).contains(t) || t == v[i]),
        v.take(i + 1).to_set() == v.take(i).to_set().insert(v[i]),
{
    assert(v.take(i + 1) =~= v.take(i).push(v[i]));
    assert forall|t: A| #[trigger] v.take(i + 1).contains(t) == (v.take(i).contains(t) || t
        == v[i]) by {
        if v.take(i + 1).contains(t) {
            let j = choose|j: int| 0 <= j < v.take(i + 1).len() && #[trigger] v.take(i + 1)[j] == t;
            if j < i {
                assert(v.take(i)[j] == t);
            }
        }
        if v.take(i).contains(t) {
            let j = choose|j: int| 0 <= j < v.take(i).len() && #[trigger] v.take(i)[j] == t;
            assert(v.take(i + 1)[j] == t);
        }
        if t == v[i] {
            assert(v.take(i + 1)[i] == t);
        }
    }
    assert(v.take(i + 1).to_set() =~= v.take(i).to_set().insert(v[i]));
}

/// The names of a list of string pairs.
pub open spec fn pair_views(v: Seq<(String, String)>) -> Seq<(Seq<char>, Seq<char>)> {
    v.map_values(|p: (String, String)| (p.0@, p.1@))
}

/// One interned resolution pair advances the partial resolved update by
/// one element.
proof fn lemma_resolved_step(
    m0: Model,
    udrv: Seq<char>,
    rdrv: Seq<char>,
    pviews: Seq<(Seq<char>, Seq<char>)>,
    i: int,
)
    requires
        0 <= i < pviews.len(),
    ensures
        ({
            let mp = apply_op(m0, Op::AddResolved { udrv, rdrv, pairs: pviews.take(i) });
            let mn = apply_op(m0, Op::AddResolved { udrv, rdrv, pairs: pviews.take(i + 1) });
            mn == (Model {
                output_names: mp.output_names.insert(pviews[i].0),
                hash_names: mp.hash_names.insert(pviews[i].1),
                resolves_with: mp.resolves_with.insert((rdrv, pviews[i].0, pviews[i].1)),
                ..mp
            })
        }),
{
    lemma_take_succ(pviews, i);
    let mp = apply_op(m0, Op::AddResolved { udrv, rdrv, pairs: pviews.take(i) });
    let mn = apply_op(m0, Op::AddResolved { udrv, rdrv, pairs: pviews.take(i + 1) });
    assert forall|s: Seq<char>| mn.output_names.contains(s) == mp.output_names.insert(
        pviews[i].0,
    ).contains(s) by {
        if exists|k: int|
            0 <= k < pviews.take(i + 1).len() && (#[trigger] pviews.take(i + 1)[k]).0 == s {
            let k = choose|k: int|
                0 <= k < pviews.take(i + 1).len() && (#[trigger] pviews.take(i + 1)[k]).0 == s;
            if k < i {
                assert(pviews.take(i)[k].0 == s);
            }
        }
        if exists|k: int| 0 <= k < pviews.take(i).len() && (#[trigger] pviews.take(i)[k]).0 == s {
            let k = choose|k: int|
                0 <= k < pviews.take(i).len() && (#[trigger] pviews.take(i)[k]).0 == s;
            assert(pviews.take(i + 1)[k].0 == s);
        }
        if s == pviews[i].0 {
            assert(pviews.take(i + 1)[i].0 == s);
        }
    }
    assert(mn.output_names =~= mp.output_names.insert(pviews[i].0));
    assert forall|s: Seq<char>| mn.hash_names.contains(s) == mp.hash_names.insert(
        pviews[i].1,
    ).contains(s) by {
        if exists|k: int|
            0 <= k < pviews.take(i + 1).len() && (#[trigger] pviews.take(i + 1)[k]).1 == s {
            let k = choose|k: int|
                0 <= k < pviews.take(i + 1).len() && (#[trigger] pviews.take(i + 1)[k]).1 == s;
            if k < i {
                assert(pviews.take(i)[k].1 == s);
            }
        }
        if exists|k: int| 0 <= k < pviews.take(i).len() && (#[trigger] pviews.take(i)[k]).1 == s {
            let k = choose|k: int|
                0 <= k < pviews.take(i).len() && (#[trigger] pviews.take(i)[k]).1 == s;
            assert(pviews.take(i + 1)[k].1 == s);
        }
        if s == pviews[i].1 {
            assert(pviews.take(i + 1)[i].1 == s);
        }
    }
    assert(mn.hash_names =~= mp.hash_names.insert(pviews[i].1));
    assert(mn.resolves_with =~= mp.resolves_with.insert((rdrv, pviews[i].0, pviews[i].1)));
    assert(mn =~= (Model {
        output_names: mp.output_names.insert(pviews[i].0),
        hash_names: mp.hash_names.insert(pviews[i].1),
        resolves_with: mp.resolves_with.insert((rdrv, pviews[i].0, pviews[i].1)),
        ..mp
    }));
}

/// One interned claim pair advances the partial claim update by one
/// element.
proof fn lemma_claim_step(
    m0: Model,
    rdrv: Seq<char>,
    tm: Seq<char>,
    pviews: Seq<(Seq<char>, Seq<char>)>,
    i: int,
)
    requires
        0 <= i < pviews.len(),
    ensures
        ({
            let mp = apply_op(m0, Op::AddClaim { rdrv, pairs: pviews.take(i), tm });
            let mn = apply_op(m0, Op::AddClaim { rdrv, pairs: pviews.take(i + 1), tm });
            mn == (Model {
                output_names: mp.output_names.insert(pviews[i].0),
                hash_names: mp.hash_names.insert(pviews[i].1),
                claims: mp.claims.insert(
                    (tm, Fact { rdrv, hash: pviews[i].1, output: pviews[i].0 }),
                ),
                ..mp
            })
        }),
{
    lemma_take_succ(pviews, i);
    let mp = apply_op(m0, Op::AddClaim { rdrv, pairs: pviews.take(i), tm });
    let mn = apply_op(m0, Op::AddClaim { rdrv, pairs: pviews.take(i + 1), tm });
    assert forall|s: Seq<char>| mn.output_names.contains(s) == mp.output_names.insert(
        pviews[i].0,
    ).contains(s) by {
        if exists|k: int|
            0 <= k < pviews.take(i + 1).len() && (#[trigger] pviews.take(i + 1)[k]).0 == s {
            let k = choose|k: int|
                0 <= k < pviews.take(i + 1).len() && (#[trigger] pviews.take(i + 1)[k]).0 == s;
            if k < i {
                assert(pviews.take(i)[k].0 == s);
            }
        }
        if exists|k: int| 0 <= k < pviews.take(i).len() && (#[trigger] pviews.take(i)[k]).0 == s {
            let k = choose|k: int|
                0 <= k < pviews.take(i).len() && (#[trigger] pviews.take(i)[k]).0 == s;
            assert(pviews.take(i + 1)[k].0 == s);
        }
        if s == pviews[i].0 {
            assert(pviews.take(i + 1)[i].0 == s);
        }
    }
    assert(mn.output_names =~= mp.output_names.insert(pviews[i].0));
    assert forall|s: Seq<char>| mn.hash_names.contains(s) == mp.hash_names.insert(
        pviews[i].1,
    ).contains(s) by {
        if exists|k: int|
            0 <= k < pviews.take(i + 1).len() && (#[trigger] pviews.take(i + 1)[k]).1 == s {
            let k = choose|k: int|
                0 <= k < pviews.take(i + 1).len() && (#[trigger] pviews.take(i + 1)[k]).1 == s;
            if k < i {
                assert(pviews.take(i)[k].1 == s);
            }
        }
        if exists|k: int| 0 <= k < pviews.take(i).len() && (#[trigger] pviews.take(i)[k]).1 == s {
            let k = choose|k: int|
                0 <= k < pviews.take(i).len() && (#[trigger] pviews.take(i)[k]).1 == s;
            assert(pviews.take(i + 1)[k].1 == s);
        }
        if s == pviews[i].1 {
            assert(pviews.take(i + 1)[i].1 == s);
        }
    }
    assert(mn.hash_names =~= mp.hash_names.insert(pviews[i].1));
    assert(mn.claims =~= mp.claims.insert(
        (tm, Fact { rdrv, hash: pviews[i].1, output: pviews[i].0 }),
    ));
    assert(mn =~= (Model {
        output_names: mp.output_names.insert(pviews[i].0),
        hash_names: mp.hash_names.insert(pviews[i].1),
        claims: mp.claims.insert((tm, Fact { rdrv, hash: pviews[i].1, output: pviews[i].0 })),
        ..mp
    }));
}

/// The row table a constructor builds, after the first `i` keys.
spec fn target_rows(kviews: Seq<Seq<char>>, threshold: nat, i: int) -> Map<Seq<char>, TmRow> {
    Map::new(
        |t: Seq<char>| t == default_tm_name() || kviews.take(i).contains(t),
        |t: Seq<char>|
            if t == default_tm_name() {
                TmRow { threshold, is_key: false, parent: None }
            } else {
                TmRow { threshold: 1, is_key: true, parent: Some(default_tm_name()) }
            },
    )
}

/// One interned dependency advances the partial unresolved update by
/// one element.
proof fn lemma_unres_dep_step(
    m0: Model,
    udrv: Seq<char>,
    dviews: Seq<Seq<char>>,
    oviews: Seq<Seq<char>>,
    i: int,
)
    requires
        0 <= i < dviews.len(),
    ensures
        ({
            let mp = apply_op(
                m0,
                Op::AddUnresolved { udrv, deps: dviews.take(i), outputs: oviews.take(0) },
            );
            let mn = apply_op(
                m0,
                Op::AddUnresolved { udrv, deps: dviews.take(i + 1), outputs: oviews.take(0) },
            );
            mn == (Model {
                output_names: mp.output_names.insert(dviews[i]),
                depends_on: mp.depends_on.insert((udrv, dviews[i])),
                ..mp
            })
        }),
{
    lemma_take_succ(dviews, i);
    let mp = apply_op(
        m0,
        Op::AddUnresolved { udrv, deps: dviews.take(i), outputs: oviews.take(0) },
    );
    let mn = apply_op(
        m0,
        Op::AddUnresolved { udrv, deps: dviews.take(i + 1), outputs: oviews.take(0) },
    );
    assert(mn.output_names =~= mp.output_names.insert(dviews[i]));
    assert(mn.depends_on =~= mp.depends_on.insert((udrv, dviews[i])));
    assert(mn =~= (Model {
        output_names: mp.output_names.insert(dviews[i]),
        depends_on: mp.depends_on.insert((udrv, dviews[i])),
        ..mp
    }));
}

/// One interned declared output advances the partial unresolved update
/// by one element.
proof fn lemma_unres_out_step(
    m0: Model,
    udrv: Seq<char>,
    dviews: Seq<Seq<char>>,
    oviews: Seq<Seq<char>>,
    i: int,
)
    requires
        0 <= i < oviews.len(),
    ensures
        ({
            let mp = apply_op(
                m0,
                Op::AddUnresolved { udrv, deps: dviews, outputs: oviews.take(i) },
            );
            let mn = apply_op(
                m0,
                Op::AddUnresolved { udrv, deps: dviews, outputs: oviews.take(i + 1) },
            );
            mn == (Model {
                output_names: mp.output_names.insert(oviews[i]),
                has_output: mp.has_output.insert((udrv, oviews[i])),
                ..mp
            })
        }),
{
    lemma_take_succ(oviews, i);
    let mp = apply_op(m0, Op::AddUnresolved { udrv, deps: dviews, outputs: oviews.take(i) });
    let mn = apply_op(m0, Op::AddUnresolved { udrv, deps: dviews, outputs: oviews.take(i + 1) });
    assert(mn.output_names =~= mp.output_names.insert(oviews[i]));
    assert(mn.has_output =~= mp.has_output.insert((udrv, oviews[i])));
    assert(mn =~= (Model {
        output_names: mp.output_names.insert(oviews[i]),
        has_output: mp.has_output.insert((udrv, oviews[i])),
        ..mp
    }));
}

impl TrustModelReasoner {
    /// Growing the interner leaves every relation view, the row view and
    /// the root name unchanged, as long as the relations are unchanged.
    proof fn lemma_frame_extend(pre: TrustModelReasoner, cur: TrustModelReasoner)
        requires
            pre.wf(),
            iv_extends(pre.interner@, cur.interner@),
            cur.fods@ == pre.fods@,
            cur.has_output@ == pre.has_output@,
            cur.depends_on@ == pre.depends_on@,
            cur.resolves@ == pre.resolves@,
            cur.resolves_with@ == pre.resolves_with@,
            cur.claims@ == pre.claims@,
            cur.tm_rows@ == pre.tm_rows@,
            cur.expected_root == pre.expected_root,
            cur.default_tm == pre.default_tm,
            cur.completed == pre.completed,
        ensures
            cur@ == (Model {
                udrv_names: cur@.udrv_names,
                rdrv_names: cur@.rdrv_names,
                tm_names: cur@.tm_names,
                hash_names: cur@.hash_names,
                output_names: cur@.output_names,
                ..pre@
            }),
            cur.ids_ok(),
            cur.rels_distinct(),
            cur.rows_ok(),
    {
        let iv0 = pre.interner@;
        let iv1 = cur.interner@;
        lemma_fods_view_members(iv0, pre.fods@);
        lemma_fods_view_members(iv1, pre.fods@);
        assert forall|j: int| 0 <= j < pre.fods@.len() implies fod_str(iv1, #[trigger] pre.fods@[j])
            == fod_str(iv0, pre.fods@[j]) by {}
        assert(cur@.fods =~= pre@.fods);
        lemma_has_output_view_members(iv0, pre.has_output@);
        lemma_has_output_view_members(iv1, pre.has_output@);
        assert forall|j: int| 0 <= j < pre.has_output@.len() implies has_output_str(
            iv1,
            #[trigger] pre.has_output@[j],
        ) == has_output_str(iv0, pre.has_output@[j]) by {}
        assert(cur@.has_output =~= pre@.has_output);
        lemma_has_output_view_members(iv0, pre.depends_on@);
        lemma_has_output_view_members(iv1, pre.depends_on@);
        assert forall|j: int| 0 <= j < pre.depends_on@.len() implies has_output_str(
            iv1,
            #[trigger] pre.depends_on@[j],
        ) == has_output_str(iv0, pre.depends_on@[j]) by {}
        assert(cur@.depends_on =~= pre@.depends_on);
        lemma_resolves_view_members(iv0, pre.resolves@);
        lemma_resolves_view_members(iv1, pre.resolves@);
        assert forall|j: int| 0 <= j < pre.resolves@.len() implies resolves_str(
            iv1,
            #[trigger] pre.resolves@[j],
        ) == resolves_str(iv0, pre.resolves@[j]) by {}
        assert(cur@.resolves =~= pre@.resolves);
        lemma_resolves_with_view_members(iv0, pre.resolves_with@);
        lemma_resolves_with_view_members(iv1, pre.resolves_with@);
        assert forall|j: int| 0 <= j < pre.resolves_with@.len() implies resolves_with_str(
            iv1,
            #[trigger] pre.resolves_with@[j],
        ) == resolves_with_str(iv0, pre.resolves_with@[j]) by {}
        assert(cur@.resolves_with =~= pre@.resolves_with);
        lemma_claims_view_members(iv0, pre.claims@);
        lemma_claims_view_members(iv1, pre.claims@);
        assert forall|j: int| 0 <= j < pre.claims@.len() implies att_str(
            iv1,
            #[trigger] pre.claims@[j],
        ) == att_str(iv0, pre.claims@[j]) by {}
        assert(cur@.claims =~= pre@.claims);
        assert(row_names_distinct(iv0, pre.tm_rows@)) by {
            assert forall|i2: int, j2: int| 0 <= i2 < j2 < pre.tm_rows@.len() implies
                #[trigger] row_text(iv0, pre.tm_rows@, i2) != #[trigger] row_text(
                iv0,
                pre.tm_rows@,
                j2,
            ) by {
                lemma_txt_inj_contra(
                    iv0,
                    pre.tm_rows@[i2].tm.0 as int,
                    pre.tm_rows@[j2].tm.0 as int,
                );
            }
        }
        assert forall|j: int| 0 <= j < pre.tm_rows@.len() implies #[trigger] row_text(
            iv0,
            pre.tm_rows@,
            j,
        ) == row_text(iv1, pre.tm_rows@, j) by {}
        assert forall|j: int| 0 <= j < pre.tm_rows@.len() implies #[trigger] row_str(
            iv0,
            pre.tm_rows@[j],
        ) == row_str(iv1, pre.tm_rows@[j]) by {}
        lemma_rows_view_congruent(iv0, iv1, pre.tm_rows@);
        assert(cur@.rows == pre@.rows);
        assert(cur@.root == pre@.root);
    }

    /// Everything but the interner is unchanged.
    spec fn same_but_interner(pre: TrustModelReasoner, cur: TrustModelReasoner) -> bool {
        &&& cur.fods@ == pre.fods@
        &&& cur.has_output@ == pre.has_output@
        &&& cur.depends_on@ == pre.depends_on@
        &&& cur.resolves@ == pre.resolves@
        &&& cur.resolves_with@ == pre.resolves_with@
        &&& cur.claims@ == pre.claims@
        &&& cur.tm_rows@ == pre.tm_rows@
        &&& cur.expected_root == pre.expected_root
        &&& cur.default_tm == pre.default_tm
        &&& cur.completed == pre.completed
    }

    /// Intern a name under `cat`, known not to clash; only the matching
    /// name set of the model changes.
    fn intern_as(&mut self, s: &str, cat: Category) -> (r: usize)
        requires
            old(self).wf(),
            !intern_refused(old(self).interner@, s@, cat),
        ensures
            final(self).wf(),
            Self::same_but_interner(*old(self), *final(self)),
            iv_extends(old(self).interner@, final(self).interner@),
            final(self).interner@.len() <= old(self).interner@.len() + 1,
            final(self).interner@.len() == old(self).interner@.len() + 1 ==> (final(self).interner@[old(self).interner@.len() as int] == Entry { text: s@, cat: cat }),
            r < final(self).interner@.len(),
            final(self).interner@[r as int] == (Entry { text: s@, cat }),
            cat == Category::Udrv ==> final(self)@ == (Model {
                udrv_names: old(self)@.udrv_names.insert(s@),
                ..old(self)@
            }),
            cat == Category::Rdrv ==> final(self)@ == (Model {
                rdrv_names: old(self)@.rdrv_names.insert(s@),
                ..old(self)@
            }),
            cat == Category::TrustModel ==> final(self)@ == (Model {
                tm_names: old(self)@.tm_names.insert(s@),
                ..old(self)@
            }),
            cat == Category::ContentHash ==> final(self)@ == (Model {
                hash_names: old(self)@.hash_names.insert(s@),
                ..old(self)@
            }),
            cat == Category::Output ==> final(self)@ == (Model {
                output_names: old(self)@.output_names.insert(s@),
                ..old(self)@
            }),
    {
        let ghost pre = *self;
        let o = self.interner.intern_pub(s, cat);
        let id = match o {
            Some(id) => id,
            None => {
                proof {
                    assert(false);
                }
                0
            },
        };
        proof {
            if !has_text(pre.interner@, s@) {
                assert(self.interner@ == pre.interner@.push(Entry { text: s@, cat }));
                lemma_cat_names_push(pre.interner@, Entry { text: s@, cat });
            }
            assert(iv_extends(pre.interner@, self.interner@));
            Self::lemma_frame_extend(pre, *self);
            if has_text(pre.interner@, s@) {
                assert(has_entry(pre.interner@, s@, cat));
                assert(cat_names(self.interner@, cat) =~= cat_names(pre.interner@, cat).insert(
                    s@,
                ));
            } else {
                assert(cat_names(self.interner@, cat) =~= cat_names(pre.interner@, cat).insert(
                    s@,
                ));
            }
            if cat == Category::Udrv {
                assert(self@ =~= (Model { udrv_names: pre@.udrv_names.insert(s@), ..pre@ }));
            }
            if cat == Category::Rdrv {
                assert(self@ =~= (Model { rdrv_names: pre@.rdrv_names.insert(s@), ..pre@ }));
            }
            if cat == Category::TrustModel {
                assert(self@ =~= (Model { tm_names: pre@.tm_names.insert(s@), ..pre@ }));
            }
            if cat == Category::ContentHash {
                assert(self@ =~= (Model { hash_names: pre@.hash_names.insert(s@), ..pre@ }));
            }
            if cat == Category::Output {
                assert(self@ =~= (Model { output_names: pre@.output_names.insert(s@), ..pre@ }));
            }
        }
        id
    }

    /// Record a fixed-output declaration, coalescing duplicates.
    fn push_fod(&mut self, t: (UDrv, ContentHash))
        requires
            old(self).wf(),
            udrv_ok(old(self).interner@, t.0),
            hash_ok(old(self).interner@, t.1),
        ensures
            final(self).wf(),
            final(self).interner@ == old(self).interner@,
            final(self)@ == (Model {
                fods: old(self)@.fods.insert(fod_str(old(self).interner@, t)),
                ..old(self)@
            }),
    {
        let ghost pre = *self;
        if !contains_fod(&self.fods, t) {
            self.fods.push(t);
            proof {
                lemma_fods_view_push(pre.interner@, pre.fods@, t);
                assert(self@ =~= (Model {
                    fods: pre@.fods.insert(fod_str(pre.interner@, t)),
                    ..pre@
                }));
                assert(self.fods@.no_duplicates());
                assert(self.wf());
            }
        } else {
            proof {
                lemma_fods_view_contains(pre.interner@, pre.fods@, t);
                assert(self@ =~= (Model {
                    fods: pre@.fods.insert(fod_str(pre.interner@, t)),
                    ..pre@
                }));
            }
        }
    }

    /// Record a declared output, coalescing duplicates.
    fn push_has_output(&mut self, t: (UDrv, UDrvOutput))
        requires
            old(self).wf(),
            udrv_ok(old(self).interner@, t.0),
            out_ok(old(self).interner@, t.1),
        ensures
            final(self).wf(),
            final(self).interner@ == old(self).interner@,
            final(self)@ == (Model {
                has_output: old(self)@.has_output.insert(has_output_str(old(self).interner@, t)),
                ..old(self)@
            }),
    {
        let ghost pre = *self;
        if !contains_uo(&self.has_output, t) {
            self.has_output.push(t);
            proof {
                lemma_has_output_view_push(pre.interner@, pre.has_output@, t);
                assert(self@ =~= (Model {
                    has_output: pre@.has_output.insert(has_output_str(pre.interner@, t)),
                    ..pre@
                }));
                assert(self.has_output@.no_duplicates());
                assert(self.wf());
            }
        } else {
            proof {
                lemma_has_output_view_contains(pre.interner@, pre.has_output@, t);
                assert(self@ =~= (Model {
                    has_output: pre@.has_output.insert(has_output_str(pre.interner@, t)),
                    ..pre@
                }));
            }
        }
    }

    /// Record a dependency edge, coalescing duplicates.
    fn push_depends_on(&mut self, t: (UDrv, UDrvOutput))
        requires
            old(self).wf(),
            udrv_ok(old(self).interner@, t.0),
            out_ok(old(self).interner@, t.1),
        ensures
            final(self).wf(),
            final(self).interner@ == old(self).interner@,
            final(self)@ == (Model {
                depends_on: old(self)@.depends_on.insert(has_output_str(old(self).interner@, t)),
                ..old(self)@
            }),
    {
        let ghost pre = *self;
        if !contains_uo(&self.depends_on, t) {
            self.depends_on.push(t);
            proof {
                lemma_has_output_view_push(pre.interner@, pre.depends_on@, t);
                assert(self@ =~= (Model {
                    depends_on: pre@.depends_on.insert(has_output_str(pre.interner@, t)),
                    ..pre@
                }));
                assert(self.depends_on@.no_duplicates());
                assert(self.wf());
            }
        } else {
            proof {
                lemma_has_output_view_contains(pre.interner@, pre.depends_on@, t);
                assert(self@ =~= (Model {
                    depends_on: pre@.depends_on.insert(has_output_str(pre.interner@, t)),
                    ..pre@
                }));
            }
        }
    }

    /// Record a resolution, coalescing duplicates.
    fn push_resolves(&mut self, t: (RDrv, UDrv))
        requires
            old(self).wf(),
            rdrv_ok(old(self).interner@, t.0),
            udrv_ok(old(self).interner@, t.1),
        ensures
            final(self).wf(),
            final(self).interner@ == old(self).interner@,
            final(self)@ == (Model {
                resolves: old(self)@.resolves.insert(resolves_str(old(self).interner@, t)),
                ..old(self)@
            }),
    {
        let ghost pre = *self;
        if !contains_ru(&self.resolves, t) {
            self.resolves.push(t);
            proof {
                lemma_resolves_view_push(pre.interner@, pre.resolves@, t);
                assert(self@ =~= (Model {
                    resolves: pre@.resolves.insert(resolves_str(pre.interner@, t)),
                    ..pre@
                }));
                assert(self.resolves@.no_duplicates());
                assert(self.wf());
            }
        } else {
            proof {
                lemma_resolves_view_contains(pre.interner@, pre.resolves@, t);
                assert(self@ =~= (Model {
                    resolves: pre@.resolves.insert(resolves_str(pre.interner@, t)),
                    ..pre@
                }));
            }
        }
    }

    /// Record a resolution substitution, coalescing duplicates.
    fn push_resolves_with(&mut self, t: (RDrv, UDrvOutput, ContentHash))
        requires
            old(self).wf(),
            rdrv_ok(old(self).interner@, t.0),
            out_ok(old(self).interner@, t.1),
            hash_ok(old(self).interner@, t.2),
        ensures
            final(self).wf(),
            final(self).interner@ == old(self).interner@,
            final(self)@ == (Model {
                resolves_with: old(self)@.resolves_with.insert(
                    resolves_with_str(old(self).interner@, t),
                ),
                ..old(self)@
            }),
    {
        let ghost pre = *self;
        if !contains_rwt(&self.resolves_with, t) {
            self.resolves_with.push(t);
            proof {
                lemma_resolves_with_view_push(pre.interner@, pre.resolves_with@, t);
                assert(self@ =~= (Model {
                    resolves_with: pre@.resolves_with.insert(resolves_with_str(pre.interner@, t)),
                    ..pre@
                }));
                assert(self.resolves_with@.no_duplicates());
                assert(self.wf());
            }
        } else {
            proof {
                lemma_resolves_with_view_contains(pre.interner@, pre.resolves_with@, t);
                assert(self@ =~= (Model {
                    resolves_with: pre@.resolves_with.insert(resolves_with_str(pre.interner@, t)),
                    ..pre@
                }));
            }
        }
    }

    /// Record a signed claim, coalescing duplicates.
    fn push_claim(&mut self, t: Att)
        requires
            old(self).wf(),
            att_ok(old(self).interner@, t),
        ensures
            final(self).wf(),
            final(self).interner@ == old(self).interner@,
            final(self)@ == (Model {
                claims: old(self)@.claims.insert(att_str(old(self).interner@, t)),
                ..old(self)@
            }),
    {
        let ghost pre = *self;
        if !contains_att(&self.claims, t) {
            self.claims.push(t);
            proof {
                lemma_claims_view_push(pre.interner@, pre.claims@, t);
                assert(self@ =~= (Model {
                    claims: pre@.claims.insert(att_str(pre.interner@, t)),
                    ..pre@
                }));
                assert(self.claims@.no_duplicates());
                assert(self.wf());
            }
        } else {
            proof {
                lemma_claims_view_contains(pre.interner@, pre.claims@, t);
                assert(self@ =~= (Model {
                    claims: pre@.claims.insert(att_str(pre.interner@, t)),
                    ..pre@
                }));
            }
        }
    }

    /// Build a reasoner from the trusted keys, the agreement threshold,
    /// and the name of the expected root derivation.
    ///
    /// Configuration is refused — with `InvalidConfig` — when the key
    /// list is empty, the threshold is zero or exceeds the number of
    /// keys, or a key or the root reuses the reserved name of the
    /// default trust model (or a key equals the root name).
    pub fn new(trusted_keys: Vec<String>, threshold: usize, expected_root: String) -> (r: Result<
        TrustModelReasoner,
        ReasonerError,
    >)
        ensures
            match r {
                Ok(rz) => {
                    &&& rz.wf()
                    &&& new_ok(string_views(trusted_keys@), threshold as nat, expected_root@)
                    &&& rz@ == initial_model(
                        string_views(trusted_keys@),
                        threshold as nat,
                        expected_root@,
                    )
                },
                Err(e) => {
                    &&& e == ReasonerError::InvalidConfig
                    &&& !new_ok(string_views(trusted_keys@), threshold as nat, expected_root@)
                },
            },
    {
        let ghost kviews = string_views(trusted_keys@);
        let kn = trusted_keys.len();
        if kn == 0 || threshold == 0 || threshold > kn {
            return Err(ReasonerError::InvalidConfig);
        }
        let dname: String = "default_trust_model".to_owned();
        if expected_root == dname {
            return Err(ReasonerError::InvalidConfig);
        }
        let mut i: usize = 0;
        while i < kn
            invariant
                kn == trusted_keys@.len(),
                i <= kn,
                kviews == string_views(trusted_keys@),
                dname@ == default_tm_name(),
                forall|j: int|
                    0 <= j < i ==> #[trigger] kviews[j] != default_tm_name() && kviews[j]
                        != expected_root@,
            decreases kn - i,
        {
            if trusted_keys[i] == dname || trusted_keys[i] == expected_root {
                proof {
                    assert(kviews[i as int] == trusted_keys@[i as int]@);
                }
                return Err(ReasonerError::InvalidConfig);
            }
            proof {
                assert(kviews[i as int] == trusted_keys@[i as int]@);
            }
            i = i + 1;
        }
        proof {
            assert(new_ok(kviews, threshold as nat, expected_root@));
        }

        let mut interner = StringInterner::new();
        let dtm_opt = interner.trust_model(dname.as_str());
        let default_tm = match dtm_opt {
            Some(t) => t,
            None => {
                proof {
                    assert(false);
                }
                TrustModel(0)
            },
        };
        proof {
            assert(interner@ =~= Seq::<Entry>::empty().push(
                Entry { text: default_tm_name(), cat: Category::TrustModel },
            ));
        }

        let mut tm_rows: Vec<TmRowRec> = Vec::new();
        tm_rows.push(TmRowRec { tm: default_tm, threshold, is_key: false, parent: None });
        proof {
            assert(rows_view(interner@, tm_rows@) =~= target_rows(kviews, threshold as nat, 0)) by {
                let m1 = rows_view(interner@, tm_rows@);
                let m2 = target_rows(kviews, threshold as nat, 0);
                assert(row_text(interner@, tm_rows@, 0) == default_tm_name());
                assert forall|t: Seq<char>| m1.dom().contains(t) == m2.dom().contains(t) by {
                    if m1.dom().contains(t) {
                        let j = choose|j: int|
                            0 <= j < tm_rows@.len() && #[trigger] row_text(interner@, tm_rows@, j)
                                == t;
                        assert(j == 0);
                    }
                }
                assert forall|t: Seq<char>| #[trigger] m1.dom().contains(t) implies m1[t]
                    == m2[t] by {
                    let j = choose|j: int|
                        0 <= j < tm_rows@.len() && #[trigger] row_text(interner@, tm_rows@, j)
                            == t;
                    assert(j == 0);
                    assert(m1[t] == row_str(interner@, tm_rows@[0]));
                }
            }
            assert(cat_names(interner@, Category::TrustModel) =~= kviews.take(
                0,
            ).to_set().insert(default_tm_name())) by {
                assert(has_entry(interner@, default_tm_name(), Category::TrustModel)) by {
                    assert(interner@[0].text == default_tm_name());
                }
            }
        }

        let mut i: usize = 0;
        while i < kn
            invariant
                kn == trusted_keys@.len(),
                i <= kn,
                kviews == string_views(trusted_keys@),
                new_ok(kviews, threshold as nat, expected_root@),
                threshold >= 1,
                interner.wf(),
                interner@.len() >= 1,
                interner@[0] == (Entry { text: default_tm_name(), cat: Category::TrustModel }),
                default_tm.0 == 0,
                forall|e: int|
                    0 <= e < interner@.len() ==> (#[trigger] interner@[e]).cat
                        == Category::TrustModel,
                cat_names(interner@, Category::TrustModel) == kviews.take(i as int).to_set().insert(
                    default_tm_name(),
                ),
                tm_rows@.len() >= 1,
                tm_rows@[0] == (TmRowRec {
                    tm: default_tm,
                    threshold,
                    is_key: false,
                    parent: None,
                }),
                forall|j: int|
                    0 <= j < tm_rows@.len() ==> tm_ok(interner@, (#[trigger] tm_rows@[j]).tm),
                forall|i2: int, j2: int|
                    0 <= i2 < j2 < tm_rows@.len() ==> (#[trigger] tm_rows@[i2]).tm != (
                    #[trigger] tm_rows@[j2]).tm,
                forall|j: int|
                    1 <= j < tm_rows@.len() ==> #[trigger] tm_rows@[j] == (TmRowRec {
                        tm: tm_rows@[j].tm,
                        threshold: 1,
                        is_key: true,
                        parent: Some(default_tm),
                    }),
                rows_view(interner@, tm_rows@) == target_rows(kviews, threshold as nat, i as int),
            decreases kn - i,
        {
            let ghost pre_iv = interner@;
            let ghost pre_rows = tm_rows@;
            let k_opt = interner.trust_model(trusted_keys[i].as_str());
            let ghost key_text = trusted_keys@[i as int]@;
            proof {
                assert(kviews[i as int] == key_text);
                lemma_take_succ(kviews, i as int);
                if intern_refused(pre_iv, key_text, Category::TrustModel) {
                    let e = choose|e: int|
                        0 <= e < pre_iv.len() && #[trigger] pre_iv[e].text == key_text;
                    assert(has_entry(pre_iv, key_text, Category::TrustModel));
                }
            }
            let k = match k_opt {
                Some(t) => t,
                None => {
                    proof {
                        assert(false);
                    }
                    TrustModel(0)
                },
            };
            proof {
                assert(row_names_distinct(pre_iv, pre_rows)) by {
                    assert forall|i2: int, j2: int| 0 <= i2 < j2 < pre_rows.len() implies
                        #[trigger] row_text(pre_iv, pre_rows, i2) != #[trigger] row_text(
                        pre_iv,
                        pre_rows,
                        j2,
                    ) by {
                        lemma_txt_inj_contra(
                            pre_iv,
                            pre_rows[i2].tm.0 as int,
                            pre_rows[j2].tm.0 as int,
                        );
                    }
                }
                if !has_text(pre_iv, key_text) {
                    lemma_cat_names_push(
                        pre_iv,
                        Entry { text: key_text, cat: Category::TrustModel },
                    );
                }
                assert forall|j: int| 0 <= j < pre_rows.len() implies #[trigger] row_text(
                    pre_iv,
                    pre_rows,
                    j,
                ) == row_text(interner@, pre_rows, j) by {}
                assert forall|j: int| 0 <= j < pre_rows.len() implies #[trigger] row_str(
                    pre_iv,
                    pre_rows[j],
                ) == row_str(interner@, pre_rows[j]) by {}
                lemma_rows_view_congruent(pre_iv, interner@, pre_rows);
            }
            let row_i = find_row(&tm_rows, k);
            match row_i {
                Some(_) => {
                    proof {
                        if !has_text(pre_iv, key_text) {
                            let j = choose|j: int|
                                0 <= j < pre_rows.len() && (#[trigger] pre_rows[j]).tm == k;
                            assert(tm_ok(pre_iv, pre_rows[j].tm));
                            assert(false);
                        }
                        assert(interner@ == pre_iv);
                        assert(txt(pre_iv, k.0 as int) == key_text);
                        assert(kviews.take(i as int).to_set().contains(key_text)) by {
                            assert(cat_names(pre_iv, Category::TrustModel).contains(key_text)) by {
                                assert(has_entry(pre_iv, key_text, Category::TrustModel)) by {
                                    let e = choose|e: int|
                                        0 <= e < pre_iv.len() && #[trigger] pre_iv[e].text
                                            == key_text;
                                    assert(pre_iv[e].cat == Category::TrustModel);
                                }
                            }
                            assert(key_text != default_tm_name());
                        }
                        assert(kviews.take(i + 1).to_set() =~= kviews.take(i as int).to_set());
                        assert(cat_names(interner@, Category::TrustModel) =~= kviews.take(
                            i + 1,
                        ).to_set().insert(default_tm_name()));
                        assert(target_rows(kviews, threshold as nat, i + 1) =~= target_rows(
                            kviews,
                            threshold as nat,
                            i as int,
                        ));
                    }
                },
                None => {
                    proof {
                        if has_text(pre_iv, key_text) {
                            assert(interner@ == pre_iv);
                            assert(rows_view(pre_iv, pre_rows).dom().contains(key_text)) by {
                                assert(target_rows(
                                    kviews,
                                    threshold as nat,
                                    i as int,
                                ).dom().contains(key_text)) by {
                                    assert(cat_names(pre_iv, Category::TrustModel).contains(
                                        key_text,
                                    )) by {
                                        assert(has_entry(
                                            pre_iv,
                                            key_text,
                                            Category::TrustModel,
                                        )) by {
                                            let e = choose|e: int|
                                                0 <= e < pre_iv.len() && #[trigger] pre_iv[e].text
                                                    == key_text;
                                            assert(pre_iv[e].cat == Category::TrustModel);
                                        }
                                    }
                                    assert(key_text != default_tm_name());
                                }
                            }
                            let j = choose|j: int|
                                0 <= j < pre_rows.len() && #[trigger] row_text(pre_iv, pre_rows, j)
                                    == key_text;
                            lemma_txt_inj(pre_iv, pre_rows[j].tm.0 as int, k.0 as int);
                            assert(pre_rows[j].tm == k);
                            assert(false);
                        }
                        assert(interner@ == pre_iv.push(
                            Entry { text: key_text, cat: Category::TrustModel },
                        ));
                        assert(k.0 == pre_iv.len());
                    }
                    let ghost rows_before = tm_rows@;
                    tm_rows.push(
                        TmRowRec { tm: k, threshold: 1, is_key: true, parent: Some(default_tm) },
                    );
                    proof {
                        let rec = TmRowRec {
                            tm: k,
                            threshold: 1,
                            is_key: true,
                            parent: Some(default_tm),
                        };
                        assert(row_names_distinct(interner@, rows_before)) by {
                            assert forall|i2: int, j2: int|
                                0 <= i2 < j2 < rows_before.len() implies #[trigger] row_text(
                                interner@,
                                rows_before,
                                i2,
                            ) != #[trigger] row_text(interner@, rows_before, j2) by {
                                lemma_txt_inj_contra(
                                    interner@,
                                    rows_before[i2].tm.0 as int,
                                    rows_before[j2].tm.0 as int,
                                );
                            }
                        }
                        assert forall|j: int| 0 <= j < rows_before.len() implies
                            #[trigger] row_text(interner@, rows_before, j) != txt(
                            interner@,
                            rec.tm.0 as int,
                        ) by {
                            lemma_txt_inj_contra(
                                interner@,
                                rows_before[j].tm.0 as int,
                                rec.tm.0 as int,
                            );
                        }
                        lemma_rows_view_push(interner@, rows_before, rec);
                        assert(txt(interner@, rec.tm.0 as int) == key_text);
                        assert(row_str(interner@, rec) == (TmRow {
                            threshold: 1nat,
                            is_key: true,
                            parent: Some(default_tm_name()),
                        }));
                        assert(cat_names(interner@, Category::TrustModel) =~= kviews.take(
                            i + 1,
                        ).to_set().insert(default_tm_name()));
                        assert(rows_view(interner@, tm_rows@) =~= target_rows(
                            kviews,
                            threshold as nat,
                            i + 1,
                        )) by {
                            assert(rows_view(interner@, tm_rows@) == rows_view(
                                interner@,
                                rows_before,
                            ).insert(key_text, row_str(interner@, rec)));
                        }
                    }
                },
            }
            i = i + 1;
        }

        let ghost pre_root_iv = interner@;
        let root_opt = interner.udrv(expected_root.as_str());
        proof {
            if has_text(pre_root_iv, expected_root@) {
                let e = choose|e: int|
                    0 <= e < pre_root_iv.len() && #[trigger] pre_root_iv[e].text
                        == expected_root@;
                assert(has_entry(pre_root_iv, expected_root@, Category::TrustModel));
                assert(cat_names(pre_root_iv, Category::TrustModel).contains(expected_root@));
                assert(kviews.take(kn as int) =~= kviews);
                assert(false);
            }
        }
        let root = match root_opt {
            Some(u) => u,
            None => {
                proof {
                    assert(false);
                }
                UDrv(0)
            },
        };

        let r = TrustModelReasoner {
            interner,
            fods: Vec::new(),
            has_output: Vec::new(),
            depends_on: Vec::new(),
            resolves: Vec::new(),
            resolves_with: Vec::new(),
            claims: Vec::new(),
            tm_rows,
            expected_root: root,
            default_tm,
            completed: false,
        };
        proof {
            let iv = r.interner@;
            let m0 = initial_model(kviews, threshold as nat, expected_root@);
            assert(iv == pre_root_iv.push(Entry { text: expected_root@, cat: Category::Udrv }));
            lemma_cat_names_push(pre_root_iv, Entry { text: expected_root@, cat: Category::Udrv });
            assert(kviews.take(kn as int) =~= kviews);
            assert forall|c: Category, s: Seq<char>|
                c != Category::TrustModel && #[trigger] has_entry(pre_root_iv, s, c) implies
                false by {
                let e = choose|e: int|
                    0 <= e < pre_root_iv.len() && #[trigger] pre_root_iv[e].text == s
                        && pre_root_iv[e].cat == c;
            }
            assert(cat_names(pre_root_iv, Category::Udrv) =~= Set::<Seq<char>>::empty());
            assert(cat_names(pre_root_iv, Category::Rdrv) =~= Set::<Seq<char>>::empty());
            assert(cat_names(pre_root_iv, Category::ContentHash) =~= Set::<Seq<char>>::empty());
            assert(cat_names(pre_root_iv, Category::Output) =~= Set::<Seq<char>>::empty());
            assert(r@.udrv_names =~= m0.udrv_names);
            assert(r@.rdrv_names =~= m0.rdrv_names);
            assert(r@.tm_names =~= m0.tm_names);
            assert(r@.hash_names =~= m0.hash_names);
            assert(r@.output_names =~= m0.output_names);
            assert(r@.fods =~= m0.fods);
            assert(r@.has_output =~= m0.has_output);
            assert(r@.depends_on =~= m0.depends_on);
            assert(r@.resolves =~= m0.resolves);
            assert(r@.resolves_with =~= m0.resolves_with);
            assert(r@.claims =~= m0.claims);
            assert forall|i2: int, j2: int| 0 <= i2 < j2 < r.tm_rows@.len() implies
                #[trigger] row_text(pre_root_iv, r.tm_rows@, i2) != #[trigger] row_text(
                pre_root_iv,
                r.tm_rows@,
                j2,
            ) by {
                lemma_txt_inj_contra(
                    pre_root_iv,
                    r.tm_rows@[i2].tm.0 as int,
                    r.tm_rows@[j2].tm.0 as int,
                );
            }
            assert forall|j2: int| 0 <= j2 < r.tm_rows@.len() implies #[trigger] row_text(
                pre_root_iv,
                r.tm_rows@,
                j2,
            ) == row_text(iv, r.tm_rows@, j2) by {}
            assert forall|j2: int| 0 <= j2 < r.tm_rows@.len() implies #[trigger] row_str(
                pre_root_iv,
                r.tm_rows@[j2],
            ) == row_str(iv, r.tm_rows@[j2]) by {}
            lemma_rows_view_congruent(pre_root_iv, iv, r.tm_rows@);
            assert(r@.rows =~= m0.rows);
            assert(r@.root == m0.root);
            assert(r@ =~= m0);
            assert forall|j: int| 0 <= j < r.tm_rows@.len() implies (match (
            #[trigger] r.tm_rows@[j]).parent {
                Some(p) => p != r.tm_rows@[j].tm,
                None => true,
            }) by {
                if j >= 1 {
                    assert(r.tm_rows@[0].tm != r.tm_rows@[j].tm);
                }
            }
            assert(r.wf());
        }
        Ok(r)
    }

    /// Declare a fixed-output derivation with its known content hash; its
    /// single output `<name>$out` is declared as well.
    pub fn add_fod(&mut self, fod_to_add: &str, fod_hash_to_add: &str) -> (r: Result<
        (),
        ReasonerError,
    >)
        requires
            old(self).wf(),
        ensures
            final(self).wf(),
            ({
                let op = (Op::AddFod { udrv: fod_to_add@, hash: fod_hash_to_add@ });
                match r {
                    Ok(()) => !old(self)@.completed && op_allowed(old(self)@, op) && final(self)@
                        == apply_op(old(self)@, op),
                    Err(ReasonerError::StateMisuse) => old(self)@.completed && final(self)@ == old(
                        self,
                    )@,
                    Err(ReasonerError::UnknownInput) => !old(self)@.completed && !op_allowed(
                        old(self)@,
                        op,
                    ) && final(self)@ == old(self)@,
                    Err(ReasonerError::InvalidConfig) => false,
                }
            }),
    {
        if self.completed {
            return Err(ReasonerError::StateMisuse);
        }
        let ghost m0 = self@;
        let ghost iv0 = self.interner@;
        let ghost op = Op::AddFod { udrv: fod_to_add@, hash: fod_hash_to_add@ };
        let fod_owned: String = fod_to_add.to_owned();
        let hash_owned: String = fod_hash_to_add.to_owned();
        let out_s: String = fod_to_add.to_owned().concat("$out");
        proof {
            assert(out_s@ == out_name(fod_to_add@));
            lemma_text_category(iv0, fod_to_add@);
            lemma_text_category(iv0, fod_hash_to_add@);
            lemma_text_category(iv0, out_s@);
            lemma_out_name_ne(fod_to_add@);
        }
        if !self.interner.can_intern(fod_to_add, Category::Udrv) {
            return Err(ReasonerError::UnknownInput);
        }
        if hash_owned == fod_owned {
            return Err(ReasonerError::UnknownInput);
        }
        if !self.interner.can_intern(fod_hash_to_add, Category::ContentHash) {
            return Err(ReasonerError::UnknownInput);
        }
        if out_s == hash_owned {
            return Err(ReasonerError::UnknownInput);
        }
        if !self.interner.can_intern(out_s.as_str(), Category::Output) {
            return Err(ReasonerError::UnknownInput);
        }
        proof {
            assert(op_allowed(m0, op));
        }
        let u = UDrv(self.intern_as(fod_to_add, Category::Udrv));
        let ghost iv1 = self.interner@;
        proof {
            lemma_intern_chain(iv0, iv1, fod_hash_to_add@, Category::ContentHash);
        }
        let h = ContentHash(self.intern_as(fod_hash_to_add, Category::ContentHash));
        let ghost iv2 = self.interner@;
        proof {
            assert(iv_extends(iv0, iv2));
            assert forall|e: int| iv0.len() <= e < iv2.len() implies (#[trigger] iv2[e]).text
                != out_s@ by {
                if e < iv1.len() {
                    assert(iv2[e] == iv1[e]);
                }
            }
            lemma_intern_chain(iv0, iv2, out_s@, Category::Output);
        }
        let o = UDrvOutput(self.intern_as(out_s.as_str(), Category::Output));
        let ghost iv3 = self.interner@;
        let ghost m3 = self@;
        proof {
            assert(udrv_ok(iv3, u) && txt(iv3, u.0 as int) == fod_to_add@) by {
                assert(iv3[u.0 as int] == iv2[u.0 as int] || iv2.len() <= u.0);
                assert(iv2[u.0 as int] == iv1[u.0 as int] || iv1.len() <= u.0);
            }
            assert(hash_ok(iv3, h) && txt(iv3, h.0 as int) == fod_hash_to_add@) by {
                assert(iv3[h.0 as int] == iv2[h.0 as int] || iv2.len() <= h.0);
            }
            assert(out_ok(iv3, o) && txt(iv3, o.0 as int) == out_name(fod_to_add@));
            assert(fod_str(iv3, (u, h)) == (fod_to_add@, fod_hash_to_add@));
            assert(has_output_str(iv3, (u, o)) == (fod_to_add@, out_name(fod_to_add@)));
        }
        self.push_fod((u, h));
        self.push_has_output((u, o));
        proof {
            assert(self@ =~= apply_op(m0, op));
        }
        Ok(())
    }

    /// Declare an ordinary derivation, with the outputs of other
    /// derivations it consumes and the outputs it itself declares.
    pub fn add_unresolved_derivation(
        &mut self,
        udrv_to_add: &str,
        depends_on: Vec<String>,
        outputs: Vec<String>,
    ) -> (r: Result<(), ReasonerError>)
        requires
            old(self).wf(),
        ensures
            final(self).wf(),
            ({
                let op = (Op::AddUnresolved {
                    udrv: udrv_to_add@,
                    deps: string_views(depends_on@),
                    outputs: string_views(outputs@),
                });
                match r {
                    Ok(()) => !old(self)@.completed && op_allowed(old(self)@, op) && final(self)@
                        == apply_op(old(self)@, op),
                    Err(ReasonerError::StateMisuse) => old(self)@.completed && final(self)@ == old(
                        self,
                    )@,
                    Err(ReasonerError::UnknownInput) => !old(self)@.completed && !op_allowed(
                        old(self)@,
                        op,
                    ) && final(self)@ == old(self)@,
                    Err(ReasonerError::InvalidConfig) => false,
                }
            }),
    {
        if self.completed {
            return Err(ReasonerError::StateMisuse);
        }
        let ghost m0 = self@;
        let ghost iv0 = self.interner@;
        let ghost dviews = string_views(depends_on@);
        let ghost oviews = string_views(outputs@);
        let ghost op = Op::AddUnresolved { udrv: udrv_to_add@, deps: dviews, outputs: oviews };
        let u_owned: String = udrv_to_add.to_owned();
        proof {
            lemma_text_category(iv0, udrv_to_add@);
        }
        if !self.interner.can_intern(udrv_to_add, Category::Udrv) {
            return Err(ReasonerError::UnknownInput);
        }
        let dn = depends_on.len();
        let mut i: usize = 0;
        while i < dn
            invariant
                dn == depends_on@.len(),
                i <= dn,
                self.wf(),
                *self == *old(self),
                m0 == self@,
                !m0.completed,
                u_owned@ == udrv_to_add@,
                op == (Op::AddUnresolved { udrv: udrv_to_add@, deps: dviews, outputs: oviews }),
                dviews == string_views(depends_on@),
                oviews == string_views(outputs@),
                iv0 == self.interner@,
                !intern_refused(iv0, udrv_to_add@, Category::Udrv),
                forall|j: int|
                    0 <= j < i ==> #[trigger] dviews[j] != udrv_to_add@ && !intern_refused(
                        iv0,
                        dviews[j],
                        Category::Output,
                    ),
            decreases dn - i,
        {
            proof {
                assert(dviews[i as int] == depends_on@[i as int]@);
                lemma_text_category(iv0, depends_on@[i as int]@);
            }
            if depends_on[i] == u_owned {
                proof {
                    assert(dviews[i as int] == udrv_to_add@);
                    assert(!crate::model::output_items_ok(m0, udrv_to_add@, dviews)) by {
                        assert(!(dviews[i as int] != udrv_to_add@ && !crate::model::clash_output(
                            m0,
                            dviews[i as int],
                        )));
                    }
                    assert(!op_allowed(m0, op));
                }
                return Err(ReasonerError::UnknownInput);
            }
            if !self.interner.can_intern(depends_on[i].as_str(), Category::Output) {
                proof {
                    assert(intern_refused(iv0, dviews[i as int], Category::Output));
                    assert(crate::model::clash_output(m0, dviews[i as int]));
                    assert(!crate::model::output_items_ok(m0, udrv_to_add@, dviews)) by {
                        assert(!(dviews[i as int] != udrv_to_add@ && !crate::model::clash_output(
                            m0,
                            dviews[i as int],
                        )));
                    }
                    assert(!op_allowed(m0, op));
                }
                return Err(ReasonerError::UnknownInput);
            }
            proof {
                assert(dviews[i as int] != udrv_to_add@);
                assert(!intern_refused(iv0, dviews[i as int], Category::Output));
            }
            i = i + 1;
        }
        let on = outputs.len();
        let mut i: usize = 0;
        while i < on
            invariant
                on == outputs@.len(),
                i <= on,
                self.wf(),
                *self == *old(self),
                m0 == self@,
                !m0.completed,
                u_owned@ == udrv_to_add@,
                op == (Op::AddUnresolved { udrv: udrv_to_add@, deps: dviews, outputs: oviews }),
                dn == depends_on@.len(),
                dviews == string_views(depends_on@),
                oviews == string_views(outputs@),
                iv0 == self.interner@,
                !intern_refused(iv0, udrv_to_add@, Category::Udrv),
                forall|j: int|
                    0 <= j < dn ==> #[trigger] dviews[j] != udrv_to_add@ && !intern_refused(
                        iv0,
                        dviews[j],
                        Category::Output,
                    ),
                forall|j: int|
                    0 <= j < i ==> #[trigger] oviews[j] != udrv_to_add@ && !intern_refused(
                        iv0,
                        oviews[j],
                        Category::Output,
                    ),
            decreases on - i,
        {
            proof {
                assert(oviews[i as int] == outputs@[i as int]@);
                lemma_text_category(iv0, outputs@[i as int]@);
            }
            if outputs[i] == u_owned {
                proof {
                    assert(oviews[i as int] == udrv_to_add@);
                    assert(!crate::model::output_items_ok(m0, udrv_to_add@, oviews)) by {
                        assert(!(oviews[i as int] != udrv_to_add@ && !crate::model::clash_output(
                            m0,
                            oviews[i as int],
                        )));
                    }
                    assert(!op_allowed(m0, op));
                }
                return Err(ReasonerError::UnknownInput);
            }
            if !self.interner.can_intern(outputs[i].as_str(), Category::Output) {
                proof {
                    assert(intern_refused(iv0, oviews[i as int], Category::Output));
                    assert(crate::model::clash_output(m0, oviews[i as int]));
                    assert(!crate::model::output_items_ok(m0, udrv_to_add@, oviews)) by {
                        assert(!(oviews[i as int] != udrv_to_add@ && !crate::model::clash_output(
                            m0,
                            oviews[i as int],
                        )));
                    }
                    assert(!op_allowed(m0, op));
                }
                return Err(ReasonerError::UnknownInput);
            }
            proof {
                assert(oviews[i as int] != udrv_to_add@);
                assert(!intern_refused(iv0, oviews[i as int], Category::Output));
            }
            i = i + 1;
        }
        proof {
            assert(op_allowed(m0, op));
        }
        let on = outputs.len();
        let u = UDrv(self.intern_as(udrv_to_add, Category::Udrv));
        proof {
            assert forall|j: int| 0 <= j < dn implies !intern_refused(
                self.interner@,
                #[trigger] dviews[j],
                Category::Output,
            ) by {
                lemma_intern_chain(iv0, self.interner@, dviews[j], Category::Output);
            }
            assert forall|j: int| 0 <= j < on implies !intern_refused(
                self.interner@,
                #[trigger] oviews[j],
                Category::Output,
            ) by {
                lemma_intern_chain(iv0, self.interner@, oviews[j], Category::Output);
            }
            assert(dviews.take(0) =~= Seq::<Seq<char>>::empty());
            assert(oviews.take(0) =~= Seq::<Seq<char>>::empty());
            assert(self@ =~= apply_op(
                m0,
                Op::AddUnresolved {
                    udrv: udrv_to_add@,
                    deps: dviews.take(0),
                    outputs: oviews.take(0),
                },
            )) by {
                assert(self@.output_names =~= m0.output_names.union(
                    dviews.take(0).to_set(),
                ).union(oviews.take(0).to_set()));
                assert(self@.depends_on =~= m0.depends_on.union(
                    Set::new(
                        |e: (Seq<char>, Seq<char>)|
                            e.0 == udrv_to_add@ && dviews.take(0).contains(e.1),
                    ),
                ));
                assert(self@.has_output =~= m0.has_output.union(
                    Set::new(
                        |e: (Seq<char>, Seq<char>)|
                            e.0 == udrv_to_add@ && oviews.take(0).contains(e.1),
                    ),
                ));
            }
        }
        let mut i: usize = 0;
        while i < dn
            invariant
                dn == depends_on@.len(),
                on == outputs@.len(),
                i <= dn,
                self.wf(),
                m0 == old(self)@,
                dviews == string_views(depends_on@),
                oviews == string_views(outputs@),
                forall|j: int|
                    i <= j < dn ==> !intern_refused(
                        self.interner@,
                        #[trigger] dviews[j],
                        Category::Output,
                    ),
                forall|j: int|
                    0 <= j < on ==> !intern_refused(
                        self.interner@,
                        #[trigger] oviews[j],
                        Category::Output,
                    ),
                udrv_ok(self.interner@, u),
                txt(self.interner@, u.0 as int) == udrv_to_add@,
                self@ == apply_op(
                    m0,
                    Op::AddUnresolved {
                        udrv: udrv_to_add@,
                        deps: dviews.take(i as int),
                        outputs: oviews.take(0),
                    },
                ),
            decreases dn - i,
        {
            let ghost mprev = self@;
            let ghost ivc = self.interner@;
            proof {
                assert(dviews[i as int] == depends_on@[i as int]@);
            }
            let od = UDrvOutput(self.intern_as(depends_on[i].as_str(), Category::Output));
            proof {
                assert(out_ok(self.interner@, od));
                assert(txt(self.interner@, od.0 as int) == dviews[i as int]);
                assert(udrv_ok(self.interner@, u));
                assert forall|j: int| i + 1 <= j < dn implies !intern_refused(
                    self.interner@,
                    #[trigger] dviews[j],
                    Category::Output,
                ) by {
                    lemma_intern_chain(ivc, self.interner@, dviews[j], Category::Output);
                }
                assert forall|j: int| 0 <= j < on implies !intern_refused(
                    self.interner@,
                    #[trigger] oviews[j],
                    Category::Output,
                ) by {
                    lemma_intern_chain(ivc, self.interner@, oviews[j], Category::Output);
                }
            }
            self.push_depends_on((u, od));
            proof {
                lemma_unres_dep_step(m0, udrv_to_add@, dviews, oviews, i as int);
                assert(self@ == (Model {
                    output_names: mprev.output_names.insert(dviews[i as int]),
                    depends_on: mprev.depends_on.insert((udrv_to_add@, dviews[i as int])),
                    ..mprev
                }));
            }
            i = i + 1;
        }
        proof {
            assert(dviews.take(dn as int) =~= dviews);
        }
        let mut i: usize = 0;
        while i < on
            invariant
                on == outputs@.len(),
                i <= on,
                self.wf(),
                m0 == old(self)@,
                dviews == string_views(depends_on@),
                oviews == string_views(outputs@),
                forall|j: int|
                    i <= j < on ==> !intern_refused(
                        self.interner@,
                        #[trigger] oviews[j],
                        Category::Output,
                    ),
                udrv_ok(self.interner@, u),
                txt(self.interner@, u.0 as int) == udrv_to_add@,
                self@ == apply_op(
                    m0,
                    Op::AddUnresolved {
                        udrv: udrv_to_add@,
                        deps: dviews,
                        outputs: oviews.take(i as int),
                    },
                ),
            decreases on - i,
        {
            let ghost mprev = self@;
            let ghost ivc = self.interner@;
            proof {
                assert(oviews[i as int] == outputs@[i as int]@);
            }
            let od = UDrvOutput(self.intern_as(outputs[i].as_str(), Category::Output));
            proof {
                assert(out_ok(self.interner@, od));
                assert(txt(self.interner@, od.0 as int) == oviews[i as int]);
                assert(udrv_ok(self.interner@, u));
                assert forall|j: int| i + 1 <= j < on implies !intern_refused(
                    self.interner@,
                    #[trigger] oviews[j],
                    Category::Output,
                ) by {
                    lemma_intern_chain(ivc, self.interner@, oviews[j], Category::Output);
                }
            }
            self.push_has_output((u, od));
            proof {
                lemma_unres_out_step(m0, udrv_to_add@, dviews, oviews, i as int);
                assert(self@ == (Model {
                    output_names: mprev.output_names.insert(oviews[i as int]),
                    has_output: mprev.has_output.insert((udrv_to_add@, oviews[i as int])),
                    ..mprev
                }));
            }
            i = i + 1;
        }
        proof {
            assert(oviews.take(on as int) =~= oviews);
            assert(self@ =~= apply_op(m0, op));
        }
        Ok(())
    }

    /// Record that `with_rdrv` resolves `resolves_udrv`, substituting the
    /// given content hash for each consumed output.
    #[verifier::rlimit(40)]
    pub fn add_resolved_derivation(
        &mut self,
        resolves_udrv: &str,
        with_rdrv: &str,
        resolving_x_with_y: Vec<(String, String)>,
    ) -> (r: Result<(), ReasonerError>)
        requires
            old(self).wf(),
        ensures
            final(self).wf(),
            ({
                let op = (Op::AddResolved {
                    udrv: resolves_udrv@,
                    rdrv: with_rdrv@,
                    pairs: pair_views(resolving_x_with_y@),
                });
                match r {
                    Ok(()) => !old(self)@.completed && op_allowed(old(self)@, op) && final(self)@
                        == apply_op(old(self)@, op),
                    Err(ReasonerError::StateMisuse) => old(self)@.completed && final(self)@ == old(
                        self,
                    )@,
                    Err(ReasonerError::UnknownInput) => !old(self)@.completed && !op_allowed(
                        old(self)@,
                        op,
                    ) && final(self)@ == old(self)@,
                    Err(ReasonerError::InvalidConfig) => false,
                }
            }),
    {
        if self.completed {
            return Err(ReasonerError::StateMisuse);
        }
        let ghost m0 = self@;
        let ghost iv0 = self.interner@;
        let ghost pviews = pair_views(resolving_x_with_y@);
        let ghost op = Op::AddResolved { udrv: resolves_udrv@, rdrv: with_rdrv@, pairs: pviews };
        let u_owned: String = resolves_udrv.to_owned();
        let r_owned: String = with_rdrv.to_owned();
        proof {
            lemma_text_category(iv0, resolves_udrv@);
            lemma_text_category(iv0, with_rdrv@);
        }
        if !self.interner.can_intern(resolves_udrv, Category::Udrv) {
            return Err(ReasonerError::UnknownInput);
        }
        if r_owned == u_owned {
            return Err(ReasonerError::UnknownInput);
        }
        if !self.interner.can_intern(with_rdrv, Category::Rdrv) {
            return Err(ReasonerError::UnknownInput);
        }
        let pn = resolving_x_with_y.len();
        let mut i: usize = 0;
        while i < pn
            invariant
                pn == resolving_x_with_y@.len(),
                i <= pn,
                self.wf(),
                *self == *old(self),
                m0 == self@,
                !m0.completed,
                u_owned@ == resolves_udrv@,
                r_owned@ == with_rdrv@,
                op == (Op::AddResolved {
                    udrv: resolves_udrv@,
                    rdrv: with_rdrv@,
                    pairs: pviews,
                }),
                pviews == pair_views(resolving_x_with_y@),
                iv0 == self.interner@,
                forall|j: int|
                    0 <= j < i ==> (#[trigger] pviews[j]).0 != resolves_udrv@ && pviews[j].0
                        != with_rdrv@ && !intern_refused(iv0, pviews[j].0, Category::Output),
                forall|j: int|
                    0 <= j < i ==> (#[trigger] pviews[j]).1 != resolves_udrv@ && pviews[j].1
                        != with_rdrv@ && !intern_refused(iv0, pviews[j].1, Category::ContentHash),
            decreases pn - i,
        {
            proof {
                assert(pviews[i as int] == (resolving_x_with_y@[i as int].0@, resolving_x_with_y@[
                    i as int].1@));
                lemma_text_category(iv0, resolving_x_with_y@[i as int].0@);
                lemma_text_category(iv0, resolving_x_with_y@[i as int].1@);
            }
            if resolving_x_with_y[i].0 == u_owned || resolving_x_with_y[i].0 == r_owned {
                proof {
                    assert(!crate::model::pair_outputs_ok(
                        m0,
                        resolves_udrv@,
                        with_rdrv@,
                        pviews,
                    )) by {
                        assert(!((pviews[i as int]).0 != resolves_udrv@ && pviews[i as int].0
                            != with_rdrv@ && !crate::model::clash_output(
                            m0,
                            pviews[i as int].0,
                        )));
                    }
                    assert(!op_allowed(m0, op));
                }
                return Err(ReasonerError::UnknownInput);
            }
            if !self.interner.can_intern(resolving_x_with_y[i].0.as_str(), Category::Output) {
                proof {
                    assert(crate::model::clash_output(m0, pviews[i as int].0));
                    assert(!crate::model::pair_outputs_ok(
                        m0,
                        resolves_udrv@,
                        with_rdrv@,
                        pviews,
                    )) by {
                        assert(!((pviews[i as int]).0 != resolves_udrv@ && pviews[i as int].0
                            != with_rdrv@ && !crate::model::clash_output(
                            m0,
                            pviews[i as int].0,
                        )));
                    }
                    assert(!op_allowed(m0, op));
                }
                return Err(ReasonerError::UnknownInput);
            }
            if resolving_x_with_y[i].1 == u_owned || resolving_x_with_y[i].1 == r_owned {
                proof {
                    assert(!crate::model::pair_hashes_ok(
                        m0,
                        resolves_udrv@,
                        with_rdrv@,
                        pviews,
                    )) by {
                        assert(!((pviews[i as int]).1 != resolves_udrv@ && pviews[i as int].1
                            != with_rdrv@ && !crate::model::clash_hash(m0, pviews[i as int].1)));
                    }
                    assert(!op_allowed(m0, op));
                }
                return Err(ReasonerError::UnknownInput);
            }
            if !self.interner.can_intern(resolving_x_with_y[i].1.as_str(), Category::ContentHash) {
                proof {
                    assert(crate::model::clash_hash(m0, pviews[i as int].1));
                    assert(!crate::model::pair_hashes_ok(
                        m0,
                        resolves_udrv@,
                        with_rdrv@,
                        pviews,
                    )) by {
                        assert(!((pviews[i as int]).1 != resolves_udrv@ && pviews[i as int].1
                            != with_rdrv@ && !crate::model::clash_hash(m0, pviews[i as int].1)));
                    }
                    assert(!op_allowed(m0, op));
                }
                return Err(ReasonerError::UnknownInput);
            }
            proof {
                assert((#[trigger] pviews[i as int]).0 != resolves_udrv@ && pviews[i as int].0
                    != with_rdrv@ && !intern_refused(iv0, pviews[i as int].0, Category::Output));
                assert(pviews[i as int].1 != resolves_udrv@ && pviews[i as int].1 != with_rdrv@
                    && !intern_refused(iv0, pviews[i as int].1, Category::ContentHash));
            }
            i = i + 1;
        }
        let mut i: usize = 0;
        while i < pn
            invariant
                pn == resolving_x_with_y@.len(),
                i <= pn,
                self.wf(),
                *self == *old(self),
                m0 == self@,
                !m0.completed,
                op == (Op::AddResolved {
                    udrv: resolves_udrv@,
                    rdrv: with_rdrv@,
                    pairs: pviews,
                }),
                pviews == pair_views(resolving_x_with_y@),
                iv0 == self.interner@,
                forall|a: int, b: int|
                    0 <= a < i && 0 <= b < pn ==> (#[trigger] pviews[a]).0 != (
                    #[trigger] pviews[b]).1,
            decreases pn - i,
        {
            let mut j: usize = 0;
            while j < pn
                invariant
                    pn == resolving_x_with_y@.len(),
                    i < pn,
                    j <= pn,
                    self.wf(),
                    *self == *old(self),
                    m0 == self@,
                    !m0.completed,
                    op == (Op::AddResolved {
                        udrv: resolves_udrv@,
                        rdrv: with_rdrv@,
                        pairs: pviews,
                    }),
                    pviews == pair_views(resolving_x_with_y@),
                    iv0 == self.interner@,
                    forall|b: int| 0 <= b < j ==> (#[trigger] pviews[i as int]).0 != pviews[b].1,
                decreases pn - j,
            {
                proof {
                    assert(pviews[i as int] == (resolving_x_with_y@[i as int].0@,
                    resolving_x_with_y@[i as int].1@));
                    assert(pviews[j as int] == (resolving_x_with_y@[j as int].0@,
                    resolving_x_with_y@[j as int].1@));
                }
                if resolving_x_with_y[i].0 == resolving_x_with_y[j].1 {
                    proof {
                        assert(!crate::model::pairs_cross_ok(pviews)) by {
                            assert((pviews[i as int]).0 == (pviews[j as int]).1);
                        }
                        assert(!op_allowed(m0, op));
                    }
                    return Err(ReasonerError::UnknownInput);
                }
                j = j + 1;
            }
            i = i + 1;
        }
        proof {
            assert(op_allowed(m0, op));
        }
        let u = UDrv(self.intern_as(resolves_udrv, Category::Udrv));
        proof {
            lemma_intern_chain(iv0, self.interner@, with_rdrv@, Category::Rdrv);
        }
        let r2 = RDrv(self.intern_as(with_rdrv, Category::Rdrv));
        proof {
            assert(udrv_ok(self.interner@, u)) by {
                assert(self.interner@[u.0 as int] == (Entry {
                    text: resolves_udrv@,
                    cat: Category::Udrv,
                }));
            }
            assert(txt(self.interner@, u.0 as int) == resolves_udrv@);
            assert(rdrv_ok(self.interner@, r2));
            assert(txt(self.interner@, r2.0 as int) == with_rdrv@);
            assert forall|k: int| 0 <= k < pn implies !intern_refused(
                self.interner@,
                (#[trigger] pviews[k]).0,
                Category::Output,
            ) && !intern_refused(self.interner@, pviews[k].1, Category::ContentHash) by {
                lemma_intern_chain(iv0, self.interner@, pviews[k].0, Category::Output);
                lemma_intern_chain(iv0, self.interner@, pviews[k].1, Category::ContentHash);
            }
        }
        self.push_resolves((r2, u));
        proof {
            assert(pviews.take(0) =~= Seq::<(Seq<char>, Seq<char>)>::empty());
            assert(self@ =~= apply_op(
                m0,
                Op::AddResolved { udrv: resolves_udrv@, rdrv: with_rdrv@, pairs: pviews.take(0) },
            )) by {
                let target = apply_op(
                    m0,
                    Op::AddResolved {
                        udrv: resolves_udrv@,
                        rdrv: with_rdrv@,
                        pairs: pviews.take(0),
                    },
                );
                assert(self@.output_names =~= target.output_names);
                assert(self@.hash_names =~= target.hash_names);
                assert(self@.resolves_with =~= target.resolves_with);
            }
        }
        let mut i: usize = 0;
        while i < pn
            invariant
                pn == resolving_x_with_y@.len(),
                i <= pn,
                self.wf(),
                m0 == old(self)@,
                pviews == pair_views(resolving_x_with_y@),
                forall|k: int|
                    i <= k < pn ==> !intern_refused(
                        self.interner@,
                        (#[trigger] pviews[k]).0,
                        Category::Output,
                    ),
                forall|k: int|
                    i <= k < pn ==> !intern_refused(
                        self.interner@,
                        (#[trigger] pviews[k]).1,
                        Category::ContentHash,
                    ),
                forall|a: int, b: int|
                    0 <= a < pn && 0 <= b < pn ==> (#[trigger] pviews[a]).0 != (
                    #[trigger] pviews[b]).1,
                udrv_ok(self.interner@, u),
                txt(self.interner@, u.0 as int) == resolves_udrv@,
                rdrv_ok(self.interner@, r2),
                txt(self.interner@, r2.0 as int) == with_rdrv@,
                self@ == apply_op(
                    m0,
                    Op::AddResolved {
                        udrv: resolves_udrv@,
                        rdrv: with_rdrv@,
                        pairs: pviews.take(i as int),
                    },
                ),
            decreases pn - i,
        {
            let ghost mprev = self@;
            let ghost ivc = self.interner@;
            proof {
                assert(pviews[i as int] == (resolving_x_with_y@[i as int].0@, resolving_x_with_y@[
                    i as int].1@));
            }
            let od = UDrvOutput(
                self.intern_as(resolving_x_with_y[i].0.as_str(), Category::Output),
            );
            let ghost ivd = self.interner@;
            proof {
                assert forall|k: int| i <= k < pn implies !intern_refused(
                    self.interner@,
                    (#[trigger] pviews[k]).1,
                    Category::ContentHash,
                ) by {
                    lemma_intern_chain(ivc, self.interner@, pviews[k].1, Category::ContentHash);
                }
            }
            let hd = ContentHash(
                self.intern_as(resolving_x_with_y[i].1.as_str(), Category::ContentHash),
            );
            proof {
                assert(out_ok(self.interner@, od)) by {
                    assert(self.interner@[od.0 as int] == (Entry {
                        text: pviews[i as int].0,
                        cat: Category::Output,
                    }));
                }
                assert(hash_ok(self.interner@, hd));
                assert(rdrv_ok(self.interner@, r2));
                assert(udrv_ok(self.interner@, u));
                assert forall|k: int| i + 1 <= k < pn implies !intern_refused(
                    self.interner@,
                    (#[trigger] pviews[k]).0,
                    Category::Output,
                ) && !intern_refused(self.interner@, pviews[k].1, Category::ContentHash) by {
                    lemma_intern_chain(ivc, ivd, pviews[k].0, Category::Output);
                    lemma_intern_chain(ivd, self.interner@, pviews[k].0, Category::Output);
                    lemma_intern_chain(ivd, self.interner@, pviews[k].1, Category::ContentHash);
                }
            }
            self.push_resolves_with((r2, od, hd));
            proof {
                lemma_resolved_step(m0, resolves_udrv@, with_rdrv@, pviews, i as int);
                assert(self@ == (Model {
                    output_names: mprev.output_names.insert(pviews[i as int].0),
                    hash_names: mprev.hash_names.insert(pviews[i as int].1),
                    resolves_with: mprev.resolves_with.insert(
                        (with_rdrv@, pviews[i as int].0, pviews[i as int].1),
                    ),
                    ..mprev
                }));
            }
            i = i + 1;
        }
        proof {
            assert(pviews.take(pn as int) =~= pviews);
            assert(self@ =~= apply_op(m0, op));
        }
        Ok(())
    }

    /// Record a signed claim that building `from_resolved` produced the
    /// given content hash for each named output, asserted by
    /// `according_to`.
    #[verifier::rlimit(40)]
    pub fn add_build_output_claim(
        &mut self,
        from_resolved: &str,
        building_x_into_y_says_z: Vec<(String, String)>,
        according_to: &str,
    ) -> (r: Result<(), ReasonerError>)
        requires
            old(self).wf(),
        ensures
            final(self).wf(),
            ({
                let op = (Op::AddClaim {
                    rdrv: from_resolved@,
                    pairs: pair_views(building_x_into_y_says_z@),
                    tm: according_to@,
                });
                match r {
                    Ok(()) => !old(self)@.completed && op_allowed(old(self)@, op) && final(self)@
                        == apply_op(old(self)@, op),
                    Err(ReasonerError::StateMisuse) => old(self)@.completed && final(self)@ == old(
                        self,
                    )@,
                    Err(ReasonerError::UnknownInput) => !old(self)@.completed && !op_allowed(
                        old(self)@,
                        op,
                    ) && final(self)@ == old(self)@,
                    Err(ReasonerError::InvalidConfig) => false,
                }
            }),
    {
        if self.completed {
            return Err(ReasonerError::StateMisuse);
        }
        let ghost m0 = self@;
        let ghost iv0 = self.interner@;
        let ghost pviews = pair_views(building_x_into_y_says_z@);
        let ghost op = Op::AddClaim { rdrv: from_resolved@, pairs: pviews, tm: according_to@ };
        let r_owned: String = from_resolved.to_owned();
        let t_owned: String = according_to.to_owned();
        proof {
            lemma_text_category(iv0, from_resolved@);
            lemma_text_category(iv0, according_to@);
        }
        if !self.interner.can_intern(from_resolved, Category::Rdrv) {
            return Err(ReasonerError::UnknownInput);
        }
        if t_owned == r_owned {
            return Err(ReasonerError::UnknownInput);
        }
        if !self.interner.can_intern(according_to, Category::TrustModel) {
            return Err(ReasonerError::UnknownInput);
        }
        let pn = building_x_into_y_says_z.len();
        let mut i: usize = 0;
        while i < pn
            invariant
                pn == building_x_into_y_says_z@.len(),
                i <= pn,
                self.wf(),
                *self == *old(self),
                m0 == self@,
                !m0.completed,
                r_owned@ == from_resolved@,
                t_owned@ == according_to@,
                op == (Op::AddClaim { rdrv: from_resolved@, pairs: pviews, tm: according_to@ }),
                pviews == pair_views(building_x_into_y_says_z@),
                iv0 == self.interner@,
                forall|j: int|
                    0 <= j < i ==> (#[trigger] pviews[j]).0 != from_resolved@ && pviews[j].0
                        != according_to@ && !intern_refused(iv0, pviews[j].0, Category::Output),
                forall|j: int|
                    0 <= j < i ==> (#[trigger] pviews[j]).1 != from_resolved@ && pviews[j].1
                        != according_to@ && !intern_refused(
                        iv0,
                        pviews[j].1,
                        Category::ContentHash,
                    ),
            decreases pn - i,
        {
            proof {
                assert(pviews[i as int] == (building_x_into_y_says_z@[i as int].0@,
                building_x_into_y_says_z@[i as int].1@));
                lemma_text_category(iv0, building_x_into_y_says_z@[i as int].0@);
                lemma_text_category(iv0, building_x_into_y_says_z@[i as int].1@);
            }
            if building_x_into_y_says_z[i].0 == r_owned || building_x_into_y_says_z[i].0
                == t_owned {
                proof {
                    assert(!crate::model::pair_outputs_ok(
                        m0,
                        from_resolved@,
                        according_to@,
                        pviews,
                    )) by {
                        assert(!((pviews[i as int]).0 != from_resolved@ && pviews[i as int].0
                            != according_to@ && !crate::model::clash_output(
                            m0,
                            pviews[i as int].0,
                        )));
                    }
                    assert(!op_allowed(m0, op));
                }
                return Err(ReasonerError::UnknownInput);
            }
            if !self.interner.can_intern(
                building_x_into_y_says_z[i].0.as_str(),
                Category::Output,
            ) {
                proof {
                    assert(crate::model::clash_output(m0, pviews[i as int].0));
                    assert(!crate::model::pair_outputs_ok(
                        m0,
                        from_resolved@,
                        according_to@,
                        pviews,
                    )) by {
                        assert(!((pviews[i as int]).0 != from_resolved@ && pviews[i as int].0
                            != according_to@ && !crate::model::clash_output(
                            m0,
                            pviews[i as int].0,
                        )));
                    }
                    assert(!op_allowed(m0, op));
                }
                return Err(ReasonerError::UnknownInput);
            }
            if building_x_into_y_says_z[i].1 == r_owned || building_x_into_y_says_z[i].1
                == t_owned {
                proof {
                    assert(!crate::model::pair_hashes_ok(
                        m0,
                        from_resolved@,
                        according_to@,
                        pviews,
                    )) by {
                        assert(!((pviews[i as int]).1 != from_resolved@ && pviews[i as int].1
                            != according_to@ && !crate::model::clash_hash(
                            m0,
                            pviews[i as int].1,
                        )));
                    }
                    assert(!op_allowed(m0, op));
                }
                return Err(ReasonerError::UnknownInput);
            }
            if !self.interner.can_intern(
                building_x_into_y_says_z[i].1.as_str(),
                Category::ContentHash,
            ) {
                proof {
                    assert(crate::model::clash_hash(m0, pviews[i as int].1));
                    assert(!crate::model::pair_hashes_ok(
                        m0,
                        from_resolved@,
                        according_to@,
                        pviews,
                    )) by {
                        assert(!((pviews[i as int]).1 != from_resolved@ && pviews[i as int].1
                            != according_to@ && !crate::model::clash_hash(
                            m0,
                            pviews[i as int].1,
                        )));
                    }
                    assert(!op_allowed(m0, op));
                }
                return Err(ReasonerError::UnknownInput);
            }
            proof {
                assert((#[trigger] pviews[i as int]).0 != from_resolved@ && pviews[i as int].0
                    != according_to@ && !intern_refused(iv0, pviews[i as int].0, Category::Output));
                assert(pviews[i as int].1 != from_resolved@ && pviews[i as int].1 != according_to@
                    && !intern_refused(iv0, pviews[i as int].1, Category::ContentHash));
            }
            i = i + 1;
        }
        let mut i: usize = 0;
        while i < pn
            invariant
                pn == building_x_into_y_says_z@.len(),
                i <= pn,
                self.wf(),
                *self == *old(self),
                m0 == self@,
                !m0.completed,
                op == (Op::AddClaim { rdrv: from_resolved@, pairs: pviews, tm: according_to@ }),
                pviews == pair_views(building_x_into_y_says_z@),
                iv0 == self.interner@,
                forall|a: int, b: int|
                    0 <= a < i && 0 <= b < pn ==> (#[trigger] pviews[a]).0 != (
                    #[trigger] pviews[b]).1,
            decreases pn - i,
        {
            let mut j: usize = 0;
            while j < pn
                invariant
                    pn == building_x_into_y_says_z@.len(),
                    i < pn,
                    j <= pn,
                    self.wf(),
                    *self == *old(self),
                    m0 == self@,
                    !m0.completed,
                    op == (Op::AddClaim {
                        rdrv: from_resolved@,
                        pairs: pviews,
                        tm: according_to@,
                    }),
                    pviews == pair_views(building_x_into_y_says_z@),
                    iv0 == self.interner@,
                    forall|b: int| 0 <= b < j ==> (#[trigger] pviews[i as int]).0 != pviews[b].1,
                decreases pn - j,
            {
                proof {
                    assert(pviews[i as int] == (building_x_into_y_says_z@[i as int].0@,
                    building_x_into_y_says_z@[i as int].1@));
                    assert(pviews[j as int] == (building_x_into_y_says_z@[j as int].0@,
                    building_x_into_y_says_z@[j as int].1@));
                }
                if building_x_into_y_says_z[i].0 == building_x_into_y_says_z[j].1 {
                    proof {
                        assert(!crate::model::pairs_cross_ok(pviews)) by {
                            assert((pviews[i as int]).0 == (pviews[j as int]).1);
                        }
                        assert(!op_allowed(m0, op));
                    }
                    return Err(ReasonerError::UnknownInput);
                }
                j = j + 1;
            }
            i = i + 1;
        }
        proof {
            assert(op_allowed(m0, op));
        }
        let r2 = RDrv(self.intern_as(from_resolved, Category::Rdrv));
        proof {
            lemma_intern_chain(iv0, self.interner@, according_to@, Category::TrustModel);
        }
        let k2 = TrustModel(self.intern_as(according_to, Category::TrustModel));
        proof {
            assert(rdrv_ok(self.interner@, r2)) by {
                assert(self.interner@[r2.0 as int] == (Entry {
                    text: from_resolved@,
                    cat: Category::Rdrv,
                }));
            }
            assert(txt(self.interner@, r2.0 as int) == from_resolved@);
            assert(tm_ok(self.interner@, k2));
            assert(txt(self.interner@, k2.0 as int) == according_to@);
            assert forall|k: int| 0 <= k < pn implies !intern_refused(
                self.interner@,
                (#[trigger] pviews[k]).0,
                Category::Output,
            ) && !intern_refused(self.interner@, pviews[k].1, Category::ContentHash) by {
                lemma_intern_chain(iv0, self.interner@, pviews[k].0, Category::Output);
                lemma_intern_chain(iv0, self.interner@, pviews[k].1, Category::ContentHash);
            }
            assert(pviews.take(0) =~= Seq::<(Seq<char>, Seq<char>)>::empty());
            assert(self@ =~= apply_op(
                m0,
                Op::AddClaim { rdrv: from_resolved@, pairs: pviews.take(0), tm: according_to@ },
            )) by {
                let target = apply_op(
                    m0,
                    Op::AddClaim {
                        rdrv: from_resolved@,
                        pairs: pviews.take(0),
                        tm: according_to@,
                    },
                );
                assert(self@.output_names =~= target.output_names);
                assert(self@.hash_names =~= target.hash_names);
                assert(self@.claims =~= target.claims);
            }
        }
        let mut i: usize = 0;
        while i < pn
            invariant
                pn == building_x_into_y_says_z@.len(),
                i <= pn,
                self.wf(),
                m0 == old(self)@,
                pviews == pair_views(building_x_into_y_says_z@),
                forall|k: int|
                    i <= k < pn ==> !intern_refused(
                        self.interner@,
                        (#[trigger] pviews[k]).0,
                        Category::Output,
                    ),
                forall|k: int|
                    i <= k < pn ==> !intern_refused(
                        self.interner@,
                        (#[trigger] pviews[k]).1,
                        Category::ContentHash,
                    ),
                forall|a: int, b: int|
                    0 <= a < pn && 0 <= b < pn ==> (#[trigger] pviews[a]).0 != (
                    #[trigger] pviews[b]).1,
                rdrv_ok(self.interner@, r2),
                txt(self.interner@, r2.0 as int) == from_resolved@,
                tm_ok(self.interner@, k2),
                txt(self.interner@, k2.0 as int) == according_to@,
                self@ == apply_op(
                    m0,
                    Op::AddClaim {
                        rdrv: from_resolved@,
                        pairs: pviews.take(i as int),
                        tm: according_to@,
                    },
                ),
            decreases pn - i,
        {
            let ghost mprev = self@;
            let ghost ivc = self.interner@;
            proof {
                assert(pviews[i as int] == (building_x_into_y_says_z@[i as int].0@,
                building_x_into_y_says_z@[i as int].1@));
            }
            let od = UDrvOutput(
                self.intern_as(building_x_into_y_says_z[i].0.as_str(), Category::Output),
            );
            let ghost ivd = self.interner@;
            proof {
                assert forall|k: int| i <= k < pn implies !intern_refused(
                    self.interner@,
                    (#[trigger] pviews[k]).1,
                    Category::ContentHash,
                ) by {
                    lemma_intern_chain(ivc, self.interner@, pviews[k].1, Category::ContentHash);
                }
            }
            let hd = ContentHash(
                self.intern_as(building_x_into_y_says_z[i].1.as_str(), Category::ContentHash),
            );
            proof {
                assert(out_ok(self.interner@, od)) by {
                    assert(self.interner@[od.0 as int] == (Entry {
                        text: pviews[i as int].0,
                        cat: Category::Output,
                    }));
                }
                assert(hash_ok(self.interner@, hd));
                assert(rdrv_ok(self.interner@, r2));
                assert(tm_ok(self.interner@, k2));
                assert(att_ok(
                    self.interner@,
                    Att { tm: k2, rdrv: r2, hash: hd, output: od },
                ));
                assert forall|k: int| i + 1 <= k < pn implies !intern_refused(
                    self.interner@,
                    (#[trigger] pviews[k]).0,
                    Category::Output,
                ) && !intern_refused(self.interner@, pviews[k].1, Category::ContentHash) by {
                    lemma_intern_chain(ivc, ivd, pviews[k].0, Category::Output);
                    lemma_intern_chain(ivd, self.interner@, pviews[k].0, Category::Output);
                    lemma_intern_chain(ivd, self.interner@, pviews[k].1, Category::ContentHash);
                }
            }
            self.push_claim(Att { tm: k2, rdrv: r2, hash: hd, output: od });
            proof {
                lemma_claim_step(m0, from_resolved@, according_to@, pviews, i as int);
                assert(att_str(self.interner@, Att { tm: k2, rdrv: r2, hash: hd, output: od })
                    == (according_to@, Fact {
                    rdrv: from_resolved@,
                    hash: pviews[i as int].1,
                    output: pviews[i as int].0,
                }));
                assert(self@ == (Model {
                    output_names: mprev.output_names.insert(pviews[i as int].0),
                    hash_names: mprev.hash_names.insert(pviews[i as int].1),
                    claims: mprev.claims.insert(
                        (according_to@, Fact {
                            rdrv: from_resolved@,
                            hash: pviews[i as int].1,
                            output: pviews[i as int].0,
                        }),
                    ),
                    ..mprev
                }));
            }
            i = i + 1;
        }
        proof {
            assert(pviews.take(pn as int) =~= pviews);
            assert(self@ =~= apply_op(m0, op));
        }
        Ok(())
    }
}

// ---------------------------------------------------------------------
// Supporting lemmas for the trust closure
// ---------------------------------------------------------------------

/// Attestation tuples with equal names are equal.
proof fn lemma_att_str_inj(iv: Seq<Entry>, x: Att, y: Att)
    requires
        entries_distinct(iv),
        att_ok(iv, x),
        att_ok(iv, y),
        att_str(iv, x) == att_str(iv, y),
    ensures
        x == y,
{
    lemma_txt_inj(iv, x.tm.0 as int, y.tm.0 as int);
    lemma_txt_inj(iv, x.rdrv.0 as int, y.rdrv.0 as int);
    lemma_txt_inj(iv, x.hash.0 as int, y.hash.0 as int);
    lemma_txt_inj(iv, x.output.0 as int, y.output.0 as int);
}

/// A duplicate-free tuple list names as many attestation pairs as it has
/// tuples.
proof fn lemma_atts_card(iv: Seq<Entry>, s: Seq<Att>)
    requires
        entries_distinct(iv),
        s.no_duplicates(),
        forall|j: int| 0 <= j < s.len() ==> att_ok(iv, #[trigger] s[j]),
    ensures
        claims_view(iv, s).finite(),
        claims_view(iv, s).len() == s.len(),
{
    let ms = s.map_values(|a: Att| att_str(iv, a));
    assert forall|i: int, j: int| 0 <= i < j < ms.len() implies ms[i] != ms[j] by {
        if ms[i] == ms[j] {
            assert(att_str(iv, s[i]) == att_str(iv, s[j]));
            lemma_att_str_inj(iv, s[i], s[j]);
        }
    }
    assert(ms.no_duplicates());
    ms.unique_seq_to_set();
}

/// Rows name their configured trust elements in the row view.
proof fn lemma_rows_view_facts(iv: Seq<Entry>, v: Seq<TmRowRec>)
    requires
        entries_distinct(iv),
        forall|j: int| 0 <= j < v.len() ==> tm_ok(iv, (#[trigger] v[j]).tm),
        forall|i: int, j: int| 0 <= i < j < v.len() ==> (#[trigger] v[i]).tm != (#[trigger] v[j]).tm,
    ensures
        forall|j: int| 0 <= j < v.len() ==> rows_view(iv, v).dom().contains(
            #[trigger] row_text(iv, v, j),
        ) && rows_view(iv, v)[row_text(iv, v, j)] == row_str(iv, v[j]),
        forall|t: Seq<char>| #[trigger] rows_view(iv, v).dom().contains(t) ==> exists|j: int|
            0 <= j < v.len() && #[trigger] row_text(iv, v, j) == t,
{
    assert forall|j: int| 0 <= j < v.len() implies rows_view(iv, v).dom().contains(
        #[trigger] row_text(iv, v, j),
    ) && rows_view(iv, v)[row_text(iv, v, j)] == row_str(iv, v[j]) by {
        let t = row_text(iv, v, j);
        assert(rows_view(iv, v).dom().contains(t));
        let j2 = choose|j2: int| 0 <= j2 < v.len() && #[trigger] row_text(iv, v, j2) == t;
        if j2 != j {
            lemma_txt_inj(iv, v[j2].tm.0 as int, v[j].tm.0 as int);
        }
    }
}

/// The row view configures at most as many names as there are rows.
proof fn lemma_rows_dom_card(iv: Seq<Entry>, v: Seq<TmRowRec>)
    ensures
        rows_view(iv, v).dom().finite(),
        rows_view(iv, v).dom().len() <= v.len(),
{
    let rng = vstd::set_lib::set_int_range(0, v.len() as int);
    vstd::set_lib::lemma_int_range(0, v.len() as int);
    let f = |j: int| row_text(iv, v, j);
    assert forall|t: Seq<char>| rows_view(iv, v).dom().contains(t) == rng.map(f).contains(t) by {
        if rows_view(iv, v).dom().contains(t) {
            let j = choose|j: int| 0 <= j < v.len() && #[trigger] row_text(iv, v, j) == t;
            assert(rng.contains(j) && f(j) == t);
        }
        if rng.map(f).contains(t) {
            let j = choose|j: int| rng.contains(j) && f(j) == t;
            assert(row_text(iv, v, j) == t);
        }
    }
    assert(rows_view(iv, v).dom() =~= rng.map(f));
    vstd::set_lib::lemma_map_size_bound(rng, rng.map(f), f);
}

/// With no self-parenting row, the children of `p` exclude `p`, so the
/// agreement count stays strictly below the number of rows plus one.
proof fn lemma_children_card(
    iv: Seq<Entry>,
    v: Seq<TmRowRec>,
    s: Set<(Seq<char>, Fact)>,
    p: Seq<char>,
    f: Fact,
)
    requires
        entries_distinct(iv),
        forall|j: int| 0 <= j < v.len() ==> tm_ok(iv, (#[trigger] v[j]).tm) && (match v[j].parent {
            Some(q) => tm_ok(iv, q) && q != v[j].tm,
            None => true,
        }),
        forall|i: int, j: int| 0 <= i < j < v.len() ==> (#[trigger] v[i]).tm != (#[trigger] v[j]).tm,
        rows_view(iv, v).dom().contains(p),
    ensures
        attesting_children(rows_view(iv, v), s, p, f).finite(),
        attesting_children(rows_view(iv, v), s, p, f).len() < v.len(),
{
    let rows_v = rows_view(iv, v);
    let ch = attesting_children(rows_v, s, p, f);
    lemma_rows_view_facts(iv, v);
    assert forall|c: Seq<char>| ch.contains(c) implies rows_v.dom().remove(p).contains(c) by {
        let j = choose|j: int| 0 <= j < v.len() && #[trigger] row_text(iv, v, j) == c;
        assert(rows_v[c] == row_str(iv, v[j]));
        if c == p {
            match v[j].parent {
                Some(q) => {
                    lemma_txt_inj(iv, q.0 as int, v[j].tm.0 as int);
                },
                None => {},
            }
        }
    }
    lemma_rows_dom_card(iv, v);
    lemma_len_subset(ch, rows_v.dom().remove(p));
}

/// The index of the propagation edge whose child is `tm`, if any.
fn find_edge(edges: &Vec<(TrustModel, TrustModel, usize)>, tm: TrustModel) -> (r: Option<usize>)
    ensures
        match r {
            Some(i) => i < edges@.len() && edges@[i as int].0 == tm,
            None => forall|j: int| 0 <= j < edges@.len() ==> (#[trigger] edges@[j]).0 != tm,
        },
{
    let n = edges.len();
    let mut i: usize = 0;
    while i < n
        invariant
            n == edges@.len(),
            i <= n,
            forall|j: int| 0 <= j < i ==> (#[trigger] edges@[j]).0 != tm,
        decreases n - i,
    {
        if edges[i].0 == tm {
            return Some(i);
        }
        i = i + 1;
    }
    None
}

impl TrustModelReasoner {
    /// Whether some declared fixed-output derivation has an outgoing
    /// dependency edge.
    fn has_fod_violation(&self) -> (r: bool)
        requires
            self.wf(),
        ensures
            r == fod_violation(self@),
    {
        let fn_ = self.fods.len();
        let dn = self.depends_on.len();
        let mut i: usize = 0;
        while i < fn_
            invariant
                self.wf(),
                fn_ == self.fods@.len(),
                dn == self.depends_on@.len(),
                i <= fn_,
                forall|a: int, b: int|
                    0 <= a < i && 0 <= b < dn ==> (#[trigger] self.fods@[a]).0 != (
                    #[trigger] self.depends_on@[b]).0,
            decreases fn_ - i,
        {
            let mut j: usize = 0;
            while j < dn
                invariant
                    self.wf(),
                    fn_ == self.fods@.len(),
                    dn == self.depends_on@.len(),
                    i < fn_,
                    j <= dn,
                    forall|b: int|
                        0 <= b < j ==> (#[trigger] self.depends_on@[b]).0 != self.fods@[i as int].0,
                decreases dn - j,
            {
                if self.fods[i].0 == self.depends_on[j].0 {
                    proof {
                        let iv = self.interner@;
                        lemma_fods_view_members(iv, self.fods@);
                        lemma_has_output_view_members(iv, self.depends_on@);
                        let fe = fod_str(iv, self.fods@[i as int]);
                        let de = has_output_str(iv, self.depends_on@[j as int]);
                        assert(self@.fods.contains(fe));
                        assert(self@.depends_on.contains(de));
                        assert(de.0 == fe.0);
                    }
                    return true;
                }
                j = j + 1;
            }
            i = i + 1;
        }
        proof {
            if fod_violation(self@) {
                let iv = self.interner@;
                let (fe, de) = choose|fe: (Seq<char>, Seq<char>), de: (Seq<char>, Seq<char>)|
                    #[trigger] self@.fods.contains(fe) && #[trigger] self@.depends_on.contains(de)
                        && de.0 == fe.0;
                lemma_fods_view_members(iv, self.fods@);
                lemma_has_output_view_members(iv, self.depends_on@);
                let a = choose|a: int|
                    0 <= a < self.fods@.len() && fod_str(iv, #[trigger] self.fods@[a]) == fe;
                let b = choose|b: int|
                    0 <= b < self.depends_on@.len() && has_output_str(
                        iv,
                        #[trigger] self.depends_on@[b],
                    ) == de;
                lemma_txt_inj(iv, self.fods@[a].0.0 as int, self.depends_on@[b].0.0 as int);
                assert(false);
            }
        }
        false
    }

    /// The resolved derivations recorded as resolving the expected root.
    fn collect_roots(&self) -> (r: Vec<RDrv>)
        requires
            self.wf(),
        ensures
            forall|k: int| 0 <= k < r@.len() ==> rdrv_ok(self.interner@, #[trigger] r@[k])
                && self@.resolves.contains(
                (txt(self.interner@, r@[k].0 as int), self@.root),
            ),
            forall|j: int|
                0 <= j < self.resolves@.len() && (#[trigger] self.resolves@[j]).1
                    == self.expected_root ==> r@.contains(self.resolves@[j].0),
            forall|a: int, b: int| 0 <= a < b < r@.len() ==> #[trigger] r@[a] != #[trigger] r@[b],
    {
        let n = self.resolves.len();
        let mut out: Vec<RDrv> = Vec::new();
        let mut i: usize = 0;
        while i < n
            invariant
                self.wf(),
                n == self.resolves@.len(),
                i <= n,
                forall|k: int| 0 <= k < out@.len() ==> rdrv_ok(self.interner@, #[trigger] out@[k])
                    && self@.resolves.contains(
                    (txt(self.interner@, out@[k].0 as int), self@.root),
                ),
                forall|j: int|
                    0 <= j < i && (#[trigger] self.resolves@[j]).1 == self.expected_root ==>
                        out@.contains(self.resolves@[j].0),
                forall|a: int, b: int|
                    0 <= a < b < out@.len() ==> #[trigger] out@[a] != #[trigger] out@[b],
            decreases n - i,
        {
            if self.resolves[i].1 == self.expected_root {
                let r0 = self.resolves[i].0;
                if !contains_rdrv(&out, r0) {
                    let ghost out_pre = out@;
                    out.push(r0);
                    proof {
                        let iv = self.interner@;
                        lemma_resolves_view_members(iv, self.resolves@);
                        assert(resolves_str(iv, self.resolves@[i as int]) == (
                            txt(iv, self.resolves@[i as int].0.0 as int),
                            self@.root,
                        ));
                        assert(self@.resolves.contains(
                            (txt(iv, self.resolves@[i as int].0.0 as int), self@.root),
                        ));
                        assert forall|x: RDrv| out_pre.contains(x) implies out@.contains(x) by {
                            let k = choose|k: int| 0 <= k < out_pre.len() && out_pre[k] == x;
                            assert(out@[k] == x);
                        }
                        assert(out@[out@.len() - 1] == r0);
                        assert(out@.contains(r0));
                    }
                } else {
                    proof {
                        assert(out@.contains(r0));
                    }
                }
                proof {
                    assert(out@.contains(self.resolves@[i as int].0));
                }
            }
            i = i + 1;
        }
        out
    }

    /// The outputs declared by the expected root derivation.
    fn collect_root_outputs(&self) -> (r: Vec<UDrvOutput>)
        requires
            self.wf(),
        ensures
            forall|k: int| 0 <= k < r@.len() ==> out_ok(self.interner@, #[trigger] r@[k])
                && self@.has_output.contains(
                (self@.root, txt(self.interner@, r@[k].0 as int)),
            ),
            forall|j: int|
                0 <= j < self.has_output@.len() && (#[trigger] self.has_output@[j]).0
                    == self.expected_root ==> r@.contains(self.has_output@[j].1),
            r@.len() == 0 ==> !(exists|o: Seq<char>|
                #[trigger] self@.has_output.contains((self@.root, o))),
    {
        let n = self.has_output.len();
        let mut out: Vec<UDrvOutput> = Vec::new();
        let mut i: usize = 0;
        while i < n
            invariant
                self.wf(),
                n == self.has_output@.len(),
                i <= n,
                forall|k: int| 0 <= k < out@.len() ==> out_ok(self.interner@, #[trigger] out@[k])
                    && self@.has_output.contains(
                    (self@.root, txt(self.interner@, out@[k].0 as int)),
                ),
                forall|j: int|
                    0 <= j < i && (#[trigger] self.has_output@[j]).0 == self.expected_root ==>
                        out@.contains(self.has_output@[j].1),
            decreases n - i,
        {
            if self.has_output[i].0 == self.expected_root {
                let ghost out_pre = out@;
                out.push(self.has_output[i].1);
                proof {
                    let iv = self.interner@;
                    lemma_has_output_view_members(iv, self.has_output@);
                    assert(has_output_str(iv, self.has_output@[i as int]) == (
                        self@.root,
                        txt(iv, self.has_output@[i as int].1.0 as int),
                    ));
                    assert(self@.has_output.contains(
                        (self@.root, txt(iv, self.has_output@[i as int].1.0 as int)),
                    ));
                    assert forall|x: UDrvOutput| out_pre.contains(x) implies out@.contains(x) by {
                        let k = choose|k: int| 0 <= k < out_pre.len() && out_pre[k] == x;
                        assert(out@[k] == x);
                    }
                    assert(out@[out@.len() - 1] == self.has_output@[i as int].1);
                    assert(out@.contains(self.has_output@[i as int].1));
                }
            }
            i = i + 1;
        }
        proof {
            if out@.len() == 0 {
                if exists|o: Seq<char>| #[trigger] self@.has_output.contains((self@.root, o)) {
                    let o = choose|o: Seq<char>|
                        #[trigger] self@.has_output.contains((self@.root, o));
                    let iv = self.interner@;
                    lemma_has_output_view_members(iv, self.has_output@);
                    let j = choose|j: int|
                        0 <= j < self.has_output@.len() && has_output_str(
                            iv,
                            #[trigger] self.has_output@[j],
                        ) == (self@.root, o);
                    lemma_txt_inj(
                        iv,
                        self.has_output@[j].0.0 as int,
                        self.expected_root.0 as int,
                    );
                    assert(false);
                }
            }
        }
        out
    }

    /// The propagation index: one edge per trust element with a parent,
    /// carrying the parent and the parent's threshold.
    fn build_edges(&self) -> (r: Vec<(TrustModel, TrustModel, usize)>)
        requires
            self.wf(),
        ensures
            forall|e: int| 0 <= e < r@.len() ==> {
                let (c, p, t) = #[trigger] r@[e];
                &&& tm_ok(self.interner@, c)
                &&& tm_ok(self.interner@, p)
                &&& self@.rows.dom().contains(txt(self.interner@, c.0 as int))
                &&& self@.rows[txt(self.interner@, c.0 as int)].parent == Some(
                    txt(self.interner@, p.0 as int),
                )
                &&& self@.rows.dom().contains(txt(self.interner@, p.0 as int))
                &&& self@.rows[txt(self.interner@, p.0 as int)].threshold == t as nat
                &&& t >= 1
            },
            forall|j: int|
                0 <= j < self.tm_rows@.len() && (#[trigger] self.tm_rows@[j]).parent is Some ==>
                    exists|e: int| 0 <= e < r@.len() && (#[trigger] r@[e]).0
                        == self.tm_rows@[j].tm,
    {
        let n = self.tm_rows.len();
        let mut out: Vec<(TrustModel, TrustModel, usize)> = Vec::new();
        proof {
            lemma_rows_view_facts(self.interner@, self.tm_rows@);
        }
        let mut i: usize = 0;
        while i < n
            invariant
                self.wf(),
                n == self.tm_rows@.len(),
                i <= n,
                forall|e: int| 0 <= e < out@.len() ==> {
                    let (c, p, t) = #[trigger] out@[e];
                    &&& tm_ok(self.interner@, c)
                    &&& tm_ok(self.interner@, p)
                    &&& self@.rows.dom().contains(txt(self.interner@, c.0 as int))
                    &&& self@.rows[txt(self.interner@, c.0 as int)].parent == Some(
                        txt(self.interner@, p.0 as int),
                    )
                    &&& self@.rows.dom().contains(txt(self.interner@, p.0 as int))
                    &&& self@.rows[txt(self.interner@, p.0 as int)].threshold == t as nat
                    &&& t >= 1
                },
                forall|j: int|
                    0 <= j < i && (#[trigger] self.tm_rows@[j]).parent is Some ==> exists|e: int|
                        0 <= e < out@.len() && (#[trigger] out@[e]).0 == self.tm_rows@[j].tm,
            decreases n - i,
        {
            let row = self.tm_rows[i];
            match row.parent {
                Some(p) => {
                    let pj = match find_row(&self.tm_rows, p) {
                        Some(pj) => pj,
                        None => {
                            proof {
                                assert(false);
                            }
                            0
                        },
                    };
                    let thr = self.tm_rows[pj].threshold;
                    let ghost out_pre = out@;
                    out.push((row.tm, p, thr));
                    proof {
                        let iv = self.interner@;
                        assert(row_text(iv, self.tm_rows@, i as int) == txt(iv, row.tm.0 as int));
                        assert(self@.rows[txt(iv, row.tm.0 as int)] == row_str(
                            iv,
                            self.tm_rows@[i as int],
                        ));
                        assert(row_text(iv, self.tm_rows@, pj as int) == txt(iv, p.0 as int));
                        assert(self@.rows[txt(iv, p.0 as int)] == row_str(
                            iv,
                            self.tm_rows@[pj as int],
                        ));
                        assert(out@[out@.len() - 1] == (row.tm, p, thr));
                        assert forall|j: int|
                            0 <= j < i + 1 && (#[trigger] self.tm_rows@[j]).parent is Some
                            implies exists|e: int|
                                0 <= e < out@.len() && (#[trigger] out@[e]).0
                                    == self.tm_rows@[j].tm by {
                            if j < i {
                                let e = choose|e: int|
                                    0 <= e < out_pre.len() && (#[trigger] out_pre[e]).0
                                        == self.tm_rows@[j].tm;
                                assert(out@[e].0 == self.tm_rows@[j].tm);
                            } else {
                                assert(out@[out@.len() - 1].0 == self.tm_rows@[j].tm);
                            }
                        }
                    }
                },
                None => {},
            }
            i = i + 1;
        }
        out
    }

    /// The threshold configured for the default trust model.
    fn default_threshold_exec(&self) -> (r: usize)
        requires
            self.wf(),
        ensures
            r as nat == default_threshold(self@),
            r >= 1,
    {
        let j = match find_row(&self.tm_rows, self.default_tm) {
            Some(j) => j,
            None => {
                proof {
                    assert(false);
                }
                0
            },
        };
        proof {
            lemma_rows_view_facts(self.interner@, self.tm_rows@);
            assert(row_text(self.interner@, self.tm_rows@, j as int) == default_tm_name());
            assert(self@.rows[default_tm_name()] == row_str(
                self.interner@,
                self.tm_rows@[j as int],
            ));
        }
        self.tm_rows[j].threshold
    }
}

// ---------------------------------------------------------------------
// Closure-loop invariants
// ---------------------------------------------------------------------

/// All tuples a variable holds are over interned names.
spec fn var_ids_ok(iv: Seq<Entry>, v: Variable) -> bool {
    &&& forall|j: int| 0 <= j < v.stable@.len() ==> att_ok(iv, #[trigger] v.stable@[j])
    &&& forall|j: int| 0 <= j < v.recent@.len() ==> att_ok(iv, #[trigger] v.recent@[j])
    &&& forall|j: int| 0 <= j < v.to_add@.len() ==> att_ok(iv, #[trigger] v.to_add@[j])
}

/// Everything a variable holds, as named attestation pairs.
spec fn var_all_str(iv: Seq<Entry>, v: Variable) -> Set<(Seq<char>, Fact)> {
    claims_view(iv, v.stable@).union(claims_view(iv, v.recent@)).union(
        claims_view(iv, v.to_add@),
    )
}

/// The joined tuples of a variable, as named attestation pairs.
spec fn var_proc_str(iv: Seq<Entry>, v: Variable) -> Set<(Seq<char>, Fact)> {
    claims_view(iv, v.stable@).union(claims_view(iv, v.recent@))
}

/// All counter keys are over interned names.
spec fn counter_keys_ok(iv: Seq<Entry>, c: Counter) -> bool {
    forall|j: int| 0 <= j < c.rep().len() ==> att_ok(iv, (#[trigger] c.rep()[j]).0)
}

/// Every counter key stores the number of distinct children of its
/// trust element that attest its fact among the counted pairs.
spec fn counter_matches(
    iv: Seq<Entry>,
    rows_v: Map<Seq<char>, TmRow>,
    c: Counter,
    pstr: Set<(Seq<char>, Fact)>,
) -> bool {
    forall|k: Att|
        #[trigger] has_key(c.rep(), k) ==> count_of(c.rep(), k) == attesting_children(
            rows_v,
            pstr,
            txt(iv, k.tm.0 as int),
            att_fact(iv, k),
        ).len()
}

/// A pair with any attesting child among the counted pairs has a
/// counter entry.
spec fn counter_covers(
    iv: Seq<Entry>,
    rows_v: Map<Seq<char>, TmRow>,
    c: Counter,
    pstr: Set<(Seq<char>, Fact)>,
) -> bool {
    forall|p: Seq<char>, f: Fact|
        (#[trigger] attesting_children(rows_v, pstr, p, f)).len() == 0 || (exists|k: Att|
            #[trigger] has_key(c.rep(), k) && att_str(iv, k) == (p, f))
}

/// Every pair whose threshold is crossed by the processed pairs has been
/// emitted.
spec fn crossing_present(
    rows_v: Map<Seq<char>, TmRow>,
    pstr: Set<(Seq<char>, Fact)>,
    allstr: Set<(Seq<char>, Fact)>,
) -> bool {
    forall|p: Seq<char>, f: Fact|
        rows_v.dom().contains(p) && (#[trigger] attesting_children(rows_v, pstr, p, f)).len()
            >= rows_v[p].threshold ==> allstr.contains((p, f))
}

/// Inserting one attestation pair grows exactly the child set of its
/// asserter's parent at its fact.
proof fn lemma_children_insert(
    rows: Map<Seq<char>, TmRow>,
    s: Set<(Seq<char>, Fact)>,
    c: Seq<char>,
    f: Fact,
)
    ensures
        forall|p2: Seq<char>, f2: Fact|
            !(rows.dom().contains(c) && rows[c].parent == Some(p2) && f2 == f)
                ==> #[trigger] attesting_children(rows, s.insert((c, f)), p2, f2)
                == attesting_children(rows, s, p2, f2),
        forall|p2: Seq<char>|
            rows.dom().contains(c) && rows[c].parent == Some(p2)
                ==> #[trigger] attesting_children(rows, s.insert((c, f)), p2, f)
                == attesting_children(rows, s, p2, f).insert(c),
{
    assert forall|p2: Seq<char>, f2: Fact|
        !(rows.dom().contains(c) && rows[c].parent == Some(p2) && f2 == f)
        implies #[trigger] attesting_children(rows, s.insert((c, f)), p2, f2)
        == attesting_children(rows, s, p2, f2) by {
        assert(attesting_children(rows, s.insert((c, f)), p2, f2) =~= attesting_children(
            rows,
            s,
            p2,
            f2,
        ));
    }
    assert forall|p2: Seq<char>|
        rows.dom().contains(c) && rows[c].parent == Some(p2)
        implies #[trigger] attesting_children(rows, s.insert((c, f)), p2, f)
        == attesting_children(rows, s, p2, f).insert(c) by {
        assert(attesting_children(rows, s.insert((c, f)), p2, f) =~= attesting_children(
            rows,
            s,
            p2,
            f,
        ).insert(c));
    }
}

/// The index of a counter entry showing enough agreement by the default
/// model for a given root resolution and output.
fn scan_counter(
    counter: &Counter,
    dtm: TrustModel,
    r: RDrv,
    o: UDrvOutput,
    tdef: usize,
) -> (found: bool)
    ensures
        found == exists|j: int|
            0 <= j < counter.rep().len() && (#[trigger] counter.rep()[j]).0.tm == dtm
                && counter.rep()[j].0.rdrv == r && counter.rep()[j].0.output == o
                && counter.rep()[j].1 >= tdef,
{
    let es = counter.entries();
    let n = es.len();
    let mut i: usize = 0;
    while i < n
        invariant
            n == counter.rep().len(),
            es@ == counter.rep(),
            i <= n,
            forall|j: int|
                0 <= j < i ==> !((#[trigger] counter.rep()[j]).0.tm == dtm
                    && counter.rep()[j].0.rdrv == r && counter.rep()[j].0.output == o
                    && counter.rep()[j].1 >= tdef),
        decreases n - i,
    {
        if es[i].0.tm == dtm && es[i].0.rdrv == r && es[i].0.output == o && es[i].1 >= tdef {
            return true;
        }
        i = i + 1;
    }
    false
}

/// Whether `v` holds the resolved-derivation id `t`.
fn contains_rdrv(v: &Vec<RDrv>, t: RDrv) -> (r: bool)
    ensures
        r == v@.contains(t),
{
    let n = v.len();
    let mut i: usize = 0;
    while i < n
        invariant
            n == v@.len(),
            i <= n,
            forall|j: int| 0 <= j < i ==> v@[j] != t,
        decreases n - i,
    {
        if v[i] == t {
            return true;
        }
        i = i + 1;
    }
    false
}

impl TrustModelReasoner {
    /// The well-formedness of the reasoner carries over to its model.
    proof fn lemma_view_wf(&self)
        requires
            self.wf(),
        ensures
            rows_wf(self@.rows),
            self@.claims.finite(),
            self@.rows.dom().contains(default_tm_name()),
    {
        let iv = self.interner@;
        lemma_rows_dom_card(iv, self.tm_rows@);
        lemma_rows_view_facts(iv, self.tm_rows@);
        assert forall|t: Seq<char>| #[trigger] self@.rows.dom().contains(t)
            implies self@.rows[t].threshold >= 1 by {
            let j = choose|j: int|
                0 <= j < self.tm_rows@.len() && #[trigger] row_text(iv, self.tm_rows@, j) == t;
            assert(self@.rows[t] == row_str(iv, self.tm_rows@[j]));
        }
        lemma_atts_card(iv, self.claims@);
        let dj = choose|j: int|
            0 <= j < self.tm_rows@.len() && (#[trigger] self.tm_rows@[j]).tm == self.default_tm;
        assert(row_text(iv, self.tm_rows@, dj) == default_tm_name());
        assert(self@.rows.dom().contains(default_tm_name()));
    }

    /// Whether every output declared by the root shows agreement from at
    /// least the default threshold for resolution `r`, per the final
    /// counter state.
    fn root_adequate(
        &self,
        counter: &Counter,
        r: RDrv,
        routs: &Vec<UDrvOutput>,
        tdef: usize,
        Ghost(astr): Ghost<Set<(Seq<char>, Fact)>>,
    ) -> (ok: bool)
        requires
            self.wf(),
            tdef as nat == default_threshold(self@),
            tdef >= 1,
            counter.inv(),
            counter_keys_ok(self.interner@, *counter),
            counter_matches(self.interner@, self@.rows, *counter, astr),
            counter_covers(self.interner@, self@.rows, *counter, astr),
            astr == attested(self@.rows, self@.claims),
            rdrv_ok(self.interner@, r),
            self@.resolves.contains((txt(self.interner@, r.0 as int), self@.root)),
            forall|k: int| 0 <= k < routs@.len() ==> out_ok(self.interner@, #[trigger] routs@[k])
                && self@.has_output.contains(
                (self@.root, txt(self.interner@, routs@[k].0 as int)),
            ),
            forall|j: int|
                0 <= j < self.has_output@.len() && (#[trigger] self.has_output@[j]).0
                    == self.expected_root ==> routs@.contains(self.has_output@[j].1),
            routs@.len() == 0 ==> !(exists|o: Seq<char>|
                #[trigger] self@.has_output.contains((self@.root, o))),
        ensures
            ok == root_candidate_verified(self@, txt(self.interner@, r.0 as int)),
    {
        let ghost m = self@;
        let ghost iv = self.interner@;
        let ghost rows_v = m.rows;
        let ghost claims_v = m.claims;
        let ghost rstr = txt(iv, r.0 as int);
        let olen = routs.len();
        let mut all_ok = olen > 0;
        let mut oi: usize = 0;
        while oi < olen
            invariant
                self.wf(),
                m == self@,
                iv == self.interner@,
                rows_v == m.rows,
                claims_v == m.claims,
                olen == routs@.len(),
                oi <= olen,
                tdef as nat == default_threshold(m),
                tdef >= 1,
                counter.inv(),
                counter_keys_ok(iv, *counter),
                counter_matches(iv, rows_v, *counter, astr),
                counter_covers(iv, rows_v, *counter, astr),
                astr == attested(rows_v, claims_v),
                rdrv_ok(iv, r),
                forall|k: int| 0 <= k < routs@.len() ==> out_ok(iv, #[trigger] routs@[k])
                    && m.has_output.contains((m.root, txt(iv, routs@[k].0 as int))),
                all_ok ==> olen > 0,
                all_ok ==> forall|k: int| 0 <= k < oi ==> exists|j: int|
                    0 <= j < counter.rep().len() && (#[trigger] counter.rep()[j]).0.tm
                        == self.default_tm && counter.rep()[j].0.rdrv == r
                        && counter.rep()[j].0.output == (#[trigger] routs@[k])
                        && counter.rep()[j].1 >= tdef,
                !all_ok ==> olen == 0 || exists|k: int|
                    0 <= k < olen && !(exists|j: int|
                        0 <= j < counter.rep().len() && (#[trigger] counter.rep()[j]).0.tm
                            == self.default_tm && counter.rep()[j].0.rdrv == r
                            && counter.rep()[j].0.output == (#[trigger] routs@[k])
                            && counter.rep()[j].1 >= tdef),
            decreases olen - oi,
        {
            let o = routs[oi];
            let found = scan_counter(counter, self.default_tm, r, o, tdef);
            let ghost all_ok_pre = all_ok;
            if !found {
                all_ok = false;
            }
            proof {
                if found && all_ok_pre {
                    let js = choose|j: int|
                        0 <= j < counter.rep().len() && (#[trigger] counter.rep()[j]).0.tm
                            == self.default_tm && counter.rep()[j].0.rdrv == r
                            && counter.rep()[j].0.output == o && counter.rep()[j].1 >= tdef;
                    assert forall|k: int| 0 <= k < oi + 1 implies exists|j: int|
                        0 <= j < counter.rep().len() && (#[trigger] counter.rep()[j]).0.tm
                            == self.default_tm && counter.rep()[j].0.rdrv == r
                            && counter.rep()[j].0.output == (#[trigger] routs@[k])
                            && counter.rep()[j].1 >= tdef by {
                        if k == oi as int {
                            assert(counter.rep()[js].0.output == routs@[k]);
                        }
                    }
                }
                if !found {
                    assert(!(exists|j: int|
                        0 <= j < counter.rep().len() && (#[trigger] counter.rep()[j]).0.tm
                            == self.default_tm && counter.rep()[j].0.rdrv == r
                            && counter.rep()[j].0.output == (routs@[oi as int])
                            && counter.rep()[j].1 >= tdef));
                }
            }
            oi = oi + 1;
        }
        proof {
            assert(txt(iv, self.default_tm.0 as int) == default_tm_name());
            if all_ok {
                assert(root_candidate_verified(m, rstr)) by {
                    assert(m.resolves.contains((rstr, m.root)));
                    assert(olen > 0);
                    assert(m.has_output.contains((m.root, txt(iv, routs@[0].0 as int))));
                    assert forall|ostr2: Seq<char>| #[trigger] m.has_output.contains(
                        (m.root, ostr2),
                    ) implies exists|h: Seq<char>|
                        #[trigger] cardinality(
                            rows_v,
                            claims_v,
                            default_tm_name(),
                            Fact { rdrv: rstr, hash: h, output: ostr2 },
                        ) >= default_threshold(m) by {
                        lemma_has_output_view_members(iv, self.has_output@);
                        let j = choose|j: int|
                            0 <= j < self.has_output@.len() && has_output_str(
                                iv,
                                #[trigger] self.has_output@[j],
                            ) == (m.root, ostr2);
                        lemma_txt_inj(
                            iv,
                            self.has_output@[j].0.0 as int,
                            self.expected_root.0 as int,
                        );
                        assert(routs@.contains(self.has_output@[j].1));
                        let k = choose|k: int|
                            0 <= k < routs@.len() && routs@[k] == self.has_output@[j].1;
                        assert(txt(iv, routs@[k].0 as int) == ostr2);
                        let je = choose|je: int|
                            0 <= je < counter.rep().len() && (#[trigger] counter.rep()[je]).0.tm
                                == self.default_tm && counter.rep()[je].0.rdrv == r
                                && counter.rep()[je].0.output == routs@[k]
                                && counter.rep()[je].1 >= tdef;
                        let key = counter.rep()[je].0;
                        assert(has_key(counter.rep(), key));
                        crate::engine::lemma_count_at_pub(counter.rep(), key, je);
                        assert(count_of(counter.rep(), key) >= tdef as nat);
                        assert(txt(iv, key.tm.0 as int) == default_tm_name());
                        assert(att_fact(iv, key) == (Fact {
                            rdrv: rstr,
                            hash: txt(iv, key.hash.0 as int),
                            output: ostr2,
                        }));
                        assert(cardinality(
                            rows_v,
                            claims_v,
                            default_tm_name(),
                            Fact { rdrv: rstr, hash: txt(iv, key.hash.0 as int), output: ostr2 },
                        ) >= default_threshold(m));
                    }
                }
            } else {
                assert(!root_candidate_verified(m, rstr)) by {
                    if olen == 0 {
                    } else {
                        let kk = choose|k: int|
                            0 <= k < olen && !(exists|j: int|
                                0 <= j < counter.rep().len() && (#[trigger] counter.rep()[j]).0.tm
                                    == self.default_tm && counter.rep()[j].0.rdrv == r
                                    && counter.rep()[j].0.output == (#[trigger] routs@[k])
                                    && counter.rep()[j].1 >= tdef);
                        let ostr2 = txt(iv, routs@[kk].0 as int);
                        assert(m.has_output.contains((m.root, ostr2)));
                        if exists|h: Seq<char>|
                            #[trigger] cardinality(
                                rows_v,
                                claims_v,
                                default_tm_name(),
                                Fact { rdrv: rstr, hash: h, output: ostr2 },
                            ) >= default_threshold(m) {
                            let h = choose|h: Seq<char>|
                                #[trigger] cardinality(
                                    rows_v,
                                    claims_v,
                                    default_tm_name(),
                                    Fact { rdrv: rstr, hash: h, output: ostr2 },
                                ) >= default_threshold(m);
                            let f = Fact { rdrv: rstr, hash: h, output: ostr2 };
                            let ch = attesting_children(rows_v, astr, default_tm_name(), f);
                            assert(ch.len() >= 1);
                            assert(!(ch.len() == 0));
                            let k2 = choose|k2: Att|
                                #[trigger] has_key(counter.rep(), k2) && att_str(iv, k2) == (
                                    default_tm_name(),
                                    f,
                                );
                            let j2 = choose|j2: int|
                                0 <= j2 < counter.rep().len() && (#[trigger] counter.rep()[j2]).0
                                    == k2;
                            lemma_txt_inj(iv, k2.tm.0 as int, self.default_tm.0 as int);
                            lemma_txt_inj(iv, k2.rdrv.0 as int, r.0 as int);
                            lemma_txt_inj(iv, k2.output.0 as int, routs@[kk].0 as int);
                            crate::engine::lemma_count_at_pub(counter.rep(), k2, j2);
                            assert(count_of(counter.rep(), k2) == ch.len());
                            assert(counter.rep()[j2].1 >= tdef);
                            assert(counter.rep()[j2].0.tm == self.default_tm);
                            assert(counter.rep()[j2].0.rdrv == r);
                            assert(counter.rep()[j2].0.output == routs@[kk]);
                            assert(false);
                        }
                        assert(!root_candidate_verified(m, rstr)) by {
                            assert(m.has_output.contains((m.root, ostr2)));
                        }
                    }
                }
            }
        }
        all_ok
    }
}

impl TrustModelReasoner {
    /// Evaluate: check graph well-formedness, run the trust closure, and
    /// return the names of the verified resolutions of the expected root.
    /// Evaluation freezes the reasoner; a second call is refused.
    #[verifier::rlimit(50)]
    pub fn compute_result(&mut self) -> (r: Result<Vec<String>, ReasonerError>)
        requires
            old(self).wf(),
        ensures
            final(self).wf(),
            match r {
                Ok(names) => {
                    &&& !old(self)@.completed
                    &&& final(self)@ == with_completed(old(self)@)
                    &&& names@.map_values(|s: String| s@).to_set() == result_names(old(self)@)
                    &&& names@.no_duplicates()
                },
                Err(ReasonerError::StateMisuse) => old(self)@.completed && final(self)@ == old(
                    self,
                )@,
                Err(_) => false,
            },
    {
        if self.completed {
            return Err(ReasonerError::StateMisuse);
        }
        let ghost m = self@;
        let ghost iv = self.interner@;
        let ghost rows_v = m.rows;
        let ghost claims_v = m.claims;
        proof {
            self.lemma_view_wf();
        }

        // graph well-formedness: fixed-output derivations must be leaves
        if self.has_fod_violation() {
            let out: Vec<String> = Vec::new();
            self.completed = true;
            proof {
                assert(self@ =~= with_completed(m));
                assert(result_names(m) =~= Set::<Seq<char>>::empty());
                assert(out@.map_values(|s: String| s@) =~= Seq::<Seq<char>>::empty());
                assert(out@.map_values(|s: String| s@).to_set() =~= Set::<Seq<char>>::empty());
            }
            return Ok(out);
        }

        // the propagation index and the default agreement threshold
        let edges = self.build_edges();
        let tdef = self.default_threshold_exec();
        let nrows = self.tm_rows.len();

        // seed the derived relation from the claims
        let mut var = Variable::new();
        let cn = self.claims.len();
        let mut ci: usize = 0;
        while ci < cn
            invariant
                self.wf(),
                m == self@,
                iv == self.interner@,
                cn == self.claims@.len(),
                ci <= cn,
                var.inv(),
                var.stable@ == Seq::<Att>::empty(),
                var.recent@ == Seq::<Att>::empty(),
                var.to_add@ == self.claims@.take(ci as int),
            decreases cn - ci,
        {
            let c = self.claims[ci];
            var.insert(c);
            proof {
                assert(self.claims@.take(ci + 1) =~= self.claims@.take(ci as int).push(c));
            }
            ci = ci + 1;
        }
        let mut counter = Counter::new();
        proof {
            assert(self.claims@.take(cn as int) =~= self.claims@);
            assert(claims_view(iv, Seq::<Att>::empty()) =~= Set::<(Seq<char>, Fact)>::empty());
            lemma_claims_in_attested(rows_v, claims_v);
            assert(var_all_str(iv, var) =~= claims_v);
            assert(var_ids_ok(iv, var));
        }

        let ghost big = attested_bound(rows_v, claims_v);
        proof {
            lemma_attested_finite(rows_v, claims_v);
        }
        let mut more = var.changed();
        proof {
            assert(var.stable@ =~= Seq::<Att>::empty());
            assert(var.stable@.to_set() =~= Set::<Att>::empty());
            assert(claims_view(iv, var.stable@) =~= Set::<(Seq<char>, Fact)>::empty());
            assert(claims_view(iv, var.recent@) =~= claims_v) by {
                lemma_claims_view_members(iv, var.recent@);
                lemma_claims_view_members(iv, self.claims@);
                assert(var.recent@.to_set() =~= self.claims@.to_set());
                assert forall|x: (Seq<char>, Fact)|
                    claims_view(iv, var.recent@).contains(x) == claims_view(
                        iv,
                        self.claims@,
                    ).contains(x) by {
                    if claims_view(iv, var.recent@).contains(x) {
                        let j = choose|j: int|
                            0 <= j < var.recent@.len() && att_str(
                                iv,
                                #[trigger] var.recent@[j],
                            ) == x;
                        assert(var.recent@.to_set().contains(var.recent@[j]));
                        assert(self.claims@.to_set().contains(var.recent@[j]));
                        let j2 = choose|j2: int|
                            0 <= j2 < self.claims@.len() && self.claims@[j2] == var.recent@[j];
                        assert(att_str(iv, self.claims@[j2]) == x);
                    }
                    if claims_view(iv, self.claims@).contains(x) {
                        let j = choose|j: int|
                            0 <= j < self.claims@.len() && att_str(
                                iv,
                                #[trigger] self.claims@[j],
                            ) == x;
                        assert(self.claims@.to_set().contains(self.claims@[j]));
                        assert(var.recent@.to_set().contains(self.claims@[j]));
                        let j2 = choose|j2: int|
                            0 <= j2 < var.recent@.len() && var.recent@[j2] == self.claims@[j];
                        assert(att_str(iv, var.recent@[j2]) == x);
                    }
                }
            }
            assert(claims_view(iv, var.to_add@) =~= Set::<(Seq<char>, Fact)>::empty());
            assert(var_all_str(iv, var) =~= claims_v);
            assert(var_ids_ok(iv, var)) by {
                assert forall|j: int| 0 <= j < var.recent@.len() implies att_ok(
                    iv,
                    #[trigger] var.recent@[j],
                ) by {
                    assert(var.recent@.to_set().contains(var.recent@[j]));
                    assert(self.claims@.to_set().contains(var.recent@[j]));
                    let j2 = choose|j2: int|
                        0 <= j2 < self.claims@.len() && self.claims@[j2] == var.recent@[j];
                }
            }
            assert(counter_matches(iv, rows_v, counter, claims_view(iv, var.stable@)));
            assert(counter_covers(iv, rows_v, counter, claims_view(iv, var.stable@))) by {
                assert forall|p: Seq<char>, f: Fact|
                    (#[trigger] attesting_children(
                        rows_v,
                        claims_view(iv, var.stable@),
                        p,
                        f,
                    )).len() == 0 by {
                    assert(attesting_children(rows_v, claims_view(iv, var.stable@), p, f)
                        =~= Set::<Seq<char>>::empty());
                }
            }
            assert(crossing_present(
                rows_v,
                claims_view(iv, var.stable@),
                var_all_str(iv, var),
            )) by {
                assert forall|p: Seq<char>, f: Fact|
                    (#[trigger] attesting_children(
                        rows_v,
                        claims_view(iv, var.stable@),
                        p,
                        f,
                    )).len() == 0 by {
                    assert(attesting_children(rows_v, claims_view(iv, var.stable@), p, f)
                        =~= Set::<Seq<char>>::empty());
                }
            }
        }
        while more
            invariant
                self.wf(),
                m == self@,
                iv == self.interner@,
                rows_v == m.rows,
                claims_v == m.claims,
                big == attested_bound(rows_v, claims_v),
                big.finite(),
                attested(rows_v, claims_v).subset_of(big),
                rows_wf(rows_v),
                claims_v.finite(),
                nrows == self.tm_rows@.len(),
                forall|e: int| 0 <= e < edges@.len() ==> {
                    let (c, p, t) = #[trigger] edges@[e];
                    &&& tm_ok(iv, c)
                    &&& tm_ok(iv, p)
                    &&& rows_v.dom().contains(txt(iv, c.0 as int))
                    &&& rows_v[txt(iv, c.0 as int)].parent == Some(txt(iv, p.0 as int))
                    &&& rows_v.dom().contains(txt(iv, p.0 as int))
                    &&& rows_v[txt(iv, p.0 as int)].threshold == t as nat
                    &&& t >= 1
                },
                forall|j: int|
                    0 <= j < self.tm_rows@.len() && (#[trigger] self.tm_rows@[j]).parent is Some
                        ==> exists|e: int|
                        0 <= e < edges@.len() && (#[trigger] edges@[e]).0 == self.tm_rows@[j].tm,
                var.inv(),
                var_ids_ok(iv, var),
                var.to_add@ == Seq::<Att>::empty(),
                counter.inv(),
                counter_keys_ok(iv, counter),
                var_all_str(iv, var).subset_of(attested(rows_v, claims_v)),
                claims_v.subset_of(var_all_str(iv, var)),
                counter_matches(iv, rows_v, counter, claims_view(iv, var.stable@)),
                counter_covers(iv, rows_v, counter, claims_view(iv, var.stable@)),
                crossing_present(rows_v, claims_view(iv, var.stable@), var_all_str(iv, var)),
                more == (var.recent@.len() > 0),
            decreases 2 * big.len() - 2 * var.stable@.len() - var.recent@.len(),
        {
            let ghost st0 = var.stable@;
            let ghost re0 = var.recent@;
            proof {
                assert(re0.take(0) =~= Seq::<Att>::empty());
                assert(claims_view(iv, re0.take(0)) =~= Set::<(Seq<char>, Fact)>::empty());
                assert(claims_view(iv, st0).union(claims_view(iv, re0.take(0))) =~= claims_view(
                    iv,
                    st0,
                ));
            }
            let rn = var.recent.len();
            let mut i: usize = 0;
            while i < rn
                invariant
                    self.wf(),
                    m == self@,
                    iv == self.interner@,
                    rows_v == m.rows,
                    claims_v == m.claims,
                    rows_wf(rows_v),
                    nrows == self.tm_rows@.len(),
                    forall|e: int| 0 <= e < edges@.len() ==> {
                        let (c, p, t) = #[trigger] edges@[e];
                        &&& tm_ok(iv, c)
                        &&& tm_ok(iv, p)
                        &&& rows_v.dom().contains(txt(iv, c.0 as int))
                        &&& rows_v[txt(iv, c.0 as int)].parent == Some(txt(iv, p.0 as int))
                        &&& rows_v.dom().contains(txt(iv, p.0 as int))
                        &&& rows_v[txt(iv, p.0 as int)].threshold == t as nat
                        &&& t >= 1
                    },
                    forall|j: int|
                        0 <= j < self.tm_rows@.len() && (#[trigger] self.tm_rows@[j]).parent
                            is Some ==> exists|e: int|
                            0 <= e < edges@.len() && (#[trigger] edges@[e]).0
                                == self.tm_rows@[j].tm,
                    rn == re0.len(),
                    i <= rn,
                    var.stable@ == st0,
                    var.recent@ == re0,
                    var.inv(),
                    var_ids_ok(iv, var),
                    counter.inv(),
                    counter_keys_ok(iv, counter),
                    var_all_str(iv, var).subset_of(attested(rows_v, claims_v)),
                    claims_v.subset_of(var_all_str(iv, var)),
                    counter_matches(
                        iv,
                        rows_v,
                        counter,
                        claims_view(iv, st0).union(claims_view(iv, re0.take(i as int))),
                    ),
                    counter_covers(
                        iv,
                        rows_v,
                        counter,
                        claims_view(iv, st0).union(claims_view(iv, re0.take(i as int))),
                    ),
                    crossing_present(
                        rows_v,
                        claims_view(iv, st0).union(claims_view(iv, re0.take(i as int))),
                        var_all_str(iv, var),
                    ),
                decreases rn - i,
            {
                let a = var.recent[i];
                let ghost fstr = att_fact(iv, a);
                let ghost cstr = txt(iv, a.tm.0 as int);
                let ghost p_i = claims_view(iv, st0).union(claims_view(iv, re0.take(i as int)));
                let ghost p_i1 = claims_view(iv, st0).union(claims_view(iv, re0.take(i + 1)));
                proof {
                    lemma_take_succ(re0, i as int);
                    lemma_claims_view_push(iv, re0.take(i as int), a);
                    assert(p_i1 =~= p_i.insert((cstr, fstr)));
                    assert(!p_i.contains((cstr, fstr))) by {
                        lemma_claims_view_members(iv, st0);
                        lemma_claims_view_members(iv, re0.take(i as int));
                        if claims_view(iv, st0).contains((cstr, fstr)) {
                            let j = choose|j: int|
                                0 <= j < st0.len() && att_str(iv, #[trigger] st0[j]) == (
                                    cstr,
                                    fstr,
                                );
                            lemma_att_str_inj(iv, st0[j], a);
                        }
                        if claims_view(iv, re0.take(i as int)).contains((cstr, fstr)) {
                            let j = choose|j: int|
                                0 <= j < re0.take(i as int).len() && att_str(
                                    iv,
                                    #[trigger] re0.take(i as int)[j],
                                ) == (cstr, fstr);
                            lemma_att_str_inj(iv, re0.take(i as int)[j], a);
                            assert(re0[j] == re0[i as int]);
                        }
                    }
                    lemma_children_insert(rows_v, p_i, cstr, fstr);
                    assert(attested(rows_v, claims_v).contains((cstr, fstr))) by {
                        lemma_claims_view_members(iv, re0);
                        assert(claims_view(iv, re0).contains(att_str(iv, a)));
                        assert(var_all_str(iv, var).contains((cstr, fstr)));
                    }
                }
                let eo = find_edge(&edges, a.tm);
                match eo {
                    Some(ei) => {
                        let edge = edges[ei];
                        let key = Att { tm: edge.1, rdrv: a.rdrv, hash: a.hash, output: a.output };
                        let ghost pname = txt(iv, edge.1.0 as int);
                        proof {
                            assert(txt(iv, edge.0.0 as int) == cstr);
                            assert(rows_v[cstr].parent == Some(pname));
                            assert(att_fact(iv, key) == fstr);
                            assert(txt(iv, key.tm.0 as int) == pname);
                            lemma_children_card(iv, self.tm_rows@, p_i, pname, fstr);
                            assert(count_of(counter.rep(), key) == attesting_children(
                                rows_v,
                                p_i,
                                pname,
                                fstr,
                            ).len()) by {
                                if has_key(counter.rep(), key) {
                                } else {
                                    if attesting_children(rows_v, p_i, pname, fstr).len() != 0 {
                                        let k2 = choose|k2: Att|
                                            #[trigger] has_key(counter.rep(), k2) && att_str(
                                                iv,
                                                k2,
                                            ) == (pname, fstr);
                                        let j2 = choose|j2: int|
                                            0 <= j2 < counter.rep().len() && (
                                            #[trigger] counter.rep()[j2]).0 == k2;
                                        lemma_att_str_inj(iv, k2, key);
                                    }
                                    assert(count_of(counter.rep(), key) == 0);
                                }
                            }
                            assert(count_of(counter.rep(), key) < usize::MAX);
                        }
                        let ghost crep0 = counter.rep();
                        let ghost allb4 = var_all_str(iv, var);
                        let ghost ta0 = var.to_add@;
                        proof {
                            assert(p_i.subset_of(allb4)) by {
                                lemma_claims_view_members(iv, re0.take(i as int));
                                lemma_claims_view_members(iv, re0);
                                assert forall|x: (Seq<char>, Fact)| p_i.contains(x) implies
                                    allb4.contains(x) by {
                                    if claims_view(iv, re0.take(i as int)).contains(x) {
                                        let j = choose|j: int|
                                            0 <= j < re0.take(i as int).len() && att_str(
                                                iv,
                                                #[trigger] re0.take(i as int)[j],
                                            ) == x;
                                        assert(att_str(iv, re0[j]) == x);
                                        assert(claims_view(iv, re0).contains(x));
                                    }
                                }
                            }
                        }
                        let cnt2 = counter.bump(key);
                        if cnt2 == edge.2 {
                            var.insert(key);
                            proof {
                                assert(attesting_children(rows_v, p_i1, pname, fstr).len()
                                    == cnt2) by {
                                    assert(attesting_children(rows_v, p_i1, pname, fstr)
                                        == attesting_children(rows_v, p_i, pname, fstr).insert(
                                        cstr,
                                    ));
                                    lemma_children_finite(rows_v, p_i, pname, fstr);
                                }
                                assert(p_i1.subset_of(attested(rows_v, claims_v)));
                                lemma_children_mono(
                                    rows_v,
                                    p_i1,
                                    attested(rows_v, claims_v),
                                    pname,
                                    fstr,
                                );
                                lemma_children_finite(
                                    rows_v,
                                    attested(rows_v, claims_v),
                                    pname,
                                    fstr,
                                );
                                lemma_len_subset(
                                    attesting_children(rows_v, p_i1, pname, fstr),
                                    attesting_children(
                                        rows_v,
                                        attested(rows_v, claims_v),
                                        pname,
                                        fstr,
                                    ),
                                );
                                lemma_attested_closed(rows_v, claims_v, pname, fstr);
                                assert(att_str(iv, key) == (pname, fstr));
                                lemma_claims_view_push(iv, ta0, key);
                                assert(var.to_add@ == ta0.push(key));
                                assert(var_all_str(iv, var) =~= allb4.insert((pname, fstr)));
                                assert(var_all_str(iv, var).subset_of(
                                    attested(rows_v, claims_v),
                                ));
                                assert(claims_v.subset_of(var_all_str(iv, var)));
                                assert(var_ids_ok(iv, var)) by {
                                    assert forall|j: int| 0 <= j < var.to_add@.len() implies
                                        att_ok(iv, #[trigger] var.to_add@[j]) by {
                                        if j < ta0.len() {
                                            assert(var.to_add@[j] == ta0[j]);
                                        } else {
                                            assert(var.to_add@[j] == key);
                                        }
                                    }
                                }
                            }
                        }
                        proof {
                            assert(counter_keys_ok(iv, counter)) by {
                                assert(att_ok(iv, key));
                                assert forall|j: int| 0 <= j < counter.rep().len() implies att_ok(
                                    iv,
                                    (#[trigger] counter.rep()[j]).0,
                                ) by {
                                    let k2 = counter.rep()[j].0;
                                    assert(has_key(counter.rep(), k2));
                                    if k2 != key {
                                        assert(has_key(crep0, k2));
                                        let j2 = choose|j2: int|
                                            0 <= j2 < crep0.len() && (#[trigger] crep0[j2]).0
                                                == k2;
                                    }
                                }
                            }
                            assert(attesting_children(rows_v, p_i1, pname, fstr)
                                == attesting_children(rows_v, p_i, pname, fstr).insert(cstr));
                            assert(attesting_children(rows_v, p_i1, pname, fstr).len() == count_of(
                                crep0,
                                key,
                            ) + 1) by {
                                lemma_children_finite(rows_v, p_i, pname, fstr);
                            }
                            assert forall|k2: Att| #[trigger] has_key(counter.rep(), k2) implies
                                count_of(counter.rep(), k2) == attesting_children(
                                rows_v,
                                p_i1,
                                txt(iv, k2.tm.0 as int),
                                att_fact(iv, k2),
                            ).len() by {
                                if k2 == key {
                                } else {
                                    assert(has_key(crep0, k2));
                                    if txt(iv, k2.tm.0 as int) == pname && att_fact(iv, k2)
                                        == fstr {
                                        lemma_att_str_inj(iv, k2, key);
                                    }
                                    assert(attesting_children(
                                        rows_v,
                                        p_i1,
                                        txt(iv, k2.tm.0 as int),
                                        att_fact(iv, k2),
                                    ) == attesting_children(
                                        rows_v,
                                        p_i,
                                        txt(iv, k2.tm.0 as int),
                                        att_fact(iv, k2),
                                    ));
                                }
                            }
                            assert forall|p2: Seq<char>, f2: Fact|
                                !((#[trigger] attesting_children(rows_v, p_i1, p2, f2)).len()
                                    == 0) implies (exists|k2: Att|
                                #[trigger] has_key(counter.rep(), k2) && att_str(iv, k2) == (
                                    p2,
                                    f2,
                                )) by {
                                if p2 == pname && f2 == fstr {
                                    assert(has_key(counter.rep(), key));
                                    assert(att_str(iv, key) == (p2, f2));
                                } else {
                                    assert(attesting_children(rows_v, p_i1, p2, f2)
                                        == attesting_children(rows_v, p_i, p2, f2));
                                    let k2 = choose|k2: Att|
                                        #[trigger] has_key(crep0, k2) && att_str(iv, k2) == (
                                            p2,
                                            f2,
                                        );
                                    assert(has_key(counter.rep(), k2));
                                }
                            }
                            assert forall|p2: Seq<char>, f2: Fact|
                                rows_v.dom().contains(p2) && (#[trigger] attesting_children(
                                    rows_v,
                                    p_i1,
                                    p2,
                                    f2,
                                )).len() >= rows_v[p2].threshold implies var_all_str(
                                iv,
                                var,
                            ).contains((p2, f2)) by {
                                if p2 == pname && f2 == fstr {
                                    if cnt2 == edge.2 {
                                        lemma_claims_view_members(iv, var.to_add@);
                                        assert(var.to_add@[var.to_add@.len() - 1] == key);
                                        assert(claims_view(iv, var.to_add@).contains(
                                            (pname, fstr),
                                        ));
                                    } else {
                                        assert(attesting_children(
                                            rows_v,
                                            p_i1,
                                            pname,
                                            fstr,
                                        ).len() == count_of(crep0, key) + 1);
                                        assert(count_of(crep0, key) >= rows_v[pname].threshold);
                                        assert(attesting_children(
                                            rows_v,
                                            p_i,
                                            pname,
                                            fstr,
                                        ).len() >= rows_v[pname].threshold);
                                    }
                                } else {
                                    assert(attesting_children(rows_v, p_i1, p2, f2)
                                        == attesting_children(rows_v, p_i, p2, f2));
                                }
                            }
                        }
                    },
                    None => {
                        proof {
                            assert forall|p2: Seq<char>, f2: Fact|
                                #[trigger] attesting_children(rows_v, p_i1, p2, f2)
                                == attesting_children(rows_v, p_i, p2, f2) by {
                                if rows_v.dom().contains(cstr) && rows_v[cstr].parent == Some(p2)
                                    && f2 == fstr {
                                    lemma_rows_view_facts(iv, self.tm_rows@);
                                    let j = choose|j: int|
                                        0 <= j < self.tm_rows@.len() && #[trigger] row_text(
                                            iv,
                                            self.tm_rows@,
                                            j,
                                        ) == cstr;
                                    lemma_txt_inj(iv, self.tm_rows@[j].tm.0 as int, a.tm.0 as int);
                                    assert(self.tm_rows@[j].tm == a.tm);
                                    assert(rows_v[cstr] == row_str(iv, self.tm_rows@[j]));
                                    assert(self.tm_rows@[j].parent is Some);
                                    assert(false);
                                }
                            }
                        }
                    },
                }
                i = i + 1;
            }
            proof {
                assert(re0.take(rn as int) =~= re0);
            }
            let ghost varpre = var;
            more = var.changed();
            proof {
                let stn = var.stable@;
                assert(claims_view(iv, stn) =~= claims_view(iv, st0).union(
                    claims_view(iv, re0),
                )) by {
                    lemma_claims_view_members(iv, stn);
                    lemma_claims_view_members(iv, st0);
                    lemma_claims_view_members(iv, re0);
                    assert forall|x: (Seq<char>, Fact)|
                        claims_view(iv, stn).contains(x) == (claims_view(iv, st0).contains(x)
                            || claims_view(iv, re0).contains(x)) by {
                        if claims_view(iv, stn).contains(x) {
                            let j = choose|j: int|
                                0 <= j < stn.len() && att_str(iv, #[trigger] stn[j]) == x;
                            if j < st0.len() {
                                assert(att_str(iv, st0[j]) == x);
                            } else {
                                assert(att_str(iv, re0[j - st0.len()]) == x);
                            }
                        }
                        if claims_view(iv, st0).contains(x) {
                            let j = choose|j: int|
                                0 <= j < st0.len() && att_str(iv, #[trigger] st0[j]) == x;
                            assert(att_str(iv, stn[j]) == x);
                        }
                        if claims_view(iv, re0).contains(x) {
                            let j = choose|j: int|
                                0 <= j < re0.len() && att_str(iv, #[trigger] re0[j]) == x;
                            assert(att_str(iv, stn[st0.len() + j]) == x);
                        }
                    }
                }
                assert(var_all_str(iv, var) =~= var_all_str(iv, varpre)) by {
                    assert(var.all() == varpre.all());
                    lemma_claims_view_members(iv, var.stable@);
                    lemma_claims_view_members(iv, var.recent@);
                    lemma_claims_view_members(iv, var.to_add@);
                    lemma_claims_view_members(iv, varpre.stable@);
                    lemma_claims_view_members(iv, varpre.recent@);
                    lemma_claims_view_members(iv, varpre.to_add@);
                    assert forall|x: (Seq<char>, Fact)|
                        var_all_str(iv, var).contains(x) == var_all_str(iv, varpre).contains(
                            x,
                        ) by {
                        if var_all_str(iv, var).contains(x) {
                            if claims_view(iv, var.stable@).contains(x) {
                                let j = choose|j: int|
                                    0 <= j < var.stable@.len() && att_str(
                                        iv,
                                        #[trigger] var.stable@[j],
                                    ) == x;
                                assert(var.stable@.to_set().contains(var.stable@[j]));
                                assert(varpre.all().contains(var.stable@[j]));
                            } else if claims_view(iv, var.recent@).contains(x) {
                                let j = choose|j: int|
                                    0 <= j < var.recent@.len() && att_str(
                                        iv,
                                        #[trigger] var.recent@[j],
                                    ) == x;
                                assert(var.recent@.to_set().contains(var.recent@[j]));
                                assert(varpre.all().contains(var.recent@[j]));
                            } else {
                                let j = choose|j: int|
                                    0 <= j < var.to_add@.len() && att_str(
                                        iv,
                                        #[trigger] var.to_add@[j],
                                    ) == x;
                                assert(var.to_add@.to_set().contains(var.to_add@[j]));
                                assert(varpre.all().contains(var.to_add@[j]));
                            }
                        }
                        if var_all_str(iv, varpre).contains(x) {
                            if claims_view(iv, varpre.stable@).contains(x) {
                                let j = choose|j: int|
                                    0 <= j < varpre.stable@.len() && att_str(
                                        iv,
                                        #[trigger] varpre.stable@[j],
                                    ) == x;
                                assert(varpre.stable@.to_set().contains(varpre.stable@[j]));
                                assert(var.all().contains(varpre.stable@[j]));
                            } else if claims_view(iv, varpre.recent@).contains(x) {
                                let j = choose|j: int|
                                    0 <= j < varpre.recent@.len() && att_str(
                                        iv,
                                        #[trigger] varpre.recent@[j],
                                    ) == x;
                                assert(varpre.recent@.to_set().contains(varpre.recent@[j]));
                                assert(var.all().contains(varpre.recent@[j]));
                            } else {
                                let j = choose|j: int|
                                    0 <= j < varpre.to_add@.len() && att_str(
                                        iv,
                                        #[trigger] varpre.to_add@[j],
                                    ) == x;
                                assert(varpre.to_add@.to_set().contains(varpre.to_add@[j]));
                                assert(var.all().contains(varpre.to_add@[j]));
                            }
                        }
                    }
                }
                assert forall|x: Att| #[trigger] var.all().contains(x) implies att_ok(iv, x) by {
                    if var.stable@.to_set().contains(x) {
                        let j = choose|j: int| 0 <= j < var.stable@.len() && var.stable@[j] == x;
                    } else if var.recent@.to_set().contains(x) {
                        let j = choose|j: int| 0 <= j < var.recent@.len() && var.recent@[j] == x;
                    } else {
                        let j = choose|j: int| 0 <= j < var.to_add@.len() && var.to_add@[j] == x;
                    }
                }
                assert(var_ids_ok(iv, var)) by {
                    assert forall|j: int| 0 <= j < var.stable@.len() implies att_ok(
                        iv,
                        #[trigger] var.stable@[j],
                    ) by {
                        assert(var.stable@.to_set().contains(var.stable@[j]));
                        assert(var.all().contains(var.stable@[j]));
                    }
                    assert forall|j: int| 0 <= j < var.recent@.len() implies att_ok(
                        iv,
                        #[trigger] var.recent@[j],
                    ) by {
                        assert(var.recent@.to_set().contains(var.recent@[j]));
                        assert(var.all().contains(var.recent@[j]));
                    }
                }
                lemma_atts_card(iv, var.stable@);
                lemma_atts_card(iv, var.recent@);
                assert(claims_view(iv, var.stable@).disjoint(claims_view(iv, var.recent@))) by {
                    lemma_claims_view_members(iv, var.stable@);
                    lemma_claims_view_members(iv, var.recent@);
                    assert forall|x: (Seq<char>, Fact)|
                        !(claims_view(iv, var.stable@).contains(x) && claims_view(
                            iv,
                            var.recent@,
                        ).contains(x)) by {
                        if claims_view(iv, var.stable@).contains(x) && claims_view(
                            iv,
                            var.recent@,
                        ).contains(x) {
                            let j1 = choose|j: int|
                                0 <= j < var.stable@.len() && att_str(
                                    iv,
                                    #[trigger] var.stable@[j],
                                ) == x;
                            let j2 = choose|j: int|
                                0 <= j < var.recent@.len() && att_str(
                                    iv,
                                    #[trigger] var.recent@[j],
                                ) == x;
                            lemma_att_str_inj(iv, var.stable@[j1], var.recent@[j2]);
                        }
                    }
                }
                vstd::set_lib::lemma_set_disjoint_lens(
                    claims_view(iv, var.stable@),
                    claims_view(iv, var.recent@),
                );
                assert(claims_view(iv, var.stable@).union(claims_view(iv, var.recent@)).subset_of(
                    big,
                )) by {
                    assert(var_proc_str(iv, var).subset_of(var_all_str(iv, var)));
                }
                lemma_len_subset(
                    claims_view(iv, var.stable@).union(claims_view(iv, var.recent@)),
                    big,
                );
                assert(var.stable@.len() + var.recent@.len() <= big.len());
            }
        }

        // the stable tuples name exactly the attestation closure
        let ghost astr = claims_view(iv, var.stable@);
        proof {
            assert(claims_view(iv, var.recent@) =~= Set::<(Seq<char>, Fact)>::empty());
            assert(claims_view(iv, var.to_add@) =~= Set::<(Seq<char>, Fact)>::empty());
            assert(var_all_str(iv, var) =~= astr);
            assert(claims_v.subset_of(astr));
            assert forall|p: Seq<char>, f: Fact|
                rows_v.dom().contains(p) && #[trigger] attesting_children(rows_v, astr, p, f).len()
                    >= rows_v[p].threshold implies astr.contains((p, f)) by {
                assert(crossing_present(
                    rows_v,
                    claims_view(iv, var.stable@),
                    var_all_str(iv, var),
                ));
            }
            lemma_attested_least(rows_v, claims_v, astr);
            assert(astr =~= attested(rows_v, claims_v));
        }

        // root resolution and root-output adequacy
        let roots = self.collect_roots();
        let routs = self.collect_root_outputs();
        let rlen = roots.len();
        let mut result: Vec<String> = Vec::new();
        let mut i: usize = 0;
        while i < rlen
            invariant
                self.wf(),
                m == self@,
                iv == self.interner@,
                rows_v == m.rows,
                claims_v == m.claims,
                !fod_violation(m),
                rlen == roots@.len(),
                i <= rlen,
                tdef as nat == default_threshold(m),
                tdef >= 1,
                counter.inv(),
                counter_keys_ok(iv, counter),
                counter_matches(iv, rows_v, counter, astr),
                counter_covers(iv, rows_v, counter, astr),
                astr == attested(rows_v, claims_v),
                forall|k: int| 0 <= k < roots@.len() ==> rdrv_ok(iv, #[trigger] roots@[k])
                    && m.resolves.contains((txt(iv, roots@[k].0 as int), m.root)),
                forall|j: int|
                    0 <= j < self.resolves@.len() && (#[trigger] self.resolves@[j]).1
                        == self.expected_root ==> roots@.contains(self.resolves@[j].0),
                forall|a2: int, b2: int|
                    0 <= a2 < b2 < roots@.len() ==> #[trigger] roots@[a2] != #[trigger] roots@[b2],
                forall|k: int| 0 <= k < routs@.len() ==> out_ok(iv, #[trigger] routs@[k])
                    && m.has_output.contains((m.root, txt(iv, routs@[k].0 as int))),
                forall|j: int|
                    0 <= j < self.has_output@.len() && (#[trigger] self.has_output@[j]).0
                        == self.expected_root ==> routs@.contains(self.has_output@[j].1),
                routs@.len() == 0 ==> !(exists|o: Seq<char>|
                    #[trigger] m.has_output.contains((m.root, o))),
                forall|idx: int| 0 <= idx < result@.len() ==> result_names(m).contains(
                    (#[trigger] result@[idx])@,
                ),
                forall|k: int|
                    0 <= k < i && root_candidate_verified(
                        m,
                        txt(iv, (#[trigger] roots@[k]).0 as int),
                    ) ==> exists|idx: int|
                        0 <= idx < result@.len() && (#[trigger] result@[idx])@ == txt(
                            iv,
                            roots@[k].0 as int,
                        ),
                forall|idx: int| 0 <= idx < result@.len() ==> exists|k: int|
                    0 <= k < i && txt(iv, (#[trigger] roots@[k]).0 as int) == (
                    #[trigger] result@[idx])@,
                forall|a2: int, b2: int|
                    0 <= a2 < b2 < result@.len() ==> (#[trigger] result@[a2])@ != (
                    #[trigger] result@[b2])@,
            decreases rlen - i,
        {
            let r = roots[i];
            let ghost rstr = txt(iv, r.0 as int);
            let ok = self.root_adequate(&counter, r, &routs, tdef, Ghost(astr));
            if ok {
                let name = self.interner.text_at(r.0);
                let ghost result_pre = result@;
                result.push(name);
                proof {
                    assert(result_names(m).contains(rstr));
                    assert forall|a2: int, b2: int|
                        0 <= a2 < b2 < result@.len() implies (#[trigger] result@[a2])@ != (
                        #[trigger] result@[b2])@ by {
                        if b2 == result@.len() - 1 {
                            let k = choose|k: int|
                                0 <= k < i && txt(iv, (#[trigger] roots@[k]).0 as int)
                                    == result_pre[a2]@;
                            lemma_txt_inj_contra(iv, roots@[k].0 as int, r.0 as int);
                        }
                    }
                    assert forall|idx: int| 0 <= idx < result@.len() implies exists|k: int|
                        0 <= k < i + 1 && txt(iv, (#[trigger] roots@[k]).0 as int) == (
                        #[trigger] result@[idx])@ by {
                        if idx < result@.len() - 1 {
                            let k = choose|k: int|
                                0 <= k < i && txt(iv, (#[trigger] roots@[k]).0 as int)
                                    == result_pre[idx]@;
                        } else {
                            assert(txt(iv, roots@[i as int].0 as int) == result@[idx]@);
                        }
                    }
                    assert forall|k: int|
                        0 <= k < i + 1 && root_candidate_verified(
                            m,
                            txt(iv, (#[trigger] roots@[k]).0 as int),
                        ) implies exists|idx: int|
                        0 <= idx < result@.len() && (#[trigger] result@[idx])@ == txt(
                            iv,
                            roots@[k].0 as int,
                        ) by {
                        if k < i {
                            let idx = choose|idx: int|
                                0 <= idx < result_pre.len() && (#[trigger] result_pre[idx])@
                                    == txt(iv, roots@[k].0 as int);
                            assert(result@[idx]@ == txt(iv, roots@[k].0 as int));
                        } else {
                            assert(result@[result@.len() - 1]@ == txt(iv, roots@[k].0 as int));
                        }
                    }
                }
            } else {
                proof {
                    assert forall|k: int|
                        0 <= k < i + 1 && root_candidate_verified(
                            m,
                            txt(iv, (#[trigger] roots@[k]).0 as int),
                        ) implies exists|idx: int|
                        0 <= idx < result@.len() && (#[trigger] result@[idx])@ == txt(
                            iv,
                            roots@[k].0 as int,
                        ) by {
                        if k < i {
                            let idx = choose|idx: int|
                                0 <= idx < result@.len() && (#[trigger] result@[idx])@ == txt(
                                    iv,
                                    roots@[k].0 as int,
                                );
                        } else {
                            lemma_txt_inj(iv, roots@[k].0 as int, r.0 as int);
                        }
                    }
                }
            }
            i = i + 1;
        }
        self.completed = true;
        proof {
            assert(self@ =~= with_completed(m));
            assert(result_names(m) == verified_names(m));
            assert forall|s: Seq<char>| #[trigger] result_names(m).contains(s) implies exists|
                idx: int,
            | 0 <= idx < result@.len() && (#[trigger] result@[idx])@ == s by {
                assert(root_candidate_verified(m, s));
                lemma_resolves_view_members(iv, self.resolves@);
                let j = choose|j: int|
                    0 <= j < self.resolves@.len() && resolves_str(
                        iv,
                        #[trigger] self.resolves@[j],
                    ) == (s, m.root);
                lemma_txt_inj(iv, self.resolves@[j].1.0 as int, self.expected_root.0 as int);
                assert(roots@.contains(self.resolves@[j].0));
                let k = choose|k: int| 0 <= k < roots@.len() && roots@[k] == self.resolves@[j].0;
                assert(txt(iv, roots@[k].0 as int) == s);
            }
            let mapped = result@.map_values(|s: String| s@);
            assert forall|x: Seq<char>| mapped.to_set().contains(x) == result_names(m).contains(
                x,
            ) by {
                if mapped.to_set().contains(x) {
                    let idx = choose|idx: int| 0 <= idx < mapped.len() && mapped[idx] == x;
                    assert(result@[idx]@ == x);
                }
                if result_names(m).contains(x) {
                    let idx = choose|idx: int|
                        0 <= idx < result@.len() && (#[trigger] result@[idx])@ == x;
                    assert(mapped[idx] == x);
                    assert(mapped.contains(x));
                }
            }
            assert(mapped.to_set() =~= result_names(m));
            assert forall|a2: int, b2: int|
                0 <= a2 < b2 < result@.len() implies #[trigger] result@[a2] != #[trigger] result@[
                b2] by {
                if result@[a2] == result@[b2] {
                    assert(result@[a2]@ == result@[b2]@);
                }
            }
            assert(result@.no_duplicates());
        }
        Ok(result)
    }
}

impl TrustModelReasoner {
    /// Rewrite the row of an already-configured trust element in place.
    fn update_row(&mut self, j: usize, rec: TmRowRec)
        requires
            old(self).wf(),
            j < old(self).tm_rows@.len(),
            old(self).tm_rows@[j as int].tm == rec.tm,
            rec.threshold >= 1,
            match rec.parent {
                Some(pq) => tm_ok(old(self).interner@, pq) && pq != rec.tm && exists|k: int|
                    0 <= k < old(self).tm_rows@.len() && (#[trigger] old(self).tm_rows@[k]).tm
                        == pq,
                None => true,
            },
        ensures
            final(self).wf(),
            final(self)@ == (Model {
                rows: old(self)@.rows.insert(
                    txt(old(self).interner@, rec.tm.0 as int),
                    row_str(old(self).interner@, rec),
                ),
                ..old(self)@
            }),
    {
        let ghost iv = self.interner@;
        let ghost rows_before = self.tm_rows@;
        proof {
            assert(row_names_distinct(iv, rows_before)) by {
                assert forall|i2: int, j2: int| 0 <= i2 < j2 < rows_before.len() implies
                    #[trigger] row_text(iv, rows_before, i2) != #[trigger] row_text(
                    iv,
                    rows_before,
                    j2,
                ) by {
                    lemma_txt_inj_contra(
                        iv,
                        rows_before[i2].tm.0 as int,
                        rows_before[j2].tm.0 as int,
                    );
                }
            }
        }
        self.tm_rows[j] = rec;
        proof {
            lemma_rows_view_update(iv, rows_before, j as int, rec);
            assert(self@ =~= (Model {
                rows: rows_view(iv, rows_before).insert(
                    txt(iv, rec.tm.0 as int),
                    row_str(iv, rec),
                ),
                ..self@
            }));
            assert forall|j2: int| 0 <= j2 < self.tm_rows@.len() implies (match (
            #[trigger] self.tm_rows@[j2]).parent {
                Some(pq) => exists|k: int|
                    0 <= k < self.tm_rows@.len() && (#[trigger] self.tm_rows@[k]).tm == pq,
                None => true,
            }) by {
                let par = if j2 == j as int {
                    rec.parent
                } else {
                    rows_before[j2].parent
                };
                match par {
                    Some(pq) => {
                        let k = choose|k: int|
                            0 <= k < rows_before.len() && (#[trigger] rows_before[k]).tm == pq;
                        if k != j as int {
                            assert(self.tm_rows@[k].tm == pq);
                        } else {
                            assert(self.tm_rows@[j as int].tm == pq);
                        }
                    },
                    None => {},
                }
            }
            assert forall|j2: int| 0 <= j2 < self.tm_rows@.len() implies (match (
            #[trigger] self.tm_rows@[j2]).parent {
                Some(pq) => pq != self.tm_rows@[j2].tm,
                None => true,
            }) by {}
            assert forall|j2: int| 0 <= j2 < self.tm_rows@.len() implies (
            #[trigger] self.tm_rows@[j2]).tm == rows_before[j2].tm by {}
            assert forall|j2: int| 0 <= j2 < self.tm_rows@.len() implies (
            #[trigger] self.tm_rows@[j2]).threshold >= 1 by {}
            assert forall|j2: int| 0 <= j2 < self.tm_rows@.len() implies tm_ok(
                iv,
                (#[trigger] self.tm_rows@[j2]).tm,
            ) && (match self.tm_rows@[j2].parent {
                Some(pq) => tm_ok(iv, pq),
                None => true,
            }) by {}
            assert forall|i2: int, j2: int| 0 <= i2 < j2 < self.tm_rows@.len() implies (
            #[trigger] self.tm_rows@[i2]).tm != (#[trigger] self.tm_rows@[j2]).tm by {
                assert(rows_before[i2].tm != rows_before[j2].tm);
            }
            let dj = choose|k: int|
                0 <= k < rows_before.len() && (#[trigger] rows_before[k]).tm == self.default_tm;
            assert(self.tm_rows@[dj].tm == self.default_tm);
            assert(self.wf());
        }
    }

    /// Append the row of a trust element not yet configured.
    fn push_row(&mut self, rec: TmRowRec)
        requires
            old(self).wf(),
            tm_ok(old(self).interner@, rec.tm),
            forall|j: int|
                0 <= j < old(self).tm_rows@.len() ==> (#[trigger] old(self).tm_rows@[j]).tm
                    != rec.tm,
            rec.threshold >= 1,
            match rec.parent {
                Some(pq) => tm_ok(old(self).interner@, pq) && pq != rec.tm && exists|k: int|
                    0 <= k < old(self).tm_rows@.len() && (#[trigger] old(self).tm_rows@[k]).tm
                        == pq,
                None => true,
            },
        ensures
            final(self).wf(),
            final(self)@ == (Model {
                rows: old(self)@.rows.insert(
                    txt(old(self).interner@, rec.tm.0 as int),
                    row_str(old(self).interner@, rec),
                ),
                ..old(self)@
            }),
    {
        let ghost iv = self.interner@;
        let ghost rows_before = self.tm_rows@;
        proof {
            assert(row_names_distinct(iv, rows_before)) by {
                assert forall|i2: int, j2: int| 0 <= i2 < j2 < rows_before.len() implies
                    #[trigger] row_text(iv, rows_before, i2) != #[trigger] row_text(
                    iv,
                    rows_before,
                    j2,
                ) by {
                    lemma_txt_inj_contra(
                        iv,
                        rows_before[i2].tm.0 as int,
                        rows_before[j2].tm.0 as int,
                    );
                }
            }
            assert forall|j2: int| 0 <= j2 < rows_before.len() implies #[trigger] row_text(
                iv,
                rows_before,
                j2,
            ) != txt(iv, rec.tm.0 as int) by {
                lemma_txt_inj_contra(iv, rows_before[j2].tm.0 as int, rec.tm.0 as int);
            }
        }
        self.tm_rows.push(rec);
        proof {
            lemma_rows_view_push(iv, rows_before, rec);
            assert forall|j2: int| 0 <= j2 < self.tm_rows@.len() implies (match (
            #[trigger] self.tm_rows@[j2]).parent {
                Some(pq) => exists|k: int|
                    0 <= k < self.tm_rows@.len() && (#[trigger] self.tm_rows@[k]).tm == pq,
                None => true,
            }) by {
                let par = if j2 < rows_before.len() {
                    rows_before[j2].parent
                } else {
                    rec.parent
                };
                match par {
                    Some(pq) => {
                        let k = choose|k: int|
                            0 <= k < rows_before.len() && (#[trigger] rows_before[k]).tm == pq;
                        assert(self.tm_rows@[k].tm == pq);
                    },
                    None => {},
                }
            }
            assert forall|i2: int, j2: int| 0 <= i2 < j2 < self.tm_rows@.len() implies (
            #[trigger] self.tm_rows@[i2]).tm != (#[trigger] self.tm_rows@[j2]).tm by {
                if j2 == rows_before.len() as int {
                    assert(rows_before[i2].tm != rec.tm);
                }
            }
            assert forall|j2: int| 0 <= j2 < self.tm_rows@.len() implies (match (
            #[trigger] self.tm_rows@[j2]).parent {
                Some(pq) => pq != self.tm_rows@[j2].tm,
                None => true,
            }) by {
                if j2 < rows_before.len() {
                    assert(self.tm_rows@[j2] == rows_before[j2]);
                }
            }
            assert forall|j2: int| 0 <= j2 < self.tm_rows@.len() implies (
            #[trigger] self.tm_rows@[j2]).threshold >= 1 by {
                if j2 < rows_before.len() {
                    assert(self.tm_rows@[j2] == rows_before[j2]);
                }
            }
            assert forall|j2: int| 0 <= j2 < self.tm_rows@.len() implies tm_ok(
                iv,
                (#[trigger] self.tm_rows@[j2]).tm,
            ) && (match self.tm_rows@[j2].parent {
                Some(pq) => tm_ok(iv, pq),
                None => true,
            }) by {
                if j2 < rows_before.len() {
                    assert(self.tm_rows@[j2] == rows_before[j2]);
                }
            }
            let dj = choose|k: int|
                0 <= k < rows_before.len() && (#[trigger] rows_before[k]).tm == self.default_tm;
            assert(self.tm_rows@[dj].tm == self.default_tm);
            assert(self.wf());
        }
    }

    /// Configure a further trust element: a composite with its threshold,
    /// or a key (threshold 1, with a parent). The parent, when given,
    /// must already be configured as a composite. Re-stating an existing
    /// element identically is accepted, and an element configured without
    /// a parent may later be given one; any other change is refused.
    #[verifier::rlimit(40)]
    pub fn add_trust_model(
        &mut self,
        name: &str,
        threshold: usize,
        is_key: bool,
        parent: Option<&str>,
    ) -> (r: Result<(), ReasonerError>)
        requires
            old(self).wf(),
        ensures
            final(self).wf(),
            ({
                let pviews = (match parent {
                    Some(p) => Some(p@),
                    None => None::<Seq<char>>,
                });
                match r {
                    Ok(()) => !old(self)@.completed && !add_tm_confused(old(self)@, name@)
                        && add_tm_valid(old(self)@, name@, threshold as nat, is_key, pviews)
                        && final(self)@ == apply_add_tm(
                        old(self)@,
                        name@,
                        threshold as nat,
                        is_key,
                        pviews,
                    ),
                    Err(ReasonerError::StateMisuse) => old(self)@.completed && final(self)@ == old(
                        self,
                    )@,
                    Err(ReasonerError::UnknownInput) => !old(self)@.completed && add_tm_confused(
                        old(self)@,
                        name@,
                    ) && final(self)@ == old(self)@,
                    Err(ReasonerError::InvalidConfig) => !old(self)@.completed
                        && !add_tm_confused(old(self)@, name@) && !add_tm_valid(
                        old(self)@,
                        name@,
                        threshold as nat,
                        is_key,
                        pviews,
                    ) && final(self)@ == old(self)@,
                }
            }),
    {
        if self.completed {
            return Err(ReasonerError::StateMisuse);
        }
        let ghost m0 = self@;
        let ghost iv0 = self.interner@;
        let ghost pviews: Option<Seq<char>> = match parent {
            Some(p) => Some(p@),
            None => None,
        };
        proof {
            lemma_text_category(iv0, name@);
            lemma_rows_view_facts(iv0, self.tm_rows@);
        }
        if !self.interner.can_intern(name, Category::TrustModel) {
            return Err(ReasonerError::UnknownInput);
        }
        if threshold == 0 {
            return Err(ReasonerError::InvalidConfig);
        }
        if is_key && (threshold != 1 || parent.is_none()) {
            return Err(ReasonerError::InvalidConfig);
        }
        let name_owned: String = name.to_owned();
        let parent_id: Option<TrustModel> = match parent {
            Some(p) => {
                let p_owned: String = p.to_owned();
                if p_owned == name_owned {
                    return Err(ReasonerError::InvalidConfig);
                }
                match self.interner.find_id(p) {
                    None => {
                        proof {
                            if m0.rows.dom().contains(p@) {
                                let jj = choose|jj: int|
                                    0 <= jj < self.tm_rows@.len() && #[trigger] row_text(
                                        iv0,
                                        self.tm_rows@,
                                        jj,
                                    ) == p@;
                                assert(iv0[self.tm_rows@[jj].tm.0 as int].text == p@);
                                assert(has_text(iv0, p@));
                                assert(false);
                            }
                        }
                        return Err(ReasonerError::InvalidConfig);
                    },
                    Some(pid0) => {
                        match find_row(&self.tm_rows, TrustModel(pid0)) {
                            None => {
                                proof {
                                    if m0.rows.dom().contains(p@) {
                                        let jj = choose|jj: int|
                                            0 <= jj < self.tm_rows@.len() && #[trigger] row_text(
                                                iv0,
                                                self.tm_rows@,
                                                jj,
                                            ) == p@;
                                        lemma_txt_inj(
                                            iv0,
                                            self.tm_rows@[jj].tm.0 as int,
                                            pid0 as int,
                                        );
                                        assert(self.tm_rows@[jj].tm == TrustModel(pid0));
                                        assert(false);
                                    }
                                }
                                return Err(ReasonerError::InvalidConfig);
                            },
                            Some(pj) => {
                                proof {
                                    assert(row_text(iv0, self.tm_rows@, pj as int) == p@);
                                    assert(m0.rows.dom().contains(p@));
                                    assert(m0.rows[p@] == row_str(
                                        iv0,
                                        self.tm_rows@[pj as int],
                                    ));
                                }
                                if self.tm_rows[pj].is_key {
                                    return Err(ReasonerError::InvalidConfig);
                                }
                                Some(TrustModel(pid0))
                            },
                        }
                    },
                }
            },
            None => None,
        };
        let existing_j: Option<usize> = match self.interner.find_id(name) {
            Some(nid0) => {
                match find_row(&self.tm_rows, TrustModel(nid0)) {
                    Some(j) => {
                        proof {
                            assert(row_text(iv0, self.tm_rows@, j as int) == name@);
                            assert(m0.rows.dom().contains(name@));
                            assert(m0.rows[name@] == row_str(iv0, self.tm_rows@[j as int]));
                        }
                        Some(j)
                    },
                    None => {
                        proof {
                            if m0.rows.dom().contains(name@) {
                                let jj = choose|jj: int|
                                    0 <= jj < self.tm_rows@.len() && #[trigger] row_text(
                                        iv0,
                                        self.tm_rows@,
                                        jj,
                                    ) == name@;
                                lemma_txt_inj(iv0, self.tm_rows@[jj].tm.0 as int, nid0 as int);
                                assert(self.tm_rows@[jj].tm == TrustModel(nid0));
                                assert(false);
                            }
                        }
                        None
                    },
                }
            },
            None => {
                proof {
                    if m0.rows.dom().contains(name@) {
                        let jj = choose|jj: int|
                            0 <= jj < self.tm_rows@.len() && #[trigger] row_text(
                                iv0,
                                self.tm_rows@,
                                jj,
                            ) == name@;
                        assert(iv0[self.tm_rows@[jj].tm.0 as int].text == name@);
                        assert(has_text(iv0, name@));
                        assert(false);
                    }
                }
                None
            },
        };
        match existing_j {
            Some(j) => {
                let row = self.tm_rows[j];
                if row.threshold != threshold {
                    return Err(ReasonerError::InvalidConfig);
                }
                if row.is_key != is_key {
                    return Err(ReasonerError::InvalidConfig);
                }
                let parent_ok: bool = match row.parent {
                    None => true,
                    Some(q) => match parent_id {
                        Some(pp) => q.0 == pp.0,
                        None => false,
                    },
                };
                if !parent_ok {
                    proof {
                        match row.parent {
                            Some(q) => {
                                assert(m0.rows[name@].parent == Some(txt(iv0, q.0 as int)));
                                match parent_id {
                                    Some(pp) => {
                                        lemma_txt_inj_contra(iv0, q.0 as int, pp.0 as int);
                                    },
                                    None => {},
                                }
                            },
                            None => {},
                        }
                    }
                    return Err(ReasonerError::InvalidConfig);
                }
            },
            None => {},
        }
        proof {
            assert(add_tm_valid(m0, name@, threshold as nat, is_key, pviews));
        }
        let nid = TrustModel(self.intern_as(name, Category::TrustModel));
        let ghost iv1 = self.interner@;
        let ghost m1 = self@;
        let rec = TmRowRec { tm: nid, threshold, is_key, parent: parent_id };
        proof {
            assert(m1.rows == m0.rows);
            match parent_id {
                Some(pp) => {
                    assert(tm_ok(iv1, pp));
                    assert(txt(iv1, pp.0 as int) == pviews.unwrap());
                    lemma_txt_inj_contra(iv1, pp.0 as int, nid.0 as int);
                },
                None => {},
            }
            assert(row_str(iv1, rec) == (TmRow {
                threshold: threshold as nat,
                is_key,
                parent: pviews,
            }));
        }
        match existing_j {
            Some(j) => {
                proof {
                    assert(iv1 == iv0);
                    lemma_txt_inj(iv1, self.tm_rows@[j as int].tm.0 as int, nid.0 as int);
                    assert(self.tm_rows@[j as int].tm == nid);
                }
                self.update_row(j, rec);
            },
            None => {
                proof {
                    lemma_rows_view_facts(iv1, self.tm_rows@);
                    assert forall|j2: int| 0 <= j2 < self.tm_rows@.len() implies (
                    #[trigger] self.tm_rows@[j2]).tm != nid by {
                        if self.tm_rows@[j2].tm == nid {
                            assert(row_text(iv1, self.tm_rows@, j2) == name@);
                            assert(rows_view(iv1, self.tm_rows@).dom().contains(name@));
                        }
                    }
                }
                self.push_row(rec);
            },
        }
        proof {
            assert(self@ =~= apply_add_tm(m0, name@, threshold as nat, is_key, pviews));
        }
        Ok(())
    }
}

} // verus!