//! Mathematical model of the reasoner.
//!
//! Every relation is a set of names (character sequences); the reasoner's
//! ingestion API is modelled by [`apply_op`], trust propagation by the
//! least fixed point [`attested`], and the final outcome by
//! [`result_names`]. The executable reasoner's contracts are stated over
//! this model, and the crate's laws are proved about it.

use vstd::prelude::*;
use vstd::set_lib::lemma_len_subset;

verus! {

/// A fact under attestation: building the resolved derivation `rdrv`
/// produces content hash `hash` for output `output`.
#[verifier::ext_equal]
pub struct Fact {
    pub rdrv: Seq<char>,
    pub hash: Seq<char>,
    pub output: Seq<char>,
}

/// Configuration of one trust element: a key is a leaf with threshold 1
/// and a parent; a composite requires agreement from `threshold` of its
/// children and may itself have a parent.
#[verifier::ext_equal]
pub struct TmRow {
    pub threshold: nat,
    pub is_key: bool,
    pub parent: Option<Seq<char>>,
}

/// The full abstract state of a reasoner.
#[verifier::ext_equal]
pub struct Model {
    /// Whether `compute_result` has already run.
    pub completed: bool,
    /// Names interned per category; a name can live in only one category.
    pub udrv_names: Set<Seq<char>>,
    pub rdrv_names: Set<Seq<char>>,
    pub tm_names: Set<Seq<char>>,
    pub hash_names: Set<Seq<char>>,
    pub output_names: Set<Seq<char>>,
    /// Fixed-output derivations with their declared content hash.
    pub fods: Set<(Seq<char>, Seq<char>)>,
    /// Outputs declared by a derivation.
    pub has_output: Set<(Seq<char>, Seq<char>)>,
    /// Dependency edges from a derivation to an output it consumes.
    pub depends_on: Set<(Seq<char>, Seq<char>)>,
    /// `(rdrv, udrv)`: the resolved derivation resolves the unresolved one.
    pub resolves: Set<(Seq<char>, Seq<char>)>,
    /// `(rdrv, output, hash)`: the hash substituted for a consumed output.
    pub resolves_with: Set<(Seq<char>, Seq<char>, Seq<char>)>,
    /// Signed build-output claims, keyed by the asserting trust element.
    pub claims: Set<(Seq<char>, Fact)>,
    /// Trust-model configuration, one row per trust element.
    pub rows: Map<Seq<char>, TmRow>,
    /// The expected root derivation.
    pub root: Seq<char>,
}

/// Name of the synthetic top-level trust model created at construction.
pub open spec fn default_tm_name() -> Seq<char> {
    "default_trust_model"@
}

/// The default output synthesized for a fixed-output derivation.
pub open spec fn out_name(u: Seq<char>) -> Seq<char> {
    u + "$out"@
}

/// Sanity of a trust-row table: finitely many rows, all with positive
/// thresholds.
pub open spec fn rows_wf(rows: Map<Seq<char>, TmRow>) -> bool {
    &&& rows.dom().finite()
    &&& forall|t: Seq<char>| #[trigger] rows.dom().contains(t) ==> rows[t].threshold >= 1
}

/// Basic sanity of a model: finite relations and positive thresholds,
/// with every parent pointer leading to a configured row, and the
/// default trust model configured.
pub open spec fn model_wf(m: Model) -> bool {
    &&& m.udrv_names.finite()
    &&& m.rdrv_names.finite()
    &&& m.tm_names.finite()
    &&& m.hash_names.finite()
    &&& m.output_names.finite()
    &&& m.fods.finite()
    &&& m.has_output.finite()
    &&& m.depends_on.finite()
    &&& m.resolves.finite()
    &&& m.resolves_with.finite()
    &&& m.claims.finite()
    &&& rows_wf(m.rows)
    &&& forall|t: Seq<char>| #[trigger] m.rows.dom().contains(t) ==> match m.rows[t].parent {
        Some(p) => m.rows.dom().contains(p),
        None => true,
    }
    &&& m.rows.dom().contains(default_tm_name())
}

// ---------------------------------------------------------------------
// Trust-propagation closure
// ---------------------------------------------------------------------

/// The children of trust element `p` that attest fact `f` in the
/// attestation set `s`.
pub open spec fn attesting_children(
    rows: Map<Seq<char>, TmRow>,
    s: Set<(Seq<char>, Fact)>,
    p: Seq<char>,
    f: Fact,
) -> Set<Seq<char>> {
    Set::new(
        |c: Seq<char>|
            rows.dom().contains(c) && rows[c].parent == Some(p) && s.contains((c, f)),
    )
}

/// One round of trust propagation: a trust element attests a fact once
/// enough of its children attest it.
pub open spec fn step(rows: Map<Seq<char>, TmRow>, s: Set<(Seq<char>, Fact)>) -> Set<
    (Seq<char>, Fact),
> {
    s.union(
        Set::new(
            |pf: (Seq<char>, Fact)|
                rows.dom().contains(pf.0) && attesting_children(rows, s, pf.0, pf.1).len()
                    >= rows[pf.0].threshold,
        ),
    )
}

/// The attestation set after `k` rounds, seeded from the claims.
pub open spec fn attested_at(
    rows: Map<Seq<char>, TmRow>,
    claims: Set<(Seq<char>, Fact)>,
    k: nat,
) -> Set<(Seq<char>, Fact)>
    decreases k,
{
    if k == 0 {
        claims
    } else {
        step(rows, attested_at(rows, claims, (k - 1) as nat))
    }
}

/// The trust closure: the least fixed point of `step` above the claims.
pub open spec fn attested(rows: Map<Seq<char>, TmRow>, claims: Set<(Seq<char>, Fact)>) -> Set<
    (Seq<char>, Fact),
> {
    Set::new(
        |pf: (Seq<char>, Fact)|
            exists|k: nat| #[trigger] attested_at(rows, claims, k).contains(pf),
    )
}

/// The authoritative agreement count: how many distinct children of `p`
/// attest `f` in the closure.
pub open spec fn cardinality(
    rows: Map<Seq<char>, TmRow>,
    claims: Set<(Seq<char>, Fact)>,
    p: Seq<char>,
    f: Fact,
) -> nat {
    attesting_children(rows, attested(rows, claims), p, f).len()
}

// ---------------------------------------------------------------------
// Outcome
// ---------------------------------------------------------------------

/// A declared fixed-output derivation has an outgoing dependency edge.
pub open spec fn fod_violation(m: Model) -> bool {
    exists|fe: (Seq<char>, Seq<char>), de: (Seq<char>, Seq<char>)|
        #[trigger] m.fods.contains(fe) && #[trigger] m.depends_on.contains(de) && de.0 == fe.0
}

/// The threshold of the default trust model.
pub open spec fn default_threshold(m: Model) -> nat {
    m.rows[default_tm_name()].threshold
}

/// A resolved derivation passes root-output adequacy: it resolves the
/// root, the root declares at least one output, and for every declared
/// root output some content hash gathered agreement from at least the
/// default threshold of the default model's children.
pub open spec fn root_candidate_verified(m: Model, r: Seq<char>) -> bool {
    &&& m.resolves.contains((r, m.root))
    &&& exists|o: Seq<char>| #[trigger] m.has_output.contains((m.root, o))
    &&& forall|o: Seq<char>| #[trigger] m.has_output.contains((m.root, o)) ==> exists|h: Seq<char>|
        #[trigger] cardinality(
            m.rows,
            m.claims,
            default_tm_name(),
            Fact { rdrv: r, hash: h, output: o },
        ) >= default_threshold(m)
}

/// All resolved derivations that pass root-output adequacy.
pub open spec fn verified_names(m: Model) -> Set<Seq<char>> {
    Set::new(|r: Seq<char>| root_candidate_verified(m, r))
}

/// The outcome: empty when the graph is ill-formed (a fixed-output
/// derivation with outgoing edges), otherwise the verified resolutions
/// of the root.
pub open spec fn result_names(m: Model) -> Set<Seq<char>> {
    if fod_violation(m) {
        Set::empty()
    } else {
        verified_names(m)
    }
}

// ---------------------------------------------------------------------
// Ingestion operations
// ---------------------------------------------------------------------

/// One call of the ingestion API, with its string arguments.
pub enum Op {
    AddFod { udrv: Seq<char>, hash: Seq<char> },
    AddUnresolved { udrv: Seq<char>, deps: Seq<Seq<char>>, outputs: Seq<Seq<char>> },
    AddResolved { udrv: Seq<char>, rdrv: Seq<char>, pairs: Seq<(Seq<char>, Seq<char>)> },
    AddClaim { rdrv: Seq<char>, pairs: Seq<(Seq<char>, Seq<char>)>, tm: Seq<char> },
}

/// `s` cannot be used as a derivation name: it already names something else.
pub open spec fn clash_udrv(m: Model, s: Seq<char>) -> bool {
    m.rdrv_names.contains(s) || m.tm_names.contains(s) || m.hash_names.contains(s)
        || m.output_names.contains(s)
}

/// `s` cannot be used as a resolved-derivation name.
pub open spec fn clash_rdrv(m: Model, s: Seq<char>) -> bool {
    m.udrv_names.contains(s) || m.tm_names.contains(s) || m.hash_names.contains(s)
        || m.output_names.contains(s)
}

/// `s` cannot be used as a trust-element name.
pub open spec fn clash_tm(m: Model, s: Seq<char>) -> bool {
    m.udrv_names.contains(s) || m.rdrv_names.contains(s) || m.hash_names.contains(s)
        || m.output_names.contains(s)
}

/// `s` cannot be used as a content-hash string.
pub open spec fn clash_hash(m: Model, s: Seq<char>) -> bool {
    m.udrv_names.contains(s) || m.rdrv_names.contains(s) || m.tm_names.contains(s)
        || m.output_names.contains(s)
}

/// `s` cannot be used as an output name.
pub open spec fn clash_output(m: Model, s: Seq<char>) -> bool {
    m.udrv_names.contains(s) || m.rdrv_names.contains(s) || m.tm_names.contains(s)
        || m.hash_names.contains(s)
}

/// Every name in `items` can become a fresh output name: it differs from
/// the derivation being declared and clashes with no other category.
pub open spec fn output_items_ok(m: Model, udrv: Seq<char>, items: Seq<Seq<char>>) -> bool {
    forall|i: int|
        0 <= i < items.len() ==> #[trigger] items[i] != udrv && !clash_output(m, items[i])
}

/// Every pair's output name avoids the two reserved names of the call
/// and clashes with no other category.
pub open spec fn pair_outputs_ok(
    m: Model,
    a: Seq<char>,
    b: Seq<char>,
    pairs: Seq<(Seq<char>, Seq<char>)>,
) -> bool {
    forall|i: int|
        0 <= i < pairs.len() ==> (#[trigger] pairs[i]).0 != a && pairs[i].0 != b && !clash_output(
            m,
            pairs[i].0,
        )
}

/// Every pair's hash string avoids the two reserved names of the call
/// and clashes with no other category.
pub open spec fn pair_hashes_ok(
    m: Model,
    a: Seq<char>,
    b: Seq<char>,
    pairs: Seq<(Seq<char>, Seq<char>)>,
) -> bool {
    forall|i: int|
        0 <= i < pairs.len() ==> (#[trigger] pairs[i]).1 != a && pairs[i].1 != b && !clash_hash(
            m,
            pairs[i].1,
        )
}

/// No string is used both as an output name and as a hash within one
/// call.
pub open spec fn pairs_cross_ok(pairs: Seq<(Seq<char>, Seq<char>)>) -> bool {
    forall|i: int, j: int|
        0 <= i < pairs.len() && 0 <= j < pairs.len() ==> (#[trigger] pairs[i]).0 != (
        #[trigger] pairs[j]).1
}

/// Whether an ingestion call is accepted: every string it carries must be
/// free of category confusion, also against the other strings the same
/// call interns before it.
pub open spec fn op_allowed(m: Model, op: Op) -> bool {
    match op {
        Op::AddFod { udrv, hash } => {
            &&& !clash_udrv(m, udrv)
            &&& hash != udrv
            &&& !clash_hash(m, hash)
            &&& out_name(udrv) != hash
            &&& !clash_output(m, out_name(udrv))
        },
        Op::AddUnresolved { udrv, deps, outputs } => {
            &&& !clash_udrv(m, udrv)
            &&& output_items_ok(m, udrv, deps)
            &&& output_items_ok(m, udrv, outputs)
        },
        Op::AddResolved { udrv, rdrv, pairs } => {
            &&& !clash_udrv(m, udrv)
            &&& rdrv != udrv
            &&& !clash_rdrv(m, rdrv)
            &&& pair_outputs_ok(m, udrv, rdrv, pairs)
            &&& pair_hashes_ok(m, udrv, rdrv, pairs)
            &&& pairs_cross_ok(pairs)
        },
        Op::AddClaim { rdrv, pairs, tm } => {
            &&& !clash_rdrv(m, rdrv)
            &&& tm != rdrv
            &&& !clash_tm(m, tm)
            &&& pair_outputs_ok(m, rdrv, tm, pairs)
            &&& pair_hashes_ok(m, rdrv, tm, pairs)
            &&& pairs_cross_ok(pairs)
        },
    }
}

/// The effect of an accepted ingestion call: each relation grows by the
/// tuples named in the call's arguments, and nothing else changes.
pub open spec fn apply_op(m: Model, op: Op) -> Model {
    match op {
        Op::AddFod { udrv, hash } => Model {
            udrv_names: m.udrv_names.insert(udrv),
            hash_names: m.hash_names.insert(hash),
            output_names: m.output_names.insert(out_name(udrv)),
            fods: m.fods.insert((udrv, hash)),
            has_output: m.has_output.insert((udrv, out_name(udrv))),
            ..m
        },
        Op::AddUnresolved { udrv, deps, outputs } => Model {
            udrv_names: m.udrv_names.insert(udrv),
            output_names: m.output_names.union(deps.to_set()).union(outputs.to_set()),
            depends_on: m.depends_on.union(
                Set::new(|e: (Seq<char>, Seq<char>)| e.0 == udrv && deps.contains(e.1)),
            ),
            has_output: m.has_output.union(
                Set::new(|e: (Seq<char>, Seq<char>)| e.0 == udrv && outputs.contains(e.1)),
            ),
            ..m
        },
        Op::AddResolved { udrv, rdrv, pairs } => Model {
            udrv_names: m.udrv_names.insert(udrv),
            rdrv_names: m.rdrv_names.insert(rdrv),
            output_names: m.output_names.union(
                Set::new(
                    |s: Seq<char>|
                        exists|k: int| 0 <= k < pairs.len() && (#[trigger] pairs[k]).0 == s,
                ),
            ),
            hash_names: m.hash_names.union(
                Set::new(
                    |s: Seq<char>|
                        exists|k: int| 0 <= k < pairs.len() && (#[trigger] pairs[k]).1 == s,
                ),
            ),
            resolves: m.resolves.insert((rdrv, udrv)),
            resolves_with: m.resolves_with.union(
                Set::new(
                    |e: (Seq<char>, Seq<char>, Seq<char>)|
                        e.0 == rdrv && pairs.contains((e.1, e.2)),
                ),
            ),
            ..m
        },
        Op::AddClaim { rdrv, pairs, tm } => Model {
            rdrv_names: m.rdrv_names.insert(rdrv),
            tm_names: m.tm_names.insert(tm),
            output_names: m.output_names.union(
                Set::new(
                    |s: Seq<char>|
                        exists|k: int| 0 <= k < pairs.len() && (#[trigger] pairs[k]).0 == s,
                ),
            ),
            hash_names: m.hash_names.union(
                Set::new(
                    |s: Seq<char>|
                        exists|k: int| 0 <= k < pairs.len() && (#[trigger] pairs[k]).1 == s,
                ),
            ),
            claims: m.claims.union(
                Set::new(
                    |cf: (Seq<char>, Fact)|
                        cf.0 == tm && cf.1.rdrv == rdrv && pairs.contains(
                            (cf.1.output, cf.1.hash),
                        ),
                ),
            ),
            ..m
        },
    }
}

// ---------------------------------------------------------------------
// Construction and trust-model configuration
// ---------------------------------------------------------------------

/// Whether the constructor arguments are accepted.
pub open spec fn new_ok(keys: Seq<Seq<char>>, threshold: nat, root: Seq<char>) -> bool {
    &&& keys.len() > 0
    &&& threshold >= 1
    &&& threshold <= keys.len()
    &&& forall|i: int|
        0 <= i < keys.len() ==> #[trigger] keys[i] != default_tm_name() && keys[i] != root
    &&& root != default_tm_name()
}

/// The model of a freshly constructed reasoner: the default trust model
/// with the given threshold, one key row per trusted key, and the
/// expected root interned as a derivation.
pub open spec fn initial_model(keys: Seq<Seq<char>>, threshold: nat, root: Seq<char>) -> Model {
    Model {
        completed: false,
        udrv_names: Set::empty().insert(root),
        rdrv_names: Set::empty(),
        tm_names: keys.to_set().insert(default_tm_name()),
        hash_names: Set::empty(),
        output_names: Set::empty(),
        fods: Set::empty(),
        has_output: Set::empty(),
        depends_on: Set::empty(),
        resolves: Set::empty(),
        resolves_with: Set::empty(),
        claims: Set::empty(),
        rows: Map::new(
            |t: Seq<char>| t == default_tm_name() || keys.contains(t),
            |t: Seq<char>|
                if t == default_tm_name() {
                    TmRow { threshold, is_key: false, parent: None }
                } else {
                    TmRow { threshold: 1, is_key: true, parent: Some(default_tm_name()) }
                },
        ),
        root,
    }
}

/// Category confusion for a new trust-element name.
pub open spec fn add_tm_confused(m: Model, name: Seq<char>) -> bool {
    clash_tm(m, name)
}

/// Whether a trust-model row may be added or its parent set: thresholds
/// are positive, keys have threshold 1 and a parent, the parent is an
/// already-configured composite other than the element itself, and an
/// existing row may only be restated identically or given a parent it
/// did not have.
pub open spec fn add_tm_valid(
    m: Model,
    name: Seq<char>,
    threshold: nat,
    is_key: bool,
    parent: Option<Seq<char>>,
) -> bool {
    &&& threshold >= 1
    &&& (is_key ==> threshold == 1 && parent is Some)
    &&& match parent {
        Some(p) => p != name && m.rows.dom().contains(p) && !m.rows[p].is_key,
        None => true,
    }
    &&& (m.rows.dom().contains(name) ==> {
        &&& m.rows[name].threshold == threshold
        &&& m.rows[name].is_key == is_key
        &&& (m.rows[name].parent == parent || m.rows[name].parent is None)
    })
}

/// The effect of configuring a trust element.
pub open spec fn apply_add_tm(
    m: Model,
    name: Seq<char>,
    threshold: nat,
    is_key: bool,
    parent: Option<Seq<char>>,
) -> Model {
    Model {
        tm_names: m.tm_names.insert(name),
        rows: m.rows.insert(name, TmRow { threshold, is_key, parent }),
        ..m
    }
}

/// The model after a successful `compute_result`: the data is frozen and
/// only the phase flag changes.
pub open spec fn with_completed(m: Model) -> Model {
    Model { completed: true, ..m }
}

// ---------------------------------------------------------------------
// Properties of the trust-propagation closure
// ---------------------------------------------------------------------

/// A child set is finite, bounded by the number of configured rows.
pub proof fn lemma_children_finite(
    rows: Map<Seq<char>, TmRow>,
    s: Set<(Seq<char>, Fact)>,
    p: Seq<char>,
    f: Fact,
)
    requires
        rows.dom().finite(),
    ensures
        attesting_children(rows, s, p, f).finite(),
        attesting_children(rows, s, p, f).len() <= rows.dom().len(),
{
    let ch = attesting_children(rows, s, p, f);
    assert(ch.subset_of(rows.dom()));
    lemma_len_subset(ch, rows.dom());
}

/// Child sets grow with the attestation set.
pub proof fn lemma_children_mono(
    rows: Map<Seq<char>, TmRow>,
    s1: Set<(Seq<char>, Fact)>,
    s2: Set<(Seq<char>, Fact)>,
    p: Seq<char>,
    f: Fact,
)
    requires
        s1.subset_of(s2),
    ensures
        attesting_children(rows, s1, p, f).subset_of(attesting_children(rows, s2, p, f)),
{
}

/// `step` is monotone in the attestation set.
pub proof fn lemma_step_mono(
    rows: Map<Seq<char>, TmRow>,
    s1: Set<(Seq<char>, Fact)>,
    s2: Set<(Seq<char>, Fact)>,
)
    requires
        rows.dom().finite(),
        s1.subset_of(s2),
    ensures
        step(rows, s1).subset_of(step(rows, s2)),
{
    assert forall|pf: (Seq<char>, Fact)| step(rows, s1).contains(pf) implies step(
        rows,
        s2,
    ).contains(pf) by {
        if !s1.contains(pf) {
            lemma_children_mono(rows, s1, s2, pf.0, pf.1);
            lemma_children_finite(rows, s2, pf.0, pf.1);
            lemma_len_subset(
                attesting_children(rows, s1, pf.0, pf.1),
                attesting_children(rows, s2, pf.0, pf.1),
            );
        }
    }
}

/// The rounds grow: `attested_at` is monotone in the round number.
pub proof fn lemma_attested_at_mono_k(
    rows: Map<Seq<char>, TmRow>,
    claims: Set<(Seq<char>, Fact)>,
    k1: nat,
    k2: nat,
)
    requires
        k1 <= k2,
    ensures
        attested_at(rows, claims, k1).subset_of(attested_at(rows, claims, k2)),
    decreases k2,
{
    if k1 < k2 {
        lemma_attested_at_mono_k(rows, claims, k1, (k2 - 1) as nat);
        assert(attested_at(rows, claims, (k2 - 1) as nat).subset_of(
            attested_at(rows, claims, k2),
        ));
    }
}

/// Every round is contained in the closure.
pub proof fn lemma_attested_at_in_attested(
    rows: Map<Seq<char>, TmRow>,
    claims: Set<(Seq<char>, Fact)>,
    k: nat,
)
    ensures
        attested_at(rows, claims, k).subset_of(attested(rows, claims)),
{
    assert forall|pf: (Seq<char>, Fact)|
        attested_at(rows, claims, k).contains(pf) implies attested(rows, claims).contains(pf) by {
        assert(attested_at(rows, claims, k).contains(pf));
    }
}

/// The claims seed the closure.
pub proof fn lemma_claims_in_attested(
    rows: Map<Seq<char>, TmRow>,
    claims: Set<(Seq<char>, Fact)>,
)
    ensures
        claims.subset_of(attested(rows, claims)),
{
    assert(attested_at(rows, claims, 0) == claims);
    lemma_attested_at_in_attested(rows, claims, 0);
}

/// Any finite subset of the closure is already present in some round.
pub proof fn lemma_common_round(
    rows: Map<Seq<char>, TmRow>,
    claims: Set<(Seq<char>, Fact)>,
    s: Set<(Seq<char>, Fact)>,
) -> (k: nat)
    requires
        s.finite(),
        s.subset_of(attested(rows, claims)),
    ensures
        s.subset_of(attested_at(rows, claims, k)),
    decreases s.len(),
{
    if s.len() == 0 {
        assert forall|pf: (Seq<char>, Fact)| s.contains(pf) implies attested_at(
            rows,
            claims,
            0,
        ).contains(pf) by {
            assert(s.remove(pf).len() < s.len()) by {
                vstd::set_lib::lemma_set_remove_finite_iff(s, pf);
            }
        }
        0
    } else {
        let x = s.choose();
        assert(s.contains(x)) by {
            vstd::set_lib::lemma_set_empty_equivalency_len(s);
        }
        let k1 = lemma_common_round(rows, claims, s.remove(x));
        let k2 = choose|k: nat| #[trigger] attested_at(rows, claims, k).contains(x);
        assert(attested(rows, claims).contains(x));
        let k = if k1 >= k2 {
            k1
        } else {
            k2
        };
        lemma_attested_at_mono_k(rows, claims, k1, k);
        lemma_attested_at_mono_k(rows, claims, k2, k);
        assert forall|pf: (Seq<char>, Fact)| s.contains(pf) implies attested_at(
            rows,
            claims,
            k,
        ).contains(pf) by {
            if pf != x {
                assert(s.remove(x).contains(pf));
            }
        }
        k
    }
}

/// The closure is closed under `step`: once enough children of `p`
/// attest `f` in the closure, `(p, f)` is itself in the closure.
pub proof fn lemma_attested_closed(
    rows: Map<Seq<char>, TmRow>,
    claims: Set<(Seq<char>, Fact)>,
    p: Seq<char>,
    f: Fact,
)
    requires
        rows.dom().finite(),
        rows.dom().contains(p),
        attesting_children(rows, attested(rows, claims), p, f).len() >= rows[p].threshold,
    ensures
        attested(rows, claims).contains((p, f)),
{
    let att = attested(rows, claims);
    let ch = attesting_children(rows, att, p, f);
    let pair_of = |c: Seq<char>| (c, f);
    let chpairs = ch.map(pair_of);
    lemma_children_finite(rows, att, p, f);
    ch.lemma_map_finite(pair_of);
    assert forall|pf: (Seq<char>, Fact)| chpairs.contains(pf) implies att.contains(pf) by {
        let c = choose|c: Seq<char>| ch.contains(c) && pair_of(c) == pf;
        assert(att.contains((c, f)));
    }
    let k = lemma_common_round(rows, claims, chpairs);
    let chk = attesting_children(rows, attested_at(rows, claims, k), p, f);
    assert forall|c: Seq<char>| ch.contains(c) implies chk.contains(c) by {
        assert(chpairs.contains((c, f)));
        assert(attested_at(rows, claims, k).contains((c, f)));
    }
    lemma_children_finite(rows, attested_at(rows, claims, k), p, f);
    lemma_len_subset(ch, chk);
    assert(attested_at(rows, claims, k + 1).contains((p, f)));
    lemma_attested_at_in_attested(rows, claims, k + 1);
}

/// An attested pair at round `k` is a claim or crossed its threshold in
/// the closure.
proof fn lemma_attested_at_unfold(
    rows: Map<Seq<char>, TmRow>,
    claims: Set<(Seq<char>, Fact)>,
    p: Seq<char>,
    f: Fact,
    k: nat,
)
    requires
        rows.dom().finite(),
        attested_at(rows, claims, k).contains((p, f)),
    ensures
        claims.contains((p, f)) || (rows.dom().contains(p) && attesting_children(
            rows,
            attested(rows, claims),
            p,
            f,
        ).len() >= rows[p].threshold),
    decreases k,
{
    if k > 0 {
        let prev = attested_at(rows, claims, (k - 1) as nat);
        if prev.contains((p, f)) {
            lemma_attested_at_unfold(rows, claims, p, f, (k - 1) as nat);
        } else {
            lemma_attested_at_in_attested(rows, claims, (k - 1) as nat);
            lemma_children_mono(rows, prev, attested(rows, claims), p, f);
            lemma_children_finite(rows, attested(rows, claims), p, f);
            lemma_len_subset(
                attesting_children(rows, prev, p, f),
                attesting_children(rows, attested(rows, claims), p, f),
            );
        }
    }
}

/// An attested pair is a claim or crossed its threshold in the closure.
pub proof fn lemma_attested_unfold(
    rows: Map<Seq<char>, TmRow>,
    claims: Set<(Seq<char>, Fact)>,
    p: Seq<char>,
    f: Fact,
)
    requires
        rows.dom().finite(),
        attested(rows, claims).contains((p, f)),
    ensures
        claims.contains((p, f)) || (rows.dom().contains(p) && attesting_children(
            rows,
            attested(rows, claims),
            p,
            f,
        ).len() >= rows[p].threshold),
{
    let k = choose|k: nat| #[trigger] attested_at(rows, claims, k).contains((p, f));
    lemma_attested_at_unfold(rows, claims, p, f, k);
}

/// The closure grows with the claims.
pub proof fn lemma_attested_at_mono_claims(
    rows: Map<Seq<char>, TmRow>,
    c1: Set<(Seq<char>, Fact)>,
    c2: Set<(Seq<char>, Fact)>,
    k: nat,
)
    requires
        rows.dom().finite(),
        c1.subset_of(c2),
    ensures
        attested_at(rows, c1, k).subset_of(attested_at(rows, c2, k)),
    decreases k,
{
    if k > 0 {
        lemma_attested_at_mono_claims(rows, c1, c2, (k - 1) as nat);
        lemma_step_mono(
            rows,
            attested_at(rows, c1, (k - 1) as nat),
            attested_at(rows, c2, (k - 1) as nat),
        );
    }
}

/// The closure grows with the claims.
pub proof fn lemma_attested_mono_claims(
    rows: Map<Seq<char>, TmRow>,
    c1: Set<(Seq<char>, Fact)>,
    c2: Set<(Seq<char>, Fact)>,
)
    requires
        rows.dom().finite(),
        c1.subset_of(c2),
    ensures
        attested(rows, c1).subset_of(attested(rows, c2)),
{
    assert forall|pf: (Seq<char>, Fact)| attested(rows, c1).contains(pf) implies attested(
        rows,
        c2,
    ).contains(pf) by {
        let k = choose|k: nat| #[trigger] attested_at(rows, c1, k).contains(pf);
        lemma_attested_at_mono_claims(rows, c1, c2, k);
        assert(attested_at(rows, c2, k).contains(pf));
    }
}

/// The agreement count grows with the claims.
pub proof fn lemma_cardinality_mono_claims(
    rows: Map<Seq<char>, TmRow>,
    c1: Set<(Seq<char>, Fact)>,
    c2: Set<(Seq<char>, Fact)>,
    p: Seq<char>,
    f: Fact,
)
    requires
        rows.dom().finite(),
        c1.subset_of(c2),
    ensures
        cardinality(rows, c1, p, f) <= cardinality(rows, c2, p, f),
{
    lemma_attested_mono_claims(rows, c1, c2);
    lemma_children_mono(rows, attested(rows, c1), attested(rows, c2), p, f);
    lemma_children_finite(rows, attested(rows, c2), p, f);
    lemma_len_subset(
        attesting_children(rows, attested(rows, c1), p, f),
        attesting_children(rows, attested(rows, c2), p, f),
    );
}

// ---------------------------------------------------------------------
// Finiteness of the closure
// ---------------------------------------------------------------------

/// The facts mentioned by a claim set.
pub open spec fn fact_pool(claims: Set<(Seq<char>, Fact)>) -> Set<Fact> {
    claims.map(|cf: (Seq<char>, Fact)| cf.1)
}

/// A finite superset of the closure: a claim, or a configured trust
/// element paired with a claimed fact.
pub open spec fn attested_bound(
    rows: Map<Seq<char>, TmRow>,
    claims: Set<(Seq<char>, Fact)>,
) -> Set<(Seq<char>, Fact)> {
    claims.union(
        Set::new(
            |pf: (Seq<char>, Fact)|
                rows.dom().contains(pf.0) && fact_pool(claims).contains(pf.1),
        ),
    )
}

/// The pairs drawn from two finite sets form a finite set.
proof fn lemma_pairs_finite<A, B>(a: Set<A>, b: Set<B>)
    requires
        a.finite(),
        b.finite(),
    ensures
        Set::new(|p: (A, B)| a.contains(p.0) && b.contains(p.1)).finite(),
    decreases a.len(),
{
    let prod = Set::new(|p: (A, B)| a.contains(p.0) && b.contains(p.1));
    if a.len() == 0 {
        vstd::set_lib::lemma_set_empty_equivalency_len(a);
        assert(prod =~= Set::<(A, B)>::empty());
    } else {
        vstd::set_lib::lemma_set_empty_equivalency_len(a);
        let x = a.choose();
        assert(a.contains(x));
        lemma_pairs_finite(a.remove(x), b);
        let rest = Set::new(|p: (A, B)| a.remove(x).contains(p.0) && b.contains(p.1));
        let row_of = |y: B| (x, y);
        let row = b.map(row_of);
        b.lemma_map_finite(row_of);
        assert forall|p: (A, B)| prod.contains(p) implies rest.union(row).contains(p) by {
            if p.0 == x {
                assert(row.contains(row_of(p.1)));
            }
        }
        assert forall|p: (A, B)| rest.union(row).contains(p) implies prod.contains(p) by {
            if row.contains(p) {
                let y = choose|y: B| b.contains(y) && row_of(y) == p;
                assert(b.contains(p.1));
            }
        }
        assert(prod =~= rest.union(row));
    }
}

/// Every round stays inside the bound.
proof fn lemma_attested_at_bounded(
    rows: Map<Seq<char>, TmRow>,
    claims: Set<(Seq<char>, Fact)>,
    k: nat,
)
    requires
        rows_wf(rows),
    ensures
        attested_at(rows, claims, k).subset_of(attested_bound(rows, claims)),
    decreases k,
{
    if k > 0 {
        lemma_attested_at_bounded(rows, claims, (k - 1) as nat);
        let prev = attested_at(rows, claims, (k - 1) as nat);
        assert forall|pf: (Seq<char>, Fact)|
            attested_at(rows, claims, k).contains(pf) implies attested_bound(
            rows,
            claims,
        ).contains(pf) by {
            if !prev.contains(pf) {
                let ch = attesting_children(rows, prev, pf.0, pf.1);
                lemma_children_finite(rows, prev, pf.0, pf.1);
                assert(ch.len() >= 1);
                assert(exists|c: Seq<char>| ch.contains(c)) by {
                    vstd::set_lib::lemma_set_empty_equivalency_len(ch);
                    if forall|c: Seq<char>| !(#[trigger] ch.contains(c)) {
                        assert(ch =~= Set::<Seq<char>>::empty());
                    }
                }
                let c = choose|c: Seq<char>| ch.contains(c);
                assert(prev.contains((c, pf.1)));
                assert(attested_bound(rows, claims).contains((c, pf.1)));
                if claims.contains((c, pf.1)) {
                    assert(fact_pool(claims).contains(pf.1)) by {
                        assert(claims.contains((c, pf.1)));
                    }
                }
            }
        }
    }
}

/// Any set that contains the claims and is closed under threshold
/// crossing contains every round of the closure, hence the closure.
pub proof fn lemma_fixpoint_complete(
    rows: Map<Seq<char>, TmRow>,
    claims: Set<(Seq<char>, Fact)>,
    s: Set<(Seq<char>, Fact)>,
    k: nat,
)
    requires
        rows.dom().finite(),
        claims.subset_of(s),
        forall|p: Seq<char>, f: Fact|
            rows.dom().contains(p) && #[trigger] attesting_children(rows, s, p, f).len()
                >= rows[p].threshold ==> s.contains((p, f)),
    ensures
        attested_at(rows, claims, k).subset_of(s),
    decreases k,
{
    if k > 0 {
        lemma_fixpoint_complete(rows, claims, s, (k - 1) as nat);
        let prev = attested_at(rows, claims, (k - 1) as nat);
        assert forall|pf: (Seq<char>, Fact)|
            attested_at(rows, claims, k).contains(pf) implies s.contains(pf) by {
            if !prev.contains(pf) {
                lemma_children_mono(rows, prev, s, pf.0, pf.1);
                lemma_children_finite(rows, s, pf.0, pf.1);
                lemma_len_subset(
                    attesting_children(rows, prev, pf.0, pf.1),
                    attesting_children(rows, s, pf.0, pf.1),
                );
                assert(attesting_children(rows, s, pf.0, pf.1).len() >= rows[pf.0].threshold);
            }
        }
    }
}

/// The closure itself is contained in any such closed superset of the
/// claims.
pub proof fn lemma_attested_least(
    rows: Map<Seq<char>, TmRow>,
    claims: Set<(Seq<char>, Fact)>,
    s: Set<(Seq<char>, Fact)>,
)
    requires
        rows.dom().finite(),
        claims.subset_of(s),
        forall|p: Seq<char>, f: Fact|
            rows.dom().contains(p) && #[trigger] attesting_children(rows, s, p, f).len()
                >= rows[p].threshold ==> s.contains((p, f)),
    ensures
        attested(rows, claims).subset_of(s),
{
    assert forall|pf: (Seq<char>, Fact)|
        attested(rows, claims).contains(pf) implies s.contains(pf) by {
        let k = choose|k: nat| #[trigger] attested_at(rows, claims, k).contains(pf);
        lemma_fixpoint_complete(rows, claims, s, k);
    }
}

/// Under a sane row table and finite claims, the closure is finite.
pub proof fn lemma_attested_finite(rows: Map<Seq<char>, TmRow>, claims: Set<(Seq<char>, Fact)>)
    requires
        rows_wf(rows),
        claims.finite(),
    ensures
        attested(rows, claims).finite(),
        attested(rows, claims).subset_of(attested_bound(rows, claims)),
        attested_bound(rows, claims).finite(),
{
    claims.lemma_map_finite(|cf: (Seq<char>, Fact)| cf.1);
    lemma_pairs_finite(rows.dom(), fact_pool(claims));
    assert(Set::new(
        |pf: (Seq<char>, Fact)| rows.dom().contains(pf.0) && fact_pool(claims).contains(pf.1),
    ).finite());
    assert forall|pf: (Seq<char>, Fact)|
        attested(rows, claims).contains(pf) implies attested_bound(rows, claims).contains(pf) by {
        let k = choose|k: nat| #[trigger] attested_at(rows, claims, k).contains(pf);
        lemma_attested_at_bounded(rows, claims, k);
    }
    lemma_len_subset(attested(rows, claims), attested_bound(rows, claims));
}

} // verus!
