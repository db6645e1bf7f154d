//! Proved laws of the reasoner model.
//!
//! Each public proof function here states one property of the model that
//! the executable reasoner's contracts transfer to the public API: the
//! ingestion relations are sets, so re-adding a tuple changes nothing and
//! ingestion calls commute; evidence is monotone; trust propagates by
//! thresholds; and an ill-formed graph or an unresolved root makes the
//! outcome empty.

use vstd::prelude::*;

use crate::model::{apply_op, attested, cardinality, default_tm_name, fod_violation,
    lemma_attested_closed, lemma_attested_unfold, lemma_cardinality_mono_claims,
    lemma_claims_in_attested, model_wf, result_names, root_candidate_verified, verified_names,
    Fact, Model, Op, TmRow};

verus! {

/// Set semantics: applying the same ingestion call twice yields the same
/// model — and therefore the same outcome — as applying it once.
pub proof fn lemma_ingest_idempotent(m: Model, op: Op)
    ensures
        apply_op(apply_op(m, op), op) == apply_op(m, op),
        result_names(apply_op(apply_op(m, op), op)) == result_names(apply_op(m, op)),
{
    assert(apply_op(apply_op(m, op), op) =~~= apply_op(m, op));
}

/// Order independence: two ingestion calls commute, so any permutation
/// of a sequence of ingestion calls reaches the same model — adjacent
/// swaps generate every permutation — and `compute_result` answers from
/// the model alone.
pub proof fn lemma_ingest_commutes(m: Model, a: Op, b: Op)
    ensures
        apply_op(apply_op(m, a), b) == apply_op(apply_op(m, b), a),
{
    assert(apply_op(apply_op(m, a), b) =~~= apply_op(apply_op(m, b), a));
}

/// Monotonicity of evidence: adding claims can only turn an unverified
/// root verified, never the reverse.
pub proof fn lemma_monotonicity_of_evidence(m1: Model, m2: Model)
    requires
        model_wf(m1),
        m1.claims.subset_of(m2.claims),
        m2 == (Model { claims: m2.claims, ..m1 }),
    ensures
        result_names(m1).subset_of(result_names(m2)),
{
    if fod_violation(m2) {
        let (fe, de) = choose|fe: (Seq<char>, Seq<char>), de: (Seq<char>, Seq<char>)|
            #[trigger] m2.fods.contains(fe) && #[trigger] m2.depends_on.contains(de) && de.0
                == fe.0;
        assert(m1.fods.contains(fe) && m1.depends_on.contains(de));
        assert(fod_violation(m1));
    }
    if !fod_violation(m1) {
        assert forall|r: Seq<char>| verified_names(m1).contains(r) implies verified_names(
            m2,
        ).contains(r) by {
            assert(root_candidate_verified(m1, r));
            assert(m2.resolves.contains((r, m2.root)));
            let o0 = choose|o: Seq<char>| #[trigger] m1.has_output.contains((m1.root, o));
            assert(m2.has_output.contains((m2.root, o0)));
            assert forall|o: Seq<char>| #[trigger] m2.has_output.contains(
                (m2.root, o),
            ) implies exists|h: Seq<char>|
                #[trigger] cardinality(
                    m2.rows,
                    m2.claims,
                    default_tm_name(),
                    Fact { rdrv: r, hash: h, output: o },
                ) >= crate::model::default_threshold(m2) by {
                assert(m1.has_output.contains((m1.root, o)));
                let h = choose|h: Seq<char>|
                    #[trigger] cardinality(
                        m1.rows,
                        m1.claims,
                        default_tm_name(),
                        Fact { rdrv: r, hash: h, output: o },
                    ) >= crate::model::default_threshold(m1);
                lemma_cardinality_mono_claims(
                    m1.rows,
                    m1.claims,
                    m2.claims,
                    default_tm_name(),
                    Fact { rdrv: r, hash: h, output: o },
                );
                assert(cardinality(
                    m2.rows,
                    m2.claims,
                    default_tm_name(),
                    Fact { rdrv: r, hash: h, output: o },
                ) >= crate::model::default_threshold(m2));
            }
            assert(root_candidate_verified(m2, r));
        }
    }
}

/// Threshold correctness: a configured trust element attests a fact
/// exactly when it claimed the fact directly or when at least its
/// threshold of distinct children attest it.
pub proof fn lemma_threshold_correctness(
    rows: Map<Seq<char>, TmRow>,
    claims: Set<(Seq<char>, Fact)>,
    p: Seq<char>,
    f: Fact,
)
    requires
        rows.dom().finite(),
        rows.dom().contains(p),
    ensures
        attested(rows, claims).contains((p, f)) <==> (claims.contains((p, f)) || cardinality(
            rows,
            claims,
            p,
            f,
        ) >= rows[p].threshold),
{
    if claims.contains((p, f)) {
        lemma_claims_in_attested(rows, claims);
    }
    if cardinality(rows, claims, p, f) >= rows[p].threshold {
        lemma_attested_closed(rows, claims, p, f);
    }
    if attested(rows, claims).contains((p, f)) {
        lemma_attested_unfold(rows, claims, p, f);
    }
}

/// The fixed-output-leaf invariant: if any declared fixed-output
/// derivation has an outgoing dependency edge, verification returns
/// nothing.
pub proof fn lemma_fod_leaf_invariant(m: Model)
    requires
        fod_violation(m),
    ensures
        result_names(m) == Set::<Seq<char>>::empty(),
{
}

/// The root-resolution invariant: if nothing resolves the expected root,
/// verification returns nothing.
pub proof fn lemma_root_resolution_invariant(m: Model)
    requires
        forall|r: Seq<char>| !(#[trigger] m.resolves.contains((r, m.root))),
    ensures
        result_names(m) == Set::<Seq<char>>::empty(),
{
    assert forall|r: Seq<char>| !(#[trigger] verified_names(m).contains(r)) by {
        assert(!m.resolves.contains((r, m.root)));
    }
    assert(verified_names(m) =~= Set::<Seq<char>>::empty());
    if !fod_violation(m) {
        assert(result_names(m) == verified_names(m));
    }
}

} // verus!
