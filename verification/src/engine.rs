//! Semi-naive fixed-point evaluation.
//!
//! A [`Variable`] is a relation being computed, partitioned into three
//! buffers: `stable` tuples have already been joined against, `recent`
//! tuples are joined in the current round, and `to_add` stages tuples
//! derived this round. [`Variable::changed`] promotes the buffers between
//! rounds, deduplicating so that every tuple is `recent` exactly once;
//! evaluation stops when a round promotes nothing. The [`Counter`] is the
//! side table of agreement counts consulted by the trust closure's
//! filtered join: it maps a derived tuple to the number of distinct
//! children that have contributed to it.

use vstd::prelude::*;

use crate::string_interner::{ContentHash, RDrv, TrustModel, UDrvOutput};

verus! {

broadcast use vstd::seq_lib::group_seq_properties;

/// One tuple of the derived attestation relation: trust element `tm`
/// vouches that building `rdrv` produced `hash` for `output`.
#[derive(Debug, Clone, Copy, PartialEq, Eq, Structural)]
pub struct Att {
    pub tm: TrustModel,
    pub rdrv: RDrv,
    pub hash: ContentHash,
    pub output: UDrvOutput,
}

/// No tuple occurs in both sequences.
pub open spec fn seqs_disjoint(a: Seq<Att>, b: Seq<Att>) -> bool {
    forall|i: int, j: int|
        0 <= i < a.len() && 0 <= j < b.len() ==> #[trigger] a[i] != #[trigger] b[j]
}

/// Whether `v` holds the tuple `t`.
pub fn contains_att(v: &Vec<Att>, t: Att) -> (r: bool)
    ensures
        r == v@.contains(t),
{
    let n = v.len();
    let mut i: usize = 0;
    while i < n
        invariant
            n == v@.len(),
            i <= n,
            forall|j: int| 0 <= j < i ==> v@[j] != t,
        decreases n - i,
    {
        if v[i] == t {
            return true;
        }
        i = i + 1;
    }
    false
}

/// A relation variable under semi-naive evaluation.
pub struct Variable {
    pub stable: Vec<Att>,
    pub recent: Vec<Att>,
    pub to_add: Vec<Att>,
}

impl Variable {
    /// The buffer discipline: no duplicates among the joined tuples, and
    /// nothing both stable and recent.
    pub open spec fn inv(&self) -> bool {
        &&& self.stable@.no_duplicates()
        &&& self.recent@.no_duplicates()
        &&& seqs_disjoint(self.stable@, self.recent@)
    }

    /// Everything the variable holds, staged tuples included.
    pub open spec fn all(&self) -> Set<Att> {
        self.stable@.to_set().union(self.recent@.to_set()).union(self.to_add@.to_set())
    }

    /// An empty variable.
    pub fn new() -> (r: Variable)
        ensures
            r.inv(),
            r.stable@ == Seq::<Att>::empty(),
            r.recent@ == Seq::<Att>::empty(),
            r.to_add@ == Seq::<Att>::empty(),
    {
        Variable { stable: Vec::new(), recent: Vec::new(), to_add: Vec::new() }
    }

    /// Stage one tuple.
    pub fn insert(&mut self, t: Att)
        ensures
            final(self).stable@ == old(self).stable@,
            final(self).recent@ == old(self).recent@,
            final(self).to_add@ == old(self).to_add@.push(t),
    {
        self.to_add.push(t);
    }

    /// One promotion round: the tuples just joined become stable, and the
    /// staged tuples not seen before become the new recent ones. Returns
    /// whether there is new work.
    pub fn changed(&mut self) -> (r: bool)
        requires
            old(self).inv(),
        ensures
            final(self).inv(),
            final(self).stable@ == old(self).stable@ + old(self).recent@,
            final(self).to_add@ == Seq::<Att>::empty(),
            final(self).recent@.to_set() == old(self).to_add@.to_set().difference(
                final(self).stable@.to_set(),
            ),
            final(self).all() == old(self).all(),
            r == (final(self).recent@.len() > 0),
    {
        let ghost pre = *self;
        let mut moved: Vec<Att> = Vec::new();
        core::mem::swap(&mut moved, &mut self.recent);
        self.stable.append(&mut moved);
        proof {
            assert(self.stable@ == pre.stable@ + pre.recent@);
            assert(self.stable@.to_set() =~= pre.stable@.to_set().union(pre.recent@.to_set()));
            vstd::seq_lib::lemma_no_dup_in_concat(pre.stable@, pre.recent@);
        }
        let mut fresh: Vec<Att> = Vec::new();
        let n = self.to_add.len();
        let mut i: usize = 0;
        while i < n
            invariant
                n == self.to_add@.len(),
                i <= n,
                self.stable@ == pre.stable@ + pre.recent@,
                fresh@.no_duplicates(),
                seqs_disjoint(self.stable@, fresh@),
                fresh@.to_set() == self.to_add@.take(i as int).to_set().difference(
                    self.stable@.to_set(),
                ),
            decreases n - i,
        {
            let t = self.to_add[i];
            if !contains_att(&self.stable, t) && !contains_att(&fresh, t) {
                let ghost fresh_pre = fresh@;
                fresh.push(t);
                proof {
                    assert(self.to_add@.take(i + 1) =~= self.to_add@.take(i as int).push(t));
                    assert(fresh@.to_set() =~= fresh_pre.to_set().insert(t));
                    assert(self.to_add@.take(i + 1).to_set() =~= self.to_add@.take(
                        i as int,
                    ).to_set().insert(t));
                    assert(fresh@.to_set() =~= self.to_add@.take(i + 1).to_set().difference(
                        self.stable@.to_set(),
                    ));
                }
            } else {
                proof {
                    assert(self.to_add@.take(i + 1) =~= self.to_add@.take(i as int).push(t));
                    assert(self.to_add@.take(i + 1).to_set() =~= self.to_add@.take(
                        i as int,
                    ).to_set().insert(t));
                    assert(fresh@.to_set() =~= self.to_add@.take(i + 1).to_set().difference(
                        self.stable@.to_set(),
                    ));
                }
            }
            i = i + 1;
        }
        proof {
            assert(self.to_add@.take(n as int) == self.to_add@);
        }
        self.recent = fresh;
        self.to_add = Vec::new();
        proof {
            assert(self.all() =~= pre.all());
        }
        self.recent.len() > 0
    }
}

/// Whether the counter has an entry for key `k`.
pub open spec fn has_key(es: Seq<(Att, usize)>, k: Att) -> bool {
    exists|i: int| 0 <= i < es.len() && (#[trigger] es[i]).0 == k
}

/// The count stored for key `k`; zero when no entry exists.
pub open spec fn count_of(es: Seq<(Att, usize)>, k: Att) -> nat {
    if has_key(es, k) {
        let i = choose|i: int| 0 <= i < es.len() && (#[trigger] es[i]).0 == k;
        es[i].1 as nat
    } else {
        0
    }
}

/// Each key has at most one entry.
pub open spec fn keys_distinct(es: Seq<(Att, usize)>) -> bool {
    forall|i: int, j: int|
        0 <= i < j < es.len() ==> (#[trigger] es[i]).0 != (#[trigger] es[j]).0
}

/// The persistent agreement counter: the authoritative cardinality of
/// each derived tuple across all rounds of the closure.
pub struct Counter {
    entries: Vec<(Att, usize)>,
}

impl Counter {
    pub closed spec fn rep(&self) -> Seq<(Att, usize)> {
        self.entries@
    }

    pub open spec fn inv(&self) -> bool {
        keys_distinct(self.rep())
    }

    /// An empty counter.
    pub fn new() -> (r: Counter)
        ensures
            r.inv(),
            r.rep() == Seq::<(Att, usize)>::empty(),
            forall|k: Att| !has_key(r.rep(), k),
    {
        Counter { entries: Vec::new() }
    }

    /// Add one to the count for `k` and return the new count.
    pub fn bump(&mut self, k: Att) -> (r: usize)
        requires
            old(self).inv(),
            count_of(old(self).rep(), k) < usize::MAX,
        ensures
            final(self).inv(),
            r as nat == count_of(old(self).rep(), k) + 1,
            count_of(final(self).rep(), k) == r as nat,
            forall|k2: Att| k2 != k ==> count_of(final(self).rep(), k2) == count_of(
                old(self).rep(),
                k2,
            ),
            forall|k2: Att| #[trigger] has_key(final(self).rep(), k2) == (has_key(
                old(self).rep(),
                k2,
            ) || k2 == k),
    {
        let ghost pre = self.entries@;
        let n = self.entries.len();
        let mut i: usize = 0;
        while i < n
            invariant
                n == self.entries@.len(),
                i <= n,
                self.entries@ == pre,
                pre == old(self).rep(),
                count_of(pre, k) < usize::MAX,
                keys_distinct(pre),
                forall|j: int| 0 <= j < i ==> (#[trigger] pre[j]).0 != k,
            decreases n - i,
        {
            if self.entries[i].0 == k {
                proof {
                    lemma_count_at(pre, k, i as int);
                }
                let v = self.entries[i].1;
                let v2 = v + 1;
                self.entries[i] = (k, v2);
                proof {
                    let post = self.entries@;
                    assert(post == pre.update(i as int, (k, v2)));
                    assert forall|x: int| 0 <= x < post.len() implies (#[trigger] post[x]).0
                        == pre[x].0 by {}
                    assert(keys_distinct(post));
                    lemma_count_at(post, k, i as int);
                    assert forall|k2: Att| k2 != k implies count_of(post, k2) == count_of(
                        pre,
                        k2,
                    ) by {
                        lemma_count_unaffected(pre, post, k2);
                    }
                    assert forall|k2: Att| #[trigger] has_key(post, k2) == (has_key(pre, k2) || k2
                        == k) by {
                        if has_key(post, k2) {
                            let j = choose|j: int|
                                0 <= j < post.len() && (#[trigger] post[j]).0 == k2;
                            assert(pre[j].0 == k2);
                        }
                        if has_key(pre, k2) {
                            let j = choose|j: int|
                                0 <= j < pre.len() && (#[trigger] pre[j]).0 == k2;
                            assert(post[j].0 == k2);
                        }
                        if k2 == k {
                            assert(post[i as int].0 == k2);
                        }
                    }
                }
                return v2;
            }
            i = i + 1;
        }
        proof {
            assert(!has_key(pre, k));
            assert(count_of(pre, k) == 0);
        }
        self.entries.push((k, 1));
        proof {
            let post = self.entries@;
            assert(post == pre.push((k, 1)));
            assert(has_key(post, k)) by {
                assert(post[post.len() - 1].0 == k);
            }
            assert forall|j: int| 0 <= j < post.len() && (#[trigger] post[j]).0 == k implies j
                == post.len() - 1 by {
                if j < post.len() - 1 {
                    assert(pre[j].0 != k);
                }
            }
            assert(count_of(post, k) == 1nat);
            assert forall|k2: Att| k2 != k implies count_of(post, k2) == count_of(pre, k2) by {
                lemma_count_push_other(pre, k, k2);
            }
            assert forall|k2: Att| #[trigger] has_key(post, k2) implies has_key(pre, k2) || k2
                == k by {
                let j = choose|j: int| 0 <= j < post.len() && (#[trigger] post[j]).0 == k2;
                if j < post.len() - 1 {
                    assert(pre[j].0 == k2);
                }
            }
            assert forall|k2: Att| has_key(pre, k2) implies has_key(post, k2) by {
                let j = choose|j: int| 0 <= j < pre.len() && (#[trigger] pre[j]).0 == k2;
                assert(post[j].0 == k2);
            }
        }
        1
    }

    /// The raw entries, for iteration by the verifier's adequacy pass.
    pub fn entries(&self) -> (r: &Vec<(Att, usize)>)
        ensures
            r@ == self.rep(),
    {
        &self.entries
    }
}

/// With distinct keys, the count for `k` is what the entry at any
/// position holding `k` stores.
pub proof fn lemma_count_at_pub(es: Seq<(Att, usize)>, k: Att, j: int)
    requires
        keys_distinct(es),
        0 <= j < es.len(),
        es[j].0 == k,
    ensures
        count_of(es, k) == es[j].1 as nat,
{
    lemma_count_at(es, k, j);
}

/// With distinct keys, the count for `k` is what the entry at any
/// position holding `k` stores.
proof fn lemma_count_at(es: Seq<(Att, usize)>, k: Att, j: int)
    requires
        keys_distinct(es),
        0 <= j < es.len(),
        es[j].0 == k,
    ensures
        count_of(es, k) == es[j].1 as nat,
{
    assert(has_key(es, k));
    let i = choose|i: int| 0 <= i < es.len() && (#[trigger] es[i]).0 == k;
    if i < j {
        assert(es[i].0 != es[j].0);
    } else if j < i {
        assert(es[j].0 != es[i].0);
    }
}

/// An update that touches no entry of key `k2` leaves the count of `k2`
/// unchanged.
proof fn lemma_count_unaffected(pre: Seq<(Att, usize)>, post: Seq<(Att, usize)>, k2: Att)
    requires
        keys_distinct(pre),
        keys_distinct(post),
        pre.len() == post.len(),
        forall|j: int|
            0 <= j < pre.len() && ((#[trigger] pre[j]).0 == k2 || (#[trigger] post[j]).0 == k2)
                ==> post[j] == pre[j],
    ensures
        count_of(post, k2) == count_of(pre, k2),
{
    if has_key(pre, k2) {
        let j = choose|j: int| 0 <= j < pre.len() && (#[trigger] pre[j]).0 == k2;
        assert(post[j] == pre[j]);
        lemma_count_at(pre, k2, j);
        lemma_count_at(post, k2, j);
    } else {
        if has_key(post, k2) {
            let j = choose|j: int| 0 <= j < post.len() && (#[trigger] post[j]).0 == k2;
            assert(pre[j] == post[j]);
            assert(pre[j].0 == k2);
        }
    }
}

/// Pushing an entry for a fresh key leaves the other counts unchanged.
proof fn lemma_count_push_other(pre: Seq<(Att, usize)>, k: Att, k2: Att)
    requires
        keys_distinct(pre),
        !has_key(pre, k),
        k2 != k,
    ensures
        count_of(pre.push((k, 1)), k2) == count_of(pre, k2),
{
    let post = pre.push((k, 1));
    assert(keys_distinct(post)) by {
        assert forall|i: int, j: int| 0 <= i < j < post.len() implies (#[trigger] post[i]).0 != (
        #[trigger] post[j]).0 by {
            if j == post.len() - 1 {
                assert(pre[i].0 != k);
            }
        }
    }
    if has_key(pre, k2) {
        let j = choose|j: int| 0 <= j < pre.len() && (#[trigger] pre[j]).0 == k2;
        assert(post[j].0 == k2);
        lemma_count_at(pre, k2, j);
        lemma_count_at(post, k2, j);
    } else {
        if has_key(post, k2) {
            let j = choose|j: int| 0 <= j < post.len() && (#[trigger] post[j]).0 == k2;
            assert(j < pre.len());
            assert(pre[j].0 == k2);
        }
    }
}

} // verus!
