//! String interner with category-tagged ids.
//!
//! The interner maintains a bijection between the strings handed to the
//! public API and small dense integer ids, assigned in insertion order
//! starting at 0. Ids are wrapped in distinct tagged types (one per
//! category of identifier) so that, for example, an output id cannot be
//! passed where a derivation id is expected. Interning the same string
//! under two different categories is refused: the intern methods return
//! `None` in that case and leave the interner unchanged.

use vstd::prelude::*;

verus! {

/// The category under which a string is interned.
#[derive(Debug, Clone, Copy, PartialEq, Eq, Structural)]
pub enum Category {
    Udrv,
    Rdrv,
    TrustModel,
    ContentHash,
    Output,
}

/// Id of an unresolved derivation.
#[derive(Debug, Clone, Copy, PartialEq, Eq, Hash, PartialOrd, Ord, Structural)]
pub struct UDrv(pub usize);

/// Id of a resolved derivation.
#[derive(Debug, Clone, Copy, PartialEq, Eq, Hash, PartialOrd, Ord, Structural)]
pub struct RDrv(pub usize);

/// Id of a trust element (a key or a composite trust model).
#[derive(Debug, Clone, Copy, PartialEq, Eq, Hash, PartialOrd, Ord, Structural)]
pub struct TrustModel(pub usize);

/// Id of a content hash.
#[derive(Debug, Clone, Copy, PartialEq, Eq, Hash, PartialOrd, Ord, Structural)]
pub struct ContentHash(pub usize);

/// Id of a declared derivation output.
#[derive(Debug, Clone, Copy, PartialEq, Eq, Hash, PartialOrd, Ord, Structural)]
pub struct UDrvOutput(pub usize);

/// One interned string together with its category; the abstract content
/// of one interner slot.
pub struct Entry {
    pub text: Seq<char>,
    pub cat: Category,
}

/// No two slots hold the same string.
pub open spec fn entries_distinct(v: Seq<Entry>) -> bool {
    forall|i: int, j: int|
        0 <= i < j < v.len() ==> #[trigger] v[i].text != #[trigger] v[j].text
}

/// Some slot holds the string `s`.
pub open spec fn has_text(v: Seq<Entry>, s: Seq<char>) -> bool {
    exists|i: int| 0 <= i < v.len() && #[trigger] v[i].text == s
}

/// Some slot holds the string `s` under category `cat`.
pub open spec fn has_entry(v: Seq<Entry>, s: Seq<char>, cat: Category) -> bool {
    exists|i: int| 0 <= i < v.len() && #[trigger] v[i].text == s && v[i].cat == cat
}

/// All strings interned under category `cat`.
pub open spec fn cat_names(v: Seq<Entry>, cat: Category) -> Set<Seq<char>> {
    Set::new(|s: Seq<char>| has_entry(v, s, cat))
}

/// What a successful intern call guarantees: either the string was
/// already present under the requested category and the interner is
/// unchanged, or a fresh slot was appended and the new id is the old
/// number of slots.
pub open spec fn intern_ok(
    pre: Seq<Entry>,
    post: Seq<Entry>,
    s: Seq<char>,
    cat: Category,
    id: int,
) -> bool {
    if has_text(pre, s) {
        &&& post == pre
        &&& 0 <= id < pre.len()
        &&& pre[id].text == s
        &&& pre[id].cat == cat
    } else {
        &&& id == pre.len()
        &&& post == pre.push(Entry { text: s, cat })
    }
}

/// An intern call is refused exactly when the string is already interned
/// under a different category.
pub open spec fn intern_refused(v: Seq<Entry>, s: Seq<char>, cat: Category) -> bool {
    has_text(v, s) && !has_entry(v, s, cat)
}


/// The number of entries interned under `cat`.
pub open spec fn cat_id_count(v: Seq<Entry>, cat: Category) -> nat
    decreases v.len(),
{
    if v.len() == 0 {
        0
    } else {
        cat_id_count(v.drop_last(), cat) + (if v.last().cat == cat {
            1nat
        } else {
            0nat
        })
    }
}

/// Interner state: parallel tables of strings and their categories; the
/// id of a string is its index.
pub struct StringInterner {
    strings: Vec<String>,
    cats: Vec<Category>,
}

impl View for StringInterner {
    type V = Seq<Entry>;

    closed spec fn view(&self) -> Seq<Entry> {
        Seq::new(
            self.strings@.len(),
            |i: int| Entry { text: self.strings@[i]@, cat: self.cats@[i] },
        )
    }
}

impl StringInterner {
    /// The two tables run in parallel.
    pub closed spec fn lens_ok(&self) -> bool {
        self.cats@.len() == self.strings@.len()
    }

    /// Well-formed: parallel tables, and no string interned twice.
    pub open spec fn wf(&self) -> bool {
        self.lens_ok() && entries_distinct(self@)
    }

    /// An empty interner.
    pub fn new() -> (r: StringInterner)
        ensures
            r.wf(),
            r@ == Seq::<Entry>::empty(),
    {
        let r = StringInterner { strings: Vec::new(), cats: Vec::new() };
        proof {
            assert(r@ =~= Seq::<Entry>::empty());
        }
        r
    }

    /// Index of the slot holding `s`, if any.
    fn find(&self, s: &String) -> (r: Option<usize>)
        requires
            self.wf(),
        ensures
            match r {
                Some(i) => i < self@.len() && self@[i as int].text == s@,
                None => !has_text(self@, s@),
            },
    {
        let n = self.strings.len();
        let mut i: usize = 0;
        while i < n
            invariant
                self.wf(),
                n == self.strings@.len(),
                i <= n,
                forall|j: int| 0 <= j < i ==> #[trigger] self@[j].text != s@,
            decreases n - i,
        {
            if self.strings[i] == *s {
                return Some(i);
            }
            i = i + 1;
        }
        None
    }

    /// Intern `s` under `cat`; refuse if `s` is already interned under a
    /// different category.
    fn intern(&mut self, s: &String, cat: Category) -> (r: Option<usize>)
        requires
            old(self).wf(),
        ensures
            final(self).wf(),
            match r {
                Some(id) => intern_ok(old(self)@, final(self)@, s@, cat, id as int),
                None => final(self)@ == old(self)@,
            },
            (r is None) == intern_refused(old(self)@, s@, cat),
    {
        match self.find(s) {
            Some(i) => {
                if self.cats[i] == cat {
                    Some(i)
                } else {
                    proof {
                        assert(has_text(self@, s@));
                        assert forall|j: int|
                            0 <= j < self@.len() && #[trigger] self@[j].text == s@
                            implies self@[j].cat != cat by {
                            if j != i as int {
                                assert(self@[j].text != self@[i as int].text);
                            }
                        }
                        assert(!has_entry(self@, s@, cat));
                    }
                    None
                }
            },
            None => {
                let ghost pre = self@;
                let id = self.strings.len();
                self.strings.push(s.clone());
                self.cats.push(cat);
                proof {
                    assert(self@ =~= pre.push(Entry { text: s@, cat }));
                    assert forall|i: int, j: int|
                        0 <= i < j < self@.len() implies #[trigger] self@[i].text
                        != #[trigger] self@[j].text by {
                        if j == self@.len() - 1 {
                            assert(!has_text(pre, s@));
                            assert(pre[i].text != s@);
                        }
                    }
                }
                Some(id)
            },
        }
    }

    /// Intern `s` under `cat`, returning its raw id.
    pub(crate) fn intern_pub(&mut self, s: &str, cat: Category) -> (r: Option<usize>)
        requires
            old(self).wf(),
        ensures
            final(self).wf(),
            match r {
                Some(id) => intern_ok(old(self)@, final(self)@, s@, cat, id as int),
                None => final(self)@ == old(self)@,
            },
            (r is None) == intern_refused(old(self)@, s@, cat),
    {
        let owned = s.to_owned();
        self.intern(&owned, cat)
    }

    /// Intern a derivation name.
    pub fn udrv(&mut self, s: &str) -> (r: Option<UDrv>)
        requires
            old(self).wf(),
        ensures
            final(self).wf(),
            match r {
                Some(t) => intern_ok(old(self)@, final(self)@, s@, Category::Udrv, t.0 as int),
                None => final(self)@ == old(self)@,
            },
            (r is None) == intern_refused(old(self)@, s@, Category::Udrv),
    {
        let owned = s.to_owned();
        match self.intern(&owned, Category::Udrv) {
            Some(id) => Some(UDrv(id)),
            None => None,
        }
    }

    /// Intern a resolved-derivation name.
    pub fn rdrv(&mut self, s: &str) -> (r: Option<RDrv>)
        requires
            old(self).wf(),
        ensures
            final(self).wf(),
            match r {
                Some(t) => intern_ok(old(self)@, final(self)@, s@, Category::Rdrv, t.0 as int),
                None => final(self)@ == old(self)@,
            },
            (r is None) == intern_refused(old(self)@, s@, Category::Rdrv),
    {
        let owned = s.to_owned();
        match self.intern(&owned, Category::Rdrv) {
            Some(id) => Some(RDrv(id)),
            None => None,
        }
    }

    /// Intern a trust-element name.
    pub fn trust_model(&mut self, s: &str) -> (r: Option<TrustModel>)
        requires
            old(self).wf(),
        ensures
            final(self).wf(),
            match r {
                Some(t) => intern_ok(
                    old(self)@,
                    final(self)@,
                    s@,
                    Category::TrustModel,
                    t.0 as int,
                ),
                None => final(self)@ == old(self)@,
            },
            (r is None) == intern_refused(old(self)@, s@, Category::TrustModel),
    {
        let owned = s.to_owned();
        match self.intern(&owned, Category::TrustModel) {
            Some(id) => Some(TrustModel(id)),
            None => None,
        }
    }

    /// Intern a content-hash string.
    pub fn content_hash(&mut self, s: &str) -> (r: Option<ContentHash>)
        requires
            old(self).wf(),
        ensures
            final(self).wf(),
            match r {
                Some(t) => intern_ok(
                    old(self)@,
                    final(self)@,
                    s@,
                    Category::ContentHash,
                    t.0 as int,
                ),
                None => final(self)@ == old(self)@,
            },
            (r is None) == intern_refused(old(self)@, s@, Category::ContentHash),
    {
        let owned = s.to_owned();
        match self.intern(&owned, Category::ContentHash) {
            Some(id) => Some(ContentHash(id)),
            None => None,
        }
    }

    /// Intern an output name.
    pub fn udrv_output(&mut self, s: &str) -> (r: Option<UDrvOutput>)
        requires
            old(self).wf(),
        ensures
            final(self).wf(),
            match r {
                Some(t) => intern_ok(old(self)@, final(self)@, s@, Category::Output, t.0 as int),
                None => final(self)@ == old(self)@,
            },
            (r is None) == intern_refused(old(self)@, s@, Category::Output),
    {
        let owned = s.to_owned();
        match self.intern(&owned, Category::Output) {
            Some(id) => Some(UDrvOutput(id)),
            None => None,
        }
    }

    /// The id under which `s` is interned, if it is interned at all.
    pub(crate) fn find_id(&self, s: &str) -> (r: Option<usize>)
        requires
            self.wf(),
        ensures
            match r {
                Some(i) => i < self@.len() && self@[i as int].text == s@,
                None => !has_text(self@, s@),
            },
    {
        let owned = s.to_owned();
        self.find(&owned)
    }

    /// Whether `s` may be interned under `cat`: it must be absent or
    /// already interned under `cat`.
    pub fn can_intern(&self, s: &str, cat: Category) -> (r: bool)
        requires
            self.wf(),
        ensures
            r == !intern_refused(self@, s@, cat),
    {
        let owned = s.to_owned();
        match self.find(&owned) {
            Some(i) => {
                let c = self.cats[i];
                proof {
                    assert(self@[i as int].text == s@ && self@[i as int].cat == c);
                    if c == cat {
                        assert(has_entry(self@, s@, cat));
                    } else {
                        assert forall|j: int|
                            0 <= j < self@.len() && #[trigger] self@[j].text == s@
                            implies self@[j].cat != cat by {
                            if j != i as int {
                                if j < i as int {
                                    assert(self@[j].text != self@[i as int].text);
                                } else {
                                    assert(self@[i as int].text != self@[j].text);
                                }
                            }
                        }
                        assert(!has_entry(self@, s@, cat));
                        assert(has_text(self@, s@));
                    }
                }
                c == cat
            },
            None => {
                proof {
                    assert(!has_text(self@, s@));
                }
                true
            },
        }
    }

    /// The category under which `s` is interned, if it is interned.
    pub fn category_of(&self, s: &str) -> (r: Option<Category>)
        requires
            self.wf(),
        ensures
            match r {
                Some(c) => has_entry(self@, s@, c),
                None => !has_text(self@, s@),
            },
    {
        let owned = s.to_owned();
        match self.find(&owned) {
            Some(i) => {
                let c = self.cats[i];
                proof {
                    assert(self@[i as int].text == s@ && self@[i as int].cat == c);
                }
                Some(c)
            },
            None => None,
        }
    }

    /// The string in slot `id`; total on interned ids.
    pub(crate) fn text_at(&self, id: usize) -> (r: String)
        requires
            self.wf(),
            id < self@.len(),
        ensures
            r@ == self@[id as int].text,
    {
        self.strings[id].clone()
    }

    /// The string interned with id `id`, if `id` is in use.
    pub fn get_string(&self, id: usize) -> (r: Option<String>)
        requires
            self.wf(),
        ensures
            match r {
                Some(t) => id < self@.len() && t@ == self@[id as int].text,
                None => id >= self@.len(),
            },
    {
        if id < self.strings.len() {
            Some(self.strings[id].clone())
        } else {
            None
        }
    }

    /// The derivation name with id `id`, if any.
    pub fn udrv_str(&self, id: UDrv) -> (r: Option<String>)
        requires
            self.wf(),
        ensures
            match r {
                Some(t) => id.0 < self@.len() && t@ == self@[id.0 as int].text,
                None => id.0 >= self@.len(),
            },
    {
        self.get_string(id.0)
    }

    /// The resolved-derivation name with id `id`, if any.
    pub fn rdrv_str(&self, id: RDrv) -> (r: Option<String>)
        requires
            self.wf(),
        ensures
            match r {
                Some(t) => id.0 < self@.len() && t@ == self@[id.0 as int].text,
                None => id.0 >= self@.len(),
            },
    {
        self.get_string(id.0)
    }

    /// The trust-element name with id `id`, if any.
    pub fn trust_model_str(&self, id: TrustModel) -> (r: Option<String>)
        requires
            self.wf(),
        ensures
            match r {
                Some(t) => id.0 < self@.len() && t@ == self@[id.0 as int].text,
                None => id.0 >= self@.len(),
            },
    {
        self.get_string(id.0)
    }

    /// The content-hash string with id `id`, if any.
    pub fn content_hash_str(&self, id: ContentHash) -> (r: Option<String>)
        requires
            self.wf(),
        ensures
            match r {
                Some(t) => id.0 < self@.len() && t@ == self@[id.0 as int].text,
                None => id.0 >= self@.len(),
            },
    {
        self.get_string(id.0)
    }

    /// The output name with id `id`, if any.
    pub fn udrv_output_str(&self, id: UDrvOutput) -> (r: Option<String>)
        requires
            self.wf(),
        ensures
            match r {
                Some(t) => id.0 < self@.len() && t@ == self@[id.0 as int].text,
                None => id.0 >= self@.len(),
            },
    {
        self.get_string(id.0)
    }

    /// The ids interned under `cat`, in insertion order: each id of the
    /// category exactly once, and nothing else.
    fn ids_in_cat(&self, cat: Category) -> (r: Vec<usize>)
        requires
            self.wf(),
        ensures
            r@.len() == cat_id_count(self@, cat),
            forall|k: int| 0 <= k < r@.len() ==> (#[trigger] r@[k]) < self@.len()
                && self@[r@[k] as int].cat == cat,
            forall|a: int, b: int| 0 <= a < b < r@.len() ==> #[trigger] r@[a] < #[trigger] r@[b],
            forall|e: int|
                0 <= e < self@.len() && (#[trigger] self@[e]).cat == cat ==> r@.contains(
                    e as usize,
                ),
    {
        let n = self.cats.len();
        let mut out: Vec<usize> = Vec::new();
        let mut i: usize = 0;
        while i < n
            invariant
                self.wf(),
                n == self@.len(),
                i <= n,
                out@.len() == cat_id_count(self@.take(i as int), cat),
                forall|k: int| 0 <= k < out@.len() ==> (#[trigger] out@[k]) < i
                    && self@[out@[k] as int].cat == cat,
                forall|a: int, b: int|
                    0 <= a < b < out@.len() ==> #[trigger] out@[a] < #[trigger] out@[b],
                forall|e: int|
                    0 <= e < i && (#[trigger] self@[e]).cat == cat ==> out@.contains(e as usize),
            decreases n - i,
        {
            proof {
                assert(self@.take(i + 1).drop_last() =~= self@.take(i as int));
                assert(self@.take(i + 1).last() == self@[i as int]);
            }
            if self.cats[i] == cat {
                let ghost out_pre = out@;
                out.push(i);
                proof {
                    assert forall|e: int|
                        0 <= e < i + 1 && (#[trigger] self@[e]).cat == cat implies out@.contains(
                        e as usize,
                    ) by {
                        if e < i {
                            let k = choose|k: int|
                                0 <= k < out_pre.len() && out_pre[k] == e as usize;
                            assert(out@[k] == e as usize);
                        } else {
                            assert(out@[out@.len() - 1] == e as usize);
                        }
                    }
                }
            }
            i = i + 1;
        }
        proof {
            assert(self@.take(n as int) =~= self@);
        }
        out
    }

    /// All interned derivations, in insertion order.
    pub fn all_udrvs(&self) -> (r: Vec<UDrv>)
        requires
            self.wf(),
        ensures
            r@.len() == cat_id_count(self@, Category::Udrv),
            forall|k: int| 0 <= k < r@.len() ==> (#[trigger] r@[k]).0 < self@.len()
                && self@[r@[k].0 as int].cat == Category::Udrv,
            forall|a: int, b: int| 0 <= a < b < r@.len() ==> #[trigger] r@[a] != #[trigger] r@[b],
            forall|e: int|
                0 <= e < self@.len() && (#[trigger] self@[e]).cat == Category::Udrv ==> r@.contains(
                    UDrv(e as usize),
                ),
    {
        let ids = self.ids_in_cat(Category::Udrv);
        let mut out: Vec<UDrv> = Vec::new();
        let n = ids.len();
        let mut i: usize = 0;
        while i < n
            invariant
                self.wf(),
                n == ids@.len(),
                i <= n,
                out@.len() == i,
                forall|k: int| 0 <= k < ids@.len() ==> (#[trigger] ids@[k]) < self@.len()
                    && self@[ids@[k] as int].cat == Category::Udrv,
                forall|a: int, b: int|
                    0 <= a < b < ids@.len() ==> #[trigger] ids@[a] < #[trigger] ids@[b],
                forall|e: int|
                    0 <= e < self@.len() && (#[trigger] self@[e]).cat == Category::Udrv
                        ==> ids@.contains(e as usize),
                forall|k: int| 0 <= k < out@.len() ==> #[trigger] out@[k] == UDrv(ids@[k]),
            decreases n - i,
        {
            out.push(UDrv(ids[i]));
            i = i + 1;
        }
        proof {
            assert forall|e: int|
                0 <= e < self@.len() && (#[trigger] self@[e]).cat == Category::Udrv
                implies out@.contains(UDrv(e as usize)) by {
                let k = choose|k: int| 0 <= k < ids@.len() && ids@[k] == e as usize;
                assert(out@[k] == UDrv(e as usize));
            }
        }
        out
    }

    /// All interned resolved derivations, in insertion order.
    pub fn all_rdrvs(&self) -> (r: Vec<RDrv>)
        requires
            self.wf(),
        ensures
            r@.len() == cat_id_count(self@, Category::Rdrv),
            forall|k: int| 0 <= k < r@.len() ==> (#[trigger] r@[k]).0 < self@.len()
                && self@[r@[k].0 as int].cat == Category::Rdrv,
            forall|a: int, b: int| 0 <= a < b < r@.len() ==> #[trigger] r@[a] != #[trigger] r@[b],
            forall|e: int|
                0 <= e < self@.len() && (#[trigger] self@[e]).cat == Category::Rdrv ==> r@.contains(
                    RDrv(e as usize),
                ),
    {
        let ids = self.ids_in_cat(Category::Rdrv);
        let mut out: Vec<RDrv> = Vec::new();
        let n = ids.len();
        let mut i: usize = 0;
        while i < n
            invariant
                self.wf(),
                n == ids@.len(),
                i <= n,
                out@.len() == i,
                forall|k: int| 0 <= k < ids@.len() ==> (#[trigger] ids@[k]) < self@.len()
                    && self@[ids@[k] as int].cat == Category::Rdrv,
                forall|a: int, b: int|
                    0 <= a < b < ids@.len() ==> #[trigger] ids@[a] < #[trigger] ids@[b],
                forall|e: int|
                    0 <= e < self@.len() && (#[trigger] self@[e]).cat == Category::Rdrv
                        ==> ids@.contains(e as usize),
                forall|k: int| 0 <= k < out@.len() ==> #[trigger] out@[k] == RDrv(ids@[k]),
            decreases n - i,
        {
            out.push(RDrv(ids[i]));
            i = i + 1;
        }
        proof {
            assert forall|e: int|
                0 <= e < self@.len() && (#[trigger] self@[e]).cat == Category::Rdrv
                implies out@.contains(RDrv(e as usize)) by {
                let k = choose|k: int| 0 <= k < ids@.len() && ids@[k] == e as usize;
                assert(out@[k] == RDrv(e as usize));
            }
        }
        out
    }

    /// All interned trust elements, in insertion order.
    pub fn all_trust_models(&self) -> (r: Vec<TrustModel>)
        requires
            self.wf(),
        ensures
            r@.len() == cat_id_count(self@, Category::TrustModel),
            forall|k: int| 0 <= k < r@.len() ==> (#[trigger] r@[k]).0 < self@.len()
                && self@[r@[k].0 as int].cat == Category::TrustModel,
            forall|a: int, b: int| 0 <= a < b < r@.len() ==> #[trigger] r@[a] != #[trigger] r@[b],
            forall|e: int|
                0 <= e < self@.len() && (#[trigger] self@[e]).cat == Category::TrustModel ==> r@.contains(
                    TrustModel(e as usize),
                ),
    {
        let ids = self.ids_in_cat(Category::TrustModel);
        let mut out: Vec<TrustModel> = Vec::new();
        let n = ids.len();
        let mut i: usize = 0;
        while i < n
            invariant
                self.wf(),
                n == ids@.len(),
                i <= n,
                out@.len() == i,
                forall|k: int| 0 <= k < ids@.len() ==> (#[trigger] ids@[k]) < self@.len()
                    && self@[ids@[k] as int].cat == Category::TrustModel,
                forall|a: int, b: int|
                    0 <= a < b < ids@.len() ==> #[trigger] ids@[a] < #[trigger] ids@[b],
                forall|e: int|
                    0 <= e < self@.len() && (#[trigger] self@[e]).cat == Category::TrustModel
                        ==> ids@.contains(e as usize),
                forall|k: int| 0 <= k < out@.len() ==> #[trigger] out@[k] == TrustModel(ids@[k]),
            decreases n - i,
        {
            out.push(TrustModel(ids[i]));
            i = i + 1;
        }
        proof {
            assert forall|e: int|
                0 <= e < self@.len() && (#[trigger] self@[e]).cat == Category::TrustModel
                implies out@.contains(TrustModel(e as usize)) by {
                let k = choose|k: int| 0 <= k < ids@.len() && ids@[k] == e as usize;
                assert(out@[k] == TrustModel(e as usize));
            }
        }
        out
    }

    /// All interned content hashes, in insertion order.
    pub fn all_content_hashes(&self) -> (r: Vec<ContentHash>)
        requires
            self.wf(),
        ensures
            r@.len() == cat_id_count(self@, Category::ContentHash),
            forall|k: int| 0 <= k < r@.len() ==> (#[trigger] r@[k]).0 < self@.len()
                && self@[r@[k].0 as int].cat == Category::ContentHash,
            forall|a: int, b: int| 0 <= a < b < r@.len() ==> #[trigger] r@[a] != #[trigger] r@[b],
            forall|e: int|
                0 <= e < self@.len() && (#[trigger] self@[e]).cat == Category::ContentHash ==> r@.contains(
                    ContentHash(e as usize),
                ),
    {
        let ids = self.ids_in_cat(Category::ContentHash);
        let mut out: Vec<ContentHash> = Vec::new();
        let n = ids.len();
        let mut i: usize = 0;
        while i < n
            invariant
                self.wf(),
                n == ids@.len(),
                i <= n,
                out@.len() == i,
                forall|k: int| 0 <= k < ids@.len() ==> (#[trigger] ids@[k]) < self@.len()
                    && self@[ids@[k] as int].cat == Category::ContentHash,
                forall|a: int, b: int|
                    0 <= a < b < ids@.len() ==> #[trigger] ids@[a] < #[trigger] ids@[b],
                forall|e: int|
                    0 <= e < self@.len() && (#[trigger] self@[e]).cat == Category::ContentHash
                        ==> ids@.contains(e as usize),
                forall|k: int| 0 <= k < out@.len() ==> #[trigger] out@[k] == ContentHash(ids@[k]),
            decreases n - i,
        {
            out.push(ContentHash(ids[i]));
            i = i + 1;
        }
        proof {
            assert forall|e: int|
                0 <= e < self@.len() && (#[trigger] self@[e]).cat == Category::ContentHash
                implies out@.contains(ContentHash(e as usize)) by {
                let k = choose|k: int| 0 <= k < ids@.len() && ids@[k] == e as usize;
                assert(out@[k] == ContentHash(e as usize));
            }
        }
        out
    }

    /// All interned output names, in insertion order.
    pub fn all_udrv_outputs(&self) -> (r: Vec<UDrvOutput>)
        requires
            self.wf(),
        ensures
            r@.len() == cat_id_count(self@, Category::Output),
            forall|k: int| 0 <= k < r@.len() ==> (#[trigger] r@[k]).0 < self@.len()
                && self@[r@[k].0 as int].cat == Category::Output,
            forall|a: int, b: int| 0 <= a < b < r@.len() ==> #[trigger] r@[a] != #[trigger] r@[b],
            forall|e: int|
                0 <= e < self@.len() && (#[trigger] self@[e]).cat == Category::Output ==> r@.contains(
                    UDrvOutput(e as usize),
                ),
    {
        let ids = self.ids_in_cat(Category::Output);
        let mut out: Vec<UDrvOutput> = Vec::new();
        let n = ids.len();
        let mut i: usize = 0;
        while i < n
            invariant
                self.wf(),
                n == ids@.len(),
                i <= n,
                out@.len() == i,
                forall|k: int| 0 <= k < ids@.len() ==> (#[trigger] ids@[k]) < self@.len()
                    && self@[ids@[k] as int].cat == Category::Output,
                forall|a: int, b: int|
                    0 <= a < b < ids@.len() ==> #[trigger] ids@[a] < #[trigger] ids@[b],
                forall|e: int|
                    0 <= e < self@.len() && (#[trigger] self@[e]).cat == Category::Output
                        ==> ids@.contains(e as usize),
                forall|k: int| 0 <= k < out@.len() ==> #[trigger] out@[k] == UDrvOutput(ids@[k]),
            decreases n - i,
        {
            out.push(UDrvOutput(ids[i]));
            i = i + 1;
        }
        proof {
            assert forall|e: int|
                0 <= e < self@.len() && (#[trigger] self@[e]).cat == Category::Output
                implies out@.contains(UDrvOutput(e as usize)) by {
                let k = choose|k: int| 0 <= k < ids@.len() && ids@[k] == e as usize;
                assert(out@[k] == UDrvOutput(e as usize));
            }
        }
        out
    }

    /// How many derivation names are interned.
    pub fn udrvs_count(&self) -> (r: usize)
        requires
            self.wf(),
        ensures
            r as nat == cat_id_count(self@, Category::Udrv),
    {
        self.ids_in_cat(Category::Udrv).len()
    }

    /// How many resolved-derivation names are interned.
    pub fn rdrvs_count(&self) -> (r: usize)
        requires
            self.wf(),
        ensures
            r as nat == cat_id_count(self@, Category::Rdrv),
    {
        self.ids_in_cat(Category::Rdrv).len()
    }

    /// How many trust-element names are interned.
    pub fn trust_models_count(&self) -> (r: usize)
        requires
            self.wf(),
        ensures
            r as nat == cat_id_count(self@, Category::TrustModel),
    {
        self.ids_in_cat(Category::TrustModel).len()
    }

    /// How many content-hash strings are interned.
    pub fn content_hashes_count(&self) -> (r: usize)
        requires
            self.wf(),
        ensures
            r as nat == cat_id_count(self@, Category::ContentHash),
    {
        self.ids_in_cat(Category::ContentHash).len()
    }

    /// How many output names are interned.
    pub fn udrv_outputs_count(&self) -> (r: usize)
        requires
            self.wf(),
        ensures
            r as nat == cat_id_count(self@, Category::Output),
    {
        self.ids_in_cat(Category::Output).len()
    }
}

} // verus!
