use vstd::prelude::*;

verus! {

/// A tree of variants: an inner node holds further trees, a leaf node holds the
/// variants themselves.
#[derive(Debug)]
pub enum VariantsContainer<T> {
    Container(Vec<VariantsContainer<T>>),
    Variants(Vec<T>),
}

/// What a path through a tree leads to.
pub enum VariantsContainerReturn<'a, T> {
    Container(&'a VariantsContainer<T>),
    Variant(&'a T),
}

/// What a path through a tree leads to, borrowed for change.
pub enum VariantsContainerReturnMut<'a, T> {
    Container(&'a mut VariantsContainer<T>),
    Variant(&'a mut T),
}

/// The value that a path leads to.
pub ghost enum Located<T> {
    Container(VariantsContainer<T>),
    Variant(T),
}

impl<'a, T> VariantsContainerReturn<'a, T> {
    pub open spec fn located(self) -> Located<T> {
        match self {
            VariantsContainerReturn::Container(c) => Located::Container(*c),
            VariantsContainerReturn::Variant(v) => Located::Variant(*v),
        }
    }
}

/// `i` limited to the last index of a node with `n` children.
pub open spec fn clamp_idx(i: int, n: int) -> int {
    if i > n - 1 {
        n - 1
    } else {
        i
    }
}

impl<T> VariantsContainer<T> {
    /// The number of children of the top node.
    pub open spec fn spec_len(self) -> nat {
        match self {
            VariantsContainer::Container(inner) => inner@.len(),
            VariantsContainer::Variants(inner) => inner@.len(),
        }
    }

    /// Follows `path`: each index, limited to the node's last child, picks a
    /// child; the walk stops at a variant, at an empty node, or at the end of `path`.
    pub open spec fn at(self, path: Seq<usize>) -> Located<T>
        decreases path.len(),
    {
        if path.len() == 0 || self.spec_len() == 0 {
            Located::Container(self)
        } else {
            let i = clamp_idx(path[0] as int, self.spec_len() as int);
            match self {
                VariantsContainer::Container(inner) => inner@[i].at(path.drop_first()),
                VariantsContainer::Variants(inner) => Located::Variant(inner@[i]),
            }
        }
    }

    /// Whether `new` is this tree with what `path` leads to replaced by `x`.
    pub open spec fn replaced(self, path: Seq<usize>, x: Located<T>, new: VariantsContainer<T>) -> bool
        decreases path.len(),
    {
        if path.len() == 0 || self.spec_len() == 0 {
            match x {
                Located::Container(c) => new == c,
                Located::Variant(_) => new == self,
            }
        } else {
            let i = clamp_idx(path[0] as int, self.spec_len() as int);
            match (self, new) {
                (VariantsContainer::Container(inner), VariantsContainer::Container(inner2)) => {
                    &&& inner2@.len() == inner@.len()
                    &&& forall|j: int| 0 <= j < inner@.len() && j != i ==> inner2@[j] == inner@[j]
                    &&& inner@[i].replaced(path.drop_first(), x, inner2@[i])
                },
                (VariantsContainer::Variants(inner), VariantsContainer::Variants(inner2)) => match x {
                    Located::Variant(v) => inner2@ == inner@.update(i, v),
                    Located::Container(_) => new == self,
                },
                _ => false,
            }
        }
    }

    /// Every node of the tree has at least one child.
    pub open spec fn wf(self) -> bool
        decreases self,
    {
        match self {
            VariantsContainer::Container(inner) => inner@.len() > 0 && forall|i: int|
                0 <= i < inner@.len() ==> (#[trigger] inner@[i]).wf(),
            VariantsContainer::Variants(inner) => inner@.len() > 0,
        }
    }

    /// The variant reached by always taking the first child.
    pub open spec fn first_variant(self) -> T
        decreases self,
    {
        match self {
            VariantsContainer::Container(inner) => if inner@.len() > 0 {
                inner@[0].first_variant()
            } else {
                arbitrary()
            },
            VariantsContainer::Variants(inner) => inner@[0],
        }
    }

    /// The variant that `path` leads to, continuing with first children where
    /// `path` stops at a node.
    pub open spec fn innermost(self, path: Seq<usize>) -> T {
        match self.at(path) {
            Located::Container(c) => c.first_variant(),
            Located::Variant(v) => v,
        }
    }

    /// The number of nodes passed on the way to the first variant.
    pub open spec fn first_depth(self) -> nat
        decreases self,
    {
        match self {
            VariantsContainer::Container(inner) => if inner@.len() > 0 {
                1 + inner@[0].first_depth()
            } else {
                0
            },
            VariantsContainer::Variants(_) => 0,
        }
    }

    /// Whether `new` is this tree with its first variant replaced by `v`.
    pub open spec fn first_replaced(self, v: T, new: VariantsContainer<T>) -> bool
        decreases self,
    {
        match (self, new) {
            (VariantsContainer::Container(inner), VariantsContainer::Container(inner2)) => {
                &&& inner@.len() > 0
                &&& inner2@.len() == inner@.len()
                &&& forall|j: int| 0 < j < inner@.len() ==> inner2@[j] == inner@[j]
                &&& inner@[0].first_replaced(v, inner2@[0])
            },
            (VariantsContainer::Variants(inner), VariantsContainer::Variants(inner2)) => {
                &&& inner@.len() > 0
                &&& inner2@ == inner@.update(0, v)
            },
            _ => false,
        }
    }

    /// Whether `new` is this tree with `innermost(path)` replaced by `v`.
    pub open spec fn innermost_replaced(self, path: Seq<usize>, v: T, new: VariantsContainer<T>) -> bool
        decreases path.len(),
    {
        if path.len() == 0 || self.spec_len() == 0 {
            self.first_replaced(v, new)
        } else {
            let i = clamp_idx(path[0] as int, self.spec_len() as int);
            match (self, new) {
                (VariantsContainer::Container(inner), VariantsContainer::Container(inner2)) => {
                    &&& inner2@.len() == inner@.len()
                    &&& forall|j: int| 0 <= j < inner@.len() && j != i ==> inner2@[j] == inner@[j]
                    &&& inner@[i].innermost_replaced(path.drop_first(), v, inner2@[i])
                },
                (VariantsContainer::Variants(inner), VariantsContainer::Variants(inner2)) => inner2@
                    == inner@.update(i, v),
                _ => false,
            }
        }
    }

    /// Whether every variant of the tree meets `p`.
    pub open spec fn all(self, p: spec_fn(T) -> bool) -> bool
        decreases self,
    {
        match self {
            VariantsContainer::Container(inner) => forall|i: int|
                0 <= i < inner@.len() ==> (#[trigger] inner@[i]).all(p),
            VariantsContainer::Variants(inner) => forall|i: int|
                0 <= i < inner@.len() ==> p(#[trigger] inner@[i]),
        }
    }

    /// Whether `out` has the shape of this tree and each of its variants is
    /// related by `rel` to the variant in the same place here.
    pub open spec fn mapped<U>(self, out: VariantsContainer<U>, rel: spec_fn(T, U) -> bool) -> bool
        decreases self,
    {
        match (self, out) {
            (VariantsContainer::Container(inner), VariantsContainer::Container(inner2)) => {
                &&& inner2@.len() == inner@.len()
                &&& forall|i: int| 0 <= i < inner@.len() ==> (#[trigger] inner@[i]).mapped(inner2@[i], rel)
            },
            (VariantsContainer::Variants(inner), VariantsContainer::Variants(inner2)) => {
                &&& inner2@.len() == inner@.len()
                &&& forall|i: int| 0 <= i < inner@.len() ==> rel(#[trigger] inner@[i], inner2@[i])
            },
            _ => false,
        }
    }

    /// In a tree whose nodes all have children, a path leads to a variant or to
    /// a node that again has children.
    pub proof fn lemma_at_wf(self, path: Seq<usize>)
        requires
            self.wf(),
        ensures
            match self.at(path) {
                Located::Container(c) => c.wf(),
                Located::Variant(_) => true,
            },
        decreases path.len(),
    {
        if path.len() == 0 || self.spec_len() == 0 {
        } else {
            let i = clamp_idx(path[0] as int, self.spec_len() as int);
            match self {
                VariantsContainer::Container(inner) => {
                    assert(inner@[i].wf());
                    inner@[i].lemma_at_wf(path.drop_first());
                },
                VariantsContainer::Variants(inner) => {},
            }
        }
    }

    /// What holds of every variant holds of the one a path leads to.
    pub proof fn lemma_all_innermost(self, path: Seq<usize>, p: spec_fn(T) -> bool)
        requires
            self.wf(),
            self.all(p),
        ensures
            p(self.innermost(path)),
        decreases path.len(),
    {
        if path.len() == 0 || self.spec_len() == 0 {
            self.lemma_all_first(p);
        } else {
            let i = clamp_idx(path[0] as int, self.spec_len() as int);
            match self {
                VariantsContainer::Container(inner) => {
                    assert(inner@[i].wf());
                    assert(inner@[i].all(p));
                    inner@[i].lemma_all_innermost(path.drop_first(), p);
                },
                VariantsContainer::Variants(inner) => {},
            }
        }
    }

    proof fn lemma_all_first(self, p: spec_fn(T) -> bool)
        requires
            self.wf(),
            self.all(p),
        ensures
            p(self.first_variant()),
        decreases self,
    {
        match self {
            VariantsContainer::Container(inner) => {
                assert(inner@[0].wf());
                assert(inner@[0].all(p));
                inner@[0].lemma_all_first(p);
            },
            VariantsContainer::Variants(inner) => {},
        }
    }

    /// Replacing one variant by one that meets `p` keeps every variant meeting `p`,
    /// and keeps every node with children.
    pub proof fn lemma_innermost_replaced_all(
        self,
        path: Seq<usize>,
        v: T,
        new: VariantsContainer<T>,
        p: spec_fn(T) -> bool,
    )
        requires
            self.wf(),
            self.innermost_replaced(path, v, new),
        ensures
            new.wf(),
            self.all(p) && p(v) ==> new.all(p),
        decreases path.len(),
    {
        if path.len() == 0 || self.spec_len() == 0 {
            self.lemma_first_replaced_all(v, new, p);
        } else {
            let i = clamp_idx(path[0] as int, self.spec_len() as int);
            match (self, new) {
                (VariantsContainer::Container(inner), VariantsContainer::Container(inner2)) => {
                    assert(inner@[i].wf());
                    inner@[i].lemma_innermost_replaced_all(path.drop_first(), v, inner2@[i], p);
                    assert forall|j: int| 0 <= j < inner2@.len() implies (#[trigger] inner2@[j]).wf() by {
                        if j != i {
                            assert(inner@[j].wf());
                        }
                    }
                    if self.all(p) && p(v) {
                        assert forall|j: int| 0 <= j < inner2@.len() implies (#[trigger] inner2@[j]).all(p) by {
                            if j != i {
                                assert(inner@[j].all(p));
                            } else {
                                assert(inner@[i].all(p));
                            }
                        }
                    }
                },
                (VariantsContainer::Variants(inner), VariantsContainer::Variants(inner2)) => {},
                _ => {},
            }
        }
    }

    proof fn lemma_first_replaced_all(self, v: T, new: VariantsContainer<T>, p: spec_fn(T) -> bool)
        requires
            self.wf(),
            self.first_replaced(v, new),
        ensures
            new.wf(),
            self.all(p) && p(v) ==> new.all(p),
        decreases self,
    {
        match (self, new) {
            (VariantsContainer::Container(inner), VariantsContainer::Container(inner2)) => {
                assert(inner@[0].wf());
                inner@[0].lemma_first_replaced_all(v, inner2@[0], p);
                assert forall|j: int| 0 <= j < inner2@.len() implies (#[trigger] inner2@[j]).wf() by {
                    if j != 0 {
                        assert(inner@[j].wf());
                    }
                }
                if self.all(p) && p(v) {
                    assert forall|j: int| 0 <= j < inner2@.len() implies (#[trigger] inner2@[j]).all(p) by {
                        if j != 0 {
                            assert(inner@[j].all(p));
                        } else {
                            assert(inner@[0].all(p));
                        }
                    }
                }
            },
            _ => {},
        }
    }

    /// What every variant meets, every variant meets in any weaker form.
    pub proof fn lemma_all_weaken(self, p: spec_fn(T) -> bool, q: spec_fn(T) -> bool)
        requires
            self.all(p),
            forall|t: T| #[trigger] p(t) ==> q(t),
        ensures
            self.all(q),
        decreases self,
    {
        match self {
            VariantsContainer::Container(inner) => {
                assert forall|i: int| 0 <= i < inner@.len() implies (#[trigger] inner@[i]).all(q) by {
                    inner@[i].lemma_all_weaken(p, q);
                }
            },
            VariantsContainer::Variants(inner) => {},
        }
    }

    /// A mapped tree keeps the shape, so every node keeps its children; a relation
    /// implied by the mapping relation holds too; and a property of the variants
    /// carries over as far as the relation carries it.
    pub proof fn lemma_mapped<U>(
        self,
        out: VariantsContainer<U>,
        rel: spec_fn(T, U) -> bool,
        rel2: spec_fn(T, U) -> bool,
        p: spec_fn(T) -> bool,
        q: spec_fn(U) -> bool,
    )
        requires
            self.mapped(out, rel),
            forall|t: T, u: U| #[trigger] rel(t, u) ==> rel2(t, u),
            forall|t: T, u: U| #[trigger] rel(t, u) && p(t) ==> q(u),
        ensures
            self.mapped(out, rel2),
            self.wf() ==> out.wf(),
            self.all(p) ==> out.all(q),
        decreases self,
    {
        match (self, out) {
            (VariantsContainer::Container(inner), VariantsContainer::Container(inner2)) => {
                assert forall|i: int| 0 <= i < inner@.len() implies {
                    &&& (#[trigger] inner@[i]).mapped(inner2@[i], rel2)
                    &&& inner@[i].wf() ==> inner2@[i].wf()
                    &&& inner@[i].all(p) ==> inner2@[i].all(q)
                } by {
                    inner@[i].lemma_mapped(inner2@[i], rel, rel2, p, q);
                }
                if self.wf() {
                    assert forall|i: int| 0 <= i < inner2@.len() implies (#[trigger] inner2@[i]).wf() by {
                        assert(inner@[i].wf());
                    }
                }
                if self.all(p) {
                    assert forall|i: int| 0 <= i < inner2@.len() implies (#[trigger] inner2@[i]).all(q) by {
                        assert(inner@[i].all(p));
                    }
                }
            },
            (VariantsContainer::Variants(inner), VariantsContainer::Variants(inner2)) => {
                if self.all(p) {
                    assert forall|i: int| 0 <= i < inner2@.len() implies q(#[trigger] inner2@[i]) by {
                        assert(rel(inner@[i], inner2@[i]));
                        assert(p(inner@[i]));
                    }
                }
            },
            _ => {},
        }
    }

    /// After a replacement, the path leads to the new variant.
    pub proof fn lemma_innermost_replaced_get(self, path: Seq<usize>, v: T, new: VariantsContainer<T>)
        requires
            self.wf(),
            self.innermost_replaced(path, v, new),
        ensures
            new.innermost(path) == v,
        decreases path.len(),
    {
        if path.len() == 0 || self.spec_len() == 0 {
            self.lemma_first_replaced_get(v, new);
            assert(new.spec_len() == self.spec_len());
        } else {
            let i = clamp_idx(path[0] as int, self.spec_len() as int);
            match (self, new) {
                (VariantsContainer::Container(inner), VariantsContainer::Container(inner2)) => {
                    assert(inner@[i].wf());
                    inner@[i].lemma_innermost_replaced_get(path.drop_first(), v, inner2@[i]);
                },
                _ => {},
            }
        }
    }

    proof fn lemma_first_replaced_get(self, v: T, new: VariantsContainer<T>)
        requires
            self.wf(),
            self.first_replaced(v, new),
        ensures
            new.first_variant() == v,
        decreases self,
    {
        match (self, new) {
            (VariantsContainer::Container(inner), VariantsContainer::Container(inner2)) => {
                assert(inner@[0].wf());
                inner@[0].lemma_first_replaced_get(v, inner2@[0]);
            },
            _ => {},
        }
    }

    /// The number of children of the top node.
    pub fn len(&self) -> (r: usize)
        ensures
            r == self.spec_len(),
    {
        match self {
            VariantsContainer::Container(inner) => inner.len(),
            VariantsContainer::Variants(inner) => inner.len(),
        }
    }

    fn get_from<'a>(&'a self, idx: &[usize], start: usize) -> (r: VariantsContainerReturn<'a, T>)
        requires
            start <= idx@.len(),
        ensures
            r.located() == self.at(idx@.subrange(start as int, idx@.len() as int)),
        decreases idx@.len() - start,
    {
        let ghost rest = idx@.subrange(start as int, idx@.len() as int);
        let n = self.len();
        if start == idx.len() || n == 0 {
            return VariantsContainerReturn::Container(self);
        }
        let i = if idx[start] > n - 1 {
            n - 1
        } else {
            idx[start]
        };
        assert(rest.drop_first() =~= idx@.subrange(start + 1, idx@.len() as int));
        match self {
            VariantsContainer::Container(inner) => inner[i].get_from(idx, start + 1),
            VariantsContainer::Variants(inner) => VariantsContainerReturn::Variant(&inner[i]),
        }
    }

    /// What `idx` leads to (see `at`).
    pub fn get(&self, idx: &[usize]) -> (r: VariantsContainerReturn<'_, T>)
        ensures
            r.located() == self.at(idx@),
    {
        assert(idx@.subrange(0, idx@.len() as int) =~= idx@);
        self.get_from(idx, 0)
    }

    fn get_mut_from<'a>(&'a mut self, idx: &[usize], start: usize) -> (r: VariantsContainerReturnMut<
        'a,
        T,
    >)
        requires
            start <= idx@.len(),
        ensures
            match r {
                VariantsContainerReturnMut::Container(c) => {
                    &&& old(self).at(idx@.subrange(start as int, idx@.len() as int))
                        == Located::Container(*c)
                    &&& old(self).replaced(
                        idx@.subrange(start as int, idx@.len() as int),
                        Located::Container(*final(c)),
                        *final(self),
                    )
                },
                VariantsContainerReturnMut::Variant(v) => {
                    &&& old(self).at(idx@.subrange(start as int, idx@.len() as int))
                        == Located::Variant(*v)
                    &&& old(self).replaced(
                        idx@.subrange(start as int, idx@.len() as int),
                        Located::Variant(*final(v)),
                        *final(self),
                    )
                },
            },
        decreases idx@.len() - start,
    {
        let ghost rest = idx@.subrange(start as int, idx@.len() as int);
        let n = self.len();
        if start == idx.len() || n == 0 {
            return VariantsContainerReturnMut::Container(self);
        }
        let i = if idx[start] > n - 1 {
            n - 1
        } else {
            idx[start]
        };
        assert(rest.drop_first() =~= idx@.subrange(start + 1, idx@.len() as int));
        match self {
            VariantsContainer::Container(inner) => inner[i].get_mut_from(idx, start + 1),
            VariantsContainer::Variants(inner) => VariantsContainerReturnMut::Variant(&mut inner[i]),
        }
    }

    /// What `idx` leads to (see `at`), borrowed for change: once the borrow ends,
    /// the tree holds the changed value in its place.
    pub fn get_mut(&mut self, idx: &[usize]) -> (r: VariantsContainerReturnMut<'_, T>)
        ensures
            match r {
                VariantsContainerReturnMut::Container(c) => {
                    &&& old(self).at(idx@) == Located::Container(*c)
                    &&& old(self).replaced(idx@, Located::Container(*final(c)), *final(self))
                },
                VariantsContainerReturnMut::Variant(v) => {
                    &&& old(self).at(idx@) == Located::Variant(*v)
                    &&& old(self).replaced(idx@, Located::Variant(*final(v)), *final(self))
                },
            },
    {
        assert(idx@.subrange(0, idx@.len() as int) =~= idx@);
        self.get_mut_from(idx, 0)
    }

    fn first(&self) -> (r: &T)
        requires
            self.wf(),
        ensures
            *r == self.first_variant(),
        decreases self,
    {
        match self {
            VariantsContainer::Container(inner) => {
                assert(inner@[0].wf());
                inner[0].first()
            },
            VariantsContainer::Variants(inner) => &inner[0],
        }
    }

    fn first_mut(&mut self) -> (r: &mut T)
        requires
            old(self).wf(),
        ensures
            *r == old(self).first_variant(),
            old(self).first_replaced(*final(r), *final(self)),
        decreases old(self).first_depth(),
    {
        match self {
            VariantsContainer::Container(inner) => {
                assert(inner@[0].wf());
                inner[0].first_mut()
            },
            VariantsContainer::Variants(inner) => &mut inner[0],
        }
    }

    /// The variant that `idx` leads to (see `innermost`).
    pub fn get_innermost(&self, idx: &[usize]) -> (r: &T)
        requires
            self.wf(),
        ensures
            *r == self.innermost(idx@),
    {
        proof {
            self.lemma_at_wf(idx@);
        }
        match self.get(idx) {
            VariantsContainerReturn::Container(c) => c.first(),
            VariantsContainerReturn::Variant(v) => v,
        }
    }

    fn innermost_mut_from(&mut self, idx: &[usize], start: usize) -> (r: &mut T)
        requires
            old(self).wf(),
            start <= idx@.len(),
        ensures
            *r == old(self).innermost(idx@.subrange(start as int, idx@.len() as int)),
            old(self).innermost_replaced(
                idx@.subrange(start as int, idx@.len() as int),
                *final(r),
                *final(self),
            ),
        decreases idx@.len() - start,
    {
        let ghost rest = idx@.subrange(start as int, idx@.len() as int);
        let n = self.len();
        if start == idx.len() || n == 0 {
            return self.first_mut();
        }
        let i = if idx[start] > n - 1 {
            n - 1
        } else {
            idx[start]
        };
        assert(rest.drop_first() =~= idx@.subrange(start + 1, idx@.len() as int));
        match self {
            VariantsContainer::Container(inner) => {
                assert(inner@[i as int].wf());
                inner[i].innermost_mut_from(idx, start + 1)
            },
            VariantsContainer::Variants(inner) => &mut inner[i],
        }
    }

    /// The variant that `idx` leads to, borrowed for change: once the borrow
    /// ends, the tree holds the changed variant in its place.
    pub fn get_innermost_mut(&mut self, idx: &[usize]) -> (r: &mut T)
        requires
            old(self).wf(),
        ensures
            *r == old(self).innermost(idx@),
            old(self).innermost_replaced(idx@, *final(r), *final(self)),
    {
        assert(idx@.subrange(0, idx@.len() as int) =~= idx@);
        self.innermost_mut_from(idx, 0)
    }

    /// A tree of the same shape whose variants are `cb` applied to these.
    pub fn map<U, F: Fn(&T) -> U>(&self, cb: &F) -> (r: VariantsContainer<U>)
        requires
            self.all(|t: T| cb.requires((&t,))),
        ensures
            self.mapped(r, |t: T, u: U| cb.ensures((&t,), u)),
        decreases self,
    {
        match self {
            VariantsContainer::Container(inner) => {
                let mut out: Vec<VariantsContainer<U>> = Vec::new();
                let mut i: usize = 0;
                while i < inner.len()
                    invariant
                        *self == VariantsContainer::Container(*inner),
                        i <= inner@.len(),
                        out@.len() == i,
                        forall|k: int| 0 <= k < inner@.len() ==> (#[trigger] inner@[k]).all(|t: T| cb.requires((&t,))),
                        forall|k: int|
                            0 <= k < i ==> (#[trigger] inner@[k]).mapped(
                                out@[k],
                                |t: T, u: U| cb.ensures((&t,), u),
                            ),
                    decreases inner@.len() - i,
                {
                    assert(inner@[i as int].all(|t: T| cb.requires((&t,))));
                    assert(decreases_to!(*self => (*self)->Container_0));
                    assert(decreases_to!((*self)->Container_0 => inner@));
                    assert(decreases_to!(inner@ => inner@[i as int]));
                    assert(decreases_to!(*self => inner@[i as int]));
                    out.push(inner[i].map(cb));
                    i = i + 1;
                }
                VariantsContainer::Container(out)
            },
            VariantsContainer::Variants(inner) => {
                let mut out: Vec<U> = Vec::new();
                let mut i: usize = 0;
                while i < inner.len()
                    invariant
                        i <= inner@.len(),
                        out@.len() == i,
                        forall|k: int| 0 <= k < inner@.len() ==> cb.requires((&#[trigger] inner@[k],)),
                        forall|k: int| 0 <= k < i ==> cb.ensures((&#[trigger] inner@[k],), out@[k]),
                    decreases inner@.len() - i,
                {
                    out.push(cb(&inner[i]));
                    i = i + 1;
                }
                VariantsContainer::Variants(out)
            },
        }
    }
}

} // verus!
