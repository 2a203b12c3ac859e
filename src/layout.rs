use vstd::prelude::*;

use crate::variant::{is_rescaled, EndBehaviour, EndBehaviourType, Variant, MAX_STATES};
use crate::variants_container::VariantsContainer;
use crate::zone::{inset, source_wf, tiles, zone_wf, Direction, InvisibleBorder, Zone};

verus! {

/// A layout: the monitor rectangle it was authored for, a tree of variants, and
/// the path to the variant a workspace starts with.
pub struct Layout {
    monitor_rect: Zone,
    variants: VariantsContainer<Variant>,
    default_variant_idx: Vec<usize>,
}

/// Whether a variant is well formed.
pub open spec fn variant_wf(v: Variant) -> bool {
    v.wf()
}

/// Whether every state of a variant tiles `r`.
pub open spec fn variant_tiles(v: Variant, r: Zone) -> bool {
    v.all_tile(r)
}

impl Layout {
    pub closed spec fn monitor(self) -> Zone {
        self.monitor_rect
    }

    pub closed spec fn tree(self) -> VariantsContainer<Variant> {
        self.variants
    }

    pub closed spec fn default_path(self) -> Seq<usize> {
        self.default_variant_idx@
    }

    /// The monitor rectangle is non-empty, every node of the tree has children,
    /// and every variant is well formed.
    pub open spec fn wf(self) -> bool {
        &&& source_wf(self.monitor())
        &&& self.tree().wf()
        &&& self.tree().all(|v: Variant| variant_wf(v))
    }

    /// Every state of every variant tiles the monitor rectangle.
    pub open spec fn all_tile(self) -> bool {
        self.tree().all(|v: Variant| variant_tiles(v, self.monitor()))
    }

    /// A layout for a `w` by `h` monitor with one variant: one window takes the
    /// whole monitor, and each further window splits the last zone downwards.
    pub fn new(w: i32, h: i32) -> (r: Layout)
        requires
            w > 0,
            h > 0,
        ensures
            r.wf(),
            r.all_tile(),
            r.monitor() == (Zone { x: 0, y: 0, w, h }),
            r.default_path() == seq![0usize],
    {
        let m = Zone { x: 0, y: 0, w, h };
        let mut first: Vec<Zone> = Vec::new();
        first.push(m);
        let mut positions: Vec<Vec<Zone>> = Vec::new();
        positions.push(first);
        let v = Variant::new(
            positions,
            EndBehaviour {
                from: None,
                position_idx: 0,
                behaviour: EndBehaviourType::Directional { direction: Direction::Down },
            },
        );
        proof {
            assert(v.states()[0] == seq![m]);
            assert forall|px: int, py: int| #[trigger] crate::zone::contains(m, px, py) implies exists|
                i: int,
            | 0 <= i < seq![m].len() && #[trigger] crate::zone::contains(seq![m][i], px, py) by {
                assert(crate::zone::contains(seq![m][0], px, py));
            }
            assert(tiles(v.states()[0], m));
            assert(v.all_tile(m));
        }
        let mut vs: Vec<Variant> = Vec::new();
        vs.push(v);
        let mut path: Vec<usize> = Vec::new();
        path.push(0);
        let r = Layout {
            monitor_rect: m,
            variants: VariantsContainer::Variants(vs),
            default_variant_idx: path,
        };
        assert(r.default_path() =~= seq![0usize]);
        r
    }

    /// A layout from its parts.
    pub fn from_parts(
        monitor_rect: Zone,
        variants: VariantsContainer<Variant>,
        default_variant_idx: Vec<usize>,
    ) -> (r: Layout)
        requires
            source_wf(monitor_rect),
            variants.wf(),
            variants.all(|v: Variant| variant_wf(v)),
        ensures
            r.wf(),
            r.monitor() == monitor_rect,
            r.tree() == variants,
            r.default_path() == default_variant_idx@,
    {
        Layout { monitor_rect, variants, default_variant_idx }
    }

    pub fn get_monitor_rect(&self) -> (r: &Zone)
        ensures
            *r == self.monitor(),
    {
        &self.monitor_rect
    }

    pub fn get_variants(&self) -> (r: &VariantsContainer<Variant>)
        ensures
            *r == self.tree(),
    {
        &self.variants
    }

    /// The path to the variant a workspace starts with.
    pub fn default_variant_idx(&self) -> (r: Vec<usize>)
        ensures
            r@ == self.default_path(),
    {
        let mut out: Vec<usize> = Vec::new();
        let mut i: usize = 0;
        while i < self.default_variant_idx.len()
            invariant
                i <= self.default_variant_idx@.len(),
                out@ == self.default_variant_idx@.subrange(0, i as int),
            decreases self.default_variant_idx@.len() - i,
        {
            out.push(self.default_variant_idx[i]);
            i = i + 1;
            assert(out@ =~= self.default_variant_idx@.subrange(0, i as int));
        }
        assert(self.default_variant_idx@.subrange(0, i as int) =~= self.default_variant_idx@);
        out
    }

    pub fn set_default_variant_idx(&mut self, idx: Vec<usize>)
        ensures
            final(self).default_path() == idx@,
            final(self).monitor() == old(self).monitor(),
            final(self).tree() == old(self).tree(),
    {
        self.default_variant_idx = idx;
    }

    /// The window rectangles for `n` windows on the variant that `variant_idx`
    /// leads to: its state `n`, generated first where it is not yet, each zone
    /// turned into a window rectangle by `inset` against the monitor rectangle.
    pub fn get_internal_positions(
        &mut self,
        variant_idx: &[usize],
        n: usize,
        window_padding: i32,
        edge_padding: i32,
        border: &InvisibleBorder,
    ) -> (r: Vec<Zone>)
        requires
            old(self).wf(),
            1 <= n <= MAX_STATES,
        ensures
            final(self).wf(),
            final(self).monitor() == old(self).monitor(),
            final(self).default_path() == old(self).default_path(),
            old(self).all_tile() ==> final(self).all_tile(),
            old(self).all_tile() ==> tiles(
                final(self).tree().innermost(variant_idx@).states()[n - 1],
                final(self).monitor(),
            ),
            final(self).tree().innermost(variant_idx@).states().len() >= n,
            final(self).tree().innermost(variant_idx@).states().len()
                >= old(self).tree().innermost(variant_idx@).states().len(),
            forall|i: int|
                0 <= i < old(self).tree().innermost(variant_idx@).states().len()
                    ==> #[trigger] final(self).tree().innermost(variant_idx@).states()[i]
                    == old(self).tree().innermost(variant_idx@).states()[i],
            r@.len() == n,
            forall|i: int|
                0 <= i < n ==> #[trigger] r@[i] == inset(
                    final(self).tree().innermost(variant_idx@).states()[n - 1][i],
                    final(self).monitor(),
                    window_padding as int,
                    edge_padding as int,
                    *border,
                ),
    {
        let ghost t0 = self.variants;
        let ghost m = self.monitor_rect;
        proof {
            t0.lemma_all_innermost(variant_idx@, |v: Variant| variant_wf(v));
            if self.all_tile() {
                t0.lemma_all_innermost(variant_idx@, |v: Variant| variant_tiles(v, m));
            }
        }
        let v = self.variants.get_innermost_mut(variant_idx);
        let r = v.get_internal_positions(n, window_padding, edge_padding, &self.monitor_rect, border);
        proof {
            t0.lemma_innermost_replaced_all(
                variant_idx@,
                *v,
                self.variants,
                |v: Variant| variant_wf(v),
            );
            if t0.all(|v: Variant| variant_tiles(v, m)) {
                t0.lemma_innermost_replaced_all(
                    variant_idx@,
                    *v,
                    self.variants,
                    |v: Variant| variant_tiles(v, m),
                );
            }
        }
        proof {
            t0.lemma_innermost_replaced_get(variant_idx@, *v, self.variants);
            let os = t0.innermost(variant_idx@).states();
            assert forall|i: int| 0 <= i < os.len() implies #[trigger] v.states()[i] == os[i] by {
                assert(v.states().subrange(0, os.len() as int)[i] == v.states()[i]);
            }
            if t0.all(|v: Variant| variant_tiles(v, m)) {
                assert(variant_tiles(*v, m));
                assert(tiles(v.states()[n - 1], m));
            }
        }
        r
    }

    /// A copy of this layout.
    pub fn duplicate(&self) -> (r: Layout)
        requires
            self.wf(),
        ensures
            r.wf(),
            r.monitor() == self.monitor(),
            r.default_path() == self.default_path(),
            self.tree().mapped(r.tree(), |a: Variant, b: Variant| a.states() == b.states()),
    {
        let f = |v: &Variant| -> (r: Variant)
            requires
                v.wf(),
            ensures
                r.wf(),
                r.states() == v.states(),
            { v.duplicate() };
        proof {
            self.variants.lemma_all_weaken(
                |v: Variant| variant_wf(v),
                |v: Variant| f.requires((&v,)),
            );
        }
        let variants = self.variants.map(&f);
        proof {
            self.variants.lemma_mapped(
                variants,
                |a: Variant, b: Variant| f.ensures((&a,), b),
                |a: Variant, b: Variant| a.states() == b.states(),
                |v: Variant| variant_wf(v),
                |v: Variant| variant_wf(v),
            );
        }
        Layout { monitor_rect: self.monitor_rect, variants, default_variant_idx: self.default_variant_idx() }
    }

    /// This layout moved to the monitor rectangle `to`: nothing when `to` is the
    /// rectangle it was authored for, else a copy with every zone rescaled.
    pub fn adapt_to_monitor(&self, to: &Zone) -> (r: Option<Layout>)
        requires
            self.wf(),
            source_wf(*to),
        ensures
            adapted(*self, *to, r),
    {
        if self.monitor_rect == *to {
            return None;
        }
        let from = self.monitor_rect;
        let t = *to;
        let f = |v: &Variant| -> (r: Variant)
            requires
                v.wf(),
                source_wf(from),
                zone_wf(t),
            ensures
                r.wf(),
                is_rescaled(*v, r, from, t),
            { v.rescaled(&from, &t) };
        proof {
            self.variants.lemma_all_weaken(
                |v: Variant| variant_wf(v),
                |v: Variant| f.requires((&v,)),
            );
        }
        let variants = self.variants.map(&f);
        proof {
            self.variants.lemma_mapped(
                variants,
                |a: Variant, b: Variant| f.ensures((&a,), b),
                |a: Variant, b: Variant| is_rescaled(a, b, from, t),
                |v: Variant| variant_wf(v),
                |v: Variant| variant_wf(v),
            );
        }
        Some(Layout { monitor_rect: t, variants, default_variant_idx: self.default_variant_idx() })
    }
}

/// What adapting `l` to the monitor rectangle `to` gives: nothing when `to` is
/// its own rectangle; else a well-formed layout for `to` with the same default
/// path whose variants are those of `l`, every zone rescaled.
pub open spec fn adapted(l: Layout, to: Zone, r: Option<Layout>) -> bool {
    if to == l.monitor() {
        r is None
    } else {
        &&& r is Some
        &&& r->0.wf()
        &&& r->0.monitor() == to
        &&& r->0.default_path() == l.default_path()
        &&& l.tree().mapped(
            r->0.tree(),
            |a: Variant, b: Variant| is_rescaled(a, b, l.monitor(), to),
        )
    }
}

/// Adapting a layout to the rectangle it was authored for gives nothing.
pub proof fn lemma_adapt_same(l: Layout, r: Option<Layout>)
    requires
        adapted(l, l.monitor(), r),
    ensures
        r is None,
{
}

/// Adapting the result of an adaptation to the same rectangle again gives nothing.
pub proof fn lemma_adapt_twice(l: Layout, to: Zone, r1: Layout, r2: Option<Layout>)
    requires
        adapted(l, to, Some(r1)),
        adapted(r1, to, r2),
    ensures
        r2 is None,
{
}

} // verus!
