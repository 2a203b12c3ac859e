use vstd::prelude::*;

use crate::zone::{
    extent, inset, inset_zone, lemma_split_keeps_tiling, lemma_swap_keeps_tiling, rescale,
    rescale_zone, source_wf, split_kept, split_new, split_zone, tiles, zone_wf, Direction,
    InvisibleBorder, Zone,
};

verus! {

/// One step of a repeating end behaviour: which direction to split in, the
/// fraction `ratio_num / ratio_den` of the zone that the split cuts off, which
/// earlier zone to split (`offset`), and whether the two parts trade places.
#[derive(Clone, Copy, Debug, PartialEq, Eq, Structural)]
pub struct RepeatingSplit {
    pub direction: Direction,
    pub ratio_num: u32,
    pub ratio_den: u32,
    pub offset: usize,
    pub swap: bool,
}

impl RepeatingSplit {
    pub fn new(direction: Direction, ratio_num: u32, ratio_den: u32, offset: usize, swap: bool) -> (r:
        RepeatingSplit)
        ensures
            r == (RepeatingSplit { direction, ratio_num, ratio_den, offset, swap }),
    {
        RepeatingSplit { direction, ratio_num, ratio_den, offset, swap }
    }
}

/// How states past the authored ones are generated.
#[derive(Clone, Debug)]
pub enum EndBehaviourType {
    Directional { direction: Direction },
    Repeating { splits: Vec<RepeatingSplit> },
}

/// The rule for generating states past the authored ones: the zone that the
/// generation starts from (`position_idx`), an optional state to start from
/// instead of the last authored one, and the kind of generation.
#[derive(Clone, Debug)]
pub struct EndBehaviour {
    pub from: Option<Vec<Zone>>,
    pub position_idx: usize,
    pub behaviour: EndBehaviourType,
}

/// A family of states, state `k` (counting from 1) holding `k` zones: the first
/// `manual_positions_until` authored, the rest generated on demand.
#[derive(Clone, Debug)]
pub struct Variant {
    positions: Vec<Vec<Zone>>,
    manual_positions_until: usize,
    end_behaviour: EndBehaviour,
}

/// The largest number of states a variant is extended to.
pub const MAX_STATES: usize = 100000;

/// Replaces zone `j` of `s` by the two parts of its split `at` along `d`.
pub open spec fn split_state(s: Seq<Zone>, j: int, d: Direction, at: int) -> Seq<Zone> {
    s.update(j, split_kept(s[j], d, at)).push(split_new(s[j], d, at))
}

/// `s` with the zones at `i` and `j` exchanged.
pub open spec fn swap_state(s: Seq<Zone>, i: int, j: int) -> Seq<Zone> {
    s.update(i, s[j]).update(j, s[i])
}

/// `v` rounded to the nearest integer, halves upward: `n / d` for `d > 0`.
pub open spec fn round_div(n: int, d: int) -> int {
    (2 * n + d) / (2 * d)
}

/// `v` limited to `0..=hi`.
pub open spec fn clamp_to(v: int, hi: int) -> int {
    if v < 0 {
        0
    } else if v > hi {
        hi
    } else {
        v
    }
}

/// The length of the part that stays when a zone of extent `e` is the first
/// of `parts_left` slices still to cut: `e / parts_left`, rounded down, so that
/// the slices cut one after another differ by at most one pixel.
pub open spec fn slice_len(e: int, parts_left: int) -> int {
    if parts_left <= 0 {
        e
    } else {
        e / parts_left
    }
}

/// Where a directional split of `z` cuts when `parts_left` slices are still to
/// be cut from it: the part that stays is `slice_len` long.
pub open spec fn directional_at(z: Zone, d: Direction, parts_left: int) -> int {
    let e = extent(z, d);
    let kept = slice_len(e, parts_left);
    clamp_to(
        if d == Direction::Up || d == Direction::Left {
            e - kept
        } else {
            kept
        },
        e,
    )
}

/// The state after `n` directional splits of `base` into `parts` slices in
/// all: the first cuts the anchor zone, each later one the zone that the
/// previous split produced, each time keeping an equal share of what is left.
pub open spec fn directional_fill(base: Seq<Zone>, anchor: int, d: Direction, parts: int, n: nat) -> Seq<
    Zone,
>
    decreases n,
{
    if n == 0 {
        base
    } else {
        let prev = directional_fill(base, anchor, d, parts, (n - 1) as nat);
        let j = if n == 1 {
            anchor
        } else {
            prev.len() - 1
        };
        split_state(prev, j, d, directional_at(prev[j], d, parts - (n - 1)))
    }
}

/// The zone that the repeating split number `i` cuts in a state of `len` zones.
pub open spec fn repeating_target(
    len: int,
    manual: int,
    nsplits: int,
    i: int,
    offset: int,
    anchor: int,
) -> int {
    let raw = if len == manual {
        anchor
    } else if i == 0 {
        len - 1 - nsplits + offset
    } else {
        len - 1 - i + offset
    };
    clamp_to(raw, len - 1)
}

/// Where a repeating split cuts `z`: the ratio of its extent, rounded.
pub open spec fn ratio_at(z: Zone, s: RepeatingSplit) -> int {
    round_div(s.ratio_num * extent(z, s.direction), s.ratio_den as int)
}

/// The state that follows `last` under repeating split `s` cutting zone `j`.
pub open spec fn repeating_step(last: Seq<Zone>, j: int, s: RepeatingSplit) -> Seq<Zone> {
    let st = split_state(last, j, s.direction, ratio_at(last[j], s));
    if s.swap {
        swap_state(st, j, st.len() - 1)
    } else {
        st
    }
}

/// Directional filling keeps zones well formed, adds one zone per split, and
/// keeps a tiling a tiling.
pub proof fn lemma_directional_fill(
    base: Seq<Zone>,
    anchor: int,
    d: Direction,
    parts: int,
    n: nat,
    r: Zone,
)
    requires
        0 <= anchor < base.len(),
        forall|i: int| 0 <= i < base.len() ==> zone_wf(#[trigger] base[i]),
    ensures
        directional_fill(base, anchor, d, parts, n).len() == base.len() + n,
        forall|i: int|
            0 <= i < directional_fill(base, anchor, d, parts, n).len() ==> zone_wf(
                #[trigger] directional_fill(base, anchor, d, parts, n)[i],
            ),
        tiles(base, r) ==> tiles(directional_fill(base, anchor, d, parts, n), r),
    decreases n,
{
    if n > 0 {
        lemma_directional_fill(base, anchor, d, parts, (n - 1) as nat, r);
        let prev = directional_fill(base, anchor, d, parts, (n - 1) as nat);
        let j = if n == 1 {
            anchor
        } else {
            prev.len() - 1
        };
        let at = directional_at(prev[j], d, parts - (n - 1));
        let next = split_state(prev, j, d, at);
        assert(zone_wf(prev[j]));
        assert(zone_wf(split_kept(prev[j], d, at)));
        assert(zone_wf(split_new(prev[j], d, at)));
        assert forall|i: int| 0 <= i < next.len() implies zone_wf(#[trigger] next[i]) by {
            if i != j && i != prev.len() {
                assert(next[i] == prev[i]);
            }
        }
        if tiles(base, r) {
            lemma_split_keeps_tiling(prev, r, j, d, at);
        }
    }
}

impl EndBehaviour {
    /// The state directional generation starts from, given the authored states.
    pub open spec fn base(self, authored_last: Seq<Zone>) -> Seq<Zone> {
        match self.from {
            Some(f) => f@,
            None => authored_last,
        }
    }
}

/// Each zone of `s` rescaled from `from` to `to`.
pub open spec fn rescale_state(s: Seq<Zone>, from: Zone, to: Zone) -> Seq<Zone> {
    s.map_values(|z: Zone| rescale(z, from, to))
}

/// Whether two kinds of generation are the same.
pub open spec fn same_behaviour(a: EndBehaviourType, b: EndBehaviourType) -> bool {
    match (a, b) {
        (
            EndBehaviourType::Directional { direction: d1 },
            EndBehaviourType::Directional { direction: d2 },
        ) => d1 == d2,
        (EndBehaviourType::Repeating { splits: s1 }, EndBehaviourType::Repeating { splits: s2 }) => s1@
            == s2@,
        _ => false,
    }
}

/// Whether `r` is `v` with every zone rescaled from `from` to `to`.
pub open spec fn is_rescaled(v: Variant, r: Variant, from: Zone, to: Zone) -> bool {
    &&& r.states() == v.states().map_values(|s: Seq<Zone>| rescale_state(s, from, to))
    &&& r.manual() == v.manual()
    &&& r.end().position_idx == v.end().position_idx
    &&& same_behaviour(r.end().behaviour, v.end().behaviour)
    &&& match (v.end().from, r.end().from) {
        (Some(a), Some(b)) => b@ == rescale_state(a@, from, to),
        (None, None) => true,
        _ => false,
    }
}

fn copy_behaviour(b: &EndBehaviourType) -> (r: EndBehaviourType)
    ensures
        same_behaviour(r, *b),
{
    match b {
        EndBehaviourType::Directional { direction } => EndBehaviourType::Directional {
            direction: *direction,
        },
        EndBehaviourType::Repeating { splits } => {
            let mut out: Vec<RepeatingSplit> = Vec::new();
            let mut i: usize = 0;
            while i < splits.len()
                invariant
                    i <= splits@.len(),
                    out@ == splits@.subrange(0, i as int),
                decreases splits@.len() - i,
            {
                out.push(splits[i]);
                i = i + 1;
                assert(out@ =~= splits@.subrange(0, i as int));
            }
            assert(splits@.subrange(0, splits@.len() as int) =~= splits@);
            EndBehaviourType::Repeating { splits: out }
        },
    }
}

/// Each zone of `s` rescaled from `from` to `to`.
pub fn rescale_positions(s: &Vec<Zone>, from: &Zone, to: &Zone) -> (r: Vec<Zone>)
    requires
        forall|i: int| 0 <= i < s@.len() ==> zone_wf(#[trigger] s@[i]),
        source_wf(*from),
        zone_wf(*to),
    ensures
        r@ == rescale_state(s@, *from, *to),
        forall|i: int| 0 <= i < r@.len() ==> zone_wf(#[trigger] r@[i]),
{
    let mut out: Vec<Zone> = Vec::new();
    let mut i: usize = 0;
    while i < s.len()
        invariant
            i <= s@.len(),
            forall|k: int| 0 <= k < s@.len() ==> zone_wf(#[trigger] s@[k]),
            source_wf(*from),
            zone_wf(*to),
            out@ == rescale_state(s@.subrange(0, i as int), *from, *to),
            forall|k: int| 0 <= k < out@.len() ==> zone_wf(#[trigger] out@[k]),
        decreases s@.len() - i,
    {
        out.push(rescale_zone(&s[i], from, to));
        i = i + 1;
        assert(out@ =~= rescale_state(s@.subrange(0, i as int), *from, *to));
    }
    assert(s@.subrange(0, s@.len() as int) =~= s@);
    out
}

impl Variant {
    pub closed spec fn states(self) -> Seq<Seq<Zone>> {
        self.positions@.map_values(|s: Vec<Zone>| s@)
    }

    pub closed spec fn manual(self) -> nat {
        self.manual_positions_until as nat
    }

    pub closed spec fn end(self) -> EndBehaviour {
        self.end_behaviour
    }

    /// Whether the end behaviour can generate every later state.
    pub open spec fn end_wf(e: EndBehaviour, manual: nat, authored_last: Seq<Zone>) -> bool {
        &&& match e.from {
            Some(f) => 1 <= f@.len() <= manual + 1 && forall|i: int|
                0 <= i < f@.len() ==> zone_wf(#[trigger] f@[i]),
            None => true,
        }
        &&& match e.behaviour {
            EndBehaviourType::Directional { .. } => e.position_idx < e.base(authored_last).len(),
            EndBehaviourType::Repeating { splits } => {
                &&& e.from is None
                &&& splits@.len() >= 1
                &&& e.position_idx < manual
                &&& forall|i: int|
                    0 <= i < splits@.len() ==> 0 < (#[trigger] splits@[i]).ratio_den
                        && splits@[i].ratio_num <= splits@[i].ratio_den
            },
        }
    }

    /// State `k` holds `k + 1` zones, every zone is well formed, and the end
    /// behaviour can generate the states that follow.
    pub open spec fn wf(self) -> bool {
        let st = self.states();
        &&& 1 <= self.manual() <= st.len() <= MAX_STATES
        &&& forall|k: int| 0 <= k < st.len() ==> (#[trigger] st[k]).len() == k + 1
        &&& forall|k: int, i: int|
            0 <= k < st.len() && 0 <= i < st[k].len() ==> zone_wf(#[trigger] st[k][i])
        &&& Self::end_wf(self.end(), self.manual(), st[self.manual() - 1])
    }

    /// Every state, and the state generation may start from, tiles `r`.
    pub open spec fn all_tile(self, r: Zone) -> bool {
        &&& forall|k: int| 0 <= k < self.states().len() ==> tiles(#[trigger] self.states()[k], r)
        &&& match self.end().from {
            Some(f) => tiles(f@, r),
            None => true,
        }
    }

    /// The state that generation appends to `states`.
    pub open spec fn next_state(self) -> Seq<Zone> {
        let st = self.states();
        let m = self.manual() as int;
        let e = self.end();
        match e.behaviour {
            EndBehaviourType::Directional { direction } => {
                let base = e.base(st[m - 1]);
                let target = st.len() + 1;
                let parts = target - base.len() + 1;
                directional_fill(
                    base,
                    e.position_idx as int,
                    direction,
                    parts,
                    (target - base.len()) as nat,
                )
            },
            EndBehaviourType::Repeating { splits } => {
                let len = st.len() as int;
                let i = (len - m) % (splits@.len() as int);
                let s = splits@[i];
                let j = repeating_target(
                    len,
                    m,
                    splits@.len() as int,
                    i,
                    s.offset as int,
                    e.position_idx as int,
                );
                repeating_step(st[len - 1], j, s)
            },
        }
    }

    /// A generated state tiles every rectangle that the states before it, and
    /// the state generation may start from, tile.
    pub proof fn lemma_next_state_tiles(self, r: Zone)
        requires
            self.wf(),
            self.all_tile(r),
        ensures
            tiles(self.next_state(), r),
            self.next_state().len() == self.states().len() + 1,
    {
        let st = self.states();
        let m = self.manual() as int;
        let e = self.end();
        assert(tiles(st[m - 1], r));
        assert(tiles(st[st.len() - 1], r));
        match e.behaviour {
            EndBehaviourType::Directional { direction } => {
                let base = e.base(st[m - 1]);
                let target = st.len() + 1;
                let parts = target - base.len() + 1;
                lemma_directional_fill(
                    base,
                    e.position_idx as int,
                    direction,
                    parts,
                    (target - base.len()) as nat,
                    r,
                );
            },
            EndBehaviourType::Repeating { splits } => {
                let len = st.len() as int;
                let i = (len - m) % (splits@.len() as int);
                let s = splits@[i];
                let j = repeating_target(
                    len,
                    m,
                    splits@.len() as int,
                    i,
                    s.offset as int,
                    e.position_idx as int,
                );
                let last = st[len - 1];
                let z = last[j];
                let ex = extent(z, s.direction);
                assert(zone_wf(z));
                assert(0 <= ex);
                assert(0 <= s.ratio_num * ex <= s.ratio_den * ex) by (nonlinear_arith)
                    requires
                        0 <= s.ratio_num <= s.ratio_den,
                        0 <= ex,
                ;
                assert(0 <= ratio_at(z, s) <= ex) by (nonlinear_arith)
                    requires
                        ratio_at(z, s) == (2 * (s.ratio_num * ex) + s.ratio_den) / (2 * s.ratio_den),
                        0 <= s.ratio_num * ex <= s.ratio_den * ex,
                        0 < s.ratio_den,
                ;
                lemma_split_keeps_tiling(last, r, j, s.direction, ratio_at(z, s));
                let st2 = split_state(last, j, s.direction, ratio_at(z, s));
                if s.swap {
                    lemma_swap_keeps_tiling(st2, r, j, st2.len() - 1);
                }
            },
        }
    }

    /// A variant from its authored states and end behaviour.
    pub fn new(positions: Vec<Vec<Zone>>, end_behaviour: EndBehaviour) -> (r: Variant)
        requires
            1 <= positions@.len() <= MAX_STATES,
            forall|k: int| 0 <= k < positions@.len() ==> (#[trigger] positions@[k])@.len() == k + 1,
            forall|k: int, i: int|
                0 <= k < positions@.len() && 0 <= i < positions@[k]@.len() ==> zone_wf(
                    #[trigger] positions@[k]@[i],
                ),
            Self::end_wf(end_behaviour, positions@.len() as nat, positions@[positions@.len() - 1]@),
        ensures
            r.wf(),
            r.states() == positions@.map_values(|s: Vec<Zone>| s@),
            r.manual() == positions@.len(),
            r.end() == end_behaviour,
    {
        let m = positions.len();
        let r = Variant { positions, manual_positions_until: m, end_behaviour };
        assert(r.states()[m - 1] == r.positions@[m - 1]@);
        r
    }

    /// The states held so far.
    pub fn positions(&self) -> (r: &Vec<Vec<Zone>>)
        ensures
            r@.map_values(|s: Vec<Zone>| s@) == self.states(),
    {
        &self.positions
    }

    pub fn end_behaviour(&self) -> (r: &EndBehaviour)
        ensures
            *r == self.end(),
    {
        &self.end_behaviour
    }

    pub fn manual_positions_until(&self) -> (r: usize)
        ensures
            r == self.manual(),
    {
        self.manual_positions_until
    }

    /// Appends the next generated state (see `next_state`).
    pub fn extend(&mut self)
        requires
            old(self).wf(),
            old(self).states().len() < MAX_STATES,
        ensures
            final(self).wf(),
            final(self).states() == old(self).states().push(old(self).next_state()),
            final(self).manual() == old(self).manual(),
            final(self).end() == old(self).end(),
            forall|r: Zone| old(self).all_tile(r) ==> #[trigger] final(self).all_tile(r),
    {
        let ghost st = self.states();
        let len = self.positions.len();
        let m = self.manual_positions_until;
        assert(self.positions@[m - 1]@ == st[m - 1]);
        assert(self.positions@[len - 1]@ == st[len - 1]);
        let anchor = self.end_behaviour.position_idx;
        let new_state = match &self.end_behaviour.behaviour {
            EndBehaviourType::Directional { direction } => {
                let base = match &self.end_behaviour.from {
                    Some(f) => copy_state(f),
                    None => copy_state(&self.positions[m - 1]),
                };
                let target = len + 1;
                let parts = target - base.len() + 1;
                let ghost b = base@;
                let ghost ancestors = self.states();
                let mut cur = base;
                let mut n: usize = 0;
                while cur.len() < target
                    invariant
                        b.len() <= target,
                        anchor < b.len(),
                        parts == target - b.len() + 1,
                        n == cur@.len() - b.len(),
                        cur@ == directional_fill(b, anchor as int, *direction, parts as int, n as nat),
                        cur@.len() <= target,
                        target <= MAX_STATES,
                        forall|i: int| 0 <= i < cur@.len() ==> zone_wf(#[trigger] cur@[i]),
                        forall|r: Zone| tiles(b, r) ==> #[trigger] tiles(cur@, r),
                    decreases target - cur@.len(),
                {
                    let j = if n == 0 {
                        anchor
                    } else {
                        cur.len() - 1
                    };
                    let z = cur[j];
                    let at = directional_cut(&z, *direction, parts - n);
                    let (kept, made) = split_zone(z, *direction, at);
                    let ghost prev = cur@;
                    cur.set(j, kept);
                    cur.push(made);
                    proof {
                        assert(cur@ == split_state(prev, j as int, *direction, at as int));
                        assert forall|r: Zone| tiles(b, r) implies #[trigger] tiles(cur@, r) by {
                            lemma_split_keeps_tiling(prev, r, j as int, *direction, at as int);
                        }
                    }
                    n = n + 1;
                }
                cur
            },
            EndBehaviourType::Repeating { splits } => {
                let ns = splits.len();
                let i = (len - m) % ns;
                let s = splits[i];
                let last = &self.positions[len - 1];
                let j = repeating_index(len, m, ns, i, s.offset, anchor);
                let mut cur = copy_state(last);
                let z = cur[j];
                let e = zone_extent(&z, s.direction);
                let num = s.ratio_num as i128;
                let e128 = e as i128;
                assert(0 <= num * e128 <= 0x1_0000_0000 * 0x1_0000_0000) by (nonlinear_arith)
                    requires
                        0 <= num <= 0xffff_ffff,
                        0 <= e128 <= 0x7fff_ffff,
                ;
                let at64 = (2 * (num * e128) + s.ratio_den as i128) / (2 * (s.ratio_den as i128));
                proof {
                    assert(0 <= at64 <= e) by (nonlinear_arith)
                        requires
                            0 <= e <= i32::MAX,
                            0 < s.ratio_den,
                            s.ratio_num <= s.ratio_den,
                            at64 == (2 * (s.ratio_num * e) + s.ratio_den) / (2 * s.ratio_den),
                    ;
                }
                let at = at64 as i32;
                let (kept, made) = split_zone(z, s.direction, at);
                let ghost prev = cur@;
                cur.set(j, kept);
                cur.push(made);
                proof {
                    assert forall|r: Zone| tiles(prev, r) implies #[trigger] tiles(cur@, r) by {
                        lemma_split_keeps_tiling(prev, r, j as int, s.direction, at as int);
                    }
                }
                if s.swap {
                    let ghost mid = cur@;
                    let lst = cur.len() - 1;
                    let a = cur[j];
                    let b = cur[lst];
                    cur.set(j, b);
                    cur.set(lst, a);
                    proof {
                        assert(cur@ == swap_state(mid, j as int, lst as int));
                        assert forall|r: Zone| tiles(mid, r) implies #[trigger] tiles(cur@, r) by {
                            lemma_swap_keeps_tiling(mid, r, j as int, lst as int);
                        }
                    }
                }
                cur
            },
        };
        self.positions.push(new_state);
        proof {
            assert(self.states() =~= st.push(new_state@));
        }
    }

    /// Extends the variant until it holds state `n`.
    pub fn ensure_states(&mut self, n: usize)
        requires
            old(self).wf(),
            n <= MAX_STATES,
        ensures
            final(self).wf(),
            final(self).states().len() >= n,
            final(self).states().len() == if n > old(self).states().len() {
                n as int
            } else {
                old(self).states().len() as int
            },
            final(self).states().subrange(0, old(self).states().len() as int) == old(self).states(),
            final(self).manual() == old(self).manual(),
            final(self).end() == old(self).end(),
            forall|r: Zone| old(self).all_tile(r) ==> #[trigger] final(self).all_tile(r),
    {
        let ghost st0 = self.states();
        while self.positions.len() < n
            invariant
                self.wf(),
                n <= MAX_STATES,
                st0.len() <= self.states().len(),
                self.states().len() <= if n > st0.len() {
                    n as int
                } else {
                    st0.len() as int
                },
                self.states().subrange(0, st0.len() as int) == st0,
                self.manual() == old(self).manual(),
                self.end() == old(self).end(),
                forall|r: Zone| old(self).all_tile(r) ==> #[trigger] self.all_tile(r),
            decreases n - self.positions.len(),
        {
            let ghost before = self.states();
            self.extend();
            proof {
                assert(self.states().subrange(0, st0.len() as int) =~= before.subrange(
                    0,
                    st0.len() as int,
                ));
            }
        }
    }

    /// The `n` window rectangles for `n` windows: state `n`, each zone turned into a
    /// window rectangle by `inset` against the monitor rectangle `m`.
    pub fn get_internal_positions(
        &mut self,
        n: usize,
        window_padding: i32,
        edge_padding: i32,
        monitor_rect: &Zone,
        border: &InvisibleBorder,
    ) -> (r: Vec<Zone>)
        requires
            old(self).wf(),
            1 <= n <= MAX_STATES,
        ensures
            final(self).wf(),
            final(self).states().len() >= n,
            final(self).states().len() >= old(self).states().len(),
            final(self).states().subrange(0, old(self).states().len() as int) == old(
                self,
            ).states(),
            final(self).manual() == old(self).manual(),
            final(self).end() == old(self).end(),
            forall|rr: Zone| old(self).all_tile(rr) ==> #[trigger] final(self).all_tile(rr),
            r@.len() == n,
            forall|i: int|
                0 <= i < n ==> #[trigger] r@[i] == inset(
                    final(self).states()[n - 1][i],
                    *monitor_rect,
                    window_padding as int,
                    edge_padding as int,
                    *border,
                ),
    {
        self.ensure_states(n);
        let state = &self.positions[n - 1];
        assert(state@ == self.states()[n - 1]);
        let mut out: Vec<Zone> = Vec::new();
        let mut i: usize = 0;
        while i < state.len()
            invariant
                i <= state@.len(),
                state@.len() == n,
                out@.len() == i,
                forall|k: int|
                    0 <= k < i ==> #[trigger] out@[k] == inset(
                        state@[k],
                        *monitor_rect,
                        window_padding as int,
                        edge_padding as int,
                        *border,
                    ),
            decreases state@.len() - i,
        {
            out.push(inset_zone(&state[i], monitor_rect, window_padding, edge_padding, border));
            i = i + 1;
        }
        out
    }

    /// A copy of this variant.
    pub fn duplicate(&self) -> (r: Variant)
        requires
            self.wf(),
        ensures
            r.wf(),
            r.states() == self.states(),
            r.manual() == self.manual(),
            r.end().position_idx == self.end().position_idx,
            same_behaviour(r.end().behaviour, self.end().behaviour),
            match (self.end().from, r.end().from) {
                (Some(a), Some(b)) => b@ == a@,
                (None, None) => true,
                _ => false,
            },
    {
        let mut positions: Vec<Vec<Zone>> = Vec::new();
        let mut k: usize = 0;
        while k < self.positions.len()
            invariant
                k <= self.positions@.len(),
                positions@.len() == k,
                forall|j: int| 0 <= j < k ==> (#[trigger] positions@[j])@ == self.positions@[j]@,
            decreases self.positions@.len() - k,
        {
            positions.push(copy_state(&self.positions[k]));
            k = k + 1;
        }
        let from = match &self.end_behaviour.from {
            Some(f) => Some(copy_state(f)),
            None => None,
        };
        let r = Variant {
            positions,
            manual_positions_until: self.manual_positions_until,
            end_behaviour: EndBehaviour {
                from,
                position_idx: self.end_behaviour.position_idx,
                behaviour: copy_behaviour(&self.end_behaviour.behaviour),
            },
        };
        assert(r.states() =~= self.states());
        r
    }

    /// This variant with every zone, authored, generated or to start from,
    /// rescaled from `from` to `to`.
    pub fn rescaled(&self, from: &Zone, to: &Zone) -> (r: Variant)
        requires
            self.wf(),
            source_wf(*from),
            zone_wf(*to),
        ensures
            r.wf(),
            is_rescaled(*self, r, *from, *to),
    {
        let mut positions: Vec<Vec<Zone>> = Vec::new();
        let mut k: usize = 0;
        while k < self.positions.len()
            invariant
                self.wf(),
                source_wf(*from),
                zone_wf(*to),
                k <= self.positions@.len(),
                positions@.len() == k,
                forall|j: int|
                    0 <= j < k ==> (#[trigger] positions@[j])@ == rescale_state(
                        self.states()[j],
                        *from,
                        *to,
                    ),
                forall|j: int, i: int|
                    0 <= j < k && 0 <= i < positions@[j]@.len() ==> zone_wf(
                        #[trigger] positions@[j]@[i],
                    ),
            decreases self.positions@.len() - k,
        {
            assert(self.positions@[k as int]@ == self.states()[k as int]);
            let s = rescale_positions(&self.positions[k], from, to);
            positions.push(s);
            k = k + 1;
        }
        let new_from = match &self.end_behaviour.from {
            Some(f) => Some(rescale_positions(f, from, to)),
            None => None,
        };
        let r = Variant {
            positions,
            manual_positions_until: self.manual_positions_until,
            end_behaviour: EndBehaviour {
                from: new_from,
                position_idx: self.end_behaviour.position_idx,
                behaviour: copy_behaviour(&self.end_behaviour.behaviour),
            },
        };
        assert(r.states() =~= self.states().map_values(|s: Seq<Zone>| rescale_state(s, *from, *to)));
        r
    }
}

/// A copy of a state.
pub fn copy_state(s: &Vec<Zone>) -> (r: Vec<Zone>)
    ensures
        r@ == s@,
{
    let mut r: Vec<Zone> = Vec::new();
    let mut i: usize = 0;
    while i < s.len()
        invariant
            i <= s@.len(),
            r@ == s@.subrange(0, i as int),
        decreases s@.len() - i,
    {
        r.push(s[i]);
        i = i + 1;
        assert(r@ =~= s@.subrange(0, i as int));
    }
    assert(s@.subrange(0, s@.len() as int) =~= s@);
    r
}

fn zone_extent(z: &Zone, d: Direction) -> (r: i32)
    ensures
        r as int == extent(*z, d),
{
    match d {
        Direction::Up | Direction::Down => z.h,
        Direction::Left | Direction::Right => z.w,
    }
}

fn directional_cut(z: &Zone, d: Direction, parts_left: usize) -> (r: i32)
    requires
        zone_wf(*z),
        parts_left >= 1,
    ensures
        r as int == directional_at(*z, d, parts_left as int),
        0 <= r <= extent(*z, d),
{
    let e = zone_extent(z, d);
    let kept64: u64 = (e as u64) / (parts_left as u64);
    proof {
        assert(0 <= kept64 <= e) by (nonlinear_arith)
            requires
                0 <= e,
                parts_left >= 1,
                kept64 == (e as int) / (parts_left as int),
        ;
    }
    let kept = kept64 as i64;
    let raw: i64 = match d {
        Direction::Up | Direction::Left => e as i64 - kept,
        Direction::Down | Direction::Right => kept,
    };
    if raw < 0 {
        0
    } else if raw > e as i64 {
        e
    } else {
        raw as i32
    }
}

fn repeating_index(len: usize, manual: usize, nsplits: usize, i: usize, offset: usize, anchor: usize) -> (r:
    usize)
    requires
        1 <= manual <= len,
        anchor < manual,
        nsplits >= 1,
        i < nsplits,
        len <= MAX_STATES,
    ensures
        r as int == repeating_target(
            len as int,
            manual as int,
            nsplits as int,
            i as int,
            offset as int,
            anchor as int,
        ),
        r < len,
{
    let raw: i128 = if len == manual {
        anchor as i128
    } else if i == 0 {
        len as i128 - 1 - nsplits as i128 + offset as i128
    } else {
        len as i128 - 1 - i as i128 + offset as i128
    };
    if raw < 0 {
        0
    } else if raw > (len - 1) as i128 {
        len - 1
    } else {
        raw as usize
    }
}

} // verus!
