use vstd::prelude::*;

verus! {

/// An axis-aligned rectangle in virtual-screen coordinates.
#[derive(Clone, Copy, Debug, PartialEq, Eq, Structural)]
pub struct Zone {
    pub x: i32,
    pub y: i32,
    pub w: i32,
    pub h: i32,
}

impl Zone {
    pub fn new(x: i32, y: i32, w: i32, h: i32) -> (r: Zone)
        ensures
            r == (Zone { x, y, w, h }),
    {
        Zone { x, y, w, h }
    }

    pub fn w(&self) -> (r: i32)
        ensures
            r == self.w,
    {
        self.w
    }

    pub fn h(&self) -> (r: i32)
        ensures
            r == self.h,
    {
        self.h
    }
}

/// The side of a zone on which a split places the new zone.
#[derive(Clone, Copy, Debug, PartialEq, Eq, Structural)]
pub enum Direction {
    Up,
    Down,
    Left,
    Right,
}

/// The extra width and height that the desktop draws as invisible resize borders
/// around each window; a window rectangle is widened by these amounts.
#[derive(Clone, Copy, Debug, PartialEq, Eq, Structural)]
pub struct InvisibleBorder {
    pub left: i32,
    pub top: i32,
    pub right: i32,
    pub bottom: i32,
}

impl InvisibleBorder {
    /// The border the desktop draws on its default theme.
    pub fn platform_default() -> (r: InvisibleBorder)
        ensures
            r == (InvisibleBorder { left: 7, top: 0, right: 7, bottom: 7 }),
    {
        InvisibleBorder { left: 7, top: 0, right: 7, bottom: 7 }
    }

    /// No compensation at all.
    pub fn none() -> (r: InvisibleBorder)
        ensures
            r == (InvisibleBorder { left: 0, top: 0, right: 0, bottom: 0 }),
    {
        InvisibleBorder { left: 0, top: 0, right: 0, bottom: 0 }
    }
}

impl Direction {
    /// The opposite direction.
    pub fn other(&self) -> (r: Direction)
        ensures
            r == opposite(*self),
    {
        match self {
            Direction::Up => Direction::Down,
            Direction::Down => Direction::Up,
            Direction::Left => Direction::Right,
            Direction::Right => Direction::Left,
        }
    }
}

pub open spec fn opposite(d: Direction) -> Direction {
    match d {
        Direction::Up => Direction::Down,
        Direction::Down => Direction::Up,
        Direction::Left => Direction::Right,
        Direction::Right => Direction::Left,
    }
}

/// Whether splitting along `d` cuts the height (rather than the width).
pub open spec fn is_vertical(d: Direction) -> bool {
    d == Direction::Up || d == Direction::Down
}

/// A zone whose extent is non-negative and whose far edges are representable.
pub open spec fn zone_wf(z: Zone) -> bool {
    &&& z.w >= 0
    &&& z.h >= 0
    &&& z.x + z.w <= i32::MAX
    &&& z.y + z.h <= i32::MAX
}

/// Whether the pixel `(px, py)` lies in `z`.
pub open spec fn contains(z: Zone, px: int, py: int) -> bool {
    &&& z.x <= px < z.x + z.w
    &&& z.y <= py < z.y + z.h
}

/// The length of `z` along the axis that a split in direction `d` cuts.
pub open spec fn extent(z: Zone, d: Direction) -> int {
    if is_vertical(d) {
        z.h as int
    } else {
        z.w as int
    }
}

/// Whether the zones cover exactly the pixels of `r`, each pixel of `r` lying in
/// one zone only.
pub open spec fn tiles(zs: Seq<Zone>, r: Zone) -> bool {
    &&& forall|px: int, py: int|
        #![trigger contains(r, px, py)]
        contains(r, px, py) ==> exists|i: int| 0 <= i < zs.len() && #[trigger] contains(zs[i], px, py)
    &&& forall|i: int, px: int, py: int|
        0 <= i < zs.len() && #[trigger] contains(zs[i], px, py) ==> contains(r, px, py)
    &&& forall|i: int, j: int, px: int, py: int|
        0 <= i < zs.len() && 0 <= j < zs.len() && i != j && #[trigger] contains(zs[i], px, py)
            ==> !#[trigger] contains(zs[j], px, py)
}

/// The part that stays in place when `z` is split `at` along `d`.
pub open spec fn split_kept(z: Zone, d: Direction, at: int) -> Zone {
    match d {
        Direction::Up => Zone { x: z.x, y: (z.y + at) as i32, w: z.w, h: (z.h - at) as i32 },
        Direction::Down => Zone { x: z.x, y: z.y, w: z.w, h: at as i32 },
        Direction::Left => Zone { x: (z.x + at) as i32, y: z.y, w: (z.w - at) as i32, h: z.h },
        Direction::Right => Zone { x: z.x, y: z.y, w: at as i32, h: z.h },
    }
}

/// The new part that a split of `z` `at` along `d` produces.
pub open spec fn split_new(z: Zone, d: Direction, at: int) -> Zone {
    match d {
        Direction::Up => Zone { x: z.x, y: z.y, w: z.w, h: at as i32 },
        Direction::Down => Zone { x: z.x, y: (z.y + at) as i32, w: z.w, h: (z.h - at) as i32 },
        Direction::Left => Zone { x: z.x, y: z.y, w: at as i32, h: z.h },
        Direction::Right => Zone { x: (z.x + at) as i32, y: z.y, w: (z.w - at) as i32, h: z.h },
    }
}

/// Splits `z` into two abutting zones: the first keeps the position of `z` on the
/// side opposite to `d`, the second lies on the side `d` points to when `d` is
/// `Up` or `Left` and is `at` long, or past the first when `d` is `Down` or `Right`.
pub fn split_zone(z: Zone, d: Direction, at: i32) -> (r: (Zone, Zone))
    requires
        zone_wf(z),
        0 <= at <= extent(z, d),
    ensures
        r.0 == split_kept(z, d, at as int),
        r.1 == split_new(z, d, at as int),
        zone_wf(r.0),
        zone_wf(r.1),
{
    match d {
        Direction::Up => (Zone { x: z.x, y: z.y + at, w: z.w, h: z.h - at }, Zone {
            x: z.x,
            y: z.y,
            w: z.w,
            h: at,
        }),
        Direction::Down => (Zone { x: z.x, y: z.y, w: z.w, h: at }, Zone {
            x: z.x,
            y: z.y + at,
            w: z.w,
            h: z.h - at,
        }),
        Direction::Left => (Zone { x: z.x + at, y: z.y, w: z.w - at, h: z.h }, Zone {
            x: z.x,
            y: z.y,
            w: at,
            h: z.h,
        }),
        Direction::Right => (Zone { x: z.x, y: z.y, w: at, h: z.h }, Zone {
            x: z.x + at,
            y: z.y,
            w: z.w - at,
            h: z.h,
        }),
    }
}

/// A split cuts a zone into two parts that share no pixel and together hold
/// exactly its pixels.
pub proof fn lemma_split_partitions(z: Zone, d: Direction, at: int, px: int, py: int)
    requires
        zone_wf(z),
        0 <= at <= extent(z, d),
    ensures
        contains(z, px, py) <==> (contains(split_kept(z, d, at), px, py) || contains(
            split_new(z, d, at),
            px,
            py,
        )),
        !(contains(split_kept(z, d, at), px, py) && contains(split_new(z, d, at), px, py)),
{
}

/// Replacing zone `j` of a tiling by the two parts of a split keeps it a tiling.
pub proof fn lemma_split_keeps_tiling(zs: Seq<Zone>, r: Zone, j: int, d: Direction, at: int)
    requires
        tiles(zs, r),
        0 <= j < zs.len(),
        zone_wf(zs[j]),
        0 <= at <= extent(zs[j], d),
    ensures
        tiles(zs.update(j, split_kept(zs[j], d, at)).push(split_new(zs[j], d, at)), r),
{
    let z = zs[j];
    let a = split_kept(z, d, at);
    let b = split_new(z, d, at);
    let ns = zs.update(j, a).push(b);
    assert forall|px: int, py: int| #[trigger] contains(r, px, py) implies exists|i: int|
        0 <= i < ns.len() && #[trigger] contains(ns[i], px, py) by {
        let i = choose|i: int| 0 <= i < zs.len() && #[trigger] contains(zs[i], px, py);
        lemma_split_partitions(z, d, at, px, py);
        if i == j {
            if contains(a, px, py) {
                assert(contains(ns[j], px, py));
            } else {
                assert(contains(ns[zs.len() as int], px, py));
            }
        } else {
            assert(contains(ns[i], px, py));
        }
    }
    assert forall|i: int, px: int, py: int|
        0 <= i < ns.len() && #[trigger] contains(ns[i], px, py) implies contains(r, px, py) by {
        lemma_split_partitions(z, d, at, px, py);
        if i == j || i == zs.len() {
            assert(contains(zs[j], px, py));
        } else {
            assert(contains(zs[i], px, py));
        }
    }
    assert forall|i: int, k: int, px: int, py: int|
        0 <= i < ns.len() && 0 <= k < ns.len() && i != k && #[trigger] contains(ns[i], px, py)
            implies !#[trigger] contains(ns[k], px, py) by {
        lemma_split_partitions(z, d, at, px, py);
        let oi = if i == zs.len() {
            j
        } else {
            i
        };
        let ok = if k == zs.len() {
            j
        } else {
            k
        };
        assert(contains(zs[oi], px, py));
        if contains(ns[k], px, py) {
            assert(contains(zs[ok], px, py));
        }
    }
}

/// Exchanging two zones of a tiling keeps it a tiling.
pub proof fn lemma_swap_keeps_tiling(zs: Seq<Zone>, r: Zone, i: int, j: int)
    requires
        tiles(zs, r),
        0 <= i < zs.len(),
        0 <= j < zs.len(),
    ensures
        tiles(zs.update(i, zs[j]).update(j, zs[i]), r),
{
    let ns = zs.update(i, zs[j]).update(j, zs[i]);
    let perm = |k: int|
        if k == i {
            j
        } else if k == j {
            i
        } else {
            k
        };
    assert forall|k: int| 0 <= k < ns.len() implies ns[k] == zs[perm(k)] by {}
    assert forall|px: int, py: int| #[trigger] contains(r, px, py) implies exists|k: int|
        0 <= k < ns.len() && #[trigger] contains(ns[k], px, py) by {
        let k = choose|k: int| 0 <= k < zs.len() && #[trigger] contains(zs[k], px, py);
        assert(contains(ns[perm(k)], px, py));
    }
    assert forall|a: int, px: int, py: int|
        0 <= a < ns.len() && #[trigger] contains(ns[a], px, py) implies contains(r, px, py) by {
        assert(contains(zs[perm(a)], px, py));
    }
    assert forall|a: int, b: int, px: int, py: int|
        0 <= a < ns.len() && 0 <= b < ns.len() && a != b && #[trigger] contains(ns[a], px, py)
            implies !#[trigger] contains(ns[b], px, py) by {
        assert(contains(zs[perm(a)], px, py));
        assert(ns[b] == zs[perm(b)]);
    }
}

/// Clamps an integer into the range of `i32`.
pub open spec fn clamp_i32(v: int) -> int {
    if v < i32::MIN {
        i32::MIN as int
    } else if v > i32::MAX {
        i32::MAX as int
    } else {
        v
    }
}

/// The window rectangle, before clamping, that a zone gets inside the monitor
/// rectangle `m`: deflated by `pad` on each side, by `edge` instead on each side
/// that lies on the edge of `m`, and widened by the invisible border `b`.
pub open spec fn inset_raw(z: Zone, m: Zone, pad: int, edge: int, b: InvisibleBorder) -> (
    int,
    int,
    int,
    int,
) {
    let left = if z.x == m.x {
        edge
    } else {
        pad
    };
    let top = if z.y == m.y {
        edge
    } else {
        pad
    };
    let right = if z.x + z.w == m.x + m.w {
        edge
    } else {
        pad
    };
    let bottom = if z.y + z.h == m.y + m.h {
        edge
    } else {
        pad
    };
    (
        z.x - b.left + left,
        z.y - b.top + top,
        z.w + b.left + b.right - left - right,
        z.h + b.top + b.bottom - top - bottom,
    )
}

/// The window rectangle that a zone gets: `inset_raw`, with the width and height
/// raised to at least 1 and every field clamped into `i32`.
pub open spec fn inset(z: Zone, m: Zone, pad: int, edge: int, b: InvisibleBorder) -> Zone {
    let (x, y, w, h) = inset_raw(z, m, pad, edge, b);
    Zone {
        x: clamp_i32(x) as i32,
        y: clamp_i32(y) as i32,
        w: clamp_i32(if w < 1 {
            1
        } else {
            w
        }) as i32,
        h: clamp_i32(if h < 1 {
            1
        } else {
            h
        }) as i32,
    }
}

fn clamp_to_i32(v: i64) -> (r: i32)
    ensures
        r as int == clamp_i32(v as int),
{
    if v < i32::MIN as i64 {
        i32::MIN
    } else if v > i32::MAX as i64 {
        i32::MAX
    } else {
        v as i32
    }
}

/// Turns a zone into the rectangle that its window is given: see `inset`.
pub fn inset_zone(z: &Zone, m: &Zone, pad: i32, edge: i32, b: &InvisibleBorder) -> (r: Zone)
    ensures
        r == inset(*z, *m, pad as int, edge as int, *b),
{
    let p = pad as i64;
    let e = edge as i64;
    let left: i64 = if z.x == m.x {
        e
    } else {
        p
    };
    let top: i64 = if z.y == m.y {
        e
    } else {
        p
    };
    let right: i64 = if z.x as i64 + z.w as i64 == m.x as i64 + m.w as i64 {
        e
    } else {
        p
    };
    let bottom: i64 = if z.y as i64 + z.h as i64 == m.y as i64 + m.h as i64 {
        e
    } else {
        p
    };
    let x = z.x as i64 - b.left as i64 + left;
    let y = z.y as i64 - b.top as i64 + top;
    let mut w = z.w as i64 + b.left as i64 + b.right as i64 - left - right;
    let mut h = z.h as i64 + b.top as i64 + b.bottom as i64 - top - bottom;
    if w < 1 {
        w = 1;
    }
    if h < 1 {
        h = 1;
    }
    Zone { x: clamp_to_i32(x), y: clamp_to_i32(y), w: clamp_to_i32(w), h: clamp_to_i32(h) }
}

/// The number of pixels that two zones share.
pub open spec fn overlap(a: Zone, b: Zone) -> int {
    let l = if a.x > b.x {
        a.x as int
    } else {
        b.x as int
    };
    let r = if a.x + a.w < b.x + b.w {
        a.x + a.w
    } else {
        b.x + b.w
    };
    let t = if a.y > b.y {
        a.y as int
    } else {
        b.y as int
    };
    let bo = if a.y + a.h < b.y + b.h {
        a.y + a.h
    } else {
        b.y + b.h
    };
    if r <= l || bo <= t {
        0
    } else {
        (r - l) * (bo - t)
    }
}

/// The number of pixels that two zones share.
pub fn overlap_area(a: &Zone, b: &Zone) -> (r: i128)
    ensures
        r as int == overlap(*a, *b),
{
    let l: i128 = if a.x > b.x {
        a.x as i128
    } else {
        b.x as i128
    };
    let rr: i128 = if (a.x as i128) + (a.w as i128) < (b.x as i128) + (b.w as i128) {
        (a.x as i128) + (a.w as i128)
    } else {
        (b.x as i128) + (b.w as i128)
    };
    let t: i128 = if a.y > b.y {
        a.y as i128
    } else {
        b.y as i128
    };
    let bo: i128 = if (a.y as i128) + (a.h as i128) < (b.y as i128) + (b.h as i128) {
        (a.y as i128) + (a.h as i128)
    } else {
        (b.y as i128) + (b.h as i128)
    };
    if rr <= l || bo <= t {
        0
    } else {
        assert(0 < rr - l < 0x1_0000_0000_0000);
        assert(0 < bo - t < 0x1_0000_0000_0000);
        assert((rr - l) * (bo - t) < 0x1_0000_0000_0000_0000_0000_0000) by (nonlinear_arith)
            requires
                0 < rr - l < 0x1_0000_0000_0000,
                0 < bo - t < 0x1_0000_0000_0000,
        ;
        (rr - l) * (bo - t)
    }
}

/// `v` limited to `lo..=hi`.
pub open spec fn clamp_between(v: int, lo: int, hi: int) -> int {
    if v < lo {
        lo
    } else if v > hi {
        hi
    } else {
        v
    }
}

/// A coordinate of the source span `s0..s0 + slen` moved linearly onto the
/// target span `t0..t0 + tlen`, rounded to the nearest integer; a coordinate
/// outside the source span counts as the nearer end of it.
pub open spec fn scale_coord(v: int, s0: int, slen: int, t0: int, tlen: int) -> int {
    let c = clamp_between(v, s0, s0 + slen);
    t0 + (2 * ((c - s0) * tlen) + slen) / (2 * slen)
}

/// A zone authored inside `from` moved and stretched to lie inside `to`:
/// each of its edges is scaled by `scale_coord`.
pub open spec fn rescale(z: Zone, from: Zone, to: Zone) -> Zone {
    let l = scale_coord(z.x as int, from.x as int, from.w as int, to.x as int, to.w as int);
    let r = scale_coord(z.x + z.w, from.x as int, from.w as int, to.x as int, to.w as int);
    let t = scale_coord(z.y as int, from.y as int, from.h as int, to.y as int, to.h as int);
    let b = scale_coord(z.y + z.h, from.y as int, from.h as int, to.y as int, to.h as int);
    Zone { x: l as i32, y: t as i32, w: (r - l) as i32, h: (b - t) as i32 }
}

/// A rectangle that zones can be rescaled from: non-empty.
pub open spec fn source_wf(z: Zone) -> bool {
    zone_wf(z) && z.w > 0 && z.h > 0
}

proof fn lemma_scale_bounds(a1: int, a2: int, slen: int, tlen: int)
    requires
        0 <= a1 <= a2 <= slen,
        slen > 0,
        tlen >= 0,
    ensures
        0 <= (2 * (a1 * tlen) + slen) / (2 * slen),
        (2 * (a1 * tlen) + slen) / (2 * slen) <= (2 * (a2 * tlen) + slen) / (2 * slen),
        (2 * (a2 * tlen) + slen) / (2 * slen) <= tlen,
{
    assert(a1 * tlen <= a2 * tlen) by (nonlinear_arith)
        requires
            a1 <= a2,
            tlen >= 0,
    ;
    assert(0 <= a1 * tlen) by (nonlinear_arith)
        requires
            a1 >= 0,
            tlen >= 0,
    ;
    assert(a2 * tlen <= slen * tlen) by (nonlinear_arith)
        requires
            a2 <= slen,
            tlen >= 0,
    ;
    vstd::arithmetic::div_mod::lemma_div_is_ordered(
        2 * (a1 * tlen) + slen,
        2 * (a2 * tlen) + slen,
        2 * slen,
    );
    vstd::arithmetic::div_mod::lemma_div_is_ordered(0, 2 * (a1 * tlen) + slen, 2 * slen);
    assert((2 * (a2 * tlen) + slen) / (2 * slen) <= tlen) by (nonlinear_arith)
        requires
            0 <= a2 * tlen <= slen * tlen,
            slen > 0,
            tlen >= 0,
    ;
}

fn scale_coord_exec(v: i64, s0: i32, slen: i32, t0: i32, tlen: i32) -> (r: i32)
    requires
        slen > 0,
        tlen >= 0,
        s0 + slen <= i32::MAX,
        t0 + tlen <= i32::MAX,
        i32::MIN <= v <= 2 * i32::MAX as int,
    ensures
        r as int == scale_coord(v as int, s0 as int, slen as int, t0 as int, tlen as int),
        t0 <= r <= t0 + tlen,
{
    let hi = s0 as i64 + slen as i64;
    let c: i64 = if v < s0 as i64 {
        s0 as i64
    } else if v > hi {
        hi
    } else {
        v
    };
    let a = (c - s0 as i64) as i128;
    proof {
        lemma_scale_bounds(a as int, a as int, slen as int, tlen as int);
        assert(a * tlen <= 0x1_0000_0000 * 0x1_0000_0000) by (nonlinear_arith)
            requires
                0 <= a <= 0x1_0000_0000,
                0 <= tlen <= 0x1_0000_0000,
        ;
    }
    let q = (2 * (a * tlen as i128) + slen as i128) / (2 * slen as i128);
    (t0 as i128 + q) as i32
}

/// Moves and stretches a zone authored inside `from` to lie inside `to`.
pub fn rescale_zone(z: &Zone, from: &Zone, to: &Zone) -> (r: Zone)
    requires
        zone_wf(*z),
        source_wf(*from),
        zone_wf(*to),
    ensures
        r == rescale(*z, *from, *to),
        zone_wf(r),
{
    let l = scale_coord_exec(z.x as i64, from.x, from.w, to.x, to.w);
    let r = scale_coord_exec(z.x as i64 + z.w as i64, from.x, from.w, to.x, to.w);
    let t = scale_coord_exec(z.y as i64, from.y, from.h, to.y, to.h);
    let b = scale_coord_exec(z.y as i64 + z.h as i64, from.y, from.h, to.y, to.h);
    proof {
        let cl = clamp_between(z.x as int, from.x as int, from.x + from.w);
        let cr = clamp_between(z.x + z.w, from.x as int, from.x + from.w);
        lemma_scale_bounds(cl - from.x, cr - from.x, from.w as int, to.w as int);
        let ct = clamp_between(z.y as int, from.y as int, from.y + from.h);
        let cb = clamp_between(z.y + z.h, from.y as int, from.y + from.h);
        lemma_scale_bounds(ct - from.y, cb - from.y, from.h as int, to.h as int);
    }
    Zone { x: l, y: t, w: r - l, h: b - t }
}

} // verus!
