//! Tool-side rules: the recent-color strip, the multi-color sampling pool,
//! swatch clicks, and the integer constraints applied to drags.

use crate::geom::{color_eq, Color8, IVec3};
use crate::grid::{changes_marked, lemma_marks_chain, lemma_no_change_marked, VoxelGrid};
use crate::history::{committed, stroke_takes, History};
use crate::resample::apply_writes;
use crate::select::StrokeAnchor;
use crate::shapes::{
    compute_shape_cells, extrude_seq, is_shape_base, other_axes, shape_dir, shape_fits, shape_layers,
    spec_other_axes, ShapePrimitive,
};
use vstd::prelude::*;

verus! {

/// Longest the recent-color strip gets.
pub const MAX_RECENT_COLORS: usize = 8;

/// `s` with only the first occurrence of each value kept, in order.
pub open spec fn dedup<A>(s: Seq<A>) -> Seq<A>
    decreases s.len(),
{
    if s.len() == 0 {
        s
    } else {
        let d = dedup(s.drop_last());
        if d.contains(s.last()) {
            d
        } else {
            d.push(s.last())
        }
    }
}

/// `i` is the first position of `c` in `s`.
pub open spec fn first_at(s: Seq<Color8>, c: Color8, i: int) -> bool {
    0 <= i < s.len() && s[i] == c && forall|j: int| 0 <= j < i ==> s[j] != c
}

/// Position of the first `c` in `v`, if any.
pub(crate) fn position(v: &Vec<Color8>, c: &Color8) -> (r: Option<usize>)
    ensures
        r is None <==> !v@.contains(*c),
        r matches Some(i) ==> first_at(v@, *c, i as int),
{
    let mut i: usize = 0;
    while i < v.len()
        invariant
            i <= v.len(),
            forall|j: int| 0 <= j < i ==> v@[j] != *c,
        decreases v.len() - i,
    {
        if color_eq(&v[i], c) {
            return Some(i);
        }
        i = i + 1;
    }
    None
}

/// Most recently used colors, newest first.
#[derive(Default)]
pub struct RecentColors(pub Vec<Color8>);

impl RecentColors {
    /// Moves `c` to the front (dropping its first earlier occurrence) and
    /// keeps at most `MAX_RECENT_COLORS` entries.
    pub fn push(&mut self, c: Color8)
        ensures
            !old(self).0@.contains(c) ==> final(self).0@ == (seq![c] + old(self).0@).take(
                min_len(old(self).0@.len() + 1 as int),
            ),
            forall|i: int| first_at(old(self).0@, c, i) ==> final(self).0@ == (seq![c] + old(
                self,
            ).0@.remove(i)).take(min_len(old(self).0@.len() as int)),
            final(self).0@ == recent_push(old(self).0@, c),
    {
        let found = position(&self.0, &c);
        proof {
            if let Some(i) = found {
                let j = choose|j: int| first_at(self.0@, c, j);
                lemma_first_at_unique(self.0@, c, i as int, j);
            }
        }
        match found {
            Some(i) => {
                self.0.remove(i);
            },
            None => {},
        }
        self.0.insert(0, c);
        if self.0.len() > MAX_RECENT_COLORS {
            self.0.truncate(MAX_RECENT_COLORS);
        }
        proof {
            let n = self.0@.len();
            assert(self.0@ =~= self.0@.take(n as int));
        }
    }
}

/// A value's first position is unique.
pub proof fn lemma_first_at_unique(s: Seq<Color8>, c: Color8, i: int, j: int)
    requires
        first_at(s, c, i),
        first_at(s, c, j),
    ensures
        i == j,
{
}

/// The strip after using `c`: `c` in front, its earlier first occurrence
/// dropped, at most `MAX_RECENT_COLORS` kept.
pub open spec fn recent_push(s: Seq<Color8>, c: Color8) -> Seq<Color8> {
    if s.contains(c) {
        let i = choose|i: int| first_at(s, c, i);
        (seq![c] + s.remove(i)).take(min_len(s.len() as int))
    } else {
        (seq![c] + s).take(min_len(s.len() + 1 as int))
    }
}

/// The strip after using each of `cs` in turn.
pub open spec fn recent_push_all(s: Seq<Color8>, cs: Seq<Color8>) -> Seq<Color8>
    decreases cs.len(),
{
    if cs.len() == 0 {
        s
    } else {
        recent_push(recent_push_all(s, cs.drop_last()), cs.last())
    }
}

/// `n` capped at `MAX_RECENT_COLORS`.
pub open spec fn min_len(n: int) -> int {
    if n > MAX_RECENT_COLORS {
        MAX_RECENT_COLORS as int
    } else {
        n
    }
}

/// Swatches picked alongside the primary color.
#[derive(Default)]
pub struct ExtraColors(pub Vec<Color8>);

impl ExtraColors {
    pub fn contains(&self, c: Color8) -> (r: bool)
        ensures
            r == self.0@.contains(c),
    {
        position(&self.0, &c).is_some()
    }

    pub fn clear(&mut self)
        ensures
            final(self).0@.len() == 0,
    {
        self.0.clear();
    }

    /// Removes the first `c` if present (returning `false`), appends it
    /// otherwise (returning `true`): whether `c` is picked afterwards, for a
    /// list without repeats.
    pub fn toggle(&mut self, c: Color8) -> (r: bool)
        ensures
            r == !old(self).0@.contains(c),
            r ==> final(self).0@ == old(self).0@.push(c),
            forall|i: int| first_at(old(self).0@, c, i) ==> final(self).0@ == old(self).0@.remove(i),
    {
        match position(&self.0, &c) {
            Some(i) => {
                self.0.remove(i);
                false
            },
            None => {
                self.0.push(c);
                true
            },
        }
    }
}

/// The sampling pool: the primary first, then each extra not already in the
/// pool, in order.
pub fn color_pool(primary: Color8, extras: &[Color8]) -> (r: Vec<Color8>)
    ensures
        r@ == dedup(seq![primary] + extras@),
{
    let mut out: Vec<Color8> = Vec::new();
    out.push(primary);
    proof {
        assert(seq![primary].drop_last() =~= Seq::<Color8>::empty());
        assert(dedup(Seq::<Color8>::empty()) == Seq::<Color8>::empty());
        assert(!Seq::<Color8>::empty().contains(primary));
        assert(dedup(seq![primary]) =~= seq![primary]);
        assert(seq![primary] + extras@.take(0) =~= seq![primary]);
    }
    let mut i: usize = 0;
    while i < extras.len()
        invariant
            i <= extras@.len(),
            out@ == dedup(seq![primary] + extras@.take(i as int)),
        decreases extras@.len() - i,
    {
        let c = extras[i];
        proof {
            let s = seq![primary] + extras@.take(i + 1);
            assert(s.drop_last() =~= seq![primary] + extras@.take(i as int));
            assert(s.last() == c);
        }
        if position(&out, &c).is_none() {
            out.push(c);
        }
        i = i + 1;
    }
    proof {
        assert(extras@.take(extras@.len() as int) =~= extras@);
    }
    out
}

/// Per-cell hash mixing the three coordinates.
pub open spec fn cell_hash(p: IVec3) -> u32 {
    (p.x as u32).wrapping_mul(73856093u32) ^ (p.y as u32).wrapping_mul(19349663u32) ^ (
    p.z as u32).wrapping_mul(83492791u32)
}

/// The pool color a cell gets: the only one for a pool of one, else picked
/// by the cell's hash.
pub open spec fn spec_sample_color(p: IVec3, pool: Seq<Color8>) -> Color8 {
    if pool.len() == 1 {
        pool[0]
    } else {
        pool[(cell_hash(p) as int) % (pool.len() as int)]
    }
}

/// Deterministic per-cell color from `pool`, so a preview and its commit
/// agree.
pub fn sample_color(pos: IVec3, pool: &[Color8]) -> (r: Color8)
    requires
        pool@.len() > 0,
    ensures
        r == spec_sample_color(pos, pool@),
{
    if pool.len() == 1 {
        return pool[0];
    }
    let h = (pos.x as u32).wrapping_mul(73856093) ^ (pos.y as u32).wrapping_mul(19349663) ^ (
    pos.z as u32).wrapping_mul(83492791);
    pool[(h as usize) % pool.len()]
}

/// A palette swatch click. A plain click makes `clicked` the primary and
/// drops the extras; a shift-click toggles `clicked` among the extras (a
/// shift-click on the primary itself changes nothing). Returns the primary.
pub fn apply_swatch_click(shift: bool, clicked: Color8, primary: Color8, extras: &mut ExtraColors) -> (r: Color8)
    ensures
        !shift ==> r == clicked && final(extras).0@.len() == 0,
        shift && clicked == primary ==> r == primary && final(extras).0@ == old(extras).0@,
        shift && clicked != primary ==> {
            &&& r == primary
            &&& !old(extras).0@.contains(clicked) ==> final(extras).0@ == old(extras).0@.push(clicked)
            &&& forall|i: int| first_at(old(extras).0@, clicked, i) ==> final(extras).0@ == old(
                extras,
            ).0@.remove(i)
        },
{
    if shift {
        if color_eq(&clicked, &primary) {
            return primary;
        }
        extras.toggle(clicked);
        primary
    } else {
        extras.clear();
        clicked
    }
}

/// `delta` with its component along the face-normal `axis` zeroed, and also
/// its `y` when `lock_horizontal` is set.
pub fn constrain_move_delta(delta: IVec3, axis: usize, lock_horizontal: bool) -> (r: IVec3)
    ensures
        r == ({
            let d = delta.spec_with(axis, 0);
            if lock_horizontal { IVec3 { y: 0, ..d } } else { d }
        }),
{
    let mut out = delta.with(axis, 0);
    if lock_horizontal {
        out.y = 0;
    }
    out
}

/// `(layer count, direction)` for an extrusion `offset` cells from the
/// anchor plane: `|offset| + 1` layers, towards `base_sign` for a
/// non-negative offset and away from it otherwise.
pub fn extrude_args_from_signed_offset(offset: i32, base_sign: i32) -> (r: (i32, i32))
    requires
        offset > i32::MIN + 1,
        offset < i32::MAX,
        base_sign > i32::MIN,
    ensures
        r.0 == (if offset < 0 { -offset } else { offset as int }) + 1,
        r.1 == (if offset >= 0 { base_sign as int } else { -base_sign }),
{
    let count = (if offset < 0 { -offset } else { offset }) + 1;
    let dir_sign = if offset >= 0 { base_sign } else { -base_sign };
    (count, dir_sign)
}

/// `|n|`.
pub open spec fn abs_int(n: int) -> int {
    if n < 0 {
        -n
    } else {
        n
    }
}

/// The sign of `n`: -1, 0 or 1.
pub open spec fn signum(n: int) -> int {
    if n < 0 {
        -1
    } else if n > 0 {
        1
    } else {
        0
    }
}

/// The in-plane offsets of the constrained second corner, for offsets `du`
/// and `dv` from the first. Rectangles and ellipses become squares: both
/// legs take the longer length, keeping their signs (a zero leg counts as
/// positive). A line snaps to the nearest multiple of 45°: along the longer
/// leg when the shorter is under 0.4142 (tan 22.5°) of it, else to the
/// diagonal.
pub open spec fn corner2_offsets(primitive: ShapePrimitive, du: int, dv: int) -> (int, int) {
    let m = if abs_int(du) >= abs_int(dv) {
        abs_int(du)
    } else {
        abs_int(dv)
    };
    match primitive {
        ShapePrimitive::Line => {
            let lo = if abs_int(du) <= abs_int(dv) {
                abs_int(du)
            } else {
                abs_int(dv)
            };
            if du == 0 && dv == 0 {
                (0, 0)
            } else if 10000 * lo < 4142 * m {
                if abs_int(du) >= abs_int(dv) {
                    (du, 0)
                } else {
                    (0, dv)
                }
            } else {
                (signum(du) * m, signum(dv) * m)
            }
        },
        _ => (if du == 0 {
            m
        } else {
            signum(du) * m
        }, if dv == 0 {
            m
        } else {
            signum(dv) * m
        }),
    }
}

/// The second corner of a shape footprint dragged to `target` with Shift
/// held: `c1`'s layer along the face-normal `axis`, and in the plane the
/// offsets of [`corner2_offsets`], measured along the next axis after `axis`
/// and the one after that.
#[verifier::spinoff_prover]
pub fn constrain_shape_corner2(primitive: ShapePrimitive, axis: usize, c1: IVec3, target: IVec3) -> (r: IVec3)
    requires
        axis < 3,
        i32::MIN < target.spec_comp(((axis + 1) % 3) as usize) - c1.spec_comp(((axis + 1) % 3) as usize) <= i32::MAX,
        i32::MIN < target.spec_comp(((axis + 2) % 3) as usize) - c1.spec_comp(((axis + 2) % 3) as usize) <= i32::MAX,
        ({
            let ua = ((axis + 1) % 3) as usize;
            let va = ((axis + 2) % 3) as usize;
            let (nu, nv) = corner2_offsets(
                primitive,
                target.spec_comp(ua) - c1.spec_comp(ua),
                target.spec_comp(va) - c1.spec_comp(va),
            );
            &&& i32::MIN <= c1.spec_comp(ua) + nu <= i32::MAX
            &&& i32::MIN <= c1.spec_comp(va) + nv <= i32::MAX
        }),
    ensures
        ({
            let ua = ((axis + 1) % 3) as usize;
            let va = ((axis + 2) % 3) as usize;
            let (nu, nv) = corner2_offsets(
                primitive,
                target.spec_comp(ua) - c1.spec_comp(ua),
                target.spec_comp(va) - c1.spec_comp(va),
            );
            r == c1.spec_with(ua, (c1.spec_comp(ua) + nu) as i32).spec_with(va, (c1.spec_comp(va) + nv) as i32)
        }),
{
    let ua = (axis + 1) % 3;
    let va = (axis + 2) % 3;
    let du = target.comp(ua) - c1.comp(ua);
    let dv = target.comp(va) - c1.comp(va);
    let adu = if du < 0 { -du } else { du };
    let adv = if dv < 0 { -dv } else { dv };
    let m = if adu >= adv { adu } else { adv };
    let (nu, nv): (i32, i32) = match primitive {
        ShapePrimitive::Line => {
            let lo = if adu <= adv { adu } else { adv };
            if du == 0 && dv == 0 {
                (0, 0)
            } else if 10000 * (lo as i64) < 4142 * (m as i64) {
                if adu >= adv {
                    (du, 0)
                } else {
                    (0, dv)
                }
            } else {
                let su: i32 = if du < 0 { -1 } else if du > 0 { 1 } else { 0 };
                let sv: i32 = if dv < 0 { -1 } else if dv > 0 { 1 } else { 0 };
                assert(-i32::MAX <= su * m <= i32::MAX && -i32::MAX <= sv * m <= i32::MAX) by (nonlinear_arith)
                    requires
                        -1 <= su <= 1,
                        -1 <= sv <= 1,
                        0 <= m <= i32::MAX,
                ;
                (su * m, sv * m)
            }
        },
        _ => {
            let su: i32 = if du < 0 { -1 } else { 1 };
            let sv: i32 = if dv < 0 { -1 } else { 1 };
            assert(-i32::MAX <= su * m <= i32::MAX && -i32::MAX <= sv * m <= i32::MAX) by (nonlinear_arith)
                requires
                    -1 <= su <= 1,
                    -1 <= sv <= 1,
                    0 <= m <= i32::MAX,
            ;
            (su * m, sv * m)
        },
    };
    c1.with(ua, c1.comp(ua) + nu).with(va, c1.comp(va) + nv)
}

/// `target` with the in-plane coordinate that moved less from `origin` put
/// back to `origin`'s (on a tie, the second in-plane axis is put back).
pub open spec fn spec_axis_lock(origin: IVec3, target: IVec3, plane_axis: usize) -> IVec3 {
    let (ua, va) = spec_other_axes(plane_axis);
    let du = target.spec_comp(ua) - origin.spec_comp(ua);
    let dv = target.spec_comp(va) - origin.spec_comp(va);
    let adu = if du < 0 { -du } else { du };
    let adv = if dv < 0 { -dv } else { dv };
    if adu >= adv {
        target.spec_with(va, origin.spec_comp(va))
    } else {
        target.spec_with(ua, origin.spec_comp(ua))
    }
}

/// `target` pulled back to `origin` along the weaker of the two in-plane
/// axes (ties keep the first), so a stroke runs straight.
pub fn axis_lock(origin: IVec3, target: IVec3, plane_axis: usize) -> (r: IVec3)
    requires
        plane_axis < 3,
    ensures
        r == spec_axis_lock(origin, target, plane_axis),
{
    let (ua, va) = other_axes(plane_axis);
    let du = target.comp(ua) as i64 - origin.comp(ua) as i64;
    let dv = target.comp(va) as i64 - origin.comp(va) as i64;
    let adu = if du < 0 { -du } else { du };
    let adv = if dv < 0 { -dv } else { dv };
    if adu >= adv {
        target.with(va, origin.comp(va))
    } else {
        target.with(ua, origin.comp(ua))
    }
}

// ---------------------------------------------------------------------------
// Shift+click lines
// ---------------------------------------------------------------------------

pub open spec fn iabs(v: int) -> int {
    if v < 0 {
        -v
    } else {
        v
    }
}

/// Direction of travel from `a` to `b` along one axis (`+1` when equal).
pub open spec fn step_sign(a: i32, b: i32) -> int {
    if b >= a {
        1
    } else {
        -1
    }
}

/// Offset along a minor axis of extent `dn` after `k` steps along a major
/// axis of extent `dm`: `k * dn / dm` rounded to the nearest integer, halves
/// rounded up.
pub open spec fn minor_offset(k: int, dn: int, dm: int) -> int {
    if dm <= 0 {
        0
    } else {
        (2 * k * dn + dm) / (2 * dm)
    }
}

/// The axis a line from `a` to `b` advances one cell at a time along: the
/// one of greatest extent, ties going to `x`, then `y`.
pub open spec fn major_axis(a: IVec3, b: IVec3) -> usize {
    let dx = iabs(b.x - a.x);
    let dy = iabs(b.y - a.y);
    let dz = iabs(b.z - a.z);
    if dx >= dy && dx >= dz {
        0
    } else if dy >= dx && dy >= dz {
        1
    } else {
        2
    }
}

/// Extent of the line along its major axis.
pub open spec fn major_extent(a: IVec3, b: IVec3) -> int {
    iabs(b.spec_comp(major_axis(a, b)) - a.spec_comp(major_axis(a, b)))
}

/// One coordinate of point `k` of the line.
pub open spec fn line_coord(a: i32, b: i32, k: int, dm: int, major: bool) -> i32 {
    (a + step_sign(a, b) * if major {
        k
    } else {
        minor_offset(k, iabs(b - a), dm)
    }) as i32
}

/// Point `k` of the digital line from `a` to `b`: `k` cells along the major
/// axis, and the rounded proportional offset along the other two.
pub open spec fn line_point(a: IVec3, b: IVec3, k: int) -> IVec3 {
    let m = major_axis(a, b);
    let dm = major_extent(a, b);
    IVec3 {
        x: line_coord(a.x, b.x, k, dm, m == 0),
        y: line_coord(a.y, b.y, k, dm, m == 1),
        z: line_coord(a.z, b.z, k, dm, m == 2),
    }
}

/// How the rounded offset grows by one step: by one exactly when the
/// decision value reaches zero.
proof fn lemma_minor_step(k: int, dn: int, dm: int)
    requires
        0 <= dn <= dm,
        dm > 0,
        0 <= k,
    ensures
        minor_offset(k + 1, dn, dm) == minor_offset(k, dn, dm) + if 2 * (k + 1) * dn - dm - 2 * dm
            * minor_offset(k, dn, dm) >= 0 {
            1int
        } else {
            0int
        },
        0 <= 2 * k * dn + dm - 2 * dm * minor_offset(k, dn, dm) < 2 * dm,
        k <= dm ==> 0 <= minor_offset(k, dn, dm) <= dn,
{
    let q = minor_offset(k, dn, dm);
    let q1 = minor_offset(k + 1, dn, dm);
    assert(0 <= 2 * k * dn + dm - 2 * dm * q < 2 * dm) by (nonlinear_arith)
        requires
            dm > 0,
            q == (2 * k * dn + dm) / (2 * dm),
    ;
    assert(0 <= 2 * (k + 1) * dn + dm - 2 * dm * q1 < 2 * dm) by (nonlinear_arith)
        requires
            dm > 0,
            q1 == (2 * (k + 1) * dn + dm) / (2 * dm),
    ;
    assert(q1 == q + if 2 * (k + 1) * dn - dm - 2 * dm * q >= 0 {
        1int
    } else {
        0int
    }) by (nonlinear_arith)
        requires
            0 <= dn <= dm,
            dm > 0,
            0 <= 2 * k * dn + dm - 2 * dm * q < 2 * dm,
            0 <= 2 * (k + 1) * dn + dm - 2 * dm * q1 < 2 * dm,
    ;
    if k <= dm {
        assert(0 <= q <= dn) by (nonlinear_arith)
            requires
                0 <= dn <= dm,
                dm > 0,
                0 <= k <= dm,
                0 <= 2 * k * dn + dm - 2 * dm * q < 2 * dm,
        ;
    }
}

proof fn lemma_minor_start(dn: int, dm: int)
    requires
        0 <= dn <= dm,
    ensures
        minor_offset(0, dn, dm) == 0,
{
    if dm > 0 {
        assert((2 * 0 * dn + dm) / (2 * dm) == 0) by (nonlinear_arith)
            requires
                dm > 0,
        ;
    }
}

/// One step along a minor axis: moves the coordinate when the decision
/// value says so, and carries the decision value to the next step.
fn minor_step(c: i32, p: i64, s: i32, dn: i64, dm: i64, Ghost(a): Ghost<i32>, Ghost(b): Ghost<i32>, Ghost(k): Ghost<int>) -> (r: (i32, i64))
    requires
        dn == iabs(b - a),
        s == step_sign(a, b),
        0 <= dn <= dm,
        0 < dm <= 0x1_0000_0000,
        0 <= k < dm,
        c == line_coord(a, b, k, dm as int, false),
        p == 2 * (k + 1) * dn - dm - 2 * dm * minor_offset(k, dn as int, dm as int),
    ensures
        r.0 == line_coord(a, b, k + 1, dm as int, false),
        r.1 == 2 * (k + 2) * dn - dm - 2 * dm * minor_offset(k + 1, dn as int, dm as int),
{
    proof {
        lemma_minor_step(k, dn as int, dm as int);
        lemma_minor_step(k + 1, dn as int, dm as int);
        let q = minor_offset(k, dn as int, dm as int);
        assert(a + s * q == c as int);
        assert(2 * (k + 1) * dn == 2 * k * dn + 2 * dn && 2 * (k + 2) * dn == 2 * (k + 1) * dn + 2 * dn)
            by (nonlinear_arith);
        assert(2 * dm * (q + 1) == 2 * dm * q + 2 * dm) by (nonlinear_arith);
    }
    let mut c = c;
    let mut p = p;
    if p >= 0 {
        c = c + s;
        p = p - 2 * dm;
    }
    p = p + 2 * dn;
    (c, p)
}

fn abs_diff(a: i32, b: i32) -> (r: i64)
    ensures
        r == iabs(b - a),
{
    let d = b as i64 - a as i64;
    if d < 0 {
        -d
    } else {
        d
    }
}

fn sign_of(a: i32, b: i32) -> (r: i32)
    ensures
        r == step_sign(a, b),
{
    if b >= a {
        1
    } else {
        -1
    }
}

/// The cells of the 3D digital line from `a` to `b` (both included), as
/// drawn by shift+click: one cell per step along the axis of greatest
/// extent, each minor axis following by Bresenham's rule.
pub fn line3d(a: IVec3, b: IVec3) -> (r: Vec<IVec3>)
    ensures
        r@.len() == major_extent(a, b) + 1,
        forall|k: int| 0 <= k < r@.len() ==> #[trigger] r@[k] == line_point(a, b, k),
{
    let dx = abs_diff(a.x, b.x);
    let dy = abs_diff(a.y, b.y);
    let dz = abs_diff(a.z, b.z);
    let sx = sign_of(a.x, b.x);
    let sy = sign_of(a.y, b.y);
    let sz = sign_of(a.z, b.z);
    let m: usize = if dx >= dy && dx >= dz {
        0
    } else if dy >= dx && dy >= dz {
        1
    } else {
        2
    };
    let dm = if m == 0 {
        dx
    } else if m == 1 {
        dy
    } else {
        dz
    };
    assert(m == major_axis(a, b));
    assert(dm == major_extent(a, b));
    let mut cur = a;
    let mut px: i64 = 2 * dx - dm;
    let mut py: i64 = 2 * dy - dm;
    let mut pz: i64 = 2 * dz - dm;
    let mut out: Vec<IVec3> = Vec::new();
    out.push(cur);
    proof {
        if m != 0 {
            lemma_minor_start(dx as int, dm as int);
        }
        if m != 1 {
            lemma_minor_start(dy as int, dm as int);
        }
        if m != 2 {
            lemma_minor_start(dz as int, dm as int);
        }
        assert(out@[0] == line_point(a, b, 0));
    }
    let mut k: i64 = 0;
    while k < dm
        invariant
            dx == iabs(b.x - a.x),
            dy == iabs(b.y - a.y),
            dz == iabs(b.z - a.z),
            sx == step_sign(a.x, b.x),
            sy == step_sign(a.y, b.y),
            sz == step_sign(a.z, b.z),
            m == major_axis(a, b),
            dm == major_extent(a, b),
            m == 0 ==> dm == dx && dx >= dy && dx >= dz,
            m == 1 ==> dm == dy && dy >= dx && dy >= dz,
            m == 2 ==> dm == dz && dz >= dx && dz >= dy,
            0 <= k <= dm,
            dm <= 0x1_0000_0000,
            cur == line_point(a, b, k as int),
            m != 0 ==> px == 2 * (k + 1) * dx - dm - 2 * dm * minor_offset(k as int, dx as int, dm as int),
            m != 1 ==> py == 2 * (k + 1) * dy - dm - 2 * dm * minor_offset(k as int, dy as int, dm as int),
            m != 2 ==> pz == 2 * (k + 1) * dz - dm - 2 * dm * minor_offset(k as int, dz as int, dm as int),
            out@.len() == k + 1,
            forall|j: int| 0 <= j < out@.len() ==> #[trigger] out@[j] == line_point(a, b, j),
        decreases dm - k,
    {
        if m == 0 {
            cur.x = cur.x + sx;
        } else {
            let (c, p) = minor_step(cur.x, px, sx, dx, dm, Ghost(a.x), Ghost(b.x), Ghost(k as int));
            cur.x = c;
            px = p;
        }
        if m == 1 {
            cur.y = cur.y + sy;
        } else {
            let (c, p) = minor_step(cur.y, py, sy, dy, dm, Ghost(a.y), Ghost(b.y), Ghost(k as int));
            cur.y = c;
            py = p;
        }
        if m == 2 {
            cur.z = cur.z + sz;
        } else {
            let (c, p) = minor_step(cur.z, pz, sz, dz, dm, Ghost(a.z), Ghost(b.z), Ghost(k as int));
            cur.z = c;
            pz = p;
        }
        k = k + 1;
        out.push(cur);
    }
    out
}


// ---------------------------------------------------------------------------
// The shape tool
// ---------------------------------------------------------------------------

/// What the shape tool draws.
#[derive(Clone, Copy)]
pub struct ShapeOptions {
    pub primitive: ShapePrimitive,
}

impl Default for ShapeOptions {
    fn default() -> (r: Self)
        ensures
            r.primitive == ShapePrimitive::Rectangle,
    {
        ShapeOptions { primitive: ShapePrimitive::Rectangle }
    }
}

/// Where a shape drag is: dragging out the footprint, or its thickness.
#[derive(Clone, Copy, PartialEq, Eq, Debug, Structural)]
pub enum ShapePhase {
    Footprint,
    Extrude,
}

/// Live state of a shape drag. `thickness` is the signed layer offset from
/// the anchor plane along the face normal `normal_sign`.
#[derive(Clone, Copy)]
pub struct ShapeState {
    pub phase: Option<ShapePhase>,
    pub anchor: Option<StrokeAnchor>,
    pub normal_sign: i32,
    pub corner1: Option<IVec3>,
    pub corner2: Option<IVec3>,
    pub thickness: i32,
}

impl Default for ShapeState {
    fn default() -> (r: Self)
        ensures
            r.phase is None && r.anchor is None && r.corner1 is None && r.corner2 is None,
            r.normal_sign == 0 && r.thickness == 0,
    {
        ShapeState { phase: None, anchor: None, normal_sign: 0, corner1: None, corner2: None, thickness: 0 }
    }
}

/// The state after a reset: no drag, a thickness of one.
pub open spec fn shape_reset(s: ShapeState) -> ShapeState {
    ShapeState { phase: None, anchor: None, normal_sign: 0, corner1: None, corner2: None, thickness: 1 }
}

impl ShapeState {
    /// Drops the drag.
    pub fn reset(&mut self)
        ensures
            *final(self) == shape_reset(*old(self)),
    {
        self.phase = None;
        self.anchor = None;
        self.normal_sign = 0;
        self.corner1 = None;
        self.corner2 = None;
        self.thickness = 1;
    }
}

/// The drag has an anchor and both footprint corners.
pub open spec fn shape_ready(s: ShapeState) -> bool {
    s.anchor is Some && s.corner1 is Some && s.corner2 is Some
}

/// `cells` are the cells the drag covers: the primitive's footprint between
/// the corners on the anchor plane, extruded through the thickness.
pub open spec fn shape_cells_of(prim: ShapePrimitive, s: ShapeState, cells: Seq<IVec3>) -> bool {
    exists|base: Seq<IVec3>|
        is_shape_base(prim, s.corner1->0, s.corner2->0, s.anchor->0.axis, base) && cells == extrude_seq(
            base,
            s.anchor->0.axis,
            shape_dir(s.thickness, s.normal_sign),
            shape_layers(s.thickness) as nat,
        )
}

/// The writes of a commit: each covered cell at or above the floor, in
/// order, with its sampled color.
pub open spec fn shape_writes(cells: Seq<IVec3>, pool: Seq<Color8>) -> Seq<(IVec3, Color8)> {
    cells.filter(|p: IVec3| p.y >= 0).map_values(|p: IVec3| (p, spec_sample_color(p, pool)))
}

/// The colors of a run of writes.
pub open spec fn write_colors(ws: Seq<(IVec3, Color8)>) -> Seq<Color8> {
    ws.map_values(|w: (IVec3, Color8)| w.1)
}

/// A shape drag the editor can commit: the generator handles it, and the
/// grid has room for every covered cell.
pub open spec fn shape_commit_fits(prim: ShapePrimitive, s: ShapeState, m: Map<IVec3, Color8>) -> bool {
    shape_ready(s) ==> {
        &&& shape_fits(prim, s.corner1->0, s.corner2->0, s.anchor->0.axis, s.thickness, s.normal_sign)
        &&& forall|cells: Seq<IVec3>| #[trigger] shape_cells_of(prim, s, cells) ==> m.dom().len() + cells.len() < u32::MAX
    }
}

/// Commits the dragged shape as one undo stroke: every covered cell at or
/// above the floor gets its sampled pool color, the colors used go to the
/// recent strip (each once, in order of first use), and the drag resets. A
/// drag without an anchor and both corners only resets.
pub fn shape_commit(
    options: &ShapeOptions,
    state: &mut ShapeState,
    grid: &mut VoxelGrid,
    history: &mut History,
    pool: &[Color8],
    recent: &mut RecentColors,
)
    requires
        old(grid).wf(),
        old(history).wf(),
        pool@.len() > 0,
        shape_commit_fits(options.primitive, *old(state), old(grid)@),
    ensures
        final(grid).wf(),
        final(history).wf(),
        old(grid).dirty_view().subset_of(final(grid).dirty_view()),
        changes_marked(old(grid)@, final(grid)@, final(grid).dirty_view()),
        *final(state) == shape_reset(*old(state)),
        !shape_ready(*old(state)) ==> final(grid)@ == old(grid)@,
        !shape_ready(*old(state)) ==> *final(history) == *old(history),
        !shape_ready(*old(state)) ==> final(recent).0@ == old(recent).0@,
        shape_ready(*old(state)) ==> exists|cells: Seq<IVec3>|
            #[trigger] shape_cells_of(options.primitive, *old(state), cells) && {
                let ws = shape_writes(cells, pool@);
                &&& final(grid)@ == apply_writes(old(grid)@, ws)
                &&& committed(old(history).undo@, old(history).redo@, *final(history), old(grid)@, final(grid)@)
                &&& final(recent).0@ == recent_push_all(old(recent).0@, dedup(write_colors(ws)))
            },
{
    let (anchor, c1, c2) = match (state.anchor, state.corner1, state.corner2) {
        (Some(a), Some(c1), Some(c2)) => (a, c1, c2),
        _ => {
            state.reset();
            return;
        },
    };
    let cells = compute_shape_cells(options.primitive, c1, c2, anchor.axis, state.thickness, state.normal_sign);
    let ghost cs = cells@;
    let ghost g0 = grid@;
    let ghost d0_marks = grid.dirty_view();
    proof {
        lemma_no_change_marked(g0, d0_marks);
    }
    let ghost u0 = history.undo@;
    let ghost r0 = history.redo@;
    let ghost keep = |p: IVec3| p.y >= 0;
    let ghost tag = |p: IVec3| (p, spec_sample_color(p, pool@));
    proof {
        assert(shape_cells_of(options.primitive, *old(state), cs));
        grid.lemma_finite();
        assert(cs.take(0).filter(keep) =~= Seq::<IVec3>::empty()) by {
            reveal(Seq::filter);
        }
        assert(cs.take(0).filter(keep).map_values(tag) =~= Seq::<(IVec3, Color8)>::empty());
        assert(write_colors(Seq::<(IVec3, Color8)>::empty()) =~= Seq::<Color8>::empty());
    }
    history.begin();
    let mut used: Vec<Color8> = Vec::new();
    let mut i: usize = 0;
    while i < cells.len()
        invariant
            d0_marks.subset_of(grid.dirty_view()),
            changes_marked(g0, grid@, grid.dirty_view()),
            grid.wf(),
            history.wf(),
            history.undo@ == u0,
            history.redo@ == r0,
            history.current matches Some(st) && stroke_takes(g0, grid@, st.deltas@),
            cs == cells@,
            i <= cs.len(),
            pool@.len() > 0,
            g0.dom().finite(),
            g0.dom().len() + cs.len() < u32::MAX,
            keep == (|p: IVec3| p.y >= 0),
            tag == (|p: IVec3| (p, spec_sample_color(p, pool@))),
            grid@ == apply_writes(g0, cs.take(i as int).filter(keep).map_values(tag)),
            used@ == dedup(write_colors(cs.take(i as int).filter(keep).map_values(tag))),
        decreases cs.len() - i,
    {
        let p = cells[i];
        let ghost f0 = cs.take(i as int).filter(keep);
        proof {
            assert(cs.take(i + 1) =~= cs.take(i as int).push(p));
            cs.take(i as int).lemma_filter_push(p, keep);
            broadcast use vstd::seq_lib::group_filter_ensures;
            crate::resample::lemma_apply_writes_len(g0, f0.map_values(tag));
        }
        if grid.in_bounds(p) {
            let c = sample_color(p, pool);
            let ghost mb_marks = grid@;
            let ghost db_marks = grid.dirty_view();
            history.record(grid, p, Some(c));
            proof {
                lemma_marks_chain(g0, mb_marks, grid@, db_marks, grid.dirty_view());
            }
            proof {
                let w0 = f0.map_values(tag);
                assert(f0.push(p).map_values(tag) =~= w0.push((p, c)));
                assert(w0.push((p, c)).drop_last() =~= w0);
                assert(write_colors(w0.push((p, c))) =~= write_colors(w0).push(c));
                assert(write_colors(w0).push(c).drop_last() =~= write_colors(w0));
            }
            if position(&used, &c).is_none() {
                used.push(c);
            }
        }
        i = i + 1;
    }
    let ghost ws = cs.filter(keep).map_values(tag);
    proof {
        assert(cs.take(cs.len() as int) =~= cs);
        assert(ws == shape_writes(cs, pool@));
    }
    history.commit(Ghost(g0), Ghost(grid@));
    let ghost r_start = recent.0@;
    let ghost us = used@;
    let mut k: usize = 0;
    while k < used.len()
        invariant
            d0_marks.subset_of(grid.dirty_view()),
            changes_marked(g0, grid@, grid.dirty_view()),
            k <= us.len(),
            us == used@,
            recent.0@ == recent_push_all(r_start, us.take(k as int)),
        decreases used.len() - k,
    {
        recent.push(used[k]);
        proof {
            assert(us.take(k + 1).drop_last() =~= us.take(k as int));
        }
        k = k + 1;
    }
    proof {
        assert(us.take(us.len() as int) =~= us);
    }
    state.reset();
}
} // verus!
