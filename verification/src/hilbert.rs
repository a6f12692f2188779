use vstd::prelude::*;

verus! {

/// The number of levels of the curve: it runs through a square of two to
/// this power cells a side.
pub const HILBERT_LEVELS: u32 = 32;

/// The state of the walk up the levels of the curve: the cell reached
/// within the square of side `s`, and the digits of the index that are
/// left.
pub struct HilbertState {
    pub x: int,
    pub y: int,
    pub s: int,
    pub t: int,
}

/// The state one level up: the two lowest digits that are left say in
/// which quarter of the square of side `2 s` the cell lies, and how the
/// square of side `s` is turned within that quarter.
pub open spec fn spec_hilbert_step(st: HilbertState) -> HilbertState {
    let rx = (st.t / 2) % 2;
    let ry = (st.t % 2 + rx) % 2;
    let (x1, y1) = if ry == 0 {
        if rx == 1 {
            (st.s - 1 - st.y, st.s - 1 - st.x)
        } else {
            (st.y, st.x)
        }
    } else {
        (st.x, st.y)
    };
    HilbertState { x: x1 + st.s * rx, y: y1 + st.s * ry, s: 2 * st.s, t: st.t / 4 }
}

/// The state after the lowest `levels` levels.
pub open spec fn spec_hilbert_walk(d: int, levels: nat) -> HilbertState
    decreases levels,
{
    if levels == 0 {
        HilbertState { x: 0, y: 0, s: 1, t: d }
    } else {
        spec_hilbert_step(spec_hilbert_walk(d, (levels - 1) as nat))
    }
}

/// The cell with index `d` along the Hilbert curve.
pub open spec fn spec_d2xy(d: int) -> (int, int) {
    let st = spec_hilbert_walk(d, HILBERT_LEVELS as nat);
    (st.x, st.y)
}

/// A step keeps the cell within the square, whose side it doubles.
pub proof fn lemma_hilbert_step_bounds(st: HilbertState)
    requires
        0 <= st.x < st.s,
        0 <= st.y < st.s,
        0 <= st.t,
    ensures
        0 <= spec_hilbert_step(st).x < 2 * st.s,
        0 <= spec_hilbert_step(st).y < 2 * st.s,
        0 <= spec_hilbert_step(st).t,
        st.t < 4 ==> spec_hilbert_step(st).t == 0,
        st.t == 0 ==> spec_hilbert_step(st).x < st.s && spec_hilbert_step(st).y < st.s,
{
    let rx = (st.t / 2) % 2;
    let ry = (st.t % 2 + rx) % 2;
    assert(st.s * rx == if rx == 1 { st.s } else { 0 }) by (nonlinear_arith)
        requires
            rx == 0 || rx == 1,
    ;
    assert(st.s * ry == if ry == 1 { st.s } else { 0 }) by (nonlinear_arith)
        requires
            ry == 0 || ry == 1,
    ;
}

/// The cell with index `d` along the Hilbert curve.
pub fn d2xy(d: u64) -> (c: (u32, u32))
    ensures
        c.0 == spec_d2xy(d as int).0,
        c.1 == spec_d2xy(d as int).1,
{
    let mut x: u64 = 0;
    let mut y: u64 = 0;
    let mut s: u64 = 1;
    let mut t: u64 = d;
    let mut level: u32 = 0;
    proof {
        vstd::arithmetic::power2::lemma2_to64();
    }
    while level < HILBERT_LEVELS
        invariant
            level <= HILBERT_LEVELS,
            s == vstd::arithmetic::power2::pow2(level as nat),
            s <= 0x1_0000_0000,
            x < s,
            y < s,
            spec_hilbert_walk(d as int, level as nat) == (HilbertState {
                x: x as int,
                y: y as int,
                s: s as int,
                t: t as int,
            }),
        decreases HILBERT_LEVELS - level,
    {
        proof {
            lemma_hilbert_step_bounds(
                HilbertState { x: x as int, y: y as int, s: s as int, t: t as int },
            );
            vstd::arithmetic::power2::lemma_pow2_unfold((level + 1) as nat);
            vstd::arithmetic::power2::lemma2_to64();
            if level < 31 {
                vstd::arithmetic::power2::lemma_pow2_strictly_increases(
                    (level + 1) as nat,
                    32,
                );
            }
        }
        let rx: u64 = (t / 2) % 2;
        let ry: u64 = (t % 2 + rx) % 2;
        if ry == 0 {
            if rx == 1 {
                let nx: u64 = s - 1 - y;
                let ny: u64 = s - 1 - x;
                x = nx;
                y = ny;
            } else {
                let nx: u64 = y;
                y = x;
                x = nx;
            }
        }
        assert(s * rx == if rx == 1 { s as int } else { 0 }) by (nonlinear_arith)
            requires
                rx == 0 || rx == 1,
        ;
        assert(s * ry == if ry == 1 { s as int } else { 0 }) by (nonlinear_arith)
            requires
                ry == 0 || ry == 1,
        ;
        x = x + s * rx;
        y = y + s * ry;
        t = t / 4;
        s = 2 * s;
        level += 1;
    }
    (x as u32, y as u32)
}

/// Four to the power of `l`: the number of cells that the curve runs
/// through on its lowest `l` levels.
pub open spec fn spec_cells(l: nat) -> int
    decreases l,
{
    if l == 0 {
        1
    } else {
        4 * spec_cells((l - 1) as nat)
    }
}

/// Two to the power of `l`: the side of the square that the curve fills
/// on its lowest `l` levels.
pub open spec fn spec_side(l: nat) -> int
    decreases l,
{
    if l == 0 {
        1
    } else {
        2 * spec_side((l - 1) as nat)
    }
}

/// The place along the curve of levels `l` of the cell `(x, y)`: the
/// quarter that the cell lies in gives the highest digit, and the cell
/// turned back into the square of the level below gives the rest.
pub open spec fn spec_hilbert_index(x: int, y: int, l: nat) -> int
    decreases l,
{
    if l == 0 {
        0
    } else {
        let s = spec_side((l - 1) as nat);
        let rx: int = if x >= s {
            1
        } else {
            0
        };
        let ry: int = if y >= s {
            1
        } else {
            0
        };
        let x1 = x - s * rx;
        let y1 = y - s * ry;
        let (x0, y0) = if ry == 0 {
            if rx == 1 {
                (s - 1 - y1, s - 1 - x1)
            } else {
                (y1, x1)
            }
        } else {
            (x1, y1)
        };
        let q: int = 2 * rx + if rx == ry {
            0int
        } else {
            1int
        };
        spec_hilbert_index(x0, y0, (l - 1) as nat) + q * spec_cells((l - 1) as nat)
    }
}

/// The index along the curve of the cell `(x, y)` of the square of side
/// two to the `k`, which the curve of all its levels fills first.
pub open spec fn spec_xy2d(x: int, y: int, k: nat) -> int {
    if (HILBERT_LEVELS - k) % 2 == 0 {
        spec_hilbert_index(x, y, k)
    } else {
        spec_hilbert_index(y, x, k)
    }
}

/// Sides and cell counts are positive.
pub proof fn lemma_cells_positive(l: nat)
    ensures
        spec_cells(l) >= 1,
        spec_side(l) >= 1,
        spec_side(l) * spec_side(l) == spec_cells(l),
    decreases l,
{
    if l > 0 {
        lemma_cells_positive((l - 1) as nat);
        let s = spec_side((l - 1) as nat);
        assert((2 * s) * (2 * s) == 4 * (s * s)) by (nonlinear_arith);
    }
}

/// The walk keeps the cell within the square of its level whose side it
/// knows, and has used up the digits of an index that is small enough.
pub proof fn lemma_walk_bounds(d: int, l: nat, m: nat)
    requires
        0 <= d < spec_cells(m),
        l <= m,
    ensures
        spec_hilbert_walk(d, l).s == spec_side(l),
        0 <= spec_hilbert_walk(d, l).x < spec_side(l),
        0 <= spec_hilbert_walk(d, l).y < spec_side(l),
        0 <= spec_hilbert_walk(d, l).t < spec_cells((m - l) as nat),
    decreases l,
{
    if l > 0 {
        lemma_walk_bounds(d, (l - 1) as nat, m);
        lemma_hilbert_step_bounds(spec_hilbert_walk(d, (l - 1) as nat));
        assert(spec_cells((m - l + 1) as nat) == 4 * spec_cells((m - l) as nat));
    }
}

/// Digits above the levels walked do not change the cell: they stay
/// among the digits that are left.
pub proof fn lemma_walk_prefix(d: int, q: int, m: nat, l: nat)
    requires
        0 <= d,
        0 <= q,
        l <= m,
    ensures
        spec_hilbert_walk(d + q * spec_cells(m), l) == (HilbertState {
            t: spec_hilbert_walk(d, l).t + q * spec_cells((m - l) as nat),
            ..spec_hilbert_walk(d, l)
        }),
        spec_hilbert_walk(d, l).t >= 0,
    decreases l,
{
    if l > 0 {
        lemma_walk_prefix(d, q, m, (l - 1) as nat);
        let a = spec_hilbert_walk(d, (l - 1) as nat);
        let b = spec_hilbert_walk(d + q * spec_cells(m), (l - 1) as nat);
        let rest = q * spec_cells((m - l) as nat);
        assert(spec_cells((m - l + 1) as nat) == 4 * spec_cells((m - l) as nat));
        assert(q * spec_cells((m - l + 1) as nat) == 4 * rest) by (nonlinear_arith)
            requires
                spec_cells((m - l + 1) as nat) == 4 * spec_cells((m - l) as nat),
                rest == q * spec_cells((m - l) as nat),
        ;
        assert(b.t == a.t + 4 * rest);
        assert((b.t / 2) % 2 == (a.t / 2) % 2);
        assert(b.t % 2 == a.t % 2);
        assert(b.t / 4 == a.t / 4 + rest);
    }
}

/// Every cell of the square of a level is reached by the index that
/// `spec_hilbert_index` gives for it.
pub proof fn lemma_index_reaches_cell(x: int, y: int, l: nat)
    requires
        0 <= x < spec_side(l),
        0 <= y < spec_side(l),
    ensures
        0 <= spec_hilbert_index(x, y, l) < spec_cells(l),
        spec_hilbert_walk(spec_hilbert_index(x, y, l), l).x == x,
        spec_hilbert_walk(spec_hilbert_index(x, y, l), l).y == y,
    decreases l,
{
    if l > 0 {
        let m = (l - 1) as nat;
        let s = spec_side(m);
        let rx: int = if x >= s {
            1
        } else {
            0
        };
        let ry: int = if y >= s {
            1
        } else {
            0
        };
        assert(s * rx == if rx == 1 { s } else { 0 }) by (nonlinear_arith)
            requires
                rx == 0 || rx == 1,
        ;
        assert(s * ry == if ry == 1 { s } else { 0 }) by (nonlinear_arith)
            requires
                ry == 0 || ry == 1,
        ;
        let x1 = x - s * rx;
        let y1 = y - s * ry;
        let (x0, y0) = if ry == 0 {
            if rx == 1 {
                (s - 1 - y1, s - 1 - x1)
            } else {
                (y1, x1)
            }
        } else {
            (x1, y1)
        };
        let q: int = 2 * rx + if rx == ry {
            0int
        } else {
            1int
        };
        lemma_cells_positive(m);
        lemma_index_reaches_cell(x0, y0, m);
        let d0 = spec_hilbert_index(x0, y0, m);
        let d = d0 + q * spec_cells(m);
        assert(d == spec_hilbert_index(x, y, l));
        assert(0 <= q * spec_cells(m) <= 3 * spec_cells(m)) by (nonlinear_arith)
            requires
                0 <= q <= 3,
                spec_cells(m) >= 1,
        ;
        lemma_walk_prefix(d0, q, m, m);
        lemma_walk_bounds(d0, m, m);
        assert(spec_cells(0) == 1);
        assert(q * spec_cells(0) == q) by (nonlinear_arith)
            requires
                spec_cells(0) == 1,
        ;
        let st = spec_hilbert_walk(d, m);
        assert(st.t == q);
        assert(st.x == x0 && st.y == y0 && st.s == s);
        assert((st.t / 2) % 2 == rx);
        assert((st.t % 2 + rx) % 2 == ry);
    }
}

/// Every index of a level is the one that `spec_hilbert_index` gives for
/// the cell that the index reaches.
pub proof fn lemma_cell_has_index(d: int, l: nat)
    requires
        0 <= d < spec_cells(l),
    ensures
        spec_hilbert_index(spec_hilbert_walk(d, l).x, spec_hilbert_walk(d, l).y, l) == d,
    decreases l,
{
    if l > 0 {
        let m = (l - 1) as nat;
        let c = spec_cells(m);
        lemma_cells_positive(m);
        vstd::arithmetic::div_mod::lemma_fundamental_div_mod(d, c);
        let q = d / c;
        let d0 = d % c;
        assert(c * q == q * c) by (nonlinear_arith);
        assert(0 <= q <= 3) by (nonlinear_arith)
            requires
                d == q * c + d0,
                0 <= d0 < c,
                0 <= d < 4 * c,
        ;
        lemma_cell_has_index(d0, m);
        lemma_walk_prefix(d0, q, m, m);
        lemma_walk_bounds(d0, m, m);
        assert(spec_cells(0) == 1);
        assert(q * spec_cells(0) == q) by (nonlinear_arith)
            requires
                spec_cells(0) == 1,
        ;
        let st = spec_hilbert_walk(d, m);
        let s = spec_side(m);
        assert(st.t == q && st.s == s);
        let rx = (st.t / 2) % 2;
        let ry = (st.t % 2 + rx) % 2;
        assert(s * rx == if rx == 1 { s } else { 0 }) by (nonlinear_arith)
            requires
                rx == 0 || rx == 1,
        ;
        assert(s * ry == if ry == 1 { s } else { 0 }) by (nonlinear_arith)
            requires
                ry == 0 || ry == 1,
        ;
        let nx = spec_hilbert_walk(d, l).x;
        let ny = spec_hilbert_walk(d, l).y;
        assert((nx >= s) == (rx == 1));
        assert((ny >= s) == (ry == 1));
        assert(q == 2 * rx + if rx == ry { 0int } else { 1int });
    }
}

/// Above the digits of an index the walk only turns the square over.
pub proof fn lemma_walk_above(d: int, k: nat, l: nat)
    requires
        0 <= d < spec_cells(k),
        k <= l,
    ensures
        spec_hilbert_walk(d, l).t == 0,
        (l - k) % 2 == 0 ==> spec_hilbert_walk(d, l).x == spec_hilbert_walk(d, k).x
            && spec_hilbert_walk(d, l).y == spec_hilbert_walk(d, k).y,
        (l - k) % 2 == 1 ==> spec_hilbert_walk(d, l).x == spec_hilbert_walk(d, k).y
            && spec_hilbert_walk(d, l).y == spec_hilbert_walk(d, k).x,
    decreases l - k,
{
    if l == k {
        lemma_walk_bounds(d, k, k);
        assert(spec_cells(0) == 1);
    } else {
        lemma_walk_above(d, k, (l - 1) as nat);
        let st = spec_hilbert_walk(d, (l - 1) as nat);
        assert(st.s * 0 == 0) by (nonlinear_arith);
    }
}

/// The curve runs through the square of side two to the `k` before it
/// leaves it, through every cell once: every cell has an index below four
/// to the `k` that leads to it, and every such index leads to a cell of
/// which it is the index.
pub proof fn lemma_hilbert_fills_square(k: nat)
    requires
        k <= HILBERT_LEVELS,
    ensures
        forall|x: int, y: int|
            0 <= x < spec_side(k) && 0 <= y < spec_side(k) ==> 0 <= #[trigger] spec_xy2d(x, y, k)
                < spec_cells(k) && spec_d2xy(spec_xy2d(x, y, k)) == (x, y),
        forall|d: int|
            0 <= d < spec_cells(k) ==> 0 <= (#[trigger] spec_d2xy(d)).0 < spec_side(k) && 0
                <= spec_d2xy(d).1 < spec_side(k) && spec_xy2d(spec_d2xy(d).0, spec_d2xy(d).1, k)
                == d,
{
    let top = HILBERT_LEVELS as nat;
    assert forall|x: int, y: int| 0 <= x < spec_side(k) && 0 <= y < spec_side(k) implies 0
        <= #[trigger] spec_xy2d(x, y, k) < spec_cells(k) && spec_d2xy(spec_xy2d(x, y, k)) == (
        x,
        y,
    ) by {
        if (top - k) % 2 == 0 {
            lemma_index_reaches_cell(x, y, k);
            lemma_walk_above(spec_hilbert_index(x, y, k), k, top);
        } else {
            lemma_index_reaches_cell(y, x, k);
            lemma_walk_above(spec_hilbert_index(y, x, k), k, top);
        }
    }
    assert forall|d: int| 0 <= d < spec_cells(k) implies 0 <= (#[trigger] spec_d2xy(d)).0
        < spec_side(k) && 0 <= spec_d2xy(d).1 < spec_side(k) && spec_xy2d(
        spec_d2xy(d).0,
        spec_d2xy(d).1,
        k,
    ) == d by {
        lemma_walk_above(d, k, top);
        lemma_walk_bounds(d, k, k);
        lemma_cell_has_index(d, k);
    }
}

} // verus!
