//! Voxel lines between two block positions (Bresenham's algorithm).
use vstd::prelude::*;
use vstd::arithmetic::div_mod::{
    lemma_fundamental_div_mod,
    lemma_fundamental_div_mod_converse_div,
    lemma_mod_bound,
};

verus! {

pub open spec fn abs_int(v: int) -> int {
    if v < 0 {
        -v
    } else {
        v
    }
}

/// `from` moved `n` steps toward `to` (away from it as well when they are equal,
/// which only matters for `n == 0`).
pub open spec fn move_toward(from: int, to: int, n: int) -> int {
    if from < to {
        from + n
    } else {
        from - n
    }
}

/// After `i` steps along an axis of length `d`, how far a line has moved along an
/// axis of length `dm`: `i * dm / d`, rounded to the nearest integer, halves up.
pub open spec fn minor_offset(i: int, dm: int, d: int) -> int {
    if d == 0 {
        0
    } else {
        (2 * i * dm + d) / (2 * d)
    }
}

/// Point `i` of the line from `(a1, b1, c1)` to `(a2, b2, c2)` whose major axis is `a`.
pub open spec fn line_point(a1: int, b1: int, c1: int, a2: int, b2: int, c2: int, i: int) -> (
    int,
    int,
    int,
) {
    let d = abs_int(a2 - a1);
    (
        move_toward(a1, a2, i),
        move_toward(b1, b2, minor_offset(i, abs_int(b2 - b1), d)),
        move_toward(c1, c2, minor_offset(i, abs_int(c2 - c1), d)),
    )
}

/// The points of the line whose major axis is `a`, one per step along `a`, both ends included.
pub open spec fn axis_line(a1: int, b1: int, c1: int, a2: int, b2: int, c2: int) -> Seq<
    (int, int, int),
> {
    Seq::new(
        (abs_int(a2 - a1) + 1) as nat,
        |i: int| line_point(a1, b1, c1, a2, b2, c2, i),
    )
}

/// The line from `(x1, y1, z1)` to `(x2, y2, z2)`. The axis with the largest extent
/// leads (x before y before z on ties); every other coordinate is the exact line's
/// value at that step, rounded to the nearest integer with halves away from the start.
pub open spec fn line_spec(x1: int, y1: int, z1: int, x2: int, y2: int, z2: int) -> Seq<
    (int, int, int),
> {
    let dx = abs_int(x2 - x1);
    let dy = abs_int(y2 - y1);
    let dz = abs_int(z2 - z1);
    if dx >= dy && dx >= dz {
        axis_line(x1, y1, z1, x2, y2, z2)
    } else if dy >= dx && dy >= dz {
        axis_line(y1, x1, z1, y2, x2, z2).map_values(|p: (int, int, int)| (p.1, p.0, p.2))
    } else {
        axis_line(z1, x1, y1, z2, x2, y2).map_values(|p: (int, int, int)| (p.1, p.2, p.0))
    }
}

/// The points of `line_spec` as block coordinates.
pub open spec fn line_points(x1: int, y1: int, z1: int, x2: int, y2: int, z2: int) -> Seq<
    (i32, i32, i32),
> {
    line_spec(x1, y1, z1, x2, y2, z2).map_values(
        |p: (int, int, int)| (p.0 as i32, p.1 as i32, p.2 as i32),
    )
}

pub open spec fn widen(p: (i32, i32, i32)) -> (int, int, int) {
    (p.0 as int, p.1 as int, p.2 as int)
}

/// The largest extent of the line along one axis.
pub open spec fn line_extent(x1: int, y1: int, z1: int, x2: int, y2: int, z2: int) -> int {
    let dx = abs_int(x2 - x1);
    let dy = abs_int(y2 - y1);
    let dz = abs_int(z2 - z1);
    if dx >= dy && dx >= dz {
        dx
    } else if dy >= dz {
        dy
    } else {
        dz
    }
}

/// One step of the error term of a minor axis.
proof fn lemma_minor_step(i: int, dm: int, d: int, k: int, p: int)
    requires
        0 <= dm <= d,
        0 < d,
        0 <= i,
        k == minor_offset(i, dm, d),
        p == 2 * dm * (i + 1) - d - 2 * d * k,
    ensures
        2 * dm - 2 * d <= p < 2 * dm,
        p >= 0 ==> minor_offset(i + 1, dm, d) == k + 1 && p - 2 * d + 2 * dm == 2 * dm * (i + 2)
            - d - 2 * d * (k + 1),
        p < 0 ==> minor_offset(i + 1, dm, d) == k && p + 2 * dm == 2 * dm * (i + 2) - d - 2 * d
            * k,
{
    let n = 2 * i * dm + d;
    let dd = 2 * d;
    lemma_fundamental_div_mod(n, dd);
    lemma_mod_bound(n, dd);
    assert(k == n / dd);
    let r = n % dd;
    assert(n == dd * k + r);
    assert(2 * dm * (i + 1) == 2 * i * dm + 2 * dm) by (nonlinear_arith);
    assert(2 * dm * (i + 2) == 2 * dm * (i + 1) + 2 * dm) by (nonlinear_arith);
    assert(2 * d * (k + 1) == 2 * d * k + 2 * d) by (nonlinear_arith);
    assert(dd * k == 2 * d * k) by (nonlinear_arith)
        requires
            dd == 2 * d,
    ;
    assert(p == r + 2 * dm - 2 * d);
    let n2 = 2 * (i + 1) * dm + d;
    assert(2 * (i + 1) * dm == 2 * i * dm + 2 * dm) by (nonlinear_arith);
    assert(n2 == n + 2 * dm);
    if p >= 0 {
        assert((k + 1) * dd + p == n2) by (nonlinear_arith)
            requires
                n == dd * k + r,
                n2 == n + 2 * dm,
                p == r + 2 * dm - dd,
        ;
        lemma_fundamental_div_mod_converse_div(n2, dd, k + 1, p);
    } else {
        assert(k * dd + (r + 2 * dm) == n2) by (nonlinear_arith)
            requires
                n == dd * k + r,
                n2 == n + 2 * dm,
        ;
        lemma_fundamental_div_mod_converse_div(n2, dd, k, r + 2 * dm);
    }
}

/// Along a minor axis the line never passes its end, and reaches it at the last step.
proof fn lemma_minor_bounds(i: int, dm: int, d: int)
    requires
        0 <= dm <= d,
        0 <= i <= d,
    ensures
        0 <= minor_offset(i, dm, d) <= dm,
        i == d ==> minor_offset(i, dm, d) == dm,
{
    if d > 0 {
        let n = 2 * i * dm + d;
        let dd = 2 * d;
        assert(0 <= n) by (nonlinear_arith)
            requires
                0 <= i,
                0 <= dm,
                0 < d,
                n == 2 * i * dm + d,
        ;
        assert(n < dd * (dm + 1)) by (nonlinear_arith)
            requires
                0 <= i <= d,
                0 <= dm,
                0 < d,
                n == 2 * i * dm + d,
                dd == 2 * d,
        ;
        lemma_fundamental_div_mod(n, dd);
        lemma_mod_bound(n, dd);
        let q = n / dd;
        let r = n % dd;
        assert(q >= 0) by (nonlinear_arith)
            requires
                n == dd * q + r,
                0 <= r < dd,
                0 <= n,
        ;
        assert(q <= dm) by (nonlinear_arith)
            requires
                n == dd * q + r,
                0 <= r < dd,
                n < dd * (dm + 1),
        ;
        if i == d {
            assert(n == dm * dd + d) by (nonlinear_arith)
                requires
                    n == 2 * i * dm + d,
                    i == d,
                    dd == 2 * d,
            ;
            lemma_fundamental_div_mod_converse_div(n, dd, dm, d);
        }
    }
}

proof fn lemma_minor_start(dm: int, d: int)
    requires
        0 <= d,
    ensures
        minor_offset(0, dm, d) == 0,
{
    if d > 0 {
        assert(2 * 0 * dm + d == 0 * (2 * d) + d) by (nonlinear_arith);
        lemma_fundamental_div_mod_converse_div(2 * 0 * dm + d, 2 * d, 0, d);
    }
}

fn step_toward(from: i64, to: i64) -> (s: i64)
    ensures
        s == (if from < to { 1i64 } else { -1i64 }),
{
    if from < to {
        1
    } else {
        -1
    }
}

/// The line along major axis `a`, whose extent is at least that of `b` and `c`.
fn major_axis_line(a1: i32, b1: i32, c1: i32, a2: i32, b2: i32, c2: i32) -> (res: Vec<
    (i32, i32, i32),
>)
    requires
        abs_int(a2 - a1) >= abs_int(b2 - b1),
        abs_int(a2 - a1) >= abs_int(c2 - c1),
    ensures
        res@.map_values(|p: (i32, i32, i32)| widen(p)) == axis_line(
            a1 as int,
            b1 as int,
            c1 as int,
            a2 as int,
            b2 as int,
            c2 as int,
        ),
{
    let ghost (ga1, gb1, gc1, ga2, gb2, gc2) = (
        a1 as int,
        b1 as int,
        c1 as int,
        a2 as int,
        b2 as int,
        c2 as int,
    );
    let da: i64 = if a1 < a2 {
        a2 as i64 - a1 as i64
    } else {
        a1 as i64 - a2 as i64
    };
    let db: i64 = if b1 < b2 {
        b2 as i64 - b1 as i64
    } else {
        b1 as i64 - b2 as i64
    };
    let dc: i64 = if c1 < c2 {
        c2 as i64 - c1 as i64
    } else {
        c1 as i64 - c2 as i64
    };
    let sa = step_toward(a1 as i64, a2 as i64);
    let sb = step_toward(b1 as i64, b2 as i64);
    let sc = step_toward(c1 as i64, c2 as i64);
    let mut a: i64 = a1 as i64;
    let mut b: i64 = b1 as i64;
    let mut c: i64 = c1 as i64;
    let mut p1: i64 = 2 * db - da;
    let mut p2: i64 = 2 * dc - da;
    let ghost mut kb: int = 0;
    let ghost mut kc: int = 0;
    let mut points: Vec<(i32, i32, i32)> = Vec::new();
    let mut i: i64 = 0;
    proof {
        lemma_minor_start(db as int, da as int);
        lemma_minor_start(dc as int, da as int);
    }
    while i < da
        invariant
            ga1 == a1,
            gb1 == b1,
            gc1 == c1,
            ga2 == a2,
            gb2 == b2,
            gc2 == c2,
            da == abs_int(ga2 - ga1),
            db == abs_int(gb2 - gb1),
            dc == abs_int(gc2 - gc1),
            db <= da,
            dc <= da,
            sa == (if ga1 < ga2 { 1int } else { -1int }),
            sb == (if gb1 < gb2 { 1int } else { -1int }),
            sc == (if gc1 < gc2 { 1int } else { -1int }),
            0 <= i <= da,
            a == move_toward(ga1, ga2, i as int),
            kb == minor_offset(i as int, db as int, da as int),
            kc == minor_offset(i as int, dc as int, da as int),
            0 <= kb <= db,
            0 <= kc <= dc,
            b == move_toward(gb1, gb2, kb),
            c == move_toward(gc1, gc2, kc),
            p1 == 2 * db * (i + 1) - da - 2 * da * kb,
            p2 == 2 * dc * (i + 1) - da - 2 * da * kc,
            points@.len() == i,
            forall|j: int|
                0 <= j < i ==> widen(#[trigger] points@[j]) == line_point(
                    ga1,
                    gb1,
                    gc1,
                    ga2,
                    gb2,
                    gc2,
                    j,
                ),
        decreases da - i,
    {
        points.push((a as i32, b as i32, c as i32));
        proof {
            lemma_minor_step(i as int, db as int, da as int, kb, p1 as int);
            lemma_minor_step(i as int, dc as int, da as int, kc, p2 as int);
            lemma_minor_bounds(i + 1, db as int, da as int);
            lemma_minor_bounds(i + 1, dc as int, da as int);
        }
        if p1 >= 0 {
            b = b + sb;
            p1 = p1 - 2 * da;
            proof {
                kb = kb + 1;
            }
        }
        if p2 >= 0 {
            c = c + sc;
            p2 = p2 - 2 * da;
            proof {
                kc = kc + 1;
            }
        }
        p1 = p1 + 2 * db;
        p2 = p2 + 2 * dc;
        a = a + sa;
        i = i + 1;
    }
    points.push((a2, b2, c2));
    proof {
        if da > 0 {
            lemma_minor_bounds(da as int, db as int, da as int);
            lemma_minor_bounds(da as int, dc as int, da as int);
        }
        let target = axis_line(ga1, gb1, gc1, ga2, gb2, gc2);
        assert(points@.map_values(|p: (i32, i32, i32)| widen(p)) =~= target);
    }
    points
}

/// Puts each point of a line led by another axis back into `(x, y, z)` order:
/// from `(y, x, z)` when `y_led`, else from `(z, x, y)`.
fn reorder(v: &Vec<(i32, i32, i32)>, y_led: bool) -> (res: Vec<(i32, i32, i32)>)
    ensures
        res@.len() == v@.len(),
        forall|i: int|
            0 <= i < v@.len() ==> #[trigger] res@[i] == (if y_led {
                (v@[i].1, v@[i].0, v@[i].2)
            } else {
                (v@[i].1, v@[i].2, v@[i].0)
            }),
{
    let mut res: Vec<(i32, i32, i32)> = Vec::new();
    let mut i: usize = 0;
    while i < v.len()
        invariant
            i <= v@.len(),
            res@.len() == i,
            forall|j: int|
                0 <= j < i ==> #[trigger] res@[j] == (if y_led {
                    (v@[j].1, v@[j].0, v@[j].2)
                } else {
                    (v@[j].1, v@[j].2, v@[j].0)
                }),
        decreases v.len() - i,
    {
        let p = v[i];
        if y_led {
            res.push((p.1, p.0, p.2));
        } else {
            res.push((p.1, p.2, p.0));
        }
        i = i + 1;
    }
    res
}

/// The blocks of the line from `(x1, y1, z1)` to `(x2, y2, z2)`, from the first
/// end to the second, both included.
pub fn bresenham_line(x1: i32, y1: i32, z1: i32, x2: i32, y2: i32, z2: i32) -> (res: Vec<
    (i32, i32, i32),
>)
    ensures
        res@.map_values(|p: (i32, i32, i32)| widen(p)) == line_spec(
            x1 as int,
            y1 as int,
            z1 as int,
            x2 as int,
            y2 as int,
            z2 as int,
        ),
        res@ == line_points(x1 as int, y1 as int, z1 as int, x2 as int, y2 as int, z2 as int),
{
    let res = line_in_widened(x1, y1, z1, x2, y2, z2);
    proof {
        let l = line_spec(x1 as int, y1 as int, z1 as int, x2 as int, y2 as int, z2 as int);
        assert forall|i: int| 0 <= i < res@.len() implies res@[i] == line_points(
            x1 as int,
            y1 as int,
            z1 as int,
            x2 as int,
            y2 as int,
            z2 as int,
        )[i] by {
            assert(res@.map_values(|p: (i32, i32, i32)| widen(p))[i] == l[i]);
        }
        assert(res@ =~= line_points(x1 as int, y1 as int, z1 as int, x2 as int, y2 as int, z2 as int));
    }
    res
}

fn line_in_widened(x1: i32, y1: i32, z1: i32, x2: i32, y2: i32, z2: i32) -> (res: Vec<
    (i32, i32, i32),
>)
    ensures
        res@.map_values(|p: (i32, i32, i32)| widen(p)) == line_spec(
            x1 as int,
            y1 as int,
            z1 as int,
            x2 as int,
            y2 as int,
            z2 as int,
        ),
{
    let dx: i64 = if x1 < x2 {
        x2 as i64 - x1 as i64
    } else {
        x1 as i64 - x2 as i64
    };
    let dy: i64 = if y1 < y2 {
        y2 as i64 - y1 as i64
    } else {
        y1 as i64 - y2 as i64
    };
    let dz: i64 = if z1 < z2 {
        z2 as i64 - z1 as i64
    } else {
        z1 as i64 - z2 as i64
    };
    if dx >= dy && dx >= dz {
        major_axis_line(x1, y1, z1, x2, y2, z2)
    } else if dy >= dx && dy >= dz {
        let v = major_axis_line(y1, x1, z1, y2, x2, z2);
        let res = reorder(&v, true);
        proof {
            let base = axis_line(y1 as int, x1 as int, z1 as int, y2 as int, x2 as int, z2 as int);
            assert forall|i: int| 0 <= i < v@.len() implies widen(v@[i]) == base[i] by {
                assert(v@.map_values(|p: (i32, i32, i32)| widen(p))[i] == base[i]);
            }
            assert(res@.map_values(|p: (i32, i32, i32)| widen(p)) =~= base.map_values(
                |p: (int, int, int)| (p.1, p.0, p.2),
            ));
        }
        res
    } else {
        let v = major_axis_line(z1, x1, y1, z2, x2, y2);
        let res = reorder(&v, false);
        proof {
            let base = axis_line(z1 as int, x1 as int, y1 as int, z2 as int, x2 as int, y2 as int);
            assert forall|i: int| 0 <= i < v@.len() implies widen(v@[i]) == base[i] by {
                assert(v@.map_values(|p: (i32, i32, i32)| widen(p))[i] == base[i]);
            }
            assert(res@.map_values(|p: (i32, i32, i32)| widen(p)) =~= base.map_values(
                |p: (int, int, int)| (p.1, p.2, p.0),
            ));
        }
        res
    }
}

/// Whether two blocks touch, by a face, an edge or a corner: each coordinate
/// differs by at most one, and they are not the same block.
pub open spec fn neighbours(p: (int, int, int), q: (int, int, int)) -> bool {
    &&& abs_int(p.0 - q.0) <= 1
    &&& abs_int(p.1 - q.1) <= 1
    &&& abs_int(p.2 - q.2) <= 1
    &&& p != q
}

proof fn lemma_minor_increment(i: int, dm: int, d: int)
    requires
        0 <= dm <= d,
        0 < d,
        0 <= i,
    ensures
        minor_offset(i + 1, dm, d) == minor_offset(i, dm, d) || minor_offset(i + 1, dm, d)
            == minor_offset(i, dm, d) + 1,
{
    let k = minor_offset(i, dm, d);
    lemma_minor_step(i, dm, d, k, 2 * dm * (i + 1) - d - 2 * d * k);
}

proof fn lemma_axis_line(a1: int, b1: int, c1: int, a2: int, b2: int, c2: int)
    requires
        abs_int(a2 - a1) >= abs_int(b2 - b1),
        abs_int(a2 - a1) >= abs_int(c2 - c1),
    ensures
        axis_line(a1, b1, c1, a2, b2, c2)[0] == (a1, b1, c1),
        axis_line(a1, b1, c1, a2, b2, c2)[abs_int(a2 - a1)] == (a2, b2, c2),
        forall|i: int|
            0 <= i < abs_int(a2 - a1) ==> neighbours(
                #[trigger] axis_line(a1, b1, c1, a2, b2, c2)[i],
                axis_line(a1, b1, c1, a2, b2, c2)[i + 1],
            ),
{
    let d = abs_int(a2 - a1);
    let s = axis_line(a1, b1, c1, a2, b2, c2);
    lemma_minor_start(abs_int(b2 - b1), d);
    lemma_minor_start(abs_int(c2 - c1), d);
    lemma_minor_bounds(d, abs_int(b2 - b1), d);
    lemma_minor_bounds(d, abs_int(c2 - c1), d);
    assert forall|i: int| 0 <= i < d implies neighbours(#[trigger] s[i], s[i + 1]) by {
        lemma_minor_increment(i, abs_int(b2 - b1), d);
        lemma_minor_increment(i, abs_int(c2 - c1), d);
    }
}

/// A line starts at its first end, stops at its second, and has one block per
/// step along its longest axis.
pub proof fn law_line_ends(x1: int, y1: int, z1: int, x2: int, y2: int, z2: int)
    ensures
        line_spec(x1, y1, z1, x2, y2, z2).len() == line_extent(x1, y1, z1, x2, y2, z2) + 1,
        line_spec(x1, y1, z1, x2, y2, z2)[0] == (x1, y1, z1),
        line_spec(x1, y1, z1, x2, y2, z2)[line_extent(x1, y1, z1, x2, y2, z2)] == (x2, y2, z2),
{
    let dx = abs_int(x2 - x1);
    let dy = abs_int(y2 - y1);
    let dz = abs_int(z2 - z1);
    if dx >= dy && dx >= dz {
        lemma_axis_line(x1, y1, z1, x2, y2, z2);
    } else if dy >= dx && dy >= dz {
        lemma_axis_line(y1, x1, z1, y2, x2, z2);
    } else {
        lemma_axis_line(z1, x1, y1, z2, x2, y2);
    }
}

/// Each block of a line touches the next one.
pub proof fn law_line_connected(x1: int, y1: int, z1: int, x2: int, y2: int, z2: int, i: int)
    requires
        0 <= i < line_extent(x1, y1, z1, x2, y2, z2),
    ensures
        neighbours(line_spec(x1, y1, z1, x2, y2, z2)[i], line_spec(x1, y1, z1, x2, y2, z2)[i + 1]),
{
    let dx = abs_int(x2 - x1);
    let dy = abs_int(y2 - y1);
    let dz = abs_int(z2 - z1);
    if dx >= dy && dx >= dz {
        lemma_axis_line(x1, y1, z1, x2, y2, z2);
        assert(neighbours(axis_line(x1, y1, z1, x2, y2, z2)[i], axis_line(x1, y1, z1, x2, y2, z2)[i + 1]));
    } else if dy >= dx && dy >= dz {
        lemma_axis_line(y1, x1, z1, y2, x2, z2);
        assert(neighbours(axis_line(y1, x1, z1, y2, x2, z2)[i], axis_line(y1, x1, z1, y2, x2, z2)[i + 1]));
    } else {
        lemma_axis_line(z1, x1, y1, z2, x2, y2);
        assert(neighbours(axis_line(z1, x1, y1, z2, x2, y2)[i], axis_line(z1, x1, y1, z2, x2, y2)[i + 1]));
    }
}

} // verus!
