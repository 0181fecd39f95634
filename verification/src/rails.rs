//! Rail tracks: removing diagonal steps from a path of blocks, and choosing the
//! shape of each rail from its neighbours.
use vstd::prelude::*;
use crate::blocks::Block;
use crate::bresenham::abs_int;

verus! {

/// Two positions one apart along both x and z.
pub open spec fn diagonal(p: (i32, i32, i32), q: (i32, i32, i32)) -> bool {
    abs_int(q.0 - p.0) == 1 && abs_int(q.2 - p.2) == 1
}

/// Whether a corner block is put between point `i` and the next.
pub open spec fn has_corner(s: Seq<(i32, i32, i32)>, i: int) -> bool {
    0 <= i && i + 1 < s.len() && diagonal(s[i], s[i + 1])
}

/// The corner block between point `i` and the diagonal next one. Coming from a
/// point with the same x, x is kept; coming from elsewhere, z is kept. At the start
/// the point after next decides: if it has the next point's x, z is kept, else x.
/// The height is that of point `i`.
pub open spec fn corner(s: Seq<(i32, i32, i32)>, i: int) -> (i32, i32, i32) {
    let (x1, y1, z1) = s[i];
    let (x2, _, z2) = s[i + 1];
    if i > 0 {
        if s[i - 1].0 == x1 {
            (x1, y1, z2)
        } else {
            (x2, y1, z1)
        }
    } else if i + 2 < s.len() {
        if s[i + 2].0 == x2 {
            (x2, y1, z1)
        } else {
            (x1, y1, z2)
        }
    } else {
        (x2, y1, z1)
    }
}

/// Point `i`, followed by its corner block where there is one.
pub open spec fn smooth_group(s: Seq<(i32, i32, i32)>, i: int) -> Seq<(i32, i32, i32)> {
    if has_corner(s, i) {
        seq![s[i], corner(s, i)]
    } else {
        seq![s[i]]
    }
}

/// The smoothed path of the first `n` points.
pub open spec fn smoothed_prefix(s: Seq<(i32, i32, i32)>, n: int) -> Seq<(i32, i32, i32)>
    decreases n,
{
    if n <= 0 {
        Seq::empty()
    } else {
        smoothed_prefix(s, n - 1) + smooth_group(s, n - 1)
    }
}

/// The path with a corner block put into every diagonal step.
pub open spec fn smooth_spec(s: Seq<(i32, i32, i32)>) -> Seq<(i32, i32, i32)> {
    smoothed_prefix(s, s.len() as int)
}

fn abs_diff(a: i32, b: i32) -> (res: i64)
    ensures
        res == abs_int(b - a),
{
    if a < b {
        b as i64 - a as i64
    } else {
        a as i64 - b as i64
    }
}

/// Puts a corner block into every diagonal step of `points`, so that rails can
/// follow the path.
pub fn smooth_diagonal_rails(points: &[(i32, i32, i32)]) -> (res: Vec<(i32, i32, i32)>)
    ensures
        res@ == smooth_spec(points@),
{
    let mut smoothed: Vec<(i32, i32, i32)> = Vec::new();
    let n = points.len();
    let mut i: usize = 0;
    while i < n
        invariant
            n == points@.len(),
            i <= n,
            smoothed@ == smoothed_prefix(points@, i as int),
        decreases n - i,
    {
        let current = points[i];
        smoothed.push(current);
        if i + 1 < n {
            let next = points[i + 1];
            let (x1, y1, z1) = current;
            let (x2, _, z2) = next;
            if abs_diff(x1, x2) == 1 && abs_diff(z1, z2) == 1 {
                let intermediate = if i > 0 {
                    let prev_x = points[i - 1].0;
                    if prev_x == x1 {
                        (x1, y1, z2)
                    } else {
                        (x2, y1, z1)
                    }
                } else if i + 2 < n {
                    let next_x = points[i + 2].0;
                    if next_x == x2 {
                        (x2, y1, z1)
                    } else {
                        (x1, y1, z2)
                    }
                } else {
                    (x2, y1, z1)
                };
                smoothed.push(intermediate);
            }
        }
        assert(smoothed@ =~= smoothed_prefix(points@, i as int) + smooth_group(points@, i as int));
        i = i + 1;
    }
    smoothed
}

proof fn lemma_prefix_shape(s: Seq<(i32, i32, i32)>, n: int)
    requires
        1 <= n <= s.len(),
    ensures
        smoothed_prefix(s, n).len() >= n,
        smoothed_prefix(s, n)[0] == s[0],
        smoothed_prefix(s, n).last() == (if has_corner(s, n - 1) {
            corner(s, n - 1)
        } else {
            s[n - 1]
        }),
    decreases n,
{
    let g = smooth_group(s, n - 1);
    if n > 1 {
        lemma_prefix_shape(s, n - 1);
        let a = smoothed_prefix(s, n - 1);
        assert((a + g)[0] == a[0]);
    } else {
        assert(smoothed_prefix(s, 0) + g =~= g);
    }
}

proof fn lemma_prefix_no_diagonal(s: Seq<(i32, i32, i32)>, n: int)
    requires
        0 <= n <= s.len(),
    ensures
        forall|j: int|
            0 <= j < smoothed_prefix(s, n).len() - 1 ==> !diagonal(
                #[trigger] smoothed_prefix(s, n)[j],
                smoothed_prefix(s, n)[j + 1],
            ),
    decreases n,
{
    if n > 0 {
        lemma_prefix_no_diagonal(s, n - 1);
        let a = smoothed_prefix(s, n - 1);
        let g = smooth_group(s, n - 1);
        let b = smoothed_prefix(s, n);
        assert(b == a + g);
        if n > 1 {
            lemma_prefix_shape(s, n - 1);
        }
        assert forall|j: int| 0 <= j < b.len() - 1 implies !diagonal(#[trigger] b[j], b[j + 1]) by {
            if j + 1 < a.len() {
                assert(b[j] == a[j] && b[j + 1] == a[j + 1]);
            } else if j + 1 == a.len() {
                assert(b[j + 1] == s[n - 1]);
            } else {
                assert(b[j] == s[n - 1]);
            }
        }
    }
}

/// After smoothing, no step of the path is diagonal.
pub proof fn law_smooth_no_diagonal(s: Seq<(i32, i32, i32)>, j: int)
    requires
        0 <= j < smooth_spec(s).len() - 1,
    ensures
        !diagonal(smooth_spec(s)[j], smooth_spec(s)[j + 1]),
{
    lemma_prefix_no_diagonal(s, s.len() as int);
}

/// Smoothing keeps the ends of the path and never shortens it.
pub proof fn law_smooth_keeps_ends(s: Seq<(i32, i32, i32)>)
    requires
        s.len() > 0,
    ensures
        smooth_spec(s).len() >= s.len(),
        smooth_spec(s)[0] == s[0],
        smooth_spec(s).last() == s.last(),
{
    lemma_prefix_shape(s, s.len() as int);
}

/// Smoothing puts exactly one block into each diagonal step: the path grows by
/// one block for every diagonal step of the input.
pub proof fn law_smooth_length(s: Seq<(i32, i32, i32)>, n: int)
    requires
        0 <= n <= s.len(),
    ensures
        smoothed_prefix(s, n).len() == n + Seq::new(n as nat, |i: int| i).filter(
            |i: int| has_corner(s, i),
        ).len(),
    decreases n,
{
    if n > 0 {
        law_smooth_length(s, n - 1);
        let idx = Seq::new(n as nat, |i: int| i);
        assert(idx.drop_last() =~= Seq::new((n - 1) as nat, |i: int| i));
        reveal_with_fuel(Seq::filter, 1);
    } else {
        assert(Seq::new(0, |i: int| i).filter(|i: int| has_corner(s, i)) =~= Seq::empty());
    }
}

/// The rail shape for a block at `current` between the path's `prev` and `next` blocks.
pub open spec fn rail_direction_spec(
    current: (int, int),
    prev: Option<(int, int)>,
    next: Option<(int, int)>,
) -> Block {
    let (x, z) = current;
    match (prev, next) {
        (Some((px, pz)), Some((nx, nz))) => {
            if px == nx {
                Block::RailNorthSouth
            } else if pz == nz {
                Block::RailEastWest
            } else {
                let from_prev = (px - x, pz - z);
                let to_next = (nx - x, nz - z);
                if (from_prev == (-1int, 0int) && to_next == (0int, -1int)) || (from_prev == (
                0int, -1int) && to_next == (-1int, 0int)) {
                    Block::RailNorthWest
                } else if (from_prev == (1int, 0int) && to_next == (0int, -1int)) || (from_prev
                    == (0int, -1int) && to_next == (1int, 0int)) {
                    Block::RailNorthEast
                } else if (from_prev == (-1int, 0int) && to_next == (0int, 1int)) || (from_prev
                    == (0int, 1int) && to_next == (-1int, 0int)) {
                    Block::RailSouthWest
                } else if (from_prev == (1int, 0int) && to_next == (0int, 1int)) || (from_prev
                    == (0int, 1int) && to_next == (1int, 0int)) {
                    Block::RailSouthEast
                } else if abs_int(px - x) > abs_int(pz - z) {
                    Block::RailEastWest
                } else {
                    Block::RailNorthSouth
                }
            }
        },
        (Some((px, pz)), None) | (None, Some((px, pz))) => {
            if px == x {
                Block::RailNorthSouth
            } else if pz == z {
                Block::RailEastWest
            } else {
                Block::RailNorthSouth
            }
        },
        (None, None) => Block::RailNorthSouth,
    }
}

pub open spec fn widen_xz(p: (i32, i32)) -> (int, int) {
    (p.0 as int, p.1 as int)
}

pub open spec fn widen_opt(p: Option<(i32, i32)>) -> Option<(int, int)> {
    match p {
        Some(q) => Some(widen_xz(q)),
        None => None,
    }
}

/// The rail shape for a block at `current`, given the positions (x, z) of the
/// blocks before and after it on the track.
pub fn determine_rail_direction(
    current: (i32, i32),
    prev: Option<(i32, i32)>,
    next: Option<(i32, i32)>,
) -> (res: Block)
    ensures
        res == rail_direction_spec(widen_xz(current), widen_opt(prev), widen_opt(next)),
{
    let (x, z) = current;
    match (prev, next) {
        (Some((px, pz)), Some((nx, nz))) => {
            if px == nx {
                Block::RailNorthSouth
            } else if pz == nz {
                Block::RailEastWest
            } else {
                let from_prev = (px as i64 - x as i64, pz as i64 - z as i64);
                let to_next = (nx as i64 - x as i64, nz as i64 - z as i64);
                match (from_prev, to_next) {
                    ((-1, 0), (0, -1)) | ((0, -1), (-1, 0)) => Block::RailNorthWest,
                    ((1, 0), (0, -1)) | ((0, -1), (1, 0)) => Block::RailNorthEast,
                    ((-1, 0), (0, 1)) | ((0, 1), (-1, 0)) => Block::RailSouthWest,
                    ((1, 0), (0, 1)) | ((0, 1), (1, 0)) => Block::RailSouthEast,
                    _ => {
                        if abs_diff(x, px) > abs_diff(z, pz) {
                            Block::RailEastWest
                        } else {
                            Block::RailNorthSouth
                        }
                    },
                }
            }
        },
        (Some((px, pz)), None) | (None, Some((px, pz))) => {
            if px == x {
                Block::RailNorthSouth
            } else if pz == z {
                Block::RailEastWest
            } else {
                Block::RailNorthSouth
            }
        },
        (None, None) => Block::RailNorthSouth,
    }
}

/// A rail whose neighbours lie along one line through it is straight, along that line.
pub proof fn law_straight_track(x: int, z: int, d: int)
    requires
        d == 1 || d == -1,
    ensures
        rail_direction_spec((x, z), Some((x, z - d)), Some((x, z + d))) == Block::RailNorthSouth,
        rail_direction_spec((x, z), Some((x - d, z)), Some((x + d, z))) == Block::RailEastWest,
{
}

/// For neighbours that touch the rail by a face, the shape does not depend on the
/// direction of travel.
pub proof fn law_rail_direction_symmetric(x: int, z: int, p: (int, int), n: (int, int))
    requires
        abs_int(p.0 - x) + abs_int(p.1 - z) == 1,
        abs_int(n.0 - x) + abs_int(n.1 - z) == 1,
    ensures
        rail_direction_spec((x, z), Some(p), Some(n)) == rail_direction_spec(
            (x, z),
            Some(n),
            Some(p),
        ),
{
}

/// A rail with one neighbour on the track (the first or last block of a segment)
/// gets its shape from that neighbour alone, whichever side it is on: north-south
/// when the neighbour has the same x, east-west when it has another x but the same
/// z, and north-south when both differ.
pub proof fn law_end_rail_direction(c: (int, int), p: (int, int))
    ensures
        rail_direction_spec(c, Some(p), None) == rail_direction_spec(c, None, Some(p)),
        p.0 == c.0 ==> rail_direction_spec(c, Some(p), None) == Block::RailNorthSouth,
        p.0 != c.0 && p.1 == c.1 ==> rail_direction_spec(c, Some(p), None) == Block::RailEastWest,
        p.0 != c.0 && p.1 != c.1 ==> rail_direction_spec(c, Some(p), None) == Block::RailNorthSouth,
{
}

} // verus!
