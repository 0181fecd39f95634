//! Bridges: a deck raised above the highest ground under the way, with railings
//! on both sides and stone pillars at regular intervals.
use vstd::prelude::*;
use crate::blocks::{at, Block, Placement};
use crate::bresenham::{bresenham_line, line_points};
use crate::elevation::{
    elevation_fits,
    elevation_spec,
    has_bridge,
    has_bridge_tag,
    infer_structure_elevation,
    levels_fit,
    max_int,
    StructureHeights,
};
use crate::way::{ProcessedNode, ProcessedWay};

verus! {

/// Clearance of a bridge that gives no height, in blocks.
pub const DEFAULT_BRIDGE_CLEARANCE: i32 = 5;

/// Width of a walkway that gives no width, in blocks.
pub const DEFAULT_WALKWAY_WIDTH: i32 = 4;

/// The blocks of the line from node `i` to node `i + 1`, at height 0.
pub open spec fn segment(nodes: Seq<ProcessedNode>, i: int) -> Seq<(i32, i32, i32)> {
    line_points(nodes[i].x as int, 0, nodes[i].z as int, nodes[i + 1].x as int, 0, nodes[i + 1].z as int)
}

/// `acc` with `p` added, unless `p` is already its last point.
pub open spec fn push_distinct(acc: Seq<(i32, i32, i32)>, p: (i32, i32, i32)) -> Seq<
    (i32, i32, i32),
> {
    if acc.len() > 0 && acc.last() == p {
        acc
    } else {
        acc.push(p)
    }
}

/// `acc` followed by the points of `pts`, each unless it repeats the point before it.
pub open spec fn append_distinct(acc: Seq<(i32, i32, i32)>, pts: Seq<(i32, i32, i32)>) -> Seq<
    (i32, i32, i32),
>
    decreases pts.len(),
{
    if pts.len() == 0 {
        acc
    } else {
        push_distinct(append_distinct(acc, pts.drop_last()), pts.last())
    }
}

/// The points of the first `k` segments, joined without repeating a point.
pub open spec fn joined_segments(nodes: Seq<ProcessedNode>, k: int) -> Seq<(i32, i32, i32)>
    decreases k,
{
    if k <= 0 {
        Seq::empty()
    } else {
        append_distinct(joined_segments(nodes, k - 1), segment(nodes, k - 1))
    }
}

/// The path of a bridge: the lines between consecutive nodes, joined.
pub open spec fn bridge_points_spec(nodes: Seq<ProcessedNode>) -> Seq<(i32, i32, i32)> {
    if nodes.len() < 2 {
        Seq::empty()
    } else {
        joined_segments(nodes, nodes.len() - 1)
    }
}

fn same_point(a: (i32, i32, i32), b: (i32, i32, i32)) -> (res: bool)
    ensures
        res == (a == b),
{
    a.0 == b.0 && a.1 == b.1 && a.2 == b.2
}

/// The blocks of the bridge path of `way`, in order, each once in a row.
pub fn bridge_points(way: &ProcessedWay) -> (res: Vec<(i32, i32, i32)>)
    ensures
        res@ == bridge_points_spec(way.nodes@),
{
    let nodes = &way.nodes;
    let mut pts: Vec<(i32, i32, i32)> = Vec::new();
    if nodes.len() < 2 {
        return pts;
    }
    let mut k: usize = 0;
    while k < nodes.len() - 1
        invariant
            nodes@.len() >= 2,
            k + 1 <= nodes@.len(),
            pts@ == joined_segments(nodes@, k as int),
        decreases nodes@.len() - k,
    {
        let start = nodes[k];
        let end = nodes[k + 1];
        let seg = bresenham_line(start.x, 0, start.z, end.x, 0, end.z);
        assert(seg@ == segment(nodes@, k as int));
        let mut j: usize = 0;
        while j < seg.len()
            invariant
                pts@ == append_distinct(joined_segments(nodes@, k as int), seg@.take(j as int)),
                j <= seg@.len(),
            decreases seg@.len() - j,
        {
            let point = seg[j];
            let ghost before = pts@;
            if pts.len() == 0 || !same_point(pts[pts.len() - 1], point) {
                pts.push(point);
            }
            assert(seg@.take(j + 1).drop_last() =~= seg@.take(j as int));
            assert(pts@ == push_distinct(before, point));
            j = j + 1;
        }
        assert(seg@.take(seg@.len() as int) =~= seg@);
        k = k + 1;
    }
    pts
}

/// `Seq::new(n + 1, f)` flattened is `Seq::new(n, f)` flattened, then `f(n)`.
pub proof fn lemma_flatten_new_step(n: int, f: spec_fn(int) -> Seq<Placement>)
    requires
        n >= 0,
    ensures
        Seq::new((n + 1) as nat, f).flatten() == Seq::new(n as nat, f).flatten() + f(n),
{
    assert(Seq::new((n + 1) as nat, f) =~= Seq::new(n as nat, f).push(f(n)));
    Seq::new(n as nat, f).lemma_flatten_push(f(n));
}

pub proof fn lemma_flatten_new_empty(f: spec_fn(int) -> Seq<Placement>)
    ensures
        Seq::new(0, f).flatten() == Seq::<Placement>::empty(),
{
    assert(Seq::new(0, f) =~= Seq::<Seq<Placement>>::empty());
}

/// What a part of a sequence of sequences holds, its flattening holds.
pub proof fn lemma_flatten_contains<A>(ss: Seq<Seq<A>>, i: int, x: A)
    requires
        0 <= i < ss.len(),
        ss[i].contains(x),
    ensures
        ss.flatten().contains(x),
    decreases ss.len(),
{
    let rest = ss.drop_first().flatten();
    assert(ss.flatten() == ss.first() + rest);
    if i == 0 {
        let j = choose|j: int| 0 <= j < ss[0].len() && ss[0][j] == x;
        assert((ss.first() + rest)[j] == x);
    } else {
        assert(ss.drop_first()[i - 1] == ss[i]);
        lemma_flatten_contains(ss.drop_first(), i - 1, x);
        let j = choose|j: int| 0 <= j < rest.len() && rest[j] == x;
        assert((ss.first() + rest)[ss.first().len() + j] == x);
    }
}

/// What the flattening of a sequence of sequences holds, one of its parts holds.
pub proof fn lemma_flatten_contains_inv<A>(ss: Seq<Seq<A>>, x: A)
    requires
        ss.flatten().contains(x),
    ensures
        exists|i: int| 0 <= i < ss.len() && (#[trigger] ss[i]).contains(x),
    decreases ss.len(),
{
    if ss.len() == 0 {
        assert(ss.flatten() =~= Seq::<A>::empty());
    } else {
        let rest = ss.drop_first().flatten();
        assert(ss.flatten() == ss.first() + rest);
        let j = choose|j: int| 0 <= j < ss.flatten().len() && ss.flatten()[j] == x;
        if j < ss.first().len() {
            assert(ss[0][j] == x);
            assert(ss[0].contains(x));
        } else {
            assert(rest[j - ss.first().len()] == x);
            lemma_flatten_contains_inv(ss.drop_first(), x);
            let i = choose|i: int| 0 <= i < ss.drop_first().len() && (#[trigger] ss.drop_first()[i]).contains(x);
            assert(ss[i + 1] == ss.drop_first()[i]);
        }
    }
}

/// The largest ground level, `i32::MIN` when there is none.
pub open spec fn max_ground(g: Seq<i32>) -> int
    decreases g.len(),
{
    if g.len() == 0 {
        i32::MIN as int
    } else {
        max_int(max_ground(g.drop_last()), g.last() as int)
    }
}

/// Every ground level is at most the highest, which is one of them (or `i32::MIN`).
pub proof fn lemma_max_ground(g: Seq<i32>)
    ensures
        forall|i: int| 0 <= i < g.len() ==> (#[trigger] g[i]) <= max_ground(g),
        max_ground(g) == i32::MIN || exists|i: int| 0 <= i < g.len() && g[i] == max_ground(g),
    decreases g.len(),
{
    if g.len() > 0 {
        lemma_max_ground(g.drop_last());
        assert forall|i: int| 0 <= i < g.len() implies (#[trigger] g[i]) <= max_ground(g) by {
            if i < g.len() - 1 {
                assert(g[i] == g.drop_last()[i]);
            }
        }
        if max_ground(g) != i32::MIN && max_ground(g) != g.last() {
            let i = choose|i: int| 0 <= i < g.drop_last().len() && g.drop_last()[i] == max_ground(g.drop_last());
            assert(g[i] == g.drop_last()[i]);
        }
    }
}

/// Half the walkway's width: half the scaled `bridge:width` (or `width`), at least 2;
/// 2 when the way gives no width.
pub open spec fn half_width_spec(scaled_width: Option<i32>) -> int {
    match scaled_width {
        Some(v) => max_int(v as int / 2, 2),
        None => DEFAULT_WALKWAY_WIDTH / 2,
    }
}

/// The distance between pillars, in path blocks: the rounded scaled interval, kept within 2..=8.
pub open spec fn support_interval_spec(rounded: i32) -> int {
    if rounded < 2 {
        2
    } else if rounded > 8 {
        8
    } else {
        rounded as int
    }
}

/// The walkway's half width from its scaled width (`None` when the way gives none).
pub fn derive_half_width(scaled_width: Option<i32>) -> (res: i32)
    ensures
        res == half_width_spec(scaled_width),
        2 <= res,
{
    match scaled_width {
        Some(v) => {
            if v >= 4 {
                v / 2
            } else {
                2
            }
        },
        None => DEFAULT_WALKWAY_WIDTH / 2,
    }
}

/// The distance between pillars, from the rounded scaled interval.
pub fn derive_support_interval(rounded: i32) -> (res: usize)
    ensures
        res == support_interval_spec(rounded),
        2 <= res <= 8,
{
    if rounded < 2 {
        2
    } else if rounded > 8 {
        8
    } else {
        rounded as usize
    }
}

/// One column of the deck, `dx` blocks across from the path: concrete on top, and
/// stone bricks under it unless the deck lies on the ground.
pub open spec fn deck_cell(x: int, z: int, deck_y: int, gl: int, dx: int) -> Seq<Placement> {
    if deck_y > gl {
        seq![at(Block::LightGrayConcrete, x + dx, deck_y, z), at(Block::StoneBricks, x + dx, deck_y - 1, z)]
    } else {
        seq![at(Block::LightGrayConcrete, x + dx, deck_y, z)]
    }
}

/// The deck across the path at `(x, z)`, from `x - w` to `x + w`.
pub open spec fn deck_row(x: int, z: int, deck_y: int, gl: int, w: int) -> Seq<Placement> {
    Seq::new((2 * w + 1) as nat, |k: int| deck_cell(x, z, deck_y, gl, k - w)).flatten()
}

/// The two railings, on the deck's edges.
pub open spec fn railings(x: int, z: int, deck_y: int, w: int) -> Seq<Placement> {
    seq![
        at(Block::StoneBrickWall, x - w, deck_y + 1, z),
        at(Block::StoneBrickWall, x + w, deck_y + 1, z),
    ]
}

/// A pillar from just above the ground up to just below the deck.
pub open spec fn pillar(x: int, z: int, gl: int, deck_y: int) -> Seq<Placement> {
    Seq::new((deck_y - gl - 1) as nat, |k: int| at(Block::StoneBricks, x, gl + 1 + k, z))
}

/// Whether the path block `p` lies under a node of the way.
pub open spec fn node_column(nodes: Seq<ProcessedNode>, p: (i32, i32, i32)) -> bool {
    exists|k: int| 0 <= k < nodes.len() && (#[trigger] nodes[k]).x == p.0 && nodes[k].z == p.2
}

/// Everything built at path block `idx`: deck, railings, and, where the deck is
/// more than one block above the ground, a pillar under every node of the way
/// (`at_node`) and at every `interval`-th block.
pub open spec fn bridge_column(
    p: (i32, i32, i32),
    gl: int,
    idx: int,
    deck_y: int,
    w: int,
    interval: int,
    at_node: bool,
) -> Seq<Placement> {
    deck_row(p.0 as int, p.2 as int, deck_y, gl, w) + railings(p.0 as int, p.2 as int, deck_y, w) + (
    if deck_y - gl > 1 && (at_node || idx % interval == 0) {
        pillar(p.0 as int, p.2 as int, gl, deck_y)
    } else {
        Seq::empty()
    })
}

/// The height of the deck above the highest ground: the structure's elevation, at least 1.
pub open spec fn bridge_clearance(tags: Map<Seq<char>, Seq<char>>, heights: StructureHeights) -> int {
    max_int(elevation_spec(tags, DEFAULT_BRIDGE_CLEARANCE, heights), 1)
}

/// The height of the deck: the highest ground under the path plus the clearance.
pub open spec fn bridge_deck_y(
    tags: Map<Seq<char>, Seq<char>>,
    heights: StructureHeights,
    ground: Seq<i32>,
) -> int {
    max_ground(ground) + bridge_clearance(tags, heights)
}

/// Whether a bridge is built: the way has two nodes or more, a bridge tag, and ground under it.
pub open spec fn bridge_active(
    nodes: Seq<ProcessedNode>,
    tags: Map<Seq<char>, Seq<char>>,
    ground: Seq<i32>,
) -> bool {
    &&& nodes.len() >= 2
    &&& has_bridge_tag(tags)
    &&& bridge_points_spec(nodes).len() > 0
    &&& max_ground(ground) != i32::MIN
}

/// The blocks of a bridge over the path `bridge_points_spec(nodes)`, whose blocks have
/// the ground levels `ground`, in the order in which they are set.
pub open spec fn bridge_plan(
    nodes: Seq<ProcessedNode>,
    tags: Map<Seq<char>, Seq<char>>,
    heights: StructureHeights,
    ground: Seq<i32>,
    scaled_width: Option<i32>,
    rounded_interval: i32,
) -> Seq<Placement> {
    if !bridge_active(nodes, tags, ground) {
        Seq::empty()
    } else {
        let pts = bridge_points_spec(nodes);
        let deck_y = bridge_deck_y(tags, heights, ground);
        let w = half_width_spec(scaled_width) + 1;
        let interval = support_interval_spec(rounded_interval);
        Seq::new(
            pts.len(),
            |i: int|
                bridge_column(
                    pts[i],
                    ground[i] as int,
                    i,
                    deck_y,
                    w,
                    interval,
                    node_column(nodes, pts[i]),
                ),
        ).flatten()
    }
}

/// Whether every height and position of the bridge fits in an `i32`.
pub open spec fn bridge_fits(
    nodes: Seq<ProcessedNode>,
    tags: Map<Seq<char>, Seq<char>>,
    heights: StructureHeights,
    ground: Seq<i32>,
    scaled_width: Option<i32>,
) -> bool {
    bridge_active(nodes, tags, ground) ==> {
        let pts = bridge_points_spec(nodes);
        let deck_y = bridge_deck_y(tags, heights, ground);
        let w = half_width_spec(scaled_width) + 1;
        &&& levels_fit(tags)
        &&& deck_y + 1 <= i32::MAX
        &&& w <= i32::MAX
        &&& forall|i: int|
            0 <= i < pts.len() ==> {
                &&& (#[trigger] pts[i]).0 - w >= i32::MIN
                &&& pts[i].0 + w <= i32::MAX
                &&& deck_y - ground[i] <= i32::MAX
            }
    }
}

fn push_deck_row(out: &mut Vec<Placement>, x: i32, z: i32, deck_y: i32, gl: i32, w: i32)
    requires
        0 <= w,
        x - w >= i32::MIN,
        x + w <= i32::MAX,
    ensures
        final(out)@ == old(out)@ + deck_row(x as int, z as int, deck_y as int, gl as int, w as int),
{
    let ghost f = |k: int| deck_cell(x as int, z as int, deck_y as int, gl as int, k - w);
    let ghost start = out@;
    proof {
        lemma_flatten_new_empty(f);
    }
    let mut dx: i64 = -(w as i64);
    while dx <= w as i64
        invariant
            0 <= w,
            x - w >= i32::MIN,
            x + w <= i32::MAX,
            -w <= dx <= w + 1,
            f == (|k: int| deck_cell(x as int, z as int, deck_y as int, gl as int, k - w)),
            out@ == start + Seq::new((dx + w) as nat, f).flatten(),
        decreases w + 1 - dx,
    {
        let cx = (x as i64 + dx) as i32;
        out.push(Placement { block: Block::LightGrayConcrete, x: cx, y: deck_y, z, above_ground: false });
        if deck_y > gl {
            out.push(Placement { block: Block::StoneBricks, x: cx, y: deck_y - 1, z, above_ground: false });
        }
        proof {
            lemma_flatten_new_step((dx + w) as int, f);
            assert(f((dx + w) as int) == deck_cell(x as int, z as int, deck_y as int, gl as int, dx as int));
        }
        assert(out@ =~= start + Seq::new((dx + w + 1) as nat, f).flatten());
        dx = dx + 1;
    }
}

/// Whether some node of `nodes` stands at column `(x, z)`.
fn is_node_column(nodes: &Vec<ProcessedNode>, x: i32, z: i32) -> (res: bool)
    ensures
        res == node_column(nodes@, (x, 0i32, z)),
{
    let mut k: usize = 0;
    while k < nodes.len()
        invariant
            k <= nodes@.len(),
            forall|j: int| 0 <= j < k ==> !((#[trigger] nodes@[j]).x == x && nodes@[j].z == z),
        decreases nodes@.len() - k,
    {
        if nodes[k].x == x && nodes[k].z == z {
            return true;
        }
        k = k + 1;
    }
    false
}

/// Appends a stone pillar at column `(x, z)` from `gl + 1` up to `top - 1`.
pub(crate) fn push_pillar(out: &mut Vec<Placement>, x: i32, z: i32, gl: i32, top: i32)
    requires
        gl < top,
    ensures
        final(out)@ == old(out)@ + pillar(x as int, z as int, gl as int, top as int),
{
    let ghost start = out@;
    let mut y: i32 = gl + 1;
    while y < top
        invariant
            gl < top,
            gl + 1 <= y <= top,
            out@ == start + pillar(x as int, z as int, gl as int, y as int),
        decreases top - y,
    {
        out.push(Placement { block: Block::StoneBricks, x, y, z, above_ground: false });
        assert(out@ =~= start + pillar(x as int, z as int, gl as int, y + 1));
        y = y + 1;
    }
}

/// The highest of the ground levels, `i32::MIN` for none.
fn highest_ground(ground: &Vec<i32>) -> (res: i32)
    ensures
        res == max_ground(ground@),
{
    let mut best: i32 = i32::MIN;
    let mut i: usize = 0;
    while i < ground.len()
        invariant
            i <= ground@.len(),
            best == max_ground(ground@.take(i as int)),
        decreases ground@.len() - i,
    {
        assert(ground@.take(i + 1).drop_last() =~= ground@.take(i as int));
        if ground[i] > best {
            best = ground[i];
        }
        i = i + 1;
    }
    assert(ground@.take(ground@.len() as int) =~= ground@);
    best
}

/// The blocks of the bridge that `way` carries, in the order in which they are set.
///
/// `ground` gives the ground level under each block of `bridge_points(way)`;
/// `heights` the rounded bridge height tags of the way; `scaled_width` its
/// `bridge:width` (or `width`) times the world scale, when it gives one; and
/// `rounded_interval` the pillar spacing for the world scale. Nothing is built
/// for a way of fewer than two nodes, without a bridge tag, or without ground.
pub fn generate_bridges(
    way: &ProcessedWay,
    heights: StructureHeights,
    ground: &Vec<i32>,
    scaled_width: Option<i32>,
    rounded_interval: i32,
) -> (res: Vec<Placement>)
    requires
        ground@.len() == bridge_points_spec(way.nodes@).len(),
        bridge_fits(way.nodes@, way.tags@, heights, ground@, scaled_width),
    ensures
        res@ == bridge_plan(
            way.nodes@,
            way.tags@,
            heights,
            ground@,
            scaled_width,
            rounded_interval,
        ),
{
    let mut out: Vec<Placement> = Vec::new();
    if way.nodes.len() < 2 {
        return out;
    }
    if !has_bridge(&way.tags) {
        return out;
    }
    let pts = bridge_points(way);
    if pts.len() == 0 {
        return out;
    }
    let max_g = highest_ground(ground);
    if max_g == i32::MIN {
        return out;
    }
    let elevation = infer_structure_elevation(&way.tags, DEFAULT_BRIDGE_CLEARANCE, heights);
    let clearance = if elevation > 1 {
        elevation
    } else {
        1
    };
    let deck_y = max_g + clearance;
    let w = derive_half_width(scaled_width) + 1;
    let interval = derive_support_interval(rounded_interval);
    let ghost colf = |i: int|
        bridge_column(
            pts@[i],
            ground@[i] as int,
            i,
            deck_y as int,
            w as int,
            interval as int,
            node_column(way.nodes@, pts@[i]),
        );
    proof {
        lemma_flatten_new_empty(colf);
    }
    let mut idx: usize = 0;
    while idx < pts.len()
        invariant
            pts@ == bridge_points_spec(way.nodes@),
            ground@.len() == pts@.len(),
            bridge_active(way.nodes@, way.tags@, ground@),
            bridge_fits(way.nodes@, way.tags@, heights, ground@, scaled_width),
            deck_y == bridge_deck_y(way.tags@, heights, ground@),
            w == half_width_spec(scaled_width) + 1,
            w >= 3,
            2 <= interval <= 8,
            colf == (|i: int|
                bridge_column(
                    pts@[i],
                    ground@[i] as int,
                    i,
                    deck_y as int,
                    w as int,
                    interval as int,
                    node_column(way.nodes@, pts@[i]),
                )),
            idx <= pts@.len(),
            out@ == Seq::new(idx as nat, colf).flatten(),
        decreases pts@.len() - idx,
    {
        let (x, _, z) = pts[idx];
        let gl = ground[idx];
        assert(pts@[idx as int].0 - w >= i32::MIN);
        let ghost before = out@;
        proof {
            lemma_max_ground(ground@);
            assert(ground@[idx as int] <= max_ground(ground@));
        }
        push_deck_row(&mut out, x, z, deck_y, gl, w);
        out.push(Placement { block: Block::StoneBrickWall, x: x - w, y: deck_y + 1, z, above_ground: false });
        out.push(Placement { block: Block::StoneBrickWall, x: x + w, y: deck_y + 1, z, above_ground: false });
        let ghost mid = out@;
        let under_node = is_node_column(&way.nodes, x, z);
        if deck_y - gl > 1 && (under_node || idx % interval == 0) {
            push_pillar(&mut out, x, z, gl, deck_y);
        }
        proof {
            lemma_flatten_new_step(idx as int, colf);
            assert(mid =~= before + deck_row(x as int, z as int, deck_y as int, gl as int, w as int)
                + railings(x as int, z as int, deck_y as int, w as int));
            if !(deck_y - gl > 1 && (under_node || idx % interval == 0)) {
                assert(out@ =~= mid + Seq::<Placement>::empty());
            }
            assert(out@ =~= before + colf(idx as int));
        }
        idx = idx + 1;
    }
    out
}

/// Whether `generate_bridges` can be asked for this way: `ground` has one level per
/// block of `bridge_points(way)`, and every height and position of the bridge fits
/// in an `i32`.
pub fn can_generate_bridges(
    way: &ProcessedWay,
    heights: StructureHeights,
    ground: &Vec<i32>,
    scaled_width: Option<i32>,
) -> (res: bool)
    ensures
        res == (ground@.len() == bridge_points_spec(way.nodes@).len() && bridge_fits(
            way.nodes@,
            way.tags@,
            heights,
            ground@,
            scaled_width,
        )),
{
    let pts = bridge_points(way);
    if ground.len() != pts.len() {
        return false;
    }
    let max_g = highest_ground(ground);
    if way.nodes.len() < 2 || !has_bridge(&way.tags) || pts.len() == 0 || max_g == i32::MIN {
        return true;
    }
    if !elevation_fits(&way.tags) {
        return false;
    }
    let elevation = infer_structure_elevation(&way.tags, DEFAULT_BRIDGE_CLEARANCE, heights);
    let clearance: i64 = if elevation > 1 {
        elevation as i64
    } else {
        1
    };
    let deck_y: i64 = max_g as i64 + clearance;
    let w: i64 = derive_half_width(scaled_width) as i64 + 1;
    if deck_y + 1 > i32::MAX as i64 || w > i32::MAX as i64 {
        return false;
    }
    let mut i: usize = 0;
    while i < pts.len()
        invariant
            pts@ == bridge_points_spec(way.nodes@),
            ground@.len() == pts@.len(),
            deck_y == bridge_deck_y(way.tags@, heights, ground@),
            w == half_width_spec(scaled_width) + 1,
            w <= i32::MAX,
            deck_y + 1 <= i32::MAX,
            bridge_active(way.nodes@, way.tags@, ground@),
            levels_fit(way.tags@),
            i <= pts@.len(),
            forall|j: int|
                0 <= j < i ==> {
                    &&& (#[trigger] pts@[j]).0 - w >= i32::MIN
                    &&& pts@[j].0 + w <= i32::MAX
                    &&& deck_y - ground@[j] <= i32::MAX
                },
        decreases pts@.len() - i,
    {
        let x = pts[i].0 as i64;
        if x - w < i32::MIN as i64 || x + w > i32::MAX as i64 || deck_y - ground[i] as i64
            > i32::MAX as i64 {
            assert(!((pts@[i as int]).0 - w >= i32::MIN && pts@[i as int].0 + w <= i32::MAX && deck_y
                - ground@[i as int] <= i32::MAX));
            return false;
        }
        i = i + 1;
    }
    true
}

/// The deck of a bridge lies above the ground under every block of its path, at
/// least the structure's elevation above the highest of them.
pub proof fn law_deck_above_ground(
    nodes: Seq<ProcessedNode>,
    tags: Map<Seq<char>, Seq<char>>,
    heights: StructureHeights,
    ground: Seq<i32>,
    i: int,
)
    requires
        0 <= i < ground.len(),
    ensures
        bridge_deck_y(tags, heights, ground) > ground[i],
        bridge_deck_y(tags, heights, ground) >= max_ground(ground) + elevation_spec(
            tags,
            DEFAULT_BRIDGE_CLEARANCE,
            heights,
        ),
{
    lemma_max_ground(ground);
}

/// A bridge stands on full stone pillars: under every path block whose position
/// in the path (counted from its first block) is a multiple of the pillar spacing,
/// and under every block that lies below a node of the way, wherever the deck is
/// more than one block above the ground, there are stone bricks at each height
/// from just above the ground up to just below the deck, whatever the block's
/// coordinates.
pub proof fn law_bridge_pillars(
    nodes: Seq<ProcessedNode>,
    tags: Map<Seq<char>, Seq<char>>,
    heights: StructureHeights,
    ground: Seq<i32>,
    scaled_width: Option<i32>,
    rounded_interval: i32,
    i: int,
    k: int,
    y: int,
)
    requires
        bridge_active(nodes, tags, ground),
        ground.len() == bridge_points_spec(nodes).len(),
        0 <= i < ground.len(),
        i % support_interval_spec(rounded_interval) == 0 || (0 <= k < nodes.len() && nodes[k].x
            == bridge_points_spec(nodes)[i].0 && nodes[k].z == bridge_points_spec(nodes)[i].2),
        ground[i] < y < bridge_deck_y(tags, heights, ground),
    ensures
        bridge_plan(nodes, tags, heights, ground, scaled_width, rounded_interval).contains(
            at(
                Block::StoneBricks,
                bridge_points_spec(nodes)[i].0 as int,
                y,
                bridge_points_spec(nodes)[i].2 as int,
            ),
        ),
{
    let pts = bridge_points_spec(nodes);
    let deck_y = bridge_deck_y(tags, heights, ground);
    let w = half_width_spec(scaled_width) + 1;
    let interval = support_interval_spec(rounded_interval);
    let gl = ground[i] as int;
    let p = pts[i];
    let target = at(Block::StoneBricks, p.0 as int, y, p.2 as int);
    if !(i % interval == 0) {
        assert(node_column(nodes, p)) by {
            assert(nodes[k].x == p.0 && nodes[k].z == p.2);
        }
    }
    let at_node = node_column(nodes, p);
    let row = deck_row(p.0 as int, p.2 as int, deck_y, gl, w);
    let rail = railings(p.0 as int, p.2 as int, deck_y, w);
    let pil = pillar(p.0 as int, p.2 as int, gl, deck_y);
    let col = bridge_column(p, gl, i, deck_y, w, interval, at_node);
    assert(col == row + rail + pil);
    assert(pil[y - gl - 1] == target);
    assert(col[row.len() + rail.len() + (y - gl - 1)] == target);
    assert(col.contains(target));
    let f = |q: int| bridge_column(pts[q], ground[q] as int, q, deck_y, w, interval, node_column(nodes, pts[q]));
    assert(Seq::new(pts.len(), f)[i] == col);
    lemma_flatten_contains(Seq::new(pts.len(), f), i, target);
}

/// A bridge's deck and railings: over every block of its path, concrete at the
/// deck's height from `half_width + 1` blocks west to as many east of it, and a
/// railing one block above the deck at each of those two edges.
pub proof fn law_bridge_deck_and_railings(
    nodes: Seq<ProcessedNode>,
    tags: Map<Seq<char>, Seq<char>>,
    heights: StructureHeights,
    ground: Seq<i32>,
    scaled_width: Option<i32>,
    rounded_interval: i32,
    i: int,
    dx: int,
)
    requires
        bridge_active(nodes, tags, ground),
        ground.len() == bridge_points_spec(nodes).len(),
        0 <= i < ground.len(),
        -(half_width_spec(scaled_width) + 1) <= dx <= half_width_spec(scaled_width) + 1,
    ensures
        ({
            let plan = bridge_plan(nodes, tags, heights, ground, scaled_width, rounded_interval);
            let p = bridge_points_spec(nodes)[i];
            let deck_y = bridge_deck_y(tags, heights, ground);
            let w = half_width_spec(scaled_width) + 1;
            &&& plan.contains(at(Block::LightGrayConcrete, p.0 + dx, deck_y, p.2 as int))
            &&& plan.contains(at(Block::StoneBrickWall, p.0 - w, deck_y + 1, p.2 as int))
            &&& plan.contains(at(Block::StoneBrickWall, p.0 + w, deck_y + 1, p.2 as int))
        }),
{
    let pts = bridge_points_spec(nodes);
    let deck_y = bridge_deck_y(tags, heights, ground);
    let w = half_width_spec(scaled_width) + 1;
    let interval = support_interval_spec(rounded_interval);
    let gl = ground[i] as int;
    let p = pts[i];
    let x = p.0 as int;
    let z = p.2 as int;
    let concrete = at(Block::LightGrayConcrete, x + dx, deck_y, z);
    let wall_w = at(Block::StoneBrickWall, x - w, deck_y + 1, z);
    let wall_e = at(Block::StoneBrickWall, x + w, deck_y + 1, z);
    let cellf = |k: int| deck_cell(x, z, deck_y, gl, k - w);
    assert(deck_row(x, z, deck_y, gl, w) == Seq::new((2 * w + 1) as nat, cellf).flatten());
    assert(Seq::new((2 * w + 1) as nat, cellf)[dx + w] == deck_cell(x, z, deck_y, gl, dx));
    assert(deck_cell(x, z, deck_y, gl, dx)[0] == concrete);
    lemma_flatten_contains(Seq::new((2 * w + 1) as nat, cellf), dx + w, concrete);
    let row = deck_row(x, z, deck_y, gl, w);
    let rail = railings(x, z, deck_y, w);
    let col = bridge_column(p, gl, i, deck_y, w, interval, node_column(nodes, p));
    let rest: Seq<Placement> = if deck_y - gl > 1 && (node_column(nodes, p) || i % interval == 0) {
        pillar(x, z, gl, deck_y)
    } else {
        Seq::empty()
    };
    assert(col == row + rail + rest);
    let m = choose|m: int| 0 <= m < row.len() && row[m] == concrete;
    assert(col[m] == concrete);
    assert(col[row.len() as int] == wall_w);
    assert(col[row.len() + 1int] == wall_e);
    let f = |q: int| bridge_column(pts[q], ground[q] as int, q, deck_y, w, interval, node_column(nodes, pts[q]));
    assert(Seq::new(pts.len(), f)[i] == col);
    lemma_flatten_contains(Seq::new(pts.len(), f), i, concrete);
    lemma_flatten_contains(Seq::new(pts.len(), f), i, wall_w);
    lemma_flatten_contains(Seq::new(pts.len(), f), i, wall_e);
}

} // verus!
