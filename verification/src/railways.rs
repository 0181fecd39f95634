//! Railways and roller coasters: tracks laid along a way, with rails shaped to
//! follow the path, raised on stone or iron supports where the way is elevated.
use vstd::prelude::*;
use crate::blocks::{above, at, Block, Placement};
use crate::bresenham::{bresenham_line, law_line_ends, line_points, line_spec};
use crate::bridges::{
    lemma_flatten_contains,
    lemma_flatten_contains_inv,
    lemma_flatten_new_empty,
    lemma_flatten_new_step,
    pillar,
    push_pillar,
};
use crate::elevation::{
    elevation_fits,
    elevation_spec,
    infer_structure_elevation,
    levels_fit,
    tag_as_i32,
    tag_i32,
    tag_value,
    StructureHeights,
};
use crate::rails::{
    determine_rail_direction,
    rail_direction_spec,
    law_smooth_keeps_ends,
    law_smooth_no_diagonal,
    diagonal,
    smooth_diagonal_rails,
    smooth_spec,
};
use crate::text::same_text;
use crate::way::{ProcessedNode, ProcessedWay};

verus! {

/// Height of a railway above the ground when the way gives no height, in blocks.
pub const DEFAULT_RAILWAY_CLEARANCE: i32 = 4;

/// The track between node `i` and node `i + 1`: the line between them, with a
/// corner block in every diagonal step.
pub open spec fn track_segment(nodes: Seq<ProcessedNode>, i: int) -> Seq<(i32, i32, i32)> {
    smooth_spec(
        line_points(nodes[i].x as int, 0, nodes[i].z as int, nodes[i + 1].x as int, 0, nodes[i + 1].z as int),
    )
}

/// The number of track segments: one between each two consecutive nodes.
pub open spec fn segment_count(nodes: Seq<ProcessedNode>) -> int {
    if nodes.len() < 2 {
        0
    } else {
        nodes.len() - 1
    }
}

/// The track of a way, segment by segment.
pub open spec fn track_spec(nodes: Seq<ProcessedNode>) -> Seq<Seq<(i32, i32, i32)>> {
    Seq::new(segment_count(nodes) as nat, |i: int| track_segment(nodes, i))
}

pub open spec fn xz(p: (i32, i32, i32)) -> (int, int) {
    (p.0 as int, p.2 as int)
}

/// The shape of the rail at block `j` of a track segment, from the blocks before and after it.
pub open spec fn cell_rail(s: Seq<(i32, i32, i32)>, j: int) -> Block {
    rail_direction_spec(
        xz(s[j]),
        if j > 0 {
            Some(xz(s[j - 1]))
        } else {
            None
        },
        if j + 1 < s.len() {
            Some(xz(s[j + 1]))
        } else {
            None
        },
    )
}

/// The track of `way`, segment by segment.
pub fn railway_track(way: &ProcessedWay) -> (res: Vec<Vec<(i32, i32, i32)>>)
    ensures
        res@.len() == segment_count(way.nodes@),
        forall|i: int| 0 <= i < res@.len() ==> (#[trigger] res@[i])@ == track_segment(way.nodes@, i),
{
    let nodes = &way.nodes;
    let mut track: Vec<Vec<(i32, i32, i32)>> = Vec::new();
    if nodes.len() < 2 {
        return track;
    }
    let mut i: usize = 1;
    while i < nodes.len()
        invariant
            nodes@.len() >= 2,
            1 <= i <= nodes@.len(),
            track@.len() == i - 1,
            forall|k: int| 0 <= k < track@.len() ==> (#[trigger] track@[k])@ == track_segment(nodes@, k),
        decreases nodes@.len() - i,
    {
        let prev = nodes[i - 1];
        let cur = nodes[i];
        let points = bresenham_line(prev.x, 0, prev.z, cur.x, 0, cur.z);
        let smoothed = smooth_diagonal_rails(points.as_slice());
        track.push(smoothed);
        i = i + 1;
    }
    track
}

fn rail_at(s: &Vec<(i32, i32, i32)>, j: usize) -> (res: Block)
    requires
        j < s@.len(),
    ensures
        res == cell_rail(s@, j as int),
{
    let (bx, _, bz) = s[j];
    let prev = if j > 0 {
        Some((s[j - 1].0, s[j - 1].2))
    } else {
        None
    };
    let next = if j < s.len() - 1 {
        Some((s[j + 1].0, s[j + 1].2))
    } else {
        None
    };
    determine_rail_direction((bx, bz), prev, next)
}

/// Railway types that get no track.
pub open spec fn excluded_railway(t: Seq<char>) -> bool {
    t == "proposed"@ || t == "abandoned"@ || t == "subway"@ || t == "construction"@ || t
        == "razed"@ || t == "turntable"@
}

/// Whether the value of `key` is `yes`.
pub open spec fn tag_is_yes(tags: Map<Seq<char>, Seq<char>>, key: Seq<char>) -> bool {
    tag_value(tags, key) == Some("yes"@)
}

/// Whether a railway track is laid: a `railway` tag of a type that is laid, and
/// neither `subway=yes` nor `tunnel=yes`.
pub open spec fn railway_active(tags: Map<Seq<char>, Seq<char>>) -> bool {
    match tag_value(tags, "railway"@) {
        Some(t) => !excluded_railway(t) && !tag_is_yes(tags, "subway"@) && !tag_is_yes(
            tags,
            "tunnel"@,
        ),
        None => false,
    }
}

/// Everything laid at block `j` of a railway segment whose ground level there is
/// `gl`, for a railway raised `offset` blocks: gravel ballast with the rail on it,
/// an oak sleeper at every fourth x, and, when raised, stone bricks under the
/// ballast (from two blocks up) and a stone pillar where `x + z` is a multiple of 8.
pub open spec fn rail_cell(s: Seq<(i32, i32, i32)>, j: int, gl: int, offset: int) -> Seq<
    Placement,
> {
    let bx = s[j].0 as int;
    let bz = s[j].2 as int;
    let ballast_y = gl + offset;
    seq![
        at(Block::Gravel, bx, ballast_y, bz),
        at(cell_rail(s, j), bx, ballast_y + 1, bz),
    ] + (if bx % 4 == 0 {
        seq![at(Block::OakLog, bx, ballast_y, bz)]
    } else {
        Seq::empty()
    }) + (if offset > 0 {
        (if offset > 1 {
            seq![at(Block::StoneBricks, bx, ballast_y - 1, bz)]
        } else {
            Seq::empty()
        }) + (if (bx + bz) % 8 == 0 && ballast_y - gl > 1 {
            pillar(bx, bz, gl, ballast_y)
        } else {
            Seq::empty()
        })
    } else {
        Seq::empty()
    })
}

/// The blocks of one railway segment, with the ground levels `g` under its blocks.
pub open spec fn rail_segment_plan(s: Seq<(i32, i32, i32)>, g: Seq<i32>, offset: int) -> Seq<
    Placement,
> {
    Seq::new(s.len(), |j: int| rail_cell(s, j, g[j] as int, offset)).flatten()
}

/// The blocks of the railway along `nodes`, in the order in which they are set;
/// `ground[k][j]` is the ground level under block `j` of track segment `k`.
pub open spec fn railway_plan(
    nodes: Seq<ProcessedNode>,
    tags: Map<Seq<char>, Seq<char>>,
    heights: StructureHeights,
    ground: Seq<Seq<i32>>,
) -> Seq<Placement> {
    if !railway_active(tags) {
        Seq::empty()
    } else {
        let offset = elevation_spec(tags, DEFAULT_RAILWAY_CLEARANCE, heights);
        let track = track_spec(nodes);
        Seq::new(
            track.len(),
            |k: int| rail_segment_plan(track[k], ground[k], offset),
        ).flatten()
    }
}

/// Whether `ground` has one level for each block of the track.
pub open spec fn ground_matches_track(nodes: Seq<ProcessedNode>, ground: Seq<Seq<i32>>) -> bool {
    &&& ground.len() == segment_count(nodes)
    &&& forall|k: int| 0 <= k < ground.len() ==> (#[trigger] ground[k]).len() == track_segment(nodes, k).len()
}

/// Whether every height of the railway fits in an `i32`.
pub open spec fn railway_fits(
    tags: Map<Seq<char>, Seq<char>>,
    heights: StructureHeights,
    ground: Seq<Seq<i32>>,
) -> bool {
    railway_active(tags) ==> {
        &&& levels_fit(tags)
        &&& forall|k: int, j: int|
            0 <= k < ground.len() && 0 <= j < ground[k].len() ==> #[trigger] ground[k][j]
                + elevation_spec(tags, DEFAULT_RAILWAY_CLEARANCE, heights) + 1 <= i32::MAX
    }
}

fn tag_is(tags: &crate::tags::Tags, key: &str, value: &str) -> (res: bool)
    ensures
        res == (tag_value(tags@, key@) == Some(value@)),
{
    match tags.get(key) {
        Some(v) => same_text(v.as_str(), value),
        None => false,
    }
}

/// Whether a railway track is laid for these tags.
pub fn is_railway_laid(tags: &crate::tags::Tags) -> (res: bool)
    ensures
        res == railway_active(tags@),
{
    match tags.get("railway") {
        Some(t) => {
            let t = t.as_str();
            if same_text(t, "proposed") || same_text(t, "abandoned") || same_text(t, "subway")
                || same_text(t, "construction") || same_text(t, "razed") || same_text(
                t,
                "turntable",
            ) {
                return false;
            }
            !tag_is(tags, "subway", "yes") && !tag_is(tags, "tunnel", "yes")
        },
        None => false,
    }
}

fn push_rail_cell(
    out: &mut Vec<Placement>,
    s: &Vec<(i32, i32, i32)>,
    j: usize,
    gl: i32,
    offset: i32,
)
    requires
        j < s@.len(),
        offset >= 0,
        gl + offset + 1 <= i32::MAX,
    ensures
        final(out)@ == old(out)@ + rail_cell(s@, j as int, gl as int, offset as int),
{
    let ghost start = out@;
    let (bx, _, bz) = s[j];
    let ballast_y = gl + offset;
    let rail_y = ballast_y + 1;
    out.push(Placement { block: Block::Gravel, x: bx, y: ballast_y, z: bz, above_ground: false });
    let rail_block = rail_at(s, j);
    out.push(Placement { block: rail_block, x: bx, y: rail_y, z: bz, above_ground: false });
    let ghost first = out@;
    if bx % 4 == 0 {
        out.push(Placement { block: Block::OakLog, x: bx, y: ballast_y, z: bz, above_ground: false });
    }
    let ghost second = out@;
    if offset > 0 {
        if offset > 1 {
            out.push(Placement { block: Block::StoneBricks, x: bx, y: ballast_y - 1, z: bz, above_ground: false });
        }
        let sum = bx as i64 + bz as i64;
        if sum % 8 == 0 && ballast_y - gl > 1 {
            push_pillar(out, bx, bz, gl, ballast_y);
        }
    }
    proof {
        let bxi = bx as int;
        let bzi = bz as int;
        assert(first =~= start + seq![
            at(Block::Gravel, bxi, ballast_y as int, bzi),
            at(cell_rail(s@, j as int), bxi, ballast_y + 1, bzi),
        ]);
        if bx % 4 == 0 {
            assert(second =~= first + seq![at(Block::OakLog, bxi, ballast_y as int, bzi)]);
        } else {
            assert(second =~= first + Seq::<Placement>::empty());
        }
        assert(out@ =~= start + rail_cell(s@, j as int, gl as int, offset as int));
    }
}


/// The levels of a ground table, segment by segment.
pub open spec fn ground_view(ground: Seq<Vec<i32>>) -> Seq<Seq<i32>> {
    Seq::new(ground.len(), |k: int| ground[k]@)
}

fn push_rail_segment(out: &mut Vec<Placement>, s: &Vec<(i32, i32, i32)>, g: &Vec<i32>, offset: i32)
    requires
        g@.len() == s@.len(),
        offset >= 0,
        forall|j: int| 0 <= j < g@.len() ==> #[trigger] g@[j] + offset + 1 <= i32::MAX,
    ensures
        final(out)@ == old(out)@ + rail_segment_plan(s@, g@, offset as int),
{
    let ghost start = out@;
    let ghost f = |j: int| rail_cell(s@, j, g@[j] as int, offset as int);
    proof {
        lemma_flatten_new_empty(f);
    }
    let mut j: usize = 0;
    while j < s.len()
        invariant
            g@.len() == s@.len(),
            offset >= 0,
            forall|q: int| 0 <= q < g@.len() ==> #[trigger] g@[q] + offset + 1 <= i32::MAX,
            f == (|j: int| rail_cell(s@, j, g@[j] as int, offset as int)),
            j <= s@.len(),
            out@ == start + Seq::new(j as nat, f).flatten(),
        decreases s@.len() - j,
    {
        assert(g@[j as int] + offset + 1 <= i32::MAX);
        push_rail_cell(out, s, j, g[j], offset);
        proof {
            lemma_flatten_new_step(j as int, f);
        }
        assert(out@ =~= start + Seq::new((j + 1) as nat, f).flatten());
        j = j + 1;
    }
}

/// The blocks of the railway that `way` carries, in the order in which they are set.
///
/// `heights` holds the way's rounded bridge height tags, and `ground[k][j]` the
/// ground level under block `j` of segment `k` of `railway_track(way)`. Nothing is
/// laid without a `railway` tag, for the types proposed, abandoned, subway,
/// construction, razed and turntable, or with `subway=yes` or `tunnel=yes`.
pub fn generate_railways(way: &ProcessedWay, heights: StructureHeights, ground: &Vec<Vec<i32>>) -> (res: Vec<Placement>)
    requires
        ground_matches_track(way.nodes@, ground_view(ground@)),
        railway_fits(way.tags@, heights, ground_view(ground@)),
    ensures
        res@ == railway_plan(way.nodes@, way.tags@, heights, ground_view(ground@)),
{
    let mut out: Vec<Placement> = Vec::new();
    if !is_railway_laid(&way.tags) {
        return out;
    }
    let offset = infer_structure_elevation(&way.tags, DEFAULT_RAILWAY_CLEARANCE, heights);
    let track = railway_track(way);
    let ghost gv = ground_view(ground@);
    let ghost tr = track_spec(way.nodes@);
    let ghost f = |k: int| rail_segment_plan(tr[k], gv[k], offset as int);
    assert(track@.len() == tr.len());
    proof {
        lemma_flatten_new_empty(f);
    }
    let mut k: usize = 0;
    while k < track.len()
        invariant
            track@.len() == tr.len(),
            tr == track_spec(way.nodes@),
            gv == ground_view(ground@),
            forall|i: int| 0 <= i < track@.len() ==> (#[trigger] track@[i])@ == tr[i],
            ground_matches_track(way.nodes@, gv),
            railway_active(way.tags@),
            railway_fits(way.tags@, heights, gv),
            offset == elevation_spec(way.tags@, DEFAULT_RAILWAY_CLEARANCE, heights),
            offset >= 0,
            f == (|k: int| rail_segment_plan(tr[k], gv[k], offset as int)),
            k <= track@.len(),
            out@ == Seq::new(k as nat, f).flatten(),
        decreases track@.len() - k,
    {
        assert(gv[k as int] == ground@[k as int]@);
        assert(gv[k as int].len() == tr[k as int].len());
        assert forall|j: int| 0 <= j < ground@[k as int]@.len() implies #[trigger] ground@[k as int]@[j]
            + offset + 1 <= i32::MAX by {
            assert(gv[k as int][j] == ground@[k as int]@[j]);
        }
        push_rail_segment(&mut out, &track[k], &ground[k], offset);
        proof {
            lemma_flatten_new_step(k as int, f);
        }
        assert(out@ =~= Seq::new((k + 1) as nat, f).flatten());
        k = k + 1;
    }
    assert(Seq::new(track@.len() as nat, f) =~= Seq::new(
        tr.len(),
        |k: int| rail_segment_plan(tr[k], gv[k], offset as int),
    ));
    out
}

/// Whether `generate_railways` can be asked for this way: `ground` has one level
/// per block of `railway_track(way)`, and every height fits in an `i32`.
pub fn can_generate_railways(way: &ProcessedWay, heights: StructureHeights, ground: &Vec<Vec<i32>>) -> (res: bool)
    ensures
        res == (ground_matches_track(way.nodes@, ground_view(ground@)) && railway_fits(
            way.tags@,
            heights,
            ground_view(ground@),
        )),
{
    let track = railway_track(way);
    let ghost gv = ground_view(ground@);
    if ground.len() != track.len() {
        return false;
    }
    let mut k: usize = 0;
    while k < track.len()
        invariant
            ground@.len() == track@.len(),
            track@.len() == segment_count(way.nodes@),
            forall|i: int| 0 <= i < track@.len() ==> (#[trigger] track@[i])@ == track_segment(way.nodes@, i),
            gv == ground_view(ground@),
            k <= track@.len(),
            forall|i: int| 0 <= i < k ==> (#[trigger] gv[i]).len() == track_segment(way.nodes@, i).len(),
        decreases track@.len() - k,
    {
        if ground[k].len() != track[k].len() {
            assert(gv[k as int].len() != track_segment(way.nodes@, k as int).len());
            return false;
        }
        k = k + 1;
    }
    assert(ground_matches_track(way.nodes@, gv));
    if !is_railway_laid(&way.tags) {
        return true;
    }
    if !elevation_fits(&way.tags) {
        return false;
    }
    let offset = infer_structure_elevation(&way.tags, DEFAULT_RAILWAY_CLEARANCE, heights) as i64;
    let mut k: usize = 0;
    while k < ground.len()
        invariant
            gv == ground_view(ground@),
            offset == elevation_spec(way.tags@, DEFAULT_RAILWAY_CLEARANCE, heights),
            0 <= offset <= i32::MAX,
            railway_active(way.tags@),
            ground_matches_track(way.nodes@, gv),
            k <= ground@.len(),
            forall|a: int, b: int|
                0 <= a < k && 0 <= b < gv[a].len() ==> #[trigger] gv[a][b] + offset + 1 <= i32::MAX,
        decreases ground@.len() - k,
    {
        let g = &ground[k];
        let mut j: usize = 0;
        while j < g.len()
            invariant
                gv == ground_view(ground@),
                offset == elevation_spec(way.tags@, DEFAULT_RAILWAY_CLEARANCE, heights),
                0 <= offset <= i32::MAX,
                railway_active(way.tags@),
                ground_matches_track(way.nodes@, gv),
                k < ground@.len(),
                g == ground@[k as int],
                j <= g@.len(),
                forall|a: int, b: int|
                    0 <= a < k && 0 <= b < gv[a].len() ==> #[trigger] gv[a][b] + offset + 1 <= i32::MAX,
                forall|b: int| 0 <= b < j ==> #[trigger] gv[k as int][b] + offset + 1 <= i32::MAX,
            decreases g@.len() - j,
        {
            if g[j] as i64 + offset + 1 > i32::MAX as i64 {
                assert(gv[k as int][j as int] == g@[j as int]);
                assert(!(gv[k as int][j as int] + offset + 1 <= i32::MAX));
                return false;
            }
            assert(gv[k as int][j as int] == g@[j as int]);
            j = j + 1;
        }
        assert forall|a: int, b: int| 0 <= a < k + 1 && 0 <= b < gv[a].len() implies #[trigger] gv[a][b]
            + offset + 1 <= i32::MAX by {
            if a == k {
                assert(gv[a][b] + offset + 1 <= i32::MAX);
            }
        }
        k = k + 1;
    }
    true
}

/// Whether a roller coaster track is laid: `roller_coaster=track`, not indoors,
/// and not on a negative layer.
pub open spec fn coaster_active(tags: Map<Seq<char>, Seq<char>>) -> bool {
    &&& tag_value(tags, "roller_coaster"@) == Some("track"@)
    &&& !tag_is_yes(tags, "indoor"@)
    &&& !(tag_i32(tags, "layer"@) matches Some(l) && l < 0)
}

/// Height of a roller coaster's iron foundation above the ground, in blocks.
pub const COASTER_HEIGHT: i32 = 4;

/// Distance between roller coaster pillars along x and z, in blocks.
pub const COASTER_PILLAR_INTERVAL: i32 = 6;

/// Everything laid at block `j` of a roller coaster segment, at heights above the
/// ground: an iron foundation four blocks up with the rail on it, and an iron
/// pillar beneath where x and z are both multiples of 6.
pub open spec fn coaster_cell(s: Seq<(i32, i32, i32)>, j: int) -> Seq<Placement> {
    let bx = s[j].0 as int;
    let bz = s[j].2 as int;
    seq![above(Block::IronBlock, bx, 4, bz), above(cell_rail(s, j), bx, 5, bz)] + (if bx % 6 == 0
        && bz % 6 == 0 {
        Seq::new(3, |k: int| above(Block::IronBlock, bx, 1 + k, bz))
    } else {
        Seq::empty()
    })
}

/// The blocks of the roller coaster along `nodes`, in the order in which they are set.
pub open spec fn coaster_plan(nodes: Seq<ProcessedNode>, tags: Map<Seq<char>, Seq<char>>) -> Seq<
    Placement,
> {
    if !coaster_active(tags) {
        Seq::empty()
    } else {
        let track = track_spec(nodes);
        Seq::new(
            track.len(),
            |k: int| Seq::new(track[k].len(), |j: int| coaster_cell(track[k], j)).flatten(),
        ).flatten()
    }
}

fn push_coaster_segment(out: &mut Vec<Placement>, s: &Vec<(i32, i32, i32)>)
    ensures
        final(out)@ == old(out)@ + Seq::new(s@.len(), |j: int| coaster_cell(s@, j)).flatten(),
{
    let ghost start = out@;
    let ghost f = |j: int| coaster_cell(s@, j);
    proof {
        lemma_flatten_new_empty(f);
    }
    let mut j: usize = 0;
    while j < s.len()
        invariant
            f == (|j: int| coaster_cell(s@, j)),
            j <= s@.len(),
            out@ == start + Seq::new(j as nat, f).flatten(),
        decreases s@.len() - j,
    {
        let ghost before = out@;
        let (bx, _, bz) = s[j];
        out.push(Placement { block: Block::IronBlock, x: bx, y: COASTER_HEIGHT, z: bz, above_ground: true });
        let rail_block = rail_at(s, j);
        out.push(Placement { block: rail_block, x: bx, y: COASTER_HEIGHT + 1, z: bz, above_ground: true });
        let ghost mid = out@;
        if bx % COASTER_PILLAR_INTERVAL == 0 && bz % COASTER_PILLAR_INTERVAL == 0 {
            let mut y: i32 = 1;
            while y < COASTER_HEIGHT
                invariant
                    1 <= y <= 4,
                    out@ == mid + Seq::new((y - 1) as nat, |k: int| above(Block::IronBlock, bx as int, 1 + k, bz as int)),
                decreases 4 - y,
            {
                out.push(Placement { block: Block::IronBlock, x: bx, y, z: bz, above_ground: true });
                assert(out@ =~= mid + Seq::new(y as nat, |k: int| above(Block::IronBlock, bx as int, 1 + k, bz as int)));
                y = y + 1;
            }
        }
        proof {
            lemma_flatten_new_step(j as int, f);
            if !(bx % 6 == 0 && bz % 6 == 0) {
                assert(out@ =~= mid + Seq::<Placement>::empty());
            }
            assert(out@ =~= before + f(j as int));
        }
        assert(out@ =~= start + Seq::new((j + 1) as nat, f).flatten());
        j = j + 1;
    }
}

/// The blocks of the roller coaster that `way` carries, in the order in which they
/// are set, at heights above the ground.
pub fn generate_roller_coaster(way: &ProcessedWay) -> (res: Vec<Placement>)
    ensures
        res@ == coaster_plan(way.nodes@, way.tags@),
{
    let mut out: Vec<Placement> = Vec::new();
    if !tag_is(&way.tags, "roller_coaster", "track") {
        return out;
    }
    if tag_is(&way.tags, "indoor", "yes") {
        return out;
    }
    if let Some(layer) = tag_as_i32(&way.tags, "layer") {
        if layer < 0 {
            return out;
        }
    }
    let track = railway_track(way);
    let ghost tr = track_spec(way.nodes@);
    let ghost f = |k: int| Seq::new(tr[k].len(), |j: int| coaster_cell(tr[k], j)).flatten();
    proof {
        lemma_flatten_new_empty(f);
    }
    let mut k: usize = 0;
    while k < track.len()
        invariant
            track@.len() == tr.len(),
            tr == track_spec(way.nodes@),
            forall|i: int| 0 <= i < track@.len() ==> (#[trigger] track@[i])@ == tr[i],
            f == (|k: int| Seq::new(tr[k].len(), |j: int| coaster_cell(tr[k], j)).flatten()),
            k <= track@.len(),
            out@ == Seq::new(k as nat, f).flatten(),
        decreases track@.len() - k,
    {
        push_coaster_segment(&mut out, &track[k]);
        proof {
            lemma_flatten_new_step(k as int, f);
        }
        assert(out@ =~= Seq::new((k + 1) as nat, f).flatten());
        k = k + 1;
    }
    assert(Seq::new(track@.len() as nat, f) =~= Seq::new(
        tr.len(),
        |k: int| Seq::new(tr[k].len(), |j: int| coaster_cell(tr[k], j)).flatten(),
    ));
    out
}

/// A raised railway lies `offset` blocks above the ground: gravel at that height,
/// the rail on it, and, from two blocks up, stone bricks under the gravel.
pub proof fn law_raised_track(s: Seq<(i32, i32, i32)>, j: int, gl: int, offset: int)
    requires
        0 <= j < s.len(),
        offset > 1,
    ensures
        rail_cell(s, j, gl, offset)[0] == at(Block::Gravel, s[j].0 as int, gl + offset, s[j].2 as int),
        rail_cell(s, j, gl, offset)[1] == at(cell_rail(s, j), s[j].0 as int, gl + offset + 1, s[j].2 as int),
        rail_cell(s, j, gl, offset).contains(
            at(Block::StoneBricks, s[j].0 as int, gl + offset - 1, s[j].2 as int),
        ),
{
    let bx = s[j].0 as int;
    let bz = s[j].2 as int;
    let c = rail_cell(s, j, gl, offset);
    let head = seq![at(Block::Gravel, bx, gl + offset, bz), at(cell_rail(s, j), bx, gl + offset + 1, bz)];
    let log: Seq<Placement> = if bx % 4 == 0 {
        seq![at(Block::OakLog, bx, gl + offset, bz)]
    } else {
        Seq::empty()
    };
    let pil: Seq<Placement> = if (bx + bz) % 8 == 0 && gl + offset - gl > 1 {
        pillar(bx, bz, gl, gl + offset)
    } else {
        Seq::empty()
    };
    let stone = seq![at(Block::StoneBricks, bx, gl + offset - 1, bz)];
    assert(c =~= head + log + (stone + pil));
    assert(c[(head.len() + log.len()) as int] == stone[0]);
}

/// A laid railway raised more than one block stands on stone pillars: under every
/// block of its track whose x + z is a multiple of 8, there are stone bricks at each
/// height from just above the ground up to just below the ballast.
pub proof fn law_railway_supports(
    nodes: Seq<ProcessedNode>,
    tags: Map<Seq<char>, Seq<char>>,
    heights: StructureHeights,
    ground: Seq<Seq<i32>>,
    k: int,
    j: int,
    y: int,
)
    requires
        railway_active(tags),
        ground_matches_track(nodes, ground),
        0 <= k < segment_count(nodes),
        0 <= j < track_segment(nodes, k).len(),
        elevation_spec(tags, DEFAULT_RAILWAY_CLEARANCE, heights) > 1,
        (track_segment(nodes, k)[j].0 + track_segment(nodes, k)[j].2) % 8 == 0,
        ground[k][j] < y < ground[k][j] + elevation_spec(tags, DEFAULT_RAILWAY_CLEARANCE, heights),
    ensures
        railway_plan(nodes, tags, heights, ground).contains(
            at(Block::StoneBricks, track_segment(nodes, k)[j].0 as int, y, track_segment(nodes, k)[j].2 as int),
        ),
{
    let offset = elevation_spec(tags, DEFAULT_RAILWAY_CLEARANCE, heights);
    let tr = track_spec(nodes);
    let s = track_segment(nodes, k);
    assert(tr[k] == s);
    let gl = ground[k][j] as int;
    let bx = s[j].0 as int;
    let bz = s[j].2 as int;
    let target = at(Block::StoneBricks, bx, y, bz);
    let c = rail_cell(s, j, gl, offset);
    let head = seq![at(Block::Gravel, bx, gl + offset, bz), at(cell_rail(s, j), bx, gl + offset + 1, bz)];
    let log: Seq<Placement> = if bx % 4 == 0 {
        seq![at(Block::OakLog, bx, gl + offset, bz)]
    } else {
        Seq::empty()
    };
    let stone = seq![at(Block::StoneBricks, bx, gl + offset - 1, bz)];
    let pil = pillar(bx, bz, gl, gl + offset);
    assert(c =~= head + log + (stone + pil));
    assert(pil[y - gl - 1] == target);
    assert(c[head.len() + log.len() + 1 + (y - gl - 1)] == target);
    assert(c.contains(target));
    let g = |q: int| rail_cell(s, q, ground[k][q] as int, offset);
    assert(Seq::new(s.len(), g)[j] == c);
    lemma_flatten_contains(Seq::new(s.len(), g), j, target);
    assert(rail_segment_plan(s, ground[k], offset) == Seq::new(s.len(), g).flatten());
    let f = |q: int| rail_segment_plan(tr[q], ground[q], offset);
    assert(Seq::new(tr.len(), f)[k] == rail_segment_plan(s, ground[k], offset));
    lemma_flatten_contains(Seq::new(tr.len(), f), k, target);
}

/// Whether some block of the track of `nodes` lies in column `(x, z)`.
pub open spec fn on_track(nodes: Seq<ProcessedNode>, x: int, z: int) -> bool {
    exists|k: int, j: int|
        0 <= k < segment_count(nodes) && 0 <= j < track_segment(nodes, k).len() && (
        #[trigger] track_segment(nodes, k)[j]).0 == x && track_segment(nodes, k)[j].2 == z
}

/// A roller coaster's iron pillars: iron one to three blocks above the ground
/// stands in a column exactly when the track passes through that column and both
/// its x and its z are multiples of 6.
pub proof fn law_coaster_pillars(
    nodes: Seq<ProcessedNode>,
    tags: Map<Seq<char>, Seq<char>>,
    x: i32,
    y: int,
    z: i32,
)
    requires
        coaster_active(tags),
        1 <= y <= 3,
    ensures
        coaster_plan(nodes, tags).contains(above(Block::IronBlock, x as int, y, z as int)) <==> (
        on_track(nodes, x as int, z as int) && x % 6 == 0 && z % 6 == 0),
{
    let target = above(Block::IronBlock, x as int, y, z as int);
    let tr = track_spec(nodes);
    let f = |q: int| Seq::new(tr[q].len(), |j: int| coaster_cell(tr[q], j)).flatten();
    assert(Seq::new(tr.len(), f) =~= Seq::new(
        tr.len(),
        |q: int| Seq::new(tr[q].len(), |j: int| coaster_cell(tr[q], j)).flatten(),
    ));
    assert(coaster_plan(nodes, tags) == Seq::new(tr.len(), f).flatten());
    if on_track(nodes, x as int, z as int) && x % 6 == 0 && z % 6 == 0 {
        let (k, j) = choose|k: int, j: int|
            0 <= k < segment_count(nodes) && 0 <= j < track_segment(nodes, k).len() && (
            #[trigger] track_segment(nodes, k)[j]).0 == x && track_segment(nodes, k)[j].2 == z;
        let s = tr[k];
        assert(s == track_segment(nodes, k));
        let cell = coaster_cell(s, j);
        let pil = Seq::new(3, |q: int| above(Block::IronBlock, x as int, 1 + q, z as int));
        assert(cell == seq![above(Block::IronBlock, x as int, 4, z as int), above(cell_rail(s, j), x as int, 5, z as int)] + pil);
        assert(cell[2 + (y - 1)] == target);
        assert(cell.contains(target));
        assert(Seq::new(tr[k].len(), |q: int| coaster_cell(tr[k], q))[j] == cell);
        lemma_flatten_contains(Seq::new(tr[k].len(), |q: int| coaster_cell(tr[k], q)), j, target);
        assert(Seq::new(tr.len(), f)[k] == f(k));
        lemma_flatten_contains(Seq::new(tr.len(), f), k, target);
    }
    if coaster_plan(nodes, tags).contains(target) {
        lemma_flatten_contains_inv(Seq::new(tr.len(), f), target);
        let k = choose|k: int| 0 <= k < tr.len() && (#[trigger] Seq::new(tr.len(), f)[k]).contains(target);
        assert(Seq::new(tr.len(), f)[k] == f(k));
        let sk = Seq::new(tr[k].len(), |q: int| coaster_cell(tr[k], q));
        assert(f(k) == sk.flatten());
        lemma_flatten_contains_inv(sk, target);
        let j = choose|j: int| 0 <= j < sk.len() && (#[trigger] sk[j]).contains(target);
        let s = tr[k];
        assert(s == track_segment(nodes, k));
        let cell = coaster_cell(s, j);
        assert(Seq::new(tr[k].len(), |q: int| coaster_cell(tr[k], q))[j] == cell);
        let m = choose|m: int| 0 <= m < cell.len() && cell[m] == target;
        let bx = s[j].0 as int;
        let bz = s[j].2 as int;
        let head = seq![above(Block::IronBlock, bx, 4, bz), above(cell_rail(s, j), bx, 5, bz)];
        if bx % 6 == 0 && bz % 6 == 0 {
            let pil = Seq::new(3, |q: int| above(Block::IronBlock, bx, 1 + q, bz));
            assert(cell == head + pil);
            if m >= 2 {
                assert(cell[m] == pil[m - 2]);
                assert(s[j].0 == x && s[j].2 == z);
                assert(on_track(nodes, x as int, z as int)) by {
                    assert(track_segment(nodes, k)[j].0 == x && track_segment(nodes, k)[j].2 == z);
                }
            } else if m == 0 {
                assert(cell[0].y == 4i32);
            } else {
                assert(cell[1].y == 5i32);
            }
        } else {
            assert(cell =~= head);
            if m == 0 {
                assert(cell[0].y == 4i32);
            } else {
                assert(cell[1].y == 5i32);
            }
        }
    }
}

/// The rail shape chosen for block `j` of a track segment, from the blocks before
/// and after it in that segment.
pub open spec fn neighbour_rail(s: Seq<(i32, i32, i32)>, j: int) -> Block {
    rail_direction_spec(
        (s[j].0 as int, s[j].2 as int),
        if j > 0 { Some((s[j - 1].0 as int, s[j - 1].2 as int)) } else { None },
        if j + 1 < s.len() { Some((s[j + 1].0 as int, s[j + 1].2 as int)) } else { None },
    )
}

/// A laid railway covers its whole track: under every block of every segment,
/// gravel `offset` blocks above the ground (the structure's elevation), and on it a
/// rail shaped by the blocks before and after it.
pub proof fn law_railway_track_laid(
    nodes: Seq<ProcessedNode>,
    tags: Map<Seq<char>, Seq<char>>,
    heights: StructureHeights,
    ground: Seq<Seq<i32>>,
    k: int,
    j: int,
)
    requires
        railway_active(tags),
        ground_matches_track(nodes, ground),
        0 <= k < segment_count(nodes),
        0 <= j < track_segment(nodes, k).len(),
    ensures
        ({
            let s = track_segment(nodes, k);
            let top = ground[k][j] + elevation_spec(tags, DEFAULT_RAILWAY_CLEARANCE, heights);
            &&& railway_plan(nodes, tags, heights, ground).contains(
                at(Block::Gravel, s[j].0 as int, top, s[j].2 as int),
            )
            &&& railway_plan(nodes, tags, heights, ground).contains(
                at(neighbour_rail(s, j), s[j].0 as int, top + 1, s[j].2 as int),
            )
        }),
{
    let offset = elevation_spec(tags, DEFAULT_RAILWAY_CLEARANCE, heights);
    let tr = track_spec(nodes);
    let s = track_segment(nodes, k);
    assert(tr[k] == s);
    let gl = ground[k][j] as int;
    let c = rail_cell(s, j, gl, offset);
    let gravel = at(Block::Gravel, s[j].0 as int, gl + offset, s[j].2 as int);
    let rail = at(neighbour_rail(s, j), s[j].0 as int, gl + offset + 1, s[j].2 as int);
    assert(cell_rail(s, j) == neighbour_rail(s, j));
    assert(c[0] == gravel);
    assert(c[1] == rail);
    let g = |q: int| rail_cell(s, q, ground[k][q] as int, offset);
    assert(Seq::new(s.len(), g)[j] == c);
    lemma_flatten_contains(Seq::new(s.len(), g), j, gravel);
    lemma_flatten_contains(Seq::new(s.len(), g), j, rail);
    let f = |q: int| rail_segment_plan(tr[q], ground[q], offset);
    assert(Seq::new(tr.len(), f)[k] == rail_segment_plan(s, ground[k], offset));
    lemma_flatten_contains(Seq::new(tr.len(), f), k, gravel);
    lemma_flatten_contains(Seq::new(tr.len(), f), k, rail);
}

/// A roller coaster covers its whole track: at every block of every segment, iron
/// four blocks above the ground and on it a rail shaped by the blocks before and
/// after it.
pub proof fn law_coaster_track_laid(
    nodes: Seq<ProcessedNode>,
    tags: Map<Seq<char>, Seq<char>>,
    k: int,
    j: int,
)
    requires
        coaster_active(tags),
        0 <= k < segment_count(nodes),
        0 <= j < track_segment(nodes, k).len(),
    ensures
        ({
            let s = track_segment(nodes, k);
            &&& coaster_plan(nodes, tags).contains(above(Block::IronBlock, s[j].0 as int, 4, s[j].2 as int))
            &&& coaster_plan(nodes, tags).contains(above(neighbour_rail(s, j), s[j].0 as int, 5, s[j].2 as int))
        }),
{
    let tr = track_spec(nodes);
    let s = track_segment(nodes, k);
    assert(tr[k] == s);
    let iron = above(Block::IronBlock, s[j].0 as int, 4, s[j].2 as int);
    let rail = above(neighbour_rail(s, j), s[j].0 as int, 5, s[j].2 as int);
    assert(cell_rail(s, j) == neighbour_rail(s, j));
    let cell = coaster_cell(s, j);
    assert(cell[0] == iron);
    assert(cell[1] == rail);
    let sk = Seq::new(tr[k].len(), |q: int| coaster_cell(tr[k], q));
    assert(sk[j] == cell);
    lemma_flatten_contains(sk, j, iron);
    lemma_flatten_contains(sk, j, rail);
    let f = |q: int| Seq::new(tr[q].len(), |j: int| coaster_cell(tr[q], j)).flatten();
    assert(Seq::new(tr.len(), f) =~= Seq::new(
        tr.len(),
        |q: int| Seq::new(tr[q].len(), |j: int| coaster_cell(tr[q], j)).flatten(),
    ));
    assert(Seq::new(tr.len(), f)[k] == sk.flatten());
    lemma_flatten_contains(Seq::new(tr.len(), f), k, iron);
    lemma_flatten_contains(Seq::new(tr.len(), f), k, rail);
}

/// Each track segment runs from its node to the next one, at height 0, and none
/// of its steps is diagonal.
pub proof fn law_track_segment(nodes: Seq<ProcessedNode>, k: int, j: int)
    requires
        0 <= k < segment_count(nodes),
    ensures
        track_segment(nodes, k).len() > 0,
        track_segment(nodes, k)[0] == (nodes[k].x, 0i32, nodes[k].z),
        track_segment(nodes, k).last() == (nodes[k + 1].x, 0i32, nodes[k + 1].z),
        0 <= j < track_segment(nodes, k).len() - 1 ==> !diagonal(
            track_segment(nodes, k)[j],
            track_segment(nodes, k)[j + 1],
        ),
{
    let (x1, z1, x2, z2) = (nodes[k].x as int, nodes[k].z as int, nodes[k + 1].x as int, nodes[k + 1].z as int);
    law_line_ends(x1, 0, z1, x2, 0, z2);
    let l = line_spec(x1, 0, z1, x2, 0, z2);
    let lp = line_points(x1, 0, z1, x2, 0, z2);
    assert(lp.len() == l.len());
    assert(lp[0] == (nodes[k].x, 0i32, nodes[k].z));
    assert(lp.last() == (nodes[k + 1].x, 0i32, nodes[k + 1].z));
    law_smooth_keeps_ends(lp);
    if 0 <= j < track_segment(nodes, k).len() - 1 {
        law_smooth_no_diagonal(lp, j);
    }
}

} // verus!
