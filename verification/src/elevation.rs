//! How high a structure (bridge, raised railway) stands above the ground, read
//! from its `layer`, `level` and `bridge*` tags.
use vstd::prelude::*;
use crate::tags::Tags;
use crate::text::{
    height_number_spec,
    height_number_text,
    parse_i32,
    parse_i32_spec,
    same_text,
};

verus! {

/// Height of one `layer` or `level` step, in blocks.
pub const LAYER_HEIGHT_STEP: i32 = 6;

/// The value of `key`, if present.
pub open spec fn tag_value(tags: Map<Seq<char>, Seq<char>>, key: Seq<char>) -> Option<Seq<char>> {
    if tags.contains_key(key) {
        Some(tags[key])
    } else {
        None
    }
}

/// The value of `key` read as an `i32`, if present and readable.
pub open spec fn tag_i32(tags: Map<Seq<char>, Seq<char>>, key: Seq<char>) -> Option<i32> {
    match tag_value(tags, key) {
        Some(v) => parse_i32_spec(v),
        None => None,
    }
}

/// The numeric text of the height in `key`, if present and holding a number.
pub open spec fn tag_height_text(tags: Map<Seq<char>, Seq<char>>, key: Seq<char>) -> Option<
    Seq<char>,
> {
    match tag_value(tags, key) {
        Some(v) => height_number_spec(v),
        None => None,
    }
}

/// Whether the element is a bridge: a `bridge` tag that is neither empty nor `no`.
pub open spec fn has_bridge_tag(tags: Map<Seq<char>, Seq<char>>) -> bool {
    match tag_value(tags, "bridge"@) {
        Some(v) => v != "no"@ && v.len() > 0,
        None => false,
    }
}

pub open spec fn max_int(a: int, b: int) -> int {
    if a >= b {
        a
    } else {
        b
    }
}

/// Offset of a `layer` or `level` value: six blocks per level above the ground.
pub open spec fn level_offset(v: Option<i32>) -> Option<int> {
    match v {
        Some(l) => Some(max_int(l as int, 0) * 6),
        None => None,
    }
}

/// The numbers in the three bridge height tags, already rounded to whole blocks:
/// `bridge:height`, `bridge:clearance` and `bridge:deck_height`.
#[derive(Clone, Copy, PartialEq, Eq, Structural, Debug)]
pub struct StructureHeights {
    pub height: Option<i32>,
    pub clearance: Option<i32>,
    pub deck_height: Option<i32>,
}

/// The numeric texts of the three bridge height tags (see `StructureHeights`).
pub struct HeightTexts {
    pub height: Option<Vec<char>>,
    pub clearance: Option<Vec<char>>,
    pub deck_height: Option<Vec<char>>,
}

pub open spec fn text_view(t: Option<Vec<char>>) -> Option<Seq<char>> {
    match t {
        Some(v) => Some(v@),
        None => None,
    }
}

pub open spec fn height_offset(v: Option<i32>) -> Option<int> {
    match v {
        Some(h) => Some(max_int(h as int, 0)),
        None => None,
    }
}

/// The candidate offsets, in the order in which they are gathered.
pub open spec fn elevation_candidates(
    tags: Map<Seq<char>, Seq<char>>,
    default_clearance: i32,
    heights: StructureHeights,
) -> Seq<Option<int>> {
    seq![
        level_offset(tag_i32(tags, "layer"@)),
        level_offset(tag_i32(tags, "level"@)),
        if has_bridge_tag(tags) {
            Some(max_int(default_clearance as int, 3))
        } else {
            None
        },
        height_offset(heights.height),
        height_offset(heights.clearance),
        height_offset(heights.deck_height),
    ]
}

/// The largest of `floor` and the candidates present.
pub open spec fn max_present(s: Seq<Option<int>>, floor: int) -> int
    decreases s.len(),
{
    if s.len() == 0 {
        floor
    } else {
        let rest = max_present(s.drop_last(), floor);
        match s.last() {
            Some(v) => max_int(rest, v),
            None => rest,
        }
    }
}

/// The elevation: the largest positive candidate offset, or 0 when there is none.
/// (A bridge always has the positive candidate `max(default_clearance, 3)`.)
pub open spec fn elevation_spec(
    tags: Map<Seq<char>, Seq<char>>,
    default_clearance: i32,
    heights: StructureHeights,
) -> int {
    max_present(elevation_candidates(tags, default_clearance, heights), 0)
}

/// Whether the `layer` and `level` offsets fit in an `i32`.
pub open spec fn levels_fit(tags: Map<Seq<char>, Seq<char>>) -> bool {
    &&& (level_offset(tag_i32(tags, "layer"@)) matches Some(o) ==> o <= i32::MAX)
    &&& (level_offset(tag_i32(tags, "level"@)) matches Some(o) ==> o <= i32::MAX)
}

/// Whether the element is a bridge.
pub fn has_bridge(tags: &Tags) -> (res: bool)
    ensures
        res == has_bridge_tag(tags@),
{
    match tags.get("bridge") {
        Some(v) => !same_text(v.as_str(), "no") && !v.as_str().is_empty(),
        None => false,
    }
}

/// The value of `key` read as an `i32`, if present and readable.
pub fn tag_as_i32(tags: &Tags, key: &str) -> (res: Option<i32>)
    ensures
        res == tag_i32(tags@, key@),
{
    match tags.get(key) {
        Some(v) => parse_i32(v.as_str()),
        None => None,
    }
}

fn text_of_tag(tags: &Tags, key: &str) -> (res: Option<Vec<char>>)
    ensures
        text_view(res) == tag_height_text(tags@, key@),
{
    match tags.get(key) {
        Some(v) => height_number_text(v.as_str()),
        None => None,
    }
}

/// The numeric texts of `bridge:height`, `bridge:clearance` and `bridge:deck_height`.
pub fn structure_height_texts(tags: &Tags) -> (res: HeightTexts)
    ensures
        text_view(res.height) == tag_height_text(tags@, "bridge:height"@),
        text_view(res.clearance) == tag_height_text(tags@, "bridge:clearance"@),
        text_view(res.deck_height) == tag_height_text(tags@, "bridge:deck_height"@),
{
    HeightTexts {
        height: text_of_tag(tags, "bridge:height"),
        clearance: text_of_tag(tags, "bridge:clearance"),
        deck_height: text_of_tag(tags, "bridge:deck_height"),
    }
}

/// Whether `infer_structure_elevation` can be asked about these tags: their
/// `layer` and `level` offsets fit in an `i32`.
pub fn elevation_fits(tags: &Tags) -> (res: bool)
    ensures
        res == levels_fit(tags@),
{
    let layer_ok = match tag_as_i32(tags, "layer") {
        Some(l) => l <= 357913941,
        None => true,
    };
    let level_ok = match tag_as_i32(tags, "level") {
        Some(l) => l <= 357913941,
        None => true,
    };
    layer_ok && level_ok
}

fn raise(best: i32, v: i32) -> (res: i32)
    ensures
        res == max_int(best as int, v as int),
{
    if v > best {
        v
    } else {
        best
    }
}

/// The number of blocks a structure is raised above the ground: the largest of the
/// offsets from `layer` and `level` (six blocks per level, negative levels as 0),
/// `max(default_clearance, 3)` for a bridge, and the bridge height tags
/// (negative as 0); 0 when none is positive.
pub fn infer_structure_elevation(tags: &Tags, default_clearance: i32, heights: StructureHeights) -> (res: i32)
    requires
        levels_fit(tags@),
    ensures
        res == elevation_spec(tags@, default_clearance, heights),
        res >= 0,
{
    let ghost cands = elevation_candidates(tags@, default_clearance, heights);
    let mut best: i32 = 0;
    if let Some(layer) = tag_as_i32(tags, "layer") {
        let l = if layer > 0 {
            layer
        } else {
            0
        };
        best = raise(best, l * LAYER_HEIGHT_STEP);
    }
    assert(best == max_present(cands.take(1), 0)) by {
        assert(cands.take(1).drop_last() =~= Seq::<Option<int>>::empty());
        assert(max_present(cands.take(1).drop_last(), 0) == 0);
        assert(cands.take(1).last() == cands[0]);
    }
    if let Some(level) = tag_as_i32(tags, "level") {
        let l = if level > 0 {
            level
        } else {
            0
        };
        best = raise(best, l * LAYER_HEIGHT_STEP);
    }
    assert(best == max_present(cands.take(2), 0)) by {
        assert(cands.take(2).drop_last() =~= cands.take(1));
    }
    if has_bridge(tags) {
        let c = if default_clearance > 3 {
            default_clearance
        } else {
            3
        };
        best = raise(best, c);
    }
    assert(best == max_present(cands.take(3), 0)) by {
        assert(cands.take(3).drop_last() =~= cands.take(2));
    }
    if let Some(h) = heights.height {
        best = raise(best, h);
    }
    assert(best == max_present(cands.take(4), 0)) by {
        assert(cands.take(4).drop_last() =~= cands.take(3));
    }
    if let Some(h) = heights.clearance {
        best = raise(best, h);
    }
    assert(best == max_present(cands.take(5), 0)) by {
        assert(cands.take(5).drop_last() =~= cands.take(4));
    }
    if let Some(h) = heights.deck_height {
        best = raise(best, h);
    }
    assert(best == max_present(cands, 0)) by {
        assert(cands.drop_last() =~= cands.take(5));
    }
    best
}

proof fn lemma_max_present(s: Seq<Option<int>>, floor: int)
    ensures
        max_present(s, floor) >= floor,
        forall|i: int| 0 <= i < s.len() && (#[trigger] s[i]) is Some ==> max_present(s, floor) >= s[i]->0,
        max_present(s, floor) == floor || exists|i: int| 0 <= i < s.len() && s[i] == Some(max_present(s, floor)),
    decreases s.len(),
{
    if s.len() > 0 {
        let t = s.drop_last();
        lemma_max_present(t, floor);
        assert forall|i: int| 0 <= i < s.len() && (#[trigger] s[i]) is Some implies max_present(s, floor)
            >= s[i]->0 by {
            if i < s.len() - 1 {
                assert(s[i] == t[i]);
            }
        }
        if max_present(s, floor) != floor && s.last() != Some(max_present(s, floor)) {
            let i = choose|i: int| 0 <= i < t.len() && t[i] == Some(max_present(t, floor));
            assert(s[i] == t[i]);
        }
    }
}

/// The elevation is the largest of the offsets that the tags give, and 0 when
/// none is positive: it is at least each of them, and it is one of them unless it is 0.
pub proof fn law_elevation_is_largest_offset(
    tags: Map<Seq<char>, Seq<char>>,
    default_clearance: i32,
    heights: StructureHeights,
)
    ensures
        elevation_spec(tags, default_clearance, heights) >= 0,
        forall|i: int|
            0 <= i < 6 && (#[trigger] elevation_candidates(tags, default_clearance, heights)[i]) is Some
                ==> elevation_spec(tags, default_clearance, heights) >= elevation_candidates(
                tags,
                default_clearance,
                heights,
            )[i]->0,
        elevation_spec(tags, default_clearance, heights) == 0 || exists|i: int|
            0 <= i < 6 && elevation_candidates(tags, default_clearance, heights)[i] == Some(
                elevation_spec(tags, default_clearance, heights),
            ),
{
    lemma_max_present(elevation_candidates(tags, default_clearance, heights), 0);
}

/// A bridge stands at least `max(default_clearance, 3)` blocks up, whatever its other tags.
pub proof fn law_bridge_has_clearance(
    tags: Map<Seq<char>, Seq<char>>,
    default_clearance: i32,
    heights: StructureHeights,
)
    requires
        has_bridge_tag(tags),
    ensures
        elevation_spec(tags, default_clearance, heights) >= max_int(default_clearance as int, 3),
{
    law_elevation_is_largest_offset(tags, default_clearance, heights);
    assert(elevation_candidates(tags, default_clearance, heights)[2] is Some);
}

/// A negative `layer` or `level` raises nothing: it counts as 0.
pub proof fn law_negative_levels_ignored(v: i32)
    requires
        v < 0,
    ensures
        level_offset(Some(v)) == Some(0int),
{
}

/// What the elevation is, in terms of the tags: at least each raise that they ask
/// for (six blocks per `layer` and per `level`, `max(default_clearance, 3)` for a
/// bridge, and each of `bridge:height`, `bridge:clearance` and `bridge:deck_height`),
/// never negative, and equal to one of those raises unless it is 0.
pub proof fn law_elevation_bounds(
    tags: Map<Seq<char>, Seq<char>>,
    default_clearance: i32,
    heights: StructureHeights,
)
    ensures
        ({
            let e = elevation_spec(tags, default_clearance, heights);
            &&& e >= 0
            &&& (tag_i32(tags, "layer"@) matches Some(l) ==> e >= 6 * l)
            &&& (tag_i32(tags, "level"@) matches Some(l) ==> e >= 6 * l)
            &&& (has_bridge_tag(tags) ==> e >= default_clearance && e >= 3)
            &&& (heights.height matches Some(h) ==> e >= h)
            &&& (heights.clearance matches Some(h) ==> e >= h)
            &&& (heights.deck_height matches Some(h) ==> e >= h)
            &&& (e == 0 || (tag_i32(tags, "layer"@) matches Some(l) && e == 6 * l) || (tag_i32(
                tags,
                "level"@,
            ) matches Some(l) && e == 6 * l) || (has_bridge_tag(tags) && (e == default_clearance
                || e == 3)) || (heights.height matches Some(h) && e == h) || (
            heights.clearance matches Some(h) && e == h) || (heights.deck_height matches Some(h)
                && e == h))
        }),
{
    let c = elevation_candidates(tags, default_clearance, heights);
    let e = elevation_spec(tags, default_clearance, heights);
    law_elevation_is_largest_offset(tags, default_clearance, heights);
    assert(c[0] == level_offset(tag_i32(tags, "layer"@)));
    assert(c[1] == level_offset(tag_i32(tags, "level"@)));
    assert(c[3] == height_offset(heights.height));
    assert(c[4] == height_offset(heights.clearance));
    assert(c[5] == height_offset(heights.deck_height));
    if has_bridge_tag(tags) {
        assert(c[2] == Some(max_int(default_clearance as int, 3)));
    }
    if e != 0 {
        let i = choose|i: int| 0 <= i < 6 && c[i] == Some(e);
        if i == 0 || i == 1 {
        }
    }
}

} // verus!
