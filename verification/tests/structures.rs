use arnis::blocks::{Block, Placement};
use arnis::bridges::{
    bridge_points, can_generate_bridges, derive_half_width, derive_support_interval,
    generate_bridges,
};
use arnis::elevation::{structure_height_texts, StructureHeights};
use arnis::railways::{
    can_generate_railways, generate_railways, generate_roller_coaster, is_railway_laid,
    railway_track,
};
use arnis::tags::Tags;
use arnis::way::{ProcessedNode, ProcessedWay};
use std::collections::HashMap;

/// A world on flat ground at level 0 that keeps the first block set at each position.
struct FlatWorld {
    blocks: HashMap<(i32, i32, i32), Block>,
}

impl FlatWorld {
    fn new() -> Self {
        FlatWorld { blocks: HashMap::new() }
    }

    fn ground(&self, _x: i32, _z: i32) -> i32 {
        0
    }

    fn apply(&mut self, plan: &[Placement]) {
        for p in plan {
            let y = if p.above_ground { self.ground(p.x, p.z) + p.y } else { p.y };
            self.blocks.entry((p.x, y, p.z)).or_insert(p.block);
        }
    }

    fn at(&self, x: i32, y: i32, z: i32) -> Option<Block> {
        self.blocks.get(&(x, y, z)).copied()
    }
}

fn heights_of(tags: &Tags) -> StructureHeights {
    let texts = structure_height_texts(tags);
    let round = |t: Option<Vec<char>>| {
        t.and_then(|cs| cs.iter().collect::<String>().parse::<f32>().ok())
            .map(|v| v.round() as i32)
    };
    StructureHeights {
        height: round(texts.height),
        clearance: round(texts.clearance),
        deck_height: round(texts.deck_height),
    }
}

fn way(xs: std::ops::RangeInclusive<i32>, z: i32, tags: &[(&str, &str)]) -> ProcessedWay {
    let nodes = xs
        .enumerate()
        .map(|(i, x)| ProcessedNode { id: i as u64, x, z })
        .collect();
    let mut t = Tags::new();
    for (k, v) in tags {
        t.insert(k.to_string(), v.to_string());
    }
    ProcessedWay { id: 1, nodes, tags: t }
}

fn build_bridge(world: &mut FlatWorld, way: &ProcessedWay) {
    let ground: Vec<i32> = bridge_points(way).iter().map(|p| world.ground(p.0, p.2)).collect();
    let heights = heights_of(&way.tags);
    assert!(can_generate_bridges(way, heights, &ground, None));
    let plan = generate_bridges(way, heights, &ground, None, 6);
    world.apply(&plan);
}

#[test]
fn bridge_deck_railings_and_first_pillar() {
    let mut world = FlatWorld::new();
    let bridge = way(8..=12, 8, &[("bridge", "yes"), ("layer", "1")]);
    build_bridge(&mut world, &bridge);
    // Deck six blocks up (layer 1), stone under it, railings three blocks out.
    for x in 8..=12 {
        assert_eq!(world.at(x, 6, 8), Some(Block::LightGrayConcrete));
        assert_eq!(world.at(x, 5, 8), Some(Block::StoneBricks));
    }
    assert_eq!(world.at(7, 7, 8), Some(Block::StoneBrickWall));
    assert_eq!(world.at(13, 7, 8), Some(Block::StoneBrickWall));
    assert_eq!(world.at(5, 6, 8), Some(Block::LightGrayConcrete));
    assert_eq!(world.at(15, 6, 8), Some(Block::LightGrayConcrete));
    assert_eq!(world.at(16, 6, 8), None);
    // A pillar under every node, from just above the ground to just under the deck.
    for x in 8..=12 {
        for y in 1..6 {
            assert_eq!(world.at(x, y, 8), Some(Block::StoneBricks));
        }
    }
}

#[test]
fn bridge_places_elevated_deck_and_supports() {
    let mut world = FlatWorld::new();
    let bridge = way(8..=12, 8, &[("bridge", "yes"), ("layer", "1")]);
    build_bridge(&mut world, &bridge);

    let midpoint = &bridge.nodes[2];
    let ground_y = world.ground(midpoint.x, midpoint.z);

    let mut deck_y = None;
    for y in ground_y + 1..ground_y + 20 {
        if world.at(midpoint.x, y, midpoint.z) == Some(Block::LightGrayConcrete) {
            deck_y = Some(y);
            break;
        }
    }

    let deck_y = deck_y.expect("Bridge deck not placed");
    assert!(deck_y > ground_y);

    // Railings on either side of the deck
    let railing_positions = [midpoint.x - 3, midpoint.x + 3];
    assert!(railing_positions
        .iter()
        .any(|x| world.at(*x, deck_y + 1, midpoint.z) == Some(Block::StoneBrickWall)));

    // Stone support column beneath the deck
    assert_eq!(world.at(midpoint.x, ground_y + 1, midpoint.z), Some(Block::StoneBricks));
}

#[test]
fn long_span_has_pillars_at_nodes_and_intervals() {
    let mut world = FlatWorld::new();
    let mut bridge = way(0..=0, 0, &[("bridge", "yes")]);
    bridge.nodes.push(ProcessedNode { id: 1, x: 13, z: 0 });
    build_bridge(&mut world, &bridge);
    // Deck 5 up; pillars at path blocks 0, 6, 12 and under the nodes at x = 0 and 13.
    for x in [0, 6, 12, 13] {
        assert_eq!(world.at(x, 1, 0), Some(Block::StoneBricks), "x = {}", x);
    }
    for x in [1, 3, 5, 7, 11] {
        assert_eq!(world.at(x, 1, 0), None, "x = {}", x);
    }
}

#[test]
fn no_bridge_without_bridge_tag() {
    let w = way(0..=3, 0, &[("highway", "footway")]);
    let ground = vec![0; bridge_points(&w).len()];
    assert!(generate_bridges(&w, heights_of(&w.tags), &ground, None, 6).is_empty());
    let one = way(0..=0, 0, &[("bridge", "yes")]);
    assert!(bridge_points(&one).is_empty());
    assert!(generate_bridges(&one, heights_of(&one.tags), &vec![], None, 6).is_empty());
}

#[test]
fn bridge_path_joins_segments_once() {
    let mut w = way(0..=2, 0, &[("bridge", "yes")]);
    w.nodes.push(ProcessedNode { id: 9, x: 2, z: 2 });
    assert_eq!(bridge_points(&w), vec![(0, 0, 0), (1, 0, 0), (2, 0, 0), (2, 0, 1), (2, 0, 2)]);
}

#[test]
fn bridge_over_uneven_ground_stands_above_the_highest() {
    let w = way(0..=2, 0, &[("bridge", "yes")]);
    let ground = vec![3, 10, 4];
    let heights = heights_of(&w.tags);
    let plan = generate_bridges(&w, heights, &ground, None, 6);
    let deck: Vec<&Placement> = plan.iter().filter(|p| p.block == Block::LightGrayConcrete).collect();
    assert!(!deck.is_empty());
    assert!(deck.iter().all(|p| p.y == 15));
}

#[test]
fn half_width_and_pillar_spacing() {
    assert_eq!(derive_half_width(None), 2);
    assert_eq!(derive_half_width(Some(3)), 2);
    assert_eq!(derive_half_width(Some(9)), 4);
    assert_eq!(derive_half_width(Some(-10)), 2);
    assert_eq!(derive_support_interval(0), 2);
    assert_eq!(derive_support_interval(5), 5);
    assert_eq!(derive_support_interval(12), 8);
}

#[test]
fn bridge_too_high_does_not_fit() {
    let w = way(0..=1, 0, &[("bridge", "yes")]);
    let heights = heights_of(&w.tags);
    assert!(!can_generate_bridges(&w, heights, &vec![i32::MAX - 3, 0], None));
    assert!(!can_generate_bridges(&w, heights, &vec![0], None));
    assert!(can_generate_bridges(&w, heights, &vec![0, 0], None));
}

fn rail_blocks() -> [Block; 6] {
    [
        Block::RailNorthSouth,
        Block::RailEastWest,
        Block::RailNorthEast,
        Block::RailNorthWest,
        Block::RailSouthEast,
        Block::RailSouthWest,
    ]
}

fn build_railway(world: &mut FlatWorld, way: &ProcessedWay) {
    let ground: Vec<Vec<i32>> = railway_track(way)
        .iter()
        .map(|s| s.iter().map(|p| world.ground(p.0, p.2)).collect())
        .collect();
    let heights = heights_of(&way.tags);
    assert!(can_generate_railways(way, heights, &ground));
    let plan = generate_railways(way, heights, &ground);
    world.apply(&plan);
}

#[test]
fn elevated_layer_places_raised_track() {
    let mut world = FlatWorld::new();
    let railway = way(6..=11, 10, &[("railway", "rail"), ("layer", "1")]);
    build_railway(&mut world, &railway);

    let mid = &railway.nodes[3];
    let ground_y = world.ground(mid.x, mid.z);
    let mut found_rail = None;
    for y in ground_y + 1..ground_y + 20 {
        if world.at(mid.x, y, mid.z).map_or(false, |b| rail_blocks().contains(&b)) {
            found_rail = Some(y);
            break;
        }
    }
    let rail_y = found_rail.expect("Rail block not elevated");
    assert!(rail_y > ground_y + 1);
    assert_eq!(world.at(mid.x, rail_y - 1, mid.z), Some(Block::Gravel));

    let mut support_found = false;
    for node in &railway.nodes {
        let node_ground = world.ground(node.x, node.z);
        for y in node_ground + 1..rail_y {
            if world.at(node.x, y, node.z) == Some(Block::StoneBricks) {
                support_found = true;
                break;
            }
        }
        if support_found {
            break;
        }
    }
    assert!(support_found, "Expected stone support pillar below elevated railway");
}

#[test]
fn ground_level_railway() {
    let mut world = FlatWorld::new();
    let railway = way(0..=4, 0, &[("railway", "rail")]);
    build_railway(&mut world, &railway);
    for x in 0..=4 {
        assert_eq!(world.at(x, 1, 0), Some(Block::RailEastWest));
    }
    // Sleepers at every fourth x, placed after the gravel, which keeps its place.
    assert_eq!(world.at(0, 0, 0), Some(Block::Gravel));
    assert_eq!(world.at(4, 0, 0), Some(Block::Gravel));
}

#[test]
fn excluded_railways_are_not_laid() {
    for kind in ["proposed", "abandoned", "subway", "construction", "razed", "turntable"] {
        let w = way(0..=2, 0, &[("railway", kind)]);
        assert!(!is_railway_laid(&w.tags));
        let ground: Vec<Vec<i32>> =
            railway_track(&w).iter().map(|s| vec![0; s.len()]).collect();
        assert!(generate_railways(&w, heights_of(&w.tags), &ground).is_empty());
    }
    assert!(!is_railway_laid(&way(0..=2, 0, &[("railway", "rail"), ("tunnel", "yes")]).tags));
    assert!(!is_railway_laid(&way(0..=2, 0, &[("railway", "rail"), ("subway", "yes")]).tags));
    assert!(is_railway_laid(&way(0..=2, 0, &[("railway", "rail"), ("tunnel", "no")]).tags));
    assert!(!is_railway_laid(&way(0..=2, 0, &[("highway", "road")]).tags));
}

#[test]
fn diagonal_track_gets_corners() {
    let mut w = way(0..=0, 0, &[("railway", "rail")]);
    w.nodes.push(ProcessedNode { id: 2, x: 2, z: 2 });
    let track = railway_track(&w);
    assert_eq!(track.len(), 1);
    assert_eq!(track[0], vec![(0, 0, 0), (0, 0, 1), (1, 0, 1), (2, 0, 1), (2, 0, 2)]);
}

#[test]
fn roller_coaster_track_and_pillars() {
    let mut world = FlatWorld::new();
    let coaster = way(5..=7, 6, &[("roller_coaster", "track")]);
    world.apply(&generate_roller_coaster(&coaster));
    for x in 5..=7 {
        assert_eq!(world.at(x, 4, 6), Some(Block::IronBlock));
        assert_eq!(world.at(x, 5, 6), Some(Block::RailEastWest));
    }
    for y in 1..4 {
        assert_eq!(world.at(6, y, 6), Some(Block::IronBlock));
        assert_eq!(world.at(5, y, 6), None);
    }
}

#[test]
fn roller_coaster_skips() {
    assert!(generate_roller_coaster(&way(0..=3, 0, &[("roller_coaster", "station")])).is_empty());
    assert!(generate_roller_coaster(&way(0..=3, 0, &[("roller_coaster", "track"), ("indoor", "yes")]))
        .is_empty());
    assert!(generate_roller_coaster(&way(0..=3, 0, &[("roller_coaster", "track"), ("layer", "-1")]))
        .is_empty());
    assert!(!generate_roller_coaster(&way(0..=3, 0, &[("roller_coaster", "track"), ("layer", "x")]))
        .is_empty());
}
