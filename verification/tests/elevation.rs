use arnis::elevation::{
    elevation_fits, has_bridge, infer_structure_elevation, structure_height_texts, tag_as_i32,
    StructureHeights,
};
use arnis::tags::Tags;

/// Reads the bridge height tags as the world generator does: the numeric text of
/// each value, parsed as an `f32` and rounded to whole blocks.
fn heights_of(tags: &Tags) -> StructureHeights {
    let texts = structure_height_texts(tags);
    let round = |t: Option<Vec<char>>| {
        t.and_then(|cs| cs.iter().collect::<String>().parse::<f32>().ok())
            .map(|v| v.round() as i32)
    };
    StructureHeights {
        height: round(texts.height),
        clearance: round(texts.clearance),
        deck_height: round(texts.deck_height),
    }
}

fn elevation(tags: &Tags, default_clearance: i32) -> i32 {
    assert!(elevation_fits(tags));
    infer_structure_elevation(tags, default_clearance, heights_of(tags))
}

#[test]
fn prefers_largest_positive_offset() {
    let mut tags = Tags::new();
    tags.insert("bridge".to_string(), "yes".to_string());
    tags.insert("layer".to_string(), "2".to_string());
    tags.insert("bridge:clearance".to_string(), "9".to_string());
    assert_eq!(elevation(&tags, 4), 12);
}

#[test]
fn falls_back_to_default_for_plain_bridge() {
    let mut tags = Tags::new();
    tags.insert("bridge".to_string(), "yes".to_string());
    assert_eq!(elevation(&tags, 4), 4);
}

#[test]
fn ignores_negative_layers() {
    let mut tags = Tags::new();
    tags.insert("bridge".to_string(), "yes".to_string());
    tags.insert("layer".to_string(), "-1".to_string());
    assert_eq!(elevation(&tags, 4), 4);
}

#[test]
fn handles_height_suffixes() {
    let mut tags = Tags::new();
    tags.insert("bridge:height".to_string(), "5.2m".to_string());
    assert_eq!(elevation(&tags, 3), 5);
}

#[test]
fn no_tags_no_elevation() {
    let tags = Tags::new();
    assert_eq!(elevation(&tags, 4), 0);
}

#[test]
fn small_default_clearance_is_raised_to_three() {
    let mut tags = Tags::new();
    tags.insert("bridge".to_string(), "viaduct".to_string());
    assert_eq!(elevation(&tags, 1), 3);
}

#[test]
fn bridge_no_and_empty_are_not_bridges() {
    let mut tags = Tags::new();
    tags.insert("bridge".to_string(), "no".to_string());
    assert!(!has_bridge(&tags));
    assert_eq!(elevation(&tags, 4), 0);
    tags.insert("bridge".to_string(), String::new());
    assert!(!has_bridge(&tags));
}

#[test]
fn level_counts_six_blocks_per_step() {
    let mut tags = Tags::new();
    tags.insert("level".to_string(), "3".to_string());
    assert_eq!(elevation(&tags, 4), 18);
}

#[test]
fn unreadable_layer_is_ignored() {
    let mut tags = Tags::new();
    tags.insert("layer".to_string(), "two".to_string());
    assert_eq!(tag_as_i32(&tags, "layer"), None);
    assert_eq!(elevation(&tags, 4), 0);
}

#[test]
fn negative_height_counts_as_zero() {
    let mut tags = Tags::new();
    tags.insert("bridge:deck_height".to_string(), "-7".to_string());
    assert_eq!(elevation(&tags, 4), 0);
}

#[test]
fn huge_layer_does_not_fit() {
    let mut tags = Tags::new();
    tags.insert("layer".to_string(), "400000000".to_string());
    assert!(!elevation_fits(&tags));
    tags.insert("layer".to_string(), "357913941".to_string());
    assert!(elevation_fits(&tags));
    assert_eq!(
        infer_structure_elevation(&tags, 4, heights_of(&tags)),
        357913941 * 6
    );
}
