use netgol::protocol::{Region, FLAG_FROZEN, FLAG_LOCKED, FLAG_OWNED};
use netgol::region::{can_edit, load, locked_chunks, parse_flags, RegionEntry, RegionError};
use netgol::world::World;

fn simple_region(x: i64, y: i64, w: u32, h: u32, flags: u8) -> Region {
    Region { x, y, w, h, flags, owner: 0 }
}

fn number(t: &toml::Table, key: &str) -> Option<u32> {
    t.get(key).and_then(|v| v.as_integer()).map(|n| n as u32)
}

fn entries(text: &str) -> Vec<RegionEntry> {
    let file: toml::Table = toml::from_str(text).expect("toml");
    let regions = file.get("regions").and_then(|v| v.as_array()).expect("regions");
    regions
        .iter()
        .map(|v| {
            let t = v.as_table().expect("table");
            let origin = t.get("origin").and_then(|v| v.as_array()).expect("origin");
            RegionEntry {
                origin: [
                    origin[0].as_integer().expect("x"),
                    origin[1].as_integer().expect("y"),
                ],
                flags: t.get("flags").and_then(|v| v.as_array()).map(|l| {
                    l.iter().map(|f| f.as_str().expect("flag").to_string()).collect()
                }),
                owner: number(t, "owner"),
                pattern: t.get("pattern").and_then(|v| v.as_str()).map(|s| s.to_string()),
                w: number(t, "w"),
                h: number(t, "h"),
            }
        })
        .collect()
}

#[test]
fn locked_chunks_covers_partial_chunk() {
    // Region that straddles two chunks horizontally.
    let r = simple_region(-10, -10, 20, 5, FLAG_LOCKED);
    let chunks = locked_chunks(&[r]);
    // x: -10 to 9 → chunk -1 (contains -10) and chunk 0 (contains 0..9)
    assert!(chunks.contains_key(&(-1, -1)));
    assert!(chunks.contains_key(&(0, -1)));
    // chunk 1 not touched
    assert!(!chunks.contains_key(&(1, -1)));
}

#[test]
fn locked_chunks_skips_non_locked() {
    let regions = vec![
        simple_region(0, 0, 64, 64, FLAG_FROZEN),               // frozen only
        simple_region(64, 0, 64, 64, FLAG_LOCKED | FLAG_OWNED), // owned
        simple_region(128, 0, 64, 64, FLAG_LOCKED),             // locked
    ];
    let chunks = locked_chunks(&regions);
    assert!(!chunks.contains_key(&(0, 0))); // frozen-only: not included
    assert!(chunks.contains_key(&(1, 0))); // owned+locked: included
    assert!(chunks.contains_key(&(2, 0))); // locked: included
}

#[test]
fn pattern_load_clears_stale_cells() {
    let toml = r#"
[[regions]]
name = "test"
origin = [0, 0]
flags = ["frozen", "locked"]
pattern = """
#..
..#
"""
"#;
    let mut world = World::new();
    // Seed a stale alive cell at (1,0) — should be cleared by the pattern's dot.
    world.set_cell(1, 0, true);
    assert!(world.get_chunk(0, 0).map_or(false, |c| c.rows()[0] & 2 != 0));

    load(&mut world, &entries(toml)).expect("load");

    let chunk = world.get_chunk(0, 0).expect("chunk exists");
    let row0 = chunk.rows()[0];
    assert!(row0 & 1 != 0, "cell (0,0) should be alive (#)");
    assert!(row0 & 2 == 0, "cell (1,0) should be dead (. cleared)");
    assert!(row0 & 4 == 0, "cell (2,0) should be dead (.)");
    let row1 = chunk.rows()[1];
    assert!(row1 & 4 != 0, "cell (2,1) should be alive (#)");
}

#[test]
fn locked_only_pattern_is_not_frozen() {
    let toml = r#"
[[regions]]
name = "gun"
origin = [0, 0]
flags = ["locked"]
pattern = """
##
##
"""
"#;
    let mut world = World::new();
    load(&mut world, &entries(toml)).expect("load");

    let chunk = world.get_chunk(0, 0).expect("chunk placed");
    assert!(!chunk.is_frozen(), "locked-only pattern must not be frozen");
}

#[test]
fn frozen_pattern_is_frozen() {
    let toml = r#"
[[regions]]
name = "stamp"
origin = [0, 0]
flags = ["frozen", "locked"]
pattern = """
#.
.#
"""
"#;
    let mut world = World::new();
    load(&mut world, &entries(toml)).expect("load");

    let chunk = world.get_chunk(0, 0).expect("chunk placed");
    assert!(chunk.is_frozen(), "frozen+locked pattern must be frozen");
}

#[test]
fn extent_comes_from_the_pattern_or_from_the_entry() {
    let toml = r####"
[[regions]]
origin = [-3, 7]
owner = 9
pattern = "#\n###\n"

[[regions]]
origin = [100, 200]
flags = ["owned"]
w = 5
h = 6

[[regions]]
origin = [0, 0]
"####;
    let mut world = World::new();
    let regions = load(&mut world, &entries(toml)).expect("load");
    assert_eq!(
        regions,
        vec![
            Region { x: -3, y: 7, w: 3, h: 2, flags: 0, owner: 9 },
            Region { x: 100, y: 200, w: 5, h: 6, flags: FLAG_OWNED, owner: 0 },
            Region { x: 0, y: 0, w: 0, h: 0, flags: 0, owner: 0 },
        ]
    );
}

fn entry(flags: &[&str], pattern: Option<&str>) -> RegionEntry {
    RegionEntry {
        origin: [0, 0],
        flags: Some(flags.iter().map(|f| f.to_string()).collect()),
        owner: None,
        pattern: pattern.map(|p| p.to_string()),
        w: None,
        h: None,
    }
}

#[test]
fn unknown_flags_are_rejected() {
    let mut world = World::new();
    let r = load(&mut world, &vec![entry(&["locked", "golden"], None)]);
    assert_eq!(r, Err(RegionError::UnknownFlag("golden".to_string())));
}

#[test]
fn bad_pattern_characters_are_rejected() {
    let mut world = World::new();
    let r = load(&mut world, &vec![entry(&[], Some("#.x"))]);
    assert_eq!(r, Err(RegionError::BadPattern('x')));
}

#[test]
fn regions_outside_the_coordinate_space_are_rejected() {
    let mut world = World::new();
    let mut e = entry(&["frozen"], Some("##"));
    e.origin = [i64::MAX, 0];
    assert_eq!(load(&mut world, &vec![e]), Err(RegionError::OutOfRange));
}

#[test]
fn stale_frozen_masks_are_stripped() {
    let mut world = World::new();
    world.freeze_cell(3, 3, true);
    load(&mut world, &Vec::new()).expect("load");
    assert!(!world.get_chunk(0, 0).unwrap().is_frozen());
}

#[test]
fn flags_add_up() {
    let names: Vec<String> = ["owned", "locked", "frozen"].iter().map(|s| s.to_string()).collect();
    assert_eq!(parse_flags(&names), Ok(FLAG_FROZEN | FLAG_LOCKED | FLAG_OWNED));
    assert_eq!(parse_flags(&Vec::new()), Ok(0));
}

#[test]
fn who_may_edit() {
    let regions = vec![
        simple_region(0, 0, 10, 10, FLAG_FROZEN),
        simple_region(20, 0, 10, 10, FLAG_LOCKED),
        Region { x: 40, y: 0, w: 10, h: 10, flags: FLAG_LOCKED | FLAG_OWNED, owner: 7 },
    ];
    assert!(can_edit(&regions, 5, 5, None));
    assert!(!can_edit(&regions, 20, 0, Some(7)));
    assert!(can_edit(&regions, 30, 0, None));
    assert!(can_edit(&regions, 49, 9, Some(7)));
    assert!(!can_edit(&regions, 49, 9, Some(8)));
    assert!(!can_edit(&regions, 49, 9, None));
    assert!(can_edit(&regions, 50, 9, None));
}

#[test]
fn a_space_in_a_pattern_skips_its_cell() {
    let toml = r##"
[[regions]]
origin = [0, 0]
flags = ["locked"]
pattern = "# #\n.\n"
"##;
    let mut world = World::new();
    for (x, y) in [(1, 0), (0, 1), (1, 1), (3, 0)] {
        world.set_cell(x, y, true);
    }
    let regions = load(&mut world, &entries(toml)).expect("load");
    assert_eq!((regions[0].w, regions[0].h), (3, 2));
    let chunk = world.get_chunk(0, 0).expect("chunk exists");
    // The live cell under the space stays, and so does the one beside the region.
    assert_eq!(chunk.rows()[0] & 0xf, 0b1111);
    // The dot clears its cell, and so does the end of its line.
    assert_eq!(chunk.rows()[1] & 0xf, 0);
}

#[test]
fn a_space_over_a_dead_cell_leaves_it_dead() {
    let toml = r##"
[[regions]]
origin = [0, 0]
flags = ["frozen"]
pattern = "# #"
"##;
    let mut world = World::new();
    load(&mut world, &entries(toml)).expect("load");
    let chunk = world.get_chunk(0, 0).expect("chunk exists");
    assert_eq!(chunk.rows()[0], 0b101);
    assert!(chunk.is_frozen());
}

#[test]
fn a_region_without_cells_locks_nothing() {
    assert!(locked_chunks(&[simple_region(1, 1, 0, 5, FLAG_LOCKED)]).is_empty());
    assert!(locked_chunks(&[simple_region(1, 1, 5, 0, FLAG_LOCKED)]).is_empty());
    assert!(locked_chunks(&[simple_region(64, 64, 0, 0, FLAG_LOCKED)]).is_empty());
    assert_eq!(locked_chunks(&[simple_region(1, 1, 1, 1, FLAG_LOCKED)]).len(), 1);
}
