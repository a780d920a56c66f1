use std::collections::VecDeque;
use voxel_lights::{
    Block, LightCell, LightColor, LightNode, Lights, Registry, Space, Vec2, Vec3, WorldConfig,
};

const AIR: u32 = 0;
const STONE: u32 = 1;
const RED_LAMP: u32 = 2;
const DIM_LAMP: u32 = 3;
const GLOW_STONE: u32 = 4;

fn registry() -> Registry {
    let air = Block {
        is_transparent: true,
        is_light: false,
        red_light_level: 0,
        green_light_level: 0,
        blue_light_level: 0,
    };
    let stone = Block { is_transparent: false, ..air };
    let red_lamp = Block { is_light: true, red_light_level: 15, ..air };
    let dim_lamp = Block { is_light: true, red_light_level: 10, blue_light_level: 4, ..air };
    let glow_stone = Block { is_transparent: false, is_light: true, green_light_level: 6, ..air };
    Registry { blocks: vec![air, stone, red_lamp, dim_lamp, glow_stone] }
}

fn config() -> WorldConfig {
    WorldConfig {
        max_height: 8,
        max_light_level: 15,
        chunk_size: 5,
        min_chunk: [0, 0],
        max_chunk: [0, 0],
    }
}

fn region(space: &mut Space, sx: usize, sz: usize) -> Vec<LightCell> {
    let min = Vec3(0, 0, 0);
    let shape = Vec3(sx, 8, sz);
    Lights::propagate(space, &min, &Vec2(0, 0), &shape, &registry(), &config())
}

fn light(space: &Space, x: i32, y: i32, z: i32, color: LightColor) -> u32 {
    space.get_light(x, y, z, &color)
}

fn every_voxel(sx: i32, sz: i32) -> Vec<(i32, i32, i32)> {
    let mut out = vec![];
    for x in 0..sx {
        for y in 0..8 {
            for z in 0..sz {
                out.push((x, y, z));
            }
        }
    }
    out
}

fn manhattan(a: (i32, i32, i32), b: (i32, i32, i32)) -> i32 {
    (a.0 - b.0).abs() + (a.1 - b.1).abs() + (a.2 - b.2).abs()
}

#[test]
fn empty_region_is_fully_sunlit() {
    let mut space = Space::new(0, 0, 5, 5, 8);
    region(&mut space, 5, 5);
    for (x, y, z) in every_voxel(5, 5) {
        assert_eq!(light(&space, x, y, z, LightColor::Sunlight), 15);
        assert_eq!(light(&space, x, y, z, LightColor::Red), 0);
        assert_eq!(light(&space, x, y, z, LightColor::Green), 0);
        assert_eq!(light(&space, x, y, z, LightColor::Blue), 0);
    }
}

#[test]
fn single_opaque_floor_voxel_is_dark() {
    let mut space = Space::new(0, 0, 5, 5, 8);
    space.set_voxel(2, 0, 2, STONE);
    region(&mut space, 5, 5);
    for (x, y, z) in every_voxel(5, 5) {
        let expected = if (x, y, z) == (2, 0, 2) { 0 } else { 15 };
        assert_eq!(light(&space, x, y, z, LightColor::Sunlight), expected);
        assert_eq!(light(&space, x, y, z, LightColor::Red), 0);
    }
}

#[test]
fn solid_roof_shades_everything_below() {
    let mut space = Space::new(0, 0, 5, 5, 8);
    for x in 0..5 {
        for z in 0..5 {
            space.set_voxel(x, 4, z, STONE);
        }
    }
    region(&mut space, 5, 5);
    for (x, y, z) in every_voxel(5, 5) {
        let expected = if y <= 4 { 0 } else { 15 };
        assert_eq!(light(&space, x, y, z, LightColor::Sunlight), expected);
    }
}

#[test]
fn partial_roof_lights_its_edge_from_the_side() {
    let mut space = Space::new(0, 0, 5, 5, 8);
    for x in 0..4 {
        for z in 0..5 {
            space.set_voxel(x, 4, z, STONE);
        }
    }
    region(&mut space, 5, 5);
    // column x = 4 is open to the sky
    for y in 0..8 {
        for z in 0..5 {
            assert_eq!(light(&space, 4, y, z, LightColor::Sunlight), 15);
        }
    }
    // under the roof, light falls off by one per step away from the open column
    for y in 0..4 {
        for z in 0..5 {
            for x in 0..4 {
                assert_eq!(light(&space, x, y, z, LightColor::Sunlight), 15 - (4 - x as u32));
            }
        }
    }
    for z in 0..5 {
        for x in 0..4 {
            assert_eq!(light(&space, x, 4, z, LightColor::Sunlight), 0);
        }
    }
}

#[test]
fn single_red_lamp_falls_off_with_distance() {
    let mut space = Space::new(0, 0, 5, 5, 8);
    space.set_voxel(2, 2, 2, RED_LAMP);
    let cells = region(&mut space, 5, 5);
    assert_eq!(cells.len(), 200);
    assert_eq!(cells[(2 * 5 + 2) * 8 + 2], LightCell { sun: 15, red: 15, green: 0, blue: 0 });
    assert_eq!(cells[(4 * 5 + 0) * 8 + 7].red, 15 - 9);
    assert_eq!(light(&space, 2, 2, 2, LightColor::Red), 15);
    for (x, y, z) in every_voxel(5, 5) {
        let d = manhattan((x, y, z), (2, 2, 2));
        let expected = if d <= 15 { 15 - d as u32 } else { 0 };
        assert_eq!(light(&space, x, y, z, LightColor::Red), expected);
        assert_eq!(light(&space, x, y, z, LightColor::Green), 0);
    }
}

#[test]
fn lamp_then_unlight_is_dark() {
    let mut space = Space::new(0, 0, 5, 5, 8);
    space.set_voxel(2, 2, 2, RED_LAMP);
    region(&mut space, 5, 5);
    Lights::remove_light(&mut space, &Vec3(2, 2, 2), &LightColor::Red, &config(), &registry());
    for (x, y, z) in every_voxel(5, 5) {
        assert_eq!(light(&space, x, y, z, LightColor::Red), 0);
    }
}

#[test]
fn lamp_beside_opaque_wall_lights_one_side() {
    let mut space = Space::new(0, 0, 5, 5, 8);
    for y in 0..8 {
        for z in 0..5 {
            space.set_voxel(3, y, z, STONE);
        }
    }
    space.set_voxel(2, 2, 2, RED_LAMP);
    region(&mut space, 5, 5);
    assert_eq!(light(&space, 2, 2, 2, LightColor::Red), 15);
    for (x, y, z) in every_voxel(5, 5) {
        let red = light(&space, x, y, z, LightColor::Red);
        if x >= 3 {
            assert_eq!(red, 0);
        } else {
            assert_eq!(red, 15 - manhattan((x, y, z), (2, 2, 2)) as u32);
        }
    }
}

#[test]
fn removing_one_of_two_lamps_matches_fresh_propagation() {
    let mut space = Space::new(0, 0, 5, 5, 8);
    space.set_voxel(1, 2, 1, RED_LAMP);
    space.set_voxel(3, 5, 3, DIM_LAMP);
    region(&mut space, 5, 5);
    space.set_voxel(1, 2, 1, AIR);
    Lights::remove_light(&mut space, &Vec3(1, 2, 1), &LightColor::Red, &config(), &registry());

    let mut fresh = Space::new(0, 0, 5, 5, 8);
    fresh.set_voxel(3, 5, 3, DIM_LAMP);
    region(&mut fresh, 5, 5);
    for (x, y, z) in every_voxel(5, 5) {
        assert_eq!(
            light(&space, x, y, z, LightColor::Red),
            light(&fresh, x, y, z, LightColor::Red),
            "at {:?}",
            (x, y, z)
        );
    }
}

#[test]
fn flood_with_empty_queue_changes_nothing() {
    let mut space = Space::new(0, 0, 5, 5, 8);
    space.set_voxel(2, 2, 2, RED_LAMP);
    region(&mut space, 5, 5);
    let before = space.red.clone();
    Lights::flood_light(
        &mut space,
        VecDeque::new(),
        &LightColor::Red,
        &registry(),
        &config(),
        None,
        None,
    );
    assert_eq!(space.red, before);
}

#[test]
fn flood_raises_and_never_lowers() {
    let mut space = Space::new(0, 0, 5, 5, 8);
    space.set_light(0, 0, 0, 9, &LightColor::Blue);
    space.set_light(4, 7, 4, 3, &LightColor::Blue);
    let mut queue = VecDeque::new();
    queue.push_back(LightNode { voxel: [0, 0, 0], level: 9 });
    let before = space.blue.clone();
    Lights::flood_light(&mut space, queue, &LightColor::Blue, &registry(), &config(), None, None);
    for (i, b) in before.iter().enumerate() {
        assert!(space.blue[i] >= *b);
    }
    assert_eq!(light(&space, 0, 0, 0, LightColor::Blue), 9);
    assert_eq!(light(&space, 1, 0, 0, LightColor::Blue), 8);
    assert_eq!(light(&space, 2, 1, 1, LightColor::Blue), 5);
    assert_eq!(light(&space, 4, 7, 4, LightColor::Blue), 3);
    assert_eq!(light(&space, 4, 4, 4, LightColor::Blue), 0);
    assert_eq!(light(&space, 0, 0, 0, LightColor::Red), 0);
}

#[test]
fn flood_sun_goes_down_without_loss_at_full_strength() {
    let mut space = Space::new(0, 0, 3, 3, 8);
    space.set_light(1, 7, 1, 15, &LightColor::Sunlight);
    let mut queue = VecDeque::new();
    queue.push_back(LightNode { voxel: [1, 7, 1], level: 15 });
    Lights::flood_light(&mut space, queue, &LightColor::Sunlight, &registry(), &config(), None, None);
    for y in 0..8 {
        assert_eq!(light(&space, 1, y, 1, LightColor::Sunlight), 15);
    }
    assert_eq!(light(&space, 0, 3, 1, LightColor::Sunlight), 14);
}

#[test]
fn flood_stays_inside_bounds_and_world() {
    let mut space = Space::new(-4, 0, 12, 4, 8);
    space.set_light(1, 3, 1, 12, &LightColor::Green);
    let mut queue = VecDeque::new();
    queue.push_back(LightNode { voxel: [1, 3, 1], level: 12 });
    let min = Vec3(0, 0, 0);
    let shape = Vec3(3, 8, 4);
    Lights::flood_light(
        &mut space,
        queue,
        &LightColor::Green,
        &registry(),
        &config(),
        Some(&min),
        Some(&shape),
    );
    assert_eq!(light(&space, 2, 3, 1, LightColor::Green), 11);
    assert_eq!(light(&space, 3, 3, 1, LightColor::Green), 0);
    assert_eq!(light(&space, -1, 3, 1, LightColor::Green), 0);
}

#[test]
fn flood_outside_world_chunks_is_rejected() {
    let mut space = Space::new(-4, 0, 8, 4, 8);
    space.set_light(0, 3, 1, 12, &LightColor::Green);
    let mut queue = VecDeque::new();
    queue.push_back(LightNode { voxel: [0, 3, 1], level: 12 });
    Lights::flood_light(&mut space, queue, &LightColor::Green, &registry(), &config(), None, None);
    assert_eq!(light(&space, 1, 3, 1, LightColor::Green), 11);
    assert_eq!(light(&space, -1, 3, 1, LightColor::Green), 0);
}

#[test]
fn wide_region_with_unequal_sides() {
    let mut space = Space::new(0, 0, 6, 3, 8);
    for x in 0..6 {
        for z in 0..3 {
            if x != 5 || z != 2 {
                space.set_voxel(x, 6, z, STONE);
            }
        }
    }
    let cfg = WorldConfig { chunk_size: 3, max_chunk: [1, 0], ..config() };
    let cells =
        Lights::propagate(&mut space, &Vec3(0, 0, 0), &Vec2(1, 0), &Vec3(6, 8, 3), &registry(), &cfg);
    assert_eq!(cells.len(), 3 * 3 * 8);
    // local (2, 0, 2) of chunk (1, 0) is voxel (5, 0, 2)
    assert_eq!(cells[(2 * 3 + 2) * 8].sun, 15);
    assert_eq!(cells[(1 * 3 + 2) * 8].sun, 14);
    assert_eq!(light(&space, 5, 0, 2, LightColor::Sunlight), 15);
    assert_eq!(light(&space, 4, 0, 2, LightColor::Sunlight), 14);
    assert_eq!(light(&space, 5, 0, 1, LightColor::Sunlight), 14);
    assert_eq!(light(&space, 0, 0, 0, LightColor::Sunlight), 15 - 7);
    assert_eq!(light(&space, 0, 6, 0, LightColor::Sunlight), 0);
}

#[test]
fn opaque_emitter_keeps_its_level() {
    let mut space = Space::new(0, 0, 5, 5, 8);
    space.set_voxel(2, 3, 2, GLOW_STONE);
    region(&mut space, 5, 5);
    assert_eq!(light(&space, 2, 3, 2, LightColor::Green), 6);
    assert_eq!(light(&space, 2, 4, 2, LightColor::Green), 5);
    assert_eq!(light(&space, 0, 3, 2, LightColor::Green), 4);
    assert_eq!(light(&space, 2, 3, 2, LightColor::Sunlight), 0);
    assert_eq!(light(&space, 2, 2, 2, LightColor::Sunlight), 14);
}

#[test]
fn propagation_resets_stale_light() {
    let mut space = Space::new(0, 0, 5, 5, 8);
    space.set_light(1, 1, 1, 13, &LightColor::Blue);
    space.set_voxel(4, 4, 4, STONE);
    space.set_light(4, 4, 4, 7, &LightColor::Sunlight);
    region(&mut space, 5, 5);
    assert_eq!(light(&space, 1, 1, 1, LightColor::Blue), 0);
    assert_eq!(light(&space, 4, 4, 4, LightColor::Sunlight), 0);
}

#[test]
fn dim_lamp_emits_on_two_channels() {
    let mut space = Space::new(0, 0, 5, 5, 8);
    space.set_voxel(0, 0, 0, DIM_LAMP);
    region(&mut space, 5, 5);
    assert_eq!(light(&space, 0, 0, 0, LightColor::Red), 10);
    assert_eq!(light(&space, 0, 0, 0, LightColor::Blue), 4);
    assert_eq!(light(&space, 2, 0, 0, LightColor::Blue), 2);
    assert_eq!(light(&space, 4, 0, 4, LightColor::Blue), 0);
    assert_eq!(light(&space, 4, 0, 4, LightColor::Red), 2);
}

#[test]
fn registry_and_space_accessors() {
    let reg = registry();
    assert!(!reg.get_block_by_id(STONE).is_transparent);
    assert_eq!(reg.get_block_by_id(RED_LAMP).red_light_level, 15);
    let mut space = Space::new(10, -3, 2, 2, 4);
    space.set_voxel(11, 3, -2, STONE);
    assert_eq!(space.get_voxel(11, 3, -2), STONE);
    assert_eq!(space.get_voxel(10, 3, -2), AIR);
    assert_eq!(space.get_voxel(12, 3, -2), AIR);
    space.set_light(12, 0, 0, 5, &LightColor::Red);
    assert_eq!(space.get_light(12, 0, 0, &LightColor::Red), 0);
    assert_eq!(space.index_of(10, 0, -3), Some(0));
    assert_eq!(space.index_of(11, 3, -2), Some(15));
    assert_eq!(space.index_of(9, 0, -3), None);
    let cfg = config();
    assert!(cfg.in_world_exec(4, 0));
    assert!(!cfg.in_world_exec(5, 0));
    assert!(!cfg.in_world_exec(-1, 3));
    assert!(space.get_lights(0, 0, &cfg).is_none());
    let small = WorldConfig { chunk_size: 2, max_height: 4, ..cfg };
    let mut aligned = Space::new(10, -4, 2, 2, 4);
    aligned.set_light(11, 2, -3, 7, &LightColor::Green);
    let cells = aligned.get_lights(5, -2, &small).unwrap();
    assert_eq!(cells.len(), 16);
    assert_eq!(cells[(1 * 2 + 1) * 4 + 2].green, 7);
    assert_eq!(cells[(1 * 2 + 1) * 4 + 1].green, 0);
    assert!(aligned.get_lights(5, -1, &small).is_none());
    assert!(space.get_lights(5, -2, &small).is_none());
}

#[test]
fn flood_again_from_a_steady_field_changes_nothing() {
    let mut space = Space::new(0, 0, 5, 5, 8);
    space.set_voxel(2, 2, 2, RED_LAMP);
    space.set_voxel(1, 1, 1, STONE);
    region(&mut space, 5, 5);
    let before = space.red.clone();
    let mut queue = VecDeque::new();
    queue.push_back(LightNode { voxel: [2, 2, 2], level: 15 });
    queue.push_back(LightNode { voxel: [0, 0, 0], level: 3 });
    let min = Vec3(0, 0, 0);
    let shape = Vec3(5, 8, 5);
    Lights::flood_light(
        &mut space,
        queue,
        &LightColor::Red,
        &registry(),
        &config(),
        Some(&min),
        Some(&shape),
    );
    assert_eq!(space.red, before);
}

#[test]
fn removing_a_dark_voxel_changes_nothing() {
    let mut space = Space::new(0, 0, 5, 5, 8);
    space.set_voxel(2, 2, 2, RED_LAMP);
    space.set_voxel(0, 3, 0, STONE);
    region(&mut space, 5, 5);
    let before = space.red.clone();
    let sun_before = space.sun.clone();
    Lights::remove_light(&mut space, &Vec3(0, 3, 0), &LightColor::Red, &config(), &registry());
    assert_eq!(space.red, before);
    assert_eq!(space.sun, sun_before);
}

#[test]
fn removing_one_lamp_keeps_the_other_brighter_side() {
    let mut space = Space::new(0, 0, 5, 5, 8);
    space.set_voxel(0, 0, 0, RED_LAMP);
    space.set_voxel(4, 7, 4, DIM_LAMP);
    region(&mut space, 5, 5);
    let before = space.red.clone();
    space.set_voxel(0, 0, 0, AIR);
    Lights::remove_light(&mut space, &Vec3(0, 0, 0), &LightColor::Red, &config(), &registry());
    for (i, b) in before.iter().enumerate() {
        assert!(space.red[i] <= *b);
    }
    assert_eq!(light(&space, 4, 7, 4, LightColor::Red), 10);
    assert_eq!(light(&space, 0, 0, 0, LightColor::Red), 0);
    assert_eq!(light(&space, 3, 7, 4, LightColor::Red), 9);
}
