use spellcoder::cell::{Cell, Color, Material};
use spellcoder::noise::NoiseQuery;
use spellcoder::world::World;
use worldgen::noise::perlin::PerlinNoise;
use worldgen::noise::NoiseProvider;

const ORANGE: Color = Color { r: 255, g: 128, b: 0, a: 255 };

fn perlin(q: NoiseQuery) -> i32 {
    let value = PerlinNoise::new().generate(
        q.x as f64 / q.x_wavelength as f64,
        q.y as f64 / q.y_wavelength as f64,
        q.seed,
    );
    (value * 65536.0) as i32
}

fn open_sky(_q: NoiseQuery) -> i32 {
    0
}

fn chunk_count(world: &World) -> usize {
    world.chunks().iter().map(|row| row.len()).sum()
}

fn origins(world: &World) -> Vec<Vec<(i64, i64)>> {
    world
        .chunks()
        .iter()
        .map(|row| row.iter().map(|chunk| (chunk.x(), chunk.y())).collect())
        .collect()
}

fn block() -> Cell {
    Cell { x: 0, y: 0, material: Material::Block, color: ORANGE }
}

#[test]
fn world_with_seed_starts_empty() {
    let world = World::with_seed(42);
    assert_eq!(world.seed(), 42);
    assert!(!world.is_modified());
    assert!(world.chunks().is_empty());
}

#[test]
fn new_world_starts_empty() {
    let world = World::new();
    assert!(!world.is_modified());
    assert!(world.chunks().is_empty());
    let same_seed = World::with_seed(world.seed());
    assert_eq!(same_seed.seed(), world.seed());
}

#[test]
fn get_cell_generates_the_chunk_of_the_position() {
    let mut world = World::with_seed(42);
    let cell = *world.get_cell(20, 5, &perlin);
    assert_eq!((cell.x, cell.y), (4, 5));
    assert_eq!(chunk_count(&world), 1);
    assert_eq!(origins(&world), vec![vec![(16, 0)]]);
    assert!(world.is_modified());
    let direct = spellcoder::chunk::Chunk::generate(1, 0, &perlin, 42);
    assert_eq!(&cell, direct.get_cell(4, 5).unwrap());
}

#[test]
fn get_cell_in_a_held_chunk_generates_nothing() {
    let mut world = World::with_seed(42);
    let first = *world.get_cell(20, 5, &perlin);
    world.sort_chunks();
    let refuse = |_q: NoiseQuery| -> i32 { panic!("no chunk may be generated") };
    let second = *world.get_cell(20, 5, &refuse);
    let neighbour = *world.get_cell(31, 15, &refuse);
    assert_eq!(first, second);
    assert_eq!((neighbour.x, neighbour.y), (15, 15));
    assert_eq!(chunk_count(&world), 1);
    assert!(!world.is_modified());
}

#[test]
fn set_cell_changes_one_cell_of_the_chunk() {
    let mut world = World::with_seed(42);
    let mut before: Vec<Cell> = Vec::new();
    for x in 0..16 {
        for y in 0..16 {
            before.push(*world.get_cell(x, y, &open_sky));
        }
    }
    assert_eq!(before[3 * 16 + 3].material, Material::Air);
    world.sort_chunks();
    world.set_cell(3, 3, block(), &open_sky);
    let written = *world.get_cell(3, 3, &open_sky);
    assert_eq!(written, Cell { x: 3, y: 3, material: Material::Block, color: ORANGE });
    for x in 0..16 {
        for y in 0..16 {
            if (x, y) != (3, 3) {
                assert_eq!(*world.get_cell(x, y, &open_sky), before[(x * 16 + y) as usize]);
            }
        }
    }
    assert_eq!(chunk_count(&world), 1);
}

#[test]
fn set_cell_then_get_cell_returns_the_cell() {
    let positions: [(i64, i64); 8] =
        [(0, 0), (15, 15), (16, 0), (-1, -1), (-16, 31), (-17, 32), (1000, -1000), (7, -9)];
    let mut world = World::with_seed(7);
    for (x, y) in positions {
        let cell = Cell { x: 9, y: 9, material: Material::Block, color: ORANGE };
        world.set_cell(x, y, cell, &perlin);
        if world.is_modified() {
            world.sort_chunks();
        }
        let read = *world.get_cell(x, y, &perlin);
        assert_eq!(read.material, Material::Block);
        assert_eq!(read.color, ORANGE);
        assert_eq!(read.x as i64, x.rem_euclid(16));
        assert_eq!(read.y as i64, y.rem_euclid(16));
        assert!(!world.is_modified());
    }
    for (x, y) in positions {
        assert_eq!(world.get_cell(x, y, &perlin).color, ORANGE);
    }
    assert_eq!(chunk_count(&world), 7);
}

#[test]
fn set_cell_then_get_cell_at_the_ends_of_the_world() {
    let positions: [(i64, i64); 4] =
        [(i64::MAX, i64::MIN), (i64::MIN, i64::MAX), (i64::MAX, i64::MAX), (i64::MIN, i64::MIN)];
    let mut world = World::with_seed(7);
    for (x, y) in positions {
        world.set_cell(x, y, block(), &open_sky);
        world.sort_chunks();
        let read = *world.get_cell(x, y, &open_sky);
        assert_eq!(read.material, Material::Block);
        assert_eq!(read.color, ORANGE);
        assert_eq!(read.x as i64, x.rem_euclid(16));
        assert_eq!(read.y as i64, y.rem_euclid(16));
    }
    assert_eq!(chunk_count(&world), 4);
}

#[test]
fn set_cell_on_both_sides_of_a_chunk_border() {
    let mut world = World::with_seed(3);
    let red = Cell { x: 0, y: 0, material: Material::Block, color: Color { r: 255, g: 0, b: 0, a: 255 } };
    world.set_cell(15, 4, red, &open_sky);
    world.sort_chunks();
    world.set_cell(16, 4, block(), &open_sky);
    world.sort_chunks();
    assert_eq!(origins(&world), vec![vec![(0, 0), (16, 0)]]);
    let left = *world.get_cell(15, 4, &open_sky);
    let right = *world.get_cell(16, 4, &open_sky);
    assert_eq!((left.x, left.y, left.color), (15, 4, red.color));
    assert_eq!((right.x, right.y, right.color), (0, 4, ORANGE));
}

#[test]
fn get_chunk_twice_returns_the_same_chunk() {
    let mut world = World::with_seed(42);
    let first: Vec<Vec<Cell>> = {
        let chunk = world.get_chunk(-3, 2, &perlin);
        assert_eq!((chunk.x(), chunk.y()), (-48, 32));
        (0..16).map(|x| chunk.column(x).clone()).collect()
    };
    assert!(world.is_modified());
    world.sort_chunks();
    let refuse = |_q: NoiseQuery| -> i32 { panic!("no chunk may be generated") };
    let second: Vec<Vec<Cell>> = {
        let chunk = world.get_chunk(-3, 2, &refuse);
        assert_eq!((chunk.x(), chunk.y()), (-48, 32));
        (0..16).map(|x| chunk.column(x).clone()).collect()
    };
    assert_eq!(first, second);
    assert_eq!(chunk_count(&world), 1);
    assert!(!world.is_modified());
}

#[test]
fn get_chunk_keeps_what_was_written() {
    let mut world = World::with_seed(42);
    world.set_cell(-40, 35, block(), &open_sky);
    world.sort_chunks();
    let chunk = world.get_chunk(-3, 2, &open_sky);
    assert_eq!(
        chunk.get_cell(8, 3),
        Ok(&Cell { x: 8, y: 3, material: Material::Block, color: ORANGE })
    );
}

#[test]
fn a_miss_appends_and_marks_the_world() {
    let mut world = World::with_seed(1);
    world.get_chunk(0, 0, &open_sky);
    world.sort_chunks();
    assert!(!world.is_modified());
    world.get_chunk(1, 0, &open_sky);
    assert!(world.is_modified());
    assert_eq!(origins(&world), vec![vec![(0, 0), (16, 0)]]);
    world.sort_chunks();
    world.get_chunk(-1, 0, &open_sky);
    assert_eq!(origins(&world), vec![vec![(0, 0), (16, 0), (-16, 0)]]);
    world.sort_chunks();
    world.get_chunk(0, -1, &open_sky);
    assert_eq!(origins(&world), vec![vec![(-16, 0), (0, 0), (16, 0)], vec![(0, -16)]]);
    assert!(world.is_modified());
}

#[test]
fn sort_chunks_orders_rows_and_chunks() {
    let mut world = World::with_seed(1);
    let wanted: [(i64, i64); 7] = [(2, 1), (0, 1), (1, -1), (-4, 1), (0, 0), (3, -1), (-1, 0)];
    for (x, y) in wanted {
        world.get_chunk(x, y, &open_sky);
        world.sort_chunks();
        assert!(!world.is_modified());
    }
    assert_eq!(
        origins(&world),
        vec![
            vec![(16, -16), (48, -16)],
            vec![(-16, 0), (0, 0)],
            vec![(-64, 16), (0, 16), (32, 16)],
        ]
    );
    assert_eq!(chunk_count(&world), 7);
}

#[test]
fn sort_chunks_keeps_every_chunk_and_its_cells() {
    let mut world = World::with_seed(5);
    world.set_cell(40, 40, block(), &open_sky);
    world.sort_chunks();
    world.set_cell(-40, 40, block(), &open_sky);
    world.sort_chunks();
    world.set_cell(0, -3, block(), &open_sky);
    world.sort_chunks();
    assert_eq!(origins(&world), vec![vec![(0, -16)], vec![(-48, 32), (32, 32)]]);
    for (x, y) in [(40i64, 40i64), (-40, 40), (0, -3)] {
        assert_eq!(world.get_cell(x, y, &open_sky).color, ORANGE);
    }
    assert_eq!(chunk_count(&world), 3);
}

#[test]
fn sort_chunks_of_an_empty_world_does_nothing() {
    let mut world = World::with_seed(0);
    world.sort_chunks();
    assert!(world.chunks().is_empty());
    assert!(!world.is_modified());
}

#[test]
fn generate_chunk_appends_to_the_row_of_its_key() {
    let mut world = World::with_seed(11);
    world.generate_chunk(0, 2, &open_sky);
    assert!(world.is_modified());
    world.sort_chunks();
    world.generate_chunk(5, 2, &open_sky);
    world.generate_chunk(-5, 3, &open_sky);
    assert_eq!(origins(&world), vec![vec![(0, 32), (80, 32)], vec![(-80, 48)]]);
    assert!(world.is_modified());
}

#[test]
fn generated_cells_come_from_the_seed_of_the_world() {
    let mut world = World::with_seed(42);
    let seen = |q: NoiseQuery| -> i32 {
        assert_eq!(q.seed, 42);
        perlin(q)
    };
    let cell = *world.get_cell(-7, 100, &seen);
    let direct = spellcoder::chunk::Chunk::generate(-1, 6, &perlin, 42);
    assert_eq!(&cell, direct.get_cell(9, 4).unwrap());
}

#[test]
fn a_sorted_world_finds_every_chunk_again() {
    let mut world = World::with_seed(9);
    let wanted: [(i64, i64); 6] = [(0, 0), (0, 1), (0, -1), (3, 1), (-3, 1), (1, 0)];
    for (x, y) in wanted {
        world.get_chunk(x, y, &open_sky);
        world.sort_chunks();
    }
    let refuse = |_q: NoiseQuery| -> i32 { panic!("no chunk may be generated") };
    for (x, y) in wanted {
        let chunk = world.get_chunk(x, y, &refuse);
        assert_eq!((chunk.x(), chunk.y()), (x * 16, y * 16));
    }
    assert_eq!(chunk_count(&world), 6);
    assert!(!world.is_modified());
}

#[test]
fn an_unsorted_world_may_miss_a_chunk_that_it_holds() {
    let mut world = World::with_seed(9);
    world.get_chunk(0, 0, &open_sky);
    world.get_chunk(0, 1, &open_sky);
    world.sort_chunks();
    world.set_cell(0, -5, block(), &open_sky);
    assert!(world.is_modified());
    assert_eq!(origins(&world), vec![vec![(0, 0)], vec![(0, 16)], vec![(0, -16)]]);
    let read = *world.get_cell(0, -5, &open_sky);
    assert_eq!(read.material, Material::Air);
    assert_eq!(chunk_count(&world), 4);
    let mut sorted = World::with_seed(9);
    sorted.get_chunk(0, 0, &open_sky);
    sorted.get_chunk(0, 1, &open_sky);
    sorted.sort_chunks();
    sorted.set_cell(0, -5, block(), &open_sky);
    sorted.sort_chunks();
    assert_eq!(sorted.get_cell(0, -5, &open_sky).material, Material::Block);
    assert_eq!(chunk_count(&sorted), 3);
}
