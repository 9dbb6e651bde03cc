use spellcoder::cell::{Cell, Color, Material};
use spellcoder::chunk::Chunk;
use spellcoder::noise::NoiseQuery;
use spellcoder::terrain::terrain_cell;
use worldgen::noise::perlin::PerlinNoise;
use worldgen::noise::NoiseProvider;

const WHITE: Color = Color { r: 255, g: 255, b: 255, a: 255 };
const RED: Color = Color { r: 255, g: 0, b: 0, a: 255 };

fn block(x: u8, y: u8) -> Cell {
    Cell { x, y, material: Material::Block, color: WHITE }
}

fn perlin(q: NoiseQuery) -> i32 {
    let value = PerlinNoise::new().generate(
        q.x as f64 / q.x_wavelength as f64,
        q.y as f64 / q.y_wavelength as f64,
        q.seed,
    );
    (value * 65536.0) as i32
}

fn rows_of(chunk: &Chunk, x: usize) -> Vec<u8> {
    chunk.column(x).iter().map(|cell| cell.y).collect()
}

#[test]
fn new_chunk_is_empty_at_its_origin() {
    let chunk = Chunk::new(-32, 48);
    assert_eq!(chunk.x(), -32);
    assert_eq!(chunk.y(), 48);
    for x in 0..16 {
        assert!(chunk.column(x).is_empty());
        for y in 0..16 {
            assert_eq!(chunk.get_cell(x, y), Err(0));
        }
    }
}

#[test]
fn add_cell_keeps_the_column_sorted() {
    let mut chunk = Chunk::new(0, 0);
    for y in [5u8, 2, 9, 0, 15, 7] {
        chunk.add_cell(block(3, y));
        let rows = rows_of(&chunk, 3);
        assert!(rows.windows(2).all(|pair| pair[0] < pair[1]));
    }
    assert_eq!(rows_of(&chunk, 3), vec![0, 2, 5, 7, 9, 15]);
    assert!(rows_of(&chunk, 2).is_empty());
    assert!(rows_of(&chunk, 4).is_empty());
}

#[test]
fn add_cell_in_descending_order_ends_ascending() {
    let mut chunk = Chunk::new(0, 0);
    for y in (0..16u8).rev() {
        chunk.add_cell(block(0, y));
    }
    assert_eq!(rows_of(&chunk, 0), (0..16u8).collect::<Vec<u8>>());
}

#[test]
fn get_cell_returns_the_cell_at_the_position() {
    let mut chunk = Chunk::new(0, 0);
    chunk.add_cell(block(3, 5));
    chunk.add_cell(Cell { x: 3, y: 2, material: Material::Air, color: RED });
    chunk.add_cell(block(4, 2));
    assert_eq!(chunk.get_cell(3, 5), Ok(&block(3, 5)));
    assert_eq!(
        chunk.get_cell(3, 2),
        Ok(&Cell { x: 3, y: 2, material: Material::Air, color: RED })
    );
    assert_eq!(chunk.get_cell(4, 2), Ok(&block(4, 2)));
}

#[test]
fn get_cell_reports_where_a_missing_cell_belongs() {
    let mut chunk = Chunk::new(0, 0);
    for y in [2u8, 5, 9] {
        chunk.add_cell(block(3, y));
    }
    assert_eq!(chunk.get_cell(3, 0), Err(0));
    assert_eq!(chunk.get_cell(3, 3), Err(1));
    assert_eq!(chunk.get_cell(3, 6), Err(2));
    assert_eq!(chunk.get_cell(3, 15), Err(3));
    assert_eq!(chunk.get_cell(4, 5), Err(0));
}

#[test]
fn the_reported_index_keeps_the_column_sorted() {
    let mut chunk = Chunk::new(0, 0);
    for y in [1u8, 4, 8, 12] {
        chunk.add_cell(block(7, y));
    }
    for y in 0..16usize {
        if let Err(index) = chunk.get_cell(7, y) {
            let mut rows = rows_of(&chunk, 7);
            rows.insert(index, y as u8);
            assert!(rows.windows(2).all(|pair| pair[0] < pair[1]));
        }
    }
}

#[test]
fn set_cell_overwrites_in_place() {
    let mut chunk = Chunk::new(0, 0);
    for y in [2u8, 5, 9] {
        chunk.add_cell(block(3, y));
    }
    let air = Cell { x: 3, y: 5, material: Material::Air, color: RED };
    chunk.set_cell(air);
    assert_eq!(rows_of(&chunk, 3), vec![2, 5, 9]);
    assert_eq!(chunk.get_cell(3, 5), Ok(&air));
    assert_eq!(chunk.get_cell(3, 2), Ok(&block(3, 2)));
    assert_eq!(chunk.get_cell(3, 9), Ok(&block(3, 9)));
}

#[test]
fn set_cell_adds_a_missing_cell_in_order() {
    let mut chunk = Chunk::new(0, 0);
    for y in [2u8, 9] {
        chunk.add_cell(block(3, y));
    }
    chunk.set_cell(block(3, 5));
    chunk.set_cell(block(3, 0));
    assert_eq!(rows_of(&chunk, 3), vec![0, 2, 5, 9]);
    assert_eq!(chunk.get_cell(3, 5), Ok(&block(3, 5)));
}

#[test]
fn columns_stay_sorted_under_mixed_writes() {
    let mut chunk = Chunk::new(0, 0);
    let mut state: u32 = 12345;
    for _ in 0..400 {
        state = state.wrapping_mul(1103515245).wrapping_add(12345);
        let x = ((state >> 16) % 16) as u8;
        let y = ((state >> 20) % 16) as u8;
        if chunk.get_cell(x as usize, y as usize).is_err() && state % 2 == 0 {
            chunk.add_cell(block(x, y));
        } else {
            chunk.set_cell(Cell { x, y, material: Material::Air, color: RED });
        }
        for column in 0..16 {
            let rows = rows_of(&chunk, column);
            assert!(rows.windows(2).all(|pair| pair[0] < pair[1]));
            assert!(chunk.column(column).iter().all(|cell| cell.x as usize == column));
        }
    }
}

#[test]
fn generate_fills_every_position() {
    let chunk = Chunk::generate(2, -3, &perlin, 42);
    assert_eq!(chunk.x(), 32);
    assert_eq!(chunk.y(), -48);
    for x in 0..16usize {
        assert_eq!(rows_of(&chunk, x), (0..16u8).collect::<Vec<u8>>());
        for y in 0..16usize {
            let cell = chunk.get_cell(x, y).expect("generated cell");
            assert_eq!((cell.x as usize, cell.y as usize), (x, y));
        }
    }
}

#[test]
fn generate_samples_the_world_position_of_each_cell() {
    let noise = |q: NoiseQuery| -> i32 {
        if q.x_wavelength == 320 {
            if q.x >= -20 && q.y < 37 {
                30000
            } else {
                0
            }
        } else {
            0
        }
    };
    let chunk = Chunk::generate(-2, 2, &noise, 0);
    for x in 0..16usize {
        for y in 0..16usize {
            let world_x = -32 + x as i64;
            let world_y = 32 + y as i64;
            let solid = world_x >= -20 && world_y < 37;
            assert_eq!(chunk.get_cell(x, y).unwrap().is_solid(), solid);
        }
    }
}

#[test]
fn generate_is_deterministic() {
    let first = Chunk::generate(0, 0, &perlin, 42);
    let second = Chunk::generate(0, 0, &perlin, 42);
    for x in 0..16usize {
        assert_eq!(first.column(x), second.column(x));
    }
    let third = Chunk::generate(-5, 9, &perlin, 7);
    let fourth = Chunk::generate(-5, 9, &perlin, 7);
    for x in 0..16usize {
        assert_eq!(third.column(x), fourth.column(x));
    }
}

#[test]
fn generated_corners_match_the_classified_noise() {
    let chunk = Chunk::generate(0, 0, &perlin, 42);
    let noise = PerlinNoise::new();
    for (x, y) in [(0usize, 0usize), (15, 15)] {
        let cell = chunk.get_cell(x, y).expect("generated cell");
        let value = noise.generate(x as f64 / 320.0, y as f64 / 128.0, 42);
        let expected = if value > 64.0 / 256.0 { Material::Block } else { Material::Air };
        assert_eq!(cell.material, expected);
        let height = perlin(NoiseQuery {
            x: x as i64,
            x_wavelength: 320,
            y: y as i64,
            y_wavelength: 128,
            seed: 42,
        });
        assert_eq!(cell.material, terrain_cell(x as u8, y as u8, height, 0).material);
    }
}

#[test]
fn generate_reaches_the_ends_of_the_world() {
    let flat = |_q: NoiseQuery| -> i32 { 30000 };
    let last = Chunk::generate(576460752303423487, -576460752303423488, &flat, 1);
    assert_eq!(last.x(), i64::MAX - 15);
    assert_eq!(last.y(), i64::MIN);
    assert!(last.get_cell(15, 15).unwrap().is_solid());
}
