use spellcoder::cell::{Cell, Color, Material};
use spellcoder::coords::{chunk_coord, is_valid_chunk_coord, local_coord};
use spellcoder::visible::{get_visible_chunk_range, ChunkRange, CELL_SCALE, CHUNK_SPAN};

#[test]
fn chunk_coord_floors_toward_negative_infinity() {
    assert_eq!(chunk_coord(0), 0);
    assert_eq!(chunk_coord(15), 0);
    assert_eq!(chunk_coord(16), 1);
    assert_eq!(chunk_coord(20), 1);
    assert_eq!(chunk_coord(-1), -1);
    assert_eq!(chunk_coord(-16), -1);
    assert_eq!(chunk_coord(-17), -2);
}

#[test]
fn chunk_coord_covers_every_world_coordinate() {
    assert_eq!(chunk_coord(i64::MAX), 576460752303423487);
    assert_eq!(chunk_coord(i64::MIN), -576460752303423488);
}

#[test]
fn local_coord_is_never_negative() {
    assert_eq!(local_coord(0), 0);
    assert_eq!(local_coord(15), 15);
    assert_eq!(local_coord(16), 0);
    assert_eq!(local_coord(20), 4);
    assert_eq!(local_coord(-1), 15);
    assert_eq!(local_coord(-15), 1);
    assert_eq!(local_coord(-16), 0);
    assert_eq!(local_coord(-17), 15);
    assert_eq!(local_coord(i64::MAX), 15);
    assert_eq!(local_coord(i64::MIN), 0);
}

#[test]
fn chunk_and_local_coordinate_give_the_world_coordinate_back() {
    let mut w: i64 = -100;
    while w <= 100 {
        assert_eq!(chunk_coord(w) * 16 + local_coord(w) as i64, w);
        w += 1;
    }
}

#[test]
fn visible_range_at_the_origin_holds_the_first_chunk() {
    let range = get_visible_chunk_range(0, 0, 640, 480);
    assert_eq!(range, ChunkRange { x_min: -11, x_max: 1, y_min: -10, y_max: 2 });
    assert!(range.x_min <= 0 && 0 <= range.x_max);
    assert!(range.y_min <= 0 && 0 <= range.y_max);
    let point = get_visible_chunk_range(0, 0, 0, 0);
    assert_eq!(point, ChunkRange { x_min: -1, x_max: 1, y_min: -2, y_max: 2 });
}

#[test]
fn visible_range_grows_linearly_with_the_extent() {
    let mut extent: i64 = 0;
    while extent <= 4096 {
        let range = get_visible_chunk_range(0, 0, extent, extent);
        assert_eq!(range.x_max - range.x_min, 2 + (extent + 63) / CHUNK_SPAN);
        assert_eq!(range.y_max - range.y_min, 4 + (extent + 63) / CHUNK_SPAN);
        let wider = get_visible_chunk_range(0, 0, extent + CHUNK_SPAN, extent + CHUNK_SPAN);
        assert_eq!(wider.x_min, range.x_min - 1);
        assert_eq!(wider.y_min, range.y_min - 1);
        assert_eq!((wider.x_max, wider.y_max), (range.x_max, range.y_max));
        extent += 17;
    }
}

#[test]
fn visible_range_follows_the_centre() {
    let range = get_visible_chunk_range(1000, -1000, 640, 480);
    assert_eq!(range, ChunkRange { x_min: 4, x_max: 16, y_min: -26, y_max: -14 });
}

#[test]
fn visible_range_holds_the_chunks_that_meet_the_view() {
    for (center, extent) in [(0i64, 640i64), (-777, 300), (5000, 1), (-64, 64), (63, 0)] {
        let range = get_visible_chunk_range(center, center, extent, extent);
        let low_x = center - 64 - extent;
        let high_x = center + 64;
        let low_y = center - 128 - extent;
        let high_y = center + 128;
        for chunk in -200i64..200 {
            let meets_x = chunk * CHUNK_SPAN <= high_x && low_x < (chunk + 1) * CHUNK_SPAN;
            let meets_y = chunk * CHUNK_SPAN <= high_y && low_y < (chunk + 1) * CHUNK_SPAN;
            assert_eq!(range.x_min <= chunk && chunk <= range.x_max, meets_x);
            assert_eq!(range.y_min <= chunk && chunk <= range.y_max, meets_y);
        }
    }
}

#[test]
fn visible_range_takes_every_input() {
    let range = get_visible_chunk_range(i64::MAX, i64::MIN, i64::MAX, i64::MAX);
    assert_eq!(range.x_min, -1);
    assert_eq!(range.x_max, 144115188075855872);
    assert_eq!(range.y_min, -288230376151711746);
    assert_eq!(range.y_max, -144115188075855870);
}

#[test]
fn a_chunk_spans_its_cells_at_the_cell_scale() {
    assert_eq!(CHUNK_SPAN, 16 * CELL_SCALE);
}

#[test]
fn every_chunk_coordinate_of_a_world_coordinate_is_valid() {
    assert!(is_valid_chunk_coord(chunk_coord(i64::MAX)));
    assert!(is_valid_chunk_coord(chunk_coord(i64::MIN)));
    assert!(is_valid_chunk_coord(0));
    assert!(!is_valid_chunk_coord(chunk_coord(i64::MAX) + 1));
    assert!(!is_valid_chunk_coord(chunk_coord(i64::MIN) - 1));
    assert!(!is_valid_chunk_coord(i64::MAX));
}

#[test]
fn only_blocks_are_solid() {
    let clear = Color { r: 0, g: 0, b: 0, a: 0 };
    let air = Cell::new(1, 2, Material::Air, clear);
    let block = Cell::new(1, 2, Material::Block, clear);
    assert_eq!(air, Cell { x: 1, y: 2, material: Material::Air, color: clear });
    assert!(!air.is_solid());
    assert!(block.is_solid());
}
