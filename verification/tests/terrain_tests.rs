use interpolation::Ease;
use spellcoder::cell::{Cell, Color, Material};
use spellcoder::noise::{NoiseQuery, NOISE_UNIT};
use spellcoder::terrain::{
    classify, ease_cubic_out, haze_alpha, sample_cell, shade, terrain_cell, Band, GRASS_GAIN,
    SOIL_LEVEL, STONE_GAIN, STONE_LEVEL,
};

#[test]
fn classify_puts_each_height_in_its_band() {
    assert_eq!(classify(i32::MAX), Band::Stone);
    assert_eq!(classify(20481), Band::Stone);
    assert_eq!(classify(20480), Band::Grass);
    assert_eq!(classify(16385), Band::Grass);
    assert_eq!(classify(16384), Band::Void);
    assert_eq!(classify(16383), Band::Haze);
    assert_eq!(classify(0), Band::Haze);
    assert_eq!(classify(i32::MIN), Band::Haze);
}

#[test]
fn thresholds_are_fractions_of_the_noise_unit() {
    assert_eq!(STONE_LEVEL * 256, 80 * NOISE_UNIT);
    assert_eq!(SOIL_LEVEL * 256, 64 * NOISE_UNIT);
}

#[test]
fn shade_adds_the_scaled_detail_to_the_base() {
    assert_eq!(shade(0, STONE_GAIN), 128);
    assert_eq!(shade(65536, STONE_GAIN), 144);
    assert_eq!(shade(-65536, STONE_GAIN), 112);
    assert_eq!(shade(65536, GRASS_GAIN), 160);
    assert_eq!(shade(-65536, GRASS_GAIN), 96);
    assert_eq!(shade(32768, GRASS_GAIN), 144);
}

#[test]
fn shade_rounds_down() {
    assert_eq!(shade(-1, STONE_GAIN), 127);
    assert_eq!(shade(1, STONE_GAIN), 128);
    assert_eq!(shade(4095, STONE_GAIN), 128);
    assert_eq!(shade(4096, STONE_GAIN), 129);
}

#[test]
fn shade_stays_inside_a_colour_channel() {
    assert_eq!(shade(i32::MAX, 1024), 255);
    assert_eq!(shade(i32::MIN, 1024), 0);
    assert_eq!(shade(i32::MAX, 0), 128);
    assert_eq!(shade(i32::MAX, i64::MAX), 255);
    assert_eq!(shade(i32::MIN, i64::MAX), 0);
    assert_eq!(shade(i32::MIN, i64::MIN), 255);
    assert_eq!(shade(65536, -16), 112);
}

#[test]
fn shade_is_monotonic_in_the_detail() {
    let mut last: u8 = 0;
    let mut detail: i32 = -600_000;
    while detail <= 600_000 {
        let now = shade(detail, GRASS_GAIN);
        assert!(now >= last);
        last = now;
        detail += 1000;
    }
}

#[test]
fn ease_cubic_out_follows_the_cubic() {
    assert_eq!(ease_cubic_out(0), 0);
    assert_eq!(ease_cubic_out(65536), 65536);
    assert_eq!(ease_cubic_out(32768), 57344);
    assert_eq!(ease_cubic_out(16384), 37888);
    assert_eq!(ease_cubic_out(49152), 64512);
}

#[test]
fn ease_cubic_out_limits_its_argument() {
    assert_eq!(ease_cubic_out(-1), 0);
    assert_eq!(ease_cubic_out(i64::MIN), 0);
    assert_eq!(ease_cubic_out(65537), 65536);
    assert_eq!(ease_cubic_out(i64::MAX), 65536);
}

#[test]
fn haze_alpha_scales_density_by_the_eased_depth() {
    assert_eq!(haze_alpha(65536, 65536), 200);
    assert_eq!(haze_alpha(32768, 65536), 100);
    assert_eq!(haze_alpha(65536, 32768), 199);
    assert_eq!(haze_alpha(65536, 16384), 184);
    assert_eq!(haze_alpha(65536, 0), 0);
}

#[test]
fn haze_alpha_stays_inside_a_colour_channel() {
    assert_eq!(haze_alpha(-65536, 65536), 0);
    assert_eq!(haze_alpha(i32::MIN, 65536), 0);
    assert_eq!(haze_alpha(i32::MAX, 65536), 255);
    assert_eq!(haze_alpha(0, 65536), 0);
}

#[test]
fn terrain_cell_of_stone_is_a_grey_block() {
    let cell = terrain_cell(3, 7, 30000, 65536);
    assert_eq!(
        cell,
        Cell {
            x: 3,
            y: 7,
            material: Material::Block,
            color: Color { r: 144, g: 144, b: 144, a: 255 },
        }
    );
}

#[test]
fn terrain_cell_of_grass_is_a_green_block() {
    let cell = terrain_cell(0, 15, 17000, 65536);
    assert_eq!(
        cell,
        Cell {
            x: 0,
            y: 15,
            material: Material::Block,
            color: Color { r: 0, g: 160, b: 0, a: 255 },
        }
    );
}

#[test]
fn terrain_cell_below_the_soil_is_hazy_air() {
    let cell = terrain_cell(9, 2, 0, 65536);
    assert_eq!(
        cell,
        Cell {
            x: 9,
            y: 2,
            material: Material::Air,
            color: Color { r: 255, g: 255, b: 255, a: 184 },
        }
    );
}

#[test]
fn terrain_cell_at_the_soil_level_is_clear_air() {
    let cell = terrain_cell(1, 1, 16384, 65536);
    assert_eq!(
        cell,
        Cell { x: 1, y: 1, material: Material::Air, color: Color { r: 0, g: 0, b: 0, a: 0 } }
    );
}

#[test]
fn material_is_monotonic_in_the_height() {
    let mut solid_seen = false;
    let mut height: i32 = 0;
    while height <= 40000 {
        let solid = terrain_cell(0, 0, height, 0).is_solid();
        if solid_seen {
            assert!(solid);
        }
        solid_seen = solid_seen || solid;
        height += 64;
    }
    assert!(solid_seen);
}

#[test]
fn sample_cell_asks_for_the_height_and_the_shading_of_stone() {
    let noise = |q: NoiseQuery| -> i32 {
        assert_eq!((q.x, q.y, q.seed), (-37, 1234, 9));
        if (q.x_wavelength, q.y_wavelength) == (320, 128) {
            30000
        } else if (q.x_wavelength, q.y_wavelength) == (32, 32) {
            -65536
        } else {
            panic!("unexpected query")
        }
    };
    let cell = sample_cell(&noise, 9, -37, 1234, 11, 2);
    assert_eq!(
        cell,
        Cell {
            x: 11,
            y: 2,
            material: Material::Block,
            color: Color { r: 112, g: 112, b: 112, a: 255 },
        }
    );
}

#[test]
fn sample_cell_asks_for_the_height_and_the_haze_of_air() {
    let noise = |q: NoiseQuery| -> i32 {
        assert_eq!((q.x, q.y, q.seed), (5, -6, 77));
        if (q.x_wavelength, q.y_wavelength) == (320, 128) {
            -49152
        } else if (q.x_wavelength, q.y_wavelength) == (96, 32) {
            32768
        } else {
            panic!("unexpected query")
        }
    };
    let cell = sample_cell(&noise, 77, 5, -6, 5, 10);
    assert_eq!(
        cell,
        Cell {
            x: 5,
            y: 10,
            material: Material::Air,
            color: Color { r: 255, g: 255, b: 255, a: 100 },
        }
    );
}

#[test]
fn sample_cell_asks_once_at_the_soil_level() {
    let noise = |q: NoiseQuery| -> i32 {
        assert_eq!((q.x_wavelength, q.y_wavelength), (320, 128));
        16384
    };
    let cell = sample_cell(&noise, 1, 0, 0, 0, 0);
    assert_eq!(cell.material, Material::Air);
    assert_eq!(cell.color, Color { r: 0, g: 0, b: 0, a: 0 });
}

#[test]
fn ease_cubic_out_agrees_with_the_floating_point_easing() {
    let mut t: i64 = -70000;
    while t <= 140000 {
        let fixed = ease_cubic_out(t) as f64 / 65536.0;
        let float = (t as f64 / 65536.0).cubic_out();
        assert!((fixed - float).abs() <= 1.0 / 65536.0);
        t += 97;
    }
}

#[test]
fn shade_agrees_with_the_floating_point_formula() {
    let mut detail: i32 = -70000;
    while detail <= 70000 {
        let float = (detail as f64 / 65536.0 * 16.0 + 128.0) as u8;
        assert_eq!(shade(detail, STONE_GAIN), float);
        let float = (detail as f64 / 65536.0 * 32.0 + 128.0) as u8;
        assert_eq!(shade(detail, GRASS_GAIN), float);
        detail += 61;
    }
}

#[test]
fn haze_alpha_agrees_with_the_floating_point_formula() {
    let mut haze: i32 = -70000;
    while haze <= 70000 {
        let mut height: i64 = -70000;
        while height < SOIL_LEVEL {
            let depth = SOIL_LEVEL - height;
            let eased = (depth as f64 / 65536.0).cubic_out().cubic_out();
            let float = (haze as f64 / 65536.0 * 200.0 * eased).clamp(0.0, 255.0);
            let fixed = haze_alpha(haze, depth) as f64;
            assert!((fixed - float).abs() <= 1.0);
            height += 1733;
        }
        haze += 3001;
    }
}
