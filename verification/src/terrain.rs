//! Terrain classification: from noise samples to a cell's material and colour.
//!
//! A cell is classified by the height sample at its world coordinate, which
//! falls into one of four bands. Stone and grass are shaded by a second,
//! finer sample; the air below the soil level carries a haze whose density
//! comes from a second sample and from the depth below that level.

use vstd::prelude::*;
use crate::cell::{Cell, Color, Material};
use crate::noise::{is_deterministic, is_total, NoiseQuery, NOISE_UNIT};

verus! {

/// Height above which a cell is stone (80/256 of the noise unit).
pub const STONE_LEVEL: i64 = 20480;

/// Height above which a cell is solid (64/256 of the noise unit).
pub const SOIL_LEVEL: i64 = 16384;

/// Wavelength of the height sample on the x axis.
pub const HEIGHT_WAVELENGTH_X: i64 = 320;

/// Wavelength of the height sample on the y axis.
pub const HEIGHT_WAVELENGTH_Y: i64 = 128;

/// Wavelength of the shading sample, on both axes.
pub const DETAIL_WAVELENGTH: i64 = 32;

/// Wavelength of the haze sample on the x axis.
pub const HAZE_WAVELENGTH_X: i64 = 96;

/// Wavelength of the haze sample on the y axis.
pub const HAZE_WAVELENGTH_Y: i64 = 32;

/// How strongly the shading sample moves the grey of stone.
pub const STONE_GAIN: i64 = 16;

/// How strongly the shading sample moves the green of grass.
pub const GRASS_GAIN: i64 = 32;

/// Opacity of the haze at full density.
pub const HAZE_GAIN: i64 = 200;

/// The shade of a cell whose shading sample is zero.
pub const SHADE_BASE: i64 = 128;

/// The four bands of the height sample.
#[derive(Clone, Copy, Debug, PartialEq, Eq, Structural)]
pub enum Band {
    /// Above `STONE_LEVEL`: a grey block.
    Stone,
    /// Above `SOIL_LEVEL`, up to `STONE_LEVEL`: a green block.
    Grass,
    /// Below `SOIL_LEVEL`: air with a white haze.
    Haze,
    /// Exactly `SOIL_LEVEL`: clear air.
    Void,
}

/// The band of a height sample.
pub open spec fn band_of(height: int) -> Band {
    if height > STONE_LEVEL {
        Band::Stone
    } else if height > SOIL_LEVEL {
        Band::Grass
    } else if height < SOIL_LEVEL {
        Band::Haze
    } else {
        Band::Void
    }
}

/// The material of a cell in the band: stone and grass are blocks.
pub open spec fn material_of(band: Band) -> Material {
    match band {
        Band::Stone | Band::Grass => Material::Block,
        Band::Haze | Band::Void => Material::Air,
    }
}

/// `v`, limited to the range of a colour channel.
pub open spec fn clamp_byte(v: int) -> int {
    if v < 0 {
        0
    } else if v > 255 {
        255
    } else {
        v
    }
}

/// `v`, limited to the range from zero to the noise unit.
pub open spec fn clamp_unit(v: int) -> int {
    if v < 0 {
        0
    } else if v > NOISE_UNIT {
        NOISE_UNIT as int
    } else {
        v
    }
}

/// The shade `SHADE_BASE + gain * detail`, with `detail` in noise units,
/// rounded down and limited to a colour channel.
pub open spec fn shade_of(detail: int, gain: int) -> int {
    clamp_byte((detail * gain + SHADE_BASE * NOISE_UNIT) / (NOISE_UNIT as int))
}

/// Cubic ease-out in fixed point: `1 - (1 - t)^3` for `t` limited to the unit
/// interval, all in noise units.
pub open spec fn ease_cubic_out_of(t: int) -> int {
    let f = NOISE_UNIT - clamp_unit(t);
    NOISE_UNIT - (f * f * f) / (NOISE_UNIT * NOISE_UNIT)
}

/// Opacity of the haze: `HAZE_GAIN * haze * ease(ease(depth))`, with `haze` and
/// `depth` in noise units, rounded down and limited to a colour channel.
pub open spec fn haze_alpha_of(haze: int, depth: int) -> int {
    clamp_byte(
        (haze * HAZE_GAIN * ease_cubic_out_of(ease_cubic_out_of(depth))) / (NOISE_UNIT
            * NOISE_UNIT),
    )
}

/// The colour of a cell with the given height sample and second sample.
pub open spec fn color_of(height: int, secondary: int) -> Color {
    match band_of(height) {
        Band::Stone => {
            let g = shade_of(secondary, STONE_GAIN as int) as u8;
            Color { r: g, g: g, b: g, a: 255 }
        },
        Band::Grass => Color { r: 0, g: shade_of(secondary, GRASS_GAIN as int) as u8, b: 0, a: 255 },
        Band::Haze => Color {
            r: 255,
            g: 255,
            b: 255,
            a: haze_alpha_of(secondary, SOIL_LEVEL - height) as u8,
        },
        Band::Void => Color { r: 0, g: 0, b: 0, a: 0 },
    }
}

/// The cell at local position `(x, y)` with the given samples.
pub open spec fn terrain_cell_of(x: u8, y: u8, height: int, secondary: int) -> Cell {
    Cell { x, y, material: material_of(band_of(height)), color: color_of(height, secondary) }
}

/// The query for the height sample of the cell at world position `(wx, wy)`.
pub open spec fn height_query_of(wx: i64, wy: i64, seed: u64) -> NoiseQuery {
    NoiseQuery {
        x: wx,
        x_wavelength: HEIGHT_WAVELENGTH_X,
        y: wy,
        y_wavelength: HEIGHT_WAVELENGTH_Y,
        seed,
    }
}

/// The query for the second sample of a cell in `band`: the haze sample below
/// the soil level, the shading sample elsewhere.
pub open spec fn secondary_query_of(band: Band, wx: i64, wy: i64, seed: u64) -> NoiseQuery {
    match band {
        Band::Haze => NoiseQuery {
            x: wx,
            x_wavelength: HAZE_WAVELENGTH_X,
            y: wy,
            y_wavelength: HAZE_WAVELENGTH_Y,
            seed,
        },
        _ => NoiseQuery {
            x: wx,
            x_wavelength: DETAIL_WAVELENGTH,
            y: wy,
            y_wavelength: DETAIL_WAVELENGTH,
            seed,
        },
    }
}

/// `cell` is what the terrain rules make of some answers of `noise` for the
/// world position `(wx, wy)`: a height sample and, unless the band is `Void`,
/// the second sample of that band.
pub open spec fn sampled_cell<F: Fn(NoiseQuery) -> i32>(
    noise: &F,
    seed: u64,
    wx: i64,
    wy: i64,
    x: u8,
    y: u8,
    cell: Cell,
) -> bool {
    exists|height: i32| #[trigger]
        noise.ensures((height_query_of(wx, wy, seed),), height) && sampled_with(
            noise,
            seed,
            wx,
            wy,
            x,
            y,
            height,
            cell,
        )
}

/// `cell` is what the terrain rules make of the height sample `height` and of
/// some answer of `noise` for the second sample.
pub open spec fn sampled_with<F: Fn(NoiseQuery) -> i32>(
    noise: &F,
    seed: u64,
    wx: i64,
    wy: i64,
    x: u8,
    y: u8,
    height: i32,
    cell: Cell,
) -> bool {
    if band_of(height as int) == Band::Void {
        cell == terrain_cell_of(x, y, height as int, 0)
    } else {
        exists|secondary: i32| #[trigger]
            noise.ensures(
                (secondary_query_of(band_of(height as int), wx, wy, seed),),
                secondary,
            ) && cell == terrain_cell_of(x, y, height as int, secondary as int)
    }
}

/// The band of a height sample.
pub fn classify(height: i32) -> (band: Band)
    ensures
        band == band_of(height as int),
{
    let h: i64 = height as i64;
    if h > STONE_LEVEL {
        Band::Stone
    } else if h > SOIL_LEVEL {
        Band::Grass
    } else if h < SOIL_LEVEL {
        Band::Haze
    } else {
        Band::Void
    }
}

/// The shade of a block whose shading sample is `detail`.
pub fn shade(detail: i32, gain: i64) -> (g: u8)
    ensures
        g == shade_of(detail as int, gain as int),
{
    let d: i128 = detail as i128;
    let k: i128 = gain as i128;
    assert(-0x8000_0000 * 0x8000_0000_0000_0000 <= d * k <= 0x8000_0000 * 0x8000_0000_0000_0000)
        by (nonlinear_arith)
        requires
            -0x8000_0000 <= d <= 0x8000_0000,
            -0x8000_0000_0000_0000 <= k <= 0x8000_0000_0000_0000,
    ;
    let v: i128 = d * k + (SHADE_BASE * NOISE_UNIT) as i128;
    if v <= 0 {
        0
    } else {
        let q: i128 = v / (NOISE_UNIT as i128);
        if q > 255 {
            255
        } else {
            q as u8
        }
    }
}

/// Cubic ease-out of `t`, in noise units.
pub fn ease_cubic_out(t: i64) -> (e: i64)
    ensures
        e == ease_cubic_out_of(t as int),
        0 <= e <= NOISE_UNIT,
{
    let p: i64 = if t < 0 {
        0
    } else if t > NOISE_UNIT {
        NOISE_UNIT
    } else {
        t
    };
    let f: i64 = NOISE_UNIT - p;
    assert(0 <= f * f <= 65536 * 65536 && 0 <= f * f * f <= 65536 * 65536 * 65536)
        by (nonlinear_arith)
        requires
            0 <= f <= 65536,
    ;
    let cube: i64 = f * f * f;
    let drop: i64 = cube / (NOISE_UNIT * NOISE_UNIT);
    NOISE_UNIT - drop
}

/// Opacity of the haze with density sample `haze`, at `depth` below the soil
/// level.
pub fn haze_alpha(haze: i32, depth: i64) -> (a: u8)
    ensures
        a == haze_alpha_of(haze as int, depth as int),
{
    let once: i64 = ease_cubic_out(depth);
    let twice: i64 = ease_cubic_out(once);
    let h: i64 = haze as i64;
    assert(-0x8000_0000 * 200 <= h * HAZE_GAIN <= 0x8000_0000 * 200);
    let scaled: i64 = h * HAZE_GAIN;
    assert(-0x8000_0000 * 200 * 65536 <= scaled * twice <= 0x8000_0000 * 200 * 65536)
        by (nonlinear_arith)
        requires
            -0x8000_0000 * 200 <= scaled <= 0x8000_0000 * 200,
            0 <= twice <= 65536,
    ;
    let v: i64 = scaled * twice;
    if v <= 0 {
        0
    } else {
        let q: i64 = v / (NOISE_UNIT * NOISE_UNIT);
        if q > 255 {
            255
        } else {
            q as u8
        }
    }
}

/// The cell at local position `(x, y)` whose height sample is `height` and
/// whose second sample is `secondary`.
pub fn terrain_cell(x: u8, y: u8, height: i32, secondary: i32) -> (cell: Cell)
    ensures
        cell == terrain_cell_of(x, y, height as int, secondary as int),
{
    match classify(height) {
        Band::Stone => {
            let g: u8 = shade(secondary, STONE_GAIN);
            Cell { x, y, material: Material::Block, color: Color { r: g, g: g, b: g, a: 255 } }
        },
        Band::Grass => {
            let g: u8 = shade(secondary, GRASS_GAIN);
            Cell { x, y, material: Material::Block, color: Color { r: 0, g: g, b: 0, a: 255 } }
        },
        Band::Haze => {
            let a: u8 = haze_alpha(secondary, SOIL_LEVEL - height as i64);
            Cell { x, y, material: Material::Air, color: Color { r: 255, g: 255, b: 255, a: a } }
        },
        Band::Void => Cell {
            x,
            y,
            material: Material::Air,
            color: Color { r: 0, g: 0, b: 0, a: 0 },
        },
    }
}

/// Samples `noise` for the cell at world position `(wx, wy)` and classifies
/// it: first the height, then the second sample that its band calls for.
pub fn sample_cell<F: Fn(NoiseQuery) -> i32>(
    noise: &F,
    seed: u64,
    wx: i64,
    wy: i64,
    x: u8,
    y: u8,
) -> (cell: Cell)
    requires
        is_total(noise),
    ensures
        sampled_cell(noise, seed, wx, wy, x, y, cell),
        cell.x == x,
        cell.y == y,
{
    let height: i32 = noise(
        NoiseQuery {
            x: wx,
            x_wavelength: HEIGHT_WAVELENGTH_X,
            y: wy,
            y_wavelength: HEIGHT_WAVELENGTH_Y,
            seed,
        },
    );
    assert(noise.ensures((height_query_of(wx, wy, seed),), height));
    let band = classify(height);
    match band {
        Band::Void => terrain_cell(x, y, height, 0),
        Band::Haze => {
            let haze: i32 = noise(
                NoiseQuery {
                    x: wx,
                    x_wavelength: HAZE_WAVELENGTH_X,
                    y: wy,
                    y_wavelength: HAZE_WAVELENGTH_Y,
                    seed,
                },
            );
            assert(noise.ensures((secondary_query_of(band, wx, wy, seed),), haze));
            terrain_cell(x, y, height, haze)
        },
        Band::Stone | Band::Grass => {
            let detail: i32 = noise(
                NoiseQuery {
                    x: wx,
                    x_wavelength: DETAIL_WAVELENGTH,
                    y: wy,
                    y_wavelength: DETAIL_WAVELENGTH,
                    seed,
                },
            );
            assert(noise.ensures((secondary_query_of(band, wx, wy, seed),), detail));
            terrain_cell(x, y, height, detail)
        },
    }
}

/// Solidity is monotonic in the height sample: above a solid cell's height
/// every cell is solid.
pub proof fn lemma_material_monotonic(low: int, high: int)
    requires
        low <= high,
        material_of(band_of(low)) == Material::Block,
    ensures
        material_of(band_of(high)) == Material::Block,
{
}

/// The shade of a block is monotonic in its shading sample.
pub proof fn lemma_shade_monotonic(low: int, high: int, gain: int)
    requires
        low <= high,
        gain >= 0,
    ensures
        shade_of(low, gain) <= shade_of(high, gain),
{
    assert(low * gain <= high * gain) by (nonlinear_arith)
        requires
            low <= high,
            gain >= 0,
    ;
}

/// With a noise field that gives one answer per query, the terrain rules give
/// one cell per position.
pub proof fn lemma_sampled_cell_deterministic<F: Fn(NoiseQuery) -> i32>(
    noise: &F,
    seed: u64,
    wx: i64,
    wy: i64,
    x: u8,
    y: u8,
    first: Cell,
    second: Cell,
)
    requires
        is_deterministic(noise),
        sampled_cell(noise, seed, wx, wy, x, y, first),
        sampled_cell(noise, seed, wx, wy, x, y, second),
    ensures
        first == second,
{
    let h1 = choose|height: i32| #[trigger]
        noise.ensures((height_query_of(wx, wy, seed),), height) && sampled_with(
            noise,
            seed,
            wx,
            wy,
            x,
            y,
            height,
            first,
        );
    let h2 = choose|height: i32| #[trigger]
        noise.ensures((height_query_of(wx, wy, seed),), height) && sampled_with(
            noise,
            seed,
            wx,
            wy,
            x,
            y,
            height,
            second,
        );
    assert(h1 == h2);
}

} // verus!
