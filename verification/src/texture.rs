//! Textures as rows of colours.

use vstd::prelude::*;

verus! {

/// The side of the sample texture, in texels.
pub const SAMPLE_SIDE: usize = 100;

/// The texel in column `x` of the sample texture: as red as `x` is to 255,
/// in millionths and rounded down, with no green and no blue.
pub open spec fn sample_texel(x: int) -> (i32, i32, i32) {
    ((x * 1_000_000 / 255) as i32, 0i32, 0i32)
}

/// A texture to fall back on: a square of [`SAMPLE_SIDE`] rows that all run
/// from black on the left towards red on the right.
pub fn sample_texture() -> (texture: Vec<Vec<(i32, i32, i32)>>)
    ensures
        texture@.len() == SAMPLE_SIDE,
        forall|y: int| 0 <= y < SAMPLE_SIDE ==> (#[trigger] texture@[y])@.len() == SAMPLE_SIDE,
        forall|y: int, x: int|
            0 <= y < SAMPLE_SIDE && 0 <= x < SAMPLE_SIDE ==> #[trigger] texture@[y]@[x]
                == sample_texel(x),
{
    let mut texture: Vec<Vec<(i32, i32, i32)>> = Vec::new();
    let mut y: usize = 0;
    while y < SAMPLE_SIDE
        invariant
            0 <= y <= SAMPLE_SIDE,
            texture@.len() == y,
            forall|j: int| 0 <= j < y ==> (#[trigger] texture@[j])@.len() == SAMPLE_SIDE,
            forall|j: int, x: int|
                0 <= j < y && 0 <= x < SAMPLE_SIDE ==> #[trigger] texture@[j]@[x] == sample_texel(
                    x,
                ),
        decreases SAMPLE_SIDE - y,
    {
        let mut row: Vec<(i32, i32, i32)> = Vec::new();
        let mut x: usize = 0;
        while x < SAMPLE_SIDE
            invariant
                0 <= x <= SAMPLE_SIDE,
                row@.len() == x,
                forall|i: int| 0 <= i < x ==> #[trigger] row@[i] == sample_texel(i),
            decreases SAMPLE_SIDE - x,
        {
            let red: i32 = (x as i32) * 1_000_000 / 255;
            row.push((red, 0, 0));
            x += 1;
        }
        texture.push(row);
        y += 1;
    }
    texture
}

} // verus!
