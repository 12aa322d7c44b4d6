//! The integer side of the procedural block atlas: the RGBA texel layout,
//! colour clamping, the pass-through white tile, the transparency key and
//! the per-tile random stream.
use vstd::prelude::*;

use vstd::wrapping::u64_specs;

use crate::block::{ATLAS_H, ATLAS_W, TILE_PX};

verus! {

/// The keyed colour: leaves texels of exactly this tint are holes.
pub fn leaf_key() -> (r: [u8; 3])
    ensures
        r@ == seq![255u8, 0u8, 254u8],
{
    let r: [u8; 3] = [255, 0, 254];
    assert(r@ =~= seq![255u8, 0u8, 254u8]);
    r
}

/// Byte offset of texel (x, y) in the RGBA atlas.
pub open spec fn texel_offset(x: int, y: int) -> int {
    (y * ATLAS_W + x) * 4
}

/// Write colour `c` at texel (x, y), fully opaque.
pub fn put(data: &mut [u8], x: usize, y: usize, c: [u8; 3])
    requires
        x < ATLAS_W,
        y < ATLAS_H,
        old(data)@.len() == ATLAS_W * ATLAS_H * 4,
    ensures
        final(data)@ == old(data)@.update(texel_offset(x as int, y as int), c[0]).update(
            texel_offset(x as int, y as int) + 1,
            c[1],
        ).update(texel_offset(x as int, y as int) + 2, c[2]).update(
            texel_offset(x as int, y as int) + 3,
            255u8,
        ),
{
    assert(y * ATLAS_W + x < ATLAS_W * ATLAS_H) by (nonlinear_arith)
        requires
            x < ATLAS_W,
            y < ATLAS_H,
    ;
    let i = (y * ATLAS_W + x) * 4;
    data[i] = c[0];
    data[i + 1] = c[1];
    data[i + 2] = c[2];
    data[i + 3] = 255;
}

/// `v` clamped to a colour channel.
pub fn clamp8(v: i32) -> (r: u8)
    ensures
        r == (if v < 0 {
            0
        } else if v > 255 {
            255
        } else {
            v
        }),
{
    if v < 0 {
        0
    } else if v > 255 {
        255
    } else {
        v as u8
    }
}

/// Does texel (x, y) hold colour `c`, opaque?
pub open spec fn texel_is(data: Seq<u8>, x: int, y: int, r: u8, g: u8, b: u8) -> bool {
    let i = texel_offset(x, y);
    data[i] == r && data[i + 1] == g && data[i + 2] == b && data[i + 3] == 255
}

/// A blank atlas (every byte zero) whose tile 0 is opaque white: the
/// pass-through tile that untextured geometry samples.
pub fn atlas_base() -> (r: Vec<u8>)
    ensures
        r@.len() == ATLAS_W * ATLAS_H * 4,
        forall|x: int, y: int|
            0 <= x < TILE_PX && 0 <= y < TILE_PX ==> #[trigger] texel_is(r@, x, y, 255u8, 255u8, 255u8),
        forall|j: int| 0 <= j < r@.len() && j % (ATLAS_W * 4) >= TILE_PX * 4 ==> r@[j] == 0u8,
{
    let mut data: Vec<u8> = Vec::new();
    let n: usize = ATLAS_W * ATLAS_H * 4;
    let mut k: usize = 0;
    while k < n
        invariant
            k <= n,
            n == ATLAS_W * ATLAS_H * 4,
            data@.len() == k,
            forall|j: int| 0 <= j < k ==> data@[j] == 0u8,
        decreases n - k,
    {
        data.push(0u8);
        k = k + 1;
    }
    let mut y: usize = 0;
    while y < TILE_PX
        invariant
            y <= TILE_PX,
            data@.len() == ATLAS_W * ATLAS_H * 4,
            forall|xx: int, yy: int|
                0 <= xx < TILE_PX && 0 <= yy < y ==> #[trigger] texel_is(data@, xx, yy, 255u8, 255u8, 255u8),
            forall|j: int|
                0 <= j < data@.len() && (j % (ATLAS_W * 4) >= TILE_PX * 4 || j / (ATLAS_W * 4) >= y) ==> data@[j]
                    == 0u8,
        decreases TILE_PX - y,
    {
        let mut x: usize = 0;
        while x < TILE_PX
            invariant
                x <= TILE_PX,
                y < TILE_PX,
                data@.len() == ATLAS_W * ATLAS_H * 4,
                forall|xx: int, yy: int|
                    0 <= xx < TILE_PX && 0 <= yy < y ==> #[trigger] texel_is(data@, xx, yy, 255u8, 255u8, 255u8),
                forall|xx: int| 0 <= xx < x ==> #[trigger] texel_is(data@, xx, y as int, 255u8, 255u8, 255u8),
                forall|j: int|
                    0 <= j < data@.len() && (j % (ATLAS_W * 4) >= TILE_PX * 4 || j / (ATLAS_W * 4) > y || (j / (
                    ATLAS_W * 4) == y && j % (ATLAS_W * 4) >= x * 4)) ==> data@[j] == 0u8,
            decreases TILE_PX - x,
        {
            let ghost before = data@;
            put(data.as_mut_slice(), x, y, [255, 255, 255]);
            proof {
                let i = texel_offset(x as int, y as int);
                assert forall|j: int|
                    0 <= j < data@.len() && !(i <= j < i + 4) implies data@[j] == before[j] by {}
                assert forall|xx: int, yy: int|
                    0 <= xx < TILE_PX && 0 <= yy < y implies #[trigger] texel_is(data@, xx, yy, 255u8, 255u8, 255u8) by {
                    assert(texel_is(before, xx, yy, 255u8, 255u8, 255u8));
                    let o = texel_offset(xx, yy);
                    assert(o + 3 < i) by (nonlinear_arith)
                        requires
                            o == (yy * 176 + xx) * 4,
                            i == (y * 176 + x) * 4,
                            0 <= xx < 16,
                            0 <= yy < y,
                            x < 16,
                    ;
                }
                assert forall|xx: int| 0 <= xx < x + 1 implies #[trigger] texel_is(
                    data@,
                    xx,
                    y as int,
                    255u8, 255u8, 255u8,
                ) by {
                    if xx < x {
                        assert(texel_is(before, xx, y as int, 255u8, 255u8, 255u8));
                    }
                }
                assert forall|j: int|
                    0 <= j < data@.len() && (j % (ATLAS_W * 4) >= TILE_PX * 4 || j / (ATLAS_W * 4) > y || (j / (
                    ATLAS_W * 4) == y && j % (ATLAS_W * 4) >= (x + 1) * 4)) implies data@[j] == 0u8 by {
                    assert(j == (j / 704) * 704 + j % 704);
                    assert(!(i <= j < i + 4)) by (nonlinear_arith)
                        requires
                            i == (y * 176 + x) * 4,
                            x < 16,
                            j == (j / 704) * 704 + j % 704,
                            0 <= j % 704 < 704,
                            j % 704 >= 64 || j / 704 > y || (j / 704 == y && j % 704 >= (x + 1) * 4),
                    ;
                }
            }
            x = x + 1;
        }
        y = y + 1;
    }
    data
}

/// The tiny linear congruential generator that drives each tile's noise:
/// one stream per tile, so every texture is the same on every run.
pub struct Rng {
    pub state: u64,
}

/// One step of the generator's state.
pub open spec fn lcg_next(s: u64) -> u64 {
    u64_specs::wrapping_add(u64_specs::wrapping_mul(s, 6364136223846793005u64), 1442695040888963407u64)
}

impl Rng {
    /// The stream for `seed`.
    pub fn new(seed: u64) -> (r: Rng)
        ensures
            r.state == seed ^ 0x9E37_79B9_7F4A_7C15,
    {
        Rng { state: seed ^ 0x9E37_79B9_7F4A_7C15 }
    }

    /// Advance the stream and return its top 31 bits: the numerator of the
    /// next uniform sample in [0, 1) (over 2^31).
    pub fn next_bits(&mut self) -> (r: u64)
        ensures
            final(self).state == lcg_next(old(self).state),
            r == final(self).state / 0x2_0000_0000,
            r < 0x8000_0000,
    {
        let st: u64 = self.state.wrapping_mul(6364136223846793005).wrapping_add(1442695040888963407);
        self.state = st;
        let r = st >> 33;
        assert(r == st / 0x2_0000_0000 && r < 0x8000_0000) by (bit_vector)
            requires
                r == st >> 33,
        ;
        r
    }
}

} // verus!
