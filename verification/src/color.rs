//! Packing a 24-bit RGB color and a "filled" marker into one word.
//!
//! A cell of a voxel grid is a [`PackedColor`]: `0` when the cell is empty,
//! and `0xRRGGBB + 1` when it is filled with the color `(RR, GG, BB)`. This is
//! the bit pattern of an `Option<NonZeroU32>` holding `0xRRGGBB + 1`.
use vstd::prelude::*;

verus! {

/// A voxel cell: `0` for empty, `0xRRGGBB + 1` for a filled cell.
pub type PackedColor = u32;

/// The 24-bit number `0xRRGGBB` of a color.
pub open spec fn rgb_number(c: (u8, u8, u8)) -> int {
    c.0 * 65536 + c.1 * 256 + c.2
}

/// The color whose 24-bit number is `n`.
pub open spec fn rgb_of_number(n: int) -> (u8, u8, u8) {
    (((n / 65536) % 256) as u8, ((n / 256) % 256) as u8, (n % 256) as u8)
}

proof fn bv_pack(r: u8, g: u8, b: u8)
    by (bit_vector)
    ensures
        ((r as u32) << 16u32) | ((g as u32) << 8u32) | (b as u32) == (r as u32) * 65536u32 + (
        g as u32) * 256u32 + (b as u32),
        (r as u32) * 65536u32 + (g as u32) * 256u32 + (b as u32) < 0x0100_0000u32,
{
}

proof fn bv_unpack(raw: u32)
    by (bit_vector)
    ensures
        (raw >> 16u32) & 0xFFu32 == (raw / 65536u32) % 256u32,
        (raw >> 8u32) & 0xFFu32 == (raw / 256u32) % 256u32,
        raw & 0xFFu32 == raw % 256u32,
{
}

/// Packs a color into a filled cell: `0xRRGGBB + 1`, never `0`.
pub fn pack_color(c: (u8, u8, u8)) -> (r: PackedColor)
    ensures
        r == rgb_number(c) + 1,
        r != 0,
{
    let (red, green, blue) = c;
    proof {
        bv_pack(red, green, blue);
    }
    (((red as u32) << 16) | ((green as u32) << 8) | (blue as u32)).wrapping_add(1)
}

/// The color of a filled cell: the three bytes of `val - 1`, red first.
pub fn unpack_rgb(val: PackedColor) -> (r: (u8, u8, u8))
    requires
        val != 0,
    ensures
        r == rgb_of_number(val - 1),
{
    let raw = val - 1;
    proof {
        bv_unpack(raw);
    }
    let red = ((raw >> 16) & 0xFF) as u8;
    let green = ((raw >> 8) & 0xFF) as u8;
    let blue = (raw & 0xFF) as u8;
    (red, green, blue)
}

/// Unpacking a packed color gives the color back.
pub proof fn lemma_unpack_pack(c: (u8, u8, u8))
    ensures
        rgb_number(c) + 1 != 0,
        rgb_of_number(rgb_number(c)) == c,
{
    let n = rgb_number(c);
    assert(n / 65536 == c.0 && (n / 256) % 256 == c.1 && n % 256 == c.2) by (nonlinear_arith)
        requires
            n == c.0 * 65536 + c.1 * 256 + c.2,
            0 <= c.0 < 256,
            0 <= c.1 < 256,
            0 <= c.2 < 256,
    ;
}

} // verus!
