//! Sizes of the textures and buffers that a frame is rendered into.
use vstd::arithmetic::power2::*;
use vstd::prelude::*;

verus! {

/// The output size that placements are tuned for.
pub const OUT_W: u32 = 1920;

pub const OUT_H: u32 = 1080;

pub const HALF_W: u32 = 960;

pub const HALF_H: u32 = 540;

/// The smallest even number that is at least `n` and at least 2.
pub open spec fn even_size(n: int) -> int {
    if n <= 2 {
        2
    } else {
        (n + 1) / 2 * 2
    }
}

fn to_even(n: u32) -> (r: u32)
    requires
        n < u32::MAX,
    ensures
        r == even_size(n as int),
{
    if n <= 2 {
        2
    } else {
        (n + 1) / 2 * 2
    }
}

/// The size that is rendered for a requested size: even, so that chroma planes
/// have whole pixels, and never empty.
pub fn normalize_render_size(w: u32, h: u32) -> (r: (u32, u32))
    requires
        w < u32::MAX,
        h < u32::MAX,
    ensures
        r.0 == even_size(w as int),
        r.1 == even_size(h as int),
{
    (to_even(w), to_even(h))
}

/// A rendered side is the least even number from 2 up that covers the requested
/// one, and asking again for the size that was given changes nothing.
pub proof fn law_render_size_is_least_even(n: int, other: int)
    requires
        n >= 0,
        other >= 2,
        other >= n,
        other % 2 == 0,
    ensures
        even_size(n) % 2 == 0,
        even_size(n) >= 2,
        even_size(n) >= n,
        even_size(n) <= other,
        even_size(even_size(n)) == even_size(n),
{
}

/// Rows of a staging buffer start at multiples of this many bytes.
pub const ROW_ALIGNMENT: u32 = 256;

/// The bytes from one row of a staging buffer to the next: the least multiple of
/// the row alignment that holds `w` RGBA pixels.
pub fn staging_bytes_per_row(w: u32) -> (r: u32)
    requires
        4 * w + 255 <= u32::MAX,
    ensures
        r % ROW_ALIGNMENT == 0,
        4 * w <= r < 4 * w + ROW_ALIGNMENT,
{
    (w * 4 + 255) / 256 * 256
}

/// The bytes of a staging buffer of `h` rows.
pub fn staging_bytes(bytes_per_row: u32, h: u32) -> (r: u64)
    ensures
        r == bytes_per_row * h,
{
    proof {
        assert(bytes_per_row * h <= u32::MAX * u32::MAX) by (nonlinear_arith)
            requires
                0 <= bytes_per_row <= u32::MAX,
                0 <= h <= u32::MAX,
        ;
    }
    bytes_per_row as u64 * h as u64
}

pub open spec fn longest_side(w: u32, h: u32) -> u32 {
    if w >= h && w >= 1 {
        w
    } else if h >= 1 {
        h
    } else {
        1
    }
}

/// The mip levels of a full chain: halving the longer side that often leaves one pixel.
pub fn mip_levels(w: u32, h: u32) -> (levels: u32)
    ensures
        1 <= levels <= 32,
        pow2((levels - 1) as nat) <= longest_side(w, h) < pow2(levels as nat),
{
    let side: u32 = if w >= h && w >= 1 {
        w
    } else if h >= 1 {
        h
    } else {
        1
    };
    let mut size: u64 = 1;
    let mut levels: u32 = 0;
    proof {
        lemma2_to64();
    }
    while size <= side as u64
        invariant
            size == pow2(levels as nat),
            levels <= 32,
            levels > 0 ==> pow2((levels - 1) as nat) <= side,
            levels == 0 ==> size == 1,
            side >= 1,
            pow2(32) == 0x1_0000_0000,
        decreases 33 - levels,
    {
        proof {
            lemma_pow2_unfold((levels + 1) as nat);
            if levels == 32 {
                assert(false);
            }
        }
        size = size * 2;
        levels = levels + 1;
    }
    levels
}

/// A side of the blur pyramid, `shift` halvings down, never empty.
pub open spec fn pyramid_side(n: u32, divisor: u32) -> u32 {
    if n / divisor >= 1 {
        n / divisor
    } else {
        1
    }
}

fn to_pyramid_side(n: u32, divisor: u32) -> (r: u32)
    requires
        divisor > 0,
    ensures
        r == pyramid_side(n, divisor),
{
    if n / divisor >= 1 {
        n / divisor
    } else {
        1
    }
}

/// The three sizes that a blurred background goes through: a half, a quarter, an eighth.
pub fn blur_pyramid(w: u32, h: u32) -> (r: [(u32, u32); 3])
    ensures
        r == [
            (pyramid_side(w, 2), pyramid_side(h, 2)),
            (pyramid_side(w, 4), pyramid_side(h, 4)),
            (pyramid_side(w, 8), pyramid_side(h, 8)),
        ],
{
    [
        (to_pyramid_side(w, 2), to_pyramid_side(h, 2)),
        (to_pyramid_side(w, 4), to_pyramid_side(h, 4)),
        (to_pyramid_side(w, 8), to_pyramid_side(h, 8)),
    ]
}

} // verus!
