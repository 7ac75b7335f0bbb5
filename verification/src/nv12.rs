//! Frames as a plane of luma and a plane of interleaved chroma at half the size, and what is
//! read back at another size than it was rendered at.
use vstd::prelude::*;

use crate::readback::copy_rows;
use crate::render_target::normalize_render_size;

verus! {

/// A resource that is made for one size and kept until another is asked for.
pub struct SizedSlot<T> {
    pub held: Option<(u32, u32, T)>,
}

impl<T> SizedSlot<T> {
    pub fn new() -> (r: SizedSlot<T>)
        ensures
            r.held is None,
    {
        SizedSlot { held: None }
    }

    pub open spec fn fits_spec(&self, w: u32, h: u32) -> bool {
        match self.held {
            Some(held) => held.0 == w && held.1 == h,
            None => false,
        }
    }

    /// Whether what is held is of this size.
    pub fn fits(&self, w: u32, h: u32) -> (r: bool)
        ensures
            r == self.fits_spec(w, h),
    {
        match &self.held {
            Some(held) => held.0 == w && held.1 == h,
            None => false,
        }
    }

    /// Holds a resource in place of what was held.
    pub fn put(&mut self, w: u32, h: u32, resource: T)
        ensures
            final(self).held == Some((w, h, resource)),
            final(self).fits_spec(w, h),
    {
        self.held = Some((w, h, resource));
    }

    /// What is held, where it is of this size.
    pub fn get(&self, w: u32, h: u32) -> (r: Option<&T>)
        ensures
            r is Some <==> self.fits_spec(w, h),
            r matches Some(t) ==> self.held == Some((w, h, *t)),
    {
        match &self.held {
            Some(held) => if held.0 == w && held.1 == h {
                Some(&held.2)
            } else {
                None
            },
            None => None,
        }
    }
}

/// Whether a frame must be scaled before it is converted.
pub fn needs_resize(render_w: u32, render_h: u32, target_w: u32, target_h: u32) -> (r: bool)
    ensures
        r == !(render_w == target_w && render_h == target_h),
{
    !(target_w == render_w && target_h == render_h)
}

/// The size of the chroma plane.
pub fn chroma_size(w: u32, h: u32) -> (r: (u32, u32))
    ensures
        r.0 == w as int / 2,
        r.1 == h as int / 2,
{
    (w / 2, h / 2)
}

/// What of a target can be read from a frame; nothing where that is empty.
pub fn readable_size(render_w: u32, render_h: u32, target_w: u32, target_h: u32) -> (r: Option<
    (u32, u32),
>)
    ensures
        ({
            let w = if target_w < render_w {
                target_w
            } else {
                render_w
            };
            let h = if target_h < render_h {
                target_h
            } else {
                render_h
            };
            r == (if w == 0 || h == 0 {
                None::<(u32, u32)>
            } else {
                Some((w, h))
            })
        }),
{
    let w: u32 = if target_w < render_w {
        target_w
    } else {
        render_w
    };
    let h: u32 = if target_h < render_h {
        target_h
    } else {
        render_h
    };
    if w == 0 || h == 0 {
        None
    } else {
        Some((w, h))
    }
}

/// The size that a frame is scaled to on the device: the asked one, made even.
pub fn work_size(target_w: u32, target_h: u32) -> (r: (u32, u32))
    requires
        target_w < u32::MAX,
        target_h < u32::MAX,
    ensures
        r.0 == crate::render_target::even_size(target_w as int),
        r.1 == crate::render_target::even_size(target_h as int),
        r.0 >= target_w && r.0 >= 1,
        r.1 >= target_h && r.1 >= 1,
{
    normalize_render_size(target_w, target_h)
}

/// At least one pixel.
pub open spec fn at_least_one(n: u32) -> int {
    if n == 0 {
        1
    } else {
        n as int
    }
}

/// The asked part of a mapped frame that is a little larger: exactly the asked pixels, row
/// after row.
pub fn crop_rgba(mapped: &[u8], row_pitch: usize, target_w: u32, target_h: u32) -> (out: Vec<u8>)
    requires
        4 * at_least_one(target_w) <= u32::MAX,
        4 * at_least_one(target_w) * at_least_one(target_h) <= usize::MAX,
        (at_least_one(target_h) - 1) * row_pitch + 4 * at_least_one(target_w) <= mapped@.len(),
    ensures
        ({
            let row = 4 * at_least_one(target_w);
            &&& out@.len() == row * at_least_one(target_h)
            &&& forall|y: int, x: int|
                #![trigger out@[y * row + x]]
                0 <= y < at_least_one(target_h) && 0 <= x < row ==> out@[y * row + x] == mapped@[y
                    * row_pitch + x]
        }),
{
    let w: u32 = if target_w == 0 {
        1
    } else {
        target_w
    };
    let h: u32 = if target_h == 0 {
        1
    } else {
        target_h
    };
    copy_rows(mapped, row_pitch, (w * 4) as usize, h as usize)
}

/// Byte `i` of a plane with rows `pitch` apart after `rows` rows of `row` bytes were written
/// to it: where it lies in such a row it comes from the source, else it stays.
pub open spec fn overwritten(
    before: Seq<u8>,
    pitch: int,
    source: Seq<u8>,
    start: int,
    source_pitch: int,
    row: int,
    rows: int,
    i: int,
) -> u8 {
    if i / pitch < rows && i % pitch < row {
        source[start + (i / pitch) * source_pitch + i % pitch]
    } else {
        before[i]
    }
}

proof fn lemma_row(i: int, y: int, x: int, pitch: int)
    requires
        0 <= x < pitch,
        i == y * pitch + x,
    ensures
        i / pitch == y,
        i % pitch == x,
{
    vstd::arithmetic::div_mod::lemma_fundamental_div_mod_converse(i, pitch, y, x);
}

/// Copies rows between two planes whose rows are differently far apart; the bytes between the
/// rows of the target stay.
pub fn copy_plane(
    source: &[u8],
    start: usize,
    source_pitch: usize,
    target: &mut Vec<u8>,
    pitch: usize,
    row: usize,
    rows: usize,
)
    requires
        0 < pitch,
        row <= pitch,
        rows > 0 ==> start + (rows - 1) * source_pitch + row <= source@.len(),
        rows * pitch <= old(target)@.len(),
    ensures
        final(target)@.len() == old(target)@.len(),
        forall|i: int|
            0 <= i < final(target)@.len() ==> #[trigger] final(target)@[i] == overwritten(
                old(target)@,
                pitch as int,
                source@,
                start as int,
                source_pitch as int,
                row as int,
                rows as int,
                i,
            ),
{
    let ghost before = target@;
    let len: usize = target.len();
    let source_len: usize = source.len();
    let mut y: usize = 0;
    proof {
        assert forall|i: int| 0 <= i < before.len() implies #[trigger] target@[i] == overwritten(
            before,
            pitch as int,
            source@,
            start as int,
            source_pitch as int,
            row as int,
            0,
            i,
        ) by {
            vstd::arithmetic::div_mod::lemma_div_pos_is_pos(i, pitch as int);
        }
    }
    while y < rows
        invariant
            0 < pitch,
            row <= pitch,
            y <= rows,
            rows > 0 ==> start + (rows - 1) * source_pitch + row <= source@.len(),
            rows * pitch <= before.len(),
            len == target@.len() == before.len(),
            source_len == source@.len(),
            forall|i: int|
                0 <= i < len ==> #[trigger] target@[i] == overwritten(
                    before,
                    pitch as int,
                    source@,
                    start as int,
                    source_pitch as int,
                    row as int,
                    y as int,
                    i,
                ),
        decreases rows - y,
    {
        proof {
            assert(y * source_pitch <= (rows - 1) * source_pitch && y * source_pitch >= 0)
                by (nonlinear_arith)
                requires
                    0 <= y <= rows - 1,
                    source_pitch >= 0,
            ;
            assert(y * pitch + pitch <= rows * pitch && y * pitch >= 0) by (nonlinear_arith)
                requires
                    0 <= y <= rows - 1,
                    pitch > 0,
            ;
        }
        let from: usize = start + y * source_pitch;
        let to: usize = y * pitch;
        let mut x: usize = 0;
        while x < row
            invariant
                0 < pitch,
                x <= row <= pitch,
                from == start + y * source_pitch,
                from + row <= source@.len(),
                to == y * pitch,
                to + pitch <= len,
                len == target@.len() == before.len(),
                source_len == source@.len(),
                forall|i: int|
                    0 <= i < len ==> #[trigger] target@[i] == (if to <= i < to + x {
                        source@[from + i - to]
                    } else {
                        overwritten(
                            before,
                            pitch as int,
                            source@,
                            start as int,
                            source_pitch as int,
                            row as int,
                            y as int,
                            i,
                        )
                    }),
            decreases row - x,
        {
            target.set(to + x, source[from + x]);
            x = x + 1;
        }
        proof {
            assert forall|i: int| 0 <= i < len implies #[trigger] target@[i] == overwritten(
                before,
                pitch as int,
                source@,
                start as int,
                source_pitch as int,
                row as int,
                y + 1,
                i,
            ) by {
                let p = pitch as int;
                vstd::arithmetic::div_mod::lemma_fundamental_div_mod(i, p);
                vstd::arithmetic::div_mod::lemma_mod_bound(i, p);
                if to <= i < to + row {
                    lemma_row(i, y as int, i - to, p);
                } else if i / p == y {
                    assert(p * (i / p) == y * pitch) by (nonlinear_arith)
                        requires
                            i / p == y,
                            p == pitch,
                    ;
                }
            }
        }
        y = y + 1;
    }
}

fn smallest(a: usize, b: usize, c: usize) -> (r: usize)
    ensures
        r == least(a as int, b as int, c as int),
{
    let d: usize = if a < b {
        a
    } else {
        b
    };
    if d < c {
        d
    } else {
        c
    }
}

pub open spec fn least(a: int, b: int, c: int) -> int {
    let d = if a < b {
        a
    } else {
        b
    };
    if d < c {
        d
    } else {
        c
    }
}

/// Copies a mapped frame into the two planes of an encoder: `target_h` rows of luma, then half
/// as many of chroma, which start in the mapped frame after all rows of luma.
pub fn read_nv12(
    mapped: &[u8],
    row_pitch: usize,
    target_w: u32,
    target_h: u32,
    luma: &mut Vec<u8>,
    pitch_y: usize,
    chroma: &mut Vec<u8>,
    pitch_uv: usize,
)
    requires
        0 < pitch_y,
        0 < pitch_uv,
        target_h * pitch_y <= old(luma)@.len(),
        (target_h as int / 2) * pitch_uv <= old(chroma)@.len(),
        row_pitch * target_h + (target_h as int / 2) * row_pitch <= mapped@.len(),
    ensures
        final(luma)@.len() == old(luma)@.len(),
        final(chroma)@.len() == old(chroma)@.len(),
        forall|i: int|
            0 <= i < final(luma)@.len() ==> #[trigger] final(luma)@[i] == overwritten(
                old(luma)@,
                pitch_y as int,
                mapped@,
                0,
                row_pitch as int,
                least(target_w as int, row_pitch as int, pitch_y as int),
                target_h as int,
                i,
            ),
        forall|i: int|
            0 <= i < final(chroma)@.len() ==> #[trigger] final(chroma)@[i] == overwritten(
                old(chroma)@,
                pitch_uv as int,
                mapped@,
                row_pitch * target_h,
                row_pitch as int,
                least(target_w as int, row_pitch as int, pitch_uv as int),
                target_h as int / 2,
                i,
            ),
{
    let len: usize = mapped.len();
    let h: usize = target_h as usize;
    let row: usize = smallest(target_w as usize, row_pitch, pitch_y);
    let uv_row: usize = smallest(target_w as usize, row_pitch, pitch_uv);
    proof {
        let half = h as int / 2;
        assert(row_pitch * h >= 0 && half * row_pitch >= 0) by (nonlinear_arith)
            requires
                row_pitch >= 0,
                h >= 0,
                half >= 0,
        ;
        assert(h > 0 ==> (h - 1) * row_pitch + row <= row_pitch * h) by (nonlinear_arith)
            requires
                row <= row_pitch,
                h >= 0,
        ;
        assert(half > 0 ==> (half - 1) * row_pitch + uv_row <= half * row_pitch)
            by (nonlinear_arith)
            requires
                uv_row <= row_pitch,
                half >= 0,
        ;
    }
    copy_plane(mapped, 0, row_pitch, luma, pitch_y, row, h);
    copy_plane(mapped, row_pitch * h, row_pitch, chroma, pitch_uv, uv_row, h / 2);
}

/// A mapped frame without the bytes that pad its rows: the rows of luma, then those of chroma.
pub fn pack_nv12(mapped: &[u8], row_pitch: usize, w: u32, h: u32) -> (out: Vec<u8>)
    requires
        w <= row_pitch,
        row_pitch * h + (h as int / 2) * row_pitch <= mapped@.len(),
        w * h + w * (h as int / 2) <= usize::MAX,
    ensures
        out@.len() == w * h + w * (h as int / 2),
        forall|y: int, x: int|
            #![trigger out@[y * w + x]]
            0 <= y < h && 0 <= x < w ==> out@[y * w + x] == mapped@[y * row_pitch + x],
        forall|y: int, x: int|
            #![trigger out@[w * h + y * w + x]]
            0 <= y < h as int / 2 && 0 <= x < w ==> out@[w * h + y * w + x] == mapped@[row_pitch * h
                + y * row_pitch + x],
{
    let len: usize = mapped.len();
    let rows: usize = h as usize;
    let ghost half = h as int / 2;
    proof {
        assert(row_pitch * h >= 0 && half * row_pitch >= 0 && w * h >= 0 && w * half >= 0)
            by (nonlinear_arith)
            requires
                row_pitch >= 0,
                h >= 0,
                half >= 0,
                w >= 0,
        ;
        assert(h > 0 ==> (h - 1) * row_pitch + w <= row_pitch * h) by (nonlinear_arith)
            requires
                w <= row_pitch,
                h >= 0,
        ;
        assert(half > 0 ==> (half - 1) * row_pitch + w <= half * row_pitch) by (nonlinear_arith)
            requires
                w <= row_pitch,
                half >= 0,
        ;
    }
    let mut out: Vec<u8> = copy_rows(mapped, row_pitch, w as usize, rows);
    let ghost luma = out@;
    let tail: &[u8] = vstd::slice::slice_subrange(mapped, row_pitch * rows, len);
    let mut chroma: Vec<u8> = copy_rows(tail, row_pitch, w as usize, rows / 2);
    let ghost uv = chroma@;
    out.append(&mut chroma);
    proof {
        assert(out@ == luma + uv);
        assert forall|y: int, x: int|
            #![trigger out@[y * w + x]]
            0 <= y < h && 0 <= x < w implies out@[y * w + x] == mapped@[y * row_pitch + x] by {
            assert(0 <= y * w + x < w * h) by (nonlinear_arith)
                requires
                    0 <= y < h,
                    0 <= x < w,
            ;
            assert(luma[y * w + x] == mapped@[y * row_pitch + x]);
        }
        assert forall|y: int, x: int|
            #![trigger out@[w * h + y * w + x]]
            0 <= y < half && 0 <= x < w implies out@[w * h + y * w + x] == mapped@[row_pitch * h + y
            * row_pitch + x] by {
            assert(0 <= y * w + x < w * half) by (nonlinear_arith)
                requires
                    0 <= y < half,
                    0 <= x < w,
            ;
            assert(uv[y * w + x] == tail@[y * row_pitch + x]);
            assert(0 <= y * row_pitch && y * row_pitch + x < half * row_pitch) by (nonlinear_arith)
                requires
                    0 <= y < half,
                    0 <= x < w,
                    w <= row_pitch,
            ;
        }
    }
    out
}

/// The bytes of a packed frame are one and a half times its pixels, where its sides are even.
pub proof fn law_chroma_takes_half_of_luma(w: int, h: int)
    requires
        w >= 0,
        h >= 0,
        h % 2 == 0,
    ensures
        2 * (w * h + w * (h / 2)) == 3 * (w * h),
{
    assert(2 * (w * (h / 2)) == w * h) by (nonlinear_arith)
        requires
            h % 2 == 0,
    ;
}

/// Row `y` of what is written to a plane holds the bytes of row `y` of the source, in their order, and
/// whatever lies beside or below them stays.
pub proof fn law_rows_keep_their_bytes(
    before: Seq<u8>,
    pitch: int,
    source: Seq<u8>,
    start: int,
    source_pitch: int,
    row: int,
    rows: int,
    y: int,
    x: int,
)
    requires
        0 <= x < pitch,
        0 <= y,
    ensures
        overwritten(before, pitch, source, start, source_pitch, row, rows, y * pitch + x) == (if y
            < rows && x < row {
            source[start + y * source_pitch + x]
        } else {
            before[y * pitch + x]
        }),
{
    lemma_row(y * pitch + x, y, x, pitch);
}

} // verus!
