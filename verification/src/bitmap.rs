//! The buffers exchanged with the Windows icon API: the path buffer of
//! `PrivateExtractIconsW`, the size of an icon bitmap, and the conversion of
//! its pixels from BGRA to RGBA.
use vstd::prelude::*;

verus! {

/// The number of UTF-16 units in the path buffer (`MAX_PATH`).
pub const PATH_BUFFER_LEN: usize = 260;

/// The UTF-16 encoding of one character: one unit below U+10000, a
/// surrogate pair above.
pub open spec fn utf16_units(c: char) -> Seq<u16> {
    let v = c as u32;
    if v < 0x10000 {
        seq![v as u16]
    } else {
        let w = (v - 0x10000) as u32;
        seq![(0xD800 + w / 1024) as u16, (0xDC00 + w % 1024) as u16]
    }
}

/// The UTF-16 encoding of a text.
pub open spec fn encode_utf16(s: Seq<char>) -> Seq<u16>
    decreases s.len(),
{
    if s.len() == 0 {
        seq![]
    } else {
        encode_utf16(s.drop_last()) + utf16_units(s.last())
    }
}

/// The path buffer for `path`: its UTF-16 encoding followed by a NUL,
/// cut to the first `PATH_BUFFER_LEN - 1` units, and filled up with zeros
/// to `PATH_BUFFER_LEN` units.
pub open spec fn path_buffer(path: Seq<char>) -> Seq<u16> {
    let wide = encode_utf16(path).push(0u16);
    Seq::new(
        PATH_BUFFER_LEN as nat,
        |i: int|
            if i < PATH_BUFFER_LEN - 1 && i < wide.len() {
                wide[i]
            } else {
                0u16
            },
    )
}

/// The UTF-16 encoding of `path`.
fn encode_wide(path: &str) -> (w: Vec<u16>)
    ensures
        w@ == encode_utf16(path@),
{
    let cs = crate::text::chars_of(path);
    let mut w: Vec<u16> = Vec::new();
    let mut i: usize = 0;
    while i < cs.len()
        invariant
            i <= cs.len(),
            cs@ == path@,
            w@ == encode_utf16(cs@.take(i as int)),
        decreases cs.len() - i,
    {
        let c = cs[i];
        proof {
            assert(cs@.take(i + 1).drop_last() =~= cs@.take(i as int));
        }
        let v = c as u32;
        if v < 0x10000 {
            w.push(v as u16);
        } else {
            let x = v - 0x10000;
            assert(x < 0x100000) by {
                vstd::utf8::char_is_scalar(c);
            }
            w.push((0xD800 + x / 1024) as u16);
            w.push((0xDC00 + x % 1024) as u16);
        }
        assert(w@ =~= encode_utf16(cs@.take(i as int)) + utf16_units(c));
        i = i + 1;
    }
    assert(cs@.take(cs.len() as int) =~= cs@);
    w
}

/// The path buffer that `PrivateExtractIconsW` takes for `path`: the path
/// in UTF-16, NUL-terminated, cut so that the last unit stays zero.
pub fn wide_path_buffer(path: &str) -> (buf: Vec<u16>)
    ensures
        buf@ == path_buffer(path@),
        buf@.len() == PATH_BUFFER_LEN,
        buf@[PATH_BUFFER_LEN - 1] == 0,
{
    let mut wide = encode_wide(path);
    wide.push(0);
    let copy_len = if wide.len() < PATH_BUFFER_LEN - 1 {
        wide.len()
    } else {
        PATH_BUFFER_LEN - 1
    };
    let mut buf: Vec<u16> = Vec::new();
    let mut i: usize = 0;
    while i < PATH_BUFFER_LEN
        invariant
            i <= PATH_BUFFER_LEN,
            copy_len <= wide.len(),
            copy_len <= PATH_BUFFER_LEN - 1,
            copy_len == wide.len() || copy_len == PATH_BUFFER_LEN - 1,
            wide@ == encode_utf16(path@).push(0u16),
            buf@.len() == i,
            forall|k: int| 0 <= k < i ==> buf@[k] == path_buffer(path@)[k],
        decreases PATH_BUFFER_LEN - i,
    {
        if i < copy_len {
            buf.push(wide[i]);
        } else {
            buf.push(0);
        }
        i = i + 1;
    }
    assert(buf@ =~= path_buffer(path@));
    buf
}

/// The size of an icon bitmap of `bm_width` by `bm_height` pixels (signed,
/// as in `BITMAP`; a negative height marks a top-down bitmap): the
/// magnitudes of both, and the number of pixels, if it fits in a `usize`.
pub fn bitmap_size(bm_width: i32, bm_height: i32) -> (r: Option<(u32, u32, usize)>)
    ensures
        ({
            let w = if bm_width < 0 {
                -bm_width
            } else {
                bm_width as int
            };
            let h = if bm_height < 0 {
                -bm_height
            } else {
                bm_height as int
            };
            &&& r is Some <==> w * h <= usize::MAX
            &&& r matches Some((rw, rh, n)) ==> rw == w && rh == h && n == w * h
        }),
{
    let width: u32 = if bm_width < 0 {
        (0 - (bm_width as i64)) as u32
    } else {
        bm_width as u32
    };
    let height: u32 = if bm_height < 0 {
        (0 - (bm_height as i64)) as u32
    } else {
        bm_height as u32
    };
    let w = width as usize;
    let h = height as usize;
    match w.checked_mul(h) {
        Some(n) => Some((width, height, n)),
        None => None,
    }
}

/// The bytes of a pixel that the API gives as a 32-bit value `0xAARRGGBB`
/// (stored as blue, green, red, alpha in little-endian memory), in the
/// order red, green, blue, alpha.
pub open spec fn rgba_bytes(px: u32) -> Seq<u8> {
    seq![
        ((px / 0x10000) % 0x100) as u8,
        ((px / 0x100) % 0x100) as u8,
        (px % 0x100) as u8,
        (px / 0x1000000) as u8,
    ]
}

/// The RGBA bytes of the pixels: four bytes for each pixel, in order.
pub open spec fn rgba_of(pixels: Seq<u32>) -> Seq<u8>
    decreases pixels.len(),
{
    if pixels.len() == 0 {
        seq![]
    } else {
        rgba_of(pixels.drop_last()) + rgba_bytes(pixels.last())
    }
}

/// Each pixel gives four bytes.
proof fn lemma_rgba_of_len(pixels: Seq<u32>)
    ensures
        rgba_of(pixels).len() == 4 * pixels.len(),
    decreases pixels.len(),
{
    if pixels.len() > 0 {
        lemma_rgba_of_len(pixels.drop_last());
    }
}

/// Converts the pixels of an icon bitmap (32-bit values `0xAARRGGBB`) to
/// RGBA bytes; `None` if the number of bytes does not fit in a `usize`.
pub fn rgba_from_bgra(pixels: &Vec<u32>) -> (r: Option<Vec<u8>>)
    ensures
        r is None <==> 4 * pixels@.len() > usize::MAX,
        r matches Some(bytes) ==> bytes@ == rgba_of(pixels@) && bytes@.len() == 4 * pixels@.len(),
{
    proof {
        lemma_rgba_of_len(pixels@);
    }
    match pixels.len().checked_mul(4) {
        None => None,
        Some(_) => {
            let mut bytes: Vec<u8> = Vec::new();
            let mut i: usize = 0;
            while i < pixels.len()
                invariant
                    i <= pixels.len(),
                    bytes@ == rgba_of(pixels@.take(i as int)),
                decreases pixels.len() - i,
            {
                let px = pixels[i];
                bytes.push(((px / 0x10000) % 0x100) as u8);
                bytes.push(((px / 0x100) % 0x100) as u8);
                bytes.push((px % 0x100) as u8);
                bytes.push((px / 0x1000000) as u8);
                proof {
                    assert(pixels@.take(i + 1).drop_last() =~= pixels@.take(i as int));
                    assert(bytes@ =~= rgba_of(pixels@.take(i + 1)));
                }
                i = i + 1;
            }
            assert(pixels@.take(pixels.len() as int) =~= pixels@);
            Some(bytes)
        },
    }
}

/// Whether `PrivateExtractIconsW` extracted an icon: it reports a count that
/// is neither 0 (no icon found) nor `u32::MAX` (failure), and the handle it
/// filled in is not null.
pub fn icon_was_extracted(count: u32, handle_is_null: bool) -> (r: bool)
    ensures
        r == (count != 0 && count != u32::MAX && !handle_is_null),
{
    count != 0 && count != u32::MAX && !handle_is_null
}

} // verus!
