//! The byte layout of a GIF89a stream as this encoder writes it, and what
//! holds of it.
use vstd::prelude::*;

use crate::common::Frame;
use crate::encoder::{EncodingFormatError, ExtensionData, Repeat, control_ext_of};
use crate::lzw::lzw_payload;

verus! {

/// The two bytes of `v`, least significant first.
pub open spec fn le16(v: u16) -> Seq<u8> {
    seq![(v % 256) as u8, (v / 256) as u8]
}

/// The smallest `t` with `from <= t <= 7` and `n <= 2^(t + 1)`, or 7 when there is none.
pub open spec fn flag_size_from(n: int, from: int) -> u8
    decreases 7 - from,
{
    if from >= 7 || n <= vstd::arithmetic::power2::pow2((from + 1) as nat) {
        if from >= 7 { 7 } else { from as u8 }
    } else {
        flag_size_from(n, from + 1)
    }
}

/// The size field of a color table of `n` colors: the smallest `t` with
/// `n <= 2^(t + 1)`, capped at 7. The table then holds `2^(t + 1)` entries.
pub open spec fn flag_size_of(n: int) -> u8 {
    flag_size_from(n, 0)
}

/// The size field of a color table is 0 for up to 2 colors, 1 for up to 4,
/// 2 for up to 8, and so on up to 6 for up to 128; every larger count gets 7.
pub proof fn lemma_flag_size_values(n: int)
    requires
        0 <= n,
    ensures
        flag_size_of(n) == (if n <= 2 { 0u8 } else if n <= 4 { 1u8 } else if n <= 8 { 2u8 }
            else if n <= 16 { 3u8 } else if n <= 32 { 4u8 } else if n <= 64 { 5u8 }
            else if n <= 128 { 6u8 } else { 7u8 }),
{
    vstd::arithmetic::power2::lemma2_to64();
    reveal_with_fuel(flag_size_from, 8);
}

/// Color table size converted to flag bits.
pub fn flag_size(size: usize) -> (r: u8)
    ensures
        r == flag_size_of(size as int),
{
    let mut t: u8 = 0;
    let mut cap: usize = 2;
    proof {
        vstd::arithmetic::power2::lemma2_to64();
    }
    while t < 7 && cap < size
        invariant
            t <= 7,
            cap as nat == vstd::arithmetic::power2::pow2((t + 1) as nat),
            flag_size_from(size as int, t as int) == flag_size_of(size as int),
        decreases 7 - t,
    {
        proof {
            vstd::arithmetic::power2::lemma2_to64();
        }
        t = t + 1;
        cap = cap * 2;
    }
    t
}

/// The number of colors in a palette given as `[r, g, b, ...]`; bytes past
/// the last whole triplet do not count.
pub open spec fn num_colors(palette: Seq<u8>) -> int {
    palette.len() as int / 3
}

/// A palette fits in a color table when it has at most 256 colors.
pub open spec fn palette_fits(palette: Seq<u8>) -> bool {
    num_colors(palette) <= 256
}

/// `k` zero bytes.
pub open spec fn zeros(k: int) -> Seq<u8> {
    Seq::new(k as nat, |i: int| 0u8)
}

/// A color table: the whole triplets of the palette, padded with black
/// entries to `2^(t + 1)` entries, where `t` is the table's size field.
pub open spec fn color_table(palette: Seq<u8>) -> Seq<u8> {
    let n = num_colors(palette);
    palette.take(3 * n) + zeros(
        3 * (vstd::arithmetic::power2::pow2((flag_size_of(n) + 1) as nat) - n),
    )
}

/// `s` cut into length-prefixed blocks of at most 255 bytes, without the
/// terminating empty block.
pub open spec fn chunked(s: Seq<u8>) -> Seq<u8>
    decreases s.len(),
{
    if s.len() == 0 {
        seq![]
    } else if s.len() <= 255 {
        seq![s.len() as u8] + s
    } else {
        seq![255u8] + s.take(255) + chunked(s.skip(255))
    }
}

/// `s` as a sequence of sub-blocks, terminated by an empty block.
pub open spec fn sub_blocks(s: Seq<u8>) -> Seq<u8> {
    chunked(s) + seq![0u8]
}

/// The ASCII signature `GIF89a`.
pub open spec fn signature() -> Seq<u8> {
    seq![0x47u8, 0x49, 0x46, 0x38, 0x39, 0x61]
}

/// The ASCII application identifier `NETSCAPE2.0`.
pub open spec fn netscape_id() -> Seq<u8> {
    seq![0x4eu8, 0x45, 0x54, 0x53, 0x43, 0x41, 0x50, 0x45, 0x32, 0x2e, 0x30]
}

/// Header, logical screen descriptor and global color table.
pub open spec fn screen_bytes(width: u16, height: u16, palette: Seq<u8>) -> Seq<u8> {
    let t = flag_size_of(num_colors(palette));
    signature() + le16(width) + le16(height) + seq![(0x80 + 16 * t + t) as u8, 0u8, 0u8] + (
    if num_colors(palette) > 0 {
        color_table(palette)
    } else {
        seq![]
    })
}

/// The bytes of an extension block.
pub open spec fn extension_bytes(ext: ExtensionData) -> Seq<u8> {
    match ext {
        ExtensionData::Control { flags, delay, trns } => seq![0x21u8, 0xf9, 4, flags] + le16(delay)
            + seq![trns, 0u8],
        ExtensionData::Repetitions(Repeat::Finite(0)) => seq![],
        ExtensionData::Repetitions(r) => seq![0x21u8, 0xff, 11] + netscape_id() + seq![3u8, 1u8]
            + le16(
            match r {
                Repeat::Finite(n) => n,
                Repeat::Infinite => 0,
            },
        ) + seq![0u8],
    }
}

/// The sub-blocks of every payload slice, each cut on its own.
pub open spec fn chunked_all(data: Seq<Seq<u8>>) -> Seq<u8>
    decreases data.len(),
{
    if data.len() == 0 {
        seq![]
    } else {
        chunked_all(data.drop_last()) + chunked(data.last())
    }
}

/// The contents of each payload slice.
pub open spec fn payload_views(data: Seq<&[u8]>) -> Seq<Seq<u8>> {
    data.map_values(|b: &[u8]| b@)
}

/// `chunked_all` of a longer list extends that of a shorter one.
pub(crate) proof fn lemma_chunked_all_prefix(data: Seq<&[u8]>, k: int)
    requires
        0 < k <= data.len(),
    ensures
        chunked_all(payload_views(data.take(k))) == chunked_all(payload_views(data.take(k - 1))) + chunked(data[k - 1]@),
        chunked_all(payload_views(data.take(k))).is_prefix_of(chunked_all(payload_views(data))),
    decreases data.len() - k,
{
    assert(payload_views(data.take(k)).drop_last() =~= payload_views(data.take(k - 1)));
    assert(payload_views(data.take(k)).last() == data[k - 1]@);
    if k == data.len() {
        assert(data.take(k) =~= data);
        lemma_prefix_of_concat(chunked_all(payload_views(data)), seq![]);
        assert(chunked_all(payload_views(data)) + seq![] =~= chunked_all(payload_views(data)));
    } else {
        lemma_chunked_all_prefix(data, k + 1);
        lemma_prefix_of_concat(chunked_all(payload_views(data.take(k))), chunked(data[k]@));
        lemma_prefix_trans(
            chunked_all(payload_views(data.take(k))),
            chunked_all(payload_views(data.take(k + 1))),
            chunked_all(payload_views(data)),
        );
    }
}

/// The bytes of a raw extension with label `func` and the given payload.
pub open spec fn raw_extension_bytes(func: u8, data: Seq<Seq<u8>>) -> Seq<u8> {
    seq![0x21u8, func] + chunked_all(data) + seq![0u8]
}

/// The palette error a frame meets, if any: its local palette must fit, and
/// without one a global palette must exist.
pub open spec fn frame_palette_error(frame: Frame, global_palette: bool) -> Option<EncodingFormatError> {
    match frame.palette {
        Some(p) => if palette_fits(p@) {
            None
        } else {
            Some(EncodingFormatError::TooManyColors)
        },
        None => if global_palette {
            None
        } else {
            Some(EncodingFormatError::MissingColorPalette)
        },
    }
}

/// The flags byte of an image descriptor.
pub open spec fn image_flags(frame: Frame) -> u8 {
    ((if frame.interlaced { 0x40int } else { 0int }) + match frame.palette {
        Some(p) => 0x80 + flag_size_of(num_colors(p@)),
        None => 0int,
    }) as u8
}

/// The local color table of a frame, if it has a palette.
pub open spec fn local_table_bytes(frame: Frame) -> Seq<u8> {
    match frame.palette {
        Some(p) => color_table(p@),
        None => seq![],
    }
}

/// Control extension, image descriptor and local color table of a frame.
pub open spec fn frame_header_bytes(frame: Frame) -> Seq<u8> {
    extension_bytes(
        control_ext_of(frame.delay, frame.dispose, frame.needs_user_input, frame.transparent),
    ) + seq![0x2cu8] + le16(frame.left) + le16(frame.top) + le16(frame.width) + le16(frame.height)
        + seq![image_flags(frame)] + local_table_bytes(frame)
}

/// Image data from a compressed payload: its first byte (the minimum code
/// size; 2 for an empty payload) bare, the rest as sub-blocks.
pub open spec fn image_data_bytes(payload: Seq<u8>) -> Seq<u8> {
    if payload.len() == 0 {
        seq![2u8, 0u8]
    } else {
        seq![payload[0]] + sub_blocks(payload.skip(1))
    }
}

/// A compressed payload is accepted when it is empty or its first byte, the
/// minimum code size, lies in `2..=11`.
pub open spec fn valid_pre_encoded(payload: Seq<u8>) -> bool {
    payload.len() == 0 || (2 <= payload[0] <= 11)
}

/// The bytes of a frame whose buffer holds palette indices.
pub open spec fn frame_bytes(frame: Frame) -> Seq<u8> {
    frame_header_bytes(frame) + image_data_bytes(lzw_payload(frame.buffer@))
}

/// The bytes of a frame whose buffer holds a compressed payload.
pub open spec fn pre_encoded_frame_bytes(frame: Frame) -> Seq<u8> {
    frame_header_bytes(frame) + image_data_bytes(frame.buffer@)
}

/// A log of written bytes that went from `before` towards `before + expected`:
/// it extends `before` and is no longer than the whole.
pub open spec fn wrote_part(before: Seq<u8>, after: Seq<u8>, expected: Seq<u8>) -> bool {
    before.is_prefix_of(after) && after.is_prefix_of(before + expected)
}

pub(crate) proof fn lemma_prefix_of_concat(a: Seq<u8>, b: Seq<u8>)
    ensures
        a.is_prefix_of(a + b),
{
    assert(a =~= (a + b).subrange(0, a.len() as int));
}

pub(crate) proof fn lemma_prefix_trans(a: Seq<u8>, b: Seq<u8>, c: Seq<u8>)
    requires
        a.is_prefix_of(b),
        b.is_prefix_of(c),
    ensures
        a.is_prefix_of(c),
{
    assert(a =~= c.subrange(0, a.len() as int)) by {
        assert forall|i: int| 0 <= i < a.len() implies a[i] == c[i] by {
            assert(a[i] == b.subrange(0, a.len() as int)[i]);
            assert(b[i] == c.subrange(0, b.len() as int)[i]);
        }
    }
}

/// One step of `chunked`: a block of `n` bytes, then the rest.
pub(crate) proof fn lemma_chunked_step(s: Seq<u8>, pos: int, n: int)
    requires
        0 <= pos < s.len(),
        n == (if s.len() - pos > 255 { 255 } else { s.len() - pos }),
    ensures
        chunked(s.skip(pos)) == seq![n as u8] + s.subrange(pos, pos + n) + chunked(s.skip(pos + n)),
{
    assert(s.skip(pos).take(n) =~= s.subrange(pos, pos + n));
    assert(s.skip(pos).skip(n) =~= s.skip(pos + n));
    if n < 255 || s.len() - pos == 255 {
        assert(s.skip(pos + n).len() == 0);
        assert(s.skip(pos) =~= s.subrange(pos, pos + n));
        assert(chunked(s.skip(pos + n)) =~= seq![]);
    }
}

pub(crate) proof fn lemma_wrote_part_step(start: Seq<u8>, mid: Seq<u8>, after: Seq<u8>, a: Seq<u8>, b: Seq<u8>)
    requires
        mid == start + a,
        wrote_part(mid, after, b),
    ensures
        wrote_part(start, after, a + b),
{
    lemma_prefix_of_concat(start, a);
    lemma_prefix_trans(start, mid, after);
    assert(mid + b =~= start + (a + b));
}

pub(crate) proof fn lemma_wrote_part_extend(start: Seq<u8>, after: Seq<u8>, a: Seq<u8>, b: Seq<u8>)
    requires
        wrote_part(start, after, a),
    ensures
        wrote_part(start, after, a + b),
{
    lemma_prefix_of_concat(start + a, b);
    assert(start + a + b =~= start + (a + b));
    lemma_prefix_trans(after, start + a, start + (a + b));
}

pub(crate) proof fn lemma_wrote_part_all(start: Seq<u8>, a: Seq<u8>)
    ensures
        wrote_part(start, start + a, a),
        wrote_part(start, start, a),
{
    lemma_prefix_of_concat(start, a);
    lemma_prefix_of_concat(start, seq![]);
    assert(start + seq![] =~= start);
}

/// Two frames that agree in every field but the buffer.
pub open spec fn same_but_buffer(a: Frame, b: Frame) -> bool {
    &&& a.delay == b.delay
    &&& a.dispose == b.dispose
    &&& a.transparent == b.transparent
    &&& a.needs_user_input == b.needs_user_input
    &&& a.top == b.top
    &&& a.left == b.left
    &&& a.width == b.width
    &&& a.height == b.height
    &&& a.interlaced == b.interlaced
    &&& a.palette == b.palette
}

/// A frame compressed ahead of time is accepted by the pre-encoded path, and
/// writes exactly the bytes that writing the original frame writes.
pub proof fn lemma_pre_encoded_same_bytes(frame: Frame, compressed: Frame)
    requires
        same_but_buffer(compressed, frame),
        compressed.buffer@ == lzw_payload(frame.buffer@),
    ensures
        valid_pre_encoded(compressed.buffer@),
        pre_encoded_frame_bytes(compressed) == frame_bytes(frame),
        frame_palette_error(compressed, true) == frame_palette_error(frame, true),
        frame_palette_error(compressed, false) == frame_palette_error(frame, false),
{
    crate::lzw::lemma_min_code_size_bounds(frame.buffer@);
    assert(frame_header_bytes(compressed) =~= frame_header_bytes(frame));
}

/// `b` is a chain of length-prefixed blocks, each with a non-zero length
/// byte, ended by a single zero byte and nothing after it.
pub open spec fn blocks_end(b: Seq<u8>) -> bool
    decreases b.len(),
{
    if b.len() == 0 {
        false
    } else if b[0] == 0 {
        b.len() == 1
    } else {
        b.len() > b[0] + 1 && blocks_end(b.skip(b[0] + 1))
    }
}

pub(crate) proof fn lemma_chunked_then(s: Seq<u8>, tail: Seq<u8>)
    requires
        blocks_end(tail),
    ensures
        blocks_end(chunked(s) + tail),
    decreases s.len(),
{
    if s.len() == 0 {
        assert(chunked(s) + tail =~= tail);
    } else if s.len() <= 255 {
        let b = chunked(s) + tail;
        assert(b[0] == s.len() as u8);
        assert(b.skip(s.len() + 1int) =~= tail);
    } else {
        lemma_chunked_then(s.skip(255), tail);
        let b = chunked(s) + tail;
        assert(b[0] == 255u8);
        assert(b.skip(256) =~= chunked(s.skip(255)) + tail);
    }
}

pub(crate) proof fn lemma_chunked_all_then(data: Seq<Seq<u8>>, tail: Seq<u8>)
    requires
        blocks_end(tail),
    ensures
        blocks_end(chunked_all(data) + tail),
    decreases data.len(),
{
    if data.len() == 0 {
        assert(chunked_all(data) + tail =~= tail);
    } else {
        lemma_chunked_then(data.last(), tail);
        lemma_chunked_all_then(data.drop_last(), chunked(data.last()) + tail);
        assert(chunked_all(data) + tail =~= chunked_all(data.drop_last()) + (chunked(data.last()) + tail));
    }
}

/// Every data stream that the encoder writes as sub-blocks, and the payload of
/// every extension it writes (what follows the introducer and the label), is
/// a chain of blocks with non-zero length bytes ended by a single zero byte.
pub proof fn lemma_payloads_are_framed(
    s: Seq<u8>,
    compressed: Seq<u8>,
    ext: ExtensionData,
    func: u8,
    data: Seq<Seq<u8>>,
)
    ensures
        blocks_end(sub_blocks(s)),
        blocks_end(image_data_bytes(compressed).skip(1)),
        extension_bytes(ext).len() > 0 ==> blocks_end(extension_bytes(ext).skip(2)),
        blocks_end(raw_extension_bytes(func, data).skip(2)),
{
    let z = seq![0u8];
    assert(blocks_end(z));
    lemma_chunked_then(s, z);
    if compressed.len() == 0 {
        assert(image_data_bytes(compressed).skip(1) =~= z);
    } else {
        lemma_chunked_then(compressed.skip(1), z);
        assert(image_data_bytes(compressed).skip(1) =~= sub_blocks(compressed.skip(1)));
    }
    lemma_chunked_all_then(data, z);
    assert(raw_extension_bytes(func, data).skip(2) =~= chunked_all(data) + z);
    let e = extension_bytes(ext).skip(2);
    match ext {
        ExtensionData::Control { flags, delay, trns } => {
            assert(e =~= seq![4u8, flags] + le16(delay) + seq![trns, 0u8]);
            assert(e[0] == 4u8);
            assert(e.skip(5) =~= z);
            assert(blocks_end(e.skip(5)));
            assert(e.len() == 6);
            assert(e.skip(e[0] + 1) =~= z);
            assert(blocks_end(e));
            assert(blocks_end(extension_bytes(ext).skip(2)));
        },
        ExtensionData::Repetitions(r) => {
            if extension_bytes(ext).len() > 0 {
                let loops: u16 = match r {
                    Repeat::Finite(n) => n,
                    Repeat::Infinite => 0,
                };
                assert(e =~= seq![11u8] + netscape_id() + seq![3u8, 1u8] + le16(loops) + seq![0u8]);
                let t = e.skip(12);
                assert(t =~= seq![3u8, 1u8] + le16(loops) + seq![0u8]);
                assert(t[0] == 3u8);
                assert(t.skip(t[0] + 1) =~= z);
                assert(blocks_end(t));
                assert(e[0] == 11u8);
                assert(e.skip(e[0] + 1) =~= t);
                assert(blocks_end(extension_bytes(ext).skip(2)));
            }
        },
    }
}

/// A stream that starts with what construction wrote, closed by the
/// trailer, starts with the signature and ends with a single trailer byte
/// after everything written before it.
pub proof fn lemma_closed_stream(width: u16, height: u16, palette: Seq<u8>, written: Seq<u8>)
    requires
        screen_bytes(width, height, palette).is_prefix_of(written),
    ensures
        (written + seq![0x3bu8]).take(6) == signature(),
        (written + seq![0x3bu8]).last() == 0x3bu8,
        (written + seq![0x3bu8]).drop_last() == written,
{
    assert((written + seq![0x3bu8]).take(6) =~= screen_bytes(width, height, palette).take(6));
    assert((written + seq![0x3bu8]).drop_last() =~= written);
}

} // verus!
