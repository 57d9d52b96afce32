//! GIF89a encoder: screen descriptor and global palette, extensions, frames
//! and the trailer, all handed to a byte sink.
use vstd::prelude::*;

use crate::common::{AnyExtension, DisposalMethod, Frame};
use crate::format::{
    chunked, chunked_all, extension_bytes, flag_size, flag_size_of, frame_bytes,
    frame_header_bytes, frame_palette_error, image_data_bytes, image_flags, le16,
    lemma_chunked_all_prefix, lemma_chunked_step, lemma_flag_size_values,
    lemma_prefix_of_concat, lemma_prefix_trans, lemma_wrote_part_all,
    lemma_wrote_part_extend, lemma_wrote_part_step, local_table_bytes, num_colors,
    palette_fits, payload_views, pre_encoded_frame_bytes, raw_extension_bytes,
    same_but_buffer, screen_bytes, signature, valid_pre_encoded, wrote_part, zeros,
};
use crate::io::{IoError, Write};
use crate::lzw::{lzw_encode, lzw_payload};

verus! {

/// The image has incorrect properties, making it impossible to encode as a gif.
#[derive(Debug)]
#[non_exhaustive]
pub enum EncodingFormatError {
    /// The image has too many colors.
    TooManyColors,
    /// The image has no color palette which is required.
    MissingColorPalette,
    /// LZW data is not valid for GIF. This may happen when wrong buffer is given to `write_lzw_pre_encoded_frame`
    InvalidMinCodeSize,
}

impl EncodingFormatError {
    /// A description of the error.
    pub fn message(&self) -> &'static str {
        match self {
            EncodingFormatError::TooManyColors => "the image has too many colors",
            EncodingFormatError::MissingColorPalette => "the GIF format requires a color palette but none was given",
            EncodingFormatError::InvalidMinCodeSize => "LZW data is invalid",
        }
    }
}

/// Encoding error.
#[derive(Debug)]
#[non_exhaustive]
pub enum EncodingError {
    /// Frame buffer is too small for the declared dimensions.
    FrameBufferTooSmallForDimensions,
    /// Failed to internally allocate a buffer of sufficient size.
    OutOfMemory,
    /// Expected a writer but none found.
    WriterNotFound,
    /// Returned if the to image is not encodable as a gif.
    Format(EncodingFormatError),
    /// Wraps an I/O error.
    Io(IoError),
}

impl EncodingError {
    /// A description of the error.
    pub fn message(&self) -> &'static str {
        match self {
            EncodingError::FrameBufferTooSmallForDimensions => "Frame Buffer Too Small for Dimensions",
            EncodingError::OutOfMemory => "Out of Memory",
            EncodingError::WriterNotFound => "Writer Not Found",
            EncodingError::Io(_) => "I/O error",
            EncodingError::Format(err) => err.message(),
        }
    }
}

impl From<IoError> for EncodingError {
    fn from(err: IoError) -> (r: Self) {
        EncodingError::Io(err)
    }
}

impl vstd::std_specs::convert::FromSpecImpl<IoError> for EncodingError {
    open spec fn obeys_from_spec() -> bool {
        true
    }

    open spec fn from_spec(err: IoError) -> Self {
        EncodingError::Io(err)
    }
}

impl From<EncodingFormatError> for EncodingError {
    fn from(err: EncodingFormatError) -> (r: Self) {
        EncodingError::Format(err)
    }
}

impl vstd::std_specs::convert::FromSpecImpl<EncodingFormatError> for EncodingError {
    open spec fn obeys_from_spec() -> bool {
        true
    }

    open spec fn from_spec(err: EncodingFormatError) -> Self {
        EncodingError::Format(err)
    }
}

/// Number of repetitions
#[derive(Copy, Clone, Debug, PartialEq, Eq, Structural)]
pub enum Repeat {
    /// Finite number of repetitions
    Finite(u16),
    /// Infinite number of repetitions
    Infinite,
}

impl Default for Repeat {
    fn default() -> (r: Self)
        ensures
            r == Repeat::Finite(0),
    {
        Repeat::Finite(0)
    }
}

/// Extension data.
#[non_exhaustive]
pub enum ExtensionData {
    /// Control extension. Use `ExtensionData::new_control_ext` to construct.
    Control {
        /// Flags.
        flags: u8,
        /// Frame delay.
        delay: u16,
        /// Transparent index.
        trns: u8,
    },
    /// Sets the number of repetitions
    Repetitions(Repeat),
}

/// The flags byte of a graphic control extension: transparency present in
/// bit 0, user input in bit 1, disposal method in bits 2 to 4.
pub open spec fn control_flags(dispose: DisposalMethod, needs_user_input: bool, trns: Option<u8>) -> u8 {
    ((if trns is Some { 1int } else { 0int }) + (if needs_user_input { 2int } else { 0int })
        + 4 * dispose.spec_code()) as u8
}

/// The control extension data for the given frame settings.
pub open spec fn control_ext_of(
    delay: u16,
    dispose: DisposalMethod,
    needs_user_input: bool,
    trns: Option<u8>,
) -> ExtensionData {
    ExtensionData::Control {
        flags: control_flags(dispose, needs_user_input, trns),
        delay,
        trns: match trns {
            Some(t) => t,
            None => 0,
        },
    }
}

impl ExtensionData {
    /// Constructor for control extension data.
    ///
    /// `delay` is given in units of 10 ms.
    #[must_use]
    pub fn new_control_ext(
        delay: u16,
        dispose: DisposalMethod,
        needs_user_input: bool,
        trns: Option<u8>,
    ) -> (r: Self)
        ensures
            r == control_ext_of(delay, dispose, needs_user_input, trns),
    {
        let mut flags: u8 = 0;
        let trns = match trns {
            Some(trns) => {
                flags = flags + 1;
                trns
            },
            None => 0,
        };
        if needs_user_input {
            flags = flags + 2;
        }
        flags = flags + dispose.code() * 4;
        ExtensionData::Control { flags, delay, trns }
    }
}

/// Appends the two bytes of `n`, least significant first.
fn push_le16(v: &mut Vec<u8>, n: u16)
    ensures
        final(v)@ == old(v)@ + le16(n),
{
    v.push((n % 256) as u8);
    v.push((n / 256) as u8);
    assert(final(v)@ =~= old(v)@ + le16(n));
}

/// Appends all of `bytes` to `v`.
fn push_all(v: &mut Vec<u8>, bytes: &[u8])
    ensures
        final(v)@ == old(v)@ + bytes@,
{
    let mut i: usize = 0;
    while i < bytes.len()
        invariant
            i <= bytes@.len(),
            v@ == old(v)@ + bytes@.take(i as int),
        decreases bytes@.len() - i,
    {
        v.push(bytes[i]);
        i = i + 1;
        assert(bytes@.take(i as int) =~= bytes@.take(i as int - 1).push(bytes@[i as int - 1]));
    }
    assert(bytes@.take(i as int) =~= bytes@);
}

/// Checks that a palette fits in a color table. Returns its whole triplets,
/// the number of black entries that pad it to the table's size, and the
/// table's size field.
fn check_color_table(table: &[u8]) -> (r: Result<(&[u8], usize, u8), EncodingError>)
    ensures
        palette_fits(table@) <==> r is Ok,
        !palette_fits(table@) ==> r matches Err(EncodingError::Format(EncodingFormatError::TooManyColors)),
        r matches Ok((colors, padding, size)) ==> {
            &&& colors@ == table@.take(3 * num_colors(table@))
            &&& size == flag_size_of(num_colors(table@))
            &&& size <= 7
            &&& padding <= 256
            &&& padding + num_colors(table@) == vstd::arithmetic::power2::pow2((size + 1) as nat)
        },
{
    let num_colors = table.len() / 3;
    if num_colors > 256 {
        return Err(EncodingError::Format(EncodingFormatError::TooManyColors));
    }
    let table_size = flag_size(num_colors);
    proof {
        vstd::arithmetic::power2::lemma2_to64();
        lemma_flag_size_values(num_colors as int);
    }
    let entries: usize = if table_size == 0 { 2 } else if table_size == 1 { 4 } else if table_size == 2 { 8 }
        else if table_size == 3 { 16 } else if table_size == 4 { 32 } else if table_size == 5 { 64 }
        else if table_size == 6 { 128 } else { 256 };
    let padding = entries - num_colors;
    Ok((&table[0..num_colors * 3], padding, table_size))
}

/// GIF encoder.
pub struct Encoder<W: Write> {
    w: Option<W>,
    global_palette: bool,
    width: u16,
    height: u16,
    buffer: Vec<u8>,
    written: Ghost<Seq<u8>>,
    origin: Ghost<Seq<u8>>,
}

impl<W: Write> Encoder<W> {
    /// The encoder still holds its sink: it has not been finished.
    pub closed spec fn is_open(&self) -> bool {
        self.w is Some
    }

    /// Every byte the encoder has handed to its sink, in order.
    pub closed spec fn written(&self) -> Seq<u8> {
        self.written@
    }

    /// A non-empty global palette was given at construction.
    pub closed spec fn has_global_palette(&self) -> bool {
        self.global_palette
    }

    /// The canvas width.
    pub closed spec fn spec_width(&self) -> u16 {
        self.width
    }

    /// The canvas height.
    pub closed spec fn spec_height(&self) -> u16 {
        self.height
    }

    /// The sink, while the encoder is open.
    pub closed spec fn spec_sink(&self) -> W {
        self.w->Some_0
    }

    /// What the sink held when the encoder was made.
    pub closed spec fn sink_origin(&self) -> Seq<u8> {
        self.origin@
    }

    /// The sink holds what it held at construction followed by every byte
    /// the encoder wrote. This holds from construction on, until a write to
    /// the sink fails or the sink is changed through `get_mut`.
    pub open spec fn in_sync(&self) -> bool {
        &&& self.is_open()
        &&& self.spec_sink().tracks_bytes()
        &&& self.spec_sink().sink_bytes() == self.sink_origin() + self.written()
    }

    /// Same state but for the bytes written; a sink that accepts everything
    /// still does.
    pub open spec fn same_setup(&self, other: &Self) -> bool {
        &&& self.sink_origin() == other.sink_origin()
        &&& (other.is_open() && other.spec_sink().accepts_all()) ==> self.spec_sink().accepts_all()
        &&& self.is_open() == other.is_open()
        &&& self.has_global_palette() == other.has_global_palette()
        &&& self.spec_width() == other.spec_width()
        &&& self.spec_height() == other.spec_height()
    }

    /// Hands `bytes` to the sink.
    fn put(&mut self, bytes: &[u8]) -> (r: Result<(), EncodingError>)
        requires
            old(self).is_open(),
        ensures
            final(self).same_setup(old(self)),
            old(self).in_sync() && r is Ok ==> final(self).in_sync(),
            r is Ok ==> final(self).written() == old(self).written() + bytes@,
            r is Err ==> final(self).written() == old(self).written(),
            r is Err ==> r matches Err(EncodingError::Io(_)),
            old(self).spec_sink().accepts_all() ==> r is Ok,
            r is Ok ==> (old(self).spec_sink().tracks_bytes() ==> final(self).spec_sink().tracks_bytes()
                && final(self).spec_sink().sink_bytes() == old(self).spec_sink().sink_bytes() + bytes@),
    {
        let res = match &mut self.w {
            Some(w) => w.write_all(bytes),
            None => Ok(()),
        };
        match res {
            Ok(()) => {
                self.written = Ghost(self.written@ + bytes@);
                assert(self.origin@ + self.written@ =~= old(self).origin@ + old(self).written@ + bytes@);
                Ok(())
            },
            Err(e) => Err(EncodingError::Io(e)),
        }
    }

    /// Creates a new encoder.
    ///
    /// `global_palette` gives the global color palette in the format `[r, g, b, ...]`,
    /// if no global palette shall be used an empty slice may be supplied.
    pub fn new(w: W, width: u16, height: u16, global_palette: &[u8]) -> (r: Result<Self, EncodingError>)
        ensures
            !palette_fits(global_palette@) ==> r matches Err(EncodingError::Format(EncodingFormatError::TooManyColors)),
            palette_fits(global_palette@) ==> r is Ok || r matches Err(EncodingError::Io(_)),
            palette_fits(global_palette@) && w.accepts_all() ==> r is Ok,
            r matches Ok(e) ==> {
                &&& e.is_open()
                &&& w.tracks_bytes() ==> e.in_sync()
                &&& e.sink_origin() == w.sink_bytes()
                &&& e.written() == screen_bytes(width, height, global_palette@)
                &&& e.has_global_palette() == (num_colors(global_palette@) > 0)
                &&& e.spec_width() == width
                &&& e.spec_height() == height
            },
    {
        let (palette, padding, table_size) = check_color_table(global_palette)?;
        let mut enc = Encoder {
            w: Some(w),
            global_palette: false,
            width,
            height,
            buffer: Vec::new(),
            written: Ghost(Seq::empty()),
            origin: Ghost(w.sink_bytes()),
        };
        assert(enc.written() + seq![] =~= enc.written());
        enc.global_palette = palette.len() > 0;
        let flags: u8 = 0x80 + table_size * 16 + table_size;
        enc.write_screen_desc(flags)?;
        if palette.len() > 0 {
            enc.write_color_table(palette, padding)?;
        }
        proof {
            assert(enc.written() =~= screen_bytes(width, height, global_palette@));
        }
        Ok(enc)
    }

    fn write_screen_desc(&mut self, flags: u8) -> (r: Result<(), EncodingError>)
        requires
            old(self).is_open(),
        ensures
            final(self).same_setup(old(self)),
            old(self).in_sync() && r is Ok ==> final(self).in_sync(),
            r is Ok ==> final(self).written() == old(self).written() + signature() + le16(
                old(self).spec_width(),
            ) + le16(old(self).spec_height()) + seq![flags, 0u8, 0u8],
            r is Err ==> final(self).written() == old(self).written() && r matches Err(EncodingError::Io(_)),
            old(self).spec_sink().accepts_all() ==> r is Ok,
    {
        let mut bytes: Vec<u8> = vec![0x47, 0x49, 0x46, 0x38, 0x39, 0x61];
        push_le16(&mut bytes, self.width);
        push_le16(&mut bytes, self.height);
        bytes.push(flags);
        bytes.push(0);
        bytes.push(0);
        let r = self.put(bytes.as_slice());
        proof {
            if r is Ok {
                assert(final(self).written() =~= old(self).written() + signature() + le16(
                    old(self).spec_width(),
                ) + le16(old(self).spec_height()) + seq![flags, 0u8, 0u8]);
            }
        }
        r
    }

    /// Writes the whole triplets of a palette and `padding` black entries.
    fn write_color_table(&mut self, table: &[u8], padding: usize) -> (r: Result<(), EncodingError>)
        requires
            old(self).is_open(),
            padding <= 256,
        ensures
            final(self).same_setup(old(self)),
            old(self).in_sync() && r is Ok ==> final(self).in_sync(),
            r is Ok ==> final(self).written() == old(self).written() + table@ + zeros(3 * padding),
            r is Err ==> wrote_part(old(self).written(), final(self).written(), table@ + zeros(3 * padding)),
            r is Err ==> r matches Err(EncodingError::Io(_)),
            old(self).spec_sink().accepts_all() ==> r is Ok,
    {
        let ghost start = self.written();
        let ghost whole = table@ + zeros(3 * padding);
        self.put(table)?;
        let zero: Vec<u8> = vec![0, 0, 0];
        let mut i: usize = 0;
        while i < padding
            invariant
                self.is_open(),
                self.same_setup(old(self)),
                old(self).in_sync() ==> self.in_sync(),
                i <= padding <= 256,
                zero@ == seq![0u8, 0u8, 0u8],
                start == old(self).written(),
                whole == table@ + zeros(3 * padding),
                self.written() == start + table@ + zeros(3 * i),
            decreases padding - i,
        {
            let ghost before = self.written();
            let r = self.put(zero.as_slice());
            match r {
                Ok(()) => {},
                Err(e) => {
                    proof {
                        assert(start.is_prefix_of(before));
                        assert(before.is_prefix_of(start + whole)) by {
                            assert(zeros(3 * i).is_prefix_of(zeros(3 * padding)));
                        }
                    }
                    return Err(e);
                },
            }
            i = i + 1;
            assert(zeros(3 * i) =~= zeros(3 * (i - 1)) + zero@);
        }
        Ok(())
    }

    /// Writes `data` as length-prefixed blocks of at most 255 bytes, without
    /// the terminating empty block.
    fn write_chunks(&mut self, data: &[u8]) -> (r: Result<(), EncodingError>)
        requires
            old(self).is_open(),
        ensures
            final(self).same_setup(old(self)),
            old(self).in_sync() && r is Ok ==> final(self).in_sync(),
            r is Ok ==> final(self).written() == old(self).written() + chunked(data@),
            r is Err ==> wrote_part(old(self).written(), final(self).written(), chunked(data@)),
            r is Err ==> r matches Err(EncodingError::Io(_)),
            old(self).spec_sink().accepts_all() ==> r is Ok,
    {
        let ghost start = self.written();
        let mut pos: usize = 0;
        assert(data@.skip(0) =~= data@);
        while pos < data.len()
            invariant
                self.is_open(),
                self.same_setup(old(self)),
                old(self).in_sync() ==> self.in_sync(),
                pos <= data@.len(),
                start == old(self).written(),
                start.is_prefix_of(self.written()),
                self.written() + chunked(data@.skip(pos as int)) == start + chunked(data@),
            decreases data@.len() - pos,
        {
            let n: usize = if data.len() - pos > 255 { 255 } else { data.len() - pos };
            proof {
                lemma_chunked_step(data@, pos as int, n as int);
            }
            let ghost before = self.written();
            let len_byte: Vec<u8> = vec![n as u8];
            match self.put(len_byte.as_slice()) {
                Ok(()) => {},
                Err(e) => {
                    proof {
                        lemma_prefix_of_concat(before, chunked(data@.skip(pos as int)));
                    }
                    return Err(e);
                },
            }
            let ghost mid = self.written();
            match self.put(&data[pos..pos + n]) {
                Ok(()) => {},
                Err(e) => {
                    proof {
                        lemma_prefix_of_concat(before, seq![n as u8]);
                        lemma_prefix_trans(start, before, mid);
                        assert(start + chunked(data@) =~= mid + (data@.subrange(pos as int, pos + n) + chunked(data@.skip(pos + n))));
                        lemma_prefix_of_concat(mid, data@.subrange(pos as int, pos + n) + chunked(data@.skip(pos + n)));
                    }
                    return Err(e);
                },
            }
            proof {
                lemma_prefix_of_concat(before, seq![n as u8] + data@.subrange(pos as int, pos + n));
                assert(self.written() =~= before + (seq![n as u8] + data@.subrange(pos as int, pos + n)));
                lemma_prefix_trans(start, before, self.written());
                assert(self.written() + chunked(data@.skip(pos + n)) =~= before + chunked(data@.skip(pos as int)));
            }
            pos = pos + n;
        }
        proof {
            assert(chunked(data@.skip(pos as int)) =~= seq![]);
            assert(self.written() =~= start + chunked(data@));
        }
        Ok(())
    }

    /// Writes a compressed payload: its first byte bare (2 when the payload is
    /// empty), the rest as sub-blocks.
    fn write_encoded_image_block(&mut self, data_with_min_code_size: &[u8]) -> (r: Result<(), EncodingError>)
        requires
            old(self).is_open(),
        ensures
            final(self).same_setup(old(self)),
            old(self).in_sync() && r is Ok ==> final(self).in_sync(),
            r is Ok ==> final(self).written() == old(self).written() + image_data_bytes(data_with_min_code_size@),
            r is Err ==> wrote_part(old(self).written(), final(self).written(), image_data_bytes(data_with_min_code_size@)),
            r is Err ==> r matches Err(EncodingError::Io(_)),
            old(self).spec_sink().accepts_all() ==> r is Ok,
    {
        let ghost start = self.written();
        let ghost whole = image_data_bytes(data_with_min_code_size@);
        let len = data_with_min_code_size.len();
        let (min_code_size, data) = if len > 0 {
            (data_with_min_code_size[0], &data_with_min_code_size[1..len])
        } else {
            (2u8, &data_with_min_code_size[0..0])
        };
        proof {
            if len > 0 {
                assert(data@ =~= data_with_min_code_size@.skip(1));
            } else {
                assert(chunked(data@) =~= seq![]);
            }
            assert(whole =~= seq![min_code_size] + chunked(data@) + seq![0u8]);
        }
        let first: Vec<u8> = vec![min_code_size];
        self.put(first.as_slice())?;
        let ghost after_first = self.written();
        match self.write_chunks(data) {
            Ok(()) => {},
            Err(e) => {
                proof {
                    lemma_prefix_of_concat(start, seq![min_code_size]);
                    lemma_prefix_trans(start, after_first, self.written());
                    assert(after_first + (chunked(data@) + seq![0u8]) =~= start + whole);
                    lemma_prefix_of_concat(after_first + chunked(data@), seq![0u8]);
                    assert(after_first + chunked(data@) + seq![0u8] =~= start + whole);
                    lemma_prefix_trans(self.written(), after_first + chunked(data@), start + whole);
                }
                return Err(e);
            },
        }
        let ghost after_chunks = self.written();
        let terminator: Vec<u8> = vec![0];
        match self.put(terminator.as_slice()) {
            Ok(()) => {},
            Err(e) => {
                proof {
                    lemma_prefix_of_concat(start, seq![min_code_size] + chunked(data@));
                    assert(after_chunks =~= start + (seq![min_code_size] + chunked(data@)));
                    lemma_prefix_of_concat(after_chunks, seq![0u8]);
                    assert(after_chunks + seq![0u8] =~= start + whole);
                }
                return Err(e);
            },
        }
        assert(self.written() =~= start + whole);
        Ok(())
    }

    /// Writes the control extension, the image descriptor and the local
    /// color table of a frame, after checking its palette.
    #[verifier::rlimit(50)]
    fn write_frame_header(&mut self, frame: &Frame) -> (r: Result<(), EncodingError>)
        ensures
            final(self).same_setup(old(self)),
            old(self).in_sync() && r is Ok ==> final(self).in_sync(),
            frame_palette_error(*frame, old(self).has_global_palette()) matches Some(e)
                ==> r matches Err(EncodingError::Format(f)) && f == e,
            frame_palette_error(*frame, old(self).has_global_palette()) is None && !old(self).is_open()
                ==> r matches Err(EncodingError::WriterNotFound),
            frame_palette_error(*frame, old(self).has_global_palette()) is None && old(self).is_open()
                ==> r is Ok || r matches Err(EncodingError::Io(_)),
            r is Ok ==> final(self).written() == old(self).written() + frame_header_bytes(*frame),
            r is Err ==> wrote_part(old(self).written(), final(self).written(), frame_header_bytes(*frame)),
            r is Err && !(r matches Err(EncodingError::Io(_))) ==> final(self).written() == old(self).written(),
            frame_palette_error(*frame, old(self).has_global_palette()) is None && old(self).is_open()
                && old(self).spec_sink().accepts_all() ==> r is Ok,
    {
        let ghost start = self.written();
        proof {
            lemma_wrote_part_all(start, frame_header_bytes(*frame));
        }
        let mut flags: u8 = 0;
        if frame.interlaced {
            flags = 0x40;
        }
        let palette = match &frame.palette {
            Some(palette) => {
                let (palette, padding, table_size) = check_color_table(palette.as_slice())?;
                flags = flags + 0x80 + table_size;
                Some((palette, padding))
            },
            None => {
                if self.global_palette {
                    None
                } else {
                    return Err(EncodingError::Format(EncodingFormatError::MissingColorPalette));
                }
            },
        };
        if self.w.is_none() {
            return Err(EncodingError::WriterNotFound);
        }
        let ext = ExtensionData::new_control_ext(
            frame.delay,
            frame.dispose,
            frame.needs_user_input,
            frame.transparent,
        );
        let ghost ext_bytes = extension_bytes(ext);
        let ghost desc_bytes = seq![0x2cu8] + le16(frame.left) + le16(frame.top) + le16(frame.width)
            + le16(frame.height) + seq![image_flags(*frame)];
        let ghost table_bytes = local_table_bytes(*frame);
        assert(frame_header_bytes(*frame) =~= ext_bytes + (desc_bytes + table_bytes));
        self.write_extension(ext)?;
        let ghost after_ext = self.written();
        let mut desc: Vec<u8> = vec![0x2c];
        push_le16(&mut desc, frame.left);
        push_le16(&mut desc, frame.top);
        push_le16(&mut desc, frame.width);
        push_le16(&mut desc, frame.height);
        desc.push(flags);
        assert(desc@ =~= desc_bytes);
        match self.put(desc.as_slice()) {
            Ok(()) => {},
            Err(e) => {
                proof {
                    lemma_wrote_part_all(after_ext, desc_bytes + table_bytes);
                    lemma_wrote_part_step(start, after_ext, self.written(), ext_bytes, desc_bytes + table_bytes);
                }
                return Err(e);
            },
        }
        let ghost after_desc = self.written();
        if let Some((palette, padding)) = palette {
            assert(table_bytes =~= palette@ + zeros(3 * padding));
            match self.write_color_table(palette, padding) {
                Ok(()) => {},
                Err(e) => {
                    proof {
                        lemma_wrote_part_step(after_ext, after_desc, self.written(), desc_bytes, table_bytes);
                        lemma_wrote_part_step(start, after_ext, self.written(), ext_bytes, desc_bytes + table_bytes);
                    }
                    return Err(e);
                },
            }
        } else {
            assert(table_bytes =~= seq![]);
        }
        assert(self.written() =~= start + frame_header_bytes(*frame));
        Ok(())
    }

    /// Compresses palette indices into the scratch buffer and writes them as
    /// image data.
    fn write_image_block(&mut self, data: &[u8]) -> (r: Result<(), EncodingError>)
        requires
            old(self).is_open(),
        ensures
            final(self).same_setup(old(self)),
            old(self).in_sync() && r is Ok ==> final(self).in_sync(),
            r is Ok ==> final(self).written() == old(self).written() + image_data_bytes(lzw_payload(data@)),
            r is Err ==> wrote_part(old(self).written(), final(self).written(), image_data_bytes(lzw_payload(data@))),
            r is Err ==> r matches Err(EncodingError::Io(_)) || r matches Err(EncodingError::OutOfMemory),
            old(self).spec_sink().accepts_all() ==> r is Ok || r matches Err(EncodingError::OutOfMemory),
    {
        proof {
            lemma_wrote_part_all(self.written(), image_data_bytes(lzw_payload(data@)));
        }
        self.buffer.clear();
        if self.buffer.try_reserve(data.len() / 4).is_err() {
            return Err(EncodingError::OutOfMemory);
        }
        lzw_encode(data, &mut self.buffer);
        assert(self.buffer@ =~= lzw_payload(data@));
        let mut buffer: Vec<u8> = Vec::new();
        std::mem::swap(&mut buffer, &mut self.buffer);
        let r = self.write_encoded_image_block(buffer.as_slice());
        std::mem::swap(&mut buffer, &mut self.buffer);
        r
    }

    /// Writes a frame to the image.
    ///
    /// Note: This function also writes a control extension if necessary.
    pub fn write_frame(&mut self, frame: &Frame) -> (r: Result<(), EncodingError>)
        ensures
            final(self).same_setup(old(self)),
            old(self).in_sync() && r is Ok ==> final(self).in_sync(),
            frame.width * frame.height > frame.buffer@.len()
                ==> r matches Err(EncodingError::FrameBufferTooSmallForDimensions),
            frame.width * frame.height <= frame.buffer@.len() ==> (frame_palette_error(*frame, old(self).has_global_palette()) matches Some(e)
                ==> r matches Err(EncodingError::Format(f)) && f == e),
            frame.width * frame.height <= frame.buffer@.len()
                && frame_palette_error(*frame, old(self).has_global_palette()) is None
                && !old(self).is_open() ==> r matches Err(EncodingError::WriterNotFound),
            frame.width * frame.height <= frame.buffer@.len()
                && frame_palette_error(*frame, old(self).has_global_palette()) is None
                && old(self).is_open() ==> r is Ok || r matches Err(EncodingError::Io(_))
                || r matches Err(EncodingError::OutOfMemory),
            r is Ok ==> final(self).written() == old(self).written() + frame_bytes(*frame),
            r is Err ==> wrote_part(old(self).written(), final(self).written(), frame_bytes(*frame)),
            r is Err && !(r matches Err(EncodingError::Io(_))) && !(r matches Err(EncodingError::OutOfMemory))
                ==> final(self).written() == old(self).written(),
            frame.width * frame.height <= frame.buffer@.len()
                && frame_palette_error(*frame, old(self).has_global_palette()) is None
                && old(self).is_open() && old(self).spec_sink().accepts_all()
                ==> r is Ok || r matches Err(EncodingError::OutOfMemory),
    {
        let ghost start = self.written();
        proof {
            lemma_wrote_part_all(start, frame_bytes(*frame));
        }
        let (width, height) = (frame.width as u64, frame.height as u64);
        assert(width * height <= 0xffff * 0xffff) by (nonlinear_arith)
            requires
                width <= 0xffff,
                height <= 0xffff,
        ;
        if width * height > frame.buffer.len() as u64 {
            return Err(EncodingError::FrameBufferTooSmallForDimensions);
        }
        match self.write_frame_header(frame) {
            Ok(()) => {},
            Err(e) => {
                proof {
                    lemma_wrote_part_extend(start, self.written(), frame_header_bytes(*frame),
                        image_data_bytes(lzw_payload(frame.buffer@)));
                }
                return Err(e);
            },
        }
        let ghost mid = self.written();
        let r = self.write_image_block(frame.buffer.as_slice());
        proof {
            if r is Err {
                lemma_wrote_part_step(start, mid, self.written(), frame_header_bytes(*frame),
                    image_data_bytes(lzw_payload(frame.buffer@)));
            }
        }
        r
    }

    /// Writes a frame to the image, but expects `Frame.buffer` to contain LZW-encoded data
    /// from [`Frame::make_lzw_pre_encoded`].
    ///
    /// Note: This function also writes a control extension if necessary.
    pub fn write_lzw_pre_encoded_frame(&mut self, frame: &Frame) -> (r: Result<(), EncodingError>)
        ensures
            final(self).same_setup(old(self)),
            old(self).in_sync() && r is Ok ==> final(self).in_sync(),
            !valid_pre_encoded(frame.buffer@) ==> r matches Err(EncodingError::Format(EncodingFormatError::InvalidMinCodeSize)),
            valid_pre_encoded(frame.buffer@) ==> (frame_palette_error(*frame, old(self).has_global_palette()) matches Some(e)
                ==> r matches Err(EncodingError::Format(f)) && f == e),
            valid_pre_encoded(frame.buffer@)
                && frame_palette_error(*frame, old(self).has_global_palette()) is None
                && !old(self).is_open() ==> r matches Err(EncodingError::WriterNotFound),
            valid_pre_encoded(frame.buffer@)
                && frame_palette_error(*frame, old(self).has_global_palette()) is None
                && old(self).is_open() ==> r is Ok || r matches Err(EncodingError::Io(_)),
            r is Ok ==> final(self).written() == old(self).written() + pre_encoded_frame_bytes(*frame),
            r is Err ==> wrote_part(old(self).written(), final(self).written(), pre_encoded_frame_bytes(*frame)),
            r is Err && !(r matches Err(EncodingError::Io(_))) ==> final(self).written() == old(self).written(),
            valid_pre_encoded(frame.buffer@)
                && frame_palette_error(*frame, old(self).has_global_palette()) is None
                && old(self).is_open() && old(self).spec_sink().accepts_all() ==> r is Ok,
    {
        let ghost start = self.written();
        proof {
            lemma_wrote_part_all(start, pre_encoded_frame_bytes(*frame));
        }
        if frame.buffer.len() > 0 {
            let min_code_size = frame.buffer[0];
            if min_code_size > 11 || min_code_size < 2 {
                return Err(EncodingError::Format(EncodingFormatError::InvalidMinCodeSize));
            }
        }
        match self.write_frame_header(frame) {
            Ok(()) => {},
            Err(e) => {
                proof {
                    lemma_wrote_part_extend(start, self.written(), frame_header_bytes(*frame),
                        image_data_bytes(frame.buffer@));
                }
                return Err(e);
            },
        }
        let ghost mid = self.written();
        let r = self.write_encoded_image_block(frame.buffer.as_slice());
        proof {
            if r is Err {
                lemma_wrote_part_step(start, mid, self.written(), frame_header_bytes(*frame),
                    image_data_bytes(frame.buffer@));
            }
        }
        r
    }

    /// Writes an extension to the image.
    ///
    /// It is normally not necessary to call this method manually.
    pub fn write_extension(&mut self, extension: ExtensionData) -> (r: Result<(), EncodingError>)
        ensures
            final(self).same_setup(old(self)),
            old(self).in_sync() && r is Ok ==> final(self).in_sync(),
            extension_bytes(extension).len() == 0 ==> r is Ok && final(self).written() == old(self).written(),
            extension_bytes(extension).len() > 0 && !old(self).is_open() ==> r matches Err(EncodingError::WriterNotFound),
            extension_bytes(extension).len() > 0 && old(self).is_open() ==> r is Ok || r matches Err(EncodingError::Io(_)),
            r is Ok ==> final(self).written() == old(self).written() + extension_bytes(extension),
            r is Err ==> final(self).written() == old(self).written(),
            old(self).is_open() && old(self).spec_sink().accepts_all() ==> r is Ok,
    {
        if let ExtensionData::Repetitions(Repeat::Finite(0)) = extension {
            return Ok(());
        }
        if self.w.is_none() {
            return Err(EncodingError::WriterNotFound);
        }
        let mut bytes: Vec<u8> = vec![0x21];
        match extension {
            ExtensionData::Control { flags, delay, trns } => {
                bytes.push(0xf9);
                bytes.push(4);
                bytes.push(flags);
                push_le16(&mut bytes, delay);
                bytes.push(trns);
            },
            ExtensionData::Repetitions(repeat) => {
                bytes.push(0xff);
                bytes.push(11);
                let id: Vec<u8> = vec![0x4e, 0x45, 0x54, 0x53, 0x43, 0x41, 0x50, 0x45, 0x32, 0x2e, 0x30];
                push_all(&mut bytes, id.as_slice());
                bytes.push(3);
                bytes.push(1);
                push_le16(
                    &mut bytes,
                    match repeat {
                        Repeat::Finite(no) => no,
                        Repeat::Infinite => 0,
                    },
                );
            },
        }
        bytes.push(0);
        assert(bytes@ =~= extension_bytes(extension));
        self.put(bytes.as_slice())
    }

    /// Writes a raw extension to the image.
    ///
    /// This method can be used to write an unsupported extension to the file. `func` is the extension
    /// identifier (e.g. `0xFF` for an application extension). `data` are the extension payload blocks. If any
    /// contained slice has a length > 255 it is automatically divided into sub-blocks.
    pub fn write_raw_extension(&mut self, func: AnyExtension, data: &[&[u8]]) -> (r: Result<(), EncodingError>)
        ensures
            final(self).same_setup(old(self)),
            old(self).in_sync() && r is Ok ==> final(self).in_sync(),
            !old(self).is_open() ==> r matches Err(EncodingError::WriterNotFound),
            old(self).is_open() ==> r is Ok || r matches Err(EncodingError::Io(_)),
            r is Ok ==> final(self).written() == old(self).written() + raw_extension_bytes(func.0, payload_views(data@)),
            r is Err ==> wrote_part(old(self).written(), final(self).written(), raw_extension_bytes(func.0, payload_views(data@))),
            old(self).is_open() && old(self).spec_sink().accepts_all() ==> r is Ok,
    {
        let ghost start = self.written();
        let ghost whole = raw_extension_bytes(func.0, payload_views(data@));
        proof {
            lemma_wrote_part_all(start, whole);
        }
        if self.w.is_none() {
            return Err(EncodingError::WriterNotFound);
        }
        let head: Vec<u8> = vec![0x21, func.0];
        self.put(head.as_slice())?;
        let mut i: usize = 0;
        while i < data.len()
            invariant
                self.is_open(),
                self.same_setup(old(self)),
                old(self).in_sync() ==> self.in_sync(),
                i <= data@.len(),
                start == old(self).written(),
                whole == raw_extension_bytes(func.0, payload_views(data@)),
                self.written() == start + seq![0x21u8, func.0] + chunked_all(payload_views(data@.take(i as int))),
            decreases data@.len() - i,
        {
            let ghost before = self.written();
            proof {
                lemma_chunked_all_prefix(data@, i as int + 1);
                assert(payload_views(data@.take(i as int + 1)).drop_last() =~= payload_views(data@.take(i as int)));
            }
            match self.write_chunks(data[i]) {
                Ok(()) => {},
                Err(e) => {
                    proof {
                        let done = chunked_all(payload_views(data@.take(i as int)));
                        let all = chunked_all(payload_views(data@));
                        lemma_chunked_all_prefix(data@, i as int + 1);
                        let upto = chunked_all(payload_views(data@.take(i as int + 1)));
                        assert(upto == done + chunked(data@[i as int]@));
                        let tail = all.skip(upto.len() as int);
                        assert(all =~= upto + tail);
                        assert(whole =~= seq![0x21u8, func.0] + done + (chunked(data@[i as int]@) + (tail + seq![0u8])));
                        assert(before == start + (seq![0x21u8, func.0] + done));
                        lemma_wrote_part_extend(before, self.written(), chunked(data@[i as int]@), tail + seq![0u8]);
                        lemma_wrote_part_step(start, before, self.written(), seq![0x21u8, func.0] + done,
                            chunked(data@[i as int]@) + (tail + seq![0u8]));
                        assert(seq![0x21u8, func.0] + done + (chunked(data@[i as int]@) + (tail + seq![0u8])) =~= whole);
                    }
                    return Err(e);
                },
            }
            i = i + 1;
            proof {
                assert(self.written() =~= start + seq![0x21u8, func.0] + chunked_all(payload_views(data@.take(i as int))));
            }
        }
        proof {
            assert(data@.take(i as int) =~= data@);
        }
        let ghost body = self.written();
        let terminator: Vec<u8> = vec![0];
        match self.put(terminator.as_slice()) {
            Ok(()) => {},
            Err(e) => {
                proof {
                    lemma_prefix_of_concat(start, seq![0x21u8, func.0] + chunked_all(payload_views(data@)));
                    assert(body =~= start + (seq![0x21u8, func.0] + chunked_all(payload_views(data@))));
                    lemma_prefix_of_concat(body, seq![0u8]);
                    assert(body + seq![0u8] =~= start + whole);
                }
                return Err(e);
            },
        }
        assert(self.written() =~= start + whole);
        Ok(())
    }

    /// Write an extension block that signals a repeat behaviour.
    pub fn set_repeat(&mut self, repeat: Repeat) -> (r: Result<(), EncodingError>)
        ensures
            final(self).same_setup(old(self)),
            old(self).in_sync() && r is Ok ==> final(self).in_sync(),
            repeat == Repeat::Finite(0) ==> r is Ok && final(self).written() == old(self).written(),
            repeat != Repeat::Finite(0) && !old(self).is_open() ==> r matches Err(EncodingError::WriterNotFound),
            repeat != Repeat::Finite(0) && old(self).is_open() ==> r is Ok || r matches Err(EncodingError::Io(_)),
            r is Ok ==> final(self).written() == old(self).written() + extension_bytes(ExtensionData::Repetitions(repeat)),
            r is Err ==> final(self).written() == old(self).written(),
            old(self).is_open() && old(self).spec_sink().accepts_all() ==> r is Ok,
    {
        self.write_extension(ExtensionData::Repetitions(repeat))
    }

    fn write_trailer(&mut self) -> (r: Result<(), EncodingError>)
        ensures
            final(self).same_setup(old(self)),
            old(self).in_sync() && r is Ok ==> final(self).in_sync(),
            !old(self).is_open() ==> r matches Err(EncodingError::WriterNotFound),
            old(self).is_open() ==> r is Ok || r matches Err(EncodingError::Io(_)),
            r is Ok ==> final(self).written() == old(self).written() + seq![0x3bu8],
            r is Ok ==> (old(self).spec_sink().tracks_bytes() ==> final(self).spec_sink().tracks_bytes()
                && final(self).spec_sink().sink_bytes() == old(self).spec_sink().sink_bytes() + seq![0x3bu8]),
            old(self).is_open() && old(self).spec_sink().accepts_all() ==> r is Ok,
            r is Err ==> final(self).written() == old(self).written(),
    {
        if self.w.is_none() {
            return Err(EncodingError::WriterNotFound);
        }
        let trailer: Vec<u8> = vec![0x3b];
        let r = self.put(trailer.as_slice());
        proof {
            if r is Ok && old(self).in_sync() {
                assert(self.sink_origin() + self.written() =~= old(self).sink_origin() + old(self).written() + seq![0x3bu8]);
            }
        }
        r
    }

    /// Gets a reference to the writer instance used by this encoder.
    pub fn get_ref(&self) -> (r: &W)
        requires
            self.is_open(),
        ensures
            *r == self.spec_sink(),
            self.in_sync() ==> r.sink_bytes() == self.sink_origin() + self.written(),
    {
        self.w.as_ref().unwrap()
    }

    /// Gets a mutable reference to the writer instance used by this encoder.
    ///
    /// It is inadvisable to directly write to the underlying writer.
    pub fn get_mut(&mut self) -> (r: &mut W)
        requires
            old(self).is_open(),
        ensures
            *r == old(self).spec_sink(),
            final(self).is_open(),
            final(self).sink_origin() == old(self).sink_origin(),
            final(self).has_global_palette() == old(self).has_global_palette(),
            final(self).spec_width() == old(self).spec_width(),
            final(self).spec_height() == old(self).spec_height(),
            final(self).written() == old(self).written(),
            final(self).spec_sink() == *final(r),
    {
        self.w.as_mut().unwrap()
    }

    /// Finishes writing, and returns the `io::Write` instance used by this encoder
    pub fn into_inner(self) -> (r: Result<W, EncodingError>)
        ensures
            !self.is_open() ==> r matches Err(EncodingError::WriterNotFound),
            self.is_open() ==> r is Ok || r matches Err(EncodingError::Io(_)),
            self.is_open() && self.spec_sink().accepts_all() ==> r is Ok,
            r matches Ok(w) ==> (self.spec_sink().tracks_bytes() ==> w.tracks_bytes()
                && w.sink_bytes() == self.spec_sink().sink_bytes() + seq![0x3bu8]),
            r matches Ok(w) ==> (self.in_sync() ==> w.sink_bytes() == self.sink_origin() + self.written()
                + seq![0x3bu8]),
    {
        let mut enc = self;
        enc.write_trailer()?;
        match enc.w.take() {
            Some(w) => Ok(w),
            None => Err(EncodingError::WriterNotFound),
        }
    }
}

impl<W: Write> Drop for Encoder<W> {
    /// Writes the trailer if the encoder was not finished by `into_inner`;
    /// a failure of the sink at that point is ignored.
    fn drop(&mut self)
        opens_invariants none
        no_unwind
    {
        match &mut self.w {
            Some(w) => write_byte_ignoring_errors(w, 0x3b),
            None => {},
        }
    }
}

/// Hands one byte to the sink's `write_all` and ignores the outcome. It may
/// run while the encoder is dropped, where nothing may unwind; a sink's
/// `write_all` does not promise that, and this relies on the sink not
/// panicking.
#[verifier::external_body]
fn write_byte_ignoring_errors<W: Write>(w: &mut W, byte: u8)
    opens_invariants none
    no_unwind
{
    let _ = w.write_all(&[byte]);
}

impl Frame {
    /// Replace frame's buffer with a LZW-compressed one for use with [`Encoder::write_lzw_pre_encoded_frame`].
    ///
    /// Frames can be compressed in any order, separately from the `Encoder`, which can be used to compress frames in parallel.
    pub fn make_lzw_pre_encoded(&mut self)
        ensures
            final(self).buffer@ == lzw_payload(old(self).buffer@),
            same_but_buffer(*final(self), *old(self)),
    {
        let mut buffer: Vec<u8> = Vec::new();
        lzw_encode(self.buffer.as_slice(), &mut buffer);
        assert(buffer@ =~= lzw_payload(old(self).buffer@));
        self.buffer = buffer;
    }
}

} // verus!
