//! The fixed 128-byte PCX file header.

use vstd::prelude::*;

use crate::error::DecodingError;

verus! {

/// File format version.
#[derive(Copy, Clone, Debug, PartialEq, Eq, Structural)]
pub enum Version {
    /// Version 2.5 with fixed EGA palette information.
    V0,
    /// Version 2.8 with modifiable EGA palette information.
    V2,
    /// Version 2.8 without palette information.
    V3,
    /// PC Paintbrush for Windows.
    V4,
    /// Version 3.0 of PC Paintbrush and all 24-bit image files.
    V5,
}

/// The version a version byte stands for, if any.
pub open spec fn spec_version(b: u8) -> Option<Version> {
    if b == 0 {
        Some(Version::V0)
    } else if b == 2 {
        Some(Version::V2)
    } else if b == 3 {
        Some(Version::V3)
    } else if b == 4 {
        Some(Version::V4)
    } else if b == 5 {
        Some(Version::V5)
    } else {
        None
    }
}

/// A little-endian 16-bit word from its two bytes.
pub open spec fn spec_u16_le(lo: u8, hi: u8) -> u16 {
    (lo + 256 * hi) as u16
}

/// The two little-endian bytes of a 16-bit word.
pub open spec fn spec_u16_bytes(x: u16) -> Seq<u8> {
    seq![(x % 256) as u8, (x / 256) as u8]
}

/// `n` zero bytes.
pub open spec fn spec_zeros(n: nat) -> Seq<u8> {
    Seq::new(n, |i: int| 0u8)
}

/// Bytes of pixel data in one lane of one plane, excluding padding:
/// the width in pixels times the bit depth, rounded up to whole bytes.
pub open spec fn spec_lane_proper(width: u16, bit_depth: u8) -> int {
    (width * bit_depth - 1) / 8 + 1
}

/// The eight supported (plane count, bit depth) pairs.
pub open spec fn spec_valid_format(planes: u8, depth: u8) -> bool {
    ||| (planes == 3 && depth == 8)  // 24-bit RGB
    ||| (planes == 1 && (depth == 1 || depth == 2 || depth == 4 || depth == 8))  // packed paletted
    ||| ((planes == 2 || planes == 3 || planes == 4) && depth == 1)  // planar paletted
}

/// Number of palette entries a pixel format calls for: none for RGB, and
/// two to the number of bits per pixel otherwise.
pub open spec fn spec_palette_length(planes: u8, depth: u8) -> Option<u16> {
    if planes == 3 && depth == 8 {
        None
    } else if planes == 1 && depth == 1 {
        Some(2u16)
    } else if planes == 1 && depth == 2 {
        Some(4u16)
    } else if planes == 1 && depth == 4 {
        Some(16u16)
    } else if planes == 1 && depth == 8 {
        Some(256u16)
    } else if planes == 2 && depth == 1 {
        Some(4u16)
    } else if planes == 3 && depth == 1 {
        Some(8u16)
    } else {
        Some(16u16)  // planes == 4, depth == 1 for the supported formats
    }
}

// Field positions inside the 128-byte header, as read by the parser.
pub open spec fn spec_x_start(d: Seq<u8>) -> u16 {
    spec_u16_le(d[4], d[5])
}

pub open spec fn spec_y_start(d: Seq<u8>) -> u16 {
    spec_u16_le(d[6], d[7])
}

pub open spec fn spec_x_end(d: Seq<u8>) -> u16 {
    spec_u16_le(d[8], d[9])
}

pub open spec fn spec_y_end(d: Seq<u8>) -> u16 {
    spec_u16_le(d[10], d[11])
}

/// Image width: one more than the difference of the window edges.
pub open spec fn spec_width(d: Seq<u8>) -> u16 {
    (spec_x_end(d) - spec_x_start(d) + 1) as u16
}

/// Image height: one more than the difference of the window edges.
pub open spec fn spec_height(d: Seq<u8>) -> u16 {
    (spec_y_end(d) - spec_y_start(d) + 1) as u16
}

pub open spec fn spec_dpi(d: Seq<u8>) -> (u16, u16) {
    (spec_u16_le(d[12], d[13]), spec_u16_le(d[14], d[15]))
}

pub open spec fn spec_lane_length(d: Seq<u8>) -> u16 {
    spec_u16_le(d[66], d[67])
}

/// Exactly which error parsing the header bytes `d` gives, or `None` when
/// it succeeds.  The checks run in the order the fields are read, so a
/// stream that ends early fails with the error of the first field it cuts
/// off.
pub open spec fn spec_parse_error(d: Seq<u8>) -> Option<DecodingError> {
    if d.len() < 1 {
        Some(DecodingError::UnexpectedEof)
    } else if d[0] != 0x0A {
        Some(DecodingError::NotPcx)
    } else if d.len() < 2 {
        Some(DecodingError::UnexpectedEof)
    } else if spec_version(d[1]) is None {
        Some(DecodingError::UnknownVersion(d[1]))
    } else if d.len() < 3 {
        Some(DecodingError::UnexpectedEof)
    } else if d[2] != 0 && d[2] != 1 {
        Some(DecodingError::UnknownEncoding(d[2]))
    } else if d.len() < 4 {
        Some(DecodingError::UnexpectedEof)
    } else if d[3] != 1 && d[3] != 2 && d[3] != 4 && d[3] != 8 {
        Some(DecodingError::InvalidBitsPerPlane(d[3]))
    } else if d.len() < 12 {
        Some(DecodingError::UnexpectedEof)
    } else if spec_x_end(d) < spec_x_start(d) || spec_y_end(d) < spec_y_start(d) || spec_x_end(d)
        - spec_x_start(d) == 0xFFFF || spec_y_end(d) - spec_y_start(d) == 0xFFFF {
        Some(DecodingError::InvalidDimensions)
    } else if d.len() < 128 {
        Some(DecodingError::UnexpectedEof)
    } else if !spec_valid_format(d[65], d[3]) {
        Some(DecodingError::UnsupportedColorFormat)
    } else if spec_lane_length(d) < spec_lane_proper(spec_width(d), d[3]) {
        Some(DecodingError::InvalidLaneLength)
    } else {
        None
    }
}

/// Parsed header of a PCX file.
#[derive(Debug)]
pub struct Header {
    /// Version of the file format.
    pub version: Version,
    /// Whether the pixel data is run-length encoded.  Raw pixel data is
    /// non-standard but supported.
    pub is_compressed: bool,
    /// Bits per pixel per plane: 1, 2, 4 or 8.
    pub bit_depth: u8,
    /// Width and height of the image.
    pub size: (u16, u16),
    /// Offset indicating where to render this image; usually `(0, 0)`.
    pub start: (u16, u16),
    /// Dots per inch.
    pub dpi: (u16, u16),
    /// The inline color palette: 16 entries of three bytes each.
    pub palette: Vec<u8>,
    /// Number of color planes in the image.
    pub number_of_color_planes: u8,
    /// Lane length including padding bytes.
    pub lane_length: u16,
}

impl Header {
    /// What every parsed header satisfies: a supported pixel format,
    /// positive dimensions, a lane long enough for one plane of one row,
    /// and a complete inline palette.
    pub open spec fn wf(self) -> bool {
        &&& self.palette@.len() == 48
        &&& spec_valid_format(self.number_of_color_planes, self.bit_depth)
        &&& self.size.0 >= 1
        &&& self.size.1 >= 1
        &&& self.lane_length >= spec_lane_proper(self.size.0, self.bit_depth)
    }

    /// Parse the first 128 bytes of `stream` as a PCX header.
    pub fn load(stream: &Vec<u8>) -> (r: Result<Header, DecodingError>)
        ensures
            match r {
                Ok(h) => {
                    &&& spec_parse_error(stream@) is None
                    &&& spec_version(stream@[1]) == Some(h.version)
                    &&& h.is_compressed == (stream@[2] == 1)
                    &&& h.bit_depth == stream@[3]
                    &&& h.size == (spec_width(stream@), spec_height(stream@))
                    &&& h.start == (spec_x_start(stream@), spec_y_start(stream@))
                    &&& h.dpi == spec_dpi(stream@)
                    &&& h.palette@ == stream@.subrange(16, 64)
                    &&& h.number_of_color_planes == stream@[65]
                    &&& h.lane_length == spec_lane_length(stream@)
                    &&& h.wf()
                },
                Err(e) => spec_parse_error(stream@) == Some(e),
            },
    {
        if stream.len() < 1 {
            return Err(DecodingError::UnexpectedEof);
        }
        if stream[0] != crate::MAGIC_BYTE {
            return Err(DecodingError::NotPcx);
        }
        if stream.len() < 2 {
            return Err(DecodingError::UnexpectedEof);
        }
        let vb = stream[1];
        let version = match vb {
            0 => Version::V0,
            2 => Version::V2,
            3 => Version::V3,
            4 => Version::V4,
            5 => Version::V5,
            _ => {
                return Err(DecodingError::UnknownVersion(vb));
            },
        };
        if stream.len() < 3 {
            return Err(DecodingError::UnexpectedEof);
        }
        let encoding = stream[2];
        if encoding != 0 && encoding != 1 {
            return Err(DecodingError::UnknownEncoding(encoding));
        }
        if stream.len() < 4 {
            return Err(DecodingError::UnexpectedEof);
        }
        let bit_depth = stream[3];
        if bit_depth != 1 && bit_depth != 2 && bit_depth != 4 && bit_depth != 8 {
            return Err(DecodingError::InvalidBitsPerPlane(bit_depth));
        }
        if stream.len() < 12 {
            return Err(DecodingError::UnexpectedEof);
        }
        let x_start = u16_le(stream[4], stream[5]);
        let y_start = u16_le(stream[6], stream[7]);
        let x_end = u16_le(stream[8], stream[9]);
        let y_end = u16_le(stream[10], stream[11]);
        if x_end < x_start || y_end < y_start || x_end - x_start == 0xFFFF || y_end - y_start
            == 0xFFFF {
            return Err(DecodingError::InvalidDimensions);
        }
        let width = x_end - x_start + 1;
        let height = y_end - y_start + 1;
        if stream.len() < 128 {
            return Err(DecodingError::UnexpectedEof);
        }
        let x_dpi = u16_le(stream[12], stream[13]);
        let y_dpi = u16_le(stream[14], stream[15]);
        let mut palette: Vec<u8> = Vec::new();
        let mut i: usize = 16;
        while i < 64
            invariant
                16 <= i <= 64,
                stream@.len() >= 128,
                palette@ == stream@.subrange(16, i as int),
            decreases 64 - i,
        {
            palette.push(stream[i]);
            i = i + 1;
            proof {
                assert(palette@ =~= stream@.subrange(16, i as int));
            }
        }
        let number_of_color_planes = stream[65];
        let lane_length = u16_le(stream[66], stream[67]);
        if !valid_format(number_of_color_planes, bit_depth) {
            return Err(DecodingError::UnsupportedColorFormat);
        }
        if lane_length < lane_proper_length(width, bit_depth) {
            return Err(DecodingError::InvalidLaneLength);
        }
        Ok(Header {
            version,
            is_compressed: encoding == 1,
            bit_depth,
            size: (width, height),
            start: (x_start, y_start),
            dpi: (x_dpi, y_dpi),
            palette,
            number_of_color_planes,
            lane_length,
        })
    }

    /// Length of each lane without padding.
    pub fn lane_proper_length(&self) -> (r: u16)
        requires
            self.wf(),
        ensures
            r == spec_lane_proper(self.size.0, self.bit_depth),
    {
        lane_proper_length(self.size.0, self.bit_depth)
    }

    /// Number of padding bytes in each lane.
    pub fn lane_padding(&self) -> (r: u16)
        requires
            self.wf(),
        ensures
            r == self.lane_length - spec_lane_proper(self.size.0, self.bit_depth),
    {
        self.lane_length - self.lane_proper_length()
    }

    /// Number of colors in the palette, or `None` for a 24-bit RGB image.
    /// The reported length is always one of 2, 4, 8, 16 or 256, and is
    /// `None` exactly for the RGB format.
    pub fn palette_length(&self) -> (r: Option<u16>)
        requires
            self.wf(),
        ensures
            r == spec_palette_length(self.number_of_color_planes, self.bit_depth),
            r is None <==> (self.number_of_color_planes == 3 && self.bit_depth == 8),
            match r {
                Some(n) => n == 2 || n == 4 || n == 8 || n == 16 || n == 256,
                None => true,
            },
    {
        if self.number_of_color_planes == 3 && self.bit_depth == 8 {
            None
        } else {
            let depth = self.bit_depth;
            let planes = self.number_of_color_planes;
            proof {
                assert(1 <= (depth as u16) * (planes as u16) <= 8) by (nonlinear_arith)
                    requires
                        spec_valid_format(planes, depth),
                        !(planes == 3 && depth == 8),
                ;
            }
            let bits = (depth as u16) * (planes as u16);
            proof {
                assert(bits <= 8);
                assert(bits >= 1);
                assert((1u16 << 1u16) == 2 && (1u16 << 2u16) == 4 && (1u16 << 3u16) == 8 && (
                    1u16 << 4u16) == 16 && (1u16 << 8u16) == 256) by (bit_vector);
            }
            Some(1u16 << bits)
        }
    }
}

/// The little-endian word held by two bytes.
pub fn u16_le(lo: u8, hi: u8) -> (r: u16)
    ensures
        r == spec_u16_le(lo, hi),
{
    lo as u16 + 256 * (hi as u16)
}

/// Push the two little-endian bytes of a word.
pub fn push_u16_le(stream: &mut Vec<u8>, x: u16)
    ensures
        final(stream)@ == old(stream)@ + spec_u16_bytes(x),
{
    stream.push((x % 256) as u8);
    stream.push((x / 256) as u8);
    proof {
        assert(final(stream)@ =~= old(stream)@ + spec_u16_bytes(x));
    }
}

/// Whether a (plane count, bit depth) pair is supported.
pub fn valid_format(planes: u8, depth: u8) -> (r: bool)
    ensures
        r == spec_valid_format(planes, depth),
{
    (planes == 3 && depth == 8) || (planes == 1 && (depth == 1 || depth == 2 || depth == 4
        || depth == 8)) || ((planes == 2 || planes == 3 || planes == 4) && depth == 1)
}

/// Length of each lane of one plane without padding, for a given width and
/// bit depth.
pub fn lane_proper_length(width: u16, bit_depth: u8) -> (r: u16)
    requires
        width >= 1,
        1 <= bit_depth <= 8,
    ensures
        r == spec_lane_proper(width, bit_depth),
{
    proof {
        assert(width * bit_depth <= 0xFFFF * 8) by (nonlinear_arith)
            requires width <= 0xFFFF, bit_depth <= 8, width >= 1, bit_depth >= 1;
        assert(width * bit_depth >= 1) by (nonlinear_arith)
            requires width >= 1, bit_depth >= 1;
    }
    (((width as u32) * (bit_depth as u32) - 1) / 8 + 1) as u16
}

/// The 128 bytes that `write` emits: always version 5, run-length encoded,
/// 8 bits per plane, with one plane for a paletted image and three for RGB,
/// and the lane length the width rounded up to an even number.
pub open spec fn spec_header_bytes(paletted: bool, size: (u16, u16), dpi: (u16, u16)) -> Seq<u8> {
    let lane = (size.0 + size.0 % 2) as u16;
    seq![0x0Au8, 5u8, 1u8, 8u8] + spec_u16_bytes(0) + spec_u16_bytes(0) + spec_u16_bytes(
        (size.0 - 1) as u16) + spec_u16_bytes((size.1 - 1) as u16) + spec_u16_bytes(dpi.0)
        + spec_u16_bytes(dpi.1) + spec_zeros(48) + seq![0u8, if paletted { 1u8 } else { 3u8 }]
        + spec_u16_bytes(lane) + spec_u16_bytes(1) + spec_zeros(58)
}

/// Append a PCX header for an image of the given size and resolution to
/// the stream.  Fails, leaving the stream alone, when the width is the
/// largest 16-bit value (its lane could not be rounded up to even) or when
/// either dimension is zero.
pub fn write(stream: &mut Vec<u8>, paletted: bool, size: (u16, u16), dpi: (u16, u16)) -> (r:
    Result<(), DecodingError>)
    ensures
        match r {
            Ok(()) => {
                &&& size.0 >= 1 && size.0 < 0xFFFF && size.1 >= 1
                &&& final(stream)@ == old(stream)@ + spec_header_bytes(paletted, size, dpi)
            },
            Err(e) => {
                &&& e == DecodingError::InvalidInput
                &&& (size.0 == 0xFFFF || size.0 == 0 || size.1 == 0)
                &&& final(stream)@ == old(stream)@
            },
        },
{
    if size.0 == 0xFFFF {
        // rounding the lane length up to even would overflow
        return Err(DecodingError::InvalidInput);
    }
    if size.0 == 0 || size.1 == 0 {
        return Err(DecodingError::InvalidInput);
    }
    stream.push(crate::MAGIC_BYTE);
    stream.push(5);
    stream.push(1);  // encoding: run-length encoded
    stream.push(8);  // bit depth
    push_u16_le(stream, 0);  // x start
    push_u16_le(stream, 0);  // y start
    push_u16_le(stream, size.0 - 1);
    push_u16_le(stream, size.1 - 1);
    push_u16_le(stream, dpi.0);
    push_u16_le(stream, dpi.1);
    let ghost before_palette = stream@;
    let mut i: usize = 0;
    while i < 48
        invariant
            i <= 48,
            stream@ == before_palette + spec_zeros(i as nat),
        decreases 48 - i,
    {
        stream.push(0);
        i = i + 1;
        proof {
            assert(stream@ =~= before_palette + spec_zeros(i as nat));
        }
    }
    stream.push(0);  // reserved
    stream.push(if paletted { 1 } else { 3 });  // number of color planes
    let lane_length = size.0 + (size.0 % 2);  // width rounded up to even
    push_u16_le(stream, lane_length);
    push_u16_le(stream, 1);  // palette kind
    let ghost before_reserved = stream@;
    let mut j: usize = 0;
    while j < 58
        invariant
            j <= 58,
            stream@ == before_reserved + spec_zeros(j as nat),
        decreases 58 - j,
    {
        stream.push(0);
        j = j + 1;
        proof {
            assert(stream@ =~= before_reserved + spec_zeros(j as nat));
        }
    }
    proof {
        assert(stream@ =~= old(stream)@ + spec_header_bytes(paletted, size, dpi));
    }
    Ok(())
}

/// The two little-endian bytes of a word hold that word.
proof fn lemma_u16_bytes_value(x: u16)
    ensures
        spec_u16_le(spec_u16_bytes(x)[0], spec_u16_bytes(x)[1]) == x,
{
    assert(x % 256 + 256 * (x / 256) == x) by (nonlinear_arith);
}

/// Parsing reads only the first 128 bytes: anything after them -- pixel
/// data, a palette -- changes nothing about the outcome.
pub proof fn lemma_parse_prefix(d: Seq<u8>, rest: Seq<u8>)
    requires
        d.len() == 128,
    ensures
        spec_parse_error(d + rest) == spec_parse_error(d),
        spec_width(d + rest) == spec_width(d),
        spec_height(d + rest) == spec_height(d),
        spec_dpi(d + rest) == spec_dpi(d),
        spec_lane_length(d + rest) == spec_lane_length(d),
        (d + rest)[1] == d[1],
        (d + rest)[2] == d[2],
        (d + rest)[3] == d[3],
        (d + rest)[65] == d[65],
{
    let e = d + rest;
    assert(e.len() >= 128);
    assert(forall|i: int| 0 <= i < 128 ==> e[i] == d[i]);
    assert(spec_x_start(e) == spec_x_start(d) && spec_y_start(e) == spec_y_start(d)
        && spec_x_end(e) == spec_x_end(d) && spec_y_end(e) == spec_y_end(d));
    assert(spec_width(e) == spec_width(d) && spec_height(e) == spec_height(d));
    assert(spec_dpi(e) == spec_dpi(d));
    assert(spec_lane_length(e) == spec_lane_length(d));
    assert(spec_parse_error(e) == spec_parse_error(d));
}

/// Header round trip: the 128 bytes `write` emits parse back without
/// error, and the parsed fields reproduce the size, the resolution and the
/// paletted-ness that were written.  (Widths of 0xFFFF and empty sizes are
/// rejected by `write` itself and never reach a stream.)
pub proof fn lemma_header_round_trip(paletted: bool, size: (u16, u16), dpi: (u16, u16))
    requires
        1 <= size.0 < 0xFFFF,
        size.1 >= 1,
    ensures
        ({
            let d = spec_header_bytes(paletted, size, dpi);
            &&& d.len() == 128
            &&& spec_parse_error(d) is None
            &&& spec_version(d[1]) == Some(Version::V5)
            &&& d[2] == 1
            &&& d[3] == 8
            &&& spec_x_start(d) == 0 && spec_y_start(d) == 0
            &&& spec_width(d) == size.0
            &&& spec_height(d) == size.1
            &&& spec_dpi(d) == dpi
            &&& d[65] == (if paletted { 1u8 } else { 3u8 })
            &&& spec_valid_format(d[65], d[3])
            &&& (spec_palette_length(d[65], d[3]) is None <==> !paletted)
            &&& spec_lane_length(d) == size.0 + size.0 % 2
        }),
{
    let d = spec_header_bytes(paletted, size, dpi);
    let lane = (size.0 + size.0 % 2) as u16;
    let xe = (size.0 - 1) as u16;
    let ye = (size.1 - 1) as u16;
    assert(d.len() == 128);
    assert(d[0] == 0x0A && d[1] == 5 && d[2] == 1 && d[3] == 8);
    assert(d[4] == 0 && d[5] == 0 && d[6] == 0 && d[7] == 0);
    assert(d[8] == spec_u16_bytes(xe)[0] && d[9] == spec_u16_bytes(xe)[1]);
    assert(d[10] == spec_u16_bytes(ye)[0] && d[11] == spec_u16_bytes(ye)[1]);
    assert(d[12] == spec_u16_bytes(dpi.0)[0] && d[13] == spec_u16_bytes(dpi.0)[1]);
    assert(d[14] == spec_u16_bytes(dpi.1)[0] && d[15] == spec_u16_bytes(dpi.1)[1]);
    assert(d[64] == 0);
    assert(d[65] == (if paletted { 1u8 } else { 3u8 }));
    assert(d[66] == spec_u16_bytes(lane)[0] && d[67] == spec_u16_bytes(lane)[1]);
    lemma_u16_bytes_value(xe);
    lemma_u16_bytes_value(ye);
    lemma_u16_bytes_value(dpi.0);
    lemma_u16_bytes_value(dpi.1);
    lemma_u16_bytes_value(lane);
    assert(spec_u16_le(0, 0) == 0);
    assert(spec_x_end(d) == xe && spec_y_end(d) == ye);
    assert(spec_width(d) == size.0 && spec_height(d) == size.1);
    assert(spec_lane_length(d) == lane);
    assert(spec_lane_proper(size.0, 8) == size.0) by (nonlinear_arith)
        requires size.0 >= 1;
    assert(lane >= size.0);
    assert(spec_parse_error(d) is None);
}

} // verus!
