//! Reading PCX images: header, pixel rows, palette.

use vstd::prelude::*;
use vstd::arithmetic::div_mod::lemma_div_is_ordered;

use crate::error::DecodingError;
use crate::header::Header;
use crate::header::spec_lane_proper;
use crate::header::spec_palette_length;
use crate::header::spec_parse_error;
use crate::header::spec_version;
use crate::header::spec_width;
use crate::header::spec_height;
use crate::header::spec_x_start;
use crate::header::spec_y_start;
use crate::header::spec_dpi;
use crate::header::spec_lane_length;
use crate::rle::Decompressor;
use crate::rle::PullResult;
use crate::rle::RleSource;
use crate::rle::raw_pull;
use crate::rle::rle_pull;

verus! {

/// Lanes in the whole image: one lane per plane per row.
pub open spec fn spec_total_lanes(h: Header) -> int {
    h.size.1 * h.number_of_color_planes
}

/// Padding bytes at the end of each lane.
pub open spec fn spec_lane_pad(h: Header) -> nat {
    (h.lane_length - spec_lane_proper(h.size.0, h.bit_depth)) as nat
}

/// Bytes pulled from the stream: decoded through the run codes on a
/// compressed file, copied as they are on a raw one.
pub open spec fn src_pull(compressed: bool, m: RleSource, n: nat) -> PullResult {
    if compressed {
        rle_pull(m, n)
    } else {
        raw_pull(m, n)
    }
}

/// Outcome of reading one lane: its pixel bytes, the stream state after
/// the lane and its padding, and whether the stream held enough data.
pub struct LaneResult {
    pub data: Seq<u8>,
    pub end: RleSource,
    pub ok: bool,
}

/// Reading one lane of `len` bytes, then skipping the `pad` padding
/// bytes -- except after the very last lane of the image, whose padding is
/// left unread.
pub open spec fn spec_next_lane(
    compressed: bool,
    m: RleSource,
    len: nat,
    pad: nat,
    lanes_read: nat,
    total: nat,
) -> LaneResult {
    let r1 = src_pull(compressed, m, len);
    if r1.err || r1.out.len() < len {
        LaneResult { data: r1.out, end: r1.end, ok: false }
    } else {
        let skip: nat = if lanes_read + 1 < total {
            pad
        } else {
            0
        };
        let r2 = src_pull(compressed, r1.end, skip);
        if r2.err || r2.out.len() < skip {
            LaneResult { data: r1.out, end: r2.end, ok: false }
        } else {
            LaneResult { data: r1.out, end: r2.end, ok: true }
        }
    }
}

/// Outcome of reading several lanes in a row.
pub struct LanesResult {
    pub lanes: Seq<Seq<u8>>,
    pub end: RleSource,
    pub lanes_read: nat,
    pub ok: bool,
}

/// Reading `k` lanes one after the other, with the lane counter advancing
/// (up to the image's total) after each complete lane.
pub open spec fn spec_read_lanes(
    compressed: bool,
    m: RleSource,
    len: nat,
    pad: nat,
    lanes_read: nat,
    total: nat,
    k: nat,
) -> LanesResult
    decreases k,
{
    if k == 0 {
        LanesResult { lanes: Seq::<Seq<u8>>::empty(), end: m, lanes_read, ok: true }
    } else {
        let l1 = spec_next_lane(compressed, m, len, pad, lanes_read, total);
        if !l1.ok {
            LanesResult { lanes: Seq::<Seq<u8>>::empty(), end: l1.end, lanes_read, ok: false }
        } else {
            let n1: nat = if lanes_read < total {
                (lanes_read + 1) as nat
            } else {
                lanes_read
            };
            let rest = spec_read_lanes(compressed, l1.end, len, pad, n1, total, (k - 1) as nat);
            LanesResult {
                lanes: seq![l1.data] + rest.lanes,
                end: rest.end,
                lanes_read: rest.lanes_read,
                ok: rest.ok,
            }
        }
    }
}

/// Reading `k1 + k2` lanes is reading `k1` and then `k2`.
pub proof fn lemma_read_lanes_split(
    c: bool,
    m: RleSource,
    len: nat,
    pad: nat,
    n: nat,
    total: nat,
    k1: nat,
    k2: nat,
)
    ensures
        ({
            let a = spec_read_lanes(c, m, len, pad, n, total, k1);
            let whole = spec_read_lanes(c, m, len, pad, n, total, (k1 + k2) as nat);
            if !a.ok {
                !whole.ok
            } else {
                let b = spec_read_lanes(c, a.end, len, pad, a.lanes_read, total, k2);
                &&& whole.lanes == a.lanes + b.lanes
                &&& whole.end == b.end
                &&& whole.lanes_read == b.lanes_read
                &&& whole.ok == b.ok
            }
        }),
    decreases k1,
{
    let a = spec_read_lanes(c, m, len, pad, n, total, k1);
    let whole = spec_read_lanes(c, m, len, pad, n, total, (k1 + k2) as nat);
    if k1 == 0 {
        let b = spec_read_lanes(c, m, len, pad, n, total, k2);
        assert(a.lanes + b.lanes =~= b.lanes);
    } else {
        let l1 = spec_next_lane(c, m, len, pad, n, total);
        if l1.ok {
            let n1: nat = if n < total {
                (n + 1) as nat
            } else {
                n
            };
            lemma_read_lanes_split(c, l1.end, len, pad, n1, total, (k1 - 1) as nat, k2);
            let a1 = spec_read_lanes(c, l1.end, len, pad, n1, total, (k1 - 1) as nat);
            if a1.ok {
                let b = spec_read_lanes(c, a1.end, len, pad, a1.lanes_read, total, k2);
                let w1 = spec_read_lanes(c, l1.end, len, pad, n1, total, (k1 - 1 + k2) as nat);
                assert(whole.lanes == seq![l1.data] + w1.lanes);
                assert(a.lanes + b.lanes =~= seq![l1.data] + (a1.lanes + b.lanes));
            }
        }
    }
}

/// Pixels per byte for a packed bit depth.
pub open spec fn spec_ppb(depth: u8) -> int {
    8int / (depth as int)
}

/// Mask with the low `depth` bits set.
pub open spec fn spec_depth_mask(depth: u8) -> u8 {
    if depth == 1 {
        1
    } else if depth == 2 {
        3
    } else {
        15
    }
}

/// The palette index of pixel `x` in a packed lane: the lane's bytes hold
/// `8 / depth` indices each, the first pixel in the most significant bits.
pub open spec fn spec_packed_index(lane: Seq<u8>, depth: u8, x: int) -> u8 {
    let ppb = spec_ppb(depth);
    let j = x % ppb;
    (lane[x / ppb] >> ((8 - depth * (j + 1)) as u8)) & spec_depth_mask(depth)
}

/// The bit of pixel `x` in a one-bit plane: bit `7 - x % 8` of byte
/// `x / 8`.
pub open spec fn spec_plane_bit(lane: Seq<u8>, x: int) -> u8 {
    if lane[x / 8] & (0x80u8 >> ((x % 8) as u8)) != 0 {
        1u8
    } else {
        0u8
    }
}

/// The palette index of pixel `x` assembled from one-bit planes `from` and
/// up, the bit of plane `d` at weight two to the `d`: plane 0 holds the
/// low bit.
pub open spec fn spec_planar_val(lanes: Seq<Seq<u8>>, x: int, from: int) -> int
    decreases lanes.len() - from,
{
    if from >= lanes.len() {
        0
    } else {
        2 * spec_planar_val(lanes, x, from + 1) + spec_plane_bit(lanes[from], x)
    }
}

/// The palette index of pixel `x` assembled from all the planes.
pub open spec fn spec_planar_index(lanes: Seq<Seq<u8>>, x: int) -> u8 {
    spec_planar_val(lanes, x, 0) as u8
}

/// The assembled index of up to four planes fits four bits.
proof fn lemma_planar_val_bound(lanes: Seq<Seq<u8>>, x: int, from: int)
    requires
        0 <= from <= lanes.len(),
        lanes.len() <= 4,
    ensures
        0 <= spec_planar_val(lanes, x, from),
        spec_planar_val(lanes, x, from) < (if lanes.len() - from == 0 {
            1int
        } else if lanes.len() - from == 1 {
            2int
        } else if lanes.len() - from == 2 {
            4int
        } else if lanes.len() - from == 3 {
            8int
        } else {
            16int
        }),
    decreases lanes.len() - from,
{
    if from < lanes.len() {
        lemma_planar_val_bound(lanes, x, from + 1);
    }
}

/// PCX file reader over an in-memory file.
pub struct Reader {
    /// File header.  All useful values are available through `Reader`
    /// methods, so the field is rarely needed directly.
    pub header: Header,
    decompressor: Decompressor,
    num_lanes_read: u32,
}

impl Reader {
    /// The header, for use in contracts.
    pub closed spec fn spec_header(self) -> Header {
        self.header
    }

    /// The stream state pixel data is read from.
    pub closed spec fn source(self) -> RleSource {
        self.decompressor.model()
    }

    /// How many lanes have been read, capped at the image's total.
    pub closed spec fn lanes_read(self) -> nat {
        self.num_lanes_read as nat
    }

    /// The reader's invariant: a well-formed header, a sound stream
    /// position, and a lane counter within the image.
    pub closed spec fn wf(self) -> bool {
        &&& self.header.wf()
        &&& self.decompressor.wf()
        &&& self.num_lanes_read <= spec_total_lanes(self.header)
    }

    /// Start reading a PCX file held in `stream`.  Succeeds exactly when
    /// the header parses; pixel data then follows from byte 128.
    pub fn new(stream: Vec<u8>) -> (r: Result<Reader, DecodingError>)
        ensures
            match r {
                Ok(rd) => {
                    &&& spec_parse_error(stream@) is None
                    &&& rd.wf()
                    &&& spec_version(stream@[1]) == Some(rd.spec_header().version)
                    &&& rd.spec_header().is_compressed == (stream@[2] == 1)
                    &&& rd.spec_header().bit_depth == stream@[3]
                    &&& rd.spec_header().size == (spec_width(stream@), spec_height(stream@))
                    &&& rd.spec_header().start == (spec_x_start(stream@), spec_y_start(stream@))
                    &&& rd.spec_header().dpi == spec_dpi(stream@)
                    &&& rd.spec_header().palette@ == stream@.subrange(16, 64)
                    &&& rd.spec_header().number_of_color_planes == stream@[65]
                    &&& rd.spec_header().lane_length == spec_lane_length(stream@)
                    &&& rd.lanes_read() == 0
                    &&& rd.source() == (RleSource {
                        count: 0,
                        value: 0u8,
                        s: stream@.skip(128),
                    })
                },
                Err(e) => spec_parse_error(stream@) == Some(e),
            },
    {
        let header = match Header::load(&stream) {
            Ok(h) => h,
            Err(e) => {
                return Err(e);
            },
        };
        let mut rest: Vec<u8> = Vec::new();
        let mut i: usize = 128;
        while i < stream.len()
            invariant
                128 <= i <= stream@.len(),
                stream@.len() >= 128,
                rest@ == stream@.subrange(128, i as int),
            decreases stream@.len() - i,
        {
            rest.push(stream[i]);
            i = i + 1;
            proof {
                assert(rest@ =~= stream@.subrange(128, i as int));
            }
        }
        proof {
            assert(rest@ =~= stream@.skip(128));
        }
        let decompressor = Decompressor::new(rest);
        let r = Reader { header, decompressor, num_lanes_read: 0 };
        proof {
            assert(spec_total_lanes(r.header) >= 0) by (nonlinear_arith)
                requires r.header.size.1 >= 1, r.header.number_of_color_planes >= 1;
        }
        Ok(r)
    }

    /// Width and height of the image.
    pub fn dimensions(&self) -> (r: (u16, u16))
        ensures
            r == self.spec_header().size,
    {
        self.header.size
    }

    /// The width of the image.
    pub fn width(&self) -> (r: u16)
        ensures
            r == self.spec_header().size.0,
    {
        self.header.size.0
    }

    /// The height of the image.
    pub fn height(&self) -> (r: u16)
        ensures
            r == self.spec_header().size.1,
    {
        self.header.size.1
    }

    /// Whether this image is paletted rather than 24-bit RGB.
    pub fn is_paletted(&self) -> (r: bool)
        requires
            self.wf(),
        ensures
            r == (spec_palette_length(self.spec_header().number_of_color_planes, self.spec_header().bit_depth)
                is Some),
    {
        self.header.palette_length().is_some()
    }

    /// Number of colors in the palette, if the image is paletted: one of
    /// 2, 4, 8, 16 or 256.
    pub fn palette_length(&self) -> (r: Option<u16>)
        requires
            self.wf(),
        ensures
            r == spec_palette_length(self.spec_header().number_of_color_planes, self.spec_header().bit_depth),
            match r {
                Some(n) => n == 2 || n == 4 || n == 8 || n == 16 || n == 256,
                None => true,
            },
    {
        self.header.palette_length()
    }

    /// Read the next lane into `buffer` (whose length must be the lane's
    /// proper length), then skip the lane's padding unless this was the
    /// image's last lane.
    fn next_lane(&mut self, buffer: &mut Vec<u8>) -> (r: Result<(), DecodingError>)
        requires
            old(self).wf(),
            old(buffer)@.len() == spec_lane_proper(old(self).header.size.0,
                old(self).header.bit_depth),
        ensures
            final(self).wf(),
            final(self).header == old(self).header,
            final(buffer)@.len() == old(buffer)@.len(),
            ({
                let lr = spec_next_lane(
                    old(self).header.is_compressed,
                    old(self).source(),
                    old(buffer)@.len() as nat,
                    spec_lane_pad(old(self).header),
                    old(self).lanes_read(),
                    spec_total_lanes(old(self).header) as nat,
                );
                &&& final(buffer)@ == lr.data + old(buffer)@.skip(lr.data.len() as int)
                &&& final(self).source() == lr.end
                &&& match r {
                    Ok(()) => {
                        &&& lr.ok
                        &&& final(self).lanes_read() == (if old(self).lanes_read()
                            < spec_total_lanes(old(self).header) {
                            old(self).lanes_read() + 1
                        } else {
                            old(self).lanes_read()
                        })
                    },
                    Err(e) => {
                        &&& !lr.ok
                        &&& e == DecodingError::UnexpectedEof
                        &&& final(self).lanes_read() == old(self).lanes_read()
                    },
                }
            }),
    {
        let ghost h = self.header;
        let ghost m0 = self.source();
        let ghost len = buffer@.len() as nat;
        let compressed = self.header.is_compressed;
        let n = if compressed {
            match self.decompressor.read(buffer) {
                Ok(n) => n,
                Err(e) => {
                    proof {
                        let p = rle_pull(m0, len);
                        assert(p.err);
                    }
                    return Err(e);
                },
            }
        } else {
            self.decompressor.read_raw(buffer)
        };
        if n < buffer.len() {
            return Err(DecodingError::UnexpectedEof);
        }
        proof {
            let r1 = src_pull(h.is_compressed, m0, len);
            assert(!r1.err && r1.out.len() == len);
            assert(final(buffer)@ =~= r1.out + old(buffer)@.skip(r1.out.len() as int));
        }
        let ghost m1 = self.source();
        proof {
            assert((self.header.size.1 as u32) * (self.header.number_of_color_planes as u32)
                <= 65535u32 * 4u32) by (nonlinear_arith)
                requires
                    self.header.size.1 <= 65535,
                    self.header.number_of_color_planes <= 4,
            ;
        }
        let total = (self.header.size.1 as u32) * (self.header.number_of_color_planes as u32);
        proof {
            assert(total == spec_total_lanes(h));
            assert(self.num_lanes_read <= total);
        }
        let skip_pad = self.num_lanes_read + 1 < total;
        if skip_pad {
            let pad = self.header.lane_padding();
            let mut scratch: Vec<u8> = Vec::new();
            let mut i: usize = 0;
            while i < pad as usize
                invariant
                    i <= pad as usize,
                    scratch@.len() == i,
                decreases pad as usize - i,
            {
                scratch.push(0);
                i = i + 1;
            }
            proof {
                assert(scratch@.len() == spec_lane_pad(h));
            }
            let k = if compressed {
                match self.decompressor.read(&mut scratch) {
                    Ok(k) => k,
                    Err(e) => {
                        proof {
                            let r2 = src_pull(h.is_compressed, m1, spec_lane_pad(h));
                            assert(r2.err);
                        }
                        return Err(e);
                    },
                }
            } else {
                self.decompressor.read_raw(&mut scratch)
            };
            if k < scratch.len() {
                return Err(DecodingError::UnexpectedEof);
            }
            proof {
                let r2 = src_pull(h.is_compressed, m1, spec_lane_pad(h));
                assert(!r2.err && r2.out.len() == spec_lane_pad(h));
            }
        } else {
            proof {
                let r2 = src_pull(h.is_compressed, m1, 0);
                if h.is_compressed {
                    assert(r2.end == m1);
                } else {
                    assert(r2.end.s =~= m1.s);
                    assert(r2.end == m1);
                }
            }
        }
        if self.num_lanes_read < total {
            self.num_lanes_read = self.num_lanes_read + 1;
        }
        Ok(())
    }

    /// Read the next row of an RGB image into the three channel buffers,
    /// each of which must be as long as the image is wide.  Rows come in
    /// order from top to bottom.
    pub fn next_row_rgb(&mut self, r: &mut Vec<u8>, g: &mut Vec<u8>, b: &mut Vec<u8>) -> (res:
        Result<(), DecodingError>)
        requires
            old(self).wf(),
        ensures
            final(self).wf(),
            final(self).spec_header() == old(self).spec_header(),
            final(r)@.len() == old(r)@.len(),
            final(g)@.len() == old(g)@.len(),
            final(b)@.len() == old(b)@.len(),
            ({
                let h = old(self).spec_header();
                let w = h.size.0 as nat;
                if spec_palette_length(h.number_of_color_planes, h.bit_depth) is Some
                    || old(self).lanes_read() % 3 != 0 || old(r)@.len() != w || old(g)@.len() != w
                    || old(b)@.len() != w {
                    &&& res == Err::<(), DecodingError>(DecodingError::InvalidInput)
                    &&& *final(self) == *old(self)
                    &&& final(r)@ == old(r)@
                    &&& final(g)@ == old(g)@
                    &&& final(b)@ == old(b)@
                } else {
                    let rl = spec_read_lanes(h.is_compressed, old(self).source(), w,
                        spec_lane_pad(h), old(self).lanes_read(), spec_total_lanes(h) as nat, 3);
                    if rl.ok {
                        &&& res == Ok::<(), DecodingError>(())
                        &&& final(r)@ == rl.lanes[0]
                        &&& final(g)@ == rl.lanes[1]
                        &&& final(b)@ == rl.lanes[2]
                        &&& final(self).source() == rl.end
                        &&& final(self).lanes_read() == rl.lanes_read
                    } else {
                        res == Err::<(), DecodingError>(DecodingError::UnexpectedEof)
                    }
                }
            }),
    {
        let ghost h = self.header;
        let ghost m0 = self.source();
        let ghost n0 = self.lanes_read();
        let ghost total = spec_total_lanes(h) as nat;
        let ghost pad = spec_lane_pad(h);
        let ghost w = h.size.0 as nat;
        if self.is_paletted() {
            return Err(DecodingError::InvalidInput);
        }
        if self.num_lanes_read % 3 != 0 {
            return Err(DecodingError::InvalidInput);
        }
        let width = self.header.size.0 as usize;
        if r.len() != width || g.len() != width || b.len() != width {
            return Err(DecodingError::InvalidInput);
        }
        proof {
            assert(h.number_of_color_planes == 3 && h.bit_depth == 8);
            assert(spec_lane_proper(h.size.0, 8) == h.size.0) by (nonlinear_arith)
                requires h.size.0 >= 1;
        }
        let ghost rl = spec_read_lanes(h.is_compressed, m0, w, pad, n0, total, 3);
        let ghost l1 = spec_next_lane(h.is_compressed, m0, w, pad, n0, total);
        let ghost n1: nat = if n0 < total { (n0 + 1) as nat } else { n0 };
        let ghost l2 = spec_next_lane(h.is_compressed, l1.end, w, pad, n1, total);
        let ghost n2: nat = if n1 < total { (n1 + 1) as nat } else { n1 };
        let ghost l3 = spec_next_lane(h.is_compressed, l2.end, w, pad, n2, total);
        let ghost n3: nat = if n2 < total { (n2 + 1) as nat } else { n2 };
        let ghost rest0 = spec_read_lanes(h.is_compressed, l3.end, w, pad, n3, total, 0);
        let ghost rest1 = spec_read_lanes(h.is_compressed, l2.end, w, pad, n2, total, 1);
        let ghost rest2 = spec_read_lanes(h.is_compressed, l1.end, w, pad, n1, total, 2);
        match self.next_lane(r) {
            Ok(()) => {},
            Err(e) => {
                proof {
                    assert(!l1.ok && !rl.ok);
                }
                return Err(e);
            },
        }
        proof {
            assert(r@ =~= l1.data);
        }
        match self.next_lane(g) {
            Ok(()) => {},
            Err(e) => {
                proof {
                    assert(!l2.ok);
                    assert(!rest2.ok);
                    assert(!rl.ok);
                }
                return Err(e);
            },
        }
        proof {
            assert(g@ =~= l2.data);
        }
        match self.next_lane(b) {
            Ok(()) => {},
            Err(e) => {
                proof {
                    assert(!l3.ok);
                    assert(!rest1.ok);
                    assert(!rest2.ok);
                    assert(!rl.ok);
                }
                return Err(e);
            },
        }
        proof {
            assert(b@ =~= l3.data);
            assert(rest0.ok && rest1.ok && rest2.ok);
            assert(rl.ok);
            assert(rl.lanes =~= seq![l1.data] + (seq![l2.data] + (seq![l3.data]
                + Seq::<Seq<u8>>::empty())));
            assert(rl.lanes[0] == l1.data);
            assert(rl.lanes[1] == l2.data);
            assert(rl.lanes[2] == l3.data);
            assert(rl.end == l3.end);
        }
        Ok(())
    }

    /// Read the next row of a paletted image into `buffer`, whose length
    /// must be the image width.  Each byte of the result is one palette
    /// index.  Rows come in order from top to bottom.
    pub fn next_row_paletted(&mut self, buffer: &mut Vec<u8>) -> (res: Result<(), DecodingError>)
        requires
            old(self).wf(),
        ensures
            final(self).wf(),
            final(self).spec_header() == old(self).spec_header(),
            final(buffer)@.len() == old(buffer)@.len(),
            ({
                let h = old(self).spec_header();
                let w = h.size.0 as nat;
                if spec_palette_length(h.number_of_color_planes, h.bit_depth) is None
                    || old(buffer)@.len() != w {
                    &&& res == Err::<(), DecodingError>(DecodingError::InvalidInput)
                    &&& *final(self) == *old(self)
                    &&& final(buffer)@ == old(buffer)@
                } else {
                    let len = spec_lane_proper(h.size.0, h.bit_depth) as nat;
                    let k: nat = h.number_of_color_planes as nat;
                    let rl = spec_read_lanes(h.is_compressed, old(self).source(), len,
                        spec_lane_pad(h), old(self).lanes_read(), spec_total_lanes(h) as nat, k);
                    if rl.ok {
                        &&& res == Ok::<(), DecodingError>(())
                        &&& final(self).source() == rl.end
                        &&& final(self).lanes_read() == rl.lanes_read
                        &&& final(buffer)@ == (if h.number_of_color_planes == 1 && h.bit_depth
                            == 8 {
                            rl.lanes[0]
                        } else if h.number_of_color_planes == 1 {
                            Seq::new(w, |x: int| spec_packed_index(rl.lanes[0], h.bit_depth, x))
                        } else {
                            Seq::new(w, |x: int| spec_planar_index(rl.lanes, x))
                        })
                    } else {
                        res == Err::<(), DecodingError>(DecodingError::UnexpectedEof)
                    }
                }
            }),
    {
        let ghost h = self.header;
        let ghost m0 = self.source();
        let ghost n0 = self.lanes_read();
        let ghost total = spec_total_lanes(h) as nat;
        let ghost pad = spec_lane_pad(h);
        let ghost w = h.size.0 as nat;
        let ghost lplen = spec_lane_proper(h.size.0, h.bit_depth) as nat;
        if !self.is_paletted() {
            return Err(DecodingError::InvalidInput);
        }
        let width = self.header.size.0 as usize;
        if buffer.len() != width {
            return Err(DecodingError::InvalidInput);
        }
        let planes = self.header.number_of_color_planes;
        let depth = self.header.bit_depth;
        let ghost rl = spec_read_lanes(h.is_compressed, m0, lplen, pad, n0, total,
            planes as nat);
        let ghost l1 = spec_next_lane(h.is_compressed, m0, lplen, pad, n0, total);
        let ghost n1: nat = if n0 < total { (n0 + 1) as nat } else { n0 };
        let ghost rest0 = spec_read_lanes(h.is_compressed, l1.end, lplen, pad, n1, total, 0);
        if planes == 1 && depth == 8 {
            proof {
                assert(spec_lane_proper(h.size.0, 8) == h.size.0) by (nonlinear_arith)
                    requires h.size.0 >= 1;
            }
            match self.next_lane(buffer) {
                Ok(()) => {},
                Err(e) => {
                    proof {
                        assert(!l1.ok && !rl.ok);
                    }
                    return Err(e);
                },
            }
            proof {
                assert(rl.ok);
                assert(rl.lanes =~= seq![l1.data] + Seq::<Seq<u8>>::empty());
                assert(rl.lanes[0] == l1.data);
                assert(buffer@ =~= rl.lanes[0]);
                assert(rl.end == l1.end);
            }
            Ok(())
        } else if planes == 1 {
            // packed: one lane, each byte holding several indices
            let lane_len = self.header.lane_proper_length() as usize;
            let mut scratch: Vec<u8> = Vec::new();
            let mut si: usize = 0;
            while si < lane_len
                invariant
                    si <= lane_len,
                    scratch@.len() == si,
                decreases lane_len - si,
            {
                scratch.push(0);
                si = si + 1;
            }
            match self.next_lane(&mut scratch) {
                Ok(()) => {},
                Err(e) => {
                    proof {
                        assert(!l1.ok && !rl.ok);
                    }
                    return Err(e);
                },
            }
            proof {
                assert(rl.ok);
                assert(rl.lanes =~= seq![l1.data] + Seq::<Seq<u8>>::empty());
                assert(rl.lanes[0] == l1.data);
                assert(scratch@ =~= l1.data);
                assert(rl.end == l1.end);
            }
            let ghost lane = l1.data;
            let ppb: usize = (8 / depth) as usize;
            let mask: u8 = if depth == 1 { 1 } else if depth == 2 { 3 } else { 15 };
            let mut x: usize = 0;
            while x < width
                invariant
                    x <= width,
                    depth == 1 || depth == 2 || depth == 4,
                    depth == h.bit_depth,
                    ppb as int == spec_ppb(depth),
                    ppb >= 1,
                    mask == spec_depth_mask(depth),
                    width == w,
                    w >= 1,
                    scratch@ == lane,
                    scratch@.len() == lplen,
                    lplen == spec_lane_proper(h.size.0, h.bit_depth) as nat,
                    lplen >= 1,
                    h.size.0 as nat == w,
                    buffer@.len() == width,
                    old(buffer)@.len() == width,
                    buffer@ == Seq::new(w, |i: int| spec_packed_index(lane, depth, i)).take(
                        x as int) + old(buffer)@.skip(x as int),
                decreases width - x,
            {
                let idx = x / ppb;
                let j = x % ppb;
                proof {
                    assert((depth as int) * ((j as int) + 1) <= 8) by (nonlinear_arith)
                        requires
                            depth == 1 || depth == 2 || depth == 4,
                            (ppb as int) == 8int / (depth as int),
                            (j as int) < (ppb as int),
                            j as int >= 0,
                    ;
                    assert((depth as int) * ((j as int) + 1) >= 1) by (nonlinear_arith)
                        requires depth >= 1, j as int >= 0;
                    assert((idx as int) < lplen as int) by (nonlinear_arith)
                        requires
                            depth == 1 || depth == 2 || depth == 4,
                            (ppb as int) == 8int / (depth as int),
                            idx as int == (x as int) / (ppb as int),
                            0 <= x as int,
                            (x as int) < (w as int),
                            lplen as int == ((w as int) * (depth as int) - 1) / 8 + 1,
                            w >= 1,
                    ;
                }
                let shift: u8 = 8 - depth * (j as u8 + 1);
                let byte = scratch[idx];
                let v = (byte >> shift) & mask;
                buffer.set(x, v);
                x = x + 1;
                proof {
                    assert(v == spec_packed_index(lane, depth, (x - 1) as int));
                    assert(buffer@ =~= Seq::new(w, |i: int| spec_packed_index(lane, depth,
                        i)).take(x as int) + old(buffer)@.skip(x as int));
                }
            }
            proof {
                assert(buffer@ =~= Seq::new(w, |i: int| spec_packed_index(rl.lanes[0],
                    h.bit_depth, i)));
            }
            Ok(())
        } else {
            // planar: one one-bit lane per plane
            let lane_len = self.header.lane_proper_length() as usize;
            let mut lanes_vec: Vec<Vec<u8>> = Vec::new();
            let mut d: usize = 0;
            while d < planes as usize
                invariant
                    d <= planes as usize,
                    lanes_vec@.len() == d,
                    self.wf(),
                    old(self).wf(),
                    self.header == h,
                    h == old(self).spec_header(),
                    h.wf(),
                    buffer@ == old(buffer)@,
                    w == h.size.0 as nat,
                    old(buffer)@.len() == w,
                    spec_palette_length(h.number_of_color_planes, h.bit_depth) is Some,
                    2 <= planes <= 4,
                    depth == 1,
                    planes == h.number_of_color_planes,
                    depth == h.bit_depth,
                    lane_len as nat == lplen,
                    lplen == spec_lane_proper(h.size.0, h.bit_depth) as nat,
                    total == spec_total_lanes(h) as nat,
                    pad == spec_lane_pad(h),
                    m0 == old(self).source(),
                    n0 == old(self).lanes_read(),
                    rl == spec_read_lanes(h.is_compressed, m0, lplen, pad, n0, total,
                        planes as nat),
                    ({
                        let part = spec_read_lanes(h.is_compressed, m0, lplen, pad, n0, total,
                            d as nat);
                        &&& part.ok
                        &&& part.end == self.source()
                        &&& part.lanes_read == self.lanes_read()
                        &&& part.lanes.len() == d
                        &&& forall|i: int| 0 <= i < d ==> part.lanes[i]
                            == #[trigger] lanes_vec@[i]@
                        &&& forall|i: int| 0 <= i < d ==> (#[trigger] lanes_vec@[i]@).len()
                            == lplen
                    }),
                decreases planes as usize - d,
            {
                let mut lv: Vec<u8> = Vec::new();
                let mut si: usize = 0;
                while si < lane_len
                    invariant
                        si <= lane_len,
                        lv@.len() == si,
                    decreases lane_len - si,
                {
                    lv.push(0);
                    si = si + 1;
                }
                let ghost part_d = spec_read_lanes(h.is_compressed, m0, lplen, pad, n0, total,
                    d as nat);
                let ghost cur_l = spec_next_lane(h.is_compressed, self.source(), lplen, pad,
                    self.lanes_read(), total);
                match self.next_lane(&mut lv) {
                    Ok(()) => {},
                    Err(e) => {
                        proof {
                            lemma_read_lanes_split(h.is_compressed, m0, lplen, pad, n0, total,
                                d as nat, (planes as nat - d as nat) as nat);
                            let b = spec_read_lanes(h.is_compressed, part_d.end, lplen, pad,
                                part_d.lanes_read, total, (planes as nat - d as nat) as nat);
                            assert(!cur_l.ok);
                            assert(!b.ok);
                            assert(d as nat + (planes as nat - d as nat) as nat
                                == planes as nat);
                            assert(!rl.ok);
                        }
                        return Err(e);
                    },
                }
                lanes_vec.push(lv);
                d = d + 1;
                proof {
                    lemma_read_lanes_split(h.is_compressed, m0, lplen, pad, n0, total,
                        (d - 1) as nat, 1);
                    let b1 = spec_read_lanes(h.is_compressed, part_d.end, lplen, pad,
                        part_d.lanes_read, total, 1);
                    let nn: nat = if part_d.lanes_read < total {
                        (part_d.lanes_read + 1) as nat
                    } else {
                        part_d.lanes_read
                    };
                    let b0 = spec_read_lanes(h.is_compressed, cur_l.end, lplen, pad, nn, total,
                        0);
                    assert(b1.ok && b1.end == cur_l.end && b1.lanes =~= seq![cur_l.data]
                        + Seq::<Seq<u8>>::empty());
                    let part_new = spec_read_lanes(h.is_compressed, m0, lplen, pad, n0, total,
                        d as nat);
                    assert((d - 1) as nat + 1nat == d as nat);
                    assert(part_new.ok);
                    assert(part_new.lanes =~= part_d.lanes + b1.lanes);
                    assert(part_new.lanes.len() == d);
                    assert(lv@ == cur_l.data);
                    assert(part_new.lanes[d - 1] == cur_l.data);
                    assert(forall|i: int| 0 <= i < d - 1 ==> part_new.lanes[i]
                        == part_d.lanes[i]);
                }
            }
            proof {
                assert(d as nat == planes as nat);
                assert(rl.ok && rl.end == self.source() && rl.lanes_read == self.lanes_read());
                assert(rl.lanes.len() == planes as int);
            }
            let mut x: usize = 0;
            while x < width
                invariant
                    x <= width,
                    width == w,
                    2 <= planes <= 4,
                    lanes_vec@.len() == planes as int,
                    rl.lanes.len() == planes as int,
                    forall|i: int| 0 <= i < planes ==> rl.lanes[i] == #[trigger] lanes_vec@[i]@,
                    forall|i: int| 0 <= i < planes ==> (#[trigger] lanes_vec@[i]@).len()
                        == lplen,
                    lplen == spec_lane_proper(h.size.0, h.bit_depth) as nat,
                    h.bit_depth == 1,
                    h.size.0 as nat == w,
                    w >= 1,
                    buffer@.len() == width,
                    old(buffer)@.len() == width,
                    buffer@ == Seq::new(w, |i: int| spec_planar_index(rl.lanes, i)).take(
                        x as int) + old(buffer)@.skip(x as int),
                decreases width - x,
            {
                proof {
                    assert((x as int) / 8 < lplen as int) by {
                        assert(lplen as int == ((w as int) - 1) / 8 + 1);
                        lemma_div_is_ordered(x as int, w as int - 1, 8);
                    }
                }
                let mut v: u8 = 0;
                let mut dd: usize = planes as usize;
                while dd > 0
                    invariant
                        dd <= planes as usize,
                        2 <= planes <= 4,
                        x < width,
                        width == w,
                        lanes_vec@.len() == planes as int,
                        rl.lanes.len() == planes as int,
                        forall|i: int| 0 <= i < planes ==> rl.lanes[i]
                            == #[trigger] lanes_vec@[i]@,
                        forall|i: int| 0 <= i < planes ==> (#[trigger] lanes_vec@[i]@).len()
                            == lplen,
                        (x as int) / 8 < lplen as int,
                        v as int == spec_planar_val(rl.lanes, x as int, dd as int),
                    decreases dd,
                {
                    dd = dd - 1;
                    proof {
                        lemma_planar_val_bound(rl.lanes, x as int, dd as int + 1);
                    }
                    let byte = lanes_vec[dd][x / 8];
                    let mbit = 0x80u8 >> ((x % 8) as u8);
                    let bit: u8 = if byte & mbit != 0 { 1 } else { 0 };
                    proof {
                        assert(bit == spec_plane_bit(rl.lanes[dd as int], x as int));
                    }
                    v = 2 * v + bit;
                }
                proof {
                    lemma_planar_val_bound(rl.lanes, x as int, 0);
                    assert(v == spec_planar_index(rl.lanes, x as int));
                }
                buffer.set(x, v);
                x = x + 1;
                proof {
                    assert(buffer@ =~= Seq::new(w, |i: int| spec_planar_index(rl.lanes,
                        i)).take(x as int) + old(buffer)@.skip(x as int));
                }
            }
            proof {
                assert(buffer@ =~= Seq::new(w, |i: int| spec_planar_index(rl.lanes, i)));
            }
            Ok(())
        }
    }

    /// Read the color palette, consuming the reader.
    ///
    /// A palette of up to 16 colors comes from the header's inline table; a
    /// monochrome image gets black and white without consulting the header;
    /// a 256-color palette sits in the last 769 bytes of the file behind a
    /// marker byte, after all pixel data.  Returns the number of colors, or
    /// zero for an RGB image; three bytes (R, G, B) per color are written
    /// to the front of `buffer`.
    pub fn read_palette(self, buffer: &mut Vec<u8>) -> (r: Result<usize, DecodingError>)
        requires
            self.wf(),
        ensures
            final(buffer)@.len() == old(buffer)@.len(),
            ({
                let h = self.spec_header();
                let pl = spec_palette_length(h.number_of_color_planes, h.bit_depth);
                let s = self.source().s;
                match pl {
                    None => r == Ok::<usize, DecodingError>(0) && final(buffer)@ == old(
                        buffer)@,
                    Some(n) => {
                        if n == 2 {
                            if old(buffer)@.len() < 6 {
                                &&& r == Err::<usize, DecodingError>(DecodingError::InvalidInput)
                                &&& final(buffer)@ == old(buffer)@
                            } else {
                                &&& r == Ok::<usize, DecodingError>(2)
                                &&& final(buffer)@ == seq![0u8, 0u8, 0u8, 255u8, 255u8, 255u8]
                                    + old(buffer)@.skip(6)
                            }
                        } else if n <= 16 {
                            if old(buffer)@.len() < 3 * n {
                                &&& r == Err::<usize, DecodingError>(DecodingError::InvalidInput)
                                &&& final(buffer)@ == old(buffer)@
                            } else {
                                &&& r == Ok::<usize, DecodingError>(n as usize)
                                &&& final(buffer)@ == h.palette@.take(3 * n) + old(
                                    buffer)@.skip(3 * n)
                            }
                        } else {
                            if s.len() < 769 || s[s.len() - 769] != 0x0C {
                                &&& r == Err::<usize, DecodingError>(DecodingError::InvalidData)
                                &&& final(buffer)@ == old(buffer)@
                            } else if old(buffer)@.len() < 768 {
                                &&& r == Err::<usize, DecodingError>(DecodingError::InvalidInput)
                                &&& final(buffer)@ == old(buffer)@
                            } else {
                                &&& r == Ok::<usize, DecodingError>(256)
                                &&& final(buffer)@ == s.skip(s.len() - 768) + old(
                                    buffer)@.skip(768)
                            }
                        }
                    },
                }
            }),
    {
        let Reader { header, decompressor, num_lanes_read: _ } = self;
        let pl = header.palette_length();
        match pl {
            None => Ok(0),
            Some(n) => {
                if n == 2 {
                    // monochrome: black and white
                    if buffer.len() < 6 {
                        return Err(DecodingError::InvalidInput);
                    }
                    buffer.set(0, 0);
                    buffer.set(1, 0);
                    buffer.set(2, 0);
                    buffer.set(3, 255);
                    buffer.set(4, 255);
                    buffer.set(5, 255);
                    proof {
                        assert(buffer@ =~= seq![0u8, 0u8, 0u8, 255u8, 255u8, 255u8] + old(
                            buffer)@.skip(6));
                    }
                    Ok(2)
                } else if n <= 16 {
                    // the inline table in the header
                    let cnt = (n as usize) * 3;
                    if buffer.len() < cnt {
                        return Err(DecodingError::InvalidInput);
                    }
                    let mut i: usize = 0;
                    while i < cnt
                        invariant
                            i <= cnt,
                            cnt == 3 * n,
                            cnt <= 48,
                            header.palette@.len() == 48,
                            buffer@.len() == old(buffer)@.len(),
                            old(buffer)@.len() >= cnt,
                            buffer@ == header.palette@.take(i as int) + old(buffer)@.skip(
                                i as int),
                        decreases cnt - i,
                    {
                        let b = header.palette[i];
                        buffer.set(i, b);
                        i = i + 1;
                        proof {
                            assert(buffer@ =~= header.palette@.take(i as int) + old(
                                buffer)@.skip(i as int));
                        }
                    }
                    Ok(n as usize)
                } else {
                    // the 256-color palette at the very end of the file
                    let rest = decompressor.finish();
                    if rest.len() < 769 {
                        return Err(DecodingError::InvalidData);
                    }
                    if rest[rest.len() - 769] != crate::PALETTE_START {
                        return Err(DecodingError::InvalidData);
                    }
                    if buffer.len() < 768 {
                        return Err(DecodingError::InvalidInput);
                    }
                    let base = rest.len() - 768;
                    let rlen = rest.len();
                    let mut i: usize = 0;
                    while i < 768
                        invariant
                            i <= 768,
                            rest@.len() >= 769,
                            rlen == rest@.len(),
                            base + 768 == rlen,
                            base == rest@.len() - 768,
                            buffer@.len() == old(buffer)@.len(),
                            old(buffer)@.len() >= 768,
                            buffer@ == rest@.subrange(base as int, base + i) + old(
                                buffer)@.skip(i as int),
                        decreases 768 - i,
                    {
                        let b = rest[base + i];
                        buffer.set(i, b);
                        i = i + 1;
                        proof {
                            assert(buffer@ =~= rest@.subrange(base as int, base + i) + old(
                                buffer)@.skip(i as int));
                        }
                    }
                    proof {
                        assert(rest@.subrange(base as int, base + 768) =~= self.source().s.skip(
                            self.source().s.len() - 768));
                    }
                    Ok(256)
                }
            },
        }
    }
}

} // verus!
