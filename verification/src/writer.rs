//! Writing PCX images: 24-bit RGB and 256-color paletted.

use vstd::prelude::*;

use crate::error::DecodingError;
use crate::header;
use crate::header::spec_header_bytes;
use crate::header::spec_zeros;
use crate::rle::Compressor;
use crate::rle::init_run;
use crate::rle::lemma_compress_runs_app;
use crate::rle::lemma_compress_runs_inv;
use crate::rle::lemma_compress_within_lane;
use crate::rle::spec_compress;
use crate::rle::spec_compress_runs;

verus! {

/// Padding bytes after each lane the writers emit: one when the width is
/// odd, none when it is even.
pub open spec fn spec_row_pad(width: u16) -> nat {
    (width % 2) as nat
}

/// One color channel of an interleaved R, G, B, R, G, B, ... row.
pub open spec fn spec_channel(rgb: Seq<u8>, width: nat, c: int) -> Seq<u8> {
    Seq::new(width, |x: int| rgb[3 * x + c])
}

/// Proof that a row written from lane position zero ends at position
/// width, or zero when the width fills whole lanes; shared by the writers.
proof fn lemma_row_positions(fed: Seq<u8>, row: Seq<u8>, lane: int)
    requires
        lane >= 1,
        row.len() <= lane,
        spec_compress_runs(init_run(), fed, lane).0.pos == 0,
    ensures
        spec_compress_runs(init_run(), fed + row, lane).0.pos == (if row.len() == lane {
            0int
        } else {
            row.len() as int
        }),
{
    let s0 = spec_compress_runs(init_run(), fed, lane).0;
    lemma_compress_runs_inv(init_run(), fed, lane);
    lemma_compress_runs_app(init_run(), fed, row, lane);
    lemma_compress_within_lane(s0, row, lane);
}

/// Create a 24-bit RGB PCX image in memory.
///
/// The writer must be finished explicitly with [`WriterRgb::finish`];
/// dropping it loses everything not yet flushed.
pub struct WriterRgb {
    compressor: Compressor,
    num_rows_left: u16,
    width: u16,
    size: Ghost<(u16, u16)>,
    dpi: Ghost<(u16, u16)>,
    start: Ghost<Seq<u8>>,
}

impl WriterRgb {
    /// All pixel bytes handed to the compressor so far, padding included.
    pub closed spec fn fed(self) -> Seq<u8> {
        self.compressor.fed()
    }

    /// The lane length: the width rounded up to even.
    pub closed spec fn lane(self) -> int {
        self.compressor.lane()
    }

    /// The image size given at creation.
    pub closed spec fn spec_size(self) -> (u16, u16) {
        self.size@
    }

    /// The resolution given at creation.
    pub closed spec fn spec_dpi(self) -> (u16, u16) {
        self.dpi@
    }

    /// Rows that still have to be written.
    pub closed spec fn rows_left(self) -> int {
        self.num_rows_left as int
    }

    /// What the output stream held before the writer appended the header.
    pub closed spec fn prefix(self) -> Seq<u8> {
        self.start@
    }

    /// The writer's invariant: a sound compressor whose output starts with
    /// the header, the lane length matching the width, and the state
    /// standing at a lane boundary.
    pub closed spec fn wf(self) -> bool {
        &&& self.compressor.wf()
        &&& self.width == self.size@.0
        &&& 1 <= self.width < 0xFFFF
        &&& self.size@.1 >= 1
        &&& self.num_rows_left <= self.size@.1
        &&& self.compressor.lane() == self.width + self.width % 2
        &&& self.compressor.base() == self.start@ + spec_header_bytes(false, self.size@,
            self.dpi@)
        &&& self.compressor.lane_pos() == 0
    }

    /// Start an RGB image of the given size and resolution, appending to
    /// `stream`.  Fails when the width is the largest 16-bit value or when
    /// either dimension is zero.
    pub fn new(stream: Vec<u8>, image_size: (u16, u16), dpi: (u16, u16)) -> (r: Result<
        WriterRgb, DecodingError>)
        ensures
            match r {
                Ok(w) => {
                    &&& 1 <= image_size.0 < 0xFFFF && image_size.1 >= 1
                    &&& w.wf()
                    &&& w.prefix() == stream@
                    &&& w.spec_size() == image_size
                    &&& w.spec_dpi() == dpi
                    &&& w.fed() == Seq::<u8>::empty()
                    &&& w.rows_left() == image_size.1 as int
                    &&& w.lane() == image_size.0 + image_size.0 % 2
                },
                Err(e) => {
                    &&& e == DecodingError::InvalidInput
                    &&& (image_size.0 == 0xFFFF || image_size.0 == 0 || image_size.1 == 0)
                },
            },
    {
        let ghost start = stream@;
        let mut stream = stream;
        match header::write(&mut stream, false, image_size, dpi) {
            Ok(()) => {},
            Err(e) => {
                return Err(e);
            },
        }
        let lane_length = image_size.0 + image_size.0 % 2;
        let compressor = Compressor::new(stream, lane_length);
        proof {
            assert(spec_compress_runs(init_run(), Seq::<u8>::empty(), lane_length as int).0
                == init_run());
        }
        Ok(WriterRgb {
            compressor,
            num_rows_left: image_size.1,
            width: image_size.0,
            size: Ghost(image_size),
            dpi: Ghost(dpi),
            start: Ghost(start),
        })
    }

    /// Write the next row of pixels from separate buffers for the R, G and
    /// B channels, each as long as the image is wide.  This must be called
    /// once per row, top to bottom.
    pub fn write_row_from_separate(&mut self, r: &[u8], g: &[u8], b: &[u8]) -> (res: Result<(),
        DecodingError>)
        requires
            old(self).wf(),
        ensures
            final(self).wf(),
            final(self).spec_size() == old(self).spec_size(),
            final(self).spec_dpi() == old(self).spec_dpi(),
            final(self).prefix() == old(self).prefix(),
            final(self).lane() == old(self).lane(),
            ({
                let w = old(self).spec_size().0 as nat;
                let pad = spec_zeros(spec_row_pad(old(self).spec_size().0));
                if old(self).rows_left() == 0 || r@.len() != w || g@.len() != w || b@.len()
                    != w {
                    &&& res == Err::<(), DecodingError>(DecodingError::InvalidInput)
                    &&& *final(self) == *old(self)
                } else {
                    &&& res == Ok::<(), DecodingError>(())
                    &&& final(self).fed() == old(self).fed() + r@ + pad + g@ + pad + b@ + pad
                    &&& final(self).rows_left() == old(self).rows_left() - 1
                }
            }),
    {
        if self.num_rows_left == 0 {
            return Err(DecodingError::InvalidInput);
        }
        let width = self.width as usize;
        if r.len() != width || g.len() != width || b.len() != width {
            return Err(DecodingError::InvalidInput);
        }
        self.write_lane(r);
        self.write_lane(g);
        self.write_lane(b);
        self.num_rows_left = self.num_rows_left - 1;
        Ok(())
    }

    /// Feed one lane of `width` bytes and its padding to the compressor.
    fn write_lane(&mut self, row: &[u8])
        requires
            old(self).wf(),
            row@.len() == old(self).spec_size().0 as nat,
        ensures
            final(self).wf(),
            final(self).spec_size() == old(self).spec_size(),
            final(self).spec_dpi() == old(self).spec_dpi(),
            final(self).prefix() == old(self).prefix(),
            final(self).lane() == old(self).lane(),
            final(self).num_rows_left == old(self).num_rows_left,
            final(self).fed() == old(self).fed() + row@ + spec_zeros(spec_row_pad(
                old(self).spec_size().0)),
    {
        let ghost fed0 = self.compressor.fed();
        let ghost lane = self.compressor.lane();
        self.compressor.write(row);
        proof {
            lemma_row_positions(fed0, row@, lane);
        }
        self.compressor.pad();
        proof {
            let w = self.width as int;
            if w % 2 == 0 {
                assert(spec_zeros(spec_row_pad(self.width)) =~= Seq::new(0nat, |i: int| 0u8));
            } else {
                assert(spec_zeros(spec_row_pad(self.width)) =~= Seq::new(1nat, |i: int| 0u8));
            }
            assert(self.compressor.fed() =~= fed0 + row@ + spec_zeros(spec_row_pad(
                self.width)));
        }
    }

    /// Write the next row of pixels from one buffer holding the channels
    /// interleaved (R, G, B, R, G, B, ...), three bytes per pixel.  This
    /// must be called once per row, top to bottom.
    pub fn write_row_from_interleaved(&mut self, rgb: &[u8]) -> (res: Result<(),
        DecodingError>)
        requires
            old(self).wf(),
        ensures
            final(self).wf(),
            final(self).spec_size() == old(self).spec_size(),
            final(self).spec_dpi() == old(self).spec_dpi(),
            final(self).prefix() == old(self).prefix(),
            final(self).lane() == old(self).lane(),
            ({
                let w = old(self).spec_size().0 as nat;
                let pad = spec_zeros(spec_row_pad(old(self).spec_size().0));
                if old(self).rows_left() == 0 || rgb@.len() != 3 * w {
                    &&& res == Err::<(), DecodingError>(DecodingError::InvalidInput)
                    &&& *final(self) == *old(self)
                } else {
                    &&& res == Ok::<(), DecodingError>(())
                    &&& final(self).fed() == old(self).fed() + spec_channel(rgb@, w, 0) + pad
                        + spec_channel(rgb@, w, 1) + pad + spec_channel(rgb@, w, 2) + pad
                    &&& final(self).rows_left() == old(self).rows_left() - 1
                }
            }),
    {
        if self.num_rows_left == 0 {
            return Err(DecodingError::InvalidInput);
        }
        let width = self.width as usize;
        if rgb.len() != width * 3 {
            return Err(DecodingError::InvalidInput);
        }
        let ghost w = self.width as nat;
        let mut color: usize = 0;
        while color < 3
            invariant
                color <= 3,
                self.wf(),
                old(self).wf(),
                self.width == old(self).width,
                w == self.width as nat,
                width == self.width as usize,
                rgb@.len() == 3 * w,
                self.spec_size() == old(self).spec_size(),
                self.spec_dpi() == old(self).spec_dpi(),
                self.prefix() == old(self).prefix(),
                self.lane() == old(self).lane(),
                self.num_rows_left == old(self).num_rows_left,
                self.num_rows_left >= 1,
                self.fed() == ({
                    let pad = spec_zeros(spec_row_pad(old(self).spec_size().0));
                    if color == 0 {
                        old(self).fed()
                    } else if color == 1 {
                        old(self).fed() + spec_channel(rgb@, w, 0) + pad
                    } else if color == 2 {
                        old(self).fed() + spec_channel(rgb@, w, 0) + pad + spec_channel(rgb@,
                            w, 1) + pad
                    } else {
                        old(self).fed() + spec_channel(rgb@, w, 0) + pad + spec_channel(rgb@,
                            w, 1) + pad + spec_channel(rgb@, w, 2) + pad
                    }
                }),
            decreases 3 - color,
        {
            let mut chan: Vec<u8> = Vec::new();
            let mut x: usize = 0;
            while x < width
                invariant
                    x <= width,
                    width <= 0xFFFF,
                    w == width as nat,
                    rgb@.len() == 3 * w,
                    color < 3,
                    chan@ == spec_channel(rgb@, w, color as int).take(x as int),
                decreases width - x,
            {
                let byte = rgb[x * 3 + color];
                chan.push(byte);
                x = x + 1;
                proof {
                    assert(chan@ =~= spec_channel(rgb@, w, color as int).take(x as int));
                }
            }
            proof {
                assert(chan@ =~= spec_channel(rgb@, w, color as int));
            }
            self.write_lane(chan.as_slice());
            color = color + 1;
        }
        self.num_rows_left = self.num_rows_left - 1;
        Ok(())
    }

    /// Flush everything and hand back the finished file.  Fails when not
    /// all rows were written.
    pub fn finish(self) -> (r: Result<Vec<u8>, DecodingError>)
        requires
            self.wf(),
        ensures
            match r {
                Ok(out) => {
                    &&& self.rows_left() == 0
                    &&& out@ == self.prefix() + spec_header_bytes(false, self.spec_size(),
                        self.spec_dpi()) + spec_compress(self.fed(), self.lane())
                },
                Err(e) => e == DecodingError::InvalidInput && self.rows_left() != 0,
            },
    {
        if self.num_rows_left != 0 {
            return Err(DecodingError::InvalidInput);
        }
        let WriterRgb { compressor, num_rows_left: _, width: _, size: _, dpi: _, start: _ } =
            self;
        let out = compressor.finish();
        proof {
            assert(out@ =~= self.prefix() + spec_header_bytes(false, self.spec_size(),
                self.spec_dpi()) + spec_compress(self.fed(), self.lane()));
        }
        Ok(out)
    }
}

/// Create a 256-color paletted PCX image in memory.
///
/// After all rows, [`WriterPaletted::write_palette`] finishes the file;
/// dropping the writer instead loses everything not yet flushed.
pub struct WriterPaletted {
    compressor: Compressor,
    num_rows_left: u16,
    width: u16,
    size: Ghost<(u16, u16)>,
    dpi: Ghost<(u16, u16)>,
    start: Ghost<Seq<u8>>,
}

impl WriterPaletted {
    /// All pixel bytes handed to the compressor so far, padding included.
    pub closed spec fn fed(self) -> Seq<u8> {
        self.compressor.fed()
    }

    /// The lane length: the width rounded up to even.
    pub closed spec fn lane(self) -> int {
        self.compressor.lane()
    }

    /// The image size given at creation.
    pub closed spec fn spec_size(self) -> (u16, u16) {
        self.size@
    }

    /// The resolution given at creation.
    pub closed spec fn spec_dpi(self) -> (u16, u16) {
        self.dpi@
    }

    /// Rows that still have to be written.
    pub closed spec fn rows_left(self) -> int {
        self.num_rows_left as int
    }

    /// What the output stream held before the writer appended the header.
    pub closed spec fn prefix(self) -> Seq<u8> {
        self.start@
    }

    /// The writer's invariant: a sound compressor whose output starts with
    /// the header, the lane length matching the width, and the state
    /// standing at a lane boundary.
    pub closed spec fn wf(self) -> bool {
        &&& self.compressor.wf()
        &&& self.width == self.size@.0
        &&& 1 <= self.width < 0xFFFF
        &&& self.size@.1 >= 1
        &&& self.num_rows_left <= self.size@.1
        &&& self.compressor.lane() == self.width + self.width % 2
        &&& self.compressor.base() == self.start@ + spec_header_bytes(true, self.size@,
            self.dpi@)
        &&& self.compressor.lane_pos() == 0
    }

    /// Start a paletted image of the given size and resolution, appending
    /// to `stream`.  Fails when the width is the largest 16-bit value or
    /// when either dimension is zero.
    pub fn new(stream: Vec<u8>, image_size: (u16, u16), dpi: (u16, u16)) -> (r: Result<
        WriterPaletted, DecodingError>)
        ensures
            match r {
                Ok(w) => {
                    &&& 1 <= image_size.0 < 0xFFFF && image_size.1 >= 1
                    &&& w.wf()
                    &&& w.prefix() == stream@
                    &&& w.spec_size() == image_size
                    &&& w.spec_dpi() == dpi
                    &&& w.fed() == Seq::<u8>::empty()
                    &&& w.rows_left() == image_size.1 as int
                    &&& w.lane() == image_size.0 + image_size.0 % 2
                },
                Err(e) => {
                    &&& e == DecodingError::InvalidInput
                    &&& (image_size.0 == 0xFFFF || image_size.0 == 0 || image_size.1 == 0)
                },
            },
    {
        let ghost start = stream@;
        let mut stream = stream;
        match header::write(&mut stream, true, image_size, dpi) {
            Ok(()) => {},
            Err(e) => {
                return Err(e);
            },
        }
        let lane_length = image_size.0 + image_size.0 % 2;
        let compressor = Compressor::new(stream, lane_length);
        proof {
            assert(spec_compress_runs(init_run(), Seq::<u8>::empty(), lane_length as int).0
                == init_run());
        }
        Ok(WriterPaletted {
            compressor,
            num_rows_left: image_size.1,
            width: image_size.0,
            size: Ghost(image_size),
            dpi: Ghost(dpi),
            start: Ghost(start),
        })
    }

    /// Write the next row of palette indices, one byte per pixel, as long
    /// as the image is wide.  This must be called once per row, top to
    /// bottom.
    pub fn write_row(&mut self, row: &[u8]) -> (res: Result<(), DecodingError>)
        requires
            old(self).wf(),
        ensures
            final(self).wf(),
            final(self).spec_size() == old(self).spec_size(),
            final(self).spec_dpi() == old(self).spec_dpi(),
            final(self).prefix() == old(self).prefix(),
            final(self).lane() == old(self).lane(),
            ({
                let w = old(self).spec_size().0 as nat;
                let pad = spec_zeros(spec_row_pad(old(self).spec_size().0));
                if old(self).rows_left() == 0 || row@.len() != w {
                    &&& res == Err::<(), DecodingError>(DecodingError::InvalidInput)
                    &&& *final(self) == *old(self)
                } else {
                    &&& res == Ok::<(), DecodingError>(())
                    &&& final(self).fed() == old(self).fed() + row@ + pad
                    &&& final(self).rows_left() == old(self).rows_left() - 1
                }
            }),
    {
        if self.num_rows_left == 0 {
            return Err(DecodingError::InvalidInput);
        }
        let width = self.width as usize;
        if row.len() != width {
            return Err(DecodingError::InvalidInput);
        }
        let ghost fed0 = self.compressor.fed();
        let ghost lane = self.compressor.lane();
        self.compressor.write(row);
        proof {
            lemma_row_positions(fed0, row@, lane);
        }
        self.compressor.pad();
        proof {
            if self.width as int % 2 == 0 {
                assert(spec_zeros(spec_row_pad(self.width)) =~= Seq::new(0nat, |i: int| 0u8));
            } else {
                assert(spec_zeros(spec_row_pad(self.width)) =~= Seq::new(1nat, |i: int| 0u8));
            }
            assert(self.compressor.fed() =~= fed0 + row@ + spec_zeros(spec_row_pad(
                self.width)));
        }
        self.num_rows_left = self.num_rows_left - 1;
        Ok(())
    }

    /// Write the color palette and finish the file.  The palette goes at
    /// the very end, after all pixel data, as a marker byte followed by
    /// 256 three-byte colors; a shorter palette is zero-filled.  Fails
    /// when rows are still unwritten, or when the palette is longer than
    /// 768 bytes or not a whole number of colors.
    pub fn write_palette(self, palette: &[u8]) -> (r: Result<Vec<u8>, DecodingError>)
        requires
            self.wf(),
        ensures
            match r {
                Ok(out) => {
                    &&& self.rows_left() == 0
                    &&& palette@.len() <= 768 && palette@.len() % 3 == 0
                    &&& out@ == self.prefix() + spec_header_bytes(true, self.spec_size(),
                        self.spec_dpi()) + spec_compress(self.fed(), self.lane()) + seq![
                        crate::PALETTE_START] + palette@ + spec_zeros(
                        (768 - palette@.len()) as nat)
                },
                Err(e) => {
                    &&& e == DecodingError::InvalidInput
                    &&& (self.rows_left() != 0 || palette@.len() > 768 || palette@.len() % 3
                        != 0)
                },
            },
    {
        if self.num_rows_left != 0 {
            return Err(DecodingError::InvalidInput);
        }
        if palette.len() > 768 || palette.len() % 3 != 0 {
            return Err(DecodingError::InvalidInput);
        }
        let WriterPaletted { compressor, num_rows_left: _, width: _, size: _, dpi: _,
            start: _ } = self;
        let mut out = compressor.finish();
        let ghost compressed = out@;
        out.push(crate::PALETTE_START);
        let mut i: usize = 0;
        while i < palette.len()
            invariant
                i <= palette@.len(),
                out@ == compressed + seq![crate::PALETTE_START] + palette@.take(i as int),
            decreases palette@.len() - i,
        {
            out.push(palette[i]);
            i = i + 1;
            proof {
                assert(out@ =~= compressed + seq![crate::PALETTE_START] + palette@.take(
                    i as int));
            }
        }
        let fill = 768 - palette.len();
        let mut j: usize = 0;
        while j < fill
            invariant
                j <= fill,
                fill == 768 - palette@.len(),
                out@ == compressed + seq![crate::PALETTE_START] + palette@ + spec_zeros(
                    j as nat),
            decreases fill - j,
        {
            out.push(0);
            j = j + 1;
            proof {
                assert(out@ =~= compressed + seq![crate::PALETTE_START] + palette@
                    + spec_zeros(j as nat));
            }
        }
        proof {
            assert(out@ =~= self.prefix() + spec_header_bytes(true, self.spec_size(),
                self.spec_dpi()) + spec_compress(self.fed(), self.lane()) + seq![
                crate::PALETTE_START] + palette@ + spec_zeros((768 - palette@.len()) as nat));
        }
        Ok(out)
    }
}

} // verus!
