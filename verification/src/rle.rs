//! The run-length encoding used by PCX scanline data.
//!
//! A compressed stream is a sequence of codes.  A byte below `0xC0` is a
//! literal: it stands for itself.  A byte `0xC0 + n` starts a two-byte run
//! code: it is followed by one value byte and stands for `n` copies of that
//! value, where `n` is held in the low six bits.
//!
//! The module holds the mathematical model of that code stream
//! ([`rle_decode`], [`rle_wf`], [`rle_pull`], [`spec_compress`]), the
//! executable [`Decompressor`] and [`Compressor`], and the proofs that
//! compression round-trips through decompression.

use vstd::prelude::*;

use crate::error::DecodingError;

verus! {

// ---------------------------------------------------------------------------
// Specification: decoding a whole code stream
// ---------------------------------------------------------------------------

/// Well-formed code stream: every two-byte run code is complete.
pub open spec fn rle_wf(s: Seq<u8>) -> bool
    decreases s.len(),
{
    if s.len() == 0 {
        true
    } else if s[0] < 0xC0 {
        rle_wf(s.skip(1))
    } else {
        s.len() >= 2 && rle_wf(s.skip(2))
    }
}

/// Every run code in the stream carries a count of at least one.
pub open spec fn rle_runs_positive(s: Seq<u8>) -> bool
    decreases s.len(),
{
    if s.len() == 0 {
        true
    } else if s[0] < 0xC0 {
        rle_runs_positive(s.skip(1))
    } else {
        s.len() >= 2 && s[0] > 0xC0 && rle_runs_positive(s.skip(2))
    }
}

/// Every run code in the stream carries a count of at most `max`.
pub open spec fn rle_runs_bounded(s: Seq<u8>, max: int) -> bool
    decreases s.len(),
{
    if s.len() == 0 {
        true
    } else if s[0] < 0xC0 {
        rle_runs_bounded(s.skip(1), max)
    } else {
        s.len() >= 2 && s[0] - 0xC0 <= max && rle_runs_bounded(s.skip(2), max)
    }
}

/// The bytes a well-formed code stream stands for.  (On a stream whose final
/// run code is truncated the tail is simply dropped; [`rle_wf`] rules that
/// case out.)
pub open spec fn rle_decode(s: Seq<u8>) -> Seq<u8>
    decreases s.len(),
{
    if s.len() == 0 {
        Seq::<u8>::empty()
    } else if s[0] < 0xC0 {
        seq![s[0]] + rle_decode(s.skip(1))
    } else if s.len() >= 2 {
        Seq::new((s[0] - 0xC0) as nat, |i: int| s[1]) + rle_decode(s.skip(2))
    } else {
        Seq::<u8>::empty()
    }
}

// ---------------------------------------------------------------------------
// Specification: the decompressor as a state machine
// ---------------------------------------------------------------------------

/// State of a decompression session: a pending run (`count` copies of
/// `value`) followed by the not yet consumed part `s` of the code stream.
pub struct RleSource {
    pub count: nat,
    pub value: u8,
    pub s: Seq<u8>,
}

/// Outcome of asking a decompression session for bytes: the bytes produced,
/// the state left behind, and whether a truncated run code was hit.
pub struct PullResult {
    pub out: Seq<u8>,
    pub end: RleSource,
    pub err: bool,
}

/// Produce up to `n` decoded bytes from state `m`: drain the pending run,
/// then consume codes.  Stops early without error at a clean end of stream;
/// stops with `err` on a run code whose value byte is missing.
pub open spec fn rle_pull(m: RleSource, n: nat) -> PullResult
    decreases n, m.s.len(),
{
    if n == 0 {
        PullResult { out: Seq::<u8>::empty(), end: m, err: false }
    } else if m.count > 0 {
        let take = if m.count < n { m.count } else { n };
        let rest = rle_pull(
            RleSource { count: (m.count - take) as nat, value: m.value, s: m.s },
            (n - take) as nat,
        );
        PullResult {
            out: Seq::new(take, |i: int| m.value) + rest.out,
            end: rest.end,
            err: rest.err,
        }
    } else if m.s.len() == 0 {
        PullResult { out: Seq::<u8>::empty(), end: m, err: false }
    } else if m.s[0] < 0xC0 {
        let rest = rle_pull(
            RleSource { count: 0, value: m.value, s: m.s.skip(1) },
            (n - 1) as nat,
        );
        PullResult { out: seq![m.s[0]] + rest.out, end: rest.end, err: rest.err }
    } else if m.s.len() == 1 {
        PullResult {
            out: Seq::<u8>::empty(),
            end: RleSource { count: 0, value: m.value, s: m.s.skip(1) },
            err: true,
        }
    } else {
        rle_pull(
            RleSource { count: (m.s[0] - 0xC0) as nat, value: m.s[1], s: m.s.skip(2) },
            n,
        )
    }
}

/// Reading raw bytes from the same state, bypassing the codes: what the
/// reader does on an uncompressed file.
pub open spec fn raw_pull(m: RleSource, n: nat) -> PullResult {
    let take = if m.s.len() < n { m.s.len() } else { n };
    PullResult {
        out: m.s.take(take as int),
        end: RleSource { count: m.count, value: m.value, s: m.s.skip(take as int) },
        err: false,
    }
}

// ---------------------------------------------------------------------------
// Executable decompressor
// ---------------------------------------------------------------------------

/// Decompress the RLE variant used in PCX files.
pub struct Decompressor {
    stream: Vec<u8>,
    pos: usize,
    run_count: u8,
    run_value: u8,
}

impl Decompressor {
    /// The session state this decompressor is in.
    pub closed spec fn model(self) -> RleSource {
        RleSource {
            count: self.run_count as nat,
            value: self.run_value,
            s: self.stream@.skip(self.pos as int),
        }
    }

    /// The read position never passes the end of the stream.
    pub closed spec fn wf(self) -> bool {
        self.pos <= self.stream@.len()
    }

    /// Create a new decompressor over a stream of code bytes.
    pub fn new(stream: Vec<u8>) -> (r: Decompressor)
        ensures
            r.wf(),
            r.model() == (RleSource { count: 0, value: 0u8, s: stream@ }),
    {
        let r = Decompressor { stream, pos: 0, run_count: 0, run_value: 0 };
        proof {
            assert(r.model().s =~= r.stream@);
        }
        r
    }

    /// Stop decompressing and hand back the unread rest of the stream.
    pub fn finish(self) -> (r: Vec<u8>)
        requires
            self.wf(),
        ensures
            r@ == self.model().s,
    {
        let Decompressor { stream, pos, run_count: _, run_value: _ } = self;
        let mut rest: Vec<u8> = Vec::new();
        let mut i: usize = pos;
        while i < stream.len()
            invariant
                pos <= i <= stream@.len(),
                rest@ == stream@.subrange(pos as int, i as int),
            decreases stream@.len() - i,
        {
            rest.push(stream[i]);
            i = i + 1;
            proof {
                assert(rest@ =~= stream@.subrange(pos as int, i as int));
            }
        }
        proof {
            assert(rest@ =~= stream@.skip(pos as int));
        }
        rest
    }

    /// Read bytes of the underlying stream as they are, bypassing the run
    /// codes: the row reader uses this on an uncompressed file.  Returns how
    /// many bytes were copied; fewer than `buffer.len()` only at the end of
    /// the stream.
    pub fn read_raw(&mut self, buffer: &mut Vec<u8>) -> (r: usize)
        requires
            old(self).wf(),
        ensures
            final(self).wf(),
            final(buffer)@.len() == old(buffer)@.len(),
            ({
                let p = raw_pull(old(self).model(), old(buffer)@.len() as nat);
                &&& final(self).model() == p.end
                &&& final(buffer)@ == p.out + old(buffer)@.skip(p.out.len() as int)
                &&& r == p.out.len()
            }),
    {
        let ghost orig = self.model();
        let n = buffer.len();
        let avail = self.stream.len() - self.pos;
        let take = if avail < n { avail } else { n };
        let mut i: usize = 0;
        while i < take
            invariant
                old(self).wf(),
                self.wf(),
                orig == old(self).model(),
                self.stream@ == old(self).stream@,
                self.pos == old(self).pos + i,
                i <= take,
                take <= n,
                take <= orig.s.len(),
                take == if orig.s.len() < n { orig.s.len() as int } else { n as int },
                n == buffer@.len(),
                n == old(buffer)@.len(),
                self.run_count == old(self).run_count,
                self.run_value == old(self).run_value,
                buffer@ == orig.s.take(i as int) + old(buffer)@.skip(i as int),
            decreases take - i,
        {
            let sl = self.stream.len();
            let b = self.stream[self.pos];
            buffer.set(i, b);
            proof {
                assert(self.pos < sl);
            }
            self.pos = self.pos + 1;
            i = i + 1;
            proof {
                assert(buffer@ =~= orig.s.take(i as int) + old(buffer)@.skip(i as int));
            }
        }
        proof {
            assert(self.model().s =~= orig.s.skip(take as int));
            assert(self.model() == raw_pull(orig, n as nat).end);
        }
        take
    }

    /// Decode a single byte.  Fails at the end of the stream, like reading
    /// one byte from an exhausted reader.
    pub fn read_u8(&mut self) -> (r: Result<u8, DecodingError>)
        requires
            old(self).wf(),
        ensures
            final(self).wf(),
            ({
                let p = rle_pull(old(self).model(), 1);
                &&& final(self).model() == p.end
                &&& match r {
                    Ok(b) => !p.err && p.out == seq![b],
                    Err(e) => (p.err || p.out.len() == 0) && e == DecodingError::UnexpectedEof,
                }
            }),
    {
        let mut buffer: Vec<u8> = Vec::new();
        buffer.push(0);
        match self.read(&mut buffer) {
            Ok(n) => {
                if n == 1 {
                    proof {
                        let p = rle_pull(old(self).model(), 1);
                        assert(buffer@ == p.out + seq![0u8].skip(1));
                        assert(p.out =~= seq![buffer@[0]]);
                    }
                    Ok(buffer[0])
                } else {
                    Err(DecodingError::UnexpectedEof)
                }
            },
            Err(e) => Err(e),
        }
    }

    /// Decode everything that is left.  Succeeds exactly when the rest of
    /// the stream is a well-formed code stream, and then returns the pending
    /// run followed by its decoding; afterwards the session is exhausted.
    pub fn read_to_end(&mut self) -> (r: Result<Vec<u8>, DecodingError>)
        requires
            old(self).wf(),
        ensures
            final(self).wf(),
            ({
                let m = old(self).model();
                match r {
                    Ok(v) => {
                        &&& rle_wf(m.s)
                        &&& v@ == Seq::new(m.count, |i: int| m.value) + rle_decode(m.s)
                        &&& final(self).model().count == 0
                        &&& final(self).model().s.len() == 0
                    },
                    Err(e) => !rle_wf(m.s) && e == DecodingError::UnexpectedEof,
                }
            }),
    {
        let ghost orig = self.model();
        let mut out: Vec<u8> = Vec::new();
        loop
            invariant
                old(self).wf(),
                self.wf(),
                orig == old(self).model(),
                rle_wf(self.model().s) <==> rle_wf(orig.s),
                out@ + Seq::new(self.model().count, |i: int| self.model().value) + rle_decode(
                    self.model().s) == Seq::new(orig.count, |i: int| orig.value) + rle_decode(
                    orig.s),
            decreases self.stream@.len() - self.pos, self.run_count,
        {
            let ghost pre = self.model();
            if self.run_count > 0 {
                let v = self.run_value;
                out.push(v);
                self.run_count = self.run_count - 1;
                proof {
                    let post = self.model();
                    assert(post.s == pre.s);
                    assert(Seq::new(pre.count, |i: int| pre.value) =~= seq![v] + Seq::new(
                        post.count, |i: int| post.value));
                    assert(out@ + Seq::new(post.count, |i: int| post.value) + rle_decode(post.s)
                        =~= Seq::new(orig.count, |i: int| orig.value) + rle_decode(orig.s));
                }
            } else if self.pos == self.stream.len() {
                proof {
                    assert(self.model().s.len() == 0);
                    assert(rle_decode(self.model().s) =~= Seq::<u8>::empty());
                    assert(out@ =~= Seq::new(orig.count, |i: int| orig.value) + rle_decode(orig.s));
                }
                return Ok(out);
            } else {
                let byte = self.stream[self.pos];
                self.pos = self.pos + 1;
                proof {
                    assert(pre.s[0] == byte);
                }
                if byte < 0xC0 {
                    out.push(byte);
                    proof {
                        let post = self.model();
                        assert(post.s =~= pre.s.skip(1));
                        assert(rle_decode(pre.s) == seq![byte] + rle_decode(pre.s.skip(1)));
                        assert(out@ + Seq::new(post.count, |i: int| post.value) + rle_decode(post.s)
                            =~= Seq::new(orig.count, |i: int| orig.value) + rle_decode(orig.s));
                    }
                } else if self.pos == self.stream.len() {
                    proof {
                        assert(pre.s.len() == 1);
                        assert(!rle_wf(pre.s));
                    }
                    return Err(DecodingError::UnexpectedEof);
                } else {
                    let value = self.stream[self.pos];
                    self.pos = self.pos + 1;
                    self.run_count = byte - 0xC0;
                    self.run_value = value;
                    proof {
                        let post = self.model();
                        assert(pre.s.len() >= 2);
                        assert(pre.s[1] == value);
                        assert(post.s =~= pre.s.skip(2));
                        assert(rle_decode(pre.s) == Seq::new((byte - 0xC0) as nat, |i: int| value)
                            + rle_decode(pre.s.skip(2)));
                        assert(out@ + Seq::new(post.count, |i: int| post.value) + rle_decode(post.s)
                            =~= Seq::new(orig.count, |i: int| orig.value) + rle_decode(orig.s));
                    }
                }
            }
        }
    }

    /// Fill `buffer` with decoded bytes, overwriting it from the start.
    /// Returns how many bytes were produced; fewer than `buffer.len()` only
    /// at a clean end of the stream.  Fails only when a run code is cut off
    /// before its value byte.
    pub fn read(&mut self, buffer: &mut Vec<u8>) -> (r: Result<usize, DecodingError>)
        requires
            old(self).wf(),
        ensures
            final(self).wf(),
            final(buffer)@.len() == old(buffer)@.len(),
            ({
                let p = rle_pull(old(self).model(), old(buffer)@.len() as nat);
                &&& final(self).model() == p.end
                &&& final(buffer)@ == p.out + old(buffer)@.skip(p.out.len() as int)
                &&& match r {
                    Ok(n) => !p.err && n == p.out.len(),
                    Err(e) => p.err && e == DecodingError::UnexpectedEof,
                }
            }),
    {
        let ghost orig = self.model();
        let ghost n_total = buffer@.len() as nat;
        let n = buffer.len();
        let mut filled: usize = 0;
        let ghost mut produced: Seq<u8> = Seq::<u8>::empty();
        loop
            invariant
                old(self).wf(),
                self.wf(),
                filled <= n,
                n == buffer@.len(),
                n == old(buffer)@.len(),
                n_total == n,
                orig == old(self).model(),
                produced.len() == filled,
                buffer@ == produced + old(buffer)@.skip(filled as int),
                rle_pull(orig, n_total) == ({
                    let p = rle_pull(self.model(), (n - filled) as nat);
                    PullResult { out: produced + p.out, end: p.end, err: p.err }
                }),
            decreases n - filled, self.stream@.len() - self.pos,
        {
            let ghost k = (n - filled) as nat;
            let ghost pre = self.model();
            if filled == n {
                proof {
                    assert(rle_pull(orig, n_total).out =~= produced);
                }
                return Ok(filled);
            }
            if self.run_count > 0 {
                let v = self.run_value;
                buffer.set(filled, v);
                self.run_count = self.run_count - 1;
                filled = filled + 1;
                proof {
                    lemma_pull_drain_one(pre, k);
                    let post = self.model();
                    assert(post == (RleSource {
                        count: (pre.count - 1) as nat,
                        value: pre.value,
                        s: pre.s,
                    }));
                    let p = rle_pull(post, (k - 1) as nat);
                    let produced_old = produced;
                    produced = produced_old.push(v);
                    assert(buffer@ =~= produced + old(buffer)@.skip(filled as int));
                    assert(produced + p.out =~= produced_old + (seq![v] + p.out));
                }
            } else if self.pos == self.stream.len() {
                proof {
                    assert(pre.s.len() == 0);
                    lemma_pull_eof(pre, k);
                    assert(rle_pull(orig, n_total).out =~= produced);
                }
                return Ok(filled);
            } else {
                let byte = self.stream[self.pos];
                self.pos = self.pos + 1;
                proof {
                    assert(pre.s[0] == byte);
                }
                if byte < 0xC0 {
                    buffer.set(filled, byte);
                    filled = filled + 1;
                    proof {
                        let post = self.model();
                        assert(post.s =~= pre.s.skip(1));
                        assert(post == (RleSource { count: 0, value: pre.value, s: pre.s.skip(1) }));
                        let p = rle_pull(post, (k - 1) as nat);
                        assert(rle_pull(pre, k) == (PullResult {
                            out: seq![byte] + p.out,
                            end: p.end,
                            err: p.err,
                        }));
                        let produced_old = produced;
                        produced = produced_old.push(byte);
                        assert(buffer@ =~= produced + old(buffer)@.skip(filled as int));
                        assert(produced + p.out =~= produced_old + (seq![byte] + p.out));
                    }
                } else if self.pos == self.stream.len() {
                    proof {
                        assert(pre.s.len() == 1);
                        let post = self.model();
                        assert(post.s =~= pre.s.skip(1));
                        assert(rle_pull(pre, k).err);
                        assert(rle_pull(pre, k).end == (RleSource {
                            count: 0,
                            value: pre.value,
                            s: pre.s.skip(1),
                        }));
                        assert(post == rle_pull(pre, k).end);
                        assert(rle_pull(orig, n_total).out =~= produced);
                        assert(buffer@ =~= produced + old(buffer)@.skip(filled as int));
                    }
                    return Err(DecodingError::UnexpectedEof);
                } else {
                    let value = self.stream[self.pos];
                    self.pos = self.pos + 1;
                    self.run_count = byte - 0xC0;
                    self.run_value = value;
                    proof {
                        assert(pre.s.len() >= 2);
                        assert(pre.s[1] == value);
                        let post = self.model();
                        assert(post.s =~= pre.s.skip(2));
                        assert(post == (RleSource {
                            count: (pre.s[0] - 0xC0) as nat,
                            value: pre.s[1],
                            s: pre.s.skip(2),
                        }));
                        assert(rle_pull(pre, k) == rle_pull(post, k));
                    }
                }
            }
        }
    }
}

// ---------------------------------------------------------------------------
// Specification: the compressor as a state machine
// ---------------------------------------------------------------------------

/// State of a compression session: a pending run of `count` copies of
/// `value`, and the position `pos` inside the current lane.
pub struct RleRun {
    pub count: int,
    pub value: u8,
    pub pos: int,
}

/// The state a fresh compressor starts in.
pub open spec fn init_run() -> RleRun {
    RleRun { count: 0, value: 0u8, pos: 0 }
}

/// The code bytes that flushing a pending run emits: nothing for an empty
/// run, the bare byte for a run of one literal-range byte, and the two-byte
/// run code otherwise.
pub open spec fn spec_flush(count: int, value: u8) -> Seq<u8> {
    if count == 0 {
        Seq::<u8>::empty()
    } else if count == 1 && value < 0xC0 {
        seq![value]
    } else {
        seq![(0xC0 + count) as u8, value]
    }
}

/// Feeding one byte to the compressor: the run is extended when the byte
/// matches it, the count is below 62, and the byte does not land on the last
/// position of a lane; otherwise the pending run is flushed and the byte
/// starts a new run of one.
pub open spec fn spec_step(s: RleRun, b: u8, lane: int) -> (RleRun, Seq<u8>) {
    let p1 = s.pos + 1;
    if b == s.value && s.count < 62 && p1 != lane {
        (RleRun { count: s.count + 1, value: s.value, pos: p1 }, Seq::<u8>::empty())
    } else {
        let p2 = if p1 == lane { 0int } else { p1 };
        (RleRun { count: 1, value: b, pos: p2 }, spec_flush(s.count, s.value))
    }
}

/// Feeding a whole byte sequence: the final state and everything emitted.
pub open spec fn spec_compress_runs(s: RleRun, data: Seq<u8>, lane: int) -> (RleRun, Seq<u8>)
    decreases data.len(),
{
    if data.len() == 0 {
        (s, Seq::<u8>::empty())
    } else {
        let (s1, o1) = spec_step(s, data[0], lane);
        let (s2, o2) = spec_compress_runs(s1, data.skip(1), lane);
        (s2, o1 + o2)
    }
}

/// The complete compressed form of `data` with lane length `lane`:
/// everything emitted while feeding `data`, followed by the final flush.
pub open spec fn spec_compress(data: Seq<u8>, lane: int) -> Seq<u8> {
    let (s, o) = spec_compress_runs(init_run(), data, lane);
    o + spec_flush(s.count, s.value)
}

/// The states a compressor with lane length `lane` can be in: the count
/// stays within the six-bit code field (at most 62), the lane position stays
/// inside the lane, and at a lane boundary at most the byte that ended the
/// lane is pending.
pub open spec fn run_inv(s: RleRun, lane: int) -> bool {
    &&& 0 <= s.count <= 62
    &&& 0 <= s.pos < lane
    &&& (s.pos == 0 ==> s.count <= 1)
}

// ---------------------------------------------------------------------------
// Executable compressor
// ---------------------------------------------------------------------------

/// Compress bytes with the RLE variant used in PCX files, breaking runs at
/// lane boundaries.
///
/// The compressor must be finished explicitly with [`Compressor::finish`];
/// dropping it loses the pending run.
pub struct Compressor {
    stream: Vec<u8>,
    lane_length: u16,
    lane_position: u16,
    run_count: u8,
    run_value: u8,
    base: Ghost<Seq<u8>>,
    fed: Ghost<Seq<u8>>,
}

impl Compressor {
    /// What the output stream held when the compressor was created.
    pub closed spec fn base(self) -> Seq<u8> {
        self.base@
    }

    /// All bytes fed to the compressor so far.
    pub closed spec fn fed(self) -> Seq<u8> {
        self.fed@
    }

    /// The lane length runs are broken at.
    pub closed spec fn lane(self) -> int {
        self.lane_length as int
    }

    /// The session state: the run fields follow the specification state
    /// machine over everything fed so far, and the output stream holds
    /// exactly what the machine emitted.
    pub closed spec fn wf(self) -> bool {
        let (s, o) = spec_compress_runs(init_run(), self.fed@, self.lane_length as int);
        &&& self.lane_length >= 1
        &&& s.count == self.run_count as int
        &&& s.value == self.run_value
        &&& s.pos == self.lane_position as int
        &&& self.stream@ == self.base@ + o
    }

    /// Position inside the current lane, as the specification machine sees
    /// it.
    pub open spec fn lane_pos(self) -> int {
        spec_compress_runs(init_run(), self.fed(), self.lane()).0.pos
    }

    /// Create a compressor appending to `stream`, breaking runs every
    /// `lane_length` bytes.
    pub fn new(stream: Vec<u8>, lane_length: u16) -> (r: Compressor)
        requires
            lane_length >= 1,
        ensures
            r.wf(),
            r.base() == stream@,
            r.fed() == Seq::<u8>::empty(),
            r.lane() == lane_length as int,
    {
        let ghost base = stream@;
        Compressor {
            stream,
            lane_length,
            lane_position: 0,
            run_count: 0,
            run_value: 0,
            base: Ghost(base),
            fed: Ghost(Seq::<u8>::empty()),
        }
    }

    /// Append the flush of the pending run to the output stream.  The run
    /// fields are left alone; callers reset them.
    fn flush_run(&mut self)
        requires
            old(self).run_count_view() <= 62,
        ensures
            final(self).stream@ == old(self).stream@ + spec_flush(
                old(self).run_count_view(), old(self).run_value_view()),
            final(self).run_count_view() == old(self).run_count_view(),
            final(self).run_value_view() == old(self).run_value_view(),
            final(self).lane_position == old(self).lane_position,
            final(self).lane_length == old(self).lane_length,
            final(self).base@ == old(self).base@,
            final(self).fed@ == old(self).fed@,
    {
        if self.run_count == 0 {
            proof {
                assert(self.stream@ =~= old(self).stream@ + spec_flush(0, self.run_value));
            }
        } else if self.run_count == 1 && self.run_value < 0xC0 {
            let v = self.run_value;
            self.stream.push(v);
            proof {
                assert(self.stream@ =~= old(self).stream@ + spec_flush(1, v));
            }
        } else {
            let c = 0xC0 + self.run_count;
            let v = self.run_value;
            self.stream.push(c);
            self.stream.push(v);
            proof {
                assert(self.stream@ =~= old(self).stream@ + spec_flush(
                    old(self).run_count_view(), v));
            }
        }
    }

    /// The pending run count, for the internal flush contract.
    spec fn run_count_view(self) -> int {
        self.run_count as int
    }

    /// The pending run value, for the internal flush contract.
    spec fn run_value_view(self) -> u8 {
        self.run_value
    }

    /// Feed a single byte.
    fn write_byte(&mut self, b: u8)
        requires
            old(self).wf(),
        ensures
            final(self).wf(),
            final(self).fed() == old(self).fed().push(b),
            final(self).base() == old(self).base(),
            final(self).lane() == old(self).lane(),
    {
        let ghost fed0 = self.fed@;
        let ghost lane = self.lane_length as int;
        let ghost s0 = spec_compress_runs(init_run(), fed0, lane).0;
        proof {
            lemma_compress_runs_inv(init_run(), fed0, lane);
            lemma_compress_runs_snoc(init_run(), fed0, b, lane);
        }
        self.lane_position = self.lane_position + 1;
        if b == self.run_value && self.run_count < 62 && self.lane_position != self.lane_length {
            self.run_count = self.run_count + 1;
            proof {
                self.fed@ = fed0.push(b);
                assert(spec_step(s0, b, lane).1 =~= Seq::<u8>::empty());
                assert(self.stream@ =~= self.base@ + (spec_compress_runs(init_run(), fed0,
                    lane).1 + spec_step(s0, b, lane).1));
            }
        } else {
            if self.lane_position == self.lane_length {
                self.lane_position = 0;
            }
            self.flush_run();
            self.run_count = 1;
            self.run_value = b;
            proof {
                self.fed@ = fed0.push(b);
                assert(self.stream@ =~= self.base@ + (spec_compress_runs(init_run(), fed0,
                    lane).1 + spec_step(s0, b, lane).1));
            }
        }
    }

    /// Feed a whole buffer of bytes, in order.
    pub fn write(&mut self, buffer: &[u8])
        requires
            old(self).wf(),
        ensures
            final(self).wf(),
            final(self).fed() == old(self).fed() + buffer@,
            final(self).base() == old(self).base(),
            final(self).lane() == old(self).lane(),
    {
        let mut i: usize = 0;
        while i < buffer.len()
            invariant
                old(self).wf(),
                self.wf(),
                i <= buffer@.len(),
                self.fed() == old(self).fed() + buffer@.take(i as int),
                self.base() == old(self).base(),
                self.lane() == old(self).lane(),
            decreases buffer@.len() - i,
        {
            let b = buffer[i];
            self.write_byte(b);
            i = i + 1;
            proof {
                assert(self.fed() =~= old(self).fed() + buffer@.take(i as int));
            }
        }
        proof {
            assert(self.fed() =~= old(self).fed() + buffer@);
        }
    }

    /// Feed zero bytes until the current lane is complete.  Does nothing
    /// when the last byte fed ended exactly on a lane boundary.
    pub fn pad(&mut self)
        requires
            old(self).wf(),
        ensures
            final(self).wf(),
            final(self).fed() == old(self).fed() + Seq::new(
                (if old(self).lane_pos() == 0 { 0int } else {
                    old(self).lane() - old(self).lane_pos()
                }) as nat,
                |i: int| 0u8,
            ),
            final(self).lane_pos() == 0,
            final(self).base() == old(self).base(),
            final(self).lane() == old(self).lane(),
    {
        proof {
            lemma_compress_runs_inv(init_run(), self.fed@, self.lane_length as int);
        }
        let ghost zeros_needed = if old(self).lane_pos() == 0 { 0int } else {
            old(self).lane() - old(self).lane_pos()
        };
        let ghost mut added = 0int;
        while self.lane_position != 0
            invariant
                old(self).wf(),
                self.wf(),
                0 <= added <= zeros_needed,
                zeros_needed == if old(self).lane_pos() == 0 { 0int } else {
                    old(self).lane() - old(self).lane_pos()
                },
                self.fed() == old(self).fed() + Seq::new(added as nat, |i: int| 0u8),
                self.base() == old(self).base(),
                self.lane() == old(self).lane(),
                self.lane_position as int == self.lane_pos(),
                added < zeros_needed ==> self.lane_pos() == old(self).lane_pos() + added,
                added == zeros_needed ==> self.lane_pos() == 0,
            decreases zeros_needed - added,
        {
            self.write_byte(0);
            proof {
                lemma_compress_runs_inv(init_run(), self.fed@, self.lane_length as int);
                lemma_compress_runs_snoc(init_run(), old(self).fed() + Seq::new(added as nat,
                    |i: int| 0u8), 0u8, self.lane());
                added = added + 1;
                assert(self.fed() =~= old(self).fed() + Seq::new(added as nat, |i: int| 0u8));
            }
        }
        proof {
            assert(added == zeros_needed);
        }
    }

    /// Flush the pending run and hand back the finished output stream.
    pub fn finish(self) -> (r: Vec<u8>)
        requires
            self.wf(),
        ensures
            r@ == self.base() + spec_compress(self.fed(), self.lane()),
    {
        let mut this = self;
        proof {
            lemma_compress_runs_inv(init_run(), this.fed@, this.lane_length as int);
        }
        this.flush_run();
        proof {
            assert(this.stream@ =~= self.base() + spec_compress(self.fed(), self.lane()));
        }
        let Compressor { stream, lane_length: _, lane_position: _, run_count: _, run_value: _,
            base: _, fed: _ } = this;
        stream
    }
}

// ---------------------------------------------------------------------------
// Lemmas about the compressor state machine
// ---------------------------------------------------------------------------

/// Feeding one more byte is one specification step at the end.
pub proof fn lemma_compress_runs_snoc(s: RleRun, data: Seq<u8>, b: u8, lane: int)
    ensures
        spec_compress_runs(s, data.push(b), lane) == ({
            let (s1, o1) = spec_compress_runs(s, data, lane);
            let (s2, o2) = spec_step(s1, b, lane);
            (s2, o1 + o2)
        }),
    decreases data.len(),
{
    let (s1, o1) = spec_compress_runs(s, data, lane);
    let (s2, o2) = spec_step(s1, b, lane);
    if data.len() == 0 {
        assert(data.push(b) =~= seq![b]);
        assert(data.push(b).skip(1) =~= Seq::<u8>::empty());
        let (t1, p1) = spec_step(s, b, lane);
        assert(spec_compress_runs(t1, Seq::<u8>::empty(), lane) == (t1, Seq::<u8>::empty()));
        assert(p1 + Seq::<u8>::empty() =~= p1);
        assert(o1 + o2 =~= p1);
    } else {
        let (t1, p1) = spec_step(s, data[0], lane);
        assert(data.push(b)[0] == data[0]);
        assert(data.push(b).skip(1) =~= data.skip(1).push(b));
        lemma_compress_runs_snoc(t1, data.skip(1), b, lane);
        let (u2, q2) = spec_compress_runs(t1, data.skip(1), lane);
        assert(spec_compress_runs(s, data.push(b), lane).1 =~= p1 + (q2 + spec_step(u2, b,
            lane).1));
        assert(o1 + o2 =~= p1 + (q2 + spec_step(u2, b, lane).1));
    }
}

/// The state machine never leaves `run_inv`.
pub proof fn lemma_compress_runs_inv(s: RleRun, data: Seq<u8>, lane: int)
    requires
        lane >= 1,
        run_inv(s, lane),
    ensures
        run_inv(spec_compress_runs(s, data, lane).0, lane),
    decreases data.len(),
{
    if data.len() > 0 {
        let (s1, o1) = spec_step(s, data[0], lane);
        lemma_compress_runs_inv(s1, data.skip(1), lane);
    }
}

// ---------------------------------------------------------------------------
// Round-trip proofs for the compressor
// ---------------------------------------------------------------------------

/// Decoding a flushed run followed by anything yields the run's bytes
/// followed by the decoding of the rest.
proof fn lemma_flush_decode(c: int, v: u8, rest: Seq<u8>)
    requires
        0 <= c <= 62,
    ensures
        rle_decode(spec_flush(c, v) + rest) == Seq::new(c as nat, |i: int| v) + rle_decode(rest),
{
    if c == 0 {
        assert(spec_flush(c, v) + rest =~= rest);
        assert(Seq::new(0nat, |i: int| v) + rle_decode(rest) =~= rle_decode(rest));
    } else if c == 1 && v < 0xC0 {
        let s = spec_flush(c, v) + rest;
        assert(s[0] == v);
        assert(s.skip(1) =~= rest);
        assert(rle_decode(s) == seq![v] + rle_decode(rest));
        assert(seq![v] =~= Seq::new(1nat, |i: int| v));
    } else {
        let code = (0xC0 + c) as u8;
        let s = spec_flush(c, v) + rest;
        assert(s[0] == code);
        assert(code >= 0xC0);
        assert(s[1] == v);
        assert(s.len() >= 2);
        assert(s.skip(2) =~= rest);
        assert(code - 0xC0 == c);
        assert(rle_decode(s) == Seq::new(c as nat, |i: int| v) + rle_decode(rest));
    }
}

/// A flushed run in front of a well-formed, positive, bounded stream keeps
/// it well-formed, positive and bounded.
proof fn lemma_flush_stream(c: int, v: u8, rest: Seq<u8>)
    requires
        0 <= c <= 62,
        rle_wf(rest),
        rle_runs_positive(rest),
        rle_runs_bounded(rest, 62),
    ensures
        rle_wf(spec_flush(c, v) + rest),
        rle_runs_positive(spec_flush(c, v) + rest),
        rle_runs_bounded(spec_flush(c, v) + rest, 62),
{
    if c == 0 {
        assert(spec_flush(c, v) + rest =~= rest);
    } else if c == 1 && v < 0xC0 {
        let s = spec_flush(c, v) + rest;
        assert(s[0] == v);
        assert(s.skip(1) =~= rest);
    } else {
        let code = (0xC0 + c) as u8;
        let s = spec_flush(c, v) + rest;
        assert(s[0] == code);
        assert(code > 0xC0);
        assert(s.len() >= 2);
        assert(s.skip(2) =~= rest);
        assert(code - 0xC0 == c);
    }
}

/// Main induction: everything the state machine emits, followed by the
/// final flush and then anything else, decodes to the pending run followed
/// by the fed bytes; and the emitted stream is well formed with positive,
/// bounded run counts.
proof fn lemma_compress_runs_correct(s: RleRun, data: Seq<u8>, lane: int, rest: Seq<u8>)
    requires
        lane >= 1,
        run_inv(s, lane),
        rle_wf(rest),
        rle_runs_positive(rest),
        rle_runs_bounded(rest, 62),
    ensures
        ({
            let (s2, o) = spec_compress_runs(s, data, lane);
            let whole = o + spec_flush(s2.count, s2.value) + rest;
            &&& rle_decode(whole) == Seq::new(s.count as nat, |i: int| s.value) + data
                + rle_decode(rest)
            &&& rle_wf(whole)
            &&& rle_runs_positive(whole)
            &&& rle_runs_bounded(whole, 62)
        }),
    decreases data.len(),
{
    let (s2, o) = spec_compress_runs(s, data, lane);
    if data.len() == 0 {
        assert(o + spec_flush(s.count, s.value) + rest =~= spec_flush(s.count, s.value) + rest);
        lemma_flush_decode(s.count, s.value, rest);
        lemma_flush_stream(s.count, s.value, rest);
        assert(Seq::new(s.count as nat, |i: int| s.value) + rle_decode(rest) =~= Seq::new(
            s.count as nat, |i: int| s.value) + data + rle_decode(rest));
    } else {
        let b = data[0];
        let (s1, o1) = spec_step(s, b, lane);
        let (t2, o2) = spec_compress_runs(s1, data.skip(1), lane);
        assert(run_inv(s1, lane));
        lemma_compress_runs_correct(s1, data.skip(1), lane, rest);
        let whole1 = o2 + spec_flush(t2.count, t2.value) + rest;
        if b == s.value && s.count < 62 && s.pos + 1 != lane {
            // the run was extended: nothing was emitted
            assert(o1.len() == 0 && s1.count == s.count + 1);
            assert((o1 + o2) + spec_flush(t2.count, t2.value) + rest =~= whole1);
            assert(Seq::new(s1.count as nat, |i: int| s1.value) + data.skip(1) + rle_decode(rest)
                =~= Seq::new(s.count as nat, |i: int| s.value) + data + rle_decode(rest));
        } else {
            // the pending run was flushed, b starts a new run of one
            assert(o1 == spec_flush(s.count, s.value));
            assert(s1.count == 1 && s1.value == b);
            assert((o1 + o2) + spec_flush(t2.count, t2.value) + rest =~= o1 + whole1);
            lemma_flush_decode(s.count, s.value, whole1);
            lemma_flush_stream(s.count, s.value, whole1);
            assert(Seq::new(s.count as nat, |i: int| s.value) + (Seq::new(s1.count as nat,
                |i: int| s1.value) + data.skip(1) + rle_decode(rest)) =~= Seq::new(
                s.count as nat, |i: int| s.value) + data + rle_decode(rest));
        }
    }
}

/// Run-length round trip: for any byte sequence and any lane length of at
/// least one, the compressed stream decodes back to exactly the original
/// bytes.  The compressed stream is well formed, and every run code in it
/// carries a count between 1 and 62 -- in particular never more than the
/// 63 the six-bit count field could hold.
pub proof fn lemma_rle_round_trip(data: Seq<u8>, lane: int)
    requires
        lane >= 1,
    ensures
        rle_decode(spec_compress(data, lane)) == data,
        rle_wf(spec_compress(data, lane)),
        rle_runs_positive(spec_compress(data, lane)),
        rle_runs_bounded(spec_compress(data, lane), 62),
{
    let empty = Seq::<u8>::empty();
    lemma_compress_runs_correct(init_run(), data, lane, empty);
    let (s2, o) = spec_compress_runs(init_run(), data, lane);
    assert(o + spec_flush(s2.count, s2.value) + empty =~= spec_compress(data, lane));
    assert(Seq::new(0nat, |i: int| 0u8) + data + rle_decode(empty) =~= data);
}

/// Splitting the fed bytes splits the state machine run.
pub proof fn lemma_compress_runs_app(s: RleRun, d1: Seq<u8>, d2: Seq<u8>, lane: int)
    ensures
        spec_compress_runs(s, d1 + d2, lane) == ({
            let (s1, o1) = spec_compress_runs(s, d1, lane);
            let (s2, o2) = spec_compress_runs(s1, d2, lane);
            (s2, o1 + o2)
        }),
    decreases d1.len(),
{
    let (s1, o1) = spec_compress_runs(s, d1, lane);
    let (s2, o2) = spec_compress_runs(s1, d2, lane);
    if d1.len() == 0 {
        assert(d1 + d2 =~= d2);
        assert(o1 + o2 =~= o2);
    } else {
        let (t1, p1) = spec_step(s, d1[0], lane);
        assert((d1 + d2)[0] == d1[0]);
        assert((d1 + d2).skip(1) =~= d1.skip(1) + d2);
        lemma_compress_runs_app(t1, d1.skip(1), d2, lane);
        let (u2, q2) = spec_compress_runs(t1, d1.skip(1), lane);
        let (w2, r2) = spec_compress_runs(u2, d2, lane);
        assert(spec_compress_runs(s, d1 + d2, lane).1 =~= p1 + (q2 + r2));
        assert(o1 + o2 =~= p1 + (q2 + r2));
    }
}

/// Feeding exactly up to the end of the current lane leaves the machine at
/// position zero with at most the lane's final byte pending; feeding less
/// advances the position by the number of bytes fed.
pub proof fn lemma_compress_within_lane(s: RleRun, data: Seq<u8>, lane: int)
    requires
        lane >= 1,
        run_inv(s, lane),
        s.pos + data.len() <= lane,
    ensures
        ({
            let s2 = spec_compress_runs(s, data, lane).0;
            if s.pos + data.len() == lane {
                s2.pos == 0 && s2.count <= 1
            } else {
                s2.pos == s.pos + data.len()
            }
        }),
    decreases data.len(),
{
    if data.len() > 0 {
        let (s1, o1) = spec_step(s, data[0], lane);
        assert(run_inv(s1, lane));
        lemma_compress_within_lane(s1, data.skip(1), lane);
    }
}

/// Lane boundary law: after any whole number of lanes the compressor's
/// pending run holds at most one byte (the byte that ended the last lane),
/// and the lane position is back at zero.  A run therefore never
/// accumulates across a lane boundary: the bytes of a lane force at latest
/// one flush at its end.
pub proof fn lemma_compress_lane_boundary(data: Seq<u8>, lane: int, k: nat)
    requires
        lane >= 1,
        data.len() == k * lane,
    ensures
        spec_compress_runs(init_run(), data, lane).0.pos == 0,
        spec_compress_runs(init_run(), data, lane).0.count <= 1,
{
    lemma_compress_lanes_from(init_run(), data, lane, k);
}

/// Helper for the lane boundary law, generalized over the start state.
proof fn lemma_compress_lanes_from(s: RleRun, data: Seq<u8>, lane: int, k: nat)
    requires
        lane >= 1,
        run_inv(s, lane),
        s.pos == 0,
        data.len() == k * lane,
    ensures
        spec_compress_runs(s, data, lane).0.pos == 0,
        spec_compress_runs(s, data, lane).0.count <= 1,
    decreases k,
{
    if k == 0 {
        assert(data.len() == 0) by (nonlinear_arith)
            requires data.len() == k * lane, k == 0;
        assert(spec_compress_runs(s, data, lane).0 == s);
    } else {
        assert(data.len() >= lane && (data.len() - lane) == (k - 1) * lane) by (nonlinear_arith)
            requires data.len() == k * lane, k >= 1, lane >= 1;
        let d1 = data.take(lane);
        let d2 = data.skip(lane);
        assert(data =~= d1 + d2);
        lemma_compress_runs_app(s, d1, d2, lane);
        lemma_compress_within_lane(s, d1, lane);
        let s1 = spec_compress_runs(s, d1, lane).0;
        lemma_compress_runs_inv(s, d1, lane);
        lemma_compress_lanes_from(s1, d2, lane, (k - 1) as nat);
        assert(spec_compress_runs(s, data, lane) == spec_compress_runs(s, d1 + d2, lane));
    }
}

// ---------------------------------------------------------------------------
// Small lemmas about `rle_pull`
// ---------------------------------------------------------------------------

/// Pulling `n1 + n2` bytes is pulling `n1` and then `n2`: the outputs
/// concatenate and the states chain.
pub proof fn lemma_pull_add(m: RleSource, n1: nat, n2: nat)
    ensures
        ({
            let r1 = rle_pull(m, n1);
            let r12 = rle_pull(m, (n1 + n2) as nat);
            if r1.err {
                r12 == r1
            } else {
                let r2 = rle_pull(r1.end, n2);
                r12.out == r1.out + r2.out && r12.end == r2.end && r12.err == r2.err
            }
        }),
    decreases n1, m.s.len(),
{
    let r1 = rle_pull(m, n1);
    let r12 = rle_pull(m, (n1 + n2) as nat);
    if n1 == 0 {
        assert(r1.out + rle_pull(m, n2).out =~= rle_pull(m, n2).out);
    } else if m.count > 0 {
        let c = m.count;
        let drained = |k: nat| RleSource { count: (c - k) as nat, value: m.value, s: m.s };
        if c <= n1 {
            let inner = RleSource { count: 0, value: m.value, s: m.s };
            lemma_pull_add(inner, (n1 - c) as nat, n2);
            let q1 = rle_pull(inner, (n1 - c) as nat);
            if q1.err {
                assert(r12.out =~= r1.out);
            } else {
                let q2 = rle_pull(q1.end, n2);
                assert(r12.out =~= r1.out + q2.out);
                assert(r1.end == q1.end);
            }
        } else {
            // c > n1: the first pull only drains
            assert(r1.out == Seq::new(n1, |i: int| m.value) + rle_pull(drained(n1), 0).out);
            assert(r1.end == (RleSource { count: (c - n1) as nat, value: m.value, s: m.s }));
            assert(r1.out =~= Seq::new(n1, |i: int| m.value));
            assert(!r1.err);
            let r2 = rle_pull(r1.end, n2);
            if n2 == 0 {
                assert(r12.out =~= r1.out + r2.out);
            } else if c <= n1 + n2 {
                // the second pull drains the rest of the run, then goes on
                let inner = RleSource { count: 0, value: m.value, s: m.s };
                let rest = rle_pull(inner, (n1 + n2 - c) as nat);
                assert(r12.out == Seq::new((n1 + n2) as nat, |i: int| m.value).take(0) + (
                    Seq::new(c, |i: int| m.value) + rest.out).skip(0));
                assert(r12.out =~= Seq::new(c, |i: int| m.value) + rest.out);
                assert(r2.out =~= Seq::new((c - n1) as nat, |i: int| m.value) + rest.out);
                assert(r12.out =~= r1.out + r2.out);
                assert(r12.end == rest.end && r2.end == rest.end);
                assert(r12.err == rest.err && r2.err == rest.err);
            } else {
                // even n1 + n2 stays inside the run
                let left = RleSource { count: (c - n1 - n2) as nat, value: m.value, s: m.s };
                let rest12 = rle_pull(left, 0);
                assert(rest12 == (PullResult {
                    out: Seq::<u8>::empty(),
                    end: left,
                    err: false,
                }));
                assert(r12.out == Seq::new((n1 + n2) as nat, |i: int| m.value) + rest12.out);
                assert(r12.end == left && !r12.err);
                let rest2 = rle_pull(left, 0);
                assert(r2.out == Seq::new(n2, |i: int| m.value) + rest2.out);
                assert(r2.end == left && !r2.err);
                assert(r12.out =~= r1.out + r2.out);
            }
        }
    } else if m.s.len() == 0 {
        assert(r1 == (PullResult { out: Seq::<u8>::empty(), end: m, err: false }));
        let r2 = rle_pull(m, n2);
        assert(r2.out + Seq::<u8>::empty() =~= r2.out);
        if n2 == 0 {
            assert(r12.out =~= r1.out + r2.out);
        } else {
            assert(r12.out =~= r1.out + r2.out);
        }
    } else if m.s[0] < 0xC0 {
        let inner = RleSource { count: 0, value: m.value, s: m.s.skip(1) };
        lemma_pull_add(inner, (n1 - 1) as nat, n2);
        let q1 = rle_pull(inner, (n1 - 1) as nat);
        if q1.err {
            assert(r12.out =~= r1.out);
        } else {
            let q2 = rle_pull(q1.end, n2);
            assert(r12.out =~= r1.out + q2.out);
            assert(r1.end == q1.end);
        }
    } else if m.s.len() == 1 {
        assert(r1.err);
        assert(r12 == r1);
    } else {
        let inner = RleSource { count: (m.s[0] - 0xC0) as nat, value: m.s[1], s: m.s.skip(2) };
        lemma_pull_add(inner, n1, n2);
    }
}

/// Pulling exactly the decoded length of a well-formed prefix whose run
/// codes all carry a positive count consumes exactly that prefix: the
/// output is its decoding and the session stands at the start of `q` with
/// no pending run.
pub proof fn lemma_pull_exact(p: Seq<u8>, q: Seq<u8>, v: u8)
    requires
        rle_wf(p),
        rle_runs_positive(p),
    ensures
        ({
            let r = rle_pull(RleSource { count: 0, value: v, s: p + q }, rle_decode(p).len());
            &&& !r.err
            &&& r.out == rle_decode(p)
            &&& r.end.count == 0
            &&& r.end.s == q
        }),
    decreases p.len(),
{
    let m = RleSource { count: 0, value: v, s: p + q };
    let n = rle_decode(p).len();
    if p.len() == 0 {
        assert(p + q =~= q);
        assert(rle_decode(p) =~= Seq::<u8>::empty());
        assert(rle_pull(m, 0).end == m);
    } else if p[0] < 0xC0 {
        let b = p[0];
        assert((p + q)[0] == b);
        assert((p + q).skip(1) =~= p.skip(1) + q);
        assert(rle_decode(p) == seq![b] + rle_decode(p.skip(1)));
        assert(n == 1 + rle_decode(p.skip(1)).len());
        lemma_pull_exact(p.skip(1), q, v);
        let inner = RleSource { count: 0, value: v, s: p.skip(1) + q };
        let rest = rle_pull(inner, rle_decode(p.skip(1)).len());
        assert(rle_pull(m, n).out == seq![b] + rest.out);
        assert(rle_pull(m, n).out =~= rle_decode(p));
    } else {
        let k = (p[0] - 0xC0) as nat;
        let val = p[1];
        assert((p + q)[0] == p[0]);
        assert((p + q)[1] == val);
        assert((p + q).len() >= 2);
        assert((p + q).skip(2) =~= p.skip(2) + q);
        assert(k >= 1);
        assert(rle_decode(p) == Seq::new(k, |i: int| val) + rle_decode(p.skip(2)));
        assert(n >= k);
        lemma_pull_exact(p.skip(2), q, val);
        let loaded = RleSource { count: k, value: val, s: p.skip(2) + q };
        assert(rle_pull(m, n) == rle_pull(loaded, n));
        let inner = RleSource { count: 0, value: val, s: p.skip(2) + q };
        let rest = rle_pull(inner, rle_decode(p.skip(2)).len());
        assert(rle_pull(loaded, n).out == Seq::new(k, |i: int| val) + rest.out);
        assert(rle_pull(m, n).out =~= rle_decode(p));
    }
}

/// What a pull leaves unconsumed is a suffix of the stream it started on.
pub proof fn lemma_pull_suffix(m: RleSource, n: nat)
    ensures
        exists|j: int| 0 <= j <= m.s.len() && rle_pull(m, n).end.s == m.s.skip(j),
    decreases n, m.s.len(),
{
    if n == 0 {
        assert(m.s.skip(0) =~= m.s);
        assert(rle_pull(m, n).end.s == m.s.skip(0));
    } else if m.count > 0 {
        let take = if m.count < n { m.count } else { n };
        lemma_pull_suffix(RleSource { count: (m.count - take) as nat, value: m.value, s: m.s },
            (n - take) as nat);
    } else if m.s.len() == 0 {
        assert(m.s.skip(0) =~= m.s);
        assert(rle_pull(m, n).end.s == m.s.skip(0));
    } else if m.s[0] < 0xC0 {
        let inner = RleSource { count: 0, value: m.value, s: m.s.skip(1) };
        lemma_pull_suffix(inner, (n - 1) as nat);
        let j = choose|j: int| 0 <= j <= inner.s.len() && rle_pull(inner, (n - 1) as nat).end.s
            == inner.s.skip(j);
        assert(m.s.skip(1).skip(j) =~= m.s.skip(1 + j));
        assert(rle_pull(m, n).end.s == m.s.skip(1 + j));
    } else if m.s.len() == 1 {
        assert(rle_pull(m, n).end.s == m.s.skip(1));
    } else {
        let inner = RleSource { count: (m.s[0] - 0xC0) as nat, value: m.s[1], s: m.s.skip(2) };
        lemma_pull_suffix(inner, n);
        let j = choose|j: int| 0 <= j <= inner.s.len() && rle_pull(inner, n).end.s
            == inner.s.skip(j);
        assert(m.s.skip(2).skip(j) =~= m.s.skip(2 + j));
        assert(rle_pull(m, n).end.s == m.s.skip(2 + j));
    }
}

/// Pulling nothing leaves the state alone.
pub proof fn lemma_pull_zero(m: RleSource)
    ensures
        rle_pull(m, 0) == (PullResult { out: Seq::<u8>::empty(), end: m, err: false }),
{
}

/// At a clean end of stream with no pending run, any pull is an empty,
/// error-free short read.
pub proof fn lemma_pull_eof(m: RleSource, n: nat)
    requires
        m.count == 0,
        m.s.len() == 0,
    ensures
        rle_pull(m, n) == (PullResult { out: Seq::<u8>::empty(), end: m, err: false }),
{
}

/// Draining a single byte of the pending run is one step of `rle_pull`.
pub proof fn lemma_pull_drain_one(m: RleSource, n: nat)
    requires
        m.count > 0,
        n > 0,
    ensures
        ({
            let rest = rle_pull(
                RleSource { count: (m.count - 1) as nat, value: m.value, s: m.s },
                (n - 1) as nat,
            );
            rle_pull(m, n) == (PullResult {
                out: seq![m.value] + rest.out,
                end: rest.end,
                err: rest.err,
            })
        }),
{
    let take = if m.count < n { m.count } else { n };
    let m1 = RleSource { count: (m.count - 1) as nat, value: m.value, s: m.s };
    if take == 1 {
        let rest = rle_pull(m1, (n - 1) as nat);
        assert(Seq::new(1nat, |i: int| m.value) + rest.out =~= seq![m.value] + rest.out);
    } else {
        // take >= 2: the single-byte step drains take - 1 more from m1.
        let take1 = (take - 1) as nat;
        let m2 = RleSource { count: (m.count - take) as nat, value: m.value, s: m.s };
        let rest2 = rle_pull(m2, (n - take) as nat);
        assert(rle_pull(m1, (n - 1) as nat) == (PullResult {
            out: Seq::new(take1, |i: int| m.value) + rest2.out,
            end: rest2.end,
            err: rest2.err,
        }));
        assert(Seq::new(take, |i: int| m.value) + rest2.out =~= seq![m.value] + (Seq::new(
            take1, |i: int| m.value) + rest2.out));
    }
}

/// Helper for `Decompressor::read`: one decoding step preserves the loop's
/// continuation invariant.
proof fn lemma_step_frame(
    orig: RleSource,
    n_total: nat,
    buf: Seq<u8>,
    old_buf: Seq<u8>,
    filled: int,
    n: int,
    pre: RleSource,
    post: RleSource,
    produced: Seq<u8>,
)
    requires
        0 <= filled <= n,
        n == buf.len() == old_buf.len(),
        n_total == n,
        produced.len() <= filled,
        buf.take(filled) == buf.take(filled - produced.len()) + produced,
        buf.take(filled - produced.len()) == buf.take(filled - produced.len()),
        // the step equation: pulling from pre = produced then pulling from post
        ({
            let p = rle_pull(post, (n - filled) as nat);
            rle_pull(pre, (n - filled + produced.len()) as nat) == (PullResult {
                out: produced + p.out,
                end: p.end,
                err: p.err,
            })
        }),
        // invariant before the step
        rle_pull(orig, n_total) == ({
            let p = rle_pull(pre, (n - filled + produced.len()) as nat);
            PullResult {
                out: buf.take(filled - produced.len()) + p.out,
                end: p.end,
                err: p.err,
            }
        }),
    ensures
        rle_pull(orig, n_total) == ({
            let p = rle_pull(post, (n - filled) as nat);
            PullResult { out: buf.take(filled) + p.out, end: p.end, err: p.err }
        }),
{
    let p = rle_pull(post, (n - filled) as nat);
    assert(buf.take(filled - produced.len()) + (produced + p.out) =~= buf.take(filled) + p.out);
}

} // verus!
