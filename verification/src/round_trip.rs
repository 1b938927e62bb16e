//! Whole-image round trips: a reader gives back exactly the pixel rows a
//! writer was fed.
//!
//! The laws here are stated over the same specification functions the
//! writers' and the reader's contracts use: `spec_lanes_fed` is the byte
//! stream the writers feed their compressor (their `fed()` view), the file
//! is the header bytes plus `spec_compress` of it (what `finish` and
//! `write_palette` return), and `spec_read_lanes` is the sequence of lane
//! reads the reader performs.

use vstd::prelude::*;

use crate::header::lemma_header_round_trip;
use crate::header::lemma_parse_prefix;
use crate::header::spec_dpi;
use crate::header::spec_header_bytes;
use crate::header::spec_height;
use crate::header::spec_parse_error;
use crate::header::spec_width;
use crate::header::spec_zeros;
use crate::reader::spec_next_lane;
use crate::reader::spec_read_lanes;
use crate::rle::RleSource;
use crate::rle::lemma_pull_add;
use crate::rle::lemma_pull_exact;
use crate::rle::lemma_pull_suffix;
use crate::rle::lemma_rle_round_trip;
use crate::rle::rle_decode;
use crate::rle::rle_pull;
use crate::rle::spec_compress;
use crate::writer::spec_row_pad;

verus! {

/// The byte stream a writer feeds its compressor for these lanes: each
/// lane followed by the padding.
pub open spec fn spec_lanes_fed(lanes: Seq<Seq<u8>>, pad: Seq<u8>) -> Seq<u8>
    decreases lanes.len(),
{
    if lanes.len() == 0 {
        Seq::<u8>::empty()
    } else {
        lanes[0] + pad + spec_lanes_fed(lanes.skip(1), pad)
    }
}

/// Writing one more lane appends it and its padding: the step a writer's
/// `fed()` makes on each row call.
pub proof fn lemma_lanes_fed_push(lanes: Seq<Seq<u8>>, pad: Seq<u8>, l: Seq<u8>)
    ensures
        spec_lanes_fed(lanes.push(l), pad) == spec_lanes_fed(lanes, pad) + l + pad,
    decreases lanes.len(),
{
    let lp = lanes.push(l);
    if lanes.len() == 0 {
        assert(lp.len() == 1);
        assert(lp[0] == l);
        let tail = lp.skip(1);
        assert(tail =~= Seq::<Seq<u8>>::empty());
        assert(tail.len() == 0);
        assert(spec_lanes_fed(tail, pad) == Seq::<u8>::empty());
        assert(spec_lanes_fed(lp, pad) == lp[0] + pad + spec_lanes_fed(tail, pad));
        assert(spec_lanes_fed(lanes, pad) == Seq::<u8>::empty());
        assert(spec_lanes_fed(lp, pad) =~= spec_lanes_fed(lanes, pad) + l + pad);
    } else {
        assert(lp[0] == lanes[0]);
        assert(lp.skip(1) =~= lanes.skip(1).push(l));
        assert(spec_lanes_fed(lp, pad) == lp[0] + pad + spec_lanes_fed(lp.skip(1), pad));
        lemma_lanes_fed_push(lanes.skip(1), pad, l);
        assert(spec_lanes_fed(lp.skip(1), pad) == spec_lanes_fed(lanes.skip(1), pad) + l
            + pad);
        assert(spec_lanes_fed(lanes, pad) == lanes[0] + pad + spec_lanes_fed(lanes.skip(1),
            pad));
        assert(spec_lanes_fed(lp, pad) =~= spec_lanes_fed(lanes, pad) + l + pad);
    }
}

/// Length of the fed stream: one lane length plus padding per lane.
pub proof fn lemma_lanes_fed_len(lanes: Seq<Seq<u8>>, pad: Seq<u8>, lane_len: nat)
    requires
        forall|i: int| 0 <= i < lanes.len() ==> (#[trigger] lanes[i]).len() == lane_len,
    ensures
        spec_lanes_fed(lanes, pad).len() == lanes.len() * (lane_len + pad.len()),
    decreases lanes.len(),
{
    if lanes.len() == 0 {
    } else {
        lemma_lanes_fed_len(lanes.skip(1), pad, lane_len);
        assert((lanes.len() - 1) * (lane_len + pad.len()) + (lane_len + pad.len())
            == lanes.len() * (lane_len + pad.len())) by (nonlinear_arith);
    }
}

/// Skipping whole lanes of the fed stream lands at the fed stream of the
/// remaining lanes.
pub proof fn lemma_lanes_fed_skip(lanes: Seq<Seq<u8>>, pad: Seq<u8>, lane_len: nat, j: int)
    requires
        forall|i: int| 0 <= i < lanes.len() ==> (#[trigger] lanes[i]).len() == lane_len,
        0 <= j <= lanes.len(),
    ensures
        spec_lanes_fed(lanes, pad).skip(j * (lane_len + pad.len())) == spec_lanes_fed(
            lanes.skip(j), pad),
    decreases j,
{
    let fed = spec_lanes_fed(lanes, pad);
    let step = lane_len + pad.len();
    lemma_lanes_fed_len(lanes, pad, lane_len);
    if j == 0 {
        assert(fed.skip(0) =~= fed);
        assert(lanes.skip(0) =~= lanes);
    } else {
        assert(lanes.len() >= 1);
        assert(fed == lanes[0] + pad + spec_lanes_fed(lanes.skip(1), pad));
        assert(fed.skip(step as int) =~= spec_lanes_fed(lanes.skip(1), pad));
        assert(forall|i: int| 0 <= i < lanes.skip(1).len() ==> (#[trigger] lanes.skip(1)[
            i]).len() == lane_len);
        lemma_lanes_fed_len(lanes.skip(1), pad, lane_len);
        lemma_lanes_fed_skip(lanes.skip(1), pad, lane_len, j - 1);
        assert(lanes.skip(1).skip(j - 1) =~= lanes.skip(j));
        assert(j * step == step + (j - 1) * step) by (nonlinear_arith);
        assert(0 <= (j - 1) * step <= spec_lanes_fed(lanes.skip(1), pad).len())
            by (nonlinear_arith)
            requires
                j >= 1,
                step >= 0,
                j <= lanes.len(),
                spec_lanes_fed(lanes.skip(1), pad).len() == (lanes.len() - 1) * step,
        ;
        assert(fed.skip(j * step) =~= fed.skip(step as int).skip((j - 1) * step));
    }
}

/// A full pull splits into two full pulls: used to walk the decoded pixel
/// stream lane by lane.
pub proof fn lemma_pull_prefix_full(m0: RleSource, n1: nat, n2: nat)
    requires
        ({
            let t = rle_pull(m0, (n1 + n2) as nat);
            !t.err && t.out.len() == n1 + n2
        }),
    ensures
        ({
            let t = rle_pull(m0, (n1 + n2) as nat);
            let r1 = rle_pull(m0, n1);
            let r2 = rle_pull(r1.end, n2);
            &&& !r1.err && r1.out.len() == n1 && r1.out == t.out.take(n1 as int)
            &&& !r2.err && r2.out.len() == n2 && r2.out == t.out.skip(n1 as int)
            &&& r2.end == t.end
        }),
{
    lemma_pull_add(m0, n1, n2);
    lemma_pull_len(m0, n1);
    let r1 = rle_pull(m0, n1);
    let t = rle_pull(m0, (n1 + n2) as nat);
    if r1.err {
        assert(t == r1);
        assert(false);
    }
    let r2 = rle_pull(r1.end, n2);
    lemma_pull_len(r1.end, n2);
    assert(t.out == r1.out + r2.out);
    assert(r1.out.len() == n1 && r2.out.len() == n2);
    assert(r1.out =~= t.out.take(n1 as int));
    assert(r2.out =~= t.out.skip(n1 as int));
}

/// A pull never produces more bytes than were asked for.
pub proof fn lemma_pull_len(m: RleSource, n: nat)
    ensures
        rle_pull(m, n).out.len() <= n,
    decreases n, m.s.len(),
{
    if n == 0 {
    } else if m.count > 0 {
        let take = if m.count < n { m.count } else { n };
        lemma_pull_len(RleSource { count: (m.count - take) as nat, value: m.value, s: m.s },
            (n - take) as nat);
    } else if m.s.len() == 0 {
    } else if m.s[0] < 0xC0 {
        lemma_pull_len(RleSource { count: 0, value: m.value, s: m.s.skip(1) }, (n - 1) as nat);
    } else if m.s.len() == 1 {
    } else {
        lemma_pull_len(RleSource { count: (m.s[0] - 0xC0) as nat, value: m.s[1], s: m.s.skip(
            2) }, n);
    }
}

/// Walking the decoded stream lane by lane: when the whole fed stream can
/// be pulled out of a source, the reader's lane reads from lane `j` on all
/// succeed and give back exactly the lanes, skipping each lane's padding
/// except after the image's last lane.
pub proof fn lemma_read_lanes_back(
    m0: RleSource,
    lanes: Seq<Seq<u8>>,
    lane_len: nat,
    pad: nat,
    j: nat,
)
    requires
        forall|i: int| 0 <= i < lanes.len() ==> (#[trigger] lanes[i]).len() == lane_len,
        j < lanes.len(),
        lane_len >= 1,
        ({
            let n_all = (lanes.len() * (lane_len + pad)) as nat;
            let t = rle_pull(m0, n_all);
            &&& !t.err
            &&& t.out.len() == n_all
            &&& t.out == spec_lanes_fed(lanes, spec_zeros(pad))
        }),
    ensures
        ({
            let total = lanes.len();
            let m_j = rle_pull(m0, (j * (lane_len + pad)) as nat).end;
            let rl = spec_read_lanes(true, m_j, lane_len, pad, j, total, (total - j) as nat);
            &&& rl.ok
            &&& rl.lanes == lanes.skip(j as int)
            &&& rl.lanes_read == total
            &&& rl.end == rle_pull(m0, (total * (lane_len + pad) - pad) as nat).end
        }),
    decreases lanes.len() - j,
{
    let total = lanes.len();
    let step = lane_len + pad;
    let padseq = spec_zeros(pad);
    let fed = spec_lanes_fed(lanes, padseq);
    let n_all = (total * step) as nat;
    let n_j = (j * step) as nat;
    let t = rle_pull(m0, n_all);
    assert(n_j + step == (j + 1) * step && n_j + step <= n_all && n_j + lane_len <= n_all
        - pad && (j + 1 == total ==> n_j + lane_len == n_all - pad)) by (nonlinear_arith)
        requires
            n_j == j * step,
            n_all == total * step,
            step == lane_len + pad,
            j < total,
            lane_len >= 1,
            pad >= 0,
    ;
    lemma_pull_prefix_full(m0, n_j, (n_all - n_j) as nat);
    let m_j = rle_pull(m0, n_j).end;
    lemma_pull_prefix_full(m0, (n_j + lane_len) as nat, (n_all - n_j - lane_len) as nat);
    lemma_pull_add(m0, n_j, lane_len);
    let rA = rle_pull(m_j, lane_len);
    assert(!rA.err && rA.out.len() == lane_len);
    assert(rA.end == rle_pull(m0, (n_j + lane_len) as nat).end);
    // the bytes of this lane pull are exactly lane j
    lemma_lanes_fed_skip(lanes, padseq, lane_len, j as int);
    lemma_lanes_fed_len(lanes, padseq, lane_len);
    assert(lanes.skip(j as int)[0] == lanes[j as int]);
    assert(spec_lanes_fed(lanes.skip(j as int), padseq) == lanes[j as int] + padseq
        + spec_lanes_fed(lanes.skip(j as int).skip(1), padseq));
    assert(rle_pull(m0, n_j).out == t.out.take(n_j as int));
    assert(rle_pull(m0, (n_j + lane_len) as nat).out == t.out.take((n_j + lane_len) as int));
    assert(rle_pull(m0, (n_j + lane_len) as nat).out == rle_pull(m0, n_j).out + rA.out);
    assert(rle_pull(m0, n_j).out.len() == n_j);
    assert(rA.out =~= t.out.take((n_j + lane_len) as int).skip(n_j as int));
    assert(t.out == fed);
    assert(rA.out =~= fed.skip(n_j as int).take(lane_len as int));
    assert(rA.out =~= lanes[j as int]);
    let lane_step = spec_next_lane(true, m_j, lane_len, pad, j, total);
    if j + 1 == total {
        // the image's last lane: its padding is not skipped
        let r2 = rle_pull(rA.end, 0);
        assert(r2 == ({
            let p = rA.end;
            crate::rle::PullResult { out: Seq::<u8>::empty(), end: p, err: false }
        }));
        assert(lane_step.ok && lane_step.data == lanes[j as int] && lane_step.end == rA.end);
        let rest = spec_read_lanes(true, rA.end, lane_len, pad, (j + 1) as nat, total, 0);
        assert(rest.ok && rest.end == rA.end && rest.lanes_read == j + 1);
        let rl = spec_read_lanes(true, m_j, lane_len, pad, j, total, (total - j) as nat);
        assert((total - j) as nat == 1nat);
        assert(rl.ok && rl.lanes_read == total);
        assert(rl.lanes =~= seq![lanes[j as int]] + Seq::<Seq<u8>>::empty());
        assert(lanes.skip(j as int).len() == 1);
        assert(rl.lanes =~= lanes.skip(j as int));
        assert(rl.end == rA.end);
        assert(rl.end == rle_pull(m0, (n_all - pad) as nat).end);
    } else {
        // skip the padding, then go on with the next lane
        lemma_pull_prefix_full(m0, (n_j + step) as nat, (n_all - n_j - step) as nat);
        lemma_pull_add(m0, (n_j + lane_len) as nat, pad);
        let rB = rle_pull(rA.end, pad);
        assert(!rB.err && rB.out.len() == pad);
        assert(rB.end == rle_pull(m0, (n_j + step) as nat).end);
        assert(lane_step.ok && lane_step.data == lanes[j as int] && lane_step.end == rB.end);
        lemma_read_lanes_back(m0, lanes, lane_len, pad, (j + 1) as nat);
        assert(((j + 1) as nat * step) as nat == (n_j + step) as nat);
        let rest = spec_read_lanes(true, rB.end, lane_len, pad, (j + 1) as nat, total, (total
            - j - 1) as nat);
        assert(rest.ok && rest.lanes == lanes.skip((j + 1) as int) && rest.lanes_read == total);
        let rl = spec_read_lanes(true, m_j, lane_len, pad, j, total, (total - j) as nat);
        assert(rl.ok && rl.lanes_read == total && rl.end == rest.end);
        assert(rl.lanes == seq![lanes[j as int]] + rest.lanes);
        assert(rl.lanes =~= lanes.skip(j as int));
    }
}

/// The lanes of an RGB image, row by row: the red, green and blue channel
/// of each row in turn.
pub open spec fn spec_rgb_lanes(reds: Seq<Seq<u8>>, greens: Seq<Seq<u8>>, blues: Seq<Seq<u8>>)
    -> Seq<Seq<u8>> {
    Seq::new(3 * reds.len(), |i: int| if i % 3 == 0 {
        reds[i / 3]
    } else if i % 3 == 1 {
        greens[i / 3]
    } else {
        blues[i / 3]
    })
}

/// Pixel round trip for RGB images.  The file a finished `WriterRgb`
/// holds -- the header bytes followed by the compressed fed stream --
/// parses back without error to the same size and resolution, and the
/// reader's sequence of lane reads succeeds and hands back exactly the
/// red, green and blue rows that were written.
pub proof fn lemma_rgb_pixel_round_trip(
    reds: Seq<Seq<u8>>,
    greens: Seq<Seq<u8>>,
    blues: Seq<Seq<u8>>,
    size: (u16, u16),
    dpi: (u16, u16),
)
    requires
        1 <= size.0 < 0xFFFF,
        size.1 >= 1,
        reds.len() == size.1,
        greens.len() == size.1,
        blues.len() == size.1,
        forall|i: int| 0 <= i < size.1 ==> (#[trigger] reds[i]).len() == size.0,
        forall|i: int| 0 <= i < size.1 ==> (#[trigger] greens[i]).len() == size.0,
        forall|i: int| 0 <= i < size.1 ==> (#[trigger] blues[i]).len() == size.0,
    ensures
        ({
            let pad = spec_row_pad(size.0);
            let lanes = spec_rgb_lanes(reds, greens, blues);
            let fed = spec_lanes_fed(lanes, spec_zeros(pad));
            let file = spec_header_bytes(false, size, dpi) + spec_compress(fed, size.0 + size.0
                % 2);
            &&& spec_parse_error(file) is None
            &&& spec_width(file) == size.0
            &&& spec_height(file) == size.1
            &&& spec_dpi(file) == dpi
            &&& file[65] == 3 && file[3] == 8
            &&& ({
                let m0 = RleSource { count: 0, value: 0u8, s: file.skip(128) };
                let rl = spec_read_lanes(true, m0, size.0 as nat, pad, 0, (3 * size.1) as nat,
                    (3 * size.1) as nat);
                &&& rl.ok
                &&& rl.lanes == lanes
                &&& forall|i: int| 0 <= i < size.1 ==> rl.lanes[3 * i] == reds[i] && rl.lanes[3
                    * i + 1] == greens[i] && rl.lanes[3 * i + 2] == blues[i]
            })
        }),
{
    let w = size.0;
    let h = size.1;
    let pad = spec_row_pad(w);
    let padseq = spec_zeros(pad);
    let lanes = spec_rgb_lanes(reds, greens, blues);
    let fed = spec_lanes_fed(lanes, padseq);
    let hb = spec_header_bytes(false, size, dpi);
    let comp = spec_compress(fed, w + w % 2);
    let file = hb + comp;
    assert(lanes.len() == 3 * h);
    assert forall|i: int| 0 <= i < lanes.len() implies (#[trigger] lanes[i]).len() == w by {
        assert(0 <= i / 3 < h) by (nonlinear_arith)
            requires 0 <= i, i < 3 * h;
    }
    lemma_header_round_trip(false, size, dpi);
    lemma_parse_prefix(hb, comp);
    lemma_rle_round_trip(fed, w + w % 2);
    lemma_pull_exact(comp, Seq::<u8>::empty(), 0u8);
    let m0 = RleSource { count: 0, value: 0u8, s: file.skip(128) };
    assert(comp + Seq::<u8>::empty() =~= comp);
    assert(file.skip(128) =~= comp);
    assert(m0 == (RleSource { count: 0, value: 0u8, s: comp + Seq::<u8>::empty() }));
    lemma_lanes_fed_len(lanes, padseq, w as nat);
    assert(pad == w % 2 && padseq.len() == pad);
    assert(rle_decode(comp) == fed);
    let n_all = (lanes.len() * (w as nat + pad)) as nat;
    assert(n_all == fed.len());
    assert(rle_pull(m0, n_all).out == fed && !rle_pull(m0, n_all).err && rle_pull(m0,
        n_all).out.len() == n_all);
    lemma_read_lanes_back(m0, lanes, w as nat, pad, 0);
    assert((0nat * (w as nat + pad)) as nat == 0nat) by (nonlinear_arith);
    assert(rle_pull(m0, 0).end == m0);
    assert(lanes.skip(0) =~= lanes);
    let rl = spec_read_lanes(true, m0, w as nat, pad, 0, (3 * h) as nat, (3 * h) as nat);
    assert((lanes.len() - 0) as nat == (3 * h) as nat);
    assert(rl.ok && rl.lanes == lanes);
    assert forall|i: int| 0 <= i < h implies rl.lanes[3 * i] == reds[i] && rl.lanes[3 * i + 1]
        == greens[i] && rl.lanes[3 * i + 2] == blues[i] by {
        assert((3 * i) % 3 == 0 && (3 * i) / 3 == i && (3 * i + 1) % 3 == 1 && (3 * i + 1) / 3
            == i && (3 * i + 2) % 3 == 2 && (3 * i + 2) / 3 == i) by (nonlinear_arith)
            requires 0 <= i;
    }
}

/// Pixel and palette round trip for 256-color paletted images.  The file
/// a `WriterPaletted` hands back from `write_palette` -- header bytes,
/// compressed fed stream, then the palette trailer -- parses back without
/// error to the same size and resolution; the reader's lane reads hand
/// back exactly the index rows that were written; and the stream the
/// reader is then left on ends in the 769-byte trailer, whose marker and
/// palette bytes are exactly what the palette accessor checks and
/// returns.
pub proof fn lemma_paletted_pixel_round_trip(
    rows: Seq<Seq<u8>>,
    palette: Seq<u8>,
    size: (u16, u16),
    dpi: (u16, u16),
)
    requires
        1 <= size.0 < 0xFFFF,
        size.1 >= 1,
        rows.len() == size.1,
        forall|i: int| 0 <= i < size.1 ==> (#[trigger] rows[i]).len() == size.0,
        palette.len() <= 768,
    ensures
        ({
            let pad = spec_row_pad(size.0);
            let fed = spec_lanes_fed(rows, spec_zeros(pad));
            let trailer = seq![crate::PALETTE_START] + palette + spec_zeros((768
                - palette.len()) as nat);
            let file = spec_header_bytes(true, size, dpi) + spec_compress(fed, size.0 + size.0
                % 2) + trailer;
            &&& spec_parse_error(file) is None
            &&& spec_width(file) == size.0
            &&& spec_height(file) == size.1
            &&& spec_dpi(file) == dpi
            &&& file[65] == 1 && file[3] == 8
            &&& ({
                let m0 = RleSource { count: 0, value: 0u8, s: file.skip(128) };
                let rl = spec_read_lanes(true, m0, size.0 as nat, pad, 0, size.1 as nat,
                    size.1 as nat);
                &&& rl.ok
                &&& rl.lanes == rows
                &&& rl.end.s.len() >= 769
                &&& rl.end.s[rl.end.s.len() - 769] == crate::PALETTE_START
                &&& rl.end.s.skip(rl.end.s.len() - 768) == palette + spec_zeros((768
                    - palette.len()) as nat)
            })
        }),
{
    let w = size.0;
    let h = size.1;
    let pad = spec_row_pad(w);
    let padseq = spec_zeros(pad);
    let fed = spec_lanes_fed(rows, padseq);
    let hb = spec_header_bytes(true, size, dpi);
    let comp = spec_compress(fed, w + w % 2);
    let trailer = seq![crate::PALETTE_START] + palette + spec_zeros((768 - palette.len())
        as nat);
    let file = hb + comp + trailer;
    assert(trailer.len() == 769);
    lemma_header_round_trip(true, size, dpi);
    lemma_parse_prefix(hb, comp + trailer);
    assert(hb + (comp + trailer) =~= file);
    lemma_rle_round_trip(fed, w + w % 2);
    lemma_pull_exact(comp, trailer, 0u8);
    let m0 = RleSource { count: 0, value: 0u8, s: file.skip(128) };
    assert(file.skip(128) =~= comp + trailer);
    assert(m0 == (RleSource { count: 0, value: 0u8, s: comp + trailer }));
    lemma_lanes_fed_len(rows, padseq, w as nat);
    assert(pad == w % 2 && padseq.len() == pad);
    assert(rle_decode(comp) == fed);
    let n_all = (rows.len() * (w as nat + pad)) as nat;
    assert(n_all == fed.len());
    let t = rle_pull(m0, n_all);
    assert(t.out == fed && !t.err && t.out.len() == n_all);
    assert(t.end.count == 0 && t.end.s == trailer);
    lemma_read_lanes_back(m0, rows, w as nat, pad, 0);
    assert((0nat * (w as nat + pad)) as nat == 0nat) by (nonlinear_arith);
    assert(rle_pull(m0, 0).end == m0);
    assert(rows.skip(0) =~= rows);
    let rl = spec_read_lanes(true, m0, w as nat, pad, 0, h as nat, h as nat);
    assert((rows.len() - 0) as nat == h as nat);
    assert(rl.ok && rl.lanes == rows);
    // the reader stops `pad` bytes short of the end of the pixel stream;
    // pulling those shows the trailer is what is left at the very end
    let n_short = (n_all - pad) as nat;
    assert(rl.end == rle_pull(m0, n_short).end);
    lemma_pull_prefix_full(m0, n_short, pad);
    assert(n_short + pad == n_all);
    let r2 = rle_pull(rl.end, pad);
    assert(r2.end == t.end);
    lemma_pull_suffix(rl.end, pad);
    let j = choose|j: int| 0 <= j <= rl.end.s.len() && r2.end.s == rl.end.s.skip(j);
    assert(rl.end.s.skip(j) == trailer);
    assert(rl.end.s.len() == j + 769);
    assert(rl.end.s.skip(rl.end.s.len() - 769) == trailer);
    assert(rl.end.s[rl.end.s.len() - 769] == trailer[0]);
    assert(trailer[0] == crate::PALETTE_START);
    assert(rl.end.s.skip(rl.end.s.len() - 768) =~= trailer.skip(1));
    assert(trailer.skip(1) =~= palette + spec_zeros((768 - palette.len()) as nat));
}

} // verus!
