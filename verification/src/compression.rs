//! When to compress.
//!
//! Small payloads and payloads that are compressed already stay as they are,
//! and so does everything that compression does not shrink enough.
use vstd::arithmetic::power2::{lemma_pow2_pos, pow2};
use vstd::prelude::*;

use crate::double::{product, times, units, STEP, UNIT_DOUBLINGS};
use crate::order::law_positions_follow_values;
use crate::ratio::{
    count, counted, law_counts_are_exact, law_rounds_no_higher, law_rounds_no_lower, quotient,
    ratio,
};
use crate::reading::{Reading, INFINITE, ONE};

verus! {

/// 0.9
pub const BENEFICIAL_RATIO: u64 = 0x3fec_cccc_cccc_cccd;

/// The level that zstd compresses at.
pub const ZSTD_LEVEL: i32 = 3;

#[derive(Clone, Copy, Debug)]
pub struct CompressionConfig {
    /// From which size on compression is tried.
    pub compression_threshold_bytes: usize,
    /// Compressed data must be smaller than this share of the original.
    pub min_beneficial_ratio: Reading,
}

impl Default for CompressionConfig {
    fn default() -> (r: Self)
        ensures
            r.compression_threshold_bytes == 1024,
            r.min_beneficial_ratio == (Reading { bits: BENEFICIAL_RATIO }),
    {
        CompressionConfig {
            compression_threshold_bytes: 1024,
            min_beneficial_ratio: Reading { bits: BENEFICIAL_RATIO },
        }
    }
}

pub open spec fn starts_with(data: Seq<u8>, prefix: Seq<u8>) -> bool {
    data.len() >= prefix.len() && data.take(prefix.len() as int) == prefix
}

/// Whether the data has the mark of a compressed format: gzip, zstd, zlib
/// without and with compression, zip, jpeg.
pub open spec fn is_compressed(data: Seq<u8>) -> bool {
    &&& data.len() >= 16
    &&& {
        ||| starts_with(data, seq![0x1fu8, 0x8b])
        ||| starts_with(data, seq![0x28u8, 0xb5, 0x2f, 0xfd])
        ||| starts_with(data, seq![0x78u8, 0x01])
        ||| starts_with(data, seq![0x78u8, 0x9c])
        ||| starts_with(data, seq![0x50u8, 0x4b, 0x03, 0x04])
        ||| starts_with(data, seq![0xffu8, 0xd8, 0xff])
    }
}

fn begins_with(data: &[u8], prefix: &[u8]) -> (r: bool)
    ensures
        r == starts_with(data@, prefix@),
{
    if data.len() < prefix.len() {
        return false;
    }
    let mut i: usize = 0;
    while i < prefix.len()
        invariant
            i <= prefix@.len() <= data@.len(),
            forall|j: int| 0 <= j < i ==> data@[j] == prefix@[j],
        decreases prefix@.len() - i,
    {
        if data[i] != prefix[i] {
            assert(data@.take(prefix@.len() as int)[i as int] != prefix@[i as int]);
            return false;
        }
        i = i + 1;
    }
    assert(data@.take(prefix@.len() as int) =~= prefix@);
    true
}

/// Whether the data looks compressed already.
pub fn looks_already_compressed(data: &[u8]) -> (r: bool)
    ensures
        r == is_compressed(data@),
{
    if data.len() < 16 {
        return false;
    }
    let gzip: [u8; 2] = [0x1f, 0x8b];
    let zstd: [u8; 4] = [0x28, 0xb5, 0x2f, 0xfd];
    let zlib_stored: [u8; 2] = [0x78, 0x01];
    let zlib: [u8; 2] = [0x78, 0x9c];
    let zip: [u8; 4] = [0x50, 0x4b, 0x03, 0x04];
    let jpeg: [u8; 3] = [0xff, 0xd8, 0xff];
    assert(gzip@ =~= seq![0x1fu8, 0x8b]);
    assert(zstd@ =~= seq![0x28u8, 0xb5, 0x2f, 0xfd]);
    assert(zlib_stored@ =~= seq![0x78u8, 0x01]);
    assert(zlib@ =~= seq![0x78u8, 0x9c]);
    assert(zip@ =~= seq![0x50u8, 0x4b, 0x03, 0x04]);
    assert(jpeg@ =~= seq![0xffu8, 0xd8, 0xff]);
    begins_with(data, &gzip) || begins_with(data, &zstd) || begins_with(data, &zlib_stored)
        || begins_with(data, &zlib) || begins_with(data, &zip) || begins_with(data, &jpeg)
}

/// Whether compression of the data is worth a try.
pub open spec fn is_eligible(cfg: CompressionConfig, data: Seq<u8>) -> bool {
    data.len() >= cfg.compression_threshold_bytes && !is_compressed(data)
}

pub fn eligible(cfg: &CompressionConfig, data: &[u8]) -> (r: bool)
    ensures
        r == is_eligible(*cfg, data@),
{
    data.len() >= cfg.compression_threshold_bytes && !looks_already_compressed(data)
}

/// What was done with a payload.
#[derive(Debug, PartialEq)]
pub enum CompressionOutcome {
    Raw,
    Zstd(Vec<u8>),
    Brotli(Vec<u8>),
}

pub enum OutcomeView {
    Raw,
    Zstd(Seq<u8>),
    Brotli(Seq<u8>),
}

impl View for CompressionOutcome {
    type V = OutcomeView;

    open spec fn view(&self) -> OutcomeView {
        match *self {
            CompressionOutcome::Raw => OutcomeView::Raw,
            CompressionOutcome::Zstd(c) => OutcomeView::Zstd(c@),
            CompressionOutcome::Brotli(c) => OutcomeView::Brotli(c@),
        }
    }
}

/// What zstd makes of the data at the level, in one block.
pub uninterp spec fn zstd_block(data: Seq<u8>, level: i32) -> Seq<u8>;

/// `zstd::bulk::compress`: the data as one compressed block. What comes out is
/// a function of data and level; whether there is anything is not, since
/// compression needs memory.
#[verifier::external_body]
fn zstd_compress(data: &[u8], level: i32) -> (r: Option<Vec<u8>>)
    ensures
        r is Some ==> r->Some_0@ == zstd_block(data@, level),
{
    zstd::bulk::compress(data, level).ok()
}

/// Whether zstd may have answered so for the data at the level.
pub closed spec fn zstd_answers(data: Seq<u8>, level: i32, answer: Option<Seq<u8>>) -> bool {
    exists|d: &[u8], r: Option<Vec<u8>>|
        d@ == data && crate::views::view_of(r) == answer && #[trigger] call_ensures(
            zstd_compress,
            (d, level),
            r,
        )
}

/// Whether the compressed size is enough below the original one.
pub open spec fn is_beneficial(cfg: CompressionConfig, compressed: nat, original: nat) -> bool {
    counted(compressed as u64).below(
        product(counted(original as u64), cfg.min_beneficial_ratio),
    )
}

/// What becomes of a payload that compression made `compressed` of, if
/// anything.
pub open spec fn outcome_of(
    cfg: CompressionConfig,
    data: Seq<u8>,
    compressed: Option<Seq<u8>>,
) -> OutcomeView {
    match compressed {
        Some(c) => if is_eligible(cfg, data) && is_beneficial(cfg, c.len(), data.len()) {
            OutcomeView::Zstd(c)
        } else {
            OutcomeView::Raw
        },
        None => OutcomeView::Raw,
    }
}

/// Keeps what compression made of the payload only where that pays.
pub fn settle_outcome(cfg: &CompressionConfig, data: &[u8], compressed: Option<Vec<u8>>) -> (r:
    CompressionOutcome)
    ensures
        r@ == outcome_of(*cfg, data@, crate::views::view_of(compressed)),
{
    match compressed {
        Some(c) => {
            if eligible(cfg, data) && count(c.len() as u64) < times(
                count(data.len() as u64),
                cfg.min_beneficial_ratio,
            ) {
                CompressionOutcome::Zstd(c)
            } else {
                CompressionOutcome::Raw
            }
        },
        None => CompressionOutcome::Raw,
    }
}

/// Compresses the data where that pays.
pub fn compress(cfg: &CompressionConfig, data: &[u8]) -> (r: CompressionOutcome)
    ensures
        r@ == OutcomeView::Raw || r@ == outcome_of(
            *cfg,
            data@,
            Some(zstd_block(data@, ZSTD_LEVEL)),
        ),
        !is_eligible(*cfg, data@) ==> r@ == OutcomeView::Raw,
        is_eligible(*cfg, data@) ==> exists|answer: Option<Seq<u8>>|
            #[trigger] zstd_answers(data@, ZSTD_LEVEL, answer) && r@ == outcome_of(
                *cfg,
                data@,
                answer,
            ),
{
    if !eligible(cfg, data) {
        return CompressionOutcome::Raw;
    }
    let compressed = zstd_compress(data, ZSTD_LEVEL);
    assert(call_ensures(zstd_compress, (data, ZSTD_LEVEL), compressed));
    assert(zstd_answers(data@, ZSTD_LEVEL, crate::views::view_of(compressed)));
    settle_outcome(cfg, data, compressed)
}

/// The size before over the size after; one where nothing was done.
pub fn measured_ratio(data_len: usize, outcome: &CompressionOutcome) -> (r: Reading)
    ensures
        r == (match outcome@ {
            OutcomeView::Raw => Reading { bits: ONE },
            OutcomeView::Zstd(c) => if c.len() == 0 {
                Reading { bits: ONE }
            } else {
                quotient(data_len as u64, c.len() as u64)
            },
            OutcomeView::Brotli(c) => if c.len() == 0 {
                Reading { bits: ONE }
            } else {
                quotient(data_len as u64, c.len() as u64)
            },
        }),
{
    match outcome {
        CompressionOutcome::Raw => Reading { bits: ONE },
        CompressionOutcome::Zstd(c) => {
            if c.len() == 0 {
                Reading { bits: ONE }
            } else {
                ratio(data_len as u64, c.len() as u64)
            }
        },
        CompressionOutcome::Brotli(c) => {
            if c.len() == 0 {
                Reading { bits: ONE }
            } else {
                ratio(data_len as u64, c.len() as u64)
            }
        },
    }
}

/// Small payloads, and payloads that are compressed already, stay raw,
/// whatever a compressor makes of them.
pub proof fn law_never_recompressed(
    cfg: CompressionConfig,
    data: Seq<u8>,
    compressed: Option<Seq<u8>>,
)
    requires
        is_compressed(data) || data.len() < cfg.compression_threshold_bytes,
    ensures
        outcome_of(cfg, data, compressed) == OutcomeView::Raw,
{
}

/// Compression is kept exactly where it makes a payload, that is worth a try,
/// smaller than the share of it that is asked for: what is at least one byte
/// below that share is kept, and what reaches it is not.
pub proof fn law_compression_is_kept_where_it_pays(
    cfg: CompressionConfig,
    data: Seq<u8>,
    compressed: Seq<u8>,
)
    requires
        data.len() >= cfg.compression_threshold_bytes,
        !is_compressed(data),
        data.len() < 2 * STEP,
        compressed.len() + 1 < 2 * STEP,
        cfg.min_beneficial_ratio.bits < INFINITE,
    ensures
        ({
            let share = data.len() * cfg.min_beneficial_ratio.value();
            let u = pow2(UNIT_DOUBLINGS as nat);
            &&& (compressed.len() + 1) * u <= share ==> outcome_of(cfg, data, Some(compressed))
                == OutcomeView::Zstd(compressed)
            &&& compressed.len() * u >= share ==> outcome_of(cfg, data, Some(compressed))
                == OutcomeView::Raw
        }),
        outcome_of(cfg, data, None) == OutcomeView::Raw,
{
    let u = pow2(UNIT_DOUBLINGS as nat);
    lemma_pow2_pos(UNIT_DOUBLINGS as nat);
    let (n, c) = (data.len() as u64, compressed.len() as u64);
    let ratio = cfg.min_beneficial_ratio;
    law_counts_are_exact(n);
    law_counts_are_exact(c);
    law_counts_are_exact((c + 1) as u64);
    let r = units(ratio.bits as nat);
    let top: nat = (n * u) as nat * r;
    assert(top == (n * r) * u) by (nonlinear_arith)
        requires
            top == (n * u) * r,
    ;
    if (c + 1) * u <= n * r {
        let next = counted((c + 1) as u64);
        assert(top >= ((c + 1) * u) * u) by (nonlinear_arith)
            requires
                top == (n * r) * u,
                (c + 1) * u <= n * r,
                u > 0,
        ;
        law_rounds_no_lower(top, u, next.bits);
        assert(c * u < (c + 1) * u) by (nonlinear_arith)
            requires
                u > 0,
        ;
        law_positions_follow_values(counted(c), next);
    }
    if c * u >= n * r {
        assert(top <= (c * u) * u) by (nonlinear_arith)
            requires
                top == (n * r) * u,
                c * u >= n * r,
                u > 0,
        ;
        law_rounds_no_higher(top, u, counted(c).bits);
    }
}

/// Payloads from sixteen bytes on that begin with the mark of gzip, zstd,
/// zlib, zip or jpeg are taken to be compressed, and no others.
pub proof fn law_marks_tell_what_is_compressed(data: Seq<u8>)
    ensures
        data.len() < 16 ==> !is_compressed(data),
        data.len() >= 16 ==> (is_compressed(data) <==> {
            ||| data[0] == 0x1f && data[1] == 0x8b
            ||| data[0] == 0x28 && data[1] == 0xb5 && data[2] == 0x2f && data[3] == 0xfd
            ||| data[0] == 0x78 && (data[1] == 0x01 || data[1] == 0x9c)
            ||| data[0] == 0x50 && data[1] == 0x4b && data[2] == 0x03 && data[3] == 0x04
            ||| data[0] == 0xff && data[1] == 0xd8 && data[2] == 0xff
        }),
{
    if data.len() >= 16 {
        let marks = seq![
            seq![0x1fu8, 0x8b],
            seq![0x28u8, 0xb5, 0x2f, 0xfd],
            seq![0x78u8, 0x01],
            seq![0x78u8, 0x9c],
            seq![0x50u8, 0x4b, 0x03, 0x04],
            seq![0xffu8, 0xd8, 0xff],
        ];
        lemma_starts_with(data, marks[0]);
        lemma_starts_with(data, marks[1]);
        lemma_starts_with(data, marks[2]);
        lemma_starts_with(data, marks[3]);
        lemma_starts_with(data, marks[4]);
        lemma_starts_with(data, marks[5]);
    }
}

proof fn lemma_starts_with(data: Seq<u8>, mark: Seq<u8>)
    requires
        mark.len() <= data.len(),
        2 <= mark.len() <= 4,
    ensures
        starts_with(data, mark) <==> data[0] == mark[0] && data[1] == mark[1] && (mark.len() > 2
            ==> data[2] == mark[2]) && (mark.len() > 3 ==> data[3] == mark[3]),
{
    let head = data.take(mark.len() as int);
    if data[0] == mark[0] && data[1] == mark[1] && (mark.len() > 2 ==> data[2] == mark[2]) && (
    mark.len() > 3 ==> data[3] == mark[3]) {
        assert(head =~= mark);
    }
    if starts_with(data, mark) {
        assert(head[0] == data[0] && head[1] == data[1]);
        assert(mark.len() > 2 ==> head[2] == data[2]);
        assert(mark.len() > 3 ==> head[3] == data[3]);
    }
}

/// Compression is tried exactly on payloads that reach the threshold and are
/// not compressed already.
pub proof fn law_only_large_plain_payloads_are_tried(cfg: CompressionConfig, data: Seq<u8>)
    ensures
        is_eligible(cfg, data) <==> data.len() >= cfg.compression_threshold_bytes && !is_compressed(
            data,
        ),
{
}

} // verus!
