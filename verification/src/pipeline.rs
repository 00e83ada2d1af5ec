//! Settings of the compression and decompression pipelines, and the blocks
//! that travel through them.

use vstd::prelude::*;

pub use crate::locator::find_block_offsets;

use crate::framing::{
    concat, fixed_chunks, header_cuts, lemma_reader_cuts_fixed_chunks,
    lemma_scan_output_cut_at_headers, pieces, reader_run, reads_fit, scan_output, ReaderState,
};
use crate::reorder::{
    arrivals_in_order, initial_reorder_state, is_id_permutation, lemma_reorder_restores_order,
    reorder_run,
};

verus! {

/// Settings of a compression run.
#[derive(Debug, Clone)]
pub struct CompressConfig {
    /// ZPAQ method string handed to the engine, such as "1" or "14,128,0".
    pub level: String,
    /// Number of input bytes per block.
    pub block_size: usize,
    /// Worker threads; 0 asks for one per available core.
    pub threads: usize,
}

/// Settings of a decompression run.
#[derive(Debug, Clone)]
pub struct DecompressConfig {
    /// Worker threads; 0 asks for one per available core.
    pub threads: usize,
}

/// A block of uncompressed bytes with its place in the stream.
pub struct RawBlock {
    pub id: usize,
    pub data: Vec<u8>,
}

/// A block of compressed bytes with its place in the stream.
pub struct CompressedBlock {
    pub id: usize,
    pub data: Vec<u8>,
}

/// Thread count used when none was asked for and the machine's
/// parallelism cannot be determined.
pub const FALLBACK_THREADS: usize = 4;

/// The number of worker threads a pipeline runs: the count asked for, or,
/// when 0 was asked for, the machine's available parallelism (`detected`,
/// if it could be determined), else `FALLBACK_THREADS`.
pub open spec fn spec_worker_threads(requested: usize, detected: Option<usize>) -> usize {
    if requested == 0 {
        match detected {
            Some(n) => n,
            None => FALLBACK_THREADS,
        }
    } else {
        requested
    }
}

/// Chooses the number of worker threads of a pipeline.
pub fn worker_threads(requested: usize, detected: Option<usize>) -> (n: usize)
    ensures
        n == spec_worker_threads(requested, detected),
{
    if requested == 0 {
        match detected {
            Some(n) => n,
            None => FALLBACK_THREADS,
        }
    } else {
        requested
    }
}

/// Capacity of the queue of blocks waiting for a worker: two per worker.
pub fn input_queue_capacity(threads: usize) -> (cap: usize)
    requires
        threads * 2 <= usize::MAX,
    ensures
        cap == threads * 2,
{
    threads * 2
}

/// What the writer of a decompression run receives, in order: the engine's
/// output for each block that the scanner cut from the stream.  However the
/// stream was divided into reads, and in whatever order the workers finish
/// (so whatever the number of workers), this is the engine's output for each
/// piece of the stream between consecutive header offsets after the first,
/// in stream order; an empty stream gives nothing.
pub proof fn lemma_decompression_output_order(
    reads: Seq<Seq<u8>>,
    finish_order: Seq<usize>,
    engine: spec_fn(Seq<u8>) -> Vec<u8>,
)
    requires
        concat(reads).len() <= usize::MAX,
        scan_output(reads).len() < usize::MAX,
        is_id_permutation(finish_order, scan_output(reads).len()),
    ensures
        ({
            let input = concat(reads);
            let results = scan_output(reads).map_values(|b: Seq<u8>| engine(b));
            let written = reorder_run(
                initial_reorder_state(),
                arrivals_in_order(results, finish_order),
            ).1;
            &&& input.len() == 0 ==> written == Seq::<Vec<u8>>::empty()
            &&& input.len() > 0 ==> written == pieces(input, 0, header_cuts(input)).map_values(
                |b: Seq<u8>| engine(b),
            )
        }),
{
    lemma_scan_output_cut_at_headers(reads);
    let results = scan_output(reads).map_values(|b: Seq<u8>| engine(b));
    lemma_reorder_restores_order(results, finish_order);
    if concat(reads).len() == 0 {
        assert(results =~= Seq::<Vec<u8>>::empty());
    }
}

/// What the writer of a compression run receives, in order: the engine's
/// output for each block that the reader cut from the input.  However the
/// input arrived in reads (within what each block lacks), and in whatever
/// order the workers finish, this is the engine's output for each
/// consecutive `block_size`-byte chunk of the input, in stream order.
pub proof fn lemma_compression_output_order(
    st: ReaderState,
    reads: Seq<Seq<u8>>,
    finish_order: Seq<usize>,
    engine: spec_fn(Seq<u8>) -> Vec<u8>,
)
    requires
        st.block_size > 0,
        st.current.len() == 0,
        !st.finished,
        reads_fit(st, reads),
        ({
            let eof = Seq::<u8>::empty();
            let blocks = reader_run(st, reads.push(eof).push(eof)).1;
            &&& blocks.len() < usize::MAX
            &&& is_id_permutation(finish_order, blocks.len())
        }),
    ensures
        ({
            let eof = Seq::<u8>::empty();
            let blocks = reader_run(st, reads.push(eof).push(eof)).1;
            let results = blocks.map_values(|b: Seq<u8>| engine(b));
            reorder_run(initial_reorder_state(), arrivals_in_order(results, finish_order)).1
                == fixed_chunks(concat(reads), st.block_size as nat).map_values(
                |b: Seq<u8>| engine(b),
            )
        }),
{
    lemma_reader_cuts_fixed_chunks(st, reads);
    let eof = Seq::<u8>::empty();
    let blocks = reader_run(st, reads.push(eof).push(eof)).1;
    lemma_reorder_restores_order(blocks.map_values(|b: Seq<u8>| engine(b)), finish_order);
}

} // verus!
