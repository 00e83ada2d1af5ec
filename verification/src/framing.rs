//! Cutting byte streams into blocks.
//!
//! `BlockScanner` cuts a compressed ZPAQ stream at its block headers, so
//! that each block can be decompressed on its own; `BlockReader` cuts
//! uncompressed input into blocks of a fixed size.  Both are fed by the
//! caller, who does the reading, and hand back the blocks that are ready.

use vstd::prelude::*;

use crate::locator::{block_offsets, find_block_offsets, is_locator, lemma_offset_iff_locator, lemma_offsets_after_drop, lemma_offsets_after_drop_seq, lemma_offsets_extend, lemma_offsets_sorted, lemma_shift_offsets_sorted, LOCATOR_LEN};
use crate::pipeline::{CompressedBlock, RawBlock};

verus! {

/// Size of the reads with which a compressed stream is fed to a scanner.
pub const SCAN_CHUNK_LEN: usize = 65536;

/// The blocks cut from the front of `buf` and the bytes left over.
///
/// While at least two block headers lie in the buffer, everything before
/// the second one is cut off as a block (whatever precedes the first header
/// goes with the first block); what remains is held back, since its last
/// block may not be complete yet.
pub open spec fn split_blocks(buf: Seq<u8>) -> (Seq<Seq<u8>>, Seq<u8>)
    decreases buf.len(),
{
    let offs = block_offsets(buf);
    if offs.len() >= 2 && 0 < offs[1] <= buf.len() {
        let end = offs[1] as int;
        let (blocks, rest) = split_blocks(buf.skip(end));
        (seq![buf.take(end)] + blocks, rest)
    } else {
        (Seq::empty(), buf)
    }
}

/// The concatenation of a sequence of byte strings.
pub open spec fn concat(parts: Seq<Seq<u8>>) -> Seq<u8>
    decreases parts.len(),
{
    if parts.len() == 0 {
        Seq::empty()
    } else {
        concat(parts.drop_last()) + parts.last()
    }
}

proof fn lemma_concat_prepend(first: Seq<u8>, parts: Seq<Seq<u8>>)
    ensures
        concat(seq![first] + parts) == first + concat(parts),
    decreases parts.len(),
{
    let all = seq![first] + parts;
    if parts.len() == 0 {
        assert(all.drop_last() =~= Seq::<Seq<u8>>::empty());
        assert(all.last() == first);
        assert(concat(all.drop_last()) == Seq::<u8>::empty());
        assert(concat(all) =~= first);
        assert(first + concat(parts) =~= first);
    } else {
        lemma_concat_prepend(first, parts.drop_last());
        assert(all.drop_last() =~= seq![first] + parts.drop_last());
        assert(all.last() == parts.last());
        assert(first + concat(parts.drop_last()) + parts.last() =~= first + (concat(
            parts.drop_last(),
        ) + parts.last()));
    }
}

/// Cutting blocks loses no byte and adds none: the blocks, followed by the
/// bytes held back, are the buffer.  Every block is non-empty, and once a
/// block has been cut off, the bytes held back begin with a block header.
pub proof fn lemma_split_blocks_lossless(buf: Seq<u8>)
    requires
        buf.len() <= usize::MAX,
    ensures
        concat(split_blocks(buf).0) + split_blocks(buf).1 == buf,
        forall|i: int|
            0 <= i < split_blocks(buf).0.len() ==> #[trigger] split_blocks(buf).0[i].len() > 0,
        split_blocks(buf).0.len() > 0 ==> split_blocks(buf).1.len() >= LOCATOR_LEN
            && is_locator(split_blocks(buf).1.take(LOCATOR_LEN as int)),
    decreases buf.len(),
{
    let offs = block_offsets(buf);
    lemma_offsets_sorted(buf);
    if offs.len() >= 2 {
        assert(offs[0] < offs[1]);
        let end = offs[1] as int;
        let tail = buf.skip(end);
        lemma_split_blocks_lossless(tail);
        let (blocks, rest) = split_blocks(tail);
        lemma_concat_prepend(buf.take(end), blocks);
        assert(buf.take(end) + concat(blocks) + rest =~= buf.take(end) + (concat(blocks) + rest));
        assert(buf.take(end) + tail =~= buf);
        let all = seq![buf.take(end)] + blocks;
        assert forall|i: int| 0 <= i < all.len() implies #[trigger] all[i].len() > 0 by {
            if i > 0 {
                assert(all[i] == blocks[i - 1]);
            }
        }
        if blocks.len() == 0 {
            assert(offs.contains(offs[1]));
            lemma_offset_iff_locator(buf, offs[1]);
            assert(tail.take(LOCATOR_LEN as int) =~= buf.subrange(end, end + LOCATOR_LEN));
        }
    } else {
        assert(concat(Seq::<Seq<u8>>::empty()) + buf =~= buf);
    }
}

/// How a stream is divided into reads does not change the blocks cut from
/// it: cutting `a`, then cutting what was held back followed by `b`, gives
/// the same blocks, and holds back the same bytes, as cutting `a + b`.
pub proof fn lemma_split_blocks_incremental(a: Seq<u8>, b: Seq<u8>)
    requires
        a.len() + b.len() <= usize::MAX,
    ensures
        ({
            let (first, held) = split_blocks(a);
            let (second, rest) = split_blocks(held + b);
            split_blocks(a + b) == (first + second, rest)
        }),
    decreases a.len(),
{
    let offs = block_offsets(a);
    lemma_offsets_sorted(a);
    if offs.len() >= 2 {
        assert(offs[0] < offs[1]);
        lemma_offsets_extend(a, b);
        lemma_offsets_sorted(a + b);
        let whole = block_offsets(a + b);
        assert(whole.take(offs.len() as int)[1] == whole[1]);
        assert(whole[1] == offs[1]);
        let e = offs[1] as int;
        assert((a + b).skip(e) =~= a.skip(e) + b);
        assert((a + b).take(e) =~= a.take(e));
        lemma_split_blocks_incremental(a.skip(e), b);
        let (first, held) = split_blocks(a.skip(e));
        let (second, rest) = split_blocks(held + b);
        assert(seq![a.take(e)] + (first + second) =~= (seq![a.take(e)] + first) + second);
    } else {
        let (second, rest) = split_blocks(a + b);
        assert(Seq::<Seq<u8>>::empty() + second =~= second);
    }
}

/// Whether `o` is the offset at which one of `parts` starts in their
/// concatenation.
pub open spec fn is_part_start(parts: Seq<Seq<u8>>, o: int) -> bool {
    exists|i: int| 0 <= i < parts.len() && o == #[trigger] concat(parts.take(i)).len()
}

proof fn lemma_concat_take_first(parts: Seq<Seq<u8>>, i: int)
    requires
        1 <= i <= parts.len(),
    ensures
        concat(parts.take(i)).len() == parts[0].len() + concat(parts.drop_first().take(i - 1)).len(),
{
    assert(parts.take(i) =~= seq![parts[0]] + parts.drop_first().take(i - 1));
    lemma_concat_prepend(parts[0], parts.drop_first().take(i - 1));
}

proof fn lemma_concat_take_len(parts: Seq<Seq<u8>>, i: int)
    requires
        0 <= i <= parts.len(),
    ensures
        concat(parts.take(i)).len() <= concat(parts).len(),
    decreases parts.len(),
{
    if i < parts.len() {
        assert(parts.drop_last().take(i) =~= parts.take(i));
        lemma_concat_take_len(parts.drop_last(), i);
    } else {
        assert(parts.take(i) =~= parts);
    }
}

/// A stream made of blocks that each begin with a header, and hold no other
/// header, is cut back into those blocks: all but the last are handed out,
/// and the last is held back until the stream ends.
pub proof fn lemma_split_recovers_blocks(parts: Seq<Seq<u8>>)
    requires
        parts.len() >= 1,
        forall|i: int| 0 <= i < parts.len() ==> #[trigger] parts[i].len() > 0,
        concat(parts).len() <= usize::MAX,
        forall|o: usize| #[trigger]
            block_offsets(concat(parts)).contains(o) <==> is_part_start(parts, o as int),
    ensures
        split_blocks(concat(parts)) == (parts.drop_last(), parts.last()),
    decreases parts.len(),
{
    let s = concat(parts);
    let p0 = parts[0];
    let rest = parts.drop_first();
    let offs = block_offsets(s);
    lemma_offsets_sorted(s);
    assert(parts =~= seq![p0] + rest);
    lemma_concat_prepend(p0, rest);
    assert(parts.take(0) =~= Seq::<Seq<u8>>::empty());
    assert(concat(parts.take(0)).len() == 0);
    assert(is_part_start(parts, 0));
    assert(offs.contains(0usize));
    let j0 = choose|j: int| 0 <= j < offs.len() && offs[j] == 0usize;
    assert(offs[0] == 0) by {
        if j0 > 0 {
            assert(offs[0] < offs[j0]);
        }
    }
    // every start other than the first lies at or after the end of the first part
    assert forall|o: usize| #[trigger] offs.contains(o) && o != 0 implies o >= p0.len() by {
        let i = choose|i: int| 0 <= i < parts.len() && o == #[trigger] concat(parts.take(i)).len();
        if i == 0 {
            assert(false);
        } else {
            lemma_concat_take_first(parts, i);
        }
    }
    if parts.len() == 1 {
        if offs.len() >= 2 {
            assert(offs.contains(offs[1]));
            assert(offs[1] >= p0.len());
            assert(offs[1] + LOCATOR_LEN <= s.len());
            assert(rest =~= Seq::<Seq<u8>>::empty());
            assert(s =~= p0);
        }
        assert(parts.drop_last() =~= Seq::<Seq<u8>>::empty());
    } else {
        let n0 = p0.len();
        assert(rest.len() >= 1);
        assert(parts.take(1) =~= seq![p0]);
        lemma_concat_prepend(p0, Seq::<Seq<u8>>::empty());
        assert(seq![p0] + Seq::<Seq<u8>>::empty() =~= seq![p0]);
        assert(concat(Seq::<Seq<u8>>::empty()) == Seq::<u8>::empty());
        assert(p0 + Seq::<u8>::empty() =~= p0);
        assert(is_part_start(parts, n0 as int));
        assert(offs.contains(n0 as usize));
        let j1 = choose|j: int| 0 <= j < offs.len() && offs[j] == n0 as usize;
        assert(offs.len() >= 2 && offs[1] == n0) by {
            assert(j1 != 0);
            assert(offs.contains(offs[1]));
            if j1 > 1 {
                assert(offs[1] < offs[j1]);
            }
        }
        assert(s.take(n0 as int) =~= p0);
        assert(s.skip(n0 as int) =~= concat(rest));
        assert forall|i: int| 0 <= i < rest.len() implies #[trigger] rest[i].len() > 0 by {
            assert(rest[i] == parts[i + 1]);
        }
        assert forall|o: usize| #[trigger]
            block_offsets(concat(rest)).contains(o) <==> is_part_start(rest, o as int) by {
            lemma_offsets_sorted(concat(rest));
            if block_offsets(concat(rest)).contains(o) {
                let j = choose|j: int| 0 <= j < block_offsets(concat(rest)).len() && block_offsets(concat(rest))[j] == o;
                assert(o + LOCATOR_LEN <= concat(rest).len());
                lemma_offsets_after_drop(s, n0 as usize, o);
            }
            if is_part_start(rest, o as int) {
                let i = choose|i: int| 0 <= i < rest.len() && o == #[trigger] concat(rest.take(i)).len();
                lemma_concat_take_first(parts, i + 1);
                lemma_concat_take_len(parts, i + 1);
                assert(is_part_start(parts, (o + n0) as int));
                lemma_offsets_after_drop(s, n0 as usize, o);
            }
            if o + n0 <= usize::MAX && offs.contains((o + n0) as usize) {
                lemma_offsets_after_drop(s, n0 as usize, o);
                assert(is_part_start(parts, (o + n0) as int));
                let i = choose|i: int| 0 <= i < parts.len() && (o + n0) == #[trigger] concat(parts.take(i)).len();
                if i == 0 {
                    assert(false);
                } else {
                    lemma_concat_take_first(parts, i);
                }
                assert(is_part_start(rest, o as int));
            }
        }
        lemma_split_recovers_blocks(rest);
        assert(seq![p0] + rest.drop_last() =~= parts.drop_last());
    }
}

/// The pieces of `data` from `start` on, cut at each offset of `cuts` in
/// turn.
pub open spec fn pieces(data: Seq<u8>, start: int, cuts: Seq<usize>) -> Seq<Seq<u8>>
    decreases cuts.len(),
{
    if cuts.len() == 0 {
        seq![data.subrange(start, data.len() as int)]
    } else {
        seq![data.subrange(start, cuts[0] as int)] + pieces(data, cuts[0] as int, cuts.drop_first())
    }
}

/// Where a stream is cut into blocks: at every header offset but the first.
pub open spec fn header_cuts(data: Seq<u8>) -> Seq<usize> {
    let offs = block_offsets(data);
    if offs.len() == 0 {
        Seq::empty()
    } else {
        offs.drop_first()
    }
}

/// The blocks handed out over a whole stream pushed into a scanner at
/// once: those cut off, then what is held back, if anything.
pub open spec fn scanned_blocks(data: Seq<u8>) -> Seq<Seq<u8>> {
    let (cut, rest) = split_blocks(data);
    if rest.len() > 0 {
        cut.push(rest)
    } else {
        cut
    }
}

proof fn lemma_pieces_shift(data: Seq<u8>, e: int, a: int, cuts: Seq<usize>)
    requires
        0 <= e <= a <= data.len(),
        forall|i: int| 0 <= i < cuts.len() ==> a <= #[trigger] cuts[i] <= data.len(),
        forall|i: int, j: int| 0 <= i < j < cuts.len() ==> cuts[i] < cuts[j],
    ensures
        pieces(data.skip(e), a - e, cuts.map_values(|o: usize| (o - e) as usize)) == pieces(
            data,
            a,
            cuts,
        ),
    decreases cuts.len(),
{
    let moved = cuts.map_values(|o: usize| (o - e) as usize);
    if cuts.len() == 0 {
        assert(data.skip(e).subrange(a - e, data.skip(e).len() as int) =~= data.subrange(
            a,
            data.len() as int,
        ));
    } else {
        let c = cuts[0] as int;
        assert(data.skip(e).subrange(a - e, c - e) =~= data.subrange(a, c));
        assert(moved.drop_first() =~= cuts.drop_first().map_values(|o: usize| (o - e) as usize));
        assert forall|i: int| 0 <= i < cuts.drop_first().len() implies c
            <= #[trigger] cuts.drop_first()[i] <= data.len() by {
            assert(cuts[0] < cuts[i + 1]);
        }
        lemma_pieces_shift(data, e, c, cuts.drop_first());
    }
}

/// Pushed as a whole and then finished, a scanner hands out the stream cut
/// at every header offset after the first: the first block runs from the
/// start of the stream to the second header, and each later block from one
/// header to the next, or to the end.
pub proof fn lemma_scanned_blocks_cut_at_headers(data: Seq<u8>)
    requires
        0 < data.len() <= usize::MAX,
    ensures
        scanned_blocks(data) == pieces(data, 0, header_cuts(data)),
    decreases data.len(),
{
    let offs = block_offsets(data);
    lemma_offsets_sorted(data);
    if offs.len() >= 2 {
        assert(offs[0] < offs[1]);
        let e = offs[1];
        let tail = data.skip(e as int);
        let (cut, rest) = split_blocks(tail);
        assert(seq![data.take(e as int)] + cut.push(rest) =~= (seq![data.take(e as int)]
            + cut).push(rest));
        lemma_scanned_blocks_cut_at_headers(tail);
        lemma_offsets_after_drop_seq(data, e);
        assert forall|i: int| 0 <= i < 1 implies #[trigger] offs[i] < e by {}
        assert forall|i: int| 1 <= i < offs.len() implies #[trigger] offs[i] >= e by {
            if i > 1 {
                assert(offs[1] < offs[i]);
            }
        }
        lemma_shift_offsets_sorted(offs, e, 1);
        let later = offs.skip(2);
        assert(offs.skip(1).map_values(|o: usize| (o - e) as usize).drop_first() =~= later.map_values(
            |o: usize| (o - e) as usize,
        ));
        assert(header_cuts(data).drop_first() =~= later);
        assert forall|i: int| 0 <= i < later.len() implies e <= #[trigger] later[i]
            <= data.len() by {
            assert(offs[1] < offs[i + 2]);
            assert(offs[i + 2] + LOCATOR_LEN <= data.len());
        }
        assert forall|i: int, j: int| 0 <= i < j < later.len() implies later[i] < later[j] by {
            assert(offs[i + 2] < offs[j + 2]);
        }
        lemma_pieces_shift(data, e as int, e as int, later);
        assert(data.subrange(0, e as int) =~= data.take(e as int));
        if rest.len() == 0 {
            assert(tail.len() > 0);
        }
    } else {
        assert(data.subrange(0, data.len() as int) =~= data);
        assert(header_cuts(data) =~= Seq::<usize>::empty());
    }
}

/// The blocks cut off during a run of pushes, in order, and the bytes held
/// back after it, for a scanner that started empty.
pub open spec fn scan_run(reads: Seq<Seq<u8>>) -> (Seq<Seq<u8>>, Seq<u8>)
    decreases reads.len(),
{
    if reads.len() == 0 {
        (Seq::empty(), Seq::empty())
    } else {
        let (out, held) = scan_run(reads.drop_last());
        let (cut, rest) = split_blocks(held + reads.last());
        (out + cut, rest)
    }
}

/// Every block handed out over a run of pushes and the final `finish`.
pub open spec fn scan_output(reads: Seq<Seq<u8>>) -> Seq<Seq<u8>> {
    let (out, held) = scan_run(reads);
    if held.len() > 0 {
        out.push(held)
    } else {
        out
    }
}

/// However a stream is divided into reads, pushing them in turn cuts the
/// same blocks and holds back the same bytes as cutting the whole stream.
pub proof fn lemma_scan_run_ignores_read_sizes(reads: Seq<Seq<u8>>)
    requires
        concat(reads).len() <= usize::MAX,
    ensures
        scan_run(reads) == split_blocks(concat(reads)),
    decreases reads.len(),
{
    if reads.len() == 0 {
        assert(block_offsets(Seq::<u8>::empty()) =~= Seq::<usize>::empty());
    } else {
        let prefix = concat(reads.drop_last());
        lemma_scan_run_ignores_read_sizes(reads.drop_last());
        lemma_split_blocks_incremental(prefix, reads.last());
    }
}

/// The blocks a scanner hands out over a whole stream, read in any sizes,
/// are the stream cut at every header offset after the first; an empty
/// stream gives no block.
pub proof fn lemma_scan_output_cut_at_headers(reads: Seq<Seq<u8>>)
    requires
        concat(reads).len() <= usize::MAX,
    ensures
        concat(reads).len() == 0 ==> scan_output(reads) == Seq::<Seq<u8>>::empty(),
        concat(reads).len() > 0 ==> scan_output(reads) == pieces(
            concat(reads),
            0,
            header_cuts(concat(reads)),
        ),
{
    lemma_scan_run_ignores_read_sizes(reads);
    let data = concat(reads);
    if data.len() == 0 {
        assert(block_offsets(data) =~= Seq::<usize>::empty());
    } else {
        lemma_scanned_blocks_cut_at_headers(data);
    }
}

/// Cuts a compressed stream into blocks that begin at block headers.
pub struct BlockScanner {
    buf: Vec<u8>,
    next_id: usize,
}

impl BlockScanner {
    /// The bytes received but not yet handed out in a block.
    pub closed spec fn held(&self) -> Seq<u8> {
        self.buf@
    }

    /// The id that the next block handed out will carry.
    pub closed spec fn next_block_id(&self) -> usize {
        self.next_id
    }

    /// A scanner that has seen nothing yet.
    pub fn new() -> (s: Self)
        ensures
            s.held() == Seq::<u8>::empty(),
            s.next_block_id() == 0,
    {
        BlockScanner { buf: Vec::new(), next_id: 0 }
    }

    /// The id that the next block handed out will carry.
    pub fn next_id(&self) -> (id: usize)
        ensures
            id == self.next_block_id(),
    {
        self.next_id
    }

    /// The number of bytes received but not yet handed out.
    pub fn held_len(&self) -> (n: usize)
        ensures
            n == self.held().len(),
    {
        self.buf.len()
    }

    /// Takes the next bytes of the stream and hands out every block that is
    /// now complete, numbered on from the last one.
    pub fn push(&mut self, bytes: &[u8]) -> (blocks: Vec<CompressedBlock>)
        requires
            old(self).next_block_id() + old(self).held().len() + bytes@.len() <= usize::MAX,
        ensures
            ({
                let (cut, rest) = split_blocks(old(self).held() + bytes@);
                &&& blocks.len() == cut.len()
                &&& forall|i: int|
                    0 <= i < blocks.len() ==> (#[trigger] blocks[i]).id == old(self).next_block_id()
                        + i && blocks[i].data@ == cut[i]
                &&& final(self).held() == rest
                &&& final(self).next_block_id() == old(self).next_block_id() + cut.len()
            }),
    {
        let mut buf: Vec<u8> = Vec::new();
        std::mem::swap(&mut buf, &mut self.buf);
        buf.extend_from_slice(bytes);
        let ghost whole = old(self).held() + bytes@;
        assert(buf@ =~= whole);
        let mut blocks: Vec<CompressedBlock> = Vec::new();
        let ghost mut cut: Seq<Seq<u8>> = Seq::empty();
        loop
            invariant
                split_blocks(whole).0 == cut + split_blocks(buf@).0,
                split_blocks(whole).1 == split_blocks(buf@).1,
                blocks.len() == cut.len(),
                forall|i: int|
                    0 <= i < blocks.len() ==> (#[trigger] blocks[i]).id == old(self).next_block_id()
                        + i && blocks[i].data@ == cut[i],
                old(self).next_block_id() + blocks.len() + buf@.len() <= usize::MAX,
                self.next_id == old(self).next_id,
            ensures
                split_blocks(buf@).0 == Seq::<Seq<u8>>::empty(),
                split_blocks(buf@).1 == buf@,
            decreases buf@.len(),
        {
            let offsets = find_block_offsets(buf.as_slice());
            proof {
                lemma_offsets_sorted(buf@);
            }
            if offsets.len() >= 2 {
                let end = offsets[1];
                assert(offsets@[0] < offsets@[1]);
                let ghost before = buf@;
                let rest = buf.split_off(end);
                let ghost block = buf@;
                assert(block =~= buf@.take(end as int));
                let id = self.next_id + blocks.len();
                proof {
                    assert(before.take(end as int) =~= block);
                    assert(before.skip(end as int) =~= rest@);
                    assert(split_blocks(before).0 =~= seq![block] + split_blocks(rest@).0);
                    assert(cut + (seq![block] + split_blocks(rest@).0) =~= cut.push(block)
                        + split_blocks(rest@).0);
                    cut = cut.push(block);
                }
                blocks.push(CompressedBlock { id, data: buf });
                buf = rest;
            } else {
                break;
            }
        }
        assert(cut + Seq::<Seq<u8>>::empty() =~= cut);
        self.next_id = self.next_id + blocks.len();
        self.buf = buf;
        blocks
    }

    /// Hands out the bytes still held as the last block, if there are any.
    pub fn finish(&mut self) -> (last: Option<CompressedBlock>)
        ensures
            final(self).held() == Seq::<u8>::empty(),
            final(self).next_block_id() == old(self).next_block_id(),
            match last {
                Some(b) => old(self).held().len() > 0 && b.id == old(self).next_block_id()
                    && b.data@ == old(self).held(),
                None => old(self).held().len() == 0,
            },
    {
        let mut buf: Vec<u8> = Vec::new();
        std::mem::swap(&mut buf, &mut self.buf);
        if buf.len() > 0 {
            Some(CompressedBlock { id: self.next_id, data: buf })
        } else {
            None
        }
    }
}

/// The state of a `BlockReader`: the block size, the bytes of the block
/// being filled, the id of that block, and whether the input has ended.
pub struct ReaderState {
    pub block_size: usize,
    pub current: Seq<u8>,
    pub next_id: usize,
    pub finished: bool,
}

/// One read of `bytes` into a `BlockReader` in state `st`: the new state and
/// the block handed out, if any, as its id and bytes.
///
/// An empty read means the end of the input: a partly filled block is handed
/// out as it is, and if nothing was pending the reader is finished.  A
/// non-empty read is added to the block being filled, which is handed out
/// once it holds `block_size` bytes.
pub open spec fn reader_step(st: ReaderState, bytes: Seq<u8>) -> (ReaderState, Option<(usize, Seq<u8>)>) {
    if bytes.len() == 0 {
        if st.current.len() == 0 {
            (
                ReaderState { block_size: st.block_size, current: st.current, next_id: st.next_id, finished: true },
                None,
            )
        } else {
            (
                ReaderState {
                    block_size: st.block_size,
                    current: Seq::empty(),
                    next_id: (st.next_id + 1) as usize,
                    finished: st.finished,
                },
                Some((st.next_id, st.current)),
            )
        }
    } else {
        let joined = st.current + bytes;
        if joined.len() >= st.block_size {
            (
                ReaderState {
                    block_size: st.block_size,
                    current: Seq::empty(),
                    next_id: (st.next_id + 1) as usize,
                    finished: st.finished,
                },
                Some((st.next_id, joined)),
            )
        } else {
            (
                ReaderState { block_size: st.block_size, current: joined, next_id: st.next_id, finished: st.finished },
                None,
            )
        }
    }
}

/// The bytes of the blocks handed out during a run of reads, in order, and
/// the state after the run.
pub open spec fn reader_run(st: ReaderState, reads: Seq<Seq<u8>>) -> (ReaderState, Seq<Seq<u8>>)
    decreases reads.len(),
{
    if reads.len() == 0 {
        (st, Seq::empty())
    } else {
        let (mid, out) = reader_run(st, reads.drop_last());
        let (last, block) = reader_step(mid, reads.last());
        match block {
            Some((_, data)) => (last, out.push(data)),
            None => (last, out),
        }
    }
}

/// The ids of the blocks handed out during a run of reads, in order.
pub open spec fn reader_run_ids(st: ReaderState, reads: Seq<Seq<u8>>) -> Seq<usize>
    decreases reads.len(),
{
    if reads.len() == 0 {
        Seq::empty()
    } else {
        let ids = reader_run_ids(st, reads.drop_last());
        match reader_step(reader_run(st, reads.drop_last()).0, reads.last()).1 {
            Some((id, _)) => ids.push(id),
            None => ids,
        }
    }
}

/// Blocks are numbered in the order they are handed out: over any run of
/// reads, the `k`-th block handed out carries the reader's starting id plus
/// `k`, one id is handed out per block, and afterwards the reader's next id
/// is its starting id plus the number of blocks.
pub proof fn lemma_reader_numbers_blocks(st: ReaderState, reads: Seq<Seq<u8>>)
    requires
        st.next_id + reads.len() <= usize::MAX,
    ensures
        reader_run_ids(st, reads).len() == reader_run(st, reads).1.len(),
        forall|k: int|
            0 <= k < reader_run_ids(st, reads).len() ==> #[trigger] reader_run_ids(st, reads)[k]
                == st.next_id + k,
        reader_run(st, reads).0.next_id == st.next_id + reader_run(st, reads).1.len(),
        reader_run(st, reads).1.len() <= reads.len(),
    decreases reads.len(),
{
    if reads.len() > 0 {
        lemma_reader_numbers_blocks(st, reads.drop_last());
        let ids = reader_run_ids(st, reads.drop_last());
        let (mid, out) = reader_run(st, reads.drop_last());
        match reader_step(mid, reads.last()).1 {
            Some((id, _)) => {
                assert forall|k: int| 0 <= k < ids.push(id).len() implies #[trigger] ids.push(id)[k]
                    == st.next_id + k by {
                    if k < ids.len() {
                        assert(ids.push(id)[k] == ids[k]);
                    }
                }
            },
            None => {},
        }
    }
}

/// Cutting input into blocks loses no byte and adds none: the blocks handed
/// out during any run of reads, followed by the block still being filled,
/// are the bytes that were pending before the run followed by all the bytes
/// read.
pub proof fn lemma_reader_run_lossless(st: ReaderState, reads: Seq<Seq<u8>>)
    ensures
        concat(reader_run(st, reads).1) + reader_run(st, reads).0.current == st.current + concat(
            reads,
        ),
    decreases reads.len(),
{
    if reads.len() == 0 {
        assert(st.current + Seq::<u8>::empty() =~= st.current);
        assert(Seq::<u8>::empty() + st.current =~= st.current);
    } else {
        lemma_reader_run_lossless(st, reads.drop_last());
        let (mid, out) = reader_run(st, reads.drop_last());
        let bytes = reads.last();
        let (last, block) = reader_step(mid, bytes);
        assert(st.current + concat(reads) =~= st.current + concat(reads.drop_last()) + bytes);
        match block {
            Some((_, data)) => {
                assert(out.push(data).drop_last() =~= out);
                if bytes.len() == 0 {
                    assert(data + Seq::<u8>::empty() =~= data);
                    assert(mid.current + bytes =~= mid.current);
                } else {
                    assert(concat(out) + (mid.current + bytes) =~= concat(out) + mid.current + bytes);
                }
                assert(concat(out.push(data)) + last.current =~= concat(out) + data);
            },
            None => {
                if bytes.len() == 0 {
                    assert(mid.current + bytes =~= mid.current);
                } else {
                    assert(concat(out) + (mid.current + bytes) =~= concat(out) + mid.current + bytes);
                }
            },
        }
    }
}

/// When no read delivers more than the block being filled still lacks,
/// every block handed out is non-empty and at most `block_size` long, and a
/// block completed by a non-empty read is exactly `block_size` long.
pub proof fn lemma_reader_block_sizes(st: ReaderState, bytes: Seq<u8>)
    requires
        st.current.len() + bytes.len() <= st.block_size,
    ensures
        match reader_step(st, bytes).1 {
            Some((_, data)) => 0 < data.len() <= st.block_size && (bytes.len() > 0 ==> data.len()
                == st.block_size),
            None => true,
        },
{
}

/// `data` cut into consecutive chunks of `size` bytes; the last chunk may
/// be shorter.
pub open spec fn fixed_chunks(data: Seq<u8>, size: nat) -> Seq<Seq<u8>>
    decreases data.len(),
{
    if data.len() == 0 || size == 0 {
        Seq::empty()
    } else if data.len() <= size {
        seq![data]
    } else {
        seq![data.take(size as int)] + fixed_chunks(data.skip(size as int), size)
    }
}

/// Whether each read of a run, started in state `st`, delivers at least one
/// byte and no more than the block being filled still lacks.
pub open spec fn reads_fit(st: ReaderState, reads: Seq<Seq<u8>>) -> bool
    decreases reads.len(),
{
    reads.len() == 0 || {
        &&& reads_fit(st, reads.drop_last())
        &&& reads.last().len() > 0
        &&& reader_run(st, reads.drop_last()).0.current.len() + reads.last().len()
            <= st.block_size
    }
}

proof fn lemma_fitting_run(st: ReaderState, reads: Seq<Seq<u8>>)
    requires
        st.current.len() < st.block_size,
        reads_fit(st, reads),
    ensures
        reader_run(st, reads).0.block_size == st.block_size,
        reader_run(st, reads).0.current.len() < st.block_size,
        forall|i: int|
            0 <= i < reader_run(st, reads).1.len() ==> #[trigger] reader_run(st, reads).1[i].len()
                == st.block_size,
    decreases reads.len(),
{
    if reads.len() > 0 {
        lemma_fitting_run(st, reads.drop_last());
        let (mid, out) = reader_run(st, reads.drop_last());
        lemma_reader_block_sizes(mid, reads.last());
        let (last, block) = reader_step(mid, reads.last());
        if let Some((_, data)) = block {
            assert forall|i: int| 0 <= i < out.push(data).len() implies #[trigger] out.push(
                data,
            )[i].len() == st.block_size by {
                if i < out.len() {
                    assert(out.push(data)[i] == out[i]);
                }
            }
        }
    }
}

proof fn lemma_fixed_chunks_of_blocks(blocks: Seq<Seq<u8>>, rem: Seq<u8>, size: nat)
    requires
        size > 0,
        forall|i: int| 0 <= i < blocks.len() ==> #[trigger] blocks[i].len() == size,
        rem.len() < size,
    ensures
        fixed_chunks(concat(blocks) + rem, size) == (if rem.len() > 0 {
            blocks.push(rem)
        } else {
            blocks
        }),
    decreases blocks.len(),
{
    let data = concat(blocks) + rem;
    if blocks.len() == 0 {
        assert(data =~= rem);
        if rem.len() > 0 {
            assert(blocks.push(rem) =~= seq![rem]);
        }
    } else {
        let b0 = blocks[0];
        let rest = blocks.drop_first();
        assert(blocks =~= seq![b0] + rest);
        lemma_concat_prepend(b0, rest);
        assert(data =~= b0 + (concat(rest) + rem));
        assert forall|i: int| 0 <= i < rest.len() implies #[trigger] rest[i].len() == size by {
            assert(rest[i] == blocks[i + 1]);
        }
        lemma_fixed_chunks_of_blocks(rest, rem, size);
        if rest.len() == 0 && rem.len() == 0 {
            assert(concat(rest) + rem =~= Seq::<u8>::empty());
            assert(data =~= b0);
        } else {
            if rest.len() > 0 {
                assert(concat(rest).len() >= rest.last().len());
            }
            assert(data.take(size as int) =~= b0);
            assert(data.skip(size as int) =~= concat(rest) + rem);
            if rem.len() > 0 {
                assert(seq![b0] + rest.push(rem) =~= blocks.push(rem));
            }
        }
    }
}

/// A reader for blocks of `block_size > 0` bytes, fed reads of any sizes
/// that stay within what its block lacks, then the end of the input twice,
/// hands out the input cut into consecutive `block_size`-byte chunks (the
/// last possibly shorter), and is then finished.
pub proof fn lemma_reader_cuts_fixed_chunks(st: ReaderState, reads: Seq<Seq<u8>>)
    requires
        st.block_size > 0,
        st.current.len() == 0,
        !st.finished,
        reads_fit(st, reads),
    ensures
        ({
            let eof = Seq::<u8>::empty();
            let (fin, out) = reader_run(st, reads.push(eof).push(eof));
            &&& out == fixed_chunks(concat(reads), st.block_size as nat)
            &&& fin.finished
        }),
{
    let eof = Seq::<u8>::empty();
    lemma_fitting_run(st, reads);
    lemma_reader_run_lossless(st, reads);
    let (mid, out) = reader_run(st, reads);
    assert(st.current + concat(reads) =~= concat(reads));
    lemma_fixed_chunks_of_blocks(out, mid.current, st.block_size as nat);
    assert(reads.push(eof).drop_last() =~= reads);
    assert(reads.push(eof).push(eof).drop_last() =~= reads.push(eof));
    assert(reads.push(eof).last() == eof);
    assert(reads.push(eof).push(eof).last() == eof);
    let (one, out1) = reader_run(st, reads.push(eof));
    let (two, out2) = reader_run(st, reads.push(eof).push(eof));
    if mid.current.len() > 0 {
        assert(out1 == out.push(mid.current));
    } else {
        assert(out1 == out);
    }
    assert(one.current.len() == 0);
    assert(out2 == out1);
    assert(mid.current.len() > 0 ==> concat(out) + mid.current == concat(reads));
    assert(mid.current.len() == 0 ==> concat(out) + mid.current =~= concat(out));
}

/// Cuts uncompressed input into blocks of `block_size` bytes; the last block
/// before the end of the input may be shorter.
pub struct BlockReader {
    block_size: usize,
    current: Vec<u8>,
    next_id: usize,
    finished: bool,
}

impl View for BlockReader {
    type V = ReaderState;

    closed spec fn view(&self) -> ReaderState {
        ReaderState {
            block_size: self.block_size,
            current: self.current@,
            next_id: self.next_id,
            finished: self.finished,
        }
    }
}

impl BlockReader {
    /// The block being filled is never full, and is empty once the reader
    /// has finished.
    pub open spec fn wf(&self) -> bool {
        &&& !self@.finished ==> self@.current.len() < self@.block_size
        &&& self@.finished ==> self@.current.len() == 0
    }

    /// A reader for blocks of `block_size` bytes.  With a block size of 0 no
    /// byte is ever read: the reader starts out finished.
    pub fn new(block_size: usize) -> (r: Self)
        ensures
            r.wf(),
            r@ == (ReaderState {
                block_size,
                current: Seq::empty(),
                next_id: 0,
                finished: block_size == 0,
            }),
    {
        BlockReader { block_size, current: Vec::new(), next_id: 0, finished: block_size == 0 }
    }

    /// Whether the input has ended and every block has been handed out.
    pub fn is_finished(&self) -> (b: bool)
        ensures
            b == self@.finished,
    {
        self.finished
    }

    /// The id that the next block handed out will carry.
    pub fn next_id(&self) -> (id: usize)
        ensures
            id == self@.next_id,
    {
        self.next_id
    }

    /// How many bytes the next read may deliver: what the block being filled
    /// still lacks.
    pub fn room(&self) -> (n: usize)
        requires
            self.wf(),
            !self@.finished,
        ensures
            n == self@.block_size - self@.current.len(),
            n > 0,
    {
        self.block_size - self.current.len()
    }

    /// Takes the bytes of one read, empty at the end of the input, and hands
    /// out the block that this completes, if any.
    pub fn on_read(&mut self, bytes: &[u8]) -> (block: Option<RawBlock>)
        requires
            old(self).wf(),
            !old(self)@.finished,
            bytes@.len() <= old(self)@.block_size - old(self)@.current.len(),
            old(self)@.next_id < usize::MAX,
        ensures
            final(self).wf(),
            final(self)@ == reader_step(old(self)@, bytes@).0,
            match (block, reader_step(old(self)@, bytes@).1) {
                (Some(b), Some((id, data))) => b.id == id && b.data@ == data,
                (None, None) => true,
                _ => false,
            },
    {
        if bytes.len() == 0 {
            if self.current.len() == 0 {
                self.finished = true;
                None
            } else {
                let mut data: Vec<u8> = Vec::new();
                std::mem::swap(&mut data, &mut self.current);
                let id = self.next_id;
                self.next_id = self.next_id + 1;
                Some(RawBlock { id, data })
            }
        } else {
            self.current.extend_from_slice(bytes);
            assert(self.current@ =~= old(self).current@ + bytes@);
            if self.current.len() >= self.block_size {
                let mut data: Vec<u8> = Vec::new();
                std::mem::swap(&mut data, &mut self.current);
                let id = self.next_id;
                self.next_id = self.next_id + 1;
                Some(RawBlock { id, data })
            } else {
                None
            }
        }
    }
}

} // verus!
