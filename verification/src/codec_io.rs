//! The byte source and byte sink that the compression engine pulls from and
//! pushes to while it works on one block.
//!
//! The engine asks its source for at most `size` bytes at a time and hands
//! its sink each piece of output as it is produced.

use vstd::prelude::*;

verus! {

/// How many bytes a read of `size` gets from a slice of `len` bytes of which
/// `pos` have been handed out: `size`, or what is left if that is less.
pub open spec fn piece_len(len: nat, pos: nat, size: nat) -> nat {
    if size < len - pos {
        size
    } else {
        (len - pos) as nat
    }
}

/// The bytes handed out by a run of reads of the given sizes, started at
/// position `pos` of `src`, and the position after the run.
pub open spec fn slice_read_run(src: Seq<u8>, pos: nat, sizes: Seq<usize>) -> (Seq<u8>, nat)
    decreases sizes.len(),
{
    if sizes.len() == 0 {
        (Seq::empty(), pos)
    } else {
        let (got, p) = slice_read_run(src, pos, sizes.drop_last());
        let n = piece_len(src.len(), p, sizes.last() as nat);
        (got + src.subrange(p as int, (p + n) as int), p + n)
    }
}

/// The sum of a sequence of read sizes.
pub open spec fn total_size(sizes: Seq<usize>) -> nat
    decreases sizes.len(),
{
    if sizes.len() == 0 {
        0
    } else {
        total_size(sizes.drop_last()) + sizes.last() as nat
    }
}

/// A run of reads hands out the slice's bytes in order, from where it
/// started, without gap or repeat: as many as the reads asked for, or all
/// that were left.  So once the sizes add up to what was left, the run has
/// handed out the rest of the slice, and every later read gets nothing.
pub proof fn lemma_slice_reads_deliver_rest(src: Seq<u8>, pos: nat, sizes: Seq<usize>)
    requires
        pos <= src.len(),
    ensures
        ({
            let (got, p) = slice_read_run(src, pos, sizes);
            &&& p == if pos + total_size(sizes) < src.len() {
                pos + total_size(sizes)
            } else {
                src.len()
            }
            &&& got == src.subrange(pos as int, p as int)
        }),
    decreases sizes.len(),
{
    if sizes.len() == 0 {
        assert(src.subrange(pos as int, pos as int) =~= Seq::<u8>::empty());
    } else {
        lemma_slice_reads_deliver_rest(src, pos, sizes.drop_last());
        let (got, p) = slice_read_run(src, pos, sizes.drop_last());
        let n = piece_len(src.len(), p, sizes.last() as nat);
        assert(got + src.subrange(p as int, (p + n) as int) =~= src.subrange(pos as int, (p + n) as int));
    }
}

/// Hands out the bytes of a slice in order, a piece at a time.
pub struct SliceReadState<'a> {
    data: &'a [u8],
    pos: usize,
}

impl<'a> SliceReadState<'a> {
    /// The whole slice being read.
    pub closed spec fn source(&self) -> Seq<u8> {
        self.data@
    }

    /// How many bytes have been handed out so far.
    pub closed spec fn position(&self) -> nat {
        self.pos as nat
    }

    /// No more bytes are handed out than the slice holds.
    pub open spec fn wf(&self) -> bool {
        self.position() <= self.source().len()
    }

    /// A reader at the start of `data`.
    pub fn new(data: &'a [u8]) -> (r: Self)
        ensures
            r.wf(),
            r.source() == data@,
            r.position() == 0,
    {
        SliceReadState { data, pos: 0 }
    }

    /// Hands out the next bytes: as many as `size` asks for, or all that are
    /// left if fewer remain.
    pub fn read_chunk(&mut self, size: usize) -> (chunk: Vec<u8>)
        requires
            old(self).wf(),
        ensures
            final(self).wf(),
            final(self).source() == old(self).source(),
            chunk@.len() == piece_len(
                old(self).source().len(),
                old(self).position(),
                size as nat,
            ),
            chunk@ == old(self).source().subrange(
                old(self).position() as int,
                (old(self).position() + chunk@.len()) as int,
            ),
            final(self).position() == old(self).position() + chunk@.len(),
    {
        let remaining = self.data.len() - self.pos;
        let to_read = if size < remaining {
            size
        } else {
            remaining
        };
        let mut chunk: Vec<u8> = Vec::new();
        let mut i: usize = 0;
        while i < to_read
            invariant
                i <= to_read,
                self.pos + to_read <= self.data.len(),
                chunk@ == self.data@.subrange(self.pos as int, self.pos + i),
            decreases to_read - i,
        {
            chunk.push(self.data[self.pos + i]);
            i = i + 1;
            assert(chunk@ =~= self.data@.subrange(self.pos as int, self.pos + i));
        }
        self.pos = self.pos + to_read;
        chunk
    }
}

/// Collects the pieces of output that the engine produces.
pub struct VecWriteState {
    data: Vec<u8>,
}

impl VecWriteState {
    /// The bytes collected so far.
    pub closed spec fn collected(&self) -> Seq<u8> {
        self.data@
    }

    /// A sink that has collected nothing, with room reserved for `capacity`
    /// bytes.
    pub fn with_capacity(capacity: usize) -> (w: Self)
        ensures
            w.collected() == Seq::<u8>::empty(),
    {
        VecWriteState { data: Vec::with_capacity(capacity) }
    }

    /// Appends a piece of output and reports how many bytes were taken: all
    /// of them.
    pub fn write(&mut self, bytes: &[u8]) -> (n: usize)
        ensures
            final(self).collected() == old(self).collected() + bytes@,
            n == bytes@.len(),
    {
        self.data.extend_from_slice(bytes);
        assert(self.data@ =~= old(self).data@ + bytes@);
        bytes.len()
    }

    /// The outcome of an engine run that returned `code`: the collected
    /// bytes when the code is 0, which means success, else the code.
    pub fn finish(self, code: i32) -> (r: Result<Vec<u8>, i32>)
        ensures
            code == 0 ==> (r matches Ok(v) && v@ == self.collected()),
            code != 0 ==> r == Err::<Vec<u8>, i32>(code),
    {
        if code == 0 {
            Ok(self.data)
        } else {
            Err(code)
        }
    }
}

} // verus!
