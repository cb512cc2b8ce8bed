//! Cutting an input stream into chunks that end on a line boundary.
use vstd::prelude::*;
use crate::lines::{no_newline, NEWLINE};
use crate::reader::find_last_newline_position;

verus! {

/// What feeding the chunker a read produced.
pub enum ChunkStep {
    /// A chunk that ends with a terminator, to be classified.
    Chunk(Vec<u8>),
    /// The stream is exhausted and nothing is pending.
    Done,
    /// The pending bytes hold no terminator: a record is longer than a
    /// chunk, or the stream does not end with a terminator.
    Fatal,
}

/// Assembles chunks of at most `chunk_size` bytes from successive reads,
/// carrying the incomplete last line of each over to the next.
pub struct Chunker {
    chunk_size: usize,
    carry: Vec<u8>,
}

impl Chunker {
    /// The largest chunk this chunker assembles.
    pub closed spec fn size(&self) -> nat {
        self.chunk_size as nat
    }

    /// The bytes carried over from the previous read.
    pub closed spec fn carry(&self) -> Seq<u8> {
        self.carry@
    }

    /// The carry-over is shorter than a chunk and holds no terminator.
    pub closed spec fn wf(&self) -> bool {
        &&& self.chunk_size > 0
        &&& self.carry@.len() < self.chunk_size
        &&& no_newline(self.carry@)
    }

    /// What well-formedness tells of the carry-over.
    pub proof fn lemma_carry(&self)
        requires
            self.wf(),
        ensures
            no_newline(self.carry()),
            self.carry().len() < self.size(),
    {
    }

    /// A chunker with nothing carried over.
    pub fn new(chunk_size: usize) -> (r: Chunker)
        requires
            chunk_size > 0,
        ensures
            r.wf(),
            r.size() == chunk_size,
            r.carry() == Seq::<u8>::empty(),
    {
        Chunker { chunk_size, carry: Vec::new() }
    }

    /// How many bytes the next read should bring: what fills the chunk up.
    pub fn wanted(&self) -> (r: usize)
        requires
            self.wf(),
        ensures
            r == self.size() - self.carry().len(),
            r >= 1,
    {
        self.chunk_size - self.carry.len()
    }

    /// Appends `read` to the carry-over and cuts the result after its last
    /// terminator: the part before is the next chunk, the part after is
    /// carried over. Nothing read and nothing pending is the end.
    pub fn feed(&mut self, read: &[u8]) -> (r: ChunkStep)
        requires
            old(self).wf(),
            read@.len() <= old(self).size() - old(self).carry().len(),
        ensures
            final(self).size() == old(self).size(),
            ({
                let buf = old(self).carry() + read@;
                match r {
                    ChunkStep::Done => buf.len() == 0 && final(self).wf() && final(self).carry() == buf,
                    ChunkStep::Fatal => buf.len() > 0 && no_newline(buf),
                    ChunkStep::Chunk(c) => {
                        &&& final(self).wf()
                        &&& c@.len() > 0
                        &&& c@.last() == NEWLINE
                        &&& c@ + final(self).carry() == buf
                    },
                }
            }),
    {
        let ghost buf0 = self.carry@ + read@;
        let mut buf: Vec<u8> = Vec::new();
        std::mem::swap(&mut buf, &mut self.carry);
        let mut i: usize = 0;
        while i < read.len()
            invariant
                i <= read@.len(),
                buf@ == old(self).carry() + read@.subrange(0, i as int),
                self.carry@ == Seq::<u8>::empty(),
                self.chunk_size == old(self).chunk_size,
            decreases read@.len() - i,
        {
            buf.push(read[i]);
            i = i + 1;
            assert(buf@ =~= old(self).carry() + read@.subrange(0, i as int));
        }
        assert(read@.subrange(0, i as int) =~= read@);
        if buf.len() == 0 {
            assert(self.carry@ =~= buf0);
            return ChunkStep::Done;
        }
        match find_last_newline_position(buf.as_slice()) {
            Some(p) => {
                let rest = buf.split_off(p);
                self.carry = rest;
                assert(buf@ + self.carry@ =~= buf0);
                assert(buf@.last() == buf0[p - 1]);
                ChunkStep::Chunk(buf)
            },
            None => ChunkStep::Fatal,
        }
    }
}

} // verus!
