use vstd::prelude::*;

verus! {

/// A source of the 512-byte blocks of an archive being read.
pub trait ChunkProvider {
    /// The next block, or `None` when there is none.
    fn get_next_chunk(&mut self) -> Option<[u8; 512]>;
}

/// A provider that hands out blocks held in memory, in order.
pub struct ChunkList {
    pub chunks: Vec<[u8; 512]>,
    pub next: usize,
}

impl ChunkList {
    /// A provider that will hand out `chunks`.
    pub fn new(chunks: Vec<[u8; 512]>) -> (list: ChunkList)
        ensures
            list.chunks == chunks,
            list.next == 0,
    {
        ChunkList { chunks, next: 0 }
    }
}

impl ChunkProvider for ChunkList {
    fn get_next_chunk(&mut self) -> (chunk: Option<[u8; 512]>)
        ensures
            final(self).chunks == old(self).chunks,
            old(self).next < old(self).chunks.len() ==> chunk == Some(old(self).chunks@[old(self).next as int])
                && final(self).next == old(self).next + 1,
            old(self).next >= old(self).chunks.len() ==> chunk is None && final(self).next == old(self).next,
    {
        if self.next < self.chunks.len() {
            let c = self.chunks[self.next];
            self.next = self.next + 1;
            Some(c)
        } else {
            None
        }
    }
}

} // verus!
