use crate::gazer::tar_header::all_zero;
use vstd::prelude::*;

verus! {

/// `std::io::Error`, the error that a consumer reports.
#[verifier::external_type_specification]
#[verifier::external_body]
pub struct ExIoError(std::io::Error);

/// A sink for the 512-byte blocks of an archive being written.
pub trait ChunkConsumer {
    /// Takes the next block.
    fn consume_next_chunk(&mut self, chunk: [u8; 512]) -> Result<(), std::io::Error>;

    /// Ends the archive.
    fn done(&mut self) -> Result<(), std::io::Error>;
}

/// A consumer together with a record of what it was given: the blocks
/// handed to it and the blocks it took without error, in order, and each
/// time it was told that the archive is complete, with how many blocks it
/// had been handed by then and whether it answered without error.
pub struct Recorder<T> {
    pub consumer: T,
    pub sent: Ghost<Seq<Seq<u8>>>,
    pub handed: Ghost<Seq<Seq<u8>>>,
    pub ends: Ghost<Seq<(nat, bool)>>,
}

impl<T: ChunkConsumer> Recorder<T> {
    /// Starts recording what is handed to `consumer`.
    pub fn new(consumer: T) -> (recorder: Recorder<T>)
        ensures
            recorder.consumer == consumer,
            recorder.sent@ == Seq::<Seq<u8>>::empty(),
            recorder.handed@ == Seq::<Seq<u8>>::empty(),
            recorder.ends@ == Seq::<(nat, bool)>::empty(),
    {
        Recorder { consumer, sent: Ghost(Seq::empty()), handed: Ghost(Seq::empty()), ends: Ghost(Seq::empty()) }
    }

    /// Hands a block to the consumer; what the consumer answers is the result.
    pub fn consume_next_chunk(&mut self, chunk: [u8; 512]) -> (result: Result<(), std::io::Error>)
        ensures
            final(self).handed@ == old(self).handed@.push(chunk@),
            result is Ok ==> final(self).sent@ == old(self).sent@.push(chunk@),
            result is Err ==> final(self).sent@ == old(self).sent@,
            final(self).ends@ == old(self).ends@,
    {
        let result = self.consumer.consume_next_chunk(chunk);
        self.handed = Ghost(self.handed@.push(chunk@));
        if result.is_ok() {
            self.sent = Ghost(self.sent@.push(chunk@));
        }
        result
    }

    /// Tells the consumer that the archive is complete; what the consumer
    /// answers is the result.
    pub fn done(&mut self) -> (result: Result<(), std::io::Error>)
        ensures
            final(self).sent@ == old(self).sent@,
            final(self).handed@ == old(self).handed@,
            final(self).ends@ == old(self).ends@.push((old(self).handed@.len(), result is Ok)),
    {
        let result = self.consumer.done();
        self.ends = Ghost(self.ends@.push((self.handed@.len(), result.is_ok())));
        result
    }
}

/// A consumer that keeps the blocks in memory and ends the archive with two
/// zero blocks, as a tar file does.
pub struct ChunkSink {
    pub chunks: Vec<[u8; 512]>,
}

impl ChunkSink {
    /// An empty sink.
    pub fn new() -> (sink: ChunkSink)
        ensures
            sink.chunks@ == Seq::<[u8; 512]>::empty(),
    {
        ChunkSink { chunks: Vec::new() }
    }
}

impl ChunkConsumer for ChunkSink {
    fn consume_next_chunk(&mut self, chunk: [u8; 512]) -> (result: Result<(), std::io::Error>)
        ensures
            result is Ok,
            final(self).chunks@ == old(self).chunks@.push(chunk),
    {
        self.chunks.push(chunk);
        Ok(())
    }

    fn done(&mut self) -> (result: Result<(), std::io::Error>)
        ensures
            result is Ok,
            final(self).chunks@.len() == old(self).chunks@.len() + 2,
            final(self).chunks@.subrange(0, old(self).chunks@.len() as int) == old(self).chunks@,
            all_zero(final(self).chunks@[old(self).chunks@.len() as int]@),
            all_zero(final(self).chunks@[old(self).chunks@.len() + 1int]@),
    {
        let zeros = [0u8; 512];
        self.chunks.push(zeros);
        self.chunks.push(zeros);
        assert(self.chunks@.subrange(0, old(self).chunks@.len() as int) =~= old(self).chunks@);
        Ok(())
    }
}

} // verus!
