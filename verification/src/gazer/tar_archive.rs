use crate::gazer::chunk_consumer::{ChunkConsumer, Recorder};
use crate::gazer::header_laws::lemma_unsealed_len;
use crate::gazer::tar_header::{
    all_zero, header_block, is_chunk_empty, octal_value, unsealed_block, TarFileHeader,
    TarFileHeaderView,
};
use crate::header::FileHeader;
use crate::text::{field_text, lemma_ascii_encoding, lemma_encode_utf8_concat};
use vstd::utf8::encode_utf8;
use vstd::prelude::*;

verus! {

/// How an archive is read: `Gazer` reads `TarFileHeader`s and ends on two
/// zero blocks; `Archive` reads `FileHeader`s and ends on the first zero block.
#[derive(Clone, Copy, PartialEq, Eq, Structural)]
pub enum Dialect {
    Gazer,
    Archive,
}

/// Where an extraction stands between two steps.
#[derive(Clone, Copy, PartialEq, Eq, Structural)]
pub enum UntarState {
    /// Waiting for the next header block (or for the end of the input).
    Header,
    /// One zero block was read; waiting for the second one.
    Trailer,
    /// Waiting to learn whether a directory was created.
    MakingDir,
    /// Waiting to learn whether a file was created; its data follows.
    MakingFile { chunks_left: u128, bytes_left: usize },
    /// Waiting for the next data block of the current file.
    Data { chunks_left: u128, bytes_left: usize },
    /// Waiting to learn whether data was written to the current file.
    Writing { chunks_left: u128, bytes_left: usize },
    /// The extraction is over.
    Done,
}

/// What the caller reports back after doing the last action.
pub enum UntarEvent {
    /// The next 512-byte block of the archive.
    Chunk([u8; 512]),
    /// The archive has no more blocks.
    NoChunk,
    /// Creating or writing succeeded.
    Succeeded,
    /// Creating or writing failed.
    Failed,
}

/// The view of an event.
pub ghost enum UntarEventView {
    Chunk(Seq<u8>),
    NoChunk,
    Succeeded,
    Failed,
}

impl View for UntarEvent {
    type V = UntarEventView;

    open spec fn view(&self) -> UntarEventView {
        match self {
            UntarEvent::Chunk(c) => UntarEventView::Chunk(c@),
            UntarEvent::NoChunk => UntarEventView::NoChunk,
            UntarEvent::Succeeded => UntarEventView::Succeeded,
            UntarEvent::Failed => UntarEventView::Failed,
        }
    }
}

/// What the caller is asked to do next.
pub enum UntarAction {
    /// Read the next block of the archive.
    ReadChunk,
    /// Create a directory at this path.
    CreateDir(String),
    /// Create (or truncate) a file at this path; later writes go to it.
    CreateFile(String),
    /// Write these bytes to the file last created.
    Write(Vec<u8>),
    /// Stop with this result.
    Finish(Result<(), String>),
}

/// The view of an action.
pub ghost enum UntarActionView {
    ReadChunk,
    CreateDir(Seq<char>),
    CreateFile(Seq<char>),
    Write(Seq<u8>),
    Finish(Result<(), Seq<char>>),
}

impl View for UntarAction {
    type V = UntarActionView;

    open spec fn view(&self) -> UntarActionView {
        match self {
            UntarAction::ReadChunk => UntarActionView::ReadChunk,
            UntarAction::CreateDir(p) => UntarActionView::CreateDir(p@),
            UntarAction::CreateFile(p) => UntarActionView::CreateFile(p@),
            UntarAction::Write(b) => UntarActionView::Write(b@),
            UntarAction::Finish(Ok(())) => UntarActionView::Finish(Ok(())),
            UntarAction::Finish(Err(e)) => UntarActionView::Finish(Err(e@)),
        }
    }
}

/// The entry that a header block announces, read the way `dialect` reads
/// headers: its name, type byte and data length; or the message it is
/// refused with.
pub open spec fn announced(dialect: Dialect, block: Seq<u8>) -> Result<(Seq<char>, u8, nat), Seq<char>> {
    let fault = match dialect {
        Dialect::Gazer => crate::gazer::tar_header::header_fault(block),
        Dialect::Archive => crate::header::header_fault(block),
    };
    match fault {
        Some(e) => Err(e),
        None => Ok(
            (
                field_text(block, 345, 500) + field_text(block, 0, 100),
                block[156],
                octal_value(block.subrange(124, 136)),
            ),
        ),
    }
}

/// Number of 512-byte blocks that `size` bytes of data take.
pub open spec fn blocks_for(size: nat) -> nat {
    (size + 511) / 512
}

/// The state after a file's data block is handled: back to headers when no
/// block is left, else waiting for the next data block.
pub open spec fn after_data(chunks_left: u128, bytes_left: usize) -> UntarState {
    if chunks_left == 0 {
        UntarState::Header
    } else {
        UntarState::Data { chunks_left, bytes_left }
    }
}

/// Whether a state is one that an extraction reaches: it never waits for a
/// data block when none is left.
pub open spec fn reachable(state: UntarState) -> bool {
    state matches UntarState::Data { chunks_left, .. } ==> chunks_left > 0
}

/// The events that a state waits for: blocks (or their absence) while reading
/// the archive, outcomes while waiting for a directory, file or write.
pub open spec fn accepts(state: UntarState, event: UntarEventView) -> bool {
    match state {
        UntarState::Header | UntarState::Trailer | UntarState::Data { .. } => event is Chunk
            || event is NoChunk,
        UntarState::MakingDir | UntarState::MakingFile { .. } | UntarState::Writing { .. } => event
            is Succeeded || event is Failed,
        UntarState::Done => false,
    }
}

/// One step of an extraction into `target`: the next state and the action
/// that the caller is to take.
pub open spec fn untar_next(
    target: Seq<char>,
    dialect: Dialect,
    state: UntarState,
    event: UntarEventView,
) -> (UntarState, UntarActionView) {
    let broken = UntarActionView::Finish(Err("archive is broken"@));
    match state {
        UntarState::Header => match event {
            UntarEventView::Chunk(c) => if all_zero(c) {
                if dialect == Dialect::Archive {
                    (UntarState::Done, UntarActionView::Finish(Ok(())))
                } else {
                    (UntarState::Trailer, UntarActionView::ReadChunk)
                }
            } else {
                match announced(dialect, c) {
                    Err(e) => (UntarState::Done, UntarActionView::Finish(Err(e))),
                    Ok((name, tpe, size)) => if tpe == 53 {
                        (UntarState::MakingDir, UntarActionView::CreateDir(target + name))
                    } else {
                        (
                            UntarState::MakingFile {
                                chunks_left: blocks_for(size) as u128,
                                bytes_left: size as usize,
                            },
                            UntarActionView::CreateFile(target + name),
                        )
                    },
                }
            },
            _ => (UntarState::Done, UntarActionView::Finish(Ok(()))),
        },
        UntarState::Trailer => match event {
            UntarEventView::Chunk(c) => if all_zero(c) {
                (UntarState::Done, UntarActionView::Finish(Ok(())))
            } else {
                (UntarState::Done, broken)
            },
            _ => (UntarState::Done, broken),
        },
        UntarState::MakingDir => match event {
            UntarEventView::Succeeded => (UntarState::Header, UntarActionView::ReadChunk),
            _ => (UntarState::Done, UntarActionView::Finish(Err("could not create folder"@))),
        },
        UntarState::MakingFile { chunks_left, bytes_left } => match event {
            UntarEventView::Succeeded => (after_data(chunks_left, bytes_left), UntarActionView::ReadChunk),
            _ => (UntarState::Done, UntarActionView::Finish(Err("creation error"@))),
        },
        UntarState::Data { chunks_left, bytes_left } => match event {
            UntarEventView::Chunk(d) => if bytes_left >= 512 {
                (
                    UntarState::Writing {
                        chunks_left: (chunks_left - 1) as u128,
                        bytes_left: (bytes_left - 512) as usize,
                    },
                    UntarActionView::Write(d),
                )
            } else {
                (
                    UntarState::Writing { chunks_left: (chunks_left - 1) as u128, bytes_left },
                    UntarActionView::Write(d.take(bytes_left as int)),
                )
            },
            _ => (UntarState::Done, broken),
        },
        UntarState::Writing { chunks_left, bytes_left } => match event {
            UntarEventView::Succeeded => (after_data(chunks_left, bytes_left), UntarActionView::ReadChunk),
            _ => (UntarState::Done, UntarActionView::Finish(Err("could not write in file"@))),
        },
        UntarState::Done => (UntarState::Done, UntarActionView::Finish(Ok(()))),
    }
}

/// An extraction of a tar archive into a directory, one step at a time: the
/// caller reads blocks and creates directories and files as it is asked to,
/// and reports back what happened.
pub struct Untar {
    pub target_path: String,
    pub dialect: Dialect,
    pub state: UntarState,
}

/// The entry announced by a header block: name, type, data blocks and data length.
fn read_entry(dialect: Dialect, chunk: &[u8; 512]) -> (entry: Result<(String, u8, u128, usize), String>)
    ensures
        match (entry, announced(dialect, chunk@)) {
            (Ok((name, tpe, count, bytes)), Ok((n, t, size))) => name@ == n && tpe == t && count
                == blocks_for(size) && bytes == size as usize,
            (Err(e), Err(m)) => e@ == m,
            _ => false,
        },
{
    match dialect {
        Dialect::Gazer => match TarFileHeader::from_chunk(chunk) {
            Ok(h) => {
                let count = h.chunk_count();
                Ok((h.name, h.tpe, count, h.size as usize))
            },
            Err(e) => Err(e),
        },
        Dialect::Archive => match FileHeader::from_chunk(chunk) {
            Ok(h) => {
                let count = h.chunk_count();
                Ok((h.name, h.tpe, count as u128, h.size as usize))
            },
            Err(e) => Err(e),
        },
    }
}

/// The first `n` bytes of a block.
fn block_prefix(chunk: &[u8; 512], n: usize) -> (bytes: Vec<u8>)
    requires
        n <= 512,
    ensures
        bytes@ == chunk@.take(n as int),
{
    let mut bytes: Vec<u8> = Vec::new();
    let mut i: usize = 0;
    while i < n
        invariant
            i <= n <= 512,
            bytes@ =~= chunk@.take(i as int),
        decreases n - i,
    {
        bytes.push(chunk[i]);
        i = i + 1;
    }
    bytes
}

impl Untar {
    /// An extraction into `target_path` (a prefix that entry names are appended to).
    pub fn new(target_path: String, dialect: Dialect) -> (untar: Untar)
        ensures
            untar.target_path == target_path,
            untar.dialect == dialect,
            untar.state == UntarState::Header,
    {
        Untar { target_path, dialect, state: UntarState::Header }
    }

    /// Whether the extraction waits for this kind of event now.
    pub fn accepts_event(&self, event: &UntarEvent) -> (ok: bool)
        ensures
            ok == accepts(self.state, event@),
    {
        match self.state {
            UntarState::Header | UntarState::Trailer | UntarState::Data { .. } => match event {
                UntarEvent::Chunk(_) | UntarEvent::NoChunk => true,
                _ => false,
            },
            UntarState::MakingDir | UntarState::MakingFile { .. } | UntarState::Writing { .. } => match event {
                UntarEvent::Succeeded | UntarEvent::Failed => true,
                _ => false,
            },
            UntarState::Done => false,
        }
    }

    /// Takes in what happened after the last action and tells what to do next.
    pub fn step(&mut self, event: UntarEvent) -> (action: UntarAction)
        requires
            reachable(old(self).state),
            accepts(old(self).state, event@),
        ensures
            final(self).target_path == old(self).target_path,
            final(self).dialect == old(self).dialect,
            reachable(final(self).state),
            (final(self).state, action@) == untar_next(
                old(self).target_path@,
                old(self).dialect,
                old(self).state,
                event@,
            ),
    {
        match self.state {
            UntarState::Header => match event {
                UntarEvent::Chunk(c) => {
                    if is_chunk_empty(&c) {
                        match self.dialect {
                            Dialect::Archive => {
                                self.state = UntarState::Done;
                                UntarAction::Finish(Ok(()))
                            },
                            Dialect::Gazer => {
                                self.state = UntarState::Trailer;
                                UntarAction::ReadChunk
                            },
                        }
                    } else {
                        match read_entry(self.dialect, &c) {
                            Err(e) => {
                                self.state = UntarState::Done;
                                UntarAction::Finish(Err(e))
                            },
                            Ok((name, tpe, count, bytes)) => {
                                let path = self.target_path.clone().concat(name.as_str());
                                if tpe == 53 {
                                    self.state = UntarState::MakingDir;
                                    UntarAction::CreateDir(path)
                                } else {
                                    self.state = UntarState::MakingFile { chunks_left: count, bytes_left: bytes };
                                    UntarAction::CreateFile(path)
                                }
                            },
                        }
                    }
                },
                _ => {
                    self.state = UntarState::Done;
                    UntarAction::Finish(Ok(()))
                },
            },
            UntarState::Trailer => {
                self.state = UntarState::Done;
                match event {
                    UntarEvent::Chunk(c) => if is_chunk_empty(&c) {
                        UntarAction::Finish(Ok(()))
                    } else {
                        UntarAction::Finish(Err(String::from_str("archive is broken")))
                    },
                    _ => UntarAction::Finish(Err(String::from_str("archive is broken"))),
                }
            },
            UntarState::MakingDir => match event {
                UntarEvent::Succeeded => {
                    self.state = UntarState::Header;
                    UntarAction::ReadChunk
                },
                _ => {
                    self.state = UntarState::Done;
                    UntarAction::Finish(Err(String::from_str("could not create folder")))
                },
            },
            UntarState::MakingFile { chunks_left, bytes_left } => match event {
                UntarEvent::Succeeded => {
                    self.state = if chunks_left == 0 {
                        UntarState::Header
                    } else {
                        UntarState::Data { chunks_left, bytes_left }
                    };
                    UntarAction::ReadChunk
                },
                _ => {
                    self.state = UntarState::Done;
                    UntarAction::Finish(Err(String::from_str("creation error")))
                },
            },
            UntarState::Data { chunks_left, bytes_left } => match event {
                UntarEvent::Chunk(d) => {
                    if bytes_left >= 512 {
                        self.state = UntarState::Writing {
                            chunks_left: chunks_left - 1,
                            bytes_left: bytes_left - 512,
                        };
                        let all = block_prefix(&d, 512);
                        assert(d@.take(512) =~= d@);
                        UntarAction::Write(all)
                    } else {
                        self.state = UntarState::Writing { chunks_left: chunks_left - 1, bytes_left };
                        UntarAction::Write(block_prefix(&d, bytes_left))
                    }
                },
                _ => {
                    self.state = UntarState::Done;
                    UntarAction::Finish(Err(String::from_str("archive is broken")))
                },
            },
            UntarState::Writing { chunks_left, bytes_left } => match event {
                UntarEvent::Succeeded => {
                    self.state = if chunks_left == 0 {
                        UntarState::Header
                    } else {
                        UntarState::Data { chunks_left, bytes_left }
                    };
                    UntarAction::ReadChunk
                },
                _ => {
                    self.state = UntarState::Done;
                    UntarAction::Finish(Err(String::from_str("could not write in file")))
                },
            },
            UntarState::Done => UntarAction::Finish(Ok(())),
        }
    }
}

/// An item to put into an archive, as read from the file system: a directory
/// with its entries, a file with its length, time and contents, or an item
/// that could not be read (a file that could not be opened, a directory that
/// could not be listed, an entry of a listing that could not be read).
/// A file's contents are read 512 bytes at a time; `failed_read` is `Some(k)`
/// when the read numbered `k` (from 0) failed, and `data` then holds what the
/// reads before it returned.
pub enum TarEntry {
    Dir { name: String, lmt: u128, entries: Vec<TarEntry> },
    File { name: String, size: u128, lmt: u128, data: Vec<u8>, failed_read: Option<u128> },
    Unreadable,
}

/// The header written for a directory.
pub open spec fn dir_header(name: Seq<char>, lmt: u128) -> TarFileHeaderView {
    TarFileHeaderView {
        name,
        mode: "0040777"@,
        owner_id: "0000000"@,
        group_id: "0000000"@,
        size: 0,
        lmt,
        tpe: 53,
        link: Seq::<char>::empty(),
        version: seq![48u8, 48u8],
    }
}

/// The header written for a file.
pub open spec fn file_header(name: Seq<char>, size: u128, lmt: u128) -> TarFileHeaderView {
    TarFileHeaderView {
        name,
        mode: "0100777"@,
        owner_id: "0000000"@,
        group_id: "0000000"@,
        size,
        lmt,
        tpe: 48,
        link: Seq::<char>::empty(),
        version: seq![48u8, 48u8],
    }
}

/// Where the `k`-th read of 512 bytes from `data` starts.
pub open spec fn piece_start(data: Seq<u8>, k: nat) -> int {
    if 512 * k < data.len() {
        (512 * k) as int
    } else {
        data.len() as int
    }
}

/// The bytes that the `k`-th read of at most 512 bytes from `data` returns.
pub open spec fn data_piece(data: Seq<u8>, k: nat) -> Seq<u8> {
    let lo = piece_start(data, k);
    let hi = if lo + 512 < data.len() {
        lo + 512
    } else {
        data.len() as int
    };
    data.subrange(lo, hi)
}

/// The `k`-th data block of a file: the buffer after the `k`-th read, which
/// overwrites the front of the previous block (zeros before the first read).
pub open spec fn data_block(data: Seq<u8>, k: nat) -> Seq<u8>
    decreases k,
{
    let before = if k == 0 {
        Seq::new(512, |i: int| 0u8)
    } else {
        data_block(data, (k - 1) as nat)
    };
    let piece = data_piece(data, k);
    piece + before.subrange(piece.len() as int, 512)
}

/// The first `count` data blocks of a file.
pub open spec fn data_blocks(data: Seq<u8>, count: nat) -> Seq<Seq<u8>> {
    Seq::new(count, |k: int| data_block(data, k as nat))
}

/// How many data blocks are written for a file of `size` bytes whose read
/// numbered `failed_read` fails, if one does: the reads before it.
pub open spec fn file_reads(size: u128, failed_read: Option<u128>) -> nat {
    match failed_read {
        Some(k) if k < blocks_for(size as nat) => k as nat,
        _ => blocks_for(size as nat),
    }
}

/// Whether all the data blocks of such a file are written: no read that it
/// takes fails.
pub open spec fn file_whole(size: u128, failed_read: Option<u128>) -> bool {
    match failed_read {
        Some(k) => k >= blocks_for(size as nat),
        None => true,
    }
}

/// The blocks written for an entry whose path starts with `prefix`, and
/// whether it could be written whole.
pub open spec fn entry_blocks(entry: TarEntry, prefix: Seq<char>) -> (Seq<Seq<u8>>, bool)
    decreases entry,
{
    match entry {
        TarEntry::Unreadable => (Seq::empty(), false),
        TarEntry::File { name, size, lmt, data, failed_read } => (
            seq![header_block(file_header(prefix + name@, size, lmt))] + data_blocks(
                data@,
                file_reads(size, failed_read),
            ),
            file_whole(size, failed_read),
        ),
        TarEntry::Dir { name, lmt, entries } => {
            let dir_name = prefix + name@ + "/"@;
            let (inner, ok) = entries_blocks(entries@, dir_name);
            (seq![header_block(dir_header(dir_name, lmt))] + inner, ok)
        },
    }
}

/// The blocks written for a list of entries, stopping after the first one
/// that cannot be written whole, and whether all were written.
pub open spec fn entries_blocks(entries: Seq<TarEntry>, prefix: Seq<char>) -> (Seq<Seq<u8>>, bool)
    decreases entries,
{
    if entries.len() == 0 {
        (Seq::empty(), true)
    } else {
        let (before, ok) = entries_blocks(entries.drop_last(), prefix);
        if !ok {
            (before, false)
        } else {
            let (last, ok_last) = entry_blocks(entries.last(), prefix);
            (before + last, ok_last)
        }
    }
}

/// Whether every header written for an entry fits in a block.
pub open spec fn entry_fits(entry: TarEntry, prefix: Seq<char>) -> bool
    decreases entry,
{
    match entry {
        TarEntry::Unreadable => true,
        TarEntry::File { name, size, lmt, .. } => unsealed_block(file_header(prefix + name@, size, lmt)).len() <= 512,
        TarEntry::Dir { name, lmt, entries } => {
            let dir_name = prefix + name@ + "/"@;
            unsealed_block(dir_header(dir_name, lmt)).len() <= 512 && entries_fit(entries@, dir_name)
        },
    }
}

/// Whether every header written for a list of entries fits in a block.
pub open spec fn entries_fit(entries: Seq<TarEntry>, prefix: Seq<char>) -> bool
    decreases entries,
{
    entries.len() == 0 || (entries_fit(entries.drop_last(), prefix) && entry_fits(entries.last(), prefix))
}

/// Whether `after` is `before` followed by a first part of `blocks`.
pub open spec fn sent_part_of(before: Seq<Seq<u8>>, after: Seq<Seq<u8>>, blocks: Seq<Seq<u8>>) -> bool {
    before.is_prefix_of(after) && after.is_prefix_of(before + blocks)
}

/// How a step that is meant to hand `blocks` to a consumer ended, `complete`
/// saying whether it can be written whole: from `sent0` and `handed0` (what
/// the consumer took, and what it was given) to `sent1` and `handed1`. Both
/// logs grow by a first part of `blocks`. The step succeeds when all of
/// `blocks` was handed on and taken; it fails when the consumer refused the
/// last block handed to it, or when everything before an unreadable item or
/// a failed read was handed on and taken.
pub open spec fn ends_as(
    ok: bool,
    complete: bool,
    sent0: Seq<Seq<u8>>,
    sent1: Seq<Seq<u8>>,
    handed0: Seq<Seq<u8>>,
    handed1: Seq<Seq<u8>>,
    blocks: Seq<Seq<u8>>,
) -> bool {
    &&& sent_part_of(sent0, sent1, blocks)
    &&& sent_part_of(handed0, handed1, blocks)
    &&& if ok {
        complete && sent1 == sent0 + blocks && handed1 == handed0 + blocks
    } else {
        ||| handed1.len() == handed0.len() + (sent1.len() - sent0.len()) + 1
        ||| !complete && sent1 == sent0 + blocks && handed1 == handed0 + blocks
    }
}

/// The message `mktar` stops with when an item fails to be written.
pub open spec fn failure_message(item: TarEntry) -> Seq<char> {
    if item is Dir {
        "bad dir writing"@
    } else {
        "bad file writing"@
    }
}

proof fn lemma_prefix_trans(a: Seq<Seq<u8>>, b: Seq<Seq<u8>>, c: Seq<Seq<u8>>)
    requires
        a.is_prefix_of(b),
        b.is_prefix_of(c),
    ensures
        a.is_prefix_of(c),
{
    assert(a =~= c.subrange(0, a.len() as int));
}

proof fn lemma_prefix_after(a: Seq<Seq<u8>>, b: Seq<Seq<u8>>, c: Seq<Seq<u8>>)
    requires
        b.is_prefix_of(c),
    ensures
        (a + b).is_prefix_of(a + c),
{
    assert(a + b =~= (a + c).subrange(0, (a + b).len() as int));
}

/// The blocks written for the first `n` entries of a list come first in the
/// blocks written for the whole list.
proof fn lemma_entries_blocks_prefix(entries: Seq<TarEntry>, prefix: Seq<char>, n: int)
    requires
        0 <= n <= entries.len(),
    ensures
        entries_blocks(entries.take(n), prefix).0.is_prefix_of(entries_blocks(entries, prefix).0),
    decreases entries.len(),
{
    if n == entries.len() {
        assert(entries.take(n) =~= entries);
    } else {
        let init = entries.drop_last();
        assert(init.take(n) =~= entries.take(n));
        lemma_entries_blocks_prefix(init, prefix, n);
    }
}

proof fn lemma_entries_fit_each(entries: Seq<TarEntry>, prefix: Seq<char>, i: int)
    requires
        entries_fit(entries, prefix),
        0 <= i < entries.len(),
    ensures
        entry_fits(entries[i], prefix),
    decreases entries.len(),
{
    if i < entries.len() - 1 {
        lemma_entries_fit_each(entries.drop_last(), prefix, i);
    }
}

/// Writes a file's header and then its data, block by block, stopping at
/// the read that failed, if one did.
fn write_file<T: ChunkConsumer>(
    name: &String,
    size: u128,
    lmt: u128,
    data: &Vec<u8>,
    failed_read: Option<u128>,
    prefix: &String,
    consumer: &mut Recorder<T>,
) -> (ok: bool)
    requires
        unsealed_block(file_header(prefix@ + name@, size, lmt)).len() <= 512,
    ensures
        ends_as(
            ok,
            file_whole(size, failed_read),
            old(consumer).sent@,
            final(consumer).sent@,
            old(consumer).handed@,
            final(consumer).handed@,
            seq![header_block(file_header(prefix@ + name@, size, lmt))] + data_blocks(
                data@,
                file_reads(size, failed_read),
            ),
        ),
        final(consumer).ends@ == old(consumer).ends@,
{
    let full_name = prefix.clone().concat(name.as_str());
    let header = TarFileHeader {
        name: full_name,
        mode: String::from_str("0100777"),
        owner_id: String::from_str("0000000"),
        group_id: String::from_str("0000000"),
        size,
        lmt,
        tpe: 48,
        link: String::new(),
        version: [48, 48],
    };
    assert(header.version@ =~= seq![48u8, 48u8]);
    assert(header@ == file_header(prefix@ + name@, size, lmt));
    let ghost start = consumer.sent@;
    let ghost start_h = consumer.handed@;
    let ghost head = seq![header_block(file_header(prefix@ + name@, size, lmt))];
    let ghost reads = file_reads(size, failed_read);
    let ghost all = head + data_blocks(data@, reads);
    let header_chunk = header.to_chunk();
    if consumer.consume_next_chunk(header_chunk).is_err() {
        assert(start =~= (start + all).subrange(0, start.len() as int));
        assert(consumer.handed@ =~= (start_h + all).subrange(0, start_h.len() + 1int));
        assert(start_h =~= consumer.handed@.subrange(0, start_h.len() as int));
        return false;
    }
    assert(consumer.sent@ =~= start + head + data_blocks(data@, 0));
    assert(consumer.handed@ =~= start_h + head + data_blocks(data@, 0));
    let count = header.chunk_count();
    let mut chunk = [0u8; 512];
    let mut k: u128 = 0;
    while k < count
        invariant
            k <= count,
            512 * count >= size,
            512 * count < size + 512,
            count == blocks_for(size as nat),
            consumer.sent@ == start + head + data_blocks(data@, k as nat),
            consumer.handed@ == start_h + head + data_blocks(data@, k as nat),
            consumer.ends@ == old(consumer).ends@,
            failed_read matches Some(f) ==> f >= k,
            reads == file_reads(size, failed_read),
            all == head + data_blocks(data@, reads),
            start == old(consumer).sent@,
            start_h == old(consumer).handed@,
            head == seq![header_block(file_header(prefix@ + name@, size, lmt))],
            chunk@ == if k == 0 {
                Seq::new(512, |i: int| 0u8)
            } else {
                data_block(data@, (k - 1) as nat)
            },
        decreases count - k,
    {
        if let Some(f) = failed_read {
            if f == k {
                assert(reads == k);
                assert(consumer.sent@ =~= start + all);
                assert(consumer.handed@ =~= start_h + all);
                assert(start =~= consumer.sent@.subrange(0, start.len() as int));
                assert(start_h =~= consumer.handed@.subrange(0, start_h.len() as int));
                return false;
            }
        }
        assert(k < reads);
        let ghost before = chunk@;
        let len = data.len();
        let lo: usize = if k * 512 < len as u128 {
            (k * 512) as usize
        } else {
            len
        };
        let rest = len - lo;
        let take: usize = if rest < 512 {
            rest
        } else {
            512
        };
        let ghost piece = data@.subrange(lo as int, lo + take);
        assert(piece == data_piece(data@, k as nat));
        let mut j: usize = 0;
        while j < take
            invariant
                j <= take <= 512,
                lo + take <= data.len(),
                before.len() == 512,
                piece == data@.subrange(lo as int, lo + take),
                chunk@ =~= piece.subrange(0, j as int) + before.subrange(j as int, 512),
            decreases take - j,
        {
            chunk[j] = data[lo + j];
            j = j + 1;
        }
        assert(chunk@ =~= data_block(data@, k as nat));
        assert(data_blocks(data@, (k + 1) as nat) =~= data_blocks(data@, k as nat).push(
            data_block(data@, k as nat),
        ));
        if consumer.consume_next_chunk(chunk).is_err() {
            assert(consumer.sent@ == start + head + data_blocks(data@, k as nat));
            assert(consumer.handed@ =~= start_h + head + data_blocks(data@, (k + 1) as nat));
            assert(data_blocks(data@, k as nat) =~= data_blocks(data@, reads).subrange(0, k as int));
            assert(data_blocks(data@, (k + 1) as nat) =~= data_blocks(data@, reads).subrange(
                0,
                k + 1,
            ));
            assert(consumer.sent@ =~= (start + all).subrange(0, consumer.sent@.len() as int));
            assert(start =~= consumer.sent@.subrange(0, start.len() as int));
            assert(consumer.handed@ =~= (start_h + all).subrange(0, consumer.handed@.len() as int));
            assert(start_h =~= consumer.handed@.subrange(0, start_h.len() as int));
            return false;
        }
        assert(consumer.sent@ =~= start + head + data_blocks(data@, (k + 1) as nat));
        assert(consumer.handed@ =~= start_h + head + data_blocks(data@, (k + 1) as nat));
        k = k + 1;
    }
    assert(reads == count);
    assert(consumer.sent@ =~= start + all);
    assert(consumer.handed@ =~= start_h + all);
    assert(start =~= consumer.sent@.subrange(0, start.len() as int));
    assert(start_h =~= consumer.handed@.subrange(0, start_h.len() as int));
    true
}

/// Writes an entry: a directory's header and then its entries, a file's
/// header and data; an unreadable entry stops the writing.
fn write_entry<T: ChunkConsumer>(entry: &TarEntry, prefix: &String, consumer: &mut Recorder<T>) -> (ok: bool)
    requires
        entry_fits(*entry, prefix@),
    ensures
        ends_as(
            ok,
            entry_blocks(*entry, prefix@).1,
            old(consumer).sent@,
            final(consumer).sent@,
            old(consumer).handed@,
            final(consumer).handed@,
            entry_blocks(*entry, prefix@).0,
        ),
        final(consumer).ends@ == old(consumer).ends@,
    decreases entry,
{
    let ghost start = consumer.sent@;
    let ghost start_h = consumer.handed@;
    match entry {
        TarEntry::Unreadable => {
            assert(start =~= start.subrange(0, start.len() as int));
            assert(start_h =~= start_h.subrange(0, start_h.len() as int));
            assert(start + entry_blocks(*entry, prefix@).0 =~= start);
            assert(start_h + entry_blocks(*entry, prefix@).0 =~= start_h);
            false
        },
        TarEntry::File { name, size, lmt, data, failed_read } => {
            write_file(name, *size, *lmt, data, *failed_read, prefix, consumer)
        },
        TarEntry::Dir { name, lmt, entries } => {
            write_dir(name, *lmt, entries, prefix, consumer)
        },
    }
}

/// Writes a directory's header and then each of its entries.
fn write_dir<T: ChunkConsumer>(
    name: &String,
    lmt: u128,
    entries: &Vec<TarEntry>,
    prefix: &String,
    consumer: &mut Recorder<T>,
) -> (ok: bool)
    requires
        unsealed_block(dir_header(prefix@ + name@ + "/"@, lmt)).len() <= 512,
        entries_fit(entries@, prefix@ + name@ + "/"@),
    ensures
        ends_as(
            ok,
            entries_blocks(entries@, prefix@ + name@ + "/"@).1,
            old(consumer).sent@,
            final(consumer).sent@,
            old(consumer).handed@,
            final(consumer).handed@,
            seq![header_block(dir_header(prefix@ + name@ + "/"@, lmt))] + entries_blocks(
                entries@,
                prefix@ + name@ + "/"@,
            ).0,
        ),
        final(consumer).ends@ == old(consumer).ends@,
    decreases entries,
{
    let dir_name = prefix.clone().concat(name.as_str()).concat("/");
    let header = TarFileHeader {
        name: dir_name.clone(),
        mode: String::from_str("0040777"),
        owner_id: String::from_str("0000000"),
        group_id: String::from_str("0000000"),
        size: 0,
        lmt,
        tpe: 53,
        link: String::new(),
        version: [48, 48],
    };
    assert(header.version@ =~= seq![48u8, 48u8]);
    assert(header@ == dir_header(dir_name@, lmt));
    let ghost start = consumer.sent@;
    let ghost start_h = consumer.handed@;
    let ghost head = seq![header_block(dir_header(dir_name@, lmt))];
    let ghost all = head + entries_blocks(entries@, dir_name@).0;
    let header_chunk = header.to_chunk();
    if consumer.consume_next_chunk(header_chunk).is_err() {
        assert(start =~= (start + all).subrange(0, start.len() as int));
        assert(start =~= start.subrange(0, start.len() as int));
        assert(consumer.handed@ =~= (start_h + all).subrange(0, start_h.len() + 1int));
        assert(start_h =~= consumer.handed@.subrange(0, start_h.len() as int));
        return false;
    }
    assert(entries@.take(0) =~= Seq::<TarEntry>::empty());
    assert(consumer.sent@ =~= start + head + entries_blocks(entries@.take(0), dir_name@).0);
    assert(consumer.handed@ =~= start_h + head + entries_blocks(entries@.take(0), dir_name@).0);
    let mut i: usize = 0;
    while i < entries.len()
        invariant
            i <= entries.len(),
            dir_name@ == prefix@ + name@ + "/"@,
            entries_fit(entries@, dir_name@),
            entries_blocks(entries@.take(i as int), dir_name@).1,
            consumer.sent@ == start + head + entries_blocks(entries@.take(i as int), dir_name@).0,
            consumer.handed@ == start_h + head + entries_blocks(entries@.take(i as int), dir_name@).0,
            start == old(consumer).sent@,
            start_h == old(consumer).handed@,
            consumer.ends@ == old(consumer).ends@,
            head == seq![header_block(dir_header(dir_name@, lmt))],
            all == head + entries_blocks(entries@, dir_name@).0,
        decreases entries.len() - i,
    {
        proof {
            lemma_entries_fit_each(entries@, dir_name@, i as int);
            assert(entries@.take(i + 1).drop_last() =~= entries@.take(i as int));
            assert(entries@.take(i + 1).last() == entries@[i as int]);
        }
        let ghost done_before = entries_blocks(entries@.take(i as int), dir_name@).0;
        if !write_entry(&entries[i], &dir_name, consumer) {
            proof {
                let step = entry_blocks(entries@[i as int], dir_name@).0;
                lemma_entries_blocks_prefix(entries@, dir_name@, i + 1);
                assert(entries_blocks(entries@.take(i + 1), dir_name@).0 =~= done_before + step);
                lemma_part_within(start + head, done_before, step, entries_blocks(entries@, dir_name@).0, consumer.sent@);
                lemma_part_within(start_h + head, done_before, step, entries_blocks(entries@, dir_name@).0, consumer.handed@);
                assert(start + all =~= (start + head) + entries_blocks(entries@, dir_name@).0);
                assert(start_h + all =~= (start_h + head) + entries_blocks(entries@, dir_name@).0);
                assert(start =~= (start + head + done_before).subrange(0, start.len() as int));
                lemma_prefix_trans(start, start + head + done_before, consumer.sent@);
                assert(start_h =~= (start_h + head + done_before).subrange(0, start_h.len() as int));
                lemma_prefix_trans(start_h, start_h + head + done_before, consumer.handed@);
                if !entry_blocks(entries@[i as int], dir_name@).1 {
                    lemma_entries_blocks_stop(entries@, dir_name@, i + 1);
                } else if entries_blocks(entries@, dir_name@).1 {
                    lemma_entries_blocks_prefix_ok(entries@, dir_name@, i + 1);
                }
                if consumer.handed@.len() != start_h.len() + (consumer.sent@.len() - start.len()) + 1 {
                    assert(consumer.sent@ =~= start + all);
                    assert(consumer.handed@ =~= start_h + all);
                }
            }
            return false;
        }
        assert(consumer.sent@ =~= start + head + (done_before + entry_blocks(entries@[i as int], dir_name@).0));
        assert(consumer.handed@ =~= start_h + head + (done_before + entry_blocks(entries@[i as int], dir_name@).0));
        i = i + 1;
    }
    assert(entries@.take(entries@.len() as int) =~= entries@);
    assert(consumer.sent@ =~= start + all);
    assert(consumer.handed@ =~= start_h + all);
    assert(start =~= consumer.sent@.subrange(0, start.len() as int));
    assert(start_h =~= consumer.handed@.subrange(0, start_h.len() as int));
    true
}

/// What a step left in a log stays within the blocks of the whole list: if
/// the log went from `base + done` to a first part of `base + done + step`,
/// and `done + step` comes first in `whole`, the log is a first part of
/// `base + whole`.
proof fn lemma_part_within(
    base: Seq<Seq<u8>>,
    done: Seq<Seq<u8>>,
    step: Seq<Seq<u8>>,
    whole: Seq<Seq<u8>>,
    log: Seq<Seq<u8>>,
)
    requires
        (done + step).is_prefix_of(whole),
        log.is_prefix_of(base + done + step),
    ensures
        log.is_prefix_of(base + whole),
{
    lemma_prefix_after(base, done + step, whole);
    assert(base + done + step =~= base + (done + step));
    lemma_prefix_trans(log, base + (done + step), base + whole);
}

/// Once the entries written so far include one that cannot be written
/// whole, the rest of the list adds nothing.
proof fn lemma_entries_blocks_stop(entries: Seq<TarEntry>, prefix: Seq<char>, n: int)
    requires
        0 <= n <= entries.len(),
        !entries_blocks(entries.take(n), prefix).1,
    ensures
        entries_blocks(entries, prefix) == entries_blocks(entries.take(n), prefix),
    decreases entries.len(),
{
    if n == entries.len() {
        assert(entries.take(n) =~= entries);
    } else {
        let init = entries.drop_last();
        assert(init.take(n) =~= entries.take(n));
        lemma_entries_blocks_stop(init, prefix, n);
    }
}

/// When a list of entries can be written whole, so can each of its prefixes.
proof fn lemma_entries_blocks_prefix_ok(entries: Seq<TarEntry>, prefix: Seq<char>, n: int)
    requires
        entries_blocks(entries, prefix).1,
        0 <= n <= entries.len(),
    ensures
        entries_blocks(entries.take(n), prefix).1,
    decreases entries.len(),
{
    if n < entries.len() {
        assert(entries.drop_last().take(n) =~= entries.take(n));
        lemma_entries_blocks_prefix_ok(entries.drop_last(), prefix, n);
    } else {
        assert(entries.take(n) =~= entries);
    }
}

/// Writes an archive of the given items (paths relative to the archive's
/// root) into `consumer`, then ends it. Each item's blocks are handed on in
/// order; the first item that cannot be written whole, or whose block the
/// consumer refuses, stops the writing with a message naming its kind, and
/// the archive is then not ended. Otherwise the archive is ended once, after
/// the last block, and the result follows the consumer's answer to that.
pub fn mktar<T: ChunkConsumer>(items: Vec<TarEntry>, consumer: &mut Recorder<T>) -> (result: Result<(), String>)
    requires
        entries_fit(items@, Seq::<char>::empty()),
    ensures
        ({
            let (blocks, whole) = entries_blocks(items@, Seq::<char>::empty());
            let sent0 = old(consumer).sent@;
            let sent1 = final(consumer).sent@;
            let handed0 = old(consumer).handed@;
            let handed1 = final(consumer).handed@;
            let ends0 = old(consumer).ends@;
            let ends1 = final(consumer).ends@;
            match result {
                Ok(()) => whole && sent1 == sent0 + blocks && handed1 == handed0 + blocks && ends1
                    == ends0.push((handed1.len(), true)),
                Err(e) => if e@ == "write error"@ {
                    whole && sent1 == sent0 + blocks && handed1 == handed0 + blocks && ends1
                        == ends0.push((handed1.len(), false))
                } else {
                    ends1 == ends0 && exists|i: int|
                        0 <= i < items@.len() && entries_blocks(items@.take(i), Seq::<char>::empty()).1
                            && e@ == failure_message(#[trigger] items@[i]) && ends_as(
                            false,
                            entry_blocks(items@[i], Seq::<char>::empty()).1,
                            sent0 + entries_blocks(items@.take(i), Seq::<char>::empty()).0,
                            sent1,
                            handed0 + entries_blocks(items@.take(i), Seq::<char>::empty()).0,
                            handed1,
                            entry_blocks(items@[i], Seq::<char>::empty()).0,
                        )
                },
            }
        }),
{
    let root = String::new();
    let ghost start = consumer.sent@;
    let ghost start_h = consumer.handed@;
    assert(items@.take(0) =~= Seq::<TarEntry>::empty());
    assert(consumer.sent@ =~= start + entries_blocks(items@.take(0), root@).0);
    assert(consumer.handed@ =~= start_h + entries_blocks(items@.take(0), root@).0);
    let mut i: usize = 0;
    while i < items.len()
        invariant
            i <= items.len(),
            root@ == Seq::<char>::empty(),
            entries_fit(items@, root@),
            entries_blocks(items@.take(i as int), root@).1,
            consumer.sent@ == start + entries_blocks(items@.take(i as int), root@).0,
            consumer.handed@ == start_h + entries_blocks(items@.take(i as int), root@).0,
            consumer.ends@ == old(consumer).ends@,
            start == old(consumer).sent@,
            start_h == old(consumer).handed@,
        decreases items.len() - i,
    {
        proof {
            lemma_entries_fit_each(items@, root@, i as int);
            assert(items@.take(i + 1).drop_last() =~= items@.take(i as int));
            assert(items@.take(i + 1).last() == items@[i as int]);
        }
        let ghost done_before = entries_blocks(items@.take(i as int), root@).0;
        if !write_entry(&items[i], &root, consumer) {
            let message = match items[i] {
                TarEntry::Dir { .. } => String::from_str("bad dir writing"),
                _ => String::from_str("bad file writing"),
            };
            proof {
                reveal_strlit("bad dir writing");
                reveal_strlit("bad file writing");
                reveal_strlit("write error");
                assert(message@ == failure_message(items@[i as int]));
                assert(message@.len() != "write error"@.len());
                assert(ends_as(
                    false,
                    entry_blocks(items@[i as int], root@).1,
                    start + done_before,
                    consumer.sent@,
                    start_h + done_before,
                    consumer.handed@,
                    entry_blocks(items@[i as int], root@).0,
                ));
            }
            return Err(message);
        }
        assert(consumer.sent@ =~= start + (done_before + entry_blocks(items@[i as int], root@).0));
        assert(consumer.handed@ =~= start_h + (done_before + entry_blocks(items@[i as int], root@).0));
        i = i + 1;
    }
    assert(items@.take(items@.len() as int) =~= items@);
    match consumer.done() {
        Ok(()) => Ok(()),
        Err(_) => Err(String::from_str("write error")),
    }
}

proof fn lemma_mode_lens()
    ensures
        encode_utf8("0040777"@).len() == 7,
        encode_utf8("0100777"@).len() == 7,
        encode_utf8("0000000"@).len() == 7,
        encode_utf8("/"@).len() == 1,
{
    reveal_strlit("0040777");
    reveal_strlit("0100777");
    reveal_strlit("0000000");
    reveal_strlit("/");
    lemma_ascii_encoding("0040777"@);
    lemma_ascii_encoding("0100777"@);
    lemma_ascii_encoding("0000000"@);
    lemma_ascii_encoding("/"@);
}

/// The headers this library writes for directories and files fit in a block
/// exactly when their name takes at most 258 bytes.
proof fn lemma_entry_header_fits(name: Seq<char>, size: u128, lmt: u128)
    ensures
        unsealed_block(dir_header(name, lmt)).len() <= 512 <==> encode_utf8(name).len() <= 258,
        unsealed_block(file_header(name, size, lmt)).len() <= 512 <==> encode_utf8(name).len() <= 258,
{
    lemma_mode_lens();
    lemma_unsealed_len(dir_header(name, lmt));
    lemma_unsealed_len(file_header(name, size, lmt));
}

/// Whether every header written for an entry fits in a block; `prefix_len`
/// is the length in bytes of `prefix`.
fn entry_fits_check(entry: &TarEntry, prefix_len: usize, Ghost(prefix): Ghost<Seq<char>>) -> (fits: bool)
    requires
        prefix_len == encode_utf8(prefix).len(),
        prefix_len <= 258,
    ensures
        fits == entry_fits(*entry, prefix),
    decreases entry,
{
    match entry {
        TarEntry::Unreadable => true,
        TarEntry::File { name, size, lmt, .. } => {
            let n = name.as_str().as_bytes().len();
            proof {
                lemma_encode_utf8_concat(prefix, name@);
                lemma_entry_header_fits(prefix + name@, *size, *lmt);
            }
            n <= 258 - prefix_len
        },
        TarEntry::Dir { name, lmt, entries } => {
            let n = name.as_str().as_bytes().len();
            proof {
                lemma_mode_lens();
                lemma_encode_utf8_concat(prefix, name@);
                lemma_encode_utf8_concat(prefix + name@, "/"@);
                lemma_entry_header_fits(prefix + name@ + "/"@, 0, *lmt);
            }
            if n >= 258 - prefix_len {
                false
            } else {
                entries_fit_check(entries, prefix_len + n + 1, Ghost(prefix + name@ + "/"@))
            }
        },
    }
}

/// Whether every header written for a list of entries fits in a block.
fn entries_fit_check(entries: &Vec<TarEntry>, prefix_len: usize, Ghost(prefix): Ghost<Seq<char>>) -> (fits: bool)
    requires
        prefix_len == encode_utf8(prefix).len(),
        prefix_len <= 258,
    ensures
        fits == entries_fit(entries@, prefix),
    decreases entries,
{
    let mut i: usize = 0;
    assert(entries@.take(0).len() == 0);
    while i < entries.len()
        invariant
            i <= entries.len(),
            prefix_len == encode_utf8(prefix).len(),
            prefix_len <= 258,
            entries_fit(entries@.take(i as int), prefix),
        decreases entries.len() - i,
    {
        assert(entries@.take(i + 1).drop_last() =~= entries@.take(i as int));
        assert(entries@.take(i + 1).last() == entries@[i as int]);
        if !entry_fits_check(&entries[i], prefix_len, Ghost(prefix)) {
            proof {
                if entries_fit(entries@, prefix) {
                    lemma_entries_fit_each(entries@, prefix, i as int);
                }
            }
            return false;
        }
        i = i + 1;
    }
    assert(entries@.take(entries@.len() as int) =~= entries@);
    true
}

/// Whether every header that `mktar` would write for these items fits in a
/// block, that is whether no path in them takes more than 258 bytes.
pub fn archive_fits(items: &Vec<TarEntry>) -> (fits: bool)
    ensures
        fits == entries_fit(items@, Seq::<char>::empty()),
{
    assert(encode_utf8(Seq::<char>::empty()).len() == 0);
    entries_fit_check(items, 0, Ghost(Seq::<char>::empty()))
}

} // verus!
