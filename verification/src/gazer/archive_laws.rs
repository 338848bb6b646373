use crate::gazer::header_laws::{
    fits_layout, lemma_header_layout, lemma_header_round_trip, lemma_zero_field_text, nul_less, zero_from,
};
use crate::gazer::tar_archive::{
    announced, entries_fit, entry_fits, after_data, blocks_for, data_block, data_blocks, data_piece, dir_header, entries_blocks,
    entry_blocks, file_header, untar_next, Dialect, TarEntry, UntarActionView, UntarEventView,
    UntarState,
};
use crate::gazer::tar_header::{
    all_zero, describes, describes_entry, header_block, octal_value, pow8, unsealed_block, ustar_bytes,
    TarFileHeaderView,
};
use crate::text::{is_text_field, lemma_ascii_encoding};
use vstd::prelude::*;
use vstd::utf8::encode_utf8;

verus! {

/// Whether an extraction waits for the outcome of a creation or a write.
pub open spec fn is_waiting(state: UntarState) -> bool {
    state is MakingDir || state is MakingFile || state is Writing
}

/// What an extraction into `target`, starting in `state`, asks for when the
/// archive provides `blocks` and every creation and write succeeds: the
/// directories, files and writes in order (reads left out), and the result.
pub open spec fn extraction(
    target: Seq<char>,
    dialect: Dialect,
    state: UntarState,
    blocks: Seq<Seq<u8>>,
) -> (Seq<UntarActionView>, Result<(), Seq<char>>)
    decreases blocks.len(), if is_waiting(state) {
        1nat
    } else {
        0nat
    },
{
    if is_waiting(state) {
        let (next, action) = untar_next(target, dialect, state, UntarEventView::Succeeded);
        if is_waiting(next) {
            (seq![], Ok(()))
        } else {
            extraction(target, dialect, next, blocks)
        }
    } else if state is Done {
        (seq![], Ok(()))
    } else if blocks.len() == 0 {
        match untar_next(target, dialect, state, UntarEventView::NoChunk).1 {
            UntarActionView::Finish(r) => (seq![], r),
            _ => (seq![], Ok(())),
        }
    } else {
        let (next, action) = untar_next(target, dialect, state, UntarEventView::Chunk(blocks[0]));
        match action {
            UntarActionView::Finish(r) => (seq![], r),
            UntarActionView::ReadChunk => extraction(target, dialect, next, blocks.drop_first()),
            _ => {
                let (rest, r) = extraction(target, dialect, next, blocks.drop_first());
                (seq![action] + rest, r)
            },
        }
    }
}

/// The writes of a file's data: the `k`-th writes the `k`-th piece of at
/// most 512 bytes.
pub open spec fn data_writes(data: Seq<u8>, count: nat) -> Seq<UntarActionView> {
    Seq::new(count, |k: int| UntarActionView::Write(data_piece(data, k as nat)))
}

/// A block of 512 zero bytes.
pub open spec fn zero_chunk() -> Seq<u8> {
    Seq::new(512, |i: int| 0u8)
}

proof fn lemma_data_block_len(data: Seq<u8>, k: nat)
    ensures
        data_block(data, k).len() == 512,
        data_piece(data, k).len() <= 512,
    decreases k,
{
    if k > 0 {
        lemma_data_block_len(data, (k - 1) as nat);
    }
}

/// Reading a file's data blocks, the first `k` of them done: each block
/// leads to one write of the file's next piece, then headers are read again.
proof fn lemma_extract_data(
    target: Seq<char>,
    dialect: Dialect,
    data: Seq<u8>,
    size: u128,
    k: nat,
    rest: Seq<Seq<u8>>,
)
    requires
        data.len() == size,
        size < pow8(10),
        k <= blocks_for(size as nat),
    ensures
        ({
            let count = blocks_for(size as nat);
            let after = extraction(target, dialect, UntarState::Header, rest);
            extraction(
                target,
                dialect,
                after_data((count - k) as u128, (size - 512 * k) as usize),
                data_blocks(data, count).subrange(k as int, count as int) + rest,
            ) == (data_writes(data, count).subrange(k as int, count as int) + after.0, after.1)
        }),
    decreases blocks_for(size as nat) - k,
{
    let count = blocks_for(size as nat);
    let after = extraction(target, dialect, UntarState::Header, rest);
    reveal_with_fuel(pow8, 11);
    if k == count {
        assert(data_blocks(data, count).subrange(k as int, count as int) + rest =~= rest);
        assert(data_writes(data, count).subrange(k as int, count as int) + after.0 =~= after.0);
    } else {
        let j = (count - k) as u128;
        let b = (size - 512 * k) as usize;
        let blocks = data_blocks(data, count).subrange(k as int, count as int) + rest;
        let block = data_block(data, k);
        assert(blocks[0] == block);
        assert(512 * k < size);
        let piece = data_piece(data, k);
        lemma_data_block_len(data, k);
        if k > 0 {
            lemma_data_block_len(data, (k - 1) as nat);
        }
        if b >= 512 {
            assert(piece.len() == 512);
            assert(block =~= piece);
        } else {
            assert(block.take(b as int) =~= piece);
        }
        let (next, action) = untar_next(target, dialect, UntarState::Data { chunks_left: j, bytes_left: b }, UntarEventView::Chunk(block));
        assert(action == UntarActionView::Write(piece));
        lemma_extract_data(target, dialect, data, size, k + 1, rest);
        assert(blocks.drop_first() =~= data_blocks(data, count).subrange(k + 1int, count as int) + rest);
        let (after_write, _) = untar_next(target, dialect, next, UntarEventView::Succeeded);
        assert(after_write == after_data((count - (k + 1)) as u128, (size - 512 * (k + 1)) as usize));
        assert(is_waiting(next));
        assert(extraction(target, dialect, next, blocks.drop_first()) == extraction(
            target,
            dialect,
            after_write,
            blocks.drop_first(),
        ));
        let state = after_data(j, b);
        assert(state == UntarState::Data { chunks_left: j, bytes_left: b });
        let tail = extraction(target, dialect, next, blocks.drop_first());
        assert(extraction(target, dialect, state, blocks) == (seq![UntarActionView::Write(piece)] + tail.0, tail.1));
        assert(data_writes(data, count).subrange(k as int, count as int) + after.0 =~= seq![
            UntarActionView::Write(piece),
        ] + (data_writes(data, count).subrange(k + 1int, count as int) + after.0));
    }
}

/// What an extraction into `target` asks for when it reads the blocks written
/// for an entry: create the directory or file, write the file's data, then
/// the same for the directory's entries.
pub open spec fn entry_effects(target: Seq<char>, entry: TarEntry, prefix: Seq<char>) -> Seq<UntarActionView>
    decreases entry,
{
    match entry {
        TarEntry::Unreadable => Seq::empty(),
        TarEntry::File { name, size, data, .. } => seq![
            UntarActionView::CreateFile(target + (prefix + name@)),
        ] + data_writes(data@, blocks_for(size as nat)),
        TarEntry::Dir { name, entries, .. } => {
            let dir_name = prefix + name@ + "/"@;
            seq![UntarActionView::CreateDir(target + dir_name)] + entries_effects(
                target,
                entries@,
                dir_name,
            )
        },
    }
}

/// What an extraction asks for when it reads the blocks written for a list
/// of entries.
pub open spec fn entries_effects(target: Seq<char>, entries: Seq<TarEntry>, prefix: Seq<char>) -> Seq<UntarActionView>
    decreases entries,
{
    if entries.len() == 0 {
        Seq::empty()
    } else {
        entries_effects(target, entries.drop_last(), prefix) + entry_effects(target, entries.last(), prefix)
    }
}

/// Whether a path takes at most 100 bytes and holds no NUL, so that its
/// header gives it back.
pub open spec fn path_fits(path: Seq<char>) -> bool {
    encode_utf8(path).len() <= 100 && nul_less(encode_utf8(path))
}

/// Whether an entry is written and extracted back whole: every item could
/// be read, every path fits, and every file is below `8^10` bytes, was read
/// without a failing read and holds as many bytes as its length says.
pub open spec fn entry_extractable(entry: TarEntry, prefix: Seq<char>) -> bool
    decreases entry,
{
    match entry {
        TarEntry::Unreadable => false,
        TarEntry::File { name, size, data, failed_read, .. } => path_fits(prefix + name@) && size < pow8(10)
            && data.len() == size && failed_read is None,
        TarEntry::Dir { name, entries, .. } => path_fits(prefix + name@ + "/"@) && entries_extractable(
            entries@,
            prefix + name@ + "/"@,
        ),
    }
}

/// Whether every entry of a list is written and extracted back whole.
pub open spec fn entries_extractable(entries: Seq<TarEntry>, prefix: Seq<char>) -> bool
    decreases entries,
{
    entries.len() == 0 || (entries_extractable(entries.drop_last(), prefix) && entry_extractable(
        entries.last(),
        prefix,
    ))
}

proof fn lemma_mode_texts()
    ensures
        encode_utf8("0040777"@).len() == 7 && nul_less(encode_utf8("0040777"@)),
        encode_utf8("0100777"@).len() == 7 && nul_less(encode_utf8("0100777"@)),
        encode_utf8("0000000"@).len() == 7 && nul_less(encode_utf8("0000000"@)),
{
    reveal_strlit("0040777");
    reveal_strlit("0100777");
    reveal_strlit("0000000");
    lemma_ascii_encoding("0040777"@);
    lemma_ascii_encoding("0100777"@);
    lemma_ascii_encoding("0000000"@);
}

/// The header written for a file whose path fits lands in its slots.
proof fn lemma_file_header_layout(path: Seq<char>, size: u128, lmt: u128)
    requires
        path_fits(path),
        size < pow8(10),
    ensures
        fits_layout(file_header(path, size, lmt)),
{
    lemma_mode_texts();
}

/// The header written for a directory whose path fits lands in its slots.
proof fn lemma_dir_header_layout(path: Seq<char>, lmt: u128)
    requires
        path_fits(path),
    ensures
        fits_layout(dir_header(path, lmt)),
{
    lemma_mode_texts();
    reveal_with_fuel(pow8, 11);
}

proof fn lemma_zero_field_is_text(block: Seq<u8>, lo: int, hi: int)
    requires
        0 <= lo <= hi <= block.len(),
        forall|i: int| lo <= i < hi ==> #[trigger] block[i] == 0,
    ensures
        is_text_field(block, lo, hi),
    decreases hi - lo,
{
    reveal(Seq::filter);
    if lo < hi {
        lemma_zero_field_is_text(block, lo, hi - 1);
        assert(block.subrange(lo, hi).drop_last() =~= block.subrange(lo, hi - 1));
    }
}

/// A header that lands in its slots is read back, in either dialect, as the
/// entry it was written for.
proof fn lemma_header_announced(dialect: Dialect, h: TarFileHeaderView)
    requires
        fits_layout(h),
    ensures
        !all_zero(header_block(h)),
        announced(dialect, header_block(h)) == Ok::<(Seq<char>, u8, nat), Seq<char>>(
            (h.name, h.tpe, h.size as nat),
        ),
{
    lemma_header_layout(h);
    let b = header_block(h);
    assert(b.subrange(257, 262)[0] == 117);
    lemma_zero_field_is_text(b, 265, 297);
    lemma_zero_field_is_text(b, 297, 329);
}

#[verifier::rlimit(30)]
/// Reading the blocks written for an entry whose headers land in their slots
/// asks to create what the entry holds, and then goes on with what follows.
proof fn lemma_extract_entry(
    target: Seq<char>,
    dialect: Dialect,
    entry: TarEntry,
    prefix: Seq<char>,
    rest: Seq<Seq<u8>>,
)
    requires
        entry_extractable(entry, prefix),
    ensures
        entry_blocks(entry, prefix).1,
        entry_fits(entry, prefix),
        ({
            let after = extraction(target, dialect, UntarState::Header, rest);
            extraction(target, dialect, UntarState::Header, entry_blocks(entry, prefix).0 + rest)
                == (entry_effects(target, entry, prefix) + after.0, after.1)
        }),
    decreases entry,
{
    let after = extraction(target, dialect, UntarState::Header, rest);
    match entry {
        TarEntry::Unreadable => {},
        TarEntry::File { name, size, lmt, data, .. } => {
            let path = prefix + name@;
            let h = file_header(path, size, lmt);
            lemma_file_header_layout(path, size, lmt);
            lemma_header_layout(h);
            lemma_header_announced(dialect, h);
            let count = blocks_for(size as nat);
            let hb = header_block(h);
            let blocks = entry_blocks(entry, prefix).0 + rest;
            assert(blocks[0] == hb);
            assert(blocks.drop_first() =~= data_blocks(data@, count).subrange(0, count as int) + rest);
            let making = UntarState::MakingFile {
                chunks_left: count as u128,
                bytes_left: size as usize,
            };
            assert(untar_next(target, dialect, UntarState::Header, UntarEventView::Chunk(hb)) == (
                making,
                UntarActionView::CreateFile(target + path),
            ));
            lemma_extract_data(target, dialect, data@, size, 0, rest);
            assert((size - 512 * 0) as usize == size as usize);
            let tail = extraction(target, dialect, making, blocks.drop_first());
            assert(tail == extraction(target, dialect, after_data(count as u128, size as usize), blocks.drop_first()));
            assert(data_writes(data@, count).subrange(0, count as int) =~= data_writes(data@, count));
            assert(entry_effects(target, entry, prefix) + after.0 =~= seq![
                UntarActionView::CreateFile(target + path),
            ] + (data_writes(data@, count) + after.0));
        },
        TarEntry::Dir { name, lmt, entries } => {
            let path = prefix + name@ + "/"@;
            let h = dir_header(path, lmt);
            lemma_dir_header_layout(path, lmt);
            lemma_header_layout(h);
            lemma_header_announced(dialect, h);
            lemma_extract_entries(target, dialect, entries@, path, rest);
            let hb = header_block(h);
            let inner = entries_blocks(entries@, path).0;
            let blocks = entry_blocks(entry, prefix).0 + rest;
            assert(blocks[0] == hb);
            assert(blocks.drop_first() =~= inner + rest);
            assert(untar_next(target, dialect, UntarState::Header, UntarEventView::Chunk(hb)) == (
                UntarState::MakingDir,
                UntarActionView::CreateDir(target + path),
            ));
            let tail = extraction(target, dialect, UntarState::MakingDir, blocks.drop_first());
            assert(tail == extraction(target, dialect, UntarState::Header, blocks.drop_first()));
            assert(entry_effects(target, entry, prefix) + after.0 =~= seq![
                UntarActionView::CreateDir(target + path),
            ] + (entries_effects(target, entries@, path) + after.0));
        },
    }
}

/// Reading the blocks written for a list of entries asks to create what the
/// entries hold, one after the other, and then goes on with what follows.
proof fn lemma_extract_entries(
    target: Seq<char>,
    dialect: Dialect,
    entries: Seq<TarEntry>,
    prefix: Seq<char>,
    rest: Seq<Seq<u8>>,
)
    requires
        entries_extractable(entries, prefix),
    ensures
        entries_blocks(entries, prefix).1,
        entries_fit(entries, prefix),
        ({
            let after = extraction(target, dialect, UntarState::Header, rest);
            extraction(target, dialect, UntarState::Header, entries_blocks(entries, prefix).0 + rest)
                == (entries_effects(target, entries, prefix) + after.0, after.1)
        }),
    decreases entries,
{
    let after = extraction(target, dialect, UntarState::Header, rest);
    if entries.len() == 0 {
        assert(entries_blocks(entries, prefix).0 + rest =~= rest);
        assert(entries_effects(target, entries, prefix) + after.0 =~= after.0);
    } else {
        let init = entries.drop_last();
        let last = entries.last();
        lemma_extract_entry(target, dialect, last, prefix, rest);
        let last_blocks = entry_blocks(last, prefix).0;
        lemma_extract_entries(target, dialect, init, prefix, last_blocks + rest);
        let init_blocks = entries_blocks(init, prefix).0;
        assert(entries_blocks(entries, prefix).0 + rest =~= init_blocks + (last_blocks + rest));
        assert(entries_effects(target, entries, prefix) + after.0 =~= entries_effects(target, init, prefix)
            + (entry_effects(target, last, prefix) + after.0));
    }
}

/// Two zero blocks end an extraction well, in either dialect.
proof fn lemma_extract_trailer(target: Seq<char>, dialect: Dialect)
    ensures
        extraction(target, dialect, UntarState::Header, seq![zero_chunk(), zero_chunk()]) == (
            Seq::<UntarActionView>::empty(),
            Ok::<(), Seq<char>>(()),
        ),
{
    let blocks = seq![zero_chunk(), zero_chunk()];
    assert(all_zero(zero_chunk()));
    assert(blocks.drop_first() =~= seq![zero_chunk()]);
    assert(seq![zero_chunk()].drop_first() =~= Seq::<Seq<u8>>::empty());
    reveal_with_fuel(extraction, 3);
}

/// What an archive gives back of what was written into it: the blocks that
/// `mktar` hands on for items that can be read whole and whose paths fit,
/// followed by the two zero blocks that end a tar file, are extracted (in
/// either dialect, every creation and write succeeding) into exactly the
/// directories, files and data of the items, and the extraction succeeds.
pub proof fn lemma_written_archive_extracts(target: Seq<char>, dialect: Dialect, items: Seq<TarEntry>)
    requires
        entries_extractable(items, Seq::<char>::empty()),
    ensures
        entries_fit(items, Seq::<char>::empty()),
        entries_blocks(items, Seq::<char>::empty()).1,
        extraction(
            target,
            dialect,
            UntarState::Header,
            entries_blocks(items, Seq::<char>::empty()).0 + seq![zero_chunk(), zero_chunk()],
        ) == (entries_effects(target, items, Seq::<char>::empty()), Ok::<(), Seq<char>>(())),
{
    let root = Seq::<char>::empty();
    let trailer = seq![zero_chunk(), zero_chunk()];
    lemma_extract_entries(target, dialect, items, root, trailer);
    lemma_extract_trailer(target, dialect);
    assert(entries_effects(target, items, root) + Seq::<UntarActionView>::empty() =~= entries_effects(
        target,
        items,
        root,
    ));
}

/// In either dialect, a block that is not all zeros and that the dialect
/// refuses as a header stops the extraction with the reader's message: the
/// step finishes with that error, and an extraction that reads such a block
/// where a header is due creates nothing more and ends with that error.
pub proof fn lemma_refused_header_stops(
    target: Seq<char>,
    dialect: Dialect,
    block: Seq<u8>,
    rest: Seq<Seq<u8>>,
)
    requires
        !all_zero(block),
        announced(dialect, block) is Err,
    ensures
        untar_next(target, dialect, UntarState::Header, UntarEventView::Chunk(block)) == (
            UntarState::Done,
            UntarActionView::Finish(Err(announced(dialect, block)->Err_0)),
        ),
        extraction(target, dialect, UntarState::Header, seq![block] + rest) == (
            Seq::<UntarActionView>::empty(),
            Err::<(), Seq<char>>(announced(dialect, block)->Err_0),
        ),
{
    let blocks = seq![block] + rest;
    assert(blocks[0] == block);
}

/// A block that is not all zeros but has no magic (bytes `257..262` all
/// zero), such as the first block of a file that is not a tar archive, is
/// refused as a header by both readers with `bad magic...`, and so the
/// extraction ends with that error.
pub proof fn lemma_block_without_magic_is_refused(
    target: Seq<char>,
    dialect: Dialect,
    block: Seq<u8>,
    rest: Seq<Seq<u8>>,
)
    requires
        block.len() == 512,
        !all_zero(block),
        forall|i: int| 257 <= i < 262 ==> #[trigger] block[i] == 0,
    ensures
        crate::gazer::tar_header::header_fault(block) == Some("bad magic..."@),
        crate::header::header_fault(block) == Some("bad magic..."@),
        extraction(target, dialect, UntarState::Header, seq![block] + rest) == (
            Seq::<UntarActionView>::empty(),
            Err::<(), Seq<char>>("bad magic..."@),
        ),
{
    lemma_zero_field_text(block, 257, 262);
    reveal_strlit("ustar");
    assert("ustar"@.len() == 5);
    lemma_refused_header_stops(target, dialect, block, rest);
}

/// In the `Archive` dialect a zero block where a header is due ends the
/// extraction at once and well: nothing after it is read.
pub proof fn lemma_archive_ends_at_zero_block(target: Seq<char>, block: Seq<u8>, rest: Seq<Seq<u8>>)
    requires
        all_zero(block),
    ensures
        untar_next(target, Dialect::Archive, UntarState::Header, UntarEventView::Chunk(block)) == (
            UntarState::Done,
            UntarActionView::Finish(Ok(())),
        ),
        extraction(target, Dialect::Archive, UntarState::Header, seq![block] + rest) == (
            Seq::<UntarActionView>::empty(),
            Ok::<(), Seq<char>>(()),
        ),
{
    let blocks = seq![block] + rest;
    assert(blocks[0] == block);
}

/// The first block `mktar` writes for a directory or a file is a header that
/// is read back as that entry, with its own path, type, size and time, when
/// its path fits and its numbers are below `8^10`.
pub proof fn lemma_entry_header_reads_back(entry: TarEntry, prefix: Seq<char>)
    requires
        match entry {
            TarEntry::Dir { name, lmt, .. } => path_fits(prefix + name@ + "/"@) && lmt < pow8(10),
            TarEntry::File { name, size, lmt, .. } => path_fits(prefix + name@) && size < pow8(10) && lmt
                < pow8(10),
            TarEntry::Unreadable => false,
        },
    ensures
        crate::gazer::tar_header::header_fault(entry_blocks(entry, prefix).0[0]) is None,
        forall|v: TarFileHeaderView|
            #![trigger describes(v, entry_blocks(entry, prefix).0[0])]
            describes(v, entry_blocks(entry, prefix).0[0]) ==> match entry {
                TarEntry::Dir { name, lmt, .. } => v.name == prefix + name@ + "/"@ && v.tpe == 53 && v.size
                    == 0 && v.lmt == lmt,
                TarEntry::File { name, size, lmt, .. } => v.name == prefix + name@ && v.tpe == 48 && v.size
                    == size && v.lmt == lmt,
                TarEntry::Unreadable => false,
            },
{
    match entry {
        TarEntry::Dir { name, lmt, .. } => {
            let path = prefix + name@ + "/"@;
            lemma_dir_header_layout(path, lmt);
            lemma_header_round_trip(dir_header(path, lmt));
        },
        TarEntry::File { name, size, lmt, .. } => {
            let path = prefix + name@;
            lemma_file_header_layout(path, size, lmt);
            lemma_header_round_trip(file_header(path, size, lmt));
        },
        TarEntry::Unreadable => {},
    }
}

} // verus!
