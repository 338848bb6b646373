use gazer::gazer::chunk_consumer::{ChunkConsumer, ChunkSink, Recorder};
use gazer::gazer::chunk_provider::{ChunkList, ChunkProvider};
use gazer::gazer::tar_archive::{
    archive_fits, mktar, Dialect, TarEntry, Untar, UntarAction, UntarEvent,
};
use gazer::gazer::tar_header::TarFileHeader;

#[derive(Debug, PartialEq)]
enum Effect {
    Dir(String),
    File(String),
    Write(Vec<u8>),
}

/// Drives an extraction over in-memory blocks, every creation and write succeeding.
fn extract(blocks: Vec<[u8; 512]>, dialect: Dialect) -> (Vec<Effect>, Result<(), String>) {
    let mut provider = ChunkList::new(blocks);
    let mut untar = Untar::new("out/".to_string(), dialect);
    let mut effects = Vec::new();
    let mut event = match provider.get_next_chunk() {
        Some(c) => UntarEvent::Chunk(c),
        None => UntarEvent::NoChunk,
    };
    loop {
        assert!(untar.accepts_event(&event));
        match untar.step(event) {
            UntarAction::ReadChunk => {
                event = match provider.get_next_chunk() {
                    Some(c) => UntarEvent::Chunk(c),
                    None => UntarEvent::NoChunk,
                }
            }
            UntarAction::CreateDir(p) => {
                effects.push(Effect::Dir(p));
                event = UntarEvent::Succeeded;
            }
            UntarAction::CreateFile(p) => {
                effects.push(Effect::File(p));
                event = UntarEvent::Succeeded;
            }
            UntarAction::Write(b) => {
                effects.push(Effect::Write(b));
                event = UntarEvent::Succeeded;
            }
            UntarAction::Finish(r) => return (effects, r),
        }
    }
}

fn data(n: usize) -> Vec<u8> {
    (0..n).map(|i| (i % 251) as u8 + 1).collect()
}

fn sample_tree() -> Vec<TarEntry> {
    vec![
        TarEntry::Dir {
            name: "docs".to_string(),
            lmt: 7,
            entries: vec![TarEntry::File {
                name: "a.txt".to_string(),
                size: 700,
                lmt: 8,
                data: data(700),
                failed_read: None,
            }],
        },
        TarEntry::File { name: "b.bin".to_string(), size: 0, lmt: 9, data: Vec::new(), failed_read: None },
    ]
}

#[test]
fn mktar_writes_headers_data_and_trailer() {
    let mut rec = Recorder::new(ChunkSink::new());
    assert!(archive_fits(&sample_tree()));
    assert_eq!(mktar(sample_tree(), &mut rec), Ok(()));
    // dir header, file header, two data blocks, file header, two zero blocks
    assert_eq!(rec.consumer.chunks.len(), 7);
    let dir = TarFileHeader::from_chunk(&rec.consumer.chunks[0]).unwrap();
    assert_eq!(dir.name, "docs/");
    assert_eq!(dir.mode, "0040777");
    assert_eq!(dir.tpe, 53);
    assert_eq!(dir.size, 0);
    let file = TarFileHeader::from_chunk(&rec.consumer.chunks[1]).unwrap();
    assert_eq!(file.name, "docs/a.txt");
    assert_eq!(file.mode, "0100777");
    assert_eq!(file.tpe, 48);
    assert_eq!(file.size, 700);
    assert_eq!(file.lmt, 8);
    let d = data(700);
    assert_eq!(&rec.consumer.chunks[2][..], &d[0..512]);
    // the second read only fills the front of the buffer; the rest is left over
    assert_eq!(&rec.consumer.chunks[3][0..188], &d[512..700]);
    assert_eq!(&rec.consumer.chunks[3][188..512], &d[188..512]);
    let empty = TarFileHeader::from_chunk(&rec.consumer.chunks[4]).unwrap();
    assert_eq!(empty.name, "b.bin");
    assert_eq!(empty.chunk_count(), 0);
    assert!(rec.consumer.chunks[5].iter().all(|b| *b == 0));
    assert!(rec.consumer.chunks[6].iter().all(|b| *b == 0));
}

#[test]
fn written_archive_extracts_to_the_same_tree() {
    let mut rec = Recorder::new(ChunkSink::new());
    assert_eq!(mktar(sample_tree(), &mut rec), Ok(()));
    let (effects, result) = extract(rec.consumer.chunks, Dialect::Gazer);
    assert_eq!(result, Ok(()));
    let d = data(700);
    assert_eq!(
        effects,
        vec![
            Effect::Dir("out/docs/".to_string()),
            Effect::File("out/docs/a.txt".to_string()),
            Effect::Write(d[0..512].to_vec()),
            Effect::Write(d[512..700].to_vec()),
            Effect::File("out/b.bin".to_string()),
        ]
    );
}

#[test]
fn unreadable_file_stops_with_file_error() {
    let mut rec = Recorder::new(ChunkSink::new());
    let items = vec![TarEntry::Unreadable];
    assert_eq!(mktar(items, &mut rec), Err("bad file writing".to_string()));
    assert_eq!(rec.consumer.chunks.len(), 0);
}

#[test]
fn unlistable_directory_stops_with_dir_error_after_its_header() {
    let mut rec = Recorder::new(ChunkSink::new());
    let items = vec![
        TarEntry::File { name: "x".to_string(), size: 1, lmt: 0, data: vec![65], failed_read: None },
        TarEntry::Dir { name: "d".to_string(), lmt: 0, entries: vec![TarEntry::Unreadable] },
    ];
    assert_eq!(mktar(items, &mut rec), Err("bad dir writing".to_string()));
    // file header, one data block, directory header; no trailer
    assert_eq!(rec.consumer.chunks.len(), 3);
}

#[test]
fn names_over_258_bytes_do_not_fit() {
    let long: String = std::iter::repeat('n').take(259).collect();
    let fits_exactly: String = std::iter::repeat('n').take(258).collect();
    let file = |name: &String| TarEntry::File { name: name.clone(), size: 0, lmt: 0, data: Vec::new(), failed_read: None };
    assert!(!archive_fits(&vec![file(&long)]));
    assert!(archive_fits(&vec![file(&fits_exactly)]));
    // a directory adds a slash to its name, and its entries add its name to theirs
    let dir = TarEntry::Dir { name: fits_exactly.clone(), lmt: 0, entries: Vec::new() };
    assert!(!archive_fits(&vec![dir]));
    let nested = TarEntry::Dir {
        name: "d".repeat(200),
        lmt: 0,
        entries: vec![TarEntry::File { name: "f".repeat(57), size: 0, lmt: 0, data: Vec::new(), failed_read: None }],
    };
    assert!(archive_fits(&vec![nested]));
    let nested_too_long = TarEntry::Dir {
        name: "d".repeat(200),
        lmt: 0,
        entries: vec![TarEntry::File { name: "f".repeat(58), size: 0, lmt: 0, data: Vec::new(), failed_read: None }],
    };
    assert!(!archive_fits(&vec![nested_too_long]));
}

#[test]
fn empty_input_extracts_nothing() {
    let (effects, result) = extract(Vec::new(), Dialect::Gazer);
    assert!(effects.is_empty());
    assert_eq!(result, Ok(()));
}

#[test]
fn single_zero_block_is_broken_for_gazer_but_ends_an_archive_for_archive_dialect() {
    let (_, result) = extract(vec![[0u8; 512]], Dialect::Gazer);
    assert_eq!(result, Err("archive is broken".to_string()));
    let (_, result) = extract(vec![[0u8; 512]], Dialect::Archive);
    assert_eq!(result, Ok(()));
    let mut not_zero = [0u8; 512];
    not_zero[3] = 1;
    let (_, result) = extract(vec![[0u8; 512], not_zero], Dialect::Gazer);
    assert_eq!(result, Err("archive is broken".to_string()));
}

#[test]
fn missing_data_block_is_broken() {
    let mut rec = Recorder::new(ChunkSink::new());
    let items = vec![TarEntry::File { name: "x".to_string(), size: 600, lmt: 0, data: data(600), failed_read: None }];
    assert_eq!(mktar(items, &mut rec), Ok(()));
    let blocks = vec![rec.consumer.chunks[0], rec.consumer.chunks[1]];
    let (effects, result) = extract(blocks, Dialect::Gazer);
    assert_eq!(result, Err("archive is broken".to_string()));
    assert_eq!(effects.len(), 2);
}

#[test]
fn bad_header_is_reported() {
    let mut block = [0u8; 512];
    block[0] = b'x';
    let (effects, result) = extract(vec![block], Dialect::Archive);
    assert!(effects.is_empty());
    assert_eq!(result, Err("bad magic...".to_string()));
}

#[test]
fn failed_creation_and_write_are_reported() {
    let mut rec = Recorder::new(ChunkSink::new());
    let items = vec![
        TarEntry::Dir { name: "d".to_string(), lmt: 0, entries: Vec::new() },
        TarEntry::File { name: "x".to_string(), size: 3, lmt: 0, data: vec![1, 2, 3], failed_read: None },
    ];
    assert_eq!(mktar(items, &mut rec), Ok(()));
    let mut u = Untar::new("t/".to_string(), Dialect::Gazer);
    match u.step(UntarEvent::Chunk(rec.consumer.chunks[0])) {
        UntarAction::CreateDir(p) => assert_eq!(p, "t/d/"),
        _ => panic!("expected a directory"),
    }
    match u.step(UntarEvent::Failed) {
        UntarAction::Finish(r) => assert_eq!(r, Err("could not create folder".to_string())),
        _ => panic!("expected the end"),
    }
    let mut u = Untar::new("t/".to_string(), Dialect::Gazer);
    assert!(matches!(u.step(UntarEvent::Chunk(rec.consumer.chunks[1])), UntarAction::CreateFile(_)));
    match u.step(UntarEvent::Failed) {
        UntarAction::Finish(r) => assert_eq!(r, Err("creation error".to_string())),
        _ => panic!("expected the end"),
    }
    let mut u = Untar::new("t/".to_string(), Dialect::Gazer);
    assert!(matches!(u.step(UntarEvent::Chunk(rec.consumer.chunks[1])), UntarAction::CreateFile(_)));
    assert!(matches!(u.step(UntarEvent::Succeeded), UntarAction::ReadChunk));
    match u.step(UntarEvent::Chunk(rec.consumer.chunks[2])) {
        UntarAction::Write(b) => assert_eq!(b, vec![1, 2, 3]),
        _ => panic!("expected a write"),
    }
    match u.step(UntarEvent::Failed) {
        UntarAction::Finish(r) => assert_eq!(r, Err("could not write in file".to_string())),
        _ => panic!("expected the end"),
    }
}

#[test]
fn consumer_done_adds_two_zero_blocks() {
    let mut sink = ChunkSink::new();
    assert!(sink.consume_next_chunk([1u8; 512]).is_ok());
    assert!(sink.done().is_ok());
    assert_eq!(sink.chunks.len(), 3);
}

#[test]
fn archive_dialect_extracts_written_archive() {
    let mut rec = Recorder::new(ChunkSink::new());
    assert_eq!(mktar(sample_tree(), &mut rec), Ok(()));
    let (effects, result) = extract(rec.consumer.chunks, Dialect::Archive);
    assert_eq!(result, Ok(()));
    assert_eq!(effects.len(), 5);
    assert_eq!(effects[0], Effect::Dir("out/docs/".to_string()));
    assert_eq!(effects[4], Effect::File("out/b.bin".to_string()));
}

#[test]
fn data_of_exactly_one_block_is_written_whole() {
    let mut rec = Recorder::new(ChunkSink::new());
    let items = vec![TarEntry::File { name: "x".to_string(), size: 512, lmt: 0, data: data(512), failed_read: None }];
    assert_eq!(mktar(items, &mut rec), Ok(()));
    assert_eq!(rec.consumer.chunks.len(), 4);
    let (effects, result) = extract(rec.consumer.chunks, Dialect::Gazer);
    assert_eq!(result, Ok(()));
    assert_eq!(effects, vec![Effect::File("out/x".to_string()), Effect::Write(data(512))]);
}

#[test]
fn file_shorter_than_its_size_pads_with_zeros_of_the_first_buffer() {
    // the file shrank after its size was read: the reads come back short
    let mut rec = Recorder::new(ChunkSink::new());
    let items = vec![TarEntry::File { name: "x".to_string(), size: 10, lmt: 0, data: vec![7, 7, 7], failed_read: None }];
    assert_eq!(mktar(items, &mut rec), Ok(()));
    assert_eq!(&rec.consumer.chunks[1][0..3], &[7, 7, 7]);
    assert!(rec.consumer.chunks[1][3..].iter().all(|b| *b == 0));
}

/// Takes a fixed number of blocks, then refuses every further one.
struct LimitedSink {
    taken: Vec<[u8; 512]>,
    offered: usize,
    limit: usize,
    ended: bool,
}

impl ChunkConsumer for LimitedSink {
    fn consume_next_chunk(&mut self, chunk: [u8; 512]) -> Result<(), std::io::Error> {
        self.offered += 1;
        if self.taken.len() < self.limit {
            self.taken.push(chunk);
            Ok(())
        } else {
            Err(std::io::Error::new(std::io::ErrorKind::Other, "full"))
        }
    }

    fn done(&mut self) -> Result<(), std::io::Error> {
        self.ended = true;
        Ok(())
    }
}

#[test]
fn refused_block_stops_the_writing_at_that_block() {
    let sink = LimitedSink { taken: Vec::new(), offered: 0, limit: 2, ended: false };
    let mut rec = Recorder::new(sink);
    // directory header, file header, two data blocks, then the second file
    assert_eq!(mktar(sample_tree(), &mut rec), Err("bad dir writing".to_string()));
    assert_eq!(rec.consumer.taken.len(), 2);
    // the refused block is the last one handed on
    assert_eq!(rec.consumer.offered, 3);
    assert!(!rec.consumer.ended);

    let sink = LimitedSink { taken: Vec::new(), offered: 0, limit: 4, ended: false };
    let mut rec = Recorder::new(sink);
    assert_eq!(mktar(sample_tree(), &mut rec), Err("bad file writing".to_string()));
    assert_eq!(rec.consumer.taken.len(), 4);
    assert_eq!(rec.consumer.offered, 5);

    let sink = LimitedSink { taken: Vec::new(), offered: 0, limit: 5, ended: false };
    let mut rec = Recorder::new(sink);
    assert_eq!(mktar(sample_tree(), &mut rec), Ok(()));
    assert_eq!(rec.consumer.offered, 5);
    assert!(rec.consumer.ended);
}

#[test]
fn failed_read_writes_the_blocks_read_before_it() {
    let mut rec = Recorder::new(ChunkSink::new());
    let items = vec![TarEntry::File {
        name: "x".to_string(),
        size: 1500,
        lmt: 0,
        data: data(512),
        failed_read: Some(1),
    }];
    assert_eq!(mktar(items, &mut rec), Err("bad file writing".to_string()));
    // the header and the block of the first read; no trailer
    assert_eq!(rec.consumer.chunks.len(), 2);
    assert_eq!(rec.consumer.chunks[1].to_vec(), data(512));

    let mut rec = Recorder::new(ChunkSink::new());
    let items = vec![TarEntry::Dir {
        name: "d".to_string(),
        lmt: 0,
        entries: vec![TarEntry::File {
            name: "x".to_string(),
            size: 10,
            lmt: 0,
            data: Vec::new(),
            failed_read: Some(0),
        }],
    }];
    assert_eq!(mktar(items, &mut rec), Err("bad dir writing".to_string()));
    // the directory's header and the file's header
    assert_eq!(rec.consumer.chunks.len(), 2);
}

#[test]
fn failed_read_beyond_the_blocks_of_the_size_is_never_reached() {
    let mut rec = Recorder::new(ChunkSink::new());
    let items = vec![TarEntry::File {
        name: "x".to_string(),
        size: 3,
        lmt: 0,
        data: vec![1, 2, 3],
        failed_read: Some(1),
    }];
    assert_eq!(mktar(items, &mut rec), Ok(()));
    assert_eq!(rec.consumer.chunks.len(), 4);
}

#[test]
fn empty_input_only_ends_the_archive() {
    let sink = LimitedSink { taken: Vec::new(), offered: 0, limit: 0, ended: false };
    let mut rec = Recorder::new(sink);
    assert_eq!(mktar(Vec::new(), &mut rec), Ok(()));
    assert_eq!(rec.consumer.offered, 0);
    assert!(rec.consumer.ended);
}

/// Takes every block, then refuses to end the archive.
struct UnendingSink {
    taken: usize,
}

impl ChunkConsumer for UnendingSink {
    fn consume_next_chunk(&mut self, _chunk: [u8; 512]) -> Result<(), std::io::Error> {
        self.taken += 1;
        Ok(())
    }

    fn done(&mut self) -> Result<(), std::io::Error> {
        Err(std::io::Error::new(std::io::ErrorKind::Other, "closed"))
    }
}

#[test]
fn refused_end_is_a_write_error_after_every_block() {
    let mut rec = Recorder::new(UnendingSink { taken: 0 });
    assert_eq!(mktar(sample_tree(), &mut rec), Err("write error".to_string()));
    assert_eq!(rec.consumer.taken, 5);
}
