use gazer::gazer::tar_header::{is_chunk_empty, TarFileHeader};
use gazer::header::{self, FileHeader};

fn sample_header(name: &str, mode: &str, size: u128) -> TarFileHeader {
    TarFileHeader {
        name: name.to_string(),
        mode: mode.to_string(),
        owner_id: "0000000".to_string(),
        group_id: "0000000".to_string(),
        size,
        lmt: 12345,
        tpe: 48,
        link: String::new(),
        version: [48, 48],
    }
}

fn checksum_of(block: &[u8; 512]) -> u64 {
    let mut sum: u64 = 0;
    for (i, b) in block.iter().enumerate() {
        if !(148..156).contains(&i) {
            sum += *b as u64;
        }
    }
    sum + 256
}

#[test]
fn empty_block_is_empty() {
    let block = [0u8; 512];
    assert!(is_chunk_empty(&block));
    assert!(header::is_chunk_empty(&block));
}

#[test]
fn block_with_one_byte_is_not_empty() {
    let mut block = [0u8; 512];
    block[511] = 1;
    assert!(!is_chunk_empty(&block));
    assert!(!header::is_chunk_empty(&block));
}

#[test]
fn chunk_count_rounds_up() {
    assert_eq!(sample_header("a", "0100777", 0).chunk_count(), 0);
    assert_eq!(sample_header("a", "0100777", 1).chunk_count(), 1);
    assert_eq!(sample_header("a", "0100777", 512).chunk_count(), 1);
    assert_eq!(sample_header("a", "0100777", 513).chunk_count(), 2);
    assert_eq!(sample_header("a", "0100777", 1024).chunk_count(), 2);
}

#[test]
fn to_chunk_lays_out_fields() {
    let h = sample_header("hello.txt", "01007770", 1000);
    let block = h.to_chunk();
    assert_eq!(&block[0..9], b"hello.txt");
    assert!(block[9..100].iter().all(|b| *b == 0));
    assert_eq!(&block[100..108], b"01007770");
    assert_eq!(&block[108..115], b"0000000");
    assert_eq!(block[115], 0);
    // 1000 is 1750 in octal
    assert_eq!(&block[124..136], b"0000001750\0\0");
    // 12345 is 30071 in octal
    assert_eq!(&block[136..148], b"0000030071\0\0");
    assert_eq!(block[156], 48);
    assert_eq!(&block[257..262], b"ustar");
    assert_eq!(&block[263..265], b"00");
    let sum = checksum_of(&block);
    let recorded = format!("{:06o}", sum);
    assert_eq!(&block[148..154], recorded.as_bytes());
    assert_eq!(&block[154..156], &[0, 0]);
}

#[test]
fn header_round_trips() {
    let h = sample_header("dir/hello.txt", "0100777", 70000);
    let block = h.to_chunk();
    let back = TarFileHeader::from_chunk(&block).unwrap();
    assert_eq!(back.name, "dir/hello.txt");
    assert_eq!(back.mode, "0100777");
    assert_eq!(back.owner_id, "0000000");
    assert_eq!(back.group_id, "0000000");
    assert_eq!(back.size, 70000);
    assert_eq!(back.lmt, 12345);
    assert_eq!(back.tpe, 48);
    assert_eq!(back.link, "");
    assert_eq!(back.version, [48, 48]);
}

#[test]
fn long_name_round_trips_when_fields_fill_their_slots() {
    let name: String = (0..255).map(|i| (b'a' + (i % 26) as u8) as char).collect();
    let mut h = sample_header(&name, "01007770", 5);
    h.owner_id = "00000000".to_string();
    h.group_id = "00000000".to_string();
    let block = h.to_chunk();
    let back = TarFileHeader::from_chunk(&block).unwrap();
    assert_eq!(back.name, name);
    assert_eq!(&block[345..500], &name.as_bytes()[0..155]);
    assert_eq!(&block[0..100], &name.as_bytes()[155..255]);
}

#[test]
fn long_name_with_short_mode_loses_its_first_bytes() {
    // the three one-byte-short fields shift the front part of the name left
    let name: String = (0..150).map(|i| (b'a' + (i % 26) as u8) as char).collect();
    let h = sample_header(&name, "0100777", 5);
    let block = h.to_chunk();
    let back = TarFileHeader::from_chunk(&block).unwrap();
    let expected = format!("{}{}", &name[3..50], &name[50..150]);
    assert_eq!(back.name, expected);
}

#[test]
fn zero_block_has_bad_magic_as_utf8_empty() {
    let block = [0u8; 512];
    match TarFileHeader::from_chunk(&block) {
        Err(e) => assert_eq!(e, "bad magic..."),
        Ok(_) => panic!("a zero block is no header"),
    }
}

#[test]
fn wrong_magic_is_refused() {
    let mut block = sample_header("a", "0100777", 0).to_chunk();
    block[257..262].copy_from_slice(b"ustaR");
    match TarFileHeader::from_chunk(&block) {
        Err(e) => assert_eq!(e, "bad magic..."),
        Ok(_) => panic!("wrong magic accepted"),
    }
}

#[test]
fn invalid_utf8_magic_is_refused() {
    let mut block = sample_header("a", "0100777", 0).to_chunk();
    block[257] = 0xff;
    match TarFileHeader::from_chunk(&block) {
        Err(e) => assert_eq!(e, "Utf-8 error"),
        Ok(_) => panic!("invalid magic accepted"),
    }
}

#[test]
fn checksum_mismatch_is_refused() {
    let mut block = sample_header("a", "0100777", 0).to_chunk();
    block[0] = b'b';
    match TarFileHeader::from_chunk(&block) {
        Err(e) => assert_eq!(e, "Checksum error"),
        Ok(_) => panic!("bad checksum accepted"),
    }
    match FileHeader::from_chunk(&block) {
        Err(e) => assert_eq!(e, "Checksum error"),
        Ok(_) => panic!("bad checksum accepted"),
    }
}

#[test]
fn invalid_utf8_name_is_refused() {
    let mut h = sample_header("a", "0100777", 0);
    h.name = String::from_utf8(vec![0xc3, 0xa9]).unwrap(); // "é"
    let mut block = h.to_chunk();
    // cut the two-byte character in half and repair the checksum
    block[1] = 0;
    let sum = checksum_of(&block);
    let field = format!("{:06o}", sum);
    block[148..154].copy_from_slice(field.as_bytes());
    match TarFileHeader::from_chunk(&block) {
        Err(e) => assert_eq!(e, "Utf-8 error"),
        Ok(_) => panic!("broken name accepted"),
    }
}

#[test]
fn octal_fields_skip_bytes_below_zero_digit() {
    let mut block = sample_header("a", "0100777", 0).to_chunk();
    // size field "  17 " with spaces and a NUL: reads as 0o17
    block[124..136].copy_from_slice(b"  17 \0\0\0\0\0\0\0");
    let sum = checksum_of(&block);
    let field = format!("{:06o}", sum);
    block[148..154].copy_from_slice(field.as_bytes());
    let back = TarFileHeader::from_chunk(&block).unwrap();
    assert_eq!(back.size, 15);
}

#[test]
fn file_header_reads_owner_names_and_device_field() {
    let mut block = sample_header("f", "0100777", 9).to_chunk();
    block[265..269].copy_from_slice(b"root");
    block[297..302].copy_from_slice(b"wheel");
    block[329..336].copy_from_slice(b"0000012");
    let sum = checksum_of(&block);
    let field = format!("{:06o}", sum);
    block[148..154].copy_from_slice(field.as_bytes());
    let h = FileHeader::from_chunk(&block).unwrap();
    assert_eq!(h.name, "f");
    assert_eq!(h.size, 9);
    assert_eq!(h.sum, sum);
    assert_eq!(h.owner_name, "root");
    assert_eq!(h.group_name, "wheel");
    assert_eq!(h.dev_major, 10);
    assert_eq!(h.dev_minor, 10);
    assert_eq!(h.version, [48, 48]);
    assert_eq!(h.chunk_count(), 1);
}

#[test]
fn size_of_ten_octal_digits_round_trips_and_larger_wraps() {
    let largest: u128 = (1u128 << 30) - 1; // 8^10 - 1
    let block = sample_header("a", "0100777", largest).to_chunk();
    assert_eq!(&block[124..136], b"7777777777\0\0");
    assert_eq!(TarFileHeader::from_chunk(&block).unwrap().size, largest);
    // only the last ten octal digits are written
    let block = sample_header("a", "0100777", (1u128 << 30) + 5).to_chunk();
    assert_eq!(TarFileHeader::from_chunk(&block).unwrap().size, 5);
}

#[test]
fn name_of_exactly_one_hundred_bytes_round_trips() {
    let name: String = std::iter::repeat('x').take(100).collect();
    let block = sample_header(&name, "0100777", 1).to_chunk();
    assert_eq!(TarFileHeader::from_chunk(&block).unwrap().name, name);
    assert!(block[345..500].iter().all(|b| *b == 0));
}

#[test]
fn non_ascii_name_round_trips() {
    let name = "répertoire/naïve.txt";
    let block = sample_header(name, "0100777", 3).to_chunk();
    let back = TarFileHeader::from_chunk(&block).unwrap();
    assert_eq!(back.name, name);
    let legacy = FileHeader::from_chunk(&block).unwrap();
    assert_eq!(legacy.name, name);
    assert_eq!(legacy.owner_name, "");
    assert_eq!(legacy.dev_major, 0);
}
