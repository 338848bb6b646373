use crate::gazer::tar_header::{
    all_zero, block_checksum, byte_sum, lemma_byte_sum_bound, lemma_octal_field_fits,
    lemma_octal_prefix_monotone, octal_value, recorded_checksum, sum_bytes,
};
use crate::text::{field_text, is_text_field, utf_to_str};
use vstd::prelude::*;

verus! {

/// The header of one entry of a tar archive, with the owner's names and the
/// device numbers that a ustar header also records.
pub struct FileHeader {
    pub name: String,
    pub mode: String,
    pub owner_id: String,
    pub group_id: String,
    pub size: u64,
    pub lmt: u64,
    pub sum: u64,
    pub tpe: u8,
    pub link: String,
    pub version: [u8; 2],
    pub owner_name: String,
    pub group_name: String,
    pub dev_major: u64,
    pub dev_minor: u64,
}

/// Why a 512-byte block is not a header that `FileHeader::from_chunk` reads,
/// with the message it is refused with; `None` when it is one.
pub open spec fn header_fault(block: Seq<u8>) -> Option<Seq<char>> {
    if !is_text_field(block, 257, 262) {
        Some("Utf-8 error"@)
    } else if field_text(block, 257, 262) != "ustar"@ {
        Some("bad magic..."@)
    } else if block_checksum(block) != recorded_checksum(block) {
        Some("Checksum error"@)
    } else if !(is_text_field(block, 345, 500) && is_text_field(block, 0, 100)
        && is_text_field(block, 100, 108) && is_text_field(block, 108, 116)
        && is_text_field(block, 116, 124) && is_text_field(block, 265, 297)
        && is_text_field(block, 297, 329)) {
        Some("Utf-8 error"@)
    } else {
        None
    }
}

/// What the `FileHeader` read from a valid block holds. Both device numbers
/// are read from the field at `329..337`.
pub open spec fn describes(header: FileHeader, block: Seq<u8>) -> bool {
    &&& header.name@ == field_text(block, 345, 500) + field_text(block, 0, 100)
    &&& header.mode@ == field_text(block, 100, 108)
    &&& header.owner_id@ == field_text(block, 108, 116)
    &&& header.group_id@ == field_text(block, 116, 124)
    &&& header.size == octal_value(block.subrange(124, 136))
    &&& header.lmt == octal_value(block.subrange(136, 148))
    &&& header.sum == recorded_checksum(block)
    &&& header.tpe == block[156]
    &&& header.link@ == Seq::<char>::empty()
    &&& header.version@ == block.subrange(263, 265)
    &&& header.owner_name@ == field_text(block, 265, 297)
    &&& header.group_name@ == field_text(block, 297, 329)
    &&& header.dev_major == octal_value(block.subrange(329, 337))
    &&& header.dev_minor == octal_value(block.subrange(329, 337))
}

/// Whether a 512-byte block is made of zeros only (an end-of-archive block).
pub fn is_chunk_empty(chunk: &[u8; 512]) -> (empty: bool)
    ensures
        empty == all_zero(chunk@),
{
    crate::gazer::tar_header::is_chunk_empty(chunk)
}

fn oct_to_dec(oct: &[u8]) -> (val: u64)
    requires
        octal_value(oct@) <= u64::MAX,
    ensures
        val == octal_value(oct@),
{
    let mut val: u64 = 0;
    let mut i: usize = 0;
    while i < oct.len()
        invariant
            i <= oct.len(),
            val == octal_value(oct@.take(i as int)),
            octal_value(oct@) <= u64::MAX,
        decreases oct.len() - i,
    {
        let digit = oct[i];
        proof {
            assert(oct@.take(i + 1).drop_last() =~= oct@.take(i as int));
            lemma_octal_prefix_monotone(oct@, i + 1, oct@.len() as int);
            assert(oct@.take(oct@.len() as int) =~= oct@);
        }
        if digit >= 48 {
            val = (digit as u64 - 48) + val * 8;
        }
        i = i + 1;
    }
    assert(oct@.take(oct@.len() as int) =~= oct@);
    val
}

impl FileHeader {
    /// Reads the header that a 512-byte block holds.
    pub fn from_chunk(chunk: &[u8; 512]) -> (header: Result<FileHeader, String>)
        ensures
            match header {
                Ok(h) => header_fault(chunk@) is None && describes(h, chunk@),
                Err(e) => header_fault(chunk@) == Some(e@),
            },
    {
        let magic = match utf_to_str(&chunk[257..262]) {
            Ok(s) => s,
            Err(e) => return Err(e),
        };
        let ustar = String::from_str("ustar");
        if !(magic == ustar) {
            return Err(String::from_str("bad magic..."));
        }
        proof {
            lemma_byte_sum_bound(chunk@.subrange(0, 148));
            lemma_byte_sum_bound(chunk@.subrange(156, 512));
            lemma_octal_field_fits(chunk@.subrange(148, 156));
        }
        let required_checksum: u64 = (sum_bytes(&chunk[0..148]) + 8 * 32 + sum_bytes(&chunk[156..512])) as u64;
        let actual_checksum = oct_to_dec(&chunk[148..156]);
        if required_checksum != actual_checksum {
            return Err(String::from_str("Checksum error"));
        }
        let prefix = match utf_to_str(&chunk[345..500]) {
            Ok(s) => s,
            Err(e) => return Err(e),
        };
        let base = match utf_to_str(&chunk[0..100]) {
            Ok(s) => s,
            Err(e) => return Err(e),
        };
        let file_name = prefix.concat(base.as_str());
        let mode = match utf_to_str(&chunk[100..108]) {
            Ok(s) => s,
            Err(e) => return Err(e),
        };
        let owner_id = match utf_to_str(&chunk[108..116]) {
            Ok(s) => s,
            Err(e) => return Err(e),
        };
        let group_id = match utf_to_str(&chunk[116..124]) {
            Ok(s) => s,
            Err(e) => return Err(e),
        };
        let owner_name = match utf_to_str(&chunk[265..297]) {
            Ok(s) => s,
            Err(e) => return Err(e),
        };
        let group_name = match utf_to_str(&chunk[297..329]) {
            Ok(s) => s,
            Err(e) => return Err(e),
        };
        proof {
            lemma_octal_field_fits(chunk@.subrange(124, 136));
            lemma_octal_field_fits(chunk@.subrange(136, 148));
            lemma_octal_field_fits(chunk@.subrange(329, 337));
        }
        let size = oct_to_dec(&chunk[124..136]);
        let lmt = oct_to_dec(&chunk[136..148]);
        let dev_major = oct_to_dec(&chunk[329..337]);
        let dev_minor = oct_to_dec(&chunk[329..337]);
        let version: [u8; 2] = [chunk[263], chunk[264]];
        assert(version@ =~= chunk@.subrange(263, 265));
        Ok(FileHeader {
            name: file_name,
            mode,
            owner_id,
            group_id,
            size,
            lmt,
            sum: actual_checksum,
            tpe: chunk[156],
            link: String::new(),
            version,
            owner_name,
            group_name,
            dev_major,
            dev_minor,
        })
    }

    /// The number of 512-byte blocks that hold the entry's data.
    pub fn chunk_count(&self) -> (count: u64)
        ensures
            512 * count >= self.size,
            512 * count < self.size + 512,
    {
        self.size / 512 + if self.size % 512 == 0 {
            0
        } else {
            1
        }
    }
}

} // verus!
