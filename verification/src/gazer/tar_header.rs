use crate::text::{field_text, is_text_field, utf_to_str};
use vstd::prelude::*;
use vstd::utf8::*;

verus! {

/// The header of one entry of a tar archive, as this library reads and writes it.
pub struct TarFileHeader {
    pub name: String,
    pub mode: String,
    pub owner_id: String,
    pub group_id: String,
    pub size: u128,
    pub lmt: u128,
    pub tpe: u8,
    pub link: String,
    pub version: [u8; 2],
}

/// The view of a `TarFileHeader`: its texts as characters, its version as bytes.
pub ghost struct TarFileHeaderView {
    pub name: Seq<char>,
    pub mode: Seq<char>,
    pub owner_id: Seq<char>,
    pub group_id: Seq<char>,
    pub size: u128,
    pub lmt: u128,
    pub tpe: u8,
    pub link: Seq<char>,
    pub version: Seq<u8>,
}

impl View for TarFileHeader {
    type V = TarFileHeaderView;

    open spec fn view(&self) -> TarFileHeaderView {
        TarFileHeaderView {
            name: self.name@,
            mode: self.mode@,
            owner_id: self.owner_id@,
            group_id: self.group_id@,
            size: self.size,
            lmt: self.lmt,
            tpe: self.tpe,
            link: self.link@,
            version: self.version@,
        }
    }
}

/// Whether every byte of a block is zero.
pub open spec fn all_zero(block: Seq<u8>) -> bool {
    forall|i: int| 0 <= i < block.len() ==> block[i] == 0
}

/// The number that a field of octal digits denotes: bytes below `'0'` are
/// skipped, every other byte counts as the digit `byte - '0'`.
pub open spec fn octal_value(digits: Seq<u8>) -> nat
    decreases digits.len(),
{
    if digits.len() == 0 {
        0
    } else {
        let v = octal_value(digits.drop_last());
        let d = digits.last();
        if d >= 48 {
            ((d - 48) + 8 * v) as nat
        } else {
            v
        }
    }
}

/// Sum of the bytes of a sequence.
pub open spec fn byte_sum(bytes: Seq<u8>) -> nat
    decreases bytes.len(),
{
    if bytes.len() == 0 {
        0
    } else {
        byte_sum(bytes.drop_last()) + bytes.last() as nat
    }
}

/// `8` to the power `n`.
pub open spec fn pow8(n: nat) -> nat
    decreases n,
{
    if n == 0 {
        1
    } else {
        8 * pow8((n - 1) as nat)
    }
}

/// The last `width` octal digits of `n`, as ASCII, most significant first.
pub open spec fn octal_text(n: nat, width: nat) -> Seq<u8>
    decreases width,
{
    if width == 0 {
        seq![]
    } else {
        octal_text(n / 8, (width - 1) as nat).push((48 + n % 8) as u8)
    }
}

/// A number field as this library writes it: ten octal digits, then two NULs.
pub open spec fn octal_field(n: nat) -> Seq<u8> {
    octal_text(n, 10) + seq![0u8, 0u8]
}

/// `block` with `block[start..end]` replaced by `items` (the block grows or
/// shrinks when `items` is longer or shorter than the range).
#[verifier::opaque]
pub open spec fn spliced(block: Seq<u8>, start: int, end: int, items: Seq<u8>) -> Seq<u8> {
    block.subrange(0, start) + items + block.subrange(end, block.len() as int)
}

/// A block of 512 zero bytes.
pub open spec fn zero_block() -> Seq<u8> {
    Seq::new(512, |i: int| 0u8)
}

/// The name written into a block: a name of up to 100 bytes replaces the
/// first 100 bytes; a longer one puts its last 100 bytes there and the rest
/// in place of bytes `345..500`.
pub open spec fn with_name(block: Seq<u8>, name: Seq<u8>) -> Seq<u8> {
    if name.len() <= 100 {
        spliced(block, 0, 100, name)
    } else {
        let p = name.len() - 100;
        spliced(spliced(block, 0, 100, name.subrange(p, name.len() as int)), 345, 500, name.subrange(0, p))
    }
}

/// The bytes of the magic field, `ustar`.
pub open spec fn ustar_bytes() -> Seq<u8> {
    seq![117u8, 115u8, 116u8, 97u8, 114u8]
}

/// A header's name, mode, ids, size and time written one after the other,
/// each in place of the bytes of its slot.
pub open spec fn fields_block(header: TarFileHeaderView) -> Seq<u8> {
    let c1 = with_name(zero_block(), encode_utf8(header.name));
    let c2 = spliced(c1, 100, 108, encode_utf8(header.mode));
    let c3 = spliced(c2, 108, 116, encode_utf8(header.owner_id));
    let c4 = spliced(c3, 116, 124, encode_utf8(header.group_id));
    let c5 = spliced(c4, 124, 136, octal_field(header.size as nat));
    spliced(c5, 136, 148, octal_field(header.lmt as nat))
}

/// A header written field by field, before its checksum is filled in.
pub open spec fn unsealed_block(header: TarFileHeaderView) -> Seq<u8> {
    let c7 = fields_block(header).update(156, header.tpe);
    let c8 = spliced(c7, 257, 262, ustar_bytes());
    spliced(c8, 263, 265, seq![48u8, 48u8])
}

/// The written header once its checksum is filled in: bytes `148..156` get the
/// last six of the ten octal digits of the sum of all bytes plus 256, then two NULs.
pub open spec fn sealed_block(header: TarFileHeaderView) -> Seq<u8> {
    let c = unsealed_block(header);
    spliced(c, 148, 156, octal_field(byte_sum(c) + 256).subrange(4, 12))
}

/// The 512-byte block that holds a header: the sealed bytes, padded with zeros.
pub open spec fn header_block(header: TarFileHeaderView) -> Seq<u8> {
    let c = sealed_block(header);
    c + Seq::new((512 - c.len()) as nat, |i: int| 0u8)
}

/// The checksum that a header block records in its bytes `148..156`.
pub open spec fn recorded_checksum(block: Seq<u8>) -> nat {
    octal_value(block.subrange(148, 156))
}

/// The checksum of a header block: the sum of its bytes, with the eight bytes
/// of the checksum field counted as spaces.
pub open spec fn block_checksum(block: Seq<u8>) -> nat {
    byte_sum(block.subrange(0, 148)) + 8 * 32 + byte_sum(block.subrange(156, 512))
}

/// Why a 512-byte block is not a header that this library reads, with the
/// message it is refused with; `None` when it is one.
pub open spec fn header_fault(block: Seq<u8>) -> Option<Seq<char>> {
    if !is_text_field(block, 257, 262) {
        Some("Utf-8 error"@)
    } else if field_text(block, 257, 262) != "ustar"@ {
        Some("bad magic..."@)
    } else if block_checksum(block) != recorded_checksum(block) {
        Some("Checksum error"@)
    } else if !(is_text_field(block, 345, 500) && is_text_field(block, 0, 100)
        && is_text_field(block, 100, 108) && is_text_field(block, 108, 116)
        && is_text_field(block, 116, 124)) {
        Some("Utf-8 error"@)
    } else {
        None
    }
}

/// What the header read from a valid block holds, but for its time.
pub open spec fn describes_entry(header: TarFileHeaderView, block: Seq<u8>) -> bool {
    &&& header.name == field_text(block, 345, 500) + field_text(block, 0, 100)
    &&& header.mode == field_text(block, 100, 108)
    &&& header.owner_id == field_text(block, 108, 116)
    &&& header.group_id == field_text(block, 116, 124)
    &&& header.size == octal_value(block.subrange(124, 136))
    &&& header.tpe == block[156]
    &&& header.link == Seq::<char>::empty()
    &&& header.version == block.subrange(263, 265)
}

/// What the header read from a valid block holds.
pub open spec fn describes(header: TarFileHeaderView, block: Seq<u8>) -> bool {
    &&& describes_entry(header, block)
    &&& header.lmt == octal_value(block.subrange(136, 148))
}

/// Whether a 512-byte block is made of zeros only (an end-of-archive block).
pub fn is_chunk_empty(chunk: &[u8; 512]) -> (empty: bool)
    ensures
        empty == all_zero(chunk@),
{
    let mut i: usize = 0;
    while i < 512
        invariant
            i <= 512,
            forall|j: int| 0 <= j < i ==> chunk@[j] == 0,
        decreases 512 - i,
    {
        if chunk[i] != 0 {
            return false;
        }
        i = i + 1;
    }
    true
}

/// A value read from a prefix of a field is never larger than the value of the field.
pub(crate) proof fn lemma_octal_prefix_monotone(digits: Seq<u8>, i: int, j: int)
    requires
        0 <= i <= j <= digits.len(),
    ensures
        octal_value(digits.take(i)) <= octal_value(digits.take(j)),
    decreases j - i,
{
    if i < j {
        lemma_octal_prefix_monotone(digits, i, j - 1);
        assert(digits.take(j).drop_last() =~= digits.take(j - 1));
    }
}

/// A field of `n` bytes never reads as more than `30 * 8^n - 30`.
proof fn lemma_octal_bound(digits: Seq<u8>)
    ensures
        octal_value(digits) + 30 <= 30 * pow8(digits.len()),
    decreases digits.len(),
{
    if digits.len() > 0 {
        lemma_octal_bound(digits.drop_last());
    }
}

/// The fields of a header block are short enough for their value to fit in a `u64`.
pub(crate) proof fn lemma_octal_field_fits(digits: Seq<u8>)
    requires
        digits.len() <= 12,
    ensures
        octal_value(digits) < 0x1_0000_0000_0000,
{
    lemma_octal_bound(digits);
    lemma_pow8_monotone(digits.len(), 12);
    reveal_with_fuel(pow8, 13);
}

proof fn lemma_pow8_monotone(a: nat, b: nat)
    requires
        a <= b,
    ensures
        pow8(a) <= pow8(b),
    decreases b,
{
    if a < b {
        lemma_pow8_monotone(a, (b - 1) as nat);
    }
}

pub(crate) proof fn lemma_byte_sum_bound(bytes: Seq<u8>)
    ensures
        byte_sum(bytes) <= 255 * bytes.len(),
    decreases bytes.len(),
{
    if bytes.len() > 0 {
        lemma_byte_sum_bound(bytes.drop_last());
    }
}

/// Sum of the bytes of a slice.
pub(crate) fn sum_bytes(bytes: &[u8]) -> (sum: u128)
    requires
        bytes.len() <= 0x1_0000_0000,
    ensures
        sum == byte_sum(bytes@),
{
    let mut sum: u128 = 0;
    let mut i: usize = 0;
    while i < bytes.len()
        invariant
            i <= bytes.len(),
            bytes.len() <= 0x1_0000_0000,
            sum == byte_sum(bytes@.take(i as int)),
        decreases bytes.len() - i,
    {
        proof {
            assert(bytes@.take(i + 1).drop_last() =~= bytes@.take(i as int));
            lemma_byte_sum_bound(bytes@.take(i as int));
        }
        sum = sum + bytes[i] as u128;
        i = i + 1;
    }
    assert(bytes@.take(bytes@.len() as int) =~= bytes@);
    sum
}

fn oct_to_dec(oct: &[u8]) -> (val: u128)
    requires
        octal_value(oct@) <= u128::MAX,
    ensures
        val == octal_value(oct@),
{
    let mut val: u128 = 0;
    let mut i: usize = 0;
    while i < oct.len()
        invariant
            i <= oct.len(),
            val == octal_value(oct@.take(i as int)),
            octal_value(oct@) <= u128::MAX,
        decreases oct.len() - i,
    {
        let digit = oct[i];
        proof {
            assert(oct@.take(i + 1).drop_last() =~= oct@.take(i as int));
            lemma_octal_prefix_monotone(oct@, i + 1, oct@.len() as int);
            assert(oct@.take(oct@.len() as int) =~= oct@);
        }
        if digit >= 48 {
            val = (digit as u128 - 48) + val * 8;
        }
        i = i + 1;
    }
    assert(oct@.take(oct@.len() as int) =~= oct@);
    val
}

/// Writes `dec` as ten octal digits followed by two NULs.
fn dec_to_oct(dec: u128) -> (oct: [u8; 12])
    ensures
        oct@ == octal_field(dec as nat),
{
    let mut d = dec;
    let mut oct = [0u8; 12];
    let mut i: usize = 10;
    assert(octal_text(dec as nat, 10) =~= octal_text(d as nat, 10) + oct@.subrange(10, 10));
    while i > 0
        invariant
            i <= 10,
            oct@.len() == 12,
            oct@[10] == 0,
            oct@[11] == 0,
            octal_text(dec as nat, 10) =~= octal_text(d as nat, i as nat) + oct@.subrange(i as int, 10),
        decreases i,
    {
        let ghost before = oct@;
        i = i - 1;
        oct[i] = (d % 8 + 48) as u8;
        assert(oct@.subrange(i as int, 10) =~= seq![(48 + d % 8) as u8] + before.subrange(i + 1, 10));
        d = d / 8;
    }
    assert(octal_text(d as nat, 0) =~= Seq::<u8>::empty());
    assert(oct@ =~= octal_field(dec as nat));
    oct
}

/// `block` with `block[start..end]` replaced by `items`.
fn splice_bytes(block: &Vec<u8>, start: usize, end: usize, items: &[u8]) -> (out: Vec<u8>)
    requires
        start <= end <= block.len(),
    ensures
        out@ == spliced(block@, start as int, end as int, items@),
        out@.len() == block@.len() - (end - start) + items@.len(),
{
    reveal(spliced);
    let mut out: Vec<u8> = Vec::new();
    let mut i: usize = 0;
    while i < start
        invariant
            i <= start <= end <= block.len(),
            out@ =~= block@.subrange(0, i as int),
        decreases start - i,
    {
        out.push(block[i]);
        i = i + 1;
    }
    let mut j: usize = 0;
    while j < items.len()
        invariant
            j <= items.len(),
            out@ =~= block@.subrange(0, start as int) + items@.subrange(0, j as int),
        decreases items.len() - j,
    {
        out.push(items[j]);
        j = j + 1;
    }
    let mut k: usize = end;
    while k < block.len()
        invariant
            end <= k <= block.len(),
            out@ =~= block@.subrange(0, start as int) + items@ + block@.subrange(end as int, k as int),
        decreases block.len() - k,
    {
        out.push(block[k]);
        k = k + 1;
    }
    out
}

impl TarFileHeader {
    /// Reads the header that a 512-byte block holds.
    pub fn from_chunk(chunk: &[u8; 512]) -> (header: Result<TarFileHeader, String>)
        ensures
            match header {
                Ok(h) => header_fault(chunk@) is None && describes(h@, chunk@),
                Err(e) => header_fault(chunk@) == Some(e@),
            },
    {
        let magic = match utf_to_str(&chunk[257..262]) {
            Ok(s) => s,
            Err(e) => return Err(e),
        };
        let ustar = String::from_str("ustar");
        if !(magic == ustar) {
            return Err(String::from_str("bad magic..."));
        }
        proof {
            lemma_byte_sum_bound(chunk@.subrange(0, 148));
            lemma_byte_sum_bound(chunk@.subrange(156, 512));
            lemma_octal_field_fits(chunk@.subrange(148, 156));
        }
        let required_checksum = sum_bytes(&chunk[0..148]) + 8 * 32 + sum_bytes(&chunk[156..512]);
        let actual_checksum = oct_to_dec(&chunk[148..156]);
        if required_checksum != actual_checksum {
            return Err(String::from_str("Checksum error"));
        }
        let prefix = match utf_to_str(&chunk[345..500]) {
            Ok(s) => s,
            Err(e) => return Err(e),
        };
        let base = match utf_to_str(&chunk[0..100]) {
            Ok(s) => s,
            Err(e) => return Err(e),
        };
        let file_name = prefix.concat(base.as_str());
        let mode = match utf_to_str(&chunk[100..108]) {
            Ok(s) => s,
            Err(e) => return Err(e),
        };
        let owner_id = match utf_to_str(&chunk[108..116]) {
            Ok(s) => s,
            Err(e) => return Err(e),
        };
        let group_id = match utf_to_str(&chunk[116..124]) {
            Ok(s) => s,
            Err(e) => return Err(e),
        };
        proof {
            lemma_octal_field_fits(chunk@.subrange(124, 136));
            lemma_octal_field_fits(chunk@.subrange(136, 148));
        }
        let size = oct_to_dec(&chunk[124..136]);
        let lmt = oct_to_dec(&chunk[136..148]);
        let version: [u8; 2] = [chunk[263], chunk[264]];
        assert(version@ =~= chunk@.subrange(263, 265));
        Ok(TarFileHeader {
            name: file_name,
            mode,
            owner_id,
            group_id,
            size,
            lmt,
            tpe: chunk[156],
            link: String::new(),
            version,
        })
    }

    /// Writes the header into a 512-byte block.
    pub fn to_chunk(&self) -> (chunk: [u8; 512])
        requires
            unsealed_block(self@).len() <= 512,
        ensures
            chunk@ == header_block(self@),
    {
        let mut chunk: Vec<u8> = vec![0u8; 512];
        assert(chunk@ =~= zero_block());
        let name_utf = self.name.as_str().as_bytes();
        if name_utf.len() <= 100 {
            chunk = splice_bytes(&chunk, 0, 100, name_utf);
        } else {
            let prefix_len = name_utf.len() - 100;
            chunk = splice_bytes(&chunk, 0, 100, &name_utf[prefix_len..name_utf.len()]);
            chunk = splice_bytes(&chunk, 345, 500, &name_utf[0..prefix_len]);
        }
        chunk = splice_bytes(&chunk, 100, 108, self.mode.as_str().as_bytes());
        chunk = splice_bytes(&chunk, 108, 116, self.owner_id.as_str().as_bytes());
        chunk = splice_bytes(&chunk, 116, 124, self.group_id.as_str().as_bytes());
        let size_field = dec_to_oct(self.size);
        chunk = splice_bytes(&chunk, 124, 136, size_field.as_slice());
        let lmt_field = dec_to_oct(self.lmt);
        chunk = splice_bytes(&chunk, 136, 148, lmt_field.as_slice());
        chunk.set(156, self.tpe);
        let magic: [u8; 5] = [117, 115, 116, 97, 114];
        assert(magic@ =~= ustar_bytes());
        chunk = splice_bytes(&chunk, 257, 262, magic.as_slice());
        let version: [u8; 2] = [48, 48];
        assert(version@ =~= seq![48u8, 48u8]);
        chunk = splice_bytes(&chunk, 263, 265, version.as_slice());
        assert(chunk@ == unsealed_block(self@));
        proof {
            lemma_byte_sum_bound(chunk@);
        }
        let checksum = sum_bytes(chunk.as_slice()) + 32 * 8;
        let checksum_field = dec_to_oct(checksum);
        chunk = splice_bytes(&chunk, 148, 156, &checksum_field.as_slice()[4..12]);
        assert(chunk@ == sealed_block(self@));
        let mut mem = [0u8; 512];
        let mut i: usize = 0;
        while i < chunk.len()
            invariant
                i <= chunk.len() <= 512,
                mem@.len() == 512,
                forall|j: int| 0 <= j < i ==> mem@[j] == chunk@[j],
                forall|j: int| i <= j < 512 ==> mem@[j] == 0,
            decreases chunk.len() - i,
        {
            mem[i] = chunk[i];
            i = i + 1;
        }
        assert(mem@ =~= header_block(self@));
        mem
    }

    /// The number of 512-byte blocks that hold the entry's data.
    pub fn chunk_count(&self) -> (count: u128)
        ensures
            512 * count >= self.size,
            512 * count < self.size + 512,
    {
        self.size / 512 + if self.size % 512 == 0 {
            0
        } else {
            1
        }
    }
}

} // verus!
