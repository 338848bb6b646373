use crate::gazer::tar_header::{
    block_checksum, byte_sum, describes, describes_entry, header_block, header_fault, octal_field, octal_text,
    octal_value, pow8, recorded_checksum, sealed_block, spliced, unsealed_block, ustar_bytes,
    with_name, zero_block, fields_block, TarFileHeaderView, lemma_byte_sum_bound,
};
use crate::header::FileHeader;
use crate::text::{field_bytes, field_text, is_text_field, lemma_ascii_scalar, nul_free};
use vstd::prelude::*;
use vstd::utf8::*;

verus! {

/// Whether no byte of a sequence is NUL.
pub open spec fn nul_less(bytes: Seq<u8>) -> bool {
    forall|i: int| 0 <= i < bytes.len() ==> bytes[i] != 0
}

/// Whether every byte of `bytes` from position `k` on is zero.
pub open spec fn zero_from(bytes: Seq<u8>, k: int) -> bool {
    forall|i: int| k <= i < bytes.len() ==> bytes[i] == 0
}

/// The headers whose fields land in their slots when written: text fields
/// that fit their slots and hold no NUL, a name of at most 100 bytes (or of at
/// most 255 bytes, split at a character boundary, when mode and ids fill their
/// eight bytes each), a size below `8^10`, no link and version `"00"`.
pub open spec fn fits_layout(header: TarFileHeaderView) -> bool {
    let name = encode_utf8(header.name);
    let mode = encode_utf8(header.mode);
    let owner = encode_utf8(header.owner_id);
    let group = encode_utf8(header.group_id);
    &&& nul_less(name) && nul_less(mode) && nul_less(owner) && nul_less(group)
    &&& mode.len() <= 8 && owner.len() <= 8 && group.len() <= 8
    &&& (name.len() <= 100 || (name.len() <= 255 && mode.len() == 8 && owner.len() == 8
        && group.len() == 8 && is_char_boundary(name, name.len() - 100)))
    &&& header.size < pow8(10)
    &&& header.link == Seq::<char>::empty()
    &&& header.version == seq![48u8, 48u8]
}

/// The headers that a write and a read give back unchanged: those whose
/// fields land in their slots and whose time is below `8^10`.
pub open spec fn round_trips(header: TarFileHeaderView) -> bool {
    fits_layout(header) && header.lmt < pow8(10)
}

proof fn lemma_ustar_text()
    ensures
        valid_utf8(ustar_bytes()),
        decode_utf8(ustar_bytes()) == "ustar"@,
{
    reveal_strlit("ustar");
    let chars = "ustar"@;
    assert(chars =~= seq!['u', 's', 't', 'a', 'r']);
    lemma_ascii_scalar('u' as u32);
    lemma_ascii_scalar('s' as u32);
    lemma_ascii_scalar('t' as u32);
    lemma_ascii_scalar('a' as u32);
    lemma_ascii_scalar('r' as u32);
    reveal_with_fuel(encode_utf8, 6);
    assert(encode_utf8(chars) =~= ustar_bytes());
    encode_utf8_valid_utf8(chars);
    encode_utf8_decode_utf8(chars);
}

proof fn lemma_nul_free_of_nul_less(bytes: Seq<u8>)
    requires
        nul_less(bytes),
    ensures
        nul_free(bytes) == bytes,
    decreases bytes.len(),
{
    reveal(Seq::filter);
    if bytes.len() > 0 {
        lemma_nul_free_of_nul_less(bytes.drop_last());
        assert(bytes.drop_last().push(bytes.last()) =~= bytes);
    }
}

proof fn lemma_nul_free_of_zeros(bytes: Seq<u8>)
    requires
        zero_from(bytes, 0),
    ensures
        nul_free(bytes) == Seq::<u8>::empty(),
    decreases bytes.len(),
{
    reveal(Seq::filter);
    if bytes.len() > 0 {
        lemma_nul_free_of_zeros(bytes.drop_last());
    }
}

/// A field that holds `text` and then NUL padding reads back as `text`.
proof fn lemma_field_reads(field: Seq<u8>, text: Seq<u8>)
    requires
        nul_less(text),
        text.len() <= field.len(),
        forall|i: int| 0 <= i < text.len() ==> field[i] == text[i],
        zero_from(field, text.len() as int),
    ensures
        nul_free(field) == text,
{
    let pad = field.subrange(text.len() as int, field.len() as int);
    assert(field =~= text + pad);
    Seq::filter_distributes_over_add(text, pad, |b: u8| b != 0u8);
    lemma_nul_free_of_nul_less(text);
    lemma_nul_free_of_zeros(pad);
    assert(text + Seq::<u8>::empty() =~= text);
}

proof fn lemma_byte_sum_concat(a: Seq<u8>, b: Seq<u8>)
    ensures
        byte_sum(a + b) == byte_sum(a) + byte_sum(b),
    decreases b.len(),
{
    if b.len() == 0 {
        assert(a + b =~= a);
    } else {
        lemma_byte_sum_concat(a, b.drop_last());
        assert((a + b).drop_last() =~= a + b.drop_last());
    }
}

proof fn lemma_byte_sum_zeros(bytes: Seq<u8>)
    requires
        zero_from(bytes, 0),
    ensures
        byte_sum(bytes) == 0,
    decreases bytes.len(),
{
    if bytes.len() > 0 {
        lemma_byte_sum_zeros(bytes.drop_last());
    }
}

/// Digits written for a number below `8^w` read back as that number.
pub proof fn lemma_octal_text_value(n: nat, w: nat)
    requires
        n < pow8(w),
    ensures
        octal_value(octal_text(n, w)) == n,
    decreases w,
{
    if w > 0 {
        lemma_octal_text_value(n / 8, (w - 1) as nat);
        assert(octal_text(n, w).drop_last() == octal_text(n / 8, (w - 1) as nat));
    }
}

proof fn lemma_pow8_positive(w: nat)
    ensures
        pow8(w) > 0,
    decreases w,
{
    if w > 0 {
        lemma_pow8_positive((w - 1) as nat);
    }
}

/// The `w` digits written for any number read back as that number modulo
/// `8^w`: the digits above the field are lost.
pub proof fn lemma_octal_text_value_mod(n: nat, w: nat)
    ensures
        octal_value(octal_text(n, w)) == n % pow8(w),
    decreases w,
{
    if w > 0 {
        lemma_octal_text_value_mod(n / 8, (w - 1) as nat);
        assert(octal_text(n, w).drop_last() == octal_text(n / 8, (w - 1) as nat));
        lemma_pow8_positive((w - 1) as nat);
        vstd::arithmetic::div_mod::lemma_breakdown(n as int, 8, pow8((w - 1) as nat) as int);
    }
}

/// The number field written for any value reads back as that value modulo
/// `8^10`, so exactly as that value when it is below `8^10`.
pub proof fn lemma_octal_field_value(n: nat)
    ensures
        octal_value(octal_field(n)) == n % pow8(10),
{
    lemma_octal_text_value_mod(n, 10);
    lemma_octal_value_nul_suffix(octal_text(n, 10));
}

/// A number below `8^w` written with one more digit gets a leading `'0'`.
proof fn lemma_octal_leading_zero(n: nat, w: nat)
    requires
        n < pow8(w),
    ensures
        octal_text(n, w + 1) == seq![48u8] + octal_text(n, w),
    decreases w,
{
    if w == 0 {
        reveal_with_fuel(octal_text, 2);
        assert(octal_text(n, 1) =~= seq![48u8]);
    } else {
        lemma_octal_leading_zero(n / 8, (w - 1) as nat);
        assert(octal_text(n, w + 1) =~= seq![48u8] + octal_text(n, w));
    }
}

proof fn lemma_octal_value_nul_suffix(digits: Seq<u8>)
    ensures
        octal_value(digits + seq![0u8, 0u8]) == octal_value(digits),
{
    let s = digits + seq![0u8, 0u8];
    assert(s.drop_last() =~= digits + seq![0u8]);
    assert(s.last() == 0);
    assert((digits + seq![0u8]).drop_last() =~= digits);
    assert((digits + seq![0u8]).last() == 0);
    assert(octal_value(digits + seq![0u8]) == octal_value(digits));
}

/// The number field written for a value below `8^10` reads back as that value.
pub proof fn lemma_octal_field_round_trip(n: nat)
    requires
        n < pow8(10),
    ensures
        octal_field(n).len() == 12,
        octal_value(octal_field(n)) == n,
{
    lemma_octal_text_value(n, 10);
    lemma_octal_value_nul_suffix(octal_text(n, 10));
    lemma_octal_text_len(n, 10);
}

proof fn lemma_octal_text_len(n: nat, w: nat)
    ensures
        octal_text(n, w).len() == w,
    decreases w,
{
    if w > 0 {
        lemma_octal_text_len(n / 8, (w - 1) as nat);
    }
}

/// The checksum field, which keeps the last six of ten digits, reads back as
/// the checksum when it is below `8^6`.
proof fn lemma_checksum_field_round_trip(n: nat)
    requires
        n < pow8(6),
    ensures
        octal_field(n).subrange(4, 12).len() == 8,
        octal_value(octal_field(n).subrange(4, 12)) == n,
{
    reveal_with_fuel(pow8, 11);
    lemma_octal_leading_zero(n, 6);
    lemma_octal_leading_zero(n, 7);
    lemma_octal_leading_zero(n, 8);
    lemma_octal_leading_zero(n, 9);
    lemma_octal_text_len(n, 6);
    lemma_octal_text_len(n, 10);
    assert(octal_field(n).subrange(4, 12) =~= octal_text(n, 6) + seq![0u8, 0u8]);
    lemma_octal_text_value(n, 6);
    lemma_octal_value_nul_suffix(octal_text(n, 6));
}

/// Writing `items` into `block[a..b]` where the block holds only zeros from `a` on.
proof fn lemma_write_into_zeros(block: Seq<u8>, a: int, b: int, items: Seq<u8>)
    requires
        0 <= a <= b <= block.len(),
        items.len() <= b - a,
        zero_from(block, a),
    ensures
        spliced(block, a, b, items).len() == block.len() - (b - a) + items.len(),
        forall|i: int| 0 <= i < a ==> #[trigger] spliced(block, a, b, items)[i] == block[i],
        forall|i: int|
            a <= i < a + items.len() ==> #[trigger] spliced(block, a, b, items)[i] == items[i - a],
        zero_from(spliced(block, a, b, items), a + items.len()),
{
    reveal(spliced);
}

/// Writing `items` over `block[a..b]` when they have the same length.
proof fn lemma_overwrite(block: Seq<u8>, a: int, b: int, items: Seq<u8>)
    requires
        0 <= a <= b <= block.len(),
        items.len() == b - a,
    ensures
        spliced(block, a, b, items).len() == block.len(),
        forall|i: int|
            0 <= i < block.len() ==> #[trigger] spliced(block, a, b, items)[i] == if a <= i < b {
                items[i - a]
            } else {
                block[i]
            },
{
    reveal(spliced);
}

proof fn lemma_spliced_len(block: Seq<u8>, a: int, b: int, items: Seq<u8>)
    requires
        0 <= a <= b <= block.len(),
    ensures
        spliced(block, a, b, items).len() == block.len() - (b - a) + items.len(),
{
    reveal(spliced);
}

/// The length of the block a header is written into before padding: the
/// name takes the place of 100 bytes (and, when longer than 100 bytes, of 255),
/// mode and ids each of eight.
pub proof fn lemma_unsealed_len(h: TarFileHeaderView)
    ensures
        unsealed_block(h).len() == (if encode_utf8(h.name).len() <= 100 {
            412 + encode_utf8(h.name).len()
        } else {
            257 + encode_utf8(h.name).len()
        }) - 24 + encode_utf8(h.mode).len() + encode_utf8(h.owner_id).len() + encode_utf8(
            h.group_id,
        ).len(),
{
    let name = encode_utf8(h.name);
    let z = zero_block();
    let n = name.len() as int;
    if n <= 100 {
        lemma_spliced_len(z, 0, 100, name);
    } else {
        lemma_spliced_len(z, 0, 100, name.subrange(n - 100, n));
        lemma_spliced_len(spliced(z, 0, 100, name.subrange(n - 100, n)), 345, 500, name.subrange(0, n - 100));
    }
    let c1 = with_name(z, name);
    let c2 = spliced(c1, 100, 108, encode_utf8(h.mode));
    lemma_spliced_len(c1, 100, 108, encode_utf8(h.mode));
    let c3 = spliced(c2, 108, 116, encode_utf8(h.owner_id));
    lemma_spliced_len(c2, 108, 116, encode_utf8(h.owner_id));
    let c4 = spliced(c3, 116, 124, encode_utf8(h.group_id));
    lemma_spliced_len(c3, 116, 124, encode_utf8(h.group_id));
    lemma_octal_text_len(h.size as nat, 10);
    lemma_octal_text_len(h.lmt as nat, 10);
    let c5 = spliced(c4, 124, 136, octal_field(h.size as nat));
    lemma_spliced_len(c4, 124, 136, octal_field(h.size as nat));
    let c6 = spliced(c5, 136, 148, octal_field(h.lmt as nat));
    lemma_spliced_len(c5, 136, 148, octal_field(h.lmt as nat));
    assert(c6 == fields_block(h));
    let c7 = c6.update(156, h.tpe);
    lemma_spliced_len(c7, 257, 262, ustar_bytes());
    let c8 = spliced(c7, 257, 262, ustar_bytes());
    lemma_spliced_len(c8, 263, 265, seq![48u8, 48u8]);
}

/// The block padded with zeros to 512 bytes.
pub open spec fn padded(block: Seq<u8>) -> Seq<u8> {
    block + Seq::new((512 - block.len()) as nat, |i: int| 0u8)
}

/// The steps that follow the number fields: type, magic, version, checksum
/// and padding. They keep bytes `0..148` and `265..512`, and the checksum they
/// record is the one the block has.
proof fn lemma_seal(c6: Seq<u8>, tpe: u8)
    requires
        265 <= c6.len() <= 512,
        forall|i: int| 148 <= i < 345 && i < c6.len() ==> c6[i] == 0,
    ensures
        ({
            let c9 = spliced(
                spliced(c6.update(156, tpe), 257, 262, ustar_bytes()),
                263,
                265,
                seq![48u8, 48u8],
            );
            let p = padded(spliced(c9, 148, 156, octal_field(byte_sum(c9) + 256).subrange(4, 12)));
            &&& c9.len() == c6.len()
            &&& p.len() == 512
            &&& p.subrange(0, 148) == c6.subrange(0, 148)
            &&& p[156] == tpe
            &&& p.subrange(257, 262) == ustar_bytes()
            &&& p.subrange(263, 265) == seq![48u8, 48u8]
            &&& p.subrange(265, 512) == padded(c6).subrange(265, 512)
            &&& block_checksum(p) == recorded_checksum(p)
        }),
{
    let c7 = c6.update(156, tpe);
    let c8 = spliced(c7, 257, 262, ustar_bytes());
    let c9 = spliced(c8, 263, 265, seq![48u8, 48u8]);
    lemma_overwrite(c7, 257, 262, ustar_bytes());
    lemma_overwrite(c8, 263, 265, seq![48u8, 48u8]);
    let len = c9.len() as int;
    assert(len == c6.len());
    lemma_byte_sum_bound(c9);
    let cs = byte_sum(c9) + 256;
    reveal_with_fuel(pow8, 7);
    lemma_checksum_field_round_trip(cs);
    let cs8 = octal_field(cs).subrange(4, 12);
    let s = spliced(c9, 148, 156, cs8);
    lemma_overwrite(c9, 148, 156, cs8);
    let p = padded(s);
    assert(p.len() == 512);
    assert(p.subrange(0, 148) =~= c6.subrange(0, 148));
    assert(p.subrange(257, 262) =~= ustar_bytes());
    assert(p.subrange(263, 265) =~= seq![48u8, 48u8]);
    assert(p.subrange(265, 512) =~= padded(c6).subrange(265, 512));
    assert(p.subrange(148, 156) =~= cs8);
    // the checksum: the sum of the sealed bytes outside 148..156 is the sum of c9
    let head = c9.subrange(0, 148);
    let mid = c9.subrange(148, 156);
    let tail = c9.subrange(156, len);
    let pad = Seq::new((512 - len) as nat, |i: int| 0u8);
    assert(c9 =~= head + mid + tail);
    lemma_byte_sum_concat(head + mid, tail);
    lemma_byte_sum_concat(head, mid);
    lemma_byte_sum_zeros(mid);
    assert(p.subrange(0, 148) =~= head);
    assert(p.subrange(156, 512) =~= tail + pad);
    lemma_byte_sum_concat(tail, pad);
    lemma_byte_sum_zeros(pad);
}

/// What the fields of a round-tripping header leave in bytes `0..148` and
/// `345..500`, and that bytes `148..345` stay zero.
pub open spec fn fields_laid_out(header: TarFileHeaderView, c6: Seq<u8>) -> bool {
    let name = encode_utf8(header.name);
    let p = padded(c6);
    &&& 265 <= c6.len() <= 512
    &&& forall|i: int| 148 <= i < 345 && i < c6.len() ==> c6[i] == 0
    &&& name.len() <= 100 ==> nul_free(p.subrange(0, 100)) == name && nul_free(p.subrange(345, 500))
        == Seq::<u8>::empty()
    &&& name.len() > 100 ==> nul_free(p.subrange(0, 100)) == name.subrange(
        name.len() - 100,
        name.len() as int,
    ) && nul_free(p.subrange(345, 500)) == name.subrange(0, name.len() - 100)
    &&& nul_free(p.subrange(100, 108)) == encode_utf8(header.mode)
    &&& nul_free(p.subrange(108, 116)) == encode_utf8(header.owner_id)
    &&& nul_free(p.subrange(116, 124)) == encode_utf8(header.group_id)
    &&& p.subrange(124, 136) == octal_field(header.size as nat)
    &&& p.subrange(136, 148) == octal_field(header.lmt as nat)
}

#[verifier::rlimit(40)]
proof fn lemma_short_name_fields(h: TarFileHeaderView)
    requires
        fits_layout(h),
        encode_utf8(h.name).len() <= 100,
    ensures
        fields_laid_out(h, fields_block(h)),
{
    let name = encode_utf8(h.name);
    let mode = encode_utf8(h.mode);
    let owner = encode_utf8(h.owner_id);
    let group = encode_utf8(h.group_id);
    let size = octal_field(h.size as nat);
    let lmt = octal_field(h.lmt as nat);
    lemma_octal_field_round_trip(h.size as nat);
    lemma_octal_text_len(h.lmt as nat, 10);
    let z = zero_block();
    let c1 = spliced(z, 0, 100, name);
    assert(c1 == with_name(z, name));
    lemma_write_into_zeros(z, 0, 100, name);
    lemma_write_into_zeros(c1, 100, 108, mode);
    let c2 = spliced(c1, 100, 108, mode);
    lemma_write_into_zeros(c2, 108, 116, owner);
    let c3 = spliced(c2, 108, 116, owner);
    lemma_write_into_zeros(c3, 116, 124, group);
    let c4 = spliced(c3, 116, 124, group);
    lemma_write_into_zeros(c4, 124, 136, size);
    let c5 = spliced(c4, 124, 136, size);
    lemma_write_into_zeros(c5, 136, 148, lmt);
    let c6 = spliced(c5, 136, 148, lmt);
    assert(c6 == fields_block(h));
    let p = padded(c6);
    assert(c6.len() == 388 + name.len() + mode.len() + owner.len() + group.len());
    assert forall|i: int| 0 <= i < 100 implies #[trigger] p[i] == c1[i] by {
        assert(c6[i] == c5[i] && c5[i] == c4[i] && c4[i] == c3[i] && c3[i] == c2[i] && c2[i] == c1[i]);
    }
    lemma_field_reads(p.subrange(0, 100), name);
    assert forall|i: int| 100 <= i < 108 implies #[trigger] p[i] == c2[i] by {
        assert(c6[i] == c5[i] && c5[i] == c4[i] && c4[i] == c3[i] && c3[i] == c2[i]);
    }
    lemma_field_reads(p.subrange(100, 108), mode);
    assert forall|i: int| 108 <= i < 116 implies #[trigger] p[i] == c3[i] by {
        assert(c6[i] == c5[i] && c5[i] == c4[i] && c4[i] == c3[i]);
    }
    lemma_field_reads(p.subrange(108, 116), owner);
    assert forall|i: int| 116 <= i < 124 implies #[trigger] p[i] == c4[i] by {
        assert(c6[i] == c5[i] && c5[i] == c4[i]);
    }
    lemma_field_reads(p.subrange(116, 124), group);
    assert forall|i: int| 124 <= i < 136 implies #[trigger] p[i] == c5[i] by {
        assert(c6[i] == c5[i]);
    }
    assert(p.subrange(124, 136) =~= size);
    assert(p.subrange(136, 148) =~= lmt);
    lemma_nul_free_of_zeros(p.subrange(345, 500));
}

#[verifier::rlimit(40)]
proof fn lemma_long_name_fields(h: TarFileHeaderView)
    requires
        fits_layout(h),
        encode_utf8(h.name).len() > 100,
    ensures
        fields_laid_out(h, fields_block(h)),
{
    let name = encode_utf8(h.name);
    let n = name.len() as int;
    let cut = n - 100;
    let mode = encode_utf8(h.mode);
    let owner = encode_utf8(h.owner_id);
    let group = encode_utf8(h.group_id);
    let size = octal_field(h.size as nat);
    let lmt = octal_field(h.lmt as nat);
    lemma_octal_field_round_trip(h.size as nat);
    lemma_octal_text_len(h.lmt as nat, 10);
    let z = zero_block();
    let last = name.subrange(cut, n);
    let first = name.subrange(0, cut);
    lemma_overwrite(z, 0, 100, last);
    let c1a = spliced(z, 0, 100, last);
    lemma_write_into_zeros(c1a, 345, 500, first);
    let c1 = spliced(c1a, 345, 500, first);
    assert(c1 == with_name(z, name));
    lemma_overwrite(c1, 100, 108, mode);
    let c2 = spliced(c1, 100, 108, mode);
    lemma_overwrite(c2, 108, 116, owner);
    let c3 = spliced(c2, 108, 116, owner);
    lemma_overwrite(c3, 116, 124, group);
    let c4 = spliced(c3, 116, 124, group);
    lemma_overwrite(c4, 124, 136, size);
    let c5 = spliced(c4, 124, 136, size);
    lemma_overwrite(c5, 136, 148, lmt);
    let c6 = spliced(c5, 136, 148, lmt);
    assert(c6 == fields_block(h));
    let p = padded(c6);
    assert(p.subrange(0, 100) =~= last);
    lemma_nul_free_of_nul_less(last);
    lemma_field_reads(p.subrange(345, 500), first);
    assert(p.subrange(100, 108) =~= mode);
    lemma_nul_free_of_nul_less(mode);
    assert(p.subrange(108, 116) =~= owner);
    lemma_nul_free_of_nul_less(owner);
    assert(p.subrange(116, 124) =~= group);
    lemma_nul_free_of_nul_less(group);
    assert(p.subrange(124, 136) =~= size);
    assert(p.subrange(136, 148) =~= lmt);
}

/// A text field that holds the UTF-8 bytes of `text` reads back as `text`.
proof fn lemma_text_reads(field_bytes_seen: Seq<u8>, text: Seq<char>)
    requires
        field_bytes_seen == encode_utf8(text),
    ensures
        valid_utf8(field_bytes_seen),
        decode_utf8(field_bytes_seen) == text,
{
    encode_utf8_valid_utf8(text);
    encode_utf8_decode_utf8(text);
}

/// A header whose fields land in their slots is written into a block that
/// `from_chunk` accepts and that holds the header's entry, and its time as
/// ten octal digits.
pub proof fn lemma_header_layout(h: TarFileHeaderView)
    requires
        fits_layout(h),
    ensures
        unsealed_block(h).len() <= 512,
        header_fault(header_block(h)) is None,
        describes_entry(h, header_block(h)),
        header_block(h).subrange(136, 148) == octal_field(h.lmt as nat),
        header_block(h).subrange(257, 262) == ustar_bytes(),
        header_block(h).len() == 512,
        forall|i: int| 265 <= i < 345 ==> #[trigger] header_block(h)[i] == 0,
{
    let name = encode_utf8(h.name);
    if name.len() <= 100 {
        lemma_short_name_fields(h);
    } else {
        lemma_long_name_fields(h);
    }
    let c6 = fields_block(h);
    lemma_seal(c6, h.tpe);
    let b = header_block(h);
    assert(b == padded(sealed_block(h)));
    assert forall|i: int| 0 <= i < 148 implies #[trigger] b[i] == padded(c6)[i] by {
        assert(b.subrange(0, 148)[i] == c6.subrange(0, 148)[i]);
    }
    assert forall|i: int| 265 <= i < 512 implies #[trigger] b[i] == padded(c6)[i] by {
        assert(b.subrange(265, 512)[i - 265] == padded(c6).subrange(265, 512)[i - 265]);
    }
    assert forall|i: int| 265 <= i < 345 implies #[trigger] b[i] == 0 by {
        assert(b[i] == padded(c6)[i]);
    }
    assert(b.subrange(0, 100) =~= padded(c6).subrange(0, 100));
    assert(b.subrange(100, 108) =~= padded(c6).subrange(100, 108));
    assert(b.subrange(108, 116) =~= padded(c6).subrange(108, 116));
    assert(b.subrange(116, 124) =~= padded(c6).subrange(116, 124));
    assert(b.subrange(124, 136) =~= padded(c6).subrange(124, 136));
    assert(b.subrange(136, 148) =~= padded(c6).subrange(136, 148));
    assert(b.subrange(345, 500) =~= padded(c6).subrange(345, 500));
    // magic
    lemma_ustar_text();
    assert(nul_less(ustar_bytes()));
    lemma_nul_free_of_nul_less(ustar_bytes());
    assert(field_bytes(b, 257, 262) == ustar_bytes());
    // text fields
    lemma_text_reads(field_bytes(b, 100, 108), h.mode);
    lemma_text_reads(field_bytes(b, 108, 116), h.owner_id);
    lemma_text_reads(field_bytes(b, 116, 124), h.group_id);
    encode_utf8_valid_utf8(h.name);
    encode_utf8_decode_utf8(h.name);
    if name.len() <= 100 {
        lemma_text_reads(field_bytes(b, 0, 100), h.name);
        assert(field_bytes(b, 345, 500) == encode_utf8(Seq::<char>::empty()));
        lemma_text_reads(field_bytes(b, 345, 500), Seq::<char>::empty());
        assert(Seq::<char>::empty() + h.name =~= h.name);
    } else {
        let cut = name.len() - 100;
        valid_utf8_split(name, cut);
        decode_utf8_split(name, cut);
        assert(name.subrange(cut, name.len() as int) == field_bytes(b, 0, 100));
        assert(name.subrange(0, cut) == field_bytes(b, 345, 500));
    }
    lemma_octal_field_round_trip(h.size as nat);
    assert(b.subrange(263, 265) =~= h.version);
}

/// Writing a header and reading the block back gives the same header: for
/// every header whose fields fit their slots and whose numbers are below
/// `8^10` (see `round_trips`), the block that `to_chunk` builds is accepted
/// by `from_chunk` and describes it.
pub proof fn lemma_header_round_trip(h: TarFileHeaderView)
    requires
        round_trips(h),
    ensures
        unsealed_block(h).len() <= 512,
        header_fault(header_block(h)) is None,
        describes(h, header_block(h)),
{
    lemma_header_layout(h);
    lemma_octal_field_round_trip(h.lmt as nat);
}

/// A field whose bytes are all NUL is valid text, and reads as no text.
pub(crate) proof fn lemma_zero_field_text(block: Seq<u8>, lo: int, hi: int)
    requires
        0 <= lo <= hi <= block.len(),
        forall|i: int| lo <= i < hi ==> #[trigger] block[i] == 0,
    ensures
        field_bytes(block, lo, hi) == Seq::<u8>::empty(),
        is_text_field(block, lo, hi),
        field_text(block, lo, hi) == Seq::<char>::empty(),
{
    assert forall|i: int| 0 <= i < block.subrange(lo, hi).len() implies #[trigger] block.subrange(lo, hi)[i]
        == 0 by {
        assert(block[lo + i] == 0);
    }
    lemma_nul_free_of_zeros(block.subrange(lo, hi));
}

/// The legacy reader (`FileHeader::from_chunk`) accepts every header block
/// this library writes for a header whose fields land in their slots, and
/// reads it back as the same entry: the same name, mode, ids, size, time,
/// type and version.
pub proof fn lemma_legacy_reader_round_trip(h: TarFileHeaderView)
    requires
        round_trips(h),
    ensures
        crate::header::header_fault(header_block(h)) is None,
        forall|f: FileHeader|
            #![trigger crate::header::describes(f, header_block(h))]
            crate::header::describes(f, header_block(h)) ==> {
                &&& f.name@ == h.name
                &&& f.mode@ == h.mode
                &&& f.owner_id@ == h.owner_id
                &&& f.group_id@ == h.group_id
                &&& f.size == h.size
                &&& f.lmt == h.lmt
                &&& f.tpe == h.tpe
                &&& f.link@ == h.link
                &&& f.version@ == h.version
            },
{
    lemma_header_round_trip(h);
    lemma_header_layout(h);
    let b = header_block(h);
    lemma_zero_field_text(b, 265, 297);
    lemma_zero_field_text(b, 297, 329);
}

/// Neither reader looks at the version bytes `263..265`: two blocks that
/// differ only there and in their checksum field, each with a checksum that
/// matches, are accepted alike, and a header read from one is read from the
/// other but for its version.
pub proof fn lemma_version_bytes_unchecked(b1: Seq<u8>, b2: Seq<u8>)
    requires
        b1.len() == 512,
        b2.len() == 512,
        forall|i: int|
            0 <= i < 512 && !(148 <= i < 156) && !(263 <= i < 265) ==> #[trigger] b1[i] == b2[i],
        block_checksum(b1) == recorded_checksum(b1),
        block_checksum(b2) == recorded_checksum(b2),
    ensures
        header_fault(b1) is None <==> header_fault(b2) is None,
        crate::header::header_fault(b1) is None <==> crate::header::header_fault(b2) is None,
        forall|v: TarFileHeaderView|
            #![trigger describes(v, b1)]
            describes(v, b1) ==> describes(
                (TarFileHeaderView { version: b2.subrange(263, 265), ..v }),
                b2,
            ),
{
    assert(b1.subrange(0, 100) =~= b2.subrange(0, 100));
    assert(b1.subrange(100, 108) =~= b2.subrange(100, 108));
    assert(b1.subrange(108, 116) =~= b2.subrange(108, 116));
    assert(b1.subrange(116, 124) =~= b2.subrange(116, 124));
    assert(b1.subrange(124, 136) =~= b2.subrange(124, 136));
    assert(b1.subrange(136, 148) =~= b2.subrange(136, 148));
    assert(b1[156] == b2[156]);
    assert(b1.subrange(257, 262) =~= b2.subrange(257, 262));
    assert(b1.subrange(265, 297) =~= b2.subrange(265, 297));
    assert(b1.subrange(297, 329) =~= b2.subrange(297, 329));
    assert(b1.subrange(345, 500) =~= b2.subrange(345, 500));
}

} // verus!
