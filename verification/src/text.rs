use vstd::prelude::*;
use vstd::utf8::*;

verus! {

/// The bytes of a text field with its NUL padding removed, wherever it stands.
pub open spec fn nul_free(field: Seq<u8>) -> Seq<u8> {
    field.filter(|b: u8| b != 0u8)
}

/// The bytes of the text field that spans `lo..hi` of a block, NULs left out.
pub open spec fn field_bytes(block: Seq<u8>, lo: int, hi: int) -> Seq<u8> {
    nul_free(block.subrange(lo, hi))
}

/// Whether the text field that spans `lo..hi` of a block is valid UTF-8 once
/// its NULs are left out.
pub open spec fn is_text_field(block: Seq<u8>, lo: int, hi: int) -> bool {
    valid_utf8(field_bytes(block, lo, hi))
}

/// The text that the field spanning `lo..hi` of a block holds.
pub open spec fn field_text(block: Seq<u8>, lo: int, hi: int) -> Seq<char> {
    decode_utf8(field_bytes(block, lo, hi))
}

/// The UTF-8 bytes of two texts one after the other are those of the joined text.
pub proof fn lemma_encode_utf8_concat(a: Seq<char>, b: Seq<char>)
    ensures
        encode_utf8(a + b) == encode_utf8(a) + encode_utf8(b),
    decreases a.len(),
{
    if a.len() == 0 {
        assert(a + b =~= b);
        assert(Seq::<u8>::empty() + encode_utf8(b) =~= encode_utf8(b));
    } else {
        lemma_encode_utf8_concat(a.drop_first(), b);
        assert((a + b).drop_first() =~= a.drop_first() + b);
        assert((a + b)[0] == a[0]);
        assert(encode_utf8(a + b) =~= encode_utf8(a) + encode_utf8(b));
    }
}

/// A value below 128 keeps all its bits under the mask `0x7F`.
pub proof fn lemma_ascii_scalar(v: u32)
    by (bit_vector)
    requires
        v < 128,
    ensures
        (v & 0x7F) == v,
{
}

/// Characters below 128 are encoded as themselves, one byte each.
pub proof fn lemma_ascii_encoding(s: Seq<char>)
    requires
        forall|i: int| 0 <= i < s.len() ==> (#[trigger] s[i] as u32) < 128,
    ensures
        encode_utf8(s).len() == s.len(),
        forall|i: int| 0 <= i < s.len() ==> #[trigger] encode_utf8(s)[i] == (s[i] as u32) as u8,
    decreases s.len(),
{
    if s.len() > 0 {
        lemma_ascii_encoding(s.drop_first());
        lemma_ascii_scalar(s[0] as u32);
        assert forall|i: int| 0 <= i < s.len() implies #[trigger] encode_utf8(s)[i] == (s[i] as u32) as u8 by {
            if i > 0 {
                assert(s.drop_first()[i - 1] == s[i]);
            }
        }
    }
}

/// `std::str::from_utf8`: it accepts exactly the byte sequences that are valid
/// UTF-8, and the text it hands back is what those bytes encode.
#[verifier::external_body]
fn str_from_utf8(bytes: &[u8]) -> (text: Option<&str>)
    ensures
        text is Some <==> valid_utf8(bytes@),
        text matches Some(s) ==> s@ == decode_utf8(bytes@),
{
    std::str::from_utf8(bytes).ok()
}

/// Copies a field, leaving out its NUL bytes.
pub(crate) fn strip_nul(field: &[u8]) -> (out: Vec<u8>)
    ensures
        out@ == nul_free(field@),
{
    let mut out: Vec<u8> = Vec::new();
    let mut i: usize = 0;
    while i < field.len()
        invariant
            i <= field.len(),
            out@ == nul_free(field@.take(i as int)),
        decreases field.len() - i,
    {
        proof {
            reveal(Seq::filter);
            assert(field@.take(i + 1).drop_last() =~= field@.take(i as int));
        }
        if field[i] != 0 {
            out.push(field[i]);
        }
        i = i + 1;
    }
    assert(field@.take(field@.len() as int) =~= field@);
    out
}

/// Reads a NUL-padded text field: the bytes that are not NUL, decoded as UTF-8.
pub(crate) fn utf_to_str(utf: &[u8]) -> (text: Result<String, String>)
    ensures
        text is Ok <==> valid_utf8(nul_free(utf@)),
        text matches Ok(s) ==> s@ == decode_utf8(nul_free(utf@)),
        text matches Err(e) ==> e@ == "Utf-8 error"@,
{
    let bytes = strip_nul(utf);
    match str_from_utf8(bytes.as_slice()) {
        Some(s) => Ok(s.to_owned()),
        None => Err(String::from_str("Utf-8 error")),
    }
}

} // verus!
