//! UTF-8 decoding of input bytes and encoding of output characters.

use vstd::prelude::*;

verus! {

/// The bytes that UTF-8 encodes a character with: one to four bytes, chosen by the
/// character's scalar value.
pub open spec fn utf8_of_char(c: char) -> Seq<u8> {
    let v = c as u32;
    if v < 0x80 {
        seq![v as u8]
    } else if v < 0x800 {
        seq![(0xC0 + v / 64) as u8, (0x80 + v % 64) as u8]
    } else if v < 0x10000 {
        seq![(0xE0 + v / 4096) as u8, (0x80 + (v / 64) % 64) as u8, (0x80 + v % 64) as u8]
    } else {
        seq![
            (0xF0 + v / 262144) as u8,
            (0x80 + (v / 4096) % 64) as u8,
            (0x80 + (v / 64) % 64) as u8,
            (0x80 + v % 64) as u8,
        ]
    }
}

/// The UTF-8 encoding of a sequence of characters, one character after another.
pub open spec fn utf8_of_str(cs: Seq<char>) -> Seq<u8>
    decreases cs.len(),
{
    if cs.len() == 0 {
        Seq::empty()
    } else {
        utf8_of_str(cs.drop_last()) + utf8_of_char(cs.last())
    }
}

/// Encoding a concatenation encodes each part in turn.
pub proof fn lemma_utf8_of_str_append(a: Seq<char>, b: Seq<char>)
    ensures
        utf8_of_str(a + b) == utf8_of_str(a) + utf8_of_str(b),
    decreases b.len(),
{
    if b.len() == 0 {
        assert(a + b =~= a);
        assert(utf8_of_str(a) + utf8_of_str(b) =~= utf8_of_str(a));
    } else {
        lemma_utf8_of_str_append(a, b.drop_last());
        assert((a + b).drop_last() =~= a + b.drop_last());
        assert((a + b).last() == b.last());
        assert(utf8_of_str(a + b) =~= utf8_of_str(a) + utf8_of_str(b));
    }
}

/// Encoding one more character appends its bytes.
pub proof fn lemma_utf8_of_str_push(cs: Seq<char>, c: char)
    ensures
        utf8_of_str(cs.push(c)) == utf8_of_str(cs) + utf8_of_char(c),
{
    assert(cs.push(c).drop_last() =~= cs);
}

/// Appends the UTF-8 encoding of `c` to `out`.
pub fn push_utf8(out: &mut Vec<u8>, c: char)
    ensures
        final(out)@ == old(out)@ + utf8_of_char(c),
{
    let v = c as u32;
    let ghost start = out@;
    if v < 0x80 {
        out.push(v as u8);
    } else if v < 0x800 {
        out.push((0xC0 + v / 64) as u8);
        out.push((0x80 + v % 64) as u8);
    } else if v < 0x10000 {
        out.push((0xE0 + v / 4096) as u8);
        out.push((0x80 + (v / 64) % 64) as u8);
        out.push((0x80 + v % 64) as u8);
    } else {
        out.push((0xF0 + v / 262144) as u8);
        out.push((0x80 + (v / 4096) % 64) as u8);
        out.push((0x80 + (v / 64) % 64) as u8);
        out.push((0x80 + v % 64) as u8);
    }
    assert(out@ =~= start + utf8_of_char(c));
}

/// What `utf8_decode::Decoder` yields for `bytes` when every item is a character: those
/// characters in order, or `None` when it reports an error on some item.
pub uninterp spec fn decoded_utf8(bytes: Seq<u8>) -> Option<Seq<char>>;

/// Relies on `utf8_decode::Decoder`: it reads `bytes` front to back, one character per
/// sequence of one to four bytes, and yields an error on a sequence it cannot read.
/// Every character takes at least one byte, and the UTF-8 encoding of characters reads
/// back as those characters.
#[verifier::external_body]
fn decode_utf8(bytes: &[u8]) -> (r: Option<Vec<char>>)
    ensures
        r is Some <==> decoded_utf8(bytes@) is Some,
        r is Some ==> decoded_utf8(bytes@) == Some(r.unwrap()@),
        r is Some ==> r.unwrap()@.len() <= bytes@.len(),
        forall|cs: Seq<char>| utf8_of_str(cs) == bytes@ ==> r is Some && r.unwrap()@ == cs,
{
    utf8_decode::Decoder::new(bytes.iter().copied()).collect::<std::io::Result<Vec<char>>>().ok()
}

/// The input bytes are not UTF-8 that the decoder can read.
#[derive(Debug, Clone, Copy, PartialEq, Eq, Structural)]
pub struct DecodeError;

/// Decodes `bytes` into characters, or fails with [`DecodeError`] exactly where the
/// decoder reports an error.
pub fn decode(bytes: &[u8]) -> (r: Result<Vec<char>, DecodeError>)
    ensures
        r is Ok <==> decoded_utf8(bytes@) is Some,
        r matches Ok(v) ==> decoded_utf8(bytes@) == Some(v@) && v@.len() <= bytes@.len(),
        forall|cs: Seq<char>|
            #![trigger utf8_of_str(cs)]
            utf8_of_str(cs) == bytes@ ==> (r matches Ok(v) && v@ == cs),
{
    match decode_utf8(bytes) {
        Some(v) => Ok(v),
        None => Err(DecodeError),
    }
}

} // verus!
