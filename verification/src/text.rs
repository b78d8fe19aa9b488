//! Lines of text as byte strings: UTF-8 bytes, trimming, and hexadecimal.

use vstd::prelude::*;
use vstd::slice::slice_to_vec;
use vstd::utf8::encode_utf8;
use crate::order::byte_strings;

verus! {

/// The text of each line.
pub open spec fn texts(lines: Seq<String>) -> Seq<Seq<char>> {
    Seq::new(lines.len(), |i: int| lines[i]@)
}

/// The UTF-8 bytes of each text.
pub open spec fn utf8_of(texts: Seq<Seq<char>>) -> Seq<Seq<u8>> {
    texts.map_values(|text: Seq<char>| encode_utf8(text))
}

/// What `str::trim` leaves of a text: the text without its leading and
/// trailing whitespace.
pub uninterp spec fn trimmed(text: Seq<char>) -> Seq<char>;

/// Calls `str::trim`. Trusted: what is left is a function of the text alone,
/// which the contract names `trimmed`.
#[verifier::external_body]
pub(crate) fn trim(text: &str) -> (rest: &str)
    ensures
        rest@ == trimmed(text@),
{
    text.trim()
}

/// The test that tells a text with something in it from a blank one.
pub open spec fn not_blank() -> spec_fn(Seq<char>) -> bool {
    |text: Seq<char>| text.len() > 0
}

/// The texts that are not blank, in UTF-8, in the order given.
pub open spec fn nonblank_utf8(texts: Seq<Seq<char>>) -> Seq<Seq<u8>> {
    utf8_of(texts.filter(not_blank()))
}

/// Each line without the whitespace around it.
pub open spec fn all_trimmed(lines: Seq<Seq<char>>) -> Seq<Seq<char>> {
    lines.map_values(|line: Seq<char>| trimmed(line))
}

/// The items that a list of lines stands for: each line without the
/// whitespace around it, in UTF-8, where lines that are blank are left out.
pub open spec fn cleaned(lines: Seq<Seq<char>>) -> Seq<Seq<u8>> {
    nonblank_utf8(all_trimmed(lines))
}

/// The value of a hexadecimal digit given as an ASCII byte, if it is one.
pub open spec fn hex_value(digit: u8) -> Option<u8> {
    if 0x30 <= digit <= 0x39 {
        Some((digit - 0x30) as u8)
    } else if 0x61 <= digit <= 0x66 {
        Some((digit - 0x61 + 10) as u8)
    } else if 0x41 <= digit <= 0x46 {
        Some((digit - 0x41 + 10) as u8)
    } else {
        None
    }
}

/// Whether a text is hexadecimal: an even number of digits, of either case.
pub open spec fn is_hex(text: Seq<u8>) -> bool {
    &&& text.len() % 2 == 0
    &&& forall|i: int| 0 <= i < text.len() ==> hex_value(#[trigger] text[i]) is Some
}

/// The bytes that a hexadecimal text spells: two digits per byte, the high
/// half first.
pub open spec fn hex_decoded(text: Seq<u8>) -> Seq<u8> {
    Seq::new(
        text.len() / 2,
        |i: int| (hex_value(text[2 * i])->Some_0 * 16 + hex_value(text[2 * i + 1])->Some_0) as u8,
    )
}

/// The error of `hex::decode`, carried as it comes.
#[verifier::external_type_specification]
#[verifier::external_body]
pub struct ExFromHexError(hex::FromHexError);

/// Calls `hex::decode`. Trusted: it succeeds exactly on an even number of
/// hexadecimal digits, of either case, and gives the bytes they spell.
#[verifier::external_body]
pub(crate) fn hex_decode(text: &[u8]) -> (res: Result<Vec<u8>, hex::FromHexError>)
    ensures
        res is Ok <==> is_hex(text@),
        res is Ok ==> res->Ok_0@ == hex_decoded(text@),
{
    hex::decode(text)
}

/// The UTF-8 bytes of every line.
pub fn line_bytes(lines: &Vec<String>) -> (out: Vec<Vec<u8>>)
    ensures
        byte_strings(out@) == utf8_of(texts(lines@)),
{
    let mut out: Vec<Vec<u8>> = Vec::with_capacity(lines.len());
    let mut n: usize = 0;
    while n < lines.len()
        invariant
            n <= lines@.len(),
            out@.len() == n,
            forall|i: int| 0 <= i < n ==> (#[trigger] out@[i])@ == encode_utf8(lines@[i]@),
        decreases lines@.len() - n,
    {
        out.push(slice_to_vec(lines[n].as_str().as_bytes()));
        n += 1;
    }
    assert(byte_strings(out@) =~= utf8_of(texts(lines@)));
    out
}

/// The texts of string slices.
pub open spec fn slice_texts(items: Seq<&str>) -> Seq<Seq<char>> {
    Seq::new(items.len(), |i: int| items[i]@)
}

/// Drops the texts that are blank and gives the others in UTF-8.
pub fn drop_blank(items: &Vec<&str>) -> (out: Vec<Vec<u8>>)
    ensures
        byte_strings(out@) == nonblank_utf8(slice_texts(items@)),
{
    let ghost all = slice_texts(items@);
    let mut out: Vec<Vec<u8>> = Vec::new();
    let mut n: usize = 0;
    proof {
        assert(all.take(0) =~= Seq::<Seq<char>>::empty());
        reveal(Seq::filter);
        assert(byte_strings(out@) =~= nonblank_utf8(all.take(0)));
    }
    while n < items.len()
        invariant
            n <= items@.len(),
            all == slice_texts(items@),
            byte_strings(out@) == nonblank_utf8(all.take(n as int)),
        decreases items@.len() - n,
    {
        let ghost before = byte_strings(out@);
        let item: &str = items[n];
        proof {
            assert(all.take(n + 1) =~= all.take(n as int).push(all[n as int]));
            all.take(n as int).lemma_filter_push(all[n as int], not_blank());
        }
        if !item.is_empty() {
            out.push(slice_to_vec(item.as_bytes()));
            proof {
                let kept = all.take(n as int).filter(not_blank());
                assert(byte_strings(out@) =~= before.push(encode_utf8(item@)));
                assert(utf8_of(kept.push(item@)) =~= utf8_of(kept).push(encode_utf8(item@)));
            }
        }
        n += 1;
    }
    assert(all.take(items@.len() as int) =~= all);
    out
}

/// Strips the whitespace around every line and drops the lines that are
/// blank; what is left of each line is given in UTF-8.
pub fn clean_lines(lines: &Vec<String>) -> (out: Vec<Vec<u8>>)
    ensures
        byte_strings(out@) == cleaned(texts(lines@)),
{
    let mut stripped: Vec<&str> = Vec::with_capacity(lines.len());
    let mut n: usize = 0;
    while n < lines.len()
        invariant
            n <= lines@.len(),
            stripped@.len() == n,
            forall|i: int| 0 <= i < n ==> (#[trigger] stripped@[i])@ == trimmed(lines@[i]@),
        decreases lines@.len() - n,
    {
        stripped.push(trim(lines[n].as_str()));
        n += 1;
    }
    assert(slice_texts(stripped@) =~= all_trimmed(texts(lines@)));
    drop_blank(&stripped)
}

} // verus!
