//! Framing of serialized module metadata: the position trailer of an archive
//! and the length-prefixed section that a native object carries.
use vstd::prelude::*;
use vstd::bytes::{spec_u64_to_le_bytes, spec_u64_from_le_bytes, u64_to_le_bytes, u64_from_le_bytes, lemma_auto_spec_u64_to_from_le_bytes};
use crate::errors::DeserializeError;

verus! {

/// Appends the position of the archive's root, as 8 little-endian bytes, to
/// the serialized archive.
pub fn append_archive_position(serialized: Vec<u8>, position: u64) -> (framed: Vec<u8>)
    ensures
        framed@ == serialized@ + spec_u64_to_le_bytes(position),
{
    let mut framed = serialized;
    let trailer = u64_to_le_bytes(position);
    let mut i: usize = 0;
    let ghost start = framed@;
    while i < trailer.len()
        invariant
            i <= trailer.len() == 8,
            framed@ == start + trailer@.subrange(0, i as int),
        decreases trailer.len() - i,
    {
        framed.push(trailer[i]);
        i = i + 1;
        assert(trailer@.subrange(0, i as int) =~= trailer@.subrange(0, i - 1).push(trailer@[i - 1]));
    }
    assert(trailer@.subrange(0, 8) =~= trailer@);
    framed
}

/// The archive in a framed slice: everything before the trailer.
pub open spec fn framed_archive(framed: Seq<u8>) -> Seq<u8> {
    framed.subrange(0, framed.len() - 8)
}

/// The root position that a framed slice's trailer holds.
pub open spec fn framed_position(framed: Seq<u8>) -> u64 {
    spec_u64_from_le_bytes(framed.subrange(framed.len() - 8, framed.len() as int))
}

/// Splits a framed metadata slice into the archive and its root position.
/// A slice shorter than the trailer is refused as incompatible.
pub fn archive_from_slice(metadata_slice: &[u8]) -> (split: Result<(&[u8], u64), DeserializeError>)
    ensures
        metadata_slice@.len() < 8 ==> (split matches Err(DeserializeError::Incompatible(message))
            && message@ == "invalid serialized data"@),
        metadata_slice@.len() >= 8 ==> (split matches Ok((archive, position))
            && archive@ == framed_archive(metadata_slice@)
            && position == framed_position(metadata_slice@)),
{
    let len = metadata_slice.len();
    if len < 8 {
        return Err(DeserializeError::Incompatible(String::from_str("invalid serialized data")));
    }
    let trailer = &metadata_slice[len - 8..len];
    let position = u64_from_le_bytes(trailer);
    let archive = &metadata_slice[0..len - 8];
    Ok((archive, position))
}

/// Reading a framed archive gives back the archive and the position that
/// were framed.
pub proof fn lemma_archive_position_round_trip(archive: Seq<u8>, position: u64)
    ensures
        framed_archive(archive + spec_u64_to_le_bytes(position)) == archive,
        framed_position(archive + spec_u64_to_le_bytes(position)) == position,
{
    lemma_auto_spec_u64_to_from_le_bytes();
    let framed = archive + spec_u64_to_le_bytes(position);
    assert(framed_archive(framed) =~= archive);
    assert(framed.subrange(framed.len() - 8, framed.len() as int) =~= spec_u64_to_le_bytes(position));
}

// ---------------------------------------------------------------------------
// LEB128 length prefix
// ---------------------------------------------------------------------------

/// Unsigned LEB128 encoding: seven bits per byte, least significant first,
/// the high bit set on every byte but the last.
pub open spec fn leb128_encoding(n: nat) -> Seq<u8>
    decreases n,
{
    if n < 128 {
        seq![n as u8]
    } else {
        seq![(n % 128 + 128) as u8] + leb128_encoding(n / 128)
    }
}

/// The value that `leb128::read::unsigned` reads from the front of `bytes`,
/// when the byte at the front is the `depth`-th of the number: `None` when the
/// bytes end before a byte without the high bit, or when the tenth byte is
/// neither 0 nor 1 (the number would not fit in 64 bits).
pub open spec fn leb128_value(bytes: Seq<u8>, depth: nat) -> Option<nat>
    decreases bytes.len(),
{
    if bytes.len() == 0 {
        None
    } else if depth == 9 && bytes[0] != 0 && bytes[0] != 1 {
        None
    } else if bytes[0] < 128 {
        Some(bytes[0] as nat)
    } else {
        match leb128_value(bytes.drop_first(), depth + 1) {
            Some(rest) => Some(((bytes[0] - 128) + 128 * rest) as nat),
            None => None,
        }
    }
}

/// `128` to the power `k`.
pub open spec fn pow128(k: nat) -> nat
    decreases k,
{
    if k == 0 {
        1
    } else {
        128 * pow128((k - 1) as nat)
    }
}

/// `leb128::write::unsigned`, into a fresh vector.
#[verifier::external_body]
fn leb128_write_unsigned(value: u64) -> (bytes: Vec<u8>)
    ensures
        bytes@ == leb128_encoding(value as nat),
{
    let mut bytes = Vec::new();
    leb128::write::unsigned(&mut bytes, value).expect("writing to a vector cannot fail");
    bytes
}

/// `leb128::read::unsigned` from the front of `data`; any error becomes `None`.
#[verifier::external_body]
fn leb128_read_unsigned(data: &[u8]) -> (value: Option<u64>)
    ensures
        match value {
            Some(v) => leb128_value(data@, 0) == Some(v as nat),
            None => leb128_value(data@, 0) is None,
        },
{
    let mut readable = data;
    leb128::read::unsigned(&mut readable).ok()
}

/// A number that fits the bytes still allowed at `depth` is read back from
/// its encoding, whatever follows it; the encoding takes at most `10 - depth`
/// bytes.
pub proof fn lemma_leb128_round_trip(n: nat, depth: nat, rest: Seq<u8>)
    requires
        depth <= 9,
        n < 2 * pow128((9 - depth) as nat),
    ensures
        leb128_value(leb128_encoding(n) + rest, depth) == Some(n),
        leb128_encoding(n).len() <= 10 - depth,
    decreases n,
{
    let bytes = leb128_encoding(n) + rest;
    if n < 128 {
        if depth == 9 {
            assert(pow128(0) == 1);
        }
        assert(bytes[0] == n as u8);
    } else {
        if depth == 9 {
            assert(pow128(0) == 1);
        }
        assert(depth < 9);
        let k = (9 - depth - 1) as nat;
        assert(pow128((9 - depth) as nat) == 128 * pow128(k));
        assert(n / 128 < 2 * pow128(k)) by (nonlinear_arith)
            requires
                n < 2 * (128 * pow128(k)),
        ;
        lemma_leb128_round_trip(n / 128, depth + 1, rest);
        assert(bytes.drop_first() =~= leb128_encoding(n / 128) + rest);
        assert(bytes[0] == (n % 128 + 128) as u8);
        assert(n % 128 + 128 * (n / 128) == n);
    }
}

/// Every 64-bit number is below `2 * 128^9`.
proof fn lemma_u64_fits_leb128(n: u64)
    ensures
        (n as nat) < 2 * pow128(9),
{
    reveal_with_fuel(pow128, 10);
    assert(2 * pow128(9) == 0x1_0000_0000_0000_0000nat);
}

// ---------------------------------------------------------------------------
// Metadata section of a native object
// ---------------------------------------------------------------------------

/// Offset of the content in a metadata section; the bytes before it hold the
/// content's length in LEB128, padded with zeros.
pub const METADATA_CONTENT_OFFSET: usize = 16;

/// The section that carries `content`: its length in LEB128, zeros up to
/// offset 16, then the content.
pub open spec fn metadata_section(content: Seq<u8>) -> Seq<u8> {
    let prefix = leb128_encoding(content.len());
    prefix + Seq::new((16 - prefix.len()) as nat, |_i: int| 0u8) + content
}

/// The bytes from which the length is read: the first 17 of the section, or
/// all of it when it is shorter.
pub open spec fn length_window(section: Seq<u8>) -> Seq<u8> {
    if section.len() < 17 {
        section
    } else {
        section.subrange(0, 17)
    }
}

/// Builds the section that a native object exports its serialized metadata in.
pub fn encode_metadata_section(content: Vec<u8>) -> (section: Vec<u8>)
    ensures
        section@ == metadata_section(content@),
{
    let mut content = content;
    let length = content.len() as u64;
    let mut section = leb128_write_unsigned(length);
    proof {
        lemma_u64_fits_leb128(length);
        lemma_leb128_round_trip(length as nat, 0, Seq::empty());
    }
    let ghost prefix = section@;
    while section.len() < METADATA_CONTENT_OFFSET
        invariant
            prefix.len() <= section@.len() <= 16,
            section@ == prefix + Seq::new((section@.len() - prefix.len()) as nat, |_i: int| 0u8),
        decreases 16 - section@.len(),
    {
        section.push(0);
        assert(section@ =~= prefix + Seq::new((section@.len() - prefix.len()) as nat, |_i: int| 0u8));
    }
    section.append(&mut content);
    section
}

/// Finds the serialized metadata in the section that a native object exports:
/// the length is read in LEB128 from the section's first 17 bytes, and the
/// content starts at offset 16.
pub fn metadata_from_section(section: &[u8]) -> (content: Result<&[u8], DeserializeError>)
    ensures
        match leb128_value(length_window(section@), 0) {
            None => content matches Err(DeserializeError::CorruptedBinary(message))
                && message@ == "Can't read metadata size"@,
            Some(length) => if 16 + length <= section@.len() {
                content matches Ok(bytes) && bytes@ == section@.subrange(16, 16 + length as int)
            } else {
                content matches Err(DeserializeError::CorruptedBinary(message))
                    && message@ == "metadata length exceeds the section"@
            },
        },
{
    let window_len = if section.len() < 17 { section.len() } else { 17 };
    let window = &section[0..window_len];
    assert(window@ == length_window(section@));
    match leb128_read_unsigned(window) {
        None => Err(DeserializeError::CorruptedBinary(String::from_str("Can't read metadata size"))),
        Some(length) => {
            if section.len() >= METADATA_CONTENT_OFFSET && length <= (section.len() - METADATA_CONTENT_OFFSET) as u64 {
                let end = METADATA_CONTENT_OFFSET + length as usize;
                Ok(&section[METADATA_CONTENT_OFFSET..end])
            } else {
                Err(DeserializeError::CorruptedBinary(String::from_str("metadata length exceeds the section")))
            }
        },
    }
}

/// The content of a metadata section is found again in it, whatever bytes
/// follow the section.
pub proof fn lemma_metadata_section_round_trip(content: Seq<u8>, trailing: Seq<u8>)
    requires
        content.len() <= u64::MAX,
    ensures
        leb128_value(length_window(metadata_section(content) + trailing), 0) == Some(content.len()),
        16 + content.len() <= (metadata_section(content) + trailing).len(),
        (metadata_section(content) + trailing).subrange(16, 16 + content.len() as int) == content,
{
    let n = content.len();
    lemma_u64_fits_leb128(n as u64);
    let prefix = leb128_encoding(n);
    let zeros = Seq::new((16 - prefix.len()) as nat, |_i: int| 0u8);
    lemma_leb128_round_trip(n, 0, Seq::empty());
    let all = metadata_section(content) + trailing;
    let window = length_window(all);
    let after = window.skip(prefix.len() as int);
    assert(window =~= prefix + after);
    lemma_leb128_round_trip(n, 0, after);
    assert(all.subrange(16, 16 + n as int) =~= content);
}

} // verus!
