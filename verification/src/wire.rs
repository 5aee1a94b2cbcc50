//! How values are laid out as bytes, on disk and between nodes.
//!
//! Integers are little-endian and of fixed width, a flag is one byte, a list
//! is its length as 64 bits followed by its elements, and a text is the list
//! of its UTF-8 bytes. For every kind of value there is a function that gives
//! its bytes and one that reads it back from the beginning of a byte sequence.
use vstd::prelude::*;
use vstd::slice::slice_subrange;

verus! {

/// The errors of `bincode`.
#[verifier::external_type_specification]
#[verifier::external_body]
pub struct ExErrorKind(bincode::ErrorKind);

pub open spec fn u32_bytes(x: u32) -> Seq<u8> {
    vstd::bytes::spec_u32_to_le_bytes(x)
}

pub open spec fn u64_bytes(x: u64) -> Seq<u8> {
    vstd::bytes::spec_u64_to_le_bytes(x)
}

pub open spec fn flag_bytes(b: bool) -> Seq<u8> {
    seq![if b { 1u8 } else { 0u8 }]
}

pub open spec fn optional_bytes(o: Option<u64>) -> Seq<u8> {
    match o {
        None => seq![0u8],
        Some(x) => seq![1u8] + u64_bytes(x),
    }
}

pub open spec fn blob_bytes(b: Seq<u8>) -> Seq<u8> {
    u64_bytes(b.len() as u64) + b
}

pub open spec fn text_bytes(t: Seq<char>) -> Seq<u8> {
    blob_bytes(vstd::utf8::encode_utf8(t))
}

/// A blob is short enough for its length to fit.
pub open spec fn blob_fits(b: Seq<u8>) -> bool {
    b.len() <= u64::MAX
}

/// A text is short enough for its length to fit.
pub open spec fn text_fits(t: Seq<char>) -> bool {
    blob_fits(vstd::utf8::encode_utf8(t))
}

pub open spec fn parse_u32(s: Seq<u8>) -> Option<(u32, Seq<u8>)> {
    if s.len() >= 4 {
        Some((vstd::bytes::spec_u32_from_le_bytes(s.take(4)), s.skip(4)))
    } else {
        None
    }
}

pub open spec fn parse_u64(s: Seq<u8>) -> Option<(u64, Seq<u8>)> {
    if s.len() >= 8 {
        Some((vstd::bytes::spec_u64_from_le_bytes(s.take(8)), s.skip(8)))
    } else {
        None
    }
}

pub open spec fn parse_flag(s: Seq<u8>) -> Option<(bool, Seq<u8>)> {
    if s.len() >= 1 && s[0] == 0 {
        Some((false, s.skip(1)))
    } else if s.len() >= 1 && s[0] == 1 {
        Some((true, s.skip(1)))
    } else {
        None
    }
}

pub open spec fn parse_optional(s: Seq<u8>) -> Option<(Option<u64>, Seq<u8>)> {
    match parse_flag(s) {
        Some((false, rest)) => Some((None, rest)),
        Some((true, rest)) => match parse_u64(rest) {
            Some((x, rest)) => Some((Some(x), rest)),
            None => None,
        },
        None => None,
    }
}

pub open spec fn parse_blob(s: Seq<u8>) -> Option<(Seq<u8>, Seq<u8>)> {
    match parse_u64(s) {
        Some((n, rest)) => if n <= rest.len() {
            Some((rest.take(n as int), rest.skip(n as int)))
        } else {
            None
        },
        None => None,
    }
}

pub open spec fn parse_text(s: Seq<u8>) -> Option<(Seq<char>, Seq<u8>)> {
    match parse_blob(s) {
        Some((b, rest)) => if vstd::utf8::valid_utf8(b) {
            Some((vstd::utf8::decode_utf8(b), rest))
        } else {
            None
        },
        None => None,
    }
}

/// `bincode::serialize` on a `u32`: it succeeds with four little-endian bytes.
#[verifier::external_body]
fn serialize_u32(x: u32) -> (r: Result<Vec<u8>, bincode::Error>)
    ensures
        r is Ok,
        r->Ok_0@ == u32_bytes(x),
{
    bincode::serialize(&x)
}

/// `bincode::serialize` on a `u64`: it succeeds with eight little-endian
/// bytes.
#[verifier::external_body]
fn serialize_u64(x: u64) -> (r: Result<Vec<u8>, bincode::Error>)
    ensures
        r is Ok,
        r->Ok_0@ == u64_bytes(x),
{
    bincode::serialize(&x)
}

/// `bincode::serialize` on a `bool`: it succeeds with one byte, 0 or 1.
#[verifier::external_body]
fn serialize_flag(x: bool) -> (r: Result<Vec<u8>, bincode::Error>)
    ensures
        r is Ok,
        r->Ok_0@ == flag_bytes(x),
{
    bincode::serialize(&x)
}

/// `bincode::serialize` on an `Option<u64>`: it succeeds with a byte 0 for
/// `None`, with a byte 1 and the value's bytes for `Some`.
#[verifier::external_body]
fn serialize_optional(x: Option<u64>) -> (r: Result<Vec<u8>, bincode::Error>)
    ensures
        r is Ok,
        r->Ok_0@ == optional_bytes(x),
{
    bincode::serialize(&x)
}

/// `bincode::serialize` on a byte slice: it succeeds with the length as eight
/// little-endian bytes, then the bytes.
#[verifier::external_body]
fn serialize_blob(x: &[u8]) -> (r: Result<Vec<u8>, bincode::Error>)
    ensures
        r is Ok,
        r->Ok_0@ == blob_bytes(x@),
{
    bincode::serialize(x)
}

/// `bincode::serialize` on a `str`: it succeeds with the length of its UTF-8
/// form as eight little-endian bytes, then that form.
#[verifier::external_body]
fn serialize_text(x: &str) -> (r: Result<Vec<u8>, bincode::Error>)
    ensures
        r is Ok,
        r->Ok_0@ == text_bytes(x@),
{
    bincode::serialize(x)
}

/// `serde::de::Error::invalid_value` for `bincode::Error`: the error for a tag
/// that stands for nothing, where `expected` says what tags there are. Nothing
/// is claimed of what the error says.
#[verifier::external_body]
pub(crate) fn no_such_variant(tag: u32, expected: &str) -> (r: bincode::Error) {
    serde::de::Error::invalid_value(serde::de::Unexpected::Unsigned(tag as u64), &expected)
}

/// `bincode::deserialize` to a `u32`: it reads the first four bytes and
/// ignores the rest; it fails if there are fewer.
#[verifier::external_body]
fn deserialize_u32(s: &[u8]) -> (r: Result<u32, bincode::Error>)
    ensures
        match r {
            Ok(x) => parse_u32(s@) matches Some((y, _)) && x == y,
            Err(_) => parse_u32(s@) is None,
        },
{
    bincode::deserialize(s)
}

/// `bincode::deserialize` to a `u64`: it reads the first eight bytes and
/// ignores the rest; it fails if there are fewer.
#[verifier::external_body]
fn deserialize_u64(s: &[u8]) -> (r: Result<u64, bincode::Error>)
    ensures
        match r {
            Ok(x) => parse_u64(s@) matches Some((y, _)) && x == y,
            Err(_) => parse_u64(s@) is None,
        },
{
    bincode::deserialize(s)
}

/// `bincode::deserialize` to a `bool`: the first byte is 0 or 1, anything
/// else fails; the rest is ignored.
#[verifier::external_body]
fn deserialize_flag(s: &[u8]) -> (r: Result<bool, bincode::Error>)
    ensures
        match r {
            Ok(x) => parse_flag(s@) matches Some((y, _)) && x == y,
            Err(_) => parse_flag(s@) is None,
        },
{
    bincode::deserialize(s)
}

/// `bincode::deserialize` to an `Option<u64>`: a first byte 0 is `None`, 1 is
/// followed by eight bytes of value, anything else fails; the rest is
/// ignored.
#[verifier::external_body]
fn deserialize_optional(s: &[u8]) -> (r: Result<Option<u64>, bincode::Error>)
    ensures
        match r {
            Ok(x) => parse_optional(s@) matches Some((y, _)) && x == y,
            Err(_) => parse_optional(s@) is None,
        },
{
    bincode::deserialize(s)
}

/// `bincode::deserialize` to a `Vec<u8>`: eight bytes of length, then that
/// many bytes; it fails if there are fewer and ignores what follows.
#[verifier::external_body]
fn deserialize_blob(s: &[u8]) -> (r: Result<Vec<u8>, bincode::Error>)
    ensures
        match r {
            Ok(x) => parse_blob(s@) matches Some((y, _)) && x@ == y,
            Err(_) => parse_blob(s@) is None,
        },
{
    bincode::deserialize(s)
}

/// `bincode::deserialize` to a `String`: as for bytes, and it fails where they
/// are not valid UTF-8.
#[verifier::external_body]
fn deserialize_text(s: &[u8]) -> (r: Result<String, bincode::Error>)
    ensures
        match r {
            Ok(x) => parse_text(s@) matches Some((y, _)) && x@ == y,
            Err(_) => parse_text(s@) is None,
        },
{
    bincode::deserialize(s)
}

/// Appends the bytes of a `u32`.
pub(crate) fn put_u32(out: &mut Vec<u8>, x: u32) -> (r: Result<(), bincode::Error>)
    ensures
        r is Ok,
        final(out)@ == old(out)@ + u32_bytes(x),
{
    let mut bytes = serialize_u32(x)?;
    out.append(&mut bytes);
    Ok(())
}

/// Appends the bytes of a `u64`.
pub(crate) fn put_u64(out: &mut Vec<u8>, x: u64) -> (r: Result<(), bincode::Error>)
    ensures
        r is Ok,
        final(out)@ == old(out)@ + u64_bytes(x),
{
    let mut bytes = serialize_u64(x)?;
    out.append(&mut bytes);
    Ok(())
}

/// Appends the byte of a flag.
pub(crate) fn put_flag(out: &mut Vec<u8>, x: bool) -> (r: Result<(), bincode::Error>)
    ensures
        r is Ok,
        final(out)@ == old(out)@ + flag_bytes(x),
{
    let mut bytes = serialize_flag(x)?;
    out.append(&mut bytes);
    Ok(())
}

/// Appends the bytes of an optional number.
pub(crate) fn put_optional(out: &mut Vec<u8>, x: Option<u64>) -> (r: Result<(), bincode::Error>)
    ensures
        r is Ok,
        final(out)@ == old(out)@ + optional_bytes(x),
{
    let mut bytes = serialize_optional(x)?;
    out.append(&mut bytes);
    Ok(())
}

/// Appends a length and that many bytes.
pub(crate) fn put_blob(out: &mut Vec<u8>, x: &[u8]) -> (r: Result<(), bincode::Error>)
    ensures
        r is Ok,
        final(out)@ == old(out)@ + blob_bytes(x@),
        blob_fits(x@),
{
    let _len = x.len();
    let mut bytes = serialize_blob(x)?;
    out.append(&mut bytes);
    Ok(())
}

/// Appends a length and that many bytes of UTF-8.
pub(crate) fn put_text(out: &mut Vec<u8>, x: &str) -> (r: Result<(), bincode::Error>)
    ensures
        r is Ok,
        final(out)@ == old(out)@ + text_bytes(x@),
        text_fits(x@),
{
    let _len = x.as_bytes().len();
    let mut bytes = serialize_text(x)?;
    out.append(&mut bytes);
    Ok(())
}

/// Reads a `u32` and returns it with the bytes that follow.
pub(crate) fn take_u32(s: &[u8]) -> (r: Result<(u32, &[u8]), bincode::Error>)
    ensures
        match r {
            Ok((x, rest)) => parse_u32(s@) == Some((x, rest@)),
            Err(_) => parse_u32(s@) is None,
        },
{
    let x = deserialize_u32(s)?;
    Ok((x, slice_subrange(s, 4, s.len())))
}

/// Reads a `u64` and returns it with the bytes that follow.
pub(crate) fn take_u64(s: &[u8]) -> (r: Result<(u64, &[u8]), bincode::Error>)
    ensures
        match r {
            Ok((x, rest)) => parse_u64(s@) == Some((x, rest@)),
            Err(_) => parse_u64(s@) is None,
        },
{
    let x = deserialize_u64(s)?;
    Ok((x, slice_subrange(s, 8, s.len())))
}

/// Reads a flag and returns it with the bytes that follow.
pub(crate) fn take_flag(s: &[u8]) -> (r: Result<(bool, &[u8]), bincode::Error>)
    ensures
        match r {
            Ok((x, rest)) => parse_flag(s@) == Some((x, rest@)),
            Err(_) => parse_flag(s@) is None,
        },
{
    let x = deserialize_flag(s)?;
    Ok((x, slice_subrange(s, 1, s.len())))
}

/// Reads an optional number and returns it with the bytes that follow.
pub(crate) fn take_optional(s: &[u8]) -> (r: Result<(Option<u64>, &[u8]), bincode::Error>)
    ensures
        match r {
            Ok((x, rest)) => parse_optional(s@) == Some((x, rest@)),
            Err(_) => parse_optional(s@) is None,
        },
{
    let x = deserialize_optional(s)?;
    let used: usize = match x {
        None => 1,
        Some(_) => 9,
    };
    assert(x is Some ==> s@.skip(1).skip(8) =~= s@.skip(9));
    Ok((x, slice_subrange(s, used, s.len())))
}

/// Reads a blob and returns it with the bytes that follow.
pub(crate) fn take_blob(s: &[u8]) -> (r: Result<(Vec<u8>, &[u8]), bincode::Error>)
    ensures
        match r {
            Ok((x, rest)) => parse_blob(s@) == Some((x@, rest@)),
            Err(_) => parse_blob(s@) is None,
        },
{
    let total = s.len();
    let x = deserialize_blob(s)?;
    let n = x.len();
    assert(s@.skip(8).skip(n as int) =~= s@.skip(8 + n));
    Ok((x, slice_subrange(s, 8 + n, total)))
}

/// Reads a text and returns it with the bytes that follow.
pub(crate) fn take_text(s: &[u8]) -> (r: Result<(String, &[u8]), bincode::Error>)
    ensures
        match r {
            Ok((x, rest)) => parse_text(s@) == Some((x@, rest@)),
            Err(_) => parse_text(s@) is None,
        },
{
    let total = s.len();
    let x = deserialize_text(s)?;
    let n = x.as_str().as_bytes().len();
    proof {
        let (b, rest) = parse_blob(s@).unwrap();
        vstd::utf8::decode_utf8_encode_utf8(b);
        assert(n == b.len());
        assert(s@.skip(8).skip(n as int) =~= s@.skip(8 + n));
    }
    Ok((x, slice_subrange(s, 8 + n, total)))
}

/// A `u32` is read back from its bytes.
pub proof fn u32_round_trips(x: u32, rest: Seq<u8>)
    ensures
        parse_u32(u32_bytes(x) + rest) == Some((x, rest)),
{
    vstd::bytes::lemma_auto_spec_u32_to_from_le_bytes();
    assert((u32_bytes(x) + rest).take(4) =~= u32_bytes(x));
    assert((u32_bytes(x) + rest).skip(4) =~= rest);
}

/// A `u64` is read back from its bytes.
pub proof fn u64_round_trips(x: u64, rest: Seq<u8>)
    ensures
        parse_u64(u64_bytes(x) + rest) == Some((x, rest)),
        u64_bytes(x).len() == 8,
{
    vstd::bytes::lemma_auto_spec_u64_to_from_le_bytes();
    assert((u64_bytes(x) + rest).take(8) =~= u64_bytes(x));
    assert((u64_bytes(x) + rest).skip(8) =~= rest);
}

/// A flag is read back from its byte.
pub proof fn flag_round_trips(x: bool, rest: Seq<u8>)
    ensures
        parse_flag(flag_bytes(x) + rest) == Some((x, rest)),
{
    assert((flag_bytes(x) + rest).skip(1) =~= rest);
}

/// An optional number is read back from its bytes.
pub proof fn optional_round_trips(x: Option<u64>, rest: Seq<u8>)
    ensures
        parse_optional(optional_bytes(x) + rest) == Some((x, rest)),
{
    match x {
        None => {
            flag_round_trips(false, rest);
            assert(flag_bytes(false) =~= seq![0u8]);
        },
        Some(y) => {
            u64_round_trips(y, rest);
            flag_round_trips(true, u64_bytes(y) + rest);
            assert(flag_bytes(true) =~= seq![1u8]);
            assert(optional_bytes(x) + rest =~= flag_bytes(true) + (u64_bytes(y) + rest));
        },
    }
}

/// A blob is read back from its bytes.
pub proof fn blob_round_trips(x: Seq<u8>, rest: Seq<u8>)
    requires
        blob_fits(x),
    ensures
        parse_blob(blob_bytes(x) + rest) == Some((x, rest)),
{
    u64_round_trips(x.len() as u64, x + rest);
    assert(blob_bytes(x) + rest =~= u64_bytes(x.len() as u64) + (x + rest));
    assert((x + rest).take(x.len() as int) =~= x);
    assert((x + rest).skip(x.len() as int) =~= rest);
}

/// A text is read back from its bytes.
pub proof fn text_round_trips(x: Seq<char>, rest: Seq<u8>)
    requires
        text_fits(x),
    ensures
        parse_text(text_bytes(x) + rest) == Some((x, rest)),
{
    blob_round_trips(vstd::utf8::encode_utf8(x), rest);
    vstd::utf8::encode_utf8_valid_utf8(x);
    vstd::utf8::encode_utf8_decode_utf8(x);
}

/// Byte strings one after the other.
pub open spec fn joined(parts: Seq<Seq<u8>>) -> Seq<u8>
    decreases parts.len(),
{
    if parts.len() == 0 {
        Seq::empty()
    } else {
        parts[0] + joined(parts.drop_first())
    }
}

pub proof fn lemma_joined_push(parts: Seq<Seq<u8>>, part: Seq<u8>)
    ensures
        joined(parts.push(part)) == joined(parts) + part,
    decreases parts.len(),
{
    if parts.len() == 0 {
        assert(parts.push(part).drop_first() =~= Seq::<Seq<u8>>::empty());
        assert(joined(Seq::<Seq<u8>>::empty()) =~= Seq::<u8>::empty());
        assert(joined(parts.push(part)) =~= part);
        assert(joined(parts) + part =~= part);
    } else {
        assert(parts.push(part).drop_first() =~= parts.drop_first().push(part));
        lemma_joined_push(parts.drop_first(), part);
        assert(joined(parts.push(part)) =~= joined(parts) + part);
    }
}

/// Nothing is read that was not written: whatever a number, a flag, a blob or a
/// text is read from begins with the bytes of that value, and what follows them
/// is handed on.
pub proof fn what_is_read_was_written(s: Seq<u8>)
    ensures
        parse_u32(s) matches Some((x, rest)) ==> s == u32_bytes(x) + rest,
        parse_u64(s) matches Some((x, rest)) ==> s == u64_bytes(x) + rest,
        parse_flag(s) matches Some((x, rest)) ==> s == flag_bytes(x) + rest,
        parse_optional(s) matches Some((x, rest)) ==> s == optional_bytes(x) + rest,
        parse_blob(s) matches Some((x, rest)) ==> s == blob_bytes(x) + rest,
        parse_text(s) matches Some((x, rest)) ==> s == text_bytes(x) + rest,
{
    lemma_numbers_were_written(s);
    if let Some((x, rest)) = parse_flag(s) {
        assert(s =~= flag_bytes(x) + rest);
        lemma_numbers_were_written(rest);
        if let Some((Some(y), after)) = parse_optional(s) {
            assert(s =~= seq![1u8] + u64_bytes(y) + after);
        } else if parse_optional(s) is Some {
            assert(s =~= seq![0u8] + rest);
        }
    }
    if let Some((b, rest)) = parse_blob(s) {
        let (n, body) = parse_u64(s)->0;
        assert(body =~= b + rest);
        assert(s =~= blob_bytes(b) + rest);
        if vstd::utf8::valid_utf8(b) {
            vstd::utf8::decode_utf8_encode_utf8(b);
        }
    }
}

/// Bytes one after the other can be grouped either way.
pub proof fn lemma_regroup(a: Seq<u8>, b: Seq<u8>, c: Seq<u8>)
    ensures
        a + (b + c) == (a + b) + c,
{
    assert(a + (b + c) =~= (a + b) + c);
}

pub(crate) proof fn lemma_numbers_were_written(s: Seq<u8>)
    ensures
        parse_u32(s) matches Some((x, rest)) ==> s == u32_bytes(x) + rest,
        parse_u64(s) matches Some((x, rest)) ==> s == u64_bytes(x) + rest,
{
    vstd::bytes::lemma_auto_spec_u32_to_from_le_bytes();
    vstd::bytes::lemma_auto_spec_u64_to_from_le_bytes();
    if let Some((x, rest)) = parse_u32(s) {
        assert(u32_bytes(x) == s.take(4));
        assert(s =~= s.take(4) + rest);
    }
    if let Some((x, rest)) = parse_u64(s) {
        assert(u64_bytes(x) == s.take(8));
        assert(s =~= s.take(8) + rest);
    }
}

/// A number takes four or eight bytes, a flag one byte, and a blob its own
/// bytes with a length of eight bytes in front.
pub proof fn layouts_have_fixed_sizes(x: u32, y: u64, b: bool, blob: Seq<u8>, i: int)
    requires
        0 <= i < blob.len() <= u64::MAX,
    ensures
        u32_bytes(x).len() == 4,
        u64_bytes(y).len() == 8,
        flag_bytes(b).len() == 1,
        flag_bytes(b)[0] == if b {
            1u8
        } else {
            0u8
        },
        optional_bytes(None).len() == 1,
        optional_bytes(Some(y)).len() == 9,
        blob_bytes(blob).len() == 8 + blob.len(),
        blob_bytes(blob)[8 + i] == blob[i],
{
    vstd::bytes::lemma_auto_spec_u32_to_from_le_bytes();
    vstd::bytes::lemma_auto_spec_u64_to_from_le_bytes();
}

} // verus!
