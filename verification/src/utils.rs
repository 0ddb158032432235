//! Checks and conversions on identifiers and stored bytes.

use crate::bytes::{find_byte, first_index, lemma_first_index, parse_decimal};
use crate::codec::zlib_inflated;
use crate::envelope::unwrapped;
use crate::errors::{DecodeError, FormatError, InvalidObjectId};
use crate::hexadecimal::is_hex;
use crate::types::{is_hex_id, Header, ObjectId, ObjectType};
use vstd::prelude::*;
use vstd::slice::slice_to_vec;
use vstd::string::{StrSliceExecFns, StringExecFns, StringSliceAdditionalSpecFns};

verus! {

/// Checks that `s` names an object: forty characters, each of them a
/// hexadecimal digit of either case.
pub fn ensure_valid_sha1(s: &str) -> (res: Result<(), InvalidObjectId>)
    ensures
        res is Ok <==> is_hex_id(s@),
        res matches Err(e) ==> e.text@ == s@,
{
    broadcast use vstd::string::is_ascii_spec_bytes;

    if !s.is_ascii() {
        return Err(InvalidObjectId { text: s.to_owned() });
    }
    let bytes = s.as_bytes();
    if bytes.len() != 40 {
        return Err(InvalidObjectId { text: s.to_owned() });
    }
    let mut i: usize = 0;
    while i < 40
        invariant
            i <= 40,
            bytes@.len() == 40,
            s@.len() == 40,
            vstd::string::is_ascii(s),
            bytes@ == s.spec_bytes(),
            forall|j: int| 0 <= j < i ==> is_hex(#[trigger] s@[j]),
        decreases 40 - i,
    {
        let b = bytes[i];
        if !((48 <= b && b <= 57) || (97 <= b && b <= 102) || (65 <= b && b <= 70)) {
            return Err(InvalidObjectId { text: s.to_owned() });
        }
        i += 1;
    }
    Ok(())
}

/// Where an object is kept: a directory named by the identifier's first two
/// digits, and in it a file named by the other thirty-eight.
pub open spec fn object_path(id: Seq<char>) -> Seq<char> {
    ".git/objects/"@ + id.subrange(0, 2) + "/"@ + id.subrange(2, 40)
}

/// Derives the path of an object from its identifier. The identifier is
/// checked once more on the way; no identifier fails the check.
pub fn get_path_from_hash(hash: &ObjectId) -> (res: Result<String, InvalidObjectId>)
    ensures
        res matches Ok(path) && path@ == object_path(hash@),
{
    let text = hash.as_str();
    match ensure_valid_sha1(text) {
        Err(e) => Err(e),
        Ok(()) => {
            assert(vstd::string::is_ascii(text));
            let mut path = String::from_str(".git/objects/");
            path.append(text.substring_ascii(0, 2));
            path.append("/");
            path.append(text.substring_ascii(2, 40));
            Ok(path)
        },
    }
}

/// `flate2::read::ZlibDecoder`, read to its end. Believed of it, not proved:
/// the bytes that it yields, or its failure, are what `zlib_inflated` names
/// for the same stream. A failure of kind `UnexpectedEof` is reported as
/// `Truncated`, any other as `Corrupt`.
#[verifier::external_body]
pub fn zlib_decode(compressed: &[u8]) -> (res: Result<Vec<u8>, DecodeError>)
    ensures
        match res {
            Ok(bytes) => zlib_inflated(compressed@) == Ok::<Seq<u8>, DecodeError>(bytes@),
            Err(e) => zlib_inflated(compressed@) == Err::<Seq<u8>, DecodeError>(e),
        },
{
    let mut bytes = Vec::new();
    let mut decoder = flate2::read::ZlibDecoder::new(compressed);
    match std::io::Read::read_to_end(&mut decoder, &mut bytes) {
        Ok(_) => Ok(bytes),
        Err(e) => match e.kind() {
            std::io::ErrorKind::UnexpectedEof => Err(DecodeError::Truncated),
            _ => Err(DecodeError::Corrupt),
        },
    }
}

/// Strips the header from the text of an object: gives all that follows the
/// first NUL character.
pub fn strip_header(content: &str) -> (res: Result<String, FormatError>)
    ensures
        match res {
            Ok(body) => content@.contains('\0') && body@ == content@.skip(
                first_index(content@, '\0') + 1,
            ),
            Err(e) => !content@.contains('\0') && e == FormatError::MissingHeader,
        },
{
    broadcast use vstd::string::axiom_spec_iter;

    let length = content.unicode_len();
    let mut at: usize = 0;
    for c in chars: content.chars()
        invariant
            at == chars.index(),
            chars.seq() == content@,
            length == content@.len(),
            forall|j: int| 0 <= j < at ==> content@[j] != '\0',
    {
        if c == '\0' {
            proof {
                lemma_first_index(content@, '\0', at as int);
            }
            return Ok(content.substring_char(at + 1, length).to_owned());
        }
        at += 1;
    }
    Err(FormatError::MissingHeader)
}

/// Parts an envelope into its header and its payload.
///
/// The header ends at the first NUL byte: without one the envelope has a
/// `MissingHeader`. The first space of the header parts the kind from the
/// size: without one the header is a `MalformedHeader`. A kind other than
/// `blob` and `tree` is an `UnknownKind`; after that, a size that is not a
/// run of decimal digits, with or without a plus sign in front, or does not
/// fit the machine, is a `MalformedHeader`. The size is not held against the
/// payload's length.
pub fn parse_content_raw_bytes(bytes: &[u8]) -> (res: Result<(Header, Vec<u8>), FormatError>)
    ensures
        match res {
            Ok((header, payload)) => unwrapped(bytes@) == Ok::<_, FormatError>(
                (header, payload@),
            ),
            Err(e) => unwrapped(bytes@) == Err::<(Header, Seq<u8>), _>(e),
        },
{
    let nul = match find_byte(bytes, 0u8) {
        None => { return Err(FormatError::MissingHeader); },
        Some(nul) => nul,
    };
    let header = &bytes[0..nul];
    let space = match find_byte(header, 32u8) {
        None => { return Err(FormatError::MalformedHeader); },
        Some(space) => space,
    };
    let object_type = match ObjectType::from_bytes(&header[0..space]) {
        Err(e) => { return Err(e); },
        Ok(object_type) => object_type,
    };
    let written = &header[space + 1..nul];
    let digits = if written.len() > 0 && written[0] == 43u8 {
        &written[1..written.len()]
    } else {
        written
    };
    let size = match parse_decimal(digits) {
        None => { return Err(FormatError::MalformedHeader); },
        Some(size) => size,
    };
    let end = bytes.len();
    let payload = slice_to_vec(&bytes[nul + 1..end]);
    Ok((Header::new(object_type, size), payload))
}

} // verus!
