//! The envelope that wraps every object: kind, a space, the payload's length
//! in decimal, a NUL byte, and then the payload itself.

use crate::bytes::{
    decimal, decimal_value, first_index, is_decimal, lemma_decimal_value, lemma_first_index_after,
    push_decimal,
};
use crate::errors::FormatError;
use crate::types::{Header, ObjectType};
use vstd::prelude::*;

verus! {

/// The envelope of a payload of the given kind.
pub open spec fn wrapped(kind: ObjectType, payload: Seq<u8>) -> Seq<u8> {
    kind.name() + seq![32u8] + decimal(payload.len()) + seq![0u8] + payload
}

/// The digits of a size: the size as it is written, without the plus sign
/// that may stand in front of it.
pub open spec fn size_digits(size: Seq<u8>) -> Seq<u8> {
    if size.len() > 0 && size[0] == 43u8 {
        size.skip(1)
    } else {
        size
    }
}

/// What an envelope holds, or why it cannot be read.
///
/// The header ends at the first NUL byte; the first space in it parts the kind
/// from the size; the payload is all that follows the NUL. The size is a run
/// of decimal digits, with or without a plus sign in front. The size that the
/// header declares is not held against the payload's length.
pub open spec fn unwrapped(bytes: Seq<u8>) -> Result<(Header, Seq<u8>), FormatError> {
    if !bytes.contains(0u8) {
        Err(FormatError::MissingHeader)
    } else {
        let nul = first_index(bytes, 0u8);
        let header = bytes.take(nul);
        if !header.contains(32u8) {
            Err(FormatError::MalformedHeader)
        } else {
            let space = first_index(header, 32u8);
            let digits = size_digits(header.skip(space + 1));
            match ObjectType::of_name(header.take(space)) {
                Err(e) => Err(e),
                Ok(object_type) => if is_decimal(digits) && decimal_value(digits) <= usize::MAX {
                    Ok(
                        (
                            Header { object_type, size: decimal_value(digits) as usize },
                            bytes.skip(nul + 1),
                        ),
                    )
                } else {
                    Err(FormatError::MalformedHeader)
                },
            }
        }
    }
}

/// Appends `more` to `out`.
pub fn append_bytes(out: &mut Vec<u8>, more: &[u8])
    ensures
        final(out)@ == old(out)@ + more@,
{
    let mut i: usize = 0;
    while i < more.len()
        invariant
            i <= more.len(),
            out@ == old(out)@ + more@.take(i as int),
        decreases more.len() - i,
    {
        out.push(more[i]);
        proof {
            assert(more@.take(i + 1) =~= more@.take(i as int).push(more@[i as int]));
            assert(out@ =~= old(out)@ + more@.take(i + 1));
        }
        i += 1;
    }
    proof {
        assert(more@.take(i as int) =~= more@);
    }
}

/// Wraps a payload in its envelope.
pub fn wrap(kind: ObjectType, payload: &[u8]) -> (bytes: Vec<u8>)
    ensures
        bytes@ == wrapped(kind, payload@),
{
    proof {
        ObjectType::lemma_names();
    }
    let mut bytes: Vec<u8> = Vec::new();
    append_bytes(&mut bytes, kind.as_str().as_bytes());
    bytes.push(32u8);
    push_decimal(&mut bytes, payload.len());
    bytes.push(0u8);
    append_bytes(&mut bytes, payload);
    proof {
        assert(bytes@ =~= wrapped(kind, payload@));
    }
    bytes
}

/// An envelope gives back what was wrapped: the kind, the payload's length
/// and the payload.
pub proof fn lemma_unwrap_wrap(kind: ObjectType, payload: Seq<u8>)
    requires
        payload.len() <= usize::MAX,
    ensures
        unwrapped(wrapped(kind, payload)) == Ok::<_, FormatError>(
            (Header { object_type: kind, size: payload.len() as usize }, payload),
        ),
{
    ObjectType::lemma_names();
    lemma_decimal_value(payload.len());
    let digits = decimal(payload.len());
    let head = kind.name() + seq![32u8] + digits;
    let bytes = wrapped(kind, payload);
    assert(bytes =~= head + (seq![0u8] + payload));
    assert(!head.contains(0u8)) by {
        if head.contains(0u8) {
            let i = choose|i: int| 0 <= i < head.len() && head[i] == 0u8;
            if i >= 5 {
                assert(head[i] == digits[i - 5]);
            }
        }
    }
    lemma_first_index_after(head, seq![0u8] + payload, 0u8);
    let nul = first_index(bytes, 0u8);
    assert(nul == head.len());
    let header = bytes.take(nul);
    assert(header =~= head);
    assert(head =~= kind.name() + (seq![32u8] + digits));
    assert(!kind.name().contains(32u8)) by {
        if kind.name().contains(32u8) {
            let i = choose|i: int| 0 <= i < kind.name().len() && kind.name()[i] == 32u8;
        }
    }
    lemma_first_index_after(kind.name(), seq![32u8] + digits, 32u8);
    let space = first_index(header, 32u8);
    assert(space == 4);
    assert(header.take(space) =~= kind.name());
    assert(header.skip(space + 1) =~= digits);
    assert(size_digits(digits) == digits);
    assert(bytes.skip(nul + 1) =~= payload);
}

} // verus!
