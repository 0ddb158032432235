//! Object identifiers, object kinds and the envelope's header.

use crate::bytes::{ascii_bytes, bytes_eq};
use crate::digest::{sha1_digest, sha1_of};
use crate::errors::{FormatError, InvalidObjectId};
use crate::hexadecimal::{
    decode_hex, encode_hex, hex_bytes, hex_text, is_hex, is_lower_hex, lemma_hex_text_is_lower,
    lemma_hex_text_of_bytes, lowercase,
};
use crate::utils::ensure_valid_sha1;
use vstd::prelude::*;
use vstd::utf8::{
    encode_utf8, encode_utf8_decode_utf8, is_ascii_chars, is_ascii_chars_encode_utf8,
};

verus! {

/// Forty hexadecimal digits of either case: text that names an object.
pub open spec fn is_hex_id(text: Seq<char>) -> bool {
    &&& text.len() == 40
    &&& forall|i: int| 0 <= i < text.len() ==> is_hex(#[trigger] text[i])
}

/// Forty lowercase hexadecimal digits: the text of a 160-bit digest.
pub open spec fn is_object_id(text: Seq<char>) -> bool {
    &&& text.len() == 40
    &&& forall|i: int| 0 <= i < text.len() ==> is_lower_hex(#[trigger] text[i])
}

/// The identifier of an object: the hexadecimal text of the digest of its
/// envelope. Every value holds forty lowercase hexadecimal digits.
#[derive(Debug, PartialEq, Eq)]
pub struct ObjectId(String);

impl View for ObjectId {
    type V = Seq<char>;

    closed spec fn view(&self) -> Seq<char> {
        self.0@
    }
}

impl Clone for ObjectId {
    fn clone(&self) -> (res: Self)
        ensures
            res@ == self@,
    {
        proof {
            use_type_invariant(self);
        }
        ObjectId(self.0.clone())
    }
}

impl ObjectId {
    #[verifier::type_invariant]
    spec fn well_formed(self) -> bool {
        is_object_id(self.0@)
    }

    /// Checks identifier text and, where it is forty hexadecimal digits, makes
    /// an identifier of it: the same digits, in lowercase.
    pub fn validate(s: &str) -> (res: Result<ObjectId, InvalidObjectId>)
        ensures
            res is Ok <==> is_hex_id(s@),
            res matches Ok(id) ==> id@ == lowercase(s@) && is_object_id(id@),
            res matches Err(e) ==> e.text@ == s@,
    {
        match ensure_valid_sha1(s) {
            Err(e) => Err(e),
            Ok(()) => {
                proof {
                    lemma_hex_text_of_bytes(s@);
                }
                match decode_hex(s) {
                    Ok(raw) => Ok(ObjectId::from_raw(raw.as_slice())),
                    // forty hexadecimal digits are not refused
                    Err(_) => Err(InvalidObjectId { text: s.to_owned() }),
                }
            },
        }
    }

    /// The identifier of an object, from the bytes of its envelope.
    pub fn of_bytes(envelope: &[u8]) -> (id: ObjectId)
        ensures
            id@ == hex_text(sha1_digest(envelope@)),
            is_object_id(id@),
    {
        let digest = sha1_of(envelope);
        ObjectId::from_digest(&digest)
    }

    /// The identifier that stands for a raw digest.
    pub fn from_digest(raw: &[u8; 20]) -> (id: ObjectId)
        ensures
            id@ == hex_text(raw@),
            is_object_id(id@),
    {
        ObjectId::from_raw(raw.as_slice())
    }

    /// The identifier that stands for the twenty bytes of a raw digest.
    pub(crate) fn from_raw(raw: &[u8]) -> (id: ObjectId)
        requires
            raw@.len() == 20,
        ensures
            id@ == hex_text(raw@),
            is_object_id(id@),
    {
        proof {
            lemma_hex_text_is_lower(raw@);
        }
        ObjectId(encode_hex(raw))
    }

    /// The identifier's text, for use as a path component.
    pub fn as_str(&self) -> (s: &str)
        ensures
            s@ == self@,
            is_object_id(self@),
    {
        proof {
            use_type_invariant(self);
        }
        self.0.as_str()
    }

    /// An owned copy of the identifier's text.
    pub fn to_string(&self) -> (s: String)
        ensures
            s@ == self@,
    {
        self.0.clone()
    }

    /// The twenty bytes of the digest, as a tree payload holds them.
    pub fn raw_digest(&self) -> (raw: Vec<u8>)
        ensures
            raw@ == hex_bytes(self@),
            raw@.len() == 20,
            is_object_id(self@),
    {
        proof {
            use_type_invariant(self);
        }
        match decode_hex(self.0.as_str()) {
            Ok(raw) => raw,
            Err(_) => {
                proof {
                    assert(false);
                }
                Vec::new()
            },
        }
    }
}

/// The kinds of object that the store holds.
#[derive(Debug, Clone, Copy, PartialEq, Eq, Structural)]
pub enum ObjectType {
    /// The raw content of one file.
    Blob,
    /// One directory: a list of entries that name blobs and other trees.
    Tree,
}

impl ObjectType {
    /// The kind's name, as an envelope spells it.
    pub open spec fn text(self) -> Seq<char> {
        match self {
            ObjectType::Blob => "blob"@,
            ObjectType::Tree => "tree"@,
        }
    }

    /// The bytes of the kind's name.
    pub open spec fn name(self) -> Seq<u8> {
        ascii_bytes(self.text())
    }

    /// The kind that a name stands for.
    pub open spec fn of_name(name: Seq<u8>) -> Result<ObjectType, FormatError> {
        if name == ObjectType::Blob.name() {
            Ok(ObjectType::Blob)
        } else if name == ObjectType::Tree.name() {
            Ok(ObjectType::Tree)
        } else {
            Err(FormatError::UnknownKind)
        }
    }

    /// The kind that a name stands for, the name given as text.
    pub open spec fn of_text(text: Seq<char>) -> Result<ObjectType, FormatError> {
        if text == ObjectType::Blob.text() {
            Ok(ObjectType::Blob)
        } else if text == ObjectType::Tree.text() {
            Ok(ObjectType::Tree)
        } else {
            Err(FormatError::UnknownKind)
        }
    }

    /// The two names, byte by byte: both are ASCII, four bytes long, free of
    /// spaces and of NUL, and differ from each other.
    pub proof fn lemma_names()
        ensures
            ObjectType::Blob.name() == seq![98u8, 108u8, 111u8, 98u8],
            ObjectType::Tree.name() == seq![116u8, 114u8, 101u8, 101u8],
            forall|kind: ObjectType| #[trigger] encode_utf8(kind.text()) == kind.name(),
            forall|kind: ObjectType| #[trigger] ObjectType::of_name(kind.name()) == Ok::<ObjectType, FormatError>(kind),
    {
        reveal_strlit("blob");
        reveal_strlit("tree");
        let blob = ObjectType::Blob;
        let tree = ObjectType::Tree;
        assert(blob.name() =~= seq![98u8, 108u8, 111u8, 98u8]);
        assert(tree.name() =~= seq![116u8, 114u8, 101u8, 101u8]);
        assert(blob.name()[0] != tree.name()[0]);
        assert forall|kind: ObjectType| #[trigger] encode_utf8(kind.text()) == kind.name() by {
            assert(is_ascii_chars(kind.text()));
            is_ascii_chars_encode_utf8(kind.text());
            assert(encode_utf8(kind.text()) =~= kind.name());
        }
    }

    /// The kind's name.
    pub fn as_str(&self) -> (s: &'static str)
        ensures
            s@ == self.text(),
    {
        match self {
            ObjectType::Blob => "blob",
            ObjectType::Tree => "tree",
        }
    }

    /// Reads a kind's name from the bytes of a header.
    pub fn from_bytes(name: &[u8]) -> (res: Result<ObjectType, FormatError>)
        ensures
            res == ObjectType::of_name(name@),
    {
        proof {
            ObjectType::lemma_names();
        }
        if bytes_eq(name, ObjectType::Blob.as_str().as_bytes()) {
            Ok(ObjectType::Blob)
        } else if bytes_eq(name, ObjectType::Tree.as_str().as_bytes()) {
            Ok(ObjectType::Tree)
        } else {
            Err(FormatError::UnknownKind)
        }
    }

    /// Reads a kind's name: `blob` or `tree`, nothing else.
    pub fn from_str(s: &str) -> (res: Result<ObjectType, FormatError>)
        ensures
            res == ObjectType::of_text(s@),
    {
        proof {
            ObjectType::lemma_names();
            encode_utf8_decode_utf8(s@);
            encode_utf8_decode_utf8(ObjectType::Blob.text());
            encode_utf8_decode_utf8(ObjectType::Tree.text());
        }
        ObjectType::from_bytes(s.as_bytes())
    }
}

/// What an envelope says of its payload before the payload begins.
#[derive(Debug, Clone, Copy, PartialEq, Eq, Structural)]
pub struct Header {
    /// The kind of the object.
    pub object_type: ObjectType,
    /// The size of the payload in bytes, as the envelope declares it.
    pub size: usize,
}

impl Header {
    /// A header of the given kind and size.
    pub fn new(object_type: ObjectType, size: usize) -> (header: Self)
        ensures
            header == (Header { object_type, size }),
    {
        Self { object_type, size }
    }
}

} // verus!
