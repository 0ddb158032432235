//! The commands, as far as they compute: each takes what was read for it and
//! says what is to be written and printed.

use crate::bytes::{ascii_bytes, bytes_eq, lemma_ascii_bytes, utf8_text};
use crate::codec::{decodes_to, zlib_deflated, zlib_encode, zlib_inflated};
use crate::commands::{HashObjectArgs, ListTreeArgs, WriteTreeArgs};
use crate::digest::sha1_digest;
use crate::envelope::{lemma_unwrap_wrap, unwrapped, wrap, wrapped};
use crate::errors::{BuildError, IoError, ReadError, TreeParseError};
use crate::hexadecimal::hex_text;
use crate::tree::{
    lemma_parse_serialize_sorted, lemma_sorted_entries_canonical, models, parse, parsed,
    serialize, sort_entries, sorted_entries, tree_payload, EntryModel, TreeEntry,
};
use crate::types::{ObjectId, ObjectType};
use crate::utils::{get_path_from_hash, object_path, parse_content_raw_bytes, zlib_decode};
use vstd::prelude::*;
use vstd::string::StringExecFns;
use vstd::utf8::{decode_utf8, valid_utf8};

verus! {

/// The text of the identifier of the object with the given envelope.
pub open spec fn object_id_of(envelope: Seq<u8>) -> Seq<char> {
    hex_text(sha1_digest(envelope))
}

/// A file of the object store: where it lies and the compressed bytes that it
/// is to hold.
#[derive(Debug, PartialEq, Eq)]
pub struct ObjectFile {
    /// The path of the file.
    pub path: String,
    /// The compressed envelope.
    pub bytes: Vec<u8>,
}

/// What naming an object comes to: its identifier, the file to write where
/// the object is to be stored, and the line to print where one is wanted.
#[derive(Debug, PartialEq, Eq)]
pub struct HashedObject {
    /// The identifier of the object.
    pub hash: ObjectId,
    /// The file to write, where the object is to be stored.
    pub file: Option<ObjectFile>,
    /// The line to print, where one is wanted.
    pub output: Option<String>,
}

impl HashedObject {
    /// This is what naming the object with the given envelope comes to: the
    /// identifier is the digest of the envelope; a file is there exactly when
    /// the object is to be written, lies where the identifier says and decodes
    /// to the envelope; a line is there unless quiet was asked for, and is the
    /// identifier.
    pub open spec fn names(&self, envelope: Seq<u8>, write: bool, quiet: bool) -> bool {
        &&& self.hash@ == object_id_of(envelope)
        &&& match self.file {
            Some(file) => write && file.path@ == object_path(self.hash@) && decodes_to(
                file.bytes@,
                envelope,
            ),
            None => !write,
        }
        &&& self.line_is(quiet)
    }

    /// The line to print is there unless quiet was asked for, and is the
    /// identifier.
    pub open spec fn line_is(&self, quiet: bool) -> bool {
        match self.output {
            Some(line) => !quiet && line@ == self.hash@,
            None => quiet,
        }
    }

    /// This is what naming and writing the object with the given envelope
    /// comes to: where the compressor makes a stream of the envelope, the
    /// object is named and its file holds that stream; where the compressor
    /// fails, its failure is the failure of the whole.
    pub open spec fn writes(
        res: Result<HashedObject, BuildError>,
        envelope: Seq<u8>,
        quiet: bool,
    ) -> bool {
        match zlib_deflated(envelope) {
            Ok(stream) => {
                &&& res matches Ok(object)
                &&& object.names(envelope, true, quiet)
                &&& object.file matches Some(file)
                &&& file.bytes@ == stream
            },
            Err(e) => res == Err::<HashedObject, _>(BuildError::Io(e)),
        }
    }

    /// Puts together what naming an object comes to, from its identifier and
    /// from what the compressor returned where the object is to be written:
    /// the compressor's failure is the failure of the whole, its stream goes
    /// to the file that the identifier names.
    pub fn from_encoded(
        hash: ObjectId,
        encoded: Option<Result<Vec<u8>, IoError>>,
        quiet: bool,
    ) -> (res: Result<HashedObject, BuildError>)
        ensures
            match encoded {
                Some(Err(e)) => res == Err::<HashedObject, _>(BuildError::Io(e)),
                Some(Ok(bytes)) => {
                    &&& res matches Ok(object)
                    &&& object.hash@ == hash@
                    &&& object.file matches Some(file)
                    &&& file.path@ == object_path(hash@)
                    &&& file.bytes@ == bytes@
                    &&& object.line_is(quiet)
                },
                None => {
                    &&& res matches Ok(object)
                    &&& object.hash@ == hash@
                    &&& object.file is None
                    &&& object.line_is(quiet)
                },
            },
    {
        let file = match encoded {
            None => None,
            Some(Err(e)) => { return Err(BuildError::Io(e)); },
            Some(Ok(bytes)) => {
                let path = match get_path_from_hash(&hash) {
                    Ok(path) => path,
                    // no identifier is refused
                    Err(_) => { return Err(BuildError::Io(IoError::Other)); },
                };
                Some(ObjectFile { path, bytes })
            },
        };
        let output = if quiet {
            None
        } else {
            Some(hash.to_string())
        };
        Ok(HashedObject { hash, file, output })
    }
}

/// Names the object with the given envelope and, where it is to be written,
/// compresses it. Only the compressor can fail, so an object that is not to
/// be written is always named; one that is to be written is named where the
/// compressor makes a stream of its envelope.
pub fn store_object(envelope: &[u8], write: bool, quiet: bool) -> (res: Result<
    HashedObject,
    BuildError,
>)
    ensures
        match res {
            Ok(object) => object.names(envelope@, write, quiet),
            Err(_) => write,
        },
        write ==> HashedObject::writes(res, envelope@, quiet),
{
    let hash = ObjectId::of_bytes(envelope);
    let encoded = if write {
        Some(zlib_encode(envelope))
    } else {
        None
    };
    HashedObject::from_encoded(hash, encoded, quiet)
}

/// Names the blob that holds `content`, the content of a file, and says what
/// is to be written and printed for it.
pub fn hash_object(args: &HashObjectArgs, content: &[u8]) -> (res: Result<
    HashedObject,
    BuildError,
>)
    ensures
        match res {
            Ok(object) => object.names(
                wrapped(ObjectType::Blob, content@),
                args.write,
                args.quiet,
            ),
            Err(_) => args.write,
        },
        args.write ==> HashedObject::writes(res, wrapped(ObjectType::Blob, content@), args.quiet),
{
    let envelope = wrap(ObjectType::Blob, content);
    store_object(envelope.as_slice(), args.write, args.quiet)
}

/// The envelope of the tree that holds the given entries: they are sorted
/// into canonical order, serialized and wrapped.
pub open spec fn tree_envelope(entries: Seq<EntryModel>) -> Seq<u8> {
    wrapped(ObjectType::Tree, tree_payload(sorted_entries(entries)))
}

/// Builds the tree of a directory from the entries of its children, in
/// whatever order they were found, and says what is to be written and printed
/// for it. A tree is always written: the entries are sorted, serialized and
/// wrapped, and the envelope is named and compressed. The tree is built
/// where the compressor makes a stream of the envelope, and then its file
/// holds that stream; the compressor's failure is the only failure.
pub fn write_tree(args: &WriteTreeArgs, entries: Vec<TreeEntry>) -> (res: Result<
    HashedObject,
    BuildError,
>)
    ensures
        HashedObject::writes(res, tree_envelope(models(entries@)), args.quiet),
{
    let sorted = sort_entries(entries);
    let payload = serialize(sorted.as_slice());
    let envelope = wrap(ObjectType::Tree, payload.as_slice());
    store_object(envelope.as_slice(), true, args.quiet)
}

/// Whether a child of a directory is the store's own directory, which no
/// tree holds.
pub fn is_git_dir(name: &[u8]) -> (res: bool)
    ensures
        res == (name@ == ascii_bytes(".git"@)),
{
    proof {
        reveal_strlit(".git");
        lemma_ascii_bytes(".git"@);
    }
    bytes_eq(name, ".git".as_bytes())
}

/// The payload of a stored object, or why it cannot be shown.
pub open spec fn shown(stored: Seq<u8>) -> Result<Seq<u8>, ReadError> {
    match zlib_inflated(stored) {
        Err(e) => Err(ReadError::Decode(e)),
        Ok(envelope) => match unwrapped(envelope) {
            Err(e) => Err(ReadError::Format(e)),
            Ok((_, payload)) => Ok(payload),
        },
    }
}

/// The entries of a stored tree, or why they cannot be listed. The payload is
/// parsed whatever kind the envelope declares.
pub open spec fn listed(stored: Seq<u8>) -> Result<Seq<EntryModel>, ReadError> {
    match shown(stored) {
        Err(e) => Err(e),
        Ok(payload) => match parsed(payload) {
            Err(e) => Err(ReadError::Tree(e)),
            Ok(entries) => Ok(entries),
        },
    }
}

/// Gives the payload of a stored object, from the bytes of its file.
pub fn cat_file(stored: &[u8]) -> (res: Result<Vec<u8>, ReadError>)
    ensures
        match res {
            Ok(payload) => shown(stored@) == Ok::<_, ReadError>(payload@),
            Err(e) => shown(stored@) == Err::<Seq<u8>, _>(e),
        },
{
    let envelope = match zlib_decode(stored) {
        Ok(envelope) => envelope,
        Err(e) => { return Err(ReadError::Decode(e)); },
    };
    match parse_content_raw_bytes(envelope.as_slice()) {
        Ok((_, payload)) => Ok(payload),
        Err(e) => Err(ReadError::Format(e)),
    }
}

/// Gives the entries of a stored tree, from the bytes of its file, in the
/// order in which the tree holds them. The kind that the envelope declares is
/// not looked at: a payload that parses is listed.
pub fn list_tree(stored: &[u8]) -> (res: Result<Vec<TreeEntry>, ReadError>)
    ensures
        match res {
            Ok(entries) => listed(stored@) == Ok::<_, ReadError>(models(entries@)),
            Err(e) => listed(stored@) == Err::<Seq<EntryModel>, _>(e),
        },
{
    let payload = match cat_file(stored) {
        Ok(payload) => payload,
        Err(e) => { return Err(e); },
    };
    match parse(payload.as_slice()) {
        Ok(entries) => Ok(entries),
        Err(e) => Err(ReadError::Tree(e)),
    }
}

/// The line that lists an entry: its name alone, or mode, name and target
/// with a space between them.
pub open spec fn listing_line(entry: EntryModel, name_only: bool) -> Seq<char> {
    if name_only {
        decode_utf8(entry.name)
    } else {
        decode_utf8(entry.mode) + " "@ + decode_utf8(entry.name) + " "@ + entry.target
    }
}

/// Whether an entry can be listed: its name is text and, unless the name
/// alone is wanted, so is its mode.
pub open spec fn can_list(entry: EntryModel, name_only: bool) -> bool {
    valid_utf8(entry.name) && (name_only || valid_utf8(entry.mode))
}

/// Writes the line that lists an entry.
pub fn format_entry(entry: &TreeEntry, name_only: bool) -> (res: Result<String, TreeParseError>)
    ensures
        match res {
            Ok(line) => can_list(entry@, name_only) && line@ == listing_line(entry@, name_only),
            Err(e) => !can_list(entry@, name_only) && e == TreeParseError::InvalidUtf8,
        },
{
    let name = match utf8_text(entry.name.as_slice()) {
        Some(name) => name,
        None => { return Err(TreeParseError::InvalidUtf8); },
    };
    if name_only {
        return Ok(String::from_str(name));
    }
    let mode = match utf8_text(entry.mode.as_slice()) {
        Some(mode) => mode,
        None => { return Err(TreeParseError::InvalidUtf8); },
    };
    let mut line = String::from_str(mode);
    line.append(" ");
    line.append(name);
    line.append(" ");
    line.append(entry.target.as_str());
    Ok(line)
}

/// Lists a stored tree, from the bytes of its file: one line for each entry,
/// in the order in which the tree holds them.
pub fn ls_tree(args: &ListTreeArgs, stored: &[u8]) -> (res: Result<Vec<String>, ReadError>)
    ensures
        match res {
            Ok(lines) => {
                &&& listed(stored@) matches Ok(entries)
                &&& lines@.len() == entries.len()
                &&& forall|i: int|
                    0 <= i < entries.len() ==> (#[trigger] lines@[i])@ == listing_line(
                        entries[i],
                        args.name_only,
                    )
            },
            Err(e) => listed(stored@) == Err::<Seq<EntryModel>, _>(e),
        },
{
    let entries = match list_tree(stored) {
        Ok(entries) => entries,
        Err(e) => { return Err(e); },
    };
    let mut lines: Vec<String> = Vec::new();
    let mut i: usize = 0;
    while i < entries.len()
        invariant
            i <= entries.len(),
            listed(stored@) == Ok::<_, ReadError>(models(entries@)),
            lines@.len() == i,
            forall|k: int|
                0 <= k < i ==> (#[trigger] lines@[k])@ == listing_line(
                    models(entries@)[k],
                    args.name_only,
                ),
        decreases entries.len() - i,
    {
        proof {
            assert(crate::tree::is_text(models(entries@)[i as int]));
        }
        let line = match format_entry(&entries[i], args.name_only) {
            Ok(line) => line,
            Err(e) => { return Err(ReadError::Tree(e)); },
        };
        lines.push(line);
        i += 1;
    }
    Ok(lines)
}

/// Listing a stored tree gives the entries from which the tree was built, in
/// canonical order, where each of them reads back and the payload's length
/// fits the machine.
pub proof fn lemma_listing_of_written_tree(entries: Seq<EntryModel>, stored: Seq<u8>)
    requires
        forall|i: int| 0 <= i < entries.len() ==> (#[trigger] entries[i]).reads_back(),
        tree_payload(sorted_entries(entries)).len() <= usize::MAX,
        decodes_to(stored, tree_envelope(entries)),
    ensures
        listed(stored) == Ok::<_, ReadError>(sorted_entries(entries)),
{
    lemma_unwrap_wrap(ObjectType::Tree, tree_payload(sorted_entries(entries)));
    lemma_parse_serialize_sorted(entries);
}

/// Showing a stored blob gives the content from which it was built, where
/// the content's length fits the machine.
pub proof fn lemma_showing_of_written_blob(content: Seq<u8>, stored: Seq<u8>)
    requires
        content.len() <= usize::MAX,
        decodes_to(stored, wrapped(ObjectType::Blob, content)),
    ensures
        shown(stored) == Ok::<_, ReadError>(content),
{
    lemma_unwrap_wrap(ObjectType::Blob, content);
}

/// The tree of a directory does not depend on the order in which the
/// directory was read: the same entries, no two of one name, give the same
/// envelope and so the same identifier.
pub proof fn lemma_tree_is_canonical(a: Seq<EntryModel>, b: Seq<EntryModel>)
    requires
        a.to_multiset() == b.to_multiset(),
        crate::tree::distinct_names(a),
    ensures
        tree_envelope(a) == tree_envelope(b),
        object_id_of(tree_envelope(a)) == object_id_of(tree_envelope(b)),
{
    lemma_sorted_entries_canonical(a, b);
}

/// Objects that differ in kind or in content have envelopes that differ, so
/// that their identifiers are digests of different bytes.
pub proof fn lemma_envelopes_differ(
    kind: ObjectType,
    payload: Seq<u8>,
    other_kind: ObjectType,
    other_payload: Seq<u8>,
)
    requires
        payload.len() <= usize::MAX,
        other_payload.len() <= usize::MAX,
        kind != other_kind || payload != other_payload,
    ensures
        wrapped(kind, payload) != wrapped(other_kind, other_payload),
{
    lemma_unwrap_wrap(kind, payload);
    lemma_unwrap_wrap(other_kind, other_payload);
}

/// Directories that differ in an entry (a name, a mode or a target) have
/// trees whose envelopes differ, so that their identifiers are digests of
/// different bytes.
pub proof fn lemma_tree_envelopes_differ(a: Seq<EntryModel>, b: Seq<EntryModel>)
    requires
        forall|i: int| 0 <= i < a.len() ==> (#[trigger] a[i]).reads_back(),
        forall|i: int| 0 <= i < b.len() ==> (#[trigger] b[i]).reads_back(),
        tree_payload(sorted_entries(a)).len() <= usize::MAX,
        tree_payload(sorted_entries(b)).len() <= usize::MAX,
        a.to_multiset() != b.to_multiset(),
    ensures
        tree_envelope(a) != tree_envelope(b),
{
    lemma_parse_serialize_sorted(a);
    lemma_parse_serialize_sorted(b);
    lemma_envelopes_differ(
        ObjectType::Tree,
        tree_payload(sorted_entries(a)),
        ObjectType::Tree,
        tree_payload(sorted_entries(b)),
    );
}

} // verus!
