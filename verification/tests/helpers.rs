use git_objects::codec::zlib_encode;
use git_objects::commands::{
    CatFileArgs, Command, HashObjectArgs, ListTreeArgs, WriteTreeArgs,
};
use git_objects::envelope::wrap;
use git_objects::errors::{
    BuildError, DecodeError, FormatError, IoError, ReadError, TreeParseError,
};
use git_objects::helpers::{
    cat_file, format_entry, hash_object, is_git_dir, list_tree, ls_tree, store_object, write_tree,
    HashedObject, ObjectFile,
};
use git_objects::tree::{EntryMode, TreeEntry};
use git_objects::types::{ObjectId, ObjectType};
use git_objects::utils::{parse_content_raw_bytes, zlib_decode};
use std::path::PathBuf;

const D1: &str = "85df50785d62d3b05ab03d9cbf7e4a0b49449730";
const D2: &str = "4b825dc642cb6eb9a060e54bf8d69288fbee4904";
const TREE: &str = "c9b18fdc2b3c1ed6be6cab9dd6d751763bebca4b";

fn id(text: &str) -> ObjectId {
    ObjectId::validate(text).unwrap()
}

fn entry(mode: EntryMode, name: &str, target: &str) -> TreeEntry {
    TreeEntry::new(mode, name.as_bytes().to_vec(), id(target))
}

fn hashing(write: bool, quiet: bool) -> HashObjectArgs {
    HashObjectArgs::new(write, PathBuf::from("file"), quiet)
}

fn listing(name_only: bool) -> ListTreeArgs {
    ListTreeArgs { name_only, tree_sha: id(TREE) }
}

fn two_entries() -> Vec<TreeEntry> {
    vec![entry(EntryMode::Regular, "file1", D1), entry(EntryMode::Directory, "dir1", D2)]
}

#[test]
fn wrap_writes_kind_length_and_payload() {
    assert_eq!(wrap(ObjectType::Blob, b"abcd"), b"blob 4\0abcd".to_vec());
    assert_eq!(wrap(ObjectType::Blob, b"abcd").len(), 11);
    assert_eq!(wrap(ObjectType::Tree, b""), b"tree 0\0".to_vec());
}

#[test]
fn wrap_writes_the_length_in_decimal() {
    let payload = vec![7u8; 1203];
    let envelope = wrap(ObjectType::Blob, &payload);
    assert_eq!(&envelope[..10], b"blob 1203\0");
    assert_eq!(envelope.len(), 10 + 1203);
    let ten = wrap(ObjectType::Tree, &[0u8; 10]);
    assert_eq!(&ten[..8], b"tree 10\0");
}

#[test]
fn unwrap_gives_back_what_was_wrapped() {
    let payload = b"a\0b c\0\xff".to_vec();
    let (header, read) = parse_content_raw_bytes(&wrap(ObjectType::Tree, &payload)).unwrap();
    assert_eq!(header.object_type, ObjectType::Tree);
    assert_eq!(header.size, payload.len());
    assert_eq!(read, payload);
}

#[test]
fn encode_and_decode_go_both_ways() {
    let data = b"blob 4\0abcd".to_vec();
    let stream = zlib_encode(&data).unwrap();
    assert_ne!(stream, data);
    assert_eq!(zlib_decode(&stream), Ok(data));
}

#[test]
fn encode_and_decode_of_nothing_and_of_much() {
    let empty = zlib_encode(&[]).unwrap();
    assert!(!empty.is_empty());
    assert_eq!(zlib_decode(&empty), Ok(Vec::new()));
    let mut much = Vec::new();
    for i in 0..200_000u32 {
        much.push((i % 251) as u8);
    }
    let stream = zlib_encode(&much).unwrap();
    assert!(stream.len() < much.len());
    assert_eq!(zlib_decode(&stream), Ok(much));
}

#[test]
fn hash_object_names_the_blob_of_abcd() {
    let object = hash_object(&hashing(false, false), b"abcd").unwrap();
    assert_eq!(object.hash.as_str(), D1);
    assert_eq!(object.file, None);
    assert_eq!(object.output, Some(String::from(D1)));
}

#[test]
fn hash_object_names_the_empty_blob() {
    let object = hash_object(&hashing(false, true), b"").unwrap();
    assert_eq!(object.hash.as_str(), "e69de29bb2d1d6434b8b29ae775ad8c2e48c5391");
    assert_eq!(object.output, None);
}

#[test]
fn hash_object_names_a_line_of_text() {
    let object = hash_object(&hashing(false, true), b"hello world\n").unwrap();
    assert_eq!(object.hash.as_str(), "3b18e512dba79e4c8300dd08aeb37f8e728b8dad");
}

#[test]
fn hash_object_writes_where_the_identifier_says() {
    let object = hash_object(&hashing(true, true), b"abcd").unwrap();
    let file = object.file.unwrap();
    assert_eq!(file.path, ".git/objects/85/df50785d62d3b05ab03d9cbf7e4a0b49449730");
    assert_eq!(zlib_decode(&file.bytes), Ok(b"blob 4\0abcd".to_vec()));
    assert_eq!(object.output, None);
}

#[test]
fn hash_object_tells_contents_apart() {
    let one = hash_object(&hashing(false, true), b"abcd").unwrap();
    let other = hash_object(&hashing(false, true), b"abce").unwrap();
    assert_ne!(one.hash, other.hash);
}

#[test]
fn store_object_names_any_envelope() {
    let object = store_object(b"tree 0\0", true, false).unwrap();
    assert_eq!(object.hash.as_str(), D2);
    assert_eq!(object.output, Some(String::from(D2)));
    let file = object.file.unwrap();
    assert_eq!(file.path, ".git/objects/4b/825dc642cb6eb9a060e54bf8d69288fbee4904");
    assert_eq!(zlib_decode(&file.bytes), Ok(b"tree 0\0".to_vec()));
}

#[test]
fn failure_of_the_compressor_is_failure_to_build() {
    assert_eq!(
        HashedObject::from_encoded(id(D1), Some(Err(IoError::Other)), false),
        Err(BuildError::Io(IoError::Other))
    );
    assert_eq!(
        HashedObject::from_encoded(id(D1), Some(Err(IoError::Permission)), true),
        Err(BuildError::Io(IoError::Permission))
    );
}

#[test]
fn stream_of_the_compressor_goes_to_the_file_of_the_object() {
    let object = HashedObject::from_encoded(id(D1), Some(Ok(vec![1, 2, 3])), false).unwrap();
    assert_eq!(
        object,
        HashedObject {
            hash: id(D1),
            file: Some(ObjectFile {
                path: String::from(".git/objects/85/df50785d62d3b05ab03d9cbf7e4a0b49449730"),
                bytes: vec![1, 2, 3],
            }),
            output: Some(String::from(D1)),
        }
    );
}

#[test]
fn object_that_is_not_written_has_no_file() {
    let object = HashedObject::from_encoded(id(D2), None, true).unwrap();
    assert_eq!(object, HashedObject { hash: id(D2), file: None, output: None });
}

#[test]
fn cat_file_shows_what_hash_object_wrote() {
    let content = b"some\0content \xff of a file".to_vec();
    let object = hash_object(&hashing(true, true), &content).unwrap();
    assert_eq!(cat_file(&object.file.unwrap().bytes), Ok(content));
}

#[test]
fn cat_file_of_a_stream_that_is_none_fails() {
    assert_eq!(cat_file(b"plain"), Err(ReadError::Decode(DecodeError::Corrupt)));
    assert_eq!(cat_file(b""), Err(ReadError::Decode(DecodeError::Truncated)));
}

#[test]
fn cat_file_of_a_stream_without_envelope_fails() {
    let no_header = zlib_encode(b"abcd").unwrap();
    assert_eq!(cat_file(&no_header), Err(ReadError::Format(FormatError::MissingHeader)));
    let no_space = zlib_encode(b"blob\0abcd").unwrap();
    assert_eq!(cat_file(&no_space), Err(ReadError::Format(FormatError::MalformedHeader)));
    let other = zlib_encode(b"commit 4\0abcd").unwrap();
    assert_eq!(cat_file(&other), Err(ReadError::Format(FormatError::UnknownKind)));
}

#[test]
fn write_tree_of_an_empty_directory() {
    let args = WriteTreeArgs { path: None, quiet: false };
    let object = write_tree(&args, Vec::new()).unwrap();
    assert_eq!(object.hash.as_str(), D2);
    assert_eq!(object.output, Some(String::from(D2)));
    let file = object.file.unwrap();
    assert_eq!(file.path, ".git/objects/4b/825dc642cb6eb9a060e54bf8d69288fbee4904");
    assert_eq!(zlib_decode(&file.bytes), Ok(b"tree 0\0".to_vec()));
}

#[test]
fn write_tree_of_a_file_and_a_subdirectory() {
    let args = WriteTreeArgs { path: Some(PathBuf::from("work")), quiet: true };
    let object = write_tree(&args, two_entries()).unwrap();
    assert_eq!(object.hash.as_str(), TREE);
    assert_eq!(object.output, None);
    let file = object.file.unwrap();
    assert_eq!(file.path, ".git/objects/c9/b18fdc2b3c1ed6be6cab9dd6d751763bebca4b");
    let envelope = zlib_decode(&file.bytes).unwrap();
    let mut expected = b"tree 64\0".to_vec();
    expected.extend_from_slice(b"40000 dir1\0");
    expected.extend_from_slice(&id(D2).raw_digest());
    expected.extend_from_slice(b"100644 file1\0");
    expected.extend_from_slice(&id(D1).raw_digest());
    assert_eq!(envelope, expected);
}

#[test]
fn encode_gives_the_same_stream_each_time() {
    let data = b"tree 0\0".to_vec();
    assert_eq!(zlib_encode(&data), zlib_encode(&data));
}

#[test]
fn write_tree_writes_the_stream_of_the_compressor() {
    let args = WriteTreeArgs { path: None, quiet: true };
    let file = write_tree(&args, two_entries()).unwrap().file.unwrap();
    let mut envelope = b"tree 64\0".to_vec();
    envelope.extend_from_slice(b"40000 dir1\0");
    envelope.extend_from_slice(&id(D2).raw_digest());
    envelope.extend_from_slice(b"100644 file1\0");
    envelope.extend_from_slice(&id(D1).raw_digest());
    assert_eq!(Ok(file.bytes), zlib_encode(&envelope));
}

#[test]
fn hash_object_writes_the_stream_of_the_compressor() {
    let file = hash_object(&hashing(true, true), b"abcd").unwrap().file.unwrap();
    assert_eq!(Ok(file.bytes), zlib_encode(b"blob 4\0abcd"));
}

#[test]
fn write_tree_gives_the_same_identifier_each_time() {
    let args = WriteTreeArgs { path: None, quiet: true };
    let first = write_tree(&args, two_entries()).unwrap();
    let second = write_tree(&args, two_entries()).unwrap();
    assert_eq!(first.hash, second.hash);
    let mut turned = two_entries();
    turned.reverse();
    let third = write_tree(&args, turned).unwrap();
    assert_eq!(first.hash, third.hash);
}

#[test]
fn write_tree_tells_directories_apart() {
    let args = WriteTreeArgs { path: None, quiet: true };
    let base = write_tree(&args, two_entries()).unwrap().hash;
    let renamed = vec![entry(EntryMode::Regular, "file2", D1), entry(EntryMode::Directory, "dir1", D2)];
    assert_ne!(write_tree(&args, renamed).unwrap().hash, base);
    let changed = hash_object(&hashing(false, true), b"abce").unwrap().hash;
    let edited = vec![
        TreeEntry::new(EntryMode::Regular, b"file1".to_vec(), changed),
        entry(EntryMode::Directory, "dir1", D2),
    ];
    assert_ne!(write_tree(&args, edited).unwrap().hash, base);
    let other_mode =
        vec![entry(EntryMode::Executable, "file1", D1), entry(EntryMode::Directory, "dir1", D2)];
    assert_ne!(write_tree(&args, other_mode).unwrap().hash, base);
}

#[test]
fn list_tree_reads_back_what_write_tree_wrote() {
    let args = WriteTreeArgs { path: None, quiet: true };
    let stored = write_tree(&args, two_entries()).unwrap().file.unwrap().bytes;
    let entries = list_tree(&stored).unwrap();
    assert_eq!(
        entries,
        vec![entry(EntryMode::Directory, "dir1", D2), entry(EntryMode::Regular, "file1", D1)]
    );
}

#[test]
fn ls_tree_lists_mode_name_and_target() {
    let args = WriteTreeArgs { path: None, quiet: true };
    let stored = write_tree(&args, two_entries()).unwrap().file.unwrap().bytes;
    let lines = ls_tree(&listing(false), &stored).unwrap();
    assert_eq!(
        lines,
        vec![
            String::from("40000 dir1 4b825dc642cb6eb9a060e54bf8d69288fbee4904"),
            String::from("100644 file1 85df50785d62d3b05ab03d9cbf7e4a0b49449730"),
        ]
    );
}

#[test]
fn ls_tree_lists_names_alone() {
    let args = WriteTreeArgs { path: None, quiet: true };
    let stored = write_tree(&args, two_entries()).unwrap().file.unwrap().bytes;
    let lines = ls_tree(&listing(true), &stored).unwrap();
    assert_eq!(lines, vec![String::from("dir1"), String::from("file1")]);
}

#[test]
fn ls_tree_keeps_the_order_of_the_tree() {
    let mut payload = b"100644 z\0".to_vec();
    payload.extend_from_slice(&id(D1).raw_digest());
    payload.extend_from_slice(b"100644 a\0");
    payload.extend_from_slice(&id(D1).raw_digest());
    let stored = zlib_encode(&wrap(ObjectType::Tree, &payload)).unwrap();
    let lines = ls_tree(&listing(true), &stored).unwrap();
    assert_eq!(lines, vec![String::from("z"), String::from("a")]);
}

#[test]
fn ls_tree_does_not_look_at_the_kind() {
    let mut payload = b"100644 a\0".to_vec();
    payload.extend_from_slice(&id(D1).raw_digest());
    let stored = zlib_encode(&wrap(ObjectType::Blob, &payload)).unwrap();
    assert_eq!(ls_tree(&listing(true), &stored), Ok(vec![String::from("a")]));
}

#[test]
fn ls_tree_of_a_blob_that_is_no_list_fails() {
    let stored = hash_object(&hashing(true, true), b"abcd").unwrap().file.unwrap().bytes;
    assert_eq!(
        ls_tree(&listing(false), &stored),
        Err(ReadError::Tree(TreeParseError::Truncated))
    );
    assert_eq!(list_tree(&stored), Err(ReadError::Tree(TreeParseError::Truncated)));
}

#[test]
fn ls_tree_of_a_name_that_is_no_text_fails() {
    let odd = TreeEntry::new(EntryMode::Regular, vec![0xff], id(D1));
    let args = WriteTreeArgs { path: None, quiet: true };
    let stored = write_tree(&args, vec![odd]).unwrap().file.unwrap().bytes;
    assert_eq!(
        ls_tree(&listing(true), &stored),
        Err(ReadError::Tree(TreeParseError::InvalidUtf8))
    );
}

#[test]
fn ls_tree_of_a_stream_that_is_none_fails() {
    assert_eq!(ls_tree(&listing(true), b"plain"), Err(ReadError::Decode(DecodeError::Corrupt)));
    let no_header = zlib_encode(b"abcd").unwrap();
    assert_eq!(
        ls_tree(&listing(true), &no_header),
        Err(ReadError::Format(FormatError::MissingHeader))
    );
}

#[test]
fn format_entry_writes_one_line() {
    let file = entry(EntryMode::Symlink, "link", D1);
    assert_eq!(
        format_entry(&file, false),
        Ok(String::from("120000 link 85df50785d62d3b05ab03d9cbf7e4a0b49449730"))
    );
    assert_eq!(format_entry(&file, true), Ok(String::from("link")));
}

#[test]
fn format_entry_reads_names_as_utf8() {
    let file = entry(EntryMode::Regular, "\u{e9}t\u{e9}", D1);
    assert_eq!(format_entry(&file, true), Ok(String::from("\u{e9}t\u{e9}")));
}

#[test]
fn format_entry_needs_text() {
    let odd_name = TreeEntry::new(EntryMode::Regular, vec![0xff], id(D1));
    assert_eq!(format_entry(&odd_name, true), Err(TreeParseError::InvalidUtf8));
    assert_eq!(format_entry(&odd_name, false), Err(TreeParseError::InvalidUtf8));
    let odd_mode = TreeEntry { mode: vec![0xff], name: b"a".to_vec(), target: id(D1) };
    assert_eq!(format_entry(&odd_mode, false), Err(TreeParseError::InvalidUtf8));
    assert_eq!(format_entry(&odd_mode, true), Ok(String::from("a")));
}

#[test]
fn the_store_keeps_itself_out_of_trees() {
    assert!(is_git_dir(b".git"));
    assert!(!is_git_dir(b".github"));
    assert!(!is_git_dir(b"git"));
    assert!(!is_git_dir(b""));
    assert!(!is_git_dir(b".GIT"));
}

#[test]
fn errors_say_what_went_wrong() {
    assert_eq!(DecodeError::Corrupt.message(), "corrupt compressed stream");
    assert_eq!(DecodeError::Truncated.message(), "truncated compressed stream");
    assert_eq!(FormatError::MissingHeader.message(), "no NUL byte ends the header");
    assert_eq!(FormatError::MalformedHeader.message(), "malformed header");
    assert_eq!(FormatError::UnknownKind.message(), "unknown kind of object");
    assert_eq!(TreeParseError::Truncated.message(), "tree ends inside an entry");
    assert_eq!(TreeParseError::InvalidUtf8.message(), "mode or name of an entry is not text");
    assert_eq!(IoError::NotFound.message(), "not found");
    assert_eq!(IoError::Permission.message(), "permission denied");
    assert_eq!(IoError::Other.message(), "input or output failed");
    assert_eq!(ReadError::Io(IoError::NotFound).message(), "not found");
    assert_eq!(ReadError::Decode(DecodeError::Corrupt).message(), "corrupt compressed stream");
    assert_eq!(ReadError::Format(FormatError::UnknownKind).message(), "unknown kind of object");
    assert_eq!(ReadError::Tree(TreeParseError::Truncated).message(), "tree ends inside an entry");
    assert_eq!(BuildError::Io(IoError::Permission).message(), "permission denied");
}

#[test]
fn commands_hold_their_arguments() {
    let show = Command::CatFile(CatFileArgs { pretty: true, object: id(D1) });
    match show {
        Command::CatFile(args) => {
            assert!(args.pretty);
            assert_eq!(args.object.as_str(), D1);
        },
        _ => panic!("another command"),
    }
    let hash = HashObjectArgs::new(true, PathBuf::from("some/file"), false);
    assert!(hash.write);
    assert!(!hash.quiet);
    assert_eq!(hash.file, PathBuf::from("some/file"));
    assert!(matches!(Command::Init, Command::Init));
    assert!(matches!(Command::ListTree(listing(true)), Command::ListTree(_)));
    let write = Command::WriteTree(WriteTreeArgs { path: None, quiet: true });
    assert!(matches!(write, Command::WriteTree(_)));
}
