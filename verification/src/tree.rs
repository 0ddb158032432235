//! Tree objects: the entries of one directory, and the bytes that hold them.
//!
//! A tree's payload is its entries one after another, each as mode, a space,
//! name, a NUL byte and the twenty raw bytes of the target's digest.

use crate::bytes::{
    ascii_bytes, bytes_eq, bytes_le, find_byte, first_index, lemma_first_exists,
    lemma_first_index_after, lemma_lex_le_antisymmetric, lemma_lex_le_total,
    lemma_lex_le_transitive, lex_le, utf8_text,
};
use crate::envelope::append_bytes;
use crate::errors::TreeParseError;
use crate::hexadecimal::{hex_bytes, hex_text, lemma_hex_text_of_bytes};
use crate::types::{is_object_id, ObjectId};
use vstd::prelude::*;
use vstd::slice::slice_to_vec;
use vstd::utf8::{is_ascii_chars, is_ascii_chars_encode_utf8, valid_utf8};

verus! {

/// What an entry of a tree points at.
#[derive(Debug, Clone, Copy, PartialEq, Eq, Structural)]
pub enum EntryMode {
    /// Another tree: a subdirectory.
    Directory,
    /// A regular file that is not executable.
    Regular,
    /// A regular file that is executable.
    Executable,
    /// A symbolic link.
    Symlink,
}

/// Where the object that an entry names comes from.
#[derive(Debug, Clone, Copy, PartialEq, Eq, Structural)]
pub enum Source {
    /// From the tree that is built of the subdirectory.
    Subtree,
    /// From a blob that holds the text of the link's target.
    LinkTarget,
    /// From a blob that holds the bytes of the file.
    FileContent,
}

impl EntryMode {
    /// Where the object of an entry of this mode comes from.
    pub open spec fn source_of(self) -> Source {
        match self {
            EntryMode::Directory => Source::Subtree,
            EntryMode::Symlink => Source::LinkTarget,
            EntryMode::Regular => Source::FileContent,
            EntryMode::Executable => Source::FileContent,
        }
    }

    /// Says where the object of an entry of this mode comes from: a
    /// directory's from its own tree, a link's from a blob of the target's
    /// text, a file's from a blob of its bytes.
    pub fn source(&self) -> (source: Source)
        ensures
            source == self.source_of(),
    {
        match self {
            EntryMode::Directory => Source::Subtree,
            EntryMode::Symlink => Source::LinkTarget,
            EntryMode::Regular => Source::FileContent,
            EntryMode::Executable => Source::FileContent,
        }
    }

    /// The mode as a tree spells it.
    pub open spec fn text(self) -> Seq<char> {
        match self {
            EntryMode::Directory => "40000"@,
            EntryMode::Regular => "100644"@,
            EntryMode::Executable => "100755"@,
            EntryMode::Symlink => "120000"@,
        }
    }

    /// The bytes of the mode.
    pub open spec fn octal(self) -> Seq<u8> {
        ascii_bytes(self.text())
    }

    /// The mode of an entry of the working directory, from what the file
    /// system says of it: a directory first, then a symbolic link, then an
    /// executable file, and a regular file otherwise.
    pub open spec fn of_file(is_dir: bool, is_symlink: bool, is_executable: bool) -> EntryMode {
        if is_dir {
            EntryMode::Directory
        } else if is_symlink {
            EntryMode::Symlink
        } else if is_executable {
            EntryMode::Executable
        } else {
            EntryMode::Regular
        }
    }

    /// Every mode is a run of the digits `0`..`7`, and is the UTF-8 form of
    /// its own text.
    pub proof fn lemma_octal(self)
        ensures
            5 <= self.octal().len() <= 6,
            forall|i: int| 0 <= i < self.octal().len() ==> 48 <= #[trigger] self.octal()[i] <= 55,
            vstd::utf8::encode_utf8(self.text()) == self.octal(),
            valid_utf8(self.octal()),
    {
        reveal_strlit("40000");
        reveal_strlit("100644");
        reveal_strlit("100755");
        reveal_strlit("120000");
        assert(is_ascii_chars(self.text()));
        is_ascii_chars_encode_utf8(self.text());
        assert(vstd::utf8::encode_utf8(self.text()) =~= self.octal());
        vstd::utf8::encode_utf8_valid_utf8(self.text());
    }

    /// The mode as a tree spells it.
    pub fn as_str(&self) -> (s: &'static str)
        ensures
            s@ == self.text(),
    {
        match self {
            EntryMode::Directory => "40000",
            EntryMode::Regular => "100644",
            EntryMode::Executable => "100755",
            EntryMode::Symlink => "120000",
        }
    }

    /// The bytes of the mode.
    pub fn to_bytes(&self) -> (bytes: Vec<u8>)
        ensures
            bytes@ == self.octal(),
    {
        proof {
            self.lemma_octal();
        }
        slice_to_vec(self.as_str().as_bytes())
    }

    /// The mode that the bytes spell, if they spell one.
    pub open spec fn of_octal(bytes: Seq<u8>) -> Option<EntryMode> {
        if bytes == EntryMode::Directory.octal() {
            Some(EntryMode::Directory)
        } else if bytes == EntryMode::Regular.octal() {
            Some(EntryMode::Regular)
        } else if bytes == EntryMode::Executable.octal() {
            Some(EntryMode::Executable)
        } else if bytes == EntryMode::Symlink.octal() {
            Some(EntryMode::Symlink)
        } else {
            None
        }
    }

    /// Reads a mode from the bytes of an entry.
    pub fn from_bytes(bytes: &[u8]) -> (res: Option<EntryMode>)
        ensures
            res == EntryMode::of_octal(bytes@),
    {
        proof {
            EntryMode::Directory.lemma_octal();
            EntryMode::Regular.lemma_octal();
            EntryMode::Executable.lemma_octal();
            EntryMode::Symlink.lemma_octal();
        }
        if bytes_eq(bytes, EntryMode::Directory.as_str().as_bytes()) {
            Some(EntryMode::Directory)
        } else if bytes_eq(bytes, EntryMode::Regular.as_str().as_bytes()) {
            Some(EntryMode::Regular)
        } else if bytes_eq(bytes, EntryMode::Executable.as_str().as_bytes()) {
            Some(EntryMode::Executable)
        } else if bytes_eq(bytes, EntryMode::Symlink.as_str().as_bytes()) {
            Some(EntryMode::Symlink)
        } else {
            None
        }
    }

    /// Chooses the mode of an entry of the working directory.
    pub fn for_file(is_dir: bool, is_symlink: bool, is_executable: bool) -> (mode: EntryMode)
        ensures
            mode == EntryMode::of_file(is_dir, is_symlink, is_executable),
    {
        if is_dir {
            EntryMode::Directory
        } else if is_symlink {
            EntryMode::Symlink
        } else if is_executable {
            EntryMode::Executable
        } else {
            EntryMode::Regular
        }
    }
}

/// One entry of a tree, as a mathematical value.
pub struct EntryModel {
    /// The mode's bytes.
    pub mode: Seq<u8>,
    /// The name's bytes: one path component.
    pub name: Seq<u8>,
    /// The text of the target's identifier.
    pub target: Seq<char>,
}

impl EntryModel {
    /// The entry is one that a directory can have: a known mode, a name
    /// without NUL and without a path separator, a target that is an
    /// identifier.
    pub open spec fn is_valid(self) -> bool {
        &&& exists|mode: EntryMode| self.mode == #[trigger] mode.octal()
        &&& !self.name.contains(0u8)
        &&& !self.name.contains(47u8)
        &&& is_object_id(self.target)
    }

    /// The entry reads back from a payload as it was written: no space in
    /// the mode, no NUL in the name, both of them text, and a target that is
    /// an identifier.
    pub open spec fn reads_back(self) -> bool {
        &&& !self.mode.contains(32u8)
        &&& !self.name.contains(0u8)
        &&& valid_utf8(self.mode)
        &&& valid_utf8(self.name)
        &&& is_object_id(self.target)
    }

    /// The bytes of the entry in a payload.
    pub open spec fn bytes(self) -> Seq<u8> {
        self.mode + seq![32u8] + self.name + seq![0u8] + hex_bytes(self.target)
    }

    /// A valid entry whose name is text reads back as it was written.
    pub proof fn lemma_valid_reads_back(self)
        requires
            self.is_valid(),
            valid_utf8(self.name),
        ensures
            self.reads_back(),
    {
        let mode = choose|mode: EntryMode| self.mode == #[trigger] mode.octal();
        mode.lemma_octal();
        if self.mode.contains(32u8) {
            let i = choose|i: int| 0 <= i < self.mode.len() && self.mode[i] == 32u8;
            assert(48 <= mode.octal()[i]);
        }
    }
}

/// One entry of a tree.
#[derive(Debug, PartialEq, Eq)]
pub struct TreeEntry {
    /// The mode's bytes.
    pub mode: Vec<u8>,
    /// The name's bytes: one path component.
    pub name: Vec<u8>,
    /// The identifier of the blob or tree that the entry names.
    pub target: ObjectId,
}

impl View for TreeEntry {
    type V = EntryModel;

    open spec fn view(&self) -> EntryModel {
        EntryModel { mode: self.mode@, name: self.name@, target: self.target@ }
    }
}

impl Clone for TreeEntry {
    fn clone(&self) -> (res: Self)
        ensures
            res@ == self@,
    {
        TreeEntry {
            mode: slice_to_vec(self.mode.as_slice()),
            name: slice_to_vec(self.name.as_slice()),
            target: self.target.clone(),
        }
    }
}

impl TreeEntry {
    /// An entry of the given mode.
    pub fn new(mode: EntryMode, name: Vec<u8>, target: ObjectId) -> (entry: TreeEntry)
        ensures
            entry@ == (EntryModel { mode: mode.octal(), name: name@, target: target@ }),
    {
        TreeEntry { mode: mode.to_bytes(), name, target }
    }

    /// Whether the entry is one that a directory can have: a known mode and
    /// a name without NUL and without a path separator.
    pub fn is_valid(&self) -> (res: bool)
        ensures
            res == self@.is_valid(),
    {
        let known = EntryMode::from_bytes(self.mode.as_slice());
        let nul = find_byte(self.name.as_slice(), 0u8);
        let separator = find_byte(self.name.as_slice(), 47u8);
        // the target is an identifier by its type
        let _ = self.target.as_str();
        proof {
            if known is Some {
                assert(self@.mode == known->0.octal());
            }
        }
        known.is_some() && nul.is_none() && separator.is_none()
    }
}

/// The entries of a list, as mathematical values.
pub open spec fn models(entries: Seq<TreeEntry>) -> Seq<EntryModel> {
    entries.map_values(|entry: TreeEntry| entry@)
}

/// The payload of a tree: the bytes of its entries, one after another.
pub open spec fn tree_payload(entries: Seq<EntryModel>) -> Seq<u8>
    decreases entries.len(),
{
    if entries.len() == 0 {
        Seq::empty()
    } else {
        entries[0].bytes() + tree_payload(entries.skip(1))
    }
}

/// The payload of a list with one more entry at its end.
pub proof fn lemma_tree_payload_push(entries: Seq<EntryModel>, entry: EntryModel)
    ensures
        tree_payload(entries.push(entry)) == tree_payload(entries) + entry.bytes(),
    decreases entries.len(),
{
    let longer = entries.push(entry);
    if entries.len() == 0 {
        assert(longer.skip(1) =~= Seq::<EntryModel>::empty());
        assert(tree_payload(longer.skip(1)) =~= Seq::<u8>::empty());
        assert(tree_payload(longer) =~= tree_payload(entries) + entry.bytes());
    } else {
        lemma_tree_payload_push(entries.skip(1), entry);
        assert(longer.skip(1) =~= entries.skip(1).push(entry));
        assert(tree_payload(longer) =~= tree_payload(entries) + entry.bytes());
    }
}

/// Writes out the payload of a tree: the entries as they stand, in the order
/// in which they stand.
pub fn serialize(entries: &[TreeEntry]) -> (payload: Vec<u8>)
    ensures
        payload@ == tree_payload(models(entries@)),
{
    let mut payload: Vec<u8> = Vec::new();
    let mut i: usize = 0;
    while i < entries.len()
        invariant
            i <= entries.len(),
            payload@ == tree_payload(models(entries@).take(i as int)),
        decreases entries.len() - i,
    {
        let entry = &entries[i];
        let raw = entry.target.raw_digest();
        proof {
            let done = models(entries@).take(i as int);
            lemma_tree_payload_push(done, entry@);
            assert(models(entries@).take(i + 1) =~= done.push(entry@));
        }
        append_bytes(&mut payload, entry.mode.as_slice());
        payload.push(32u8);
        append_bytes(&mut payload, entry.name.as_slice());
        payload.push(0u8);
        append_bytes(&mut payload, raw.as_slice());
        proof {
            assert(payload@ =~= tree_payload(models(entries@).take(i as int)) + entry@.bytes());
        }
        i += 1;
    }
    proof {
        assert(models(entries@).take(i as int) =~= models(entries@));
    }
    payload
}

/// The entries that a payload holds, read from its first byte on: a mode up
/// to the first space, a name up to the next NUL, twenty bytes of digest, and
/// so on to the end. `None` where the payload ends inside an entry.
pub open spec fn scanned(payload: Seq<u8>) -> Option<Seq<EntryModel>>
    decreases payload.len(),
{
    if payload.len() == 0 {
        Some(Seq::empty())
    } else if !payload.contains(32u8) {
        None
    } else {
        let space = first_index(payload, 32u8);
        let rest = payload.skip(space + 1);
        if !rest.contains(0u8) {
            None
        } else {
            let nul = first_index(rest, 0u8);
            if rest.len() < nul + 21 {
                None
            } else {
                proof {
                    lemma_first_exists(payload, 32u8);
                    lemma_first_exists(rest, 0u8);
                }
                let entry = EntryModel {
                    mode: payload.take(space),
                    name: rest.take(nul),
                    target: hex_text(rest.subrange(nul + 1, nul + 21)),
                };
                match scanned(rest.skip(nul + 21)) {
                    None => None,
                    Some(more) => Some(seq![entry] + more),
                }
            }
        }
    }
}

/// Mode and name are text.
pub open spec fn is_text(entry: EntryModel) -> bool {
    valid_utf8(entry.mode) && valid_utf8(entry.name)
}

/// What a payload parses to. A payload that ends inside an entry is
/// `Truncated`, whatever else is wrong with it; one that is whole but holds a
/// mode or a name that is not text is `InvalidUtf8`.
pub open spec fn parsed(payload: Seq<u8>) -> Result<Seq<EntryModel>, TreeParseError> {
    match scanned(payload) {
        None => Err(TreeParseError::Truncated),
        Some(entries) => if forall|i: int| 0 <= i < entries.len() ==> is_text(#[trigger] entries[i]) {
            Ok(entries)
        } else {
            Err(TreeParseError::InvalidUtf8)
        },
    }
}

/// The entries read so far, followed by what the rest of a payload holds.
pub open spec fn followed_by(
    done: Seq<EntryModel>,
    rest: Option<Seq<EntryModel>>,
) -> Option<Seq<EntryModel>> {
    match rest {
        None => None,
        Some(more) => Some(done + more),
    }
}

/// Reads the entries of a tree's payload, in the order in which it holds
/// them. The payload is taken as raw bytes throughout: the twenty bytes of a
/// digest are never looked at as text.
pub fn parse(payload: &[u8]) -> (res: Result<Vec<TreeEntry>, TreeParseError>)
    ensures
        match res {
            Ok(entries) => parsed(payload@) == Ok::<_, TreeParseError>(models(entries@)),
            Err(e) => parsed(payload@) == Err::<Seq<EntryModel>, _>(e),
        },
{
    let total = payload.len();
    let mut entries: Vec<TreeEntry> = Vec::new();
    let mut all_text = true;
    let mut at: usize = 0;
    proof {
        assert(payload@.skip(0) =~= payload@);
        assert(models(entries@) + scanned(payload@)->0 =~= scanned(payload@)->0);
    }
    while at < total
        invariant
            at <= total == payload@.len(),
            scanned(payload@) == followed_by(models(entries@), scanned(payload@.skip(at as int))),
            all_text == (forall|i: int|
                0 <= i < entries@.len() ==> is_text(#[trigger] models(entries@)[i])),
        decreases total - at,
    {
        let ghost before = models(entries@);
        let rest = &payload[at..total];
        assert(rest@ =~= payload@.skip(at as int));
        let space = match find_byte(rest, 32u8) {
            None => { return Err(TreeParseError::Truncated); },
            Some(space) => space,
        };
        let rest_len = rest.len();
        let after = &rest[space + 1..rest_len];
        assert(after@ =~= rest@.skip(space + 1));
        let nul = match find_byte(after, 0u8) {
            None => { return Err(TreeParseError::Truncated); },
            Some(nul) => nul,
        };
        if after.len() - nul < 21 {
            return Err(TreeParseError::Truncated);
        }
        let mode = &rest[0..space];
        let name = &after[0..nul];
        let raw = &after[nul + 1..nul + 21];
        let ghost was_text = all_text;
        if utf8_text(mode).is_none() || utf8_text(name).is_none() {
            all_text = false;
        }
        let entry = TreeEntry {
            mode: slice_to_vec(mode),
            name: slice_to_vec(name),
            target: ObjectId::from_raw(raw),
        };
        proof {
            let tail = scanned(after@.skip(nul + 21));
            assert(after@.skip(nul + 21) =~= payload@.skip(at + space + 1 + nul + 21));
            assert(entry@.mode =~= rest@.take(space as int));
            assert(entry@.name =~= after@.take(nul as int));
            assert(scanned(rest@) == followed_by(seq![entry@], tail));
            assert(models(entries@.push(entry)) =~= before.push(entry@));
            if tail is Some {
                assert(before + (seq![entry@] + tail->0) =~= before.push(entry@) + tail->0);
            }
            let after_push = before.push(entry@);
            assert(after_push[before.len() as int] == entry@);
            assert(all_text == (was_text && is_text(entry@)));
            if !was_text {
                let i = choose|i: int| 0 <= i < before.len() && !is_text(#[trigger] before[i]);
                assert(after_push[i] == before[i]);
            } else {
                assert forall|i: int| 0 <= i < before.len() implies is_text(
                    #[trigger] after_push[i],
                ) by {
                    assert(after_push[i] == before[i]);
                }
            }
        }
        entries.push(entry);
        at = at + space + 1 + nul + 21;
    }
    proof {
        assert(payload@.skip(at as int) =~= Seq::<u8>::empty());
        assert(models(entries@) + Seq::<EntryModel>::empty() =~= models(entries@));
    }
    if all_text {
        Ok(entries)
    } else {
        Err(TreeParseError::InvalidUtf8)
    }
}

/// The bytes of one entry, followed by more of a payload, scan into that entry
/// and what the rest scans into.
pub proof fn lemma_scan_entry(first: EntryModel, tail: Seq<u8>)
    requires
        !first.mode.contains(32u8),
        !first.name.contains(0u8),
        is_object_id(first.target),
    ensures
        scanned(first.bytes() + tail) == followed_by(seq![first], scanned(tail)),
{
    let raw = hex_bytes(first.target);
    let payload = first.bytes() + tail;
    let after_mode = seq![32u8] + first.name + seq![0u8] + raw + tail;
    let after_name = seq![0u8] + raw + tail;
    let space = first_index(payload, 32u8);
    let rest = payload.skip(space + 1);
    let nul = first_index(rest, 0u8);
    assert(raw.len() == 20);
    assert(payload.contains(32u8) && space == first.mode.len()) by {
        assert(payload =~= first.mode + after_mode);
        lemma_first_index_after(first.mode, after_mode, 32u8);
    }
    assert(rest =~= first.name + after_name);
    assert(rest.contains(0u8) && nul == first.name.len()) by {
        lemma_first_index_after(first.name, after_name, 0u8);
    }
    assert(rest.len() >= nul + 21);
    let entry = EntryModel {
        mode: payload.take(space),
        name: rest.take(nul),
        target: hex_text(rest.subrange(nul + 1, nul + 21)),
    };
    assert(entry == first) by {
        assert(payload.take(space) =~= first.mode);
        assert(rest.take(nul) =~= first.name);
        assert(rest.subrange(nul + 1, nul + 21) =~= raw);
        lemma_hex_text_of_bytes(first.target);
    }
    assert(rest.skip(nul + 21) =~= tail);
}

/// A payload that was written from entries scans into those entries again,
/// where no mode holds a space, no name a NUL, and every target is an
/// identifier.
pub proof fn lemma_scan_payload(entries: Seq<EntryModel>)
    requires
        forall|i: int|
            0 <= i < entries.len() ==> {
                &&& !(#[trigger] entries[i]).mode.contains(32u8)
                &&& !entries[i].name.contains(0u8)
                &&& is_object_id(entries[i].target)
            },
    ensures
        scanned(tree_payload(entries)) == Some(entries),
    decreases entries.len(),
{
    if entries.len() > 0 {
        let others = entries.skip(1);
        assert forall|i: int| 0 <= i < others.len() implies {
            &&& !(#[trigger] others[i]).mode.contains(32u8)
            &&& !others[i].name.contains(0u8)
            &&& is_object_id(others[i].target)
        } by {
            assert(others[i] == entries[i + 1]);
        }
        lemma_scan_payload(others);
        lemma_scan_entry(entries[0], tree_payload(others));
        assert(seq![entries[0]] + others =~= entries);
    } else {
        assert(entries =~= Seq::<EntryModel>::empty());
    }
}

/// Parsing what was serialized gives the entries back, in their order, where
/// each of them reads back.
pub proof fn lemma_parse_serialize(entries: Seq<EntryModel>)
    requires
        forall|i: int| 0 <= i < entries.len() ==> (#[trigger] entries[i]).reads_back(),
    ensures
        parsed(tree_payload(entries)) == Ok::<_, TreeParseError>(entries),
{
    lemma_scan_payload(entries);
}

/// The names stand in canonical order: each before all that follow it, byte
/// by byte.
pub open spec fn sorted_by_name(entries: Seq<EntryModel>) -> bool {
    forall|i: int, j: int|
        0 <= i < j < entries.len() ==> lex_le(
            (#[trigger] entries[i]).name,
            (#[trigger] entries[j]).name,
        )
}

/// No two entries have the same name.
pub open spec fn distinct_names(entries: Seq<EntryModel>) -> bool {
    forall|i: int, j: int|
        0 <= i < j < entries.len() ==> (#[trigger] entries[i]).name != (#[trigger] entries[j]).name
}

/// `sorted` with `entry` put in front of the first entry whose name does not
/// come before its own.
pub open spec fn placed(entry: EntryModel, sorted: Seq<EntryModel>) -> Seq<EntryModel>
    decreases sorted.len(),
{
    if sorted.len() == 0 {
        seq![entry]
    } else if lex_le(entry.name, sorted[0].name) {
        seq![entry] + sorted
    } else {
        seq![sorted[0]] + placed(entry, sorted.skip(1))
    }
}

/// The entries in canonical order: sorted by name, entries of one name in the
/// order in which they came.
pub open spec fn sorted_entries(entries: Seq<EntryModel>) -> Seq<EntryModel>
    decreases entries.len(),
{
    if entries.len() == 0 {
        Seq::empty()
    } else {
        placed(entries[0], sorted_entries(entries.skip(1)))
    }
}

/// Puts the entries of a directory in canonical order: sorted by name, byte
/// by byte, entries of one name in the order in which they came.
pub fn sort_entries(entries: Vec<TreeEntry>) -> (sorted: Vec<TreeEntry>)
    ensures
        models(sorted@) == sorted_entries(models(entries@)),
{
    let ghost all = models(entries@);
    let mut rest = entries;
    let mut sorted: Vec<TreeEntry> = Vec::new();
    proof {
        assert(all.skip(all.len() as int) =~= Seq::<EntryModel>::empty());
        assert(all.take(all.len() as int) =~= all);
    }
    while rest.len() > 0
        invariant
            rest@.len() <= all.len(),
            models(rest@) == all.take(rest@.len() as int),
            models(sorted@) == sorted_entries(all.skip(rest@.len() as int)),
        decreases rest@.len(),
    {
        let ghost before = models(sorted@);
        let ghost left = rest@.len() - 1;
        let ghost longer = models(rest@);
        let entry = rest.pop().unwrap();
        proof {
            assert(entry@ == longer[left]);
            assert(models(rest@) =~= all.take(left));
            assert(all.skip(left).skip(1) =~= all.skip(left + 1));
        }
        let mut at: usize = 0;
        proof {
            assert(before.skip(0) =~= before);
            assert(before.take(0) + placed(entry@, before) =~= placed(entry@, before));
        }
        while at < sorted.len() && !bytes_le(entry.name.as_slice(), sorted[at].name.as_slice())
            invariant
                at <= sorted@.len(),
                models(sorted@) == before,
                placed(entry@, before) == before.take(at as int) + placed(
                    entry@,
                    before.skip(at as int),
                ),
            decreases sorted@.len() - at,
        {
            proof {
                let tail = before.skip(at as int);
                assert(tail[0] == sorted@[at as int]@);
                assert(tail.skip(1) =~= before.skip(at + 1));
                assert(before.take(at as int) + (seq![tail[0]] + placed(entry@, tail.skip(1)))
                    =~= before.take(at + 1) + placed(entry@, before.skip(at + 1)));
            }
            at += 1;
        }
        proof {
            let tail = before.skip(at as int);
            if at < sorted@.len() {
                assert(tail[0] == sorted@[at as int]@);
                assert(placed(entry@, tail) == seq![entry@] + tail);
            }
            assert(placed(entry@, before) =~= before.insert(at as int, entry@));
        }
        sorted.insert(at, entry);
        proof {
            assert(models(sorted@) =~= before.insert(at as int, entry@));
        }
    }
    proof {
        assert(all.skip(0) =~= all);
    }
    sorted
}

/// Placing an entry adds it, and nothing else, and keeps a sorted list sorted.
pub proof fn lemma_placed(entry: EntryModel, sorted: Seq<EntryModel>)
    ensures
        placed(entry, sorted).len() == sorted.len() + 1,
        placed(entry, sorted).to_multiset() == sorted.to_multiset().insert(entry),
        sorted_by_name(sorted) ==> sorted_by_name(placed(entry, sorted)),
    decreases sorted.len(),
{
    broadcast use vstd::seq_lib::to_multiset_insert;

    let result = placed(entry, sorted);
    if sorted.len() == 0 {
        assert(result =~= sorted.insert(0, entry));
    } else if lex_le(entry.name, sorted[0].name) {
        assert(result =~= sorted.insert(0, entry));
        if sorted_by_name(sorted) {
            assert forall|i: int, j: int| 0 <= i < j < result.len() implies lex_le(
                (#[trigger] result[i]).name,
                (#[trigger] result[j]).name,
            ) by {
                if i == 0 {
                    if j > 1 {
                        assert(lex_le(sorted[0].name, sorted[j - 1].name));
                        lemma_lex_le_transitive(entry.name, sorted[0].name, sorted[j - 1].name);
                    }
                } else {
                    assert(lex_le(sorted[i - 1].name, sorted[j - 1].name));
                }
            }
        }
    } else {
        let first = sorted[0];
        let others = sorted.skip(1);
        let inner = placed(entry, others);
        lemma_placed(entry, others);
        assert(sorted =~= others.insert(0, first));
        assert(result =~= inner.insert(0, first));
        assert(result.to_multiset() =~= sorted.to_multiset().insert(entry));
        if sorted_by_name(sorted) {
            assert(sorted_by_name(others)) by {
                assert forall|i: int, j: int| 0 <= i < j < others.len() implies lex_le(
                    (#[trigger] others[i]).name,
                    (#[trigger] others[j]).name,
                ) by {
                    assert(lex_le(sorted[i + 1].name, sorted[j + 1].name));
                }
            }
            lemma_lex_le_total(entry.name, first.name);
            assert forall|i: int, j: int| 0 <= i < j < result.len() implies lex_le(
                (#[trigger] result[i]).name,
                (#[trigger] result[j]).name,
            ) by {
                if i == 0 {
                    let other = inner[j - 1];
                    assert(result[j] == other);
                    vstd::seq_lib::to_multiset_contains(inner, other);
                    vstd::seq_lib::to_multiset_contains(others, other);
                    assert(inner.contains(other));
                    if other != entry {
                        assert(others.to_multiset().insert(entry).count(other)
                            == others.to_multiset().count(other));
                        assert(others.contains(other));
                        let k = choose|k: int| 0 <= k < others.len() && others[k] == other;
                        assert(lex_le(sorted[0].name, sorted[k + 1].name));
                    }
                } else {
                    assert(lex_le(inner[i - 1].name, inner[j - 1].name));
                }
            }
        }
    }
}

/// The canonical order holds the entries that it was given, each as often as
/// it was given, sorted by name.
pub proof fn lemma_sorted_entries(entries: Seq<EntryModel>)
    ensures
        sorted_entries(entries).len() == entries.len(),
        sorted_entries(entries).to_multiset() == entries.to_multiset(),
        sorted_by_name(sorted_entries(entries)),
    decreases entries.len(),
{
    broadcast use vstd::seq_lib::to_multiset_insert;

    if entries.len() > 0 {
        let others = entries.skip(1);
        lemma_sorted_entries(others);
        lemma_placed(entries[0], sorted_entries(others));
        assert(entries =~= others.insert(0, entries[0]));
        assert(others.insert(0, entries[0]).to_multiset() == others.to_multiset().insert(
            entries[0],
        ));
    } else {
        assert(entries =~= Seq::<EntryModel>::empty());
    }
}

/// The entries of a list that have the given name, in their order.
pub open spec fn named(entries: Seq<EntryModel>, name: Seq<u8>) -> Seq<EntryModel> {
    entries.filter(|entry: EntryModel| entry.name == name)
}

/// Placing an entry puts it in front of the entries of its own name, and
/// leaves the entries of any other name as they were.
pub proof fn lemma_placed_named(entry: EntryModel, sorted: Seq<EntryModel>, name: Seq<u8>)
    ensures
        named(placed(entry, sorted), name) == if entry.name == name {
            seq![entry] + named(sorted, name)
        } else {
            named(sorted, name)
        },
    decreases sorted.len(),
{
    let has_name = |other: EntryModel| other.name == name;
    if sorted.len() == 0 {
        sorted.lemma_filter_prepend(entry, has_name);
        assert(seq![entry] + sorted =~= seq![entry]);
        assert(Seq::<EntryModel>::empty() + named(sorted, name) =~= named(sorted, name));
    } else if lex_le(entry.name, sorted[0].name) {
        sorted.lemma_filter_prepend(entry, has_name);
        assert(Seq::<EntryModel>::empty() + named(sorted, name) =~= named(sorted, name));
    } else {
        let first = sorted[0];
        let others = sorted.skip(1);
        let inner = placed(entry, others);
        lemma_placed_named(entry, others, name);
        inner.lemma_filter_prepend(first, has_name);
        others.lemma_filter_prepend(first, has_name);
        assert(seq![first] + others =~= sorted);
        crate::bytes::lemma_lex_le_reflexive(entry.name);
        assert(first.name != entry.name);
        if entry.name == name {
            assert(Seq::<EntryModel>::empty() + (seq![entry] + named(others, name)) =~= seq![entry]
                + (Seq::<EntryModel>::empty() + named(others, name)));
        }
    }
}

/// The canonical order is stable: the entries of any one name stand in it in
/// the order in which they came.
pub proof fn lemma_sorted_entries_stable(entries: Seq<EntryModel>, name: Seq<u8>)
    ensures
        named(sorted_entries(entries), name) == named(entries, name),
    decreases entries.len(),
{
    let has_name = |other: EntryModel| other.name == name;
    if entries.len() > 0 {
        let others = entries.skip(1);
        lemma_sorted_entries_stable(others, name);
        lemma_placed_named(entries[0], sorted_entries(others), name);
        others.lemma_filter_prepend(entries[0], has_name);
        assert(seq![entries[0]] + others =~= entries);
        assert(Seq::<EntryModel>::empty() + named(others, name) =~= named(others, name));
    }
}

/// Two sorted lists that hold the same entries, no two of them of one name,
/// are one and the same list.
pub proof fn lemma_sorted_is_unique(x: Seq<EntryModel>, y: Seq<EntryModel>)
    requires
        sorted_by_name(x),
        sorted_by_name(y),
        x.to_multiset() == y.to_multiset(),
        distinct_names(x),
    ensures
        x == y,
    decreases x.len(),
{
    vstd::seq_lib::to_multiset_len(x);
    vstd::seq_lib::to_multiset_len(y);
    if x.len() == 0 {
        assert(x =~= y);
    } else {
        vstd::seq_lib::to_multiset_contains(x, x[0]);
        vstd::seq_lib::to_multiset_contains(y, x[0]);
        vstd::seq_lib::to_multiset_contains(x, y[0]);
        vstd::seq_lib::to_multiset_contains(y, y[0]);
        assert(x.contains(x[0]));
        assert(y.contains(y[0]));
        let i = choose|i: int| 0 <= i < y.len() && y[i] == x[0];
        let j = choose|j: int| 0 <= j < x.len() && x[j] == y[0];
        if j != 0 {
            assert(lex_le(x[0].name, x[j].name));
            if i != 0 {
                assert(lex_le(y[0].name, y[i].name));
                lemma_lex_le_antisymmetric(x[0].name, y[0].name);
            }
            assert(x[0].name == x[j].name);
        }
        assert(x[0] == y[0]);
        let x_rest = x.skip(1);
        let y_rest = y.skip(1);
        vstd::seq_lib::to_multiset_remove(x, 0);
        vstd::seq_lib::to_multiset_remove(y, 0);
        assert(x.remove(0) =~= x_rest);
        assert(y.remove(0) =~= y_rest);
        assert(sorted_by_name(x_rest)) by {
            assert forall|a: int, b: int| 0 <= a < b < x_rest.len() implies lex_le(
                (#[trigger] x_rest[a]).name,
                (#[trigger] x_rest[b]).name,
            ) by {
                assert(lex_le(x[a + 1].name, x[b + 1].name));
            }
        }
        assert(sorted_by_name(y_rest)) by {
            assert forall|a: int, b: int| 0 <= a < b < y_rest.len() implies lex_le(
                (#[trigger] y_rest[a]).name,
                (#[trigger] y_rest[b]).name,
            ) by {
                assert(lex_le(y[a + 1].name, y[b + 1].name));
            }
        }
        assert(distinct_names(x_rest)) by {
            assert forall|a: int, b: int| 0 <= a < b < x_rest.len() implies (
            #[trigger] x_rest[a]).name != (#[trigger] x_rest[b]).name by {
                assert(x[a + 1].name != x[b + 1].name);
            }
        }
        lemma_sorted_is_unique(x_rest, y_rest);
        assert(x =~= seq![x[0]] + x_rest);
        assert(y =~= seq![y[0]] + y_rest);
    }
}

/// Entries of which no two have one name keep that property in any order.
pub proof fn lemma_distinct_names_of_same_entries(a: Seq<EntryModel>, b: Seq<EntryModel>)
    requires
        a.to_multiset() == b.to_multiset(),
        distinct_names(a),
    ensures
        distinct_names(b),
{
    assert(a.no_duplicates()) by {
        assert forall|i: int, j: int| 0 <= i < a.len() && 0 <= j < a.len() && i != j implies a[i]
            != a[j] by {
            if i < j {
                assert(a[i].name != a[j].name);
            } else {
                assert(a[j].name != a[i].name);
            }
        }
    }
    a.lemma_multiset_has_no_duplicates();
    b.lemma_multiset_has_no_duplicates_conv();
    assert forall|i: int, j: int| 0 <= i < j < b.len() implies (#[trigger] b[i]).name != (
    #[trigger] b[j]).name by {
        vstd::seq_lib::to_multiset_contains(a, b[i]);
        vstd::seq_lib::to_multiset_contains(b, b[i]);
        vstd::seq_lib::to_multiset_contains(a, b[j]);
        vstd::seq_lib::to_multiset_contains(b, b[j]);
        assert(b.contains(b[i]));
        assert(b.contains(b[j]));
        let p = choose|p: int| 0 <= p < a.len() && a[p] == b[i];
        let q = choose|q: int| 0 <= q < a.len() && a[q] == b[j];
        assert(b[i] != b[j]);
        if p < q {
            assert(a[p].name != a[q].name);
        } else {
            assert(a[q].name != a[p].name);
        }
    }
}

/// The canonical order does not depend on the order in which the entries of a
/// directory are listed: the same entries, no two of one name, give the same
/// list.
pub proof fn lemma_sorted_entries_canonical(a: Seq<EntryModel>, b: Seq<EntryModel>)
    requires
        a.to_multiset() == b.to_multiset(),
        distinct_names(a),
    ensures
        sorted_entries(a) == sorted_entries(b),
        tree_payload(sorted_entries(a)) == tree_payload(sorted_entries(b)),
{
    lemma_sorted_entries(a);
    lemma_sorted_entries(b);
    lemma_distinct_names_of_same_entries(a, sorted_entries(a));
    lemma_sorted_is_unique(sorted_entries(a), sorted_entries(b));
}

/// Entries that are sorted, serialized and parsed come back as the same
/// entries, each once, in canonical order, where each of them reads back.
pub proof fn lemma_parse_serialize_sorted(entries: Seq<EntryModel>)
    requires
        forall|i: int| 0 <= i < entries.len() ==> (#[trigger] entries[i]).reads_back(),
    ensures
        parsed(tree_payload(sorted_entries(entries))) == Ok::<_, TreeParseError>(
            sorted_entries(entries),
        ),
        sorted_by_name(sorted_entries(entries)),
        sorted_entries(entries).to_multiset() == entries.to_multiset(),
{
    let sorted = sorted_entries(entries);
    lemma_sorted_entries(entries);
    assert forall|i: int| 0 <= i < sorted.len() implies (#[trigger] sorted[i]).reads_back() by {
        vstd::seq_lib::to_multiset_contains(sorted, sorted[i]);
        vstd::seq_lib::to_multiset_contains(entries, sorted[i]);
        assert(sorted.contains(sorted[i]));
        let k = choose|k: int| 0 <= k < entries.len() && entries[k] == sorted[i];
        assert(entries[k].reads_back());
    }
    lemma_parse_serialize(sorted);
}

/// The entries of a directory, in whatever order they are listed, come back
/// from sorting, serializing and parsing as the same entries, each once, in
/// canonical order. The entries are valid, their names are text, and no two
/// of them have one name.
pub proof fn lemma_tree_round_trip(entries: Seq<EntryModel>, listed: Seq<EntryModel>)
    requires
        forall|i: int|
            0 <= i < entries.len() ==> (#[trigger] entries[i]).is_valid() && valid_utf8(
                entries[i].name,
            ),
        distinct_names(entries),
        listed.to_multiset() == entries.to_multiset(),
    ensures
        parsed(tree_payload(sorted_entries(listed))) == Ok::<_, TreeParseError>(
            sorted_entries(entries),
        ),
        sorted_by_name(sorted_entries(entries)),
        sorted_entries(entries).to_multiset() == entries.to_multiset(),
{
    assert forall|i: int| 0 <= i < entries.len() implies (#[trigger] entries[i]).reads_back() by {
        entries[i].lemma_valid_reads_back();
    }
    lemma_parse_serialize_sorted(entries);
    lemma_sorted_entries_canonical(entries, listed);
}

} // verus!
