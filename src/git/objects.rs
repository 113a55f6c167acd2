use vstd::prelude::*;
use vstd::string::StringSliceAdditionalSpecFns;
use vstd::utf8::{decode_utf8, encode_utf8, valid_utf8};

use crate::git::backend;

verus! {

/// The 20-byte content hash that identifies an object.
pub type Hash = [u8; 20];

/// The kind of a tree entry, each with its canonical ASCII mode string.
#[derive(Debug, Clone, Copy, PartialEq, Eq, Structural)]
pub enum TreeEntryMode {
    Directory,
    RegularFile,
    ExecutableFile,
    SymbolicLink,
}

/// One named, typed reference inside a tree object.
#[derive(Debug, Clone)]
pub struct TreeEntry {
    pub mode: TreeEntryMode,
    pub name: String,
    pub hash: Hash,
}

/// The authorship record attached to a commit.
#[derive(Debug, Clone)]
pub struct PersonInfo {
    pub name: String,
    pub email: String,
    pub timestamp: i64,
    pub timezone_offset: i32,
}

/// A stored object: a blob of bytes, a tree of entries, or a commit.
#[derive(Debug)]
pub enum GitObject {
    Blob(Vec<u8>),
    Tree(Vec<TreeEntry>),
    Commit {
        tree: Hash,
        parent: Option<Hash>,
        author: PersonInfo,
        committer: PersonInfo,
        message: String,
    },
}

/// The ways reading or decoding an object can fail.
#[derive(Debug, Clone, Copy, PartialEq, Eq, Structural)]
pub enum GitError {
    /// No object is stored under the requested hash.
    ObjectNotFound,
    /// The header names a kind this codec does not decode, or the object
    /// is not of the kind the caller asked for.
    UnsupportedObjectType,
    /// A tree entry carries a mode string outside the four known ones.
    UnknownTreeMode,
    /// The bytes break the object layout (a missing separator, a short
    /// hash, a name that is not UTF-8).
    MalformedObject,
    /// The stored bytes could not be read or decompressed.
    Io,
}

/// The mathematical value of a tree entry.
pub struct EntryView {
    pub mode: TreeEntryMode,
    pub name: Seq<char>,
    pub hash: Seq<u8>,
}

/// The mathematical value of an authorship record.
pub struct PersonView {
    pub name: Seq<char>,
    pub email: Seq<char>,
    pub timestamp: i64,
    pub timezone_offset: i32,
}

/// The mathematical value of an object.
pub enum ObjectView {
    Blob(Seq<u8>),
    Tree(Seq<EntryView>),
    Commit {
        tree: Seq<u8>,
        parent: Option<Seq<u8>>,
        author: PersonView,
        committer: PersonView,
        message: Seq<char>,
    },
}

impl View for TreeEntry {
    type V = EntryView;

    open spec fn view(&self) -> EntryView {
        EntryView { mode: self.mode, name: self.name@, hash: self.hash@ }
    }
}

impl View for PersonInfo {
    type V = PersonView;

    open spec fn view(&self) -> PersonView {
        PersonView {
            name: self.name@,
            email: self.email@,
            timestamp: self.timestamp,
            timezone_offset: self.timezone_offset,
        }
    }
}

/// The views of a list of entries.
pub open spec fn entries_view(es: Seq<TreeEntry>) -> Seq<EntryView> {
    es.map_values(|e: TreeEntry| e@)
}

/// The view of an optional hash.
pub open spec fn opt_hash_view(h: Option<Hash>) -> Option<Seq<u8>> {
    match h {
        Some(x) => Some(x@),
        None => None,
    }
}

impl View for GitObject {
    type V = ObjectView;

    open spec fn view(&self) -> ObjectView {
        match self {
            GitObject::Blob(b) => ObjectView::Blob(b@),
            GitObject::Tree(es) => ObjectView::Tree(entries_view(es@)),
            GitObject::Commit { tree, parent, author, committer, message } => ObjectView::Commit {
                tree: tree@,
                parent: opt_hash_view(*parent),
                author: author@,
                committer: committer@,
                message: message@,
            },
        }
    }
}

/// The ASCII decimal rendering of `n`, most significant digit first.
pub open spec fn decimal(n: nat) -> Seq<u8>
    decreases n,
{
    if n < 10 {
        seq![(n + 48) as u8]
    } else {
        decimal(n / 10).push(((n % 10) + 48) as u8)
    }
}

/// The header `"<tag> <len>\0"` that precedes an object's payload.
pub open spec fn header(tag: Seq<u8>, len: nat) -> Seq<u8> {
    tag + seq![32u8] + decimal(len) + seq![0u8]
}

/// `"blob"`
pub open spec fn blob_tag() -> Seq<u8> {
    seq![98u8, 108u8, 111u8, 98u8]
}

/// `"tree"`
pub open spec fn tree_tag() -> Seq<u8> {
    seq![116u8, 114u8, 101u8, 101u8]
}

/// `"commit"`
pub open spec fn commit_tag() -> Seq<u8> {
    seq![99u8, 111u8, 109u8, 109u8, 105u8, 116u8]
}

/// The canonical mode string of each entry kind: `"40000"`, `"100644"`,
/// `"100755"` and `"120000"`.
pub open spec fn mode_bytes(m: TreeEntryMode) -> Seq<u8> {
    match m {
        TreeEntryMode::Directory => seq![52u8, 48u8, 48u8, 48u8, 48u8],
        TreeEntryMode::RegularFile => seq![49u8, 48u8, 48u8, 54u8, 52u8, 52u8],
        TreeEntryMode::ExecutableFile => seq![49u8, 48u8, 48u8, 55u8, 53u8, 53u8],
        TreeEntryMode::SymbolicLink => seq![49u8, 50u8, 48u8, 48u8, 48u8, 48u8],
    }
}

/// The entry kind whose mode string is `token`, if any.
pub open spec fn mode_of(token: Seq<u8>) -> Option<TreeEntryMode> {
    if token == mode_bytes(TreeEntryMode::Directory) {
        Some(TreeEntryMode::Directory)
    } else if token == mode_bytes(TreeEntryMode::RegularFile) {
        Some(TreeEntryMode::RegularFile)
    } else if token == mode_bytes(TreeEntryMode::ExecutableFile) {
        Some(TreeEntryMode::ExecutableFile)
    } else if token == mode_bytes(TreeEntryMode::SymbolicLink) {
        Some(TreeEntryMode::SymbolicLink)
    } else {
        None
    }
}

/// The bytes by which entries are ordered: the UTF-8 encoding of the name.
pub open spec fn name_key(e: EntryView) -> Seq<u8> {
    encode_utf8(e.name)
}

/// One serialized tree entry: `<mode> <name>\0<20-byte hash>`.
pub open spec fn entry_bytes(e: EntryView) -> Seq<u8> {
    mode_bytes(e.mode) + seq![32u8] + encode_utf8(e.name) + seq![0u8] + e.hash
}

/// A tree payload: the entries' serializations, back to back.
pub open spec fn tree_payload(es: Seq<EntryView>) -> Seq<u8>
    decreases es.len(),
{
    if es.len() == 0 {
        Seq::empty()
    } else {
        entry_bytes(es[0]) + tree_payload(es.drop_first())
    }
}

/// Appends the decimal digits of `n` to `out`.
pub(crate) fn push_decimal(out: &mut Vec<u8>, n: u64)
    ensures
        final(out)@ == old(out)@ + decimal(n as nat),
    decreases n,
{
    if n < 10 {
        out.push((n as u8) + 48);
        assert(final(out)@ =~= old(out)@ + decimal(n as nat));
    } else {
        push_decimal(out, n / 10);
        out.push(((n % 10) as u8) + 48);
        assert(final(out)@ =~= old(out)@ + decimal(n as nat));
    }
}

impl GitObject {
    /// Prefixes `content` with the header `"<name> <length>\0"`.
    pub fn add_header(name: &str, content: &[u8]) -> (r: Vec<u8>)
        ensures
            r@ == header(name.spec_bytes(), content@.len()) + content@,
    {
        let mut r: Vec<u8> = Vec::new();
        r.extend_from_slice(name.as_bytes());
        r.push(32u8);
        push_decimal(&mut r, content.len() as u64);
        r.push(0u8);
        r.extend_from_slice(content);
        assert(r@ =~= header(name.spec_bytes(), content@.len()) + content@);
        r
    }

    /// Prefixes `content` with a blob header.
    pub fn add_blob_header(content: &[u8]) -> (r: Vec<u8>)
        ensures
            r@ == header(blob_tag(), content@.len()) + content@,
    {
        proof {
            reveal_strlit("blob");
            vstd::string::is_ascii_spec_bytes("blob");
            assert("blob".spec_bytes() =~= blob_tag());
        }
        Self::add_header("blob", content)
    }

    /// Prefixes `content` with a tree header.
    pub fn add_tree_header(content: &[u8]) -> (r: Vec<u8>)
        ensures
            r@ == header(tree_tag(), content@.len()) + content@,
    {
        proof {
            reveal_strlit("tree");
            vstd::string::is_ascii_spec_bytes("tree");
            assert("tree".spec_bytes() =~= tree_tag());
        }
        Self::add_header("tree", content)
    }

    /// Prefixes `content` with a commit header.
    pub fn add_commit_header(content: &[u8]) -> (r: Vec<u8>)
        ensures
            r@ == header(commit_tag(), content@.len()) + content@,
    {
        proof {
            reveal_strlit("commit");
            vstd::string::is_ascii_spec_bytes("commit");
            assert("commit".spec_bytes() =~= commit_tag());
        }
        Self::add_header("commit", content)
    }
}

/// Appending an entry to a tree appends its serialization to the payload.
pub proof fn lemma_tree_payload_push(es: Seq<EntryView>, e: EntryView)
    ensures
        tree_payload(es.push(e)) == tree_payload(es) + entry_bytes(e),
    decreases es.len(),
{
    if es.len() == 0 {
        assert(es.push(e).drop_first() =~= Seq::<EntryView>::empty());
        assert(tree_payload(es.push(e).drop_first()) == Seq::<u8>::empty());
        assert(es.push(e)[0] == e);
        assert(tree_payload(es.push(e)) =~= tree_payload(es) + entry_bytes(e));
    } else {
        assert(es.push(e).drop_first() =~= es.drop_first().push(e));
        lemma_tree_payload_push(es.drop_first(), e);
        assert(tree_payload(es.push(e)) =~= tree_payload(es) + entry_bytes(e));
    }
}

} // verus!

verus! {

/// `i` is the position of the first `b` in `s`.
pub open spec fn is_first_index(s: Seq<u8>, b: u8, i: int) -> bool {
    &&& 0 <= i < s.len()
    &&& s[i] == b
    &&& forall|j: int| 0 <= j < i ==> s[j] != b
}

/// The position of the first `b` in `s`, if `s` holds one.
pub open spec fn first_index(s: Seq<u8>, b: u8) -> Option<int> {
    if exists|i: int| is_first_index(s, b, i) {
        Some(choose|i: int| is_first_index(s, b, i))
    } else {
        None
    }
}

pub proof fn lemma_first_index_is(s: Seq<u8>, b: u8, i: int)
    requires
        is_first_index(s, b, i),
    ensures
        first_index(s, b) == Some(i),
{
    let k = choose|k: int| is_first_index(s, b, k);
    assert(is_first_index(s, b, k));
    if k < i {
        assert(s[k] != b);
    } else if i < k {
        assert(s[i] != b);
    }
}

pub proof fn lemma_first_index_none(s: Seq<u8>, b: u8)
    requires
        forall|j: int| 0 <= j < s.len() ==> s[j] != b,
    ensures
        first_index(s, b) is None,
{
}

pub proof fn lemma_first_index_bounds(s: Seq<u8>, b: u8)
    ensures
        first_index(s, b) is Some ==> is_first_index(s, b, first_index(s, b)->Some_0),
{
}

/// Decodes the tree entry at the start of `c`: the entry and the number of
/// bytes it takes.
pub open spec fn parse_entry(c: Seq<u8>) -> Result<(EntryView, int), GitError> {
    match first_index(c, 32u8) {
        None => Err(GitError::MalformedObject),
        Some(sp) => match mode_of(c.subrange(0, sp)) {
            None => Err(GitError::UnknownTreeMode),
            Some(m) => match first_index(c.subrange(sp + 1, c.len() as int), 0u8) {
                None => Err(GitError::MalformedObject),
                Some(nl) => {
                    let name = c.subrange(sp + 1, sp + 1 + nl);
                    let end = sp + 1 + nl + 1 + 20;
                    if !valid_utf8(name) || end > c.len() {
                        Err(GitError::MalformedObject)
                    } else {
                        Ok(
                            (
                                EntryView {
                                    mode: m,
                                    name: decode_utf8(name),
                                    hash: c.subrange(end - 20, end),
                                },
                                end,
                            ),
                        )
                    }
                },
            },
        },
    }
}

pub proof fn lemma_parse_entry_consumes(c: Seq<u8>)
    ensures
        parse_entry(c) is Ok ==> 0 < parse_entry(c)->Ok_0.1 <= c.len(),
{
    lemma_first_index_bounds(c, 32u8);
    if let Some(sp) = first_index(c, 32u8) {
        lemma_first_index_bounds(c.subrange(sp + 1, c.len() as int), 0u8);
    }
}

#[via_fn]
proof fn parse_entries_decreases(c: Seq<u8>) {
    lemma_parse_entry_consumes(c);
}

/// Decodes a whole tree payload, one entry after another, until the bytes
/// are used up; the first bad entry stops it.
pub open spec fn parse_entries(c: Seq<u8>) -> Result<Seq<EntryView>, GitError>
    decreases c.len(),
    via parse_entries_decreases
{
    if c.len() == 0 {
        Ok(Seq::empty())
    } else {
        match parse_entry(c) {
            Err(e) => Err(e),
            Ok((e, n)) => match parse_entries(c.subrange(n, c.len() as int)) {
                Ok(es) => Ok(seq![e] + es),
                Err(x) => Err(x),
            },
        }
    }
}

/// The position of the first `b` in `s` at or after `from`.
pub(crate) fn find_byte(s: &[u8], from: usize, b: u8) -> (r: Option<usize>)
    requires
        from <= s@.len(),
    ensures
        match r {
            Some(i) => from <= i < s@.len() && first_index(s@.subrange(from as int, s@.len() as int), b)
                == Some(i - from),
            None => first_index(s@.subrange(from as int, s@.len() as int), b) is None,
        },
{
    let ghost sub = s@.subrange(from as int, s@.len() as int);
    let mut i: usize = from;
    while i < s.len()
        invariant
            from <= i <= s@.len(),
            sub == s@.subrange(from as int, s@.len() as int),
            forall|j: int| 0 <= j < i - from ==> sub[j] != b,
        decreases s@.len() - i,
    {
        if s[i] == b {
            proof {
                lemma_first_index_is(sub, b, i - from);
            }
            return Some(i);
        }
        i = i + 1;
    }
    proof {
        lemma_first_index_none(sub, b);
    }
    None
}

/// Whether two byte strings are equal.
pub(crate) fn bytes_equal(a: &[u8], b: &[u8]) -> (r: bool)
    ensures
        r == (a@ == b@),
{
    if a.len() != b.len() {
        return false;
    }
    let mut i: usize = 0;
    while i < a.len()
        invariant
            a@.len() == b@.len(),
            i <= a@.len(),
            forall|j: int| 0 <= j < i ==> a@[j] == b@[j],
        decreases a@.len() - i,
    {
        if a[i] != b[i] {
            return false;
        }
        i = i + 1;
    }
    assert(a@ =~= b@);
    true
}

/// The entry kind whose mode string is `token`, if any.
pub(crate) fn parse_mode(token: &[u8]) -> (r: Option<TreeEntryMode>)
    ensures
        r == mode_of(token@),
{
    if bytes_equal(token, crate::git::mode_to_bytes(&TreeEntryMode::Directory)) {
        Some(TreeEntryMode::Directory)
    } else if bytes_equal(token, crate::git::mode_to_bytes(&TreeEntryMode::RegularFile)) {
        Some(TreeEntryMode::RegularFile)
    } else if bytes_equal(token, crate::git::mode_to_bytes(&TreeEntryMode::ExecutableFile)) {
        Some(TreeEntryMode::ExecutableFile)
    } else if bytes_equal(token, crate::git::mode_to_bytes(&TreeEntryMode::SymbolicLink)) {
        Some(TreeEntryMode::SymbolicLink)
    } else {
        None
    }
}

/// Decodes the tree entry that starts at `offset`, returning it with the
/// offset just past it.
fn read_tree_entry(content: &[u8], offset: usize) -> (r: Result<(TreeEntry, usize), GitError>)
    requires
        offset < content@.len(),
    ensures
        match r {
            Ok((e, next)) => parse_entry(content@.subrange(offset as int, content@.len() as int))
                == Ok::<(EntryView, int), GitError>((e@, next - offset)),
            Err(x) => parse_entry(content@.subrange(offset as int, content@.len() as int)) == Err::<
                (EntryView, int),
                GitError,
            >(x),
        },
{
    let ghost c = content@.subrange(offset as int, content@.len() as int);
    let total: usize = content.len();
    let sp = match find_byte(content, offset, 32u8) {
        Some(i) => i,
        None => return Err(GitError::MalformedObject),
    };
    proof {
        lemma_first_index_bounds(c, 32u8);
    }
    let mode_token = &content[offset..sp];
    assert(mode_token@ =~= c.subrange(0, sp - offset));
    let mode = match parse_mode(mode_token) {
        Some(m) => m,
        None => return Err(GitError::UnknownTreeMode),
    };
    let name_start = sp + 1;
    let nl = match find_byte(content, name_start, 0u8) {
        Some(i) => i,
        None => {
            assert(content@.subrange(name_start as int, content@.len() as int) =~= c.subrange(
                sp - offset + 1,
                c.len() as int,
            ));
            return Err(GitError::MalformedObject);
        },
    };
    assert(content@.subrange(name_start as int, content@.len() as int) =~= c.subrange(
        sp - offset + 1,
        c.len() as int,
    ));
    let name_bytes = &content[name_start..nl];
    assert(name_bytes@ =~= c.subrange(sp - offset + 1, nl - offset));
    let name = match backend::utf8_text(name_bytes) {
        Some(t) => t.to_owned(),
        None => return Err(GitError::MalformedObject),
    };
    if nl >= content.len() || content.len() - nl - 1 < 20 {
        return Err(GitError::MalformedObject);
    }
    let hash_start = nl + 1;
    let mut hash: Hash = [0u8; 20];
    let mut k: usize = 0;
    while k < 20
        invariant
            k <= 20,
            hash_start + 20 <= content@.len(),
            hash_start == nl + 1,
            total == content@.len(),
            forall|j: int| 0 <= j < k ==> hash@[j] == content@[hash_start + j],
        decreases 20 - k,
    {
        hash[k] = content[hash_start + k];
        k = k + 1;
    }
    assert(hash@ =~= c.subrange(hash_start - offset, hash_start + 20 - offset));
    Ok((TreeEntry { mode, name, hash }, hash_start + 20))
}

impl GitObject {
    /// Decodes a tree payload into its entries.
    pub fn read_tree_entries(content: &[u8]) -> (r: Result<Vec<TreeEntry>, GitError>)
        ensures
            match r {
                Ok(es) => parse_entries(content@) == Ok::<Seq<EntryView>, GitError>(
                    entries_view(es@),
                ),
                Err(e) => parse_entries(content@) == Err::<Seq<EntryView>, GitError>(e),
            },
    {
        let mut entries: Vec<TreeEntry> = Vec::new();
        let mut offset: usize = 0;
        assert(content@.subrange(0, content@.len() as int) =~= content@);
        while offset < content.len()
            invariant
                offset <= content@.len(),
                parse_entries(content@) == match parse_entries(
                    content@.subrange(offset as int, content@.len() as int),
                ) {
                    Ok(es) => Ok(entries_view(entries@) + es),
                    Err(x) => Err(x),
                },
            decreases content@.len() - offset,
        {
            let ghost sub = content@.subrange(offset as int, content@.len() as int);
            match read_tree_entry(content, offset) {
                Ok((e, next)) => {
                    proof {
                        lemma_parse_entry_consumes(sub);
                        assert(sub.subrange(next - offset, sub.len() as int) =~= content@.subrange(
                            next as int,
                            content@.len() as int,
                        ));
                        assert(entries_view(entries@.push(e)) =~= entries_view(entries@).push(e@));
                        match parse_entries(content@.subrange(next as int, content@.len() as int)) {
                            Ok(es) => {
                                assert(entries_view(entries@) + (seq![e@] + es) =~= entries_view(
                                    entries@.push(e),
                                ) + es);
                            },
                            Err(_) => {},
                        }
                    }
                    entries.push(e);
                    offset = next;
                },
                Err(x) => {
                    return Err(x);
                },
            }
        }
        assert(content@.subrange(offset as int, content@.len() as int) =~= Seq::<u8>::empty());
        assert(entries_view(entries@) + Seq::<EntryView>::empty() =~= entries_view(entries@));
        Ok(entries)
    }
}

} // verus!

verus! {

/// `s` begins with `p`.
pub open spec fn starts_with(s: Seq<u8>, p: Seq<u8>) -> bool {
    p.len() <= s.len() && s.subrange(0, p.len() as int) == p
}

/// The header of `d`, whose kind tag is `tag_len` bytes long and whose
/// null byte stands at `k`, declares the length of what follows it.
pub open spec fn declares_length(d: Seq<u8>, tag_len: int, k: int) -> bool {
    let size = d.subrange(tag_len + 1, k);
    tag_len + 1 <= k && crate::git::fields::all_digits(size)
        && crate::git::fields::digits_value(size) == d.len() - (k + 1)
}

/// Decodes the full decompressed bytes of a stored object: the kind comes
/// from the header's prefix, the header's length must be that of what
/// follows its null byte, and that is the payload.
pub open spec fn decode_object(d: Seq<u8>) -> Result<ObjectView, GitError> {
    let tag_len: int = if starts_with(d, commit_tag().push(32u8)) {
        6
    } else {
        4
    };
    if !starts_with(d, blob_tag().push(32u8)) && !starts_with(d, tree_tag().push(32u8))
        && !starts_with(d, commit_tag().push(32u8)) {
        Err(GitError::UnsupportedObjectType)
    } else {
        match first_index(d, 0u8) {
            None => Err(GitError::MalformedObject),
            Some(k) => if !declares_length(d, tag_len, k) {
                Err(GitError::MalformedObject)
            } else {
                let payload = d.subrange(k + 1, d.len() as int);
                if starts_with(d, blob_tag().push(32u8)) {
                    Ok(ObjectView::Blob(payload))
                } else if starts_with(d, tree_tag().push(32u8)) {
                    match parse_entries(payload) {
                        Ok(es) => Ok(ObjectView::Tree(es)),
                        Err(e) => Err(e),
                    }
                } else {
                    match crate::git::commit::parse_commit(payload) {
                        Some(o) => Ok(o),
                        None => Err(GitError::MalformedObject),
                    }
                }
            },
        }
    }
}

/// Whether `s` begins with `p`.
pub(crate) fn has_prefix(s: &[u8], p: &[u8]) -> (r: bool)
    ensures
        r == starts_with(s@, p@),
{
    if p.len() > s.len() {
        return false;
    }
    let head = &s[0..p.len()];
    bytes_equal(head, p)
}

/// The position of the header's null byte, where the header declares the
/// length of what follows it.
fn header_end(data: &[u8], tag_len: usize) -> (r: Option<usize>)
    requires
        tag_len < data@.len(),
        data@[tag_len as int] == 32u8,
        forall|i: int| 0 <= i < tag_len ==> data@[i] != 0u8,
    ensures
        match r {
            Some(k) => k < data@.len() && first_index(data@, 0u8) == Some(k as int)
                && declares_length(data@, tag_len as int, k as int),
            None => match first_index(data@, 0u8) {
                Some(k) => !declares_length(data@, tag_len as int, k),
                None => true,
            },
        },
{
    let total: usize = data.len();
    let k = match find_byte(data, 0, 0u8) {
        Some(k) => k,
        None => {
            assert(data@.subrange(0, data@.len() as int) =~= data@);
            return None;
        },
    };
    assert(data@.subrange(0, data@.len() as int) =~= data@);
    proof {
        lemma_first_index_bounds(data@, 0u8);
    }
    if k < tag_len + 1 {
        return None;
    }
    let payload_len: usize = total - (k + 1);
    match crate::git::fields::parse_number(&data[tag_len + 1..k], payload_len as u64) {
        Some(v) => if v == payload_len as u64 {
            Some(k)
        } else {
            None
        },
        None => None,
    }
}

/// The bytes of an ASCII literal.
pub(crate) proof fn lemma_ascii_literal(s: &str)
    requires
        vstd::string::is_ascii(s),
    ensures
        s.spec_bytes() == Seq::new(s@.len(), |i: int| s@[i] as u8),
{
    vstd::string::is_ascii_spec_bytes(s);
}

impl GitObject {
    /// Decodes the decompressed bytes of a stored object (header included).
    pub fn parse(data: &[u8]) -> (r: Result<GitObject, GitError>)
        ensures
            match r {
                Ok(o) => decode_object(data@) == Ok::<ObjectView, GitError>(o@),
                Err(e) => decode_object(data@) == Err::<ObjectView, GitError>(e),
            },
    {
        proof {
            reveal_strlit("blob ");
            reveal_strlit("tree ");
            reveal_strlit("commit ");
            lemma_ascii_literal("blob ");
            lemma_ascii_literal("tree ");
            lemma_ascii_literal("commit ");
            assert("blob ".spec_bytes() =~= blob_tag().push(32u8));
            assert("tree ".spec_bytes() =~= tree_tag().push(32u8));
            assert("commit ".spec_bytes() =~= commit_tag().push(32u8));
            if starts_with(data@, blob_tag().push(32u8)) {
                assert(data@[4] == data@.subrange(0, 5)[4]);
                assert forall|i: int| 0 <= i < 4 implies data@[i] != 0u8 by {
                    assert(data@[i] == data@.subrange(0, 5)[i]);
                }
            }
            if starts_with(data@, tree_tag().push(32u8)) {
                assert(data@[4] == data@.subrange(0, 5)[4]);
                assert forall|i: int| 0 <= i < 4 implies data@[i] != 0u8 by {
                    assert(data@[i] == data@.subrange(0, 5)[i]);
                }
            }
            if starts_with(data@, commit_tag().push(32u8)) {
                assert(data@[6] == data@.subrange(0, 7)[6]);
                assert forall|i: int| 0 <= i < 6 implies data@[i] != 0u8 by {
                    assert(data@[i] == data@.subrange(0, 7)[i]);
                }
            }
        }
        let total: usize = data.len();
        let is_blob = has_prefix(data, "blob ".as_bytes());
        let is_tree = has_prefix(data, "tree ".as_bytes());
        let is_commit = has_prefix(data, "commit ".as_bytes());
        if !is_blob && !is_tree && !is_commit {
            return Err(GitError::UnsupportedObjectType);
        }
        let tag_len: usize = if is_commit {
            6
        } else {
            4
        };
        let k = match header_end(data, tag_len) {
            Some(k) => k,
            None => return Err(GitError::MalformedObject),
        };
        let payload = &data[k + 1..total];
        if is_blob {
            let mut blob: Vec<u8> = Vec::new();
            blob.extend_from_slice(payload);
            assert(blob@ =~= payload@);
            Ok(GitObject::Blob(blob))
        } else if is_tree {
            match Self::read_tree_entries(payload) {
                Ok(es) => Ok(GitObject::Tree(es)),
                Err(e) => Err(e),
            }
        } else {
            match crate::git::commit::read_commit(payload) {
                Some(o) => Ok(o),
                None => Err(GitError::MalformedObject),
            }
        }
    }
}

} // verus!

verus! {

/// A tree entry that serializes unambiguously: a 20-byte hash, and a name
/// whose encoding holds no null byte.
pub open spec fn entry_wf(e: EntryView) -> bool {
    &&& e.hash.len() == 20
    &&& !encode_utf8(e.name).contains(0u8)
}

/// The serialized form of an object, header included.
pub open spec fn serialized(tag: Seq<u8>, payload: Seq<u8>) -> Seq<u8> {
    header(tag, payload.len()) + payload
}

pub proof fn lemma_decimal_digits(n: nat)
    ensures
        decimal(n).len() >= 1,
        forall|i: int| 0 <= i < decimal(n).len() ==> 48 <= #[trigger] decimal(n)[i] <= 57,
    decreases n,
{
    if n >= 10 {
        lemma_decimal_digits(n / 10);
    }
}

/// In a serialized object, the header's null byte is the first null byte.
pub(crate) proof fn lemma_header_end(tag: Seq<u8>, payload: Seq<u8>)
    requires
        forall|i: int| 0 <= i < tag.len() ==> tag[i] != 0u8,
    ensures
        first_index(serialized(tag, payload), 0u8) == Some(
            (tag.len() + 1 + decimal(payload.len()).len()) as int,
        ),
        serialized(tag, payload).subrange(
            (tag.len() + 1 + decimal(payload.len()).len() + 1) as int,
            serialized(tag, payload).len() as int,
        ) == payload,
{
    let d = serialized(tag, payload);
    let dec = decimal(payload.len());
    let k = (tag.len() + 1 + dec.len()) as int;
    lemma_decimal_digits(payload.len());
    assert forall|j: int| 0 <= j < k implies d[j] != 0u8 by {
        if j < tag.len() {
            assert(d[j] == tag[j]);
        } else if j > tag.len() {
            assert(d[j] == dec[j - tag.len() - 1]);
        }
    }
    lemma_first_index_is(d, 0u8, k);
    assert(d.subrange(k + 1, d.len() as int) =~= payload);
}

/// A serialized object's header declares the payload's length.
pub(crate) proof fn lemma_header_declares_length(tag: Seq<u8>, payload: Seq<u8>)
    requires
        forall|i: int| 0 <= i < tag.len() ==> tag[i] != 0u8,
    ensures
        declares_length(
            serialized(tag, payload),
            tag.len() as int,
            (tag.len() + 1 + decimal(payload.len()).len()) as int,
        ),
{
    let d = serialized(tag, payload);
    let k = (tag.len() + 1 + decimal(payload.len()).len()) as int;
    assert(d.subrange(tag.len() + 1 as int, k) =~= decimal(payload.len()));
    crate::git::fields::lemma_decimal_digits_value(payload.len());
}

/// Encoding a blob and decoding it gives the blob back.
pub proof fn lemma_blob_round_trip(b: Seq<u8>)
    ensures
        decode_object(serialized(blob_tag(), b)) == Ok::<ObjectView, GitError>(ObjectView::Blob(b)),
{
    let d = serialized(blob_tag(), b);
    lemma_header_end(blob_tag(), b);
    assert(d.subrange(0, 5) =~= blob_tag().push(32u8));
    assert(d.subrange(0, 7)[0] != commit_tag().push(32u8)[0]);
    lemma_header_declares_length(blob_tag(), b);
}

/// The mode string of an entry, read back, names the same kind.
pub proof fn lemma_mode_round_trip(m: TreeEntryMode)
    ensures
        mode_of(mode_bytes(m)) == Some(m),
        forall|i: int| 0 <= i < mode_bytes(m).len() ==> #[trigger] mode_bytes(m)[i] != 32u8,
{
    let d = mode_bytes(TreeEntryMode::Directory);
    let f = mode_bytes(TreeEntryMode::RegularFile);
    let x = mode_bytes(TreeEntryMode::ExecutableFile);
    let l = mode_bytes(TreeEntryMode::SymbolicLink);
    assert(d.len() != f.len());
    assert(d.len() != x.len());
    assert(d.len() != l.len());
    assert(f[3] != x[3]);
    assert(f[1] != l[1]);
    assert(x[1] != l[1]);
}

/// A well-formed entry, followed by anything, decodes to itself.
pub proof fn lemma_entry_round_trip(e: EntryView, rest: Seq<u8>)
    requires
        entry_wf(e),
    ensures
        parse_entry(entry_bytes(e) + rest) == Ok::<(EntryView, int), GitError>(
            (e, entry_bytes(e).len() as int),
        ),
        (entry_bytes(e) + rest).subrange(
            entry_bytes(e).len() as int,
            (entry_bytes(e) + rest).len() as int,
        ) == rest,
{
    let c = entry_bytes(e) + rest;
    let mb = mode_bytes(e.mode);
    let nb = encode_utf8(e.name);
    let sp = mb.len() as int;
    lemma_mode_round_trip(e.mode);
    assert forall|j: int| 0 <= j < sp implies c[j] != 32u8 by {
        assert(c[j] == mb[j]);
    }
    lemma_first_index_is(c, 32u8, sp);
    assert(c.subrange(0, sp) =~= mb);
    let tail = c.subrange(sp + 1, c.len() as int);
    assert forall|j: int| 0 <= j < nb.len() implies tail[j] != 0u8 by {
        assert(tail[j] == nb[j]);
        if tail[j] == 0u8 {
            assert(nb.contains(0u8));
        }
    }
    lemma_first_index_is(tail, 0u8, nb.len() as int);
    assert(c.subrange(sp + 1, sp + 1 + nb.len()) =~= nb);
    vstd::utf8::encode_utf8_valid_utf8(e.name);
    vstd::utf8::encode_utf8_decode_utf8(e.name);
    let end = sp + 1 + nb.len() + 1 + 20;
    assert(c.subrange(end - 20, end) =~= e.hash);
    assert(c.subrange(entry_bytes(e).len() as int, c.len() as int) =~= rest);
}

/// A payload of well-formed entries decodes to those entries.
pub proof fn lemma_tree_payload_round_trip(es: Seq<EntryView>)
    requires
        forall|i: int| 0 <= i < es.len() ==> entry_wf(#[trigger] es[i]),
    ensures
        parse_entries(tree_payload(es)) == Ok::<Seq<EntryView>, GitError>(es),
    decreases es.len(),
{
    if es.len() > 0 {
        let rest = es.drop_first();
        assert forall|i: int| 0 <= i < rest.len() implies entry_wf(#[trigger] rest[i]) by {
            assert(rest[i] == es[i + 1]);
        }
        assert(entry_wf(es[0]));
        lemma_tree_payload_round_trip(rest);
        lemma_entry_round_trip(es[0], tree_payload(rest));
        assert(seq![es[0]] + rest =~= es);
    } else {
        assert(es =~= Seq::<EntryView>::empty());
    }
}

/// Encoding a tree of well-formed entries and decoding it gives the tree
/// back.
pub proof fn lemma_tree_round_trip(es: Seq<EntryView>)
    requires
        forall|i: int| 0 <= i < es.len() ==> entry_wf(#[trigger] es[i]),
    ensures
        decode_object(serialized(tree_tag(), tree_payload(es))) == Ok::<ObjectView, GitError>(
            ObjectView::Tree(es),
        ),
{
    let d = serialized(tree_tag(), tree_payload(es));
    lemma_header_end(tree_tag(), tree_payload(es));
    assert(d.subrange(0, 5) =~= tree_tag().push(32u8));
    assert(d.subrange(0, 7)[0] != commit_tag().push(32u8)[0]);
    lemma_header_declares_length(tree_tag(), tree_payload(es));
    assert(d.subrange(0, 5)[0] != blob_tag().push(32u8)[0]);
    lemma_tree_payload_round_trip(es);
}

} // verus!
