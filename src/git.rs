use vstd::prelude::*;
use vstd::string::StringExecFns;

pub mod objects;
pub mod order;
pub mod tree;
pub mod commit;
pub mod fields;
pub mod commit_laws;
pub(crate) mod backend;

use crate::git::backend::{
    lossy_text, push_char, sha1_digest, sha1_of, zlib_compress, zlib_compressed, zlib_decompress,
    zlib_decompressed,
};
use crate::git::objects::{
    EntryView, GitError, GitObject, ObjectView, TreeEntry, TreeEntryMode, blob_tag, decode_object,
    entries_view, entry_bytes, lemma_blob_round_trip, lemma_tree_payload_push, mode_bytes,
    serialized, tree_payload, tree_tag,
};
use crate::git::tree::{
    is_sorted_listing, kept_entries, lemma_sorted_listing_unique, name_ok, names_unique,
    stores_tree,
};

verus! {

/// The lowercase hexadecimal digit for `n < 16`.
pub open spec fn hex_digit(n: u8) -> char {
    if n < 10 {
        ((n + 48) as u8) as char
    } else {
        ((n + 87) as u8) as char
    }
}

/// Two lowercase hexadecimal digits per byte, high nibble first.
pub open spec fn hex_of(b: Seq<u8>) -> Seq<char> {
    Seq::new(
        2 * b.len(),
        |i: int|
            if i % 2 == 0 {
                hex_digit(b[i / 2] / 16)
            } else {
                hex_digit(b[i / 2] % 16)
            },
    )
}

fn hex_char(n: u8) -> (c: char)
    requires
        n < 16,
    ensures
        c == hex_digit(n),
{
    if n < 10 {
        (n + 48) as char
    } else {
        (n + 87) as char
    }
}

/// Appends the hexadecimal rendering of `bytes` to `s`.
pub(crate) fn push_hex(s: &mut String, bytes: &[u8])
    ensures
        final(s)@ == old(s)@ + hex_of(bytes@),
{
    let ghost start = s@;
    let mut i: usize = 0;
    while i < bytes.len()
        invariant
            i <= bytes@.len(),
            s@ == start + hex_of(bytes@.subrange(0, i as int)),
        decreases bytes@.len() - i,
    {
        let b = bytes[i];
        push_char(s, hex_char(b / 16));
        push_char(s, hex_char(b % 16));
        i = i + 1;
        assert(hex_of(bytes@.subrange(0, i as int)) =~= hex_of(bytes@.subrange(0, i - 1)).push(
            hex_digit(b / 16),
        ).push(hex_digit(b % 16)));
    }
    assert(bytes@.subrange(0, i as int) =~= bytes@);
}

/// Hex rendering is ASCII and encodes one byte per character.
pub(crate) proof fn lemma_hex_ascii(b: Seq<u8>)
    ensures
        vstd::utf8::is_ascii_chars(hex_of(b)),
        vstd::utf8::encode_utf8(hex_of(b)).len() == hex_of(b).len(),
        forall|i: int|
            0 <= i < hex_of(b).len() ==> #[trigger] vstd::utf8::encode_utf8(hex_of(b))[i]
                == hex_of(b)[i] as u8,
{
    let t = hex_of(b);
    assert forall|i: int| 0 <= i < t.len() implies '\0' <= #[trigger] t[i] <= '\u{7f}' by {
        let n: u8 = if i % 2 == 0 {
            b[i / 2] / 16
        } else {
            b[i / 2] % 16
        };
        assert(t[i] == hex_digit(n));
    }
    vstd::utf8::is_ascii_chars_encode_utf8(t);
}

/// The value of a lowercase hexadecimal digit.
fn hex_value(b: u8) -> (r: Option<u8>)
    ensures
        match r {
            Some(v) => v < 16 && hex_digit(v) == b as char,
            None => forall|v: u8| v < 16 ==> hex_digit(v) as u8 != b,
        },
{
    if 48 <= b && b <= 57 {
        Some(b - 48)
    } else if 97 <= b && b <= 102 {
        Some(b - 87)
    } else {
        None
    }
}

/// The hash whose lowercase hexadecimal rendering is `hex`, if any.
pub fn parse_hash(hex: &str) -> (r: Option<crate::git::objects::Hash>)
    ensures
        match r {
            Some(h) => hex_of(h@) == hex@,
            None => forall|h: crate::git::objects::Hash| hex_of(h@) != hex@,
        },
{
    let bytes = hex.as_bytes();
    let ghost enc = vstd::utf8::encode_utf8(hex@);
    assert(bytes@ == enc);
    if bytes.len() != 40 {
        proof {
            assert forall|h: crate::git::objects::Hash| hex_of(h@) != hex@ by {
                lemma_hex_ascii(h@);
            }
        }
        return None;
    }
    let mut h: crate::git::objects::Hash = [0u8; 20];
    let mut i: usize = 0;
    while i < 20
        invariant
            i <= 20,
            bytes@.len() == 40,
            bytes@ == enc,
            enc == vstd::utf8::encode_utf8(hex@),
            forall|k: int|
                0 <= k < i ==> hex_digit(#[trigger] h@[k] / 16) == bytes@[2 * k] as char
                    && hex_digit(h@[k] % 16) == bytes@[2 * k + 1] as char,
        decreases 20 - i,
    {
        let hi = match hex_value(bytes[2 * i]) {
            Some(v) => v,
            None => {
                proof {
                    assert forall|g: crate::git::objects::Hash| hex_of(g@) != hex@ by {
                        lemma_hex_ascii(g@);
                        if hex_of(g@) == hex@ {
                            assert(enc == vstd::utf8::encode_utf8(hex_of(g@)));
                            assert(vstd::utf8::encode_utf8(hex_of(g@))[2 * i as int] == hex_of(
                                g@,
                            )[2 * i as int] as u8);
                            assert(hex_of(g@)[2 * i] == hex_digit(g@[i as int] / 16));
                        }
                    }
                }
                return None;
            },
        };
        let lo = match hex_value(bytes[2 * i + 1]) {
            Some(v) => v,
            None => {
                proof {
                    assert forall|g: crate::git::objects::Hash| hex_of(g@) != hex@ by {
                        lemma_hex_ascii(g@);
                        if hex_of(g@) == hex@ {
                            assert(enc == vstd::utf8::encode_utf8(hex_of(g@)));
                            assert(vstd::utf8::encode_utf8(hex_of(g@))[2 * i + 1 as int] == hex_of(
                                g@,
                            )[2 * i + 1 as int] as u8);
                            assert(hex_of(g@)[2 * i + 1] == hex_digit(g@[i as int] % 16));
                        }
                    }
                }
                return None;
            },
        };
        let v: u8 = hi * 16 + lo;
        assert(v / 16 == hi && v % 16 == lo) by (nonlinear_arith)
            requires
                hi < 16,
                lo < 16,
                v == hi * 16 + lo,
        ;
        h[i] = v;
        i = i + 1;
    }
    proof {
        let t = hex_of(h@);
        lemma_hex_ascii(h@);
        assert forall|j: int| 0 <= j < 40 implies t[j] == bytes@[j] as char by {
            let k = j / 2;
            if j % 2 == 0 {
                assert(j == 2 * k);
            } else {
                assert(j == 2 * k + 1);
            }
        }
        assert(vstd::utf8::encode_utf8(t) =~= bytes@);
        vstd::utf8::encode_utf8_decode_utf8(t);
        vstd::utf8::encode_utf8_decode_utf8(hex@);
    }
    Some(h)
}

/// Renders bytes as lowercase hexadecimal, two digits per byte.
pub fn bytes_to_hex(bytes: &[u8]) -> (r: String)
    ensures
        r@ == hex_of(bytes@),
{
    let mut s = String::new();
    push_hex(&mut s, bytes);
    assert(s@ =~= hex_of(bytes@));
    s
}

/// The canonical mode string of `mode`, as bytes.
pub fn mode_to_bytes(mode: &TreeEntryMode) -> (r: &'static [u8])
    ensures
        r@ == mode_bytes(*mode),
{
    proof {
        reveal_strlit("40000");
        reveal_strlit("100644");
        reveal_strlit("100755");
        reveal_strlit("120000");
        vstd::string::is_ascii_spec_bytes("40000");
        vstd::string::is_ascii_spec_bytes("100644");
        vstd::string::is_ascii_spec_bytes("100755");
        vstd::string::is_ascii_spec_bytes("120000");
    }
    match mode {
        TreeEntryMode::Directory => {
            let r = "40000".as_bytes();
            assert(r@ =~= mode_bytes(*mode));
            r
        },
        TreeEntryMode::RegularFile => {
            let r = "100644".as_bytes();
            assert(r@ =~= mode_bytes(*mode));
            r
        },
        TreeEntryMode::ExecutableFile => {
            let r = "100755".as_bytes();
            assert(r@ =~= mode_bytes(*mode));
            r
        },
        TreeEntryMode::SymbolicLink => {
            let r = "120000".as_bytes();
            assert(r@ =~= mode_bytes(*mode));
            r
        },
    }
}

/// The canonical mode string of each entry kind, as text.
pub open spec fn mode_chars(m: TreeEntryMode) -> Seq<char> {
    match m {
        TreeEntryMode::Directory => seq!['4', '0', '0', '0', '0'],
        TreeEntryMode::RegularFile => seq!['1', '0', '0', '6', '4', '4'],
        TreeEntryMode::ExecutableFile => seq!['1', '0', '0', '7', '5', '5'],
        TreeEntryMode::SymbolicLink => seq!['1', '2', '0', '0', '0', '0'],
    }
}

/// The canonical mode string of `mode`.
pub fn mode_to_string(mode: &TreeEntryMode) -> (r: String)
    ensures
        r@ == mode_chars(*mode),
{
    proof {
        reveal_strlit("40000");
        reveal_strlit("100644");
        reveal_strlit("100755");
        reveal_strlit("120000");
    }
    match mode {
        TreeEntryMode::Directory => "40000".to_owned(),
        TreeEntryMode::RegularFile => "100644".to_owned(),
        TreeEntryMode::ExecutableFile => "100755".to_owned(),
        TreeEntryMode::SymbolicLink => "120000".to_owned(),
    }
}

/// `"objects/"`
pub open spec fn objects_prefix() -> Seq<char> {
    seq!['o', 'b', 'j', 'e', 'c', 't', 's', '/']
}

/// The directory that holds the object with hash `h`: `objects/` and the
/// first two hex digits.
pub open spec fn object_dir_of(h: Seq<u8>) -> Seq<char> {
    objects_prefix() + hex_of(h.subrange(0, 1))
}

/// The file that holds the object with hash `h`: its directory, `/`, and
/// the remaining 38 hex digits.
pub open spec fn object_path_of(h: Seq<u8>) -> Seq<char> {
    object_dir_of(h) + seq!['/'] + hex_of(h.subrange(1, h.len() as int))
}

/// What persisting an object takes: its hash, the directory and file it
/// goes to (relative to the repository directory), and the compressed
/// bytes to write there.
pub struct StoredObject {
    pub hash: crate::git::objects::Hash,
    pub dir: String,
    pub path: String,
    pub compressed: Vec<u8>,
}

/// `s` is what storing the serialized object `data` takes.
pub open spec fn stored_for(s: StoredObject, data: Seq<u8>) -> bool {
    &&& s.hash@ == sha1_of(data)
    &&& s.dir@ == object_dir_of(s.hash@)
    &&& s.path@ == object_path_of(s.hash@)
    &&& s.compressed@ == zlib_compressed(data)
}

/// The directory under which the object with hash `hash` is stored.
pub fn object_dir(hash: &crate::git::objects::Hash) -> (r: String)
    ensures
        r@ == object_dir_of(hash@),
{
    proof {
        reveal_strlit("objects/");
    }
    let mut s = "objects/".to_owned();
    push_hex(&mut s, &hash[0..1]);
    s
}

/// The file under which the object with hash `hash` is stored.
pub fn object_path(hash: &crate::git::objects::Hash) -> (r: String)
    ensures
        r@ == object_path_of(hash@),
{
    let mut s = object_dir(hash);
    push_char(&mut s, '/');
    push_hex(&mut s, &hash[1..20]);
    s
}

/// Hashes a serialized object (header included) and prepares it for
/// storage: where it goes and its compressed bytes.
pub fn store_bytes(content_with_header: &[u8]) -> (r: StoredObject)
    ensures
        stored_for(r, content_with_header@),
{
    let hash = sha1_digest(content_with_header);
    let dir = object_dir(&hash);
    let path = object_path(&hash);
    let compressed = zlib_compress(content_with_header);
    StoredObject { hash, dir, path, compressed }
}

/// Hashes file content as a blob and prepares it for storage.
pub fn hash_object(content: &[u8]) -> (r: StoredObject)
    ensures
        stored_for(r, serialized(blob_tag(), content@)),
{
    let with_header = GitObject::add_blob_header(content);
    store_bytes(&with_header)
}

/// What reading an object back yields: `stored` is the content of its file,
/// `None` where there is no such file.
pub open spec fn load_spec(stored: Option<Seq<u8>>) -> Result<ObjectView, GitError> {
    match stored {
        None => Err(GitError::ObjectNotFound),
        Some(c) => match zlib_decompressed(c) {
            None => Err(GitError::Io),
            Some(d) => decode_object(d),
        },
    }
}

/// The view of an optional byte string.
pub open spec fn opt_bytes_view(stored: Option<&[u8]>) -> Option<Seq<u8>> {
    match stored {
        Some(c) => Some(c@),
        None => None,
    }
}

/// Decompresses and decodes the content of an object's file; `None` stands
/// for a missing file.
pub fn load_object(stored: Option<&[u8]>) -> (r: Result<GitObject, GitError>)
    ensures
        match r {
            Ok(o) => load_spec(opt_bytes_view(stored)) == Ok::<ObjectView, GitError>(o@),
            Err(e) => load_spec(opt_bytes_view(stored)) == Err::<ObjectView, GitError>(e),
        },
        forall|b: Seq<u8>|
            opt_bytes_view(stored) == Some(#[trigger] zlib_compressed(serialized(blob_tag(), b)))
                ==> (r matches Ok(GitObject::Blob(x)) && x@ == b),
{
    let compressed = match stored {
        Some(c) => c,
        None => return Err(GitError::ObjectNotFound),
    };
    let data = match zlib_decompress(compressed) {
        Some(d) => d,
        None => return Err(GitError::Io),
    };
    proof {
        assert forall|b: Seq<u8>|
            compressed@ == #[trigger] zlib_compressed(serialized(blob_tag(), b)) implies decode_object(
            data@,
        ) == Ok::<ObjectView, GitError>(ObjectView::Blob(b)) by {
            lemma_blob_round_trip(b);
        }
    }
    GitObject::parse(data.as_slice())
}

/// The content of a stored blob as text, decoded as UTF-8 with each
/// invalid sequence replaced by U+FFFD.
pub fn cat_file(stored: Option<&[u8]>) -> (r: Result<String, GitError>)
    ensures
        match load_spec(opt_bytes_view(stored)) {
            Ok(ObjectView::Blob(b)) => (r matches Ok(t) && t@ == lossy_text(b)),
            Ok(_) => r == Err::<String, GitError>(GitError::UnsupportedObjectType),
            Err(e) => r == Err::<String, GitError>(e),
        },
{
    let blob = match load_object(stored) {
        Ok(GitObject::Blob(b)) => b,
        Ok(_) => return Err(GitError::UnsupportedObjectType),
        Err(e) => return Err(e),
    };
    Ok(backend::utf8_lossy(blob.as_slice()))
}

/// One line of a tree listing, without its line break: the name alone, or
/// `<mode> <name> <hex hash>`.
pub open spec fn listing_line(e: EntryView, name_only: bool) -> Seq<char> {
    if name_only {
        e.name
    } else {
        mode_chars(e.mode) + seq![' '] + e.name + seq![' '] + hex_of(e.hash)
    }
}

/// A tree listing: one line per entry, each ended by a line break.
pub open spec fn listing(es: Seq<EntryView>, name_only: bool) -> Seq<char>
    decreases es.len(),
{
    if es.len() == 0 {
        Seq::empty()
    } else {
        listing(es.drop_last(), name_only) + listing_line(es.last(), name_only) + seq!['\n']
    }
}

/// Lists the entries of a stored tree.
pub fn ls_tree(stored: Option<&[u8]>, name_only: bool) -> (r: Result<String, GitError>)
    ensures
        match load_spec(opt_bytes_view(stored)) {
            Ok(ObjectView::Tree(es)) => (r matches Ok(t) && t@ == listing(es, name_only)),
            Ok(_) => r == Err::<String, GitError>(GitError::UnsupportedObjectType),
            Err(e) => r == Err::<String, GitError>(e),
        },
{
    let entries = match load_object(stored) {
        Ok(GitObject::Tree(es)) => es,
        Ok(_) => return Err(GitError::UnsupportedObjectType),
        Err(e) => return Err(e),
    };
    let mut out = String::new();
    let mut i: usize = 0;
    while i < entries.len()
        invariant
            i <= entries@.len(),
            out@ == listing(entries_view(entries@.subrange(0, i as int)), name_only),
        decreases entries@.len() - i,
    {
        let e = &entries[i];
        let ghost before = out@;
        if name_only {
            out.append(e.name.as_str());
        } else {
            let mode = mode_to_string(&e.mode);
            out.append(mode.as_str());
            push_char(&mut out, ' ');
            out.append(e.name.as_str());
            push_char(&mut out, ' ');
            push_hex(&mut out, &e.hash);
        }
        push_char(&mut out, '\n');
        proof {
            let prev = entries_view(entries@.subrange(0, i as int));
            let next = entries_view(entries@.subrange(0, i + 1));
            assert(next.drop_last() =~= prev);
            assert(next.last() == entries@[i as int]@);
            assert(out@ =~= before + listing_line(entries@[i as int]@, name_only) + seq!['\n']);
        }
        i = i + 1;
    }
    assert(entries@.subrange(0, i as int) =~= entries@);
    Ok(out)
}

/// Serializes, hashes and prepares for storage the tree made of `entries`:
/// an entry named like the store's own directory is left out, and the rest
/// are put in name order.
pub fn write_tree(entries: Vec<TreeEntry>) -> (r: StoredObject)
    requires
        forall|i: int| 0 <= i < entries@.len() ==> name_ok(#[trigger] entries@[i]@),
    ensures
        stores_tree(r, entries_view(entries@)),
{
    let ghost input = entries_view(entries@);
    let ghost orig = entries@;
    let mut rest = entries;
    let mut kept: Vec<TreeEntry> = Vec::new();
    assert(entries_view(orig.subrange(0, 0)) =~= Seq::<EntryView>::empty());
    while rest.len() > 0
        invariant
            rest@.len() <= orig.len(),
            rest@ == orig.subrange(orig.len() - rest@.len(), orig.len() as int),
            entries_view(kept@) == kept_entries(
                entries_view(orig.subrange(0, orig.len() - rest@.len())),
            ),
            forall|j: int| 0 <= j < kept@.len() ==> (#[trigger] kept@[j])@.name != store_dir_name(),
        decreases rest@.len(),
    {
        let ghost c = orig.len() - rest@.len();
        let e = rest.remove(0);
        assert(rest@ =~= orig.subrange(orig.len() - rest@.len(), orig.len() as int));
        let ghost pre = entries_view(orig.subrange(0, c + 1));
        assert(pre.drop_last() =~= entries_view(orig.subrange(0, c)));
        assert(pre.last() == e@);
        if !is_store_dir(e.name.as_str()) {
            let ghost before = kept@;
            kept.push(e);
            assert(entries_view(kept@) =~= entries_view(before).push(e@));
        }
    }
    assert(orig.subrange(0, orig.len() as int) =~= orig);
    assert(entries_view(orig) == input);
    let ghost kept_view = entries_view(kept@);
    let mut sorted = kept;
    backend::sort_by_name(&mut sorted);
    let mut content: Vec<u8> = Vec::new();
    let mut i: usize = 0;
    while i < sorted.len()
        invariant
            i <= sorted@.len(),
            content@ == tree_payload(entries_view(sorted@.subrange(0, i as int))),
        decreases sorted@.len() - i,
    {
        let e = &sorted[i];
        let ghost before = content@;
        content.extend_from_slice(mode_to_bytes(&e.mode));
        content.push(32u8);
        content.extend_from_slice(e.name.as_str().as_bytes());
        content.push(0u8);
        content.extend_from_slice(&e.hash);
        proof {
            let prev = entries_view(sorted@.subrange(0, i as int));
            assert(entries_view(sorted@.subrange(0, i + 1)) =~= prev.push(e@));
            lemma_tree_payload_push(prev, e@);
            assert(content@ =~= before + entry_bytes(e@));
        }
        i = i + 1;
    }
    assert(sorted@.subrange(0, i as int) =~= sorted@);
    let with_header = GitObject::add_tree_header(&content);
    let r = store_bytes(&with_header);
    proof {
        let s = entries_view(sorted@);
        assert forall|a: int, b: int| 0 <= a < b < s.len() implies !crate::git::order::bytes_lt(
            crate::git::objects::name_key(s[b]),
            crate::git::objects::name_key(s[a]),
        ) by {
            assert(s[a] == sorted@[a]@ && s[b] == sorted@[b]@);
        }
        assert(is_sorted_listing(kept_entries(input).to_multiset(), s));
        assert forall|a: int| 0 <= a < s.len() implies (#[trigger] s[a]).name != store_dir_name() by {
            broadcast use vstd::seq_lib::group_to_multiset_ensures;

            assert(s.contains(s[a]));
            assert(s.to_multiset().count(s[a]) > 0);
            assert(kept_view.to_multiset().count(s[a]) > 0);
            assert(kept_view.contains(s[a]));
            let j = choose|j: int| 0 <= j < kept_view.len() && kept_view[j] == s[a];
            assert(kept_view[j] == s[a]);
        }
    }
    r
}

/// The kind under which a directory entry enters a tree: a directory, an
/// executable or plain file, or a symbolic link; anything else (a device,
/// a socket, a fifo) is left out.
pub fn entry_mode(is_dir: bool, is_file: bool, is_symlink: bool, executable: bool) -> (r: Option<
    TreeEntryMode,
>)
    ensures
        r == if is_dir {
            Some(TreeEntryMode::Directory)
        } else if is_file && executable {
            Some(TreeEntryMode::ExecutableFile)
        } else if is_file {
            Some(TreeEntryMode::RegularFile)
        } else if is_symlink {
            Some(TreeEntryMode::SymbolicLink)
        } else {
            None::<TreeEntryMode>
        },
{
    if is_dir {
        Some(TreeEntryMode::Directory)
    } else if is_file {
        if executable {
            Some(TreeEntryMode::ExecutableFile)
        } else {
            Some(TreeEntryMode::RegularFile)
        }
    } else if is_symlink {
        Some(TreeEntryMode::SymbolicLink)
    } else {
        None
    }
}

/// Whether a POSIX permission mode has any execute bit set (`0o111`).
pub fn is_executable_mode(mode: u32) -> (r: bool)
    ensures
        r == (mode & 0o111u32 != 0u32),
{
    mode & 0o111u32 != 0u32
}

/// `".git"`, the store's own directory.
pub open spec fn store_dir_name() -> Seq<char> {
    seq!['.', 'g', 'i', 't']
}

/// Whether a directory entry is the store's own directory, which a tree
/// never includes.
pub fn is_store_dir(name: &str) -> (r: bool)
    ensures
        r == (name@ == store_dir_name()),
{
    proof {
        reveal_strlit(".git");
        vstd::string::is_ascii_spec_bytes(".git");
        vstd::utf8::encode_utf8_decode_utf8(name@);
        vstd::utf8::encode_utf8_decode_utf8(".git"@);
        assert(".git"@ =~= store_dir_name());
    }
    crate::git::objects::bytes_equal(name.as_bytes(), ".git".as_bytes())
}

/// Storing is deterministic: the same serialized bytes give the same hash,
/// the same place in the store and the same compressed content.
pub proof fn lemma_store_deterministic(s1: StoredObject, s2: StoredObject, data: Seq<u8>)
    requires
        stored_for(s1, data),
        stored_for(s2, data),
    ensures
        s1.hash == s2.hash,
        s1.dir@ == s2.dir@,
        s1.path@ == s2.path@,
        s1.compressed@ == s2.compressed@,
{
    assert(s1.hash@ =~= s2.hash@);
    assert forall|i: int| 0 <= i < 20 implies s1.hash[i] == s2.hash[i] by {
        assert(s1.hash@[i] == s2.hash@[i]);
    }
}

/// Content addressing: two trees with the same entries, whatever order they
/// were found in and whether or not the store's own directory was among
/// them, are stored under the same hash and path.
pub proof fn lemma_tree_content_addressed(
    r1: StoredObject,
    r2: StoredObject,
    a: Seq<EntryView>,
    b: Seq<EntryView>,
)
    requires
        kept_entries(a).to_multiset() == kept_entries(b).to_multiset(),
        names_unique(kept_entries(a).to_multiset()),
        stores_tree(r1, a),
        stores_tree(r2, b),
    ensures
        r1.hash@ == r2.hash@,
        r1.path@ == r2.path@,
{
    let s1 = choose|s: Seq<EntryView>|
        is_sorted_listing(kept_entries(a).to_multiset(), s) && (forall|i: int|
            0 <= i < s.len() ==> (#[trigger] s[i]).name != store_dir_name()) && stored_for(
            r1,
            serialized(tree_tag(), tree_payload(s)),
        );
    let s2 = choose|s: Seq<EntryView>|
        is_sorted_listing(kept_entries(b).to_multiset(), s) && (forall|i: int|
            0 <= i < s.len() ==> (#[trigger] s[i]).name != store_dir_name()) && stored_for(
            r2,
            serialized(tree_tag(), tree_payload(s)),
        );
    lemma_sorted_listing_unique(kept_entries(a).to_multiset(), s1, s2);
}

} // verus!
