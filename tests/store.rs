use std::io::Read;

use codecrafters_git::git::commit::{commit_payload, commit_tree};
use codecrafters_git::git::objects::{GitError, GitObject, PersonInfo, TreeEntry, TreeEntryMode};
use codecrafters_git::git::{
    bytes_to_hex, cat_file, entry_mode, hash_object, is_executable_mode, is_store_dir, load_object, ls_tree,
    mode_to_bytes, mode_to_string, object_dir, object_path, parse_hash, store_bytes, write_tree,
};
use codecrafters_git::git::order::compare_bytes;
use codecrafters_git::git::tree::compare_names;
use std::cmp::Ordering;

fn entry(mode: TreeEntryMode, name: &str, fill: u8) -> TreeEntry {
    TreeEntry { mode, name: name.to_string(), hash: [fill; 20] }
}

fn decompress(bytes: &[u8]) -> Vec<u8> {
    let mut out = Vec::new();
    flate2::read::ZlibDecoder::new(bytes).read_to_end(&mut out).unwrap();
    out
}

#[test]
fn blob_header_layout() {
    assert_eq!(GitObject::add_blob_header(b"world"), b"blob 5\0world".to_vec());
    assert_eq!(GitObject::add_tree_header(b""), b"tree 0\0".to_vec());
    assert_eq!(GitObject::add_commit_header(b"0123456789ab"), b"commit 12\00123456789ab".to_vec());
    assert_eq!(GitObject::add_header("blob", &[7u8; 100])[..9], b"blob 100\0"[..]);
}

#[test]
fn hex_rendering() {
    assert_eq!(bytes_to_hex(&[0x00, 0x0f, 0xa0, 0xff]), "000fa0ff");
    assert_eq!(bytes_to_hex(&[]), "");
}

#[test]
fn mode_strings() {
    assert_eq!(mode_to_string(&TreeEntryMode::Directory), "40000");
    assert_eq!(mode_to_string(&TreeEntryMode::RegularFile), "100644");
    assert_eq!(mode_to_string(&TreeEntryMode::ExecutableFile), "100755");
    assert_eq!(mode_to_string(&TreeEntryMode::SymbolicLink), "120000");
    assert_eq!(mode_to_bytes(&TreeEntryMode::Directory), b"40000");
    assert_eq!(mode_to_bytes(&TreeEntryMode::ExecutableFile), b"100755");
}

#[test]
fn mode_mapping_of_directory_entries() {
    assert_eq!(entry_mode(true, false, false, false), Some(TreeEntryMode::Directory));
    assert_eq!(entry_mode(false, true, false, true), Some(TreeEntryMode::ExecutableFile));
    assert_eq!(entry_mode(false, true, false, false), Some(TreeEntryMode::RegularFile));
    assert_eq!(entry_mode(false, false, true, false), Some(TreeEntryMode::SymbolicLink));
    assert_eq!(entry_mode(false, false, false, false), None);
}

#[test]
fn store_dir_is_skipped() {
    assert!(is_store_dir(".git"));
    assert!(!is_store_dir(".gitignore"));
    assert!(!is_store_dir("git"));
}

#[test]
fn hello_world_blob() {
    // A file written as `echo world > hello.txt` holds "world\n".
    let stored = hash_object(b"world\n");
    assert_eq!(bytes_to_hex(&stored.hash), "cc628ccd10742baea8241c5924df992b5c019f71");
    assert_eq!(stored.dir, "objects/cc");
    assert_eq!(stored.path, "objects/cc/628ccd10742baea8241c5924df992b5c019f71");
    assert_eq!(object_dir(&stored.hash), stored.dir);
    assert_eq!(object_path(&stored.hash), stored.path);
    assert_eq!(decompress(&stored.compressed), b"blob 6\0world\n".to_vec());
    assert_eq!(cat_file(Some(&stored.compressed)), Ok("world\n".to_string()));
}

#[test]
fn blob_without_newline() {
    let stored = hash_object(b"world");
    assert_eq!(bytes_to_hex(&stored.hash), "04fea06420ca60892f73becee3614f6d023a4b7f");
    assert_eq!(decompress(&stored.compressed), b"blob 5\0world".to_vec());
    assert_eq!(cat_file(Some(&stored.compressed)), Ok("world".to_string()));
}

#[test]
fn blob_round_trip() {
    let content: Vec<u8> = (0u8..=255).collect();
    let stored = hash_object(&content);
    match load_object(Some(&stored.compressed)) {
        Ok(GitObject::Blob(b)) => assert_eq!(b, content),
        other => panic!("unexpected {:?}", other),
    }
}

#[test]
fn storing_is_deterministic() {
    let a = store_bytes(b"blob 3\0abc");
    let b = store_bytes(b"blob 3\0abc");
    assert_eq!(a.hash, b.hash);
    assert_eq!(a.path, b.path);
    assert_eq!(a.compressed, b.compressed);
    assert_ne!(a.hash, store_bytes(b"blob 3\0abd").hash);
}

#[test]
fn tree_lists_names_in_order() {
    let stored = write_tree(vec![
        entry(TreeEntryMode::RegularFile, "b", 2),
        entry(TreeEntryMode::RegularFile, "a", 1),
        entry(TreeEntryMode::Directory, "c", 3),
    ]);
    let raw = decompress(&stored.compressed);
    let mut expected = b"tree 86\0".to_vec();
    expected.extend_from_slice(b"100644 a\0");
    expected.extend_from_slice(&[1u8; 20]);
    expected.extend_from_slice(b"100644 b\0");
    expected.extend_from_slice(&[2u8; 20]);
    expected.extend_from_slice(b"40000 c\0");
    expected.extend_from_slice(&[3u8; 20]);
    assert_eq!(raw, expected);
    assert_eq!(ls_tree(Some(&stored.compressed), true), Ok("a\nb\nc\n".to_string()));
}

#[test]
fn tree_hash_ignores_enumeration_order() {
    let first = write_tree(vec![
        entry(TreeEntryMode::RegularFile, "b", 2),
        entry(TreeEntryMode::ExecutableFile, "a", 1),
        entry(TreeEntryMode::SymbolicLink, "c", 3),
    ]);
    let second = write_tree(vec![
        entry(TreeEntryMode::SymbolicLink, "c", 3),
        entry(TreeEntryMode::ExecutableFile, "a", 1),
        entry(TreeEntryMode::RegularFile, "b", 2),
    ]);
    assert_eq!(first.hash, second.hash);
    assert_eq!(first.path, second.path);
}

#[test]
fn tree_order_is_bytewise() {
    let stored = write_tree(vec![
        entry(TreeEntryMode::RegularFile, "b", 0),
        entry(TreeEntryMode::RegularFile, "B", 0),
        entry(TreeEntryMode::RegularFile, "a.txt", 0),
        entry(TreeEntryMode::RegularFile, "a", 0),
    ]);
    assert_eq!(ls_tree(Some(&stored.compressed), true), Ok("B\na\na.txt\nb\n".to_string()));
}

#[test]
fn full_tree_listing() {
    let stored = write_tree(vec![
        entry(TreeEntryMode::Directory, "src", 0xab),
        entry(TreeEntryMode::RegularFile, "README", 0x01),
    ]);
    let expected = format!(
        "100644 README {}\n40000 src {}\n",
        "01".repeat(20),
        "ab".repeat(20)
    );
    assert_eq!(ls_tree(Some(&stored.compressed), false), Ok(expected));
}

#[test]
fn empty_tree() {
    let stored = write_tree(Vec::new());
    assert_eq!(bytes_to_hex(&stored.hash), "4b825dc642cb6eb9a060e54bf8d69288fbee4904");
    assert_eq!(ls_tree(Some(&stored.compressed), true), Ok(String::new()));
}

#[test]
fn tree_entries_round_trip() {
    let stored = write_tree(vec![entry(TreeEntryMode::SymbolicLink, "link é", 9)]);
    match load_object(Some(&stored.compressed)) {
        Ok(GitObject::Tree(es)) => {
            assert_eq!(es.len(), 1);
            assert_eq!(es[0].mode, TreeEntryMode::SymbolicLink);
            assert_eq!(es[0].name, "link é");
            assert_eq!(es[0].hash, [9u8; 20]);
        }
        other => panic!("unexpected {:?}", other),
    }
}

#[test]
fn blob_read_of_tree_is_type_mismatch() {
    let stored = write_tree(vec![entry(TreeEntryMode::RegularFile, "a", 1)]);
    assert_eq!(cat_file(Some(&stored.compressed)), Err(GitError::UnsupportedObjectType));
}

#[test]
fn tree_listing_of_blob_is_type_mismatch() {
    let stored = hash_object(b"x");
    assert_eq!(ls_tree(Some(&stored.compressed), false), Err(GitError::UnsupportedObjectType));
}

#[test]
fn absent_object_is_not_found() {
    assert_eq!(cat_file(None), Err(GitError::ObjectNotFound));
    assert_eq!(ls_tree(None, true), Err(GitError::ObjectNotFound));
    assert!(matches!(load_object(None), Err(GitError::ObjectNotFound)));
}

#[test]
fn corrupt_stream_is_io_error() {
    assert_eq!(cat_file(Some(b"not zlib at all")), Err(GitError::Io));
}

#[test]
fn unknown_header_is_unsupported() {
    assert!(matches!(GitObject::parse(b"note 3\0abc"), Err(GitError::UnsupportedObjectType)));
    assert!(matches!(GitObject::parse(b"tag 0\0"), Err(GitError::UnsupportedObjectType)));
    assert!(matches!(GitObject::parse(b"commit 0\0"), Err(GitError::MalformedObject)));
    assert!(matches!(GitObject::parse(b"blob 3abc"), Err(GitError::MalformedObject)));
}

#[test]
fn parse_blob_payload() {
    match GitObject::parse(b"blob 3\0a\0c") {
        Ok(GitObject::Blob(b)) => assert_eq!(b, b"a\0c".to_vec()),
        other => panic!("unexpected {:?}", other),
    }
}

#[test]
fn unknown_tree_mode_is_rejected() {
    let mut payload = b"100664 a\0".to_vec();
    payload.extend_from_slice(&[0u8; 20]);
    assert!(matches!(GitObject::read_tree_entries(&payload), Err(GitError::UnknownTreeMode)));
}

#[test]
fn truncated_tree_entry_is_malformed() {
    let mut payload = b"100644 a\0".to_vec();
    payload.extend_from_slice(&[0u8; 19]);
    assert!(matches!(GitObject::read_tree_entries(&payload), Err(GitError::MalformedObject)));
    assert!(matches!(GitObject::read_tree_entries(b"100644"), Err(GitError::MalformedObject)));
    assert!(matches!(GitObject::read_tree_entries(b"100644 a"), Err(GitError::MalformedObject)));
}

#[test]
fn default_person() {
    let p = PersonInfo::default();
    assert_eq!(p.name, "John Doe");
    assert_eq!(p.email, "<john.dow@example.com>");
    assert_eq!(p.timestamp, 1234567890);
    assert_eq!(p.timezone_offset, 0);
}

#[test]
fn commit_layout() {
    let tree = [0x11u8; 20];
    let parent = [0x22u8; 20];
    let author = PersonInfo {
        name: "Ann".to_string(),
        email: "<ann@x.org>".to_string(),
        timestamp: -5,
        timezone_offset: -130,
    };
    let committer = PersonInfo {
        name: "Bo".to_string(),
        email: "<bo@x.org>".to_string(),
        timestamp: 1700000000,
        timezone_offset: 1200,
    };
    let text = commit_payload(&tree, &Some(parent), &author, &committer, "fix\n");
    let expected = format!(
        "tree {}\nparent {}\nauthor Ann <ann@x.org> -5 -0130\ncommitter Bo <bo@x.org> 1700000000 +1200\n\nfix\n",
        "11".repeat(20),
        "22".repeat(20)
    );
    assert_eq!(String::from_utf8(text).unwrap(), expected);
}

#[test]
fn commit_with_placeholder_author() {
    let tree = [0xabu8; 20];
    let stored = commit_tree(&tree, "init", &None);
    let raw = decompress(&stored.compressed);
    let body = format!(
        "tree {}\nauthor John Doe <john.dow@example.com> 1234567890 +0000\ncommitter John Doe <john.dow@example.com> 1234567890 +0000\n\ninit",
        "ab".repeat(20)
    );
    let mut expected = format!("commit {}\0", body.len()).into_bytes();
    expected.extend_from_slice(body.as_bytes());
    assert_eq!(raw, expected);
    assert_eq!(stored.hash, store_bytes(&expected).hash);
}

#[test]
fn hash_text_round_trip() {
    let text = "cc628ccd10742baea8241c5924df992b5c019f71";
    let hash = parse_hash(text).unwrap();
    assert_eq!(hash[0], 0xcc);
    assert_eq!(hash[19], 0x71);
    assert_eq!(bytes_to_hex(&hash), text);
}

#[test]
fn bad_hash_text_is_rejected() {
    assert_eq!(parse_hash("cc628ccd10742baea8241c5924df992b5c019f7"), None);
    assert_eq!(parse_hash("cc628ccd10742baea8241c5924df992b5c019f710"), None);
    assert_eq!(parse_hash("CC628CCD10742BAEA8241C5924DF992B5C019F71"), None);
    assert_eq!(parse_hash("zz628ccd10742baea8241c5924df992b5c019f71"), None);
    assert_eq!(parse_hash(""), None);
}

#[test]
fn byte_order() {
    assert_eq!(compare_bytes(b"a", b"b"), Ordering::Less);
    assert_eq!(compare_bytes(b"a", b"a"), Ordering::Equal);
    assert_eq!(compare_bytes(b"ab", b"a"), Ordering::Greater);
    assert_eq!(compare_bytes(b"", b"a"), Ordering::Less);
    assert_eq!(compare_bytes(b"Z", b"a"), Ordering::Less);
    let x = entry(TreeEntryMode::RegularFile, "a.txt", 0);
    let y = entry(TreeEntryMode::Directory, "a", 0);
    assert_eq!(compare_names(&x, &y), Ordering::Greater);
}

#[test]
fn commit_round_trip() {
    let tree = [0x5au8; 20];
    let parent = [0x07u8; 20];
    let author = PersonInfo {
        name: "Ann Lee".to_string(),
        email: "<ann@x.org>".to_string(),
        timestamp: -5,
        timezone_offset: -130,
    };
    let committer = PersonInfo::default();
    let payload = commit_payload(&tree, &Some(parent), &author, &committer, "line one\n\nline two");
    let stored = store_bytes(&GitObject::add_commit_header(&payload));
    match load_object(Some(&stored.compressed)) {
        Ok(GitObject::Commit { tree: t, parent: p, author: a, committer: c, message }) => {
            assert_eq!(t, tree);
            assert_eq!(p, Some(parent));
            assert_eq!(a.name, "Ann Lee");
            assert_eq!(a.email, "<ann@x.org>");
            assert_eq!(a.timestamp, -5);
            assert_eq!(a.timezone_offset, -130);
            assert_eq!(c.name, "John Doe");
            assert_eq!(c.email, "<john.dow@example.com>");
            assert_eq!(c.timestamp, 1234567890);
            assert_eq!(c.timezone_offset, 0);
            assert_eq!(message, "line one\n\nline two");
        }
        other => panic!("unexpected {:?}", other),
    }
}

#[test]
fn commit_without_parent_decodes() {
    let stored = commit_tree(&[1u8; 20], "first", &None);
    match load_object(Some(&stored.compressed)) {
        Ok(GitObject::Commit { parent, message, .. }) => {
            assert_eq!(parent, None);
            assert_eq!(message, "first");
        }
        other => panic!("unexpected {:?}", other),
    }
    assert_eq!(cat_file(Some(&stored.compressed)), Err(GitError::UnsupportedObjectType));
}

#[test]
fn malformed_commits_are_rejected() {
    let hex = "ab".repeat(20);
    let cases = [
        format!("tree {hex}\nauthor A <a> 1 +0000\n\nmsg"),
        format!("tree {hex}\nauthor A <a> x +0000\ncommitter A <a> 1 +0000\n\nmsg"),
        format!("tree {hex}\nauthor A <a> 1 0000\ncommitter A <a> 1 +0000\n\nmsg"),
        format!("tree {hex}\nauthor A <a> 99999999999999999999 +0000\ncommitter A <a> 1 +0000\n\nmsg"),
        format!("tree {}\nauthor A <a> 1 +0000\ncommitter A <a> 1 +0000\n\nmsg", "AB".repeat(20)),
        format!("tree {hex}\nauthor A <a> 1 +0000\ncommitter A <a> 1 +0000\nmsg"),
    ];
    for body in cases {
        let raw = GitObject::add_commit_header(body.as_bytes());
        assert!(matches!(GitObject::parse(&raw), Err(GitError::MalformedObject)), "{body}");
    }
    let good = format!("tree {hex}\nauthor A <a> 1 +0000\ncommitter A <a> 1 +0000\n\nmsg");
    let raw = GitObject::add_commit_header(good.as_bytes());
    assert!(matches!(GitObject::parse(&raw), Ok(GitObject::Commit { .. })));
}

#[test]
fn declared_length_must_match() {
    assert!(matches!(GitObject::parse(b"blob 4\0abc"), Err(GitError::MalformedObject)));
    assert!(matches!(GitObject::parse(b"blob 2\0abc"), Err(GitError::MalformedObject)));
    assert!(matches!(GitObject::parse(b"blob x\0"), Err(GitError::MalformedObject)));
    assert!(matches!(GitObject::parse(b"blob \0"), Err(GitError::MalformedObject)));
    assert!(matches!(GitObject::parse(b"tree 1\0"), Err(GitError::MalformedObject)));
    match GitObject::parse(b"blob 0\0") {
        Ok(GitObject::Blob(b)) => assert!(b.is_empty()),
        other => panic!("unexpected {:?}", other),
    }
}

#[test]
fn blob_text_is_lossy_utf8() {
    let stored = hash_object(b"caf\xc3\xa9");
    assert_eq!(cat_file(Some(&stored.compressed)), Ok("café".to_string()));
    let stored = hash_object(b"a\xffb");
    assert_eq!(cat_file(Some(&stored.compressed)), Ok("a\u{FFFD}b".to_string()));
}

#[test]
fn store_dir_never_enters_a_tree() {
    let with_store = write_tree(vec![
        entry(TreeEntryMode::Directory, ".git", 7),
        entry(TreeEntryMode::RegularFile, "a", 1),
    ]);
    let without = write_tree(vec![entry(TreeEntryMode::RegularFile, "a", 1)]);
    assert_eq!(with_store.hash, without.hash);
    assert_eq!(ls_tree(Some(&with_store.compressed), true), Ok("a\n".to_string()));
}

#[test]
fn execute_bits() {
    assert!(is_executable_mode(0o100755));
    assert!(is_executable_mode(0o100744));
    assert!(is_executable_mode(0o100601));
    assert!(!is_executable_mode(0o100644));
    assert!(!is_executable_mode(0o040666));
}
