use vstd::prelude::*;
use vstd::string::StringSliceAdditionalSpecFns;
use vstd::utf8::{decode_utf8, encode_utf8, valid_utf8};

use vstd::string::StringExecFns;
use crate::git::backend::utf8_text;
use crate::git::fields::{
    hash_from_hex_bytes, hex_decode, last_index, offset_value, parse_offset, parse_timestamp,
    rfind_byte, signed_value,
};
use crate::git::objects::{
    GitObject, ObjectView, PersonInfo, PersonView, commit_tag, decimal, find_byte, first_index,
    has_prefix, lemma_ascii_literal, opt_hash_view, serialized,
    starts_with,
};
use crate::git::{StoredObject, hex_of, push_hex, store_bytes, stored_for};

verus! {

impl Default for PersonInfo {
    /// The placeholder identity used where no authorship is known.
    fn default() -> (r: PersonInfo)
        ensures
            r@ == default_person(),
    {
        PersonInfo {
            name: "John Doe".to_owned(),
            email: "<john.dow@example.com>".to_owned(),
            timestamp: 1234567890,
            timezone_offset: 0,
        }
    }
}

/// The placeholder identity and time.
pub open spec fn default_person() -> PersonView {
    PersonView {
        name: "John Doe"@,
        email: "<john.dow@example.com>"@,
        timestamp: 1234567890,
        timezone_offset: 0,
    }
}

/// The decimal digits of `n` as text.
pub open spec fn decimal_text(n: nat) -> Seq<char> {
    decimal(n).map_values(|b: u8| b as char)
}

/// An integer in decimal, with a leading `-` when negative.
pub open spec fn signed_text(v: int) -> Seq<char> {
    if v < 0 {
        seq!['-'] + decimal_text((-v) as nat)
    } else {
        decimal_text(v as nat)
    }
}

/// How many zeros bring the digits of `n` up to four.
pub open spec fn pad_width(n: nat) -> nat {
    if n < 10 {
        3
    } else if n < 100 {
        2
    } else if n < 1000 {
        1
    } else {
        0
    }
}

/// A time zone offset written `+HHMM` or `-HHMM`: a sign, then the
/// magnitude in at least four digits.
pub open spec fn tz_text(v: int) -> Seq<char> {
    let m: nat = if v < 0 {
        (-v) as nat
    } else {
        v as nat
    };
    (if v < 0 {
        seq!['-']
    } else {
        seq!['+']
    }) + Seq::new(pad_width(m), |i: int| '0') + decimal_text(m)
}

/// `<name> <email> <timestamp> <tz-offset>`
pub open spec fn person_text(p: PersonView) -> Seq<char> {
    p.name + seq![' '] + p.email + seq![' '] + signed_text(p.timestamp as int) + seq![' ']
        + tz_text(p.timezone_offset as int)
}

/// The text of a commit payload: the tree line, an optional parent line,
/// the author and committer lines, a blank line, then the message.
pub open spec fn commit_text(
    tree: Seq<u8>,
    parent: Option<Seq<u8>>,
    author: PersonView,
    committer: PersonView,
    message: Seq<char>,
) -> Seq<char> {
    seq!['t', 'r', 'e', 'e', ' '] + hex_of(tree) + seq!['\n'] + match parent {
        Some(p) => seq!['p', 'a', 'r', 'e', 'n', 't', ' '] + hex_of(p) + seq!['\n'],
        None => Seq::empty(),
    } + seq!['a', 'u', 't', 'h', 'o', 'r', ' '] + person_text(author) + seq!['\n'] + seq![
        'c',
        'o',
        'm',
        'm',
        'i',
        't',
        't',
        'e',
        'r',
        ' ',
    ] + person_text(committer) + seq!['\n', '\n'] + message
}

/// Appends the decimal digits of `n`.
fn push_decimal_text(s: &mut String, n: u64)
    ensures
        final(s)@ == old(s)@ + decimal_text(n as nat),
    decreases n,
{
    if n < 10 {
        crate::git::backend::push_char(s, ((n as u8) + 48) as char);
        assert(final(s)@ =~= old(s)@ + decimal_text(n as nat));
    } else {
        push_decimal_text(s, n / 10);
        crate::git::backend::push_char(s, (((n % 10) as u8) + 48) as char);
        assert(decimal_text(n as nat) =~= decimal_text((n / 10) as nat).push(
            (((n % 10) as u8) + 48) as char,
        ));
        assert(final(s)@ =~= old(s)@ + decimal_text(n as nat));
    }
}

/// Appends `<name> <email> <timestamp> <tz-offset>`.
fn push_person(s: &mut String, p: &PersonInfo)
    ensures
        final(s)@ == old(s)@ + person_text(p@),
{
    let ghost start = s@;
    s.append(p.name.as_str());
    crate::git::backend::push_char(s, ' ');
    s.append(p.email.as_str());
    crate::git::backend::push_char(s, ' ');
    let t = p.timestamp;
    if t < 0 {
        crate::git::backend::push_char(s, '-');
        push_decimal_text(s, (0i128 - t as i128) as u64);
    } else {
        push_decimal_text(s, t as u64);
    }
    crate::git::backend::push_char(s, ' ');
    let z = p.timezone_offset;
    let m: u64 = if z < 0 {
        crate::git::backend::push_char(s, '-');
        (0i64 - z as i64) as u64
    } else {
        crate::git::backend::push_char(s, '+');
        z as u64
    };
    let zeros: u64 = if m < 10 {
        3
    } else if m < 100 {
        2
    } else if m < 1000 {
        1
    } else {
        0
    };
    let mut k: u64 = 0;
    let ghost mid = s@;
    while k < zeros
        invariant
            k <= zeros,
            s@ == mid + Seq::new(k as nat, |i: int| '0'),
        decreases zeros - k,
    {
        crate::git::backend::push_char(s, '0');
        k = k + 1;
        assert(s@ =~= mid + Seq::new(k as nat, |i: int| '0'));
    }
    push_decimal_text(s, m);
    assert(final(s)@ =~= start + person_text(p@));
}

/// The payload of a commit object.
pub fn commit_payload(
    tree: &crate::git::objects::Hash,
    parent: &Option<crate::git::objects::Hash>,
    author: &PersonInfo,
    committer: &PersonInfo,
    message: &str,
) -> (r: Vec<u8>)
    ensures
        r@ == encode_utf8(commit_text(tree@, opt_hash_view(*parent), author@, committer@, message@)),
{
    proof {
        reveal_strlit("tree ");
        reveal_strlit("\n");
        reveal_strlit("parent ");
        reveal_strlit("author ");
        reveal_strlit("committer ");
        reveal_strlit("\n\n");
    }
    let mut text = String::new();
    let ghost t0 = text@;
    text.append("tree ");
    push_hex(&mut text, tree);
    text.append("\n");
    let ghost t1 = text@;
    match parent {
        Some(p) => {
            text.append("parent ");
            push_hex(&mut text, p);
            text.append("\n");
        },
        None => {},
    }
    let ghost t2 = text@;
    text.append("author ");
    push_person(&mut text, author);
    text.append("\n");
    text.append("committer ");
    push_person(&mut text, committer);
    text.append("\n\n");
    text.append(message);
    assert(text@ =~= commit_text(tree@, opt_hash_view(*parent), author@, committer@, message@));
    let mut r: Vec<u8> = Vec::new();
    r.extend_from_slice(text.as_str().as_bytes());
    assert(r@ =~= encode_utf8(text@));
    r
}

/// Builds a commit of `tree` with the placeholder authorship, and prepares
/// it for storage.
pub fn commit_tree(
    tree: &crate::git::objects::Hash,
    message: &str,
    parent: &Option<crate::git::objects::Hash>,
) -> (r: StoredObject)
    ensures
        stored_for(
            r,
            serialized(
                commit_tag(),
                encode_utf8(
                    commit_text(
                        tree@,
                        opt_hash_view(*parent),
                        default_person(),
                        default_person(),
                        message@,
                    ),
                ),
            ),
        ),
{
    let author = PersonInfo::default();
    let committer = PersonInfo::default();
    let payload = commit_payload(tree, parent, &author, &committer, message);
    let with_header = crate::git::objects::GitObject::add_commit_header(&payload);
    store_bytes(&with_header)
}

} // verus!

verus! {

/// Reads `<name> <email> <timestamp> <tz-offset>`, splitting at the last
/// three spaces.
#[verifier::opaque]
pub open spec fn parse_person(line: Seq<u8>) -> Option<PersonView> {
    match last_index(line, 32u8) {
        None => None,
        Some(k3) => {
            let front = line.subrange(0, k3);
            let tz = line.subrange(k3 + 1, line.len() as int);
            match last_index(front, 32u8) {
                None => None,
                Some(k2) => {
                    let id = front.subrange(0, k2);
                    let ts = front.subrange(k2 + 1, front.len() as int);
                    match last_index(id, 32u8) {
                        None => None,
                        Some(k1) => {
                            let name = id.subrange(0, k1);
                            let email = id.subrange(k1 + 1, id.len() as int);
                            match (signed_value(ts), offset_value(tz)) {
                                (Some(t), Some(z)) => if valid_utf8(name) && valid_utf8(email)
                                    && i64::MIN <= t <= i64::MAX && i32::MIN <= z <= i32::MAX {
                                    Some(
                                        PersonView {
                                            name: decode_utf8(name),
                                            email: decode_utf8(email),
                                            timestamp: t as i64,
                                            timezone_offset: z as i32,
                                        },
                                    )
                                } else {
                                    None
                                },
                                _ => None,
                            }
                        },
                    }
                },
            }
        },
    }
}

/// A line `<tag><40 hex digits>\n` at the start of `s`: the hash and the
/// length of the line.
#[verifier::opaque]
pub open spec fn parse_hash_line(s: Seq<u8>, tag: Seq<u8>) -> Option<(Seq<u8>, int)> {
    let n = tag.len() as int;
    if starts_with(s, tag) && s.len() >= n + 41 && s[n + 40] == 10u8 {
        match hex_decode(s.subrange(n, n + 40)) {
            Some(h) => Some((h, n + 41)),
            None => None,
        }
    } else {
        None
    }
}

/// A line `<tag><person>\n` at the start of `s`: the person and the length
/// of the line.
#[verifier::opaque]
pub open spec fn parse_person_line(s: Seq<u8>, tag: Seq<u8>) -> Option<(PersonView, int)> {
    let n = tag.len() as int;
    if starts_with(s, tag) {
        let rest = s.subrange(n, s.len() as int);
        match first_index(rest, 10u8) {
            Some(nl) => match parse_person(rest.subrange(0, nl)) {
                Some(p) => Some((p, n + nl + 1)),
                None => None,
            },
            None => None,
        }
    } else {
        None
    }
}

/// `"tree "`, `"parent "`, `"author "` and `"committer "`.
pub open spec fn tree_line_tag() -> Seq<u8> {
    seq![116u8, 114u8, 101u8, 101u8, 32u8]
}

pub open spec fn parent_line_tag() -> Seq<u8> {
    seq![112u8, 97u8, 114u8, 101u8, 110u8, 116u8, 32u8]
}

pub open spec fn author_line_tag() -> Seq<u8> {
    seq![97u8, 117u8, 116u8, 104u8, 111u8, 114u8, 32u8]
}

pub open spec fn committer_line_tag() -> Seq<u8> {
    seq![99u8, 111u8, 109u8, 109u8, 105u8, 116u8, 116u8, 101u8, 114u8, 32u8]
}

/// Decodes what follows the tree and parent lines of a commit: the author
/// and committer lines, a blank line, then the message.
#[verifier::opaque]
pub open spec fn parse_commit_tail(tree: Seq<u8>, parent: Option<Seq<u8>>, r2: Seq<u8>) -> Option<
    ObjectView,
> {
    match parse_person_line(r2, author_line_tag()) {
        None => None,
        Some((author, n3)) => {
            let r3 = r2.subrange(n3, r2.len() as int);
            match parse_person_line(r3, committer_line_tag()) {
                None => None,
                Some((committer, n4)) => {
                    let r4 = r3.subrange(n4, r3.len() as int);
                    if r4.len() > 0 && r4[0] == 10u8 && valid_utf8(r4.drop_first()) {
                        Some(
                            ObjectView::Commit {
                                tree,
                                parent,
                                author,
                                committer,
                                message: decode_utf8(r4.drop_first()),
                            },
                        )
                    } else {
                        None
                    }
                },
            }
        },
    }
}

/// Decodes a commit payload: the tree line, an optional parent line, the
/// author and committer lines, a blank line, then the message.
pub open spec fn parse_commit(p: Seq<u8>) -> Option<ObjectView> {
    match parse_hash_line(p, tree_line_tag()) {
        None => None,
        Some((tree, n1)) => {
            let r1 = p.subrange(n1, p.len() as int);
            match parse_hash_line(r1, parent_line_tag()) {
                Some((h, n2)) => parse_commit_tail(tree, Some(h), r1.subrange(n2, r1.len() as int)),
                None => parse_commit_tail(tree, None, r1),
            }
        },
    }
}

/// Text from UTF-8 bytes.
fn owned_text(b: &[u8]) -> (r: Option<String>)
    ensures
        match r {
            Some(t) => valid_utf8(b@) && t@ == decode_utf8(b@),
            None => !valid_utf8(b@),
        },
{
    match utf8_text(b) {
        Some(t) => Some(t.to_owned()),
        None => None,
    }
}

/// Reads `<name> <email> <timestamp> <tz-offset>`.
pub(crate) fn read_person(line: &[u8]) -> (r: Option<PersonInfo>)
    ensures
        match r {
            Some(p) => parse_person(line@) == Some(p@),
            None => parse_person(line@) is None,
        },
{
    reveal(parse_person);
    let k3 = match rfind_byte(line, 32u8) {
        Some(k) => k,
        None => return None,
    };
    let total: usize = line.len();
    let front = &line[0..k3];
    let tz = &line[k3 + 1..total];
    let k2 = match rfind_byte(front, 32u8) {
        Some(k) => k,
        None => return None,
    };
    let id = &front[0..k2];
    let ts = &front[k2 + 1..k3];
    assert(ts@ =~= front@.subrange(k2 + 1, front@.len() as int));
    let k1 = match rfind_byte(id, 32u8) {
        Some(k) => k,
        None => return None,
    };
    let name_bytes = &id[0..k1];
    let email_bytes = &id[k1 + 1..k2];
    assert(email_bytes@ =~= id@.subrange(k1 + 1, id@.len() as int));
    let timestamp = parse_timestamp(ts);
    let timezone_offset = parse_offset(tz);
    let timestamp = match timestamp {
        Some(t) => t,
        None => return None,
    };
    let timezone_offset = match timezone_offset {
        Some(z) => z,
        None => return None,
    };
    let name = match owned_text(name_bytes) {
        Some(t) => t,
        None => return None,
    };
    let email = match owned_text(email_bytes) {
        Some(t) => t,
        None => return None,
    };
    Some(PersonInfo { name, email, timestamp, timezone_offset })
}

} // verus!

verus! {

/// Reads a line `<tag><40 hex digits>\n` at the start of `s`.
fn read_hash_line(s: &[u8], tag: &[u8]) -> (r: Option<(crate::git::objects::Hash, usize)>)
    ensures
        match r {
            Some((h, n)) => n <= s@.len() && parse_hash_line(s@, tag@) == Some((h@, n as int)),
            None => parse_hash_line(s@, tag@) is None,
        },
{
    reveal(parse_hash_line);
    let n = tag.len();
    if !has_prefix(s, tag) || s.len() - n < 41 || s[n + 40] != 10u8 {
        return None;
    }
    match hash_from_hex_bytes(&s[n..n + 40]) {
        Some(h) => Some((h, n + 41)),
        None => None,
    }
}

/// Reads a line `<tag><person>\n` at the start of `s`.
fn read_person_line(s: &[u8], tag: &[u8]) -> (r: Option<(PersonInfo, usize)>)
    ensures
        match r {
            Some((p, n)) => n <= s@.len() && parse_person_line(s@, tag@) == Some((p@, n as int)),
            None => parse_person_line(s@, tag@) is None,
        },
{
    reveal(parse_person_line);
    if !has_prefix(s, tag) {
        return None;
    }
    let n = tag.len();
    let total: usize = s.len();
    let rest = &s[n..total];
    let nl = match find_byte(rest, 0, 10u8) {
        Some(i) => i,
        None => {
            assert(rest@.subrange(0, rest@.len() as int) =~= rest@);
            return None;
        },
    };
    assert(rest@.subrange(0, rest@.len() as int) =~= rest@);
    match read_person(&rest[0..nl]) {
        Some(p) => Some((p, n + nl + 1)),
        None => None,
    }
}

/// Decodes what follows the tree and parent lines of a commit.
fn read_commit_tail(
    tree: crate::git::objects::Hash,
    parent: Option<crate::git::objects::Hash>,
    r2: &[u8],
) -> (r: Option<GitObject>)
    ensures
        match r {
            Some(o) => parse_commit_tail(tree@, opt_hash_view(parent), r2@) == Some(o@),
            None => parse_commit_tail(tree@, opt_hash_view(parent), r2@) is None,
        },
{
    reveal(parse_commit_tail);
    proof {
        reveal_strlit("author ");
        reveal_strlit("committer ");
        lemma_ascii_literal("author ");
        lemma_ascii_literal("committer ");
        assert("author ".spec_bytes() =~= author_line_tag());
        assert("committer ".spec_bytes() =~= committer_line_tag());
    }
    let (author, n3) = match read_person_line(r2, "author ".as_bytes()) {
        Some(x) => x,
        None => return None,
    };
    let total2: usize = r2.len();
    let r3 = &r2[n3..total2];
    let (committer, n4) = match read_person_line(r3, "committer ".as_bytes()) {
        Some(x) => x,
        None => return None,
    };
    let total3: usize = r3.len();
    let r4 = &r3[n4..total3];
    let total4: usize = r4.len();
    if total4 == 0 || r4[0] != 10u8 {
        return None;
    }
    let body = &r4[1..total4];
    assert(body@ =~= r4@.drop_first());
    let message = match owned_text(body) {
        Some(t) => t,
        None => return None,
    };
    Some(GitObject::Commit { tree, parent, author, committer, message })
}

/// Decodes a commit payload.
pub(crate) fn read_commit(p: &[u8]) -> (r: Option<GitObject>)
    ensures
        match r {
            Some(o) => parse_commit(p@) == Some(o@),
            None => parse_commit(p@) is None,
        },
{
    proof {
        reveal_strlit("tree ");
        reveal_strlit("parent ");
        lemma_ascii_literal("tree ");
        lemma_ascii_literal("parent ");
        assert("tree ".spec_bytes() =~= tree_line_tag());
        assert("parent ".spec_bytes() =~= parent_line_tag());
    }
    let (tree, n1) = match read_hash_line(p, "tree ".as_bytes()) {
        Some(x) => x,
        None => return None,
    };
    let total: usize = p.len();
    let r1 = &p[n1..total];
    match read_hash_line(r1, "parent ".as_bytes()) {
        Some((h, n2)) => {
            let total1: usize = r1.len();
            read_commit_tail(tree, Some(h), &r1[n2..total1])
        },
        None => read_commit_tail(tree, None, r1),
    }
}

} // verus!
