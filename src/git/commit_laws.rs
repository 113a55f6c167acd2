use vstd::prelude::*;
use vstd::utf8::{encode_utf8, is_ascii_chars};

use crate::git::commit::{
    author_line_tag, commit_text, committer_line_tag, decimal_text, parent_line_tag,
    parse_commit, parse_commit_tail, parse_hash_line, parse_person, parse_person_line, person_text, signed_text,
    tree_line_tag, tz_text,
};
use crate::git::fields::{
    all_digits, digits_value, hex_decode, hex_val, is_last_index, last_index,
    lemma_decimal_digits_value, offset_value, signed_value,
};
use crate::git::objects::{
    GitError, ObjectView, PersonView, blob_tag, commit_tag, decimal, tree_tag, decode_object, first_index,
    lemma_decimal_digits, lemma_first_index_is, lemma_header_declares_length, lemma_header_end,
    serialized, starts_with,
};
use crate::git::{hex_digit, hex_of};

verus! {

/// UTF-8 encoding distributes over concatenation.
pub broadcast proof fn lemma_encode_concat(a: Seq<char>, b: Seq<char>)
    ensures
        #[trigger] encode_utf8(a + b) == encode_utf8(a) + encode_utf8(b),
    decreases a.len(),
{
    if a.len() == 0 {
        assert(a + b =~= b);
    } else {
        assert((a + b).drop_first() =~= a.drop_first() + b);
        lemma_encode_concat(a.drop_first(), b);
    }
}

/// ASCII text encodes one byte per character.
proof fn lemma_ascii_encode(a: Seq<char>)
    requires
        is_ascii_chars(a),
    ensures
        encode_utf8(a) == a.map_values(|c: char| c as u8),
{
    vstd::utf8::is_ascii_chars_encode_utf8(a);
    assert(encode_utf8(a) =~= a.map_values(|c: char| c as u8));
}

proof fn lemma_decimal_text_encode(n: nat)
    ensures
        encode_utf8(decimal_text(n)) == decimal(n),
{
    lemma_decimal_digits(n);
    let t = decimal_text(n);
    assert(is_ascii_chars(t));
    lemma_ascii_encode(t);
    assert(t.map_values(|c: char| c as u8) =~= decimal(n));
}

proof fn lemma_last_index_is(s: Seq<u8>, b: u8, i: int)
    requires
        is_last_index(s, b, i),
    ensures
        last_index(s, b) == Some(i),
{
    let k = choose|k: int| is_last_index(s, b, k);
    assert(is_last_index(s, b, k));
    if k < i {
        assert(s[i] != b);
    } else if i < k {
        assert(s[k] != b);
    }
}

/// Leading zeros do not change the value of a run of digits.
proof fn lemma_zeros_value(k: nat, s: Seq<u8>)
    ensures
        digits_value(Seq::new(k, |i: int| 48u8) + s) == digits_value(s),
    decreases s.len(), k,
{
    let z = Seq::new(k, |i: int| 48u8);
    if s.len() == 0 {
        assert(z + s =~= z);
        if k > 0 {
            assert(z.drop_last() =~= Seq::new((k - 1) as nat, |i: int| 48u8));
            lemma_zeros_value((k - 1) as nat, s);
            assert(Seq::new((k - 1) as nat, |i: int| 48u8) + s =~= Seq::new(
                (k - 1) as nat,
                |i: int| 48u8,
            ));
        }
    } else {
        assert((z + s).drop_last() =~= z + s.drop_last());
        lemma_zeros_value(k, s.drop_last());
    }
}

/// The bytes of a signed decimal read back as the number.
proof fn lemma_signed_round_trip(t: int)
    ensures
        signed_value(encode_utf8(signed_text(t))) == Some(t),
        forall|i: int|
            0 <= i < encode_utf8(signed_text(t)).len() ==> #[trigger] encode_utf8(
                signed_text(t),
            )[i] != 32u8 && encode_utf8(signed_text(t))[i] != 10u8,
{
    broadcast use lemma_encode_concat;

    let m: nat = if t < 0 {
        (-t) as nat
    } else {
        t as nat
    };
    lemma_decimal_text_encode(m);
    lemma_decimal_digits_value(m);
    lemma_decimal_digits(m);
    let e = encode_utf8(signed_text(t));
    if t < 0 {
        lemma_ascii_encode(seq!['-']);
        assert(e =~= seq![45u8] + decimal(m));
        assert(e.drop_first() =~= decimal(m));
    } else {
        assert(e == decimal(m));
    }
}

/// The bytes of a time zone offset read back as the offset.
proof fn lemma_offset_round_trip(z: int)
    ensures
        offset_value(encode_utf8(tz_text(z))) == Some(z),
        forall|i: int|
            0 <= i < encode_utf8(tz_text(z)).len() ==> #[trigger] encode_utf8(tz_text(z))[i]
                != 32u8 && encode_utf8(tz_text(z))[i] != 10u8,
{
    broadcast use lemma_encode_concat;

    let m: nat = if z < 0 {
        (-z) as nat
    } else {
        z as nat
    };
    let k = crate::git::commit::pad_width(m);
    let zc = Seq::new(k, |i: int| '0');
    let zb = Seq::new(k, |i: int| 48u8);
    lemma_decimal_text_encode(m);
    lemma_decimal_digits_value(m);
    lemma_decimal_digits(m);
    lemma_ascii_encode(zc);
    assert(zc.map_values(|c: char| c as u8) =~= zb);
    let sign = if z < 0 {
        seq!['-']
    } else {
        seq!['+']
    };
    lemma_ascii_encode(sign);
    let e = encode_utf8(tz_text(z));
    assert(tz_text(z) == sign + zc + decimal_text(m));
    assert(e =~= encode_utf8(sign) + zb + decimal(m));
    assert(e.drop_first() =~= zb + decimal(m));
    lemma_zeros_value(k, decimal(m));
    assert forall|i: int| 0 <= i < e.drop_first().len() implies 48 <= #[trigger] e.drop_first()[i]
        <= 57 by {
        if i >= k {
            assert(e.drop_first()[i] == decimal(m)[i - k]);
        }
    }
}

} // verus!

verus! {

/// Hexadecimal text reads back as the bytes it renders.
proof fn lemma_hex_decode_round_trip(h: Seq<u8>)
    requires
        h.len() == 20,
    ensures
        hex_decode(encode_utf8(hex_of(h))) == Some(h),
        encode_utf8(hex_of(h)).len() == 40,
{
    let e = encode_utf8(hex_of(h));
    crate::git::lemma_hex_ascii(h);
    assert forall|i: int| 0 <= i < 40 implies (#[trigger] hex_val(e[i])) is Some && hex_val(e[i])
        == Some(
        (if i % 2 == 0 {
            h[i / 2] / 16
        } else {
            h[i / 2] % 16
        }) as nat,
    ) by {
        assert(e[i] == hex_of(h)[i] as u8);
    }
    assert forall|i: int| 0 <= i < 20 implies #[trigger] h[i] == (hex_val(e[2 * i])->Some_0 * 16
        + hex_val(e[2 * i + 1])->Some_0) as u8 by {
        assert((2 * i) / 2 == i && (2 * i + 1) / 2 == i);
        assert((2 * i) % 2 == 0 && (2 * i + 1) % 2 == 1);
        assert(h[i] == (h[i] / 16) * 16 + h[i] % 16);
    }
    assert(hex_decode(e)->Some_0 =~= h);
}

/// An authorship record whose fields cannot be confused with the
/// separators around them: no line break in the name or the email, and
/// no space in the email.
pub open spec fn person_wf(p: PersonView) -> bool {
    &&& !encode_utf8(p.name).contains(10u8)
    &&& !encode_utf8(p.email).contains(10u8)
    &&& !encode_utf8(p.email).contains(32u8)
}

/// The bytes of an authorship line, field by field.
proof fn lemma_person_bytes(p: PersonView)
    ensures
        encode_utf8(person_text(p)) == encode_utf8(p.name) + seq![32u8] + encode_utf8(p.email)
            + seq![32u8] + encode_utf8(signed_text(p.timestamp as int)) + seq![32u8]
            + encode_utf8(tz_text(p.timezone_offset as int)),
{
    broadcast use lemma_encode_concat;

    lemma_ascii_encode(seq![' ']);
    assert(seq![' '].map_values(|c: char| c as u8) =~= seq![32u8]);
}

/// `<name> <email> <timestamp> <tz-offset>` splits back into its fields.
proof fn lemma_person_parse(p: PersonView, n: Seq<u8>, e: Seq<u8>, st: Seq<u8>, zt: Seq<u8>)
    requires
        n == encode_utf8(p.name),
        e == encode_utf8(p.email),
        !e.contains(32u8),
        signed_value(st) == Some(p.timestamp as int),
        offset_value(zt) == Some(p.timezone_offset as int),
        forall|i: int| 0 <= i < st.len() ==> #[trigger] st[i] != 32u8,
        forall|i: int| 0 <= i < zt.len() ==> #[trigger] zt[i] != 32u8,
    ensures
        parse_person(n + seq![32u8] + e + seq![32u8] + st + seq![32u8] + zt) == Some(p),
{
    reveal(parse_person);
    let sp = seq![32u8];
    let line = n + sp + e + sp + st + sp + zt;
    let k3: int = (n.len() + 1 + e.len() + 1 + st.len()) as int;
    assert forall|j: int| k3 < j < line.len() implies line[j] != 32u8 by {
        assert(line[j] == zt[j - k3 - 1]);
    }
    lemma_last_index_is(line, 32u8, k3);
    let front = line.subrange(0, k3);
    assert(front =~= n + sp + e + sp + st);
    assert(line.subrange(k3 + 1, line.len() as int) =~= zt);
    let k2: int = (n.len() + 1 + e.len()) as int;
    assert forall|j: int| k2 < j < front.len() implies front[j] != 32u8 by {
        assert(front[j] == st[j - k2 - 1]);
    }
    lemma_last_index_is(front, 32u8, k2);
    let id = front.subrange(0, k2);
    assert(id =~= n + sp + e);
    assert(front.subrange(k2 + 1, front.len() as int) =~= st);
    let k1: int = n.len() as int;
    assert forall|j: int| k1 < j < id.len() implies id[j] != 32u8 by {
        assert(id[j] == e[j - k1 - 1]);
        if id[j] == 32u8 {
            assert(e.contains(32u8));
        }
    }
    lemma_last_index_is(id, 32u8, k1);
    assert(id.subrange(0, k1) =~= n);
    assert(id.subrange(k1 + 1, id.len() as int) =~= e);
    vstd::utf8::encode_utf8_valid_utf8(p.name);
    vstd::utf8::encode_utf8_valid_utf8(p.email);
    vstd::utf8::encode_utf8_decode_utf8(p.name);
    vstd::utf8::encode_utf8_decode_utf8(p.email);
}

/// An authorship line reads back as the record it was written from, and
/// holds no line break.
proof fn lemma_person_round_trip(p: PersonView)
    requires
        person_wf(p),
    ensures
        parse_person(encode_utf8(person_text(p))) == Some(p),
        !encode_utf8(person_text(p)).contains(10u8),
{
    let n = encode_utf8(p.name);
    let e = encode_utf8(p.email);
    let st = encode_utf8(signed_text(p.timestamp as int));
    let zt = encode_utf8(tz_text(p.timezone_offset as int));
    lemma_signed_round_trip(p.timestamp as int);
    lemma_offset_round_trip(p.timezone_offset as int);
    lemma_person_bytes(p);
    lemma_person_parse(p, n, e, st, zt);
    let line = encode_utf8(person_text(p));
    let k2: int = (n.len() + 1 + e.len()) as int;
    let k3: int = (n.len() + 1 + e.len() + 1 + st.len()) as int;
    if line.contains(10u8) {
        let j = choose|j: int| 0 <= j < line.len() && line[j] == 10u8;
        if j < n.len() {
            assert(n[j] == 10u8);
            assert(n.contains(10u8));
        } else if n.len() < j < k2 {
            assert(e[j - n.len() - 1] == 10u8);
            assert(e.contains(10u8));
        } else if k2 < j < k3 {
            assert(st[j - k2 - 1] == 10u8);
        } else if k3 < j {
            assert(zt[j - k3 - 1] == 10u8);
        }
    }
}

} // verus!

verus! {

/// A line `<tag><hex hash>\n` reads back as the hash.
proof fn lemma_hash_line(tag: Seq<u8>, h: Seq<u8>, rest: Seq<u8>)
    requires
        h.len() == 20,
    ensures
        parse_hash_line(tag + encode_utf8(hex_of(h)) + seq![10u8] + rest, tag) == Some(
            (h, tag.len() + 41 as int),
        ),
        (tag + encode_utf8(hex_of(h)) + seq![10u8] + rest).subrange(
            tag.len() + 41 as int,
            (tag + encode_utf8(hex_of(h)) + seq![10u8] + rest).len() as int,
        ) == rest,
{
    reveal(parse_hash_line);
    let x = encode_utf8(hex_of(h));
    let s = tag + x + seq![10u8] + rest;
    lemma_hex_decode_round_trip(h);
    let n = tag.len() as int;
    assert(s.subrange(0, n) =~= tag);
    assert(s.subrange(n, n + 40) =~= x);
    assert(s[n + 40] == 10u8);
    assert(s.subrange(n + 41, s.len() as int) =~= rest);
}

/// A line `<tag><person>\n` reads back as the record.
proof fn lemma_person_line(tag: Seq<u8>, p: PersonView, rest: Seq<u8>)
    requires
        person_wf(p),
    ensures
        parse_person_line(tag + encode_utf8(person_text(p)) + seq![10u8] + rest, tag) == Some(
            (p, (tag.len() + encode_utf8(person_text(p)).len() + 1) as int),
        ),
        (tag + encode_utf8(person_text(p)) + seq![10u8] + rest).subrange(
            (tag.len() + encode_utf8(person_text(p)).len() + 1) as int,
            (tag + encode_utf8(person_text(p)) + seq![10u8] + rest).len() as int,
        ) == rest,
{
    reveal(parse_person_line);
    let a = encode_utf8(person_text(p));
    let s = tag + a + seq![10u8] + rest;
    lemma_person_round_trip(p);
    let n = tag.len() as int;
    assert(s.subrange(0, n) =~= tag);
    let r = s.subrange(n, s.len() as int);
    assert(r =~= a + seq![10u8] + rest);
    assert forall|j: int| 0 <= j < a.len() implies r[j] != 10u8 by {
        assert(r[j] == a[j]);
        if r[j] == 10u8 {
            assert(a.contains(10u8));
        }
    }
    lemma_first_index_is(r, 10u8, a.len() as int);
    assert(r.subrange(0, a.len() as int) =~= a);
    assert(s.subrange(n + a.len() + 1, s.len() as int) =~= rest);
}

/// `"tree "`, `"parent "`, `"author "`, `"committer "` and the line breaks,
/// as bytes.
proof fn lemma_commit_literals()
    ensures
        encode_utf8(seq!['t', 'r', 'e', 'e', ' ']) == tree_line_tag(),
        encode_utf8(seq!['p', 'a', 'r', 'e', 'n', 't', ' ']) == parent_line_tag(),
        encode_utf8(seq!['a', 'u', 't', 'h', 'o', 'r', ' ']) == author_line_tag(),
        encode_utf8(seq!['c', 'o', 'm', 'm', 'i', 't', 't', 'e', 'r', ' '])
            == committer_line_tag(),
        encode_utf8(seq!['\n']) == seq![10u8],
        encode_utf8(seq!['\n', '\n']) == seq![10u8, 10u8],
{
    let a = seq!['t', 'r', 'e', 'e', ' '];
    let b = seq!['p', 'a', 'r', 'e', 'n', 't', ' '];
    let c = seq!['a', 'u', 't', 'h', 'o', 'r', ' '];
    let d = seq!['c', 'o', 'm', 'm', 'i', 't', 't', 'e', 'r', ' '];
    let e = seq!['\n'];
    let f = seq!['\n', '\n'];
    lemma_ascii_encode(a);
    lemma_ascii_encode(b);
    lemma_ascii_encode(c);
    lemma_ascii_encode(d);
    lemma_ascii_encode(e);
    lemma_ascii_encode(f);
    assert(a.map_values(|x: char| x as u8) =~= tree_line_tag());
    assert(b.map_values(|x: char| x as u8) =~= parent_line_tag());
    assert(c.map_values(|x: char| x as u8) =~= author_line_tag());
    assert(d.map_values(|x: char| x as u8) =~= committer_line_tag());
    assert(e.map_values(|x: char| x as u8) =~= seq![10u8]);
    assert(f.map_values(|x: char| x as u8) =~= seq![10u8, 10u8]);
}

/// The bytes of a commit payload, line by line.
proof fn lemma_commit_bytes(
    tree: Seq<u8>,
    parent: Option<Seq<u8>>,
    author: PersonView,
    committer: PersonView,
    message: Seq<char>,
)
    ensures
        encode_utf8(commit_text(tree, parent, author, committer, message)) == tree_line_tag()
            + encode_utf8(hex_of(tree)) + seq![10u8] + (match parent {
            Some(p) => parent_line_tag() + encode_utf8(hex_of(p)) + seq![10u8],
            None => Seq::empty(),
        }) + author_line_tag() + encode_utf8(person_text(author)) + seq![10u8]
            + committer_line_tag() + encode_utf8(person_text(committer)) + seq![10u8, 10u8]
            + encode_utf8(message),
{
    broadcast use lemma_encode_concat;

    lemma_commit_literals();
    assert(encode_utf8(Seq::<char>::empty()) == Seq::<u8>::empty());
}

} // verus!

verus! {

/// A line that starts with `a` is no parent line.
proof fn lemma_no_parent_line(s: Seq<u8>)
    requires
        s.len() > 0,
        s[0] == 97u8,
    ensures
        parse_hash_line(s, parent_line_tag()) is None,
{
    reveal(parse_hash_line);
    if s.len() >= 7 {
        assert(s.subrange(0, 7)[0] != parent_line_tag()[0]);
    }
}

/// The author line, the committer line, the blank line and the message
/// read back as the commit's remaining fields.
proof fn lemma_commit_tail_round_trip(
    tree: Seq<u8>,
    parent: Option<Seq<u8>>,
    author: PersonView,
    committer: PersonView,
    message: Seq<char>,
)
    requires
        person_wf(author),
        person_wf(committer),
    ensures
        parse_commit_tail(
            tree,
            parent,
            author_line_tag() + encode_utf8(person_text(author)) + seq![10u8] + (
            committer_line_tag() + encode_utf8(person_text(committer)) + seq![10u8] + (seq![10u8]
                + encode_utf8(message))),
        ) == Some(ObjectView::Commit { tree, parent, author, committer, message }),
{
    reveal(parse_commit_tail);
    let m = encode_utf8(message);
    let r4 = seq![10u8] + m;
    let r3 = committer_line_tag() + encode_utf8(person_text(committer)) + seq![10u8] + r4;
    lemma_person_line(author_line_tag(), author, r3);
    lemma_person_line(committer_line_tag(), committer, r4);
    assert(r4.drop_first() =~= m);
    vstd::utf8::encode_utf8_valid_utf8(message);
    vstd::utf8::encode_utf8_decode_utf8(message);
}

/// A commit payload reads back as the commit it was written from.
proof fn lemma_commit_payload_round_trip(
    tree: Seq<u8>,
    parent: Option<Seq<u8>>,
    author: PersonView,
    committer: PersonView,
    message: Seq<char>,
)
    requires
        tree.len() == 20,
        parent matches Some(p) ==> p.len() == 20,
        person_wf(author),
        person_wf(committer),
    ensures
        parse_commit(encode_utf8(commit_text(tree, parent, author, committer, message))) == Some(
            ObjectView::Commit { tree, parent, author, committer, message },
        ),
{
    lemma_commit_bytes(tree, parent, author, committer, message);
    let r2 = author_line_tag() + encode_utf8(person_text(author)) + seq![10u8] + (
    committer_line_tag() + encode_utf8(person_text(committer)) + seq![10u8] + (seq![10u8]
        + encode_utf8(message)));
    let r1 = match parent {
        Some(p) => parent_line_tag() + encode_utf8(hex_of(p)) + seq![10u8] + r2,
        None => r2,
    };
    let bytes = tree_line_tag() + encode_utf8(hex_of(tree)) + seq![10u8] + r1;
    assert(encode_utf8(commit_text(tree, parent, author, committer, message)) =~= bytes);
    lemma_hash_line(tree_line_tag(), tree, r1);
    lemma_commit_tail_round_trip(tree, parent, author, committer, message);
    match parent {
        Some(p) => {
            lemma_hash_line(parent_line_tag(), p, r2);
        },
        None => {
            assert(r2[0] == 97u8);
            lemma_no_parent_line(r2);
        },
    }
}

/// Encoding a commit and decoding it gives the commit back, where the
/// hashes are 20 bytes long and the authorship fields cannot be confused
/// with the separators around them.
pub proof fn lemma_commit_round_trip(
    tree: Seq<u8>,
    parent: Option<Seq<u8>>,
    author: PersonView,
    committer: PersonView,
    message: Seq<char>,
)
    requires
        tree.len() == 20,
        parent matches Some(p) ==> p.len() == 20,
        person_wf(author),
        person_wf(committer),
    ensures
        decode_object(
            serialized(
                commit_tag(),
                encode_utf8(commit_text(tree, parent, author, committer, message)),
            ),
        ) == Ok::<ObjectView, GitError>(ObjectView::Commit { tree, parent, author, committer, message }),
{
    let payload = encode_utf8(commit_text(tree, parent, author, committer, message));
    let d = serialized(commit_tag(), payload);
    lemma_header_end(commit_tag(), payload);
    lemma_header_declares_length(commit_tag(), payload);
    assert(d.subrange(0, 7) =~= commit_tag().push(32u8));
    assert(d.subrange(0, 5)[0] != blob_tag().push(32u8)[0]);
    assert(d.subrange(0, 5)[0] != tree_tag().push(32u8)[0]);
    lemma_commit_payload_round_trip(tree, parent, author, committer, message);
}

} // verus!
