use vstd::multiset::Multiset;
use vstd::prelude::*;
use vstd::seq_lib::group_to_multiset_ensures;
use vstd::utf8::{encode_utf8, encode_utf8_decode_utf8};

use crate::git::objects::{EntryView, TreeEntry, name_key, serialized, tree_payload, tree_tag};
use crate::git::order::{bytes_lt, compare_bytes, lemma_bytes_lt_total};
use crate::git::StoredObject;

verus! {

/// `s` lists exactly the entries of `m`, ordered by name bytes.
pub open spec fn is_sorted_listing(m: Multiset<EntryView>, s: Seq<EntryView>) -> bool {
    &&& s.to_multiset() == m
    &&& forall|i: int, j: int|
        0 <= i < j < s.len() ==> !bytes_lt(name_key(s[j]), name_key(s[i]))
}

/// No two different entries of `m` share a name, as in a directory.
pub open spec fn names_unique(m: Multiset<EntryView>) -> bool {
    forall|x: EntryView, y: EntryView|
        m.contains(x) && m.contains(y) && x.name == y.name ==> x == y
}

/// A name a tree entry can carry: no `/` and no null byte.
pub open spec fn name_ok(e: EntryView) -> bool {
    &&& !e.name.contains('/')
    &&& !encode_utf8(e.name).contains(0u8)
}

/// The entries that go into a tree: all but the store's own directory.
pub open spec fn kept_entries(es: Seq<EntryView>) -> Seq<EntryView>
    decreases es.len(),
{
    if es.len() == 0 {
        es
    } else if es.last().name == crate::git::store_dir_name() {
        kept_entries(es.drop_last())
    } else {
        kept_entries(es.drop_last()).push(es.last())
    }
}

/// No two entries of `es` share a name, as in a directory.
pub open spec fn names_distinct(es: Seq<EntryView>) -> bool {
    forall|i: int, j: int| 0 <= i < es.len() && 0 <= j < es.len() && i != j ==> es[i].name != es[j].name
}

/// `r` stores the tree object made of the entries `es`: all of them but the
/// store's own directory, in name order.
pub open spec fn stores_tree(r: StoredObject, es: Seq<EntryView>) -> bool {
    exists|s: Seq<EntryView>|
        is_sorted_listing(kept_entries(es).to_multiset(), s) && (forall|i: int|
            0 <= i < s.len() ==> (#[trigger] s[i]).name != crate::git::store_dir_name())
            && crate::git::stored_for(r, serialized(tree_tag(), tree_payload(s)))
}

/// Orders two entries by the bytes of their names.
pub fn compare_names(a: &TreeEntry, b: &TreeEntry) -> (r: core::cmp::Ordering)
    ensures
        (r == core::cmp::Ordering::Less) == bytes_lt(name_key(a@), name_key(b@)),
        (r == core::cmp::Ordering::Equal) == (name_key(a@) == name_key(b@)),
        (r == core::cmp::Ordering::Greater) == bytes_lt(name_key(b@), name_key(a@)),
{
    compare_bytes(a.name.as_str().as_bytes(), b.name.as_str().as_bytes())
}

/// Entries with uniquely named members have exactly one listing in name
/// order.
pub proof fn lemma_sorted_listing_unique(m: Multiset<EntryView>, a: Seq<EntryView>, b: Seq<EntryView>)
    requires
        names_unique(m),
        is_sorted_listing(m, a),
        is_sorted_listing(m, b),
    ensures
        a == b,
    decreases a.len(),
{
    broadcast use group_to_multiset_ensures;

    vstd::seq_lib::to_multiset_len(a);
    vstd::seq_lib::to_multiset_len(b);
    if a.len() == 0 {
        assert(b.len() == 0);
        assert(a =~= b);
    } else {
        assert(b.len() == a.len());
        let x = a[0];
        let y = b[0];
        assert(a.contains(x));
        assert(m.count(x) > 0);
        assert(b.contains(y));
        assert(m.count(y) > 0);
        if x != y {
            assert(b.contains(x));
            let k = choose|k: int| 0 <= k < b.len() && b[k] == x;
            assert(a.contains(y));
            let j = choose|j: int| 0 <= j < a.len() && a[j] == y;
            assert(k > 0 && j > 0);
            assert(!bytes_lt(name_key(x), name_key(y)));
            assert(!bytes_lt(name_key(y), name_key(x)));
            if name_key(x) != name_key(y) {
                lemma_bytes_lt_total(name_key(x), name_key(y));
            }
            encode_utf8_decode_utf8(x.name);
            encode_utf8_decode_utf8(y.name);
            assert(m.contains(x) && m.contains(y));
        }
        let m2 = m.remove(x);
        assert(a.remove(0) =~= a.drop_first());
        assert(b.remove(0) =~= b.drop_first());
        assert(a.drop_first().to_multiset() == m2);
        assert(b.drop_first().to_multiset() == m2);
        assert forall|p: EntryView, q: EntryView|
            m2.contains(p) && m2.contains(q) && p.name == q.name implies p == q by {
            assert(m.contains(p) && m.contains(q));
        }
        assert forall|i: int, j: int|
            0 <= i < j < a.drop_first().len() implies !bytes_lt(
            name_key(a.drop_first()[j]),
            name_key(a.drop_first()[i]),
        ) by {
            assert(a.drop_first()[j] == a[j + 1] && a.drop_first()[i] == a[i + 1]);
        }
        assert forall|i: int, j: int|
            0 <= i < j < b.drop_first().len() implies !bytes_lt(
            name_key(b.drop_first()[j]),
            name_key(b.drop_first()[i]),
        ) by {
            assert(b.drop_first()[j] == b[j + 1] && b.drop_first()[i] == b[i + 1]);
        }
        lemma_sorted_listing_unique(m2, a.drop_first(), b.drop_first());
        assert(a =~= seq![x] + a.drop_first());
        assert(b =~= seq![y] + b.drop_first());
    }
}

} // verus!

verus! {

/// Entries with pairwise different names: no two entries of the multiset
/// share a name, and none occurs twice.
pub proof fn lemma_names_distinct_unique(es: Seq<EntryView>)
    requires
        names_distinct(es),
    ensures
        names_unique(es.to_multiset()),
        forall|x: EntryView| es.to_multiset().contains(x) ==> es.to_multiset().count(x) == 1,
{
    broadcast use group_to_multiset_ensures;

    assert(es.no_duplicates());
    es.lemma_multiset_has_no_duplicates();
    assert forall|x: EntryView, y: EntryView|
        es.to_multiset().contains(x) && es.to_multiset().contains(y) && x.name == y.name implies x
        == y by {
        assert(es.contains(x) && es.contains(y));
        let i = choose|i: int| 0 <= i < es.len() && es[i] == x;
        let j = choose|j: int| 0 <= j < es.len() && es[j] == y;
        assert(i == j);
    }
}

/// Tree order: listing entries with pairwise different names in name order
/// puts each name strictly before the next, whatever order the entries came
/// in.
pub proof fn lemma_sorted_listing_strict(es: Seq<EntryView>, s: Seq<EntryView>)
    requires
        names_distinct(es),
        is_sorted_listing(es.to_multiset(), s),
    ensures
        forall|i: int, j: int|
            0 <= i < j < s.len() ==> bytes_lt(name_key(s[i]), name_key(s[j])),
{
    broadcast use group_to_multiset_ensures;

    lemma_names_distinct_unique(es);
    let m = es.to_multiset();
    assert forall|x: EntryView| s.to_multiset().contains(x) implies s.to_multiset().count(x)
        == 1 by {
    }
    s.lemma_multiset_has_no_duplicates_conv();
    assert forall|i: int, j: int| 0 <= i < j < s.len() implies bytes_lt(
        name_key(s[i]),
        name_key(s[j]),
    ) by {
        assert(s.contains(s[i]) && s.contains(s[j]));
        assert(m.contains(s[i]) && m.contains(s[j]));
        assert(s[i] != s[j]);
        encode_utf8_decode_utf8(s[i].name);
        encode_utf8_decode_utf8(s[j].name);
        assert(name_key(s[i]) != name_key(s[j]));
        lemma_bytes_lt_total(name_key(s[i]), name_key(s[j]));
    }
}

} // verus!
