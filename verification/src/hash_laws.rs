//! The hash of an object's attributes depends on what the attributes hold, not on the order
//! in which the directory returned their names or their values, nor on the case of the
//! names.
use vstd::prelude::*;

use crate::objects::{
    distinct_keys, first_key_index, has_key, lemma_first_key_index, lemma_has_key_first, lemma_lookup_push,
    lemma_lookup_update, lookup,
};
use crate::ordering::{
    bytes_lt, bytes_lt_at, insert_bytes, insert_entry, insert_text, sort_byte_strings_spec, sort_entries,
    sort_texts, text_lt, text_lt_at,
};
use crate::schema::AllowedAttribute;
use crate::snapshot::{
    bin_attrs_bytes, gather, hash_input, kept_attrs, kept_bin_attrs, object_attrs, object_bin_attrs, object_hash,
    object_of, text_attrs_bytes, with_sorted_bytes, with_sorted_texts,
};
use crate::text::unicode_lowercase;

verus! {

broadcast use vstd::seq_lib::group_to_multiset_ensures, vstd::multiset::group_multiset_axioms;

/// No text comes before itself.
proof fn lemma_text_lt_irreflexive(a: Seq<char>)
    ensures
        !text_lt(a, a),
{
    if text_lt(a, a) {
        let i = choose|i: int| #[trigger] text_lt_at(a, a, i);
        assert(text_lt_at(a, a, i));
    }
}

/// The order of texts is transitive.
proof fn lemma_text_lt_transitive(a: Seq<char>, b: Seq<char>, c: Seq<char>)
    requires
        text_lt(a, b),
        text_lt(b, c),
    ensures
        text_lt(a, c),
{
    let i = choose|i: int| #[trigger] text_lt_at(a, b, i);
    let j = choose|j: int| #[trigger] text_lt_at(b, c, j);
    if i < j {
        assert forall|k: int| 0 <= k < i implies a[k] == c[k] by {
            assert(a[k] == b[k]);
            assert(b[k] == c[k]);
        }
        if i < a.len() {
            assert(b[i] == c[i]);
        }
        assert(text_lt_at(a, c, i));
    } else if j < i {
        assert forall|k: int| 0 <= k < j implies a[k] == c[k] by {
            assert(a[k] == b[k]);
            assert(b[k] == c[k]);
        }
        assert(a[j] == b[j]);
        assert(text_lt_at(a, c, j));
    } else {
        assert forall|k: int| 0 <= k < i implies a[k] == c[k] by {
            assert(a[k] == b[k]);
            assert(b[k] == c[k]);
        }
        assert(text_lt_at(a, c, i));
    }
}

/// Two different texts are ordered one way or the other.
proof fn lemma_text_lt_total(a: Seq<char>, b: Seq<char>)
    requires
        a != b,
    ensures
        text_lt(a, b) || text_lt(b, a),
{
    let n = if a.len() < b.len() { a.len() } else { b.len() };
    if exists|k: int| 0 <= k < n && a[k] != b[k] {
        let k0 = choose|k: int| 0 <= k < n && a[k] != b[k];
        let k = lemma_first_difference(a, b, n as int, k0);
        if a[k] < b[k] {
            assert(text_lt_at(a, b, k));
        } else {
            assert(text_lt_at(b, a, k));
        }
    } else if a.len() < b.len() {
        assert(text_lt_at(a, b, a.len() as int));
    } else if b.len() < a.len() {
        assert(text_lt_at(b, a, b.len() as int));
    } else {
        assert(a =~= b);
    }
}

/// The first position below `n` where `a` and `b` differ, given one.
proof fn lemma_first_difference(a: Seq<char>, b: Seq<char>, n: int, k0: int) -> (k: int)
    requires
        0 <= k0 < n,
        n <= a.len(),
        n <= b.len(),
        a[k0] != b[k0],
    ensures
        0 <= k <= k0,
        a[k] != b[k],
        forall|j: int| 0 <= j < k ==> a[j] == b[j],
    decreases k0,
{
    if exists|j: int| 0 <= j < k0 && a[j] != b[j] {
        let j = choose|j: int| 0 <= j < k0 && a[j] != b[j];
        lemma_first_difference(a, b, n, j)
    } else {
        k0
    }
}

/// No text of `s` comes before an earlier one.
pub open spec fn texts_sorted(s: Seq<Seq<char>>) -> bool {
    forall|i: int, j: int| 0 <= i < j < s.len() ==> !text_lt(#[trigger] s[j], #[trigger] s[i])
}

/// Inserting into a sorted list keeps it sorted and adds exactly the text.
proof fn lemma_insert_text(s: Seq<Seq<char>>, x: Seq<char>)
    requires
        texts_sorted(s),
    ensures
        texts_sorted(insert_text(s, x)),
        insert_text(s, x).to_multiset() =~= s.to_multiset().insert(x),
    decreases s.len(),
{
    let r = insert_text(s, x);
    if s.len() == 0 {
        assert(r == Seq::<Seq<char>>::empty().push(x));
        assert(Seq::<Seq<char>>::empty().to_multiset() =~= vstd::multiset::Multiset::empty());
    } else if !text_lt(x, s.last()) {
        assert forall|i: int, j: int| 0 <= i < j < r.len() implies !text_lt(#[trigger] r[j], #[trigger] r[i]) by {
            if j == s.len() {
                let l = s[s.len() - 1];
                assert(r[j] == x);
                assert(r[i] == s[i]);
                if text_lt(x, s[i]) {
                    if i < s.len() - 1 {
                        assert(!text_lt(l, s[i]));
                        if x == l {
                        } else {
                            lemma_text_lt_total(x, l);
                            lemma_text_lt_transitive(l, x, s[i]);
                        }
                    }
                }
            } else {
                assert(r[i] == s[i]);
                assert(r[j] == s[j]);
            }
        }
    } else {
        let t = s.drop_last();
        let l = s.last();
        assert forall|i: int, j: int| 0 <= i < j < t.len() implies !text_lt(#[trigger] t[j], #[trigger] t[i]) by {
            assert(t[i] == s[i]);
            assert(t[j] == s[j]);
        }
        lemma_insert_text(t, x);
        let q = insert_text(t, x);
        assert(r == q.push(l));
        assert(s == t.push(l));
        assert(q.to_multiset().contains(x));
        assert forall|i: int| 0 <= i < q.len() implies !text_lt(l, #[trigger] q[i]) by {
            assert(q.to_multiset().contains(q[i]));
            if q[i] == x {
                if text_lt(l, x) {
                    lemma_text_lt_transitive(x, l, x);
                    lemma_text_lt_irreflexive(x);
                }
            } else {
                assert(t.to_multiset().contains(q[i]));
                let k = choose|k: int| 0 <= k < t.len() && t[k] == q[i];
                assert(s[k] == t[k]);
                assert(!text_lt(s[s.len() - 1], s[k]));
            }
        }
        assert forall|i: int, j: int| 0 <= i < j < r.len() implies !text_lt(#[trigger] r[j], #[trigger] r[i]) by {
            assert(r[i] == q[i]);
            if j < q.len() {
                assert(r[j] == q[j]);
            }
        }
    }
}

/// The insertion sort of texts is sorted and keeps every text.
proof fn lemma_sort_texts(s: Seq<Seq<char>>)
    ensures
        texts_sorted(sort_texts(s)),
        sort_texts(s).to_multiset() =~= s.to_multiset(),
    decreases s.len(),
{
    if s.len() == 0 {
        assert(s.to_multiset() =~= vstd::multiset::Multiset::empty());
    } else {
        lemma_sort_texts(s.drop_last());
        lemma_insert_text(sort_texts(s.drop_last()), s.last());
        assert(s == s.drop_last().push(s.last()));
    }
}

/// Two sorted lists of texts that hold the same texts are equal.
proof fn lemma_sorted_texts_unique(r1: Seq<Seq<char>>, r2: Seq<Seq<char>>)
    requires
        texts_sorted(r1),
        texts_sorted(r2),
        r1.to_multiset() == r2.to_multiset(),
    ensures
        r1 == r2,
    decreases r1.len(),
{
    if r1.len() == 0 {
        assert(r1.to_multiset().len() == r1.len());
        assert(r2.to_multiset().len() == r2.len());
        assert(r2.to_multiset().len() == 0);
        assert(r2 =~= r1);
    } else {
        assert(r1.to_multiset().len() == r1.len());
        assert(r2.to_multiset().len() == r2.len());
        assert(r2.len() == r1.len());
        let p1 = r1.drop_last();
        let p2 = r2.drop_last();
        let x1 = r1.last();
        let x2 = r2.last();
        assert(r1 == p1.push(x1));
        assert(r2 == p2.push(x2));
        assert(r1.to_multiset().contains(x2));
        assert(r2.to_multiset().contains(x1));
        let k1 = choose|k: int| 0 <= k < r1.len() && r1[k] == x2;
        let k2 = choose|k: int| 0 <= k < r2.len() && r2[k] == x1;
        if k1 < r1.len() - 1 {
            assert(!text_lt(r1[r1.len() - 1], r1[k1]));
        }
        if k2 < r2.len() - 1 {
            assert(!text_lt(r2[r2.len() - 1], r2[k2]));
        }
        if x1 != x2 {
            lemma_text_lt_total(x1, x2);
            lemma_text_lt_irreflexive(x1);
            lemma_text_lt_irreflexive(x2);
        }
        assert(p1.to_multiset() =~= r1.to_multiset().remove(x1));
        assert(p2.to_multiset() =~= r2.to_multiset().remove(x2));
        assert forall|i: int, j: int| 0 <= i < j < p1.len() implies !text_lt(#[trigger] p1[j], #[trigger] p1[i]) by {
            assert(p1[i] == r1[i]);
            assert(p1[j] == r1[j]);
        }
        assert forall|i: int, j: int| 0 <= i < j < p2.len() implies !text_lt(#[trigger] p2[j], #[trigger] p2[i]) by {
            assert(p2[i] == r2[i]);
            assert(p2[j] == r2[j]);
        }
        lemma_sorted_texts_unique(p1, p2);
    }
}

/// Sorting texts gives the same list for any order of the same texts.
pub proof fn lemma_sort_texts_ignores_order(v1: Seq<Seq<char>>, v2: Seq<Seq<char>>)
    requires
        v1.to_multiset() == v2.to_multiset(),
    ensures
        sort_texts(v1) == sort_texts(v2),
{
    lemma_sort_texts(v1);
    lemma_sort_texts(v2);
    lemma_sorted_texts_unique(sort_texts(v1), sort_texts(v2));
}

/// No byte string comes before itself.
proof fn lemma_bytes_lt_irreflexive(a: Seq<u8>)
    ensures
        !bytes_lt(a, a),
{
    if bytes_lt(a, a) {
        let i = choose|i: int| #[trigger] bytes_lt_at(a, a, i);
        assert(bytes_lt_at(a, a, i));
    }
}

/// The order of byte strings is transitive.
proof fn lemma_bytes_lt_transitive(a: Seq<u8>, b: Seq<u8>, c: Seq<u8>)
    requires
        bytes_lt(a, b),
        bytes_lt(b, c),
    ensures
        bytes_lt(a, c),
{
    let i = choose|i: int| #[trigger] bytes_lt_at(a, b, i);
    let j = choose|j: int| #[trigger] bytes_lt_at(b, c, j);
    if i < j {
        assert forall|k: int| 0 <= k < i implies a[k] == c[k] by {
            assert(a[k] == b[k]);
            assert(b[k] == c[k]);
        }
        if i < a.len() {
            assert(b[i] == c[i]);
        }
        assert(bytes_lt_at(a, c, i));
    } else if j < i {
        assert forall|k: int| 0 <= k < j implies a[k] == c[k] by {
            assert(a[k] == b[k]);
            assert(b[k] == c[k]);
        }
        assert(a[j] == b[j]);
        assert(bytes_lt_at(a, c, j));
    } else {
        assert forall|k: int| 0 <= k < i implies a[k] == c[k] by {
            assert(a[k] == b[k]);
            assert(b[k] == c[k]);
        }
        assert(bytes_lt_at(a, c, i));
    }
}

/// Two different byte strings are ordered one way or the other.
proof fn lemma_bytes_lt_total(a: Seq<u8>, b: Seq<u8>)
    requires
        a != b,
    ensures
        bytes_lt(a, b) || bytes_lt(b, a),
{
    let n = if a.len() < b.len() { a.len() } else { b.len() };
    if exists|k: int| 0 <= k < n && a[k] != b[k] {
        let k0 = choose|k: int| 0 <= k < n && a[k] != b[k];
        let k = lemma_first_byte_difference(a, b, n as int, k0);
        if a[k] < b[k] {
            assert(bytes_lt_at(a, b, k));
        } else {
            assert(bytes_lt_at(b, a, k));
        }
    } else if a.len() < b.len() {
        assert(bytes_lt_at(a, b, a.len() as int));
    } else if b.len() < a.len() {
        assert(bytes_lt_at(b, a, b.len() as int));
    } else {
        assert(a =~= b);
    }
}

/// The first position below `n` where `a` and `b` differ, given one.
proof fn lemma_first_byte_difference(a: Seq<u8>, b: Seq<u8>, n: int, k0: int) -> (k: int)
    requires
        0 <= k0 < n,
        n <= a.len(),
        n <= b.len(),
        a[k0] != b[k0],
    ensures
        0 <= k <= k0,
        a[k] != b[k],
        forall|j: int| 0 <= j < k ==> a[j] == b[j],
    decreases k0,
{
    if exists|j: int| 0 <= j < k0 && a[j] != b[j] {
        let j = choose|j: int| 0 <= j < k0 && a[j] != b[j];
        lemma_first_byte_difference(a, b, n, j)
    } else {
        k0
    }
}

/// No byte string of `s` comes before an earlier one.
pub open spec fn byte_strings_sorted(s: Seq<Seq<u8>>) -> bool {
    forall|i: int, j: int| 0 <= i < j < s.len() ==> !bytes_lt(#[trigger] s[j], #[trigger] s[i])
}

/// Inserting into a sorted list keeps it sorted and adds exactly the byte string.
proof fn lemma_insert_bytes(s: Seq<Seq<u8>>, x: Seq<u8>)
    requires
        byte_strings_sorted(s),
    ensures
        byte_strings_sorted(insert_bytes(s, x)),
        insert_bytes(s, x).to_multiset() =~= s.to_multiset().insert(x),
    decreases s.len(),
{
    let r = insert_bytes(s, x);
    if s.len() == 0 {
        assert(r == Seq::<Seq<u8>>::empty().push(x));
        assert(Seq::<Seq<u8>>::empty().to_multiset() =~= vstd::multiset::Multiset::empty());
    } else if !bytes_lt(x, s.last()) {
        assert forall|i: int, j: int| 0 <= i < j < r.len() implies !bytes_lt(#[trigger] r[j], #[trigger] r[i]) by {
            if j == s.len() {
                let l = s[s.len() - 1];
                assert(r[j] == x);
                assert(r[i] == s[i]);
                if bytes_lt(x, s[i]) {
                    if i < s.len() - 1 {
                        assert(!bytes_lt(l, s[i]));
                        if x == l {
                        } else {
                            lemma_bytes_lt_total(x, l);
                            lemma_bytes_lt_transitive(l, x, s[i]);
                        }
                    }
                }
            } else {
                assert(r[i] == s[i]);
                assert(r[j] == s[j]);
            }
        }
    } else {
        let t = s.drop_last();
        let l = s.last();
        assert forall|i: int, j: int| 0 <= i < j < t.len() implies !bytes_lt(#[trigger] t[j], #[trigger] t[i]) by {
            assert(t[i] == s[i]);
            assert(t[j] == s[j]);
        }
        lemma_insert_bytes(t, x);
        let q = insert_bytes(t, x);
        assert(r == q.push(l));
        assert(s == t.push(l));
        assert(q.to_multiset().contains(x));
        assert forall|i: int| 0 <= i < q.len() implies !bytes_lt(l, #[trigger] q[i]) by {
            assert(q.to_multiset().contains(q[i]));
            if q[i] == x {
                if bytes_lt(l, x) {
                    lemma_bytes_lt_transitive(x, l, x);
                    lemma_bytes_lt_irreflexive(x);
                }
            } else {
                assert(t.to_multiset().contains(q[i]));
                let k = choose|k: int| 0 <= k < t.len() && t[k] == q[i];
                assert(s[k] == t[k]);
                assert(!bytes_lt(s[s.len() - 1], s[k]));
            }
        }
        assert forall|i: int, j: int| 0 <= i < j < r.len() implies !bytes_lt(#[trigger] r[j], #[trigger] r[i]) by {
            assert(r[i] == q[i]);
            if j < q.len() {
                assert(r[j] == q[j]);
            }
        }
    }
}

/// The insertion sort of byte strings is sorted and keeps every one.
proof fn lemma_sort_byte_strings(s: Seq<Seq<u8>>)
    ensures
        byte_strings_sorted(sort_byte_strings_spec(s)),
        sort_byte_strings_spec(s).to_multiset() =~= s.to_multiset(),
    decreases s.len(),
{
    if s.len() == 0 {
        assert(s.to_multiset() =~= vstd::multiset::Multiset::empty());
    } else {
        lemma_sort_byte_strings(s.drop_last());
        lemma_insert_bytes(sort_byte_strings_spec(s.drop_last()), s.last());
        assert(s == s.drop_last().push(s.last()));
    }
}

/// Two sorted lists of byte strings that hold the same ones are equal.
proof fn lemma_sorted_bytes_unique(r1: Seq<Seq<u8>>, r2: Seq<Seq<u8>>)
    requires
        byte_strings_sorted(r1),
        byte_strings_sorted(r2),
        r1.to_multiset() == r2.to_multiset(),
    ensures
        r1 == r2,
    decreases r1.len(),
{
    if r1.len() == 0 {
        assert(r1.to_multiset().len() == r1.len());
        assert(r2.to_multiset().len() == r2.len());
        assert(r2.to_multiset().len() == 0);
        assert(r2 =~= r1);
    } else {
        assert(r1.to_multiset().len() == r1.len());
        assert(r2.to_multiset().len() == r2.len());
        assert(r2.len() == r1.len());
        let p1 = r1.drop_last();
        let p2 = r2.drop_last();
        let x1 = r1.last();
        let x2 = r2.last();
        assert(r1 == p1.push(x1));
        assert(r2 == p2.push(x2));
        assert(r1.to_multiset().contains(x2));
        assert(r2.to_multiset().contains(x1));
        let k1 = choose|k: int| 0 <= k < r1.len() && r1[k] == x2;
        let k2 = choose|k: int| 0 <= k < r2.len() && r2[k] == x1;
        if k1 < r1.len() - 1 {
            assert(!bytes_lt(r1[r1.len() - 1], r1[k1]));
        }
        if k2 < r2.len() - 1 {
            assert(!bytes_lt(r2[r2.len() - 1], r2[k2]));
        }
        if x1 != x2 {
            lemma_bytes_lt_total(x1, x2);
            lemma_bytes_lt_irreflexive(x1);
            lemma_bytes_lt_irreflexive(x2);
        }
        assert(p1.to_multiset() =~= r1.to_multiset().remove(x1));
        assert(p2.to_multiset() =~= r2.to_multiset().remove(x2));
        assert forall|i: int, j: int| 0 <= i < j < p1.len() implies !bytes_lt(#[trigger] p1[j], #[trigger] p1[i]) by {
            assert(p1[i] == r1[i]);
            assert(p1[j] == r1[j]);
        }
        assert forall|i: int, j: int| 0 <= i < j < p2.len() implies !bytes_lt(#[trigger] p2[j], #[trigger] p2[i]) by {
            assert(p2[i] == r2[i]);
            assert(p2[j] == r2[j]);
        }
        lemma_sorted_bytes_unique(p1, p2);
    }
}

/// Sorting byte strings gives the same list for any order of the same ones.
pub proof fn lemma_sort_bytes_ignores_order(v1: Seq<Seq<u8>>, v2: Seq<Seq<u8>>)
    requires
        v1.to_multiset() == v2.to_multiset(),
    ensures
        sort_byte_strings_spec(v1) == sort_byte_strings_spec(v2),
{
    lemma_sort_byte_strings(v1);
    lemma_sort_byte_strings(v2);
    lemma_sorted_bytes_unique(sort_byte_strings_spec(v1), sort_byte_strings_spec(v2));
}

/// The names of the entries of `s`, in order.
pub open spec fn entry_names<V>(s: Seq<(Seq<char>, V)>) -> Seq<Seq<char>> {
    s.map_values(|e: (Seq<char>, V)| e.0)
}

/// Inserting an entry by name inserts its name among the names.
proof fn lemma_insert_entry_names<V>(s: Seq<(Seq<char>, V)>, x: (Seq<char>, V))
    ensures
        entry_names(insert_entry(s, x)) == insert_text(entry_names(s), x.0),
        insert_entry(s, x).to_multiset() =~= s.to_multiset().insert(x),
    decreases s.len(),
{
    if s.len() == 0 {
        assert(entry_names(insert_entry(s, x)) =~= seq![x.0]);
        assert(insert_entry(s, x) == Seq::<(Seq<char>, V)>::empty().push(x));
        assert(Seq::<(Seq<char>, V)>::empty().to_multiset() =~= vstd::multiset::Multiset::empty());
    } else {
        let t = s.drop_last();
        assert(entry_names(s).last() == s.last().0);
        assert(entry_names(s).drop_last() =~= entry_names(t));
        if !text_lt(x.0, s.last().0) {
            assert(entry_names(insert_entry(s, x)) =~= entry_names(s).push(x.0));
        } else {
            lemma_insert_entry_names(t, x);
            assert(entry_names(insert_entry(s, x)) =~= entry_names(insert_entry(t, x)).push(s.last().0));
            assert(s == t.push(s.last()));
        }
    }
}

/// The names of the sorted entries are the sorted names, and sorting keeps every entry.
proof fn lemma_sort_entries_names<V>(s: Seq<(Seq<char>, V)>)
    ensures
        entry_names(sort_entries(s)) == sort_texts(entry_names(s)),
        sort_entries(s).to_multiset() =~= s.to_multiset(),
    decreases s.len(),
{
    if s.len() == 0 {
        assert(entry_names(sort_entries(s)) =~= Seq::<Seq<char>>::empty());
        assert(entry_names(s) =~= Seq::<Seq<char>>::empty());
        assert(s.to_multiset() =~= vstd::multiset::Multiset::empty());
    } else {
        let t = s.drop_last();
        lemma_sort_entries_names(t);
        lemma_insert_entry_names(sort_entries(t), s.last());
        assert(entry_names(s).drop_last() =~= entry_names(t));
        assert(entry_names(s).last() == s.last().0);
        assert(s == t.push(s.last()));
    }
}

/// Under distinct names, an entry of `s` is what `s` holds for its name.
proof fn lemma_lookup_member<V>(s: Seq<(Seq<char>, V)>, e: (Seq<char>, V))
    requires
        distinct_keys(s),
        s.contains(e),
    ensures
        lookup(s, e.0) == Some(e.1),
{
    let i = choose|i: int| 0 <= i < s.len() && s[i] == e;
    assert forall|j: int| 0 <= j < i implies s[j].0 != e.0 by {}
    lemma_first_key_index(s, e.0, i);
}

/// Two lists of entries hold, name for name, the same values in some order.
pub open spec fn same_values_by_name<T>(a: Seq<(Seq<char>, Seq<T>)>, b: Seq<(Seq<char>, Seq<T>)>) -> bool {
    &&& forall|k: Seq<char>| #[trigger] has_key(a, k) == has_key(b, k)
    &&& forall|k: Seq<char>| #[trigger] has_key(a, k) ==> lookup(a, k)->0.to_multiset() == lookup(b, k)->0.to_multiset()
}

/// Entries with distinct names that hold the same names have the same names as a multiset.
proof fn lemma_names_multiset<T>(a: Seq<(Seq<char>, Seq<T>)>, b: Seq<(Seq<char>, Seq<T>)>)
    requires
        distinct_keys(a),
        distinct_keys(b),
        forall|k: Seq<char>| #[trigger] has_key(a, k) == has_key(b, k),
    ensures
        entry_names(a).to_multiset() == entry_names(b).to_multiset(),
{
    let na = entry_names(a);
    let nb = entry_names(b);
    assert(na.no_duplicates()) by {
        assert forall|i: int, j: int| 0 <= i < na.len() && 0 <= j < na.len() && i != j implies na[i] != na[j] by {}
    }
    assert(nb.no_duplicates()) by {
        assert forall|i: int, j: int| 0 <= i < nb.len() && 0 <= j < nb.len() && i != j implies nb[i] != nb[j] by {}
    }
    na.lemma_multiset_has_no_duplicates();
    nb.lemma_multiset_has_no_duplicates();
    assert forall|k: Seq<char>| na.to_multiset().count(k) == nb.to_multiset().count(k) by {
        if na.to_multiset().contains(k) {
            let i = choose|i: int| 0 <= i < na.len() && na[i] == k;
            assert(a[i].0 == k);
            assert(has_key(a, k));
            let j = choose|j: int| 0 <= j < b.len() && b[j].0 == k;
            assert(nb[j] == k);
            assert(nb.to_multiset().contains(k));
        } else if nb.to_multiset().contains(k) {
            let j = choose|j: int| 0 <= j < nb.len() && nb[j] == k;
            assert(b[j].0 == k);
            assert(has_key(b, k));
            assert(has_key(a, k));
            let i = choose|i: int| 0 <= i < a.len() && a[i].0 == k;
            assert(na[i] == k);
            assert(na.to_multiset().contains(k));
        }
    }
    assert(na.to_multiset() =~= nb.to_multiset());
}

/// Sorting two lists of entries that hold the same values by name gives, position for
/// position, the same names with the same values in some order.
proof fn lemma_sorted_entries_match<T>(a: Seq<(Seq<char>, Seq<T>)>, b: Seq<(Seq<char>, Seq<T>)>)
    requires
        distinct_keys(a),
        distinct_keys(b),
        same_values_by_name(a, b),
    ensures
        sort_entries(a).len() == sort_entries(b).len(),
        forall|i: int| 0 <= i < sort_entries(a).len() ==> {
            &&& (#[trigger] sort_entries(a)[i]).0 == sort_entries(b)[i].0
            &&& sort_entries(a)[i].1.to_multiset() == sort_entries(b)[i].1.to_multiset()
        },
{
    let x = sort_entries(a);
    let y = sort_entries(b);
    lemma_sort_entries_names(a);
    lemma_sort_entries_names(b);
    lemma_names_multiset(a, b);
    lemma_sort_texts_ignores_order(entry_names(a), entry_names(b));
    assert(entry_names(x) == entry_names(y));
    assert(x.len() == entry_names(x).len());
    assert forall|i: int| 0 <= i < x.len() implies {
        &&& (#[trigger] x[i]).0 == y[i].0
        &&& x[i].1.to_multiset() == y[i].1.to_multiset()
    } by {
        assert(entry_names(x)[i] == x[i].0);
        assert(entry_names(y)[i] == y[i].0);
        assert(x.to_multiset().contains(x[i]));
        assert(y.to_multiset().contains(y[i]));
        lemma_lookup_member(a, x[i]);
        lemma_lookup_member(b, y[i]);
        assert(has_key(a, x[i].0));
    }
}

/// Text entries that match position for position give the same bytes.
proof fn lemma_text_bytes_match(x: Seq<(Seq<char>, Seq<Seq<char>>)>, y: Seq<(Seq<char>, Seq<Seq<char>>)>)
    requires
        x.len() == y.len(),
        forall|i: int| 0 <= i < x.len() ==> {
            &&& (#[trigger] x[i]).0 == y[i].0
            &&& x[i].1.to_multiset() == y[i].1.to_multiset()
        },
    ensures
        text_attrs_bytes(x) == text_attrs_bytes(y),
    decreases x.len(),
{
    if x.len() > 0 {
        let n = x.len() - 1;
        assert forall|i: int| 0 <= i < x.drop_last().len() implies {
            &&& (#[trigger] x.drop_last()[i]).0 == y.drop_last()[i].0
            &&& x.drop_last()[i].1.to_multiset() == y.drop_last()[i].1.to_multiset()
        } by {
            assert(x.drop_last()[i] == x[i]);
            assert(y.drop_last()[i] == y[i]);
        }
        lemma_text_bytes_match(x.drop_last(), y.drop_last());
        assert(x[n].0 == y[n].0);
        lemma_sort_texts_ignores_order(x[n].1, y[n].1);
        assert(x[n].1.to_multiset().len() == x[n].1.len());
        assert(y[n].1.to_multiset().len() == y[n].1.len());
    }
}

/// Binary entries that match position for position give the same bytes.
proof fn lemma_bin_bytes_match(x: Seq<(Seq<char>, Seq<Seq<u8>>)>, y: Seq<(Seq<char>, Seq<Seq<u8>>)>)
    requires
        x.len() == y.len(),
        forall|i: int| 0 <= i < x.len() ==> {
            &&& (#[trigger] x[i]).0 == y[i].0
            &&& x[i].1.to_multiset() == y[i].1.to_multiset()
        },
    ensures
        bin_attrs_bytes(x) == bin_attrs_bytes(y),
    decreases x.len(),
{
    if x.len() > 0 {
        let n = x.len() - 1;
        assert forall|i: int| 0 <= i < x.drop_last().len() implies {
            &&& (#[trigger] x.drop_last()[i]).0 == y.drop_last()[i].0
            &&& x.drop_last()[i].1.to_multiset() == y.drop_last()[i].1.to_multiset()
        } by {
            assert(x.drop_last()[i] == x[i]);
            assert(y.drop_last()[i] == y[i]);
        }
        lemma_bin_bytes_match(x.drop_last(), y.drop_last());
        assert(x[n].0 == y[n].0);
        lemma_sort_bytes_ignores_order(x[n].1, y[n].1);
        assert(x[n].1.to_multiset().len() == x[n].1.len());
        assert(y[n].1.to_multiset().len() == y[n].1.len());
    }
}

/// The hash of an object's attributes does not depend on the order of the attributes nor
/// on the order of the values of an attribute: attribute lists that hold, name for name,
/// the same values in some order hash alike.
pub proof fn law_hash_ignores_order(
    a1: Seq<(Seq<char>, Seq<Seq<char>>)>,
    a2: Seq<(Seq<char>, Seq<Seq<char>>)>,
    b1: Seq<(Seq<char>, Seq<Seq<u8>>)>,
    b2: Seq<(Seq<char>, Seq<Seq<u8>>)>,
)
    requires
        distinct_keys(a1),
        distinct_keys(a2),
        distinct_keys(b1),
        distinct_keys(b2),
        same_values_by_name(a1, a2),
        same_values_by_name(b1, b2),
    ensures
        object_hash(a1, b1) == object_hash(a2, b2),
{
    lemma_sorted_entries_match(a1, a2);
    lemma_sorted_entries_match(b1, b2);
    lemma_text_bytes_match(sort_entries(a1), sort_entries(a2));
    lemma_bin_bytes_match(sort_entries(b1), sort_entries(b2));
    assert(hash_input(a1, b1) == hash_input(a2, b2));
}

/// Two lists of entries that differ at most in the case of their names.
pub open spec fn same_but_case<T>(x: Seq<(Seq<char>, Seq<T>)>, y: Seq<(Seq<char>, Seq<T>)>) -> bool {
    &&& x.len() == y.len()
    &&& forall|i: int| 0 <= i < x.len() ==> {
        &&& unicode_lowercase((#[trigger] x[i]).0) == unicode_lowercase(y[i].0)
        &&& x[i].1 == y[i].1
    }
}

/// The kept text attributes see names only lower-cased.
proof fn lemma_kept_attrs_case(
    x: Seq<(Seq<char>, Seq<Seq<char>>)>,
    y: Seq<(Seq<char>, Seq<Seq<char>>)>,
    allow: Seq<(Seq<char>, AllowedAttribute)>,
)
    requires
        same_but_case(x, y),
    ensures
        kept_attrs(x, allow) == kept_attrs(y, allow),
    decreases x.len(),
{
    if x.len() > 0 {
        assert forall|i: int| 0 <= i < x.drop_last().len() implies {
            &&& unicode_lowercase((#[trigger] x.drop_last()[i]).0) == unicode_lowercase(y.drop_last()[i].0)
            &&& x.drop_last()[i].1 == y.drop_last()[i].1
        } by {
            assert(x.drop_last()[i] == x[i]);
            assert(y.drop_last()[i] == y[i]);
        }
        lemma_kept_attrs_case(x.drop_last(), y.drop_last(), allow);
        assert(x.last() == x[x.len() - 1]);
        assert(y.last() == y[y.len() - 1]);
    }
}

/// The kept binary attributes see names only lower-cased.
proof fn lemma_kept_bin_attrs_case(
    x: Seq<(Seq<char>, Seq<Seq<u8>>)>,
    y: Seq<(Seq<char>, Seq<Seq<u8>>)>,
    allow: Seq<(Seq<char>, AllowedAttribute)>,
)
    requires
        same_but_case(x, y),
    ensures
        kept_bin_attrs(x, allow) == kept_bin_attrs(y, allow),
    decreases x.len(),
{
    if x.len() > 0 {
        assert forall|i: int| 0 <= i < x.drop_last().len() implies {
            &&& unicode_lowercase((#[trigger] x.drop_last()[i]).0) == unicode_lowercase(y.drop_last()[i].0)
            &&& x.drop_last()[i].1 == y.drop_last()[i].1
        } by {
            assert(x.drop_last()[i] == x[i]);
            assert(y.drop_last()[i] == y[i]);
        }
        lemma_kept_bin_attrs_case(x.drop_last(), y.drop_last(), allow);
        assert(x.last() == x[x.len() - 1]);
        assert(y.last() == y[y.len() - 1]);
    }
}

/// The case of the attribute names a directory returns does not change what a snapshot
/// records of an object's attributes, nor its hash.
pub proof fn law_name_case_does_not_change_snapshot(
    attrs1: Seq<(Seq<char>, Seq<Seq<char>>)>,
    attrs2: Seq<(Seq<char>, Seq<Seq<char>>)>,
    bins1: Seq<(Seq<char>, Seq<Seq<u8>>)>,
    bins2: Seq<(Seq<char>, Seq<Seq<u8>>)>,
    allow: Seq<(Seq<char>, AllowedAttribute)>,
)
    requires
        same_but_case(attrs1, attrs2),
        same_but_case(bins1, bins2),
    ensures
        object_attrs(attrs1, allow) == object_attrs(attrs2, allow),
        object_bin_attrs(bins1, allow) == object_bin_attrs(bins2, allow),
        object_hash(object_attrs(attrs1, allow), object_bin_attrs(bins1, allow))
            == object_hash(object_attrs(attrs2, allow), object_bin_attrs(bins2, allow)),
{
    lemma_kept_attrs_case(attrs1, attrs2, allow);
    lemma_kept_bin_attrs_case(bins1, bins2, allow);
}


/// A list of entries has distinct names exactly when its names have no duplicates.
proof fn lemma_distinct_names<V>(s: Seq<(Seq<char>, V)>)
    ensures
        distinct_keys(s) <==> entry_names(s).no_duplicates(),
{
    let n = entry_names(s);
    if distinct_keys(s) {
        assert forall|i: int, j: int| 0 <= i < n.len() && 0 <= j < n.len() && i != j implies n[i] != n[j] by {}
    }
    if n.no_duplicates() {
        assert forall|i: int, j: int| 0 <= i < s.len() && 0 <= j < s.len() && i != j implies s[i].0 != s[j].0 by {
            assert(n[i] == s[i].0);
            assert(n[j] == s[j].0);
        }
    }
}

/// A list holding the same items as one without duplicates has none either.
proof fn lemma_no_duplicates_multiset<A>(a: Seq<A>, b: Seq<A>)
    requires
        a.no_duplicates(),
        a.to_multiset() == b.to_multiset(),
    ensures
        b.no_duplicates(),
{
    a.lemma_multiset_has_no_duplicates();
    b.lemma_multiset_has_no_duplicates_conv();
}

/// Sorting entries by name keeps their names distinct.
pub proof fn lemma_sort_entries_distinct<V>(s: Seq<(Seq<char>, V)>)
    requires
        distinct_keys(s),
    ensures
        distinct_keys(sort_entries(s)),
{
    lemma_sort_entries_names(s);
    lemma_sort_texts(entry_names(s));
    lemma_distinct_names(s);
    lemma_no_duplicates_multiset(entry_names(s), sort_texts(entry_names(s)));
    lemma_distinct_names(sort_entries(s));
}

/// Pushing an entry adds its name to the names held.
proof fn lemma_has_key_push<V>(s: Seq<(Seq<char>, V)>, e: (Seq<char>, V), k: Seq<char>)
    ensures
        has_key(s.push(e), k) <==> (has_key(s, k) || e.0 == k),
{
    let t = s.push(e);
    if has_key(t, k) {
        let i = choose|i: int| 0 <= i < t.len() && t[i].0 == k;
        if i < s.len() {
            assert(s[i] == t[i]);
        }
    }
    if has_key(s, k) {
        let i = choose|i: int| 0 <= i < s.len() && s[i].0 == k;
        assert(t[i] == s[i]);
    }
    if e.0 == k {
        assert(t[s.len() as int].0 == k);
    }
}

/// Pushing an entry whose name is new keeps the names distinct.
proof fn lemma_distinct_push<V>(s: Seq<(Seq<char>, V)>, e: (Seq<char>, V))
    requires
        distinct_keys(s),
        !has_key(s, e.0),
    ensures
        distinct_keys(s.push(e)),
{
    let t = s.push(e);
    assert forall|i: int, j: int| 0 <= i < t.len() && 0 <= j < t.len() && i != j implies t[i].0 != t[j].0 by {
        if i == s.len() {
            assert(t[j] == s[j]);
        } else if j == s.len() {
            assert(t[i] == s[i]);
        } else {
            assert(t[i] == s[i]);
            assert(t[j] == s[j]);
        }
    }
}

/// Gathering values under a name keeps the names distinct.
proof fn lemma_gather_distinct<T>(acc: Seq<(Seq<char>, Seq<T>)>, k: Seq<char>, vals: Seq<T>)
    requires
        distinct_keys(acc),
    ensures
        distinct_keys(gather(acc, k, vals)),
{
    if has_key(acc, k) {
        lemma_has_key_first(acc, k);
        let p = first_key_index(acc, k);
        lemma_lookup_update(acc, p, acc[p].1 + vals, k);
    } else {
        lemma_distinct_push(acc, (k, vals));
    }
}

/// Two lists of entries with distinct names that hold the same value for every name sort
/// into the same list.
proof fn lemma_sorted_entries_equal<T>(a: Seq<(Seq<char>, Seq<T>)>, b: Seq<(Seq<char>, Seq<T>)>)
    requires
        distinct_keys(a),
        distinct_keys(b),
        forall|k: Seq<char>| #[trigger] lookup(a, k) == lookup(b, k),
    ensures
        sort_entries(a) == sort_entries(b),
{
    assert forall|k: Seq<char>| #[trigger] has_key(a, k) == has_key(b, k) by {
        assert(lookup(a, k) == lookup(b, k));
    }
    let x = sort_entries(a);
    let y = sort_entries(b);
    lemma_sort_entries_names(a);
    lemma_sort_entries_names(b);
    lemma_names_multiset(a, b);
    lemma_sort_texts_ignores_order(entry_names(a), entry_names(b));
    assert(x.len() == entry_names(x).len());
    assert(y.len() == entry_names(y).len());
    assert forall|i: int| 0 <= i < x.len() implies #[trigger] x[i] == y[i] by {
        assert(entry_names(x)[i] == x[i].0);
        assert(entry_names(y)[i] == y[i].0);
        assert(x.to_multiset().contains(x[i]));
        assert(y.to_multiset().contains(y[i]));
        lemma_lookup_member(a, x[i]);
        lemma_lookup_member(b, y[i]);
        assert(lookup(a, x[i].0) == lookup(b, x[i].0));
    }
    assert(x =~= y);
}

/// Names that are alike once lower-cased name one entry at most.
pub open spec fn lower_names_distinct<T>(a: Seq<(Seq<char>, Seq<T>)>) -> bool {
    forall|i: int, j: int|
        0 <= i < a.len() && 0 <= j < a.len() && i != j ==> unicode_lowercase(#[trigger] a[i].0) != unicode_lowercase(
            #[trigger] a[j].0,
        )
}

/// The entries of `a1` and `a2` whose lower-cased names `keep` keeps correspond one to one
/// by lower-cased name and hold the same values in some order; neither list has two names
/// that are alike once lower-cased.
pub open spec fn alike_where<T>(
    a1: Seq<(Seq<char>, Seq<T>)>,
    a2: Seq<(Seq<char>, Seq<T>)>,
    keep: spec_fn(Seq<char>) -> bool,
) -> bool {
    &&& lower_names_distinct(a1)
    &&& lower_names_distinct(a2)
    &&& forall|i: int|
        #![trigger a1[i]]
        0 <= i < a1.len() && keep(unicode_lowercase(a1[i].0)) ==> exists|j: int|
            #![trigger a2[j]]
            0 <= j < a2.len() && unicode_lowercase(a2[j].0) == unicode_lowercase(a1[i].0)
                && a2[j].1.to_multiset() == a1[i].1.to_multiset()
    &&& forall|j: int|
        #![trigger a2[j]]
        0 <= j < a2.len() && keep(unicode_lowercase(a2[j].0)) ==> exists|i: int|
            #![trigger a1[i]]
            0 <= i < a1.len() && unicode_lowercase(a1[i].0) == unicode_lowercase(a2[j].0)
                && a1[i].1.to_multiset() == a2[j].1.to_multiset()
}


/// The attributes kept (text) have distinct names.
pub proof fn lemma_kept_attrs_distinct(a: Seq<(Seq<char>, Seq<Seq<char>>)>, allow: Seq<(Seq<char>, AllowedAttribute)>)
    ensures
        distinct_keys(kept_attrs(a, allow)),
    decreases a.len(),
{
    if a.len() > 0 {
        lemma_kept_attrs_distinct(a.drop_last(), allow);
        let k = unicode_lowercase(a.last().0);
        lemma_gather_distinct(kept_attrs(a.drop_last(), allow), k, a.last().1);
    }
}

/// With names distinct once lower-cased, each kept attribute (text) holds its own values
/// under its lower-cased name, and only kept names of the entry are held.
proof fn lemma_kept_attrs_lookup(a: Seq<(Seq<char>, Seq<Seq<char>>)>, allow: Seq<(Seq<char>, AllowedAttribute)>)
    requires
        lower_names_distinct(a),
    ensures
        forall|i: int|
            #![trigger a[i]]
            0 <= i < a.len() && has_key(allow, unicode_lowercase(a[i].0)) ==> lookup(kept_attrs(a, allow), unicode_lowercase(a[i].0)) == Some(a[i].1),
        forall|k: Seq<char>|
            #[trigger] has_key(kept_attrs(a, allow), k) ==> has_key(allow, k) && exists|i: int| 0 <= i < a.len() && unicode_lowercase(a[i].0) == k,
    decreases a.len(),
{
    if a.len() > 0 {
        let t = a.drop_last();
        let x = a.last();
        let n = a.len() - 1;
        assert(x == a[n]);
        assert forall|i: int, j: int| 0 <= i < t.len() && 0 <= j < t.len() && i != j implies unicode_lowercase(#[trigger] t[i].0) != unicode_lowercase(#[trigger] t[j].0) by {
            assert(t[i] == a[i]);
            assert(t[j] == a[j]);
        }
        lemma_kept_attrs_lookup(t, allow);
        let rest = kept_attrs(t, allow);
        let k = unicode_lowercase(x.0);
        if has_key(allow, k) {
            assert(!has_key(rest, k)) by {
                if has_key(rest, k) {
                    let i = choose|i: int| 0 <= i < t.len() && unicode_lowercase(t[i].0) == k;
                    assert(t[i] == a[i]);
                    assert(unicode_lowercase(a[i].0) != unicode_lowercase(a[n].0));
                }
            }
            assert(kept_attrs(a, allow) == rest.push((k, x.1)));
            assert forall|i: int|
                #![trigger a[i]]
                0 <= i < a.len() && has_key(allow, unicode_lowercase(a[i].0)) implies lookup(kept_attrs(a, allow), unicode_lowercase(a[i].0)) == Some(a[i].1) by {
                lemma_lookup_push(rest, k, x.1, unicode_lowercase(a[i].0));
                if i < n {
                    assert(t[i] == a[i]);
                    assert(unicode_lowercase(a[i].0) != unicode_lowercase(a[n].0));
                }
            }
            assert forall|q: Seq<char>| #[trigger] has_key(kept_attrs(a, allow), q) implies has_key(allow, q) && exists|i: int| 0 <= i < a.len() && unicode_lowercase(a[i].0) == q by {
                lemma_has_key_push(rest, (k, x.1), q);
                if has_key(rest, q) {
                    let i = choose|i: int| 0 <= i < t.len() && unicode_lowercase(t[i].0) == q;
                    assert(t[i] == a[i]);
                }
            }
        } else {
            assert(kept_attrs(a, allow) == rest);
            assert forall|i: int|
                #![trigger a[i]]
                0 <= i < a.len() && has_key(allow, unicode_lowercase(a[i].0)) implies lookup(kept_attrs(a, allow), unicode_lowercase(a[i].0)) == Some(a[i].1) by {
                if i < n {
                    assert(t[i] == a[i]);
                }
            }
            assert forall|q: Seq<char>| #[trigger] has_key(kept_attrs(a, allow), q) implies has_key(allow, q) && exists|i: int| 0 <= i < a.len() && unicode_lowercase(a[i].0) == q by {
                let i = choose|i: int| 0 <= i < t.len() && unicode_lowercase(t[i].0) == q;
                assert(t[i] == a[i]);
            }
        }
    }
}

/// Sorting the values of each entry (text) keeps the names and sorts what each name holds.
proof fn lemma_with_sorted_texts_lookup(e: Seq<(Seq<char>, Seq<Seq<char>>)>)
    requires
        distinct_keys(e),
    ensures
        distinct_keys(with_sorted_texts(e)),
        forall|k: Seq<char>| #[trigger] lookup(with_sorted_texts(e), k) == match lookup(e, k) {
            Some(v) => Some(sort_texts(v)),
            None => None,
        },
{
    lemma_with_sorted_texts_positions(e);
    let w = with_sorted_texts(e);
    assert(entry_names(w) =~= entry_names(e));
    lemma_distinct_names(e);
    lemma_distinct_names(w);
    assert forall|k: Seq<char>| #[trigger] lookup(w, k) == match lookup(e, k) {
        Some(v) => Some(sort_texts(v)),
        None => None,
    } by {
        if has_key(e, k) {
            lemma_has_key_first(e, k);
            let i = first_key_index(e, k);
            assert forall|j: int| 0 <= j < i implies w[j].0 != k by {
                assert(w[j].0 == e[j].0);
            }
            assert(w[i].0 == k);
            lemma_first_key_index(w, k, i);
        } else {
            assert forall|j: int| 0 <= j < w.len() implies w[j].0 != k by {
                assert(w[j].0 == e[j].0);
            }
        }
    }
}

/// Sorting the values of each entry (text) works position by position.
proof fn lemma_with_sorted_texts_positions(e: Seq<(Seq<char>, Seq<Seq<char>>)>)
    ensures
        with_sorted_texts(e).len() == e.len(),
        forall|i: int| 0 <= i < e.len() ==> #[trigger] with_sorted_texts(e)[i] == (e[i].0, sort_texts(e[i].1)),
    decreases e.len(),
{
    if e.len() > 0 {
        lemma_with_sorted_texts_positions(e.drop_last());
        let p = with_sorted_texts(e.drop_last());
        assert forall|i: int| 0 <= i < e.len() implies #[trigger] with_sorted_texts(e)[i] == (e[i].0, sort_texts(e[i].1)) by {
            if i < p.len() {
                assert(with_sorted_texts(e)[i] == p[i]);
                assert(e.drop_last()[i] == e[i]);
            }
        }
    }
}

/// Entries (text) that are alike where kept give the same recorded attributes.
proof fn lemma_object_attrs_alike(
    a1: Seq<(Seq<char>, Seq<Seq<char>>)>,
    a2: Seq<(Seq<char>, Seq<Seq<char>>)>,
    allow: Seq<(Seq<char>, AllowedAttribute)>,
)
    requires
        alike_where(a1, a2, |k: Seq<char>| has_key(allow, k)),
    ensures
        object_attrs(a1, allow) == object_attrs(a2, allow),
{
    let keep = |k: Seq<char>| has_key(allow, k);
    let k1 = kept_attrs(a1, allow);
    let k2 = kept_attrs(a2, allow);
    lemma_kept_attrs_distinct(a1, allow);
    lemma_kept_attrs_distinct(a2, allow);
    lemma_kept_attrs_lookup(a1, allow);
    lemma_kept_attrs_lookup(a2, allow);
    lemma_with_sorted_texts_lookup(k1);
    lemma_with_sorted_texts_lookup(k2);
    let w1 = with_sorted_texts(k1);
    let w2 = with_sorted_texts(k2);
    assert forall|q: Seq<char>| #[trigger] lookup(w1, q) == lookup(w2, q) by {
        if has_key(k1, q) {
            let i = choose|i: int| 0 <= i < a1.len() && unicode_lowercase(a1[i].0) == q;
            assert(keep(unicode_lowercase(a1[i].0)));
            let j = choose|j: int|
                #![trigger a2[j]]
                0 <= j < a2.len() && unicode_lowercase(a2[j].0) == unicode_lowercase(a1[i].0)
                    && a2[j].1.to_multiset() == a1[i].1.to_multiset();
            assert(lookup(k1, q) == Some(a1[i].1));
            assert(lookup(k2, q) == Some(a2[j].1));
            lemma_sort_texts_ignores_order(a1[i].1, a2[j].1);
        } else if has_key(k2, q) {
            let j = choose|j: int| 0 <= j < a2.len() && unicode_lowercase(a2[j].0) == q;
            assert(keep(unicode_lowercase(a2[j].0)));
            let i = choose|i: int|
                #![trigger a1[i]]
                0 <= i < a1.len() && unicode_lowercase(a1[i].0) == unicode_lowercase(a2[j].0)
                    && a1[i].1.to_multiset() == a2[j].1.to_multiset();
            assert(lookup(k1, q) == Some(a1[i].1));
            assert(has_key(k1, q));
        }
    }
    lemma_sorted_entries_equal(w1, w2);
}

/// The attributes kept (binary) have distinct names.
pub proof fn lemma_kept_bin_attrs_distinct(a: Seq<(Seq<char>, Seq<Seq<u8>>)>, allow: Seq<(Seq<char>, AllowedAttribute)>)
    ensures
        distinct_keys(kept_bin_attrs(a, allow)),
    decreases a.len(),
{
    if a.len() > 0 {
        lemma_kept_bin_attrs_distinct(a.drop_last(), allow);
        let k = unicode_lowercase(a.last().0);
        lemma_gather_distinct(kept_bin_attrs(a.drop_last(), allow), k, a.last().1);
    }
}

/// With names distinct once lower-cased, each kept attribute (binary) holds its own values
/// under its lower-cased name, and only kept names of the entry are held.
proof fn lemma_kept_bin_attrs_lookup(a: Seq<(Seq<char>, Seq<Seq<u8>>)>, allow: Seq<(Seq<char>, AllowedAttribute)>)
    requires
        lower_names_distinct(a),
    ensures
        forall|i: int|
            #![trigger a[i]]
            0 <= i < a.len() && (unicode_lowercase(a[i].0) != "ntsecuritydescriptor"@ && has_key(allow, unicode_lowercase(a[i].0))) ==> lookup(kept_bin_attrs(a, allow), unicode_lowercase(a[i].0)) == Some(a[i].1),
        forall|k: Seq<char>|
            #[trigger] has_key(kept_bin_attrs(a, allow), k) ==> (k != "ntsecuritydescriptor"@ && has_key(allow, k)) && exists|i: int| 0 <= i < a.len() && unicode_lowercase(a[i].0) == k,
    decreases a.len(),
{
    if a.len() > 0 {
        let t = a.drop_last();
        let x = a.last();
        let n = a.len() - 1;
        assert(x == a[n]);
        assert forall|i: int, j: int| 0 <= i < t.len() && 0 <= j < t.len() && i != j implies unicode_lowercase(#[trigger] t[i].0) != unicode_lowercase(#[trigger] t[j].0) by {
            assert(t[i] == a[i]);
            assert(t[j] == a[j]);
        }
        lemma_kept_bin_attrs_lookup(t, allow);
        let rest = kept_bin_attrs(t, allow);
        let k = unicode_lowercase(x.0);
        if (k != "ntsecuritydescriptor"@ && has_key(allow, k)) {
            assert(!has_key(rest, k)) by {
                if has_key(rest, k) {
                    let i = choose|i: int| 0 <= i < t.len() && unicode_lowercase(t[i].0) == k;
                    assert(t[i] == a[i]);
                    assert(unicode_lowercase(a[i].0) != unicode_lowercase(a[n].0));
                }
            }
            assert(kept_bin_attrs(a, allow) == rest.push((k, x.1)));
            assert forall|i: int|
                #![trigger a[i]]
                0 <= i < a.len() && (unicode_lowercase(a[i].0) != "ntsecuritydescriptor"@ && has_key(allow, unicode_lowercase(a[i].0))) implies lookup(kept_bin_attrs(a, allow), unicode_lowercase(a[i].0)) == Some(a[i].1) by {
                lemma_lookup_push(rest, k, x.1, unicode_lowercase(a[i].0));
                if i < n {
                    assert(t[i] == a[i]);
                    assert(unicode_lowercase(a[i].0) != unicode_lowercase(a[n].0));
                }
            }
            assert forall|q: Seq<char>| #[trigger] has_key(kept_bin_attrs(a, allow), q) implies (q != "ntsecuritydescriptor"@ && has_key(allow, q)) && exists|i: int| 0 <= i < a.len() && unicode_lowercase(a[i].0) == q by {
                lemma_has_key_push(rest, (k, x.1), q);
                if has_key(rest, q) {
                    let i = choose|i: int| 0 <= i < t.len() && unicode_lowercase(t[i].0) == q;
                    assert(t[i] == a[i]);
                }
            }
        } else {
            assert(kept_bin_attrs(a, allow) == rest);
            assert forall|i: int|
                #![trigger a[i]]
                0 <= i < a.len() && (unicode_lowercase(a[i].0) != "ntsecuritydescriptor"@ && has_key(allow, unicode_lowercase(a[i].0))) implies lookup(kept_bin_attrs(a, allow), unicode_lowercase(a[i].0)) == Some(a[i].1) by {
                if i < n {
                    assert(t[i] == a[i]);
                }
            }
            assert forall|q: Seq<char>| #[trigger] has_key(kept_bin_attrs(a, allow), q) implies (q != "ntsecuritydescriptor"@ && has_key(allow, q)) && exists|i: int| 0 <= i < a.len() && unicode_lowercase(a[i].0) == q by {
                let i = choose|i: int| 0 <= i < t.len() && unicode_lowercase(t[i].0) == q;
                assert(t[i] == a[i]);
            }
        }
    }
}

/// Sorting the values of each entry (binary) keeps the names and sorts what each name holds.
proof fn lemma_with_sorted_bytes_lookup(e: Seq<(Seq<char>, Seq<Seq<u8>>)>)
    requires
        distinct_keys(e),
    ensures
        distinct_keys(with_sorted_bytes(e)),
        forall|k: Seq<char>| #[trigger] lookup(with_sorted_bytes(e), k) == match lookup(e, k) {
            Some(v) => Some(sort_byte_strings_spec(v)),
            None => None,
        },
{
    lemma_with_sorted_bytes_positions(e);
    let w = with_sorted_bytes(e);
    assert(entry_names(w) =~= entry_names(e));
    lemma_distinct_names(e);
    lemma_distinct_names(w);
    assert forall|k: Seq<char>| #[trigger] lookup(w, k) == match lookup(e, k) {
        Some(v) => Some(sort_byte_strings_spec(v)),
        None => None,
    } by {
        if has_key(e, k) {
            lemma_has_key_first(e, k);
            let i = first_key_index(e, k);
            assert forall|j: int| 0 <= j < i implies w[j].0 != k by {
                assert(w[j].0 == e[j].0);
            }
            assert(w[i].0 == k);
            lemma_first_key_index(w, k, i);
        } else {
            assert forall|j: int| 0 <= j < w.len() implies w[j].0 != k by {
                assert(w[j].0 == e[j].0);
            }
        }
    }
}

/// Sorting the values of each entry (binary) works position by position.
proof fn lemma_with_sorted_bytes_positions(e: Seq<(Seq<char>, Seq<Seq<u8>>)>)
    ensures
        with_sorted_bytes(e).len() == e.len(),
        forall|i: int| 0 <= i < e.len() ==> #[trigger] with_sorted_bytes(e)[i] == (e[i].0, sort_byte_strings_spec(e[i].1)),
    decreases e.len(),
{
    if e.len() > 0 {
        lemma_with_sorted_bytes_positions(e.drop_last());
        let p = with_sorted_bytes(e.drop_last());
        assert forall|i: int| 0 <= i < e.len() implies #[trigger] with_sorted_bytes(e)[i] == (e[i].0, sort_byte_strings_spec(e[i].1)) by {
            if i < p.len() {
                assert(with_sorted_bytes(e)[i] == p[i]);
                assert(e.drop_last()[i] == e[i]);
            }
        }
    }
}

/// Entries (binary) that are alike where kept give the same recorded attributes.
proof fn lemma_object_bin_attrs_alike(
    a1: Seq<(Seq<char>, Seq<Seq<u8>>)>,
    a2: Seq<(Seq<char>, Seq<Seq<u8>>)>,
    allow: Seq<(Seq<char>, AllowedAttribute)>,
)
    requires
        alike_where(a1, a2, |k: Seq<char>| (k != "ntsecuritydescriptor"@ && has_key(allow, k))),
    ensures
        object_bin_attrs(a1, allow) == object_bin_attrs(a2, allow),
{
    let keep = |k: Seq<char>| (k != "ntsecuritydescriptor"@ && has_key(allow, k));
    let k1 = kept_bin_attrs(a1, allow);
    let k2 = kept_bin_attrs(a2, allow);
    lemma_kept_bin_attrs_distinct(a1, allow);
    lemma_kept_bin_attrs_distinct(a2, allow);
    lemma_kept_bin_attrs_lookup(a1, allow);
    lemma_kept_bin_attrs_lookup(a2, allow);
    lemma_with_sorted_bytes_lookup(k1);
    lemma_with_sorted_bytes_lookup(k2);
    let w1 = with_sorted_bytes(k1);
    let w2 = with_sorted_bytes(k2);
    assert forall|q: Seq<char>| #[trigger] lookup(w1, q) == lookup(w2, q) by {
        if has_key(k1, q) {
            let i = choose|i: int| 0 <= i < a1.len() && unicode_lowercase(a1[i].0) == q;
            assert(keep(unicode_lowercase(a1[i].0)));
            let j = choose|j: int|
                #![trigger a2[j]]
                0 <= j < a2.len() && unicode_lowercase(a2[j].0) == unicode_lowercase(a1[i].0)
                    && a2[j].1.to_multiset() == a1[i].1.to_multiset();
            assert(lookup(k1, q) == Some(a1[i].1));
            assert(lookup(k2, q) == Some(a2[j].1));
            lemma_sort_bytes_ignores_order(a1[i].1, a2[j].1);
        } else if has_key(k2, q) {
            let j = choose|j: int| 0 <= j < a2.len() && unicode_lowercase(a2[j].0) == q;
            assert(keep(unicode_lowercase(a2[j].0)));
            let i = choose|i: int|
                #![trigger a1[i]]
                0 <= i < a1.len() && unicode_lowercase(a1[i].0) == unicode_lowercase(a2[j].0)
                    && a1[i].1.to_multiset() == a2[j].1.to_multiset();
            assert(lookup(k1, q) == Some(a1[i].1));
            assert(has_key(k1, q));
        }
    }
    lemma_sorted_entries_equal(w1, w2);
}

/// What a snapshot records of an object's attributes, and its hash, depend neither on the
/// case of the attribute names, nor on the order of the values of an attribute, nor on the
/// attributes the control set does not keep, nor on the security descriptor among the
/// binary attributes: entries alike in all else give the same attributes and hash.
pub proof fn law_snapshot_ignores_case_order_and_unkept(
    dn1: Seq<char>,
    dn2: Seq<char>,
    attrs1: Seq<(Seq<char>, Seq<Seq<char>>)>,
    attrs2: Seq<(Seq<char>, Seq<Seq<char>>)>,
    bins1: Seq<(Seq<char>, Seq<Seq<u8>>)>,
    bins2: Seq<(Seq<char>, Seq<Seq<u8>>)>,
    allow: Seq<(Seq<char>, AllowedAttribute)>,
)
    requires
        alike_where(attrs1, attrs2, |k: Seq<char>| has_key(allow, k)),
        alike_where(bins1, bins2, |k: Seq<char>| k != "ntsecuritydescriptor"@ && has_key(allow, k)),
    ensures
        object_of(dn1, attrs1, bins1, allow).attributes == object_of(dn2, attrs2, bins2, allow).attributes,
        object_of(dn1, attrs1, bins1, allow).bin_attributes == object_of(dn2, attrs2, bins2, allow).bin_attributes,
        object_of(dn1, attrs1, bins1, allow).hash == object_of(dn2, attrs2, bins2, allow).hash,
{
    lemma_object_attrs_alike(attrs1, attrs2, allow);
    lemma_object_bin_attrs_alike(bins1, bins2, allow);
}

/// A snapshot records the object's classes as the entry gives them, in the entry's order
/// (most specific last), and its DN as the entry's; an entry with no `objectClass` gives no
/// class.
pub proof fn law_snapshot_keeps_classes_in_entry_order(
    dn: Seq<char>,
    attrs: Seq<(Seq<char>, Seq<Seq<char>>)>,
    bins: Seq<(Seq<char>, Seq<Seq<u8>>)>,
    allow: Seq<(Seq<char>, AllowedAttribute)>,
    i: int,
)
    requires
        0 <= i < attrs.len(),
        attrs[i].0 == "objectClass"@,
        forall|j: int| 0 <= j < i ==> attrs[j].0 != "objectClass"@,
    ensures
        object_of(dn, attrs, bins, allow).object_class == attrs[i].1,
        object_of(dn, attrs, bins, allow).dn == dn,
{
    lemma_first_key_index(attrs, "objectClass"@, i);
}

/// An entry with no `objectClass` attribute gives an object with no class.
pub proof fn law_snapshot_without_classes(
    dn: Seq<char>,
    attrs: Seq<(Seq<char>, Seq<Seq<char>>)>,
    bins: Seq<(Seq<char>, Seq<Seq<u8>>)>,
    allow: Seq<(Seq<char>, AllowedAttribute)>,
)
    requires
        forall|j: int| 0 <= j < attrs.len() ==> attrs[j].0 != "objectClass"@,
    ensures
        object_of(dn, attrs, bins, allow).object_class.len() == 0,
{
    if has_key(attrs, "objectClass"@) {
        let c = first_key_index(attrs, "objectClass"@);
        assert(attrs[c].0 == "objectClass"@);
    }
}

/// The attributes a snapshot records have distinct names.
pub proof fn lemma_recorded_attributes_distinct(
    attrs: Seq<(Seq<char>, Seq<Seq<char>>)>,
    bins: Seq<(Seq<char>, Seq<Seq<u8>>)>,
    allow: Seq<(Seq<char>, AllowedAttribute)>,
)
    ensures
        distinct_keys(object_attrs(attrs, allow)),
        distinct_keys(object_bin_attrs(bins, allow)),
{
    lemma_kept_attrs_distinct(attrs, allow);
    lemma_with_sorted_texts_lookup(kept_attrs(attrs, allow));
    lemma_sort_entries_distinct(with_sorted_texts(kept_attrs(attrs, allow)));
    lemma_kept_bin_attrs_distinct(bins, allow);
    lemma_with_sorted_bytes_lookup(kept_bin_attrs(bins, allow));
    lemma_sort_entries_distinct(with_sorted_bytes(kept_bin_attrs(bins, allow)));
}

} // verus!
