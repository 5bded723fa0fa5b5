//! Lexicographic order of texts and byte strings, and the sorts that snapshots apply to
//! attribute values and names.
use vstd::prelude::*;

use crate::text::chars_of;

verus! {

/// `a` comes before `b`: at the first position where they differ `a` has the smaller
/// character, or `a` is a proper prefix of `b` (the order of `String`).
pub open spec fn text_lt(a: Seq<char>, b: Seq<char>) -> bool {
    exists|i: int| #[trigger] text_lt_at(a, b, i)
}

/// `a` and `b` agree before position `i`, where `a` ends and `b` does not, or `a` has the
/// smaller character.
pub open spec fn text_lt_at(a: Seq<char>, b: Seq<char>, i: int) -> bool {
    0 <= i <= a.len() && i <= b.len() && (forall|j: int| 0 <= j < i ==> a[j] == b[j]) && (
        (i == a.len() && i < b.len()) || (i < a.len() && i < b.len() && a[i] < b[i]))
}

/// `a` comes before `b` in the lexicographic order of bytes (the order of `Vec<u8>`).
pub open spec fn bytes_lt(a: Seq<u8>, b: Seq<u8>) -> bool {
    exists|i: int| #[trigger] bytes_lt_at(a, b, i)
}

/// `a` and `b` agree before position `i`, where `a` ends and `b` does not, or `a` has the
/// smaller byte.
pub open spec fn bytes_lt_at(a: Seq<u8>, b: Seq<u8>, i: int) -> bool {
    0 <= i <= a.len() && i <= b.len() && (forall|j: int| 0 <= j < i ==> a[j] == b[j]) && (
        (i == a.len() && i < b.len()) || (i < a.len() && i < b.len() && a[i] < b[i]))
}

/// `x` inserted into `s` after every trailing element it does not precede.
pub open spec fn insert_text(s: Seq<Seq<char>>, x: Seq<char>) -> Seq<Seq<char>>
    decreases s.len(),
{
    if s.len() == 0 {
        seq![x]
    } else if !text_lt(x, s.last()) {
        s.push(x)
    } else {
        insert_text(s.drop_last(), x).push(s.last())
    }
}

/// The texts of `s` in ascending order (insertion sort).
pub open spec fn sort_texts(s: Seq<Seq<char>>) -> Seq<Seq<char>>
    decreases s.len(),
{
    if s.len() == 0 {
        Seq::empty()
    } else {
        insert_text(sort_texts(s.drop_last()), s.last())
    }
}

/// `x` inserted into `s` after every trailing element it does not precede.
pub open spec fn insert_bytes(s: Seq<Seq<u8>>, x: Seq<u8>) -> Seq<Seq<u8>>
    decreases s.len(),
{
    if s.len() == 0 {
        seq![x]
    } else if !bytes_lt(x, s.last()) {
        s.push(x)
    } else {
        insert_bytes(s.drop_last(), x).push(s.last())
    }
}

/// The byte strings of `s` in ascending order (insertion sort).
pub open spec fn sort_byte_strings_spec(s: Seq<Seq<u8>>) -> Seq<Seq<u8>>
    decreases s.len(),
{
    if s.len() == 0 {
        Seq::empty()
    } else {
        insert_bytes(sort_byte_strings_spec(s.drop_last()), s.last())
    }
}

/// `x` inserted into `s` after every trailing entry whose name it does not precede.
pub open spec fn insert_entry<V>(s: Seq<(Seq<char>, V)>, x: (Seq<char>, V)) -> Seq<(Seq<char>, V)>
    decreases s.len(),
{
    if s.len() == 0 {
        seq![x]
    } else if !text_lt(x.0, s.last().0) {
        s.push(x)
    } else {
        insert_entry(s.drop_last(), x).push(s.last())
    }
}

/// The entries of `s` in ascending order of name (insertion sort).
pub open spec fn sort_entries<V>(s: Seq<(Seq<char>, V)>) -> Seq<(Seq<char>, V)>
    decreases s.len(),
{
    if s.len() == 0 {
        Seq::empty()
    } else {
        insert_entry(sort_entries(s.drop_last()), s.last())
    }
}

/// Whether `a` comes before `b`.
pub fn text_less(a: &str, b: &str) -> (r: bool)
    ensures
        r == text_lt(a@, b@),
{
    let va = chars_of(a);
    let vb = chars_of(b);
    let mut i: usize = 0;
    while i < va.len() && i < vb.len() && va[i] == vb[i]
        invariant
            va@ == a@,
            vb@ == b@,
            i <= va.len(),
            i <= vb.len(),
            forall|j: int| 0 <= j < i ==> a@[j] == b@[j],
        decreases va.len() - i,
    {
        i = i + 1;
    }
    let r = if i == va.len() {
        i < vb.len()
    } else if i == vb.len() {
        false
    } else {
        va[i] < vb[i]
    };
    proof {
        if r {
            let k = i as int;
            assert(0 <= k <= a@.len() && k <= b@.len() && (forall|j: int| 0 <= j < k ==> a@[j] == b@[j]));
            assert((k == a@.len() && k < b@.len()) || (k < a@.len() && k < b@.len() && a@[k] < b@[k]));
            assert(text_lt_at(a@, b@, k));
        } else {
            assert forall|k: int| !#[trigger] text_lt_at(a@, b@, k) by {
                if text_lt_at(a@, b@, k) && k > i {
                    assert(a@[i as int] == b@[i as int]);
                }
            }
        }
    }
    r
}

/// Whether `a` comes before `b`.
pub fn bytes_less(a: &Vec<u8>, b: &Vec<u8>) -> (r: bool)
    ensures
        r == bytes_lt(a@, b@),
{
    let mut i: usize = 0;
    while i < a.len() && i < b.len() && a[i] == b[i]
        invariant
            i <= a@.len(),
            i <= b@.len(),
            forall|j: int| 0 <= j < i ==> a@[j] == b@[j],
        decreases a.len() - i,
    {
        i = i + 1;
    }
    let r = if i == a.len() {
        i < b.len()
    } else if i == b.len() {
        false
    } else {
        a[i] < b[i]
    };
    proof {
        if r {
            assert(bytes_lt_at(a@, b@, i as int));
        } else {
            assert forall|k: int| !#[trigger] bytes_lt_at(a@, b@, k) by {
                if bytes_lt_at(a@, b@, k) && k > i {
                    assert(a@[i as int] == b@[i as int]);
                }
            }
        }
    }
    r
}

proof fn lemma_insert_text_at(s: Seq<Seq<char>>, x: Seq<char>, p: int)
    requires
        0 <= p <= s.len(),
        forall|j: int| p <= j < s.len() ==> text_lt(x, #[trigger] s[j]),
        p == 0 || !text_lt(x, s[p - 1]),
    ensures
        insert_text(s, x) == s.insert(p, x),
    decreases s.len(),
{
    if s.len() == 0 {
        assert(s.insert(p, x) =~= seq![x]);
    } else if p == s.len() {
        assert(s.insert(p, x) =~= s.push(x));
    } else {
        assert(text_lt(x, s[s.len() - 1]));
        lemma_insert_text_at(s.drop_last(), x, p);
        assert(s.drop_last().insert(p, x).push(s.last()) =~= s.insert(p, x));
    }
}

proof fn lemma_insert_bytes_at(s: Seq<Seq<u8>>, x: Seq<u8>, p: int)
    requires
        0 <= p <= s.len(),
        forall|j: int| p <= j < s.len() ==> bytes_lt(x, #[trigger] s[j]),
        p == 0 || !bytes_lt(x, s[p - 1]),
    ensures
        insert_bytes(s, x) == s.insert(p, x),
    decreases s.len(),
{
    if s.len() == 0 {
        assert(s.insert(p, x) =~= seq![x]);
    } else if p == s.len() {
        assert(s.insert(p, x) =~= s.push(x));
    } else {
        assert(bytes_lt(x, s[s.len() - 1]));
        lemma_insert_bytes_at(s.drop_last(), x, p);
        assert(s.drop_last().insert(p, x).push(s.last()) =~= s.insert(p, x));
    }
}

proof fn lemma_insert_entry_at<V>(s: Seq<(Seq<char>, V)>, x: (Seq<char>, V), p: int)
    requires
        0 <= p <= s.len(),
        forall|j: int| p <= j < s.len() ==> text_lt(x.0, #[trigger] s[j].0),
        p == 0 || !text_lt(x.0, s[p - 1].0),
    ensures
        insert_entry(s, x) == s.insert(p, x),
    decreases s.len(),
{
    if s.len() == 0 {
        assert(s.insert(p, x) =~= seq![x]);
    } else if p == s.len() {
        assert(s.insert(p, x) =~= s.push(x));
    } else {
        assert(text_lt(x.0, s[s.len() - 1].0));
        lemma_insert_entry_at(s.drop_last(), x, p);
        assert(s.drop_last().insert(p, x).push(s.last()) =~= s.insert(p, x));
    }
}

/// The texts of `v` in ascending order.
pub fn sort_strings(v: &Vec<String>) -> (r: Vec<String>)
    ensures
        r.deep_view() == sort_texts(v.deep_view()),
{
    let ghost vv = v.deep_view();
    let mut r: Vec<String> = Vec::new();
    for i in 0..v.len()
        invariant
            vv == v.deep_view(),
            r.deep_view() == sort_texts(vv.take(i as int)),
    {
        assert(vv.take(i + 1).drop_last() =~= vv.take(i as int));
        assert(vv.take(i + 1).last() == v@[i as int]@);
        let x = v[i].clone();
        let ghost rv = r.deep_view();
        let mut p: usize = r.len();
        while p > 0 && text_less(x.as_str(), r[p - 1].as_str())
            invariant
                p <= r@.len(),
                rv == r.deep_view(),
                forall|j: int| p <= j < rv.len() ==> text_lt(x@, #[trigger] rv[j]),
            decreases p,
        {
            assert(rv[p - 1] == r@[p - 1]@);
            p = p - 1;
        }
        proof {
            if p > 0 {
                assert(rv[p - 1] == r@[p - 1]@);
            }
            lemma_insert_text_at(rv, x@, p as int);
        }
        r.insert(p, x);
        assert(r.deep_view() =~= rv.insert(p as int, x@));
    }
    assert(vv.take(v.len() as int) =~= vv);
    r
}

/// The byte strings of `v` in ascending order.
pub fn sort_byte_strings(v: &Vec<Vec<u8>>) -> (r: Vec<Vec<u8>>)
    ensures
        r.deep_view() == sort_byte_strings_spec(v.deep_view()),
{
    let ghost vv = v.deep_view();
    let mut r: Vec<Vec<u8>> = Vec::new();
    for i in 0..v.len()
        invariant
            vv == v.deep_view(),
            r.deep_view() == sort_byte_strings_spec(vv.take(i as int)),
    {
        assert(vv.take(i + 1).drop_last() =~= vv.take(i as int));
        proof { crate::objects::lemma_bytes_deep_view(v@[i as int]); }
        assert(vv.take(i + 1).last() == v@[i as int]@);
        let x = crate::objects::copy_bytes(&v[i]);
        let ghost rv = r.deep_view();
        let mut p: usize = r.len();
        while p > 0 && bytes_less(&x, &r[p - 1])
            invariant
                p <= r@.len(),
                rv == r.deep_view(),
                forall|j: int| p <= j < rv.len() ==> bytes_lt(x@, #[trigger] rv[j]),
            decreases p,
        {
            proof { crate::objects::lemma_bytes_deep_view(r@[p - 1]); }
            assert(rv[p - 1] == r@[p - 1]@);
            p = p - 1;
        }
        proof {
            if p > 0 {
                crate::objects::lemma_bytes_deep_view(r@[p - 1]);
                assert(rv[p - 1] == r@[p - 1]@);
            }
            lemma_insert_bytes_at(rv, x@, p as int);
        }
        r.insert(p, x);
        proof { crate::objects::lemma_bytes_deep_view(x); }
        assert(r.deep_view() =~= rv.insert(p as int, x@));
    }
    assert(vv.take(v.len() as int) =~= vv);
    r
}

/// The text attribute entries of `v` in ascending order of name.
pub fn sort_text_entries(v: &Vec<(String, Vec<String>)>) -> (r: Vec<(String, Vec<String>)>)
    ensures
        r.deep_view() == sort_entries(v.deep_view()),
{
    let ghost vv = v.deep_view();
    let mut r: Vec<(String, Vec<String>)> = Vec::new();
    for i in 0..v.len()
        invariant
            vv == v.deep_view(),
            r.deep_view() == sort_entries(vv.take(i as int)),
    {
        assert(vv.take(i + 1).drop_last() =~= vv.take(i as int));
        let x = (v[i].0.clone(), crate::objects::copy_strings(&v[i].1));
        assert(x.deep_view() == vv[i as int]);
        assert(vv.take(i + 1).last() == x.deep_view());
        let ghost rv = r.deep_view();
        let mut p: usize = r.len();
        while p > 0 && text_less(x.0.as_str(), r[p - 1].0.as_str())
            invariant
                p <= r@.len(),
                rv == r.deep_view(),
                forall|j: int| p <= j < rv.len() ==> text_lt(x.0@, #[trigger] rv[j].0),
            decreases p,
        {
            assert(rv[p - 1].0 == r@[p - 1].0@);
            p = p - 1;
        }
        proof {
            if p > 0 {
                assert(rv[p - 1].0 == r@[p - 1].0@);
            }
            lemma_insert_entry_at(rv, x.deep_view(), p as int);
        }
        r.insert(p, x);
        assert(r.deep_view() =~= rv.insert(p as int, x.deep_view()));
    }
    assert(vv.take(v.len() as int) =~= vv);
    r
}

/// The binary attribute entries of `v` in ascending order of name.
pub fn sort_bin_entries(v: &Vec<(String, Vec<Vec<u8>>)>) -> (r: Vec<(String, Vec<Vec<u8>>)>)
    ensures
        r.deep_view() == sort_entries(v.deep_view()),
{
    let ghost vv = v.deep_view();
    let mut r: Vec<(String, Vec<Vec<u8>>)> = Vec::new();
    for i in 0..v.len()
        invariant
            vv == v.deep_view(),
            r.deep_view() == sort_entries(vv.take(i as int)),
    {
        assert(vv.take(i + 1).drop_last() =~= vv.take(i as int));
        let x = (v[i].0.clone(), crate::objects::copy_byte_strings(&v[i].1));
        assert(x.deep_view() == vv[i as int]);
        assert(vv.take(i + 1).last() == x.deep_view());
        let ghost rv = r.deep_view();
        let mut p: usize = r.len();
        while p > 0 && text_less(x.0.as_str(), r[p - 1].0.as_str())
            invariant
                p <= r@.len(),
                rv == r.deep_view(),
                forall|j: int| p <= j < rv.len() ==> text_lt(x.0@, #[trigger] rv[j].0),
            decreases p,
        {
            assert(rv[p - 1].0 == r@[p - 1].0@);
            p = p - 1;
        }
        proof {
            if p > 0 {
                assert(rv[p - 1].0 == r@[p - 1].0@);
            }
            lemma_insert_entry_at(rv, x.deep_view(), p as int);
        }
        r.insert(p, x);
        assert(r.deep_view() =~= rv.insert(p as int, x.deep_view()));
    }
    assert(vv.take(v.len() as int) =~= vv);
    r
}

} // verus!
