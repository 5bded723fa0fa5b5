//! Directory objects built from search entries: the attributes a snapshot keeps,
//! normalized, and the hash that tells whether an object changed.
use sha1::Digest;
use vstd::prelude::*;
use vstd::utf8::encode_utf8;

use crate::ldap::LdapSearchEntry;
use crate::objects::{
    copy_bytes, copy_strings, find_attr, find_bin_attr, first_key_index, has_key,
    lemma_bytes_deep_view, lemma_has_key_first, lookup, DirectoryObject, DirectoryObjectView,
};
use crate::ordering::{
    sort_bin_entries, sort_byte_strings, sort_byte_strings_spec, sort_entries, sort_strings,
    sort_text_entries, sort_texts,
};
use crate::schema::{AllowedAttribute, AttributeControlSet};
use crate::text::{
    contains, contains_spec, eq_ignore_ascii_case, eq_ignore_ascii_case_spec, str_eq,
    to_lowercase, unicode_lowercase,
};

verus! {

broadcast use vstd::string::group_string_axioms;

/// The values gathered under `k`: those of `acc`'s entry named `k` followed by `vals`, or a
/// new entry when `acc` has none.
pub open spec fn gather<V>(acc: Seq<(Seq<char>, Seq<V>)>, k: Seq<char>, vals: Seq<V>) -> Seq<(Seq<char>, Seq<V>)> {
    if has_key(acc, k) {
        let p = first_key_index(acc, k);
        acc.update(p, (k, acc[p].1 + vals))
    } else {
        acc.push((k, vals))
    }
}

/// The text attributes of a search entry that the allow list keeps, under their lower-cased
/// names; the values of names that only differ in case are gathered in entry order.
pub open spec fn kept_attrs(
    attrs: Seq<(Seq<char>, Seq<Seq<char>>)>,
    allow: Seq<(Seq<char>, AllowedAttribute)>,
) -> Seq<(Seq<char>, Seq<Seq<char>>)>
    decreases attrs.len(),
{
    if attrs.len() == 0 {
        Seq::empty()
    } else {
        let rest = kept_attrs(attrs.drop_last(), allow);
        let k = unicode_lowercase(attrs.last().0);
        if has_key(allow, k) {
            gather(rest, k, attrs.last().1)
        } else {
            rest
        }
    }
}

/// The binary attributes of a search entry that the allow list keeps (the security
/// descriptor aside), under their lower-cased names, values gathered in entry order.
pub open spec fn kept_bin_attrs(
    attrs: Seq<(Seq<char>, Seq<Seq<u8>>)>,
    allow: Seq<(Seq<char>, AllowedAttribute)>,
) -> Seq<(Seq<char>, Seq<Seq<u8>>)>
    decreases attrs.len(),
{
    if attrs.len() == 0 {
        Seq::empty()
    } else {
        let rest = kept_bin_attrs(attrs.drop_last(), allow);
        let k = unicode_lowercase(attrs.last().0);
        if k != "ntsecuritydescriptor"@ && has_key(allow, k) {
            gather(rest, k, attrs.last().1)
        } else {
            rest
        }
    }
}

/// Each entry with its values in ascending order.
pub open spec fn with_sorted_texts(e: Seq<(Seq<char>, Seq<Seq<char>>)>) -> Seq<(Seq<char>, Seq<Seq<char>>)>
    decreases e.len(),
{
    if e.len() == 0 {
        Seq::empty()
    } else {
        with_sorted_texts(e.drop_last()).push((e.last().0, sort_texts(e.last().1)))
    }
}

/// Each entry with its byte strings in ascending order.
pub open spec fn with_sorted_bytes(e: Seq<(Seq<char>, Seq<Seq<u8>>)>) -> Seq<(Seq<char>, Seq<Seq<u8>>)>
    decreases e.len(),
{
    if e.len() == 0 {
        Seq::empty()
    } else {
        with_sorted_bytes(e.drop_last()).push((e.last().0, sort_byte_strings_spec(e.last().1)))
    }
}

/// The text attributes a snapshot records for a search entry: the kept attributes, values
/// sorted, entries in ascending order of name.
pub open spec fn object_attrs(
    attrs: Seq<(Seq<char>, Seq<Seq<char>>)>,
    allow: Seq<(Seq<char>, AllowedAttribute)>,
) -> Seq<(Seq<char>, Seq<Seq<char>>)> {
    sort_entries(with_sorted_texts(kept_attrs(attrs, allow)))
}

/// The binary attributes a snapshot records for a search entry.
pub open spec fn object_bin_attrs(
    attrs: Seq<(Seq<char>, Seq<Seq<u8>>)>,
    allow: Seq<(Seq<char>, AllowedAttribute)>,
) -> Seq<(Seq<char>, Seq<Seq<u8>>)> {
    sort_entries(with_sorted_bytes(kept_bin_attrs(attrs, allow)))
}

/// The four big-endian bytes of `n` modulo 2^32.
pub open spec fn be32(n: nat) -> Seq<u8> {
    seq![(n / 16777216 % 256) as u8, (n / 65536 % 256) as u8, (n / 256 % 256) as u8, (n % 256) as u8]
}

/// A length-prefixed byte string: its length in four big-endian bytes, then its bytes.
pub open spec fn framed(b: Seq<u8>) -> Seq<u8> {
    be32(b.len()) + b
}

/// The framed UTF-8 encodings of `vals`, one after the other.
pub open spec fn framed_texts(vals: Seq<Seq<char>>) -> Seq<u8>
    decreases vals.len(),
{
    if vals.len() == 0 {
        Seq::empty()
    } else {
        framed_texts(vals.drop_last()) + framed(encode_utf8(vals.last()))
    }
}

/// The framed byte strings of `vals`, one after the other.
pub open spec fn framed_bytes(vals: Seq<Seq<u8>>) -> Seq<u8>
    decreases vals.len(),
{
    if vals.len() == 0 {
        Seq::empty()
    } else {
        framed_bytes(vals.drop_last()) + framed(vals.last())
    }
}

/// For each text attribute: its framed name, its number of values, its framed values in
/// ascending order.
pub open spec fn text_attrs_bytes(e: Seq<(Seq<char>, Seq<Seq<char>>)>) -> Seq<u8>
    decreases e.len(),
{
    if e.len() == 0 {
        Seq::empty()
    } else {
        text_attrs_bytes(e.drop_last()) + framed(encode_utf8(e.last().0)) + be32(e.last().1.len()) + framed_texts(sort_texts(e.last().1))
    }
}

/// For each binary attribute: its framed name, its number of values, its framed values in
/// ascending order.
pub open spec fn bin_attrs_bytes(e: Seq<(Seq<char>, Seq<Seq<u8>>)>) -> Seq<u8>
    decreases e.len(),
{
    if e.len() == 0 {
        Seq::empty()
    } else {
        bin_attrs_bytes(e.drop_last()) + framed(encode_utf8(e.last().0)) + be32(e.last().1.len()) + framed_bytes(sort_byte_strings_spec(e.last().1))
    }
}

/// The bytes that are hashed for an object: its text attributes, then its binary attributes,
/// each in ascending order of name.
pub open spec fn hash_input(
    attrs: Seq<(Seq<char>, Seq<Seq<char>>)>,
    bins: Seq<(Seq<char>, Seq<Seq<u8>>)>,
) -> Seq<u8> {
    text_attrs_bytes(sort_entries(attrs)) + bin_attrs_bytes(sort_entries(bins))
}

/// The SHA-1 digest of `data`.
pub uninterp spec fn sha1_digest(data: Seq<u8>) -> Seq<u8>;

/// sha1's `Sha1::digest`. Trusted: the digest depends on the data alone and is 20 bytes
/// long (the output size of `Sha1`); which bytes it holds is left to the name.
#[verifier::external_body]
fn sha1(data: &[u8]) -> (r: Vec<u8>)
    ensures
        r@ == sha1_digest(data@),
        r@.len() == 20,
{
    sha1::Sha1::digest(data).to_vec()
}

/// The upper-case hexadecimal digit for `d < 16`.
pub open spec fn hex_digit(d: int) -> char {
    if d < 10 {
        ((48 + d) as u32) as char
    } else {
        ((55 + d) as u32) as char
    }
}

/// Upper-case hexadecimal of `b`: two digits per byte, high nibble first.
pub open spec fn hex_upper(b: Seq<u8>) -> Seq<char>
    decreases b.len(),
{
    if b.len() == 0 {
        Seq::empty()
    } else {
        hex_upper(b.drop_last()) + seq![hex_digit(b.last() as int / 16), hex_digit(b.last() as int % 16)]
    }
}

/// hex's `encode_upper`. Trusted: each byte becomes two digits of `0123456789ABCDEF`, the
/// high nibble first, in order.
#[verifier::external_body]
fn encode_upper(data: &[u8]) -> (r: String)
    ensures
        r@ == hex_upper(data@),
{
    hex::encode_upper(data)
}

/// An upper-case hexadecimal digit: `0`-`9` or `A`-`F`.
pub open spec fn is_upper_hex(c: char) -> bool {
    (48 <= c as u32 && c as u32 <= 57) || (65 <= c as u32 && c as u32 <= 70)
}

/// Hexadecimal of `b` has two upper-case digits per byte.
proof fn lemma_hex_upper_shape(b: Seq<u8>)
    ensures
        hex_upper(b).len() == 2 * b.len(),
        forall|i: int| 0 <= i < hex_upper(b).len() ==> is_upper_hex(#[trigger] hex_upper(b)[i]),
    decreases b.len(),
{
    if b.len() > 0 {
        lemma_hex_upper_shape(b.drop_last());
        let p = hex_upper(b.drop_last());
        let hi = b.last() as int / 16;
        let lo = b.last() as int % 16;
        let t = seq![hex_digit(hi), hex_digit(lo)];
        assert(hex_upper(b) == p + t);
        assert(is_upper_hex(hex_digit(hi)));
        assert(is_upper_hex(hex_digit(lo)));
        assert forall|i: int| 0 <= i < (p + t).len() implies is_upper_hex(#[trigger] (p + t)[i]) by {
            if i < p.len() {
                assert((p + t)[i] == p[i]);
            } else {
                assert((p + t)[i] == t[i - p.len()]);
            }
        }
    }
}

/// The hash of an object's attributes: upper-case hex of the SHA-1 of `hash_input`.
pub open spec fn object_hash(
    attrs: Seq<(Seq<char>, Seq<Seq<char>>)>,
    bins: Seq<(Seq<char>, Seq<Seq<u8>>)>,
) -> Seq<char> {
    hex_upper(sha1_digest(hash_input(attrs, bins)))
}


/// Appends the four big-endian bytes of `n` modulo 2^32.
fn push_be32(buf: &mut Vec<u8>, n: usize)
    ensures
        final(buf)@ == old(buf)@ + be32(n as nat),
{
    let m: u64 = n as u64;
    buf.push((m / 16777216 % 256) as u8);
    buf.push((m / 65536 % 256) as u8);
    buf.push((m / 256 % 256) as u8);
    buf.push((m % 256) as u8);
    assert(buf@ =~= old(buf)@ + be32(n as nat));
}

/// Appends the bytes of `b`.
fn push_bytes(buf: &mut Vec<u8>, b: &[u8])
    ensures
        final(buf)@ == old(buf)@ + b@,
{
    let ghost start = buf@;
    for i in 0..b.len()
        invariant
            buf@ == start + b@.take(i as int),
    {
        buf.push(b[i]);
        assert(buf@ =~= start + b@.take(i + 1));
    }
    assert(b@.take(b.len() as int) =~= b@);
}

/// Appends `b` with its length prefix.
fn push_framed(buf: &mut Vec<u8>, b: &[u8])
    ensures
        final(buf)@ == old(buf)@ + framed(b@),
{
    push_be32(buf, b.len());
    push_bytes(buf, b);
    assert(buf@ =~= old(buf)@ + framed(b@));
}

/// The hash of an object's attributes: upper-case hex of the SHA-1 of its text attributes,
/// then its binary attributes, each in ascending order of name, every name and value
/// length-prefixed and the values of each attribute in ascending order.
pub fn compute_hash(attributes: &Vec<(String, Vec<String>)>, bin_attributes: &Vec<(String, Vec<Vec<u8>>)>) -> (r: String)
    ensures
        r@ == object_hash(attributes.deep_view(), bin_attributes.deep_view()),
        r@.len() == 40,
        forall|i: int| 0 <= i < r@.len() ==> is_upper_hex(#[trigger] r@[i]),
{
    let mut buf: Vec<u8> = Vec::new();
    let keys = sort_text_entries(attributes);
    let ghost kv = keys.deep_view();
    for i in 0..keys.len()
        invariant
            kv == keys.deep_view(),
            buf@ == text_attrs_bytes(kv.take(i as int)),
    {
        assert(kv.take(i + 1).drop_last() =~= kv.take(i as int));
        assert(kv.take(i + 1).last() == kv[i as int]);
        assert(kv[i as int].0 == keys@[i as int].0@);
        assert(kv[i as int].1 == keys@[i as int].1.deep_view());
        let ghost before = buf@;
        push_framed(&mut buf, keys[i].0.as_str().as_bytes());
        push_be32(&mut buf, keys[i].1.len());
        let values = sort_strings(&keys[i].1);
        let ghost vv = values.deep_view();
        let ghost mid = buf@;
        for j in 0..values.len()
            invariant
                vv == values.deep_view(),
                buf@ == mid + framed_texts(vv.take(j as int)),
        {
            assert(vv.take(j + 1).drop_last() =~= vv.take(j as int));
            assert(vv.take(j + 1).last() == values@[j as int]@);
            push_framed(&mut buf, values[j].as_str().as_bytes());
            assert(buf@ =~= mid + framed_texts(vv.take(j + 1)));
        }
        assert(vv.take(values.len() as int) =~= vv);
        assert(buf@ =~= text_attrs_bytes(kv.take(i + 1)));
    }
    assert(kv.take(keys.len() as int) =~= kv);
    let ghost text_part = buf@;
    let bins = sort_bin_entries(bin_attributes);
    let ghost bv = bins.deep_view();
    for i in 0..bins.len()
        invariant
            bv == bins.deep_view(),
            buf@ == text_part + bin_attrs_bytes(bv.take(i as int)),
    {
        assert(bv.take(i + 1).drop_last() =~= bv.take(i as int));
        assert(bv.take(i + 1).last() == bv[i as int]);
        assert(bv[i as int].0 == bins@[i as int].0@);
        assert(bv[i as int].1 == bins@[i as int].1.deep_view());
        push_framed(&mut buf, bins[i].0.as_str().as_bytes());
        push_be32(&mut buf, bins[i].1.len());
        let values = sort_byte_strings(&bins[i].1);
        let ghost vv = values.deep_view();
        let ghost mid = buf@;
        for j in 0..values.len()
            invariant
                vv == values.deep_view(),
                buf@ == mid + framed_bytes(vv.take(j as int)),
        {
            assert(vv.take(j + 1).drop_last() =~= vv.take(j as int));
            proof { lemma_bytes_deep_view(values@[j as int]); }
            assert(vv.take(j + 1).last() == values@[j as int]@);
            push_framed(&mut buf, values[j].as_slice());
            assert(buf@ =~= mid + framed_bytes(vv.take(j + 1)));
        }
        assert(vv.take(values.len() as int) =~= vv);
        assert(buf@ =~= text_part + bin_attrs_bytes(bv.take(i + 1)));
    }
    assert(bv.take(bins.len() as int) =~= bv);
    let digest = sha1(buf.as_slice());
    proof {
        lemma_hex_upper_shape(digest@);
    }
    encode_upper(digest.as_slice())
}


/// The first value of the first binary attribute named `ntSecurityDescriptor` (ASCII case
/// aside); none when that attribute has no value.
pub open spec fn sddl_of(bins: Seq<(Seq<char>, Seq<Seq<u8>>)>) -> Option<Seq<u8>>
    decreases bins.len(),
{
    if bins.len() == 0 {
        None
    } else if eq_ignore_ascii_case_spec(bins[0].0, "ntsecuritydescriptor"@) {
        if bins[0].1.len() > 0 {
            Some(bins[0].1[0])
        } else {
            None
        }
    } else {
        sddl_of(bins.drop_first())
    }
}

/// An object is deleted when its `isdeleted` attribute's first value is `TRUE` (ASCII case
/// aside) or its lower-cased DN mentions `cn=deleted objects`.
pub open spec fn deleted_spec(attrs: Seq<(Seq<char>, Seq<Seq<char>>)>, dn: Seq<char>) -> bool {
    (match lookup(attrs, "isdeleted"@) {
        Some(v) => v.len() > 0 && eq_ignore_ascii_case_spec(v[0], "TRUE"@),
        None => false,
    }) || contains_spec(unicode_lowercase(dn), "cn=deleted objects"@)
}

/// The object a snapshot records for a search entry.
pub open spec fn object_of(
    dn: Seq<char>,
    attrs: Seq<(Seq<char>, Seq<Seq<char>>)>,
    bins: Seq<(Seq<char>, Seq<Seq<u8>>)>,
    allow: Seq<(Seq<char>, AllowedAttribute)>,
) -> DirectoryObjectView {
    let a = object_attrs(attrs, allow);
    let b = object_bin_attrs(bins, allow);
    DirectoryObjectView {
        dn: dn,
        name: match lookup(attrs, "name"@) {
            Some(v) => if v.len() > 0 { Some(v[0]) } else { None },
            None => None,
        },
        sddl: sddl_of(bins),
        object_class: match lookup(attrs, "objectClass"@) {
            Some(v) => v,
            None => Seq::empty(),
        },
        is_deleted: deleted_spec(a, dn),
        attributes: a,
        bin_attributes: b,
        hash: object_hash(a, b),
    }
}

/// Gathers `vals` under the name `k` in `acc`.
fn gather_texts(acc: &mut Vec<(String, Vec<String>)>, k: String, vals: &Vec<String>)
    ensures
        final(acc).deep_view() == gather(old(acc).deep_view(), k@, vals.deep_view()),
{
    let ghost before = acc.deep_view();
    match find_attr(acc, k.as_str()) {
        Some(p) => {
            let mut values = copy_strings(&acc[p].1);
            let ghost start = values.deep_view();
            for j in 0..vals.len()
                invariant
                    values.deep_view() == start + vals.deep_view().take(j as int),
            {
                let ghost prev = values.deep_view();
                values.push(vals[j].clone());
                assert(values.deep_view() =~= prev.push(vals@[j as int]@));
                assert(vals.deep_view().take(j + 1) =~= vals.deep_view().take(j as int).push(vals@[j as int]@));
            }
            assert(vals.deep_view().take(vals.len() as int) =~= vals.deep_view());
            proof { lemma_has_key_first(before, k@); }
            assert(start == before[p as int].1);
            acc.set(p, (k, values));
            assert(acc.deep_view() =~= before.update(p as int, (k@, before[p as int].1 + vals.deep_view())));
        },
        None => {
            let values = copy_strings(vals);
            acc.push((k, values));
            assert(acc.deep_view() =~= before.push((k@, vals.deep_view())));
        },
    }
}

/// Gathers the byte strings `vals` under the name `k` in `acc`.
fn gather_bytes(acc: &mut Vec<(String, Vec<Vec<u8>>)>, k: String, vals: &Vec<Vec<u8>>)
    ensures
        final(acc).deep_view() == gather(old(acc).deep_view(), k@, vals.deep_view()),
{
    let ghost before = acc.deep_view();
    match find_bin_attr(acc, k.as_str()) {
        Some(p) => {
            let mut values = crate::objects::copy_byte_strings(&acc[p].1);
            let ghost start = values.deep_view();
            for j in 0..vals.len()
                invariant
                    values.deep_view() == start + vals.deep_view().take(j as int),
            {
                let ghost prev = values.deep_view();
                let x = copy_bytes(&vals[j]);
                values.push(x);
                assert(values.deep_view() =~= prev.push(vals@[j as int].deep_view()));
                assert(vals.deep_view().take(j + 1) =~= vals.deep_view().take(j as int).push(vals@[j as int].deep_view()));
            }
            assert(vals.deep_view().take(vals.len() as int) =~= vals.deep_view());
            proof { lemma_has_key_first(before, k@); }
            assert(start == before[p as int].1);
            acc.set(p, (k, values));
            assert(acc.deep_view() =~= before.update(p as int, (k@, before[p as int].1 + vals.deep_view())));
        },
        None => {
            let values = crate::objects::copy_byte_strings(vals);
            acc.push((k, values));
            assert(acc.deep_view() =~= before.push((k@, vals.deep_view())));
        },
    }
}

/// The kept text attributes of `attrs`, values gathered by lower-cased name.
fn keep_attrs(attrs: &Vec<(String, Vec<String>)>, controls: &AttributeControlSet) -> (r: Vec<(String, Vec<String>)>)
    ensures
        r.deep_view() == kept_attrs(attrs.deep_view(), controls.allow_list.deep_view()),
{
    let ghost av = attrs.deep_view();
    let mut acc: Vec<(String, Vec<String>)> = Vec::new();
    for i in 0..attrs.len()
        invariant
            av == attrs.deep_view(),
            acc.deep_view() == kept_attrs(av.take(i as int), controls.allow_list.deep_view()),
    {
        assert(av.take(i + 1).drop_last() =~= av.take(i as int));
        assert(av.take(i + 1).last() == av[i as int]);
        assert(av[i as int].0 == attrs@[i as int].0@);
        assert(av[i as int].1 == attrs@[i as int].1.deep_view());
        let k = to_lowercase(attrs[i].0.as_str());
        if controls.allows(k.as_str()) {
            gather_texts(&mut acc, k, &attrs[i].1);
        }
    }
    assert(av.take(attrs.len() as int) =~= av);
    acc
}

/// The kept binary attributes of `attrs` (not the security descriptor), values gathered by
/// lower-cased name.
fn keep_bin_attrs(attrs: &Vec<(String, Vec<Vec<u8>>)>, controls: &AttributeControlSet) -> (r: Vec<(String, Vec<Vec<u8>>)>)
    ensures
        r.deep_view() == kept_bin_attrs(attrs.deep_view(), controls.allow_list.deep_view()),
{
    let ghost av = attrs.deep_view();
    let mut acc: Vec<(String, Vec<Vec<u8>>)> = Vec::new();
    for i in 0..attrs.len()
        invariant
            av == attrs.deep_view(),
            acc.deep_view() == kept_bin_attrs(av.take(i as int), controls.allow_list.deep_view()),
    {
        assert(av.take(i + 1).drop_last() =~= av.take(i as int));
        assert(av.take(i + 1).last() == av[i as int]);
        assert(av[i as int].0 == attrs@[i as int].0@);
        assert(av[i as int].1 == attrs@[i as int].1.deep_view());
        let k = to_lowercase(attrs[i].0.as_str());
        if !str_eq(k.as_str(), "ntsecuritydescriptor") && controls.allows(k.as_str()) {
            gather_bytes(&mut acc, k, &attrs[i].1);
        }
    }
    assert(av.take(attrs.len() as int) =~= av);
    acc
}

/// Each entry of `e` with its values sorted.
fn sort_text_values(e: &Vec<(String, Vec<String>)>) -> (r: Vec<(String, Vec<String>)>)
    ensures
        r.deep_view() == with_sorted_texts(e.deep_view()),
{
    let ghost ev = e.deep_view();
    let mut r: Vec<(String, Vec<String>)> = Vec::new();
    for i in 0..e.len()
        invariant
            ev == e.deep_view(),
            r.deep_view() == with_sorted_texts(ev.take(i as int)),
    {
        assert(ev.take(i + 1).drop_last() =~= ev.take(i as int));
        assert(ev.take(i + 1).last() == ev[i as int]);
        assert(ev[i as int].1 == e@[i as int].1.deep_view());
        let sorted = sort_strings(&e[i].1);
        let ghost before = r.deep_view();
        r.push((e[i].0.clone(), sorted));
        assert(r.deep_view() =~= before.push((ev[i as int].0, sort_texts(ev[i as int].1))));
    }
    assert(ev.take(e.len() as int) =~= ev);
    r
}

/// Each entry of `e` with its byte strings sorted.
fn sort_bin_values(e: &Vec<(String, Vec<Vec<u8>>)>) -> (r: Vec<(String, Vec<Vec<u8>>)>)
    ensures
        r.deep_view() == with_sorted_bytes(e.deep_view()),
{
    let ghost ev = e.deep_view();
    let mut r: Vec<(String, Vec<Vec<u8>>)> = Vec::new();
    for i in 0..e.len()
        invariant
            ev == e.deep_view(),
            r.deep_view() == with_sorted_bytes(ev.take(i as int)),
    {
        assert(ev.take(i + 1).drop_last() =~= ev.take(i as int));
        assert(ev.take(i + 1).last() == ev[i as int]);
        assert(ev[i as int].1 == e@[i as int].1.deep_view());
        let sorted = sort_byte_strings(&e[i].1);
        let ghost before = r.deep_view();
        r.push((e[i].0.clone(), sorted));
        assert(r.deep_view() =~= before.push((ev[i as int].0, sort_byte_strings_spec(ev[i as int].1))));
    }
    assert(ev.take(e.len() as int) =~= ev);
    r
}

/// The security descriptor of a search entry (see `sddl_of`).
fn find_sddl(bins: &Vec<(String, Vec<Vec<u8>>)>) -> (r: Option<Vec<u8>>)
    ensures
        r.deep_view() == sddl_of(bins.deep_view()),
{
    let ghost bv = bins.deep_view();
    let mut i: usize = 0;
    assert(bv.skip(0) =~= bv);
    while i < bins.len()
        invariant
            bv == bins.deep_view(),
            i <= bins@.len(),
            sddl_of(bv) == sddl_of(bv.skip(i as int)),
        decreases bins.len() - i,
    {
        assert(bv.skip(i as int)[0] == bv[i as int]);
        assert(bv[i as int].0 == bins@[i as int].0@);
        assert(bv[i as int].1 == bins@[i as int].1.deep_view());
        if eq_ignore_ascii_case(bins[i].0.as_str(), "ntsecuritydescriptor") {
            if bins[i].1.len() > 0 {
                proof { lemma_bytes_deep_view(bins@[i as int].1@[0]); }
                let v = copy_bytes(&bins[i].1[0]);
                return Some(v);
            }
            return None;
        }
        assert(bv.skip(i as int).drop_first() =~= bv.skip(i + 1));
        i = i + 1;
    }
    None
}

/// The first value of the `name` attribute.
fn entry_name(attrs: &Vec<(String, Vec<String>)>) -> (r: Option<String>)
    ensures
        r.deep_view() == match lookup(attrs.deep_view(), "name"@) {
            Some(v) => if v.len() > 0 { Some(v[0]) } else { None },
            None => None,
        },
{
    match find_attr(attrs, "name") {
        Some(i) => {
            assert(attrs.deep_view()[i as int].1 == attrs@[i as int].1.deep_view());
            if attrs[i].1.len() > 0 {
                Some(attrs[i].1[0].clone())
            } else {
                None
            }
        },
        None => None,
    }
}

/// The values of the `objectClass` attribute.
fn entry_classes(attrs: &Vec<(String, Vec<String>)>) -> (r: Vec<String>)
    ensures
        r.deep_view() == match lookup(attrs.deep_view(), "objectClass"@) {
            Some(v) => v,
            None => Seq::empty(),
        },
{
    match find_attr(attrs, "objectClass") {
        Some(i) => {
            assert(attrs.deep_view()[i as int].1 == attrs@[i as int].1.deep_view());
            copy_strings(&attrs[i].1)
        },
        None => Vec::new(),
    }
}

/// Whether an object with attributes `attributes` and DN `dn` is deleted.
fn is_deleted_object(attributes: &Vec<(String, Vec<String>)>, dn: &str) -> (r: bool)
    ensures
        r == deleted_spec(attributes.deep_view(), dn@),
{
    let flag = match find_attr(attributes, "isdeleted") {
        Some(i) => {
            assert(attributes.deep_view()[i as int].1 == attributes@[i as int].1.deep_view());
            if attributes[i].1.len() > 0 {
                assert(attributes.deep_view()[i as int].1[0] == attributes@[i as int].1@[0]@);
                eq_ignore_ascii_case(attributes[i].1[0].as_str(), "TRUE")
            } else {
                false
            }
        },
        None => false,
    };
    let lowered_dn = to_lowercase(dn);
    flag || contains(lowered_dn.as_str(), "cn=deleted objects")
}

impl DirectoryObject {
    /// The object a snapshot records for a search entry: the DN, the name, the classes, the
    /// security descriptor, the attributes the control set keeps under lower-cased names
    /// with sorted values (entries in ascending order of name), whether it is deleted, and
    /// the hash of its attributes (forty upper-case hexadecimal digits). Its attribute names
    /// are distinct.
    pub fn from_ldap_entry(entry: &LdapSearchEntry, attribute_control_set: &AttributeControlSet) -> (r: DirectoryObject)
        ensures
            r.deep_view() == object_of(
                entry.dn@,
                entry.attrs.deep_view(),
                entry.bin_attrs.deep_view(),
                attribute_control_set.allow_list.deep_view(),
            ),
            r.deep_view().well_formed(),
            r.hash@.len() == 40,
            forall|i: int| 0 <= i < r.hash@.len() ==> is_upper_hex(#[trigger] r.hash@[i]),
    {
        proof {
            crate::hash_laws::lemma_recorded_attributes_distinct(
                entry.attrs.deep_view(),
                entry.bin_attrs.deep_view(),
                attribute_control_set.allow_list.deep_view(),
            );
        }
        let dn = entry.dn.clone();
        let name = entry_name(&entry.attrs);
        let object_class = entry_classes(&entry.attrs);
        let sddl = find_sddl(&entry.bin_attrs);
        let kept = keep_attrs(&entry.attrs, attribute_control_set);
        let attributes = sort_text_entries(&sort_text_values(&kept));
        let kept_bin = keep_bin_attrs(&entry.bin_attrs, attribute_control_set);
        let bin_attributes = sort_bin_entries(&sort_bin_values(&kept_bin));
        let is_deleted = is_deleted_object(&attributes, dn.as_str());
        let hash = compute_hash(&attributes, &bin_attributes);
        DirectoryObject { dn, name, sddl, object_class, is_deleted, attributes, bin_attributes, hash }
    }
}

} // verus!
