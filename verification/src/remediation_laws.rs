//! What the generated commands guarantee: an object restored onto itself needs no command,
//! texts escaped for DN components stay on one line, and every attribute that differs from
//! the target is written back.
use vstd::prelude::*;

use crate::objects::{distinct_keys, has_key, lookup, DirectoryObjectView};
use crate::objects::RemediationActionView;
use crate::remediation::{
    attrs_of, base64_all, bin_attrs_of, clear_bin_names, clear_names, cmd, dn_of, escape_dn_spec,
    from_base64_call, is_ntsd_spec, modify_spec, reanimate_spec, replace_bin_entries, replace_bin_items,
    replace_entries, replace_items, restore_spec, sddl_commands_spec, sddl_differs,
};
use crate::text::{contains_spec, join_spec, occurs_at, replace_char_spec, starts_with_spec};

verus! {

broadcast use vstd::string::group_string_axioms;

/// Under distinct names, each entry of `s` is what `s` holds for its name.
proof fn lemma_lookup_own<V>(s: Seq<(Seq<char>, V)>, i: int)
    requires
        distinct_keys(s),
        0 <= i < s.len(),
    ensures
        lookup(s, s[i].0) == Some(s[i].1),
{
    assert forall|j: int| 0 <= j < i implies s[j].0 != s[i].0 by {}
    crate::objects::lemma_first_key_index(s, s[i].0, i);
}

/// No text attribute of a prefix of `t` differs from `t` itself.
proof fn lemma_replace_self(t: Seq<(Seq<char>, Seq<Seq<char>>)>, k: int)
    requires
        distinct_keys(t),
        0 <= k <= t.len(),
    ensures
        replace_entries(t.take(k), t).len() == 0,
    decreases k,
{
    if k > 0 {
        assert(t.take(k).drop_last() =~= t.take(k - 1));
        assert(t.take(k).last() == t[k - 1]);
        lemma_lookup_own(t, k - 1);
        lemma_replace_self(t, k - 1);
    }
}

/// No binary attribute of a prefix of `t` differs from `t` itself.
proof fn lemma_replace_bin_self(t: Seq<(Seq<char>, Seq<Seq<u8>>)>, k: int)
    requires
        distinct_keys(t),
        0 <= k <= t.len(),
    ensures
        replace_bin_entries(t.take(k), t).len() == 0,
    decreases k,
{
    if k > 0 {
        assert(t.take(k).drop_last() =~= t.take(k - 1));
        assert(t.take(k).last() == t[k - 1]);
        lemma_lookup_own(t, k - 1);
        lemma_replace_bin_self(t, k - 1);
    }
}

/// No text attribute of a prefix of `t` is missing from `t`.
proof fn lemma_clear_self(t: Seq<(Seq<char>, Seq<Seq<char>>)>, k: int)
    requires
        0 <= k <= t.len(),
    ensures
        clear_names(t.take(k), t).len() == 0,
    decreases k,
{
    if k > 0 {
        assert(t.take(k).drop_last() =~= t.take(k - 1));
        assert(t.take(k).last() == t[k - 1]);
        assert(has_key(t, t[k - 1].0));
        lemma_clear_self(t, k - 1);
    }
}

/// No binary attribute of a prefix of `t` is missing from `t`.
proof fn lemma_clear_bin_self(t: Seq<(Seq<char>, Seq<Seq<u8>>)>, k: int)
    requires
        0 <= k <= t.len(),
    ensures
        clear_bin_names(t.take(k), t).len() == 0,
    decreases k,
{
    if k > 0 {
        assert(t.take(k).drop_last() =~= t.take(k - 1));
        assert(t.take(k).last() == t[k - 1]);
        assert(has_key(t, t[k - 1].0));
        lemma_clear_bin_self(t, k - 1);
    }
}

/// Restoring an object onto itself needs no command: its security descriptor, its text
/// attributes and its binary attributes already are the target's.
pub proof fn law_restore_onto_itself_is_empty(target: DirectoryObjectView, id: Seq<char>)
    requires
        target.well_formed(),
    ensures
        restore_spec(target, Some(target), id).len() == 0,
{
    let a = target.attributes;
    let b = target.bin_attributes;
    lemma_replace_self(a, a.len() as int);
    lemma_replace_bin_self(b, b.len() as int);
    lemma_clear_self(a, a.len() as int);
    lemma_clear_bin_self(b, b.len() as int);
    assert(a.take(a.len() as int) =~= a);
    assert(b.take(b.len() as int) =~= b);
}

/// Replacing a character never leaves that character behind when its replacement does not
/// hold it.
proof fn lemma_replace_char_removes(s: Seq<char>, c: char, rep: Seq<char>, d: char)
    requires
        forall|i: int| 0 <= i < rep.len() ==> rep[i] != d,
        c == d || forall|i: int| 0 <= i < s.len() ==> s[i] != d,
    ensures
        forall|i: int| 0 <= i < replace_char_spec(s, c, rep).len() ==> replace_char_spec(s, c, rep)[i] != d,
    decreases s.len(),
{
    if s.len() > 0 {
        let t = s.drop_last();
        if c != d {
            assert forall|i: int| 0 <= i < t.len() implies t[i] != d by {
                assert(t[i] == s[i]);
            }
            assert(s.last() == s[s.len() - 1]);
        }
        lemma_replace_char_removes(t, c, rep, d);
        let p = replace_char_spec(t, c, rep);
        let tail = if s.last() == c { rep } else { seq![s.last()] };
        assert(replace_char_spec(s, c, rep) == p + tail);
        assert forall|i: int| 0 <= i < (p + tail).len() implies (p + tail)[i] != d by {
            if i >= p.len() {
                assert((p + tail)[i] == tail[i - p.len()]);
            } else {
                assert((p + tail)[i] == p[i]);
            }
        }
    }
}

/// A text escaped for a DN component holds neither line feeds nor carriage returns, so a
/// command that embeds it stays on one line.
pub proof fn law_escaped_dn_is_one_line(value: Seq<char>)
    ensures
        forall|i: int| 0 <= i < escape_dn_spec(value).len() ==> escape_dn_spec(value)[i] != '\n' && escape_dn_spec(value)[i] != '\r',
{
    reveal_strlit("\\0A");
    reveal_strlit("\\0D");
    let a = replace_char_spec(value, '\n', "\\0A"@);
    lemma_replace_char_removes(value, '\n', "\\0A"@, '\n');
    lemma_replace_char_removes(a, '\r', "\\0D"@, '\n');
    lemma_replace_char_removes(a, '\r', "\\0D"@, '\r');
}

/// A text holds itself.
proof fn lemma_contains_self(p: Seq<char>)
    ensures
        contains_spec(p, p),
{
    assert(p.subrange(0, p.len() as int) =~= p);
    assert(occurs_at(p, p, 0));
}

/// What the first part holds, the whole holds.
proof fn lemma_contains_left(a: Seq<char>, b: Seq<char>, p: Seq<char>)
    requires
        contains_spec(a, p),
    ensures
        contains_spec(a + b, p),
{
    let i = choose|i: int| occurs_at(a, p, i);
    assert((a + b).subrange(i, i + p.len()) =~= a.subrange(i, i + p.len()));
    assert(occurs_at(a + b, p, i));
}

/// What the second part holds, the whole holds.
proof fn lemma_contains_right(a: Seq<char>, b: Seq<char>, p: Seq<char>)
    requires
        contains_spec(b, p),
    ensures
        contains_spec(a + b, p),
{
    let i = choose|i: int| occurs_at(b, p, i);
    assert((a + b).subrange(a.len() + i, a.len() + i + p.len()) =~= b.subrange(i, i + p.len()));
    assert(occurs_at(a + b, p, a.len() + i));
}

/// `'name'='values';`, how a text attribute is written in a `-Replace` hashtable.
pub open spec fn text_item(k: Seq<char>, joined: Seq<char>) -> Seq<char> {
    "'"@ + k + "'='"@ + joined + "';"@
}

/// `'name'=@(decoded values);`, how a binary attribute is written in a `-Replace` hashtable.
pub open spec fn bin_item(k: Seq<char>, encoded: Seq<Seq<char>>) -> Seq<char> {
    "'"@ + k + "'=@("@ + join_spec(encoded.map_values(|x: Seq<char>| from_base64_call(x)), ","@) + ");"@
}

/// Hashtable items are never empty.
proof fn lemma_items_nonempty(k: Seq<char>, joined: Seq<char>, encoded: Seq<Seq<char>>)
    ensures
        text_item(k, joined).len() > 0,
        bin_item(k, encoded).len() > 0,
{
    reveal_strlit("'");
}

/// The hashtable text holds the item of every text entry.
proof fn lemma_items_hold(rep: Seq<(Seq<char>, Seq<char>)>, e: (Seq<char>, Seq<char>))
    requires
        rep.contains(e),
    ensures
        contains_spec(replace_items(rep), text_item(e.0, e.1)),
    decreases rep.len(),
{
    let p = rep.drop_last();
    let l = rep.last();
    assert(replace_items(rep) =~= replace_items(p) + text_item(l.0, l.1));
    if l == e {
        lemma_contains_self(text_item(e.0, e.1));
        lemma_contains_right(replace_items(p), text_item(l.0, l.1), text_item(e.0, e.1));
    } else {
        let j = choose|j: int| 0 <= j < rep.len() && rep[j] == e;
        assert(p[j] == e);
        lemma_items_hold(p, e);
        lemma_contains_left(replace_items(p), text_item(l.0, l.1), text_item(e.0, e.1));
    }
}

/// The hashtable text holds the item of every binary entry.
proof fn lemma_bin_items_hold(rep: Seq<(Seq<char>, Seq<Seq<char>>)>, e: (Seq<char>, Seq<Seq<char>>))
    requires
        rep.contains(e),
    ensures
        contains_spec(replace_bin_items(rep), bin_item(e.0, e.1)),
    decreases rep.len(),
{
    let p = rep.drop_last();
    let l = rep.last();
    assert(replace_bin_items(rep) =~= replace_bin_items(p) + bin_item(l.0, l.1));
    if l == e {
        lemma_contains_self(bin_item(e.0, e.1));
        lemma_contains_right(replace_bin_items(p), bin_item(l.0, l.1), bin_item(e.0, e.1));
    } else {
        let j = choose|j: int| 0 <= j < rep.len() && rep[j] == e;
        assert(p[j] == e);
        lemma_bin_items_hold(p, e);
        lemma_contains_left(replace_bin_items(p), bin_item(l.0, l.1), bin_item(e.0, e.1));
    }
}

/// A text attribute of the target whose values the current object does not hold is to be
/// replaced.
proof fn lemma_replace_entries_hold(
    t: Seq<(Seq<char>, Seq<Seq<char>>)>,
    c: Seq<(Seq<char>, Seq<Seq<char>>)>,
    i: int,
)
    requires
        0 <= i < t.len(),
        lookup(c, t[i].0) != Some(t[i].1),
    ensures
        replace_entries(t, c).contains((t[i].0, join_spec(t[i].1, ","@))),
    decreases t.len(),
{
    let p = t.drop_last();
    let r = replace_entries(t, c);
    if i == t.len() - 1 {
        assert(r.last() == (t[i].0, join_spec(t[i].1, ","@)));
    } else {
        assert(p[i] == t[i]);
        lemma_replace_entries_hold(p, c, i);
        let rp = replace_entries(p, c);
        let j = choose|j: int| 0 <= j < rp.len() && rp[j] == (t[i].0, join_spec(t[i].1, ","@));
        assert(r[j] == rp[j]);
    }
}

/// A binary attribute of the target (not the security descriptor) whose values the current
/// object does not hold is to be replaced, its values in base64.
proof fn lemma_replace_bin_entries_hold(
    t: Seq<(Seq<char>, Seq<Seq<u8>>)>,
    c: Seq<(Seq<char>, Seq<Seq<u8>>)>,
    i: int,
)
    requires
        0 <= i < t.len(),
        !is_ntsd_spec(t[i].0),
        lookup(c, t[i].0) != Some(t[i].1),
    ensures
        replace_bin_entries(t, c).contains((t[i].0, base64_all(t[i].1))),
    decreases t.len(),
{
    let p = t.drop_last();
    let r = replace_bin_entries(t, c);
    if i == t.len() - 1 {
        assert(r.last() == (t[i].0, base64_all(t[i].1)));
    } else {
        assert(p[i] == t[i]);
        lemma_replace_bin_entries_hold(p, c, i);
        let rp = replace_bin_entries(p, c);
        let j = choose|j: int| 0 <= j < rp.len() && rp[j] == (t[i].0, base64_all(t[i].1));
        assert(r[j] == rp[j]);
    }
}

/// The `-Replace` command of a restore, when it holds some item.
proof fn lemma_restore_replace_command(
    target: DirectoryObjectView,
    current: Option<DirectoryObjectView>,
    id: Seq<char>,
    item: Seq<char>,
) -> (j: int)
    requires
        item.len() > 0,
        contains_spec(
            replace_items(replace_entries(target.attributes, attrs_of(current))) + replace_bin_items(
                replace_bin_entries(target.bin_attributes, bin_attrs_of(current)),
            ),
            item,
        ),
    ensures
        0 <= j < restore_spec(target, current, id).len(),
        starts_with_spec(restore_spec(target, current, id)[j].command, "Set-ADObject -Identity '"@ + id + "' -Replace "@ + "@{"@),
        contains_spec(restore_spec(target, current, id)[j].command, item),
{
    let rep = replace_entries(target.attributes, attrs_of(current));
    let rep_bin = replace_bin_entries(target.bin_attributes, bin_attrs_of(current));
    let x = replace_items(rep) + replace_bin_items(rep_bin);
    if rep.len() == 0 && rep_bin.len() == 0 {
        assert(replace_items(rep) =~= Seq::<char>::empty());
        assert(replace_bin_items(rep_bin) =~= Seq::<char>::empty());
        assert(x.len() == 0);
        let i = choose|i: int| occurs_at(x, item, i);
        assert(occurs_at(x, item, i));
    }
    let sd = if sddl_differs(target, current) { sddl_commands_spec(id, target.sddl) } else { Seq::empty() };
    let prefix = "Set-ADObject -Identity '"@ + id + "' -Replace "@ + "@{"@;
    let command = "Set-ADObject -Identity '"@ + id + "' -Replace "@ + ("@{"@ + replace_items(rep) + replace_bin_items(rep_bin) + "}"@);
    let r = restore_spec(target, current, id);
    assert(r[sd.len() as int].command == command);
    assert(command =~= prefix + (x + "}"@));
    assert(command.subrange(0, prefix.len() as int) =~= prefix);
    lemma_contains_left(x, "}"@, item);
    lemma_contains_right(prefix, x + "}"@, item);
    sd.len() as int
}

/// Bringing a live object to its target writes back every binary attribute (the security
/// descriptor aside) whose values differ from the current object's, or that it lacks: the
/// commands hold a `Set-ADObject -Replace` on the target's DN whose hashtable gives that
/// attribute the target's values, decoded from base64.
pub proof fn law_modify_writes_changed_binary_attribute(a: RemediationActionView, i: int)
    requires
        a.target is Some,
        0 <= i < a.target->0.bin_attributes.len(),
        !is_ntsd_spec(a.target->0.bin_attributes[i].0),
        lookup(bin_attrs_of(a.current), a.target->0.bin_attributes[i].0) != Some(a.target->0.bin_attributes[i].1),
    ensures
        exists|j: int|
            0 <= j < modify_spec(a).len() && starts_with_spec(
                #[trigger] modify_spec(a)[j].command,
                "Set-ADObject -Identity '"@ + a.target->0.dn + "' -Replace "@ + "@{"@,
            ) && contains_spec(
                modify_spec(a)[j].command,
                bin_item(a.target->0.bin_attributes[i].0, base64_all(a.target->0.bin_attributes[i].1)),
            ),
{
    let t = a.target->0;
    let e = t.bin_attributes[i];
    lemma_replace_bin_entries_hold(t.bin_attributes, bin_attrs_of(a.current), i);
    let rep = replace_entries(t.attributes, attrs_of(a.current));
    lemma_bin_items_hold(replace_bin_entries(t.bin_attributes, bin_attrs_of(a.current)), (e.0, base64_all(e.1)));
    lemma_contains_right(replace_items(rep), replace_bin_items(replace_bin_entries(t.bin_attributes, bin_attrs_of(a.current))), bin_item(e.0, base64_all(e.1)));
    lemma_items_nonempty(e.0, Seq::empty(), base64_all(e.1));
    let j = lemma_restore_replace_command(t, a.current, t.dn, bin_item(e.0, base64_all(e.1)));
    assert(modify_spec(a) == restore_spec(t, a.current, t.dn));
}

/// Bringing a live object to its target writes back every text attribute whose values
/// differ from the current object's, or that it lacks.
pub proof fn law_modify_writes_changed_text_attribute(a: RemediationActionView, i: int)
    requires
        a.target is Some,
        0 <= i < a.target->0.attributes.len(),
        lookup(attrs_of(a.current), a.target->0.attributes[i].0) != Some(a.target->0.attributes[i].1),
    ensures
        exists|j: int|
            0 <= j < modify_spec(a).len() && starts_with_spec(
                #[trigger] modify_spec(a)[j].command,
                "Set-ADObject -Identity '"@ + a.target->0.dn + "' -Replace "@ + "@{"@,
            ) && contains_spec(
                modify_spec(a)[j].command,
                text_item(a.target->0.attributes[i].0, join_spec(a.target->0.attributes[i].1, ","@)),
            ),
{
    let t = a.target->0;
    let e = t.attributes[i];
    lemma_replace_entries_hold(t.attributes, attrs_of(a.current), i);
    let rep = replace_entries(t.attributes, attrs_of(a.current));
    let rep_bin = replace_bin_entries(t.bin_attributes, bin_attrs_of(a.current));
    lemma_items_hold(rep, (e.0, join_spec(e.1, ","@)));
    lemma_contains_left(replace_items(rep), replace_bin_items(rep_bin), text_item(e.0, join_spec(e.1, ","@)));
    lemma_items_nonempty(e.0, join_spec(e.1, ","@), Seq::empty());
    let j = lemma_restore_replace_command(t, a.current, t.dn, text_item(e.0, join_spec(e.1, ","@)));
    assert(modify_spec(a) == restore_spec(t, a.current, t.dn));
}

/// Reanimating a tombstone gives it back the target's attributes: each text attribute of
/// the target that the tombstone lacks is written by a `Set-ADObject -Replace` on the
/// tombstone's DN.
pub proof fn law_reanimate_restores_attributes(a: RemediationActionView, i: int)
    requires
        a.target is Some,
        0 <= i < a.target->0.attributes.len(),
        !has_key(attrs_of(a.current), a.target->0.attributes[i].0),
    ensures
        exists|j: int|
            0 <= j < reanimate_spec(a).len() && starts_with_spec(
                #[trigger] reanimate_spec(a)[j].command,
                "Set-ADObject -Identity '"@ + dn_of(a.current) + "' -Replace "@ + "@{"@,
            ) && contains_spec(
                reanimate_spec(a)[j].command,
                text_item(a.target->0.attributes[i].0, join_spec(a.target->0.attributes[i].1, ","@)),
            ),
{
    let t = a.target->0;
    let e = t.attributes[i];
    let id = dn_of(a.current);
    assert(lookup(attrs_of(a.current), e.0) is None);
    lemma_replace_entries_hold(t.attributes, attrs_of(a.current), i);
    let rep = replace_entries(t.attributes, attrs_of(a.current));
    let rep_bin = replace_bin_entries(t.bin_attributes, bin_attrs_of(a.current));
    lemma_items_hold(rep, (e.0, join_spec(e.1, ","@)));
    lemma_contains_left(replace_items(rep), replace_bin_items(rep_bin), text_item(e.0, join_spec(e.1, ","@)));
    lemma_items_nonempty(e.0, join_spec(e.1, ","@), Seq::empty());
    let j = lemma_restore_replace_command(t, a.current, id, text_item(e.0, join_spec(e.1, ","@)));
    let r = reanimate_spec(a);
    let rs = restore_spec(t, a.current, id);
    let first = r.len() - rs.len();
    assert(r.subrange(first, r.len() as int) =~= rs);
    assert(r[first + j] == rs[j]);
}

} // verus!
