//! Comparison of a current directory snapshot with a target one: which objects must be
//! created, reanimated, modified or deleted, and in which order.
use vstd::prelude::*;

use crate::objects::{
    copy_opt_object, find_attr, lookup, same_action, ActionType, DirectoryObject,
    DirectoryObjectView, RemediationAction, RemediationActionView,
};
use crate::text::{
    str_eq, before_pattern, before_pattern_spec, count_char, count_char_spec, eq_ignore_ascii_case,
    eq_ignore_ascii_case_spec,
};

verus! {

/// The actions of `s` that are of kind `k`, in their order.
pub open spec fn of_kind(s: Seq<RemediationActionView>, k: ActionType) -> Seq<RemediationActionView>
    decreases s.len(),
{
    if s.len() == 0 {
        Seq::empty()
    } else if s.last().action == k {
        of_kind(s.drop_last(), k).push(s.last())
    } else {
        of_kind(s.drop_last(), k)
    }
}

/// Depth of an object in the tree: the number of commas of its DN.
pub open spec fn dn_depth(o: Option<DirectoryObjectView>) -> nat {
    match o {
        Some(obj) => count_char_spec(obj.dn, ','),
        None => 0,
    }
}

/// Sorting key of a creation: depth of the target.
pub open spec fn create_key(a: RemediationActionView) -> nat {
    dn_depth(a.target)
}

/// Sorting key of a deletion: depth of the current object.
pub open spec fn delete_key(a: RemediationActionView) -> nat {
    dn_depth(a.current)
}

/// `x` inserted into `s` after every trailing element whose key exceeds `key(x)`.
pub open spec fn insert_by_key(
    s: Seq<RemediationActionView>,
    x: RemediationActionView,
    key: spec_fn(RemediationActionView) -> nat,
) -> Seq<RemediationActionView>
    decreases s.len(),
{
    if s.len() == 0 {
        seq![x]
    } else if key(s.last()) <= key(x) {
        s.push(x)
    } else {
        insert_by_key(s.drop_last(), x, key).push(s.last())
    }
}

/// The stable sort of `s` by ascending `key`.
pub open spec fn stable_sort_by_key(
    s: Seq<RemediationActionView>,
    key: spec_fn(RemediationActionView) -> nat,
) -> Seq<RemediationActionView>
    decreases s.len(),
{
    if s.len() == 0 {
        Seq::empty()
    } else {
        insert_by_key(stable_sort_by_key(s.drop_last(), key), s.last(), key)
    }
}

/// The order in which actions are applied: creations, parents before children; then
/// reanimations; then modifications; then deletions, children before parents.
pub open spec fn sort_actions_spec(s: Seq<RemediationActionView>) -> Seq<RemediationActionView> {
    stable_sort_by_key(of_kind(s, ActionType::Create), |a: RemediationActionView| create_key(a))
        + of_kind(s, ActionType::Reanimate) + of_kind(s, ActionType::Modify)
        + stable_sort_by_key(of_kind(s, ActionType::Delete), |a: RemediationActionView| delete_key(a)).reverse()
}

/// Views of a list of actions.
pub open spec fn views(v: Seq<RemediationAction>) -> Seq<RemediationActionView> {
    v.map_values(|a: RemediationAction| a.deep_view())
}

proof fn lemma_views_push(v: Seq<RemediationAction>, x: RemediationAction)
    ensures
        views(v.push(x)) == views(v).push(x.deep_view()),
{
    assert(views(v.push(x)) =~= views(v).push(x.deep_view()));
}

/// Copies of the actions of `v` that are of kind `k`.
fn select_kind(v: &Vec<RemediationAction>, k: ActionType) -> (r: Vec<RemediationAction>)
    ensures
        views(r@) == of_kind(views(v@), k),
{
    let mut r: Vec<RemediationAction> = Vec::new();
    for i in 0..v.len()
        invariant
            views(r@) == of_kind(views(v@.take(i as int)), k),
    {
        assert(v@.take(i + 1) =~= v@.take(i as int).push(v@[i as int]));
        proof { lemma_views_push(v@.take(i as int), v@[i as int]); }
        assert(views(v@.take(i + 1)).drop_last() == views(v@.take(i as int)));
        if v[i].action == k {
            let x = v[i].copy();
            proof { lemma_views_push(r@, x); }
            r.push(x);
        }
    }
    assert(v@.take(v.len() as int) =~= v@);
    r
}

/// Inserting at the position found by scanning back over larger keys is `insert_by_key`.
proof fn lemma_insert_position(
    s: Seq<RemediationActionView>,
    x: RemediationActionView,
    key: spec_fn(RemediationActionView) -> nat,
    p: int,
)
    requires
        0 <= p <= s.len(),
        forall|j: int| p <= j < s.len() ==> key(#[trigger] s[j]) > key(x),
        p == 0 || key(s[p - 1]) <= key(x),
    ensures
        insert_by_key(s, x, key) == s.insert(p, x),
    decreases s.len(),
{
    if s.len() == 0 {
        assert(s.insert(p, x) =~= seq![x]);
    } else if p == s.len() {
        assert(s.insert(p, x) =~= s.push(x));
    } else {
        assert(key(s[s.len() - 1]) > key(x));
        lemma_insert_position(s.drop_last(), x, key, p);
        assert(s.drop_last().insert(p, x).push(s.last()) =~= s.insert(p, x));
    }
}

/// Stable sort of `v` by ascending key, the keys of `v` given in `keys`.
fn sort_by_keys(
    v: Vec<RemediationAction>,
    keys: Vec<usize>,
    Ghost(key): Ghost<spec_fn(RemediationActionView) -> nat>,
) -> (r: Vec<RemediationAction>)
    requires
        keys@.len() == v@.len(),
        forall|i: int| 0 <= i < v@.len() ==> keys@[i] == key(#[trigger] v@[i].deep_view()),
    ensures
        views(r@) == stable_sort_by_key(views(v@), key),
{
    let mut r: Vec<RemediationAction> = Vec::new();
    let mut rk: Vec<usize> = Vec::new();
    let mut v = v;
    let ghost orig = v@;
    let mut taken: Vec<RemediationAction> = Vec::new();
    let mut i: usize = 0;
    while i < keys.len()
        invariant
            keys@.len() == orig.len(),
            forall|j: int| 0 <= j < orig.len() ==> keys@[j] == key(#[trigger] orig[j].deep_view()),
            i <= orig.len(),
            v@ == orig,
            rk@.len() == r@.len(),
            forall|j: int| 0 <= j < r@.len() ==> rk@[j] == key(#[trigger] r@[j].deep_view()),
            views(r@) == stable_sort_by_key(views(orig.take(i as int)), key),
        decreases orig.len() - i,
    {
        let kx = keys[i];
        let x = v[i].copy();
        let mut p: usize = r.len();
        while p > 0 && rk[p - 1] > kx
            invariant
                p <= r@.len(),
                rk@.len() == r@.len(),
                forall|j: int| p <= j < r@.len() ==> rk@[j] > kx,
            decreases p,
        {
            p = p - 1;
        }
        proof {
            let s = views(r@);
            assert forall|j: int| p <= j < s.len() implies key(#[trigger] s[j]) > key(x.deep_view()) by {
                assert(rk@[j] == key(r@[j].deep_view()));
            }
            if p > 0 {
                assert(rk@[p - 1] == key(r@[p - 1].deep_view()));
            }
            lemma_insert_position(s, x.deep_view(), key, p as int);
            assert(orig.take(i + 1) =~= orig.take(i as int).push(orig[i as int]));
            lemma_views_push(orig.take(i as int), orig[i as int]);
            assert(views(orig.take(i + 1)).drop_last() == views(orig.take(i as int)));
        }
        let ghost before_r = r@;
        let ghost before_rk = rk@;
        r.insert(p, x);
        rk.insert(p, kx);
        assert(views(r@) =~= views(before_r).insert(p as int, x.deep_view()));
        assert forall|j: int| 0 <= j < r@.len() implies rk@[j] == key(#[trigger] r@[j].deep_view()) by {
            if j < p {
                assert(r@[j] == before_r[j]);
            } else if j > p {
                assert(r@[j] == before_r[j - 1]);
            }
        }
        i = i + 1;
    }
    assert(orig.take(orig.len() as int) =~= orig);
    r
}

/// `v` in reverse order.
fn reversed(v: Vec<RemediationAction>) -> (r: Vec<RemediationAction>)
    ensures
        views(r@) == views(v@).reverse(),
{
    let mut r: Vec<RemediationAction> = Vec::new();
    let mut i: usize = v.len();
    while i > 0
        invariant
            i <= v@.len(),
            views(r@) == views(v@.subrange(i as int, v@.len() as int)).reverse(),
        decreases i,
    {
        i = i - 1;
        let x = v[i].copy();
        proof { lemma_views_push(r@, x); }
        r.push(x);
        assert(views(v@.subrange(i as int, v@.len() as int)).reverse() =~= views(
            v@.subrange(i + 1, v@.len() as int),
        ).reverse().push(x.deep_view()));
    }
    assert(v@.subrange(0, v@.len() as int) =~= v@);
    r
}

/// Depth of an optional object: number of commas of its DN, 0 when absent.
fn depth_of(o: &Option<DirectoryObject>) -> (d: usize)
    ensures
        d == dn_depth(o.deep_view()),
{
    match o {
        Some(obj) => count_char(obj.dn.as_str(), ','),
        None => 0,
    }
}

/// Appends copies of `src` to `dst`.
fn append_all(dst: &mut Vec<RemediationAction>, src: &Vec<RemediationAction>)
    ensures
        views(final(dst)@) == views(old(dst)@) + views(src@),
{
    let ghost start = views(dst@);
    for i in 0..src.len()
        invariant
            views(dst@) == start + views(src@.take(i as int)),
    {
        let x = src[i].copy();
        proof {
            lemma_views_push(dst@, x);
            assert(src@.take(i + 1) =~= src@.take(i as int).push(src@[i as int]));
            lemma_views_push(src@.take(i as int), src@[i as int]);
        }
        dst.push(x);
        assert(views(dst@) =~= start + views(src@.take(i + 1)));
    }
    assert(src@.take(src.len() as int) =~= src@);
}

/// Orders the actions of one object: creations by ascending depth, then reanimations,
/// then modifications, then deletions by descending depth (ties keep their order,
/// reversed for deletions).
pub fn sort_actions(actions: Vec<RemediationAction>) -> (r: Vec<RemediationAction>)
    ensures
        views(r@) == sort_actions_spec(views(actions@)),
{
    let creates = select_kind(&actions, ActionType::Create);
    let reanimates = select_kind(&actions, ActionType::Reanimate);
    let modifies = select_kind(&actions, ActionType::Modify);
    let deletes = select_kind(&actions, ActionType::Delete);

    let ghost ck = |a: RemediationActionView| create_key(a);
    let ghost dk = |a: RemediationActionView| delete_key(a);
    let mut create_keys: Vec<usize> = Vec::new();
    for i in 0..creates.len()
        invariant
            create_keys@.len() == i,
            forall|j: int| 0 <= j < i ==> create_keys@[j] == create_key(#[trigger] creates@[j].deep_view()),
    {
        create_keys.push(depth_of(&creates[i].target));
    }
    let mut delete_keys: Vec<usize> = Vec::new();
    for i in 0..deletes.len()
        invariant
            delete_keys@.len() == i,
            forall|j: int| 0 <= j < i ==> delete_keys@[j] == delete_key(#[trigger] deletes@[j].deep_view()),
    {
        delete_keys.push(depth_of(&deletes[i].current));
    }
    assert(forall|j: int| 0 <= j < creates@.len() ==> create_keys@[j] == ck(#[trigger] creates@[j].deep_view()));
    assert(forall|j: int| 0 <= j < deletes@.len() ==> delete_keys@[j] == dk(#[trigger] deletes@[j].deep_view()));
    let sorted_creates = sort_by_keys(creates, create_keys, Ghost(ck));
    let sorted_deletes = reversed(sort_by_keys(deletes, delete_keys, Ghost(dk)));
    let mut r: Vec<RemediationAction> = Vec::new();
    append_all(&mut r, &sorted_creates);
    append_all(&mut r, &reanimates);
    append_all(&mut r, &modifies);
    append_all(&mut r, &sorted_deletes);
    assert(views(r@) =~= sort_actions_spec(views(actions@)));
    r
}


/// A creation whose target is a tombstone (a deleted object).
pub open spec fn is_tombstone_create(a: RemediationActionView) -> bool {
    a.action == ActionType::Create && a.target is Some && a.target->0.is_deleted
}

/// A deletion with no known parent to move the object to first.
pub open spec fn is_parentless_delete(a: RemediationActionView) -> bool {
    a.action == ActionType::Delete && a.last_known_parent is None
}

/// The tombstone creations of `s`, in order.
pub open spec fn tombstone_creates(s: Seq<RemediationActionView>) -> Seq<RemediationActionView>
    decreases s.len(),
{
    if s.len() == 0 {
        Seq::empty()
    } else if is_tombstone_create(s.last()) {
        tombstone_creates(s.drop_last()).push(s.last())
    } else {
        tombstone_creates(s.drop_last())
    }
}

/// The parentless deletions of `s`, in order.
pub open spec fn parentless_deletes(s: Seq<RemediationActionView>) -> Seq<RemediationActionView>
    decreases s.len(),
{
    if s.len() == 0 {
        Seq::empty()
    } else if is_parentless_delete(s.last()) {
        parentless_deletes(s.drop_last()).push(s.last())
    } else {
        parentless_deletes(s.drop_last())
    }
}

/// The actions of `s` equal to neither `x` nor `y`, in order.
pub open spec fn without_both(
    s: Seq<RemediationActionView>,
    x: RemediationActionView,
    y: RemediationActionView,
) -> Seq<RemediationActionView>
    decreases s.len(),
{
    if s.len() == 0 {
        Seq::empty()
    } else if !same_action(s.last(), x) && !same_action(s.last(), y) {
        without_both(s.drop_last(), x, y).push(s.last())
    } else {
        without_both(s.drop_last(), x, y)
    }
}

/// Some action of `us` equals `a`.
pub open spec fn listed(us: Seq<RemediationActionView>, a: RemediationActionView) -> bool {
    exists|i: int| 0 <= i < us.len() && same_action(#[trigger] us[i], a)
}

/// The actions of `s` equal to no action of `us`, in order.
pub open spec fn not_listed(s: Seq<RemediationActionView>, us: Seq<RemediationActionView>) -> Seq<RemediationActionView>
    decreases s.len(),
{
    if s.len() == 0 {
        Seq::empty()
    } else if !listed(us, s.last()) {
        not_listed(s.drop_last(), us).push(s.last())
    } else {
        not_listed(s.drop_last(), us)
    }
}

/// The name a tombstone had while alive: its name up to the deletion mangling marker.
pub open spec fn tombstone_cn(t: RemediationActionView) -> Seq<char> {
    match t.target {
        Some(o) => match o.name {
            Some(n) => before_pattern_spec(n, "_x000A_DEL:"@),
            None => Seq::empty(),
        },
        None => Seq::empty(),
    }
}

/// The current object of `d` is named `cn`, ASCII case aside.
pub open spec fn named_like(d: RemediationActionView, cn: Seq<char>) -> bool {
    match d.current {
        Some(c) => match c.name {
            Some(n) => eq_ignore_ascii_case_spec(n, cn),
            None => false,
        },
        None => false,
    }
}

/// Index of the first action of `ds` whose current object is named `cn`.
pub open spec fn first_named_like(ds: Seq<RemediationActionView>, cn: Seq<char>) -> Option<int> {
    if exists|i: int| 0 <= i < ds.len() && named_like(ds[i], cn) {
        Some(choose|i: int| 0 <= i < ds.len() && named_like(ds[i], cn) && forall|j: int| 0 <= j < i ==> !named_like(ds[j], cn))
    } else {
        None
    }
}

/// The first value of an attribute, if it has one.
pub open spec fn first_value(vals: Option<Seq<Seq<char>>>) -> Option<Seq<char>> {
    match vals {
        Some(v) => if v.len() > 0 { Some(v[0]) } else { None },
        None => None,
    }
}

/// The last known parent recorded on a tombstone target.
pub open spec fn tombstone_parent(t: RemediationActionView) -> Option<Seq<char>> {
    match t.target {
        Some(o) => match first_value(lookup(o.attributes, "lastknownparent"@)) {
            Some(p) => Some(p),
            None => first_value(lookup(o.attributes, "LastKnownParent"@)),
        },
        None => None,
    }
}

/// The deletion that replaces a tombstone creation `t` matched with a live deletion `d`.
pub open spec fn merged_delete(t: RemediationActionView, d: RemediationActionView) -> RemediationActionView {
    RemediationActionView {
        action: ActionType::Delete,
        target: t.target,
        current: d.current,
        last_known_parent: tombstone_parent(t),
    }
}

/// One tombstone: when a parentless deletion of an object of the same name remains, both
/// leave the actions and a deletion that knows the tombstone's parent takes their place.
pub open spec fn merge_step(
    state: (Seq<RemediationActionView>, Seq<RemediationActionView>),
    t: RemediationActionView,
) -> (Seq<RemediationActionView>, Seq<RemediationActionView>) {
    match first_named_like(state.1, tombstone_cn(t)) {
        None => state,
        Some(i) => {
            let d = state.1[i];
            (without_both(state.0, t, d).push(merged_delete(t, d)), state.1.remove(i))
        },
    }
}

/// `merge_step` over the tombstones `ts`, in order.
pub open spec fn merge_all(
    state: (Seq<RemediationActionView>, Seq<RemediationActionView>),
    ts: Seq<RemediationActionView>,
) -> (Seq<RemediationActionView>, Seq<RemediationActionView>)
    decreases ts.len(),
{
    if ts.len() == 0 {
        state
    } else {
        merge_step(merge_all(state, ts.drop_last()), ts.last())
    }
}

/// Tombstones in the target are matched to live objects of the same name that are deleted
/// without a known parent; every tombstone creation is then dropped, since an object that is
/// a tombstone in the target is already gone.
pub open spec fn reconcile_spec(s: Seq<RemediationActionView>) -> Seq<RemediationActionView> {
    let unmatched = tombstone_creates(s);
    not_listed(merge_all((s, parentless_deletes(s)), unmatched).0, unmatched)
}

/// Copies of the tombstone creations of `v`.
fn select_tombstone_creates(v: &Vec<RemediationAction>) -> (r: Vec<RemediationAction>)
    ensures
        views(r@) == tombstone_creates(views(v@)),
{
    let mut r: Vec<RemediationAction> = Vec::new();
    for i in 0..v.len()
        invariant
            views(r@) == tombstone_creates(views(v@.take(i as int))),
    {
        assert(v@.take(i + 1) =~= v@.take(i as int).push(v@[i as int]));
        proof { lemma_views_push(v@.take(i as int), v@[i as int]); }
        assert(views(v@.take(i + 1)).drop_last() == views(v@.take(i as int)));
        let is_ts = match &v[i].target {
            Some(t) => v[i].action == ActionType::Create && t.is_deleted,
            None => false,
        };
        if is_ts {
            let x = v[i].copy();
            proof { lemma_views_push(r@, x); }
            r.push(x);
        }
    }
    assert(v@.take(v.len() as int) =~= v@);
    r
}

/// Copies of the parentless deletions of `v`.
fn select_parentless_deletes(v: &Vec<RemediationAction>) -> (r: Vec<RemediationAction>)
    ensures
        views(r@) == parentless_deletes(views(v@)),
{
    let mut r: Vec<RemediationAction> = Vec::new();
    for i in 0..v.len()
        invariant
            views(r@) == parentless_deletes(views(v@.take(i as int))),
    {
        assert(v@.take(i + 1) =~= v@.take(i as int).push(v@[i as int]));
        proof { lemma_views_push(v@.take(i as int), v@[i as int]); }
        assert(views(v@.take(i + 1)).drop_last() == views(v@.take(i as int)));
        if v[i].action == ActionType::Delete && v[i].last_known_parent.is_none() {
            let x = v[i].copy();
            proof { lemma_views_push(r@, x); }
            r.push(x);
        }
    }
    assert(v@.take(v.len() as int) =~= v@);
    r
}

/// The actions of `v` equal to neither `x` nor `y`.
fn remove_both(v: Vec<RemediationAction>, x: &RemediationAction, y: &RemediationAction) -> (r: Vec<RemediationAction>)
    ensures
        views(r@) == without_both(views(v@), x.deep_view(), y.deep_view()),
{
    let mut r: Vec<RemediationAction> = Vec::new();
    for i in 0..v.len()
        invariant
            views(r@) == without_both(views(v@.take(i as int)), x.deep_view(), y.deep_view()),
    {
        assert(v@.take(i + 1) =~= v@.take(i as int).push(v@[i as int]));
        proof { lemma_views_push(v@.take(i as int), v@[i as int]); }
        assert(views(v@.take(i + 1)).drop_last() == views(v@.take(i as int)));
        if !v[i].same_as(x) && !v[i].same_as(y) {
            let c = v[i].copy();
            proof { lemma_views_push(r@, c); }
            r.push(c);
        }
    }
    assert(v@.take(v.len() as int) =~= v@);
    r
}

/// Whether some action of `us` equals `a`.
fn is_listed(us: &Vec<RemediationAction>, a: &RemediationAction) -> (r: bool)
    ensures
        r == listed(views(us@), a.deep_view()),
{
    for i in 0..us.len()
        invariant
            forall|j: int| 0 <= j < i ==> !same_action(#[trigger] views(us@)[j], a.deep_view()),
    {
        if us[i].same_as(a) {
            assert(same_action(views(us@)[i as int], a.deep_view()));
            return true;
        }
    }
    false
}

/// The actions of `v` equal to no action of `us`.
fn remove_listed(v: Vec<RemediationAction>, us: &Vec<RemediationAction>) -> (r: Vec<RemediationAction>)
    ensures
        views(r@) == not_listed(views(v@), views(us@)),
{
    let mut r: Vec<RemediationAction> = Vec::new();
    for i in 0..v.len()
        invariant
            views(r@) == not_listed(views(v@.take(i as int)), views(us@)),
    {
        assert(v@.take(i + 1) =~= v@.take(i as int).push(v@[i as int]));
        proof { lemma_views_push(v@.take(i as int), v@[i as int]); }
        assert(views(v@.take(i + 1)).drop_last() == views(v@.take(i as int)));
        if !is_listed(us, &v[i]) {
            let c = v[i].copy();
            proof { lemma_views_push(r@, c); }
            r.push(c);
        }
    }
    assert(v@.take(v.len() as int) =~= v@);
    r
}

/// The pre-deletion name of the tombstone targeted by `t`.
fn tombstone_name(t: &RemediationAction) -> (cn: String)
    ensures
        cn@ == tombstone_cn(t.deep_view()),
{
    match &t.target {
        Some(o) => match &o.name {
            Some(n) => before_pattern(n.as_str(), "_x000A_DEL:"),
            None => String::new(),
        },
        None => String::new(),
    }
}

/// Whether the current object of `d` is named `cn` (ASCII case aside).
fn is_named_like(d: &RemediationAction, cn: &str) -> (r: bool)
    ensures
        r == named_like(d.deep_view(), cn@),
{
    match &d.current {
        Some(c) => match &c.name {
            Some(n) => eq_ignore_ascii_case(n.as_str(), cn),
            None => false,
        },
        None => false,
    }
}

/// Position of the first action of `ds` whose current object is named `cn`.
fn find_named_like(ds: &Vec<RemediationAction>, cn: &str) -> (r: Option<usize>)
    ensures
        match r {
            Some(i) => first_named_like(views(ds@), cn@) == Some(i as int) && i < ds@.len(),
            None => first_named_like(views(ds@), cn@) is None,
        },
{
    let ghost s = views(ds@);
    for i in 0..ds.len()
        invariant
            s == views(ds@),
            forall|j: int| 0 <= j < i ==> !named_like(#[trigger] s[j], cn@),
    {
        if is_named_like(&ds[i], cn) {
            let ghost k = choose|k: int| 0 <= k < s.len() && named_like(s[k], cn@) && forall|j: int| 0 <= j < k ==> !named_like(s[j], cn@);
            assert(named_like(s[i as int], cn@));
            assert(k == i) by {
                if k < i {
                    assert(!named_like(s[k], cn@));
                } else if k > i {
                    assert(!named_like(s[i as int], cn@));
                }
            }
            return Some(i);
        }
    }
    None
}

/// The first value of the attribute `key` of `o`.
fn first_attr_value(o: &DirectoryObject, key: &str) -> (r: Option<String>)
    ensures
        r.deep_view() == first_value(lookup(o.deep_view().attributes, key@)),
{
    match find_attr(&o.attributes, key) {
        Some(i) => {
            assert(o.deep_view().attributes[i as int].1 == o.attributes@[i as int].1.deep_view());
            if o.attributes[i].1.len() > 0 {
                Some(o.attributes[i].1[0].clone())
            } else {
                None
            }
        },
        None => None,
    }
}

/// The last known parent recorded on the tombstone targeted by `t`.
fn parent_of_tombstone(t: &RemediationAction) -> (r: Option<String>)
    ensures
        r.deep_view() == tombstone_parent(t.deep_view()),
{
    match &t.target {
        Some(o) => match first_attr_value(o, "lastknownparent") {
            Some(p) => Some(p),
            None => first_attr_value(o, "LastKnownParent"),
        },
        None => None,
    }
}

/// Matches tombstones of the target with live objects of the same name that would be
/// deleted without a known parent, and drops creations of tombstones.
pub fn reconcile_tombstones(actions: Vec<RemediationAction>) -> (r: Vec<RemediationAction>)
    ensures
        views(r@) == reconcile_spec(views(actions@)),
{
    let unmatched = select_tombstone_creates(&actions);
    let mut parentless = select_parentless_deletes(&actions);
    let ghost start = (views(actions@), views(parentless@));
    let mut acts = actions;
    for k in 0..unmatched.len()
        invariant
            (views(acts@), views(parentless@)) == merge_all(start, views(unmatched@).take(k as int)),
    {
        let t = &unmatched[k];
        proof {
            assert(views(unmatched@).take(k + 1).drop_last() =~= views(unmatched@).take(k as int));
            assert(views(unmatched@).take(k + 1).last() == t.deep_view());
        }
        let cn = tombstone_name(t);
        match find_named_like(&parentless, cn.as_str()) {
            Some(i) => {
                let ghost before = parentless@;
                let d = parentless.remove(i);
                assert(views(parentless@) =~= views(before).remove(i as int));
                assert(d.deep_view() == views(before)[i as int]);
                let lkp = parent_of_tombstone(t);
                let merged = RemediationAction {
                    action: ActionType::Delete,
                    target: copy_opt_object(&t.target),
                    current: copy_opt_object(&d.current),
                    last_known_parent: lkp,
                };
                let mut kept = remove_both(acts, t, &d);
                proof { lemma_views_push(kept@, merged); }
                kept.push(merged);
                acts = kept;
            },
            None => {},
        }
    }
    assert(views(unmatched@).take(unmatched.len() as int) =~= views(unmatched@));
    remove_listed(acts, &unmatched)
}


/// The last object of `objs` whose DN is `dn` (later objects replace earlier ones).
pub open spec fn last_with_dn(objs: Seq<DirectoryObjectView>, dn: Seq<char>) -> Option<DirectoryObjectView>
    decreases objs.len(),
{
    if objs.len() == 0 {
        None
    } else if objs.last().dn == dn {
        Some(objs.last())
    } else {
        last_with_dn(objs.drop_last(), dn)
    }
}

/// The action for one DN, from its current and target objects:
/// target live and current missing: create; target live and current a tombstone:
/// reanimate; both live and hashes differ: modify; target a tombstone or missing and current
/// live: delete (with the target's last known parent when the target is a tombstone);
/// equal hashes, or nothing current: no action.
pub open spec fn diff_action(
    current: Option<DirectoryObjectView>,
    target: Option<DirectoryObjectView>,
) -> Option<RemediationActionView> {
    match (current, target) {
        (Some(c), Some(t)) => if c.hash != t.hash {
            if c.is_deleted && !t.is_deleted {
                Some(RemediationActionView { action: ActionType::Reanimate, target: Some(t), current: Some(c), last_known_parent: None })
            } else if !c.is_deleted && t.is_deleted {
                Some(RemediationActionView {
                    action: ActionType::Delete,
                    target: Some(t),
                    current: Some(c),
                    last_known_parent: first_value(lookup(t.attributes, "LastKnownParent"@)),
                })
            } else {
                Some(RemediationActionView { action: ActionType::Modify, target: Some(t), current: Some(c), last_known_parent: None })
            }
        } else {
            None
        },
        (Some(c), None) => Some(RemediationActionView { action: ActionType::Delete, target: None, current: Some(c), last_known_parent: None }),
        (None, Some(t)) => Some(RemediationActionView { action: ActionType::Create, target: Some(t), current: None, last_known_parent: None }),
        (None, None) => None,
    }
}

/// The ordered actions kept for a DN whose raw action is `a`.
pub open spec fn dn_actions(a: RemediationActionView) -> Seq<RemediationActionView> {
    sort_actions_spec(reconcile_spec(seq![a]))
}

/// The views of a list of objects.
pub open spec fn object_views(v: Seq<DirectoryObject>) -> Seq<DirectoryObjectView> {
    v.map_values(|o: DirectoryObject| o.deep_view())
}

/// The action planned for `dn` when going from `current` to `target`.
pub open spec fn planned_action(
    current: Seq<DirectoryObjectView>,
    target: Seq<DirectoryObjectView>,
    dn: Seq<char>,
) -> Option<RemediationActionView> {
    diff_action(last_with_dn(current, dn), last_with_dn(target, dn))
}

/// What `compare_states` answers: one entry per DN that needs an action, holding that DN's
/// ordered actions, and no other entry.
pub open spec fn comparison_result(
    current: Seq<DirectoryObjectView>,
    target: Seq<DirectoryObjectView>,
    r: Seq<(String, Vec<RemediationAction>)>,
) -> bool {
    &&& forall|i: int, j: int| 0 <= i < r.len() && 0 <= j < r.len() && i != j ==> r[i].0@ != r[j].0@
    &&& forall|i: int| 0 <= i < r.len() ==> {
        &&& (#[trigger] planned_action(current, target, r[i].0@)) is Some
        &&& views(r[i].1@) == dn_actions(planned_action(current, target, r[i].0@)->0)
    }
    &&& forall|dn: Seq<char>| (#[trigger] planned_action(current, target, dn)) is Some ==> exists|i: int| 0 <= i < r.len() && r[i].0@ == dn
}

/// Position of the last object of `objs` whose DN is `dn`.
fn find_last_with_dn(objs: &Vec<DirectoryObject>, dn: &str) -> (r: Option<usize>)
    ensures
        match r {
            Some(i) => i < objs@.len() && last_with_dn(object_views(objs@), dn@) == Some(objs@[i as int].deep_view()),
            None => last_with_dn(object_views(objs@), dn@) is None,
        },
{
    let ghost s = object_views(objs@);
    let mut i: usize = objs.len();
    assert(s.take(i as int) =~= s);
    while i > 0
        invariant
            s == object_views(objs@),
            i <= objs@.len(),
            last_with_dn(s, dn@) == last_with_dn(s.take(i as int), dn@),
        decreases i,
    {
        assert(s.take(i as int).drop_last() =~= s.take(i - 1));
        if str_eq(objs[i - 1].dn.as_str(), dn) {
            return Some(i - 1);
        }
        i = i - 1;
    }
    None
}

/// The raw action for one DN, from its current and target objects.
fn build_action(current: Option<&DirectoryObject>, target: Option<&DirectoryObject>) -> (r: Option<RemediationAction>)
    ensures
        r.deep_view() == diff_action(
            match current { Some(c) => Some(c.deep_view()), None => None },
            match target { Some(t) => Some(t.deep_view()), None => None },
        ),
{
    match (current, target) {
        (Some(c), Some(t)) => {
            if !str_eq(c.hash.as_str(), t.hash.as_str()) {
                if c.is_deleted && !t.is_deleted {
                    Some(RemediationAction { action: ActionType::Reanimate, target: Some(t.copy()), current: Some(c.copy()), last_known_parent: None })
                } else if !c.is_deleted && t.is_deleted {
                    Some(RemediationAction {
                        action: ActionType::Delete,
                        target: Some(t.copy()),
                        current: Some(c.copy()),
                        last_known_parent: first_attr_value(t, "LastKnownParent"),
                    })
                } else {
                    Some(RemediationAction { action: ActionType::Modify, target: Some(t.copy()), current: Some(c.copy()), last_known_parent: None })
                }
            } else {
                None
            }
        },
        (Some(c), None) => Some(RemediationAction { action: ActionType::Delete, target: None, current: Some(c.copy()), last_known_parent: None }),
        (None, Some(t)) => Some(RemediationAction { action: ActionType::Create, target: Some(t.copy()), current: None, last_known_parent: None }),
        (None, None) => None,
    }
}

/// Whether `r` already holds an entry for `dn`.
fn has_dn(r: &Vec<(String, Vec<RemediationAction>)>, dn: &str) -> (b: bool)
    ensures
        b == exists|i: int| 0 <= i < r@.len() && r@[i].0@ == dn@,
{
    for i in 0..r.len()
        invariant
            forall|j: int| 0 <= j < i ==> r@[j].0@ != dn@,
    {
        if str_eq(r[i].0.as_str(), dn) {
            return true;
        }
    }
    false
}

/// Adds the entry for `dn` to `r` unless it is there already or `dn` needs no action.
fn plan_dn(
    r: &mut Vec<(String, Vec<RemediationAction>)>,
    dn: &String,
    current: &Vec<DirectoryObject>,
    target: &Vec<DirectoryObject>,
)
    requires
        comparison_result_partial(object_views(current@), object_views(target@), old(r)@),
    ensures
        comparison_result_partial(object_views(current@), object_views(target@), final(r)@),
        old(r)@.len() <= final(r)@.len(),
        forall|i: int| 0 <= i < old(r)@.len() ==> #[trigger] final(r)@[i] == old(r)@[i],
        planned_action(object_views(current@), object_views(target@), dn@) is Some ==> exists|i: int| 0 <= i < final(r)@.len() && final(r)@[i].0@ == dn@,
{
    if has_dn(r, dn.as_str()) {
        return;
    }
    let ci = find_last_with_dn(current, dn.as_str());
    let ti = find_last_with_dn(target, dn.as_str());
    let c = match ci {
        Some(i) => Some(&current[i]),
        None => None,
    };
    let t = match ti {
        Some(i) => Some(&target[i]),
        None => None,
    };
    match build_action(c, t) {
        Some(a) => {
            let ghost av = a.deep_view();
            let mut single: Vec<RemediationAction> = Vec::new();
            single.push(a);
            assert(views(single@) =~= seq![av]);
            let acts = sort_actions(reconcile_tombstones(single));
            let ghost before = r@;
            r.push((dn.clone(), acts));
            assert(r@[r@.len() - 1].0@ == dn@);
            assert forall|i: int| 0 <= i < r@.len() implies {
                &&& (#[trigger] planned_action(object_views(current@), object_views(target@), r@[i].0@)) is Some
                &&& views(r@[i].1@) == dn_actions(planned_action(object_views(current@), object_views(target@), r@[i].0@)->0)
            } by {
                if i < before.len() {
                    assert(r@[i] == before[i]);
                }
            }
        },
        None => {},
    }
}

/// The parts of `comparison_result` that hold while entries are being added.
pub open spec fn comparison_result_partial(
    current: Seq<DirectoryObjectView>,
    target: Seq<DirectoryObjectView>,
    r: Seq<(String, Vec<RemediationAction>)>,
) -> bool {
    &&& forall|i: int, j: int| 0 <= i < r.len() && 0 <= j < r.len() && i != j ==> r[i].0@ != r[j].0@
    &&& forall|i: int| 0 <= i < r.len() ==> {
        &&& (#[trigger] planned_action(current, target, r[i].0@)) is Some
        &&& views(r[i].1@) == dn_actions(planned_action(current, target, r[i].0@)->0)
    }
}

/// A DN that needs an action is the DN of a current or a target object.
proof fn lemma_planned_dn_occurs(current: Seq<DirectoryObjectView>, target: Seq<DirectoryObjectView>, dn: Seq<char>)
    requires
        planned_action(current, target, dn) is Some,
    ensures
        (exists|i: int| 0 <= i < current.len() && current[i].dn == dn) || (exists|i: int| 0 <= i < target.len() && target[i].dn == dn),
{
    if last_with_dn(current, dn) is Some {
        lemma_last_with_dn_occurs(current, dn);
    } else {
        lemma_last_with_dn_occurs(target, dn);
    }
}

proof fn lemma_last_with_dn_occurs(objs: Seq<DirectoryObjectView>, dn: Seq<char>)
    requires
        last_with_dn(objs, dn) is Some,
    ensures
        exists|i: int| 0 <= i < objs.len() && objs[i].dn == dn,
    decreases objs.len(),
{
    if objs.last().dn != dn {
        lemma_last_with_dn_occurs(objs.drop_last(), dn);
        let i = choose|i: int| 0 <= i < objs.drop_last().len() && objs.drop_last()[i].dn == dn;
        assert(objs[i].dn == dn);
    }
}

/// The actions that bring the directory from `current` to `target`, grouped by DN: one
/// entry per DN that needs an action, each holding its actions in the order to apply them.
pub fn compare_states(current: Vec<DirectoryObject>, target: Vec<DirectoryObject>) -> (r: Vec<(String, Vec<RemediationAction>)>)
    ensures
        comparison_result(object_views(current@), object_views(target@), r@),
{
    let ghost cv = object_views(current@);
    let ghost tv = object_views(target@);
    let mut r: Vec<(String, Vec<RemediationAction>)> = Vec::new();
    for i in 0..current.len()
        invariant
            cv == object_views(current@),
            tv == object_views(target@),
            comparison_result_partial(cv, tv, r@),
            forall|j: int| 0 <= j < i && #[trigger] planned_action(cv, tv, current@[j].dn@) is Some ==> exists|k: int| 0 <= k < r@.len() && r@[k].0@ == current@[j].dn@,
    {
        let ghost before = r@;
        plan_dn(&mut r, &current[i].dn, &current, &target);
        assert forall|j: int| 0 <= j < i + 1 && #[trigger] planned_action(cv, tv, current@[j].dn@) is Some implies exists|k: int| 0 <= k < r@.len() && r@[k].0@ == current@[j].dn@ by {
            if j < i {
                let k = choose|k: int| 0 <= k < before.len() && before[k].0@ == current@[j].dn@;
                assert(r@[k] == before[k]);
            }
        }
    }
    for i in 0..target.len()
        invariant
            cv == object_views(current@),
            tv == object_views(target@),
            comparison_result_partial(cv, tv, r@),
            forall|j: int| 0 <= j < current@.len() && #[trigger] planned_action(cv, tv, current@[j].dn@) is Some ==> exists|k: int| 0 <= k < r@.len() && r@[k].0@ == current@[j].dn@,
            forall|j: int| 0 <= j < i && #[trigger] planned_action(cv, tv, target@[j].dn@) is Some ==> exists|k: int| 0 <= k < r@.len() && r@[k].0@ == target@[j].dn@,
    {
        let ghost before = r@;
        plan_dn(&mut r, &target[i].dn, &current, &target);
        assert forall|j: int| 0 <= j < i + 1 && #[trigger] planned_action(cv, tv, target@[j].dn@) is Some implies exists|k: int| 0 <= k < r@.len() && r@[k].0@ == target@[j].dn@ by {
            if j < i {
                let k = choose|k: int| 0 <= k < before.len() && before[k].0@ == target@[j].dn@;
                assert(r@[k] == before[k]);
            }
        }
        assert forall|j: int| 0 <= j < current@.len() && #[trigger] planned_action(cv, tv, current@[j].dn@) is Some implies exists|k: int| 0 <= k < r@.len() && r@[k].0@ == current@[j].dn@ by {
            let k = choose|k: int| 0 <= k < before.len() && before[k].0@ == current@[j].dn@;
            assert(r@[k] == before[k]);
        }
    }
    assert forall|dn: Seq<char>| (#[trigger] planned_action(cv, tv, dn)) is Some implies exists|i: int| 0 <= i < r@.len() && r@[i].0@ == dn by {
        lemma_planned_dn_occurs(cv, tv, dn);
        if exists|i: int| 0 <= i < cv.len() && cv[i].dn == dn {
            let i = choose|i: int| 0 <= i < cv.len() && cv[i].dn == dn;
            assert(current@[i].dn@ == dn);
        } else {
            let i = choose|i: int| 0 <= i < tv.len() && tv[i].dn == dn;
            assert(target@[i].dn@ == dn);
        }
    }
    r
}

/// The last object with a DN has that DN.
proof fn lemma_last_with_dn_has_dn(objs: Seq<DirectoryObjectView>, dn: Seq<char>)
    ensures
        last_with_dn(objs, dn) matches Some(o) ==> o.dn == dn,
    decreases objs.len(),
{
    if objs.len() > 0 && objs.last().dn != dn {
        lemma_last_with_dn_has_dn(objs.drop_last(), dn);
    }
}

/// Comparing a snapshot with itself plans nothing: every object is its own target, so no
/// DN needs an action and the comparison answers no entry.
pub proof fn law_identical_states_need_nothing(
    state: Seq<DirectoryObjectView>,
    r: Seq<(String, Vec<RemediationAction>)>,
)
    requires
        comparison_result(state, state, r),
    ensures
        r.len() == 0,
        forall|dn: Seq<char>| #[trigger] planned_action(state, state, dn) is None,
{
    if r.len() > 0 {
        assert(planned_action(state, state, r[0].0@) is Some);
    }
}

/// Every action planned for a DN concerns objects with that DN: its target and its
/// current object, when it has them, carry the DN.
pub proof fn law_planned_action_concerns_dn(
    current: Seq<DirectoryObjectView>,
    target: Seq<DirectoryObjectView>,
    dn: Seq<char>,
)
    ensures
        planned_action(current, target, dn) matches Some(a) ==> {
            &&& (a.target matches Some(t) ==> t.dn == dn)
            &&& (a.current matches Some(c) ==> c.dn == dn)
        },
{
    lemma_last_with_dn_has_dn(current, dn);
    lemma_last_with_dn_has_dn(target, dn);
}

/// The action planned for a DN carries the objects it concerns: its current object is the
/// last current object with that DN, and its target the last target object with that DN.
pub proof fn law_planned_action_carries_objects(
    current: Seq<DirectoryObjectView>,
    target: Seq<DirectoryObjectView>,
    dn: Seq<char>,
)
    ensures
        planned_action(current, target, dn) matches Some(a) ==> {
            &&& a.current == last_with_dn(current, dn)
            &&& a.target == last_with_dn(target, dn)
        },
{
}

/// A live object of the current snapshot with no target object is deleted, and the deletion
/// carries that object: the comparison answers for its DN exactly one action, a deletion
/// whose current object is the last current object with that DN.
pub proof fn law_removed_object_is_deleted(
    current: Seq<DirectoryObjectView>,
    target: Seq<DirectoryObjectView>,
    dn: Seq<char>,
    r: Seq<(String, Vec<RemediationAction>)>,
)
    requires
        comparison_result(current, target, r),
        last_with_dn(current, dn) is Some,
        !last_with_dn(current, dn)->0.is_deleted,
        last_with_dn(target, dn) is None,
    ensures
        exists|i: int|
            0 <= i < r.len() && (#[trigger] r[i]).0@ == dn && views(r[i].1@) == seq![
                RemediationActionView {
                    action: ActionType::Delete,
                    target: None,
                    current: last_with_dn(current, dn),
                    last_known_parent: None,
                },
            ],
{
    let d = RemediationActionView {
        action: ActionType::Delete,
        target: None,
        current: last_with_dn(current, dn),
        last_known_parent: None,
    };
    assert(planned_action(current, target, dn) == Some(d));
    let i = choose|i: int| 0 <= i < r.len() && r[i].0@ == dn;
    let s = seq![d];
    assert(s.drop_last() =~= Seq::<RemediationActionView>::empty());
    assert(s.last() == d);
    assert(!is_tombstone_create(d));
    assert(tombstone_creates(Seq::<RemediationActionView>::empty()) =~= Seq::<RemediationActionView>::empty());
    assert(of_kind(Seq::<RemediationActionView>::empty(), ActionType::Create) =~= Seq::<RemediationActionView>::empty());
    assert(of_kind(Seq::<RemediationActionView>::empty(), ActionType::Reanimate) =~= Seq::<RemediationActionView>::empty());
    assert(of_kind(Seq::<RemediationActionView>::empty(), ActionType::Modify) =~= Seq::<RemediationActionView>::empty());
    assert(of_kind(Seq::<RemediationActionView>::empty(), ActionType::Delete) =~= Seq::<RemediationActionView>::empty());
    assert(tombstone_creates(s) =~= Seq::<RemediationActionView>::empty());
    assert(merge_all((s, parentless_deletes(s)), Seq::<RemediationActionView>::empty()).0 == s);
    assert(not_listed(Seq::<RemediationActionView>::empty(), Seq::<RemediationActionView>::empty()) =~= Seq::<RemediationActionView>::empty());
    assert(!listed(Seq::<RemediationActionView>::empty(), d));
    assert(not_listed(s, Seq::<RemediationActionView>::empty()) =~= s);
    assert(reconcile_spec(s) =~= s);
    assert(of_kind(s, ActionType::Create) =~= Seq::<RemediationActionView>::empty());
    assert(of_kind(s, ActionType::Reanimate) =~= Seq::<RemediationActionView>::empty());
    assert(of_kind(s, ActionType::Modify) =~= Seq::<RemediationActionView>::empty());
    assert(of_kind(s, ActionType::Delete) =~= s);
    let dk = |a: RemediationActionView| delete_key(a);
    let ck = |a: RemediationActionView| create_key(a);
    assert(stable_sort_by_key(Seq::<RemediationActionView>::empty(), dk) =~= Seq::<RemediationActionView>::empty());
    assert(stable_sort_by_key(s, dk) =~= s);
    assert(stable_sort_by_key(Seq::<RemediationActionView>::empty(), ck) =~= Seq::<RemediationActionView>::empty());
    assert(s.reverse() =~= s);
    assert(sort_actions_spec(s) =~= s);
    assert(views(r[i].1@) == s);
}

/// The place of an action kind in the order of application.
pub open spec fn kind_rank(a: RemediationActionView) -> int {
    match a.action {
        ActionType::Create => 0,
        ActionType::Reanimate => 1,
        ActionType::Modify => 2,
        ActionType::Delete => 3,
    }
}

/// Every action of `of_kind(s, k)` is of kind `k`.
proof fn lemma_of_kind_all(s: Seq<RemediationActionView>, k: ActionType)
    ensures
        forall|i: int| 0 <= i < of_kind(s, k).len() ==> (#[trigger] of_kind(s, k)[i]).action == k,
    decreases s.len(),
{
    if s.len() > 0 {
        lemma_of_kind_all(s.drop_last(), k);
        let p = of_kind(s.drop_last(), k);
        if s.last().action == k {
            assert forall|i: int| 0 <= i < of_kind(s, k).len() implies (#[trigger] of_kind(s, k)[i]).action == k by {
                if i < p.len() {
                    assert(of_kind(s, k)[i] == p[i]);
                }
            }
        }
    }
}

/// Inserting by key keeps every element of `s`, adds `x`, and nothing else.
proof fn lemma_insert_elements(
    s: Seq<RemediationActionView>,
    x: RemediationActionView,
    key: spec_fn(RemediationActionView) -> nat,
    k: ActionType,
)
    requires
        forall|i: int| 0 <= i < s.len() ==> (#[trigger] s[i]).action == k,
        x.action == k,
    ensures
        insert_by_key(s, x, key).len() == s.len() + 1,
        forall|i: int| 0 <= i < insert_by_key(s, x, key).len() ==> (#[trigger] insert_by_key(s, x, key)[i]).action == k,
    decreases s.len(),
{
    if s.len() > 0 && key(s.last()) > key(x) {
        let t = s.drop_last();
        assert forall|i: int| 0 <= i < t.len() implies (#[trigger] t[i]).action == k by {
            assert(t[i] == s[i]);
        }
        lemma_insert_elements(t, x, key, k);
        let q = insert_by_key(t, x, key);
        assert forall|i: int| 0 <= i < insert_by_key(s, x, key).len() implies (#[trigger] insert_by_key(s, x, key)[i]).action == k by {
            if i < q.len() {
                assert(insert_by_key(s, x, key)[i] == q[i]);
            }
        }
    } else if s.len() > 0 {
        assert forall|i: int| 0 <= i < insert_by_key(s, x, key).len() implies (#[trigger] insert_by_key(s, x, key)[i]).action == k by {
            if i < s.len() {
                assert(insert_by_key(s, x, key)[i] == s[i]);
            }
        }
    }
}

/// Inserting by key into a sequence sorted by key keeps it sorted; the last element's key
/// is the larger of the old last key and `key(x)`.
proof fn lemma_insert_sorted(
    s: Seq<RemediationActionView>,
    x: RemediationActionView,
    key: spec_fn(RemediationActionView) -> nat,
)
    requires
        forall|i: int, j: int| 0 <= i < j < s.len() ==> key(#[trigger] s[i]) <= key(#[trigger] s[j]),
    ensures
        insert_by_key(s, x, key).len() == s.len() + 1,
        forall|i: int, j: int| 0 <= i < j < insert_by_key(s, x, key).len()
            ==> key(#[trigger] insert_by_key(s, x, key)[i]) <= key(#[trigger] insert_by_key(s, x, key)[j]),
        forall|i: int| 0 <= i < insert_by_key(s, x, key).len() ==> (#[trigger] insert_by_key(s, x, key)[i] == x
            || exists|j: int| 0 <= j < s.len() && s[j] == insert_by_key(s, x, key)[i]),
    decreases s.len(),
{
    let r = insert_by_key(s, x, key);
    if s.len() == 0 {
    } else if key(s.last()) <= key(x) {
        assert forall|i: int, j: int| 0 <= i < j < r.len() implies key(#[trigger] r[i]) <= key(#[trigger] r[j]) by {
            if j == s.len() {
                assert(key(s[i]) <= key(s[s.len() - 1]));
            }
        }
        assert forall|i: int| 0 <= i < r.len() implies (#[trigger] r[i] == x || exists|j: int| 0 <= j < s.len() && s[j] == r[i]) by {
            if i < s.len() {
                assert(s[i] == r[i]);
            }
        }
    } else {
        let t = s.drop_last();
        assert forall|i: int, j: int| 0 <= i < j < t.len() implies key(#[trigger] t[i]) <= key(#[trigger] t[j]) by {
            assert(t[i] == s[i]);
            assert(t[j] == s[j]);
        }
        lemma_insert_sorted(t, x, key);
        let q = insert_by_key(t, x, key);
        assert forall|i: int| 0 <= i < q.len() implies key(#[trigger] q[i]) <= key(s.last()) by {
            if q[i] == x {
            } else {
                let j = choose|j: int| 0 <= j < t.len() && t[j] == q[i];
                assert(t[j] == s[j]);
                assert(key(s[j]) <= key(s[s.len() - 1]));
            }
        }
        assert forall|i: int, j: int| 0 <= i < j < r.len() implies key(#[trigger] r[i]) <= key(#[trigger] r[j]) by {
            assert(r[i] == q[i]);
            if j < q.len() {
                assert(r[j] == q[j]);
            }
        }
        assert forall|i: int| 0 <= i < r.len() implies (#[trigger] r[i] == x || exists|j: int| 0 <= j < s.len() && s[j] == r[i]) by {
            if i < q.len() {
                assert(r[i] == q[i]);
                if q[i] != x {
                    let j = choose|j: int| 0 <= j < t.len() && t[j] == q[i];
                    assert(s[j] == t[j]);
                }
            } else {
                assert(r[i] == s[s.len() - 1]);
            }
        }
    }
}

/// A stable sort by key is sorted by key, and keeps the kind its elements share.
proof fn lemma_stable_sort_sorted(s: Seq<RemediationActionView>, key: spec_fn(RemediationActionView) -> nat, k: ActionType)
    requires
        forall|i: int| 0 <= i < s.len() ==> (#[trigger] s[i]).action == k,
    ensures
        stable_sort_by_key(s, key).len() == s.len(),
        forall|i: int, j: int| 0 <= i < j < stable_sort_by_key(s, key).len()
            ==> key(#[trigger] stable_sort_by_key(s, key)[i]) <= key(#[trigger] stable_sort_by_key(s, key)[j]),
        forall|i: int| 0 <= i < stable_sort_by_key(s, key).len() ==> (#[trigger] stable_sort_by_key(s, key)[i]).action == k,
    decreases s.len(),
{
    if s.len() > 0 {
        let t = s.drop_last();
        assert forall|i: int| 0 <= i < t.len() implies (#[trigger] t[i]).action == k by {
            assert(t[i] == s[i]);
        }
        lemma_stable_sort_sorted(t, key, k);
        lemma_insert_sorted(stable_sort_by_key(t, key), s.last(), key);
        lemma_insert_elements(stable_sort_by_key(t, key), s.last(), key, k);
    }
}

/// The order in which the actions of an object are applied: all creations, then
/// reanimations, then modifications, then deletions; creations of parents before those of
/// their children (by ascending DN depth), deletions of children before those of their
/// parents (by descending DN depth).
pub proof fn law_sorted_actions_order(s: Seq<RemediationActionView>)
    ensures
        forall|i: int, j: int| 0 <= i < j < sort_actions_spec(s).len()
            ==> kind_rank(#[trigger] sort_actions_spec(s)[i]) <= kind_rank(#[trigger] sort_actions_spec(s)[j]),
        forall|i: int, j: int| 0 <= i < j < sort_actions_spec(s).len()
            && (#[trigger] sort_actions_spec(s)[i]).action == ActionType::Create
            && (#[trigger] sort_actions_spec(s)[j]).action == ActionType::Create
            ==> create_key(sort_actions_spec(s)[i]) <= create_key(sort_actions_spec(s)[j]),
        forall|i: int, j: int| 0 <= i < j < sort_actions_spec(s).len()
            && (#[trigger] sort_actions_spec(s)[i]).action == ActionType::Delete
            && (#[trigger] sort_actions_spec(s)[j]).action == ActionType::Delete
            ==> delete_key(sort_actions_spec(s)[i]) >= delete_key(sort_actions_spec(s)[j]),
{
    let ck = |a: RemediationActionView| create_key(a);
    let dk = |a: RemediationActionView| delete_key(a);
    let c = stable_sort_by_key(of_kind(s, ActionType::Create), ck);
    let re = of_kind(s, ActionType::Reanimate);
    let m = of_kind(s, ActionType::Modify);
    let ds = stable_sort_by_key(of_kind(s, ActionType::Delete), dk);
    let d = ds.reverse();
    lemma_of_kind_all(s, ActionType::Create);
    lemma_of_kind_all(s, ActionType::Reanimate);
    lemma_of_kind_all(s, ActionType::Modify);
    lemma_of_kind_all(s, ActionType::Delete);
    lemma_stable_sort_sorted(of_kind(s, ActionType::Create), ck, ActionType::Create);
    lemma_stable_sort_sorted(of_kind(s, ActionType::Delete), dk, ActionType::Delete);
    let r = sort_actions_spec(s);
    assert(r == c + re + m + d);
    let a = c.len();
    let b = a + re.len();
    let e = b + m.len();
    assert forall|i: int| 0 <= i < r.len() implies kind_rank(#[trigger] r[i]) == (if i < a { 0int } else if i < b { 1int } else if i < e { 2int } else { 3int }) by {
        if i < a {
            assert(r[i] == c[i]);
        } else if i < b {
            assert(r[i] == re[i - a]);
        } else if i < e {
            assert(r[i] == m[i - b]);
        } else {
            assert(r[i] == d[i - e]);
            assert(d[i - e] == ds[ds.len() - 1 - (i - e)]);
        }
    }
    assert forall|i: int, j: int| 0 <= i < j < r.len() implies kind_rank(#[trigger] r[i]) <= kind_rank(#[trigger] r[j]) by {
        assert(kind_rank(r[i]) == (if i < a { 0int } else if i < b { 1int } else if i < e { 2int } else { 3int }));
        assert(kind_rank(r[j]) == (if j < a { 0int } else if j < b { 1int } else if j < e { 2int } else { 3int }));
    }
    assert forall|i: int, j: int| 0 <= i < j < r.len() && (#[trigger] r[i]).action == ActionType::Create
        && (#[trigger] r[j]).action == ActionType::Create implies create_key(r[i]) <= create_key(r[j]) by {
        assert(kind_rank(r[i]) == (if i < a { 0int } else if i < b { 1int } else if i < e { 2int } else { 3int }));
        assert(kind_rank(r[j]) == (if j < a { 0int } else if j < b { 1int } else if j < e { 2int } else { 3int }));
        assert(r[i] == c[i]);
        assert(r[j] == c[j]);
        assert(ck(c[i]) <= ck(c[j]));
    }
    assert forall|i: int, j: int| 0 <= i < j < r.len() && (#[trigger] r[i]).action == ActionType::Delete
        && (#[trigger] r[j]).action == ActionType::Delete implies delete_key(r[i]) >= delete_key(r[j]) by {
        assert(kind_rank(r[i]) == (if i < a { 0int } else if i < b { 1int } else if i < e { 2int } else { 3int }));
        assert(kind_rank(r[j]) == (if j < a { 0int } else if j < b { 1int } else if j < e { 2int } else { 3int }));
        assert(r[i] == d[i - e]);
        assert(r[j] == d[j - e]);
        assert(d[i - e] == ds[ds.len() - 1 - (i - e)]);
        assert(d[j - e] == ds[ds.len() - 1 - (j - e)]);
        assert(dk(ds[ds.len() - 1 - (j - e)]) <= dk(ds[ds.len() - 1 - (i - e)]));
    }
}

/// The table of actions: a live target with no current object is created; a live target
/// whose current object is a tombstone is reanimated; a live target whose live current
/// object differs is modified; a live current object whose target is absent, or a differing
/// tombstone, is deleted; an object whose target has the same hash needs nothing.
pub proof fn law_action_table(current: Option<DirectoryObjectView>, target: Option<DirectoryObjectView>)
    ensures
        current is None && target is Some && !target->0.is_deleted
            ==> diff_action(current, target) is Some && diff_action(current, target)->0.action == ActionType::Create,
        current is Some && target is Some && current->0.is_deleted && !target->0.is_deleted && current->0.hash != target->0.hash
            ==> diff_action(current, target) is Some && diff_action(current, target)->0.action == ActionType::Reanimate,
        current is Some && target is Some && !current->0.is_deleted && !target->0.is_deleted && current->0.hash != target->0.hash
            ==> diff_action(current, target) is Some && diff_action(current, target)->0.action == ActionType::Modify,
        current is Some && !current->0.is_deleted && (target is None || (target->0.is_deleted && current->0.hash != target->0.hash))
            ==> diff_action(current, target) is Some && diff_action(current, target)->0.action == ActionType::Delete,
        current is Some && target is Some && current->0.hash == target->0.hash ==> diff_action(current, target) is None,
{
}

/// Every action kept by `without_both` comes from `s`.
proof fn lemma_without_both_from(s: Seq<RemediationActionView>, x: RemediationActionView, y: RemediationActionView)
    ensures
        forall|i: int| 0 <= i < without_both(s, x, y).len() ==> s.contains(#[trigger] without_both(s, x, y)[i]),
    decreases s.len(),
{
    if s.len() > 0 {
        let t = s.drop_last();
        lemma_without_both_from(t, x, y);
        let w = without_both(s, x, y);
        let wt = without_both(t, x, y);
        assert forall|i: int| 0 <= i < w.len() implies s.contains(#[trigger] w[i]) by {
            if i < wt.len() {
                assert(w[i] == wt[i]);
                let j = choose|j: int| 0 <= j < t.len() && t[j] == wt[i];
                assert(s[j] == t[j]);
            } else {
                assert(w[i] == s[s.len() - 1]);
            }
        }
    }
}

/// After the merges, every action either comes from `s` or is a deletion.
proof fn lemma_merge_all_from(
    s: Seq<RemediationActionView>,
    pd: Seq<RemediationActionView>,
    ts: Seq<RemediationActionView>,
)
    ensures
        forall|i: int| 0 <= i < merge_all((s, pd), ts).0.len() ==> (s.contains(#[trigger] merge_all((s, pd), ts).0[i])
            || merge_all((s, pd), ts).0[i].action == ActionType::Delete),
    decreases ts.len(),
{
    if ts.len() > 0 {
        lemma_merge_all_from(s, pd, ts.drop_last());
        let st = merge_all((s, pd), ts.drop_last());
        let t = ts.last();
        match first_named_like(st.1, tombstone_cn(t)) {
            None => {},
            Some(k) => {
                let d = st.1[k];
                lemma_without_both_from(st.0, t, d);
                let w = without_both(st.0, t, d);
                let r = merge_all((s, pd), ts).0;
                assert(r == w.push(merged_delete(t, d)));
                assert forall|i: int| 0 <= i < r.len() implies (s.contains(#[trigger] r[i]) || r[i].action == ActionType::Delete) by {
                    if i < w.len() {
                        assert(r[i] == w[i]);
                        assert(st.0.contains(w[i]));
                        let j = choose|j: int| 0 <= j < st.0.len() && st.0[j] == w[i];
                        assert(s.contains(st.0[j]) || st.0[j].action == ActionType::Delete);
                    }
                }
            },
        }
    }
}

/// Every tombstone creation of `s` is among `tombstone_creates(s)`.
proof fn lemma_tombstone_listed(s: Seq<RemediationActionView>, a: RemediationActionView)
    requires
        s.contains(a),
        is_tombstone_create(a),
    ensures
        listed(tombstone_creates(s), a),
    decreases s.len(),
{
    let t = s.drop_last();
    let tc = tombstone_creates(s);
    if s.last() == a {
        assert(tc.last() == a);
        assert(same_action(tc[tc.len() - 1], a));
    } else {
        let j = choose|j: int| 0 <= j < s.len() && s[j] == a;
        assert(t[j] == a);
        lemma_tombstone_listed(t, a);
        let k = choose|k: int| 0 <= k < tombstone_creates(t).len() && same_action(#[trigger] tombstone_creates(t)[k], a);
        assert(tc[k] == tombstone_creates(t)[k]);
    }
}

/// What `not_listed` keeps is in `s` and listed in no action of `us`.
proof fn lemma_not_listed_kept(s: Seq<RemediationActionView>, us: Seq<RemediationActionView>)
    ensures
        forall|i: int| 0 <= i < not_listed(s, us).len() ==> s.contains(#[trigger] not_listed(s, us)[i])
            && !listed(us, not_listed(s, us)[i]),
    decreases s.len(),
{
    if s.len() > 0 {
        let t = s.drop_last();
        lemma_not_listed_kept(t, us);
        let n = not_listed(s, us);
        let nt = not_listed(t, us);
        assert forall|i: int| 0 <= i < n.len() implies s.contains(#[trigger] n[i]) && !listed(us, n[i]) by {
            if i < nt.len() {
                assert(n[i] == nt[i]);
                let j = choose|j: int| 0 <= j < t.len() && t[j] == nt[i];
                assert(s[j] == t[j]);
            } else {
                assert(n[i] == s[s.len() - 1]);
            }
        }
    }
}

/// After reconciliation no tombstone is created: a tombstone in the target is either merged
/// into the deletion of the live object it was, or dropped, since the object is already gone.
pub proof fn law_reconciled_actions_create_no_tombstone(s: Seq<RemediationActionView>)
    ensures
        forall|i: int| 0 <= i < reconcile_spec(s).len() ==> !is_tombstone_create(#[trigger] reconcile_spec(s)[i]),
{
    let unmatched = tombstone_creates(s);
    let merged = merge_all((s, parentless_deletes(s)), unmatched).0;
    lemma_merge_all_from(s, parentless_deletes(s), unmatched);
    lemma_not_listed_kept(merged, unmatched);
    let r = reconcile_spec(s);
    assert(r == not_listed(merged, unmatched));
    assert forall|i: int| 0 <= i < r.len() implies !is_tombstone_create(#[trigger] r[i]) by {
        let a = r[i];
        let j = choose|j: int| 0 <= j < merged.len() && merged[j] == a;
        if is_tombstone_create(a) {
            assert(s.contains(merged[j]) || merged[j].action == ActionType::Delete);
            lemma_tombstone_listed(s, a);
        }
    }
}

/// Splitting by kind keeps every action: the four kinds together are the whole.
proof fn lemma_of_kind_split(s: Seq<RemediationActionView>)
    ensures
        s.to_multiset() =~= of_kind(s, ActionType::Create).to_multiset().add(of_kind(s, ActionType::Reanimate).to_multiset()).add(
            of_kind(s, ActionType::Modify).to_multiset(),
        ).add(of_kind(s, ActionType::Delete).to_multiset()),
    decreases s.len(),
{
    broadcast use vstd::seq_lib::group_to_multiset_ensures, vstd::multiset::group_multiset_axioms;

    if s.len() == 0 {
        assert(s.to_multiset() =~= vstd::multiset::Multiset::empty());
    } else {
        let t = s.drop_last();
        let x = s.last();
        lemma_of_kind_split(t);
        assert(s == t.push(x));
    }
}

/// Inserting by key adds exactly the inserted action.
proof fn lemma_insert_multiset(s: Seq<RemediationActionView>, x: RemediationActionView, key: spec_fn(RemediationActionView) -> nat)
    ensures
        insert_by_key(s, x, key).to_multiset() =~= s.to_multiset().insert(x),
    decreases s.len(),
{
    broadcast use vstd::seq_lib::group_to_multiset_ensures, vstd::multiset::group_multiset_axioms;

    if s.len() == 0 {
        assert(seq![x] == Seq::<RemediationActionView>::empty().push(x));
        assert(Seq::<RemediationActionView>::empty().to_multiset() =~= vstd::multiset::Multiset::empty());
    } else if key(s.last()) > key(x) {
        let t = s.drop_last();
        lemma_insert_multiset(t, x, key);
        assert(s == t.push(s.last()));
    }
}

/// A stable sort keeps every action.
proof fn lemma_stable_sort_multiset(s: Seq<RemediationActionView>, key: spec_fn(RemediationActionView) -> nat)
    ensures
        stable_sort_by_key(s, key).to_multiset() =~= s.to_multiset(),
    decreases s.len(),
{
    broadcast use vstd::seq_lib::group_to_multiset_ensures, vstd::multiset::group_multiset_axioms;

    if s.len() > 0 {
        let t = s.drop_last();
        lemma_stable_sort_multiset(t, key);
        lemma_insert_multiset(stable_sort_by_key(t, key), s.last(), key);
        assert(s == t.push(s.last()));
    }
}

/// Ordering the actions of an object keeps every action, each as often as it was there.
pub proof fn law_sorted_actions_keep_every_action(s: Seq<RemediationActionView>)
    ensures
        sort_actions_spec(s).to_multiset() =~= s.to_multiset(),
{
    broadcast use vstd::seq_lib::group_to_multiset_ensures, vstd::multiset::group_multiset_axioms;

    let ck = |a: RemediationActionView| create_key(a);
    let dk = |a: RemediationActionView| delete_key(a);
    let c = stable_sort_by_key(of_kind(s, ActionType::Create), ck);
    let re = of_kind(s, ActionType::Reanimate);
    let m = of_kind(s, ActionType::Modify);
    let ds = stable_sort_by_key(of_kind(s, ActionType::Delete), dk);
    lemma_of_kind_split(s);
    lemma_stable_sort_multiset(of_kind(s, ActionType::Create), ck);
    lemma_stable_sort_multiset(of_kind(s, ActionType::Delete), dk);
    ds.lemma_reverse_to_multiset();
    vstd::seq_lib::lemma_multiset_commutative(c, re);
    vstd::seq_lib::lemma_multiset_commutative(c + re, m);
    vstd::seq_lib::lemma_multiset_commutative(c + re + m, ds.reverse());
    assert(sort_actions_spec(s) == c + re + m + ds.reverse());
}

} // verus!
