//! The directory objects of a snapshot and the remediation actions and commands derived
//! from them.
use vstd::prelude::*;

use crate::text::str_eq;

verus! {

/// A list of attribute entries, each a name with its values. The name of an entry is
/// looked up by its first occurrence, so the list behaves as a map from names to values.
pub open spec fn has_key<V>(s: Seq<(Seq<char>, V)>, k: Seq<char>) -> bool {
    exists|i: int| 0 <= i < s.len() && s[i].0 == k
}

/// Index of the first entry named `k` (meaningful when `has_key(s, k)`).
pub open spec fn first_key_index<V>(s: Seq<(Seq<char>, V)>, k: Seq<char>) -> int {
    choose|i: int| 0 <= i < s.len() && s[i].0 == k && forall|j: int| 0 <= j < i ==> s[j].0 != k
}

/// The values of the entry named `k`, if there is one.
pub open spec fn lookup<V>(s: Seq<(Seq<char>, V)>, k: Seq<char>) -> Option<V> {
    if has_key(s, k) {
        Some(s[first_key_index(s, k)].1)
    } else {
        None
    }
}

/// No two entries share a name.
pub open spec fn distinct_keys<V>(s: Seq<(Seq<char>, V)>) -> bool {
    forall|i: int, j: int| 0 <= i < s.len() && 0 <= j < s.len() && i != j ==> s[i].0 != s[j].0
}

/// Two entry lists hold the same map from names to values.
pub open spec fn same_entries<V>(a: Seq<(Seq<char>, V)>, b: Seq<(Seq<char>, V)>) -> bool {
    forall|k: Seq<char>| #[trigger] lookup(a, k) == lookup(b, k)
}

/// The first entry index found by a scan is the one `lookup` reads.
pub proof fn lemma_first_key_index<V>(s: Seq<(Seq<char>, V)>, k: Seq<char>, i: int)
    requires
        0 <= i < s.len(),
        s[i].0 == k,
        forall|j: int| 0 <= j < i ==> s[j].0 != k,
    ensures
        has_key(s, k),
        first_key_index(s, k) == i,
        lookup(s, k) == Some(s[i].1),
{
    let c = first_key_index(s, k);
    assert(0 <= c < s.len() && s[c].0 == k && forall|j: int| 0 <= j < c ==> s[j].0 != k);
    if c < i {
        assert(s[c].0 != k);
    } else if c > i {
        assert(s[i].0 != k);
    }
}

/// When a name occurs, its first occurrence is where `first_key_index` points.
pub proof fn lemma_has_key_first<V>(s: Seq<(Seq<char>, V)>, k: Seq<char>)
    requires
        has_key(s, k),
    ensures
        0 <= first_key_index(s, k) < s.len(),
        s[first_key_index(s, k)].0 == k,
        forall|j: int| 0 <= j < first_key_index(s, k) ==> s[j].0 != k,
{
    let i = choose|i: int| 0 <= i < s.len() && s[i].0 == k;
    let m = lemma_min_key_index(s, k, i);
    lemma_first_key_index(s, k, m);
}

proof fn lemma_min_key_index<V>(s: Seq<(Seq<char>, V)>, k: Seq<char>, i: int) -> (m: int)
    requires
        0 <= i < s.len(),
        s[i].0 == k,
    ensures
        0 <= m <= i,
        s[m].0 == k,
        forall|j: int| 0 <= j < m ==> s[j].0 != k,
    decreases i,
{
    if exists|j: int| 0 <= j < i && s[j].0 == k {
        let j = choose|j: int| 0 <= j < i && s[j].0 == k;
        lemma_min_key_index(s, k, j)
    } else {
        i
    }
}

/// The state of a directory object as the contracts see it.
pub struct DirectoryObjectView {
    pub dn: Seq<char>,
    pub name: Option<Seq<char>>,
    pub sddl: Option<Seq<u8>>,
    pub object_class: Seq<Seq<char>>,
    pub is_deleted: bool,
    pub attributes: Seq<(Seq<char>, Seq<Seq<char>>)>,
    pub bin_attributes: Seq<(Seq<char>, Seq<Seq<u8>>)>,
    pub hash: Seq<char>,
}

/// One object of a directory snapshot, keyed by its distinguished name.
/// `attributes` and `bin_attributes` are lists of (lower-case name, values) entries.
#[derive(Debug, Clone)]
pub struct DirectoryObject {
    pub dn: String,
    pub name: Option<String>,
    pub sddl: Option<Vec<u8>>,
    pub object_class: Vec<String>,
    pub is_deleted: bool,
    pub attributes: Vec<(String, Vec<String>)>,
    pub bin_attributes: Vec<(String, Vec<Vec<u8>>)>,
    pub hash: String,
}

impl DeepView for DirectoryObject {
    type V = DirectoryObjectView;

    open spec fn deep_view(&self) -> DirectoryObjectView {
        DirectoryObjectView {
            dn: self.dn@,
            name: self.name.deep_view(),
            sddl: self.sddl.deep_view(),
            object_class: self.object_class.deep_view(),
            is_deleted: self.is_deleted,
            attributes: self.attributes.deep_view(),
            bin_attributes: self.bin_attributes.deep_view(),
            hash: self.hash@,
        }
    }
}

impl DirectoryObjectView {
    /// Each name occurs once among the text attributes and once among the binary ones.
    pub open spec fn well_formed(self) -> bool {
        distinct_keys(self.attributes) && distinct_keys(self.bin_attributes)
    }
}

/// Two objects are the same object: equal fields, and equal attribute maps (the order of
/// the attribute entries does not matter).
pub open spec fn same_object(a: DirectoryObjectView, b: DirectoryObjectView) -> bool {
    &&& a.dn == b.dn
    &&& a.name == b.name
    &&& a.sddl == b.sddl
    &&& a.object_class == b.object_class
    &&& a.is_deleted == b.is_deleted
    &&& same_entries(a.attributes, b.attributes)
    &&& same_entries(a.bin_attributes, b.bin_attributes)
    &&& a.hash == b.hash
}

/// The optional objects are both absent, or both present and the same object.
pub open spec fn same_opt_object(a: Option<DirectoryObjectView>, b: Option<DirectoryObjectView>) -> bool {
    match (a, b) {
        (None, None) => true,
        (Some(x), Some(y)) => same_object(x, y),
        _ => false,
    }
}

/// What a remediation action does to an object.
#[derive(Debug, Clone, Copy, PartialEq, Eq, Structural)]
pub enum ActionType {
    Create,
    Reanimate,
    Modify,
    Delete,
}

/// The view of a remediation action.
pub struct RemediationActionView {
    pub action: ActionType,
    pub target: Option<DirectoryObjectView>,
    pub current: Option<DirectoryObjectView>,
    pub last_known_parent: Option<Seq<char>>,
}

/// One step that brings an object from its current state to its target state.
#[derive(Debug, Clone)]
pub struct RemediationAction {
    pub action: ActionType,
    /// What the object should look like.
    pub target: Option<DirectoryObject>,
    /// What the object looks like now (absent for a creation).
    pub current: Option<DirectoryObject>,
    /// For a deletion, where to move the object first, when known.
    pub last_known_parent: Option<String>,
}

impl DeepView for RemediationAction {
    type V = RemediationActionView;

    open spec fn deep_view(&self) -> RemediationActionView {
        RemediationActionView {
            action: self.action,
            target: self.target.deep_view(),
            current: self.current.deep_view(),
            last_known_parent: self.last_known_parent.deep_view(),
        }
    }
}

/// Two actions are equal, their objects compared as `same_object` does.
pub open spec fn same_action(a: RemediationActionView, b: RemediationActionView) -> bool {
    &&& a.action == b.action
    &&& same_opt_object(a.target, b.target)
    &&& same_opt_object(a.current, b.current)
    &&& a.last_known_parent == b.last_known_parent
}

/// The kind of a generated command.
#[derive(Debug, Clone, Copy, PartialEq, Eq, Structural)]
pub enum CommandType {
    PowerShell,
    DsAcls,
    Comment,
}

/// The view of a generated command.
pub struct RemediationCommandView {
    pub command_type: CommandType,
    pub command: Seq<char>,
    pub description: Option<Seq<char>>,
    pub object_name: Option<Seq<char>>,
    pub is_comment: bool,
}

/// One line of the generated remediation script.
#[derive(Debug, Clone)]
pub struct RemediationCommand {
    pub command_type: CommandType,
    pub command: String,
    pub description: Option<String>,
    pub object_name: Option<String>,
    pub is_comment: bool,
}

impl DeepView for RemediationCommand {
    type V = RemediationCommandView;

    open spec fn deep_view(&self) -> RemediationCommandView {
        RemediationCommandView {
            command_type: self.command_type,
            command: self.command@,
            description: self.description.deep_view(),
            object_name: self.object_name.deep_view(),
            is_comment: self.is_comment,
        }
    }
}

/// Equality of two optional texts.
pub fn opt_str_eq(a: &Option<String>, b: &Option<String>) -> (r: bool)
    ensures
        r == (a.deep_view() == b.deep_view()),
{
    match (a, b) {
        (None, None) => true,
        (Some(x), Some(y)) => str_eq(x.as_str(), y.as_str()),
        _ => false,
    }
}

/// Equality of two byte strings.
pub fn bytes_eq(a: &Vec<u8>, b: &Vec<u8>) -> (r: bool)
    ensures
        r == (a@ == b@),
{
    if a.len() != b.len() {
        return false;
    }
    for i in 0..a.len()
        invariant
            a.len() == b.len(),
            forall|j: int| 0 <= j < i ==> a@[j] == b@[j],
    {
        if a[i] != b[i] {
            return false;
        }
    }
    assert(a@ =~= b@);
    true
}

/// Equality of two optional byte strings.
pub fn opt_bytes_eq(a: &Option<Vec<u8>>, b: &Option<Vec<u8>>) -> (r: bool)
    ensures
        r == (a.deep_view() == b.deep_view()),
{
    match (a, b) {
        (None, None) => true,
        (Some(x), Some(y)) => {
            proof {
                lemma_bytes_deep_view(*x);
                lemma_bytes_deep_view(*y);
            }
            bytes_eq(x, y)
        },
        _ => false,
    }
}

/// Equality of two lists of texts.
pub fn strings_eq(a: &Vec<String>, b: &Vec<String>) -> (r: bool)
    ensures
        r == (a.deep_view() == b.deep_view()),
{
    if a.len() != b.len() {
        assert(a.deep_view().len() != b.deep_view().len());
        return false;
    }
    for i in 0..a.len()
        invariant
            a.len() == b.len(),
            forall|j: int| 0 <= j < i ==> a@[j]@ == b@[j]@,
    {
        if !str_eq(a[i].as_str(), b[i].as_str()) {
            assert(a.deep_view()[i as int] != b.deep_view()[i as int]);
            return false;
        }
    }
    assert(a.deep_view() =~= b.deep_view());
    true
}

/// Equality of two lists of byte strings.
pub fn byte_strings_eq(a: &Vec<Vec<u8>>, b: &Vec<Vec<u8>>) -> (r: bool)
    ensures
        r == (a.deep_view() == b.deep_view()),
{
    if a.len() != b.len() {
        assert(a.deep_view().len() != b.deep_view().len());
        return false;
    }
    for i in 0..a.len()
        invariant
            a.len() == b.len(),
            forall|j: int| 0 <= j < i ==> a@[j].deep_view() == b@[j].deep_view(),
    {
        proof {
            lemma_bytes_deep_view(a@[i as int]);
            lemma_bytes_deep_view(b@[i as int]);
        }
        if !bytes_eq(&a[i], &b[i]) {
            assert(a.deep_view()[i as int] != b.deep_view()[i as int]);
            return false;
        }
    }
    assert(a.deep_view() =~= b.deep_view());
    true
}

/// Position of the first text-attribute entry named `key`.
pub fn find_attr(attrs: &Vec<(String, Vec<String>)>, key: &str) -> (r: Option<usize>)
    ensures
        match r {
            Some(i) => i < attrs.len() && lookup(attrs.deep_view(), key@) == Some(attrs.deep_view()[i as int].1)
                && first_key_index(attrs.deep_view(), key@) == i,
            None => lookup(attrs.deep_view(), key@) is None,
        },
{
    let ghost s = attrs.deep_view();
    for i in 0..attrs.len()
        invariant
            s == attrs.deep_view(),
            forall|j: int| 0 <= j < i ==> s[j].0 != key@,
    {
        if str_eq(attrs[i].0.as_str(), key) {
            proof { lemma_first_key_index(s, key@, i as int); }
            return Some(i);
        }
    }
    None
}

/// Position of the first binary-attribute entry named `key`.
pub fn find_bin_attr(attrs: &Vec<(String, Vec<Vec<u8>>)>, key: &str) -> (r: Option<usize>)
    ensures
        match r {
            Some(i) => i < attrs.len() && lookup(attrs.deep_view(), key@) == Some(attrs.deep_view()[i as int].1)
                && first_key_index(attrs.deep_view(), key@) == i,
            None => lookup(attrs.deep_view(), key@) is None,
        },
{
    let ghost s = attrs.deep_view();
    for i in 0..attrs.len()
        invariant
            s == attrs.deep_view(),
            forall|j: int| 0 <= j < i ==> s[j].0 != key@,
    {
        if str_eq(attrs[i].0.as_str(), key) {
            proof { lemma_first_key_index(s, key@, i as int); }
            return Some(i);
        }
    }
    None
}

/// Byte strings are their own deep view.
pub proof fn lemma_bytes_deep_view(v: Vec<u8>)
    ensures
        v.deep_view() == v@,
{
    assert(v.deep_view() =~= v@);
}

/// Whether `a` and `b` give the same values for the name `key`.
fn attr_values_match(a: &Vec<(String, Vec<String>)>, b: &Vec<(String, Vec<String>)>, key: &str) -> (r: bool)
    ensures
        r == (lookup(a.deep_view(), key@) == lookup(b.deep_view(), key@)),
{
    let ia = find_attr(a, key);
    let ib = find_attr(b, key);
    match (ia, ib) {
        (Some(p), Some(q)) => {
            assert(a.deep_view()[p as int].1 == a@[p as int].1.deep_view());
            assert(b.deep_view()[q as int].1 == b@[q as int].1.deep_view());
            strings_eq(&a[p].1, &b[q].1)
        },
        (None, None) => true,
        _ => false,
    }
}

/// Whether `a` and `b` agree on every name that `x` holds.
fn attr_keys_agree(x: &Vec<(String, Vec<String>)>, a: &Vec<(String, Vec<String>)>, b: &Vec<(String, Vec<String>)>) -> (r: bool)
    ensures
        r == forall|j: int| 0 <= j < x.len() ==> lookup(a.deep_view(), #[trigger] x.deep_view()[j].0) == lookup(b.deep_view(), x.deep_view()[j].0),
{
    let ghost sx = x.deep_view();
    let ghost sa = a.deep_view();
    let ghost sb = b.deep_view();
    for i in 0..x.len()
        invariant
            sx == x.deep_view(),
            sa == a.deep_view(),
            sb == b.deep_view(),
            forall|j: int| 0 <= j < i ==> lookup(sa, #[trigger] sx[j].0) == lookup(sb, sx[j].0),
    {
        assert(x[i as int].0@ == sx[i as int].0);
        if !attr_values_match(a, b, x[i].0.as_str()) {
            return false;
        }
    }
    true
}

/// Whether `a` and `b` give the same values for the name `key`.
fn bin_attr_values_match(a: &Vec<(String, Vec<Vec<u8>>)>, b: &Vec<(String, Vec<Vec<u8>>)>, key: &str) -> (r: bool)
    ensures
        r == (lookup(a.deep_view(), key@) == lookup(b.deep_view(), key@)),
{
    let ia = find_bin_attr(a, key);
    let ib = find_bin_attr(b, key);
    match (ia, ib) {
        (Some(p), Some(q)) => {
            assert(a.deep_view()[p as int].1 == a@[p as int].1.deep_view());
            assert(b.deep_view()[q as int].1 == b@[q as int].1.deep_view());
            byte_strings_eq(&a[p].1, &b[q].1)
        },
        (None, None) => true,
        _ => false,
    }
}

/// Whether `a` and `b` agree on every name that `x` holds.
fn bin_attr_keys_agree(x: &Vec<(String, Vec<Vec<u8>>)>, a: &Vec<(String, Vec<Vec<u8>>)>, b: &Vec<(String, Vec<Vec<u8>>)>) -> (r: bool)
    ensures
        r == forall|j: int| 0 <= j < x.len() ==> lookup(a.deep_view(), #[trigger] x.deep_view()[j].0) == lookup(b.deep_view(), x.deep_view()[j].0),
{
    let ghost sx = x.deep_view();
    let ghost sa = a.deep_view();
    let ghost sb = b.deep_view();
    for i in 0..x.len()
        invariant
            sx == x.deep_view(),
            sa == a.deep_view(),
            sb == b.deep_view(),
            forall|j: int| 0 <= j < i ==> lookup(sa, #[trigger] sx[j].0) == lookup(sb, sx[j].0),
    {
        assert(x[i as int].0@ == sx[i as int].0);
        if !bin_attr_values_match(a, b, x[i].0.as_str()) {
            return false;
        }
    }
    true
}

/// Two entry lists are the same map when they agree on the names of both.
proof fn lemma_same_entries_from_keys<V>(sa: Seq<(Seq<char>, V)>, sb: Seq<(Seq<char>, V)>)
    requires
        forall|j: int| 0 <= j < sa.len() ==> lookup(sa, #[trigger] sa[j].0) == lookup(sb, sa[j].0),
        forall|j: int| 0 <= j < sb.len() ==> lookup(sa, #[trigger] sb[j].0) == lookup(sb, sb[j].0),
    ensures
        same_entries(sa, sb),
{
    assert forall|k: Seq<char>| #[trigger] lookup(sa, k) == lookup(sb, k) by {
        if has_key(sa, k) {
            let j = choose|j: int| 0 <= j < sa.len() && sa[j].0 == k;
            assert(lookup(sa, sa[j].0) == lookup(sb, sa[j].0));
        } else if has_key(sb, k) {
            let j = choose|j: int| 0 <= j < sb.len() && sb[j].0 == k;
            assert(lookup(sa, sb[j].0) == lookup(sb, sb[j].0));
        }
    }
}

/// Whether two text-attribute lists hold the same map from names to values.
pub fn attrs_same(a: &Vec<(String, Vec<String>)>, b: &Vec<(String, Vec<String>)>) -> (r: bool)
    ensures
        r == same_entries(a.deep_view(), b.deep_view()),
{
    let r1 = attr_keys_agree(a, a, b);
    let r2 = attr_keys_agree(b, a, b);
    proof {
        if r1 && r2 {
            lemma_same_entries_from_keys(a.deep_view(), b.deep_view());
        }
    }
    r1 && r2
}

/// Whether two binary-attribute lists hold the same map from names to values.
pub fn bin_attrs_same(a: &Vec<(String, Vec<Vec<u8>>)>, b: &Vec<(String, Vec<Vec<u8>>)>) -> (r: bool)
    ensures
        r == same_entries(a.deep_view(), b.deep_view()),
{
    let r1 = bin_attr_keys_agree(a, a, b);
    let r2 = bin_attr_keys_agree(b, a, b);
    proof {
        if r1 && r2 {
            lemma_same_entries_from_keys(a.deep_view(), b.deep_view());
        }
    }
    r1 && r2
}

impl DirectoryObject {
    /// Whether `self` and `other` are the same object (attribute maps compared as maps).
    pub fn same_as(&self, other: &DirectoryObject) -> (r: bool)
        ensures
            r == same_object(self.deep_view(), other.deep_view()),
    {
        str_eq(self.dn.as_str(), other.dn.as_str()) && opt_str_eq(&self.name, &other.name)
            && opt_bytes_eq(&self.sddl, &other.sddl) && strings_eq(
            &self.object_class,
            &other.object_class,
        ) && self.is_deleted == other.is_deleted && attrs_same(&self.attributes, &other.attributes)
            && bin_attrs_same(&self.bin_attributes, &other.bin_attributes) && str_eq(
            self.hash.as_str(),
            other.hash.as_str(),
        )
    }
}

/// Whether two optional objects are both absent or the same object.
pub fn opt_object_same(a: &Option<DirectoryObject>, b: &Option<DirectoryObject>) -> (r: bool)
    ensures
        r == same_opt_object(a.deep_view(), b.deep_view()),
{
    match (a, b) {
        (None, None) => true,
        (Some(x), Some(y)) => x.same_as(y),
        _ => false,
    }
}

impl RemediationAction {
    /// Whether `self` and `other` are equal actions.
    pub fn same_as(&self, other: &RemediationAction) -> (r: bool)
        ensures
            r == same_action(self.deep_view(), other.deep_view()),
    {
        self.action == other.action && opt_object_same(&self.target, &other.target)
            && opt_object_same(&self.current, &other.current) && opt_str_eq(
            &self.last_known_parent,
            &other.last_known_parent,
        )
    }
}


/// A copy of a list of texts.
pub fn copy_strings(v: &Vec<String>) -> (r: Vec<String>)
    ensures
        r.deep_view() == v.deep_view(),
{
    let mut r: Vec<String> = Vec::new();
    for i in 0..v.len()
        invariant
            r.deep_view() == v.deep_view().take(i as int),
            r@.len() == i,
    {
        let ghost prev = r@;
        let x = v[i].clone();
        r.push(x);
        assert(r@ == prev.push(x));
        assert forall|j: int| 0 <= j < i implies r@[j].deep_view() == #[trigger] prev[j].deep_view() by {}
        assert(r.deep_view() =~= v.deep_view().take(i + 1));
    }
    assert(v.deep_view().take(v.len() as int) =~= v.deep_view());
    r
}

/// A copy of a byte string.
pub fn copy_bytes(v: &Vec<u8>) -> (r: Vec<u8>)
    ensures
        r@ == v@,
        r.deep_view() == v.deep_view(),
{
    let mut r: Vec<u8> = Vec::new();
    for i in 0..v.len()
        invariant
            r@ == v@.take(i as int),
    {
        r.push(v[i]);
        assert(r@ =~= v@.take(i + 1));
    }
    assert(v@.take(v.len() as int) =~= v@);
    proof {
        lemma_bytes_deep_view(r);
        lemma_bytes_deep_view(*v);
    }
    r
}

/// A copy of a list of byte strings.
pub fn copy_byte_strings(v: &Vec<Vec<u8>>) -> (r: Vec<Vec<u8>>)
    ensures
        r.deep_view() == v.deep_view(),
{
    let mut r: Vec<Vec<u8>> = Vec::new();
    for i in 0..v.len()
        invariant
            r.deep_view() == v.deep_view().take(i as int),
            r@.len() == i,
    {
        let ghost prev = r@;
        let x = copy_bytes(&v[i]);
        r.push(x);
        assert(r@ == prev.push(x));
        assert forall|j: int| 0 <= j < i implies r@[j].deep_view() == #[trigger] prev[j].deep_view() by {}
        assert(r.deep_view() =~= v.deep_view().take(i + 1));
    }
    assert(v.deep_view().take(v.len() as int) =~= v.deep_view());
    r
}

/// A copy of a list of text attributes.
pub fn copy_attrs(v: &Vec<(String, Vec<String>)>) -> (r: Vec<(String, Vec<String>)>)
    ensures
        r.deep_view() == v.deep_view(),
{
    let mut r: Vec<(String, Vec<String>)> = Vec::new();
    for i in 0..v.len()
        invariant
            r.deep_view() == v.deep_view().take(i as int),
            r@.len() == i,
    {
        let ghost prev = r@;
        let x = (v[i].0.clone(), copy_strings(&v[i].1));
        r.push(x);
        assert(r@ == prev.push(x));
        assert(x.deep_view() == v@[i as int].deep_view());
        assert forall|j: int| 0 <= j < i implies r@[j].deep_view() == #[trigger] prev[j].deep_view() by {}
        assert(r.deep_view() =~= v.deep_view().take(i + 1));
    }
    assert(v.deep_view().take(v.len() as int) =~= v.deep_view());
    r
}

/// A copy of a list of binary attributes.
pub fn copy_bin_attrs(v: &Vec<(String, Vec<Vec<u8>>)>) -> (r: Vec<(String, Vec<Vec<u8>>)>)
    ensures
        r.deep_view() == v.deep_view(),
{
    let mut r: Vec<(String, Vec<Vec<u8>>)> = Vec::new();
    for i in 0..v.len()
        invariant
            r.deep_view() == v.deep_view().take(i as int),
            r@.len() == i,
    {
        let ghost prev = r@;
        let x = (v[i].0.clone(), copy_byte_strings(&v[i].1));
        r.push(x);
        assert(r@ == prev.push(x));
        assert(x.deep_view() == v@[i as int].deep_view());
        assert forall|j: int| 0 <= j < i implies r@[j].deep_view() == #[trigger] prev[j].deep_view() by {}
        assert(r.deep_view() =~= v.deep_view().take(i + 1));
    }
    assert(v.deep_view().take(v.len() as int) =~= v.deep_view());
    r
}

/// A copy of an optional text.
pub fn copy_opt_string(v: &Option<String>) -> (r: Option<String>)
    ensures
        r.deep_view() == v.deep_view(),
{
    match v {
        Some(s) => Some(s.clone()),
        None => None,
    }
}

impl DirectoryObject {
    /// A copy of this object.
    pub fn copy(&self) -> (r: DirectoryObject)
        ensures
            r.deep_view() == self.deep_view(),
    {
        DirectoryObject {
            dn: self.dn.clone(),
            name: copy_opt_string(&self.name),
            sddl: match &self.sddl {
                Some(b) => Some(copy_bytes(b)),
                None => None,
            },
            object_class: copy_strings(&self.object_class),
            is_deleted: self.is_deleted,
            attributes: copy_attrs(&self.attributes),
            bin_attributes: copy_bin_attrs(&self.bin_attributes),
            hash: self.hash.clone(),
        }
    }
}

/// A copy of an optional object.
pub fn copy_opt_object(v: &Option<DirectoryObject>) -> (r: Option<DirectoryObject>)
    ensures
        r.deep_view() == v.deep_view(),
{
    match v {
        Some(o) => Some(o.copy()),
        None => None,
    }
}

impl RemediationAction {
    /// A copy of this action.
    pub fn copy(&self) -> (r: RemediationAction)
        ensures
            r.deep_view() == self.deep_view(),
    {
        RemediationAction {
            action: self.action,
            target: copy_opt_object(&self.target),
            current: copy_opt_object(&self.current),
            last_known_parent: copy_opt_string(&self.last_known_parent),
        }
    }
}


/// A new entry leaves the other names as they were and gives its own name its values,
/// when the name was not there yet.
pub proof fn lemma_lookup_push<V>(s: Seq<(Seq<char>, V)>, k: Seq<char>, v: V, q: Seq<char>)
    requires
        !has_key(s, k),
    ensures
        lookup(s.push((k, v)), q) == (if q == k { Some(v) } else { lookup(s, q) }),
{
    let t = s.push((k, v));
    if q == k {
        assert forall|j: int| 0 <= j < s.len() implies t[j].0 != k by {
            assert(t[j] == s[j]);
        }
        lemma_first_key_index(t, k, s.len() as int);
    } else if has_key(s, q) {
        lemma_has_key_first(s, q);
        let j = first_key_index(s, q);
        assert forall|m: int| 0 <= m < j implies t[m].0 != q by {
            assert(t[m] == s[m]);
        }
        assert(t[j] == s[j]);
        lemma_first_key_index(t, q, j);
    } else {
        assert forall|m: int| 0 <= m < t.len() implies t[m].0 != q by {
            if m < s.len() {
                assert(t[m] == s[m]);
            }
        }
    }
}

/// Replacing the values of the entry at `p` gives its name the new values and leaves the
/// other names as they were, when names are distinct.
pub proof fn lemma_lookup_update<V>(s: Seq<(Seq<char>, V)>, p: int, v: V, q: Seq<char>)
    requires
        distinct_keys(s),
        0 <= p < s.len(),
    ensures
        lookup(s.update(p, (s[p].0, v)), q) == (if q == s[p].0 { Some(v) } else { lookup(s, q) }),
        distinct_keys(s.update(p, (s[p].0, v))),
{
    let k = s[p].0;
    let t = s.update(p, (k, v));
    if q == k {
        assert forall|j: int| 0 <= j < p implies t[j].0 != k by {
            assert(t[j] == s[j]);
        }
        lemma_first_key_index(t, k, p);
    } else if has_key(s, q) {
        lemma_has_key_first(s, q);
        let j = first_key_index(s, q);
        assert(j != p);
        assert forall|m: int| 0 <= m < j implies t[m].0 != q by {
            if m != p {
                assert(t[m] == s[m]);
            }
        }
        assert(t[j] == s[j]);
        lemma_first_key_index(t, q, j);
    } else {
        assert forall|m: int| 0 <= m < t.len() implies t[m].0 != q by {
            if m != p {
                assert(t[m] == s[m]);
            }
        }
    }
}

} // verus!
