//! The directory schema: attribute definitions read from `attributeSchema` and
//! `classSchema` entries, and the attributes a snapshot records.
use vstd::prelude::*;

use crate::ldap::LdapSearchEntry;
use crate::objects::{
    distinct_keys, first_key_index, has_key, lemma_first_key_index, lemma_has_key_first, lemma_lookup_push,
    lookup,
};
use crate::text::{
    eq_ignore_ascii_case, eq_ignore_ascii_case_spec, parse_i32, parse_i32_spec, str_eq,
    to_lowercase, to_uppercase, unicode_lowercase, unicode_uppercase,
};

verus! {

broadcast use vstd::string::group_string_axioms;

/// How the values of an attribute are written, from its syntax.
#[derive(Debug, Clone, Copy, PartialEq, Eq, Structural)]
pub enum AttributeValueKind {
    Boolean,
    Integer,
    LargeInteger,
    String,
    OctetString,
    Sid,
    SecurityDescriptor,
    Dn,
    Time,
    Object,
    Unknown,
}

/// The value kind of an (`attributeSyntax`, `oMSyntax`) pair.
pub open spec fn value_kind_spec(s: Seq<char>, om: i32) -> AttributeValueKind {
    if s == "2.5.5.8"@ && om == 1 {
        AttributeValueKind::Boolean
    } else if s == "2.5.5.9"@ && (om == 2 || om == 10) {
        AttributeValueKind::Integer
    } else if s == "2.5.5.16"@ && om == 65 {
        AttributeValueKind::LargeInteger
    } else if s == "2.5.5.1"@ && om == 127 {
        AttributeValueKind::Dn
    } else if s == "2.5.5.15"@ && om == 66 {
        AttributeValueKind::SecurityDescriptor
    } else if s == "2.5.5.17"@ && om == 4 {
        AttributeValueKind::Sid
    } else if s == "2.5.5.10"@ && om == 4 {
        AttributeValueKind::OctetString
    } else if s == "2.5.5.11"@ && (om == 23 || om == 24) {
        AttributeValueKind::Time
    } else if (s == "2.5.5.3"@ && om == 27) || (s == "2.5.5.5"@ && (om == 22 || om == 19)) || (s == "2.5.5.6"@ && om == 18)
        || (s == "2.5.5.2"@ && om == 6) || (s == "2.5.5.4"@ && om == 20) || (s == "2.5.5.12"@ && om == 64) {
        AttributeValueKind::String
    } else if (s == "2.5.5.7"@ || s == "2.5.5.10"@ || s == "2.5.5.13"@ || s == "2.5.5.14"@) && om == 127 {
        AttributeValueKind::Object
    } else {
        AttributeValueKind::Unknown
    }
}

impl AttributeValueKind {
    /// The value kind of an (`attributeSyntax`, `oMSyntax`) pair.
    pub fn from_schema_pair(attribute_syntax: &str, om_syntax: i32) -> (r: Self)
        ensures
            r == value_kind_spec(attribute_syntax@, om_syntax),
    {
        let s = attribute_syntax;
        let om = om_syntax;
        if str_eq(s, "2.5.5.8") && om == 1 {
            AttributeValueKind::Boolean
        } else if str_eq(s, "2.5.5.9") && (om == 2 || om == 10) {
            AttributeValueKind::Integer
        } else if str_eq(s, "2.5.5.16") && om == 65 {
            AttributeValueKind::LargeInteger
        } else if str_eq(s, "2.5.5.1") && om == 127 {
            AttributeValueKind::Dn
        } else if str_eq(s, "2.5.5.15") && om == 66 {
            AttributeValueKind::SecurityDescriptor
        } else if str_eq(s, "2.5.5.17") && om == 4 {
            AttributeValueKind::Sid
        } else if str_eq(s, "2.5.5.10") && om == 4 {
            AttributeValueKind::OctetString
        } else if str_eq(s, "2.5.5.11") && (om == 23 || om == 24) {
            AttributeValueKind::Time
        } else if (str_eq(s, "2.5.5.3") && om == 27) || (str_eq(s, "2.5.5.5") && (om == 22 || om == 19))
            || (str_eq(s, "2.5.5.6") && om == 18) || (str_eq(s, "2.5.5.2") && om == 6) || (str_eq(s, "2.5.5.4")
            && om == 20) || (str_eq(s, "2.5.5.12") && om == 64) {
            AttributeValueKind::String
        } else if (str_eq(s, "2.5.5.7") || str_eq(s, "2.5.5.10") || str_eq(s, "2.5.5.13") || str_eq(s, "2.5.5.14"))
            && om == 127 {
            AttributeValueKind::Object
        } else {
            AttributeValueKind::Unknown
        }
    }
}

/// Whether a schema entry defines an attribute or a class.
#[derive(Debug, Clone, Copy, PartialEq, Eq, Structural)]
pub enum SchemaObjectClass {
    Attribute,
    Class,
}

/// One `attributeSchema` or `classSchema` object of the schema partition.
#[derive(Debug, Clone)]
pub struct SchemaEntry {
    pub ldap_display_name: String,
    pub schema_id_guid: Option<[u8; 16]>,
    pub attribute_security_guid: Option<[u8; 16]>,
    pub object_class: SchemaObjectClass,
    pub admin_display_name: String,
    pub dn: String,
    pub attribute_syntax: Option<String>,
    pub om_syntax: Option<i32>,
    pub is_single_valued: bool,
    pub system_only: bool,
    pub system_flags: i32,
    pub link_id: Option<i32>,
    pub value_kind: Option<AttributeValueKind>,
}

/// The bytes of an optional GUID.
pub open spec fn guid_view(g: Option<[u8; 16]>) -> Option<Seq<u8>> {
    match g {
        Some(a) => Some(a@),
        None => None,
    }
}

/// The GUID held by `bytes`: exactly sixteen bytes.
pub open spec fn guid_spec(bytes: Seq<u8>) -> Option<Seq<u8>> {
    if bytes.len() == 16 {
        Some(bytes)
    } else {
        None
    }
}

/// std's `TryFrom<&[u8]>` for `[u8; 16]`. Trusted: it succeeds exactly on sixteen bytes, and
/// then holds them.
#[verifier::external_body]
fn guid_from_bytes(bytes: &[u8]) -> (r: Option<[u8; 16]>)
    ensures
        guid_view(r) == guid_spec(bytes@),
{
    bytes.try_into().ok()
}

/// The first value of a list of texts.
pub open spec fn first_of(vals: Seq<Seq<char>>) -> Option<Seq<char>> {
    if vals.len() > 0 {
        Some(vals[0])
    } else {
        None
    }
}

/// A display name: the lower-cased first value when the attribute is present, else `old`.
pub open spec fn lower_first_or(vals: Option<Seq<Seq<char>>>, old: Seq<char>) -> Seq<char> {
    match vals {
        Some(v) => unicode_lowercase(v[0]),
        None => old,
    }
}

/// The kind of schema object named by `objectClass`, else `old`.
pub open spec fn class_or(vals: Option<Seq<Seq<char>>>, old: SchemaObjectClass) -> SchemaObjectClass {
    match vals {
        Some(v) => if unicode_lowercase(v[0]) == "classschema"@ { SchemaObjectClass::Class } else { SchemaObjectClass::Attribute },
        None => old,
    }
}

/// The first value when the attribute is present, else `old`.
pub open spec fn first_or(vals: Option<Seq<Seq<char>>>, old: Option<Seq<char>>) -> Option<Seq<char>> {
    match vals {
        Some(v) => first_of(v),
        None => old,
    }
}

/// The first value read as an `i32` when the attribute is present, else `old`.
pub open spec fn number_or(vals: Option<Seq<Seq<char>>>, old: Option<i32>) -> Option<i32> {
    match vals {
        Some(v) => match first_of(v) {
            Some(t) => parse_i32_spec(t),
            None => None,
        },
        None => old,
    }
}

/// Whether the first value is `TRUE` (ASCII case aside) when the attribute is present, else `old`.
pub open spec fn flag_or(vals: Option<Seq<Seq<char>>>, old: bool) -> bool {
    match vals {
        Some(v) => match first_of(v) {
            Some(t) => eq_ignore_ascii_case_spec(t, "TRUE"@),
            None => false,
        },
        None => old,
    }
}

/// The GUID of the first value when the attribute has a value, else `old`.
pub open spec fn guid_or(vals: Option<Seq<Seq<u8>>>, old: Option<Seq<u8>>) -> Option<Seq<u8>> {
    match vals {
        Some(v) => if v.len() > 0 { guid_spec(v[0]) } else { old },
        None => old,
    }
}

/// The attributes whose first value the schema parser reads by position.
pub open spec fn schema_entry_readable(e: LdapSearchEntry) -> bool {
    let a = e.attrs.deep_view();
    &&& distinct_keys(a)
    &&& distinct_keys(e.bin_attrs.deep_view())
    &&& (lookup(a, "lDAPDisplayName"@) matches Some(v) ==> v.len() > 0)
    &&& (lookup(a, "adminDisplayName"@) matches Some(v) ==> v.len() > 0)
    &&& (lookup(a, "objectClass"@) matches Some(v) ==> v.len() > 0)
}

/// Looking up in one more entry of a list with distinct names.
proof fn lemma_lookup_extend<V>(s: Seq<(Seq<char>, V)>, i: int, k: Seq<char>)
    requires
        distinct_keys(s),
        0 <= i < s.len(),
    ensures
        lookup(s.take(i + 1), k) == if s[i].0 == k { Some(s[i].1) } else { lookup(s.take(i), k) },
{
    let p = s.take(i + 1);
    let q = s.take(i);
    if s[i].0 == k {
        assert forall|j: int| 0 <= j < i implies p[j].0 != k by {
            assert(p[j] == s[j]);
        }
        lemma_first_key_index(p, k, i);
    } else {
        if has_key(q, k) {
            let j = first_key_index(q, k);
            assert(q[j] == p[j]);
            assert forall|m: int| 0 <= m < j implies p[m].0 != k by {
                assert(q[m] == p[m]);
            }
            lemma_first_key_index(p, k, j);
        } else {
            assert forall|m: int| 0 <= m < p.len() implies p[m].0 != k by {
                if m < i {
                    assert(q[m] == p[m]);
                }
            }
        }
    }
}


impl SchemaEntry {
    /// An empty entry: empty texts, no GUIDs, syntax or kind, no flags, an attribute.
    pub fn new() -> (r: Self)
        ensures
            r.ldap_display_name@.len() == 0,
            r.schema_id_guid is None,
            r.attribute_security_guid is None,
            r.object_class == SchemaObjectClass::Attribute,
            r.admin_display_name@.len() == 0,
            r.dn@.len() == 0,
            r.attribute_syntax is None,
            r.om_syntax is None,
            !r.is_single_valued,
            !r.system_only,
            r.system_flags == 0,
            r.link_id is None,
            r.value_kind is None,
    {
        SchemaEntry {
            ldap_display_name: String::new(),
            schema_id_guid: None,
            attribute_security_guid: None,
            object_class: SchemaObjectClass::Attribute,
            admin_display_name: String::new(),
            dn: String::new(),
            attribute_syntax: None,
            om_syntax: None,
            is_single_valued: false,
            system_only: false,
            system_flags: 0,
            link_id: None,
            value_kind: None,
        }
    }

    /// The attribute is not replicated (bit 0 of `systemFlags`).
    pub fn is_not_replicated(&self) -> (r: bool)
        ensures
            r == (self.system_flags & 1 != 0),
    {
        self.system_flags & 0x1 != 0
    }

    /// The attribute is constructed (bit 2 of `systemFlags`).
    pub fn is_constructed(&self) -> (r: bool)
        ensures
            r == (self.system_flags & 4 != 0),
    {
        self.system_flags & 0x4 != 0
    }
}


/// The fields that the text attributes of a schema entry set, after reading `a` over `s0`.
pub open spec fn text_fields_read(e: SchemaEntry, s0: SchemaEntry, a: Seq<(Seq<char>, Seq<Seq<char>>)>) -> bool {
    &&& e.ldap_display_name@ == lower_first_or(lookup(a, "lDAPDisplayName"@), s0.ldap_display_name@)
    &&& e.admin_display_name@ == lower_first_or(lookup(a, "adminDisplayName"@), s0.admin_display_name@)
    &&& e.object_class == class_or(lookup(a, "objectClass"@), s0.object_class)
    &&& e.attribute_syntax.deep_view() == first_or(lookup(a, "attributeSyntax"@), s0.attribute_syntax.deep_view())
    &&& e.om_syntax == number_or(lookup(a, "oMSyntax"@), s0.om_syntax)
    &&& e.is_single_valued == flag_or(lookup(a, "isSingleValued"@), s0.is_single_valued)
    &&& e.system_only == flag_or(lookup(a, "systemOnly"@), s0.system_only)
    &&& e.system_flags == (match number_or(lookup(a, "systemFlags"@), Some(s0.system_flags)) { Some(n) => n, None => 0 })
    &&& e.link_id == number_or(lookup(a, "linkID"@), s0.link_id)
}

/// The fields that the binary attributes of a schema entry set, after reading `b` over `s0`.
pub open spec fn bin_fields_read(e: SchemaEntry, s0: SchemaEntry, b: Seq<(Seq<char>, Seq<Seq<u8>>)>) -> bool {
    &&& guid_view(e.schema_id_guid) == guid_or(lookup(b, "schemaIDGUID"@), guid_view(s0.schema_id_guid))
    &&& guid_view(e.attribute_security_guid) == guid_or(lookup(b, "attributeSecurityGUID"@), guid_view(s0.attribute_security_guid))
}

/// Whether the first value of `vals` is `TRUE` (false when there is none).
fn first_is_true(vals: &Vec<String>) -> (r: bool)
    ensures
        r == match first_of(vals.deep_view()) { Some(t) => eq_ignore_ascii_case_spec(t, "TRUE"@), None => false },
{
    if vals.len() > 0 {
        assert(vals.deep_view()[0] == vals@[0]@);
        eq_ignore_ascii_case(vals[0].as_str(), "TRUE")
    } else {
        false
    }
}

/// The first value of `vals` read as an `i32`.
fn first_number(vals: &Vec<String>) -> (r: Option<i32>)
    ensures
        r == match first_of(vals.deep_view()) { Some(t) => parse_i32_spec(t), None => None },
{
    if vals.len() > 0 {
        assert(vals.deep_view()[0] == vals@[0]@);
        parse_i32(vals[0].as_str())
    } else {
        None
    }
}

/// The text fields of a schema entry after reading the attribute `k` with values `v`
/// (when `k` is one of the attributes it reads).
pub open spec fn text_field_step(e: SchemaEntry, e0: SchemaEntry, k: Seq<char>, v: Seq<Seq<char>>) -> bool {
    let s = Some(v);
    &&& e.ldap_display_name@ == (if k == "lDAPDisplayName"@ { lower_first_or(s, e0.ldap_display_name@) } else { e0.ldap_display_name@ })
    &&& e.admin_display_name@ == (if k == "adminDisplayName"@ { lower_first_or(s, e0.admin_display_name@) } else { e0.admin_display_name@ })
    &&& e.object_class == (if k == "objectClass"@ { class_or(s, e0.object_class) } else { e0.object_class })
    &&& e.attribute_syntax.deep_view() == (if k == "attributeSyntax"@ { first_or(s, e0.attribute_syntax.deep_view()) } else { e0.attribute_syntax.deep_view() })
    &&& e.om_syntax == (if k == "oMSyntax"@ { number_or(s, e0.om_syntax) } else { e0.om_syntax })
    &&& e.is_single_valued == (if k == "isSingleValued"@ { flag_or(s, e0.is_single_valued) } else { e0.is_single_valued })
    &&& e.system_only == (if k == "systemOnly"@ { flag_or(s, e0.system_only) } else { e0.system_only })
    &&& e.system_flags == (if k == "systemFlags"@ { match number_or(s, Some(e0.system_flags)) { Some(n) => n, None => 0 } } else { e0.system_flags })
    &&& e.link_id == (if k == "linkID"@ { number_or(s, e0.link_id) } else { e0.link_id })
}

/// The binary fields of a schema entry after reading the attribute `k` with values `v`.
pub open spec fn bin_field_step(e: SchemaEntry, e0: SchemaEntry, k: Seq<char>, v: Seq<Seq<u8>>) -> bool {
    &&& guid_view(e.schema_id_guid) == (if k == "schemaIDGUID"@ { guid_or(Some(v), guid_view(e0.schema_id_guid)) } else { guid_view(e0.schema_id_guid) })
    &&& guid_view(e.attribute_security_guid) == (if k == "attributeSecurityGUID"@ { guid_or(Some(v), guid_view(e0.attribute_security_guid)) } else { guid_view(e0.attribute_security_guid) })
}

/// Reading one more entry keeps `text_fields_read` for the longer prefix.
proof fn lemma_text_step(e: SchemaEntry, e1: SchemaEntry, s0: SchemaEntry, a: Seq<(Seq<char>, Seq<Seq<char>>)>, i: int)
    requires
        distinct_keys(a),
        0 <= i < a.len(),
        text_fields_read(e, s0, a.take(i)),
        text_field_step(e1, e, a[i].0, a[i].1),
    ensures
        text_fields_read(e1, s0, a.take(i + 1)),
{
    assert forall|q: Seq<char>| #[trigger] lookup(a.take(i + 1), q) == (if a[i].0 == q { Some(a[i].1) } else { lookup(a.take(i), q) }) by {
        lemma_lookup_extend(a, i, q);
    }
}

/// Reading one more entry keeps `bin_fields_read` for the longer prefix.
proof fn lemma_bin_step(e: SchemaEntry, e1: SchemaEntry, s0: SchemaEntry, b: Seq<(Seq<char>, Seq<Seq<u8>>)>, i: int)
    requires
        distinct_keys(b),
        0 <= i < b.len(),
        bin_fields_read(e, s0, b.take(i)),
        bin_field_step(e1, e, b[i].0, b[i].1),
    ensures
        bin_fields_read(e1, s0, b.take(i + 1)),
{
    assert forall|q: Seq<char>| #[trigger] lookup(b.take(i + 1), q) == (if b[i].0 == q { Some(b[i].1) } else { lookup(b.take(i), q) }) by {
        lemma_lookup_extend(b, i, q);
    }
}

impl SchemaEntry {
    /// Reads one text attribute of a schema entry.
    fn read_text_attr(&mut self, key: &str, vals: &Vec<String>)
        requires
            (key@ == "lDAPDisplayName"@ || key@ == "adminDisplayName"@ || key@ == "objectClass"@) ==> vals@.len() > 0,
        ensures
            text_field_step(*final(self), *old(self), key@, vals.deep_view()),
            final(self).dn == old(self).dn,
            final(self).schema_id_guid == old(self).schema_id_guid,
            final(self).attribute_security_guid == old(self).attribute_security_guid,
            final(self).value_kind == old(self).value_kind,
    {
        proof {
            reveal_strlit("lDAPDisplayName");
            reveal_strlit("adminDisplayName");
            reveal_strlit("objectClass");
            reveal_strlit("attributeSyntax");
            reveal_strlit("oMSyntax");
            reveal_strlit("isSingleValued");
            reveal_strlit("systemOnly");
            reveal_strlit("systemFlags");
            reveal_strlit("linkID");
            assert("lDAPDisplayName"@.len() == 15);
            assert("adminDisplayName"@.len() == 16);
            assert("objectClass"@.len() == 11);
            assert("attributeSyntax"@.len() == 15);
            assert("oMSyntax"@.len() == 8);
            assert("isSingleValued"@.len() == 14);
            assert("systemOnly"@.len() == 10);
            assert("systemFlags"@.len() == 11);
            assert("linkID"@.len() == 6);
            assert("lDAPDisplayName"@ != "adminDisplayName"@);
            assert("lDAPDisplayName"@ != "objectClass"@);
            assert("lDAPDisplayName"@[0] != "attributeSyntax"@[0]);
            assert("lDAPDisplayName"@ != "attributeSyntax"@);
            assert("lDAPDisplayName"@ != "oMSyntax"@);
            assert("lDAPDisplayName"@ != "isSingleValued"@);
            assert("lDAPDisplayName"@ != "systemOnly"@);
            assert("lDAPDisplayName"@ != "systemFlags"@);
            assert("lDAPDisplayName"@ != "linkID"@);
            assert("adminDisplayName"@ != "objectClass"@);
            assert("adminDisplayName"@ != "attributeSyntax"@);
            assert("adminDisplayName"@ != "oMSyntax"@);
            assert("adminDisplayName"@ != "isSingleValued"@);
            assert("adminDisplayName"@ != "systemOnly"@);
            assert("adminDisplayName"@ != "systemFlags"@);
            assert("adminDisplayName"@ != "linkID"@);
            assert("objectClass"@ != "attributeSyntax"@);
            assert("objectClass"@ != "oMSyntax"@);
            assert("objectClass"@ != "isSingleValued"@);
            assert("objectClass"@ != "systemOnly"@);
            assert("objectClass"@[0] != "systemFlags"@[0]);
            assert("objectClass"@ != "systemFlags"@);
            assert("objectClass"@ != "linkID"@);
            assert("attributeSyntax"@ != "oMSyntax"@);
            assert("attributeSyntax"@ != "isSingleValued"@);
            assert("attributeSyntax"@ != "systemOnly"@);
            assert("attributeSyntax"@ != "systemFlags"@);
            assert("attributeSyntax"@ != "linkID"@);
            assert("oMSyntax"@ != "isSingleValued"@);
            assert("oMSyntax"@ != "systemOnly"@);
            assert("oMSyntax"@ != "systemFlags"@);
            assert("oMSyntax"@ != "linkID"@);
            assert("isSingleValued"@ != "systemOnly"@);
            assert("isSingleValued"@ != "systemFlags"@);
            assert("isSingleValued"@ != "linkID"@);
            assert("systemOnly"@ != "systemFlags"@);
            assert("systemOnly"@ != "linkID"@);
            assert("systemFlags"@ != "linkID"@);
            let v = vals.deep_view();
            if vals@.len() > 0 {
                assert(v[0] == vals@[0]@);
            }
        }
        if str_eq(key, "lDAPDisplayName") {
            self.ldap_display_name = to_lowercase(vals[0].as_str());
        } else if str_eq(key, "adminDisplayName") {
            self.admin_display_name = to_lowercase(vals[0].as_str());
        } else if str_eq(key, "objectClass") {
            let lowered = to_lowercase(vals[0].as_str());
            self.object_class = if str_eq(lowered.as_str(), "classschema") {
                SchemaObjectClass::Class
            } else {
                SchemaObjectClass::Attribute
            };
        } else if str_eq(key, "attributeSyntax") {
            self.attribute_syntax = if vals.len() > 0 {
                Some(vals[0].clone())
            } else {
                None
            };
        } else if str_eq(key, "oMSyntax") {
            self.om_syntax = first_number(vals);
        } else if str_eq(key, "isSingleValued") {
            self.is_single_valued = first_is_true(vals);
        } else if str_eq(key, "systemOnly") {
            self.system_only = first_is_true(vals);
        } else if str_eq(key, "systemFlags") {
            self.system_flags = match first_number(vals) {
                Some(n) => n,
                None => 0,
            };
        } else if str_eq(key, "linkID") {
            self.link_id = first_number(vals);
        }
    }

    /// Reads one binary attribute of a schema entry.
    fn read_bin_attr(&mut self, key: &str, vals: &Vec<Vec<u8>>)
        ensures
            bin_field_step(*final(self), *old(self), key@, vals.deep_view()),
            final(self).dn == old(self).dn,
            final(self).value_kind == old(self).value_kind,
            final(self).ldap_display_name == old(self).ldap_display_name,
            final(self).admin_display_name == old(self).admin_display_name,
            final(self).attribute_syntax == old(self).attribute_syntax,
            final(self).om_syntax == old(self).om_syntax,
            final(self).system_flags == old(self).system_flags,
            final(self).link_id == old(self).link_id,
            final(self).object_class == old(self).object_class,
            final(self).is_single_valued == old(self).is_single_valued,
            final(self).system_only == old(self).system_only,
    {
        proof {
            reveal_strlit("schemaIDGUID");
            reveal_strlit("attributeSecurityGUID");
            assert("schemaIDGUID"@.len() == 12);
            assert("schemaIDGUID"@ != "attributeSecurityGUID"@);
            let v = vals.deep_view();
            if vals@.len() > 0 {
                crate::objects::lemma_bytes_deep_view(vals@[0]);
                assert(v[0] == vals@[0]@);
            }
        }
        if str_eq(key, "schemaIDGUID") {
            if vals.len() > 0 {
                self.schema_id_guid = guid_from_bytes(vals[0].as_slice());
            }
        } else if str_eq(key, "attributeSecurityGUID") {
            if vals.len() > 0 {
                self.attribute_security_guid = guid_from_bytes(vals[0].as_slice());
            }
        }
    }

    /// Reads the definition held by a search entry of the schema partition: the DN
    /// upper-cased; display names lower-cased; the kind of object; syntax, flags and link id;
    /// the GUIDs; and, when syntax and `oMSyntax` are both known, the value kind.
    pub fn parse(&mut self, result: LdapSearchEntry)
        requires
            schema_entry_readable(result),
        ensures
            final(self).dn@ == unicode_uppercase(result.dn@),
            text_fields_read(*final(self), *old(self), result.attrs.deep_view()),
            bin_fields_read(*final(self), *old(self), result.bin_attrs.deep_view()),
            final(self).value_kind == (match (final(self).attribute_syntax, final(self).om_syntax) {
                (Some(s), Some(n)) => Some(value_kind_spec(s@, n)),
                _ => old(self).value_kind,
            }),
    {
        let ghost s0 = *self;
        let ghost a = result.attrs.deep_view();
        let ghost b = result.bin_attrs.deep_view();
        self.dn = to_uppercase(result.dn.as_str());
        assert(a.take(0) =~= Seq::<(Seq<char>, Seq<Seq<char>>)>::empty());
        for i in 0..result.attrs.len()
            invariant
                a == result.attrs.deep_view(),
                schema_entry_readable(result),
                text_fields_read(*self, s0, a.take(i as int)),
                self.dn@ == unicode_uppercase(result.dn@),
                self.schema_id_guid == s0.schema_id_guid,
                self.attribute_security_guid == s0.attribute_security_guid,
                self.value_kind == s0.value_kind,
        {
            proof {
                assert(a[i as int].0 == result.attrs@[i as int].0@);
                assert(a[i as int].1 == result.attrs@[i as int].1.deep_view());
                lemma_lookup_in_full(a, i as int);
            }
            let ghost before = *self;
            self.read_text_attr(result.attrs[i].0.as_str(), &result.attrs[i].1);
            proof { lemma_text_step(before, *self, s0, a, i as int); }
        }
        assert(a.take(a.len() as int) =~= a);
        assert(b.take(0) =~= Seq::<(Seq<char>, Seq<Seq<u8>>)>::empty());
        for i in 0..result.bin_attrs.len()
            invariant
                b == result.bin_attrs.deep_view(),
                schema_entry_readable(result),
                bin_fields_read(*self, s0, b.take(i as int)),
                text_fields_read(*self, s0, a),
                self.dn@ == unicode_uppercase(result.dn@),
                self.value_kind == s0.value_kind,
        {
            proof {
                assert(b[i as int].0 == result.bin_attrs@[i as int].0@);
                assert(b[i as int].1 == result.bin_attrs@[i as int].1.deep_view());
            }
            let ghost before = *self;
            self.read_bin_attr(result.bin_attrs[i].0.as_str(), &result.bin_attrs[i].1);
            proof { lemma_bin_step(before, *self, s0, b, i as int); }
        }
        assert(b.take(b.len() as int) =~= b);
        match (&self.attribute_syntax, self.om_syntax) {
            (Some(syntax), Some(om)) => {
                self.value_kind = Some(AttributeValueKind::from_schema_pair(syntax.as_str(), om));
            },
            _ => {},
        }
    }
}

/// The values of an entry of a list with distinct names are what `lookup` gives for it.
proof fn lemma_lookup_in_full<V>(s: Seq<(Seq<char>, V)>, i: int)
    requires
        distinct_keys(s),
        0 <= i < s.len(),
    ensures
        lookup(s, s[i].0) == Some(s[i].1),
{
    assert forall|j: int| 0 <= j < i implies s[j].0 != s[i].0 by {}
    lemma_first_key_index(s, s[i].0, i);
}


/// What a snapshot records of an attribute it keeps.
#[derive(Debug, Clone, Copy, PartialEq, Eq, Structural)]
pub struct AllowedAttribute {
    pub is_single_valued: bool,
    pub value_kind: Option<AttributeValueKind>,
    pub link_id: Option<i32>,
}

impl DeepView for AllowedAttribute {
    type V = AllowedAttribute;

    open spec fn deep_view(&self) -> AllowedAttribute {
        *self
    }
}

/// The attributes a snapshot ignores (system attributes) and those it keeps (the allow
/// list, by lower-case name).
#[derive(Debug, Clone)]
pub struct AttributeControlSet {
    pub system_attributes: Vec<String>,
    pub allow_list: Vec<(String, AllowedAttribute)>,
}

/// The name under which an attribute definition is controlled.
pub open spec fn control_name(e: SchemaEntry) -> Seq<char> {
    unicode_lowercase(e.ldap_display_name@)
}

/// The attribute is left alone: system-only, constructed, not replicated, or one of
/// `certificatetemplates`, `objectcategory`, `cn`.
pub open spec fn is_system_attribute(e: SchemaEntry) -> bool {
    let n = control_name(e);
    e.system_only || (e.system_flags & 4 != 0) || (e.system_flags & 1 != 0) || n == "certificatetemplates"@
        || n == "objectcategory"@ || n == "cn"@
}

/// What the allow list records of an attribute definition.
pub open spec fn allowed_of(e: SchemaEntry) -> AllowedAttribute {
    AllowedAttribute { is_single_valued: e.is_single_valued, value_kind: e.value_kind, link_id: e.link_id }
}

/// The names of the system attributes defined by `es`.
pub open spec fn system_names(es: Seq<SchemaEntry>) -> Set<Seq<char>>
    decreases es.len(),
{
    if es.len() == 0 {
        Set::empty()
    } else if es.last().object_class == SchemaObjectClass::Attribute && is_system_attribute(es.last()) {
        system_names(es.drop_last()).insert(control_name(es.last()))
    } else {
        system_names(es.drop_last())
    }
}

/// What the allow list records for `n`: the last kept attribute definition of `es` with
/// that name.
pub open spec fn allowed_for(es: Seq<SchemaEntry>, n: Seq<char>) -> Option<AllowedAttribute>
    decreases es.len(),
{
    if es.len() == 0 {
        None
    } else if es.last().object_class == SchemaObjectClass::Attribute && !is_system_attribute(es.last())
        && control_name(es.last()) == n {
        Some(allowed_of(es.last()))
    } else {
        allowed_for(es.drop_last(), n)
    }
}

/// The name of every system attribute definition of `es` lies in `system_names(es)`.
proof fn lemma_system_names_hold(es: Seq<SchemaEntry>, i: int)
    requires
        0 <= i < es.len(),
        es[i].object_class == SchemaObjectClass::Attribute,
        is_system_attribute(es[i]),
    ensures
        system_names(es).contains(control_name(es[i])),
    decreases es.len(),
{
    if i < es.len() - 1 {
        assert(es.drop_last()[i] == es[i]);
        lemma_system_names_hold(es.drop_last(), i);
    }
}

/// No definition named `n` is kept when every attribute definition with that name is a
/// system attribute.
proof fn lemma_allowed_for_none(es: Seq<SchemaEntry>, n: Seq<char>)
    requires
        forall|j: int|
            0 <= j < es.len() && (#[trigger] es[j]).object_class == SchemaObjectClass::Attribute && control_name(es[j]) == n
                ==> is_system_attribute(es[j]),
    ensures
        allowed_for(es, n) is None,
    decreases es.len(),
{
    if es.len() > 0 {
        let p = es.drop_last();
        assert forall|j: int|
            0 <= j < p.len() && (#[trigger] p[j]).object_class == SchemaObjectClass::Attribute && control_name(p[j]) == n
                implies is_system_attribute(p[j]) by {
            assert(p[j] == es[j]);
        }
        assert(es.last() == es[es.len() - 1]);
        lemma_allowed_for_none(p, n);
    }
}

/// An attribute that is not replicated (bit 0 of `systemFlags` set) is a system attribute,
/// left alone: its name is among the system attribute names, and, when no definition of
/// that name is replicated, the allow list does not keep it, so snapshots ignore it.
pub proof fn law_not_replicated_attribute_is_left_alone(es: Seq<SchemaEntry>, i: int)
    requires
        0 <= i < es.len(),
        es[i].object_class == SchemaObjectClass::Attribute,
        es[i].system_flags & 1 != 0,
    ensures
        system_names(es).contains(control_name(es[i])),
        (forall|j: int|
            0 <= j < es.len() && (#[trigger] es[j]).object_class == SchemaObjectClass::Attribute
                && control_name(es[j]) == control_name(es[i]) ==> es[j].system_flags & 1 != 0)
            ==> allowed_for(es, control_name(es[i])) is None,
{
    lemma_system_names_hold(es, i);
    if forall|j: int|
        0 <= j < es.len() && (#[trigger] es[j]).object_class == SchemaObjectClass::Attribute
            && control_name(es[j]) == control_name(es[i]) ==> es[j].system_flags & 1 != 0 {
        lemma_allowed_for_none(es, control_name(es[i]));
    }
}

/// An attribute that is constructed (bit 2 of `systemFlags` set) is a system attribute,
/// left alone: its name is among the system attribute names, and, when every definition of
/// that name is constructed, the allow list does not keep it.
pub proof fn law_constructed_attribute_is_left_alone(es: Seq<SchemaEntry>, i: int)
    requires
        0 <= i < es.len(),
        es[i].object_class == SchemaObjectClass::Attribute,
        es[i].system_flags & 4 != 0,
    ensures
        system_names(es).contains(control_name(es[i])),
        (forall|j: int|
            0 <= j < es.len() && (#[trigger] es[j]).object_class == SchemaObjectClass::Attribute
                && control_name(es[j]) == control_name(es[i]) ==> es[j].system_flags & 4 != 0)
            ==> allowed_for(es, control_name(es[i])) is None,
{
    lemma_system_names_hold(es, i);
    if forall|j: int|
        0 <= j < es.len() && (#[trigger] es[j]).object_class == SchemaObjectClass::Attribute
            && control_name(es[j]) == control_name(es[i]) ==> es[j].system_flags & 4 != 0 {
        lemma_allowed_for_none(es, control_name(es[i]));
    }
}

/// A system-only attribute is left alone: its name is among the system attribute names,
/// and, when every definition of that name is system-only, the allow list does not keep it.
pub proof fn law_system_only_attribute_is_left_alone(es: Seq<SchemaEntry>, i: int)
    requires
        0 <= i < es.len(),
        es[i].object_class == SchemaObjectClass::Attribute,
        es[i].system_only,
    ensures
        system_names(es).contains(control_name(es[i])),
        (forall|j: int|
            0 <= j < es.len() && (#[trigger] es[j]).object_class == SchemaObjectClass::Attribute
                && control_name(es[j]) == control_name(es[i]) ==> es[j].system_only)
            ==> allowed_for(es, control_name(es[i])) is None,
{
    lemma_system_names_hold(es, i);
    if forall|j: int|
        0 <= j < es.len() && (#[trigger] es[j]).object_class == SchemaObjectClass::Attribute
            && control_name(es[j]) == control_name(es[i]) ==> es[j].system_only {
        lemma_allowed_for_none(es, control_name(es[i]));
    }
}

/// Whether `v` holds the text `x`.
fn holds_text(v: &Vec<String>, x: &str) -> (r: bool)
    ensures
        r == v.deep_view().contains(x@),
{
    for i in 0..v.len()
        invariant
            forall|j: int| 0 <= j < i ==> v.deep_view()[j] != x@,
    {
        assert(v.deep_view()[i as int] == v@[i as int]@);
        if str_eq(v[i].as_str(), x) {
            assert(v.deep_view()[i as int] == x@);
            return true;
        }
    }
    false
}

/// Position of the allow-list entry named `x`.
fn find_allowed(v: &Vec<(String, AllowedAttribute)>, x: &str) -> (r: Option<usize>)
    ensures
        match r {
            Some(i) => i < v@.len() && v.deep_view()[i as int].0 == x@,
            None => !has_key(v.deep_view(), x@),
        },
{
    for i in 0..v.len()
        invariant
            forall|j: int| 0 <= j < i ==> v.deep_view()[j].0 != x@,
    {
        assert(v.deep_view()[i as int].0 == v@[i as int].0@);
        if str_eq(v[i].0.as_str(), x) {
            return Some(i);
        }
    }
    None
}

/// Sorts the attribute definitions of `entries` into system attributes and kept attributes
/// (class definitions are skipped; a later definition of a kept name replaces an earlier).
pub fn build_attribute_control_sets(entries: &Vec<SchemaEntry>) -> (r: AttributeControlSet)
    ensures
        forall|n: Seq<char>| #[trigger] r.system_attributes.deep_view().contains(n) <==> system_names(entries@).contains(n),
        r.system_attributes.deep_view().no_duplicates(),
        distinct_keys(r.allow_list.deep_view()),
        forall|n: Seq<char>| #[trigger] lookup(r.allow_list.deep_view(), n) == allowed_for(entries@, n),
{
    let mut system_attributes: Vec<String> = Vec::new();
    let mut allow_list: Vec<(String, AllowedAttribute)> = Vec::new();
    for i in 0..entries.len()
        invariant
            forall|n: Seq<char>| #[trigger] system_attributes.deep_view().contains(n) <==> system_names(entries@.take(i as int)).contains(n),
            system_attributes.deep_view().no_duplicates(),
            distinct_keys(allow_list.deep_view()),
            forall|n: Seq<char>| #[trigger] lookup(allow_list.deep_view(), n) == allowed_for(entries@.take(i as int), n),
    {
        let entry = &entries[i];
        assert(entries@.take(i + 1).drop_last() =~= entries@.take(i as int));
        assert(entries@.take(i + 1).last() == *entry);
        if entry.object_class == SchemaObjectClass::Attribute {
            let name = to_lowercase(entry.ldap_display_name.as_str());
            let excluded = entry.system_only || entry.is_constructed() || entry.is_not_replicated() || str_eq(
                name.as_str(),
                "certificatetemplates",
            ) || str_eq(name.as_str(), "objectcategory") || str_eq(name.as_str(), "cn");
            if excluded {
                if !holds_text(&system_attributes, name.as_str()) {
                    let ghost before = system_attributes.deep_view();
                    system_attributes.push(name);
                    assert(system_attributes.deep_view() =~= before.push(control_name(*entry)));
                    assert forall|n: Seq<char>| #[trigger] system_attributes.deep_view().contains(n) <==> before.contains(n) || n == control_name(*entry) by {
                        if n == control_name(*entry) {
                            assert(system_attributes.deep_view()[before.len() as int] == n);
                        }
                        if before.contains(n) {
                            let j = choose|j: int| 0 <= j < before.len() && before[j] == n;
                            assert(system_attributes.deep_view()[j] == n);
                        }
                    }
                }
            } else {
                let allowed = AllowedAttribute {
                    is_single_valued: entry.is_single_valued,
                    value_kind: entry.value_kind,
                    link_id: entry.link_id,
                };
                let ghost before = allow_list.deep_view();
                match find_allowed(&allow_list, name.as_str()) {
                    Some(p) => {
                        let key = allow_list[p].0.clone();
                        allow_list.set(p, (key, allowed));
                        assert(allow_list.deep_view() =~= before.update(p as int, (before[p as int].0, allowed)));
                        assert forall|n: Seq<char>| #[trigger] lookup(allow_list.deep_view(), n) == allowed_for(entries@.take(i + 1), n) by {
                            crate::objects::lemma_lookup_update(before, p as int, allowed, n);
                        }
                        proof { crate::objects::lemma_lookup_update(before, p as int, allowed, name@); }
                    },
                    None => {
                        allow_list.push((name, allowed));
                        assert(allow_list.deep_view() =~= before.push((control_name(*entry), allowed)));
                        assert forall|n: Seq<char>| #[trigger] lookup(allow_list.deep_view(), n) == allowed_for(entries@.take(i + 1), n) by {
                            crate::objects::lemma_lookup_push(before, control_name(*entry), allowed, n);
                        }
                        assert forall|a: int, b: int| 0 <= a < allow_list.deep_view().len() && 0 <= b < allow_list.deep_view().len() && a != b implies allow_list.deep_view()[a].0 != allow_list.deep_view()[b].0 by {
                            if a == before.len() as int && b < before.len() {
                                assert(allow_list.deep_view()[b] == before[b]);
                            } else if b == before.len() as int && a < before.len() {
                                assert(allow_list.deep_view()[a] == before[a]);
                            }
                        }
                    },
                }
            }
        }
    }
    assert(entries@.take(entries.len() as int) =~= entries@);
    AttributeControlSet { system_attributes, allow_list }
}


/// `n` is, lower-cased, one of `names`.
pub open spec fn untouchable(names: Seq<Seq<char>>, n: Seq<char>) -> bool {
    exists|i: int| 0 <= i < names.len() && unicode_lowercase(names[i]) == n
}

/// The lower-cased texts of `names`.
fn lowered_all(names: &Vec<String>) -> (r: Vec<String>)
    ensures
        r@.len() == names@.len(),
        forall|j: int| 0 <= j < r@.len() ==> (#[trigger] r.deep_view()[j]) == unicode_lowercase(names.deep_view()[j]),
{
    let mut r: Vec<String> = Vec::new();
    for i in 0..names.len()
        invariant
            r@.len() == i,
            forall|j: int| 0 <= j < i ==> (#[trigger] r.deep_view()[j]) == unicode_lowercase(names.deep_view()[j]),
    {
        assert(names.deep_view()[i as int] == names@[i as int]@);
        let l = to_lowercase(names[i].as_str());
        let ghost before = r.deep_view();
        r.push(l);
        assert forall|j: int| 0 <= j < i + 1 implies (#[trigger] r.deep_view()[j]) == unicode_lowercase(names.deep_view()[j]) by {
            if j < i {
                assert(r.deep_view()[j] == before[j]);
            }
        }
    }
    r
}

impl AttributeControlSet {
    /// Leaves alone the attributes named in `names` (case aside): they leave the allow list
    /// and join the system attributes.
    pub fn exclude(&mut self, names: &Vec<String>)
        requires
            distinct_keys(old(self).allow_list.deep_view()),
            old(self).system_attributes.deep_view().no_duplicates(),
        ensures
            distinct_keys(final(self).allow_list.deep_view()),
            final(self).system_attributes.deep_view().no_duplicates(),
            forall|n: Seq<char>| #[trigger] lookup(final(self).allow_list.deep_view(), n)
                == if untouchable(names.deep_view(), n) { None } else { lookup(old(self).allow_list.deep_view(), n) },
            forall|n: Seq<char>| #[trigger] final(self).system_attributes.deep_view().contains(n)
                <==> (old(self).system_attributes.deep_view().contains(n)
                    || (untouchable(names.deep_view(), n) && has_key(old(self).allow_list.deep_view(), n))),
    {
        let lowered = lowered_all(names);
        let ghost nv = names.deep_view();
        let ghost old_allow = self.allow_list.deep_view();
        let ghost old_sys = self.system_attributes.deep_view();
        let mut allow: Vec<(String, AllowedAttribute)> = Vec::new();
        let mut system = crate::objects::copy_strings(&self.system_attributes);
        assert(allow.deep_view() =~= Seq::<(Seq<char>, AllowedAttribute)>::empty());
        for i in 0..self.allow_list.len()
            invariant
                old_allow == self.allow_list.deep_view(),
                distinct_keys(old_allow),
                nv == names.deep_view(),
                lowered@.len() == nv.len(),
                forall|j: int| 0 <= j < lowered@.len() ==> (#[trigger] lowered.deep_view()[j]) == unicode_lowercase(nv[j]),
                distinct_keys(allow.deep_view()),
                forall|n: Seq<char>| #[trigger] lookup(allow.deep_view(), n)
                    == if untouchable(nv, n) { None } else { lookup(old_allow.take(i as int), n) },
                old_sys.no_duplicates(),
                system.deep_view().no_duplicates(),
                forall|n: Seq<char>| #[trigger] system.deep_view().contains(n)
                    <==> (old_sys.contains(n) || (untouchable(nv, n) && has_key(old_allow.take(i as int), n))),
        {
            let k = &self.allow_list[i].0;
            let v = self.allow_list[i].1;
            assert(old_allow[i as int] == (k@, v));
            proof {
                assert forall|n: Seq<char>| #[trigger] lookup(old_allow.take(i + 1), n) == (if old_allow[i as int].0 == n { Some(old_allow[i as int].1) } else { lookup(old_allow.take(i as int), n) }) by {
                    lemma_lookup_extend(old_allow, i as int, n);
                }
                let t0 = old_allow.take(i as int);
                assert(!has_key(t0, k@)) by {
                    if has_key(t0, k@) {
                        let j = choose|j: int| 0 <= j < t0.len() && #[trigger] t0[j].0 == k@;
                        assert(old_allow[j].0 == old_allow[i as int].0);
                    }
                }
                let t1 = old_allow.take(i + 1);
                let t0 = old_allow.take(i as int);
                assert forall|n: Seq<char>| #[trigger] has_key(t1, n) <==> (has_key(t0, n) || n == k@) by {
                    if has_key(t1, n) {
                        let j = choose|j: int| 0 <= j < t1.len() && #[trigger] t1[j].0 == n;
                        if j < i {
                            assert(t0[j] == t1[j]);
                        }
                    }
                    if has_key(t0, n) {
                        let j = choose|j: int| 0 <= j < t0.len() && #[trigger] t0[j].0 == n;
                        assert(t1[j] == t0[j]);
                    }
                    if n == k@ {
                        assert(t1[i as int].0 == n);
                    }
                }
            }
            let gone = holds_text(&lowered, k.as_str());
            assert(gone == untouchable(nv, k@)) by {
                if gone {
                    let j = choose|j: int| 0 <= j < lowered.deep_view().len() && lowered.deep_view()[j] == k@;
                    assert(unicode_lowercase(nv[j]) == k@);
                }
                if untouchable(nv, k@) {
                    let j = choose|j: int| 0 <= j < nv.len() && unicode_lowercase(nv[j]) == k@;
                    assert(lowered.deep_view()[j] == k@);
                }
            }
            if gone {
                if !holds_text(&system, k.as_str()) {
                    let ghost before = system.deep_view();
                    system.push(k.clone());
                    assert(system.deep_view() =~= before.push(k@));
                    assert forall|n: Seq<char>| #[trigger] system.deep_view().contains(n) <==> before.contains(n) || n == k@ by {
                        if n == k@ {
                            assert(system.deep_view()[before.len() as int] == n);
                        }
                        if before.contains(n) {
                            let j = choose|j: int| 0 <= j < before.len() && before[j] == n;
                            assert(system.deep_view()[j] == n);
                        }
                    }
                }
                assert forall|n: Seq<char>| #[trigger] lookup(allow.deep_view(), n)
                    == if untouchable(nv, n) { None } else { lookup(old_allow.take(i + 1), n) } by {}
            } else {
                let ghost before = allow.deep_view();
                assert(!has_key(before, k@)) by {
                    if has_key(before, k@) {
                        lemma_has_key_first(before, k@);
                        assert(lookup(before, k@) is Some);
                    }
                }
                allow.push((k.clone(), v));
                assert(allow.deep_view() =~= before.push((k@, v)));
                assert forall|n: Seq<char>| #[trigger] lookup(allow.deep_view(), n)
                    == if untouchable(nv, n) { None } else { lookup(old_allow.take(i + 1), n) } by {
                    lemma_lookup_push(before, k@, v, n);
                }
                assert forall|a: int, b: int| 0 <= a < allow.deep_view().len() && 0 <= b < allow.deep_view().len() && a != b implies allow.deep_view()[a].0 != allow.deep_view()[b].0 by {
                    if a == before.len() as int && b < before.len() {
                        assert(allow.deep_view()[b] == before[b]);
                        assert(has_key(before, before[b].0));
                    } else if b == before.len() as int && a < before.len() {
                        assert(allow.deep_view()[a] == before[a]);
                        assert(has_key(before, before[a].0));
                    }
                }
            }
        }
        assert(old_allow.take(self.allow_list@.len() as int) =~= old_allow);
        self.allow_list = allow;
        self.system_attributes = system;
    }

    /// Whether the allow list keeps the attribute named `name`.
    pub fn allows(&self, name: &str) -> (r: bool)
        ensures
            r == has_key(self.allow_list.deep_view(), name@),
    {
        match find_allowed(&self.allow_list, name) {
            Some(_) => true,
            None => false,
        }
    }
}

} // verus!
