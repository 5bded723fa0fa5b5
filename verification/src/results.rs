//! Turning the entries a directory search returned into a snapshot: the schema entries are
//! read into the attribute control set, every other entry becomes a directory object.
use std::collections::HashMap;
use vstd::prelude::*;

use crate::ldap::{LdapSearchEntry, Type, get_type, is_schema_entry};
use crate::objects::{DirectoryObject, DirectoryObjectView, copy_attrs, copy_bin_attrs, distinct_keys, has_key, lookup};
use crate::schema::{
    AllowedAttribute, AttributeControlSet, SchemaEntry, SchemaObjectClass, allowed_for, bin_fields_read,
    build_attribute_control_sets, schema_entry_readable, system_names, text_fields_read, untouchable,
    value_kind_spec,
};
use crate::snapshot::object_of;
use crate::text::unicode_uppercase;

verus! {

/// Lookups between names, SIDs and addresses of the domain.
#[derive(Debug)]
pub struct DomainMappings {
    /// DN to SID
    pub dn_sid: HashMap<String, String>,
    /// SID to type
    pub sid_type: HashMap<String, String>,
    /// FQDN to SID
    pub fqdn_sid: HashMap<String, String>,
    /// FQDN to address
    pub fqdn_ip: HashMap<String, String>,
}

/// What a search of the directory produced.
#[derive(Debug)]
pub struct ADResults {
    pub schema_entries: Vec<SchemaEntry>,
    pub directory_objects: Vec<DirectoryObject>,
    pub mappings: DomainMappings,
}

impl ADResults {
    /// No schema entries, no objects, empty mappings.
    pub fn new() -> (r: Self)
        ensures
            r.schema_entries@.len() == 0,
            r.directory_objects@.len() == 0,
            r.mappings.dn_sid@ == Map::<String, String>::empty(),
            r.mappings.sid_type@ == Map::<String, String>::empty(),
            r.mappings.fqdn_sid@ == Map::<String, String>::empty(),
            r.mappings.fqdn_ip@ == Map::<String, String>::empty(),
    {
        ADResults {
            schema_entries: Vec::new(),
            directory_objects: Vec::new(),
            mappings: DomainMappings {
                dn_sid: HashMap::new(),
                sid_type: HashMap::new(),
                fqdn_sid: HashMap::new(),
                fqdn_ip: HashMap::new(),
            },
        }
    }
}

/// The entries of a search that are schema objects, in order.
pub open spec fn schema_sources(es: Seq<LdapSearchEntry>) -> Seq<LdapSearchEntry>
    decreases es.len(),
{
    if es.len() == 0 {
        Seq::empty()
    } else if is_schema_entry(es.last().attrs.deep_view()) {
        schema_sources(es.drop_last()).push(es.last())
    } else {
        schema_sources(es.drop_last())
    }
}

/// The entries of a search that are not schema objects, in order.
pub open spec fn other_sources(es: Seq<LdapSearchEntry>) -> Seq<LdapSearchEntry>
    decreases es.len(),
{
    if es.len() == 0 {
        Seq::empty()
    } else if is_schema_entry(es.last().attrs.deep_view()) {
        other_sources(es.drop_last())
    } else {
        other_sources(es.drop_last()).push(es.last())
    }
}

/// A schema entry as `SchemaEntry::new` makes it.
pub open spec fn is_fresh(s: SchemaEntry) -> bool {
    &&& s.ldap_display_name@.len() == 0
    &&& s.schema_id_guid is None
    &&& s.attribute_security_guid is None
    &&& s.object_class == SchemaObjectClass::Attribute
    &&& s.admin_display_name@.len() == 0
    &&& s.dn@.len() == 0
    &&& s.attribute_syntax is None
    &&& s.om_syntax is None
    &&& !s.is_single_valued
    &&& !s.system_only
    &&& s.system_flags == 0
    &&& s.link_id is None
    &&& s.value_kind is None
}

/// `e` is what reading the search entry `x` into a fresh schema entry gives.
pub open spec fn parsed_from(e: SchemaEntry, x: LdapSearchEntry) -> bool {
    exists|s0: SchemaEntry|
        #![trigger is_fresh(s0)]
        {
            &&& is_fresh(s0)
            &&& e.dn@ == unicode_uppercase(x.dn@)
            &&& text_fields_read(e, s0, x.attrs.deep_view())
            &&& bin_fields_read(e, s0, x.bin_attrs.deep_view())
            &&& e.value_kind == (match (e.attribute_syntax, e.om_syntax) {
                (Some(s), Some(n)) => Some(value_kind_spec(s@, n)),
                _ => None,
            })
        }
}

/// The objects a snapshot records for the search entries `xs`, given the allow list.
#[verifier::opaque]
pub open spec fn objects_of(xs: Seq<LdapSearchEntry>, allow: Seq<(Seq<char>, AllowedAttribute)>) -> Seq<DirectoryObjectView> {
    xs.map_values(|x: LdapSearchEntry| object_of(x.dn@, x.attrs.deep_view(), x.bin_attrs.deep_view(), allow))
}

/// The objects recorded for one more entry.
proof fn lemma_objects_of_push(xs: Seq<LdapSearchEntry>, x: LdapSearchEntry, allow: Seq<(Seq<char>, AllowedAttribute)>)
    ensures
        objects_of(xs.push(x), allow) == objects_of(xs, allow).push(
            object_of(x.dn@, x.attrs.deep_view(), x.bin_attrs.deep_view(), allow),
        ),
{
    reveal(objects_of);
    assert(objects_of(xs.push(x), allow) =~= objects_of(xs, allow).push(
        object_of(x.dn@, x.attrs.deep_view(), x.bin_attrs.deep_view(), allow),
    ));
}

/// No entries, no objects.
proof fn lemma_objects_of_empty(allow: Seq<(Seq<char>, AllowedAttribute)>)
    ensures
        objects_of(Seq::empty(), allow) == Seq::<DirectoryObjectView>::empty(),
{
    reveal(objects_of);
    assert(objects_of(Seq::empty(), allow) =~= Seq::<DirectoryObjectView>::empty());
}

/// Each schema object among the entries has distinct attribute names and a first value for
/// each of the attributes the schema parser reads by position.
pub open spec fn schema_entries_readable(es: Seq<LdapSearchEntry>) -> bool {
    forall|i: int| 0 <= i < es.len() && is_schema_entry(#[trigger] es[i].attrs.deep_view()) ==> schema_entry_readable(es[i])
}

/// A copy of a search entry.
fn copy_entry(e: &LdapSearchEntry) -> (r: LdapSearchEntry)
    ensures
        r.dn@ == e.dn@,
        r.attrs.deep_view() == e.attrs.deep_view(),
        r.bin_attrs.deep_view() == e.bin_attrs.deep_view(),
{
    LdapSearchEntry { dn: e.dn.clone(), attrs: copy_attrs(&e.attrs), bin_attrs: copy_bin_attrs(&e.bin_attrs) }
}

/// Reads the schema objects among `entries` (each into a fresh schema entry), builds the
/// attribute control set from them, leaves alone the attributes named in `never_touch`
/// (case aside), and turns every other entry into the object a snapshot records for it
/// under that control set, in order. The result's own list of schema entries and its
/// mappings stay empty; the schema entries read and the control set come beside it.
pub fn parse_result_type_from_source(entries: &Vec<LdapSearchEntry>, never_touch: &Vec<String>) -> (r: (ADResults, Vec<SchemaEntry>, AttributeControlSet))
    requires
        schema_entries_readable(entries@),
    ensures
        r.0.schema_entries@.len() == 0,
        r.0.mappings.dn_sid@ == Map::<String, String>::empty(),
        r.0.mappings.sid_type@ == Map::<String, String>::empty(),
        r.0.mappings.fqdn_sid@ == Map::<String, String>::empty(),
        r.0.mappings.fqdn_ip@ == Map::<String, String>::empty(),
        r.1@.len() == schema_sources(entries@).len(),
        forall|k: int| 0 <= k < r.1@.len() ==> parsed_from(#[trigger] r.1@[k], schema_sources(entries@)[k]),
        forall|n: Seq<char>| #[trigger] r.2.system_attributes.deep_view().contains(n)
            <==> (system_names(r.1@).contains(n) || (untouchable(never_touch.deep_view(), n) && allowed_for(r.1@, n) is Some)),
        r.2.system_attributes.deep_view().no_duplicates(),
        distinct_keys(r.2.allow_list.deep_view()),
        forall|n: Seq<char>| #[trigger] lookup(r.2.allow_list.deep_view(), n)
            == if untouchable(never_touch.deep_view(), n) { None } else { allowed_for(r.1@, n) },
        r.0.directory_objects.deep_view() == objects_of(other_sources(entries@), r.2.allow_list.deep_view()),
{
    let mut schema: Vec<SchemaEntry> = Vec::new();
    for i in 0..entries.len()
        invariant
            schema_entries_readable(entries@),
            schema@.len() == schema_sources(entries@.take(i as int)).len(),
            forall|k: int| 0 <= k < schema@.len() ==> parsed_from(#[trigger] schema@[k], schema_sources(entries@.take(i as int))[k]),
    {
        let e = &entries[i];
        assert(entries@.take(i + 1).drop_last() =~= entries@.take(i as int));
        assert(entries@.take(i + 1).last() == *e);
        match get_type(e) {
            Ok(Type::SchemaEntry) => {
                let x = copy_entry(e);
                assert(is_schema_entry(entries@[i as int].attrs.deep_view()));
                assert(schema_entry_readable(x));
                let mut s = SchemaEntry::new();
                let ghost s0 = s;
                s.parse(x);
                assert(parsed_from(s, *e)) by {
                    assert(is_fresh(s0));
                }
                let ghost before = schema@;
                schema.push(s);
                assert forall|k: int| 0 <= k < schema@.len() implies parsed_from(#[trigger] schema@[k], schema_sources(entries@.take(i + 1))[k]) by {
                    if k < before.len() {
                        assert(schema@[k] == before[k]);
                    }
                }
            },
            _ => {},
        }
    }
    assert(entries@.take(entries@.len() as int) =~= entries@);
    let mut control = build_attribute_control_sets(&schema);
    let ghost built = control.allow_list.deep_view();
    control.exclude(never_touch);
    assert forall|n: Seq<char>| has_key(built, n) <==> (#[trigger] allowed_for(schema@, n)) is Some by {
        assert(lookup(built, n) == allowed_for(schema@, n));
    }
    let ghost allow = control.allow_list.deep_view();
    let mut objects: Vec<DirectoryObject> = Vec::new();
    proof {
        lemma_objects_of_empty(allow);
        assert(objects.deep_view() =~= Seq::<DirectoryObjectView>::empty());
        assert(entries@.take(0) =~= Seq::<LdapSearchEntry>::empty());
    }
    for i in 0..entries.len()
        invariant
            allow == control.allow_list.deep_view(),
            objects.deep_view() == objects_of(other_sources(entries@.take(i as int)), allow),
    {
        let e = &entries[i];
        assert(entries@.take(i + 1).drop_last() =~= entries@.take(i as int));
        assert(entries@.take(i + 1).last() == *e);
        match get_type(e) {
            Ok(Type::SchemaEntry) => {},
            _ => {
                let o = DirectoryObject::from_ldap_entry(e, &control);
                let ghost before = objects.deep_view();
                objects.push(o);
                assert(objects.deep_view() =~= before.push(o.deep_view()));
                assert(other_sources(entries@.take(i + 1)) == other_sources(entries@.take(i as int)).push(*e));
                proof {
                    lemma_objects_of_push(other_sources(entries@.take(i as int)), *e, allow);
                }
            },
        }
    }
    let mut results = ADResults::new();
    results.directory_objects = objects;
    (results, schema, control)
}

} // verus!
