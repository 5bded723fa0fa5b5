use altered_state::comparison::{compare_states, reconcile_tombstones, sort_actions};
use altered_state::ldap::{
    domain_to_dc, get_type, has_configuration_context, ldap_constructor, prepare_ldap_dc,
    prepare_ldap_url, search_filter, LdapSearchEntry, Type,
};
use altered_state::objects::{ActionType, DirectoryObject, RemediationAction};
use altered_state::results::{parse_result_type_from_source, ADResults};
use altered_state::schema::{
    build_attribute_control_sets, AttributeValueKind, SchemaEntry, SchemaObjectClass,
};
use altered_state::snapshot::compute_hash;
use altered_state::text::parse_i32;

fn s(x: &str) -> String {
    x.to_string()
}

fn texts(xs: &[&str]) -> Vec<String> {
    xs.iter().map(|x| x.to_string()).collect()
}

fn object(dn: &str, name: Option<&str>, hash: &str, deleted: bool) -> DirectoryObject {
    DirectoryObject {
        dn: s(dn),
        name: name.map(s),
        sddl: None,
        object_class: texts(&["top", "user"]),
        is_deleted: deleted,
        attributes: Vec::new(),
        bin_attributes: Vec::new(),
        hash: s(hash),
    }
}

fn action(kind: ActionType, target: Option<DirectoryObject>, current: Option<DirectoryObject>) -> RemediationAction {
    RemediationAction { action: kind, target, current, last_known_parent: None }
}

#[test]
fn domain_to_dc_splits_labels() {
    assert_eq!(domain_to_dc("example.com"), "DC=example,DC=com");
    assert_eq!(domain_to_dc("a.b.c"), "DC=a,DC=b,DC=c");
    assert_eq!(domain_to_dc("local"), "DC=local");
}

#[test]
fn prepare_ldap_dc_lists_domain_and_configuration() {
    assert_eq!(prepare_ldap_dc("example.com"), texts(&["DC=example,DC=com", "CN=Configuration,"]));
    assert_eq!(prepare_ldap_dc("corp"), texts(&["DC=corp", "CN=Configuration,DC=corp"]));
}

#[test]
fn first_naming_context_is_domain_dn() {
    for d in ["corp", "corp.local", "a.b.c"] {
        assert_eq!(prepare_ldap_dc(d)[0], domain_to_dc(d));
    }
}

#[test]
fn prepare_ldap_url_picks_protocol_and_target() {
    assert_eq!(prepare_ldap_url(false, Some("10.0.0.1"), Some(389), "example.com"), "ldap://10.0.0.1:389");
    assert_eq!(prepare_ldap_url(false, None, Some(636), "example.com"), "ldaps://example.com:636");
    assert_eq!(prepare_ldap_url(true, None, None, "example.com"), "ldaps://example.com");
    assert_eq!(prepare_ldap_url(false, None, None, "example.com"), "ldap://example.com");
}

#[test]
fn ldap_constructor_combines_url_and_contexts() {
    let args = ldap_constructor(false, Some("127.0.0.1"), Some(389), "corp.local", "dc01.corp.local");
    assert_eq!(args.s_url, "ldap://127.0.0.1:389");
    assert_eq!(args.s_dc, texts(&["DC=corp,DC=local", "CN=Configuration,"]));
}

#[test]
fn search_filter_defaults() {
    assert_eq!(search_filter(&Some(s("(cn=x)"))), "(cn=x)");
    assert_eq!(search_filter(&None), "&((objectClass=*)(!(cn=DisplaySpecifiers)))");
}

#[test]
fn configuration_context_is_detected() {
    assert!(has_configuration_context(&texts(&["DC=a", "CN=Configuration,DC=a"])));
    assert!(!has_configuration_context(&texts(&["DC=a"])));
}

#[test]
fn get_type_finds_schema_entries() {
    let schema = LdapSearchEntry {
        dn: s("CN=Description,CN=Schema,CN=Configuration,DC=a"),
        attrs: vec![(s("objectClass"), texts(&["top", "attributeSchema"]))],
        bin_attrs: Vec::new(),
    };
    let user = LdapSearchEntry {
        dn: s("CN=bob,DC=a"),
        attrs: vec![(s("objectClass"), texts(&["top", "user"]))],
        bin_attrs: Vec::new(),
    };
    assert!(matches!(get_type(&schema), Ok(Type::SchemaEntry)));
    assert!(matches!(get_type(&user), Err(Type::Unknown)));
}

#[test]
fn parse_i32_follows_from_str() {
    assert_eq!(parse_i32("42"), Some(42));
    assert_eq!(parse_i32("-7"), Some(-7));
    assert_eq!(parse_i32("+5"), Some(5));
    assert_eq!(parse_i32("2147483647"), Some(i32::MAX));
    assert_eq!(parse_i32("-2147483648"), Some(i32::MIN));
    assert_eq!(parse_i32("2147483648"), None);
    assert_eq!(parse_i32(""), None);
    assert_eq!(parse_i32("-"), None);
    assert_eq!(parse_i32("12a"), None);
}

#[test]
fn value_kinds_from_syntax() {
    assert_eq!(AttributeValueKind::from_schema_pair("2.5.5.8", 1), AttributeValueKind::Boolean);
    assert_eq!(AttributeValueKind::from_schema_pair("2.5.5.9", 10), AttributeValueKind::Integer);
    assert_eq!(AttributeValueKind::from_schema_pair("2.5.5.12", 64), AttributeValueKind::String);
    assert_eq!(AttributeValueKind::from_schema_pair("2.5.5.10", 4), AttributeValueKind::OctetString);
    assert_eq!(AttributeValueKind::from_schema_pair("2.5.5.10", 127), AttributeValueKind::Object);
    assert_eq!(AttributeValueKind::from_schema_pair("9.9.9", 1), AttributeValueKind::Unknown);
}

fn schema_search_entry(name: &str, flags: &str, system_only: &str) -> LdapSearchEntry {
    LdapSearchEntry {
        dn: format!("CN={},CN=Schema,CN=Configuration,DC=a", name),
        attrs: vec![
            (s("lDAPDisplayName"), texts(&[name])),
            (s("objectClass"), texts(&["attributeSchema"])),
            (s("attributeSyntax"), texts(&["2.5.5.12"])),
            (s("oMSyntax"), texts(&["64"])),
            (s("isSingleValued"), texts(&["TRUE"])),
            (s("systemFlags"), texts(&[flags])),
            (s("systemOnly"), texts(&[system_only])),
        ],
        bin_attrs: vec![(s("schemaIDGUID"), vec![(0u8..16).collect()])],
    }
}

#[test]
fn schema_entry_parse_reads_fields() {
    let mut e = SchemaEntry::new();
    e.parse(schema_search_entry("Description", "16", "FALSE"));
    assert_eq!(e.dn, "CN=DESCRIPTION,CN=SCHEMA,CN=CONFIGURATION,DC=A");
    assert_eq!(e.ldap_display_name, "description");
    assert_eq!(e.object_class, SchemaObjectClass::Attribute);
    assert_eq!(e.attribute_syntax, Some(s("2.5.5.12")));
    assert_eq!(e.om_syntax, Some(64));
    assert!(e.is_single_valued);
    assert!(!e.system_only);
    assert_eq!(e.system_flags, 16);
    let guid: Vec<u8> = (0u8..16).collect();
    assert_eq!(e.schema_id_guid.map(|g| g.to_vec()), Some(guid));
    assert_eq!(e.value_kind, Some(AttributeValueKind::String));
    assert!(!e.is_not_replicated());
    assert!(!e.is_constructed());
}

#[test]
fn schema_entry_class_and_short_guid() {
    let mut e = SchemaEntry::new();
    e.parse(LdapSearchEntry {
        dn: s("cn=User,CN=Schema"),
        attrs: vec![(s("objectClass"), texts(&["classSchema"]))],
        bin_attrs: vec![(s("schemaIDGUID"), vec![vec![1, 2, 3]])],
    });
    assert_eq!(e.object_class, SchemaObjectClass::Class);
    assert_eq!(e.schema_id_guid, None);
    assert_eq!(e.value_kind, None);
}

#[test]
fn system_flags_bits() {
    let mut e = SchemaEntry::new();
    e.system_flags = 5;
    assert!(e.is_not_replicated());
    assert!(e.is_constructed());
}

#[test]
fn control_sets_split_system_and_kept() {
    let mut entries = Vec::new();
    for (name, flags, only) in [("Description", "16", "FALSE"), ("cn", "0", "FALSE"), ("whenChanged", "0", "TRUE"), ("memberOf", "4", "FALSE")] {
        let mut e = SchemaEntry::new();
        e.parse(schema_search_entry(name, flags, only));
        entries.push(e);
    }
    let set = build_attribute_control_sets(&entries);
    assert!(set.allows("description"));
    assert!(!set.allows("cn"));
    assert!(!set.allows("whenchanged"));
    assert!(!set.allows("memberof"));
    let mut system = set.system_attributes.clone();
    system.sort();
    assert_eq!(system, texts(&["cn", "memberof", "whenchanged"]));
}

#[test]
fn control_set_exclusion_moves_names_to_system() {
    let mut e = SchemaEntry::new();
    e.parse(schema_search_entry("Description", "16", "FALSE"));
    let mut set = build_attribute_control_sets(&vec![e]);
    set.exclude(&texts(&["Info", "Description"]));
    assert!(!set.allows("description"));
    assert_eq!(set.system_attributes, texts(&["description"]));
}

#[test]
fn compute_hash_matches_known_digests() {
    assert_eq!(compute_hash(&Vec::new(), &Vec::new()), "DA39A3EE5E6B4B0D3255BFEF95601890AFD80709");
    assert_eq!(compute_hash(&vec![(s("name"), texts(&["alice"]))], &Vec::new()), "F1A7748C9586A6244FE2600B206AFFA0085A445D");
    let attrs = vec![(s("description"), texts(&["x"])), (s("cn"), texts(&["b", "a"]))];
    let bins = vec![(s("objectguid"), vec![vec![1u8, 2, 3]])];
    assert_eq!(compute_hash(&attrs, &bins), "583C726357F4594EE6AC97926C078A8279292222");
}

#[test]
fn compute_hash_ignores_order() {
    let a = vec![(s("cn"), texts(&["a", "b"])), (s("description"), texts(&["x"]))];
    let b = vec![(s("description"), texts(&["x"])), (s("cn"), texts(&["b", "a"]))];
    assert_eq!(compute_hash(&a, &Vec::new()), compute_hash(&b, &Vec::new()));
}

#[test]
fn snapshot_objects_keep_allowed_attributes() {
    let mut description = SchemaEntry::new();
    description.parse(schema_search_entry("Description", "16", "FALSE"));
    let set = build_attribute_control_sets(&vec![description]);
    let entry = LdapSearchEntry {
        dn: s("CN=bob,CN=Deleted Objects,DC=a"),
        attrs: vec![
            (s("name"), texts(&["bob"])),
            (s("objectClass"), texts(&["top", "user"])),
            (s("Description"), texts(&["z", "y"])),
            (s("cn"), texts(&["bob"])),
        ],
        bin_attrs: Vec::new(),
    };
    let o = DirectoryObject::from_ldap_entry(&entry, &set);
    assert_eq!(o.dn, "CN=bob,CN=Deleted Objects,DC=a");
    assert_eq!(o.name, Some(s("bob")));
    assert_eq!(o.object_class, texts(&["top", "user"]));
    assert_eq!(o.attributes, vec![(s("description"), texts(&["y", "z"]))]);
    assert!(o.is_deleted);
    assert_eq!(o.hash, compute_hash(&o.attributes, &o.bin_attributes));
}

#[test]
fn parse_results_separates_schema_from_objects() {
    let entries = vec![
        schema_search_entry("Description", "16", "FALSE"),
        LdapSearchEntry {
            dn: s("CN=bob,DC=a"),
            attrs: vec![(s("objectClass"), texts(&["user"])), (s("description"), texts(&["hi"]))],
            bin_attrs: Vec::new(),
        },
    ];
    let (results, schema, set) = parse_result_type_from_source(&entries, &Vec::new());
    assert_eq!(results.schema_entries.len(), 0);
    assert_eq!(schema.len(), 1);
    assert!(set.allows("description"));
    assert_eq!(results.directory_objects.len(), 1);
    assert_eq!(results.directory_objects[0].dn, "CN=bob,DC=a");
    assert_eq!(results.directory_objects[0].attributes, vec![(s("description"), texts(&["hi"]))]);
    let (left_alone, _, set) = parse_result_type_from_source(&entries, &texts(&["DESCRIPTION"]));
    assert!(!set.allows("description"));
    assert!(set.system_attributes.contains(&s("description")));
    assert!(left_alone.directory_objects[0].attributes.is_empty());
    let empty = ADResults::new();
    assert!(empty.directory_objects.is_empty() && empty.mappings.dn_sid.is_empty());
}

#[test]
fn identical_states_need_nothing() {
    let state = vec![object("CN=a,DC=x", Some("a"), "H1", false), object("CN=b,DC=x", Some("b"), "H2", false)];
    let copy = state.clone();
    assert!(compare_states(state, copy).is_empty());
}

#[test]
fn compare_states_follows_action_table() {
    let current = vec![
        object("CN=mod,DC=x", Some("mod"), "OLD", false),
        object("CN=gone,DC=x", Some("gone"), "G", false),
        object("CN=dead,DC=x", Some("dead"), "D1", true),
        object("CN=same,DC=x", Some("same"), "S", false),
    ];
    let target = vec![
        object("CN=mod,DC=x", Some("mod"), "NEW", false),
        object("CN=new,DC=x", Some("new"), "N", false),
        object("CN=dead,DC=x", Some("dead"), "D2", false),
        object("CN=same,DC=x", Some("same"), "S", false),
    ];
    let r = compare_states(current, target);
    assert_eq!(r.len(), 4);
    let kind = |dn: &str| -> Vec<ActionType> {
        r.iter().find(|(d, _)| d == dn).map(|(_, acts)| acts.iter().map(|a| a.action).collect()).unwrap()
    };
    assert_eq!(kind("CN=mod,DC=x"), vec![ActionType::Modify]);
    assert_eq!(kind("CN=gone,DC=x"), vec![ActionType::Delete]);
    assert_eq!(kind("CN=new,DC=x"), vec![ActionType::Create]);
    assert_eq!(kind("CN=dead,DC=x"), vec![ActionType::Reanimate]);
    assert!(r.iter().all(|(d, _)| d != "CN=same,DC=x"));
}

#[test]
fn compare_states_deletes_when_target_is_tombstone() {
    let current = vec![object("CN=t,DC=x", Some("t"), "L", false)];
    let mut tomb = object("CN=t,DC=x", Some("t"), "T", true);
    tomb.attributes = vec![(s("LastKnownParent"), texts(&["OU=Old,DC=x"]))];
    let r = compare_states(current, vec![tomb]);
    assert_eq!(r.len(), 1);
    assert_eq!(r[0].1[0].action, ActionType::Delete);
    assert_eq!(r[0].1[0].last_known_parent, Some(s("OU=Old,DC=x")));
}

#[test]
fn sort_actions_orders_kinds_and_depths() {
    let acts = vec![
        action(ActionType::Delete, None, Some(object("CN=p,DC=x", None, "", false))),
        action(ActionType::Modify, Some(object("CN=m,DC=x", None, "", false)), None),
        action(ActionType::Create, Some(object("CN=c,OU=o,DC=x", None, "", false)), None),
        action(ActionType::Delete, None, Some(object("CN=c,CN=p,DC=x", None, "", false))),
        action(ActionType::Create, Some(object("OU=o,DC=x", None, "", false)), None),
        action(ActionType::Reanimate, Some(object("CN=r,DC=x", None, "", false)), None),
    ];
    let sorted = sort_actions(acts);
    let order: Vec<(ActionType, String)> = sorted
        .iter()
        .map(|a| (a.action, a.target.as_ref().or(a.current.as_ref()).unwrap().dn.clone()))
        .collect();
    assert_eq!(
        order,
        vec![
            (ActionType::Create, s("OU=o,DC=x")),
            (ActionType::Create, s("CN=c,OU=o,DC=x")),
            (ActionType::Reanimate, s("CN=r,DC=x")),
            (ActionType::Modify, s("CN=m,DC=x")),
            (ActionType::Delete, s("CN=c,CN=p,DC=x")),
            (ActionType::Delete, s("CN=p,DC=x")),
        ]
    );
}

#[test]
fn reconcile_tombstones_merges_matching_delete() {
    let mut tomb = object("CN=obj\\0ADEL:1234,CN=Deleted Objects,DC=x", Some("obj_x000A_DEL:1234"), "T", true);
    tomb.attributes = vec![(s("lastknownparent"), texts(&["OU=Home,DC=x"]))];
    let live = object("CN=obj,OU=Other,DC=x", Some("OBJ"), "L", false);
    let acts = vec![
        action(ActionType::Create, Some(tomb.clone()), None),
        action(ActionType::Delete, None, Some(live.clone())),
    ];
    let r = reconcile_tombstones(acts);
    assert_eq!(r.len(), 1);
    assert_eq!(r[0].action, ActionType::Delete);
    assert_eq!(r[0].target.as_ref().unwrap().dn, tomb.dn);
    assert_eq!(r[0].current.as_ref().unwrap().dn, live.dn);
    assert_eq!(r[0].last_known_parent, Some(s("OU=Home,DC=x")));
}

#[test]
fn reconcile_tombstones_drops_unmatched_tombstones() {
    let tomb = object("CN=ghost,CN=Deleted Objects,DC=x", Some("ghost_x000A_DEL:1"), "T", true);
    let keep = action(ActionType::Modify, Some(object("CN=m,DC=x", None, "", false)), None);
    let r = reconcile_tombstones(vec![action(ActionType::Create, Some(tomb), None), keep]);
    assert_eq!(r.len(), 1);
    assert_eq!(r[0].action, ActionType::Modify);
}

#[test]
fn attribute_name_case_does_not_change_snapshot() {
    let mut description = SchemaEntry::new();
    description.parse(schema_search_entry("Description", "16", "FALSE"));
    let set = build_attribute_control_sets(&vec![description]);
    let entry = |name: &str| LdapSearchEntry {
        dn: s("CN=bob,DC=a"),
        attrs: vec![(s(name), texts(&["b", "a"]))],
        bin_attrs: Vec::new(),
    };
    let upper = DirectoryObject::from_ldap_entry(&entry("DESCRIPTION"), &set);
    let lower = DirectoryObject::from_ldap_entry(&entry("description"), &set);
    assert_eq!(upper.attributes, lower.attributes);
    assert_eq!(upper.hash, lower.hash);
}

#[test]
fn hash_is_forty_upper_hex_digits() {
    let h = compute_hash(&vec![(s("cn"), texts(&["x"]))], &vec![(s("objectguid"), vec![vec![9u8, 8]])]);
    assert_eq!(h.len(), 40);
    assert!(h.chars().all(|c| c.is_ascii_digit() || ('A'..='F').contains(&c)));
}

#[test]
fn snapshot_ignores_case_order_unkept_and_descriptor() {
    let mut description = SchemaEntry::new();
    description.parse(schema_search_entry("Description", "16", "FALSE"));
    let set = build_attribute_control_sets(&vec![description]);
    let first = LdapSearchEntry {
        dn: s("CN=bob,DC=a"),
        attrs: vec![(s("Description"), texts(&["b", "a"])), (s("info"), texts(&["one"]))],
        bin_attrs: vec![(s("nTSecurityDescriptor"), vec![vec![1, 2, 3]])],
    };
    let second = LdapSearchEntry {
        dn: s("CN=bob,DC=a"),
        attrs: vec![(s("whenChanged"), texts(&["now"])), (s("DESCRIPTION"), texts(&["a", "b"]))],
        bin_attrs: vec![(s("nTSecurityDescriptor"), vec![vec![4]])],
    };
    let o1 = DirectoryObject::from_ldap_entry(&first, &set);
    let o2 = DirectoryObject::from_ldap_entry(&second, &set);
    assert_eq!(o1.attributes, o2.attributes);
    assert_eq!(o1.bin_attributes, o2.bin_attributes);
    assert_eq!(o1.hash, o2.hash);
    assert_ne!(o1.sddl, o2.sddl);
}
