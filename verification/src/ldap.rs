//! LDAP connection parameters and the entries a directory search returns.
use vstd::prelude::*;

use crate::objects::{has_key, lookup};
use crate::text::{
    chars_of, contains, contains_spec, occurs_at, decimal_spec, owned, str_eq, string_from_chars,
    u64_to_decimal,
};

verus! {

/// One entry returned by a directory search: its DN, its text attributes and its binary
/// attributes (each a name with its values).
#[derive(Debug, Clone)]
pub struct LdapSearchEntry {
    pub dn: String,
    pub attrs: Vec<(String, Vec<String>)>,
    pub bin_attrs: Vec<(String, Vec<Vec<u8>>)>,
}

/// What a search entry is.
#[derive(Debug, Clone, Copy, PartialEq, Eq, Structural)]
pub enum Type {
    Unknown,
    SchemaEntry,
}

/// Some value of `vals` is exactly `v`.
pub open spec fn lists(vals: Seq<Seq<char>>, v: Seq<char>) -> bool {
    exists|i: int| 0 <= i < vals.len() && vals[i] == v
}

/// The entry is an `attributeSchema` or `classSchema` object of the schema partition.
pub open spec fn is_schema_entry(attrs: Seq<(Seq<char>, Seq<Seq<char>>)>) -> bool {
    match lookup(attrs, "objectClass"@) {
        Some(vals) => lists(vals, "attributeSchema"@) || lists(vals, "classSchema"@),
        None => false,
    }
}

/// Whether `vals` holds `v`.
fn lists_exec(vals: &Vec<String>, v: &str) -> (r: bool)
    ensures
        r == lists(vals.deep_view(), v@),
{
    for i in 0..vals.len()
        invariant
            forall|j: int| 0 <= j < i ==> vals.deep_view()[j] != v@,
    {
        assert(vals.deep_view()[i as int] == vals@[i as int]@);
        if str_eq(vals[i].as_str(), v) {
            return true;
        }
    }
    false
}

/// The kind of a search entry: `Ok(SchemaEntry)` for schema objects, `Err(Unknown)` otherwise.
pub fn get_type(result: &LdapSearchEntry) -> (r: Result<Type, Type>)
    ensures
        r == (if is_schema_entry(result.attrs.deep_view()) { Ok::<Type, Type>(Type::SchemaEntry) } else { Err::<Type, Type>(Type::Unknown) }),
{
    match crate::objects::find_attr(&result.attrs, "objectClass") {
        Some(i) => {
            assert(result.attrs.deep_view()[i as int].1 == result.attrs@[i as int].1.deep_view());
            if lists_exec(&result.attrs[i].1, "attributeSchema") || lists_exec(&result.attrs[i].1, "classSchema") {
                return Ok(Type::SchemaEntry);
            }
            Err(Type::Unknown)
        },
        None => Err(Type::Unknown),
    }
}

/// The LDAP URL: `ldaps` when asked for or on port 636, else `ldap`; the host is the IP when
/// given, else the domain; the port follows when given.
pub open spec fn ldap_url_spec(ldaps: bool, ip: Option<Seq<char>>, port: Option<u16>, domain: Seq<char>) -> Seq<char> {
    let protocol = if ldaps || (port matches Some(p) && p == 636) { "ldaps"@ } else { "ldap"@ };
    let target = match ip {
        Some(i) => i,
        None => domain,
    };
    match port {
        Some(p) => protocol + "://"@ + target + ":"@ + decimal_spec(p as nat),
        None => protocol + "://"@ + target,
    }
}

/// The LDAP URL to connect to.
pub fn prepare_ldap_url(ldaps: bool, ip: Option<&str>, port: Option<u16>, domain: &str) -> (r: String)
    ensures
        r@ == ldap_url_spec(ldaps, match ip { Some(i) => Some(i@), None => None }, port, domain@),
{
    let secure = ldaps || match port {
        Some(p) => p == 636,
        None => false,
    };
    let mut url = if secure { owned("ldaps") } else { owned("ldap") };
    url.append("://");
    match ip {
        Some(i) => url.append(i),
        None => url.append(domain),
    }
    match port {
        Some(p) => {
            url.append(":");
            let digits = u64_to_decimal(p as u64);
            url.append(digits.as_str());
        },
        None => {},
    }
    url
}

/// The pieces of `s` between dots (at least one piece, possibly empty).
pub open spec fn split_dots(s: Seq<char>) -> Seq<Seq<char>>
    decreases s.len(),
{
    if s.len() == 0 {
        seq![Seq::empty()]
    } else {
        let rest = split_dots(s.drop_last());
        if s.last() == '.' {
            rest.push(Seq::empty())
        } else {
            rest.update(rest.len() - 1, rest.last().push(s.last()))
        }
    }
}

/// `DC=` before each piece, pieces joined by commas.
pub open spec fn dc_chain(parts: Seq<Seq<char>>) -> Seq<char>
    decreases parts.len(),
{
    if parts.len() == 0 {
        Seq::empty()
    } else if parts.len() == 1 {
        "DC="@ + parts[0]
    } else {
        dc_chain(parts.drop_last()) + ","@ + "DC="@ + parts.last()
    }
}

proof fn lemma_split_dots_nonempty(s: Seq<char>)
    ensures
        split_dots(s).len() >= 1,
    decreases s.len(),
{
    if s.len() > 0 {
        lemma_split_dots_nonempty(s.drop_last());
    }
}

/// The DN of a dotted domain name: `DC=` before each label, labels joined by commas.
pub open spec fn domain_to_dc_spec(domain: Seq<char>) -> Seq<char> {
    dc_chain(split_dots(domain))
}

/// The DN of a dotted domain name (`example.com` gives `DC=example,DC=com`).
pub fn domain_to_dc(domain: &str) -> (r: String)
    ensures
        r@ == domain_to_dc_spec(domain@),
{
    let v = chars_of(domain);
    // the labels, built character by character
    let mut parts: Vec<Vec<char>> = Vec::new();
    parts.push(Vec::new());
    let ghost empty: Seq<char> = Seq::empty();
    assert(parts@.map_values(|p: Vec<char>| p@) =~= split_dots(domain@.take(0)));
    for i in 0..v.len()
        invariant
            v@ == domain@,
            parts@.len() >= 1,
            parts@.map_values(|p: Vec<char>| p@) == split_dots(domain@.take(i as int)),
    {
        assert(domain@.take(i + 1).drop_last() =~= domain@.take(i as int));
        assert(domain@.take(i + 1).last() == v@[i as int]);
        let ghost before = parts@.map_values(|p: Vec<char>| p@);
        if v[i] == '.' {
            parts.push(Vec::new());
            assert(parts@.map_values(|p: Vec<char>| p@) =~= before.push(Seq::empty()));
        } else {
            let last = parts.len() - 1;
            let mut cur = parts.remove(last);
            cur.push(v[i]);
            parts.push(cur);
            assert(parts@.map_values(|p: Vec<char>| p@) =~= before.update(before.len() - 1, before.last().push(v@[i as int])));
        }
    }
    assert(domain@.take(v.len() as int) =~= domain@);
    let ghost pv = parts@.map_values(|p: Vec<char>| p@);
    let mut dc = String::new();
    for k in 0..parts.len()
        invariant
            pv == parts@.map_values(|p: Vec<char>| p@),
            dc@ == dc_chain(pv.take(k as int)),
    {
        assert(pv.take(k + 1).drop_last() =~= pv.take(k as int));
        assert(pv.take(k + 1).last() == parts@[k as int]@);
        if k > 0 {
            dc.append(",");
        }
        dc.append("DC=");
        let label = string_from_chars(&parts[k]);
        dc.append(label.as_str());
        if k == 0 {
            assert(pv.take(1) =~= seq![pv[0]]);
        }
    }
    assert(pv.take(parts.len() as int) =~= pv);
    dc
}

/// The naming contexts to search for `domain`: the domain's own DN (`DC=` + name for a
/// name without dots), then `CN=Configuration,` followed by the `DC=` + name prefix (which
/// is only filled in for a name without dots).
pub open spec fn ldap_dc_spec(domain: Seq<char>) -> Seq<Seq<char>> {
    if !contains_spec(domain, "."@) {
        seq!["DC="@ + domain, "CN=Configuration,"@ + "DC="@ + domain]
    } else {
        seq![domain_to_dc_spec(domain), "CN=Configuration,"@]
    }
}

/// The naming contexts to search for `domain`.
pub fn prepare_ldap_dc(domain: &str) -> (r: Vec<String>)
    ensures
        r.deep_view() == ldap_dc_spec(domain@),
{
    let mut dc = String::new();
    let mut naming_context: Vec<String> = Vec::new();
    if !contains(domain, ".") {
        dc.append("DC=");
        dc.append(domain);
        naming_context.push(dc.clone());
    } else {
        naming_context.push(domain_to_dc(domain));
    }
    let mut conf = owned("CN=Configuration,");
    conf.append(dc.as_str());
    proof {
        if !contains_spec(domain@, "."@) {
            assert(dc@ =~= "DC="@ + domain@);
            assert(conf@ =~= "CN=Configuration,"@ + "DC="@ + domain@);
        } else {
            assert(conf@ =~= "CN=Configuration,"@);
        }
    }
    naming_context.push(conf);
    assert(naming_context.deep_view() =~= ldap_dc_spec(domain@));
    naming_context
}

/// The arguments of an LDAP connection.
pub struct LdapArgs {
    pub s_url: String,
    pub s_dc: Vec<String>,
}

/// The URL and naming contexts of a connection.
pub fn ldap_constructor(ldaps: bool, ip: Option<&str>, port: Option<u16>, domain: &str, ldapfqdn: &str) -> (r: LdapArgs)
    ensures
        r.s_url@ == ldap_url_spec(ldaps, match ip { Some(i) => Some(i@), None => None }, port, domain@),
        r.s_dc.deep_view() == ldap_dc_spec(domain@),
{
    let s_url = prepare_ldap_url(ldaps, ip, port, domain);
    let s_dc = prepare_ldap_dc(domain);
    LdapArgs { s_url, s_dc }
}

/// Whether one of the naming contexts is the configuration partition (its DN mentions
/// `Configuration`); the search only runs then.
pub fn has_configuration_context(contexts: &Vec<String>) -> (r: bool)
    ensures
        r == exists|i: int| 0 <= i < contexts@.len() && contains_spec(#[trigger] contexts@[i]@, "Configuration"@),
{
    for i in 0..contexts.len()
        invariant
            forall|j: int| 0 <= j < i ==> !contains_spec(#[trigger] contexts@[j]@, "Configuration"@),
    {
        if contains(contexts[i].as_str(), "Configuration") {
            return true;
        }
    }
    false
}

/// The search filter: the configured one, else everything but the display specifiers.
pub fn search_filter(ldap_filter: &Option<String>) -> (r: String)
    ensures
        r@ == match ldap_filter {
            Some(f) => f@,
            None => "&((objectClass=*)(!(cn=DisplaySpecifiers)))"@,
        },
{
    match ldap_filter {
        Some(f) => f.clone(),
        None => owned("&((objectClass=*)(!(cn=DisplaySpecifiers)))"),
    }
}

/// A name without dots is one label.
proof fn lemma_split_without_dots(s: Seq<char>)
    requires
        forall|i: int| 0 <= i < s.len() ==> s[i] != '.',
    ensures
        split_dots(s) == seq![s],
    decreases s.len(),
{
    if s.len() > 0 {
        let t = s.drop_last();
        assert forall|i: int| 0 <= i < t.len() implies t[i] != '.' by {
            assert(t[i] == s[i]);
        }
        lemma_split_without_dots(t);
        assert(split_dots(s) =~= seq![t.push(s.last())]);
        assert(t.push(s.last()) =~= s);
    } else {
        assert(s =~= Seq::<char>::empty());
    }
}

/// The first naming context searched for a domain is the domain's own DN, whether or not
/// the name has dots.
pub proof fn law_first_naming_context_is_domain_dn(domain: Seq<char>)
    ensures
        ldap_dc_spec(domain)[0] == domain_to_dc_spec(domain),
{
    if !contains_spec(domain, "."@) {
        reveal_strlit(".");
        assert forall|i: int| 0 <= i < domain.len() implies domain[i] != '.' by {
            if domain[i] == '.' {
                assert(domain.subrange(i, i + 1) =~= "."@);
                assert(occurs_at(domain, "."@, i));
            }
        }
        lemma_split_without_dots(domain);
        assert(dc_chain(seq![domain]) == "DC="@ + domain);
    }
}

/// All values of the attributes `attrs`, attribute after attribute.
pub open spec fn attr_values(attrs: Seq<(Seq<char>, Seq<Seq<char>>)>) -> Seq<Seq<char>>
    decreases attrs.len(),
{
    if attrs.len() == 0 {
        Seq::empty()
    } else {
        attr_values(attrs.drop_last()) + attrs.last().1
    }
}

/// All attribute values of the entries `es`, entry after entry.
pub open spec fn entries_values(es: Seq<LdapSearchEntry>) -> Seq<Seq<char>>
    decreases es.len(),
{
    if es.len() == 0 {
        Seq::empty()
    } else {
        entries_values(es.drop_last()) + attr_values(es.last().attrs.deep_view())
    }
}

/// The naming contexts a search of the root entry (asking for `namingContexts`) returned:
/// every value of every attribute of every entry, in order.
pub fn collect_naming_contexts(entries: &Vec<LdapSearchEntry>) -> (r: Vec<String>)
    ensures
        r.deep_view() == entries_values(entries@),
{
    let mut r: Vec<String> = Vec::new();
    for i in 0..entries.len()
        invariant
            r.deep_view() == entries_values(entries@.take(i as int)),
    {
        let e = &entries[i];
        assert(entries@.take(i + 1).drop_last() =~= entries@.take(i as int));
        assert(entries@.take(i + 1).last() == *e);
        let ghost start = r.deep_view();
        let ghost a = e.attrs.deep_view();
        for j in 0..e.attrs.len()
            invariant
                a == e.attrs.deep_view(),
                r.deep_view() == start + attr_values(a.take(j as int)),
        {
            let vals = &e.attrs[j].1;
            assert(a.take(j + 1).drop_last() =~= a.take(j as int));
            assert(a.take(j + 1).last().1 == vals.deep_view());
            let ghost mid = r.deep_view();
            for k in 0..vals.len()
                invariant
                    r.deep_view() == mid + vals.deep_view().take(k as int),
            {
                let ghost before = r.deep_view();
                r.push(vals[k].clone());
                assert(r.deep_view() =~= before.push(vals.deep_view()[k as int]));
                assert(vals.deep_view().take(k + 1) =~= vals.deep_view().take(k as int).push(vals.deep_view()[k as int]));
            }
            assert(vals.deep_view().take(vals.len() as int) =~= vals.deep_view());
            assert(r.deep_view() =~= start + attr_values(a.take(j + 1)));
        }
        assert(a.take(e.attrs.len() as int) =~= a);
    }
    assert(entries@.take(entries.len() as int) =~= entries@);
    r
}

/// A Kerberos bind needs the controller's name: it is refused while the configured name
/// still reads `not set`.
pub fn can_bind_gssapi(ldapfqdn: &str) -> (r: bool)
    ensures
        r == !contains_spec(ldapfqdn@, "not set"@),
{
    !contains(ldapfqdn, "not set")
}

} // verus!
