//! Generation of the PowerShell commands that carry out remediation actions.
use base64::Engine;
use vstd::prelude::*;
use vstd::utf8::{decode_utf8, valid_utf8};

use crate::models::LdapNamingContexts;
use crate::objects::{
    CommandType, DirectoryObject, DirectoryObjectView, RemediationAction, RemediationActionView,
    RemediationCommand, RemediationCommandView, ActionType, lookup, has_key,
    find_attr, find_bin_attr, strings_eq, byte_strings_eq, bytes_eq, lemma_bytes_deep_view,
    copy_opt_string,
};
use crate::text::{
    after_first, after_first_spec, ascii_lower, before_pattern, before_pattern_spec,
    ends_with, ends_with_spec, eq_ignore_ascii_case, eq_ignore_ascii_case_spec, join, join_spec,
    owned, replace_char, replace_char_spec, starts_with, starts_with_spec, to_ascii_lowercase,
    to_lowercase, trim, trim_spec, unicode_lowercase, str_eq,
};

verus! {

broadcast use vstd::string::group_string_axioms;

/// The digit of the standard base64 alphabet for `v < 64`: `A`-`Z`, `a`-`z`, `0`-`9`, `+`, `/`.
pub open spec fn base64_digit(v: int) -> char {
    if v < 26 {
        ((65 + v) as u32) as char
    } else if v < 52 {
        ((71 + v) as u32) as char
    } else if v < 62 {
        ((v - 4) as u32) as char
    } else if v == 62 {
        '+'
    } else {
        '/'
    }
}

/// Standard base64 encoding of `bytes`, with padding: each group of three bytes becomes
/// four digits of six bits each, high bits first; a last group of one or two bytes becomes
/// two or three digits followed by `=` up to four.
pub open spec fn base64_standard(bytes: Seq<u8>) -> Seq<char>
    decreases bytes.len(),
{
    if bytes.len() == 0 {
        Seq::empty()
    } else if bytes.len() == 1 {
        seq![base64_digit(bytes[0] as int / 4), base64_digit((bytes[0] as int % 4) * 16), '=', '=']
    } else if bytes.len() == 2 {
        seq![
            base64_digit(bytes[0] as int / 4),
            base64_digit((bytes[0] as int % 4) * 16 + bytes[1] as int / 16),
            base64_digit((bytes[1] as int % 16) * 4),
            '=',
        ]
    } else {
        seq![
            base64_digit(bytes[0] as int / 4),
            base64_digit((bytes[0] as int % 4) * 16 + bytes[1] as int / 16),
            base64_digit((bytes[1] as int % 16) * 4 + bytes[2] as int / 64),
            base64_digit(bytes[2] as int % 64),
        ] + base64_standard(bytes.subrange(3, bytes.len() as int))
    }
}

/// base64's `STANDARD.encode`. Trusted: the text is the standard padded base64 encoding of
/// the bytes (see `base64_standard`). The engine panics only when the encoded length
/// overflows `usize`, which the bound on the input rules out.
#[verifier::external_body]
fn base64_encode(bytes: &[u8]) -> (r: String)
    requires
        bytes@.len() <= usize::MAX / 2,
    ensures
        r@ == base64_standard(bytes@),
{
    base64::engine::general_purpose::STANDARD.encode(bytes)
}

/// The `Debug` rendering of a text: quoted, with escapes.
pub uninterp spec fn debug_text(s: Seq<char>) -> Seq<char>;

/// std's `Debug` formatting of a `str`. Trusted: the rendering depends on the text alone;
/// which characters it escapes is left to the name.
#[verifier::external_body]
pub(crate) fn debug_format_text(s: &str) -> (r: String)
    ensures
        r@ == debug_text(s@),
{
    format!("{:?}", s)
}

/// The `Debug` rendering of a list of texts: bracketed, each text quoted with escapes.
pub uninterp spec fn debug_text_list(l: Seq<Seq<char>>) -> Seq<char>;

/// std's `Debug` formatting of a `Vec<String>`. Trusted: the rendering depends on the texts
/// alone; its exact characters are left to the name.
#[verifier::external_body]
fn debug_format_text_list(l: &Vec<String>) -> (r: String)
    ensures
        r@ == debug_text_list(l.deep_view()),
{
    format!("{:?}", l)
}

/// std's `str::from_utf8`. Trusted: it succeeds exactly on valid UTF-8, and then holds the
/// decoded characters.
#[verifier::external_body]
fn utf8_text(bytes: &[u8]) -> (r: Option<String>)
    ensures
        match r {
            Some(s) => valid_utf8(bytes@) && s@ == decode_utf8(bytes@),
            None => !valid_utf8(bytes@),
        },
{
    match std::str::from_utf8(bytes) {
        Ok(s) => Some(s.to_string()),
        Err(_) => None,
    }
}

/// A text made safe for a DN component in a command: line feeds and carriage returns are
/// written as `\0A` and `\0D`.
pub open spec fn escape_dn_spec(s: Seq<char>) -> Seq<char> {
    replace_char_spec(replace_char_spec(s, '\n', "\\0A"@), '\r', "\\0D"@)
}

/// Writes line feeds and carriage returns of `value` as `\0A` and `\0D`.
pub fn escape_dn_component(value: &str) -> (r: String)
    ensures
        r@ == escape_dn_spec(value@),
{
    let a = replace_char(value, '\n', "\\0A");
    replace_char(a.as_str(), '\r', "\\0D")
}

/// A text made safe inside a single-quoted PowerShell string: quotes are doubled.
pub open spec fn escape_single_quoted_spec(s: Seq<char>) -> Seq<char> {
    replace_char_spec(s, '\'', "''"@)
}

/// Doubles the single quotes of `value`.
pub fn escape_powershell_single_quoted(value: &str) -> (r: String)
    ensures
        r@ == escape_single_quoted_spec(value@),
{
    replace_char(value, '\'', "''")
}

/// The attribute is the security descriptor (its name before any `;` option is
/// `nTSecurityDescriptor`, ASCII case aside).
pub open spec fn is_ntsd_spec(name: Seq<char>) -> bool {
    eq_ignore_ascii_case_spec(before_pattern_spec(name, ";"@), "nTSecurityDescriptor"@)
}

/// Whether `attr_name` names the security descriptor.
pub fn is_nt_security_descriptor_attr(attr_name: &str) -> (r: bool)
    ensures
        r == is_ntsd_spec(attr_name@),
{
    let base = before_pattern(attr_name, ";");
    eq_ignore_ascii_case(base.as_str(), "nTSecurityDescriptor")
}

/// The bytes read as an SDDL text: valid UTF-8 which, trimmed, is not empty and starts with
/// `O:`, `G:`, `D:` or `S:`; the trimmed text then.
pub open spec fn sddl_text_spec(bytes: Seq<u8>) -> Option<Seq<char>> {
    if valid_utf8(bytes) {
        let s = trim_spec(decode_utf8(bytes));
        if s.len() > 0 && (starts_with_spec(s, "O:"@) || starts_with_spec(s, "G:"@)
            || starts_with_spec(s, "D:"@) || starts_with_spec(s, "S:"@)) {
            Some(s)
        } else {
            None
        }
    } else {
        None
    }
}

/// The SDDL text held by `bytes`, when they hold one.
pub fn is_probably_sddl_string(bytes: &[u8]) -> (r: Option<String>)
    ensures
        r.deep_view() == sddl_text_spec(bytes@),
{
    let text = match utf8_text(bytes) {
        Some(t) => t,
        None => return None,
    };
    let s = trim(text.as_str());
    if s.as_str().is_empty() {
        return None;
    }
    if starts_with(s.as_str(), "O:") || starts_with(s.as_str(), "G:") || starts_with(s.as_str(), "D:")
        || starts_with(s.as_str(), "S:") {
        return Some(s);
    }
    None
}

/// `nc` is the naming context of `dn`: equal to it, or a suffix of it after a comma (ASCII
/// case aside for the DN; the context lower-cased by Unicode rules).
pub open spec fn in_naming_context(dn: Seq<char>, nc: Seq<char>) -> bool {
    eq_ignore_ascii_case_spec(dn, nc) || ends_with_spec(ascii_lower(dn), seq![','] + unicode_lowercase(nc))
}

/// Length in bytes of the UTF-8 encoding of a text.
pub open spec fn byte_len(s: Seq<char>) -> nat {
    vstd::utf8::encode_utf8(s).len()
}

/// The naming context of `dn` among `ncs`: of those that contain it, the longest (in
/// bytes), the first listed among equally long ones.
pub open spec fn naming_context_spec(dn: Seq<char>, ncs: Seq<Seq<char>>) -> Option<Seq<char>> {
    if exists|i: int| 0 <= i < ncs.len() && in_naming_context(dn, ncs[i]) {
        Some(ncs[choose|i: int| 0 <= i < ncs.len() && in_naming_context(dn, ncs[i]) && forall|j: int|
            0 <= j < ncs.len() && #[trigger] in_naming_context(dn, ncs[j]) ==> byte_len(ncs[j]) < byte_len(ncs[i])
                || (byte_len(ncs[j]) == byte_len(ncs[i]) && j >= i)])
    } else {
        None
    }
}

/// Whether `nc` is the naming context of `dn` in the sense of `in_naming_context`.
fn is_in_naming_context(dn: &str, nc: &str) -> (r: bool)
    ensures
        r == in_naming_context(dn@, nc@),
{
    if eq_ignore_ascii_case(dn, nc) {
        return true;
    }
    let lower_dn = to_ascii_lowercase(dn);
    let mut suffix = owned(",");
    let lower_nc = to_lowercase(nc);
    suffix.append(lower_nc.as_str());
    assert(suffix@ =~= seq![','] + unicode_lowercase(nc@)) by {
        reveal_strlit(",");
    }
    ends_with(lower_dn.as_str(), suffix.as_str())
}

/// The naming context of `dn` among `naming_contexts` (the longest that contains it).
pub fn extract_naming_context(dn: &str, naming_contexts: &LdapNamingContexts) -> (r: Option<String>)
    ensures
        r.deep_view() == naming_context_spec(dn@, naming_contexts.naming_contexts.deep_view()),
{
    let ncs = &naming_contexts.naming_contexts;
    let ghost s = ncs.deep_view();
    let mut best: Option<usize> = None;
    for i in 0..ncs.len()
        invariant
            s == ncs.deep_view(),
            match best {
                Some(b) => b < i && in_naming_context(dn@, s[b as int]) && forall|j: int|
                    0 <= j < i && #[trigger] in_naming_context(dn@, s[j]) ==> byte_len(s[j]) < byte_len(s[b as int])
                        || (byte_len(s[j]) == byte_len(s[b as int]) && j >= b),
                None => forall|j: int| 0 <= j < i ==> !#[trigger] in_naming_context(dn@, s[j]),
            },
    {
        assert(s[i as int] == ncs@[i as int]@);
        if is_in_naming_context(dn, ncs[i].as_str()) {
            match best {
                None => {
                    best = Some(i);
                },
                Some(b) => {
                    assert(s[b as int] == ncs@[b as int]@);
                    let li = ncs[i].as_str().as_bytes().len();
                    let lb = ncs[b].as_str().as_bytes().len();
                    assert(li == byte_len(s[i as int]));
                    assert(lb == byte_len(s[b as int]));
                    if li > lb {
                        best = Some(i);
                    }
                },
            }
        }
    }
    match best {
        Some(b) => {
            let ghost k = choose|i: int| 0 <= i < s.len() && in_naming_context(dn@, s[i]) && forall|j: int|
                0 <= j < s.len() && #[trigger] in_naming_context(dn@, s[j]) ==> byte_len(s[j]) < byte_len(s[i])
                    || (byte_len(s[j]) == byte_len(s[i]) && j >= i);
            assert(k == b as int) by {
                assert(in_naming_context(dn@, s[b as int]));
            }
            assert(s[b as int] == ncs@[b as int]@);
            Some(ncs[b].clone())
        },
        None => None,
    }
}


/// A command of the given kind with no object name.
pub open spec fn cmd(t: CommandType, c: Seq<char>, d: Option<Seq<char>>, ic: bool) -> RemediationCommandView {
    RemediationCommandView { command_type: t, command: c, description: d, object_name: None, is_comment: ic }
}

/// The views of a list of commands.
pub open spec fn cmd_views(v: Seq<RemediationCommand>) -> Seq<RemediationCommandView> {
    v.map_values(|c: RemediationCommand| c.deep_view())
}

/// A command of the given kind with no object name.
fn mk(t: CommandType, c: String, d: Option<String>, ic: bool) -> (r: RemediationCommand)
    ensures
        r.deep_view() == cmd(t, c@, d.deep_view(), ic),
{
    RemediationCommand { command_type: t, command: c, description: d, object_name: None, is_comment: ic }
}

/// A described command of the given kind.
fn mk_described(t: CommandType, c: String, d: &str, ic: bool) -> (r: RemediationCommand)
    ensures
        r.deep_view() == cmd(t, c@, Some(d@), ic),
{
    mk(t, c, Some(owned(d)), ic)
}

/// `a + b + c`.
fn cat3(a: &str, b: &str, c: &str) -> (r: String)
    ensures
        r@ == a@ + b@ + c@,
{
    let mut r = owned(a);
    r.append(b);
    r.append(c);
    r
}

/// Appends `c` to `v`.
fn push_cmd(v: &mut Vec<RemediationCommand>, c: RemediationCommand)
    ensures
        cmd_views(final(v)@) == cmd_views(old(v)@).push(c.deep_view()),
{
    v.push(c);
    assert(cmd_views(v@) =~= cmd_views(old(v)@).push(c.deep_view()));
}

/// A copy of a command.
fn copy_cmd(c: &RemediationCommand) -> (r: RemediationCommand)
    ensures
        r.deep_view() == c.deep_view(),
{
    RemediationCommand {
        command_type: c.command_type,
        command: c.command.clone(),
        description: copy_opt_string(&c.description),
        object_name: copy_opt_string(&c.object_name),
        is_comment: c.is_comment,
    }
}

/// Appends copies of the commands of `w` to `v`.
fn append_cmds(v: &mut Vec<RemediationCommand>, w: &Vec<RemediationCommand>)
    ensures
        cmd_views(final(v)@) == cmd_views(old(v)@) + cmd_views(w@),
{
    let ghost start = cmd_views(v@);
    for k in 0..w.len()
        invariant
            cmd_views(v@) == start + cmd_views(w@).take(k as int),
    {
        push_cmd(v, copy_cmd(&w[k]));
        assert(cmd_views(w@).take(k + 1) =~= cmd_views(w@).take(k as int).push(cmd_views(w@)[k as int]));
    }
    assert(cmd_views(w@).take(w.len() as int) =~= cmd_views(w@));
}

/// The commands that put a baseline security descriptor back on the object `dn`.
pub open spec fn sddl_commands_spec(dn: Seq<char>, sd: Option<Seq<u8>>) -> Seq<RemediationCommandView> {
    let head = seq![cmd(CommandType::Comment, "Restore security descriptor from baseline"@, None, true)];
    if sd is Some && sd->0.len() > 0 {
        let b = sd->0;
        head + (match sddl_text_spec(b) {
            Some(t) => seq![cmd(CommandType::PowerShell, "$sddl = '"@ + escape_single_quoted_spec(t) + "'"@, Some("Set SDDL variable"@), false)],
            None => seq![
                cmd(CommandType::PowerShell, "$baselineSd = [Convert]::FromBase64String('"@ + base64_standard(b) + "')"@, Some("Decode baseline security descriptor"@), false),
                cmd(CommandType::PowerShell, "$sddl = (New-Object System.Security.AccessControl.RawSecurityDescriptor($baselineSd, 0)).GetSddlForm([System.Security.AccessControl.AccessControlSections]::All)"@, Some("Set SDDL variable"@), false),
            ],
        }) + seq![
            cmd(CommandType::PowerShell, "$acl = Get-Acl 'AD:\\"@ + dn + "'"@, Some("Get current ACL"@), false),
            cmd(CommandType::PowerShell, "$acl.SetSecurityDescriptorSddlForm($sddl)"@, Some("Set SDDL form"@), false),
            cmd(CommandType::PowerShell, "Set-Acl -Path 'AD:\\"@ + dn + "' -AclObject $acl"@, Some("Apply ACL to object"@), false),
            cmd(CommandType::Comment, "# OR use dsacls:"@, None, false),
            cmd(CommandType::DsAcls, "# dsacls '"@ + dn + "' /S /T"@, Some("Alternative using dsacls"@), true),
        ]
    } else {
        head + seq![cmd(CommandType::Comment, "Manual review is required, no baseline SDDL was captured"@, None, true)]
    }
}

/// The commands that put the baseline security descriptor `baseline_sd` back on `dn`.
pub fn generate_sddl_commands(dn: &str, baseline_sd: Option<&[u8]>) -> (r: Vec<RemediationCommand>)
    requires
        baseline_sd matches Some(b) ==> b@.len() <= usize::MAX / 2,
    ensures
        cmd_views(r@) == sddl_commands_spec(dn@, match baseline_sd { Some(b) => Some(b@), None => None }),
{
    let mut r: Vec<RemediationCommand> = Vec::new();
    push_cmd(&mut r, mk(CommandType::Comment, owned("Restore security descriptor from baseline"), None, true));
    match baseline_sd {
        Some(b) if b.len() > 0 => {
            match is_probably_sddl_string(b) {
                Some(t) => {
                    let esc = escape_powershell_single_quoted(t.as_str());
                    push_cmd(&mut r, mk_described(CommandType::PowerShell, cat3("$sddl = '", esc.as_str(), "'"), "Set SDDL variable", false));
                },
                None => {
                    let enc = base64_encode(b);
                    push_cmd(&mut r, mk_described(CommandType::PowerShell, cat3("$baselineSd = [Convert]::FromBase64String('", enc.as_str(), "')"), "Decode baseline security descriptor", false));
                    push_cmd(&mut r, mk_described(CommandType::PowerShell, owned("$sddl = (New-Object System.Security.AccessControl.RawSecurityDescriptor($baselineSd, 0)).GetSddlForm([System.Security.AccessControl.AccessControlSections]::All)"), "Set SDDL variable", false));
                },
            }
            push_cmd(&mut r, mk_described(CommandType::PowerShell, cat3("$acl = Get-Acl 'AD:\\", dn, "'"), "Get current ACL", false));
            push_cmd(&mut r, mk_described(CommandType::PowerShell, owned("$acl.SetSecurityDescriptorSddlForm($sddl)"), "Set SDDL form", false));
            push_cmd(&mut r, mk_described(CommandType::PowerShell, cat3("Set-Acl -Path 'AD:\\", dn, "' -AclObject $acl"), "Apply ACL to object", false));
            push_cmd(&mut r, mk(CommandType::Comment, owned("# OR use dsacls:"), None, false));
            push_cmd(&mut r, mk_described(CommandType::DsAcls, cat3("# dsacls '", dn, "' /S /T"), "Alternative using dsacls", true));
        },
        _ => {
            push_cmd(&mut r, mk(CommandType::Comment, owned("Manual review is required, no baseline SDDL was captured"), None, true));
        },
    }
    assert(cmd_views(r@) =~= sddl_commands_spec(dn@, match baseline_sd { Some(b) => Some(b@), None => None }));
    r
}


/// Text attributes of the target to write: each entry of `t` whose values differ from what
/// `c` holds for its name, with its values joined by commas.
pub open spec fn replace_entries(
    t: Seq<(Seq<char>, Seq<Seq<char>>)>,
    c: Seq<(Seq<char>, Seq<Seq<char>>)>,
) -> Seq<(Seq<char>, Seq<char>)>
    decreases t.len(),
{
    if t.len() == 0 {
        Seq::empty()
    } else {
        let rest = replace_entries(t.drop_last(), c);
        let e = t.last();
        if lookup(c, e.0) != Some(e.1) {
            rest.push((e.0, join_spec(e.1, ","@)))
        } else {
            rest
        }
    }
}

/// Base64 of each byte string.
pub open spec fn base64_all(vals: Seq<Seq<u8>>) -> Seq<Seq<char>> {
    vals.map_values(|v: Seq<u8>| base64_standard(v))
}

/// Binary attributes of the target to write (the security descriptor aside): each entry of
/// `t` whose values differ from what `c` holds for its name, its values in base64.
pub open spec fn replace_bin_entries(
    t: Seq<(Seq<char>, Seq<Seq<u8>>)>,
    c: Seq<(Seq<char>, Seq<Seq<u8>>)>,
) -> Seq<(Seq<char>, Seq<Seq<char>>)>
    decreases t.len(),
{
    if t.len() == 0 {
        Seq::empty()
    } else {
        let rest = replace_bin_entries(t.drop_last(), c);
        let e = t.last();
        if !is_ntsd_spec(e.0) && lookup(c, e.0) != Some(e.1) {
            rest.push((e.0, base64_all(e.1)))
        } else {
            rest
        }
    }
}

/// Names of the text attributes of `c` that `t` does not hold.
pub open spec fn clear_names(c: Seq<(Seq<char>, Seq<Seq<char>>)>, t: Seq<(Seq<char>, Seq<Seq<char>>)>) -> Seq<Seq<char>>
    decreases c.len(),
{
    if c.len() == 0 {
        Seq::empty()
    } else if !has_key(t, c.last().0) {
        clear_names(c.drop_last(), t).push(c.last().0)
    } else {
        clear_names(c.drop_last(), t)
    }
}

/// Names of the binary attributes of `c` (the security descriptor aside) that `t` does not hold.
pub open spec fn clear_bin_names(c: Seq<(Seq<char>, Seq<Seq<u8>>)>, t: Seq<(Seq<char>, Seq<Seq<u8>>)>) -> Seq<Seq<char>>
    decreases c.len(),
{
    if c.len() == 0 {
        Seq::empty()
    } else if !is_ntsd_spec(c.last().0) && !has_key(t, c.last().0) {
        clear_bin_names(c.drop_last(), t).push(c.last().0)
    } else {
        clear_bin_names(c.drop_last(), t)
    }
}

/// `'name'='values';` for each text entry.
pub open spec fn replace_items(rep: Seq<(Seq<char>, Seq<char>)>) -> Seq<char>
    decreases rep.len(),
{
    if rep.len() == 0 {
        Seq::empty()
    } else {
        replace_items(rep.drop_last()) + "'"@ + rep.last().0 + "'='"@ + rep.last().1 + "';"@
    }
}

/// `[Convert]::FromBase64String('v')` for one base64 text.
pub open spec fn from_base64_call(v: Seq<char>) -> Seq<char> {
    "[Convert]::FromBase64String('"@ + v + "')"@
}

/// `'name'=@(decoded values);` for each binary entry.
pub open spec fn replace_bin_items(rep: Seq<(Seq<char>, Seq<Seq<char>>)>) -> Seq<char>
    decreases rep.len(),
{
    if rep.len() == 0 {
        Seq::empty()
    } else {
        replace_bin_items(rep.drop_last()) + "'"@ + rep.last().0 + "'=@("@ + join_spec(
            rep.last().1.map_values(|v: Seq<char>| from_base64_call(v)),
            ","@,
        ) + ");"@
    }
}

/// A name in single quotes.
pub open spec fn quoted(a: Seq<char>) -> Seq<char> {
    "'"@ + a + "'"@
}

/// The text attributes of an optional object (none when absent).
pub open spec fn attrs_of(o: Option<DirectoryObjectView>) -> Seq<(Seq<char>, Seq<Seq<char>>)> {
    match o {
        Some(c) => c.attributes,
        None => Seq::empty(),
    }
}

/// The binary attributes of an optional object (none when absent).
pub open spec fn bin_attrs_of(o: Option<DirectoryObjectView>) -> Seq<(Seq<char>, Seq<Seq<u8>>)> {
    match o {
        Some(c) => c.bin_attributes,
        None => Seq::empty(),
    }
}

/// The security descriptor of the target must be written: it is set, not empty, and the
/// current object does not hold the same one.
pub open spec fn sddl_differs(target: DirectoryObjectView, current: Option<DirectoryObjectView>) -> bool {
    target.sddl is Some && target.sddl->0.len() > 0 && match current {
        Some(c) => c.sddl != target.sddl,
        None => true,
    }
}

/// The commands that give the object `id` the target's security descriptor and attributes:
/// the descriptor commands when it differs; then, when any attribute must be written or
/// cleared, one `Set-ADObject -Replace` with every changed attribute and, when some must be
/// cleared, one `Set-ADObject -Clear` with those.
pub open spec fn restore_spec(
    target: DirectoryObjectView,
    current: Option<DirectoryObjectView>,
    id: Seq<char>,
) -> Seq<RemediationCommandView> {
    let sd_cmds = if sddl_differs(target, current) {
        sddl_commands_spec(id, target.sddl)
    } else {
        Seq::empty()
    };
    let rep = replace_entries(target.attributes, attrs_of(current));
    let rep_bin = replace_bin_entries(target.bin_attributes, bin_attrs_of(current));
    let clear = clear_names(attrs_of(current), target.attributes) + clear_bin_names(bin_attrs_of(current), target.bin_attributes);
    if rep.len() == 0 && rep_bin.len() == 0 && clear.len() == 0 {
        sd_cmds
    } else {
        sd_cmds + seq![cmd(
            CommandType::PowerShell,
            "Set-ADObject -Identity '"@ + id + "' -Replace "@ + ("@{"@ + replace_items(rep) + replace_bin_items(rep_bin) + "}"@),
            Some("Replace modified attributes"@),
            false,
        )] + (if clear.len() > 0 {
            seq![cmd(
                CommandType::PowerShell,
                "Set-ADObject -Identity '"@ + id + "' -Clear @("@ + join_spec(clear.map_values(|a: Seq<char>| quoted(a)), ","@) + ")"@,
                Some("Clear removed attributes"@),
                false,
            )]
        } else {
            Seq::empty()
        })
    }
}

/// Every byte string of the object is short enough to be written in base64.
pub open spec fn encodable(o: DirectoryObjectView) -> bool {
    &&& (o.sddl matches Some(b) ==> b.len() <= usize::MAX / 2)
    &&& forall|i: int, j: int| 0 <= i < o.bin_attributes.len() && 0 <= j < o.bin_attributes[i].1.len() ==> (#[trigger] o.bin_attributes[i].1[j]).len() <= usize::MAX / 2
}

/// The values of `c` for `name`, when they equal `vals`.
fn same_values_as(c: &Vec<(String, Vec<String>)>, name: &str, vals: &Vec<String>) -> (r: bool)
    ensures
        r == (lookup(c.deep_view(), name@) == Some(vals.deep_view())),
{
    match find_attr(c, name) {
        Some(i) => {
            assert(c.deep_view()[i as int].1 == c@[i as int].1.deep_view());
            strings_eq(&c[i].1, vals)
        },
        None => false,
    }
}

/// The binary values of `c` for `name`, when they equal `vals`.
fn same_bin_values_as(c: &Vec<(String, Vec<Vec<u8>>)>, name: &str, vals: &Vec<Vec<u8>>) -> (r: bool)
    ensures
        r == (lookup(c.deep_view(), name@) == Some(vals.deep_view())),
{
    match find_bin_attr(c, name) {
        Some(i) => {
            assert(c.deep_view()[i as int].1 == c@[i as int].1.deep_view());
            byte_strings_eq(&c[i].1, vals)
        },
        None => false,
    }
}

/// The text entries of `t` to write over `c`.
fn collect_replace(t: &Vec<(String, Vec<String>)>, c: &Vec<(String, Vec<String>)>) -> (r: Vec<(String, String)>)
    ensures
        r.deep_view() == replace_entries(t.deep_view(), c.deep_view()),
{
    let ghost tv = t.deep_view();
    let mut r: Vec<(String, String)> = Vec::new();
    for i in 0..t.len()
        invariant
            tv == t.deep_view(),
            r.deep_view() == replace_entries(tv.take(i as int), c.deep_view()),
    {
        assert(tv.take(i + 1).drop_last() =~= tv.take(i as int));
        assert(tv.take(i + 1).last() == tv[i as int]);
        assert(tv[i as int].0 == t@[i as int].0@ && tv[i as int].1 == t@[i as int].1.deep_view());
        if !same_values_as(c, t[i].0.as_str(), &t[i].1) {
            let joined = join(&t[i].1, ",");
            assert(t@[i as int].1@.map_values(|p: String| p@) =~= t@[i as int].1.deep_view());
            let ghost before = r.deep_view();
            r.push((t[i].0.clone(), joined));
            assert(r.deep_view() =~= before.push((tv[i as int].0, join_spec(tv[i as int].1, ","@))));
        }
    }
    assert(tv.take(t.len() as int) =~= tv);
    r
}

/// Base64 of each byte string of `vals`.
fn encode_all(vals: &Vec<Vec<u8>>) -> (r: Vec<String>)
    requires
        forall|j: int| 0 <= j < vals@.len() ==> (#[trigger] vals@[j])@.len() <= usize::MAX / 2,
    ensures
        r.deep_view() == base64_all(vals.deep_view()),
{
    let mut r: Vec<String> = Vec::new();
    for j in 0..vals.len()
        invariant
            forall|k: int| 0 <= k < vals@.len() ==> (#[trigger] vals@[k])@.len() <= usize::MAX / 2,
            r.deep_view() == base64_all(vals.deep_view().take(j as int)),
    {
        proof { lemma_bytes_deep_view(vals@[j as int]); }
        let e = base64_encode(vals[j].as_slice());
        let ghost before = r.deep_view();
        r.push(e);
        assert(r.deep_view() =~= before.push(e@));
        assert(vals.deep_view()[j as int] == vals@[j as int]@);
        assert(base64_all(vals.deep_view().take(j + 1)) =~= base64_all(vals.deep_view().take(j as int)).push(base64_standard(vals.deep_view()[j as int])));
    }
    assert(vals.deep_view().take(vals.len() as int) =~= vals.deep_view());
    r
}

/// The binary entries of `t` to write over `c`.
fn collect_replace_bin(t: &Vec<(String, Vec<Vec<u8>>)>, c: &Vec<(String, Vec<Vec<u8>>)>) -> (r: Vec<(String, Vec<String>)>)
    requires
        forall|i: int, j: int| 0 <= i < t@.len() && 0 <= j < t@[i].1@.len() ==> (#[trigger] t@[i].1@[j])@.len() <= usize::MAX / 2,
    ensures
        r.deep_view() == replace_bin_entries(t.deep_view(), c.deep_view()),
{
    let ghost tv = t.deep_view();
    let mut r: Vec<(String, Vec<String>)> = Vec::new();
    for i in 0..t.len()
        invariant
            tv == t.deep_view(),
            forall|i: int, j: int| 0 <= i < t@.len() && 0 <= j < t@[i].1@.len() ==> (#[trigger] t@[i].1@[j])@.len() <= usize::MAX / 2,
            r.deep_view() == replace_bin_entries(tv.take(i as int), c.deep_view()),
    {
        assert(tv.take(i + 1).drop_last() =~= tv.take(i as int));
        assert(tv.take(i + 1).last() == tv[i as int]);
        assert(tv[i as int].0 == t@[i as int].0@ && tv[i as int].1 == t@[i as int].1.deep_view());
        if !is_nt_security_descriptor_attr(t[i].0.as_str()) && !same_bin_values_as(c, t[i].0.as_str(), &t[i].1) {
            let enc = encode_all(&t[i].1);
            let ghost before = r.deep_view();
            r.push((t[i].0.clone(), enc));
            assert(r.deep_view() =~= before.push((tv[i as int].0, base64_all(tv[i as int].1))));
        }
    }
    assert(tv.take(t.len() as int) =~= tv);
    r
}

/// Whether `t` holds an entry named `name`.
fn holds_name(t: &Vec<(String, Vec<String>)>, name: &str) -> (r: bool)
    ensures
        r == has_key(t.deep_view(), name@),
{
    match find_attr(t, name) {
        Some(_) => true,
        None => false,
    }
}

/// Whether `t` holds a binary entry named `name`.
fn holds_bin_name(t: &Vec<(String, Vec<Vec<u8>>)>, name: &str) -> (r: bool)
    ensures
        r == has_key(t.deep_view(), name@),
{
    match find_bin_attr(t, name) {
        Some(_) => true,
        None => false,
    }
}

/// Names of the text attributes of `c` that `t` lacks, appended to `out`.
fn collect_clear(c: &Vec<(String, Vec<String>)>, t: &Vec<(String, Vec<String>)>, out: &mut Vec<String>)
    ensures
        final(out).deep_view() == old(out).deep_view() + clear_names(c.deep_view(), t.deep_view()),
{
    let ghost cv = c.deep_view();
    let ghost start = out.deep_view();
    for i in 0..c.len()
        invariant
            cv == c.deep_view(),
            out.deep_view() == start + clear_names(cv.take(i as int), t.deep_view()),
    {
        assert(cv.take(i + 1).drop_last() =~= cv.take(i as int));
        assert(cv.take(i + 1).last() == cv[i as int]);
        assert(cv[i as int].0 == c@[i as int].0@);
        if !holds_name(t, c[i].0.as_str()) {
            let ghost before = out.deep_view();
            out.push(c[i].0.clone());
            assert(out.deep_view() =~= before.push(cv[i as int].0));
        }
    }
    assert(cv.take(c.len() as int) =~= cv);
}

/// Names of the binary attributes of `c` (not the security descriptor) that `t` lacks,
/// appended to `out`.
fn collect_clear_bin(c: &Vec<(String, Vec<Vec<u8>>)>, t: &Vec<(String, Vec<Vec<u8>>)>, out: &mut Vec<String>)
    ensures
        final(out).deep_view() == old(out).deep_view() + clear_bin_names(c.deep_view(), t.deep_view()),
{
    let ghost cv = c.deep_view();
    let ghost start = out.deep_view();
    for i in 0..c.len()
        invariant
            cv == c.deep_view(),
            out.deep_view() == start + clear_bin_names(cv.take(i as int), t.deep_view()),
    {
        assert(cv.take(i + 1).drop_last() =~= cv.take(i as int));
        assert(cv.take(i + 1).last() == cv[i as int]);
        assert(cv[i as int].0 == c@[i as int].0@);
        if !is_nt_security_descriptor_attr(c[i].0.as_str()) && !holds_bin_name(t, c[i].0.as_str()) {
            let ghost before = out.deep_view();
            out.push(c[i].0.clone());
            assert(out.deep_view() =~= before.push(cv[i as int].0));
        }
    }
    assert(cv.take(c.len() as int) =~= cv);
}


/// The `'name'='values';` items of `rep`.
fn render_replace_items(rep: &Vec<(String, String)>) -> (r: String)
    ensures
        r@ == replace_items(rep.deep_view()),
{
    let ghost rv = rep.deep_view();
    let mut r = String::new();
    for i in 0..rep.len()
        invariant
            rv == rep.deep_view(),
            r@ == replace_items(rv.take(i as int)),
    {
        assert(rv.take(i + 1).drop_last() =~= rv.take(i as int));
        assert(rv.take(i + 1).last() == rv[i as int]);
        r.append("'");
        r.append(rep[i].0.as_str());
        r.append("'='");
        r.append(rep[i].1.as_str());
        r.append("';");
    }
    assert(rv.take(rep.len() as int) =~= rv);
    r
}

/// `[Convert]::FromBase64String('v')` for each text of `vals`, joined by commas.
fn render_base64_calls(vals: &Vec<String>) -> (r: String)
    ensures
        r@ == join_spec(vals.deep_view().map_values(|v: Seq<char>| from_base64_call(v)), ","@),
{
    let mut calls: Vec<String> = Vec::new();
    for j in 0..vals.len()
        invariant
            calls.deep_view() == vals.deep_view().take(j as int).map_values(|v: Seq<char>| from_base64_call(v)),
    {
        let c = cat3("[Convert]::FromBase64String('", vals[j].as_str(), "')");
        let ghost before = calls.deep_view();
        calls.push(c);
        assert(calls.deep_view() =~= before.push(c@));
        assert(vals.deep_view().take(j + 1).map_values(|v: Seq<char>| from_base64_call(v)) =~= vals.deep_view().take(j as int).map_values(|v: Seq<char>| from_base64_call(v)).push(c@));
    }
    assert(vals.deep_view().take(vals.len() as int) =~= vals.deep_view());
    assert(calls@.map_values(|p: String| p@) =~= calls.deep_view());
    join(&calls, ",")
}

/// The `'name'=@(...);` items of `rep`.
fn render_replace_bin_items(rep: &Vec<(String, Vec<String>)>) -> (r: String)
    ensures
        r@ == replace_bin_items(rep.deep_view()),
{
    let ghost rv = rep.deep_view();
    let mut r = String::new();
    for i in 0..rep.len()
        invariant
            rv == rep.deep_view(),
            r@ == replace_bin_items(rv.take(i as int)),
    {
        assert(rv.take(i + 1).drop_last() =~= rv.take(i as int));
        assert(rv.take(i + 1).last() == rv[i as int]);
        let calls = render_base64_calls(&rep[i].1);
        r.append("'");
        r.append(rep[i].0.as_str());
        r.append("'=@(");
        r.append(calls.as_str());
        r.append(");");
    }
    assert(rv.take(rep.len() as int) =~= rv);
    r
}

/// The quoted names of `names`, joined by commas.
fn render_clear_list(names: &Vec<String>) -> (r: String)
    ensures
        r@ == join_spec(names.deep_view().map_values(|a: Seq<char>| quoted(a)), ","@),
{
    let mut q: Vec<String> = Vec::new();
    for j in 0..names.len()
        invariant
            q.deep_view() == names.deep_view().take(j as int).map_values(|a: Seq<char>| quoted(a)),
    {
        let c = cat3("'", names[j].as_str(), "'");
        let ghost before = q.deep_view();
        q.push(c);
        assert(q.deep_view() =~= before.push(c@));
        assert(names.deep_view().take(j + 1).map_values(|a: Seq<char>| quoted(a)) =~= names.deep_view().take(j as int).map_values(|a: Seq<char>| quoted(a)).push(c@));
    }
    assert(names.deep_view().take(names.len() as int) =~= names.deep_view());
    assert(q@.map_values(|p: String| p@) =~= q.deep_view());
    join(&q, ",")
}

/// The commands that give the object `identity_dn` the security descriptor and attributes
/// of `target`, compared with `current` (all of them when there is no current object).
pub fn generate_restore_attribute_commands(
    target: &DirectoryObject,
    current: Option<&DirectoryObject>,
    identity_dn: &str,
) -> (r: Vec<RemediationCommand>)
    requires
        encodable(target.deep_view()),
    ensures
        cmd_views(r@) == restore_spec(
            target.deep_view(),
            match current { Some(c) => Some(c.deep_view()), None => None },
            identity_dn@,
        ),
{
    let ghost cur = match current { Some(c) => Some(c.deep_view()), None => None };
    let mut commands: Vec<RemediationCommand> = Vec::new();
    let write_sd = match &target.sddl {
        Some(sd) => {
            proof { lemma_bytes_deep_view(*sd); }
            sd.len() > 0 && match current {
                Some(c) => match &c.sddl {
                    Some(csd) => {
                        proof { lemma_bytes_deep_view(*csd); }
                        !bytes_eq(csd, sd)
                    },
                    None => true,
                },
                None => true,
            }
        },
        None => false,
    };
    if write_sd {
        match &target.sddl {
            Some(sd) => {
                proof { lemma_bytes_deep_view(*sd); }
                let sc = generate_sddl_commands(identity_dn, Some(sd.as_slice()));
                append_cmds(&mut commands, &sc);
            },
            None => {},
        }
    }
    let ghost sd_cmds = cmd_views(commands@);
    assert(sd_cmds == (if sddl_differs(target.deep_view(), cur) { sddl_commands_spec(identity_dn@, target.deep_view().sddl) } else { Seq::empty() }));
    let empty_attrs: Vec<(String, Vec<String>)> = Vec::new();
    let empty_bin: Vec<(String, Vec<Vec<u8>>)> = Vec::new();
    let c_attrs = match current { Some(c) => &c.attributes, None => &empty_attrs };
    let c_bin = match current { Some(c) => &c.bin_attributes, None => &empty_bin };
    assert(c_attrs.deep_view() == attrs_of(cur));
    assert(c_bin.deep_view() == bin_attrs_of(cur));
    let rep = collect_replace(&target.attributes, c_attrs);
    assert forall|i: int, j: int| 0 <= i < target.bin_attributes@.len() && 0 <= j < target.bin_attributes@[i].1@.len() implies (#[trigger] target.bin_attributes@[i].1@[j])@.len() <= usize::MAX / 2 by {
        assert(target.deep_view().bin_attributes[i].1[j] == target.bin_attributes@[i].1@[j].deep_view());
        lemma_bytes_deep_view(target.bin_attributes@[i].1@[j]);
    }
    let rep_bin = collect_replace_bin(&target.bin_attributes, c_bin);
    let mut clear: Vec<String> = Vec::new();
    collect_clear(c_attrs, &target.attributes, &mut clear);
    collect_clear_bin(c_bin, &target.bin_attributes, &mut clear);
    assert(clear.deep_view() =~= clear_names(attrs_of(cur), target.deep_view().attributes) + clear_bin_names(bin_attrs_of(cur), target.deep_view().bin_attributes));
    if rep.len() == 0 && rep_bin.len() == 0 && clear.len() == 0 {
        return commands;
    }
    let items = render_replace_items(&rep);
    let bin_items = render_replace_bin_items(&rep_bin);
    let mut replace_object = owned("@{");
    replace_object.append(items.as_str());
    replace_object.append(bin_items.as_str());
    replace_object.append("}");
    let mut set_cmd = cat3("Set-ADObject -Identity '", identity_dn, "' -Replace ");
    set_cmd.append(replace_object.as_str());
    push_cmd(&mut commands, mk_described(CommandType::PowerShell, set_cmd, "Replace modified attributes", false));
    if clear.len() > 0 {
        let list = render_clear_list(&clear);
        let mut clear_cmd = cat3("Set-ADObject -Identity '", identity_dn, "' -Clear @(");
        clear_cmd.append(list.as_str());
        clear_cmd.append(")");
        push_cmd(&mut commands, mk_described(CommandType::PowerShell, clear_cmd, "Clear removed attributes", false));
    }
    commands
}


/// The last class of `classes` that is not `top` (ASCII case aside).
pub open spec fn last_non_top(classes: Seq<Seq<char>>) -> Option<Seq<char>>
    decreases classes.len(),
{
    if classes.len() == 0 {
        None
    } else if !eq_ignore_ascii_case_spec(classes.last(), "top"@) {
        Some(classes.last())
    } else {
        last_non_top(classes.drop_last())
    }
}

/// The class to create an object as: its most specific class (the last that is not `top`),
/// else its first class, else nothing.
pub open spec fn create_class(classes: Seq<Seq<char>>) -> Seq<char> {
    match last_non_top(classes) {
        Some(c) => c,
        None => if classes.len() > 0 { classes[0] } else { Seq::empty() },
    }
}

/// The text of an optional text, or `default`.
pub open spec fn text_or(o: Option<Seq<char>>, default: Seq<char>) -> Seq<char> {
    match o {
        Some(t) => t,
        None => default,
    }
}

/// The commands that create the target of a creation: a comment, `New-ADObject` under the
/// parent DN, then the target's security descriptor and attributes.
pub open spec fn create_spec(a: RemediationActionView) -> Seq<RemediationCommandView> {
    match a.target {
        None => Seq::empty(),
        Some(rec) => seq![
            cmd(CommandType::Comment, "Create new object of class "@ + debug_text_list(rec.object_class) + " with attributes from baseline"@, None, true),
            RemediationCommandView {
                command_type: CommandType::PowerShell,
                command: "New-ADObject -Name '"@ + escape_dn_spec(text_or(rec.name, Seq::empty())) + "' -Type '"@
                    + escape_dn_spec(create_class(rec.object_class)) + "' -Path '"@ + escape_dn_spec(after_first_spec(rec.dn, ',')) + "'"@,
                description: Some("Create new object based on baseline"@),
                object_name: rec.name,
                is_comment: false,
            },
        ] + restore_spec(rec, None, rec.dn),
    }
}

/// The DN of an optional object, or the empty text.
pub open spec fn dn_of(o: Option<DirectoryObjectView>) -> Seq<char> {
    match o {
        Some(c) => c.dn,
        None => Seq::empty(),
    }
}

/// The object is a certificate template.
pub open spec fn is_template(c: DirectoryObjectView) -> bool {
    template_classes(c.object_class)
}

/// One of `classes` is `pkicertificatetemplate` (ASCII case aside).
pub open spec fn template_classes(classes: Seq<Seq<char>>) -> bool {
    exists|i: int| 0 <= i < classes.len() && eq_ignore_ascii_case_spec(#[trigger] classes[i], "pkicertificatetemplate"@)
}

/// The DN the object to delete has once moved to its last known parent.
pub open spec fn moved_dn(a: RemediationActionView) -> Seq<char> {
    match a.last_known_parent {
        Some(p) => match a.current {
            Some(c) => match c.name {
                Some(n) => "CN="@ + escape_dn_spec(n) + ","@ + p,
                None => dn_of(a.current),
            },
            None => dn_of(a.current),
        },
        None => dn_of(a.current),
    }
}

/// The commands before the deletion proper: with a known parent, move the object there and
/// give it the target's attributes; without one, a warning.
pub open spec fn delete_prelude(a: RemediationActionView) -> Seq<RemediationCommandView> {
    match a.last_known_parent {
        Some(p) => seq![
            cmd(CommandType::Comment, "Step 1: Move object to lastKnownParent before deletion"@, None, true),
            cmd(CommandType::PowerShell, "Move-ADObject -Identity '"@ + dn_of(a.current) + "' -TargetPath '"@ + p + "'"@, Some("Move object to lastKnownParent before deletion"@), false),
        ] + (if a.target is Some && a.current is Some {
            restore_spec(a.target->0, a.current, a.target->0.dn)
        } else {
            Seq::empty()
        }) + seq![cmd(CommandType::Comment, "Step 2: Delete the object"@, None, true)],
        None => seq![cmd(CommandType::Comment, "WARNING: lastKnownParent not found in baseline, deleting directly (object may not be recoverable if not moved first)"@, None, true)],
    }
}

/// The commands that delete the current object: a certificate template with no target goes
/// through the CA cmdlets, anything else through `Remove-ADObject`; then the recycle bin of
/// its naming context is emptied.
pub open spec fn delete_spec(a: RemediationActionView, ncs: Seq<Seq<char>>) -> Seq<RemediationCommandView> {
    delete_prelude(a) + match a.current {
        None => Seq::empty(),
        Some(c) => {
            let new_dn = moved_dn(a);
            let tn = escape_dn_spec(text_or(c.name, "unknown-template"@));
            let nc = text_or(naming_context_spec(c.dn, ncs), "unknown"@);
            (if is_template(c) && a.target is None {
                seq![
                    cmd(CommandType::Comment, "Object '"@ + tn + "' is a Certificate Template, using CA cmdlets to delete to avoid orphaned CN=Deleted Objects entry"@, None, true),
                    cmd(CommandType::PowerShell, "Get-CertificationAuthority | Get-CATemplate | Remove-CATemplate -Name '"@ + tn + "' | Set-CATemplate; Remove-ADObject -Identity '"@ + new_dn + "' -Recursive -Confirm:$false"@, Some("Delete the object"@), false),
                ]
            } else {
                seq![cmd(CommandType::PowerShell, "Remove-ADObject -Identity '"@ + new_dn + "' -Recursive -Confirm:$false"@, Some("Delete the object"@), false)]
            }) + seq![cmd(
                CommandType::PowerShell,
                "Get-ADObject -Filter 'isDeleted -eq $true' -IncludeDeletedObjects -SearchBase 'CN=Deleted Objects,"@ + nc + "' | Where-Object { $_.DistinguishedName -ne 'CN=Deleted Objects,"@ + nc + "' } |  Remove-ADObject -Recursive -Confirm:$false"@,
                Some("Clear the recycle bin of the deleted object"@),
                false,
            )]
        },
    }
}

/// The commands that reanimate a tombstone: move it back under its original parent when its
/// DN changed, then give it the target's security descriptor and attributes.
pub open spec fn reanimate_spec(a: RemediationActionView) -> Seq<RemediationCommandView> {
    match a.target {
        None => Seq::empty(),
        Some(t) => {
            let cur_dn = dn_of(a.current);
            (if t.dn.len() > 0 && !eq_ignore_ascii_case_spec(cur_dn, t.dn) {
                seq![cmd(
                    CommandType::PowerShell,
                    "Restore-ADObject -Identity '"@ + debug_text(cur_dn) + "' -TargetPath '"@ + debug_text(after_first_spec(t.dn, ',')) + "' -Confirm:$false"@,
                    Some("Move object back to original location"@),
                    false,
                )]
            } else {
                Seq::empty()
            }) + restore_spec(t, a.current, cur_dn)
        },
    }
}

/// The commands that bring a live object to its target state.
pub open spec fn modify_spec(a: RemediationActionView) -> Seq<RemediationCommandView> {
    match a.target {
        None => Seq::empty(),
        Some(t) => restore_spec(t, a.current, t.dn),
    }
}

/// The commands that carry out one action.
pub open spec fn action_commands_spec(a: RemediationActionView, ncs: Seq<Seq<char>>) -> Seq<RemediationCommandView> {
    match a.action {
        ActionType::Create => create_spec(a),
        ActionType::Reanimate => reanimate_spec(a),
        ActionType::Delete => delete_spec(a, ncs),
        ActionType::Modify => modify_spec(a),
    }
}

/// The byte strings of the action's target can be written in base64.
pub open spec fn action_encodable(a: RemediationActionView) -> bool {
    a.target matches Some(t) ==> encodable(t)
}

/// The most specific class of `classes` (see `create_class`).
fn class_to_create(classes: &Vec<String>) -> (r: String)
    ensures
        r@ == create_class(classes.deep_view()),
{
    let ghost cv = classes.deep_view();
    let mut i: usize = classes.len();
    assert(cv.take(i as int) =~= cv);
    while i > 0
        invariant
            cv == classes.deep_view(),
            i <= classes@.len(),
            last_non_top(cv) == last_non_top(cv.take(i as int)),
        decreases i,
    {
        assert(cv.take(i as int).drop_last() =~= cv.take(i - 1));
        assert(cv.take(i as int).last() == classes@[i - 1]@);
        if !eq_ignore_ascii_case(classes[i - 1].as_str(), "top") {
            return classes[i - 1].clone();
        }
        i = i - 1;
    }
    if classes.len() > 0 {
        classes[0].clone()
    } else {
        String::new()
    }
}

/// The commands that create the target of `action`.
pub fn generate_create_commands(action: RemediationAction) -> (r: Vec<RemediationCommand>)
    requires
        action_encodable(action.deep_view()),
    ensures
        cmd_views(r@) == create_spec(action.deep_view()),
{
    let record = match action.target {
        Some(rec) => rec,
        None => return Vec::new(),
    };
    let mut commands: Vec<RemediationCommand> = Vec::new();
    let classes = debug_format_text_list(&record.object_class);
    push_cmd(&mut commands, mk(CommandType::Comment, cat3("Create new object of class ", classes.as_str(), " with attributes from baseline"), None, true));
    let parent_dn = after_first(record.dn.as_str(), ',');
    let object_name = match &record.name {
        Some(n) => n.clone(),
        None => String::new(),
    };
    let object_class = class_to_create(&record.object_class);
    let mut create = cat3("New-ADObject -Name '", escape_dn_component(object_name.as_str()).as_str(), "' -Type '");
    create.append(escape_dn_component(object_class.as_str()).as_str());
    create.append("' -Path '");
    create.append(escape_dn_component(parent_dn.as_str()).as_str());
    create.append("'");
    push_cmd(&mut commands, RemediationCommand {
        command_type: CommandType::PowerShell,
        command: create,
        description: Some(owned("Create new object based on baseline")),
        object_name: copy_opt_string(&record.name),
        is_comment: false,
    });
    let attribute_commands = generate_restore_attribute_commands(&record, None, record.dn.as_str());
    append_cmds(&mut commands, &attribute_commands);
    commands
}

/// Whether one of `classes` is `pkicertificatetemplate` (ASCII case aside).
fn has_template_class(classes: &Vec<String>) -> (r: bool)
    ensures
        r == template_classes(classes.deep_view()),
{
    let ghost cv = classes.deep_view();
    for i in 0..classes.len()
        invariant
            cv == classes.deep_view(),
            forall|j: int| 0 <= j < i ==> !eq_ignore_ascii_case_spec(#[trigger] cv[j], "pkicertificatetemplate"@),
    {
        assert(cv[i as int] == classes@[i as int]@);
        if eq_ignore_ascii_case(classes[i].as_str(), "pkicertificatetemplate") {
            assert(eq_ignore_ascii_case_spec(cv[i as int], "pkicertificatetemplate"@));
            return true;
        }
    }
    false
}

/// The commands that delete the current object of `action`, moving it to its last known
/// parent first when that is known.
#[verifier::spinoff_prover]
pub fn generate_delete_commands(action: RemediationAction, naming_contexts: &LdapNamingContexts) -> (r: Vec<RemediationCommand>)
    requires
        action_encodable(action.deep_view()),
    ensures
        cmd_views(r@) == delete_spec(action.deep_view(), naming_contexts.naming_contexts.deep_view()),
{
    let ghost av = action.deep_view();
    let mut commands: Vec<RemediationCommand> = Vec::new();
    let target = &action.target;
    let current = &action.current;
    let current_dn = match current {
        Some(c) => c.dn.clone(),
        None => String::new(),
    };
    let mut new_dn = current_dn.clone();
    match &action.last_known_parent {
        Some(last_known_parent) => {
            push_cmd(&mut commands, mk(CommandType::Comment, owned("Step 1: Move object to lastKnownParent before deletion"), None, true));
            let mut mv = cat3("Move-ADObject -Identity '", current_dn.as_str(), "' -TargetPath '");
            mv.append(last_known_parent.as_str());
            mv.append("'");
            push_cmd(&mut commands, mk_described(CommandType::PowerShell, mv, "Move object to lastKnownParent before deletion", false));
            match current {
                Some(c) => match &c.name {
                    Some(name) => {
                        new_dn = cat3("CN=", escape_dn_component(name.as_str()).as_str(), ",");
                        new_dn.append(last_known_parent.as_str());
                    },
                    None => {},
                },
                None => {},
            }
            match (target, current) {
                (Some(t), Some(c)) => {
                    let restore = generate_restore_attribute_commands(t, Some(c), t.dn.as_str());
                    append_cmds(&mut commands, &restore);
                },
                _ => {},
            }
            push_cmd(&mut commands, mk(CommandType::Comment, owned("Step 2: Delete the object"), None, true));
        },
        None => {
            push_cmd(&mut commands, mk(CommandType::Comment, owned("WARNING: lastKnownParent not found in baseline, deleting directly (object may not be recoverable if not moved first)"), None, true));
        },
    }
    assert(cmd_views(commands@) == delete_prelude(av));
    assert(new_dn@ == moved_dn(av));
    let ghost pre = cmd_views(commands@);
    match current {
        Some(curr) => {
            assert(av.current == Some(curr.deep_view()));
            let is_t = has_template_class(&curr.object_class);
            assert(is_t == is_template(curr.deep_view()));
            if is_t && target.is_none() {
                let template_name = match &curr.name {
                    Some(n) => n.clone(),
                    None => owned("unknown-template"),
                };
                let tn = escape_dn_component(template_name.as_str());
                push_cmd(&mut commands, mk(CommandType::Comment, cat3("Object '", tn.as_str(), "' is a Certificate Template, using CA cmdlets to delete to avoid orphaned CN=Deleted Objects entry"), None, true));
                let mut del = cat3("Get-CertificationAuthority | Get-CATemplate | Remove-CATemplate -Name '", tn.as_str(), "' | Set-CATemplate; Remove-ADObject -Identity '");
                del.append(new_dn.as_str());
                del.append("' -Recursive -Confirm:$false");
                push_cmd(&mut commands, mk_described(CommandType::PowerShell, del, "Delete the object", false));
            } else {
                let del = cat3("Remove-ADObject -Identity '", new_dn.as_str(), "' -Recursive -Confirm:$false");
                push_cmd(&mut commands, mk_described(CommandType::PowerShell, del, "Delete the object", false));
            }
            let naming_context = match extract_naming_context(curr.dn.as_str(), naming_contexts) {
                Some(nc) => nc,
                None => owned("unknown"),
            };
            let mut bin = cat3("Get-ADObject -Filter 'isDeleted -eq $true' -IncludeDeletedObjects -SearchBase 'CN=Deleted Objects,", naming_context.as_str(), "' | Where-Object { $_.DistinguishedName -ne 'CN=Deleted Objects,");
            bin.append(naming_context.as_str());
            bin.append("' } |  Remove-ADObject -Recursive -Confirm:$false");
            assert(naming_context@ == text_or(naming_context_spec(curr.deep_view().dn, naming_contexts.naming_contexts.deep_view()), "unknown"@));
            push_cmd(&mut commands, mk_described(CommandType::PowerShell, bin, "Clear the recycle bin of the deleted object", false));
        },
        None => {
            assert(cmd_views(commands@) =~= pre + Seq::<RemediationCommandView>::empty());
        },
    }
    assert(cmd_views(commands@) =~= delete_spec(av, naming_contexts.naming_contexts.deep_view()));
    commands
}

/// The commands that reanimate the tombstone of `action`.
pub fn generate_reanimate_commands(action: RemediationAction) -> (r: Vec<RemediationCommand>)
    requires
        action_encodable(action.deep_view()),
    ensures
        cmd_views(r@) == reanimate_spec(action.deep_view()),
{
    let ghost av = action.deep_view();
    let mut commands: Vec<RemediationCommand> = Vec::new();
    let target = match &action.target {
        Some(t) => t,
        None => return commands,
    };
    let current_dn = match &action.current {
        Some(c) => c.dn.clone(),
        None => String::new(),
    };
    if !target.dn.as_str().is_empty() && !eq_ignore_ascii_case(current_dn.as_str(), target.dn.as_str()) {
        let parent_ou = after_first(target.dn.as_str(), ',');
        let mut rs = cat3("Restore-ADObject -Identity '", debug_format_text(current_dn.as_str()).as_str(), "' -TargetPath '");
        rs.append(debug_format_text(parent_ou.as_str()).as_str());
        rs.append("' -Confirm:$false");
        push_cmd(&mut commands, mk_described(CommandType::PowerShell, rs, "Move object back to original location", false));
    }
    let current = match &action.current {
        Some(c) => Some(c),
        None => None,
    };
    let attribute_commands = generate_restore_attribute_commands(target, current, current_dn.as_str());
    append_cmds(&mut commands, &attribute_commands);
    assert(cmd_views(commands@) =~= reanimate_spec(av));
    commands
}

/// The commands that bring the live object of `action` to its target state.
pub fn generate_modify_commands(action: RemediationAction) -> (r: Vec<RemediationCommand>)
    requires
        action_encodable(action.deep_view()),
    ensures
        cmd_views(r@) == modify_spec(action.deep_view()),
{
    let target = match &action.target {
        Some(t) => t,
        None => return Vec::new(),
    };
    let current = match &action.current {
        Some(c) => Some(c),
        None => None,
    };
    generate_restore_attribute_commands(target, current, target.dn.as_str())
}

/// The commands that carry out `action`.
pub fn generate_commands_for_action(action: RemediationAction, naming_contexts: &LdapNamingContexts) -> (r: Vec<RemediationCommand>)
    requires
        action_encodable(action.deep_view()),
    ensures
        cmd_views(r@) == action_commands_spec(action.deep_view(), naming_contexts.naming_contexts.deep_view()),
{
    match action.action {
        ActionType::Create => generate_create_commands(action),
        ActionType::Reanimate => generate_reanimate_commands(action),
        ActionType::Delete => generate_delete_commands(action, naming_contexts),
        ActionType::Modify => generate_modify_commands(action),
    }
}

/// The commands of every action of `groups`, group after group, in order.
pub open spec fn all_commands_spec(groups: Seq<Seq<RemediationActionView>>, ncs: Seq<Seq<char>>) -> Seq<RemediationCommandView>
    decreases groups.len(),
{
    if groups.len() == 0 {
        Seq::empty()
    } else {
        all_commands_spec(groups.drop_last(), ncs) + group_commands_spec(groups.last(), ncs)
    }
}

/// The commands of the actions of one group, in order.
pub open spec fn group_commands_spec(acts: Seq<RemediationActionView>, ncs: Seq<Seq<char>>) -> Seq<RemediationCommandView>
    decreases acts.len(),
{
    if acts.len() == 0 {
        Seq::empty()
    } else {
        group_commands_spec(acts.drop_last(), ncs) + action_commands_spec(acts.last(), ncs)
    }
}

/// The action groups of a comparison result.
pub open spec fn action_groups(entries: Seq<(String, Vec<RemediationAction>)>) -> Seq<Seq<RemediationActionView>> {
    entries.map_values(|e: (String, Vec<RemediationAction>)| e.1@.map_values(|a: RemediationAction| a.deep_view()))
}

/// Every action of every group can be written out.
pub open spec fn groups_encodable(groups: Seq<Seq<RemediationActionView>>) -> bool {
    forall|i: int, j: int| 0 <= i < groups.len() && 0 <= j < groups[i].len() ==> action_encodable(#[trigger] groups[i][j])
}

/// The commands for one group of actions.
fn group_commands(acts: &Vec<RemediationAction>, naming_contexts: &LdapNamingContexts) -> (r: Vec<RemediationCommand>)
    requires
        forall|j: int| 0 <= j < acts@.len() ==> action_encodable(#[trigger] acts@[j].deep_view()),
    ensures
        cmd_views(r@) == group_commands_spec(acts@.map_values(|a: RemediationAction| a.deep_view()), naming_contexts.naming_contexts.deep_view()),
{
    let ghost av = acts@.map_values(|a: RemediationAction| a.deep_view());
    let ghost ncs = naming_contexts.naming_contexts.deep_view();
    let mut r: Vec<RemediationCommand> = Vec::new();
    for j in 0..acts.len()
        invariant
            av == acts@.map_values(|a: RemediationAction| a.deep_view()),
            ncs == naming_contexts.naming_contexts.deep_view(),
            forall|j: int| 0 <= j < acts@.len() ==> action_encodable(#[trigger] acts@[j].deep_view()),
            cmd_views(r@) == group_commands_spec(av.take(j as int), ncs),
    {
        assert(av.take(j + 1).drop_last() =~= av.take(j as int));
        assert(av.take(j + 1).last() == acts@[j as int].deep_view());
        let a = acts[j].copy();
        let cs = generate_commands_for_action(a, naming_contexts);
        append_cmds(&mut r, &cs);
    }
    assert(av.take(acts.len() as int) =~= av);
    r
}

/// The commands for all the actions of a comparison result, group after group.
pub fn generate_commands(actions: Vec<(String, Vec<RemediationAction>)>, naming_contexts: &LdapNamingContexts) -> (r: Vec<RemediationCommand>)
    requires
        groups_encodable(action_groups(actions@)),
    ensures
        cmd_views(r@) == all_commands_spec(action_groups(actions@), naming_contexts.naming_contexts.deep_view()),
{
    let ghost g = action_groups(actions@);
    let ghost ncs = naming_contexts.naming_contexts.deep_view();
    let mut commands: Vec<RemediationCommand> = Vec::new();
    for i in 0..actions.len()
        invariant
            g == action_groups(actions@),
            ncs == naming_contexts.naming_contexts.deep_view(),
            groups_encodable(g),
            cmd_views(commands@) == all_commands_spec(g.take(i as int), ncs),
    {
        assert(g.take(i + 1).drop_last() =~= g.take(i as int));
        assert(g.take(i + 1).last() == g[i as int]);
        assert(forall|j: int| 0 <= j < actions@[i as int].1@.len() ==> action_encodable(#[trigger] actions@[i as int].1@[j].deep_view())) by {
            assert forall|j: int| 0 <= j < actions@[i as int].1@.len() implies action_encodable(#[trigger] actions@[i as int].1@[j].deep_view()) by {
                assert(g[i as int][j] == actions@[i as int].1@[j].deep_view());
            }
        }
        let cs = group_commands(&actions[i].1, naming_contexts);
        append_cmds(&mut commands, &cs);
    }
    assert(g.take(actions.len() as int) =~= g);
    commands
}

} // verus!
