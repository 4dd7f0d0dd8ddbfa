//! Where the application keeps its files, and the list of identities.
//!
//! Paths are held as bytes, as Unix paths are; `path_join` is `PathBuf::join`
//! on Unix.

use vstd::prelude::*;
use vstd::utf8::{decode_utf8, encode_scalar, encode_utf8, valid_utf8};
use crate::clock::unix_time;
use crate::text::{
    ascii_lower, is_ascii_text, chars_of, lit, starts_with, string_of, text_le, text_le_of,
};

verus! {

broadcast use vstd::string::group_string_axioms;

/// `PathBuf::join` on Unix, on the bytes of paths: an absolute part (one
/// that starts with `/`) replaces the base; otherwise the part follows the
/// base, with a `/` between them unless the base is empty or already ends
/// with one.
pub open spec fn path_join(base: Seq<u8>, part: Seq<u8>) -> Seq<u8> {
    if part.len() > 0 && part[0] == 47u8 {
        part
    } else if base.len() > 0 && base.last() != 47u8 {
        base + seq![47u8] + part
    } else {
        base + part
    }
}

/// The bytes of a text.
pub fn bytes_of(s: &str) -> (r: Vec<u8>)
    ensures
        r@ == encode_utf8(s@),
{
    let b = s.as_bytes();
    let mut r: Vec<u8> = Vec::new();
    let mut i: usize = 0;
    while i < b.len()
        invariant
            i <= b.len(),
            b@ == encode_utf8(s@),
            r@ == b@.take(i as int),
        decreases b.len() - i,
    {
        r.push(b[i]);
        assert(b@.take(i + 1) =~= b@.take(i as int).push(b@[i as int]));
        i = i + 1;
    }
    assert(b@.take(b.len() as int) =~= b@);
    r
}

/// `base.join(part)` for paths held as bytes.
pub fn join_path(base: &[u8], part: &[u8]) -> (r: Vec<u8>)
    ensures
        r@ == path_join(base@, part@),
{
    let mut r: Vec<u8> = Vec::new();
    if part.len() > 0 && part[0] == 47u8 {
        push_bytes(&mut r, part);
    } else {
        push_bytes(&mut r, base);
        if base.len() > 0 && base[base.len() - 1] != 47u8 {
            r.push(47u8);
        }
        push_bytes(&mut r, part);
    }
    assert(r@ =~= path_join(base@, part@));
    r
}

fn push_bytes(r: &mut Vec<u8>, b: &[u8])
    ensures
        final(r)@ == old(r)@ + b@,
{
    let mut i: usize = 0;
    while i < b.len()
        invariant
            i <= b.len(),
            r@ == old(r)@ + b@.take(i as int),
        decreases b.len() - i,
    {
        r.push(b[i]);
        assert(b@.take(i + 1) =~= b@.take(i as int).push(b@[i as int]));
        i = i + 1;
    }
    assert(b@.take(b.len() as int) =~= b@);
}

/// The application's data directory under a home directory (`.` when there
/// is none).
pub open spec fn app_dir_from(home: Option<Seq<u8>>) -> Seq<u8> {
    let base = match home {
        Some(h) => h,
        None => seq![46u8],
    };
    path_join(base, encode_utf8("Library/Application Support/zonekeeper"@))
}

pub open spec fn identity_path(app: Seq<u8>, identity: Seq<char>) -> Seq<u8> {
    path_join(path_join(app, encode_utf8("identities"@)), encode_utf8(identity))
}

pub open spec fn zones_path(app: Seq<u8>, identity: Seq<char>) -> Seq<u8> {
    path_join(identity_path(app, identity), encode_utf8("zones"@))
}

pub open spec fn config_file_path(app: Seq<u8>, identity: Seq<char>) -> Seq<u8> {
    path_join(identity_path(app, identity), encode_utf8("config.json"@))
}

pub open spec fn app_config_file_path(app: Seq<u8>) -> Seq<u8> {
    path_join(app, encode_utf8("app_config.json"@))
}

/// `dirs::home_dir()`, as the bytes of the path (`OsString::into_encoded_bytes`,
/// which on Unix are the path's bytes, whatever they are). What it returns
/// depends on the environment and is not stated; only that a home directory
/// it returns is not empty, as its source shows (an empty `HOME` and an empty
/// password-entry directory are skipped).
#[verifier::external_body]
fn home_dir() -> (r: Option<Vec<u8>>)
    ensures
        r matches Some(h) ==> h@.len() > 0,
{
    dirs::home_dir().map(|p| p.into_os_string().into_encoded_bytes())
}

pub open spec fn opt_bytes(o: Option<Vec<u8>>) -> Option<Seq<u8>> {
    match o {
        Some(b) => Some(b@),
        None => None,
    }
}

/// The application's data directory for a given home directory.
pub fn app_dir_at(home: Option<Vec<u8>>) -> (r: Vec<u8>)
    ensures
        r@ == app_dir_from(opt_bytes(home)),
{
    let base: Vec<u8> = match home {
        Some(h) => h,
        None => vec![46u8],
    };
    join_path(&base, &bytes_of("Library/Application Support/zonekeeper"))
}

pub open spec fn opt_view(o: Option<String>) -> Option<Seq<char>> {
    match o {
        Some(s) => Some(s@),
        None => None,
    }
}

/// The application's data directory under the user's home directory (under
/// `.` when there is none).
pub fn app_dir() -> (r: Vec<u8>)
    ensures
        exists|home: Option<Seq<u8>>| r@ == app_dir_from(home),
{
    app_dir_at(home_dir())
}

/// The directory of an identity under a given data directory.
pub fn identity_dir_in(app: &[u8], identity: &str) -> (r: Vec<u8>)
    ensures
        r@ == identity_path(app@, identity@),
{
    let ids = join_path(app, &bytes_of("identities"));
    join_path(&ids, &bytes_of(identity))
}

/// The directory of an identity.
pub fn identity_dir(identity: &str) -> (r: Vec<u8>)
    ensures
        exists|home: Option<Seq<u8>>| r@ == identity_path(app_dir_from(home), identity@),
{
    let app = app_dir();
    identity_dir_in(&app, identity)
}

/// The zone directory of an identity under a given data directory.
pub fn zones_dir_in(app: &[u8], identity: &str) -> (r: Vec<u8>)
    ensures
        r@ == zones_path(app@, identity@),
{
    let dir = identity_dir_in(app, identity);
    join_path(&dir, &bytes_of("zones"))
}

/// The zone directory of an identity (the directory is not created here).
pub fn zones_dir(identity: &str) -> (r: Vec<u8>)
    ensures
        exists|home: Option<Seq<u8>>| r@ == zones_path(app_dir_from(home), identity@),
{
    let app = app_dir();
    zones_dir_in(&app, identity)
}

/// The configuration file of an identity under a given data directory.
pub fn config_path_in(app: &[u8], identity: &str) -> (r: Vec<u8>)
    ensures
        r@ == config_file_path(app@, identity@),
{
    let dir = identity_dir_in(app, identity);
    join_path(&dir, &bytes_of("config.json"))
}

/// The configuration file of an identity.
pub fn config_path(identity: &str) -> (r: Vec<u8>)
    ensures
        exists|home: Option<Seq<u8>>| r@ == config_file_path(app_dir_from(home), identity@),
{
    let app = app_dir();
    config_path_in(&app, identity)
}

/// The application-wide configuration file.
pub fn app_config_path() -> (r: Vec<u8>)
    ensures
        exists|home: Option<Seq<u8>>| r@ == app_config_file_path(app_dir_from(home)),
{
    let app = app_dir();
    join_path(&app, &bytes_of("app_config.json"))
}

/// Whether a path lies under a directory: the directory's bytes start it.
pub open spec fn lies_under(p: Seq<u8>, dir: Seq<u8>) -> bool {
    dir.len() <= p.len() && p.take(dir.len() as int) == dir
}

/// A relative part of a path (one that does not start with `/`) joined to a
/// base lies under that base.
pub proof fn lemma_join_under(base: Seq<u8>, part: Seq<u8>)
    requires
        part.len() == 0 || part[0] != 47u8,
    ensures
        lies_under(path_join(base, part), base),
{
    assert(path_join(base, part).take(base.len() as int) =~= base);
}

/// The bytes of a text that does not start with `/` do not start with `/`
/// either.
pub proof fn lemma_relative_text(s: Seq<char>)
    requires
        s.len() > 0,
        s[0] != '/',
    ensures
        encode_utf8(s).len() > 0,
        encode_utf8(s)[0] != 47u8,
{
    let c = s[0];
    let u = c as u32;
    vstd::utf8::char_u32_cast(c, u);
    if u == 47 {
        assert(47u32 as char == '/');
    }
    assert(u != 47);
    assert(encode_utf8(s) =~= encode_scalar(u) + encode_utf8(s.drop_first()));
    let b0 = 0xC0u8 | ((u >> 6u32) & 0x1Fu32) as u8;
    let b1 = 0xE0u8 | ((u >> 12u32) & 0x0Fu32) as u8;
    let b2 = 0xF0u8 | ((u >> 18u32) & 0x7u32) as u8;
    assert(u <= 0x7F ==> (u & 0x7Fu32) as u8 != 47u8) by (bit_vector)
        requires
            u != 47,
    ;
    assert(b0 != 47u8 && b1 != 47u8 && b2 != 47u8) by (bit_vector)
        requires
            b0 == 0xC0u8 | ((u >> 6u32) & 0x1Fu32) as u8,
            b1 == 0xE0u8 | ((u >> 12u32) & 0x0Fu32) as u8,
            b2 == 0xF0u8 | ((u >> 18u32) & 0x7u32) as u8,
    ;
}

/// What `String::from_utf8_lossy` makes of bytes: the text they encode, with
/// each invalid sequence replaced by U+FFFD.
pub uninterp spec fn lossy_text(b: Seq<u8>) -> Seq<char>;

/// The text of a path as `Path::to_string_lossy` gives it on Unix: the text
/// that valid UTF-8 encodes, else `lossy_text`.
pub open spec fn path_text(p: Seq<u8>) -> Seq<char> {
    if valid_utf8(p) {
        decode_utf8(p)
    } else {
        lossy_text(p)
    }
}

/// `String::from_utf8_lossy(bytes).into_owned()`: for valid UTF-8 the text
/// it encodes, as the function's documentation says; otherwise only the name
/// `lossy_text` is stated.
#[verifier::external_body]
pub(crate) fn path_text_of(p: &[u8]) -> (r: String)
    ensures
        r@ == lossy_text(p@),
        valid_utf8(p@) ==> r@ == decode_utf8(p@),
{
    String::from_utf8_lossy(p).into_owned()
}

/// Every file of an identity lies inside the identity's directory, whatever
/// the data directory: its zone directory and its configuration file.
pub proof fn law_identity_files_inside(app: Seq<u8>, identity: Seq<char>)
    ensures
        lies_under(zones_path(app, identity), identity_path(app, identity)),
        lies_under(config_file_path(app, identity), identity_path(app, identity)),
{
    reveal_strlit("zones");
    reveal_strlit("config.json");
    assert("zones"@[0] == 'z' && "config.json"@[0] == 'c');
    lemma_relative_text("zones"@);
    lemma_relative_text("config.json"@);
    lemma_join_under(identity_path(app, identity), encode_utf8("zones"@));
    lemma_join_under(identity_path(app, identity), encode_utf8("config.json"@));
}


// ---------------------------------------------------------------------------
// Identities
// ---------------------------------------------------------------------------

/// A server identity: its directory name and its display name.
pub struct IdentityInfo {
    pub id: String,
    pub name: String,
}

/// A hexadecimal digit of either case.
pub open spec fn is_hex_char(c: char) -> bool {
    ('0' <= c && c <= '9') || ('a' <= c && c <= 'f') || ('A' <= c && c <= 'F')
}

/// The hyphenated form of a UUID: 36 characters, hyphens at 8, 13, 18 and
/// 23, hexadecimal digits everywhere else.
pub open spec fn hyphenated_form(h: Seq<char>) -> bool {
    h.len() == 36 && forall|i: int|
        0 <= i < 36 ==> if i == 8 || i == 13 || i == 18 || i == 23 {
            #[trigger] h[i] == '-'
        } else {
            is_hex_char(h[i])
        }
}

/// The texts that `uuid::Uuid::parse_str` accepts: ASCII text that is 32
/// hexadecimal digits, the hyphenated form, the hyphenated form in braces,
/// or the hyphenated form behind a `urn:uuid:` prefix of any case.
pub open spec fn uuid_accepts(s: Seq<char>) -> bool {
    is_ascii_text(s) && ({
        ||| s.len() == 32 && forall|i: int| 0 <= i < 32 ==> is_hex_char(#[trigger] s[i])
        ||| hyphenated_form(s)
        ||| s.len() == 38 && s[0] == '{' && s[37] == '}' && hyphenated_form(s.subrange(1, 37))
        ||| s.len() == 45 && s.take(9).map_values(|c: char| ascii_lower(c)) == "urn:uuid:"@
            && hyphenated_form(s.skip(9))
    })
}

/// `uuid::Uuid::parse_str(s).is_ok()`: whether the text is a UUID in one of
/// the forms that the crate reads (see `uuid_accepts`).
#[verifier::external_body]
fn parses_as_uuid(s: &str) -> (r: bool)
    ensures
        r == uuid_accepts(s@),
{
    uuid::Uuid::parse_str(s).is_ok()
}

/// The counter state with which `uuid` orders the version 7 UUIDs that one
/// process makes.
#[verifier::external_type_specification]
#[verifier::external_body]
pub struct ExContextV7(uuid::ContextV7);

/// `Uuid::new_v7(Timestamp::from_unix(context, secs, nanos)).to_string()`:
/// the version 7 UUID of a Unix time, whose counter and random bits come from
/// `context` (so that the UUIDs made with one context are ordered by when
/// they were made, as with `Uuid::now_v7`), in hyphenated lower-case form.
/// Its value depends on the context's state and on chance and is not stated;
/// only its form is. Like `Uuid::now_v7`, the call draws random bits from the
/// operating system and panics if that source fails, which nothing the
/// library passes can cause.
#[verifier::external_body]
fn uuid_v7_at(context: &uuid::ContextV7, secs: u64, nanos: u32) -> (r: String)
    ensures
        hyphenated_form(r@),
        r@[14] == '7',
        forall|i: int| 0 <= i < r@.len() ==> !('A' <= #[trigger] r@[i] && r@[i] <= 'Z'),
{
    uuid::Uuid::new_v7(uuid::Timestamp::from_unix(context, secs, nanos)).to_string()
}

/// A UUID in hyphenated form is read back by `Uuid::parse_str`.
pub proof fn lemma_hyphenated_accepted(s: Seq<char>)
    requires
        hyphenated_form(s),
    ensures
        uuid_accepts(s),
{
    assert forall|i: int| 0 <= i < s.len() implies #[trigger] s[i] <= '\u{7f}' by {
        if !(i == 8 || i == 13 || i == 18 || i == 23) {
            assert(is_hex_char(s[i]));
        }
    }
}

/// A new identity with the given display name and, as its id, a version 7
/// UUID of the current time made with `context` (its directory is not
/// created here). A clock that reads before 1970 counts as time 0.
pub fn create_identity(name: &str, context: &uuid::ContextV7) -> (r: IdentityInfo)
    ensures
        r.name@ == name@,
        uuid_accepts(r.id@),
        hyphenated_form(r.id@),
        r.id@[14] == '7',
{
    let (secs, nanos) = match unix_time() {
        Some(t) => t,
        None => (0, 0),
    };
    let id = uuid_v7_at(context, secs, nanos);
    proof {
        lemma_hyphenated_accepted(id@);
    }
    IdentityInfo { id, name: string_of(&chars_of(name)) }
}

/// Identity directories whose name is not a UUID are moved to a fresh UUID
/// name by the migration of the data directory.
pub open spec fn migrates(dir_name: Seq<char>) -> bool {
    !uuid_accepts(dir_name)
}

/// Whether an identity directory must be moved to a fresh UUID name.
pub fn needs_uuid_name(dir_name: &str) -> (r: bool)
    ensures
        r == migrates(dir_name@),
{
    !parses_as_uuid(dir_name)
}

/// Identities made by `create_identity` are never moved by the migration of
/// directory names.
pub proof fn law_created_identities_stay(name: Seq<char>, created: IdentityInfo)
    requires
        created.name@ == name,
        uuid_accepts(created.id@),
    ensures
        !migrates(created.id@),
{
}

/// Whether a file in the data directory is a per-port runtime file of the old
/// layout (a Corefile or a pid file).
pub open spec fn is_legacy_runtime_file(name: Seq<char>) -> bool {
    starts_with(name, "Corefile."@) || starts_with(name, "coredns."@)
}

pub fn legacy_runtime_file(name: &str) -> (r: bool)
    ensures
        r == is_legacy_runtime_file(name@),
{
    let n = chars_of(name);
    crate::text::has_prefix(&n, &lit("Corefile.")) || crate::text::has_prefix(&n, &lit("coredns."))
}

/// One step of moving the data directory's old single-server layout into the
/// `identities/default` directory.
#[derive(Clone, Copy, Debug, PartialEq, Eq, Structural)]
pub enum MigrationStep {
    /// Make the directory `identities/default`.
    MakeDefaultDir,
    /// Move the old `zones` directory to `identities/default/zones`.
    MoveZones,
    /// Move the old `config.json` to `identities/default/config.json`.
    MoveConfig,
    /// Remove the old layout's runtime files (see `is_legacy_runtime_file`).
    RemoveRuntimeFiles,
}

/// The steps of the move for what exists: nothing when neither the old
/// `zones` nor the old `config.json` exists; else the default directory is
/// made, each old item is moved where the default directory has none yet,
/// and the runtime files are removed.
pub open spec fn migration_steps(
    old_zones: bool,
    old_config: bool,
    default_zones: bool,
    default_config: bool,
) -> Seq<MigrationStep> {
    if old_zones || old_config {
        seq![MigrationStep::MakeDefaultDir] + (if old_zones && !default_zones {
            seq![MigrationStep::MoveZones]
        } else {
            seq![]
        }) + (if old_config && !default_config {
            seq![MigrationStep::MoveConfig]
        } else {
            seq![]
        }) + seq![MigrationStep::RemoveRuntimeFiles]
    } else {
        seq![]
    }
}

/// The steps that move the old layout, given whether the old `zones` and
/// `config.json` exist and whether `identities/default` already holds them.
pub fn legacy_migration(
    old_zones: bool,
    old_config: bool,
    default_zones: bool,
    default_config: bool,
) -> (r: Vec<MigrationStep>)
    ensures
        r@ == migration_steps(old_zones, old_config, default_zones, default_config),
{
    let mut steps: Vec<MigrationStep> = Vec::new();
    if old_zones || old_config {
        steps.push(MigrationStep::MakeDefaultDir);
        if old_zones && !default_zones {
            steps.push(MigrationStep::MoveZones);
        }
        if old_config && !default_config {
            steps.push(MigrationStep::MoveConfig);
        }
        steps.push(MigrationStep::RemoveRuntimeFiles);
    }
    assert(steps@ =~= migration_steps(old_zones, old_config, default_zones, default_config));
    steps
}

/// What `name` in a JSON text holds when the text is a JSON value whose
/// `name` field is a string.
pub uninterp spec fn json_name_field(text: Seq<char>) -> Option<Seq<char>>;

/// `serde_json::from_str::<Value>(text)` and then `value["name"].as_str()`:
/// the string in the `name` field of a JSON text, if the text parses and the
/// field is a string. Only the name `json_name_field` is stated.
#[verifier::external_body]
fn config_name_field(text: &str) -> (r: Option<String>)
    ensures
        opt_view(r) == json_name_field(text@),
{
    match serde_json::from_str::<serde_json::Value>(text) {
        Ok(v) => match v["name"].as_str() {
            Some(s) => Some(s.to_string()),
            None => None,
        },
        Err(_) => None,
    }
}

/// The display name of an identity: the non-empty `name` of its configuration
/// JSON, else its id.
pub open spec fn identity_name(id: Seq<char>, config: Option<Seq<char>>) -> Seq<char> {
    match config {
        Some(text) => match json_name_field(text) {
            Some(n) => if n.len() > 0 {
                n
            } else {
                id
            },
            None => id,
        },
        None => id,
    }
}

/// The display name of an identity with the given configuration text, if it
/// has one.
pub fn identity_display_name(id: &str, config: Option<String>) -> (r: String)
    ensures
        r@ == identity_name(id@, opt_view(config)),
{
    match config {
        Some(text) => match config_name_field(text.as_str()) {
            Some(n) => if n.as_str().is_empty() {
                string_of(&chars_of(id))
            } else {
                n
            },
            None => string_of(&chars_of(id)),
        },
        None => string_of(&chars_of(id)),
    }
}

/// Whether a text is JSON whose `name` can be set: `Some(true)` for an
/// object or `null`, `Some(false)` for any other JSON value, `None` when it
/// does not parse.
pub uninterp spec fn json_nameable(text: Seq<char>) -> Option<bool>;

/// The JSON text, pretty-printed, with its `name` set to the given string.
pub uninterp spec fn json_with_name(text: Seq<char>, name: Seq<char>) -> Option<Seq<char>>;

/// `serde_json::from_str::<Value>(text)`, told apart by the kind of value:
/// an object or `null` (whose `name` can be set), another value, or a parse
/// error. `{}` parses as an object. Only the name `json_nameable` is stated
/// otherwise.
#[verifier::external_body]
fn nameable_json(text: &str) -> (r: Option<bool>)
    ensures
        r == json_nameable(text@),
        text@ == "{}"@ ==> r == Some(true),
{
    match serde_json::from_str::<serde_json::Value>(text) {
        Ok(serde_json::Value::Object(_)) | Ok(serde_json::Value::Null) => Some(true),
        Ok(_) => Some(false),
        Err(_) => None,
    }
}

/// `value["name"] = Value::String(name)` on the parsed text, then
/// `serde_json::to_string_pretty`; for an object or `null` the assignment
/// does not panic. Only the name `json_with_name` is stated.
#[verifier::external_body]
fn json_set_name(text: &str, name: &str) -> (r: Option<String>)
    requires
        json_nameable(text@) == Some(true),
    ensures
        opt_view(r) == json_with_name(text@, name@),
{
    let mut value: serde_json::Value = serde_json::from_str(text).unwrap_or_default();
    value["name"] = serde_json::Value::String(name.to_string());
    serde_json::to_string_pretty(&value).ok()
}

/// The configuration text that a renamed identity directory gets: its old
/// configuration where that parses as JSON, else an empty object.
pub open spec fn rename_source(config: Option<Seq<char>>) -> Seq<char> {
    match config {
        Some(t) => if json_nameable(t) is Some {
            t
        } else {
            "{}"@
        },
        None => "{}"@,
    }
}

/// Whether setting the name of a configuration text fails: it is JSON, but
/// neither an object nor `null`.
pub open spec fn rename_refused(config: Option<Seq<char>>) -> bool {
    match config {
        Some(t) => json_nameable(t) == Some(false),
        None => false,
    }
}

/// The configuration with its `name` set, pretty-printed (see
/// `rename_source`); `None` when it could not be written out.
pub fn config_with_name(config: Option<String>, name: &str) -> (r: Option<String>)
    requires
        !rename_refused(opt_view(config)),
    ensures
        opt_view(r) == json_with_name(rename_source(opt_view(config)), name@),
{
    let empty = "{}";
    let empty_ok = nameable_json(empty);
    assert(empty_ok == Some(true));
    match config {
        Some(t) => {
            let k = nameable_json(t.as_str());
            assert(k == json_nameable(t@));
            match k {
                Some(b) => {
                    assert(b);
                    json_set_name(t.as_str(), name)
                },
                None => json_set_name(empty, name),
            }
        },
        None => json_set_name(empty, name),
    }
}

/// `config_with_name` where the configuration allows it: `None` when it is
/// JSON but neither an object nor `null`.
pub fn checked_config_with_name(config: Option<String>, name: &str) -> (r: Option<Option<String>>)
    ensures
        r is None <==> rename_refused(opt_view(config)),
        r matches Some(x) ==> opt_view(x) == json_with_name(rename_source(opt_view(config)), name@),
{
    let refused = match &config {
        Some(t) => match nameable_json(t.as_str()) {
            Some(ok) => !ok,
            None => false,
        },
        None => false,
    };
    if refused {
        None
    } else {
        Some(config_with_name(config, name))
    }
}

pub open spec fn info_view(i: IdentityInfo) -> (Seq<char>, Seq<char>) {
    (i.id@, i.name@)
}

pub open spec fn infos_view(v: Seq<IdentityInfo>) -> Seq<(Seq<char>, Seq<char>)> {
    Seq::new(v.len(), |k: int| info_view(v[k]))
}

/// Stable insertion of `x` into `s` by name: after every element whose name
/// sorts before or equal to that of `x`.
pub open spec fn insert_by_name(s: Seq<(Seq<char>, Seq<char>)>, x: (Seq<char>, Seq<char>)) -> Seq<
    (Seq<char>, Seq<char>),
>
    decreases s.len(),
{
    if s.len() == 0 {
        seq![x]
    } else if text_le(s.last().1, x.1) {
        s.push(x)
    } else {
        insert_by_name(s.drop_last(), x).push(s.last())
    }
}

/// A stable sort by name.
pub open spec fn sort_by_name(s: Seq<(Seq<char>, Seq<char>)>) -> Seq<(Seq<char>, Seq<char>)>
    decreases s.len(),
{
    if s.len() == 0 {
        seq![]
    } else {
        insert_by_name(sort_by_name(s.drop_last()), s.last())
    }
}

proof fn lemma_insert_at(s: Seq<(Seq<char>, Seq<char>)>, x: (Seq<char>, Seq<char>), p: int)
    requires
        0 <= p <= s.len(),
        p > 0 ==> text_le(s[p - 1].1, x.1),
        forall|k: int| p <= k < s.len() ==> !text_le(#[trigger] s[k].1, x.1),
    ensures
        insert_by_name(s, x) == s.take(p).push(x) + s.skip(p),
    decreases s.len(),
{
    if s.len() == 0 {
        assert(s.take(p).push(x) + s.skip(p) =~= seq![x]);
    } else if p == s.len() {
        assert(s.take(p).push(x) + s.skip(p) =~= s.push(x));
    } else {
        assert(!text_le(s.last().1, x.1));
        lemma_insert_at(s.drop_last(), x, p);
        assert(s.drop_last().take(p).push(x) + s.drop_last().skip(p) + seq![s.last()] =~= s.take(
            p,
        ).push(x) + s.skip(p));
    }
}

pub open spec fn sorted_by_name(s: Seq<(Seq<char>, Seq<char>)>) -> bool {
    forall|i: int, j: int| 0 <= i < j < s.len() ==> text_le(#[trigger] s[i].1, #[trigger] s[j].1)
}

proof fn lemma_insert_keeps_sorted(s: Seq<(Seq<char>, Seq<char>)>, x: (Seq<char>, Seq<char>))
    requires
        sorted_by_name(s),
    ensures
        sorted_by_name(insert_by_name(s, x)),
        insert_by_name(s, x).len() == s.len() + 1,
        forall|k: int|
            0 <= k < insert_by_name(s, x).len() ==> #[trigger] insert_by_name(s, x)[k] == x
                || s.contains(insert_by_name(s, x)[k]),
    decreases s.len(),
{
    let r = insert_by_name(s, x);
    if s.len() == 0 {
    } else if text_le(s.last().1, x.1) {
        assert forall|i: int, j: int| 0 <= i < j < r.len() implies text_le(
            #[trigger] r[i].1,
            #[trigger] r[j].1,
        ) by {
            if j == s.len() {
                if i < s.len() - 1 {
                    crate::text::lemma_text_le_transitive(s[i].1, s.last().1, x.1);
                }
            }
        }
        assert forall|k: int| 0 <= k < r.len() implies #[trigger] r[k] == x || s.contains(r[k]) by {
            if k < s.len() {
                assert(s[k] == r[k]);
            }
        }
    } else {
        let t = s.drop_last();
        assert(sorted_by_name(t)) by {
            assert forall|i: int, j: int| 0 <= i < j < t.len() implies text_le(
                #[trigger] t[i].1,
                #[trigger] t[j].1,
            ) by {
                assert(t[i] == s[i] && t[j] == s[j]);
            }
        }
        lemma_insert_keeps_sorted(t, x);
        let u = insert_by_name(t, x);
        crate::text::lemma_text_le_total(s.last().1, x.1);
        assert forall|i: int, j: int| 0 <= i < j < r.len() implies text_le(
            #[trigger] r[i].1,
            #[trigger] r[j].1,
        ) by {
            if j == r.len() - 1 {
                assert(r[j] == s.last());
                assert(r[i] == u[i]);
                if u[i] == x {
                } else {
                    let k = choose|k: int| 0 <= k < t.len() && t[k] == u[i];
                    assert(t[k] == s[k]);
                }
            } else {
                assert(r[i] == u[i] && r[j] == u[j]);
            }
        }
        assert forall|k: int| 0 <= k < r.len() implies #[trigger] r[k] == x || s.contains(r[k]) by {
            if k == r.len() - 1 {
                assert(s[s.len() - 1] == r[k]);
            } else {
                assert(r[k] == u[k]);
                if u[k] != x {
                    let m = choose|m: int| 0 <= m < t.len() && t[m] == u[k];
                    assert(s[m] == r[k]);
                }
            }
        }
    }
}

proof fn lemma_insert_multiset(s: Seq<(Seq<char>, Seq<char>)>, x: (Seq<char>, Seq<char>))
    ensures
        insert_by_name(s, x).to_multiset() == s.to_multiset().insert(x),
    decreases s.len(),
{
    broadcast use vstd::seq_lib::group_to_multiset_ensures;
    broadcast use vstd::multiset::group_multiset_axioms;

    if s.len() == 0 {
        assert(s =~= Seq::<(Seq<char>, Seq<char>)>::empty());
        assert(seq![x] =~= s.push(x));
    } else if text_le(s.last().1, x.1) {
    } else {
        let t = s.drop_last();
        lemma_insert_multiset(t, x);
        assert(s =~= t.push(s.last()));
        assert(t.to_multiset().insert(x).insert(s.last()) =~= t.to_multiset().insert(
            s.last(),
        ).insert(x));
    }
}

/// The list of identities is sorted by name and holds each directory's
/// entry once: sorting neither drops nor repeats an identity.
pub proof fn law_identities_sorted(s: Seq<(Seq<char>, Seq<char>)>)
    ensures
        sorted_by_name(sort_by_name(s)),
        sort_by_name(s).len() == s.len(),
        sort_by_name(s).to_multiset() == s.to_multiset(),
    decreases s.len(),
{
    broadcast use vstd::seq_lib::group_to_multiset_ensures;

    if s.len() > 0 {
        law_identities_sorted(s.drop_last());
        lemma_insert_keeps_sorted(sort_by_name(s.drop_last()), s.last());
        lemma_insert_multiset(sort_by_name(s.drop_last()), s.last());
        assert(s =~= s.drop_last().push(s.last()));
    } else {
        assert(s =~= Seq::<(Seq<char>, Seq<char>)>::empty());
    }
}

/// The identities found on disk, each a directory name with the text of its
/// configuration file (if it could be read), sorted by display name.
pub struct IdentityDir {
    pub id: String,
    pub config: Option<String>,
}

pub open spec fn dir_entries_view(v: Seq<IdentityDir>) -> Seq<(Seq<char>, Seq<char>)> {
    Seq::new(v.len(), |k: int| (v[k].id@, identity_name(v[k].id@, opt_view(v[k].config))))
}

/// The identities of the given directories, each named by its configuration
/// (see `identity_name`), in a stable order by name.
pub fn identity_list(dirs: Vec<IdentityDir>) -> (r: Vec<IdentityInfo>)
    ensures
        infos_view(r@) == sort_by_name(dir_entries_view(dirs@)),
{
    let ghost all = dir_entries_view(dirs@);
    let mut out: Vec<IdentityInfo> = Vec::new();
    let mut i: usize = 0;
    while i < dirs.len()
        invariant
            i <= dirs.len(),
            all == dir_entries_view(dirs@),
            infos_view(out@) == sort_by_name(all.take(i as int)),
        decreases dirs.len() - i,
    {
        let id = string_of(&chars_of(dirs[i].id.as_str()));
        let cfg = match &dirs[i].config {
            Some(c) => Some(string_of(&chars_of(c.as_str()))),
            None => None,
        };
        let name = identity_display_name(id.as_str(), cfg);
        let ghost x = (id@, name@);
        assert(x == all[i as int]);
        let name_chars = chars_of(name.as_str());
        let mut p = out.len();
        while p > 0 && !text_le_of(&chars_of(out[p - 1].name.as_str()), &name_chars)
            invariant
                p <= out.len(),
                name_chars@ == x.1,
                forall|k: int|
                    p <= k < out.len() ==> !text_le(#[trigger] infos_view(out@)[k].1, x.1),
            decreases p,
        {
            p = p - 1;
        }
        let ghost before = infos_view(out@);
        proof {
            lemma_insert_at(before, x, p as int);
        }
        out.insert(p, IdentityInfo { id, name });
        assert(infos_view(out@) =~= before.take(p as int).push(x) + before.skip(p as int));
        assert(all.take(i + 1).drop_last() =~= all.take(i as int));
        i = i + 1;
    }
    assert(all.take(dirs.len() as int) =~= all);
    out
}

} // verus!
