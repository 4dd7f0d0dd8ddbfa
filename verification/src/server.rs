//! The CoreDNS server of an identity: names, files and messages.

use vstd::prelude::*;
use vstd::utf8::encode_utf8;
use crate::paths::{
    app_dir, app_dir_from, bytes_of, identity_dir_in, identity_path, join_path, lies_under, path_join,
};
use crate::text::{
    chars_of, concat, decimal, decimal_of, extend, lit, parse_bounded, parse_unsigned,
    string_of, trim, trim_of, CharClass,
};

verus! {

broadcast use vstd::string::group_string_axioms;

/// The name shown for an identity: its configured name, or its id when that
/// is empty.
pub open spec fn shown_name(name: Seq<char>, identity: Seq<char>) -> Seq<char> {
    if name.len() == 0 {
        identity
    } else {
        name
    }
}

pub fn display_name(name: &str, identity: &str) -> (r: String)
    ensures
        r@ == shown_name(name@, identity@),
{
    if name.is_empty() {
        string_of(&chars_of(identity))
    } else {
        string_of(&chars_of(name))
    }
}

/// The event that carries the log lines of an identity's server.
pub fn log_event_name(identity: &str) -> (r: String)
    ensures
        r@ == "log-line-"@ + identity@,
{
    string_of(&concat(&lit("log-line-"), &chars_of(identity)))
}

/// The event sent when an identity's server has exited.
pub fn exit_event_name(identity: &str) -> (r: String)
    ensures
        r@ == "server-exited-"@ + identity@,
{
    string_of(&concat(&lit("server-exited-"), &chars_of(identity)))
}

/// `Server '<name>' starting on port <port>`.
pub fn starting_message(shown: &str, port: u16) -> (r: String)
    ensures
        r@ == "Server '"@ + shown@ + "' starting on port "@ + decimal(port as nat),
{
    let mut m = concat(&lit("Server '"), &chars_of(shown));
    extend(&mut m, &lit("' starting on port "));
    extend(&mut m, &decimal_of(port as u64));
    string_of(&m)
}

/// `Server '<name>' stopped`.
pub fn stopped_message(shown: &str) -> (r: String)
    ensures
        r@ == "Server '"@ + shown@ + "' stopped"@,
{
    let mut m = concat(&lit("Server '"), &chars_of(shown));
    extend(&mut m, &lit("' stopped"));
    string_of(&m)
}

/// `Reloading zones for '<name>'`.
pub fn reloading_message(shown: &str) -> (r: String)
    ensures
        r@ == "Reloading zones for '"@ + shown@ + "'"@,
{
    let mut m = concat(&lit("Reloading zones for '"), &chars_of(shown));
    extend(&mut m, &lit("'"));
    string_of(&m)
}

/// `Server already running for '<identity>'`.
pub fn already_running_message(identity: &str) -> (r: String)
    ensures
        r@ == "Server already running for '"@ + identity@ + "'"@,
{
    let mut m = concat(&lit("Server already running for '"), &chars_of(identity));
    extend(&mut m, &lit("'"));
    string_of(&m)
}

/// The pid file of an identity's server on a port, under a data directory.
pub open spec fn pid_file_path(app: Seq<u8>, identity: Seq<char>, port: u16) -> Seq<u8> {
    path_join(identity_path(app, identity), encode_utf8("coredns."@ + decimal(port as nat) + ".pid"@))
}

/// An identity's pid files lie inside its directory.
pub proof fn law_pid_file_inside(app: Seq<u8>, identity: Seq<char>, port: u16)
    ensures
        lies_under(pid_file_path(app, identity, port), identity_path(app, identity)),
{
    reveal_strlit("coredns.");
    reveal_strlit(".pid");
    let name = "coredns."@ + decimal(port as nat) + ".pid"@;
    assert(name[0] == 'c');
    crate::paths::lemma_relative_text(name);
    crate::paths::lemma_join_under(identity_path(app, identity), encode_utf8(name));
}

pub fn pid_path_in(app: &[u8], identity: &str, port: u16) -> (r: Vec<u8>)
    ensures
        r@ == pid_file_path(app@, identity@, port),
{
    let dir = identity_dir_in(app, identity);
    let mut name = lit("coredns.");
    extend(&mut name, &decimal_of(port as u64));
    extend(&mut name, &lit(".pid"));
    join_path(&dir, &bytes_of(string_of(&name).as_str()))
}

/// The pid file of an identity's server on a port.
pub fn pid_path(identity: &str, port: u16) -> (r: Vec<u8>)
    ensures
        exists|home: Option<Seq<u8>>| r@ == pid_file_path(app_dir_from(home), identity@, port),
{
    let app = app_dir();
    pid_path_in(&app, identity, port)
}

/// `i32::from_str`: digits with one optional sign, within the range of `i32`.
pub open spec fn parse_i32(s: Seq<char>) -> Option<int> {
    if s.len() > 0 && s[0] == '-' {
        let d = s.drop_first();
        if d.len() > 0 && d[0] != '+' {
            match parse_unsigned(d, 2147483648) {
                Some(v) => Some(-v),
                None => None,
            }
        } else {
            None
        }
    } else {
        match parse_unsigned(s, 2147483647) {
            Some(v) => Some(v as int),
            None => None,
        }
    }
}

/// The process id written in a pid file: its trimmed text read as an `i32`.
pub fn parse_pid(text: &str) -> (r: Option<i32>)
    ensures
        r matches Some(v) ==> parse_i32(trim(text@, CharClass::Whitespace)) == Some(v as int),
        r is None ==> parse_i32(trim(text@, CharClass::Whitespace)) is None,
{
    let t = trim_of(&chars_of(text), CharClass::Whitespace);
    if t.len() > 0 && t[0] == '-' {
        let d = crate::text::slice_of(&t, 1, t.len());
        assert(d@ =~= t@.drop_first());
        if d.len() > 0 && d[0] != '+' {
            match parse_bounded(&d, 2147483648) {
                Some(v) => {
                    let r: i64 = 0 - (v as i64);
                    Some(r as i32)
                },
                None => None,
            }
        } else {
            None
        }
    } else {
        match parse_bounded(&t, 2147483647) {
            Some(v) => Some(v as i32),
            None => None,
        }
    }
}

} // verus!
