//! The Docker-side NOTIFY proxy: container names and what is read from
//! `docker` output.

use vstd::prelude::*;
use crate::paths::opt_view;
use crate::text::{
    byte_prefix, byte_prefix_of, chars_of, concat, contains_text, cut_ok, decimal, decimal_of,
    extend, find_class, has_text, int_error_message, int_error_text, lines, lit, parse_int,
    parse_int_of, run_len, same, slice_of, split_lines, string_of, strings, texts, trim_start,
    trim_start_of, CharClass, IntErrorKind,
};

verus! {

broadcast use vstd::string::group_string_axioms;

/// The name prefix of the proxy containers.
pub const CONTAINER_PREFIX: &'static str = "zk-dns-proxy-";

/// The UDP port that the proxy listens on for NOTIFY inside its container.
pub const NOTIFY_PORT: u16 = 5300;

/// A running proxy container.
pub struct ProxyInfo {
    pub container_id: String,
    pub bridge_ip: String,
    pub mapped_port: u16,
}

/// The secondary server container that NOTIFY messages are forwarded to.
pub struct DockerTarget {
    pub container_name: String,
    pub container_ip: String,
    pub network: String,
    pub internal_port: u16,
}

/// The proxy container of an identity: the prefix and the identity's first
/// eight bytes.
pub open spec fn container_name_of(identity: Seq<char>) -> Seq<char> {
    "zk-dns-proxy-"@ + byte_prefix(identity, 8)
}

/// Whether the identity can be cut after its first eight bytes (it is
/// shorter, or a character ends there).
pub fn identity_cut_ok(identity: &str) -> (r: bool)
    ensures
        r == cut_ok(identity@, 8),
{
    byte_prefix_of(&chars_of(identity), 8).1
}

/// The name of an identity's proxy container.
pub fn container_name(identity: &str) -> (r: String)
    requires
        cut_ok(identity@, 8),
    ensures
        r@ == container_name_of(identity@),
{
    let (prefix, _) = byte_prefix_of(&chars_of(identity), 8);
    string_of(&concat(&lit(CONTAINER_PREFIX), &prefix))
}

/// A container's name as `docker inspect` shows it, without leading slashes.
pub fn container_display_name(name: &str) -> (r: String)
    ensures
        r@ == trim_start(name@, CharClass::Exactly('/')),
{
    string_of(&trim_start_of(&chars_of(name), CharClass::Exactly('/')))
}

/// The first key that mentions `udp`.
pub open spec fn first_udp_key(keys: Seq<Seq<char>>, k: int) -> Option<int>
    decreases keys.len() - k,
{
    if k < 0 || k >= keys.len() {
        None
    } else if has_text(keys[k], "udp"@) {
        Some(k)
    } else {
        first_udp_key(keys, k + 1)
    }
}

/// The port that a container serves DNS on inside: the number before `/` in
/// its first published UDP port key (`53/udp`), else 53.
pub open spec fn internal_port_of(keys: Seq<Seq<char>>) -> u16 {
    match first_udp_key(keys, 0) {
        Some(i) => {
            let k = keys[i];
            match parse_int(k.take(run_len(k, CharClass::Exactly('/')) as int), 65535) {
                Ok(v) => v as u16,
                Err(_) => 53,
            }
        },
        None => 53,
    }
}

/// The DNS port of a container from the keys of its published ports.
pub fn internal_port(keys: &Vec<String>) -> (r: u16)
    ensures
        r == internal_port_of(strings(keys@)),
{
    let udp = lit("udp");
    let mut i: usize = 0;
    while i < keys.len()
        invariant
            i <= keys.len(),
            udp@ == "udp"@,
            first_udp_key(strings(keys@), 0) == first_udp_key(strings(keys@), i as int),
        decreases keys.len() - i,
    {
        let k = chars_of(keys[i].as_str());
        if contains_text(&k, &udp) {
            let e = find_class(&k, 0, CharClass::Exactly('/'));
            assert(k@.skip(0) =~= k@);
            let head = slice_of(&k, 0, e);
            return match parse_int_of(&head, 65535) {
                Ok(v) => v as u16,
                Err(_) => 53,
            };
        }
        i = i + 1;
    }
    53
}

pub open spec fn port_result_view(r: Result<u16, IntErrorKind>) -> Result<nat, IntErrorKind> {
    match r {
        Ok(v) => Ok(v as nat),
        Err(e) => Err(e),
    }
}

/// A port number read as `u16::from_str` does.
pub fn parse_port(text: &str) -> (r: Result<u16, IntErrorKind>)
    ensures
        port_result_view(r) == parse_int(text@, 65535),
{
    match parse_int_of(&chars_of(text), 65535) {
        Ok(v) => Ok(v as u16),
        Err(e) => Err(e),
    }
}


// ---------------------------------------------------------------------------
// What `docker` answers
// ---------------------------------------------------------------------------

/// The first container that `docker ps` lists for a published port.
pub open spec fn first_container_of(output: Seq<char>, port: u16) -> Result<Seq<char>, Seq<char>> {
    if lines(output).len() > 0 {
        Ok(lines(output)[0])
    } else {
        Err("No Docker container found with port "@ + decimal(port as nat) + " mapped"@)
    }
}

pub open spec fn text_result_view(r: Result<String, String>) -> Result<Seq<char>, Seq<char>> {
    match r {
        Ok(s) => Ok(s@),
        Err(s) => Err(s@),
    }
}

/// The id of the container that publishes `port`, from the (trimmed) output
/// of `docker ps --filter publish=<port> --format {{.ID}}`.
pub fn first_container(output: &str, port: u16) -> (r: Result<String, String>)
    ensures
        text_result_view(r) == first_container_of(output@, port),
{
    let ls = split_lines(&chars_of(output));
    if ls.len() > 0 {
        Ok(string_of(&ls[0]))
    } else {
        let mut m = lit("No Docker container found with port ");
        extend(&mut m, &decimal_of(port as u64));
        extend(&mut m, &lit(" mapped"));
        Err(string_of(&m))
    }
}

/// Whether `docker inspect --format {{.State.Running}}` says the container runs.
pub fn proxy_running(output: &str) -> (r: bool)
    ensures
        r == (output@ == "true"@),
{
    same(&chars_of(output), &lit("true"))
}

/// The proxy's address as `docker inspect` shows it; no address is an error.
pub fn proxy_ip(output: String) -> (r: Result<String, String>)
    ensures
        output@.len() == 0 ==> text_result_view(r) == Err::<Seq<char>, Seq<char>>(
            "Proxy has no IP address"@,
        ),
        output@.len() > 0 ==> text_result_view(r) == Ok::<Seq<char>, Seq<char>>(output@),
{
    if output.as_str().is_empty() {
        Err(string_of(&lit("Proxy has no IP address")))
    } else {
        Ok(output)
    }
}

/// What the host port of the proxy's NOTIFY port reads as.
pub open spec fn mapped_port_of(output: Seq<char>) -> Result<nat, Seq<char>> {
    match parse_int(output, 65535) {
        Ok(v) => Ok(v),
        Err(k) => Err("Failed to parse mapped port: "@ + int_error_message(k)),
    }
}

pub open spec fn port_text_view(r: Result<u16, String>) -> Result<nat, Seq<char>> {
    match r {
        Ok(v) => Ok(v as nat),
        Err(s) => Err(s@),
    }
}

/// The host port that `docker inspect` shows for the proxy's NOTIFY port.
pub fn mapped_port(output: &str) -> (r: Result<u16, String>)
    ensures
        port_text_view(r) == mapped_port_of(output@),
{
    match parse_port(output) {
        Ok(v) => Ok(v),
        Err(k) => {
            let m = concat(&lit("Failed to parse mapped port: "), &chars_of(int_error_text(k)));
            Err(string_of(&m))
        },
    }
}

/// The lines of a text that are not empty.
pub open spec fn nonempty_lines(ls: Seq<Seq<char>>) -> Seq<Seq<char>>
    decreases ls.len(),
{
    if ls.len() == 0 {
        seq![]
    } else if ls.last().len() > 0 {
        nonempty_lines(ls.drop_last()).push(ls.last())
    } else {
        nonempty_lines(ls.drop_last())
    }
}

/// The container ids that `docker ps -q` lists, one per non-empty line.
pub fn listed_containers(output: &str) -> (r: Vec<String>)
    ensures
        strings(r@) == nonempty_lines(lines(output@)),
{
    let ls = split_lines(&chars_of(output));
    let ghost all = texts(ls@);
    let mut out: Vec<String> = Vec::new();
    let mut i: usize = 0;
    while i < ls.len()
        invariant
            i <= ls.len(),
            all == texts(ls@),
            all == lines(output@),
            strings(out@) == nonempty_lines(all.take(i as int)),
        decreases ls.len() - i,
    {
        assert(all.take(i + 1).drop_last() =~= all.take(i as int));
        assert(all.take(i + 1).last() == ls[i as int]@);
        let ghost before = strings(out@);
        if ls[i].len() > 0 {
            out.push(string_of(&ls[i]));
            assert(strings(out@) =~= before.push(ls[i as int]@));
        }
        i = i + 1;
    }
    assert(all.take(ls.len() as int) =~= all);
    out
}

/// The arguments of `docker` that start an identity's relay container: the
/// container joins the target's network, maps the NOTIFY port to a free
/// local port, mounts the relay binary and runs it with the NOTIFY target
/// and the host's CoreDNS port.
pub open spec fn run_args(
    name: Seq<char>,
    network: Seq<char>,
    binary: Seq<char>,
    target_ip: Seq<char>,
    target_port: u16,
    coredns_port: u16,
) -> Seq<Seq<char>> {
    seq![
        "run"@,
        "-d"@,
        "--name"@,
        name,
        "--network"@,
        network,
        "--add-host"@,
        "host.docker.internal:host-gateway"@,
        "-p"@,
        "127.0.0.1:0:"@ + decimal(NOTIFY_PORT as nat) + "/udp"@,
        "-v"@,
        binary + ":/dns-proxy:ro"@,
        "busybox:musl"@,
        "/dns-proxy"@,
        decimal(NOTIFY_PORT as nat),
        target_ip + ":"@ + decimal(target_port as nat),
        decimal(coredns_port as nat),
        "host.docker.internal:"@ + decimal(coredns_port as nat),
    ]
}

fn push_text(v: &mut Vec<String>, t: Vec<char>)
    ensures
        strings(final(v)@) == strings(old(v)@).push(t@),
{
    v.push(string_of(&t));
    assert(strings(v@) =~= strings(old(v)@).push(t@));
}

pub fn proxy_run_args(
    name: &str,
    network: &str,
    binary: &str,
    target_ip: &str,
    target_port: u16,
    coredns_port: u16,
) -> (r: Vec<String>)
    ensures
        strings(r@) == run_args(name@, network@, binary@, target_ip@, target_port, coredns_port),
{
    let notify = decimal_of(NOTIFY_PORT as u64);
    let dns = decimal_of(coredns_port as u64);
    let mut v: Vec<String> = Vec::new();
    assert(strings(v@) =~= Seq::<Seq<char>>::empty());
    push_text(&mut v, lit("run"));
    push_text(&mut v, lit("-d"));
    push_text(&mut v, lit("--name"));
    push_text(&mut v, chars_of(name));
    push_text(&mut v, lit("--network"));
    push_text(&mut v, chars_of(network));
    push_text(&mut v, lit("--add-host"));
    push_text(&mut v, lit("host.docker.internal:host-gateway"));
    push_text(&mut v, lit("-p"));
    let mut port_map = lit("127.0.0.1:0:");
    extend(&mut port_map, &notify);
    extend(&mut port_map, &lit("/udp"));
    push_text(&mut v, port_map);
    push_text(&mut v, lit("-v"));
    push_text(&mut v, concat(&chars_of(binary), &lit(":/dns-proxy:ro")));
    push_text(&mut v, lit("busybox:musl"));
    push_text(&mut v, lit("/dns-proxy"));
    push_text(&mut v, slice_of(&notify, 0, notify.len()));
    let mut target = concat(&chars_of(target_ip), &lit(":"));
    extend(&mut target, &decimal_of(target_port as u64));
    push_text(&mut v, target);
    push_text(&mut v, slice_of(&dns, 0, dns.len()));
    push_text(&mut v, concat(&lit("host.docker.internal:"), &dns));
    assert(notify@.subrange(0, notify.len() as int) =~= notify@);
    assert(dns@.subrange(0, dns.len() as int) =~= dns@);
    assert(strings(v@) =~= run_args(name@, network@, binary@, target_ip@, target_port, coredns_port));
    v
}


// ---------------------------------------------------------------------------
// The container behind a published port
// ---------------------------------------------------------------------------

/// What the library reads from the JSON that `docker inspect` prints for a
/// container (the first element of its array): the `Name` string, whether
/// `NetworkSettings.Networks` is an object, its first entry (the network's
/// name and its `IPAddress` string), and the keys of
/// `NetworkSettings.Ports`; `None` where the JSON holds no such string or
/// object.
pub struct InspectedContainer {
    pub name: Option<String>,
    pub has_networks: bool,
    pub first_network: Option<(String, Option<String>)>,
    pub port_keys: Option<Vec<String>>,
}

pub open spec fn inspected_view(c: InspectedContainer) -> (
    Option<Seq<char>>,
    bool,
    Option<(Seq<char>, Option<Seq<char>>)>,
    Option<Seq<Seq<char>>>,
) {
    (
        opt_view(c.name),
        c.has_networks,
        match c.first_network {
            Some(n) => Some((n.0@, opt_view(n.1))),
            None => None,
        },
        match c.port_keys {
            Some(k) => Some(strings(k@)),
            None => None,
        },
    )
}

pub open spec fn inspect_result_view(r: Result<InspectedContainer, String>) -> Result<
    (Option<Seq<char>>, bool, Option<(Seq<char>, Option<Seq<char>>)>, Option<Seq<Seq<char>>>),
    Seq<char>,
> {
    match r {
        Ok(c) => Ok(inspected_view(c)),
        Err(e) => Err(e@),
    }
}

/// What `serde_json` reads from the output of `docker inspect`: the fields
/// that `InspectedContainer` holds, or the text of the parse error.
pub uninterp spec fn inspected(text: Seq<char>) -> Result<
    (Option<Seq<char>>, bool, Option<(Seq<char>, Option<Seq<char>>)>, Option<Seq<Seq<char>>>),
    Seq<char>,
>;

/// `serde_json::from_str::<Value>(text)`, then the fields of its first
/// element as `InspectedContainer` holds them (a `serde_json::Map` is walked
/// in key order, so its first entry is the least key); on a parse error its
/// message. Only the name `inspected` is stated.
#[verifier::external_body]
fn read_inspect_json(text: &str) -> (r: Result<InspectedContainer, String>)
    ensures
        inspect_result_view(r) == inspected(text@),
{
    let v: serde_json::Value = serde_json::from_str(text).map_err(|e| e.to_string())?;
    let (c, settings) = (&v[0], &v[0]["NetworkSettings"]);
    let nets = settings["Networks"].as_object();
    Ok(InspectedContainer {
        name: c["Name"].as_str().map(String::from),
        has_networks: nets.is_some(),
        first_network: nets.and_then(|m| m.iter().next()).map(
            |(k, i)| (k.clone(), i["IPAddress"].as_str().map(String::from)),
        ),
        port_keys: settings["Ports"].as_object().map(|p| p.keys().cloned().collect()),
    })
}

pub open spec fn or_empty_text(o: Option<Seq<char>>) -> Seq<char> {
    match o {
        Some(t) => t,
        None => seq![],
    }
}

/// The secondary server that NOTIFY is forwarded to, from what `docker
/// inspect` showed: its name without leading slashes, its address and
/// network (the first network listed), and its DNS port inside (53 when no
/// UDP port is published); an error when the JSON did not parse or names no
/// network.
pub open spec fn target_of(
    r: Result<
        (Option<Seq<char>>, bool, Option<(Seq<char>, Option<Seq<char>>)>, Option<Seq<Seq<char>>>),
        Seq<char>,
    >,
) -> Result<(Seq<char>, Seq<char>, Seq<char>, u16), Seq<char>> {
    match r {
        Err(e) => Err("Failed to parse docker inspect: "@ + e),
        Ok(c) => if !c.1 {
            Err("No networks found on container"@)
        } else {
            match c.2 {
                None => Err("Container has no network"@),
                Some(n) => Ok(
                    (
                        trim_start(or_empty_text(c.0), CharClass::Exactly('/')),
                        or_empty_text(n.1),
                        n.0,
                        match c.3 {
                            Some(keys) => internal_port_of(keys),
                            None => 53,
                        },
                    ),
                ),
            }
        },
    }
}

pub open spec fn target_result_view(r: Result<DockerTarget, String>) -> Result<
    (Seq<char>, Seq<char>, Seq<char>, u16),
    Seq<char>,
> {
    match r {
        Ok(t) => Ok((t.container_name@, t.container_ip@, t.network@, t.internal_port)),
        Err(e) => Err(e@),
    }
}

fn text_or_empty(o: &Option<String>) -> (r: Vec<char>)
    ensures
        r@ == or_empty_text(opt_view(*o)),
{
    match o {
        Some(t) => chars_of(t.as_str()),
        None => Vec::new(),
    }
}

/// The target container from what was read of its `docker inspect` JSON
/// (see `target_of`).
pub fn docker_target(inspect: Result<InspectedContainer, String>) -> (r: Result<DockerTarget, String>)
    ensures
        target_result_view(r) == target_of(inspect_result_view(inspect)),
{
    match inspect {
        Err(e) => Err(string_of(&concat(&lit("Failed to parse docker inspect: "), &chars_of(e.as_str())))),
        Ok(c) => {
            let container_name = string_of(
                &trim_start_of(&text_or_empty(&c.name), CharClass::Exactly('/')),
            );
            if !c.has_networks {
                return Err(string_of(&lit("No networks found on container")));
            }
            match c.first_network {
                None => Err(string_of(&lit("Container has no network"))),
                Some(n) => {
                    let container_ip = string_of(&text_or_empty(&n.1));
                    let internal = match &c.port_keys {
                        Some(keys) => internal_port(keys),
                        None => 53,
                    };
                    Ok(
                        DockerTarget {
                            container_name,
                            container_ip,
                            network: n.0,
                            internal_port: internal,
                        },
                    )
                },
            }
        },
    }
}

/// The target container described by the output of `docker inspect`.
pub fn read_docker_target(json: &str) -> (r: Result<DockerTarget, String>)
    ensures
        target_result_view(r) == target_of(inspected(json@)),
{
    docker_target(read_inspect_json(json))
}

} // verus!
