//! The CoreDNS configuration (Corefile) of an identity.

use vstd::prelude::*;
use vstd::utf8::encode_utf8;
use crate::paths::{
    app_dir, app_dir_from, bytes_of, identity_dir_in, identity_path, join_path, lies_under, path_join,
    path_text, path_text_of, zones_dir_in, zones_path,
};
use crate::zones::{zone_file_in, zone_file_path};
use crate::text::{
    has_text, lemma_join_contains, lemma_occurs_concat, lemma_occurs_has_text, occurs_at, starts_with, chars_of, concat, contains_char, decimal, decimal_of, extend, join, join_texts, lit,
    string_of, strings, texts,
};

verus! {

broadcast use vstd::string::group_string_axioms;

/// An address with port 53 added when it names no port (no `:`).
pub open spec fn with_default_port(from: Seq<char>) -> Seq<char> {
    if from.contains(':') {
        from
    } else {
        from + ":53"@
    }
}

/// The server block for one zone: a secondary that transfers from
/// `transfer_from` when transfers are accepted from a given address, else a
/// primary served from the zone's file; either way transfers out are allowed
/// and queries are logged.
pub open spec fn zone_block(
    zones_dir: Seq<u8>,
    name: Seq<char>,
    port: u16,
    accept_transfers: bool,
    transfer_from: Seq<char>,
) -> Seq<char> {
    if accept_transfers && transfer_from.len() > 0 {
        name + ":"@ + decimal(port as nat) + " {\n    secondary {\n        transfer from "@
            + with_default_port(transfer_from)
            + "\n    }\n    transfer {\n        to *\n    }\n    log\n}"@
    } else {
        name + ":"@ + decimal(port as nat) + " {\n    file \""@ + path_text(
            zone_file_path(zones_dir, name),
        ) + "\"\n    transfer {\n        to *\n    }\n    log\n}"@
    }
}

/// The Corefile: one block per zone, separated by blank lines.
pub open spec fn corefile_text(
    zones_dir: Seq<u8>,
    names: Seq<Seq<char>>,
    port: u16,
    accept_transfers: bool,
    transfer_from: Seq<char>,
) -> Seq<char> {
    join(
        Seq::new(
            names.len(),
            |i: int| zone_block(zones_dir, names[i], port, accept_transfers, transfer_from),
        ),
        "\n\n"@,
    )
}

/// An address with port 53 added when it names no port.
pub fn with_dns_port(address: &str) -> (r: String)
    ensures
        r@ == with_default_port(address@),
{
    let a = chars_of(address);
    if contains_char(&a, ':') {
        string_of(&a)
    } else {
        string_of(&concat(&a, &lit(":53")))
    }
}

/// Adding the default port to an address is done at most once.
pub proof fn law_default_port_once(address: Seq<char>)
    ensures
        with_default_port(with_default_port(address)) == with_default_port(address),
        with_default_port(address).contains(':'),
{
    reveal_strlit(":53");
    if !address.contains(':') {
        assert((address + ":53"@)[address.len() as int] == ':');
    }
}

/// No zones give an empty Corefile.
pub proof fn law_corefile_empty(zones_dir: Seq<u8>, port: u16, accept: bool, from: Seq<char>)
    ensures
        corefile_text(zones_dir, seq![], port, accept, from) == Seq::<char>::empty(),
{
}

/// Every zone's block starts with `<zone>:<port>`, and is a secondary
/// exactly when transfers are accepted from a given address.
pub proof fn law_zone_block_header(
    zones_dir: Seq<u8>,
    name: Seq<char>,
    port: u16,
    accept: bool,
    from: Seq<char>,
)
    ensures
        starts_with(
            zone_block(zones_dir, name, port, accept, from),
            name + ":"@ + decimal(port as nat) + " {\n    "@,
        ),
        starts_with(
            zone_block(zones_dir, name, port, accept, from),
            name + ":"@ + decimal(port as nat) + " {\n    secondary"@,
        ) <==> (accept && from.len() > 0),
{
    reveal_strlit(" {\n    ");
    reveal_strlit(" {\n    secondary");
    reveal_strlit(" {\n    secondary {\n        transfer from ");
    reveal_strlit(" {\n    file \"");
    let h = name + ":"@ + decimal(port as nat);
    let b = zone_block(zones_dir, name, port, accept, from);
    let p1 = h + " {\n    "@;
    let p2 = h + " {\n    secondary"@;
    assert(b.take(p1.len() as int) =~= p1);
    if accept && from.len() > 0 {
        assert(b.take(p2.len() as int) =~= p2);
    } else {
        assert(b[p1.len() as int] == 'f');
        assert(p2[p1.len() as int] == 's');
        if b.len() >= p2.len() {
            assert(b.take(p2.len() as int)[p1.len() as int] != p2[p1.len() as int]);
        }
    }
}

/// A primary zone's block serves the file that the zone is saved in.
pub proof fn law_primary_serves_zone_file(
    zones_dir: Seq<u8>,
    name: Seq<char>,
    port: u16,
    accept: bool,
    from: Seq<char>,
)
    requires
        !(accept && from.len() > 0),
    ensures
        has_text(
            zone_block(zones_dir, name, port, accept, from),
            "file \""@ + path_text(zone_file_path(zones_dir, name)) + "\""@,
        ),
{
    reveal_strlit(" {\n    file \"");
    reveal_strlit(" {\n    ");
    reveal_strlit("file \"");
    reveal_strlit("\"");
    reveal_strlit("\"\n    transfer {\n        to *\n    }\n    log\n}");
    let h = name + ":"@ + decimal(port as nat) + " {\n    "@;
    let f = "file \""@ + path_text(zone_file_path(zones_dir, name)) + "\""@;
    let b = zone_block(zones_dir, name, port, accept, from);
    let tail = "\n    transfer {\n        to *\n    }\n    log\n}"@;
    reveal_strlit("\n    transfer {\n        to *\n    }\n    log\n}");
    assert(b =~= h + f + tail);
    assert(occurs_at(f, f, 0)) by {
        assert(f.subrange(0, f.len() as int) =~= f);
    }
    lemma_occurs_concat(h, f, f, 0);
    lemma_occurs_concat(h + f, tail, f, h.len() as int);
    lemma_occurs_has_text(b, f, h.len() as int);
}

/// Every zone has its block in the Corefile.
pub proof fn law_corefile_serves_every_zone(
    zones_dir: Seq<u8>,
    names: Seq<Seq<char>>,
    port: u16,
    accept: bool,
    from: Seq<char>,
    i: int,
)
    requires
        0 <= i < names.len(),
    ensures
        has_text(
            corefile_text(zones_dir, names, port, accept, from),
            zone_block(zones_dir, names[i], port, accept, from),
        ),
{
    let blocks = Seq::new(
        names.len(),
        |k: int| zone_block(zones_dir, names[k], port, accept, from),
    );
    lemma_join_contains(blocks, "\n\n"@, i);
}

/// A secondary zone transfers from the configured source, with port 53
/// added only where the source names no port: the block holds
/// `transfer from <source>` ending its line, or `transfer from <source>:53`.
pub proof fn law_secondary_source(zones_dir: Seq<u8>, name: Seq<char>, port: u16, from: Seq<char>)
    requires
        from.len() > 0,
    ensures
        from.contains(':') ==> has_text(
            zone_block(zones_dir, name, port, true, from),
            "transfer from "@ + from + "\n"@,
        ),
        !from.contains(':') ==> has_text(
            zone_block(zones_dir, name, port, true, from),
            "transfer from "@ + from + ":53\n"@,
        ),
{
    reveal_strlit(" {\n    secondary {\n        transfer from ");
    reveal_strlit(" {\n    secondary {\n        ");
    reveal_strlit("transfer from ");
    reveal_strlit("\n");
    reveal_strlit(":53");
    reveal_strlit(":53\n");
    reveal_strlit("\n    }\n    transfer {\n        to *\n    }\n    log\n}");
    reveal_strlit("    }\n    transfer {\n        to *\n    }\n    log\n}");
    let src = with_default_port(from);
    let h = name + ":"@ + decimal(port as nat) + " {\n    secondary {\n        "@;
    let f = "transfer from "@ + src + "\n"@;
    let tail = "    }\n    transfer {\n        to *\n    }\n    log\n}"@;
    let b = zone_block(zones_dir, name, port, true, from);
    assert(b =~= h + f + tail);
    assert(occurs_at(f, f, 0)) by {
        assert(f.subrange(0, f.len() as int) =~= f);
    }
    lemma_occurs_concat(h, f, f, 0);
    lemma_occurs_concat(h + f, tail, f, h.len() as int);
    lemma_occurs_has_text(b, f, h.len() as int);
    if !from.contains(':') {
        assert(f =~= "transfer from "@ + from + ":53\n"@);
    }
}

fn zone_block_of(
    zones_dir: &[u8],
    name: &str,
    port: u16,
    accept_transfers: bool,
    transfer_from: &[char],
) -> (r: Vec<char>)
    ensures
        r@ == zone_block(zones_dir@, name@, port, accept_transfers, transfer_from@),
{
    let mut b = concat(&chars_of(name), &lit(":"));
    extend(&mut b, &decimal_of(port as u64));
    if accept_transfers && transfer_from.len() > 0 {
        extend(&mut b, &lit(" {\n    secondary {\n        transfer from "));
        extend(&mut b, transfer_from);
        if !contains_char(transfer_from, ':') {
            extend(&mut b, &lit(":53"));
        }
        extend(&mut b, &lit("\n    }\n    transfer {\n        to *\n    }\n    log\n}"));
    } else {
        let file = zone_file_in(zones_dir, name);
        extend(&mut b, &lit(" {\n    file \""));
        extend(&mut b, &chars_of(path_text_of(&file).as_str()));
        extend(&mut b, &lit("\"\n    transfer {\n        to *\n    }\n    log\n}"));
    }
    b
}

/// The Corefile for the given zones, with zone files in `zones_dir`.
pub fn generate_corefile_in(
    zones_dir: &[u8],
    zone_names: &[String],
    port: u16,
    accept_transfers: bool,
    transfer_from: &str,
) -> (r: String)
    ensures
        r@ == corefile_text(zones_dir@, strings(zone_names@), port, accept_transfers, transfer_from@),
{
    let from = chars_of(transfer_from);
    let mut blocks: Vec<Vec<char>> = Vec::new();
    let ghost spec_blocks = Seq::new(
        zone_names@.len(),
        |i: int| zone_block(zones_dir@, zone_names@[i]@, port, accept_transfers, transfer_from@),
    );
    let mut i: usize = 0;
    while i < zone_names.len()
        invariant
            i <= zone_names.len(),
            from@ == transfer_from@,
            spec_blocks == Seq::new(
                zone_names@.len(),
                |i: int| zone_block(zones_dir@, zone_names@[i]@, port, accept_transfers, transfer_from@),
            ),
            texts(blocks@) == spec_blocks.take(i as int),
        decreases zone_names.len() - i,
    {
        let b = zone_block_of(zones_dir, zone_names[i].as_str(), port, accept_transfers, &from);
        let ghost old_blocks = texts(blocks@);
        assert(b@ == spec_blocks[i as int]);
        blocks.push(b);
        assert(texts(blocks@) =~= old_blocks.push(b@));
        assert(spec_blocks.take(i + 1) =~= spec_blocks.take(i as int).push(spec_blocks[i as int]));
        i = i + 1;
    }
    assert(spec_blocks.take(zone_names.len() as int) =~= spec_blocks);
    assert(Seq::new(
        strings(zone_names@).len(),
        |i: int| zone_block(zones_dir@, strings(zone_names@)[i], port, accept_transfers, transfer_from@),
    ) =~= spec_blocks);
    string_of(&join_texts(&blocks, &lit("\n\n")))
}

/// The Corefile of an identity for the given zones.
pub fn generate_corefile(
    identity: &str,
    zone_names: &[String],
    port: u16,
    accept_transfers: bool,
    transfer_from: &str,
) -> (r: String)
    ensures
        exists|home: Option<Seq<u8>>|
            r@ == corefile_text(
                zones_path(app_dir_from(home), identity@),
                strings(zone_names@),
                port,
                accept_transfers,
                transfer_from@,
            ),
{
    let app = app_dir();
    let dir = zones_dir_in(&app, identity);
    generate_corefile_in(&dir, zone_names, port, accept_transfers, transfer_from)
}

/// Where the Corefile of an identity for a port lives, under a data directory.
pub open spec fn corefile_file_path(app: Seq<u8>, identity: Seq<char>, port: u16) -> Seq<u8> {
    path_join(identity_path(app, identity), encode_utf8("Corefile."@ + decimal(port as nat)))
}

/// An identity's Corefiles lie inside its directory.
pub proof fn law_corefile_inside(app: Seq<u8>, identity: Seq<char>, port: u16)
    ensures
        lies_under(corefile_file_path(app, identity, port), identity_path(app, identity)),
{
    reveal_strlit("Corefile.");
    let name = "Corefile."@ + decimal(port as nat);
    assert(name[0] == 'C');
    crate::paths::lemma_relative_text(name);
    crate::paths::lemma_join_under(identity_path(app, identity), encode_utf8(name));
}

pub fn corefile_path_in(app: &[u8], identity: &str, port: u16) -> (r: Vec<u8>)
    ensures
        r@ == corefile_file_path(app@, identity@, port),
{
    let dir = identity_dir_in(app, identity);
    let mut name = lit("Corefile.");
    extend(&mut name, &decimal_of(port as u64));
    join_path(&dir, &bytes_of(string_of(&name).as_str()))
}

/// Where the Corefile of an identity for a port lives.
pub fn corefile_path(identity: &str, port: u16) -> (r: Vec<u8>)
    ensures
        exists|home: Option<Seq<u8>>| r@ == corefile_file_path(app_dir_from(home), identity@, port),
{
    let app = app_dir();
    corefile_path_in(&app, identity, port)
}

} // verus!
