//! Turning CoreDNS log lines into the messages shown to the user.

use vstd::prelude::*;
use crate::text::{
    chars_of, concat, contains_char, contains_text, extend, find, find_in, first_word, has_text,
    has_prefix, lit, occurs_at, lower_text, last_index, lemma_find_from, lemma_last_index, opt_string,
    opt_text, or_empty, replace_all, replace_all_of, rfind_char, slice_of, starts_with,
    string_of, to_lowercase, trim, trim_end, trim_end_of, trim_of, trim_start, trim_start_of,
    words, CharClass,
};

verus! {

broadcast use vstd::string::group_string_axioms;

// ---------------------------------------------------------------------------
// Pieces of a log line
// ---------------------------------------------------------------------------

/// The first word after `marker`, without trailing dots and surrounding
/// double quotes, if not empty.
pub open spec fn after_marker(line: Seq<char>, marker: Seq<char>) -> Option<Seq<char>> {
    match find(line, marker) {
        None => None,
        Some(i) => {
            let ws = words(line.skip(i + marker.len()));
            if ws.len() == 0 {
                None
            } else {
                let w = trim(trim_end(ws[0], CharClass::Exactly('.')), CharClass::Exactly('"'));
                if w.len() == 0 {
                    None
                } else {
                    Some(w)
                }
            }
        },
    }
}

/// The zone named by the last word before `marker`, lower-cased, if it has a
/// dot.
pub open spec fn zone_before(line: Seq<char>, marker: Seq<char>) -> Option<Seq<char>> {
    match find(line, marker) {
        None => None,
        Some(i) => {
            let before = trim(
                trim_end(trim(line.take(i), CharClass::Whitespace), CharClass::Exactly('-')),
                CharClass::Whitespace,
            );
            let fqdn = match last_index(before, ' ') {
                Some(j) => before.skip(j + 1),
                None => before,
            };
            let zone = lower_text(
                trim_end(
                    trim(trim(fqdn, CharClass::Exactly('\'')), CharClass::Exactly('`')),
                    CharClass::Exactly('.'),
                ),
            );
            if zone.contains('.') {
                Some(zone)
            } else {
                None
            }
        },
    }
}

/// The zone named by the first word after `marker`, lower-cased, if it has a
/// dot.
pub open spec fn zone_after(line: Seq<char>, marker: Seq<char>) -> Option<Seq<char>> {
    match find(line, marker) {
        None => None,
        Some(i) => {
            let ws = words(line.skip(i + marker.len()));
            if ws.len() == 0 {
                None
            } else {
                let zone = lower_text(trim_end(ws[0], CharClass::Exactly('.')));
                if zone.contains('.') {
                    Some(zone)
                } else {
                    None
                }
            }
        },
    }
}

/// Text after `rest` with its colon prefix removed, as `": text"`, if any.
pub open spec fn reason_text(rest: Seq<char>) -> Option<Seq<char>> {
    let r = trim(
        trim_start(trim(rest, CharClass::Whitespace), CharClass::Exactly(':')),
        CharClass::Whitespace,
    );
    if r.len() == 0 {
        None
    } else {
        Some(": "@ + r)
    }
}

/// What follows `zone.` in the line, as `": reason"`, if anything does.
pub open spec fn after_zone(line: Seq<char>, zone: Seq<char>) -> Option<Seq<char>> {
    let fqdn = zone + "."@;
    match find(line, fqdn) {
        None => None,
        Some(i) => reason_text(line.skip(i + fqdn.len())),
    }
}

/// The trimmed text between the first `start` and the next `end`.
pub open spec fn between(line: Seq<char>, start: Seq<char>, end: Seq<char>) -> Option<Seq<char>> {
    match find(line, start) {
        None => None,
        Some(i) => {
            let s = i + start.len();
            match find(line.skip(s), end) {
                None => None,
                Some(j) => Some(trim(line.subrange(s, s + j), CharClass::Whitespace)),
            }
        },
    }
}

fn after_marker_of(line: &[char], marker: &[char]) -> (r: Option<Vec<char>>)
    ensures
        opt_text(r) == after_marker(line@, marker@),
{
    match find_in(line, marker) {
        None => None,
        Some(i) => {
            proof {
                lemma_find_from(line@, marker@, 0);
                assert(occurs_at(line@, marker@, i as int));
                assert(i + marker.len() <= line.len());
            }
            let after = slice_of(line, i + marker.len(), line.len());
            assert(after@ =~= line@.skip(i + marker.len()));
            match first_word(&after) {
                None => None,
                Some(w) => {
                    let w = trim_of(&trim_end_of(&w, CharClass::Exactly('.')), CharClass::Exactly('"'));
                    if w.len() == 0 {
                        None
                    } else {
                        Some(w)
                    }
                },
            }
        },
    }
}

fn zone_before_of(line: &[char], marker: &[char]) -> (r: Option<Vec<char>>)
    ensures
        opt_text(r) == zone_before(line@, marker@),
{
    match find_in(line, marker) {
        None => None,
        Some(i) => {
            proof {
                lemma_find_from(line@, marker@, 0);
                assert(occurs_at(line@, marker@, i as int));
                assert(i + marker.len() <= line.len());
            }
            let head = slice_of(line, 0, i);
            assert(head@ =~= line@.take(i as int));
            let before = trim_of(
                &trim_end_of(&trim_of(&head, CharClass::Whitespace), CharClass::Exactly('-')),
                CharClass::Whitespace,
            );
            let fqdn = match rfind_char(&before, ' ') {
                Some(j) => {
                    proof {
                        lemma_last_index(before@, ' ');
                        assert(j < before.len());
                    }
                    let f = slice_of(&before, j + 1, before.len());
                    assert(f@ =~= before@.skip(j + 1));
                    f
                },
                None => {
                    let f = slice_of(&before, 0, before.len());
                    assert(f@ =~= before@);
                    f
                },
            };
            let bare = trim_end_of(
                &trim_of(&trim_of(&fqdn, CharClass::Exactly('\'')), CharClass::Exactly('`')),
                CharClass::Exactly('.'),
            );
            let zone = to_lowercase(&bare);
            if contains_char(&zone, '.') {
                Some(zone)
            } else {
                None
            }
        },
    }
}

fn zone_after_of(line: &[char], marker: &[char]) -> (r: Option<Vec<char>>)
    ensures
        opt_text(r) == zone_after(line@, marker@),
{
    match find_in(line, marker) {
        None => None,
        Some(i) => {
            proof {
                lemma_find_from(line@, marker@, 0);
                assert(occurs_at(line@, marker@, i as int));
                assert(i + marker.len() <= line.len());
            }
            let after = slice_of(line, i + marker.len(), line.len());
            assert(after@ =~= line@.skip(i + marker.len()));
            match first_word(&after) {
                None => None,
                Some(w) => {
                    let zone = to_lowercase(&trim_end_of(&w, CharClass::Exactly('.')));
                    if contains_char(&zone, '.') {
                        Some(zone)
                    } else {
                        None
                    }
                },
            }
        },
    }
}

fn reason_text_of(rest: &[char]) -> (r: Option<Vec<char>>)
    ensures
        opt_text(r) == reason_text(rest@),
{
    let t = trim_of(
        &trim_start_of(&trim_of(rest, CharClass::Whitespace), CharClass::Exactly(':')),
        CharClass::Whitespace,
    );
    if t.len() == 0 {
        None
    } else {
        Some(concat(&lit(": "), &t))
    }
}

fn after_zone_of(line: &[char], zone: &[char]) -> (r: Option<Vec<char>>)
    ensures
        opt_text(r) == after_zone(line@, zone@),
{
    let fqdn = concat(zone, &lit("."));
    match find_in(line, &fqdn) {
        None => None,
        Some(i) => {
            proof {
                lemma_find_from(line@, fqdn@, 0);
                assert(occurs_at(line@, fqdn@, i as int));
                assert(i + fqdn.len() <= line.len());
            }
            let rest = slice_of(line, i + fqdn.len(), line.len());
            assert(rest@ =~= line@.skip(i + fqdn.len()));
            reason_text_of(&rest)
        },
    }
}

fn between_of(line: &[char], start: &[char], end: &[char]) -> (r: Option<Vec<char>>)
    ensures
        opt_text(r) == between(line@, start@, end@),
{
    match find_in(line, start) {
        None => None,
        Some(i) => {
            proof {
                lemma_find_from(line@, start@, 0);
                assert(occurs_at(line@, start@, i as int));
                assert(i + start.len() <= line.len());
            }
            let s = i + start.len();
            let rest = slice_of(line, s, line.len());
            assert(rest@ =~= line@.skip(s as int));
            match find_in(&rest, end) {
                None => None,
                Some(j) => {
                    proof {
                        lemma_find_from(rest@, end@, 0);
                assert(occurs_at(rest@, end@, j as int));
                assert(j + end.len() <= rest.len());
                    }
                    let mid = slice_of(line, s, s + j);
                    Some(trim_of(&mid, CharClass::Whitespace))
                },
            }
        },
    }
}

fn opt_to_string(o: Option<Vec<char>>) -> (r: Option<String>)
    ensures
        opt_string(r) == opt_text(o),
{
    match o {
        Some(v) => Some(string_of(&v)),
        None => None,
    }
}

/// The first word after `marker`, without trailing dots and surrounding
/// double quotes, if that leaves anything.
pub fn extract_after_marker(line: &str, marker: &str) -> (r: Option<String>)
    ensures
        opt_string(r) == after_marker(line@, marker@),
{
    opt_to_string(after_marker_of(&chars_of(line), &chars_of(marker)))
}

/// The lower-cased zone named by the last word before `marker`, if it has a
/// dot.
pub fn extract_zone_before(line: &str, marker: &str) -> (r: Option<String>)
    ensures
        opt_string(r) == zone_before(line@, marker@),
{
    opt_to_string(zone_before_of(&chars_of(line), &chars_of(marker)))
}

/// The lower-cased zone named by the first word after `marker`, if it has a
/// dot.
pub fn extract_zone_after(line: &str, marker: &str) -> (r: Option<String>)
    ensures
        opt_string(r) == zone_after(line@, marker@),
{
    opt_to_string(zone_after_of(&chars_of(line), &chars_of(marker)))
}

/// What follows `zone.` in the line, as `": reason"`, if anything does.
pub fn extract_after_zone(line: &str, zone: &str) -> (r: Option<String>)
    ensures
        opt_string(r) == after_zone(line@, zone@),
{
    opt_to_string(after_zone_of(&chars_of(line), &chars_of(zone)))
}

/// The trimmed text between the first `start` and the next `end`.
pub fn extract_between(line: &str, start: &str, end: &str) -> (r: Option<String>)
    ensures
        opt_string(r) == between(line@, start@, end@),
{
    opt_to_string(between_of(&chars_of(line), &chars_of(start), &chars_of(end)))
}


// ---------------------------------------------------------------------------
// Log lines to messages
// ---------------------------------------------------------------------------

/// A message for the user interface: an event name and its payload.
pub struct LogEmission {
    pub event: String,
    pub payload: String,
}

pub open spec fn emission_views(v: Seq<LogEmission>) -> Seq<(Seq<char>, Seq<char>)> {
    Seq::new(v.len(), |i: int| (v[i].event@, v[i].payload@))
}

/// An error or warning line without its level tags and, where it names a
/// plugin, without the plugin prefix.
pub open spec fn cleaned_message(line: Seq<char>) -> Seq<char> {
    let c = trim(
        replace_all(replace_all(line, "[ERROR] "@, seq![]), "[WARNING] "@, seq![]),
        CharClass::Whitespace,
    );
    match find(c, "plugin/"@) {
        None => c,
        Some(idx) => {
            let after = c.skip(idx);
            match find(after, ": "@) {
                Some(i) => trim(after.skip(i + 2), CharClass::Whitespace),
                None => c,
            }
        },
    }
}

/// The messages for one CoreDNS log line, sent to event `evt` (and, for a
/// finished transfer, the zone to `sync-changed-<identity>`). Lines about
/// transfers and notifies are rewritten; other errors and warnings pass with
/// a clean prefix; everything else gives no message.
pub open spec fn log_emissions(line: Seq<char>, evt: Seq<char>, identity: Seq<char>) -> Seq<
    (Seq<char>, Seq<char>),
> {
    let is_error = has_text(line, "[ERROR]"@);
    let is_warn = has_text(line, "[WARNING]"@);
    if has_text(line, "Transferred:"@) {
        match zone_after(line, "Transferred: "@) {
            None => seq![],
            Some(zone) => {
                let from = or_empty(after_marker(line, "from "@));
                let msg = if from.len() == 0 {
                    "Transferred "@ + zone
                } else {
                    "Transferred "@ + zone + " from "@ + from
                };
                seq![(evt, msg), ("sync-changed-"@ + identity, zone)]
            },
        }
    } else if has_text(line, "Failed to transfer"@) {
        match zone_after(line, "Failed to transfer "@) {
            None => seq![],
            Some(zone) => seq![
                (evt, "[ERROR] Transfer failed for "@ + zone + or_empty(after_zone(line, zone))),
            ],
        }
    } else if has_text(line, "masters failed to transfer"@) {
        match zone_before(line, "masters"@) {
            None => seq![],
            Some(zone) => {
                let reason = match find(line, "transfer"@) {
                    Some(i) => or_empty(reason_text(line.skip(i + "transfer"@.len()))),
                    None => seq![],
                };
                seq![(evt, "[ERROR] Transfer failed for "@ + zone + reason)]
            },
        }
    } else if has_text(line, "Dropping notify"@) {
        match zone_after(line, "for "@) {
            None => seq![],
            Some(zone) => seq![
                (
                    evt,
                    "Received NOTIFY for "@ + zone + " from "@ + or_empty(
                        between(line, "from "@, " for"@),
                    ),
                ),
            ],
        }
    } else if has_text(line, "Outgoing transfer"@) {
        match zone_after(line, "of zone "@) {
            None => seq![],
            Some(zone) => {
                let to = or_empty(after_marker(line, "to "@));
                if starts_with(to, "127.0.0.1"@) {
                    seq![]
                } else if to.len() == 0 {
                    seq![(evt, "Serving "@ + zone + " via AXFR"@)]
                } else {
                    seq![(evt, "Serving "@ + zone + " via AXFR to "@ + to)]
                }
            },
        }
    } else if is_error || is_warn {
        let c = cleaned_message(line);
        if c.len() == 0 {
            seq![]
        } else {
            seq![
                (
                    evt,
                    (if is_error {
                        "[ERROR] "@
                    } else {
                        "[WARNING] "@
                    }) + c,
                ),
            ]
        }
    } else {
        seq![]
    }
}

/// Lines that are about no transfer or notify and carry no error or warning
/// tag (startup noise, query logs, reload notices) give no message.
pub proof fn law_quiet_lines(line: Seq<char>, evt: Seq<char>, identity: Seq<char>)
    requires
        !has_text(line, "Transferred:"@),
        !has_text(line, "Failed to transfer"@),
        !has_text(line, "masters failed to transfer"@),
        !has_text(line, "Dropping notify"@),
        !has_text(line, "Outgoing transfer"@),
        !has_text(line, "[ERROR]"@),
        !has_text(line, "[WARNING]"@),
    ensures
        log_emissions(line, evt, identity).len() == 0,
{
}

/// A finished transfer gives two messages: one for the log, and the zone on
/// the identity's sync channel.
pub proof fn law_transfer_syncs(line: Seq<char>, evt: Seq<char>, identity: Seq<char>)
    requires
        has_text(line, "Transferred:"@),
        zone_after(line, "Transferred: "@) is Some,
    ensures
        log_emissions(line, evt, identity).len() == 2,
        log_emissions(line, evt, identity)[1] == ("sync-changed-"@ + identity, zone_after(
            line,
            "Transferred: "@,
        )->0),
{
}

/// Zone transfers to the local host (the application reading its own server)
/// are not reported.
pub proof fn law_local_transfers_silent(line: Seq<char>, evt: Seq<char>, identity: Seq<char>)
    requires
        !has_text(line, "Transferred:"@),
        !has_text(line, "Failed to transfer"@),
        !has_text(line, "masters failed to transfer"@),
        !has_text(line, "Dropping notify"@),
        has_text(line, "Outgoing transfer"@),
        starts_with(or_empty(after_marker(line, "to "@)), "127.0.0.1"@),
    ensures
        log_emissions(line, evt, identity).len() == 0,
{
}

/// A log line gives at most two messages; the first goes to the log event,
/// and a second one only ever carries a transferred zone to the identity's
/// sync channel.
pub proof fn law_messages_go_to_log(line: Seq<char>, evt: Seq<char>, identity: Seq<char>)
    ensures
        log_emissions(line, evt, identity).len() <= 2,
        log_emissions(line, evt, identity).len() > 0 ==> log_emissions(line, evt, identity)[0].0
            == evt,
        log_emissions(line, evt, identity).len() == 2 ==> log_emissions(line, evt, identity)[1].0
            == "sync-changed-"@ + identity && has_text(line, "Transferred:"@),
{
}

/// A secondary zone whose transfer from every master failed is always
/// reported: once, on the log event, as an error naming the zone (with the
/// reason behind it, if the line gives one).
pub proof fn law_failed_secondary_reported(line: Seq<char>, evt: Seq<char>, identity: Seq<char>)
    requires
        has_text(line, "masters failed to transfer"@),
        !has_text(line, "Transferred:"@),
        !has_text(line, "Failed to transfer"@),
        zone_before(line, "masters"@) is Some,
    ensures
        log_emissions(line, evt, identity).len() == 1,
        log_emissions(line, evt, identity)[0].0 == evt,
        starts_with(
            log_emissions(line, evt, identity)[0].1,
            "[ERROR] Transfer failed for "@ + zone_before(line, "masters"@)->0,
        ),
{
    let p = "[ERROR] Transfer failed for "@ + zone_before(line, "masters"@)->0;
    let reason = match find(line, "transfer"@) {
        Some(i) => or_empty(reason_text(line.skip(i + "transfer"@.len()))),
        None => seq![],
    };
    assert((p + reason).take(p.len() as int) =~= p);
}

/// A finished transfer is reported on the log event as `Transferred <zone>`
/// (with its source, if the line names one), before the zone goes to the
/// sync channel.
pub proof fn law_transfer_reported(line: Seq<char>, evt: Seq<char>, identity: Seq<char>)
    requires
        has_text(line, "Transferred:"@),
        zone_after(line, "Transferred: "@) is Some,
    ensures
        log_emissions(line, evt, identity).len() == 2,
        log_emissions(line, evt, identity)[0].0 == evt,
        starts_with(
            log_emissions(line, evt, identity)[0].1,
            "Transferred "@ + zone_after(line, "Transferred: "@)->0,
        ),
{
    let p = "Transferred "@ + zone_after(line, "Transferred: "@)->0;
    let from = or_empty(after_marker(line, "from "@));
    assert((p + " from "@ + from).take(p.len() as int) =~= p);
    assert(p.take(p.len() as int) =~= p);
}

/// A failed transfer of a zone is reported once, on the log event, as an
/// error naming the zone.
pub proof fn law_failed_transfer_reported(line: Seq<char>, evt: Seq<char>, identity: Seq<char>)
    requires
        !has_text(line, "Transferred:"@),
        has_text(line, "Failed to transfer"@),
        zone_after(line, "Failed to transfer "@) is Some,
    ensures
        log_emissions(line, evt, identity).len() == 1,
        log_emissions(line, evt, identity)[0].0 == evt,
        starts_with(
            log_emissions(line, evt, identity)[0].1,
            "[ERROR] Transfer failed for "@ + zone_after(line, "Failed to transfer "@)->0,
        ),
{
    let z = zone_after(line, "Failed to transfer "@)->0;
    let p = "[ERROR] Transfer failed for "@ + z;
    assert((p + or_empty(after_zone(line, z))).take(p.len() as int) =~= p);
}

/// A NOTIFY that CoreDNS drops is reported once, on the log event, as
/// `Received NOTIFY for <zone> from <source>`.
pub proof fn law_notify_reported(line: Seq<char>, evt: Seq<char>, identity: Seq<char>)
    requires
        !has_text(line, "Transferred:"@),
        !has_text(line, "Failed to transfer"@),
        !has_text(line, "masters failed to transfer"@),
        has_text(line, "Dropping notify"@),
        zone_after(line, "for "@) is Some,
    ensures
        log_emissions(line, evt, identity) == seq![
            (
                evt,
                "Received NOTIFY for "@ + zone_after(line, "for "@)->0 + " from "@ + or_empty(
                    between(line, "from "@, " for"@),
                ),
            ),
        ],
{
}

/// A transfer served to another host is reported once, on the log event, as
/// `Serving <zone> via AXFR` (with the receiver, if the line names one).
pub proof fn law_outgoing_transfer_reported(line: Seq<char>, evt: Seq<char>, identity: Seq<char>)
    requires
        !has_text(line, "Transferred:"@),
        !has_text(line, "Failed to transfer"@),
        !has_text(line, "masters failed to transfer"@),
        !has_text(line, "Dropping notify"@),
        has_text(line, "Outgoing transfer"@),
        zone_after(line, "of zone "@) is Some,
        !starts_with(or_empty(after_marker(line, "to "@)), "127.0.0.1"@),
    ensures
        log_emissions(line, evt, identity).len() == 1,
        log_emissions(line, evt, identity)[0].0 == evt,
        starts_with(
            log_emissions(line, evt, identity)[0].1,
            "Serving "@ + zone_after(line, "of zone "@)->0 + " via AXFR"@,
        ),
{
    let p = "Serving "@ + zone_after(line, "of zone "@)->0 + " via AXFR"@;
    let to = or_empty(after_marker(line, "to "@));
    let z = zone_after(line, "of zone "@)->0;
    reveal_strlit(" via AXFR to ");
    reveal_strlit(" via AXFR");
    reveal_strlit(" to ");
    assert("Serving "@ + z + " via AXFR to "@ + to =~= p + " to "@ + to);
    assert((p + " to "@ + to).take(p.len() as int) =~= p);
    assert(p.take(p.len() as int) =~= p);
}

/// Any other error or warning with something left to say is passed on once,
/// on the log event, with its level.
pub proof fn law_other_problems_passed_on(line: Seq<char>, evt: Seq<char>, identity: Seq<char>)
    requires
        !has_text(line, "Transferred:"@),
        !has_text(line, "Failed to transfer"@),
        !has_text(line, "masters failed to transfer"@),
        !has_text(line, "Dropping notify"@),
        !has_text(line, "Outgoing transfer"@),
        has_text(line, "[ERROR]"@) || has_text(line, "[WARNING]"@),
        cleaned_message(line).len() > 0,
    ensures
        log_emissions(line, evt, identity).len() == 1,
        log_emissions(line, evt, identity)[0].0 == evt,
        has_text(line, "[ERROR]"@) ==> log_emissions(line, evt, identity)[0].1 == "[ERROR] "@
            + cleaned_message(line),
        !has_text(line, "[ERROR]"@) ==> log_emissions(line, evt, identity)[0].1 == "[WARNING] "@
            + cleaned_message(line),
{
}

fn text_or_empty(o: Option<Vec<char>>) -> (r: Vec<char>)
    ensures
        r@ == or_empty(opt_text(o)),
{
    match o {
        Some(v) => v,
        None => Vec::new(),
    }
}

fn cleaned_message_of(line: &[char]) -> (r: Vec<char>)
    ensures
        r@ == cleaned_message(line@),
{
    let e = lit("[ERROR] ");
    let w = lit("[WARNING] ");
    proof {
        reveal_strlit("[ERROR] ");
        reveal_strlit("[WARNING] ");
    }
    let none: Vec<char> = Vec::new();
    let a = replace_all_of(line, &e, &none);
    let b = replace_all_of(&a, &w, &none);
    assert(none@ =~= Seq::<char>::empty());
    let c = trim_of(&b, CharClass::Whitespace);
    let plugin = lit("plugin/");
    match find_in(&c, &plugin) {
        None => c,
        Some(idx) => {
            proof {
                lemma_find_from(c@, plugin@, 0);
                assert(occurs_at(c@, plugin@, idx as int));
                assert(idx <= c.len());
            }
            let after = slice_of(&c, idx, c.len());
            assert(after@ =~= c@.skip(idx as int));
            match find_in(&after, &lit(": ")) {
                Some(i) => {
                    let sep = lit(": ");
                    proof {
                        reveal_strlit(": ");
                        lemma_find_from(after@, sep@, 0);
                        assert(occurs_at(after@, sep@, i as int));
                        assert(i + 2 <= after.len());
                    }
                    let t = slice_of(&after, i + 2, after.len());
                    assert(t@ =~= after@.skip(i + 2));
                    trim_of(&t, CharClass::Whitespace)
                },
                None => c,
            }
        },
    }
}

fn emit(out: &mut Vec<LogEmission>, event: &[char], payload: &[char])
    ensures
        emission_views(final(out)@) == emission_views(old(out)@).push((event@, payload@)),
{
    out.push(LogEmission { event: string_of(event), payload: string_of(payload) });
    assert(emission_views(out@) =~= emission_views(old(out)@).push((event@, payload@)));
}

/// The messages for one CoreDNS log line (see `log_emissions`).
pub fn process_log_line(line: &str, evt: &str, identity: &str) -> (r: Vec<LogEmission>)
    ensures
        emission_views(r@) == log_emissions(line@, evt@, identity@),
{
    let l = chars_of(line);
    let ev = chars_of(evt);
    let mut out: Vec<LogEmission> = Vec::new();
    assert(emission_views(out@) =~= Seq::<(Seq<char>, Seq<char>)>::empty());
    let is_error = contains_text(&l, &lit("[ERROR]"));
    let is_warn = contains_text(&l, &lit("[WARNING]"));
    if contains_text(&l, &lit("Transferred:")) {
        if let Some(zone) = zone_after_of(&l, &lit("Transferred: ")) {
            let from = text_or_empty(after_marker_of(&l, &lit("from ")));
            let mut msg = concat(&lit("Transferred "), &zone);
            if from.len() != 0 {
                extend(&mut msg, &lit(" from "));
                extend(&mut msg, &from);
            }
            emit(&mut out, &ev, &msg);
            let sync = concat(&lit("sync-changed-"), &chars_of(identity));
            emit(&mut out, &sync, &zone);
        }
    } else if contains_text(&l, &lit("Failed to transfer")) {
        if let Some(zone) = zone_after_of(&l, &lit("Failed to transfer ")) {
            let reason = text_or_empty(after_zone_of(&l, &zone));
            let mut msg = concat(&lit("[ERROR] Transfer failed for "), &zone);
            extend(&mut msg, &reason);
            emit(&mut out, &ev, &msg);
        }
    } else if contains_text(&l, &lit("masters failed to transfer")) {
        if let Some(zone) = zone_before_of(&l, &lit("masters")) {
            let tr = lit("transfer");
            let reason = match find_in(&l, &tr) {
                Some(i) => {
                    proof {
                        lemma_find_from(l@, tr@, 0);
                        assert(occurs_at(l@, tr@, i as int));
                        assert(i + tr.len() <= l.len());
                    }
                    let rest = slice_of(&l, i + tr.len(), l.len());
                    assert(rest@ =~= l@.skip(i + tr@.len()));
                    text_or_empty(reason_text_of(&rest))
                },
                None => Vec::new(),
            };
            let mut msg = concat(&lit("[ERROR] Transfer failed for "), &zone);
            extend(&mut msg, &reason);
            emit(&mut out, &ev, &msg);
        }
    } else if contains_text(&l, &lit("Dropping notify")) {
        if let Some(zone) = zone_after_of(&l, &lit("for ")) {
            let src = text_or_empty(between_of(&l, &lit("from "), &lit(" for")));
            let mut msg = concat(&lit("Received NOTIFY for "), &zone);
            extend(&mut msg, &lit(" from "));
            extend(&mut msg, &src);
            emit(&mut out, &ev, &msg);
        }
    } else if contains_text(&l, &lit("Outgoing transfer")) {
        if let Some(zone) = zone_after_of(&l, &lit("of zone ")) {
            let to = text_or_empty(after_marker_of(&l, &lit("to ")));
            if !has_prefix(&to, &lit("127.0.0.1")) {
                let mut msg = concat(&lit("Serving "), &zone);
                if to.len() == 0 {
                    extend(&mut msg, &lit(" via AXFR"));
                } else {
                    extend(&mut msg, &lit(" via AXFR to "));
                    extend(&mut msg, &to);
                }
                emit(&mut out, &ev, &msg);
            }
        }
    } else if is_error || is_warn {
        let c = cleaned_message_of(&l);
        if c.len() != 0 {
            let mut msg = if is_error {
                lit("[ERROR] ")
            } else {
                lit("[WARNING] ")
            };
            extend(&mut msg, &c);
            emit(&mut out, &ev, &msg);
        }
    }
    proof {
        assert(emission_views(out@) =~= log_emissions(line@, evt@, identity@));
    }
    out
}

} // verus!
