//! Zone files: the template of a new zone, SOA serial bumping, conversion of
//! AXFR output to BIND zone files, and the zone files of a directory.

use vstd::prelude::*;
use crate::calendar::{date_serial, serial_for_time};
use crate::clock::unix_time;
use vstd::utf8::encode_utf8;
use crate::paths::{bytes_of, join_path, path_join};
use crate::text::{
    starts_with, last_index, lemma_last_index, rfind_char, lower_text, to_lowercase, text_le, text_le_of,
    strings, lemma_text_le_total, lemma_text_le_antisymmetric, lemma_text_le_transitive,
    concat, ends_with, extend, has_suffix, same, split_words, to_uppercase, upper_text,
    chars_of, contains_text, decimal, decimal_of, first_word, has_text, join, join_texts, lines, lit,
    parse_bounded, parse_unsigned, replace_first, replace_first_of, slice_of, split_lines,
    string_of, texts, trim, trim_of, words, CharClass, find, is_ws, occurs_at, lead_len, tail_len,
    is_ascii_text, ascii_lower,
};

verus! {

broadcast use vstd::string::group_string_axioms;

/// The marker of the SOA serial line.
pub open spec fn serial_marker() -> Seq<char> {
    "; Serial"@
}

/// Whether a line is a serial line: its trimmed text holds the marker.
pub open spec fn marks_serial(line: Seq<char>) -> bool {
    has_text(trim(line, CharClass::Whitespace), serial_marker())
}

/// The first line, at or after `k`, whose trimmed text holds the serial marker.
pub open spec fn serial_line_from(ls: Seq<Seq<char>>, k: int) -> Option<int>
    decreases ls.len() - k,
{
    if k < 0 || k >= ls.len() {
        None
    } else if marks_serial(ls[k]) {
        Some(k)
    } else {
        serial_line_from(ls, k + 1)
    }
}

/// The value of the serial on a serial line: its first word read as a `u32`.
pub open spec fn line_serial(line: Seq<char>) -> Option<nat> {
    let ws = words(trim(line, CharClass::Whitespace));
    if ws.len() > 0 {
        parse_unsigned(ws[0], u32::MAX as nat)
    } else {
        None
    }
}

/// The serial of a zone file: that of its first serial line, if it reads.
pub open spec fn zone_serial(content: Seq<char>) -> Option<nat> {
    match serial_line_from(lines(content), 0) {
        Some(i) => line_serial(lines(content)[i]),
        None => None,
    }
}

/// The next serial: one more than the old, or the date's serial if that is
/// larger.
pub open spec fn next_serial(serial: nat, base: nat) -> nat {
    if serial >= base {
        serial + 1
    } else {
        base
    }
}

/// A serial line with its serial replaced by the next one.
pub open spec fn bump_line(line: Seq<char>, base: nat) -> Seq<char> {
    match line_serial(line) {
        Some(v) => replace_first(line, decimal(v), decimal(next_serial(v, base))),
        None => line,
    }
}

/// A zone file after bumping its serial at Unix time `secs`: its lines, with
/// the first serial line bumped, joined by `\n`.
pub open spec fn bumped_zone(content: Seq<char>, secs: nat) -> Seq<char> {
    let ls = lines(content);
    match serial_line_from(ls, 0) {
        Some(i) => join(ls.update(i, bump_line(ls[i], date_serial(secs))), "\n"@),
        None => join(ls, "\n"@),
    }
}

/// The next serial is larger than the old one and no smaller than the date's
/// serial.
pub proof fn law_next_serial_grows(serial: nat, base: nat)
    ensures
        next_serial(serial, base) > serial,
        next_serial(serial, base) >= base,
{
}

/// A zone file without a serial line, without carriage returns and without a
/// final newline comes out of bumping unchanged.
pub proof fn law_bump_without_serial_keeps_text(content: Seq<char>, secs: nat)
    requires
        serial_line_from(lines(content), 0) is None,
        !content.contains('\r'),
        !(content.len() > 0 && content.last() == '\n'),
    ensures
        bumped_zone(content, secs) == content,
{
    crate::text::law_lines_join(content);
}

/// Whether a serial line's serial is written plainly: its first word is the
/// decimal text of its value (no sign, no leading zeros).
pub open spec fn plain_serial_line(line: Seq<char>) -> bool {
    match line_serial(line) {
        Some(v) => words(trim(line, CharClass::Whitespace))[0] == decimal(v),
        None => false,
    }
}

/// Whether a zone file has a serial line whose serial is written plainly.
pub open spec fn plain_serial(content: Seq<char>) -> bool {
    match serial_line_from(lines(content), 0) {
        Some(i) => plain_serial_line(lines(content)[i]),
        None => false,
    }
}

proof fn lemma_serial_line_from(ls: Seq<Seq<char>>, k: int)
    requires
        0 <= k,
    ensures
        serial_line_from(ls, k) matches Some(i) ==> k <= i < ls.len() && marks_serial(ls[i])
            && forall|j: int| k <= j < i ==> !#[trigger] marks_serial(ls[j]),
        serial_line_from(ls, k) is None ==> forall|j: int|
            k <= j < ls.len() ==> !#[trigger] marks_serial(ls[j]),
    decreases ls.len() - k,
{
    if k < ls.len() && !marks_serial(ls[k]) {
        lemma_serial_line_from(ls, k + 1);
    }
}

proof fn lemma_serial_line_at(ls: Seq<Seq<char>>, k: int, i: int)
    requires
        0 <= k <= i < ls.len(),
        marks_serial(ls[i]),
        forall|j: int| k <= j < i ==> !#[trigger] marks_serial(ls[j]),
    ensures
        serial_line_from(ls, k) == Some(i),
    decreases i - k,
{
    if k < i {
        lemma_serial_line_at(ls, k + 1, i);
    }
}

/// The first occurrence of `p` in `s` is at `a` when it occurs there and
/// nowhere before.
proof fn lemma_find_first(s: Seq<char>, p: Seq<char>, a: int)
    requires
        occurs_at(s, p, a),
        forall|j: int| 0 <= j < a ==> !#[trigger] occurs_at(s, p, j),
    ensures
        find(s, p) == Some(a),
{
    crate::text::lemma_find_from(s, p, 0);
}

/// Bumping a plainly written serial line keeps it a serial line, written
/// plainly, and makes its serial the next one.
proof fn lemma_bump_line(line: Seq<char>, base: nat)
    requires
        marks_serial(line),
        plain_serial_line(line),
        next_serial(line_serial(line).unwrap(), base) <= u32::MAX,
    ensures
        marks_serial(bump_line(line, base)),
        line_serial(bump_line(line, base)) == Some(next_serial(line_serial(line).unwrap(), base)),
        plain_serial_line(bump_line(line, base)),
        bump_line(line, base).len() > 0,
        !line.contains('\n') ==> !bump_line(line, base).contains('\n'),
{
    let ws = CharClass::Whitespace;
    let v = line_serial(line).unwrap();
    let n = next_serial(v, base);
    let dv = decimal(v);
    let dn = decimal(n);
    crate::text::lemma_decimal_digits(v);
    crate::text::lemma_decimal_digits(n);
    reveal_strlit("; Serial");
    let a = lead_len(line, ws) as int;
    crate::text::lemma_lead_len(line, ws);
    let t0 = line.skip(a);
    let t = trim(line, ws);
    crate::text::lemma_tail_len(t0, ws);
    assert(t == t0.take(t0.len() - tail_len(t0, ws)));
    // The trimmed line holds the marker, so it is not empty.
    let m = find(t, serial_marker());
    crate::text::lemma_find_from(t, serial_marker(), 0);
    let jm = m.unwrap();
    assert(t.len() > 0);
    assert(t[0] == line[a]);
    assert(!is_ws(t[0]));
    // Its first word is the serial's digits.
    let r = crate::text::run_len(t, ws);
    crate::text::lemma_run_len(t, ws);
    assert(words(t) == seq![t.take(r as int)] + words(t.skip(r as int)));
    assert(t.take(r as int) == dv);
    assert(r == dv.len());
    // The serial's digits first occur where the trimmed text starts.
    assert(line.subrange(a, a + dv.len()) =~= dv) by {
        assert forall|q: int| 0 <= q < dv.len() implies line.subrange(a, a + dv.len())[q] == dv[q] by {
            assert(t[q] == line[a + q]);
            assert(t.take(r as int)[q] == t[q]);
        }
    }
    assert forall|j: int| 0 <= j < a implies !#[trigger] occurs_at(line, dv, j) by {
        if occurs_at(line, dv, j) {
            assert(line.subrange(j, j + dv.len())[0] == line[j]);
            assert(is_ws(line[j]));
            assert(crate::text::is_digit(dv[0]));
        }
    }
    lemma_find_first(line, dv, a);
    let x = line.skip(a + dv.len());
    let nl = line.take(a) + dn + x;
    assert(bump_line(line, base) == nl);
    assert(t0 =~= dv + x);
    // Trimming the bumped line.
    assert forall|q: int| 0 <= q < line.take(a).len() implies crate::text::in_class(
        ws,
        #[trigger] line.take(a)[q],
    ) by {
        assert(line.take(a)[q] == line[q]);
    }
    assert(nl =~= line.take(a) + (dn + x));
    crate::text::lemma_lead_len_concat(line.take(a), dn + x, ws);
    assert((dn + x)[0] == dn[0]);
    assert(lead_len(dn + x, ws) == 0);
    assert(crate::text::trim_start(nl, ws) =~= dn + x);
    assert(!crate::text::in_class(ws, dv.last()));
    assert(!crate::text::in_class(ws, dn.last()));
    crate::text::lemma_trim_end_concat(dv, x, ws);
    crate::text::lemma_trim_end_concat(dn, x, ws);
    let rest = crate::text::trim_end(x, ws);
    assert(t == dv + rest);
    let t2 = trim(nl, ws);
    assert(t2 == dn + rest);
    // What follows the first word is empty or starts with whitespace.
    assert(rest.len() == 0 || is_ws(rest[0])) by {
        if rest.len() > 0 {
            assert(t[dv.len() as int] == rest[0]);
        }
    }
    assert forall|q: int| 0 <= q < dn.len() implies !crate::text::in_class(ws, #[trigger] dn[q]) by {
        assert(crate::text::is_digit(dn[q]));
    }
    crate::text::lemma_run_len_concat(dn, rest, ws);
    assert(crate::text::run_len(rest, ws) == 0);
    assert(t2[0] == dn[0]);
    assert(words(t2) == seq![t2.take(dn.len() as int)] + words(t2.skip(dn.len() as int)));
    assert(t2.take(dn.len() as int) =~= dn);
    assert(words(t2)[0] == dn);
    crate::text::law_decimal_round_trip(n, u32::MAX as nat);
    assert(line_serial(nl) == Some(n));
    // The marker lies behind the first word, and stays there.
    assert(jm >= dv.len()) by {
        if jm < dv.len() {
            assert(t.subrange(jm, jm + 8)[0] == t[jm]);
            assert(serial_marker()[0] == ';');
            assert(t[jm] == dv[jm]);
            assert(crate::text::is_digit(dv[jm]));
        }
    }
    let jn = jm - dv.len() + dn.len();
    assert(occurs_at(t2, serial_marker(), jn)) by {
        assert(t2.subrange(jn, jn + 8) =~= t.subrange(jm, jm + 8)) by {
            assert forall|q: int| 0 <= q < 8 implies #[trigger] t2.subrange(jn, jn + 8)[q]
                == t.subrange(jm, jm + 8)[q] by {
                assert(t2[jn + q] == rest[jm - dv.len() + q]);
                assert(t[jm + q] == rest[jm - dv.len() + q]);
            }
        }
    }
    crate::text::lemma_find_from(t2, serial_marker(), 0);
    assert(marks_serial(nl));
    assert(nl.len() > 0);
    if !line.contains('\n') {
        assert(!nl.contains('\n')) by {
            if nl.contains('\n') {
                let q = choose|q: int| 0 <= q < nl.len() && nl[q] == '\n';
                if q < a {
                    assert(nl[q] == line[q]);
                } else if q < a + dn.len() {
                    assert(nl[q] == dn[q - a]);
                    assert(crate::text::is_digit(dn[q - a]));
                } else {
                    assert(nl[q] == line[q - dn.len() + dv.len()]);
                }
            }
        }
    }
}

/// Reading the serial back after a bump gives the next serial: one more
/// than the old one, or the date's serial if that is larger. This holds
/// where the serial is written plainly and the next serial fits in a `u32`.
pub proof fn law_bumped_serial_reads_next(content: Seq<char>, secs: nat)
    requires
        plain_serial(content),
        next_serial(zone_serial(content).unwrap(), date_serial(secs)) <= u32::MAX,
    ensures
        zone_serial(bumped_zone(content, secs)) == Some(
            next_serial(zone_serial(content).unwrap(), date_serial(secs)),
        ),
        zone_serial(bumped_zone(content, secs)).unwrap() > zone_serial(content).unwrap(),
{
    let ls = lines(content);
    let base = date_serial(secs);
    lemma_serial_line_from(ls, 0);
    let i = serial_line_from(ls, 0).unwrap();
    let line = ls[i];
    let v = line_serial(line).unwrap();
    crate::text::lemma_lines_no_newline(content);
    lemma_bump_line(line, base);
    let nline = bump_line(line, base);
    let ls2 = ls.update(i, nline);
    assert forall|k: int| 0 <= k < ls2.len() implies !(#[trigger] ls2[k]).contains('\n') by {
        if k != i {
            assert(ls2[k] == ls[k]);
        }
    }
    crate::text::lemma_lines_of_join(ls2);
    let out = lines(join(ls2, "\n"@));
    assert(i < out.len()) by {
        if i == ls2.len() - 1 {
            assert(ls2.last() == nline);
        }
    }
    assert forall|j: int| 0 <= j < i implies !#[trigger] marks_serial(out[j]) by {
        assert(out[j] == crate::text::strip_cr(ls2[j]));
        assert(ls2[j] == ls[j]);
        assert(!marks_serial(ls[j]));
        crate::text::lemma_trim_strip_cr(ls[j]);
        assert(trim(out[j], CharClass::Whitespace) == trim(ls[j], CharClass::Whitespace));
    }
    crate::text::lemma_trim_strip_cr(nline);
    assert(out[i] == nline || out[i] == crate::text::strip_cr(nline)) by {
        if i < ls2.len() - 1 {
        } else {
            assert(ls2.last() == nline);
        }
    }
    assert(trim(out[i], CharClass::Whitespace) == trim(nline, CharClass::Whitespace));
    assert(marks_serial(out[i]));
    lemma_serial_line_at(out, 0, i);
    assert(line_serial(out[i]) == line_serial(nline));
    assert(bumped_zone(content, secs) == join(ls2, "\n"@));
}

/// Bumping changes no line but the serial line: every other line comes back
/// as it was (a line that ended in a carriage return before its newline
/// loses it, as the lines of a text are read without it).
pub proof fn law_bump_keeps_other_lines(content: Seq<char>, secs: nat, k: int)
    requires
        serial_line_from(lines(content), 0) != Some(k),
        0 <= k < lines(content).len() - 1,
    ensures
        k < lines(bumped_zone(content, secs)).len(),
        lines(bumped_zone(content, secs))[k] == crate::text::strip_cr(lines(content)[k]),
{
    let ls = lines(content);
    lemma_serial_line_from(ls, 0);
    crate::text::lemma_lines_no_newline(content);
    if serial_line_from(ls, 0) is None {
        crate::text::lemma_lines_of_join(ls);
    } else {
        let i = serial_line_from(ls, 0).unwrap();
        let ls2 = ls.update(i, bump_line(ls[i], date_serial(secs)));
        assert(!ls[i].contains('\n'));
        assert(!bump_line(ls[i], date_serial(secs)).contains('\n')) by {
            match line_serial(ls[i]) {
                Some(v) => {
                    let l = ls[i];
                    let r = replace_first(l, decimal(v), decimal(next_serial(v, date_serial(secs))));
                    crate::text::lemma_decimal_digits(next_serial(v, date_serial(secs)));
                    if r.contains('\n') {
                        let q = choose|q: int| 0 <= q < r.len() && r[q] == '\n';
                        match find(l, decimal(v)) {
                            Some(a) => {
                                crate::text::lemma_find_from(l, decimal(v), 0);
                                let dn = decimal(next_serial(v, date_serial(secs)));
                                if q < a {
                                    assert(r[q] == l[q]);
                                } else if q < a + dn.len() {
                                    assert(r[q] == dn[q - a]);
                                    assert(crate::text::is_digit(dn[q - a]));
                                } else {
                                    assert(r[q] == l[q - dn.len() + decimal(v).len()]);
                                }
                            },
                            None => {},
                        }
                    }
                },
                None => {},
            }
        }
        assert forall|t: int| 0 <= t < ls2.len() implies !(#[trigger] ls2[t]).contains('\n') by {
            if t != i {
                assert(ls2[t] == ls[t]);
            }
        }
        crate::text::lemma_lines_of_join(ls2);
        assert(ls2[k] == ls[k]);
    }
}

/// Whether the serial of the zone is the largest `u32`, which has no next.
pub fn serial_at_limit(content: &str) -> (r: bool)
    ensures
        r == (zone_serial(content@) == Some(u32::MAX as nat)),
{
    let chars = chars_of(content);
    let ls = split_lines(&chars);
    let marker = lit("; Serial");
    let mut i: usize = 0;
    while i < ls.len()
        invariant
            i <= ls.len(),
            texts(ls@) == lines(content@),
            marker@ == serial_marker(),
            serial_line_from(texts(ls@), 0) == serial_line_from(texts(ls@), i as int),
        decreases ls.len() - i,
    {
        let t = trim_of(&ls[i], CharClass::Whitespace);
        if contains_text(&t, &marker) {
            return match first_word(&t) {
                Some(w) => match parse_bounded(&w, 4294967295) {
                    Some(v) => v == 4294967295,
                    None => false,
                },
                None => false,
            };
        }
        i = i + 1;
    }
    false
}

/// Bumps the SOA serial of a zone file for Unix time `secs`.
pub fn bump_serial_at(content: &str, secs: u64) -> (r: String)
    requires
        zone_serial(content@) != Some(u32::MAX as nat),
    ensures
        r@ == bumped_zone(content@, secs as nat),
{
    let chars = chars_of(content);
    let mut ls = split_lines(&chars);
    let ghost ls0 = texts(ls@);
    let marker = lit("; Serial");
    let base = serial_for_time(secs);
    let mut i: usize = 0;
    while i < ls.len()
        invariant
            i <= ls.len(),
            ls0 == lines(content@),
            texts(ls@) == ls0,
            marker@ == serial_marker(),
            base as nat == date_serial(secs as nat),
            zone_serial(content@) != Some(u32::MAX as nat),
            serial_line_from(ls0, 0) == serial_line_from(ls0, i as int),
        decreases ls.len() - i,
    {
        let t = trim_of(&ls[i], CharClass::Whitespace);
        if contains_text(&t, &marker) {
            assert(serial_line_from(ls0, 0) == Some(i as int));
            match first_word(&t) {
                Some(w) => match parse_bounded(&w, 4294967295) {
                    Some(v) => {
                        let v = v as u32;
                        let next: u32 = if v >= base {
                            v + 1
                        } else {
                            base
                        };
                        let old_line = slice_of(&ls[i], 0, ls[i].len());
                        assert(old_line@ =~= ls0[i as int]);
                        let line = replace_first_of(&old_line, &decimal_of(v as u64), &decimal_of(next as u64));
                        ls.set(i, line);
                        assert(texts(ls@) =~= ls0.update(i as int, bump_line(ls0[i as int], base as nat)));
                    },
                    None => {
                        assert(ls0.update(i as int, bump_line(ls0[i as int], base as nat)) =~= ls0);
                    },
                },
                None => {
                    assert(ls0.update(i as int, bump_line(ls0[i as int], base as nat)) =~= ls0);
                },
            }
            let joined = join_texts(&ls, &lit("\n"));
            return string_of(&joined);
        }
        i = i + 1;
    }
    let joined = join_texts(&ls, &lit("\n"));
    string_of(&joined)
}

/// Bumps the SOA serial of a zone file for the current time: the first line
/// whose trimmed text holds `; Serial` gets, in place of its serial, one more
/// than it, or the date's `YYYYMMDD00` if that is larger. A clock that reads
/// before 1970 counts as 1970-01-01.
pub fn bump_serial(content: &str) -> (r: String)
    requires
        zone_serial(content@) != Some(u32::MAX as nat),
    ensures
        exists|secs: u64| r@ == bumped_zone(content@, secs as nat),
{
    let secs = match unix_time() {
        Some(t) => t.0,
        None => 0,
    };
    bump_serial_at(content, secs)
}


// ---------------------------------------------------------------------------
// AXFR output to BIND zone files
// ---------------------------------------------------------------------------

/// A line of `dig` output that is a record: not empty and not a comment.
pub open spec fn is_record_line(l: Seq<char>) -> bool {
    l.len() > 0 && l[0] != ';'
}

/// The record lines, in order.
pub open spec fn record_lines(ls: Seq<Seq<char>>) -> Seq<Seq<char>>
    decreases ls.len(),
{
    if ls.len() == 0 {
        seq![]
    } else if is_record_line(ls.last()) {
        record_lines(ls.drop_last()).push(ls.last())
    } else {
        record_lines(ls.drop_last())
    }
}

/// The records of a transfer without the repeated SOA that ends it.
pub open spec fn transfer_body(rs: Seq<Seq<char>>) -> Seq<Seq<char>> {
    if rs.len() > 1 {
        rs.drop_last()
    } else {
        rs
    }
}

/// An owner name relative to the zone: `@` for the apex, the labels before
/// `.zone.` for names in it, else the name as it is.
pub open spec fn relative_name(n: Seq<char>, zone: Seq<char>) -> Seq<char> {
    let suffix = "."@ + zone + "."@;
    if n == zone + "."@ {
        "@"@
    } else if ends_with(n, suffix) {
        n.take(n.len() - suffix.len())
    } else {
        n
    }
}

/// The zone file lines for one record line; lines with fewer than five fields
/// give none.
pub open spec fn record_out(line: Seq<char>, zone: Seq<char>) -> Seq<Seq<char>> {
    let parts = words(line);
    if parts.len() < 5 {
        seq![]
    } else {
        let name = relative_name(parts[0], zone);
        if upper_text(parts[3]) == "SOA"@ && parts.len() >= 11 {
            seq![
                name + "  "@ + parts[1] + "  "@ + parts[2] + "  SOA  "@ + parts[4] + " "@ + parts[5]
                    + " ("@,
                "    "@ + parts[6] + "    ; Serial"@,
                "    "@ + parts[7] + "    ; Refresh"@,
                "    "@ + parts[8] + "    ; Retry"@,
                "    "@ + parts[9] + "    ; Expire"@,
                "    "@ + parts[10] + "    ; Minimum TTL"@,
                ")"@,
            ]
        } else {
            seq![
                name + "  "@ + parts[1] + "  "@ + parts[2] + "  "@ + upper_text(parts[3]) + "  "@
                    + join(parts.skip(4), " "@),
            ]
        }
    }
}

/// The zone file lines for a sequence of record lines.
pub open spec fn records_out(rs: Seq<Seq<char>>, zone: Seq<char>) -> Seq<Seq<char>>
    decreases rs.len(),
{
    if rs.len() == 0 {
        seq![]
    } else {
        records_out(rs.drop_last(), zone) + record_out(rs.last(), zone)
    }
}

/// The BIND zone file for the output of `dig axfr` of a zone, or the error
/// when the output holds no record.
pub open spec fn bind_zone(raw: Seq<char>, zone: Seq<char>) -> Result<Seq<char>, Seq<char>> {
    let rs = record_lines(lines(raw));
    if rs.len() == 0 {
        Err("Empty AXFR response"@)
    } else {
        let out = seq!["$ORIGIN "@ + zone + "."@] + records_out(transfer_body(rs), zone);
        Ok(join(out, "\n"@) + "\n"@)
    }
}

/// A converted zone file starts with its `$ORIGIN` line and ends with a
/// newline; the conversion fails exactly when the output holds no record.
pub proof fn law_bind_zone_shape(raw: Seq<char>, zone: Seq<char>)
    ensures
        bind_zone(raw, zone) is Err <==> record_lines(lines(raw)).len() == 0,
        bind_zone(raw, zone) matches Ok(t) ==> starts_with(t, "$ORIGIN "@ + zone + ".\n"@)
            && t.last() == '\n',
{
    reveal_strlit("\n");
    reveal_strlit(".\n");
    reveal_strlit(".");
    let rs = record_lines(lines(raw));
    if rs.len() > 0 {
        let first = "$ORIGIN "@ + zone + "."@;
        let rest = records_out(transfer_body(rs), zone);
        let out = seq![first] + rest;
        let t = join(out, "\n"@) + "\n"@;
        let head = "$ORIGIN "@ + zone + ".\n"@;
        if rest.len() == 0 {
            assert(out =~= seq![first]);
            assert(t =~= first + "\n"@);
        } else {
            crate::text::lemma_join_prepend(first, rest, "\n"@);
        }
        assert(t.take(head.len() as int) =~= head);
    }
}

/// The labels of the SOA fields after mname and rname, in RDATA order.
pub open spec fn soa_timer_labels() -> Seq<Seq<char>> {
    seq!["Serial"@, "Refresh"@, "Retry"@, "Expire"@, "Minimum TTL"@]
}

/// Owner names are written relative to the zone: the zone's own name as
/// `@`, and a name inside the zone as the labels before the zone.
pub proof fn law_relative_names(p: Seq<char>, zone: Seq<char>)
    ensures
        relative_name(zone + "."@, zone) == "@"@,
        relative_name(p + "."@ + zone + "."@, zone) == p,
{
    reveal_strlit(".");
    let n = p + "."@ + zone + "."@;
    let suffix = "."@ + zone + "."@;
    assert(n.len() > (zone + "."@).len());
    assert(n != zone + "."@);
    assert(n.skip(n.len() - suffix.len()) =~= suffix);
    assert(n.take(n.len() - suffix.len()) =~= p);
}

/// The lines that one record becomes sit together, in order, among the lines
/// of all the records.
proof fn lemma_record_block(rs: Seq<Seq<char>>, zone: Seq<char>, k: int) -> (off: int)
    requires
        0 <= k < rs.len(),
    ensures
        0 <= off,
        off + record_out(rs[k], zone).len() <= records_out(rs, zone).len(),
        forall|j: int|
            0 <= j < record_out(rs[k], zone).len() ==> records_out(rs, zone)[off + j]
                == #[trigger] record_out(rs[k], zone)[j],
    decreases rs.len(),
{
    let all = records_out(rs, zone);
    let front = records_out(rs.drop_last(), zone);
    assert(all == front + record_out(rs.last(), zone));
    if k == rs.len() - 1 {
        let off = front.len() as int;
        assert forall|j: int| 0 <= j < record_out(rs[k], zone).len() implies all[off + j]
            == #[trigger] record_out(rs[k], zone)[j] by {}
        off
    } else {
        assert(rs.drop_last()[k] == rs[k]);
        let off = lemma_record_block(rs.drop_last(), zone, k);
        assert forall|j: int| 0 <= j < record_out(rs[k], zone).len() implies all[off + j]
            == #[trigger] record_out(rs[k], zone)[j] by {
            assert(front[off + j] == record_out(rs.drop_last()[k], zone)[j]);
        }
        off
    }
}

/// An SOA record is written with each of its timers on a line of its own,
/// labelled with its own name in RDATA order: serial, refresh, retry, expire
/// and minimum TTL are the record's fields 6 to 10 (for every record but the
/// SOA that ends a transfer). So reading the zone file back gives the
/// transferred timers.
pub proof fn law_soa_timers_labelled(raw: Seq<char>, zone: Seq<char>, k: int, i: int)
    requires
        record_lines(lines(raw)).len() > 0,
        0 <= k,
        k < record_lines(lines(raw)).len() - 1 || (record_lines(lines(raw)).len() == 1 && k == 0),
        words(record_lines(lines(raw))[k]).len() >= 11,
        upper_text(words(record_lines(lines(raw))[k])[3]) == "SOA"@,
        0 <= i < 5,
    ensures
        bind_zone(raw, zone) matches Ok(t) && has_text(
            t,
            "    "@ + words(record_lines(lines(raw))[k])[6 + i] + "    ; "@
                + soa_timer_labels()[i],
        ),
{
    reveal_strlit("    ; ");
    reveal_strlit("    ; Serial");
    reveal_strlit("    ; Refresh");
    reveal_strlit("    ; Retry");
    reveal_strlit("    ; Expire");
    reveal_strlit("    ; Minimum TTL");
    reveal_strlit("Serial");
    reveal_strlit("Refresh");
    reveal_strlit("Retry");
    reveal_strlit("Expire");
    reveal_strlit("Minimum TTL");
    let rs = record_lines(lines(raw));
    let body = transfer_body(rs);
    assert(body[k] == rs[k]);
    let line = body[k];
    let w = words(line);
    let target = "    "@ + w[6 + i] + "    ; "@ + soa_timer_labels()[i];
    let rec = record_out(line, zone);
    assert(rec.len() == 7);
    assert(rec[1 + i] =~= target);
    let off = lemma_record_block(body, zone, k);
    let recs = records_out(body, zone);
    assert(recs[off + 1 + i] == rec[1 + i]);
    let out = seq!["$ORIGIN "@ + zone + "."@] + recs;
    assert(out[off + 2 + i] == recs[off + 1 + i]);
    crate::text::lemma_join_contains(out, "\n"@, off + 2 + i);
    let joined = join(out, "\n"@);
    crate::text::lemma_find_from(joined, target, 0);
    let at = find(joined, target).unwrap();
    crate::text::lemma_occurs_concat(joined, "\n"@, target, at);
    crate::text::lemma_occurs_has_text(joined + "\n"@, target, at);
}

/// Every record of the transfer is written, but for the SOA that ends a
/// transfer of more than one record: an SOA record's first line
/// holds its owner (relative to the zone), TTL, class, `SOA`, mname and rname
/// and opens the parenthesis; any other record of at least five fields is
/// one line of owner, TTL, class, its type in upper case and its data.
pub proof fn law_records_written(raw: Seq<char>, zone: Seq<char>, k: int)
    requires
        record_lines(lines(raw)).len() > 0,
        0 <= k,
        k < record_lines(lines(raw)).len() - 1 || (record_lines(lines(raw)).len() == 1 && k == 0),
        words(record_lines(lines(raw))[k]).len() >= 5,
    ensures
        ({
            let w = words(record_lines(lines(raw))[k]);
            let head = relative_name(w[0], zone) + "  "@ + w[1] + "  "@ + w[2];
            bind_zone(raw, zone) matches Ok(t) && if upper_text(w[3]) == "SOA"@ && w.len() >= 11 {
                has_text(t, head + "  SOA  "@ + w[4] + " "@ + w[5] + " ("@)
            } else {
                has_text(t, head + "  "@ + upper_text(w[3]) + "  "@ + join(w.skip(4), " "@))
            }
        }),
{
    let rs = record_lines(lines(raw));
    let body = transfer_body(rs);
    assert(body[k] == rs[k]);
    let line = body[k];
    let w = words(line);
    let rec = record_out(line, zone);
    let head = relative_name(w[0], zone) + "  "@ + w[1] + "  "@ + w[2];
    let target = if upper_text(w[3]) == "SOA"@ && w.len() >= 11 {
        head + "  SOA  "@ + w[4] + " "@ + w[5] + " ("@
    } else {
        head + "  "@ + upper_text(w[3]) + "  "@ + join(w.skip(4), " "@)
    };
    assert(rec.len() > 0);
    assert(rec[0] =~= target);
    let off = lemma_record_block(body, zone, k);
    let recs = records_out(body, zone);
    assert(recs[off] == rec[0]);
    let out = seq!["$ORIGIN "@ + zone + "."@] + recs;
    assert(out[off + 1] == recs[off]);
    crate::text::lemma_join_contains(out, "\n"@, off + 1);
    let joined = join(out, "\n"@);
    crate::text::lemma_find_from(joined, target, 0);
    let at = find(joined, target).unwrap();
    crate::text::lemma_occurs_concat(joined, "\n"@, target, at);
    crate::text::lemma_occurs_has_text(joined + "\n"@, target, at);
}

fn push_line(out: &mut Vec<Vec<char>>, line: Vec<char>)
    ensures
        texts(final(out)@) == texts(old(out)@).push(line@),
{
    out.push(line);
    assert(texts(out@) =~= texts(old(out)@).push(line@));
}

fn relative_name_of(n: &[char], zone: &[char]) -> (r: Vec<char>)
    ensures
        r@ == relative_name(n@, zone@),
{
    let origin = concat(zone, &lit("."));
    let suffix = concat(&concat(&lit("."), zone), &lit("."));
    if same(n, &origin) {
        lit("@")
    } else if has_suffix(n, &suffix) {
        slice_of(n, 0, n.len() - suffix.len())
    } else {
        slice_of(n, 0, n.len())
    }
}

/// `"    " + value + comment`.
fn soa_field_line(value: &[char], comment: &str) -> (r: Vec<char>)
    ensures
        r@ == "    "@ + value@ + comment@,
{
    concat(&concat(&lit("    "), value), &lit(comment))
}

fn record_out_of(out: &mut Vec<Vec<char>>, line: &[char], zone: &[char])
    ensures
        texts(final(out)@) == texts(old(out)@) + record_out(line@, zone@),
{
    let parts = split_words(line);
    if parts.len() < 5 {
        assert(texts(out@) + record_out(line@, zone@) =~= texts(out@));
        return;
    }
    let name = relative_name_of(&parts[0], zone);
    let rtype = to_uppercase(&parts[3]);
    let ghost p = texts(parts@);
    assert(p[0] == parts@[0]@ && p[1] == parts@[1]@ && p[2] == parts@[2]@ && p[3] == parts@[3]@
        && p[4] == parts@[4]@);
    let two = lit("  ");
    let mut head = concat(&name, &two);
    extend(&mut head, &parts[1]);
    extend(&mut head, &two);
    extend(&mut head, &parts[2]);
    if same(&rtype, &lit("SOA")) && parts.len() >= 11 {
        assert(p[5] == parts@[5]@ && p[6] == parts@[6]@ && p[7] == parts@[7]@ && p[8]
            == parts@[8]@ && p[9] == parts@[9]@ && p[10] == parts@[10]@);
        extend(&mut head, &lit("  SOA  "));
        extend(&mut head, &parts[4]);
        extend(&mut head, &lit(" "));
        extend(&mut head, &parts[5]);
        extend(&mut head, &lit(" ("));
        let ghost before = texts(out@);
        push_line(out, head);
        push_line(out, soa_field_line(&parts[6], "    ; Serial"));
        push_line(out, soa_field_line(&parts[7], "    ; Refresh"));
        push_line(out, soa_field_line(&parts[8], "    ; Retry"));
        push_line(out, soa_field_line(&parts[9], "    ; Expire"));
        push_line(out, soa_field_line(&parts[10], "    ; Minimum TTL"));
        push_line(out, lit(")"));
        assert(texts(out@) =~= before + record_out(line@, zone@));
    } else {
        let mut rest: Vec<Vec<char>> = Vec::new();
        let mut k: usize = 4;
        while k < parts.len()
            invariant
                4 <= k <= parts.len(),
                p == texts(parts@),
                texts(rest@) == p.subrange(4, k as int),
            decreases parts.len() - k,
        {
            let w = slice_of(&parts[k], 0, parts[k].len());
            let ghost old_rest = texts(rest@);
            assert(w@ =~= p[k as int]);
            rest.push(w);
            assert(texts(rest@) =~= old_rest.push(p[k as int]));
            assert(p.subrange(4, k + 1) =~= p.subrange(4, k as int).push(p[k as int]));
            k = k + 1;
        }
        assert(p.subrange(4, parts.len() as int) =~= p.skip(4));
        let data = join_texts(&rest, &lit(" "));
        extend(&mut head, &two);
        extend(&mut head, &rtype);
        extend(&mut head, &two);
        extend(&mut head, &data);
        let ghost before = texts(out@);
        push_line(out, head);
        assert(texts(out@) =~= before + record_out(line@, zone@));
    }
}

/// Converts the output of `dig axfr` for `zone` into a BIND zone file with an
/// `$ORIGIN` line, names relative to the zone, and the SOA record spread over
/// lines with its fields labelled; the SOA that ends a transfer is dropped.
pub fn axfr_to_bind(raw: &str, zone: &str) -> (r: Result<String, String>)
    ensures
        r matches Ok(text) ==> bind_zone(raw@, zone@) == Ok::<Seq<char>, Seq<char>>(text@),
        r matches Err(e) ==> bind_zone(raw@, zone@) == Err::<Seq<char>, Seq<char>>(e@),
{
    let raw_chars = chars_of(raw);
    let zone_chars = chars_of(zone);
    let ls = split_lines(&raw_chars);
    let ghost lsv = texts(ls@);
    let mut recs: Vec<Vec<char>> = Vec::new();
    let mut i: usize = 0;
    while i < ls.len()
        invariant
            i <= ls.len(),
            lsv == texts(ls@),
            texts(recs@) == record_lines(lsv.take(i as int)),
        decreases ls.len() - i,
    {
        assert(lsv.take(i + 1).drop_last() =~= lsv.take(i as int));
        assert(lsv.take(i + 1).last() == ls@[i as int]@);
        if ls[i].len() > 0 && ls[i][0] != ';' {
            let w = slice_of(&ls[i], 0, ls[i].len());
            assert(w@ =~= ls@[i as int]@);
            push_line(&mut recs, w);
        }
        i = i + 1;
    }
    assert(lsv.take(ls.len() as int) =~= lsv);
    if recs.len() == 0 {
        return Err(string_of(&lit("Empty AXFR response")));
    }
    let n = if recs.len() > 1 {
        recs.len() - 1
    } else {
        recs.len()
    };
    let ghost body = transfer_body(texts(recs@));
    assert(body =~= texts(recs@).take(n as int));
    let mut out: Vec<Vec<char>> = Vec::new();
    let mut first = lit("$ORIGIN ");
    extend(&mut first, &zone_chars);
    extend(&mut first, &lit("."));
    push_line(&mut out, first);
    let ghost head = texts(out@);
    let mut k: usize = 0;
    while k < n
        invariant
            k <= n <= recs.len(),
            zone_chars@ == zone@,
            body == texts(recs@).take(n as int),
            texts(out@) == head + records_out(body.take(k as int), zone@),
        decreases n - k,
    {
        assert(body.take(k + 1).drop_last() =~= body.take(k as int));
        assert(body.take(k + 1).last() == recs@[k as int]@);
        let ghost before = texts(out@);
        let line: &[char] = &recs[k];
        assert(line@ == recs@[k as int]@);
        let zs: &[char] = &zone_chars;
        assert(zs@ == zone@);
        record_out_of(&mut out, line, zs);
        assert(texts(out@) == before + record_out(recs@[k as int]@, zone@));
        assert(before == head + records_out(body.take(k as int), zone@));
        assert(records_out(body.take(k + 1), zone@) == records_out(body.take(k as int), zone@)
            + record_out(recs@[k as int]@, zone@));
        assert(texts(out@) =~= head + records_out(body.take(k + 1), zone@));
        k = k + 1;
    }
    assert(body.take(n as int) =~= body);
    assert(head =~= seq!["$ORIGIN "@ + zone@ + "."@]);
    assert(lsv == lines(raw@));
    assert(body == transfer_body(record_lines(lines(raw@))));
    assert(texts(out@) =~= seq!["$ORIGIN "@ + zone@ + "."@] + records_out(
        transfer_body(record_lines(lines(raw@))),
        zone@,
    ));
    let mut text = join_texts(&out, &lit("\n"));
    extend(&mut text, &lit("\n"));
    Ok(string_of(&text))
}


// ---------------------------------------------------------------------------
// Zone names and files
// ---------------------------------------------------------------------------

/// Zone names are compared without case: the lower-cased name.
pub fn zone_key(name: &str) -> (r: String)
    ensures
        r@ == lower_text(name@),
{
    string_of(&to_lowercase(&chars_of(name)))
}

/// The zone file that a new zone starts with: an SOA with serial 1, one name
/// server `ns1` in the zone, and its address record.
pub open spec fn zone_template_text(name: Seq<char>) -> Seq<char> {
    "$TTL 3600\n@  3600  IN  SOA  ns1."@ + name + ". admin."@ + name
        + ". (\n    1       ; Serial\n    3600    ; Refresh\n    900     ; Retry\n    604800  ; Expire\n    86400   ; Minimum TTL\n)\n\n@       3600  IN  NS   ns1."@
        + name + ".\nns1     3600  IN  A    127.0.0.1\n"@
}

pub fn zone_template(name: &str) -> (r: String)
    ensures
        r@ == zone_template_text(name@),
{
    let n = chars_of(name);
    let mut t = lit("$TTL 3600\n@  3600  IN  SOA  ns1.");
    extend(&mut t, &n);
    extend(&mut t, &lit(". admin."));
    extend(&mut t, &n);
    extend(
        &mut t,
        &lit(
            ". (\n    1       ; Serial\n    3600    ; Refresh\n    900     ; Retry\n    604800  ; Expire\n    86400   ; Minimum TTL\n)\n\n@       3600  IN  NS   ns1.",
        ),
    );
    extend(&mut t, &n);
    extend(&mut t, &lit(".\nns1     3600  IN  A    127.0.0.1\n"));
    string_of(&t)
}

/// The file of a zone in a zone directory: `<name>.zone`.
pub open spec fn zone_file_path(zones_dir: Seq<u8>, name: Seq<char>) -> Seq<u8> {
    path_join(zones_dir, encode_utf8(name + ".zone"@))
}

pub fn zone_file_in(zones_dir: &[u8], name: &str) -> (r: Vec<u8>)
    ensures
        r@ == zone_file_path(zones_dir@, name@),
{
    let file = string_of(&concat(&chars_of(name), &lit(".zone")));
    join_path(zones_dir, &bytes_of(file.as_str()))
}

/// The stem of a file name whose extension is `zone` (`Path::file_stem` and
/// `Path::extension`: the extension follows the last dot, unless that dot
/// starts the name).
pub open spec fn zone_stem(file: Seq<char>) -> Option<Seq<char>> {
    match last_index(file, '.') {
        Some(j) => if j > 0 && file.skip(j + 1) == "zone"@ {
            Some(file.take(j))
        } else {
            None
        },
        None => None,
    }
}

/// A zone and the text of its file, as the zone list shows it.
pub struct ZoneInfo {
    pub name: String,
    pub content: String,
}

/// A zone file found in a zone directory: the zone's name (lower-cased) and
/// whether the file must be renamed to that name.
pub struct ZoneFile {
    pub name: String,
    pub needs_rename: bool,
}

/// The zone of a file in a zone directory, if it is a zone file.
pub fn zone_file_entry(file_name: &str) -> (r: Option<ZoneFile>)
    ensures
        zone_stem(file_name@) is None ==> r is None,
        zone_stem(file_name@) matches Some(stem) ==> r matches Some(z) && z.name@ == lower_text(
            stem,
        ) && z.needs_rename == (lower_text(stem) != stem),
{
    let f = chars_of(file_name);
    match rfind_char(&f, '.') {
        Some(j) => {
            proof {
                lemma_last_index(f@, '.');
            }
            assert(j < f.len());
            let ext = slice_of(&f, j + 1, f.len());
            assert(ext@ =~= f@.skip(j + 1));
            if j > 0 && same(&ext, &lit("zone")) {
                let stem = slice_of(&f, 0, j);
                let lower = to_lowercase(&stem);
                let needs_rename = !same(&lower, &stem);
                Some(ZoneFile { name: string_of(&lower), needs_rename })
            } else {
                None
            }
        },
        None => None,
    }
}

/// The file that a zone is saved in is recognised as that zone again: the
/// stem of `<name>.zone` is the name, for every name but the empty one
/// (`.zone` is a hidden file with no extension).
pub proof fn law_zone_file_names_round_trip(name: Seq<char>)
    requires
        name.len() > 0,
    ensures
        zone_stem(name + ".zone"@) == Some(name),
{
    reveal_strlit(".zone");
    reveal_strlit("zone");
    let f = name + ".zone"@;
    let j = name.len() as int;
    assert(f[j] == '.');
    assert forall|t: int| j < t < f.len() implies #[trigger] f[t] != '.' by {
        assert(f[t] == ".zone"@[t - j]);
    }
    lemma_last_index(f, '.');
    assert(last_index(f, '.') == Some(j)) by {
        match last_index(f, '.') {
            Some(q) => {
                if q < j {
                    assert(f[j] == '.');
                }
            },
            None => {
                assert(f.contains('.'));
            },
        }
    }
    assert(f.skip(j + 1) =~= "zone"@);
    assert(f.take(j) =~= name);
}

/// A zone created under a non-empty ASCII name is listed again under the
/// same key, with no renaming: the key (the lower-cased name) is its own
/// lower case, and the stem of its file is the key.
pub proof fn law_created_zone_listed(name: Seq<char>, key: Seq<char>)
    requires
        name.len() > 0,
        is_ascii_text(name),
        key == name.map_values(|c: char| ascii_lower(c)),
    ensures
        is_ascii_text(key),
        key.map_values(|c: char| ascii_lower(c)) == key,
        zone_stem(key + ".zone"@) == Some(key),
{
    assert forall|i: int| 0 <= i < key.len() implies #[trigger] key[i] <= '\u{7f}' && ascii_lower(
        key[i],
    ) == key[i] by {
        assert(key[i] == ascii_lower(name[i]));
        assert(name[i] <= '\u{7f}');
    }
    assert(key.map_values(|c: char| ascii_lower(c)) =~= key);
    law_zone_file_names_round_trip(key);
}

/// Strictly increasing in the order of texts: sorted, no repeats.
pub open spec fn strictly_sorted(s: Seq<Seq<char>>) -> bool {
    forall|i: int, j: int|
        0 <= i < j < s.len() ==> text_le(#[trigger] s[i], #[trigger] s[j]) && s[i] != s[j]
}

/// The names, sorted, each once (`sort` then `dedup`).
pub fn sorted_unique(names: &Vec<String>) -> (r: Vec<String>)
    ensures
        strictly_sorted(strings(r@)),
        forall|x: Seq<char>| strings(r@).contains(x) <==> strings(names@).contains(x),
{
    let mut out: Vec<String> = Vec::new();
    let mut i: usize = 0;
    while i < names.len()
        invariant
            i <= names.len(),
            strictly_sorted(strings(out@)),
            forall|x: Seq<char>|
                strings(out@).contains(x) <==> strings(names@).take(i as int).contains(x),
        decreases names.len() - i,
    {
        let x = chars_of(names[i].as_str());
        let ghost o = strings(out@);
        let mut p: usize = 0;
        while p < out.len() && !text_le_of(&x, &chars_of(out[p].as_str()))
            invariant
                p <= out.len(),
                o == strings(out@),
                forall|k: int| 0 <= k < p ==> !text_le(x@, #[trigger] o[k]),
            decreases out.len() - p,
        {
            p = p + 1;
        }
        let ghost tk = strings(names@).take(i as int + 1);
        assert(tk =~= strings(names@).take(i as int).push(x@));
        if p < out.len() && same(&x, &chars_of(out[p].as_str())) {
            assert(o[p as int] == x@);
            assert forall|y: Seq<char>| o.contains(y) <==> tk.contains(y) by {
                if tk.contains(y) {
                    let t = choose|t: int| 0 <= t < tk.len() && tk[t] == y;
                    if t == i {
                        assert(o[p as int] == y);
                    } else {
                        assert(strings(names@).take(i as int)[t] == y);
                    }
                }
                if o.contains(y) {
                    let t = choose|t: int| 0 <= t < o.len() && o[t] == y;
                    assert(strings(names@).take(i as int).contains(y));
                    let u = choose|u: int|
                        0 <= u < strings(names@).take(i as int).len() && strings(names@).take(
                            i as int,
                        )[u] == y;
                    assert(tk[u] == y);
                }
            }
        } else {
            proof {
                assert forall|k: int| p <= k < o.len() implies text_le(x@, #[trigger] o[k])
                    && x@ != o[k] by {
                    assert(text_le(x@, o[p as int]));
                    if k > p {
                        assert(text_le(o[p as int], o[k]));
                        lemma_text_le_transitive(x@, o[p as int], o[k]);
                    }
                    if x@ == o[k] {
                        if k == p {
                        } else {
                            lemma_text_le_antisymmetric(o[p as int], o[k]);
                        }
                    }
                }
                assert forall|k: int| 0 <= k < p implies text_le(#[trigger] o[k], x@) && o[k]
                    != x@ by {
                    lemma_text_le_total(x@, o[k]);
                    crate::text::lemma_text_le_reflexive(x@);
                }
            }
            let ghost before = o;
            out.insert(p, string_of(&x));
            let ghost after = strings(out@);
            assert(after =~= before.take(p as int).push(x@) + before.skip(p as int));
            assert forall|a: int, b: int| 0 <= a < b < after.len() implies text_le(
                #[trigger] after[a],
                #[trigger] after[b],
            ) && after[a] != after[b] by {
                if b < p {
                    assert(after[a] == before[a] && after[b] == before[b]);
                } else if b == p {
                    assert(after[a] == before[a]);
                } else if a < p {
                    assert(after[a] == before[a] && after[b] == before[b - 1]);
                    assert(text_le(before[a], x@));
                    assert(text_le(x@, before[b - 1]));
                    lemma_text_le_transitive(before[a], x@, before[b - 1]);
                    if before[a] == before[b - 1] {
                        lemma_text_le_antisymmetric(before[a], x@);
                    }
                } else if a == p {
                    assert(after[b] == before[b - 1]);
                } else {
                    assert(after[a] == before[a - 1] && after[b] == before[b - 1]);
                }
            }
            assert forall|y: Seq<char>| after.contains(y) <==> tk.contains(y) by {
                if tk.contains(y) {
                    let t = choose|t: int| 0 <= t < tk.len() && tk[t] == y;
                    if t == i {
                        assert(after[p as int] == y);
                    } else {
                        assert(strings(names@).take(i as int)[t] == y);
                        assert(before.contains(y));
                        let u = choose|u: int| 0 <= u < before.len() && before[u] == y;
                        if u < p {
                            assert(after[u] == y);
                        } else {
                            assert(after[u + 1] == y);
                        }
                    }
                }
                if after.contains(y) {
                    let t = choose|t: int| 0 <= t < after.len() && after[t] == y;
                    if t == p {
                        assert(tk[i as int] == y);
                    } else {
                        let u = if t < p {
                            t
                        } else {
                            t - 1
                        };
                        assert(before[u] == y);
                        assert(before.contains(y));
                        assert(o.contains(y));
                        assert(strings(names@).take(i as int).contains(y));
                        let v = choose|v: int|
                            0 <= v < strings(names@).take(i as int).len() && strings(names@).take(
                                i as int,
                            )[v] == y;
                        assert(tk[v] == y);
                    }
                }
            }
        }
        i = i + 1;
    }
    assert(strings(names@).take(names.len() as int) =~= strings(names@));
    out
}

/// Where a zone is pulled from: the configured transfer source (host and
/// port, port 53 when none is given) when transfers are accepted from one,
/// else the local server on `port`.
pub open spec fn pull_source(accept_transfers: bool, transfer_from: Seq<char>, port: u16) -> (
    Seq<char>,
    Seq<char>,
) {
    if accept_transfers && transfer_from.len() > 0 {
        match last_index(transfer_from, ':') {
            Some(j) => (transfer_from.take(j), transfer_from.skip(j + 1)),
            None => (transfer_from, "53"@),
        }
    } else {
        ("127.0.0.1"@, decimal(port as nat))
    }
}

/// The host and port to pull a zone from (see `pull_source`).
pub fn pull_host_port(accept_transfers: bool, transfer_from: &str, port: u16) -> (r: (
    String,
    String,
))
    ensures
        (r.0@, r.1@) == pull_source(accept_transfers, transfer_from@, port),
{
    let f = chars_of(transfer_from);
    if accept_transfers && f.len() > 0 {
        match rfind_char(&f, ':') {
            Some(j) => {
                proof {
                    lemma_last_index(f@, ':');
                }
                let host = slice_of(&f, 0, j);
                let p = slice_of(&f, j + 1, f.len());
                assert(p@ =~= f@.skip(j + 1));
                (string_of(&host), string_of(&p))
            },
            None => (string_of(&f), string_of(&lit("53"))),
        }
    } else {
        (string_of(&lit("127.0.0.1")), string_of(&decimal_of(port as u64)))
    }
}

} // verus!
