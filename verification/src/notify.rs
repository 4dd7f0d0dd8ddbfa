//! DNS NOTIFY messages: the wire form of a zone name, the NOTIFY packet, and
//! what a reply means.

use vstd::prelude::*;
use vstd::utf8::encode_utf8;
use crate::clock::unix_time;
use crate::text::{
    byte_prefix, byte_prefix_of, cut_ok, strings, same, chars_of, concat, decimal, decimal_of,
    extend, lit, string_of, texts, trim_end, trim_end_of, tail_len, CharClass, split_on,
    split_char,
};

verus! {

broadcast use vstd::string::group_string_axioms;

/// One label in wire form: its byte length (modulo 256) and its UTF-8 bytes.
pub open spec fn label_wire(l: Seq<char>) -> Seq<u8> {
    seq![(encode_utf8(l).len() % 256) as u8] + encode_utf8(l)
}

pub open spec fn labels_wire(ls: Seq<Seq<char>>) -> Seq<u8>
    decreases ls.len(),
{
    if ls.len() == 0 {
        seq![]
    } else {
        labels_wire(ls.drop_last()) + label_wire(ls.last())
    }
}

/// A domain name in DNS wire form: its labels (without trailing dots), each
/// with its length, then a zero byte.
pub open spec fn wire_name(name: Seq<char>) -> Seq<u8> {
    labels_wire(split_on(trim_end(name, CharClass::Exactly('.')), '.')).push(0)
}

/// Encodes a domain name in DNS wire form.
pub fn encode_name(name: &str) -> (r: Vec<u8>)
    ensures
        r@ == wire_name(name@),
{
    let trimmed = trim_end_of(&chars_of(name), CharClass::Exactly('.'));
    let labels = split_char(&trimmed, '.');
    let ghost ls = texts(labels@);
    let mut buf: Vec<u8> = Vec::new();
    let mut i: usize = 0;
    while i < labels.len()
        invariant
            i <= labels.len(),
            ls == texts(labels@),
            buf@ == labels_wire(ls.take(i as int)),
        decreases labels.len() - i,
    {
        let label = string_of(&labels[i]);
        let bytes = label.as_str().as_bytes();
        buf.push((bytes.len() % 256) as u8);
        let mut k: usize = 0;
        while k < bytes.len()
            invariant
                k <= bytes.len(),
                buf@ == labels_wire(ls.take(i as int)) + seq![(bytes@.len() % 256) as u8]
                    + bytes@.take(k as int),
            decreases bytes.len() - k,
        {
            buf.push(bytes[k]);
            assert(bytes@.take(k + 1) =~= bytes@.take(k as int).push(bytes@[k as int]));
            k = k + 1;
        }
        assert(bytes@.take(bytes.len() as int) =~= bytes@);
        assert(ls.take(i + 1).drop_last() =~= ls.take(i as int));
        assert(ls.take(i + 1).last() == label@);
        assert(buf@ =~= labels_wire(ls.take(i + 1)));
        i = i + 1;
    }
    assert(ls.take(labels.len() as int) =~= ls);
    buf.push(0);
    buf
}

/// A trailing dot does not change the wire form of a name.
pub proof fn law_trailing_dot_ignored(name: Seq<char>)
    ensures
        wire_name(name + "."@) == wire_name(name),
{
    reveal_strlit(".");
    let k = CharClass::Exactly('.');
    let n2 = name + "."@;
    assert(n2.last() == '.');
    assert(n2.drop_last() =~= name);
    assert(tail_len(n2, k) == 1 + tail_len(name, k));
    crate::text::lemma_tail_len(name, k);
    assert(trim_end(n2, k) =~= trim_end(name, k));
}

proof fn lemma_labels_wire_prepend(a: Seq<char>, rest: Seq<Seq<char>>)
    ensures
        labels_wire(seq![a] + rest) == label_wire(a) + labels_wire(rest),
    decreases rest.len(),
{
    if rest.len() == 0 {
        assert(seq![a] + rest =~= seq![a]);
        assert(seq![a].drop_last() =~= Seq::<Seq<char>>::empty());
        assert(labels_wire(seq![a]) == labels_wire(seq![a].drop_last()) + label_wire(seq![a].last()));
        assert(labels_wire(Seq::<Seq<char>>::empty()) =~= Seq::<u8>::empty());
        assert(labels_wire(seq![a]) =~= label_wire(a));
        assert(label_wire(a) + labels_wire(rest) =~= label_wire(a));
    } else {
        assert((seq![a] + rest).drop_last() =~= seq![a] + rest.drop_last());
        assert((seq![a] + rest).last() == rest.last());
        lemma_labels_wire_prepend(a, rest.drop_last());
        assert(label_wire(a) + labels_wire(rest.drop_last()) + label_wire(rest.last()) =~= label_wire(a)
            + (labels_wire(rest.drop_last()) + label_wire(rest.last())));
    }
}

/// A name of one label (no dot) is that label's length byte and bytes, then
/// the zero byte.
pub proof fn law_single_label(a: Seq<char>)
    requires
        !a.contains('.'),
    ensures
        wire_name(a) == seq![(encode_utf8(a).len() % 256) as u8] + encode_utf8(a) + seq![0u8],
{
    let k = CharClass::Exactly('.');
    assert forall|t: int| 0 <= t < a.len() implies !crate::text::in_class(k, #[trigger] a[t]) by {
        if a[t] == '.' {
            assert(a.contains('.'));
        }
    }
    assert(tail_len(a, k) == 0) by {
        if a.len() > 0 {
            assert(!crate::text::in_class(k, a.last()));
        }
    }
    assert(trim_end(a, k) =~= a);
    crate::text::lemma_run_len_concat(a, Seq::<char>::empty(), k);
    assert(a + Seq::<char>::empty() =~= a);
    assert(split_on(a, '.') =~= seq![a]);
    assert(seq![a] =~= seq![a] + Seq::<Seq<char>>::empty());
    lemma_labels_wire_prepend(a, Seq::<Seq<char>>::empty());
    assert(labels_wire(seq![a]) =~= label_wire(a));
    assert(label_wire(a).push(0) =~= seq![(encode_utf8(a).len() % 256) as u8] + encode_utf8(a) + seq![0u8]);
}

/// A dot separates labels: the wire form of `a.b` (where `a` holds no dot and
/// `b` does not end with one) is `a` as a label (its length byte and its
/// bytes) followed by the wire form of `b`. So every label of a name is
/// encoded, in order.
pub proof fn law_dot_separates_labels(a: Seq<char>, b: Seq<char>)
    requires
        !a.contains('.'),
        b.len() > 0,
        b.last() != '.',
    ensures
        wire_name(a + "."@ + b) == seq![(encode_utf8(a).len() % 256) as u8] + encode_utf8(a) + wire_name(b),
{
    reveal_strlit(".");
    let k = CharClass::Exactly('.');
    let s = a + "."@ + b;
    assert(s.last() == b.last());
    assert(tail_len(s, k) == 0);
    assert(trim_end(s, k) =~= s);
    assert(tail_len(b, k) == 0);
    assert(trim_end(b, k) =~= b);
    assert forall|t: int| 0 <= t < a.len() implies !crate::text::in_class(k, #[trigger] a[t]) by {
        if a[t] == '.' {
            assert(a.contains('.'));
        }
    }
    assert(s =~= a + ("."@ + b));
    crate::text::lemma_run_len_concat(a, "."@ + b, k);
    assert(("."@ + b)[0] == '.');
    assert(crate::text::run_len("."@ + b, k) == 0);
    assert(s.take(a.len() as int) =~= a);
    assert(s.skip(a.len() as int + 1) =~= b);
    assert(split_on(s, '.') == seq![a] + split_on(b, '.'));
    lemma_labels_wire_prepend(a, split_on(b, '.'));
    assert((label_wire(a) + labels_wire(split_on(b, '.'))).push(0) =~= label_wire(a) + labels_wire(
        split_on(b, '.'),
    ).push(0));
}

/// A NOTIFY for the SOA of `zone` with message id `id`: a header with opcode
/// NOTIFY, the authoritative-answer flag and one question, then the question.
pub open spec fn notify_packet(id: u16, zone: Seq<char>) -> Seq<u8> {
    seq![(id / 256) as u8, (id % 256) as u8, 0x24, 0x00, 0x00, 0x01, 0x00, 0x00, 0x00, 0x00, 0x00, 0x00]
        + wire_name(zone) + seq![0x00, 0x06, 0x00, 0x01]
}

fn push_all(buf: &mut Vec<u8>, bytes: &[u8])
    ensures
        final(buf)@ == old(buf)@ + bytes@,
{
    let mut k: usize = 0;
    while k < bytes.len()
        invariant
            k <= bytes.len(),
            buf@ == old(buf)@ + bytes@.take(k as int),
        decreases bytes.len() - k,
    {
        buf.push(bytes[k]);
        assert(bytes@.take(k + 1) =~= bytes@.take(k as int).push(bytes@[k as int]));
        k = k + 1;
    }
    assert(bytes@.take(bytes.len() as int) =~= bytes@);
}

/// The NOTIFY packet for `zone` with message id `id`.
pub fn notify_packet_with_id(id: u16, zone: &str) -> (r: Vec<u8>)
    ensures
        r@ == notify_packet(id, zone@),
{
    let mut pkt: Vec<u8> = Vec::new();
    pkt.push((id / 256) as u8);
    pkt.push((id % 256) as u8);
    pkt.push(0x24);
    pkt.push(0x00);
    pkt.push(0x00);
    pkt.push(0x01);
    pkt.push(0x00);
    pkt.push(0x00);
    pkt.push(0x00);
    pkt.push(0x00);
    pkt.push(0x00);
    pkt.push(0x00);
    let name = encode_name(zone);
    push_all(&mut pkt, &name);
    pkt.push(0x00);
    pkt.push(0x06);
    pkt.push(0x00);
    pkt.push(0x01);
    assert(pkt@ =~= notify_packet(id, zone@));
    pkt
}

/// The message id made from a nanosecond count: its low 16 bits.
pub open spec fn id_from_nanos(nanos: u32) -> u16 {
    (nanos % 65536) as u16
}

/// A message id taken from the clock: the low 16 bits of the nanoseconds of
/// the current second (0 when the clock reads before 1970).
pub fn rand_id() -> (r: u16)
    ensures
        exists|nanos: u32| nanos < 1_000_000_000 && r == #[trigger] id_from_nanos(nanos),
{
    let nanos: u32 = match unix_time() {
        Some(t) => t.1,
        None => 0,
    };
    let r = (nanos & 0xFFFF) as u16;
    assert((nanos & 0xFFFF) == nanos % 65536) by (bit_vector);
    assert(r == id_from_nanos(nanos));
    r
}

/// The NOTIFY packet for `zone`, with a message id from the clock.
pub fn build_notify_packet(zone: &str) -> (r: Vec<u8>)
    ensures
        exists|id: u16| r@ == notify_packet(id, zone@),
{
    let id = rand_id();
    notify_packet_with_id(id, zone)
}

/// What a NOTIFY to `addr` came to: the reply's response code decides when a
/// reply of at least four bytes came back; no reply means the NOTIFY was
/// sent but not answered.
pub open spec fn notify_outcome(reply: Option<Seq<u8>>, addr: Seq<char>) -> Result<
    Seq<char>,
    Seq<char>,
> {
    match reply {
        None => Ok("NOTIFY sent to "@ + addr + " (no response)"@),
        Some(b) => if b.len() >= 4 {
            if b[3] % 16 == 0 {
                Ok("NOTIFY accepted by "@ + addr)
            } else {
                Err("NOTIFY refused by "@ + addr + " (rcode="@ + decimal((b[3] % 16) as nat) + ")"@)
            }
        } else {
            Err("Invalid response from "@ + addr)
        },
    }
}

pub open spec fn reply_view(r: Option<Vec<u8>>) -> Option<Seq<u8>> {
    match r {
        Some(v) => Some(v@),
        None => None,
    }
}

pub open spec fn result_view(r: Result<String, String>) -> Result<Seq<char>, Seq<char>> {
    match r {
        Ok(s) => Ok(s@),
        Err(s) => Err(s@),
    }
}

/// A NOTIFY counts as done when no reply came or the reply's code is zero;
/// every other reply is an error.
pub proof fn law_notify_ok_cases(reply: Option<Seq<u8>>, addr: Seq<char>)
    ensures
        notify_outcome(reply, addr) is Ok <==> match reply {
            None => true,
            Some(b) => b.len() >= 4 && b[3] % 16 == 0,
        },
{
}

/// The result of a NOTIFY to `addr`, given the reply received (if any).
pub fn notify_reply(reply: Option<Vec<u8>>, addr: &str) -> (r: Result<String, String>)
    ensures
        result_view(r) == notify_outcome(reply_view(reply), addr@),
{
    let a = chars_of(addr);
    match reply {
        None => {
            let mut m = concat(&lit("NOTIFY sent to "), &a);
            extend(&mut m, &lit(" (no response)"));
            Ok(string_of(&m))
        },
        Some(b) => {
            if b.len() >= 4 {
                let b3 = b[3];
                let rcode = b3 & 0x0F;
                assert(b3 & 0x0F == b3 % 16) by (bit_vector);
                if rcode == 0 {
                    Ok(string_of(&concat(&lit("NOTIFY accepted by "), &a)))
                } else {
                    let mut m = concat(&lit("NOTIFY refused by "), &a);
                    extend(&mut m, &lit(" (rcode="));
                    extend(&mut m, &decimal_of(rcode as u64));
                    extend(&mut m, &lit(")"));
                    Err(string_of(&m))
                }
            } else {
                Err(string_of(&concat(&lit("Invalid response from "), &a)))
            }
        },
    }
}

/// The local address to send from, of the target's family: loopback for a
/// loopback target, the unspecified address otherwise.
pub fn bind_address(is_v6: bool, is_loopback: bool) -> (r: &'static str)
    ensures
        r@ == (if is_v6 {
            if is_loopback {
                "[::1]:0"@
            } else {
                "[::]:0"@
            }
        } else {
            if is_loopback {
                "127.0.0.1:0"@
            } else {
                "0.0.0.0:0"@
            }
        }),
{
    if is_v6 {
        if is_loopback {
            "[::1]:0"
        } else {
            "[::]:0"
        }
    } else {
        if is_loopback {
            "127.0.0.1:0"
        } else {
            "0.0.0.0:0"
        }
    }
}


// ---------------------------------------------------------------------------
// Identity commands
// ---------------------------------------------------------------------------

/// A server name must not be empty.
pub fn check_server_name(name: &str) -> (r: Result<(), String>)
    ensures
        r is Ok <==> name@.len() > 0,
        r matches Err(e) ==> e@ == "Server name cannot be empty"@,
{
    if name.is_empty() {
        Err(string_of(&lit("Server name cannot be empty")))
    } else {
        Ok(())
    }
}

/// The number of ids other than `identity`.
pub open spec fn others(ids: Seq<Seq<char>>, identity: Seq<char>) -> nat
    decreases ids.len(),
{
    if ids.len() == 0 {
        0
    } else {
        others(ids.drop_last(), identity) + (if ids.last() != identity {
            1nat
        } else {
            0nat
        })
    }
}

/// An identity may be deleted unless no other identity would remain.
pub fn check_can_delete(ids: &Vec<String>, identity: &str) -> (r: Result<(), String>)
    ensures
        r is Ok <==> others(strings(ids@), identity@) > 0,
        r matches Err(e) ==> e@ == "Cannot delete the last server"@,
{
    let me = chars_of(identity);
    let mut count: usize = 0;
    let mut i: usize = 0;
    while i < ids.len()
        invariant
            i <= ids.len(),
            me@ == identity@,
            count <= i,
            count == others(strings(ids@).take(i as int), identity@),
        decreases ids.len() - i,
    {
        assert(strings(ids@).take(i + 1).drop_last() =~= strings(ids@).take(i as int));
        if !same(&chars_of(ids[i].as_str()), &me) {
            count = count + 1;
        }
        i = i + 1;
    }
    assert(strings(ids@).take(ids.len() as int) =~= strings(ids@));
    if count == 0 {
        Err(string_of(&lit("Cannot delete the last server")))
    } else {
        Ok(())
    }
}

/// The label of an identity's window: `zk-` and the identity's first eight
/// bytes.
pub fn window_label(identity: &str) -> (r: String)
    requires
        cut_ok(identity@, 8),
    ensures
        r@ == "zk-"@ + byte_prefix(identity@, 8),
{
    let (prefix, _) = byte_prefix_of(&chars_of(identity), 8);
    string_of(&concat(&lit("zk-"), &prefix))
}

/// The title of an identity's window: the product, the server name and port.
pub fn window_title(name: &str, port: u16) -> (r: String)
    ensures
        r@ == "ZoneKeeper \u{2014} "@ + name@ + " :"@ + decimal(port as nat),
{
    let mut t = concat(&lit("ZoneKeeper \u{2014} "), &chars_of(name));
    extend(&mut t, &lit(" :"));
    extend(&mut t, &decimal_of(port as u64));
    string_of(&t)
}

/// The page an identity's window shows.
pub fn window_url(identity: &str, port: u16) -> (r: String)
    ensures
        r@ == "index.html?identity="@ + identity@ + "&port="@ + decimal(port as nat),
{
    let mut t = concat(&lit("index.html?identity="), &chars_of(identity));
    extend(&mut t, &lit("&port="));
    extend(&mut t, &decimal_of(port as u64));
    string_of(&t)
}

} // verus!
