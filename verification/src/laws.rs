//! Laws of the payload codec, proved once and for all over the
//! mathematical models: encoding then decoding restores the packets in
//! every framing mode, and a plain-mode stream with a malformed, truncated
//! or dangling length prefix never decodes.

use vstd::prelude::*;

use crate::b64::base64url_decode;
use crate::b64::base64url_of;
use crate::codec::decode_b64_records;
use crate::codec::decode_payload_spec;
use crate::codec::decode_plain_records;
use crate::codec::encode_payload_spec;
use crate::codec::decode_xhr2_body;
use crate::codec::decode_xhr2_records;
use crate::codec::encode_b64_record;
use crate::codec::encode_plain_record;
use crate::codec::encode_records;
use crate::codec::encode_xhr2_record;
use crate::codec::xhr2_marker;
use crate::codec::opt_prepend;
use crate::digits::all_digits;
use crate::digits::digits_spec;
use crate::digits::digits_value;
use crate::digits::is_digit;
use crate::digits::lemma_digits_are_digits;
use crate::digits::lemma_digits_roundtrip;
use crate::packet::encode_packet_spec;
use crate::packet::lemma_tag_roundtrip;
use crate::packet::tag_of;
use crate::packet::PacketView;

verus! {

/// Scanning a digit string accumulates its decimal value and leaves the
/// scanner in the middle of a length prefix.
proof fn lemma_scan_digits(d: Seq<u8>, rest: Seq<u8>, acc: nat, in_len: bool)
    requires
        all_digits(d),
        d.len() > 0,
    ensures
        decode_plain_records(d + rest, acc, in_len) == decode_plain_records(
            rest,
            digits_value(acc, d),
            true,
        ),
    decreases d.len(),
{
    reveal_with_fuel(digits_value, 2);
    assert((d + rest)[0] == d[0]);
    assert(is_digit(d[0]));
    assert((d + rest).skip(1) =~= d.skip(1) + rest);
    if d.len() == 1 {
        assert(d.skip(1) + rest =~= rest);
        assert(d.skip(1) =~= Seq::<u8>::empty());
    } else {
        assert(all_digits(d.skip(1))) by {
            assert(forall|i: int| 0 <= i < d.skip(1).len() ==> d.skip(1)[i] == d[i + 1]);
        }
        lemma_scan_digits(d.skip(1), rest, acc * 10 + (d[0] - 48) as nat, true);
    }
}

/// One encoded plain record at the front of a stream decodes to exactly its
/// packet, whatever the scanner state was, and the scan continues behind it.
proof fn lemma_decode_plain_record(p: PacketView, rest: Seq<u8>, in_len: bool)
    ensures
        decode_plain_records(encode_plain_record(p) + rest, 0, in_len) == opt_prepend(
            seq![p],
            decode_plain_records(rest, 0, false),
        ),
{
    let n = p.data.len();
    let d = digits_spec(n);
    lemma_digits_are_digits(n);
    lemma_digits_roundtrip(n);
    let tail = seq![58u8] + encode_packet_spec(p) + rest;
    assert(encode_plain_record(p) + rest =~= d + tail);
    lemma_scan_digits(d, tail, 0, in_len);
    assert(tail[0] == 58);
    let rest1 = tail.skip(1);
    assert(rest1 =~= seq![tag_of(p.id)] + p.data + rest);
    assert(rest1.len() == 1 + n + rest.len());
    assert(rest1[0] == tag_of(p.id));
    lemma_tag_roundtrip(p.id);
    assert(rest1.subrange(1, n as int + 1) =~= p.data);
    assert(rest1.skip(n as int + 1) =~= rest);
    assert(PacketView { id: p.id, data: rest1.subrange(1, n as int + 1) } == p);
}

proof fn lemma_decode_encode_records(ps: Seq<PacketView>)
    ensures
        decode_plain_records(encode_records(ps, false, false), 0, false) == Some(ps),
    decreases ps.len(),
{
    if ps.len() == 0 {
        assert(decode_plain_records(Seq::empty(), 0, false) == Some(Seq::<PacketView>::empty()));
    } else {
        lemma_decode_plain_record(ps[0], encode_records(ps.skip(1), false, false), false);
        lemma_decode_encode_records(ps.skip(1));
        assert(seq![ps[0]] + ps.skip(1) =~= ps);
    }
}

/// Round-trip law: a non-empty packet sequence encoded in plain mode with
/// no JSONP envelope decodes back to exactly the same sequence. (An empty
/// sequence encodes to an empty stream, which is always rejected.)
pub proof fn lemma_plain_round_trip(ps: Seq<PacketView>)
    requires
        ps.len() > 0,
    ensures
        decode_payload_spec(encode_payload_spec(ps, None, false, false), false, false) == Some(ps),
{
    lemma_digits_are_digits(ps[0].data.len());
    let s = encode_records(ps, false, false);
    assert(s =~= encode_plain_record(ps[0]) + encode_records(ps.skip(1), false, false));
    assert(s.len() > 0);
    lemma_decode_plain_record(ps[0], encode_records(ps.skip(1), false, false), true);
    lemma_decode_encode_records(ps.skip(1));
    assert(seq![ps[0]] + ps.skip(1) =~= ps);
}

/// Scanning a digit string in a binary/XHR2 record body accumulates its
/// decimal value in the same way.
proof fn lemma_scan_digits_xhr2(d: Seq<u8>, rest: Seq<u8>, acc: nat)
    requires
        all_digits(d),
        d.len() > 0,
    ensures
        decode_xhr2_body(d + rest, acc) == decode_xhr2_body(rest, digits_value(acc, d)),
    decreases d.len(),
{
    reveal_with_fuel(digits_value, 2);
    assert((d + rest)[0] == d[0]);
    assert(is_digit(d[0]));
    assert((d + rest).skip(1) =~= d.skip(1) + rest);
    if d.len() == 1 {
        assert(d.skip(1) + rest =~= rest);
        assert(d.skip(1) =~= Seq::<u8>::empty());
    } else {
        assert(all_digits(d.skip(1))) by {
            assert(forall|i: int| 0 <= i < d.skip(1).len() ==> d.skip(1)[i] == d[i + 1]);
        }
        lemma_scan_digits_xhr2(d.skip(1), rest, acc * 10 + (d[0] - 48) as nat);
    }
}

/// One encoded binary/XHR2 record at the front of a stream decodes to
/// exactly its packet, and the scan continues behind it.
proof fn lemma_decode_xhr2_record(p: PacketView, rest: Seq<u8>)
    ensures
        decode_xhr2_records(encode_xhr2_record(p) + rest) == opt_prepend(
            seq![p],
            decode_xhr2_records(rest),
        ),
{
    let n = p.data.len();
    let s = encode_xhr2_record(p) + rest;
    lemma_digits_are_digits(n);
    lemma_digits_roundtrip(n);
    assert(s.len() >= 3);
    assert(s[0] == xhr2_marker(p)[0]);
    assert(s[1] == 0 && s[2] == 255);
    assert(s[0] == 0 || s[0] == 1);
    let tail = seq![58u8] + encode_packet_spec(p) + rest;
    assert(s.skip(3) =~= digits_spec(n) + tail);
    lemma_scan_digits_xhr2(digits_spec(n), tail, 0);
    assert(tail[0] == 58);
    let rest1 = tail.skip(1);
    assert(rest1 =~= seq![tag_of(p.id)] + p.data + rest);
    assert(rest1.len() == 1 + n + rest.len());
    assert(rest1[0] == tag_of(p.id));
    lemma_tag_roundtrip(p.id);
    assert(rest1.subrange(1, n as int + 1) =~= p.data);
    assert(rest1.skip(n as int + 1) =~= rest);
    assert(PacketView { id: p.id, data: rest1.subrange(1, n as int + 1) } == p);
}

proof fn lemma_decode_encode_records_xhr2(ps: Seq<PacketView>)
    ensures
        decode_xhr2_records(encode_records(ps, false, true)) == Some(ps),
    decreases ps.len(),
{
    if ps.len() == 0 {
        assert(decode_xhr2_records(Seq::empty()) == Some(Seq::<PacketView>::empty()));
    } else {
        lemma_decode_xhr2_record(ps[0], encode_records(ps.skip(1), false, true));
        lemma_decode_encode_records_xhr2(ps.skip(1));
        assert(seq![ps[0]] + ps.skip(1) =~= ps);
    }
}

/// Round-trip law for the binary/XHR2 mode: a non-empty packet sequence
/// encoded with the three-byte markers decodes back to exactly the same
/// sequence.
pub proof fn lemma_xhr2_round_trip(ps: Seq<PacketView>)
    requires
        ps.len() > 0,
    ensures
        decode_payload_spec(encode_payload_spec(ps, None, false, true), false, true) == Some(ps),
{
    let s = encode_records(ps, false, true);
    assert(s =~= encode_xhr2_record(ps[0]) + encode_records(ps.skip(1), false, true));
    assert(s.len() > 0);
    lemma_decode_encode_records_xhr2(ps);
}

proof fn lemma_scan_digits_b64(d: Seq<u8>, rest: Seq<u8>, acc: nat, in_len: bool)
    requires
        all_digits(d),
        d.len() > 0,
    ensures
        decode_b64_records(d + rest, acc, in_len) == decode_b64_records(
            rest,
            digits_value(acc, d),
            true,
        ),
    decreases d.len(),
{
    reveal_with_fuel(digits_value, 2);
    assert((d + rest)[0] == d[0]);
    assert(is_digit(d[0]));
    assert((d + rest).skip(1) =~= d.skip(1) + rest);
    if d.len() == 1 {
        assert(d.skip(1) + rest =~= rest);
        assert(d.skip(1) =~= Seq::<u8>::empty());
    } else {
        assert(all_digits(d.skip(1))) by {
            assert(forall|i: int| 0 <= i < d.skip(1).len() ==> d.skip(1)[i] == d[i + 1]);
        }
        lemma_scan_digits_b64(d.skip(1), rest, acc * 10 + (d[0] - 48) as nat, true);
    }
}

/// One encoded base64 record at the front of a stream decodes to exactly
/// its packet, provided base64 decoding inverts base64 encoding on its
/// payload, and the scan continues behind it.
proof fn lemma_decode_b64_record(p: PacketView, rest: Seq<u8>, in_len: bool)
    requires
        base64url_decode(base64url_of(p.data)) == Some(p.data),
    ensures
        decode_b64_records(encode_b64_record(p) + rest, 0, in_len) == opt_prepend(
            seq![p],
            decode_b64_records(rest, 0, false),
        ),
{
    let b = base64url_of(p.data);
    let m = b.len();
    let d = digits_spec(m + 1);
    lemma_digits_are_digits(m + 1);
    lemma_digits_roundtrip(m + 1);
    let tail = seq![58u8, 98u8, tag_of(p.id)] + b + rest;
    assert(encode_b64_record(p) + rest =~= d + tail);
    lemma_scan_digits_b64(d, tail, 0, in_len);
    assert(tail[0] == 58);
    let rest1 = tail.skip(1);
    assert(rest1 =~= seq![98u8, tag_of(p.id)] + b + rest);
    assert(rest1.len() == 2 + m + rest.len());
    assert(rest1[0] == 98);
    assert(rest1[1] == tag_of(p.id));
    lemma_tag_roundtrip(p.id);
    assert(rest1.subrange(2, m as int + 2) =~= b);
    assert(rest1.skip(m as int + 2) =~= rest);
    assert(PacketView { id: p.id, data: p.data } == p);
}

proof fn lemma_decode_encode_records_b64(ps: Seq<PacketView>)
    requires
        forall|i: int|
            0 <= i < ps.len() ==> base64url_decode(base64url_of(#[trigger] ps[i].data)) == Some(
                ps[i].data,
            ),
    ensures
        decode_b64_records(encode_records(ps, true, false), 0, false) == Some(ps),
    decreases ps.len(),
{
    if ps.len() == 0 {
        assert(decode_b64_records(Seq::empty(), 0, false) == Some(Seq::<PacketView>::empty()));
    } else {
        lemma_decode_b64_record(ps[0], encode_records(ps.skip(1), true, false), false);
        assert(forall|i: int| 0 <= i < ps.skip(1).len() ==> ps.skip(1)[i] == ps[i + 1]);
        lemma_decode_encode_records_b64(ps.skip(1));
        assert(seq![ps[0]] + ps.skip(1) =~= ps);
    }
}

/// Round-trip law for the base64 mode: a non-empty packet sequence encoded
/// as base64 records decodes back to exactly the same sequence, given that
/// base64 decoding inverts base64 encoding on each payload — the fact the
/// trusted encoder records about every value it returns.
pub proof fn lemma_b64_round_trip(ps: Seq<PacketView>)
    requires
        ps.len() > 0,
        forall|i: int|
            0 <= i < ps.len() ==> base64url_decode(base64url_of(#[trigger] ps[i].data)) == Some(
                ps[i].data,
            ),
    ensures
        decode_payload_spec(encode_payload_spec(ps, None, true, false), true, false) == Some(ps),
{
    lemma_digits_are_digits(base64url_of(ps[0].data).len() + 1);
    let s = encode_records(ps, true, false);
    assert(s =~= encode_b64_record(ps[0]) + encode_records(ps.skip(1), true, false));
    assert(s.len() > 0);
    lemma_decode_b64_record(ps[0], encode_records(ps.skip(1), true, false), true);
    assert(forall|i: int| 0 <= i < ps.skip(1).len() ==> ps.skip(1)[i] == ps[i + 1]);
    lemma_decode_encode_records_b64(ps.skip(1));
    assert(seq![ps[0]] + ps.skip(1) =~= ps);
}

proof fn lemma_nondigit_tail_none(d: Seq<u8>, c: u8, rest: Seq<u8>, in_len: bool)
    requires
        all_digits(d),
        !is_digit(c),
        c != 58,
    ensures
        decode_plain_records(d + seq![c] + rest, 0, in_len) is None,
{
    let s = d + seq![c] + rest;
    if d.len() == 0 {
        assert(s =~= seq![c] + rest);
        assert(s[0] == c);
    } else {
        assert(s =~= d + (seq![c] + rest));
        lemma_scan_digits(d, seq![c] + rest, 0, in_len);
        assert((seq![c] + rest)[0] == c);
    }
}

proof fn lemma_records_then_bad(
    ps: Seq<PacketView>,
    d: Seq<u8>,
    c: u8,
    rest: Seq<u8>,
    in_len: bool,
)
    requires
        all_digits(d),
        !is_digit(c),
        c != 58,
    ensures
        decode_plain_records(encode_records(ps, false, false) + (d + seq![c] + rest), 0, in_len)
            is None,
    decreases ps.len(),
{
    if ps.len() == 0 {
        assert(encode_records(ps, false, false) + (d + seq![c] + rest) =~= d + seq![c] + rest);
        lemma_nondigit_tail_none(d, c, rest, in_len);
    } else {
        let tail = encode_records(ps.skip(1), false, false) + (d + seq![c] + rest);
        assert(encode_records(ps, false, false) + (d + seq![c] + rest) =~= encode_plain_record(
            ps[0],
        ) + tail);
        lemma_decode_plain_record(ps[0], tail, in_len);
        lemma_records_then_bad(ps.skip(1), d, c, rest, false);
    }
}

/// Length validation law: a plain-mode stream in which some record's length
/// prefix holds a byte that is neither a digit nor `:` never decodes,
/// whatever complete records precede it and whatever bytes follow it.
pub proof fn lemma_nondigit_length_prefix_fails(
    ps: Seq<PacketView>,
    d: Seq<u8>,
    c: u8,
    rest: Seq<u8>,
)
    requires
        all_digits(d),
        !is_digit(c),
        c != 58,
    ensures
        decode_payload_spec(
            encode_payload_spec(ps, None, false, false) + d + seq![c] + rest,
            false,
            false,
        ) is None,
{
    let s = encode_records(ps, false, false) + d + seq![c] + rest;
    assert(s.len() > 0);
    assert(s =~= encode_records(ps, false, false) + (d + seq![c] + rest));
    lemma_records_then_bad(ps, d, c, rest, true);
}

proof fn lemma_truncated_tail_none(n: nat, rest: Seq<u8>, in_len: bool)
    requires
        rest.len() < n,
    ensures
        decode_plain_records(digits_spec(n) + seq![58u8] + rest, 0, in_len) is None,
{
    lemma_digits_are_digits(n);
    lemma_digits_roundtrip(n);
    let tail = seq![58u8] + rest;
    assert(digits_spec(n) + seq![58u8] + rest =~= digits_spec(n) + tail);
    lemma_scan_digits(digits_spec(n), tail, 0, in_len);
    assert(tail[0] == 58);
    assert(tail.skip(1) =~= rest);
}

proof fn lemma_records_then_truncated(ps: Seq<PacketView>, n: nat, rest: Seq<u8>, in_len: bool)
    requires
        rest.len() < n,
    ensures
        decode_plain_records(
            encode_records(ps, false, false) + (digits_spec(n) + seq![58u8] + rest),
            0,
            in_len,
        ) is None,
    decreases ps.len(),
{
    if ps.len() == 0 {
        assert(encode_records(ps, false, false) + (digits_spec(n) + seq![58u8] + rest)
            =~= digits_spec(n) + seq![58u8] + rest);
        lemma_truncated_tail_none(n, rest, in_len);
    } else {
        let tail = encode_records(ps.skip(1), false, false) + (digits_spec(n) + seq![58u8]
            + rest);
        assert(encode_records(ps, false, false) + (digits_spec(n) + seq![58u8] + rest)
            =~= encode_plain_record(ps[0]) + tail);
        lemma_decode_plain_record(ps[0], tail, in_len);
        lemma_records_then_truncated(ps.skip(1), n, rest, false);
    }
}

/// Truncation law: a plain-mode stream in which some record declares a
/// length larger than the bytes that follow its `:` never decodes,
/// whatever complete records precede it.
pub proof fn lemma_truncated_record_fails(ps: Seq<PacketView>, n: nat, rest: Seq<u8>)
    requires
        rest.len() < n,
    ensures
        decode_payload_spec(
            encode_payload_spec(ps, None, false, false) + digits_spec(n) + seq![58u8] + rest,
            false,
            false,
        ) is None,
{
    lemma_digits_are_digits(n);
    let s = encode_records(ps, false, false) + digits_spec(n) + seq![58u8] + rest;
    assert(s.len() > 0);
    assert(s =~= encode_records(ps, false, false) + (digits_spec(n) + seq![58u8] + rest));
    lemma_records_then_truncated(ps, n, rest, true);
}

/// Delivery law: whatever the outbound queue held, after two further sends
/// the flushed plain-mode payload decodes to exactly the queued packets
/// followed by the two sent ones, in order: no packet is lost and none is
/// delivered twice. Concurrent senders are serialized by the caller's
/// lock, so their packets land in the queue in lock-acquisition order;
/// the lemma is symmetric in `p1` and `p2`, so it covers either order.
pub proof fn lemma_sends_then_flush(q: Seq<PacketView>, p1: PacketView, p2: PacketView)
    ensures
        decode_payload_spec(
            encode_payload_spec(q.push(p1).push(p2), None, false, false),
            false,
            false,
        ) == Some(q.push(p1).push(p2)),
{
    lemma_plain_round_trip(q.push(p1).push(p2));
}

proof fn lemma_all_digits_dangling(s: Seq<u8>, len: nat)
    requires
        all_digits(s),
    ensures
        decode_plain_records(s, len, true) is None,
    decreases s.len(),
{
    if s.len() > 0 {
        assert(is_digit(s[0]));
        assert(all_digits(s.skip(1))) by {
            assert(forall|i: int| 0 <= i < s.skip(1).len() ==> s.skip(1)[i] == s[i + 1]);
        }
        lemma_all_digits_dangling(s.skip(1), len * 10 + (s[0] - 48) as nat);
    }
}

proof fn lemma_records_then_digits(ps: Seq<PacketView>, d: Seq<u8>, in_len: bool)
    requires
        all_digits(d),
        d.len() > 0,
    ensures
        decode_plain_records(encode_records(ps, false, false) + d, 0, in_len) is None,
    decreases ps.len(),
{
    if ps.len() == 0 {
        assert(encode_records(ps, false, false) + d =~= d);
        lemma_scan_digits(d, Seq::empty(), 0, in_len);
        assert(d + Seq::<u8>::empty() =~= d);
        lemma_all_digits_dangling(Seq::empty(), digits_value(0, d));
    } else {
        let rest = encode_records(ps.skip(1), false, false) + d;
        assert(encode_records(ps, false, false) + d =~= encode_plain_record(ps[0]) + rest);
        lemma_decode_plain_record(ps[0], rest, in_len);
        lemma_records_then_digits(ps.skip(1), d, false);
    }
}

/// Dangling prefix law: a plain-mode stream that ends with digits not
/// terminated by `:` never decodes, whatever complete records precede them.
pub proof fn lemma_dangling_prefix_fails(ps: Seq<PacketView>, d: Seq<u8>)
    requires
        all_digits(d),
        d.len() > 0,
    ensures
        decode_payload_spec(encode_payload_spec(ps, None, false, false) + d, false, false) is None,
{
    let s = encode_records(ps, false, false) + d;
    assert(s.len() > 0);
    lemma_records_then_digits(ps, d, true);
}

} // verus!
