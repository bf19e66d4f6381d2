//! The payload codec: serializing a sequence of packets into one byte
//! stream and parsing a byte stream back, under three mutually exclusive
//! framing modes (plain text, base64, binary/XHR2), with an optional JSONP
//! callback envelope on the encoding side.

use vstd::prelude::*;

use crate::b64::b64_len_ok;
use crate::b64::base64url_decode;
use crate::b64::base64url_of;
use crate::b64::from_base64_url;
use crate::b64::to_base64_url;
use crate::digits::digits_spec;
use crate::digits::is_digit;
use crate::digits::push_digits;
use crate::packet::encode_packet_spec;
use crate::packet::id_of_tag;
use crate::packet::is_binary_spec;
use crate::packet::tag_of;
use crate::packet::Packet;
use crate::packet::PacketView;

verus! {

/// The models of the packets in `ps`, in order.
pub open spec fn seq_view(ps: Seq<Packet>) -> Seq<PacketView> {
    ps.map_values(|p: Packet| p@)
}

/// A plain-mode record: decimal digits of the payload length (payload bytes
/// only, tag byte not counted), then `:`, then the framed packet body.
pub open spec fn encode_plain_record(p: PacketView) -> Seq<u8> {
    digits_spec(p.data.len()) + seq![58u8] + encode_packet_spec(p)
}

/// A base64-mode record: decimal digits of one more than the base64 text
/// length (the tag byte is counted, the literal `b` is not), then `:`, then
/// `b`, then the tag byte, then the base64 text of the payload.
pub open spec fn encode_b64_record(p: PacketView) -> Seq<u8> {
    digits_spec(base64url_of(p.data).len() + 1) + seq![58u8, 98u8, tag_of(p.id)] + base64url_of(
        p.data,
    )
}

/// The fixed three-byte marker that precedes each binary/XHR2 record: the
/// is-binary byte (0 or 1), then `0x00`, then `0xFF`.
pub open spec fn xhr2_marker(p: PacketView) -> Seq<u8> {
    seq![if is_binary_spec(p.data) { 1u8 } else { 0u8 }, 0u8, 255u8]
}

/// A binary/XHR2 record: the marker, then a plain-mode record.
pub open spec fn encode_xhr2_record(p: PacketView) -> Seq<u8> {
    xhr2_marker(p) + encode_plain_record(p)
}

pub open spec fn encode_record(p: PacketView, b64: bool, xhr2: bool) -> Seq<u8> {
    if b64 {
        encode_b64_record(p)
    } else if xhr2 {
        encode_xhr2_record(p)
    } else {
        encode_plain_record(p)
    }
}

/// The concatenation of one framed record per packet, in input order.
pub open spec fn encode_records(ps: Seq<PacketView>, b64: bool, xhr2: bool) -> Seq<u8>
    decreases ps.len(),
{
    if ps.len() == 0 {
        Seq::empty()
    } else {
        encode_record(ps[0], b64, xhr2) + encode_records(ps.skip(1), b64, xhr2)
    }
}

/// The decimal digits of `i`, with a leading `-` when `i` is negative.
pub open spec fn int_digits(i: int) -> Seq<u8> {
    if i < 0 {
        seq![45u8] + digits_spec((-i) as nat)
    } else {
        digits_spec(i as nat)
    }
}

/// The JSONP envelope opener `__eio[<index>](`.
pub open spec fn jsonp_prefix(index: int) -> Seq<u8> {
    seq![95u8, 95u8, 101u8, 105u8, 111u8, 91u8] + int_digits(index) + seq![93u8, 40u8]
}

/// What `encode_payload` emits: the framed records in input order, wrapped
/// in the JSONP envelope when an index is present.
pub open spec fn encode_payload_spec(
    ps: Seq<PacketView>,
    jsonp: Option<int>,
    b64: bool,
    xhr2: bool,
) -> Seq<u8> {
    match jsonp {
        None => encode_records(ps, b64, xhr2),
        Some(i) => jsonp_prefix(i) + encode_records(ps, b64, xhr2) + seq![41u8],
    }
}

pub open spec fn jsonp_view(j: Option<i32>) -> Option<int> {
    match j {
        None => None,
        Some(i) => Some(i as int),
    }
}

proof fn lemma_encode_records_concat(a: Seq<PacketView>, b: Seq<PacketView>, b64: bool, xhr2: bool)
    ensures
        encode_records(a + b, b64, xhr2) == encode_records(a, b64, xhr2) + encode_records(
            b,
            b64,
            xhr2,
        ),
    decreases a.len(),
{
    if a.len() == 0 {
        assert(a + b =~= b);
        assert(encode_records(a, b64, xhr2) + encode_records(b, b64, xhr2) =~= encode_records(
            b,
            b64,
            xhr2,
        ));
    } else {
        assert((a + b).skip(1) =~= a.skip(1) + b);
        lemma_encode_records_concat(a.skip(1), b, b64, xhr2);
        assert(encode_records(a + b, b64, xhr2) =~= encode_records(a, b64, xhr2)
            + encode_records(b, b64, xhr2));
    }
}

proof fn lemma_encode_records_snoc(s: Seq<PacketView>, k: int, b64: bool, xhr2: bool)
    requires
        0 <= k < s.len(),
    ensures
        encode_records(s.take(k + 1), b64, xhr2) == encode_records(s.take(k), b64, xhr2)
            + encode_record(s[k], b64, xhr2),
{
    reveal_with_fuel(encode_records, 2);
    assert(s.take(k + 1) =~= s.take(k) + seq![s[k]]);
    lemma_encode_records_concat(s.take(k), seq![s[k]], b64, xhr2);
    assert(seq![s[k]].skip(1) =~= Seq::<PacketView>::empty());
    assert(encode_records(seq![s[k]], b64, xhr2) =~= encode_record(s[k], b64, xhr2));
}

/// Prepends `a` to the packets of `o`, keeping a failed decode failed.
pub open spec fn opt_prepend(a: Seq<PacketView>, o: Option<Seq<PacketView>>) -> Option<
    Seq<PacketView>,
> {
    match o {
        None => None,
        Some(b) => Some(a + b),
    }
}

/// Plain-mode record scan. `len` is the decimal length value accumulated so
/// far and `in_len` says whether the last byte consumed was part of a length
/// prefix; a stream may only end right after a complete record.
pub open spec fn decode_plain_records(s: Seq<u8>, len: nat, in_len: bool) -> Option<
    Seq<PacketView>,
>
    decreases s.len(),
{
    if s.len() == 0 {
        if in_len {
            None
        } else {
            Some(Seq::empty())
        }
    } else if s[0] == 58 {
        let rest = s.skip(1);
        if rest.len() < len + 1 {
            None
        } else {
            match id_of_tag(rest[0]) {
                None => None,
                Some(id) => {
                    let p = PacketView { id, data: rest.subrange(1, len as int + 1) };
                    opt_prepend(seq![p], decode_plain_records(rest.skip(len as int + 1), 0, false))
                },
            }
        }
    } else if is_digit(s[0]) {
        decode_plain_records(s.skip(1), len * 10 + (s[0] - 48) as nat, true)
    } else {
        None
    }
}

/// Base64-mode record scan: after the length prefix and `:` comes a literal
/// `b`, the tag byte, and `len - 1` bytes of base64 text for the payload.
pub open spec fn decode_b64_records(s: Seq<u8>, len: nat, in_len: bool) -> Option<Seq<PacketView>>
    decreases s.len(),
{
    if s.len() == 0 {
        if in_len {
            None
        } else {
            Some(Seq::empty())
        }
    } else if s[0] == 58 {
        let rest = s.skip(1);
        if len < 1 || rest.len() < len + 1 {
            None
        } else if rest[0] != 98 {
            None
        } else {
            match id_of_tag(rest[1]) {
                None => None,
                Some(id) => match base64url_decode(rest.subrange(2, len as int + 1)) {
                    None => None,
                    Some(payload) => opt_prepend(
                        seq![PacketView { id, data: payload }],
                        decode_b64_records(rest.skip(len as int + 1), 0, false),
                    ),
                },
            }
        }
    } else if is_digit(s[0]) {
        decode_b64_records(s.skip(1), len * 10 + (s[0] - 48) as nat, true)
    } else {
        None
    }
}

/// Binary/XHR2 record scan: each record opens with the three-byte marker,
/// then a plain-mode record follows.
pub open spec fn decode_xhr2_records(s: Seq<u8>) -> Option<Seq<PacketView>>
    decreases s.len(),
{
    if s.len() == 0 {
        Some(Seq::empty())
    } else if s.len() < 3 {
        None
    } else if !((s[0] == 0 || s[0] == 1) && s[1] == 0 && s[2] == 255) {
        None
    } else {
        decode_xhr2_body(s.skip(3), 0)
    }
}

/// The length prefix and framed packet of one binary/XHR2 record; the
/// stream may not end before the record is complete.
pub open spec fn decode_xhr2_body(s: Seq<u8>, len: nat) -> Option<Seq<PacketView>>
    decreases s.len(),
{
    if s.len() == 0 {
        None
    } else if s[0] == 58 {
        let rest = s.skip(1);
        if rest.len() < len + 1 {
            None
        } else {
            match id_of_tag(rest[0]) {
                None => None,
                Some(id) => {
                    let p = PacketView { id, data: rest.subrange(1, len as int + 1) };
                    opt_prepend(seq![p], decode_xhr2_records(rest.skip(len as int + 1)))
                },
            }
        }
    } else if is_digit(s[0]) {
        decode_xhr2_body(s.skip(1), len * 10 + (s[0] - 48) as nat)
    } else {
        None
    }
}

/// What `decode_payload` yields: `None` on empty input, else the record
/// scan of the active framing mode.
pub open spec fn decode_payload_spec(s: Seq<u8>, b64: bool, xhr2: bool) -> Option<
    Seq<PacketView>,
> {
    if s.len() == 0 {
        None
    } else if xhr2 {
        decode_xhr2_records(s)
    } else if b64 {
        decode_b64_records(s, 0, true)
    } else {
        decode_plain_records(s, 0, true)
    }
}

/// A declared length larger than the whole remaining stream can never be
/// satisfied, so the scan fails however the stream continues.
proof fn lemma_plain_too_long(s: Seq<u8>, len: nat)
    requires
        len > s.len(),
    ensures
        decode_plain_records(s, len, true) is None,
    decreases s.len(),
{
    if s.len() > 0 && is_digit(s[0]) && s[0] != 58 {
        lemma_plain_too_long(s.skip(1), len * 10 + (s[0] - 48) as nat);
    }
}

proof fn lemma_b64_too_long(s: Seq<u8>, len: nat)
    requires
        len > s.len(),
    ensures
        decode_b64_records(s, len, true) is None,
    decreases s.len(),
{
    if s.len() > 0 && is_digit(s[0]) && s[0] != 58 {
        lemma_b64_too_long(s.skip(1), len * 10 + (s[0] - 48) as nat);
    }
}

proof fn lemma_xhr2_too_long(s: Seq<u8>, len: nat)
    requires
        len > s.len(),
    ensures
        decode_xhr2_body(s, len) is None,
    decreases s.len(),
{
    if s.len() > 0 && is_digit(s[0]) && s[0] != 58 {
        lemma_xhr2_too_long(s.skip(1), len * 10 + (s[0] - 48) as nat);
    }
}

proof fn lemma_opt_prepend_cons(a: Seq<PacketView>, p: PacketView, o: Option<Seq<PacketView>>)
    ensures
        opt_prepend(a, opt_prepend(seq![p], o)) == opt_prepend(a.push(p), o),
{
    match o {
        None => {},
        Some(b) => {
            assert(a + (seq![p] + b) =~= a.push(p) + b);
        },
    }
}

/// Appends the decimal digits of `i`, with a leading `-` when negative.
fn push_int_digits(i: i32, out: &mut Vec<u8>)
    ensures
        final(out)@ == old(out)@ + int_digits(i as int),
{
    if i < 0 {
        out.push(45);
        push_digits((-(i as i64)) as u64, out);
        proof {
            assert(out@ =~= old(out)@ + int_digits(i as int));
        }
    } else {
        push_digits(i as u64, out);
    }
}

/// Serializes `packets` into one payload byte stream under exactly one of
/// the three framing modes, optionally wrapped in a JSONP envelope.
pub fn encode_payload(packets: &Vec<Packet>, jsonp_index: Option<i32>, b64: bool, xhr2: bool) -> (r:
    Vec<u8>)
    requires
        !(b64 && xhr2),
        b64 ==> forall|i: int| 0 <= i < packets@.len() ==> b64_len_ok(#[trigger] packets@[i]@.data),
    ensures
        r@ == encode_payload_spec(seq_view(packets@), jsonp_view(jsonp_index), b64, xhr2),
{
    let mut data: Vec<u8> = Vec::new();
    match jsonp_index {
        Some(i) => {
            data.push(95);
            data.push(95);
            data.push(101);
            data.push(105);
            data.push(111);
            data.push(91);
            push_int_digits(i, &mut data);
            data.push(93);
            data.push(40);
            proof {
                assert(data@ =~= jsonp_prefix(i as int));
            }
        },
        None => {},
    }
    let ghost prefix: Seq<u8> = data@;
    let ghost ps: Seq<PacketView> = seq_view(packets@);
    let mut k: usize = 0;
    while k < packets.len()
        invariant
            k <= packets@.len(),
            ps == seq_view(packets@),
            data@ == prefix + encode_records(ps.take(k as int), b64, xhr2),
            !(b64 && xhr2),
            b64 ==> forall|i: int|
                0 <= i < packets@.len() ==> b64_len_ok(#[trigger] packets@[i]@.data),
        decreases packets@.len() - k,
    {
        let p = &packets[k];
        let ghost d0: Seq<u8> = data@;
        proof {
            assert(ps[k as int] == packets@[k as int]@);
        }
        if b64 {
            let b = to_base64_url(p.data.as_slice());
            push_digits((b.len() + 1) as u64, &mut data);
            data.push(58);
            data.push(98);
            data.push(p.tag_byte());
            data.extend_from_slice(b.as_slice());
            proof {
                assert(data@ =~= d0 + encode_b64_record(ps[k as int]));
            }
        } else if xhr2 {
            if p.is_binary() {
                data.push(1);
            } else {
                data.push(0);
            }
            data.push(0);
            data.push(255);
            push_digits(p.data.len() as u64, &mut data);
            data.push(58);
            p.encode_to(&mut data);
            proof {
                assert(data@ =~= d0 + encode_xhr2_record(ps[k as int]));
            }
        } else {
            push_digits(p.data.len() as u64, &mut data);
            data.push(58);
            p.encode_to(&mut data);
            proof {
                assert(data@ =~= d0 + encode_plain_record(ps[k as int]));
            }
        }
        proof {
            lemma_encode_records_snoc(ps, k as int, b64, xhr2);
            assert(data@ =~= prefix + encode_records(ps.take(k as int + 1), b64, xhr2));
        }
        k = k + 1;
    }
    proof {
        assert(ps.take(packets@.len() as int) =~= ps);
    }
    match jsonp_index {
        Some(_) => {
            data.push(41);
        },
        None => {},
    }
    data
}

fn decode_plain(data: &Vec<u8>) -> (r: Option<Vec<Packet>>)
    ensures
        match r {
            Some(ps) => decode_plain_records(data@, 0, true) == Some(seq_view(ps@)),
            None => decode_plain_records(data@, 0, true) is None,
        },
{
    let mut packets: Vec<Packet> = Vec::new();
    let mut pos: usize = 0;
    let mut len: usize = 0;
    let mut parsing: bool = true;
    proof {
        assert(data@.skip(0) =~= data@);
        assert(seq_view(packets@) =~= Seq::<PacketView>::empty());
        match decode_plain_records(data@, 0, true) {
            None => {},
            Some(b) => {
                assert(seq_view(packets@) + b =~= b);
            },
        }
    }
    while pos < data.len()
        invariant
            pos <= data@.len(),
            len <= data@.len(),
            decode_plain_records(data@, 0, true) == opt_prepend(
                seq_view(packets@),
                decode_plain_records(data@.skip(pos as int), len as nat, parsing),
            ),
        decreases data@.len() - pos,
    {
        let ghost s_pos: Seq<u8> = data@.skip(pos as int);
        proof {
            assert(s_pos[0] == data@[pos as int]);
            assert(s_pos.skip(1) =~= data@.skip(pos as int + 1));
        }
        let c = data[pos];
        if c == 58 {
            let rest_slice: &[u8] = &data.as_slice()[pos + 1..data.len()];
            proof {
                assert(rest_slice@ =~= s_pos.skip(1));
            }
            match Packet::from_bytes(rest_slice, len) {
                Err(_) => {
                    return None;
                },
                Ok(p) => {
                    proof {
                        assert(rest_slice@.len() >= len + 1);
                        assert(p@.data =~= s_pos.skip(1).subrange(1, len as int + 1));
                        assert(s_pos.skip(1).skip(len as int + 1) =~= data@.skip(
                            pos as int + 2 + len as int,
                        ));
                        assert(seq_view(packets@.push(p)) =~= seq_view(packets@).push(p@));
                        lemma_opt_prepend_cons(
                            seq_view(packets@),
                            p@,
                            decode_plain_records(
                                data@.skip(pos as int + 2 + len as int),
                                0,
                                false,
                            ),
                        );
                    }
                    packets.push(p);
                    pos = pos + 1 + len + 1;
                    len = 0;
                    parsing = false;
                },
            }
        } else if 48 <= c && c <= 57 {
            let d = (c - 48) as usize;
            let big: u128 = (len as u128) * 10 + (d as u128);
            if big > (data.len() as u128) {
                proof {
                    lemma_plain_too_long(
                        data@.skip(pos as int + 1),
                        (len * 10 + (c - 48)) as nat,
                    );
                }
                return None;
            }
            len = big as usize;
            pos = pos + 1;
            parsing = true;
        } else {
            return None;
        }
    }
    proof {
        assert(data@.skip(pos as int) =~= Seq::<u8>::empty());
    }
    if parsing {
        None
    } else {
        proof {
            assert(seq_view(packets@) + Seq::<PacketView>::empty() =~= seq_view(packets@));
        }
        Some(packets)
    }
}

fn decode_b64(data: &Vec<u8>) -> (r: Option<Vec<Packet>>)
    ensures
        match r {
            Some(ps) => decode_b64_records(data@, 0, true) == Some(seq_view(ps@)),
            None => decode_b64_records(data@, 0, true) is None,
        },
{
    let mut packets: Vec<Packet> = Vec::new();
    let mut pos: usize = 0;
    let mut len: usize = 0;
    let mut parsing: bool = true;
    proof {
        assert(data@.skip(0) =~= data@);
        assert(seq_view(packets@) =~= Seq::<PacketView>::empty());
        match decode_b64_records(data@, 0, true) {
            None => {},
            Some(b) => {
                assert(seq_view(packets@) + b =~= b);
            },
        }
    }
    while pos < data.len()
        invariant
            pos <= data@.len(),
            len <= data@.len(),
            decode_b64_records(data@, 0, true) == opt_prepend(
                seq_view(packets@),
                decode_b64_records(data@.skip(pos as int), len as nat, parsing),
            ),
        decreases data@.len() - pos,
    {
        let ghost s_pos: Seq<u8> = data@.skip(pos as int);
        proof {
            assert(s_pos[0] == data@[pos as int]);
            assert(s_pos.skip(1) =~= data@.skip(pos as int + 1));
        }
        let c = data[pos];
        if c == 58 {
            if len < 1 {
                return None;
            }
            let rem = data.len() - pos - 1;
            if rem <= len {
                return None;
            }
            proof {
                assert(s_pos.skip(1)[0] == data@[pos as int + 1]);
                assert(s_pos.skip(1)[1] == data@[pos as int + 2]);
            }
            if data[pos + 1] != 98 {
                return None;
            }
            let tag = data[pos + 2];
            match crate::packet::id_from_tag(tag) {
                None => {
                    return None;
                },
                Some(id) => {
                    let text: &[u8] = &data.as_slice()[pos + 3..pos + 2 + len];
                    proof {
                        assert(text@ =~= s_pos.skip(1).subrange(2, len as int + 1));
                    }
                    match from_base64_url(text) {
                        None => {
                            return None;
                        },
                        Some(payload) => {
                            let p = Packet { id, data: payload };
                            proof {
                                assert(s_pos.skip(1).skip(len as int + 1) =~= data@.skip(
                                    pos as int + 2 + len as int,
                                ));
                                assert(seq_view(packets@.push(p)) =~= seq_view(packets@).push(p@));
                                lemma_opt_prepend_cons(
                                    seq_view(packets@),
                                    p@,
                                    decode_b64_records(
                                        data@.skip(pos as int + 2 + len as int),
                                        0,
                                        false,
                                    ),
                                );
                            }
                            packets.push(p);
                            pos = pos + 1 + len + 1;
                            len = 0;
                            parsing = false;
                        },
                    }
                },
            }
        } else if 48 <= c && c <= 57 {
            let d = (c - 48) as usize;
            let big: u128 = (len as u128) * 10 + (d as u128);
            if big > (data.len() as u128) {
                proof {
                    lemma_b64_too_long(data@.skip(pos as int + 1), (len * 10 + (c - 48)) as nat);
                }
                return None;
            }
            len = big as usize;
            pos = pos + 1;
            parsing = true;
        } else {
            return None;
        }
    }
    proof {
        assert(data@.skip(pos as int) =~= Seq::<u8>::empty());
    }
    if parsing {
        None
    } else {
        proof {
            assert(seq_view(packets@) + Seq::<PacketView>::empty() =~= seq_view(packets@));
        }
        Some(packets)
    }
}

fn decode_xhr2(data: &Vec<u8>) -> (r: Option<Vec<Packet>>)
    ensures
        match r {
            Some(ps) => decode_xhr2_records(data@) == Some(seq_view(ps@)),
            None => decode_xhr2_records(data@) is None,
        },
{
    let mut packets: Vec<Packet> = Vec::new();
    let mut pos: usize = 0;
    let mut len: usize = 0;
    let mut expect_marker: bool = true;
    proof {
        assert(data@.skip(0) =~= data@);
        assert(seq_view(packets@) =~= Seq::<PacketView>::empty());
        match decode_xhr2_records(data@) {
            None => {},
            Some(b) => {
                assert(seq_view(packets@) + b =~= b);
            },
        }
    }
    while pos < data.len()
        invariant
            pos <= data@.len(),
            len <= data@.len(),
            decode_xhr2_records(data@) == opt_prepend(
                seq_view(packets@),
                if expect_marker {
                    decode_xhr2_records(data@.skip(pos as int))
                } else {
                    decode_xhr2_body(data@.skip(pos as int), len as nat)
                },
            ),
        decreases data@.len() - pos,
    {
        let ghost s_pos: Seq<u8> = data@.skip(pos as int);
        proof {
            assert(s_pos[0] == data@[pos as int]);
            assert(s_pos.skip(1) =~= data@.skip(pos as int + 1));
        }
        if expect_marker {
            if data.len() - pos < 3 {
                return None;
            }
            proof {
                assert(s_pos[1] == data@[pos as int + 1]);
                assert(s_pos[2] == data@[pos as int + 2]);
            }
            let m0 = data[pos];
            let m1 = data[pos + 1];
            let m2 = data[pos + 2];
            if !((m0 == 0 || m0 == 1) && m1 == 0 && m2 == 255) {
                return None;
            }
            proof {
                assert(s_pos.skip(3) =~= data@.skip(pos as int + 3));
            }
            pos = pos + 3;
            len = 0;
            expect_marker = false;
        } else {
            let c = data[pos];
            if c == 58 {
                let rest_slice: &[u8] = &data.as_slice()[pos + 1..data.len()];
                proof {
                    assert(rest_slice@ =~= s_pos.skip(1));
                }
                match Packet::from_bytes(rest_slice, len) {
                    Err(_) => {
                        return None;
                    },
                    Ok(p) => {
                        proof {
                            assert(rest_slice@.len() >= len + 1);
                            assert(p@.data =~= s_pos.skip(1).subrange(1, len as int + 1));
                            assert(s_pos.skip(1).skip(len as int + 1) =~= data@.skip(
                                pos as int + 2 + len as int,
                            ));
                            assert(seq_view(packets@.push(p)) =~= seq_view(packets@).push(p@));
                            lemma_opt_prepend_cons(
                                seq_view(packets@),
                                p@,
                                decode_xhr2_records(data@.skip(pos as int + 2 + len as int)),
                            );
                        }
                        packets.push(p);
                        pos = pos + 1 + len + 1;
                        len = 0;
                        expect_marker = true;
                    },
                }
            } else if 48 <= c && c <= 57 {
                let d = (c - 48) as usize;
                let big: u128 = (len as u128) * 10 + (d as u128);
                if big > (data.len() as u128) {
                    proof {
                        lemma_xhr2_too_long(
                            data@.skip(pos as int + 1),
                            (len * 10 + (c - 48)) as nat,
                        );
                    }
                    return None;
                }
                len = big as usize;
                pos = pos + 1;
            } else {
                return None;
            }
        }
    }
    proof {
        assert(data@.skip(pos as int) =~= Seq::<u8>::empty());
    }
    if expect_marker {
        proof {
            assert(seq_view(packets@) + Seq::<PacketView>::empty() =~= seq_view(packets@));
        }
        Some(packets)
    } else {
        None
    }
}

/// Parses one payload byte stream back into its packets. Empty input fails;
/// any structural violation makes the whole decode fail rather than yield a
/// partial result.
pub fn decode_payload(data: Vec<u8>, b64: bool, xhr2: bool) -> (r: Option<Vec<Packet>>)
    requires
        !(b64 && xhr2),
    ensures
        match r {
            Some(ps) => decode_payload_spec(data@, b64, xhr2) == Some(seq_view(ps@)),
            None => decode_payload_spec(data@, b64, xhr2) is None,
        },
{
    if data.len() == 0 {
        return None;
    }
    if xhr2 {
        decode_xhr2(&data)
    } else if b64 {
        decode_b64(&data)
    } else {
        decode_plain(&data)
    }
}

} // verus!
