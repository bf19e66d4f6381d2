//! Packets: a single typed protocol frame, one tag byte followed by a raw
//! byte payload. The tag space is exactly the seven values below; any other
//! byte on the wire is an invalid-id condition.

use vstd::prelude::*;
use vstd::string::StringSliceAdditionalSpecFns;

use crate::digits::digits_spec;
use crate::digits::push_digits;

verus! {

/// Relies on rand's thread-local generator, seeded from the operating
/// system: nothing can be assumed of a drawn value.
pub assume_specification<T>[ rand::random::<T> ]() -> (r: T)
    where
        rand::distributions::Standard: rand::distributions::Distribution<T>,
;

/// Relies on std's `String::from_utf8`: bytes below 128 are valid UTF-8
/// and become one character each, with the same code point.
#[verifier::external_body]
fn ascii_to_string(v: Vec<u8>) -> (r: String)
    requires
        forall|i: int| 0 <= i < v@.len() ==> v@[i] < 128,
    ensures
        r@.len() == v@.len(),
        forall|i: int| 0 <= i < v@.len() ==> r@[i] as int == v@[i] as int,
{
    match String::from_utf8(v) {
        Ok(s) => s,
        Err(_) => String::new(),
    }
}

pub open spec fn is_hex_byte(b: u8) -> bool {
    (48 <= b <= 57) || (97 <= b <= 102)
}

/// The lowercase hex digit byte of a nibble value.
pub open spec fn hex_digit(d: nat) -> u8 {
    if d < 10 {
        (48 + d) as u8
    } else {
        (87 + d) as u8
    }
}

/// The `width` lowercase hex digits of `n`, most significant first, with
/// leading zeros kept (a fixed-width rendering).
pub open spec fn hex_digits_rec(n: nat, width: nat) -> Seq<u8>
    decreases width,
{
    if width == 0 {
        Seq::empty()
    } else {
        hex_digits_rec(n / 16, (width - 1) as nat).push(hex_digit(n % 16))
    }
}

/// The 16 lowercase hex digits of a 64-bit value, most significant first.
pub open spec fn hex_digits_spec(n: u64) -> Seq<u8> {
    hex_digits_rec(n as nat, 16)
}

pub proof fn lemma_hex_digits_are_hex(n: nat, width: nat)
    ensures
        hex_digits_rec(n, width).len() == width,
        forall|i: int| 0 <= i < width ==> is_hex_byte(#[trigger] hex_digits_rec(n, width)[i]),
    decreases width,
{
    if width > 0 {
        lemma_hex_digits_are_hex(n / 16, (width - 1) as nat);
        assert forall|i: int| 0 <= i < width implies is_hex_byte(
            #[trigger] hex_digits_rec(n, width)[i],
        ) by {
            if i < width - 1 {
                assert(hex_digits_rec(n, width)[i] == hex_digits_rec(n / 16, (width - 1) as nat)[i]);
            } else {
                assert(hex_digits_rec(n, width)[i] == hex_digit(n % 16));
            }
        }
    }
}

/// A lowercase hexadecimal character.
pub open spec fn is_hex_char(c: char) -> bool {
    (48 <= c as int <= 57) || (97 <= c as int <= 102)
}

/// The seven packet kinds, with wire tags 0 through 6 in declaration order.
#[derive(Copy, Clone, PartialEq, Eq, Structural, Debug)]
pub enum ID {
    Open,
    Close,
    Ping,
    Pong,
    Message,
    Upgrade,
    Noop,
}

/// Decode and text errors. `MalformedText` stands for payload bytes that are
/// not valid text where text was required.
#[derive(Copy, Clone, PartialEq, Eq, Structural, Debug)]
pub enum Error {
    InvalidPacketID(u8),
    IncompletePacket,
    MalformedText,
}

/// One protocol frame: a kind plus its raw payload bytes.
pub struct Packet {
    pub id: ID,
    pub data: Vec<u8>,
}

/// The mathematical model of a packet: its kind and its payload byte
/// sequence.
pub struct PacketView {
    pub id: ID,
    pub data: Seq<u8>,
}

impl View for Packet {
    type V = PacketView;

    open spec fn view(&self) -> PacketView {
        PacketView { id: self.id, data: self.data@ }
    }
}

/// The fixed one-byte wire tag of each packet kind.
pub open spec fn tag_of(id: ID) -> u8 {
    match id {
        ID::Open => 0,
        ID::Close => 1,
        ID::Ping => 2,
        ID::Pong => 3,
        ID::Message => 4,
        ID::Upgrade => 5,
        ID::Noop => 6,
    }
}

/// The packet kind a tag byte stands for, if any.
pub open spec fn id_of_tag(t: u8) -> Option<ID> {
    if t == 0 {
        Some(ID::Open)
    } else if t == 1 {
        Some(ID::Close)
    } else if t == 2 {
        Some(ID::Ping)
    } else if t == 3 {
        Some(ID::Pong)
    } else if t == 4 {
        Some(ID::Message)
    } else if t == 5 {
        Some(ID::Upgrade)
    } else if t == 6 {
        Some(ID::Noop)
    } else {
        None
    }
}

/// Looks a tag byte up in the fixed seven-value table.
pub fn id_from_tag(t: u8) -> (r: Option<ID>)
    ensures
        r == id_of_tag(t),
{
    match t {
        0 => Some(ID::Open),
        1 => Some(ID::Close),
        2 => Some(ID::Ping),
        3 => Some(ID::Pong),
        4 => Some(ID::Message),
        5 => Some(ID::Upgrade),
        6 => Some(ID::Noop),
        _ => None,
    }
}

pub proof fn lemma_tag_roundtrip(id: ID)
    ensures
        id_of_tag(tag_of(id)) == Some(id),
{
}

/// The framed body of one packet: the tag byte, then the payload bytes.
pub open spec fn encode_packet_spec(p: PacketView) -> Seq<u8> {
    seq![tag_of(p.id)] + p.data
}

/// A payload counts as binary when some byte lies outside the printable
/// lowercase ASCII range `'a'..='z'` (97 through 122).
pub open spec fn is_binary_spec(data: Seq<u8>) -> bool {
    exists|i: int| 0 <= i < data.len() && !(97 <= #[trigger] data[i] <= 122)
}

/// What `Packet::from_bytes` returns on the stream `s` with declared payload
/// length `data_len`: the tag byte is read first and is not counted in
/// `data_len`.
pub open spec fn from_bytes_spec(s: Seq<u8>, data_len: nat) -> Result<PacketView, Error> {
    if s.len() == 0 {
        Err(Error::IncompletePacket)
    } else {
        match id_of_tag(s[0]) {
            None => Err(Error::InvalidPacketID(s[0])),
            Some(id) => {
                if s.len() < data_len + 1 {
                    Err(Error::IncompletePacket)
                } else {
                    Ok(PacketView { id, data: s.subrange(1, data_len as int + 1) })
                }
            },
        }
    }
}

fn push_hex_width(n: u64, width: u8, out: &mut Vec<u8>)
    ensures
        final(out)@ == old(out)@ + hex_digits_rec(n as nat, width as nat),
    decreases width,
{
    if width == 0 {
        proof {
            assert(out@ =~= old(out)@ + hex_digits_rec(n as nat, 0));
        }
    } else {
        push_hex_width(n / 16, width - 1, out);
        let d = (n % 16) as u8;
        let b: u8 = if d < 10 {
            48 + d
        } else {
            87 + d
        };
        out.push(b);
        proof {
            assert(out@ =~= old(out)@ + hex_digits_rec(n as nat, width as nat));
        }
    }
}

/// Appends exactly the 16 lowercase hex digits of `n`, most significant
/// nibble first.
fn push_hex(n: u64, out: &mut Vec<u8>)
    ensures
        final(out)@ == old(out)@ + hex_digits_spec(n),
{
    push_hex_width(n, 16, out);
}

/// The payload bytes of an Open handshake packet: a JSON object carrying
/// the session id, the available upgrade `"websocket"` (deliberately a
/// single string, not a list), and the ping timeout in milliseconds.
/// The session id is spliced in without escaping, so the object is
/// well-formed JSON exactly when the id contains no `"` or `\` — which
/// the ids from `Packet::generate_id`, being lowercase hex, always
/// satisfy.
pub open spec fn open_json_data(sid_bytes: Seq<u8>, ping_timeout_ms: nat) -> Seq<u8> {
    ("{\"sid\": \"").spec_bytes() + sid_bytes + ("\", \"upgrades\": \"websocket\", \"pingTimeout\": ").spec_bytes() + digits_spec(ping_timeout_ms) + seq![125u8]
}

impl Packet {
    /// The wire tag byte of this packet's kind.
    pub fn tag_byte(&self) -> (r: u8)
        ensures
            r == tag_of(self.id),
    {
        match self.id {
            ID::Open => 0,
            ID::Close => 1,
            ID::Ping => 2,
            ID::Pong => 3,
            ID::Message => 4,
            ID::Upgrade => 5,
            ID::Noop => 6,
        }
    }

    /// Reads one packet from the front of `bytes`: one tag byte, then exactly
    /// `data_len` payload bytes. Fails with `InvalidPacketID` on a tag byte
    /// outside the seven known values, and with `IncompletePacket` when the
    /// stream ends before the tag or before `data_len` payload bytes.
    pub fn from_bytes(bytes: &[u8], data_len: usize) -> (r: Result<Packet, Error>)
        ensures
            match from_bytes_spec(bytes@, data_len as nat) {
                Ok(pv) => r matches Ok(p) && p@ == pv,
                Err(e) => r matches Err(e2) && e2 == e,
            },
    {
        if bytes.len() == 0 {
            return Err(Error::IncompletePacket);
        }
        let tag = bytes[0];
        let id = match tag {
            0 => ID::Open,
            1 => ID::Close,
            2 => ID::Ping,
            3 => ID::Pong,
            4 => ID::Message,
            5 => ID::Upgrade,
            6 => ID::Noop,
            _ => {
                return Err(Error::InvalidPacketID(tag));
            },
        };
        if bytes.len() - 1 < data_len {
            return Err(Error::IncompletePacket);
        }
        let mut data: Vec<u8> = Vec::new();
        let mut i: usize = 0;
        while i < data_len
            invariant
                i <= data_len,
                data_len + 1 <= bytes@.len(),
                data@ == bytes@.subrange(1, i as int + 1),
            decreases data_len - i,
        {
            data.push(bytes[1 + i]);
            i = i + 1;
            proof {
                assert(data@ =~= bytes@.subrange(1, i as int + 1));
            }
        }
        Ok(Packet { id, data })
    }

    /// True exactly when some payload byte lies outside `'a'..='z'`.
    pub fn is_binary(&self) -> (r: bool)
        ensures
            r == is_binary_spec(self.data@),
    {
        let mut i: usize = 0;
        while i < self.data.len()
            invariant
                i <= self.data@.len(),
                forall|j: int| 0 <= j < i ==> 97 <= #[trigger] self.data@[j] <= 122,
            decreases self.data@.len() - i,
        {
            let c = self.data[i];
            if c < 97 || c > 122 {
                return true;
            }
            i = i + 1;
        }
        false
    }

    /// Builds the Open handshake packet for a session. No JSON escaping is
    /// applied to `sid` (see `open_json_data`); ids from `generate_id` need
    /// none.
    pub fn open_json(sid: &str, ping_timeout_ms: u64) -> (p: Packet)
        ensures
            p.id == ID::Open,
            p.data@ == open_json_data(sid.spec_bytes(), ping_timeout_ms as nat),
    {
        let mut data: Vec<u8> = Vec::new();
        data.extend_from_slice(("{\"sid\": \"").as_bytes());
        data.extend_from_slice(sid.as_bytes());
        data.extend_from_slice(("\", \"upgrades\": \"websocket\", \"pingTimeout\": ").as_bytes());
        push_digits(ping_timeout_ms, &mut data);
        data.push(125);
        proof {
            assert(data@ =~= open_json_data(sid.spec_bytes(), ping_timeout_ms as nat));
        }
        Packet { id: ID::Open, data }
    }

    /// A fresh session identifier: exactly the 32 lowercase hex characters
    /// of two 64-bit values drawn from the process's random source, so the
    /// token carries 128 bits of that output (`push_hex`'s contract pins
    /// each character to the drawn bits). Identifiers are never derived
    /// from client-controlled input.
    pub fn generate_id() -> (r: String)
        ensures
            r@.len() == 32,
            forall|i: int| 0 <= i < r@.len() ==> is_hex_char(#[trigger] r@[i]),
    {
        let hi: u64 = rand::random::<u64>();
        let lo: u64 = rand::random::<u64>();
        let mut v: Vec<u8> = Vec::new();
        push_hex(hi, &mut v);
        push_hex(lo, &mut v);
        proof {
            lemma_hex_digits_are_hex(hi as nat, 16);
            lemma_hex_digits_are_hex(lo as nat, 16);
            assert(v@ == hex_digits_spec(hi) + hex_digits_spec(lo));
            assert forall|i: int| 0 <= i < v@.len() implies is_hex_byte(#[trigger] v@[i]) by {
                if i < 16 {
                    assert(v@[i] == hex_digits_spec(hi)[i]);
                } else {
                    assert(v@[i] == hex_digits_spec(lo)[i - 16]);
                }
            }
            assert(forall|i: int| 0 <= i < v@.len() ==> #[trigger] v@[i] < 128);
        }
        let r = ascii_to_string(v);
        proof {
            assert forall|i: int| 0 <= i < r@.len() implies is_hex_char(#[trigger] r@[i]) by {
                assert(r@[i] as int == v@[i] as int);
                assert(is_hex_byte(v@[i]));
            }
        }
        r
    }

    /// The framed body of this packet: tag byte, then payload bytes.
    pub fn encode(&self) -> (r: Vec<u8>)
        ensures
            r@ == encode_packet_spec(self@),
    {
        let mut vec: Vec<u8> = Vec::new();
        self.encode_to(&mut vec);
        proof {
            assert(vec@ =~= encode_packet_spec(self@));
        }
        vec
    }

    /// Appends the framed body of this packet (tag byte, then payload) to
    /// `v`.
    pub fn encode_to(&self, v: &mut Vec<u8>)
        ensures
            final(v)@ == old(v)@ + encode_packet_spec(self@),
    {
        v.push(self.tag_byte());
        let mut i: usize = 0;
        while i < self.data.len()
            invariant
                i <= self.data@.len(),
                v@ == old(v)@ + seq![tag_of(self.id)] + self.data@.subrange(0, i as int),
            decreases self.data@.len() - i,
        {
            v.push(self.data[i]);
            i = i + 1;
            proof {
                assert(v@ =~= old(v)@ + seq![tag_of(self.id)] + self.data@.subrange(0, i as int));
            }
        }
        proof {
            assert(self.data@.subrange(0, self.data@.len() as int) =~= self.data@);
            assert(v@ =~= old(v)@ + encode_packet_spec(self@));
        }
    }
}

} // verus!
