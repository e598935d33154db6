//! Minimal STUN Binding probe support (RFC 5389): reading the host and
//! port out of a `turn:` / `turns:` / `stun:` URL, building the Binding
//! Request and recognising the matching Binding Success Response.
//!
//! A Binding answer shows that the TURN port is alive over UDP (coturn
//! serves STUN on the same port); it says nothing about Allocate or
//! credentials.

use vstd::prelude::*;
use crate::text::{
    all_digits, all_white_space, chars_of, decimal, has_prefix, is_ascii_digit, is_white_space, last_index_in,
    last_index_of, leading_ws, lemma_decimal_digits, lemma_last_index_of, lemma_parse_u16_decimal,
    lemma_trim_idempotent, lemma_trim_ignores_padding,
    parse_u16, parse_u16_in, starts_with_in, string_from_range, trailing_ws, trim, trim_bounds,
};

verus! {

broadcast use vstd::string::group_string_axioms;

// ---------------------------------------------------------------------
// URL parsing
// ---------------------------------------------------------------------

/// `s` without its `turns:`, `turn:` or `stun:` scheme (tried in that
/// order); unchanged when none of them starts it.
pub open spec fn strip_scheme(s: Seq<char>) -> Seq<char> {
    if has_prefix(s, "turns:"@) {
        s.skip("turns:"@.len() as int)
    } else if has_prefix(s, "turn:"@) {
        s.skip("turn:"@.len() as int)
    } else if has_prefix(s, "stun:"@) {
        s.skip("stun:"@.len() as int)
    } else {
        s
    }
}

/// Host and port of a TURN/STUN URL: trim, drop the scheme, split at the
/// last `:`; the port must read as a `u16` and the host must not be empty.
pub open spec fn turn_host_port(url: Seq<char>) -> Option<(Seq<char>, u16)> {
    let rest = strip_scheme(trim(url));
    let i = last_index_of(rest, ':');
    if i < 0 {
        None
    } else {
        match parse_u16(rest.skip(i + 1)) {
            Some(port) => if i > 0 {
                Some((rest.take(i), port))
            } else {
                None
            },
            None => None,
        }
    }
}

/// The view of a parsed host and port.
pub open spec fn host_port_view(r: Option<(String, u16)>) -> Option<(Seq<char>, u16)> {
    match r {
        Some((h, p)) => Some((h@, p)),
        None => None,
    }
}

/// Parses `turn:host:port`, `stun:host:port`, `turns:host:port` (or a
/// bare `host:port`) into `(host, port)`.
pub fn parse_turn_host_port(url: &str) -> (r: Option<(String, u16)>)
    ensures
        host_port_view(r) == turn_host_port(url@),
{
    let cs = chars_of(url);
    let (start, end) = trim_bounds(&cs);
    let ghost t = cs@.subrange(start as int, end as int);
    let turns = chars_of("turns:");
    let turn = chars_of("turn:");
    let stun = chars_of("stun:");
    let from = if starts_with_in(&cs, start, end, &turns) {
        start + turns.len()
    } else if starts_with_in(&cs, start, end, &turn) {
        start + turn.len()
    } else if starts_with_in(&cs, start, end, &stun) {
        start + stun.len()
    } else {
        start
    };
    let ghost rest = cs@.subrange(from as int, end as int);
    assert(rest =~= strip_scheme(t));
    match last_index_in(&cs, from, end, ':') {
        None => None,
        Some(i) => {
            let colon = from + i;
            assert(rest.skip(i + 1) =~= cs@.subrange(colon + 1, end as int));
            match parse_u16_in(&cs, colon + 1, end) {
                None => None,
                Some(port) => {
                    if i == 0 {
                        None
                    } else {
                        let host = string_from_range(&cs, from, colon);
                        assert(rest.take(i as int) =~= cs@.subrange(from as int, colon as int));
                        Some((host, port))
                    }
                },
            }
        },
    }
}

/// White space around a URL does not change what it parses to, and
/// neither does trimming it first.
pub proof fn lemma_turn_url_ignores_padding(a: Seq<char>, url: Seq<char>, b: Seq<char>)
    requires
        all_white_space(a),
        all_white_space(b),
    ensures
        turn_host_port(a + url + b) == turn_host_port(url),
        turn_host_port(trim(url)) == turn_host_port(url),
{
    lemma_trim_ignores_padding(a, url, b);
    lemma_trim_idempotent(url);
}

/// Reading back a URL made of a scheme, a non-empty host, `:` and the
/// decimal port gives that host and port.
pub proof fn lemma_turn_url_roundtrip(scheme: Seq<char>, host: Seq<char>, port: u16)
    requires
        scheme == "turn:"@ || scheme == "turns:"@ || scheme == "stun:"@,
        host.len() > 0,
    ensures
        turn_host_port(scheme + host + seq![':'] + decimal(port as nat)) == Some((host, port)),
{
    reveal_strlit("turn:");
    reveal_strlit("turns:");
    reveal_strlit("stun:");
    let digits = decimal(port as nat);
    lemma_decimal_digits(port as nat);
    lemma_parse_u16_decimal(port);
    let rest = host + seq![':'] + digits;
    let url = scheme + rest;
    // trimming leaves the URL alone: it starts with a letter and ends with a digit
    assert(!is_white_space(url[0]));
    assert(url.last() == digits.last());
    assert(is_ascii_digit(digits[digits.len() - 1]));
    assert(!is_white_space(url.last()));
    assert(leading_ws(url) == 0);
    assert(url.skip(0) =~= url);
    assert(trailing_ws(url) == 0);
    assert(url.take(url.len() as int) =~= url);
    assert(trim(url) == url);
    // the scheme is the one that is stripped
    if scheme == "turn:"@ {
        assert(url[4] == ':');
        assert(url.take(6)[4] == ':');
        assert(!has_prefix(url, "turns:"@));
        assert(url.take(5) =~= scheme);
    } else if scheme == "stun:"@ {
        assert(url.take(6)[1] == 't');
        assert(url.take(6)[0] == 's');
        assert(!has_prefix(url, "turns:"@));
        assert(url.take(5)[0] == 's');
        assert(!has_prefix(url, "turn:"@));
        assert(url.take(5) =~= scheme);
    } else {
        assert(url.take(6) =~= scheme);
    }
    assert(url.skip(scheme.len() as int) =~= rest);
    assert(strip_scheme(url) == rest);
    // the last ':' is the one before the port
    let i = host.len() as int;
    assert forall|j: int| i < j < rest.len() implies rest[j] != ':' by {
        assert(rest[j] == digits[j - i - 1]);
        assert(is_ascii_digit(digits[j - i - 1]));
    }
    lemma_last_index_of(rest, ':', i);
    assert(rest.skip(i + 1) =~= digits);
    assert(rest.take(i) =~= host);
    assert(scheme + host + seq![':'] + digits =~= url);
    assert(turn_host_port(url) == Some((host, port)));
}

// ---------------------------------------------------------------------
// Binding Request / Response
// ---------------------------------------------------------------------

/// The STUN magic cookie.
pub const MAGIC_COOKIE: u32 = 0x2112_A442;

/// Fixed last word of our transaction ids: `"HCU1"`.
pub const TXID_TAG: u32 = 0x4843_5531;

/// Length of a STUN header.
pub const STUN_HEADER_LEN: usize = 20;

/// Big-endian bytes of a 32-bit word.
pub open spec fn be_u32(x: u32) -> Seq<u8> {
    seq![
        (x / 0x100_0000) as u8,
        ((x / 0x1_0000) % 0x100) as u8,
        ((x / 0x100) % 0x100) as u8,
        (x % 0x100) as u8,
    ]
}

/// The 20-byte Binding Request: type 0x0001, length 0, the magic cookie,
/// and a 12-byte transaction id made of `nanos`, `pid` and the tag.
pub open spec fn binding_request_bytes(nanos: u32, pid: u32) -> Seq<u8> {
    seq![0x00u8, 0x01u8, 0x00u8, 0x00u8] + be_u32(MAGIC_COOKIE) + be_u32(nanos) + be_u32(pid)
        + be_u32(TXID_TAG)
}

fn push_be_u32(v: &mut Vec<u8>, x: u32)
    ensures
        final(v)@ == old(v)@ + be_u32(x),
{
    v.push((x / 0x100_0000) as u8);
    v.push(((x / 0x1_0000) % 0x100) as u8);
    v.push(((x / 0x100) % 0x100) as u8);
    v.push((x % 0x100) as u8);
    assert(v@ =~= old(v)@ + be_u32(x));
}

/// Builds the Binding Request whose transaction id carries `nanos` (the
/// sub-second part of the clock) and `pid` (the process id).
pub fn binding_request(nanos: u32, pid: u32) -> (pkt: Vec<u8>)
    ensures
        pkt@ == binding_request_bytes(nanos, pid),
        pkt@.len() == STUN_HEADER_LEN,
{
    let mut pkt: Vec<u8> = Vec::new();
    pkt.push(0x00);
    pkt.push(0x01);
    pkt.push(0x00);
    pkt.push(0x00);
    push_be_u32(&mut pkt, MAGIC_COOKIE);
    push_be_u32(&mut pkt, nanos);
    push_be_u32(&mut pkt, pid);
    push_be_u32(&mut pkt, TXID_TAG);
    assert(pkt@ =~= binding_request_bytes(nanos, pid));
    pkt
}

/// `response` is a Binding Success Response (type 0x0101) to `request`:
/// at least a header long, with the same transaction id.
pub open spec fn answers_binding(request: Seq<u8>, response: Seq<u8>) -> bool {
    &&& response.len() >= 20
    &&& response[0] == 0x01
    &&& response[1] == 0x01
    &&& response.subrange(8, 20) == request.subrange(8, 20)
}

/// Whether the datagram `response` answers the Binding Request `request`.
pub fn is_binding_success(request: &[u8], response: &[u8]) -> (b: bool)
    requires
        request@.len() >= STUN_HEADER_LEN,
    ensures
        b == answers_binding(request@, response@),
        b <==> (response@.len() >= 20 && response@[0] == 0x01 && response@[1] == 0x01 && forall|
            j: int,
        | 8 <= j < 20 ==> response@[j] == request@[j]),
{
    if response.len() < 20 || response[0] != 0x01 || response[1] != 0x01 {
        return false;
    }
    let mut i: usize = 8;
    while i < 20
        invariant
            8 <= i <= 20,
            request@.len() >= 20,
            response@.len() >= 20,
            forall|j: int| 8 <= j < i ==> request@[j] == response@[j],
        decreases 20 - i,
    {
        if response[i] != request[i] {
            assert(response@.subrange(8, 20)[i - 8] != request@.subrange(8, 20)[i - 8]);
            return false;
        }
        i = i + 1;
    }
    assert(response@.subrange(8, 20) =~= request@.subrange(8, 20));
    true
}

/// Only the message type (bytes 0 and 1) and the transaction id (bytes 8
/// to 20) decide: a response of at least 20 bytes typed 0x0101 that
/// carries the request's transaction id is accepted whatever its message
/// length, cookie and attributes, and two responses that agree on those
/// bytes are judged alike.
pub proof fn lemma_only_type_and_transaction_id_matter(
    request: Seq<u8>,
    response: Seq<u8>,
    other: Seq<u8>,
)
    requires
        request.len() >= 20,
    ensures
        response.len() >= 20 && response[0] == 0x01 && response[1] == 0x01 && (forall|j: int|
            8 <= j < 20 ==> response[j] == request[j]) ==> answers_binding(request, response),
        answers_binding(request, response) ==> response.len() >= 20 && response[0] == 0x01
            && response[1] == 0x01 && (forall|j: int| 8 <= j < 20 ==> response[j] == request[j]),
        response.len() >= 20 && other.len() >= 20 && response[0] == other[0] && response[1]
            == other[1] && (forall|j: int| 8 <= j < 20 ==> response[j] == other[j]) ==> (
        answers_binding(request, response) == answers_binding(request, other)),
{
    if response.len() >= 20 && (forall|j: int| 8 <= j < 20 ==> response[j] == request[j]) {
        assert(response.subrange(8, 20) =~= request.subrange(8, 20));
    }
    if answers_binding(request, response) {
        assert forall|j: int| 8 <= j < 20 implies response[j] == request[j] by {
            assert(response.subrange(8, 20)[j - 8] == request.subrange(8, 20)[j - 8]);
        }
    }
    if other.len() >= 20 && answers_binding(request, other) {
        assert forall|j: int| 8 <= j < 20 implies other[j] == request[j] by {
            assert(other.subrange(8, 20)[j - 8] == request.subrange(8, 20)[j - 8]);
        }
    }
    if response.len() >= 20 && other.len() >= 20 && (forall|j: int| 8 <= j < 20 ==> response[j] == other[j]) {
        assert(response.subrange(8, 20) =~= other.subrange(8, 20));
    }
}

/// A Binding Success Response as servers send it (type 0x0101, any
/// message length, the magic cookie, the request's transaction id, then
/// any attributes, such as XOR-MAPPED-ADDRESS) answers the request.
pub proof fn lemma_success_response_with_attributes(
    nanos: u32,
    pid: u32,
    length: Seq<u8>,
    attributes: Seq<u8>,
)
    requires
        length.len() == 2,
    ensures
        answers_binding(
            binding_request_bytes(nanos, pid),
            seq![0x01u8, 0x01u8] + length + be_u32(MAGIC_COOKIE)
                + binding_request_bytes(nanos, pid).subrange(8, 20) + attributes,
        ),
{
    let req = binding_request_bytes(nanos, pid);
    let resp = seq![0x01u8, 0x01u8] + length + be_u32(MAGIC_COOKIE) + req.subrange(8, 20)
        + attributes;
    assert(resp.subrange(8, 20) =~= req.subrange(8, 20));
}

/// A responder that echoes the request with the success type in its first
/// two bytes is recognised; one that changes any transaction-id byte is not.
pub proof fn lemma_echoed_response(nanos: u32, pid: u32, k: int, b: u8)
    requires
        8 <= k < 20,
    ensures
        answers_binding(
            binding_request_bytes(nanos, pid),
            binding_request_bytes(nanos, pid).update(0, 0x01).update(1, 0x01),
        ),
        b != binding_request_bytes(nanos, pid)[k] ==> !answers_binding(
            binding_request_bytes(nanos, pid),
            binding_request_bytes(nanos, pid).update(0, 0x01).update(1, 0x01).update(k, b),
        ),
        !answers_binding(binding_request_bytes(nanos, pid), binding_request_bytes(nanos, pid)),
{
    let req = binding_request_bytes(nanos, pid);
    let resp = req.update(0, 0x01).update(1, 0x01);
    assert(resp.subrange(8, 20) =~= req.subrange(8, 20));
    let bad = resp.update(k, b);
    if b != req[k] {
        assert(bad.subrange(8, 20)[k - 8] != req.subrange(8, 20)[k - 8]);
    }
}

} // verus!
