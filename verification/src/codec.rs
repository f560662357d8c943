//! Wire format for [`Packet`]: a byte encoding with a length-prefixed,
//! UTF-8 string representation, little-endian integers, and one tag byte
//! per tagged union. The encoded size of every outbound packet is held to
//! [`crate::UDP_MTU_SIZE`] by the transport layer.

use vstd::prelude::*;
use vstd::bytes::{
    lemma_auto_spec_u64_to_from_le_bytes, spec_u64_from_le_bytes, spec_u64_to_le_bytes,
    u64_from_le_bytes, u64_to_le_bytes,
};
use vstd::slice::{slice_index_get, slice_subrange};
use vstd::string::{StringExecFns, StringSliceAdditionalSpecFns};
use vstd::utf8::{encode_utf8, valid_utf8};

use crate::net::{GameSlotSummary, Packet, RequestAction, ResponseCode};

verus! {

/// Byte encoding of one string: an 8-byte little-endian byte count, then
/// the UTF-8 bytes.
pub open spec fn spec_encode_str(s: Seq<char>) -> Seq<u8> {
    spec_u64_to_le_bytes(encode_utf8(s).len() as u64) + encode_utf8(s)
}

/// Byte encoding of an optional sequence number: absent is a single zero
/// byte, present is a one byte followed by the value.
pub open spec fn spec_encode_opt_u64(x: Option<u64>) -> Seq<u8> {
    match x {
        Option::None => seq![0u8],
        Option::Some(v) => seq![1u8] + spec_u64_to_le_bytes(v),
    }
}

/// Byte encoding of an optional string, tagged like [`spec_encode_opt_u64`].
pub open spec fn spec_encode_opt_str(s: Option<String>) -> Seq<u8> {
    match s {
        Option::None => seq![0u8],
        Option::Some(v) => seq![1u8] + spec_encode_str(v@),
    }
}

/// Byte encoding of a request action: a tag byte, then the action's
/// string payloads in order.
pub open spec fn spec_encode_action(a: RequestAction) -> Seq<u8> {
    match a {
        RequestAction::NoAction => seq![0u8],
        RequestAction::Connect { name, client_version } => seq![1u8] + spec_encode_str(name@)
            + spec_encode_str(client_version@),
        RequestAction::Disconnect => seq![2u8],
        RequestAction::KeepAlive => seq![3u8],
        RequestAction::ListPlayers => seq![4u8],
        RequestAction::ChatMessage { message } => seq![5u8] + spec_encode_str(message@),
        RequestAction::ListGameSlots => seq![6u8],
        RequestAction::NewGameSlot { name } => seq![7u8] + spec_encode_str(name@),
        RequestAction::JoinGameSlot { name } => seq![8u8] + spec_encode_str(name@),
        RequestAction::LeaveGameSlot => seq![9u8],
    }
}

/// Byte encoding of one game-slot row of a `GameSlotList` response.
pub open spec fn spec_encode_summary(s: GameSlotSummary) -> Seq<u8> {
    spec_encode_str(s.name@) + spec_u64_to_le_bytes(s.player_count) + seq![
        if s.game_running {
            1u8
        } else {
            0u8
        },
    ]
}

/// Byte encoding of a list of strings, element by element. The element
/// count precedes this in [`spec_encode_code`].
pub open spec fn spec_encode_names(names: Seq<String>) -> Seq<u8>
    decreases names.len(),
{
    if names.len() == 0 {
        Seq::empty()
    } else {
        spec_encode_str(names[0]@) + spec_encode_names(names.drop_first())
    }
}

/// Byte encoding of a list of game-slot rows, element by element.
pub open spec fn spec_encode_summaries(slots: Seq<GameSlotSummary>) -> Seq<u8>
    decreases slots.len(),
{
    if slots.len() == 0 {
        Seq::empty()
    } else {
        spec_encode_summary(slots[0]) + spec_encode_summaries(slots.drop_first())
    }
}

/// Byte encoding of a response code: a tag byte, then the payload.
pub open spec fn spec_encode_code(c: ResponseCode) -> Seq<u8> {
    match c {
        ResponseCode::OK => seq![0u8],
        ResponseCode::LoggedIn { cookie } => seq![1u8] + spec_encode_str(cookie@),
        ResponseCode::Unauthorized => seq![2u8],
        ResponseCode::BadRequest => seq![3u8],
        ResponseCode::PlayerList { names } => seq![4u8] + spec_u64_to_le_bytes(
            names@.len() as u64,
        ) + spec_encode_names(names@),
        ResponseCode::GameSlotList { slots } => seq![5u8] + spec_u64_to_le_bytes(
            slots@.len() as u64,
        ) + spec_encode_summaries(slots@),
    }
}

/// Byte encoding of a whole packet.
pub open spec fn spec_encode_packet(p: Packet) -> Seq<u8> {
    match p {
        Packet::Request { sequence, response_ack, cookie, action } => seq![0u8]
            + spec_u64_to_le_bytes(sequence) + spec_encode_opt_u64(response_ack)
            + spec_encode_opt_str(cookie) + spec_encode_action(action),
        Packet::Response { sequence, request_ack, code } => seq![1u8] + spec_u64_to_le_bytes(
            sequence,
        ) + spec_encode_opt_u64(request_ack) + spec_encode_code(code),
        Packet::Update { sequence } => seq![2u8] + spec_u64_to_le_bytes(sequence),
        Packet::UpdateReply { sequence } => seq![3u8] + spec_u64_to_le_bytes(sequence),
    }
}

fn put_u64(out: &mut Vec<u8>, x: u64)
    ensures
        final(out)@ == old(out)@ + spec_u64_to_le_bytes(x),
{
    let mut bytes = u64_to_le_bytes(x);
    out.append(&mut bytes);
}

fn put_str(out: &mut Vec<u8>, s: &str)
    ensures
        final(out)@ == old(out)@ + spec_encode_str(s@),
{
    let bytes = s.as_bytes();
    put_u64(out, bytes.len() as u64);
    out.extend_from_slice(bytes);
    assert(out@ =~= old(out)@ + spec_encode_str(s@));
}

fn put_opt_u64(out: &mut Vec<u8>, x: &Option<u64>)
    ensures
        final(out)@ == old(out)@ + spec_encode_opt_u64(*x),
{
    match x {
        Option::None => {
            out.push(0u8);
            assert(out@ =~= old(out)@ + spec_encode_opt_u64(*x));
        },
        Option::Some(v) => {
            out.push(1u8);
            put_u64(out, *v);
            assert(out@ =~= old(out)@ + spec_encode_opt_u64(*x));
        },
    }
}

fn put_opt_str(out: &mut Vec<u8>, s: &Option<String>)
    ensures
        final(out)@ == old(out)@ + spec_encode_opt_str(*s),
{
    match s {
        Option::None => {
            out.push(0u8);
            assert(out@ =~= old(out)@ + spec_encode_opt_str(*s));
        },
        Option::Some(v) => {
            out.push(1u8);
            put_str(out, v.as_str());
            assert(out@ =~= old(out)@ + spec_encode_opt_str(*s));
        },
    }
}

fn put_action(out: &mut Vec<u8>, a: &RequestAction)
    ensures
        final(out)@ == old(out)@ + spec_encode_action(*a),
{
    match a {
        RequestAction::NoAction => {
            out.push(0u8);
        },
        RequestAction::Connect { name, client_version } => {
            out.push(1u8);
            put_str(out, name.as_str());
            put_str(out, client_version.as_str());
        },
        RequestAction::Disconnect => {
            out.push(2u8);
        },
        RequestAction::KeepAlive => {
            out.push(3u8);
        },
        RequestAction::ListPlayers => {
            out.push(4u8);
        },
        RequestAction::ChatMessage { message } => {
            out.push(5u8);
            put_str(out, message.as_str());
        },
        RequestAction::ListGameSlots => {
            out.push(6u8);
        },
        RequestAction::NewGameSlot { name } => {
            out.push(7u8);
            put_str(out, name.as_str());
        },
        RequestAction::JoinGameSlot { name } => {
            out.push(8u8);
            put_str(out, name.as_str());
        },
        RequestAction::LeaveGameSlot => {
            out.push(9u8);
        },
    }
    assert(out@ =~= old(out)@ + spec_encode_action(*a));
}

proof fn lemma_encode_names_push(names: Seq<String>, x: String)
    ensures
        spec_encode_names(names.push(x)) == spec_encode_names(names) + spec_encode_str(x@),
    decreases names.len(),
{
    if names.len() == 0 {
        assert(names.push(x).drop_first() =~= Seq::<String>::empty());
        assert(spec_encode_names(names.push(x).drop_first()) == Seq::<u8>::empty());
        assert(names.push(x)[0] == x);
        assert(spec_encode_names(names.push(x)) =~= spec_encode_names(names) + spec_encode_str(
            x@,
        ));
    } else {
        assert(names.push(x).drop_first() =~= names.drop_first().push(x));
        lemma_encode_names_push(names.drop_first(), x);
        assert(spec_encode_names(names.push(x)) =~= spec_encode_names(names) + spec_encode_str(
            x@,
        ));
    }
}

proof fn lemma_encode_summaries_push(slots: Seq<GameSlotSummary>, x: GameSlotSummary)
    ensures
        spec_encode_summaries(slots.push(x)) == spec_encode_summaries(slots) + spec_encode_summary(
            x,
        ),
    decreases slots.len(),
{
    if slots.len() == 0 {
        assert(slots.push(x).drop_first() =~= Seq::<GameSlotSummary>::empty());
        assert(spec_encode_summaries(slots.push(x).drop_first()) == Seq::<u8>::empty());
        assert(slots.push(x)[0] == x);
        assert(spec_encode_summaries(slots.push(x)) =~= spec_encode_summaries(slots)
            + spec_encode_summary(x));
    } else {
        assert(slots.push(x).drop_first() =~= slots.drop_first().push(x));
        lemma_encode_summaries_push(slots.drop_first(), x);
        assert(spec_encode_summaries(slots.push(x)) =~= spec_encode_summaries(slots)
            + spec_encode_summary(x));
    }
}

fn put_code(out: &mut Vec<u8>, c: &ResponseCode)
    ensures
        final(out)@ == old(out)@ + spec_encode_code(*c),
{
    match c {
        ResponseCode::OK => {
            out.push(0u8);
            assert(out@ =~= old(out)@ + spec_encode_code(*c));
        },
        ResponseCode::LoggedIn { cookie } => {
            out.push(1u8);
            put_str(out, cookie.as_str());
            assert(out@ =~= old(out)@ + spec_encode_code(*c));
        },
        ResponseCode::Unauthorized => {
            out.push(2u8);
            assert(out@ =~= old(out)@ + spec_encode_code(*c));
        },
        ResponseCode::BadRequest => {
            out.push(3u8);
            assert(out@ =~= old(out)@ + spec_encode_code(*c));
        },
        ResponseCode::PlayerList { names } => {
            out.push(4u8);
            put_u64(out, names.len() as u64);
            let ghost base = out@;
            let mut i: usize = 0;
            while i < names.len()
                invariant
                    i <= names@.len(),
                    out@ == base + spec_encode_names(names@.take(i as int)),
                decreases names@.len() - i,
            {
                proof {
                    lemma_encode_names_push(names@.take(i as int), names@[i as int]);
                    assert(names@.take(i as int).push(names@[i as int]) =~= names@.take(
                        i as int + 1,
                    ));
                }
                put_str(out, names[i].as_str());
                i = i + 1;
            }
            proof {
                assert(names@.take(names@.len() as int) =~= names@);
            }
            assert(out@ =~= old(out)@ + spec_encode_code(*c));
        },
        ResponseCode::GameSlotList { slots } => {
            out.push(5u8);
            put_u64(out, slots.len() as u64);
            let ghost base = out@;
            let mut i: usize = 0;
            while i < slots.len()
                invariant
                    i <= slots@.len(),
                    out@ == base + spec_encode_summaries(slots@.take(i as int)),
                decreases slots@.len() - i,
            {
                proof {
                    lemma_encode_summaries_push(slots@.take(i as int), slots@[i as int]);
                    assert(slots@.take(i as int).push(slots@[i as int]) =~= slots@.take(
                        i as int + 1,
                    ));
                }
                let row = &slots[i];
                put_str(out, row.name.as_str());
                put_u64(out, row.player_count);
                if row.game_running {
                    out.push(1u8);
                } else {
                    out.push(0u8);
                }
                assert(out@ =~= base + spec_encode_summaries(slots@.take(i as int))
                    + spec_encode_summary(slots@[i as int]));
                i = i + 1;
            }
            proof {
                assert(slots@.take(slots@.len() as int) =~= slots@);
            }
            assert(out@ =~= old(out)@ + spec_encode_code(*c));
        },
    }
}

/// Encodes a packet into its wire bytes.
pub fn encode_packet(p: &Packet) -> (r: Vec<u8>)
    ensures
        r@ == spec_encode_packet(*p),
{
    let mut out: Vec<u8> = Vec::new();
    match p {
        Packet::Request { sequence, response_ack, cookie, action } => {
            out.push(0u8);
            put_u64(&mut out, *sequence);
            put_opt_u64(&mut out, response_ack);
            put_opt_str(&mut out, cookie);
            put_action(&mut out, action);
        },
        Packet::Response { sequence, request_ack, code } => {
            out.push(1u8);
            put_u64(&mut out, *sequence);
            put_opt_u64(&mut out, request_ack);
            put_code(&mut out, code);
        },
        Packet::Update { sequence } => {
            out.push(2u8);
            put_u64(&mut out, *sequence);
        },
        Packet::UpdateReply { sequence } => {
            out.push(3u8);
            put_u64(&mut out, *sequence);
        },
    }
    assert(out@ =~= spec_encode_packet(*p));
    out
}

/// Where a sequence number field ends, when the input reaches that far.
pub open spec fn spec_u64_end(bytes: Seq<u8>, pos: int) -> Option<int> {
    if pos + 8 <= bytes.len() {
        Option::Some(pos + 8)
    } else {
        Option::None
    }
}

/// Where a string field ends: its byte count must fit the input and the
/// counted bytes must be valid UTF-8.
pub open spec fn spec_str_end(bytes: Seq<u8>, pos: int) -> Option<int> {
    if pos + 8 <= bytes.len() {
        let n = spec_u64_from_le_bytes(bytes.subrange(pos, pos + 8)) as int;
        if pos + 8 + n <= bytes.len() && valid_utf8(bytes.subrange(pos + 8, pos + 8 + n)) {
            Option::Some(pos + 8 + n)
        } else {
            Option::None
        }
    } else {
        Option::None
    }
}

/// Where an optional sequence number ends; the presence byte must be 0
/// or 1.
pub open spec fn spec_opt_u64_end(bytes: Seq<u8>, pos: int) -> Option<int> {
    if pos < bytes.len() {
        if bytes[pos] == 0 {
            Option::Some(pos + 1)
        } else if bytes[pos] == 1 {
            spec_u64_end(bytes, pos + 1)
        } else {
            Option::None
        }
    } else {
        Option::None
    }
}

/// Where an optional string ends; the presence byte must be 0 or 1.
pub open spec fn spec_opt_str_end(bytes: Seq<u8>, pos: int) -> Option<int> {
    if pos < bytes.len() {
        if bytes[pos] == 0 {
            Option::Some(pos + 1)
        } else if bytes[pos] == 1 {
            spec_str_end(bytes, pos + 1)
        } else {
            Option::None
        }
    } else {
        Option::None
    }
}

/// Where a request action ends, by its tag byte.
pub open spec fn spec_action_end(bytes: Seq<u8>, pos: int) -> Option<int> {
    if pos < bytes.len() {
        let tag = bytes[pos];
        if tag == 0 || tag == 2 || tag == 3 || tag == 4 || tag == 6 || tag == 9 {
            Option::Some(pos + 1)
        } else if tag == 1 {
            match spec_str_end(bytes, pos + 1) {
                Option::Some(p) => spec_str_end(bytes, p),
                Option::None => Option::None,
            }
        } else if tag == 5 || tag == 7 || tag == 8 {
            spec_str_end(bytes, pos + 1)
        } else {
            Option::None
        }
    } else {
        Option::None
    }
}

/// Where one game-slot row ends: a string, a count, and a boolean byte
/// that must be 0 or 1.
pub open spec fn spec_summary_end(bytes: Seq<u8>, pos: int) -> Option<int> {
    match spec_str_end(bytes, pos) {
        Option::Some(p) => if p + 9 <= bytes.len() && (bytes[p + 8] == 0 || bytes[p + 8] == 1) {
            Option::Some(p + 9)
        } else {
            Option::None
        },
        Option::None => Option::None,
    }
}

/// Where `count` consecutive string fields end.
pub open spec fn spec_names_end(bytes: Seq<u8>, pos: int, count: int) -> Option<int>
    decreases count,
{
    if count <= 0 {
        Option::Some(pos)
    } else {
        match spec_str_end(bytes, pos) {
            Option::Some(p) => spec_names_end(bytes, p, count - 1),
            Option::None => Option::None,
        }
    }
}

/// Where `count` consecutive game-slot rows end.
pub open spec fn spec_summaries_end(bytes: Seq<u8>, pos: int, count: int) -> Option<int>
    decreases count,
{
    if count <= 0 {
        Option::Some(pos)
    } else {
        match spec_summary_end(bytes, pos) {
            Option::Some(p) => spec_summaries_end(bytes, p, count - 1),
            Option::None => Option::None,
        }
    }
}

/// Where a response code ends, by its tag byte.
pub open spec fn spec_code_end(bytes: Seq<u8>, pos: int) -> Option<int> {
    if pos < bytes.len() {
        let tag = bytes[pos];
        if tag == 0 || tag == 2 || tag == 3 {
            Option::Some(pos + 1)
        } else if tag == 1 {
            spec_str_end(bytes, pos + 1)
        } else if tag == 4 || tag == 5 {
            match spec_u64_end(bytes, pos + 1) {
                Option::Some(p) => {
                    let count = spec_u64_from_le_bytes(bytes.subrange(pos + 1, pos + 9)) as int;
                    if tag == 4 {
                        spec_names_end(bytes, p, count)
                    } else {
                        spec_summaries_end(bytes, p, count)
                    }
                },
                Option::None => Option::None,
            }
        } else {
            Option::None
        }
    } else {
        Option::None
    }
}

/// Where a whole packet ends, by its tag byte.
pub open spec fn spec_packet_end(bytes: Seq<u8>, pos: int) -> Option<int> {
    if pos < bytes.len() {
        let tag = bytes[pos];
        if tag == 0 {
            match spec_u64_end(bytes, pos + 1) {
                Option::Some(p1) => match spec_opt_u64_end(bytes, p1) {
                    Option::Some(p2) => match spec_opt_str_end(bytes, p2) {
                        Option::Some(p3) => spec_action_end(bytes, p3),
                        Option::None => Option::None,
                    },
                    Option::None => Option::None,
                },
                Option::None => Option::None,
            }
        } else if tag == 1 {
            match spec_u64_end(bytes, pos + 1) {
                Option::Some(p1) => match spec_opt_u64_end(bytes, p1) {
                    Option::Some(p2) => spec_code_end(bytes, p2),
                    Option::None => Option::None,
                },
                Option::None => Option::None,
            }
        } else if tag == 2 || tag == 3 {
            spec_u64_end(bytes, pos + 1)
        } else {
            Option::None
        }
    } else {
        Option::None
    }
}

/// The bytes decode as exactly one whole packet: the structure parses
/// and nothing trails it.
pub open spec fn packet_parseable(bytes: Seq<u8>) -> bool {
    spec_packet_end(bytes, 0) == Option::Some(bytes.len() as int)
}

/// The string's UTF-8 form fits the 8-byte length prefix.
pub open spec fn str_bounded(s: Seq<char>) -> bool {
    encode_utf8(s).len() <= u64::MAX
}

/// Every string carried by the action fits its length prefix.
pub open spec fn action_bounded(a: RequestAction) -> bool {
    match a {
        RequestAction::Connect { name, client_version } => str_bounded(name@) && str_bounded(
            client_version@,
        ),
        RequestAction::ChatMessage { message } => str_bounded(message@),
        RequestAction::NewGameSlot { name } => str_bounded(name@),
        RequestAction::JoinGameSlot { name } => str_bounded(name@),
        _ => true,
    }
}

/// Every string and list carried by the code fits its length prefix.
pub open spec fn code_bounded(c: ResponseCode) -> bool {
    match c {
        ResponseCode::LoggedIn { cookie } => str_bounded(cookie@),
        ResponseCode::PlayerList { names } => names@.len() <= u64::MAX && (forall|i: int|
            0 <= i < names@.len() ==> str_bounded((#[trigger] names@[i])@)),
        ResponseCode::GameSlotList { slots } => slots@.len() <= u64::MAX && (forall|i: int|
            0 <= i < slots@.len() ==> str_bounded((#[trigger] slots@[i]).name@)),
        _ => true,
    }
}

/// Every string and list carried by the packet fits its length prefix.
/// Any packet a program can hold satisfies this; it only excludes ghost
/// values too large to exist.
pub open spec fn packet_bounded(p: Packet) -> bool {
    match p {
        Packet::Request { cookie, action, .. } => action_bounded(action) && match cookie {
            Option::Some(c) => str_bounded(c@),
            Option::None => true,
        },
        Packet::Response { code, .. } => code_bounded(code),
        _ => true,
    }
}

/// A slice of a known part of `bytes` equals the same slice of the part.
proof fn lemma_subrange_within(bytes: Seq<u8>, pos: int, part: Seq<u8>, off: int, len: int)
    requires
        0 <= pos,
        0 <= off,
        0 <= len,
        off + len <= part.len(),
        pos + part.len() <= bytes.len(),
        bytes.subrange(pos, pos + part.len() as int) == part,
    ensures
        bytes.subrange(pos + off, pos + off + len) == part.subrange(off, off + len),
{
    assert forall|i: int|
        #![trigger bytes.subrange(pos + off, pos + off + len)[i]]
        0 <= i < len implies bytes.subrange(pos + off, pos + off + len)[i] == part.subrange(
        off,
        off + len,
    )[i] by {
        assert(bytes.subrange(pos, pos + part.len() as int)[off + i] == part[off + i]);
    }
    assert(bytes.subrange(pos + off, pos + off + len) =~= part.subrange(off, off + len));
}

/// A byte of a known part of `bytes` equals the part's byte.
proof fn lemma_byte_within(bytes: Seq<u8>, pos: int, part: Seq<u8>, off: int)
    requires
        0 <= pos,
        0 <= off < part.len(),
        pos + part.len() <= bytes.len(),
        bytes.subrange(pos, pos + part.len() as int) == part,
    ensures
        bytes[pos + off] == part[off],
{
    assert(bytes.subrange(pos, pos + part.len() as int)[off] == part[off]);
}

proof fn lemma_str_end(bytes: Seq<u8>, pos: int, s: Seq<char>)
    requires
        0 <= pos,
        pos + spec_encode_str(s).len() <= bytes.len(),
        bytes.subrange(pos, pos + spec_encode_str(s).len()) == spec_encode_str(s),
        str_bounded(s),
    ensures
        spec_str_end(bytes, pos) == Option::Some(pos + spec_encode_str(s).len()),
{
    broadcast use vstd::utf8::encode_utf8_valid_utf8;

    lemma_auto_spec_u64_to_from_le_bytes();
    let e = spec_encode_str(s);
    let n = encode_utf8(s).len() as int;
    assert(e.len() == 8 + n);
    lemma_subrange_within(bytes, pos, e, 0, 8);
    assert(e.subrange(0, 8) =~= spec_u64_to_le_bytes(encode_utf8(s).len() as u64));
    assert(spec_u64_from_le_bytes(bytes.subrange(pos, pos + 8)) == encode_utf8(s).len() as u64);
    lemma_subrange_within(bytes, pos, e, 8, n);
    assert(e.subrange(8, 8 + n) =~= encode_utf8(s));
    assert(bytes.subrange(pos + 8, pos + 8 + n) == encode_utf8(s));
}

proof fn lemma_opt_u64_end(bytes: Seq<u8>, pos: int, x: Option<u64>)
    requires
        0 <= pos,
        pos + spec_encode_opt_u64(x).len() <= bytes.len(),
        bytes.subrange(pos, pos + spec_encode_opt_u64(x).len()) == spec_encode_opt_u64(x),
    ensures
        spec_opt_u64_end(bytes, pos) == Option::Some(pos + spec_encode_opt_u64(x).len()),
{
    let e = spec_encode_opt_u64(x);
    lemma_byte_within(bytes, pos, e, 0);
    match x {
        Option::None => {},
        Option::Some(v) => {
            lemma_auto_spec_u64_to_from_le_bytes();
            assert(e.len() == 9);
        },
    }
}

proof fn lemma_opt_str_end(bytes: Seq<u8>, pos: int, s: Option<String>)
    requires
        0 <= pos,
        pos + spec_encode_opt_str(s).len() <= bytes.len(),
        bytes.subrange(pos, pos + spec_encode_opt_str(s).len()) == spec_encode_opt_str(s),
        s matches Option::Some(c) ==> str_bounded(c@),
    ensures
        spec_opt_str_end(bytes, pos) == Option::Some(pos + spec_encode_opt_str(s).len()),
{
    let e = spec_encode_opt_str(s);
    lemma_byte_within(bytes, pos, e, 0);
    match s {
        Option::None => {},
        Option::Some(c) => {
            let es = spec_encode_str(c@);
            lemma_subrange_within(bytes, pos, e, 1, es.len() as int);
            assert(e.subrange(1, 1 + es.len() as int) =~= es);
            lemma_str_end(bytes, pos + 1, c@);
        },
    }
}

proof fn lemma_action_end(bytes: Seq<u8>, pos: int, a: RequestAction)
    requires
        0 <= pos,
        pos + spec_encode_action(a).len() <= bytes.len(),
        bytes.subrange(pos, pos + spec_encode_action(a).len()) == spec_encode_action(a),
        action_bounded(a),
    ensures
        spec_action_end(bytes, pos) == Option::Some(pos + spec_encode_action(a).len()),
{
    let e = spec_encode_action(a);
    lemma_byte_within(bytes, pos, e, 0);
    match a {
        RequestAction::Connect { name, client_version } => {
            let e1 = spec_encode_str(name@);
            let e2 = spec_encode_str(client_version@);
            lemma_subrange_within(bytes, pos, e, 1, e1.len() as int);
            assert(e.subrange(1, 1 + e1.len() as int) =~= e1);
            lemma_str_end(bytes, pos + 1, name@);
            lemma_subrange_within(bytes, pos, e, 1 + e1.len() as int, e2.len() as int);
            assert(e.subrange(1 + e1.len() as int, 1 + e1.len() as int + e2.len() as int)
                =~= e2);
            lemma_str_end(bytes, pos + 1 + e1.len() as int, client_version@);
        },
        RequestAction::ChatMessage { message } => {
            let e1 = spec_encode_str(message@);
            lemma_subrange_within(bytes, pos, e, 1, e1.len() as int);
            assert(e.subrange(1, 1 + e1.len() as int) =~= e1);
            lemma_str_end(bytes, pos + 1, message@);
        },
        RequestAction::NewGameSlot { name } => {
            let e1 = spec_encode_str(name@);
            lemma_subrange_within(bytes, pos, e, 1, e1.len() as int);
            assert(e.subrange(1, 1 + e1.len() as int) =~= e1);
            lemma_str_end(bytes, pos + 1, name@);
        },
        RequestAction::JoinGameSlot { name } => {
            let e1 = spec_encode_str(name@);
            lemma_subrange_within(bytes, pos, e, 1, e1.len() as int);
            assert(e.subrange(1, 1 + e1.len() as int) =~= e1);
            lemma_str_end(bytes, pos + 1, name@);
        },
        _ => {},
    }
}

proof fn lemma_names_end(bytes: Seq<u8>, pos: int, names: Seq<String>)
    requires
        0 <= pos,
        pos + spec_encode_names(names).len() <= bytes.len(),
        bytes.subrange(pos, pos + spec_encode_names(names).len()) == spec_encode_names(names),
        forall|i: int| 0 <= i < names.len() ==> str_bounded((#[trigger] names[i])@),
    ensures
        spec_names_end(bytes, pos, names.len() as int) == Option::Some(
            pos + spec_encode_names(names).len(),
        ),
    decreases names.len(),
{
    if names.len() == 0 {
    } else {
        let e = spec_encode_names(names);
        let e1 = spec_encode_str(names[0]@);
        let rest = spec_encode_names(names.drop_first());
        assert(e == e1 + rest);
        lemma_subrange_within(bytes, pos, e, 0, e1.len() as int);
        assert(e.subrange(0, e1.len() as int) =~= e1);
        lemma_str_end(bytes, pos, names[0]@);
        lemma_subrange_within(bytes, pos, e, e1.len() as int, rest.len() as int);
        assert(e.subrange(e1.len() as int, e1.len() as int + rest.len() as int) =~= rest);
        assert(forall|i: int|
            0 <= i < names.drop_first().len() ==> names.drop_first()[i] == names[i + 1]);
        lemma_names_end(bytes, pos + e1.len() as int, names.drop_first());
    }
}

proof fn lemma_summaries_end(bytes: Seq<u8>, pos: int, slots: Seq<GameSlotSummary>)
    requires
        0 <= pos,
        pos + spec_encode_summaries(slots).len() <= bytes.len(),
        bytes.subrange(pos, pos + spec_encode_summaries(slots).len()) == spec_encode_summaries(
            slots,
        ),
        forall|i: int| 0 <= i < slots.len() ==> str_bounded((#[trigger] slots[i]).name@),
    ensures
        spec_summaries_end(bytes, pos, slots.len() as int) == Option::Some(
            pos + spec_encode_summaries(slots).len(),
        ),
    decreases slots.len(),
{
    if slots.len() == 0 {
    } else {
        lemma_auto_spec_u64_to_from_le_bytes();
        let e = spec_encode_summaries(slots);
        let e1 = spec_encode_summary(slots[0]);
        let rest = spec_encode_summaries(slots.drop_first());
        assert(e == e1 + rest);
        let es = spec_encode_str(slots[0].name@);
        assert(e1.len() == es.len() + 9);
        lemma_subrange_within(bytes, pos, e, 0, es.len() as int);
        assert(e.subrange(0, es.len() as int) =~= es);
        lemma_str_end(bytes, pos, slots[0].name@);
        lemma_auto_spec_u64_to_from_le_bytes();
        lemma_byte_within(bytes, pos, e, es.len() as int + 8);
        assert(e[es.len() as int + 8] == 0 || e[es.len() as int + 8] == 1);
        assert(spec_summary_end(bytes, pos) == Option::Some(pos + e1.len() as int));
        lemma_subrange_within(bytes, pos, e, e1.len() as int, rest.len() as int);
        assert(e.subrange(e1.len() as int, e1.len() as int + rest.len() as int) =~= rest);
        assert(forall|i: int|
            0 <= i < slots.drop_first().len() ==> slots.drop_first()[i] == slots[i + 1]);
        lemma_summaries_end(bytes, pos + e1.len() as int, slots.drop_first());
    }
}

proof fn lemma_code_end(bytes: Seq<u8>, pos: int, c: ResponseCode)
    requires
        0 <= pos,
        pos + spec_encode_code(c).len() <= bytes.len(),
        bytes.subrange(pos, pos + spec_encode_code(c).len()) == spec_encode_code(c),
        code_bounded(c),
    ensures
        spec_code_end(bytes, pos) == Option::Some(pos + spec_encode_code(c).len()),
{
    let e = spec_encode_code(c);
    lemma_byte_within(bytes, pos, e, 0);
    match c {
        ResponseCode::LoggedIn { cookie } => {
            let e1 = spec_encode_str(cookie@);
            lemma_subrange_within(bytes, pos, e, 1, e1.len() as int);
            assert(e.subrange(1, 1 + e1.len() as int) =~= e1);
            lemma_str_end(bytes, pos + 1, cookie@);
        },
        ResponseCode::PlayerList { names } => {
            lemma_auto_spec_u64_to_from_le_bytes();
            let le = spec_u64_to_le_bytes(names@.len() as u64);
            let rest = spec_encode_names(names@);
            lemma_subrange_within(bytes, pos, e, 1, 8);
            assert(e.subrange(1, 9) =~= le);
            assert(spec_u64_from_le_bytes(bytes.subrange(pos + 1, pos + 9))
                == names@.len() as u64);
            lemma_subrange_within(bytes, pos, e, 9, rest.len() as int);
            assert(e.subrange(9, 9 + rest.len() as int) =~= rest);
            lemma_names_end(bytes, pos + 9, names@);
        },
        ResponseCode::GameSlotList { slots } => {
            lemma_auto_spec_u64_to_from_le_bytes();
            let le = spec_u64_to_le_bytes(slots@.len() as u64);
            let rest = spec_encode_summaries(slots@);
            lemma_subrange_within(bytes, pos, e, 1, 8);
            assert(e.subrange(1, 9) =~= le);
            assert(spec_u64_from_le_bytes(bytes.subrange(pos + 1, pos + 9))
                == slots@.len() as u64);
            lemma_subrange_within(bytes, pos, e, 9, rest.len() as int);
            assert(e.subrange(9, 9 + rest.len() as int) =~= rest);
            lemma_summaries_end(bytes, pos + 9, slots@);
        },
        _ => {},
    }
}

/// The codec round trip, stated at the specification level: every
/// bounded packet's wire encoding parses back as exactly one whole
/// packet, so decoding owes success on everything this library encodes.
pub proof fn lemma_encoded_packet_parseable(p: Packet)
    requires
        packet_bounded(p),
    ensures
        packet_parseable(spec_encode_packet(p)),
{
    lemma_auto_spec_u64_to_from_le_bytes();
    let bytes = spec_encode_packet(p);
    assert(bytes.subrange(0, bytes.len() as int) =~= bytes);
    match p {
        Packet::Request { sequence, response_ack, cookie, action } => {
            let e1 = spec_u64_to_le_bytes(sequence);
            let e2 = spec_encode_opt_u64(response_ack);
            let e3 = spec_encode_opt_str(cookie);
            let e4 = spec_encode_action(action);
            assert(bytes == seq![0u8] + e1 + e2 + e3 + e4);
            lemma_byte_within(bytes, 0, bytes, 0);
            assert(bytes[0] == 0u8);
            let p1 = 1 + e1.len() as int;
            let p2 = p1 + e2.len() as int;
            let p3 = p2 + e3.len() as int;
            assert(spec_u64_end(bytes, 1) == Option::Some(p1));
            lemma_subrange_within(bytes, 0, bytes, p1, e2.len() as int);
            assert(bytes.subrange(p1, p1 + e2.len() as int) =~= e2);
            lemma_opt_u64_end(bytes, p1, response_ack);
            lemma_subrange_within(bytes, 0, bytes, p2, e3.len() as int);
            assert(bytes.subrange(p2, p2 + e3.len() as int) =~= e3);
            lemma_opt_str_end(bytes, p2, cookie);
            lemma_subrange_within(bytes, 0, bytes, p3, e4.len() as int);
            assert(bytes.subrange(p3, p3 + e4.len() as int) =~= e4);
            lemma_action_end(bytes, p3, action);
        },
        Packet::Response { sequence, request_ack, code } => {
            let e1 = spec_u64_to_le_bytes(sequence);
            let e2 = spec_encode_opt_u64(request_ack);
            let e3 = spec_encode_code(code);
            assert(bytes == seq![1u8] + e1 + e2 + e3);
            assert(bytes[0] == 1u8);
            let p1 = 1 + e1.len() as int;
            let p2 = p1 + e2.len() as int;
            assert(spec_u64_end(bytes, 1) == Option::Some(p1));
            lemma_subrange_within(bytes, 0, bytes, p1, e2.len() as int);
            assert(bytes.subrange(p1, p1 + e2.len() as int) =~= e2);
            lemma_opt_u64_end(bytes, p1, request_ack);
            lemma_subrange_within(bytes, 0, bytes, p2, e3.len() as int);
            assert(bytes.subrange(p2, p2 + e3.len() as int) =~= e3);
            lemma_code_end(bytes, p2, code);
        },
        Packet::Update { sequence } => {
            assert(bytes == seq![2u8] + spec_u64_to_le_bytes(sequence));
            assert(bytes[0] == 2u8);
        },
        Packet::UpdateReply { sequence } => {
            assert(bytes == seq![3u8] + spec_u64_to_le_bytes(sequence));
            assert(bytes[0] == 3u8);
        },
    }
}

/// Relies on core::str::from_utf8: succeeds exactly on valid UTF-8, and
/// the resulting string views the very same bytes.
#[verifier::external_body]
fn bytes_as_str(bytes: &[u8]) -> (r: Option<&str>)
    ensures
        r matches Option::Some(s) ==> s.spec_bytes() == bytes@,
        r is Some <==> valid_utf8(bytes@),
{
    core::str::from_utf8(bytes).ok()
}

fn parse_u64(bytes: &[u8], pos: usize) -> (r: Option<(u64, usize)>)
    requires
        pos <= bytes@.len(),
    ensures
        match r {
            Option::Some(v) => spec_u64_end(bytes@, pos as int) == Option::Some(v.1 as int)
                && v.1 == pos + 8 && spec_u64_to_le_bytes(v.0) == bytes@.subrange(
                pos as int,
                v.1 as int,
            ),
            Option::None => spec_u64_end(bytes@, pos as int) is None,
        },
{
    if bytes.len() - pos >= 8 {
        let x = u64_from_le_bytes(slice_subrange(bytes, pos, pos + 8));
        proof {
            lemma_auto_spec_u64_to_from_le_bytes();
        }
        Some((x, pos + 8))
    } else {
        None
    }
}

fn parse_str(bytes: &[u8], pos: usize) -> (r: Option<(String, usize)>)
    requires
        pos <= bytes@.len(),
    ensures
        match r {
            Option::Some(v) => spec_str_end(bytes@, pos as int) == Option::Some(v.1 as int)
                && pos < v.1 <= bytes@.len() && bytes@.subrange(pos as int, v.1 as int)
                == spec_encode_str(v.0@),
            Option::None => spec_str_end(bytes@, pos as int) is None,
        },
{
    let (n, p) = match parse_u64(bytes, pos) {
        Option::None => {
            return None;
        },
        Option::Some(v) => v,
    };
    proof {
        lemma_auto_spec_u64_to_from_le_bytes();
        assert(spec_u64_from_le_bytes(bytes@.subrange(pos as int, pos as int + 8)) == n);
    }
    if n > (bytes.len() - p) as u64 {
        return None;
    }
    let end = p + (n as usize);
    let sub = slice_subrange(bytes, p, end);
    match bytes_as_str(sub) {
        Option::None => {
            proof {
                assert(spec_str_end(bytes@, pos as int) is None);
            }
            None
        },
        Option::Some(s) => {
            let owned = String::from_str(s);
            proof {
                assert(encode_utf8(owned@) == sub@);
                assert(spec_encode_str(owned@) =~= bytes@.subrange(pos as int, end as int));
            }
            Some((owned, end))
        },
    }
}

fn parse_opt_u64(bytes: &[u8], pos: usize) -> (r: Option<(Option<u64>, usize)>)
    requires
        pos <= bytes@.len(),
    ensures
        match r {
            Option::Some(v) => spec_opt_u64_end(bytes@, pos as int) == Option::Some(v.1 as int)
                && pos < v.1 <= bytes@.len() && bytes@.subrange(pos as int, v.1 as int)
                == spec_encode_opt_u64(v.0),
            Option::None => spec_opt_u64_end(bytes@, pos as int) is None,
        },
{
    if pos >= bytes.len() {
        return None;
    }
    let tag = *slice_index_get(bytes, pos);
    if tag == 0 {
        proof {
            assert(bytes@.subrange(pos as int, pos as int + 1) =~= spec_encode_opt_u64(
                Option::None,
            ));
        }
        Some((None, pos + 1))
    } else if tag == 1 {
        match parse_u64(bytes, pos + 1) {
            Option::None => None,
            Option::Some((x, end)) => {
                proof {
                    assert(bytes@.subrange(pos as int, end as int) =~= spec_encode_opt_u64(
                        Option::Some(x),
                    ));
                }
                Some((Some(x), end))
            },
        }
    } else {
        None
    }
}

fn parse_opt_str(bytes: &[u8], pos: usize) -> (r: Option<(Option<String>, usize)>)
    requires
        pos <= bytes@.len(),
    ensures
        match r {
            Option::Some(v) => spec_opt_str_end(bytes@, pos as int) == Option::Some(v.1 as int)
                && pos < v.1 <= bytes@.len() && bytes@.subrange(pos as int, v.1 as int)
                == spec_encode_opt_str(v.0),
            Option::None => spec_opt_str_end(bytes@, pos as int) is None,
        },
{
    if pos >= bytes.len() {
        return None;
    }
    let tag = *slice_index_get(bytes, pos);
    if tag == 0 {
        proof {
            assert(bytes@.subrange(pos as int, pos as int + 1) =~= spec_encode_opt_str(
                Option::None,
            ));
        }
        Some((None, pos + 1))
    } else if tag == 1 {
        match parse_str(bytes, pos + 1) {
            Option::None => None,
            Option::Some((s, end)) => {
                proof {
                    assert(bytes@.subrange(pos as int + 1, end as int) == spec_encode_str(s@));
                    assert(bytes@.subrange(pos as int, end as int) =~= spec_encode_opt_str(
                        Option::Some(s),
                    ));
                }
                Some((Some(s), end))
            },
        }
    } else {
        None
    }
}

fn parse_action(bytes: &[u8], pos: usize) -> (r: Option<(RequestAction, usize)>)
    requires
        pos <= bytes@.len(),
    ensures
        match r {
            Option::Some(v) => spec_action_end(bytes@, pos as int) == Option::Some(v.1 as int)
                && pos < v.1 <= bytes@.len() && bytes@.subrange(pos as int, v.1 as int)
                == spec_encode_action(v.0),
            Option::None => spec_action_end(bytes@, pos as int) is None,
        },
{
    if pos >= bytes.len() {
        return None;
    }
    let tag = *slice_index_get(bytes, pos);
    if tag == 0 || tag == 2 || tag == 3 || tag == 4 || tag == 6 || tag == 9 {
        let a = if tag == 0 {
            RequestAction::NoAction
        } else if tag == 2 {
            RequestAction::Disconnect
        } else if tag == 3 {
            RequestAction::KeepAlive
        } else if tag == 4 {
            RequestAction::ListPlayers
        } else if tag == 6 {
            RequestAction::ListGameSlots
        } else {
            RequestAction::LeaveGameSlot
        };
        proof {
            assert(bytes@.subrange(pos as int, pos as int + 1) =~= spec_encode_action(a));
        }
        Some((a, pos + 1))
    } else if tag == 1 {
        let (name, p) = match parse_str(bytes, pos + 1) {
            Option::None => {
                return None;
            },
            Option::Some(v) => v,
        };
        let (client_version, end) = match parse_str(bytes, p) {
            Option::None => {
                return None;
            },
            Option::Some(v) => v,
        };
        let a = RequestAction::Connect { name, client_version };
        proof {
            assert(bytes@.subrange(pos as int, end as int) =~= spec_encode_action(a));
        }
        Some((a, end))
    } else if tag == 5 || tag == 7 || tag == 8 {
        let (s, end) = match parse_str(bytes, pos + 1) {
            Option::None => {
                return None;
            },
            Option::Some(v) => v,
        };
        let a = if tag == 5 {
            RequestAction::ChatMessage { message: s }
        } else if tag == 7 {
            RequestAction::NewGameSlot { name: s }
        } else {
            RequestAction::JoinGameSlot { name: s }
        };
        proof {
            assert(bytes@.subrange(pos as int, end as int) =~= spec_encode_action(a));
        }
        Some((a, end))
    } else {
        None
    }
}

fn parse_names(bytes: &[u8], pos: usize, count: u64) -> (r: Option<(Vec<String>, usize)>)
    requires
        pos <= bytes@.len(),
    ensures
        match r {
            Option::Some(v) => spec_names_end(bytes@, pos as int, count as int) == Option::Some(
                v.1 as int,
            ) && pos <= v.1 <= bytes@.len() && v.0@.len() == count && bytes@.subrange(
                pos as int,
                v.1 as int,
            ) == spec_encode_names(v.0@),
            Option::None => spec_names_end(bytes@, pos as int, count as int) is None,
        },
{
    let mut names: Vec<String> = Vec::new();
    let mut cur = pos;
    let mut k: u64 = 0;
    proof {
        assert(bytes@.subrange(pos as int, pos as int) =~= spec_encode_names(names@));
    }
    while k < count
        invariant
            k <= count,
            pos <= cur <= bytes@.len(),
            names@.len() == k,
            spec_names_end(bytes@, pos as int, count as int) == spec_names_end(
                bytes@,
                cur as int,
                count - k,
            ),
            bytes@.subrange(pos as int, cur as int) == spec_encode_names(names@),
        decreases count - k,
    {
        match parse_str(bytes, cur) {
            Option::None => {
                return None;
            },
            Option::Some((s, end)) => {
                proof {
                    lemma_encode_names_push(names@, s);
                    assert(bytes@.subrange(pos as int, end as int) =~= bytes@.subrange(
                        pos as int,
                        cur as int,
                    ) + bytes@.subrange(cur as int, end as int));
                }
                names.push(s);
                cur = end;
            },
        }
        k = k + 1;
    }
    Some((names, cur))
}

fn parse_summary(bytes: &[u8], pos: usize) -> (r: Option<(GameSlotSummary, usize)>)
    requires
        pos <= bytes@.len(),
    ensures
        match r {
            Option::Some(v) => spec_summary_end(bytes@, pos as int) == Option::Some(v.1 as int)
                && pos < v.1 <= bytes@.len() && bytes@.subrange(pos as int, v.1 as int)
                == spec_encode_summary(v.0),
            Option::None => spec_summary_end(bytes@, pos as int) is None,
        },
{
    let (name, p) = match parse_str(bytes, pos) {
        Option::None => {
            return None;
        },
        Option::Some(v) => v,
    };
    let (player_count, p2) = match parse_u64(bytes, p) {
        Option::None => {
            return None;
        },
        Option::Some(v) => v,
    };
    if p2 >= bytes.len() {
        return None;
    }
    let flag = *slice_index_get(bytes, p2);
    if flag == 0 || flag == 1 {
        let row = GameSlotSummary { name, player_count, game_running: flag == 1 };
        proof {
            assert(bytes@.subrange(pos as int, p2 as int + 1) =~= spec_encode_summary(row));
        }
        Some((row, p2 + 1))
    } else {
        None
    }
}

fn parse_summaries(bytes: &[u8], pos: usize, count: u64) -> (r: Option<(Vec<GameSlotSummary>, usize)>)
    requires
        pos <= bytes@.len(),
    ensures
        match r {
            Option::Some(v) => spec_summaries_end(bytes@, pos as int, count as int)
                == Option::Some(v.1 as int) && pos <= v.1 <= bytes@.len() && v.0@.len() == count
                && bytes@.subrange(pos as int, v.1 as int) == spec_encode_summaries(v.0@),
            Option::None => spec_summaries_end(bytes@, pos as int, count as int) is None,
        },
{
    let mut rows: Vec<GameSlotSummary> = Vec::new();
    let mut cur = pos;
    let mut k: u64 = 0;
    proof {
        assert(bytes@.subrange(pos as int, pos as int) =~= spec_encode_summaries(rows@));
    }
    while k < count
        invariant
            k <= count,
            pos <= cur <= bytes@.len(),
            rows@.len() == k,
            spec_summaries_end(bytes@, pos as int, count as int) == spec_summaries_end(
                bytes@,
                cur as int,
                count - k,
            ),
            bytes@.subrange(pos as int, cur as int) == spec_encode_summaries(rows@),
        decreases count - k,
    {
        match parse_summary(bytes, cur) {
            Option::None => {
                return None;
            },
            Option::Some((row, end)) => {
                proof {
                    lemma_encode_summaries_push(rows@, row);
                    assert(bytes@.subrange(pos as int, end as int) =~= bytes@.subrange(
                        pos as int,
                        cur as int,
                    ) + bytes@.subrange(cur as int, end as int));
                }
                rows.push(row);
                cur = end;
            },
        }
        k = k + 1;
    }
    Some((rows, cur))
}

fn parse_code(bytes: &[u8], pos: usize) -> (r: Option<(ResponseCode, usize)>)
    requires
        pos <= bytes@.len(),
    ensures
        match r {
            Option::Some(v) => spec_code_end(bytes@, pos as int) == Option::Some(v.1 as int) && pos
                < v.1 <= bytes@.len() && bytes@.subrange(pos as int, v.1 as int)
                == spec_encode_code(v.0),
            Option::None => spec_code_end(bytes@, pos as int) is None,
        },
{
    if pos >= bytes.len() {
        return None;
    }
    let tag = *slice_index_get(bytes, pos);
    if tag == 0 || tag == 2 || tag == 3 {
        let c = if tag == 0 {
            ResponseCode::OK
        } else if tag == 2 {
            ResponseCode::Unauthorized
        } else {
            ResponseCode::BadRequest
        };
        proof {
            assert(bytes@.subrange(pos as int, pos as int + 1) =~= spec_encode_code(c));
        }
        Some((c, pos + 1))
    } else if tag == 1 {
        let (cookie, end) = match parse_str(bytes, pos + 1) {
            Option::None => {
                return None;
            },
            Option::Some(v) => v,
        };
        let c = ResponseCode::LoggedIn { cookie };
        proof {
            assert(bytes@.subrange(pos as int, end as int) =~= spec_encode_code(c));
        }
        Some((c, end))
    } else if tag == 4 {
        let (count, p) = match parse_u64(bytes, pos + 1) {
            Option::None => {
                return None;
            },
            Option::Some(v) => v,
        };
        proof {
            lemma_auto_spec_u64_to_from_le_bytes();
            assert(spec_u64_from_le_bytes(bytes@.subrange(pos as int + 1, pos as int + 9))
                == count);
        }
        let (names, end) = match parse_names(bytes, p, count) {
            Option::None => {
                return None;
            },
            Option::Some(v) => v,
        };
        let c = ResponseCode::PlayerList { names };
        proof {
            assert(bytes@.subrange(pos as int, end as int) =~= spec_encode_code(c));
        }
        Some((c, end))
    } else if tag == 5 {
        let (count, p) = match parse_u64(bytes, pos + 1) {
            Option::None => {
                return None;
            },
            Option::Some(v) => v,
        };
        proof {
            lemma_auto_spec_u64_to_from_le_bytes();
            assert(spec_u64_from_le_bytes(bytes@.subrange(pos as int + 1, pos as int + 9))
                == count);
        }
        let (slots, end) = match parse_summaries(bytes, p, count) {
            Option::None => {
                return None;
            },
            Option::Some(v) => v,
        };
        let c = ResponseCode::GameSlotList { slots };
        proof {
            assert(bytes@.subrange(pos as int, end as int) =~= spec_encode_code(c));
        }
        Some((c, end))
    } else {
        None
    }
}

/// Decodes one whole datagram's bytes back into a packet. Succeeds
/// exactly when the bytes parse as one packet with nothing trailing, and
/// then the result re-encodes to the very same bytes.
pub fn decode_packet_bytes(bytes: &[u8]) -> (r: Option<Packet>)
    ensures
        r is Some <==> packet_parseable(bytes@),
        r matches Option::Some(p) ==> bytes@ == spec_encode_packet(p),
{
    if bytes.len() == 0 {
        return None;
    }
    let tag = *slice_index_get(bytes, 0);
    if tag == 0 {
        let (sequence, p1) = match parse_u64(bytes, 1) {
            Option::None => {
                return None;
            },
            Option::Some(v) => v,
        };
        let (response_ack, p2) = match parse_opt_u64(bytes, p1) {
            Option::None => {
                return None;
            },
            Option::Some(v) => v,
        };
        let (cookie, p3) = match parse_opt_str(bytes, p2) {
            Option::None => {
                return None;
            },
            Option::Some(v) => v,
        };
        let (action, p4) = match parse_action(bytes, p3) {
            Option::None => {
                return None;
            },
            Option::Some(v) => v,
        };
        if p4 != bytes.len() {
            return None;
        }
        let p = Packet::Request { sequence, response_ack, cookie, action };
        proof {
            assert(bytes@ =~= spec_encode_packet(p));
        }
        Some(p)
    } else if tag == 1 {
        let (sequence, p1) = match parse_u64(bytes, 1) {
            Option::None => {
                return None;
            },
            Option::Some(v) => v,
        };
        let (request_ack, p2) = match parse_opt_u64(bytes, p1) {
            Option::None => {
                return None;
            },
            Option::Some(v) => v,
        };
        let (code, p3) = match parse_code(bytes, p2) {
            Option::None => {
                return None;
            },
            Option::Some(v) => v,
        };
        if p3 != bytes.len() {
            return None;
        }
        let p = Packet::Response { sequence, request_ack, code };
        proof {
            assert(bytes@ =~= spec_encode_packet(p));
        }
        Some(p)
    } else if tag == 2 || tag == 3 {
        let (sequence, p1) = match parse_u64(bytes, 1) {
            Option::None => {
                return None;
            },
            Option::Some(v) => v,
        };
        if p1 != bytes.len() {
            return None;
        }
        let p = if tag == 2 {
            Packet::Update { sequence }
        } else {
            Packet::UpdateReply { sequence }
        };
        proof {
            assert(bytes@ =~= spec_encode_packet(p));
        }
        Some(p)
    } else {
        None
    }
}

} // verus!
