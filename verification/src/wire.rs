//! The protobuf wire format: base-128 varints, field keys, and the split of a
//! message body into its field records.
use vstd::prelude::*;
use crate::Error;
use vstd::utf8::{encode_utf8, valid_utf8, decode_utf8};
use vstd::slice::slice_to_vec;

verus! {

#[verifier::external_type_specification]
#[verifier::external_body]
pub struct ExDecodeError(prost::DecodeError);

/// LEB128: seven bits at a time, least significant group first, the high bit
/// marking that more groups follow.
pub open spec fn varint(v: nat) -> Seq<u8>
    decreases v,
{
    if v < 128 {
        seq![v as u8]
    } else {
        seq![(v % 128 + 128) as u8] + varint(v / 128)
    }
}

/// The varint starting at `b[i]`: its value and where it ends. At most ten
/// bytes; a tenth byte must be 0 or 1.
pub open spec fn varint_at(b: Seq<u8>, i: nat) -> Option<(nat, nat)>
    decreases 10 - i,
{
    if i >= 10 || i >= b.len() {
        None
    } else if b[i as int] < 128 {
        if i == 9 && b[i as int] >= 2 {
            None
        } else {
            Some((b[i as int] as nat, i + 1))
        }
    } else if i == 9 {
        None
    } else {
        match varint_at(b, i + 1) {
            None => None,
            Some((rest, end)) => Some((((b[i as int] - 128) + 128 * rest) as nat, end)),
        }
    }
}

/// `prost::encoding::encode_varint`: appends the LEB128 encoding of `v`.
#[verifier::external_body]
pub(crate) fn put_varint(v: u64, buf: &mut Vec<u8>)
    ensures
        final(buf)@ == old(buf)@ + varint(v as nat),
{
    prost::encoding::encode_varint(v, buf)
}

/// `prost::encoding::decode_varint` on a byte slice: the value of the leading
/// varint, the slice advanced past it.
#[verifier::external_body]
pub(crate) fn take_varint(buf: &mut &[u8]) -> (r: Result<u64, prost::DecodeError>)
    ensures
        match varint_at(old(buf)@, 0) {
            Some((v, n)) => r is Ok && r->Ok_0 == v && final(buf)@ == old(buf)@.skip(n as int),
            None => r is Err,
        },
{
    prost::encoding::decode_varint(buf)
}

pub open spec fn key_value(tag: nat, wt: nat) -> nat {
    tag * 8 + wt
}

/// The three wire types that this library writes.
pub enum WireKind {
    Varint,
    SixtyFourBit,
    LengthDelimited,
}

/// The number of a wire type in a field key.
pub open spec fn kind_code(k: WireKind) -> nat {
    match k {
        WireKind::Varint => 0,
        WireKind::SixtyFourBit => 1,
        WireKind::LengthDelimited => 2,
    }
}

/// `prost::encoding::encode_key`: appends the varint of the field number
/// shifted above the three bits of the wire type.
#[verifier::external_body]
pub(crate) fn put_key(tag: u32, kind: WireKind, buf: &mut Vec<u8>)
    requires
        1 <= tag < 0x2000_0000,
    ensures
        final(buf)@ == old(buf)@ + varint(key_value(tag as nat, kind_code(kind))),
{
    let wt = match kind {
        WireKind::Varint => prost::encoding::WireType::Varint,
        WireKind::SixtyFourBit => prost::encoding::WireType::SixtyFourBit,
        WireKind::LengthDelimited => prost::encoding::WireType::LengthDelimited,
    };
    prost::encoding::encode_key(tag, wt, buf)
}

/// The field key at the front: a varint of at most 32 bits holding the field
/// number above three wire-type bits; wire types 0 to 5 exist, numbers start at one.
pub open spec fn key_at(b: Seq<u8>) -> Option<(nat, nat, nat)> {
    match varint_at(b, 0) {
        None => None,
        Some((k, n)) => if k > u32::MAX as nat || k % 8 > 5 || k / 8 == 0 {
            None
        } else {
            Some((k / 8, k % 8, n))
        },
    }
}

/// `prost::encoding::decode_key`: field number and wire type of the leading key.
#[verifier::external_body]
pub(crate) fn take_key(buf: &mut &[u8]) -> (r: Result<(u32, u8), prost::DecodeError>)
    ensures
        match key_at(old(buf)@) {
            Some((tag, wt, n)) => r is Ok && r->Ok_0.0 == tag && r->Ok_0.1 == wt && final(buf)@
                == old(buf)@.skip(n as int),
            None => r is Err,
        },
{
    match prost::encoding::decode_key(buf) {
        Ok((tag, prost::encoding::WireType::Varint)) => Ok((tag, 0)),
        Ok((tag, prost::encoding::WireType::SixtyFourBit)) => Ok((tag, 1)),
        Ok((tag, prost::encoding::WireType::LengthDelimited)) => Ok((tag, 2)),
        Ok((tag, prost::encoding::WireType::StartGroup)) => Ok((tag, 3)),
        Ok((tag, prost::encoding::WireType::EndGroup)) => Ok((tag, 4)),
        Ok((tag, prost::encoding::WireType::ThirtyTwoBit)) => Ok((tag, 5)),
        Err(e) => Err(e),
    }
}

/// One field record of a message body.
pub enum WireValue {
    Varint(nat),
    Fixed64(Seq<u8>),
    Bytes(Seq<u8>),
    Fixed32(Seq<u8>),
}

pub proof fn lemma_varint_at_end(b: Seq<u8>, i: nat)
    ensures
        varint_at(b, i) matches Some((v, n)) ==> i < n <= b.len() && n <= 10,
    decreases 10 - i,
{
    if !(i >= 10 || i >= b.len()) && b[i as int] >= 128 && i != 9 {
        lemma_varint_at_end(b, i + 1);
    }
}

/// The field records of a message body, in order; groups are not accepted.
pub open spec fn fields(b: Seq<u8>) -> Option<Seq<(nat, WireValue)>>
    decreases b.len(),
{
    if b.len() == 0 {
        Some(Seq::empty())
    } else {
        match key_at(b) {
            None => None,
            Some((tag, wt, n)) => {
                proof {
                    lemma_varint_at_end(b, 0);
                }
                let rest = b.skip(n as int);
                if wt == 0 {
                    match varint_at(rest, 0) {
                        None => None,
                        Some((v, m)) => {
                            proof {
                                lemma_varint_at_end(rest, 0);
                            }
                            match fields(rest.skip(m as int)) {
                                None => None,
                                Some(fs) => Some(seq![(tag, WireValue::Varint(v))] + fs),
                            }
                        },
                    }
                } else if wt == 1 {
                    if rest.len() < 8 {
                        None
                    } else {
                        match fields(rest.skip(8)) {
                            None => None,
                            Some(fs) => Some(seq![(tag, WireValue::Fixed64(rest.take(8)))] + fs),
                        }
                    }
                } else if wt == 2 {
                    match varint_at(rest, 0) {
                        None => None,
                        Some((len, m)) => {
                            proof {
                                lemma_varint_at_end(rest, 0);
                            }
                            if len > rest.len() - m {
                                None
                            } else {
                                match fields(rest.skip((m + len) as int)) {
                                    None => None,
                                    Some(fs) => Some(
                                        seq![(tag, WireValue::Bytes(rest.subrange(m as int, (m + len) as int)))]
                                            + fs,
                                    ),
                                }
                            }
                        },
                    }
                } else if wt == 5 {
                    if rest.len() < 4 {
                        None
                    } else {
                        match fields(rest.skip(4)) {
                            None => None,
                            Some(fs) => Some(seq![(tag, WireValue::Fixed32(rest.take(4)))] + fs),
                        }
                    }
                } else {
                    None
                }
            },
        }
    }
}

/// An owned field record.
#[derive(Debug)]
pub enum WireField {
    Varint(u64),
    Fixed64(Vec<u8>),
    Bytes(Vec<u8>),
    Fixed32(Vec<u8>),
}

impl View for WireField {
    type V = WireValue;

    open spec fn view(&self) -> WireValue {
        match self {
            WireField::Varint(v) => WireValue::Varint(*v as nat),
            WireField::Fixed64(b) => WireValue::Fixed64(b@),
            WireField::Bytes(b) => WireValue::Bytes(b@),
            WireField::Fixed32(b) => WireValue::Fixed32(b@),
        }
    }
}

pub open spec fn records_view(e: Seq<(u32, WireField)>) -> Seq<(nat, WireValue)> {
    Seq::new(e.len(), |i: int| (e[i].0 as nat, e[i].1@))
}

/// The reason given for bytes that are not a valid message.
pub open spec fn wire_error_msg() -> Seq<char> {
    "invalid protobuf message"@
}

fn wire_error() -> (r: Error)
    ensures
        r.0@ == wire_error_msg(),
{
    let msg = "invalid protobuf message".to_owned();
    proof {
        reveal_strlit("invalid protobuf message");
    }
    Error(msg)
}

/// Split a message body into its field records.
pub fn read_fields(data: &[u8]) -> (r: Result<Vec<(u32, WireField)>, Error>)
    ensures
        match fields(data@) {
            Some(fs) => r is Ok && records_view(r->Ok_0@) == fs,
            None => r is Err,
        },
{
    let mut buf: &[u8] = data;
    let mut out: Vec<(u32, WireField)> = Vec::new();
    while buf.len() > 0
        invariant
            fields(data@) == match fields(buf@) {
                Some(fs) => Some(records_view(out@) + fs),
                None => None::<Seq<(nat, WireValue)>>,
            },
        decreases buf@.len(),
    {
        let ghost b0 = buf@;
        proof {
            lemma_varint_at_end(b0, 0);
        }
        let (tag, wt) = match take_key(&mut buf) {
            Ok(k) => k,
            Err(_) => {
                return Err(wire_error());
            },
        };
        let ghost rest = buf@;
        let ghost before = out@;
        if wt == 0 {
            proof {
                lemma_varint_at_end(rest, 0);
            }
            let v = match take_varint(&mut buf) {
                Ok(v) => v,
                Err(_) => {
                    return Err(wire_error());
                },
            };
            out.push((tag, WireField::Varint(v)));
        } else if wt == 1 {
            if buf.len() < 8 {
                return Err(wire_error());
            }
            let chunk = slice_to_vec(&buf[0..8]);
            buf = &buf[8..buf.len()];
            out.push((tag, WireField::Fixed64(chunk)));
        } else if wt == 2 {
            proof {
                lemma_varint_at_end(rest, 0);
            }
            let len = match take_varint(&mut buf) {
                Ok(v) => v,
                Err(_) => {
                    return Err(wire_error());
                },
            };
            if len > buf.len() as u64 {
                return Err(wire_error());
            }
            let chunk = slice_to_vec(&buf[0..len as usize]);
            buf = &buf[len as usize..buf.len()];
            out.push((tag, WireField::Bytes(chunk)));
        } else if wt == 5 {
            if buf.len() < 4 {
                return Err(wire_error());
            }
            let chunk = slice_to_vec(&buf[0..4]);
            buf = &buf[4..buf.len()];
            out.push((tag, WireField::Fixed32(chunk)));
        } else {
            return Err(wire_error());
        }
        proof {
            assert(records_view(out@) =~= records_view(before).push(records_view(out@).last()));
            if wt == 1 {
                assert(rest.take(8) =~= records_view(out@).last().1->Fixed64_0);
                assert(buf@ =~= rest.skip(8));
            } else if wt == 2 {
                let (l, m) = varint_at(rest, 0)->0;
                assert(buf@ =~= rest.skip((m + l) as int));
                assert(records_view(out@).last().1->Bytes_0 =~= rest.subrange(m as int, (m + l) as int));
            } else if wt == 5 {
                assert(rest.take(4) =~= records_view(out@).last().1->Fixed32_0);
                assert(buf@ =~= rest.skip(4));
            }
            match fields(buf@) {
                Some(fs) => {
                    assert(records_view(before) + (seq![records_view(out@).last()] + fs) =~= records_view(out@) + fs);
                },
                None => {},
            }
        }
    }
    proof {
        assert(records_view(out@) + Seq::<(nat, WireValue)>::empty() =~= records_view(out@));
    }
    Ok(out)
}

/// `String::from_utf8`: the text of valid UTF-8 bytes; refused otherwise.
#[verifier::external_body]
pub(crate) fn utf8_string(bytes: Vec<u8>) -> (r: Option<String>)
    ensures
        match r {
            Some(s) => valid_utf8(bytes@) && s@ == decode_utf8(bytes@),
            None => !valid_utf8(bytes@),
        },
{
    String::from_utf8(bytes).ok()
}

/// The text of a string field record.
pub open spec fn string_value(v: WireValue) -> Option<Seq<char>> {
    match v {
        WireValue::Bytes(b) => if valid_utf8(b) {
            Some(decode_utf8(b))
        } else {
            None
        },
        _ => None,
    }
}

pub fn field_string(f: &WireField) -> (r: Result<String, Error>)
    ensures
        match string_value(f@) {
            Some(s) => r is Ok && r->Ok_0@ == s,
            None => r is Err,
        },
{
    match f {
        WireField::Bytes(b) => match utf8_string(slice_to_vec(b.as_slice())) {
            Some(s) => Ok(s),
            None => Err(Error("invalid string value: data is not UTF-8 encoded".to_owned())),
        },
        _ => Err(wire_error()),
    }
}

/// A string field as prost writes it: nothing for the empty string.
pub open spec fn string_field(tag: nat, s: Seq<char>) -> Seq<u8> {
    if s.len() == 0 {
        Seq::empty()
    } else {
        varint(key_value(tag, 2)) + varint(encode_utf8(s).len()) + encode_utf8(s)
    }
}

/// A length-delimited field carrying `body`.
pub open spec fn bytes_field(tag: nat, body: Seq<u8>) -> Seq<u8> {
    varint(key_value(tag, 2)) + varint(body.len()) + body
}

pub fn put_string_field(tag: u32, s: &String, buf: &mut Vec<u8>)
    requires
        1 <= tag < 0x2000_0000,
    ensures
        final(buf)@ == old(buf)@ + string_field(tag as nat, s@),
{
    let bytes = s.as_str().as_bytes();
    if bytes.len() == 0 {
        proof {
            assert(s@.len() == 0) by {
                if s@.len() > 0 {
                    vstd::utf8::encode_utf8_first_scalar(s@);
                }
            }
            assert(old(buf)@ + string_field(tag as nat, s@) =~= old(buf)@);
        }
        return;
    }
    put_key(tag, WireKind::LengthDelimited, buf);
    put_varint(bytes.len() as u64, buf);
    let mut i: usize = 0;
    let ghost mid = buf@;
    while i < bytes.len()
        invariant
            i <= bytes@.len(),
            buf@ == mid + bytes@.take(i as int),
        decreases bytes@.len() - i,
    {
        buf.push(bytes[i]);
        proof {
            assert(bytes@.take(i + 1) =~= bytes@.take(i as int).push(bytes@[i as int]));
        }
        i = i + 1;
    }
    proof {
        assert(bytes@.take(bytes@.len() as int) =~= bytes@);
        assert(s@.len() > 0) by {
            if s@.len() == 0 {
                assert(encode_utf8(s@) =~= Seq::<u8>::empty());
            }
        }
        assert(buf@ =~= old(buf)@ + string_field(tag as nat, s@));
    }
}

pub fn put_bytes_field(tag: u32, body: &Vec<u8>, buf: &mut Vec<u8>)
    requires
        1 <= tag < 0x2000_0000,
    ensures
        final(buf)@ == old(buf)@ + bytes_field(tag as nat, body@),
{
    put_key(tag, WireKind::LengthDelimited, buf);
    put_varint(body.len() as u64, buf);
    let mut i: usize = 0;
    let ghost mid = buf@;
    while i < body.len()
        invariant
            i <= body@.len(),
            buf@ == mid + body@.take(i as int),
        decreases body@.len() - i,
    {
        buf.push(body[i]);
        proof {
            assert(body@.take(i + 1) =~= body@.take(i as int).push(body@[i as int]));
        }
        i = i + 1;
    }
    proof {
        assert(body@.take(body@.len() as int) =~= body@);
        assert(buf@ =~= old(buf)@ + bytes_field(tag as nat, body@));
    }
}

/// How large a value a varint starting at byte `i` may carry: all 64 bits at
/// the start, seven fewer for each byte already read.
pub open spec fn varint_room(i: nat) -> nat
    decreases 10 - i,
{
    if i >= 9 {
        2
    } else {
        128 * varint_room(i + 1)
    }
}

pub proof fn lemma_varint_room_full()
    ensures
        varint_room(0) == 0x1_0000_0000_0000_0000,
{
    reveal_with_fuel(varint_room, 11);
}

pub proof fn lemma_varint_len(v: nat)
    ensures
        varint(v).len() >= 1,
    decreases v,
{
    if v >= 128 {
        lemma_varint_len(v / 128);
    }
}

/// A varint written at byte `i` reads back as its value, ending right after it.
pub proof fn lemma_varint_read(b: Seq<u8>, i: nat, v: nat)
    requires
        i <= 9,
        v < varint_room(i),
        i + varint(v).len() <= b.len(),
        b.subrange(i as int, (i + varint(v).len()) as int) == varint(v),
    ensures
        varint_at(b, i) == Some((v, (i + varint(v).len()) as nat)),
    decreases v,
{
    let w = varint(v);
    assert(b[i as int] == w[0]);
    if v < 128 {
        assert(w == seq![v as u8]);
        assert(b[i as int] == v);
        if i >= 9 {
            assert(varint_room(i) == 2);
        }
    } else {
        if i >= 9 {
            assert(varint_room(i) == 2);
        }
        let rest = varint(v / 128);
        assert(w == seq![(v % 128 + 128) as u8] + rest);
        assert(v / 128 < varint_room(i + 1)) by (nonlinear_arith)
            requires
                v < 128 * varint_room(i + 1),
        ;
        assert(b.subrange((i + 1) as int, (i + 1 + rest.len()) as int) =~= rest) by {
            assert forall|k: int| 0 <= k < rest.len() implies b.subrange((i + 1) as int, (i + 1 + rest.len()) as int)[k] == rest[k] by {
                assert(b.subrange(i as int, (i + w.len()) as int)[k + 1] == w[k + 1]);
            }
        }
        lemma_varint_read(b, i + 1, v / 128);
        assert((v % 128 + 128) as u8 == v % 128 + 128);
        assert(b[i as int] >= 128);
        assert(w.len() == 1 + rest.len());
        assert(v % 128 + 128 * (v / 128) == v) by (nonlinear_arith);
    }
}

pub open spec fn wire_type(v: WireValue) -> nat {
    match v {
        WireValue::Varint(_) => 0,
        WireValue::Fixed64(_) => 1,
        WireValue::Bytes(_) => 2,
        WireValue::Fixed32(_) => 5,
    }
}

pub open spec fn payload(v: WireValue) -> Seq<u8> {
    match v {
        WireValue::Varint(x) => varint(x),
        WireValue::Fixed64(b) => b,
        WireValue::Bytes(b) => varint(b.len()) + b,
        WireValue::Fixed32(b) => b,
    }
}

/// The bytes of one field record: its key, then its payload.
pub open spec fn record_bytes(r: (nat, WireValue)) -> Seq<u8> {
    varint(key_value(r.0, wire_type(r.1))) + payload(r.1)
}

/// The bytes of field records written in order.
pub open spec fn records_bytes(rs: Seq<(nat, WireValue)>) -> Seq<u8>
    decreases rs.len(),
{
    if rs.len() == 0 {
        Seq::empty()
    } else {
        record_bytes(rs[0]) + records_bytes(rs.drop_first())
    }
}

/// A record that can be written: a valid field number and a payload of the
/// size its wire type fixes.
pub open spec fn record_ok(r: (nat, WireValue)) -> bool {
    &&& 1 <= r.0 < 0x2000_0000
    &&& match r.1 {
        WireValue::Varint(x) => x < 0x1_0000_0000_0000_0000,
        WireValue::Fixed64(b) => b.len() == 8,
        WireValue::Bytes(b) => b.len() < 0x1_0000_0000_0000_0000,
        WireValue::Fixed32(b) => b.len() == 4,
    }
}

pub open spec fn records_ok(rs: Seq<(nat, WireValue)>) -> bool {
    forall|i: int| 0 <= i < rs.len() ==> record_ok(#[trigger] rs[i])
}

proof fn lemma_read_at_start(b: Seq<u8>, v: nat, rest: Seq<u8>)
    requires
        v < 0x1_0000_0000_0000_0000,
        b == varint(v) + rest,
    ensures
        varint_at(b, 0) == Some((v, varint(v).len())),
        b.skip(varint(v).len() as int) == rest,
{
    lemma_varint_room_full();
    assert(b.subrange(0, varint(v).len() as int) =~= varint(v));
    lemma_varint_read(b, 0, v);
    assert(b.skip(varint(v).len() as int) =~= rest);
}

/// A written record splits off as itself, the rest following.
pub proof fn lemma_fields_record(r: (nat, WireValue), rest: Seq<u8>)
    requires
        record_ok(r),
    ensures
        fields(record_bytes(r) + rest) == match fields(rest) {
            Some(fs) => Some(seq![r] + fs),
            None => None::<Seq<(nat, WireValue)>>,
        },
{
    let (tag, v) = r;
    let wt = wire_type(v);
    let k = key_value(tag, wt);
    let b = record_bytes(r) + rest;
    let after_key = payload(v) + rest;
    assert(k < 0x1_0000_0000 && k % 8 == wt && k / 8 == tag) by (nonlinear_arith)
        requires
            1 <= tag < 0x2000_0000,
            wt <= 5,
            k == tag * 8 + wt,
    ;
    assert(b =~= varint(k) + after_key);
    lemma_read_at_start(b, k, after_key);
    lemma_varint_len(k);
    assert(key_at(b) == Some((tag, wt, varint(k).len())));
    assert(b.len() > 0);
    match v {
        WireValue::Varint(x) => {
            assert(after_key =~= varint(x) + rest);
            lemma_read_at_start(after_key, x, rest);
        },
        WireValue::Fixed64(bs) => {
            assert(after_key.take(8) =~= bs);
            assert(after_key.skip(8) =~= rest);
        },
        WireValue::Bytes(bs) => {
            let n = bs.len();
            assert(after_key =~= varint(n) + (bs + rest));
            lemma_read_at_start(after_key, n, bs + rest);
            let m = varint(n).len();
            assert(after_key.subrange(m as int, (m + n) as int) =~= bs);
            assert(after_key.skip((m + n) as int) =~= rest);
        },
        WireValue::Fixed32(bs) => {
            assert(after_key.take(4) =~= bs);
            assert(after_key.skip(4) =~= rest);
        },
    }
}

/// Records written in order read back as the same records.
pub proof fn lemma_fields_records(rs: Seq<(nat, WireValue)>)
    requires
        records_ok(rs),
    ensures
        fields(records_bytes(rs)) == Some(rs),
    decreases rs.len(),
{
    if rs.len() > 0 {
        let tail = rs.drop_first();
        assert(records_ok(tail)) by {
            assert forall|i: int| 0 <= i < tail.len() implies record_ok(#[trigger] tail[i]) by {
                assert(tail[i] == rs[i + 1]);
            }
        }
        lemma_fields_records(tail);
        assert(record_ok(rs[0]));
        lemma_fields_record(rs[0], records_bytes(tail));
        assert(seq![rs[0]] + tail =~= rs);
    }
}

pub proof fn lemma_records_bytes_concat(a: Seq<(nat, WireValue)>, b: Seq<(nat, WireValue)>)
    ensures
        records_bytes(a + b) == records_bytes(a) + records_bytes(b),
    decreases a.len(),
{
    if a.len() == 0 {
        assert(a + b =~= b);
        assert(Seq::<u8>::empty() + records_bytes(b) =~= records_bytes(b));
    } else {
        assert((a + b).drop_first() =~= a.drop_first() + b);
        assert((a + b)[0] == a[0]);
        lemma_records_bytes_concat(a.drop_first(), b);
        assert(record_bytes(a[0]) + (records_bytes(a.drop_first()) + records_bytes(b)) =~= (record_bytes(a[0])
            + records_bytes(a.drop_first())) + records_bytes(b));
    }
}

/// The record of a string field: none for the empty string.
pub open spec fn string_records(tag: nat, s: Seq<char>) -> Seq<(nat, WireValue)> {
    if s.len() == 0 {
        Seq::empty()
    } else {
        seq![(tag, WireValue::Bytes(encode_utf8(s)))]
    }
}

/// The record of an integer field: none for zero.
pub open spec fn varint_records(tag: nat, v: nat) -> Seq<(nat, WireValue)> {
    if v == 0 {
        Seq::empty()
    } else {
        seq![(tag, WireValue::Varint(v))]
    }
}

/// The record of an embedded message.
pub open spec fn message_records(tag: nat, body: Seq<u8>) -> Seq<(nat, WireValue)> {
    seq![(tag, WireValue::Bytes(body))]
}

pub proof fn lemma_one_record(r: (nat, WireValue))
    ensures
        records_bytes(seq![r]) == record_bytes(r),
{
    assert(seq![r].drop_first() =~= Seq::<(nat, WireValue)>::empty());
    assert(seq![r][0] == r);
    assert(records_bytes(Seq::<(nat, WireValue)>::empty()) =~= Seq::<u8>::empty());
    assert(record_bytes(r) + Seq::<u8>::empty() =~= record_bytes(r));
}

pub proof fn lemma_string_field(tag: nat, s: Seq<char>)
    ensures
        string_field(tag, s) == records_bytes(string_records(tag, s)),
{
    if s.len() > 0 {
        lemma_one_record((tag, WireValue::Bytes(encode_utf8(s))));
        assert(record_bytes((tag, WireValue::Bytes(encode_utf8(s)))) =~= string_field(tag, s));
    }
}

/// A string field's value reads back as the string.
pub proof fn lemma_string_value(s: Seq<char>)
    ensures
        string_value(WireValue::Bytes(encode_utf8(s))) == Some(s),
{
    vstd::utf8::encode_utf8_valid_utf8(s);
    vstd::utf8::encode_utf8_decode_utf8(s);
}

/// Append an integer field (nothing for zero).
pub fn put_varint_field(tag: u32, v: u64, buf: &mut Vec<u8>)
    requires
        1 <= tag < 0x2000_0000,
    ensures
        final(buf)@ == old(buf)@ + records_bytes(varint_records(tag as nat, v as nat)),
{
    if v == 0 {
        assert(old(buf)@ + Seq::<u8>::empty() =~= old(buf)@);
        return;
    }
    put_key(tag, WireKind::Varint, buf);
    put_varint(v, buf);
    proof {
        lemma_one_record((tag as nat, WireValue::Varint(v as nat)));
        assert(buf@ =~= old(buf)@ + records_bytes(varint_records(tag as nat, v as nat)));
    }
}

/// Append an embedded message's bytes as a field.
pub fn put_message_field(tag: u32, body: &Vec<u8>, buf: &mut Vec<u8>)
    requires
        1 <= tag < 0x2000_0000,
    ensures
        final(buf)@ == old(buf)@ + records_bytes(message_records(tag as nat, body@)),
{
    put_bytes_field(tag, body, buf);
    proof {
        lemma_one_record((tag as nat, WireValue::Bytes(body@)));
        assert(bytes_field(tag as nat, body@) =~= record_bytes((tag as nat, WireValue::Bytes(body@))));
    }
}

/// The eight little-endian bytes of `x`.
pub open spec fn le_bytes(x: u64) -> Seq<u8> {
    seq![
        (x & 0xff) as u8,
        ((x >> 8u64) & 0xff) as u8,
        ((x >> 16u64) & 0xff) as u8,
        ((x >> 24u64) & 0xff) as u8,
        ((x >> 32u64) & 0xff) as u8,
        ((x >> 40u64) & 0xff) as u8,
        ((x >> 48u64) & 0xff) as u8,
        ((x >> 56u64) & 0xff) as u8,
    ]
}

/// The value of eight little-endian bytes.
pub open spec fn le_value(b: Seq<u8>) -> u64 {
    (b[0] as u64) | ((b[1] as u64) << 8u64) | ((b[2] as u64) << 16u64) | ((b[3] as u64) << 24u64) | ((b[4] as u64)
        << 32u64) | ((b[5] as u64) << 40u64) | ((b[6] as u64) << 48u64) | ((b[7] as u64) << 56u64)
}

pub proof fn lemma_le_round_trip(x: u64)
    ensures
        le_value(le_bytes(x)) == x,
{
    let b0 = (x & 0xff) as u8;
    let b1 = ((x >> 8u64) & 0xff) as u8;
    let b2 = ((x >> 16u64) & 0xff) as u8;
    let b3 = ((x >> 24u64) & 0xff) as u8;
    let b4 = ((x >> 32u64) & 0xff) as u8;
    let b5 = ((x >> 40u64) & 0xff) as u8;
    let b6 = ((x >> 48u64) & 0xff) as u8;
    let b7 = ((x >> 56u64) & 0xff) as u8;
    assert((b0 as u64) | ((b1 as u64) << 8u64) | ((b2 as u64) << 16u64) | ((b3 as u64) << 24u64) | ((b4 as u64)
        << 32u64) | ((b5 as u64) << 40u64) | ((b6 as u64) << 48u64) | ((b7 as u64) << 56u64) == x) by (bit_vector)
        requires
            b0 == (x & 0xff) as u8,
            b1 == ((x >> 8u64) & 0xff) as u8,
            b2 == ((x >> 16u64) & 0xff) as u8,
            b3 == ((x >> 24u64) & 0xff) as u8,
            b4 == ((x >> 32u64) & 0xff) as u8,
            b5 == ((x >> 40u64) & 0xff) as u8,
            b6 == ((x >> 48u64) & 0xff) as u8,
            b7 == ((x >> 56u64) & 0xff) as u8,
    ;
}

/// Append a 64-bit fixed field given by its bits.
pub fn put_fixed64_field(tag: u32, x: u64, buf: &mut Vec<u8>)
    requires
        1 <= tag < 0x2000_0000,
    ensures
        final(buf)@ == old(buf)@ + records_bytes(seq![(tag as nat, WireValue::Fixed64(le_bytes(x)))]),
{
    put_key(tag, WireKind::SixtyFourBit, buf);
    buf.push((x & 0xff) as u8);
    buf.push(((x >> 8u64) & 0xff) as u8);
    buf.push(((x >> 16u64) & 0xff) as u8);
    buf.push(((x >> 24u64) & 0xff) as u8);
    buf.push(((x >> 32u64) & 0xff) as u8);
    buf.push(((x >> 40u64) & 0xff) as u8);
    buf.push(((x >> 48u64) & 0xff) as u8);
    buf.push(((x >> 56u64) & 0xff) as u8);
    proof {
        lemma_one_record((tag as nat, WireValue::Fixed64(le_bytes(x))));
        assert(buf@ =~= old(buf)@ + records_bytes(seq![(tag as nat, WireValue::Fixed64(le_bytes(x)))]));
    }
}

/// The value of a varint record, or a refusal for another wire type.
pub fn field_varint(f: &WireField) -> (r: Result<u64, Error>)
    ensures
        match f@ {
            WireValue::Varint(v) => r is Ok && r->Ok_0 == v,
            _ => r is Err,
        },
{
    match f {
        WireField::Varint(v) => Ok(*v),
        _ => Err(wire_error()),
    }
}

/// The bits of a fixed 64-bit record, or a refusal for another wire type.
pub fn field_fixed64(f: &WireField) -> (r: Result<u64, Error>)
    ensures
        match f@ {
            WireValue::Fixed64(b) => if b.len() == 8 {
                r is Ok && r->Ok_0 == le_value(b)
            } else {
                r is Err
            },
            _ => r is Err,
        },
{
    match f {
        WireField::Fixed64(b) => {
            if b.len() != 8 {
                return Err(wire_error());
            }
            let x = (b[0] as u64) | ((b[1] as u64) << 8u64) | ((b[2] as u64) << 16u64) | ((b[3] as u64) << 24u64)
                | ((b[4] as u64) << 32u64) | ((b[5] as u64) << 40u64) | ((b[6] as u64) << 48u64) | ((b[7] as u64)
                << 56u64);
            Ok(x)
        },
        _ => Err(wire_error()),
    }
}

/// The body of a length-delimited record, or a refusal for another wire type.
pub fn field_body(f: &WireField) -> (r: Result<&Vec<u8>, Error>)
    ensures
        match f@ {
            WireValue::Bytes(b) => r is Ok && r->Ok_0@ == b,
            _ => r is Err,
        },
{
    match f {
        WireField::Bytes(b) => Ok(b),
        _ => Err(wire_error()),
    }
}

/// A varint takes at most ten bytes.
pub proof fn lemma_varint_small(v: nat)
    ensures
        varint(v).len() <= 10 || v >= 0x1_0000_0000_0000_0000,
    decreases v,
{
    lemma_varint_room_full();
    lemma_varint_bound(v, 0);
}

proof fn lemma_varint_bound(v: nat, i: nat)
    requires
        i <= 9,
    ensures
        v < varint_room(i) ==> i + varint(v).len() <= 10,
    decreases v,
{
    if v < varint_room(i) && v >= 128 {
        if i >= 9 {
            assert(varint_room(i) == 2);
        } else {
            assert(v / 128 < varint_room(i + 1)) by (nonlinear_arith)
                requires
                    v < 128 * varint_room(i + 1),
            ;
            lemma_varint_bound(v / 128, i + 1);
        }
    }
}

} // verus!
