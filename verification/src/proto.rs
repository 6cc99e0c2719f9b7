//! Protobuf messages of the circuit schema and their wire encoding: each
//! message is written field by field in field-number order, omitting default
//! scalars and absent messages, and read back from its field records, later
//! records overriding earlier ones, embedded messages merged, map entries
//! inserted, and unknown fields skipped.
use vstd::prelude::*;
use crate::wire::{
    fields, read_fields, string_value, field_string, put_string_field, WireValue, WireField,
    records_view, records_bytes, records_ok, record_ok, string_records, lemma_string_field, lemma_string_value,
    lemma_fields_records, lemma_records_bytes_concat, string_field, message_records, put_message_field,
    field_body, lemma_one_record, varint_records, put_varint_field, field_varint, field_fixed64, le_bytes,
    le_value, lemma_le_round_trip, put_fixed64_field, record_bytes,
};
use crate::Error;
use crate::netlist::{vkey_index, lemma_vkey_index};
use crate::ordmap::{find_key, key_index, lemma_key_index};
use crate::parser::{insert_sorted, insert_in_order, named_view, str_lt, lemma_str_lt_irreflexive, lemma_str_lt_asymmetric};
use vstd::utf8::encode_utf8;
use vstd::slice::slice_to_vec;

verus! {

/// A field record: its number and its value.
pub type Record = (nat, WireValue);

/// Applying field records in order over a message, stopping at the first one
/// that cannot be applied.
pub open spec fn merge_records<M>(m: M, fs: Seq<Record>, step: spec_fn(M, Record) -> Option<M>) -> Option<M>
    decreases fs.len(),
{
    if fs.len() == 0 {
        Some(m)
    } else {
        match step(m, fs[0]) {
            None => None,
            Some(m2) => merge_records(m2, fs.drop_first(), step),
        }
    }
}

pub proof fn lemma_merge_concat<M>(m: M, a: Seq<Record>, b: Seq<Record>, step: spec_fn(M, Record) -> Option<M>)
    ensures
        merge_records(m, a + b, step) == match merge_records(m, a, step) {
            Some(m2) => merge_records(m2, b, step),
            None => None,
        },
    decreases a.len(),
{
    if a.len() == 0 {
        assert(a + b =~= b);
    } else {
        assert((a + b)[0] == a[0]);
        assert((a + b).drop_first() =~= a.drop_first() + b);
        match step(m, a[0]) {
            None => {},
            Some(m2) => {
                lemma_merge_concat(m2, a.drop_first(), b, step);
            },
        }
    }
}

pub proof fn lemma_merge_one<M>(m: M, r: Record, step: spec_fn(M, Record) -> Option<M>)
    ensures
        merge_records(m, seq![r], step) == step(m, r),
{
    assert(seq![r][0] == r);
    assert(seq![r].drop_first() =~= Seq::<Record>::empty());
    match step(m, r) {
        Some(m2) => {
            assert(merge_records(m2, Seq::<Record>::empty(), step) == Some(m2));
        },
        None => {},
    }
}

/// A string that fits a length-delimited field.
pub open spec fn fits(s: Seq<char>) -> bool {
    encode_utf8(s).len() < 0x1_0000_0000_0000_0000
}

/// A pin of an instance (`instance_name` set) or of the module itself.
#[derive(Clone, Debug, PartialEq, Eq, Default)]
pub struct TerminalReference {
    pub instance_name: String,
    pub terminal_name: String,
}

#[verifier::ext_equal]
pub struct TerminalReferenceV {
    pub instance_name: Seq<char>,
    pub terminal_name: Seq<char>,
}

impl View for TerminalReference {
    type V = TerminalReferenceV;

    open spec fn view(&self) -> TerminalReferenceV {
        TerminalReferenceV { instance_name: self.instance_name@, terminal_name: self.terminal_name@ }
    }
}

pub open spec fn empty_terminal_reference() -> TerminalReferenceV {
    TerminalReferenceV { instance_name: Seq::empty(), terminal_name: Seq::empty() }
}

pub open spec fn terminal_reference_records(t: TerminalReferenceV) -> Seq<Record> {
    string_records(1, t.instance_name) + string_records(2, t.terminal_name)
}

pub open spec fn terminal_reference_bytes(t: TerminalReferenceV) -> Seq<u8> {
    records_bytes(terminal_reference_records(t))
}

pub open spec fn terminal_reference_apply(t: TerminalReferenceV, f: Record) -> Option<TerminalReferenceV> {
    if f.0 == 1 {
        match string_value(f.1) {
            Some(s) => Some(TerminalReferenceV { instance_name: s, ..t }),
            None => None,
        }
    } else if f.0 == 2 {
        match string_value(f.1) {
            Some(s) => Some(TerminalReferenceV { terminal_name: s, ..t }),
            None => None,
        }
    } else {
        Some(t)
    }
}

pub open spec fn terminal_reference_step() -> spec_fn(TerminalReferenceV, Record) -> Option<TerminalReferenceV> {
    |t: TerminalReferenceV, f: Record| terminal_reference_apply(t, f)
}

/// The message `b` holds, read over `t`.
pub open spec fn terminal_reference_decode(t: TerminalReferenceV, b: Seq<u8>) -> Option<TerminalReferenceV> {
    match fields(b) {
        None => None,
        Some(fs) => merge_records(t, fs, terminal_reference_step()),
    }
}

proof fn lemma_concat_string_fields(a: nat, x: Seq<char>, b: nat, y: Seq<char>)
    ensures
        string_field(a, x) + string_field(b, y) == records_bytes(string_records(a, x) + string_records(b, y)),
{
    lemma_string_field(a, x);
    lemma_string_field(b, y);
    lemma_records_bytes_concat(string_records(a, x), string_records(b, y));
}

/// Reading a string field's records over a message sets that field.
proof fn lemma_string_part<M>(
    m: M,
    tag: nat,
    s: Seq<char>,
    step: spec_fn(M, Record) -> Option<M>,
    set: M,
)
    requires
        s.len() > 0 ==> step(m, (tag, WireValue::Bytes(encode_utf8(s)))) == Some(set),
        s.len() == 0 ==> set == m,
    ensures
        merge_records(m, string_records(tag, s), step) == Some(set),
{
    if s.len() > 0 {
        lemma_merge_one(m, (tag, WireValue::Bytes(encode_utf8(s))), step);
    }
}

pub open spec fn terminal_reference_fits(t: TerminalReferenceV) -> bool {
    fits(t.instance_name) && fits(t.terminal_name)
}

proof fn lemma_strings_ok(tag: nat, s: Seq<char>)
    requires
        1 <= tag < 0x2000_0000,
        fits(s),
    ensures
        records_ok(string_records(tag, s)),
{
}

proof fn lemma_records_ok_concat(a: Seq<Record>, b: Seq<Record>)
    requires
        records_ok(a),
        records_ok(b),
    ensures
        records_ok(a + b),
{
    assert forall|i: int| 0 <= i < (a + b).len() implies record_ok(#[trigger] (a + b)[i]) by {
        if i < a.len() {
            assert((a + b)[i] == a[i]);
        } else {
            assert((a + b)[i] == b[i - a.len()]);
        }
    }
}

/// A terminal reference reads back as itself.
pub proof fn lemma_terminal_reference_round_trip(t: TerminalReferenceV)
    requires
        terminal_reference_fits(t),
    ensures
        terminal_reference_decode(empty_terminal_reference(), terminal_reference_bytes(t)) == Some(t),
{
    let a = string_records(1, t.instance_name);
    let b = string_records(2, t.terminal_name);
    lemma_strings_ok(1, t.instance_name);
    lemma_strings_ok(2, t.terminal_name);
    lemma_records_ok_concat(a, b);
    lemma_fields_records(a + b);
    let step = terminal_reference_step();
    let e = empty_terminal_reference();
    let m1 = TerminalReferenceV { instance_name: t.instance_name, ..e };
    lemma_string_value(t.instance_name);
    lemma_string_value(t.terminal_name);
    lemma_string_part(e, 1, t.instance_name, step, m1);
    lemma_string_part(m1, 2, t.terminal_name, step, t);
    lemma_merge_concat(e, a, b, step);
}

impl TerminalReference {
    pub fn encode_into(&self, buf: &mut Vec<u8>)
        ensures
            final(buf)@ == old(buf)@ + terminal_reference_bytes(self@),
    {
        put_string_field(1, &self.instance_name, buf);
        put_string_field(2, &self.terminal_name, buf);
        proof {
            lemma_concat_string_fields(1, self.instance_name@, 2, self.terminal_name@);
            assert(buf@ =~= old(buf)@ + terminal_reference_bytes(self@));
        }
    }

    /// The wire bytes of this message.
    pub fn encode_to_vec(&self) -> (r: Vec<u8>)
        ensures
            r@ == terminal_reference_bytes(self@),
    {
        let mut buf: Vec<u8> = Vec::new();
        self.encode_into(&mut buf);
        proof {
            assert(buf@ =~= terminal_reference_bytes(self@));
        }
        buf
    }

    /// Read the fields of `data` over this message.
    pub fn merge(&mut self, data: &[u8]) -> (r: Result<(), Error>)
        ensures
            match terminal_reference_decode(old(self)@, data@) {
                Some(t) => r is Ok && final(self)@ == t,
                None => r is Err,
            },
    {
        let fs = read_fields(data)?;
        let ghost fv = records_view(fs@);
        proof {
            assert(fv.skip(0) =~= fv);
        }
        let mut i: usize = 0;
        while i < fs.len()
            invariant
                i <= fs@.len(),
                fv == records_view(fs@),
                terminal_reference_decode(old(self)@, data@) == merge_records(
                    self@,
                    fv.skip(i as int),
                    terminal_reference_step(),
                ),
            decreases fs@.len() - i,
        {
            proof {
                assert(fv.skip(i as int).drop_first() =~= fv.skip(i + 1));
                assert(fv.skip(i as int)[0] == (fs@[i as int].0 as nat, fs@[i as int].1@));
            }
            let (tag, f) = (fs[i].0, &fs[i].1);
            if tag == 1 {
                self.instance_name = field_string(f)?;
            } else if tag == 2 {
                self.terminal_name = field_string(f)?;
            }
            i = i + 1;
        }
        Ok(())
    }

    /// The message `data` holds.
    pub fn decode(data: &[u8]) -> (r: Result<TerminalReference, Error>)
        ensures
            match terminal_reference_decode(empty_terminal_reference(), data@) {
                Some(t) => r is Ok && r->Ok_0@ == t,
                None => r is Err,
            },
    {
        let mut t = TerminalReference { instance_name: String::new(), terminal_name: String::new() };
        proof {
            assert(t@ =~= empty_terminal_reference());
        }
        t.merge(data)?;
        Ok(t)
    }
}

impl TerminalReference {
    /// An identical copy.
    pub fn copy(&self) -> (r: TerminalReference)
        ensures
            r@ == self@,
    {
        TerminalReference { instance_name: self.instance_name.clone(), terminal_name: self.terminal_name.clone() }
    }
}

/// The record of an optional embedded message: none when absent.
pub open spec fn optional_records(tag: nat, body: Option<Seq<u8>>) -> Seq<Record> {
    match body {
        Some(b) => message_records(tag, b),
        None => Seq::empty(),
    }
}

pub proof fn lemma_message_part<M>(m: M, tag: nat, body: Seq<u8>, step: spec_fn(M, Record) -> Option<M>, set: M)
    requires
        step(m, (tag, WireValue::Bytes(body))) == Some(set),
    ensures
        merge_records(m, message_records(tag, body), step) == Some(set),
{
    lemma_merge_one(m, (tag, WireValue::Bytes(body)), step);
}

pub open spec fn body_fits(b: Seq<u8>) -> bool {
    b.len() < 0x1_0000_0000_0000_0000
}

/// A named link between two terminals.
#[derive(Clone, Debug, PartialEq, Eq, Default)]
pub struct Connection {
    pub name: String,
    pub source: Option<TerminalReference>,
    pub target: Option<TerminalReference>,
}

#[verifier::ext_equal]
pub struct ConnectionV {
    pub name: Seq<char>,
    pub source: Option<TerminalReferenceV>,
    pub target: Option<TerminalReferenceV>,
}

impl View for Connection {
    type V = ConnectionV;

    open spec fn view(&self) -> ConnectionV {
        ConnectionV {
            name: self.name@,
            source: match self.source {
                Some(t) => Some(t@),
                None => None,
            },
            target: match self.target {
                Some(t) => Some(t@),
                None => None,
            },
        }
    }
}

pub open spec fn empty_connection() -> ConnectionV {
    ConnectionV { name: Seq::empty(), source: None, target: None }
}

pub open spec fn reference_body(t: Option<TerminalReferenceV>) -> Option<Seq<u8>> {
    match t {
        Some(x) => Some(terminal_reference_bytes(x)),
        None => None,
    }
}

pub open spec fn connection_records(c: ConnectionV) -> Seq<Record> {
    string_records(1, c.name) + optional_records(2, reference_body(c.source)) + optional_records(
        3,
        reference_body(c.target),
    )
}

pub open spec fn connection_bytes(c: ConnectionV) -> Seq<u8> {
    records_bytes(connection_records(c))
}

/// The reference an embedded record is read over: the present one, else an
/// empty one.
pub open spec fn reference_base(t: Option<TerminalReferenceV>) -> TerminalReferenceV {
    match t {
        Some(x) => x,
        None => empty_terminal_reference(),
    }
}

pub open spec fn connection_apply(c: ConnectionV, f: Record) -> Option<ConnectionV> {
    if f.0 == 1 {
        match string_value(f.1) {
            Some(s) => Some(ConnectionV { name: s, ..c }),
            None => None,
        }
    } else if f.0 == 2 {
        match f.1 {
            WireValue::Bytes(b) => match terminal_reference_decode(reference_base(c.source), b) {
                Some(t) => Some(ConnectionV { source: Some(t), ..c }),
                None => None,
            },
            _ => None,
        }
    } else if f.0 == 3 {
        match f.1 {
            WireValue::Bytes(b) => match terminal_reference_decode(reference_base(c.target), b) {
                Some(t) => Some(ConnectionV { target: Some(t), ..c }),
                None => None,
            },
            _ => None,
        }
    } else {
        Some(c)
    }
}

pub open spec fn connection_step() -> spec_fn(ConnectionV, Record) -> Option<ConnectionV> {
    |c: ConnectionV, f: Record| connection_apply(c, f)
}

pub open spec fn connection_decode(c: ConnectionV, b: Seq<u8>) -> Option<ConnectionV> {
    match fields(b) {
        None => None,
        Some(fs) => merge_records(c, fs, connection_step()),
    }
}

pub open spec fn reference_fits(t: Option<TerminalReferenceV>) -> bool {
    match t {
        Some(x) => terminal_reference_fits(x) && body_fits(terminal_reference_bytes(x)),
        None => true,
    }
}

pub open spec fn connection_fits(c: ConnectionV) -> bool {
    fits(c.name) && reference_fits(c.source) && reference_fits(c.target)
}

proof fn lemma_optional_ok(tag: nat, b: Option<Seq<u8>>)
    requires
        1 <= tag < 0x2000_0000,
        b matches Some(x) ==> body_fits(x),
    ensures
        records_ok(optional_records(tag, b)),
{
}

proof fn lemma_reference_part(c: ConnectionV, tag: nat, t: Option<TerminalReferenceV>, set: ConnectionV)
    requires
        tag == 2 || tag == 3,
        reference_fits(t),
        t matches Some(x) ==> set == (if tag == 2 {
            ConnectionV { source: Some(x), ..c }
        } else {
            ConnectionV { target: Some(x), ..c }
        }),
        t is None ==> set == c,
        tag == 2 ==> c.source is None,
        tag == 3 ==> c.target is None,
    ensures
        merge_records(c, optional_records(tag, reference_body(t)), connection_step()) == Some(set),
{
    match t {
        Some(x) => {
            lemma_terminal_reference_round_trip(x);
            lemma_message_part(c, tag, terminal_reference_bytes(x), connection_step(), set);
        },
        None => {},
    }
}

/// A connection reads back as itself.
pub proof fn lemma_connection_round_trip(c: ConnectionV)
    requires
        connection_fits(c),
    ensures
        connection_decode(empty_connection(), connection_bytes(c)) == Some(c),
{
    let a = string_records(1, c.name);
    let b = optional_records(2, reference_body(c.source));
    let d = optional_records(3, reference_body(c.target));
    lemma_strings_ok(1, c.name);
    lemma_optional_ok(2, reference_body(c.source));
    lemma_optional_ok(3, reference_body(c.target));
    lemma_records_ok_concat(a, b);
    lemma_records_ok_concat(a + b, d);
    lemma_fields_records(a + b + d);
    let step = connection_step();
    let e = empty_connection();
    let m1 = ConnectionV { name: c.name, ..e };
    let m2 = ConnectionV { source: c.source, ..m1 };
    lemma_string_value(c.name);
    lemma_string_part(e, 1, c.name, step, m1);
    lemma_reference_part(m1, 2, c.source, m2);
    lemma_reference_part(m2, 3, c.target, c);
    lemma_merge_concat(e, a, b, step);
    lemma_merge_concat(e, a + b, d, step);
}

impl Connection {
    pub fn copy(&self) -> (r: Connection)
        ensures
            r@ == self@,
    {
        Connection {
            name: self.name.clone(),
            source: match &self.source {
                Some(t) => Some(t.copy()),
                None => None,
            },
            target: match &self.target {
                Some(t) => Some(t.copy()),
                None => None,
            },
        }
    }

    pub fn encode_into(&self, buf: &mut Vec<u8>)
        ensures
            final(buf)@ == old(buf)@ + connection_bytes(self@),
    {
        let ghost start = buf@;
        put_string_field(1, &self.name, buf);
        let ghost b1 = buf@;
        match &self.source {
            Some(t) => {
                let body = t.encode_to_vec();
                put_message_field(2, &body, buf);
            },
            None => {},
        }
        let ghost b2 = buf@;
        match &self.target {
            Some(t) => {
                let body = t.encode_to_vec();
                put_message_field(3, &body, buf);
            },
            None => {},
        }
        proof {
            let a = string_records(1, self@.name);
            let b = optional_records(2, reference_body(self@.source));
            let d = optional_records(3, reference_body(self@.target));
            lemma_string_field(1, self@.name);
            assert(b1 == start + records_bytes(a));
            assert(b2 =~= b1 + records_bytes(b));
            assert(buf@ =~= b2 + records_bytes(d));
            lemma_records_bytes_concat(a, b);
            lemma_records_bytes_concat(a + b, d);
            assert(buf@ =~= start + connection_bytes(self@));
        }
    }

    pub fn encode_to_vec(&self) -> (r: Vec<u8>)
        ensures
            r@ == connection_bytes(self@),
    {
        let mut buf: Vec<u8> = Vec::new();
        self.encode_into(&mut buf);
        proof {
            assert(buf@ =~= connection_bytes(self@));
        }
        buf
    }

    pub fn merge(&mut self, data: &[u8]) -> (r: Result<(), Error>)
        ensures
            match connection_decode(old(self)@, data@) {
                Some(c) => r is Ok && final(self)@ == c,
                None => r is Err,
            },
    {
        let fs = read_fields(data)?;
        let ghost fv = records_view(fs@);
        proof {
            assert(fv.skip(0) =~= fv);
        }
        let mut i: usize = 0;
        while i < fs.len()
            invariant
                i <= fs@.len(),
                fv == records_view(fs@),
                connection_decode(old(self)@, data@) == merge_records(self@, fv.skip(i as int), connection_step()),
            decreases fs@.len() - i,
        {
            proof {
                assert(fv.skip(i as int).drop_first() =~= fv.skip(i + 1));
                assert(fv.skip(i as int)[0] == (fs@[i as int].0 as nat, fs@[i as int].1@));
            }
            let (tag, f) = (fs[i].0, &fs[i].1);
            if tag == 1 {
                self.name = field_string(f)?;
            } else if tag == 2 {
                let body = field_body(f)?;
                let mut t = match &self.source {
                    Some(x) => x.copy(),
                    None => TerminalReference { instance_name: String::new(), terminal_name: String::new() },
                };
                proof {
                    assert(t@ == reference_base(self@.source));
                }
                t.merge(body.as_slice())?;
                self.source = Some(t);
            } else if tag == 3 {
                let body = field_body(f)?;
                let mut t = match &self.target {
                    Some(x) => x.copy(),
                    None => TerminalReference { instance_name: String::new(), terminal_name: String::new() },
                };
                proof {
                    assert(t@ == reference_base(self@.target));
                }
                t.merge(body.as_slice())?;
                self.target = Some(t);
            }
            i = i + 1;
        }
        Ok(())
    }

    pub fn decode(data: &[u8]) -> (r: Result<Connection, Error>)
        ensures
            match connection_decode(empty_connection(), data@) {
                Some(c) => r is Ok && r->Ok_0@ == c,
                None => r is Err,
            },
    {
        let mut c = Connection { name: String::new(), source: None, target: None };
        proof {
            assert(c@ =~= empty_connection());
        }
        c.merge(data)?;
        Ok(c)
    }
}

/// Records that take a message through a chain of states end in the last one.
pub proof fn lemma_chain<M>(ms: Seq<M>, rs: Seq<Record>, step: spec_fn(M, Record) -> Option<M>)
    requires
        ms.len() == rs.len() + 1,
        forall|i: int| 0 <= i < rs.len() ==> step(ms[i], #[trigger] rs[i]) == Some(ms[i + 1]),
    ensures
        merge_records(ms[0], rs, step) == Some(ms.last()),
    decreases rs.len(),
{
    if rs.len() > 0 {
        let ms1 = ms.drop_first();
        let rs1 = rs.drop_first();
        assert forall|i: int| 0 <= i < rs1.len() implies step(ms1[i], #[trigger] rs1[i]) == Some(ms1[i + 1]) by {
            assert(rs1[i] == rs[i + 1]);
        }
        assert(step(ms[0], rs[0]) == Some(ms[1]));
        lemma_chain(ms1, rs1, step);
    }
}

/// The records of a repeated embedded message field, one per element.
pub open spec fn repeated_records(tag: nat, bodies: Seq<Seq<u8>>) -> Seq<Record> {
    Seq::new(bodies.len(), |i: int| (tag, WireValue::Bytes(bodies[i])))
}

proof fn lemma_repeated_ok(tag: nat, bodies: Seq<Seq<u8>>)
    requires
        1 <= tag < 0x2000_0000,
        forall|i: int| 0 <= i < bodies.len() ==> body_fits(#[trigger] bodies[i]),
    ensures
        records_ok(repeated_records(tag, bodies)),
{
}

/// A port of a module.
#[derive(Clone, Debug, PartialEq, Eq, Default)]
pub struct Terminal {
    pub uid: u32,
    pub name: String,
}

#[verifier::ext_equal]
pub struct TerminalV {
    pub uid: u32,
    pub name: Seq<char>,
}

impl View for Terminal {
    type V = TerminalV;

    open spec fn view(&self) -> TerminalV {
        TerminalV { uid: self.uid, name: self.name@ }
    }
}

pub open spec fn empty_terminal() -> TerminalV {
    TerminalV { uid: 0, name: Seq::empty() }
}

pub open spec fn terminal_records(t: TerminalV) -> Seq<Record> {
    varint_records(1, t.uid as nat) + string_records(2, t.name)
}

pub open spec fn terminal_bytes(t: TerminalV) -> Seq<u8> {
    records_bytes(terminal_records(t))
}

pub open spec fn terminal_apply(t: TerminalV, f: Record) -> Option<TerminalV> {
    if f.0 == 1 {
        match f.1 {
            WireValue::Varint(v) => Some(TerminalV { uid: v as u32, ..t }),
            _ => None,
        }
    } else if f.0 == 2 {
        match string_value(f.1) {
            Some(s) => Some(TerminalV { name: s, ..t }),
            None => None,
        }
    } else {
        Some(t)
    }
}

pub open spec fn terminal_step() -> spec_fn(TerminalV, Record) -> Option<TerminalV> {
    |t: TerminalV, f: Record| terminal_apply(t, f)
}

pub open spec fn terminal_decode(t: TerminalV, b: Seq<u8>) -> Option<TerminalV> {
    match fields(b) {
        None => None,
        Some(fs) => merge_records(t, fs, terminal_step()),
    }
}

/// A terminal whose name fits its length field reads back as itself.
pub proof fn lemma_terminal_round_trip(t: TerminalV)
    requires
        fits(t.name),
    ensures
        terminal_decode(empty_terminal(), terminal_bytes(t)) == Some(t),
{
    let a = varint_records(1, t.uid as nat);
    let b = string_records(2, t.name);
    lemma_strings_ok(2, t.name);
    lemma_records_ok_concat(a, b);
    lemma_fields_records(a + b);
    let step = terminal_step();
    let e = empty_terminal();
    let m1 = TerminalV { uid: t.uid, ..e };
    if t.uid != 0 {
        lemma_merge_one(e, (1, WireValue::Varint(t.uid as nat)), step);
    }
    lemma_string_value(t.name);
    lemma_string_part(m1, 2, t.name, step, t);
    lemma_merge_concat(e, a, b, step);
}

impl Terminal {
    pub fn copy(&self) -> (r: Terminal)
        ensures
            r@ == self@,
    {
        Terminal { uid: self.uid, name: self.name.clone() }
    }

    pub fn encode_to_vec(&self) -> (r: Vec<u8>)
        ensures
            r@ == terminal_bytes(self@),
    {
        let mut buf: Vec<u8> = Vec::new();
        put_varint_field(1, self.uid as u64, &mut buf);
        let ghost b1 = buf@;
        put_string_field(2, &self.name, &mut buf);
        proof {
            lemma_string_field(2, self@.name);
            lemma_records_bytes_concat(varint_records(1, self.uid as nat), string_records(2, self@.name));
            assert(buf@ =~= terminal_bytes(self@));
        }
        buf
    }

    pub fn decode(data: &[u8]) -> (r: Result<Terminal, Error>)
        ensures
            match terminal_decode(empty_terminal(), data@) {
                Some(t) => r is Ok && r->Ok_0@ == t,
                None => r is Err,
            },
    {
        let mut t = Terminal { uid: 0, name: String::new() };
        let fs = read_fields(data)?;
        let ghost fv = records_view(fs@);
        proof {
            assert(fv.skip(0) =~= fv);
            assert(t@ =~= empty_terminal());
        }
        let mut i: usize = 0;
        while i < fs.len()
            invariant
                i <= fs@.len(),
                fv == records_view(fs@),
                terminal_decode(empty_terminal(), data@) == merge_records(t@, fv.skip(i as int), terminal_step()),
            decreases fs@.len() - i,
        {
            proof {
                assert(fv.skip(i as int).drop_first() =~= fv.skip(i + 1));
                assert(fv.skip(i as int)[0] == (fs@[i as int].0 as nat, fs@[i as int].1@));
            }
            let (tag, f) = (fs[i].0, &fs[i].1);
            if tag == 1 {
                let v = field_varint(f)?;
                t.uid = v as u32;
            } else if tag == 2 {
                t.name = field_string(f)?;
            }
            i = i + 1;
        }
        Ok(t)
    }
}

/// A number with an SI prefix; the number is held by its IEEE-754 bits.
#[derive(Clone, Copy, Debug, PartialEq, Eq, Default)]
pub struct PrefixedValue {
    pub double_bits: u64,
    pub prefix: i32,
}

/// Whether a double, by its bits, is zero (of either sign), which protobuf
/// leaves unwritten.
pub open spec fn is_zero_bits(x: u64) -> bool {
    x & 0x7fff_ffff_ffff_ffffu64 == 0
}

pub open spec fn prefixed_records(p: PrefixedValue) -> Seq<Record> {
    (if is_zero_bits(p.double_bits) {
        Seq::empty()
    } else {
        seq![(1nat, WireValue::Fixed64(le_bytes(p.double_bits)))]
    }) + varint_records(2, (p.prefix as u64) as nat)
}

pub open spec fn prefixed_bytes(p: PrefixedValue) -> Seq<u8> {
    records_bytes(prefixed_records(p))
}

pub open spec fn prefixed_apply(p: PrefixedValue, f: Record) -> Option<PrefixedValue> {
    if f.0 == 1 {
        match f.1 {
            WireValue::Fixed64(b) => if b.len() == 8 {
                Some(PrefixedValue { double_bits: le_value(b), ..p })
            } else {
                None
            },
            _ => None,
        }
    } else if f.0 == 2 {
        match f.1 {
            WireValue::Varint(v) => Some(PrefixedValue { prefix: v as i32, ..p }),
            _ => None,
        }
    } else {
        Some(p)
    }
}

pub open spec fn prefixed_step() -> spec_fn(PrefixedValue, Record) -> Option<PrefixedValue> {
    |p: PrefixedValue, f: Record| prefixed_apply(p, f)
}

pub open spec fn prefixed_decode(p: PrefixedValue, b: Seq<u8>) -> Option<PrefixedValue> {
    match fields(b) {
        None => None,
        Some(fs) => merge_records(p, fs, prefixed_step()),
    }
}

pub open spec fn empty_prefixed() -> PrefixedValue {
    PrefixedValue { double_bits: 0, prefix: 0 }
}

/// A prefixed value reads back as itself, except a negative zero, which
/// protobuf leaves unwritten and so reads back as zero.
pub proof fn lemma_prefixed_round_trip(p: PrefixedValue)
    requires
        p.double_bits != 0x8000_0000_0000_0000u64,
    ensures
        prefixed_decode(empty_prefixed(), prefixed_bytes(p)) == Some(p),
{
    let a = if is_zero_bits(p.double_bits) {
        Seq::<Record>::empty()
    } else {
        seq![(1nat, WireValue::Fixed64(le_bytes(p.double_bits)))]
    };
    let pv = (p.prefix as u64) as nat;
    let b = varint_records(2, pv);
    lemma_records_ok_concat(a, b);
    lemma_fields_records(a + b);
    let step = prefixed_step();
    let e = empty_prefixed();
    let m1 = PrefixedValue { double_bits: p.double_bits, ..e };
    let x = p.double_bits;
    if is_zero_bits(x) {
        assert(x == 0) by (bit_vector)
            requires
                x & 0x7fff_ffff_ffff_ffffu64 == 0,
                x != 0x8000_0000_0000_0000u64,
        ;
    } else {
        lemma_le_round_trip(x);
        lemma_merge_one(e, (1nat, WireValue::Fixed64(le_bytes(x))), step);
    }
    let q = p.prefix;
    assert(((q as u64) as i32) == q) by (bit_vector);
    assert((q as u64) == 0 <==> q == 0) by (bit_vector);
    if pv != 0 {
        lemma_merge_one(m1, (2nat, WireValue::Varint(pv)), step);
    }
    lemma_merge_concat(e, a, b, step);
}

impl PrefixedValue {
    pub fn encode_to_vec(&self) -> (r: Vec<u8>)
        ensures
            r@ == prefixed_bytes(*self),
    {
        let mut buf: Vec<u8> = Vec::new();
        if self.double_bits & 0x7fff_ffff_ffff_ffffu64 != 0 {
            put_fixed64_field(1, self.double_bits, &mut buf);
        }
        let ghost b1 = buf@;
        put_varint_field(2, self.prefix as u64, &mut buf);
        proof {
            let a = if is_zero_bits(self.double_bits) {
                Seq::<Record>::empty()
            } else {
                seq![(1nat, WireValue::Fixed64(le_bytes(self.double_bits)))]
            };
            assert(b1 =~= records_bytes(a));
            lemma_records_bytes_concat(a, varint_records(2, (self.prefix as u64) as nat));
            assert(buf@ =~= prefixed_bytes(*self));
        }
        buf
    }

    /// Read the fields of `data` over this value.
    pub fn merge(&mut self, data: &[u8]) -> (r: Result<(), Error>)
        ensures
            match prefixed_decode(*old(self), data@) {
                Some(p) => r is Ok && *final(self) == p,
                None => r is Err,
            },
    {
        let fs = read_fields(data)?;
        let ghost fv = records_view(fs@);
        proof {
            assert(fv.skip(0) =~= fv);
        }
        let mut i: usize = 0;
        while i < fs.len()
            invariant
                i <= fs@.len(),
                fv == records_view(fs@),
                prefixed_decode(*old(self), data@) == merge_records(*self, fv.skip(i as int), prefixed_step()),
            decreases fs@.len() - i,
        {
            proof {
                assert(fv.skip(i as int).drop_first() =~= fv.skip(i + 1));
                assert(fv.skip(i as int)[0] == (fs@[i as int].0 as nat, fs@[i as int].1@));
            }
            let (tag, f) = (fs[i].0, &fs[i].1);
            if tag == 1 {
                self.double_bits = field_fixed64(f)?;
            } else if tag == 2 {
                let v = field_varint(f)?;
                self.prefix = v as i32;
            }
            i = i + 1;
        }
        Ok(())
    }
}

/// What a parameter value holds: a prefixed number, or a reference to a
/// model, which this library keeps as the wire bytes of its message.
#[derive(Clone, Debug, PartialEq, Eq)]
pub enum ParameterKind {
    PrefixedValue(PrefixedValue),
    ModelRef(Vec<u8>),
}

pub enum ParameterKindV {
    PrefixedValue(PrefixedValue),
    ModelRef(Seq<u8>),
}

/// A parameter value: at most one of a prefixed number and a model reference.
#[derive(Clone, Debug, PartialEq, Eq, Default)]
pub struct ParameterValue {
    pub value: Option<ParameterKind>,
}

pub struct ParameterValueV {
    pub value: Option<ParameterKindV>,
}

impl View for ParameterValue {
    type V = ParameterValueV;

    open spec fn view(&self) -> ParameterValueV {
        ParameterValueV {
            value: match self.value {
                Some(ParameterKind::PrefixedValue(p)) => Some(ParameterKindV::PrefixedValue(p)),
                Some(ParameterKind::ModelRef(b)) => Some(ParameterKindV::ModelRef(b@)),
                None => None,
            },
        }
    }
}

/// The content of an optional parameter value.
pub open spec fn value_view(o: Option<ParameterValue>) -> Option<ParameterValueV> {
    match o {
        Some(v) => Some(v@),
        None => None,
    }
}

/// An identical copy of an optional parameter value.
pub fn copy_value(o: &Option<ParameterValue>) -> (r: Option<ParameterValue>)
    ensures
        value_view(r) == value_view(*o),
{
    match o {
        Some(v) => Some(v.copy()),
        None => None,
    }
}

pub open spec fn empty_parameter_value() -> ParameterValueV {
    ParameterValueV { value: None }
}

pub open spec fn parameter_value_records(v: ParameterValueV) -> Seq<Record> {
    match v.value {
        Some(ParameterKindV::PrefixedValue(p)) => message_records(1, prefixed_bytes(p)),
        Some(ParameterKindV::ModelRef(b)) => message_records(2, b),
        None => Seq::empty(),
    }
}

pub open spec fn parameter_value_bytes(v: ParameterValueV) -> Seq<u8> {
    records_bytes(parameter_value_records(v))
}

/// A prefixed number merges into the number already held (else into a zero
/// one); a model reference merges into the reference already held (else
/// starts one), its bytes being a well-formed message body. Either replaces
/// the other alternative.
pub open spec fn parameter_value_apply(v: ParameterValueV, f: Record) -> Option<ParameterValueV> {
    if f.0 == 1 {
        match f.1 {
            WireValue::Bytes(b) => match prefixed_decode(
                match v.value {
                    Some(ParameterKindV::PrefixedValue(p)) => p,
                    _ => empty_prefixed(),
                },
                b,
            ) {
                Some(p) => Some(ParameterValueV { value: Some(ParameterKindV::PrefixedValue(p)) }),
                None => None,
            },
            _ => None,
        }
    } else if f.0 == 2 {
        match f.1 {
            WireValue::Bytes(b) => if fields(b) is Some {
                Some(
                    ParameterValueV {
                        value: Some(
                            ParameterKindV::ModelRef(
                                match v.value {
                                    Some(ParameterKindV::ModelRef(x)) => x,
                                    _ => Seq::empty(),
                                } + b,
                            ),
                        ),
                    },
                )
            } else {
                None
            },
            _ => None,
        }
    } else {
        Some(v)
    }
}

pub open spec fn parameter_value_step() -> spec_fn(ParameterValueV, Record) -> Option<ParameterValueV> {
    |v: ParameterValueV, f: Record| parameter_value_apply(v, f)
}

pub open spec fn parameter_value_decode(v: ParameterValueV, b: Seq<u8>) -> Option<ParameterValueV> {
    match fields(b) {
        None => None,
        Some(fs) => merge_records(v, fs, parameter_value_step()),
    }
}

/// A value that reads back as itself: no prefixed negative zero, and a model
/// reference whose bytes are a well-formed message body.
pub open spec fn parameter_value_fits(v: ParameterValueV) -> bool {
    match v.value {
        Some(ParameterKindV::PrefixedValue(p)) => p.double_bits != 0x8000_0000_0000_0000u64,
        Some(ParameterKindV::ModelRef(b)) => fields(b) is Some && body_fits(b),
        None => true,
    }
}

pub proof fn lemma_prefixed_bytes_short(p: PrefixedValue)
    ensures
        body_fits(prefixed_bytes(p)),
{
    let a = if is_zero_bits(p.double_bits) {
        Seq::<Record>::empty()
    } else {
        seq![(1nat, WireValue::Fixed64(le_bytes(p.double_bits)))]
    };
    let b = varint_records(2, (p.prefix as u64) as nat);
    lemma_records_bytes_concat(a, b);
    if !is_zero_bits(p.double_bits) {
        lemma_one_record((1nat, WireValue::Fixed64(le_bytes(p.double_bits))));
        crate::wire::lemma_varint_small(crate::wire::key_value(1, 1));
    }
    if (p.prefix as u64) as nat != 0 {
        lemma_one_record((2nat, WireValue::Varint((p.prefix as u64) as nat)));
        crate::wire::lemma_varint_small(crate::wire::key_value(2, 0));
        crate::wire::lemma_varint_small((p.prefix as u64) as nat);
    }
}

/// A parameter value reads back as itself, except a prefixed negative zero,
/// which reads back as zero, and a model reference whose bytes are not a
/// well-formed message body.
pub proof fn lemma_parameter_value_round_trip(v: ParameterValueV)
    requires
        parameter_value_fits(v),
    ensures
        parameter_value_decode(empty_parameter_value(), parameter_value_bytes(v)) == Some(v),
{
    let rs = parameter_value_records(v);
    let e = empty_parameter_value();
    match v.value {
        Some(ParameterKindV::PrefixedValue(p)) => {
            lemma_prefixed_bytes_short(p);
            lemma_prefixed_round_trip(p);
            lemma_fields_records(rs);
            lemma_merge_one(e, (1nat, WireValue::Bytes(prefixed_bytes(p))), parameter_value_step());
        },
        Some(ParameterKindV::ModelRef(b)) => {
            lemma_fields_records(rs);
            assert(Seq::<u8>::empty() + b =~= b);
            lemma_merge_one(e, (2nat, WireValue::Bytes(b)), parameter_value_step());
        },
        None => {
            lemma_fields_records(rs);
        },
    }
}

impl ParameterValue {
    /// An identical copy.
    pub fn copy(&self) -> (r: ParameterValue)
        ensures
            r@ == self@,
    {
        match &self.value {
            Some(ParameterKind::PrefixedValue(p)) => ParameterValue { value: Some(ParameterKind::PrefixedValue(*p)) },
            Some(ParameterKind::ModelRef(b)) => ParameterValue {
                value: Some(ParameterKind::ModelRef(slice_to_vec(b.as_slice()))),
            },
            None => ParameterValue { value: None },
        }
    }

    pub fn encode_to_vec(&self) -> (r: Vec<u8>)
        ensures
            r@ == parameter_value_bytes(self@),
    {
        let mut buf: Vec<u8> = Vec::new();
        match &self.value {
            Some(ParameterKind::PrefixedValue(p)) => {
                let body = p.encode_to_vec();
                put_message_field(1, &body, &mut buf);
            },
            Some(ParameterKind::ModelRef(b)) => {
                put_message_field(2, b, &mut buf);
            },
            None => {},
        }
        proof {
            assert(buf@ =~= parameter_value_bytes(self@));
        }
        buf
    }

    pub fn merge(&mut self, data: &[u8]) -> (r: Result<(), Error>)
        ensures
            match parameter_value_decode(old(self)@, data@) {
                Some(v) => r is Ok && final(self)@ == v,
                None => r is Err,
            },
    {
        let fs = read_fields(data)?;
        let ghost fv = records_view(fs@);
        proof {
            assert(fv.skip(0) =~= fv);
        }
        let mut i: usize = 0;
        while i < fs.len()
            invariant
                i <= fs@.len(),
                fv == records_view(fs@),
                parameter_value_decode(old(self)@, data@) == merge_records(self@, fv.skip(i as int), parameter_value_step()),
            decreases fs@.len() - i,
        {
            proof {
                assert(fv.skip(i as int).drop_first() =~= fv.skip(i + 1));
                assert(fv.skip(i as int)[0] == (fs@[i as int].0 as nat, fs@[i as int].1@));
            }
            let (tag, f) = (fs[i].0, &fs[i].1);
            if tag == 1 {
                let body = field_body(f)?;
                let mut p = match &self.value {
                    Some(ParameterKind::PrefixedValue(p)) => *p,
                    _ => PrefixedValue { double_bits: 0, prefix: 0 },
                };
                p.merge(body.as_slice())?;
                self.value = Some(ParameterKind::PrefixedValue(p));
            } else if tag == 2 {
                let body = field_body(f)?;
                let _ = read_fields(body.as_slice())?;
                let mut bytes = match self.value.take() {
                    Some(ParameterKind::ModelRef(b)) => b,
                    _ => Vec::new(),
                };
                let ghost before = bytes@;
                let mut more = slice_to_vec(body.as_slice());
                bytes.append(&mut more);
                self.value = Some(ParameterKind::ModelRef(bytes));
            }
            i = i + 1;
        }
        Ok(())
    }
}

/// Map insertion by key: a present key takes the new value in place; a new
/// key goes to its sorted place.
pub open spec fn map_put<V>(e: Seq<(Seq<char>, V)>, k: Seq<char>, v: V) -> Seq<(Seq<char>, V)> {
    match vkey_index(e, k) {
        Some(i) => e.update(i, (k, v)),
        None => insert_sorted(e, (k, v)),
    }
}

/// Keys in strictly increasing order.
pub open spec fn keys_sorted<V>(e: Seq<(Seq<char>, V)>) -> bool {
    forall|i: int, j: int| 0 <= i < j < e.len() ==> str_lt(#[trigger] e[i].0, #[trigger] e[j].0)
}

/// Putting the entries of a sorted map in order, one by one, rebuilds it.
pub proof fn lemma_put_next<V>(e: Seq<(Seq<char>, V)>, n: int)
    requires
        keys_sorted(e),
        0 <= n < e.len(),
    ensures
        map_put(e.take(n), e[n].0, e[n].1) == e.take(n + 1),
{
    let t = e.take(n);
    let k = e[n].0;
    lemma_vkey_index(t, k);
    if vkey_index(t, k) is Some {
        let i = vkey_index(t, k)->0;
        assert(t[i] == e[i]);
        assert(str_lt(e[i].0, e[n].0));
        lemma_str_lt_irreflexive(k);
    }
    if n > 0 {
        assert(t.last() == e[n - 1]);
        assert(str_lt(e[n - 1].0, e[n].0));
        lemma_str_lt_asymmetric(e[n - 1].0, e[n].0);
    }
    assert(insert_sorted(t, (k, e[n].1)) == t.push((k, e[n].1)));
    assert(t.push(e[n]) =~= e.take(n + 1));
}

pub proof fn lemma_named_key_index<T: View>(e: Seq<(String, T)>, k: Seq<char>)
    ensures
        key_index(e, k) == vkey_index(named_view(e), k),
    decreases e.len(),
{
    if e.len() > 0 {
        assert(named_view(e.drop_first()) =~= named_view(e).drop_first());
        lemma_named_key_index(e.drop_first(), k);
    }
}

/// Insert by key: a present key takes the new value in place; a new key goes
/// to its sorted place.
pub fn put_entry<T: View>(m: &mut Vec<(String, T)>, k: String, v: T)
    ensures
        named_view(final(m)@) == map_put(named_view(old(m)@), k@, v@),
{
    proof {
        lemma_named_key_index(m@, k@);
        lemma_key_index(m@, k@);
    }
    match find_key(m, &k) {
        Some(i) => {
            let ghost before = m@;
            let ghost kv = (k@, v@);
            m.set(i, (k, v));
            proof {
                assert(named_view(m@) =~= named_view(before).update(i as int, kv));
            }
        },
        None => {
            insert_in_order(m, (k, v));
        },
    }
}

/// The entry of a string map has the layout of a terminal reference: key as
/// field 1, value as field 2.
pub open spec fn pair_of(k: Seq<char>, v: Seq<char>) -> TerminalReferenceV {
    TerminalReferenceV { instance_name: k, terminal_name: v }
}

pub open spec fn string_map_records(tag: nat, e: Seq<(Seq<char>, Seq<char>)>) -> Seq<Record> {
    repeated_records(tag, Seq::new(e.len(), |i: int| terminal_reference_bytes(pair_of(e[i].0, e[i].1))))
}

/// Reading a map entry record into a string map.
pub open spec fn string_map_apply(e: Seq<(Seq<char>, Seq<char>)>, v: WireValue) -> Option<Seq<(Seq<char>, Seq<char>)>> {
    match v {
        WireValue::Bytes(b) => match terminal_reference_decode(empty_terminal_reference(), b) {
            Some(t) => Some(map_put(e, t.instance_name, t.terminal_name)),
            None => None,
        },
        _ => None,
    }
}

pub open spec fn string_map_fits(e: Seq<(Seq<char>, Seq<char>)>) -> bool {
    &&& keys_sorted(e)
    &&& forall|i: int|
        0 <= i < e.len() ==> terminal_reference_fits(pair_of(#[trigger] e[i].0, e[i].1)) && body_fits(
            terminal_reference_bytes(pair_of(e[i].0, e[i].1)),
        )
}

/// Each entry record of a sorted string map, read over the entries before
/// it, adds exactly its entry.
pub proof fn lemma_string_map_entry(tag: nat, e: Seq<(Seq<char>, Seq<char>)>, i: int)
    requires
        string_map_fits(e),
        0 <= i < e.len(),
    ensures
        string_map_apply(e.take(i), string_map_records(tag, e)[i].1) == Some(e.take(i + 1)),
{
    let t = pair_of(e[i].0, e[i].1);
    assert(terminal_reference_fits(t) && body_fits(terminal_reference_bytes(t)));
    lemma_terminal_reference_round_trip(t);
    lemma_put_next(e, i);
}

pub proof fn lemma_string_map_ok(tag: nat, e: Seq<(Seq<char>, Seq<char>)>)
    requires
        1 <= tag < 0x2000_0000,
        string_map_fits(e),
    ensures
        records_ok(string_map_records(tag, e)),
{
    let bodies = Seq::new(e.len(), |i: int| terminal_reference_bytes(pair_of(e[i].0, e[i].1)));
    assert forall|i: int| 0 <= i < bodies.len() implies body_fits(#[trigger] bodies[i]) by {
        assert(terminal_reference_fits(pair_of(e[i].0, e[i].1)));
    }
    lemma_repeated_ok(tag, bodies);
}

pub proof fn lemma_records_push(rs: Seq<Record>, i: int)
    requires
        0 <= i < rs.len(),
    ensures
        records_bytes(rs.take(i + 1)) == records_bytes(rs.take(i)) + record_bytes(rs[i]),
{
    assert(rs.take(i + 1) =~= rs.take(i) + seq![rs[i]]);
    lemma_records_bytes_concat(rs.take(i), seq![rs[i]]);
    lemma_one_record(rs[i]);
}

/// The records of a string map, read over a message, set its map.
pub proof fn lemma_map_part<M>(
    m0: M,
    tag: nat,
    e: Seq<(Seq<char>, Seq<char>)>,
    step: spec_fn(M, Record) -> Option<M>,
    set: spec_fn(M, Seq<(Seq<char>, Seq<char>)>) -> M,
)
    requires
        string_map_fits(e),
        forall|i: int|
            0 <= i < e.len() ==> step(set(m0, e.take(i)), #[trigger] string_map_records(tag, e)[i]) == match string_map_apply(
                e.take(i),
                string_map_records(tag, e)[i].1,
            ) {
                Some(e2) => Some(set(m0, e2)),
                None => None,
            },
    ensures
        merge_records(set(m0, Seq::empty()), string_map_records(tag, e), step) == Some(set(m0, e)),
{
    let rs = string_map_records(tag, e);
    let ms = Seq::new(e.len() + 1, |i: int| set(m0, e.take(i)));
    assert forall|i: int| 0 <= i < rs.len() implies step(ms[i], #[trigger] rs[i]) == Some(ms[i + 1]) by {
        lemma_string_map_entry(tag, e, i);
        assert(step(set(m0, e.take(i)), string_map_records(tag, e)[i]) == Some(set(m0, e.take(i + 1))));
    }
    lemma_chain(ms, rs, step);
    assert(e.take(0) =~= Seq::<(Seq<char>, Seq<char>)>::empty());
    assert(e.take(e.len() as int) =~= e);
}

/// The records of a repeated message field, read over a message, append
/// its elements.
pub proof fn lemma_repeated_part<M, E>(
    m0: M,
    tag: nat,
    elems: Seq<E>,
    body: spec_fn(E) -> Seq<u8>,
    step: spec_fn(M, Record) -> Option<M>,
    set: spec_fn(M, Seq<E>) -> M,
)
    requires
        forall|i: int|
            0 <= i < elems.len() ==> step(set(m0, elems.take(i)), (tag, WireValue::Bytes(body(#[trigger] elems[i]))))
                == Some(set(m0, elems.take(i + 1))),
    ensures
        merge_records(set(m0, Seq::empty()), repeated_records(tag, Seq::new(elems.len(), |i: int| body(elems[i]))), step)
            == Some(set(m0, elems)),
{
    let rs = repeated_records(tag, Seq::new(elems.len(), |i: int| body(elems[i])));
    let ms = Seq::new(elems.len() + 1, |i: int| set(m0, elems.take(i)));
    assert forall|i: int| 0 <= i < rs.len() implies step(ms[i], #[trigger] rs[i]) == Some(ms[i + 1]) by {
        assert(rs[i] == (tag, WireValue::Bytes(body(elems[i]))));
    }
    lemma_chain(ms, rs, step);
    assert(elems.take(0) =~= Seq::<E>::empty());
    assert(elems.take(elems.len() as int) =~= elems);
}

/// The bytes of a string map entry.
pub fn pair_bytes(k: &String, v: &String) -> (r: Vec<u8>)
    ensures
        r@ == terminal_reference_bytes(pair_of(k@, v@)),
{
    let mut buf: Vec<u8> = Vec::new();
    put_string_field(1, k, &mut buf);
    put_string_field(2, v, &mut buf);
    proof {
        lemma_concat_string_fields(1, k@, 2, v@);
        assert(buf@ =~= terminal_reference_bytes(pair_of(k@, v@)));
    }
    buf
}

/// Append a string map's entries as records of field `tag`, in order.
pub fn put_string_map(tag: u32, m: &Vec<(String, String)>, buf: &mut Vec<u8>)
    requires
        1 <= tag < 0x2000_0000,
    ensures
        final(buf)@ == old(buf)@ + records_bytes(string_map_records(tag as nat, named_view(m@))),
{
    let ghost rs = string_map_records(tag as nat, named_view(m@));
    let mut i: usize = 0;
    proof {
        assert(rs.take(0) =~= Seq::<Record>::empty());
        assert(old(buf)@ + Seq::<u8>::empty() =~= old(buf)@);
    }
    while i < m.len()
        invariant
            i <= m@.len(),
            1 <= tag < 0x2000_0000,
            rs == string_map_records(tag as nat, named_view(m@)),
            buf@ == old(buf)@ + records_bytes(rs.take(i as int)),
        decreases m@.len() - i,
    {
        let body = pair_bytes(&m[i].0, &m[i].1);
        let ghost before = buf@;
        put_message_field(tag, &body, buf);
        proof {
            lemma_records_push(rs, i as int);
            lemma_one_record((tag as nat, WireValue::Bytes(body@)));
            assert(rs[i as int] == (tag as nat, WireValue::Bytes(body@)));
            assert(buf@ =~= old(buf)@ + records_bytes(rs.take(i + 1)));
        }
        i = i + 1;
    }
    proof {
        assert(rs.take(i as int) =~= rs);
    }
}

/// Read a string map entry record into a map.
pub fn merge_string_entry(m: &mut Vec<(String, String)>, f: &WireField) -> (r: Result<(), Error>)
    ensures
        match string_map_apply(named_view(old(m)@), f@) {
            Some(e) => r is Ok && named_view(final(m)@) == e,
            None => r is Err,
        },
{
    let body = field_body(f)?;
    let entry = TerminalReference::decode(body.as_slice())?;
    put_entry(m, entry.instance_name, entry.terminal_name);
    Ok(())
}

/// A parameter of a module: its id, name, default value and properties.
#[derive(Clone, Debug, PartialEq, Eq, Default)]
pub struct Parameter {
    pub uid: u32,
    pub name: String,
    pub default_value: Option<ParameterValue>,
    pub properties: Vec<(String, String)>,
}

#[verifier::ext_equal]
pub struct ParameterV {
    pub uid: u32,
    pub name: Seq<char>,
    pub default_value: Option<ParameterValueV>,
    pub properties: Seq<(Seq<char>, Seq<char>)>,
}

impl View for Parameter {
    type V = ParameterV;

    open spec fn view(&self) -> ParameterV {
        ParameterV {
            uid: self.uid,
            name: self.name@,
            default_value: match self.default_value {
                Some(v) => Some(v@),
                None => None,
            },
            properties: named_view(self.properties@),
        }
    }
}

pub open spec fn empty_parameter() -> ParameterV {
    ParameterV { uid: 0, name: Seq::empty(), default_value: None, properties: Seq::empty() }
}

pub open spec fn value_body(v: Option<ParameterValueV>) -> Option<Seq<u8>> {
    match v {
        Some(x) => Some(parameter_value_bytes(x)),
        None => None,
    }
}

pub open spec fn parameter_records(p: ParameterV) -> Seq<Record> {
    varint_records(1, p.uid as nat) + string_records(2, p.name) + optional_records(3, value_body(p.default_value))
        + string_map_records(5, p.properties)
}

pub open spec fn parameter_bytes(p: ParameterV) -> Seq<u8> {
    records_bytes(parameter_records(p))
}

pub open spec fn value_base(v: Option<ParameterValueV>) -> ParameterValueV {
    match v {
        Some(x) => x,
        None => empty_parameter_value(),
    }
}

pub open spec fn parameter_apply(p: ParameterV, f: Record) -> Option<ParameterV> {
    if f.0 == 1 {
        match f.1 {
            WireValue::Varint(v) => Some(ParameterV { uid: v as u32, ..p }),
            _ => None,
        }
    } else if f.0 == 2 {
        match string_value(f.1) {
            Some(s) => Some(ParameterV { name: s, ..p }),
            None => None,
        }
    } else if f.0 == 3 {
        match f.1 {
            WireValue::Bytes(b) => match parameter_value_decode(value_base(p.default_value), b) {
                Some(v) => Some(ParameterV { default_value: Some(v), ..p }),
                None => None,
            },
            _ => None,
        }
    } else if f.0 == 5 {
        match string_map_apply(p.properties, f.1) {
            Some(e) => Some(ParameterV { properties: e, ..p }),
            None => None,
        }
    } else {
        Some(p)
    }
}

pub open spec fn parameter_step() -> spec_fn(ParameterV, Record) -> Option<ParameterV> {
    |p: ParameterV, f: Record| parameter_apply(p, f)
}

pub open spec fn parameter_decode(p: ParameterV, b: Seq<u8>) -> Option<ParameterV> {
    match fields(b) {
        None => None,
        Some(fs) => merge_records(p, fs, parameter_step()),
    }
}

pub open spec fn value_fits(v: Option<ParameterValueV>) -> bool {
    match v {
        Some(x) => parameter_value_fits(x) && body_fits(parameter_value_bytes(x)),
        None => true,
    }
}

pub open spec fn parameter_fits(p: ParameterV) -> bool {
    fits(p.name) && value_fits(p.default_value) && string_map_fits(p.properties)
}

/// A parameter whose texts fit their length fields and whose properties are a
/// sorted map reads back as itself.
pub proof fn lemma_parameter_round_trip(p: ParameterV)
    requires
        parameter_fits(p),
    ensures
        parameter_decode(empty_parameter(), parameter_bytes(p)) == Some(p),
{
    let a = varint_records(1, p.uid as nat);
    let b = string_records(2, p.name);
    let c = optional_records(3, value_body(p.default_value));
    let d = string_map_records(5, p.properties);
    lemma_strings_ok(2, p.name);
    lemma_optional_ok(3, value_body(p.default_value));
    lemma_string_map_ok(5, p.properties);
    lemma_records_ok_concat(a, b);
    lemma_records_ok_concat(a + b, c);
    lemma_records_ok_concat(a + b + c, d);
    lemma_fields_records(a + b + c + d);
    let step = parameter_step();
    let e = empty_parameter();
    let m1 = ParameterV { uid: p.uid, ..e };
    let m2 = ParameterV { name: p.name, ..m1 };
    let m3 = ParameterV { default_value: p.default_value, ..m2 };
    if p.uid != 0 {
        lemma_merge_one(e, (1, WireValue::Varint(p.uid as nat)), step);
    }
    lemma_string_value(p.name);
    lemma_string_part(m1, 2, p.name, step, m2);
    match p.default_value {
        Some(v) => {
            lemma_parameter_value_round_trip(v);
            lemma_message_part(m2, 3, parameter_value_bytes(v), step, m3);
        },
        None => {},
    }
    let set = |m: ParameterV, x: Seq<(Seq<char>, Seq<char>)>| ParameterV { properties: x, ..m };
    assert(set(m3, Seq::empty()) == m3);
    assert(set(m3, p.properties) =~= p);
    lemma_map_part(m3, 5, p.properties, step, set);
    lemma_merge_concat(e, a, b, step);
    lemma_merge_concat(e, a + b, c, step);
    lemma_merge_concat(e, a + b + c, d, step);
}

impl Parameter {
    pub fn encode_to_vec(&self) -> (r: Vec<u8>)
        ensures
            r@ == parameter_bytes(self@),
    {
        let mut buf: Vec<u8> = Vec::new();
        put_varint_field(1, self.uid as u64, &mut buf);
        let ghost b1 = buf@;
        put_string_field(2, &self.name, &mut buf);
        let ghost b2 = buf@;
        match &self.default_value {
            Some(v) => {
                let body = v.encode_to_vec();
                put_message_field(3, &body, &mut buf);
            },
            None => {},
        }
        let ghost b3 = buf@;
        put_string_map(5, &self.properties, &mut buf);
        proof {
            let a = varint_records(1, self.uid as nat);
            let b = string_records(2, self@.name);
            let c = optional_records(3, value_body(self@.default_value));
            let d = string_map_records(5, self@.properties);
            lemma_string_field(2, self@.name);
            assert(b1 =~= records_bytes(a));
            assert(b2 =~= records_bytes(a) + records_bytes(b));
            assert(b3 =~= records_bytes(a) + records_bytes(b) + records_bytes(c));
            lemma_records_bytes_concat(a, b);
            lemma_records_bytes_concat(a + b, c);
            lemma_records_bytes_concat(a + b + c, d);
            assert(buf@ =~= parameter_bytes(self@));
        }
        buf
    }

    pub fn decode(data: &[u8]) -> (r: Result<Parameter, Error>)
        ensures
            match parameter_decode(empty_parameter(), data@) {
                Some(p) => r is Ok && r->Ok_0@ == p,
                None => r is Err,
            },
    {
        let mut p = Parameter { uid: 0, name: String::new(), default_value: None, properties: Vec::new() };
        let fs = read_fields(data)?;
        let ghost fv = records_view(fs@);
        proof {
            assert(fv.skip(0) =~= fv);
            assert(p@ =~= empty_parameter());
        }
        let mut i: usize = 0;
        while i < fs.len()
            invariant
                i <= fs@.len(),
                fv == records_view(fs@),
                parameter_decode(empty_parameter(), data@) == merge_records(p@, fv.skip(i as int), parameter_step()),
            decreases fs@.len() - i,
        {
            proof {
                assert(fv.skip(i as int).drop_first() =~= fv.skip(i + 1));
                assert(fv.skip(i as int)[0] == (fs@[i as int].0 as nat, fs@[i as int].1@));
            }
            let (tag, f) = (fs[i].0, &fs[i].1);
            if tag == 1 {
                let v = field_varint(f)?;
                p.uid = v as u32;
            } else if tag == 2 {
                p.name = field_string(f)?;
            } else if tag == 3 {
                let body = field_body(f)?;
                let mut v = match p.default_value.take() {
                    Some(v) => v,
                    None => ParameterValue { value: None },
                };
                v.merge(body.as_slice())?;
                p.default_value = Some(v);
            } else if tag == 5 {
                merge_string_entry(&mut p.properties, f)?;
            }
            i = i + 1;
        }
        Ok(p)
    }
}

/// The records of a parameter-value map entry: its key, and its value unless
/// the value is empty.
pub open spec fn value_entry_records(k: Seq<char>, v: ParameterValueV) -> Seq<Record> {
    string_records(1, k) + optional_records(
        2,
        if v.value is None {
            None
        } else {
            Some(parameter_value_bytes(v))
        },
    )
}

pub open spec fn value_entry_bytes(k: Seq<char>, v: ParameterValueV) -> Seq<u8> {
    records_bytes(value_entry_records(k, v))
}

pub open spec fn value_entry_apply(x: (Seq<char>, ParameterValueV), f: Record) -> Option<(Seq<char>, ParameterValueV)> {
    if f.0 == 1 {
        match string_value(f.1) {
            Some(s) => Some((s, x.1)),
            None => None,
        }
    } else if f.0 == 2 {
        match f.1 {
            WireValue::Bytes(b) => match parameter_value_decode(x.1, b) {
                Some(v) => Some((x.0, v)),
                None => None,
            },
            _ => None,
        }
    } else {
        Some(x)
    }
}

pub open spec fn value_entry_step() -> spec_fn((Seq<char>, ParameterValueV), Record) -> Option<(Seq<char>, ParameterValueV)> {
    |x: (Seq<char>, ParameterValueV), f: Record| value_entry_apply(x, f)
}

pub open spec fn value_entry_decode(b: Seq<u8>) -> Option<(Seq<char>, ParameterValueV)> {
    match fields(b) {
        None => None,
        Some(fs) => merge_records((Seq::<char>::empty(), empty_parameter_value()), fs, value_entry_step()),
    }
}

pub open spec fn value_entry_fits(k: Seq<char>, v: ParameterValueV) -> bool {
    fits(k) && parameter_value_fits(v) && body_fits(parameter_value_bytes(v)) && body_fits(value_entry_bytes(k, v))
}

pub proof fn lemma_value_entry_round_trip(k: Seq<char>, v: ParameterValueV)
    requires
        value_entry_fits(k, v),
    ensures
        value_entry_decode(value_entry_bytes(k, v)) == Some((k, v)),
{
    let a = string_records(1, k);
    let ob = if v.value is None {
        None
    } else {
        Some(parameter_value_bytes(v))
    };
    let b = optional_records(2, ob);
    lemma_strings_ok(1, k);
    lemma_optional_ok(2, ob);
    lemma_records_ok_concat(a, b);
    lemma_fields_records(a + b);
    let step = value_entry_step();
    let e = (Seq::<char>::empty(), empty_parameter_value());
    lemma_string_value(k);
    lemma_string_part(e, 1, k, step, (k, e.1));
    if v.value is Some {
        lemma_parameter_value_round_trip(v);
        lemma_message_part((k, e.1), 2, parameter_value_bytes(v), step, (k, v));
    }
    lemma_merge_concat(e, a, b, step);
}

pub open spec fn value_map_records(tag: nat, e: Seq<(Seq<char>, ParameterValueV)>) -> Seq<Record> {
    repeated_records(tag, Seq::new(e.len(), |i: int| value_entry_bytes(e[i].0, e[i].1)))
}

pub open spec fn value_map_apply(e: Seq<(Seq<char>, ParameterValueV)>, v: WireValue) -> Option<Seq<(Seq<char>, ParameterValueV)>> {
    match v {
        WireValue::Bytes(b) => match value_entry_decode(b) {
            Some(x) => Some(map_put(e, x.0, x.1)),
            None => None,
        },
        _ => None,
    }
}

pub open spec fn value_map_fits(e: Seq<(Seq<char>, ParameterValueV)>) -> bool {
    &&& keys_sorted(e)
    &&& forall|i: int| 0 <= i < e.len() ==> value_entry_fits(#[trigger] e[i].0, e[i].1)
}

pub proof fn lemma_value_map_part<M>(
    m0: M,
    tag: nat,
    e: Seq<(Seq<char>, ParameterValueV)>,
    step: spec_fn(M, Record) -> Option<M>,
    set: spec_fn(M, Seq<(Seq<char>, ParameterValueV)>) -> M,
)
    requires
        value_map_fits(e),
        forall|i: int|
            0 <= i < e.len() ==> step(set(m0, e.take(i)), #[trigger] value_map_records(tag, e)[i]) == match value_map_apply(
                e.take(i),
                value_map_records(tag, e)[i].1,
            ) {
                Some(e2) => Some(set(m0, e2)),
                None => None,
            },
    ensures
        merge_records(set(m0, Seq::empty()), value_map_records(tag, e), step) == Some(set(m0, e)),
{
    let rs = value_map_records(tag, e);
    let ms = Seq::new(e.len() + 1, |i: int| set(m0, e.take(i)));
    assert forall|i: int| 0 <= i < rs.len() implies step(ms[i], #[trigger] rs[i]) == Some(ms[i + 1]) by {
        assert(value_entry_fits(e[i].0, e[i].1));
        lemma_value_entry_round_trip(e[i].0, e[i].1);
        lemma_put_next(e, i);
        assert(step(set(m0, e.take(i)), value_map_records(tag, e)[i]) == Some(set(m0, e.take(i + 1))));
    }
    lemma_chain(ms, rs, step);
    assert(e.take(0) =~= Seq::<(Seq<char>, ParameterValueV)>::empty());
    assert(e.take(e.len() as int) =~= e);
}

pub proof fn lemma_value_map_ok(tag: nat, e: Seq<(Seq<char>, ParameterValueV)>)
    requires
        1 <= tag < 0x2000_0000,
        value_map_fits(e),
    ensures
        records_ok(value_map_records(tag, e)),
{
    let bodies = Seq::new(e.len(), |i: int| value_entry_bytes(e[i].0, e[i].1));
    assert forall|i: int| 0 <= i < bodies.len() implies body_fits(#[trigger] bodies[i]) by {
        assert(value_entry_fits(e[i].0, e[i].1));
    }
    lemma_repeated_ok(tag, bodies);
}

fn value_entry_to_vec(k: &String, v: &ParameterValue) -> (r: Vec<u8>)
    ensures
        r@ == value_entry_bytes(k@, v@),
{
    let mut buf: Vec<u8> = Vec::new();
    put_string_field(1, k, &mut buf);
    let ghost b1 = buf@;
    if v.value.is_some() {
        let body = v.encode_to_vec();
        put_message_field(2, &body, &mut buf);
    }
    proof {
        let a = string_records(1, k@);
        let ob = if v.value is None {
            None
        } else {
            Some(parameter_value_bytes(v@))
        };
        lemma_string_field(1, k@);
        assert(buf@ =~= records_bytes(a) + records_bytes(optional_records(2, ob)));
        lemma_records_bytes_concat(a, optional_records(2, ob));
    }
    buf
}

fn put_value_map(tag: u32, m: &Vec<(String, ParameterValue)>, buf: &mut Vec<u8>)
    requires
        1 <= tag < 0x2000_0000,
    ensures
        final(buf)@ == old(buf)@ + records_bytes(value_map_records(tag as nat, named_view(m@))),
{
    let ghost rs = value_map_records(tag as nat, named_view(m@));
    let mut i: usize = 0;
    proof {
        assert(rs.take(0) =~= Seq::<Record>::empty());
        assert(old(buf)@ + Seq::<u8>::empty() =~= old(buf)@);
    }
    while i < m.len()
        invariant
            i <= m@.len(),
            1 <= tag < 0x2000_0000,
            rs == value_map_records(tag as nat, named_view(m@)),
            buf@ == old(buf)@ + records_bytes(rs.take(i as int)),
        decreases m@.len() - i,
    {
        let body = value_entry_to_vec(&m[i].0, &m[i].1);
        put_message_field(tag, &body, buf);
        proof {
            lemma_records_push(rs, i as int);
            lemma_one_record((tag as nat, WireValue::Bytes(body@)));
            assert(rs[i as int] == (tag as nat, WireValue::Bytes(body@)));
            assert(buf@ =~= old(buf)@ + records_bytes(rs.take(i + 1)));
        }
        i = i + 1;
    }
    proof {
        assert(rs.take(i as int) =~= rs);
    }
}

fn merge_value_entry(m: &mut Vec<(String, ParameterValue)>, f: &WireField) -> (r: Result<(), Error>)
    ensures
        match value_map_apply(named_view(old(m)@), f@) {
            Some(e) => r is Ok && named_view(final(m)@) == e,
            None => r is Err,
        },
{
    let body = field_body(f)?;
    let fs = read_fields(body.as_slice())?;
    let ghost fv = records_view(fs@);
    let mut key = String::new();
    let mut value = ParameterValue { value: None };
    proof {
        assert(fv.skip(0) =~= fv);
    }
    let mut i: usize = 0;
    while i < fs.len()
        invariant
            i <= fs@.len(),
            fv == records_view(fs@),
            value_entry_decode(body@) == merge_records((key@, value@), fv.skip(i as int), value_entry_step()),
            f@ == WireValue::Bytes(body@),
            *m == *old(m),
        decreases fs@.len() - i,
    {
        proof {
            assert(fv.skip(i as int).drop_first() =~= fv.skip(i + 1));
            assert(fv.skip(i as int)[0] == (fs@[i as int].0 as nat, fs@[i as int].1@));
        }
        let (tag, g) = (fs[i].0, &fs[i].1);
        if tag == 1 {
            key = field_string(g)?;
        } else if tag == 2 {
            let b = field_body(g)?;
            value.merge(b.as_slice())?;
        }
        i = i + 1;
    }
    put_entry(m, key, value);
    Ok(())
}

/// An instance of a module in another: its name, the module it places, the
/// parameter values it overrides and its properties.
#[derive(Clone, Debug, PartialEq, Eq, Default)]
pub struct ModuleReference {
    pub name: String,
    pub module_name: String,
    pub parameter_overrides: Vec<(String, ParameterValue)>,
    pub properties: Vec<(String, String)>,
}

#[verifier::ext_equal]
pub struct ModuleReferenceV {
    pub name: Seq<char>,
    pub module_name: Seq<char>,
    pub parameter_overrides: Seq<(Seq<char>, ParameterValueV)>,
    pub properties: Seq<(Seq<char>, Seq<char>)>,
}

impl View for ModuleReference {
    type V = ModuleReferenceV;

    open spec fn view(&self) -> ModuleReferenceV {
        ModuleReferenceV {
            name: self.name@,
            module_name: self.module_name@,
            parameter_overrides: named_view(self.parameter_overrides@),
            properties: named_view(self.properties@),
        }
    }
}

pub open spec fn empty_module_reference() -> ModuleReferenceV {
    ModuleReferenceV {
        name: Seq::empty(),
        module_name: Seq::empty(),
        parameter_overrides: Seq::empty(),
        properties: Seq::empty(),
    }
}

pub open spec fn module_reference_records(r: ModuleReferenceV) -> Seq<Record> {
    string_records(1, r.name) + string_records(2, r.module_name) + value_map_records(5, r.parameter_overrides)
        + string_map_records(6, r.properties)
}

pub open spec fn module_reference_bytes(r: ModuleReferenceV) -> Seq<u8> {
    records_bytes(module_reference_records(r))
}

pub open spec fn module_reference_apply(r: ModuleReferenceV, f: Record) -> Option<ModuleReferenceV> {
    if f.0 == 1 {
        match string_value(f.1) {
            Some(s) => Some(ModuleReferenceV { name: s, ..r }),
            None => None,
        }
    } else if f.0 == 2 {
        match string_value(f.1) {
            Some(s) => Some(ModuleReferenceV { module_name: s, ..r }),
            None => None,
        }
    } else if f.0 == 5 {
        match value_map_apply(r.parameter_overrides, f.1) {
            Some(e) => Some(ModuleReferenceV { parameter_overrides: e, ..r }),
            None => None,
        }
    } else if f.0 == 6 {
        match string_map_apply(r.properties, f.1) {
            Some(e) => Some(ModuleReferenceV { properties: e, ..r }),
            None => None,
        }
    } else {
        Some(r)
    }
}

pub open spec fn module_reference_step() -> spec_fn(ModuleReferenceV, Record) -> Option<ModuleReferenceV> {
    |r: ModuleReferenceV, f: Record| module_reference_apply(r, f)
}

pub open spec fn module_reference_decode(r: ModuleReferenceV, b: Seq<u8>) -> Option<ModuleReferenceV> {
    match fields(b) {
        None => None,
        Some(fs) => merge_records(r, fs, module_reference_step()),
    }
}

pub open spec fn module_reference_fits(r: ModuleReferenceV) -> bool {
    fits(r.name) && fits(r.module_name) && value_map_fits(r.parameter_overrides) && string_map_fits(r.properties)
}

/// A module reference whose texts fit their length fields and whose overrides
/// and properties are sorted maps reads back as itself.
pub proof fn lemma_module_reference_round_trip(r: ModuleReferenceV)
    requires
        module_reference_fits(r),
    ensures
        module_reference_decode(empty_module_reference(), module_reference_bytes(r)) == Some(r),
{
    let a = string_records(1, r.name);
    let b = string_records(2, r.module_name);
    let c = value_map_records(5, r.parameter_overrides);
    let d = string_map_records(6, r.properties);
    lemma_strings_ok(1, r.name);
    lemma_strings_ok(2, r.module_name);
    lemma_value_map_ok(5, r.parameter_overrides);
    lemma_string_map_ok(6, r.properties);
    lemma_records_ok_concat(a, b);
    lemma_records_ok_concat(a + b, c);
    lemma_records_ok_concat(a + b + c, d);
    lemma_fields_records(a + b + c + d);
    let step = module_reference_step();
    let e = empty_module_reference();
    let m1 = ModuleReferenceV { name: r.name, ..e };
    let m2 = ModuleReferenceV { module_name: r.module_name, ..m1 };
    let m3 = ModuleReferenceV { parameter_overrides: r.parameter_overrides, ..m2 };
    lemma_string_value(r.name);
    lemma_string_value(r.module_name);
    lemma_string_part(e, 1, r.name, step, m1);
    lemma_string_part(m1, 2, r.module_name, step, m2);
    let set1 = |m: ModuleReferenceV, x: Seq<(Seq<char>, ParameterValueV)>| ModuleReferenceV { parameter_overrides: x, ..m };
    assert(set1(m2, Seq::empty()) == m2);
    assert(set1(m2, r.parameter_overrides) == m3);
    lemma_value_map_part(m2, 5, r.parameter_overrides, step, set1);
    let set2 = |m: ModuleReferenceV, x: Seq<(Seq<char>, Seq<char>)>| ModuleReferenceV { properties: x, ..m };
    assert(set2(m3, Seq::empty()) == m3);
    assert(set2(m3, r.properties) =~= r);
    lemma_map_part(m3, 6, r.properties, step, set2);
    lemma_merge_concat(e, a, b, step);
    lemma_merge_concat(e, a + b, c, step);
    lemma_merge_concat(e, a + b + c, d, step);
}

impl ModuleReference {
    pub fn encode_to_vec(&self) -> (r: Vec<u8>)
        ensures
            r@ == module_reference_bytes(self@),
    {
        let mut buf: Vec<u8> = Vec::new();
        put_string_field(1, &self.name, &mut buf);
        let ghost b1 = buf@;
        put_string_field(2, &self.module_name, &mut buf);
        let ghost b2 = buf@;
        put_value_map(5, &self.parameter_overrides, &mut buf);
        let ghost b3 = buf@;
        put_string_map(6, &self.properties, &mut buf);
        proof {
            let a = string_records(1, self@.name);
            let b = string_records(2, self@.module_name);
            let c = value_map_records(5, self@.parameter_overrides);
            let d = string_map_records(6, self@.properties);
            lemma_string_field(1, self@.name);
            lemma_string_field(2, self@.module_name);
            assert(b3 =~= records_bytes(a) + records_bytes(b) + records_bytes(c));
            lemma_records_bytes_concat(a, b);
            lemma_records_bytes_concat(a + b, c);
            lemma_records_bytes_concat(a + b + c, d);
            assert(buf@ =~= module_reference_bytes(self@));
        }
        buf
    }

    pub fn decode(data: &[u8]) -> (r: Result<ModuleReference, Error>)
        ensures
            match module_reference_decode(empty_module_reference(), data@) {
                Some(m) => r is Ok && r->Ok_0@ == m,
                None => r is Err,
            },
    {
        let mut m = ModuleReference {
            name: String::new(),
            module_name: String::new(),
            parameter_overrides: Vec::new(),
            properties: Vec::new(),
        };
        let fs = read_fields(data)?;
        let ghost fv = records_view(fs@);
        proof {
            assert(fv.skip(0) =~= fv);
            assert(m@ =~= empty_module_reference());
        }
        let mut i: usize = 0;
        while i < fs.len()
            invariant
                i <= fs@.len(),
                fv == records_view(fs@),
                module_reference_decode(empty_module_reference(), data@) == merge_records(
                    m@,
                    fv.skip(i as int),
                    module_reference_step(),
                ),
            decreases fs@.len() - i,
        {
            proof {
                assert(fv.skip(i as int).drop_first() =~= fv.skip(i + 1));
                assert(fv.skip(i as int)[0] == (fs@[i as int].0 as nat, fs@[i as int].1@));
            }
            let (tag, f) = (fs[i].0, &fs[i].1);
            if tag == 1 {
                m.name = field_string(f)?;
            } else if tag == 2 {
                m.module_name = field_string(f)?;
            } else if tag == 5 {
                merge_value_entry(&mut m.parameter_overrides, f)?;
            } else if tag == 6 {
                merge_string_entry(&mut m.properties, f)?;
            }
            i = i + 1;
        }
        Ok(m)
    }
}

/// A group of connections, with its properties.
#[derive(Clone, Debug, PartialEq, Eq, Default)]
pub struct Bus {
    pub name: String,
    pub connections: Vec<Connection>,
    pub properties: Vec<(String, String)>,
}

#[verifier::ext_equal]
pub struct BusV {
    pub name: Seq<char>,
    pub connections: Seq<ConnectionV>,
    pub properties: Seq<(Seq<char>, Seq<char>)>,
}

pub open spec fn connections_view(v: Seq<Connection>) -> Seq<ConnectionV> {
    Seq::new(v.len(), |i: int| v[i]@)
}

impl View for Bus {
    type V = BusV;

    open spec fn view(&self) -> BusV {
        BusV {
            name: self.name@,
            connections: connections_view(self.connections@),
            properties: named_view(self.properties@),
        }
    }
}

pub open spec fn empty_bus() -> BusV {
    BusV { name: Seq::empty(), connections: Seq::empty(), properties: Seq::empty() }
}

pub open spec fn bus_records(b: BusV) -> Seq<Record> {
    string_records(1, b.name) + repeated_records(4, Seq::new(b.connections.len(), |i: int| connection_bytes(b.connections[i])))
        + string_map_records(5, b.properties)
}

pub open spec fn bus_bytes(b: BusV) -> Seq<u8> {
    records_bytes(bus_records(b))
}

pub open spec fn bus_apply(b: BusV, f: Record) -> Option<BusV> {
    if f.0 == 1 {
        match string_value(f.1) {
            Some(s) => Some(BusV { name: s, ..b }),
            None => None,
        }
    } else if f.0 == 4 {
        match f.1 {
            WireValue::Bytes(x) => match connection_decode(empty_connection(), x) {
                Some(c) => Some(BusV { connections: b.connections.push(c), ..b }),
                None => None,
            },
            _ => None,
        }
    } else if f.0 == 5 {
        match string_map_apply(b.properties, f.1) {
            Some(e) => Some(BusV { properties: e, ..b }),
            None => None,
        }
    } else {
        Some(b)
    }
}

pub open spec fn bus_step() -> spec_fn(BusV, Record) -> Option<BusV> {
    |b: BusV, f: Record| bus_apply(b, f)
}

pub open spec fn bus_decode(b: BusV, x: Seq<u8>) -> Option<BusV> {
    match fields(x) {
        None => None,
        Some(fs) => merge_records(b, fs, bus_step()),
    }
}

pub open spec fn bus_fits(b: BusV) -> bool {
    &&& fits(b.name)
    &&& forall|i: int|
        0 <= i < b.connections.len() ==> connection_fits(#[trigger] b.connections[i]) && body_fits(
            connection_bytes(b.connections[i]),
        )
    &&& string_map_fits(b.properties)
}

/// A bus whose texts and connections fit their length fields and whose
/// properties are a sorted map reads back as itself.
pub proof fn lemma_bus_round_trip(b: BusV)
    requires
        bus_fits(b),
    ensures
        bus_decode(empty_bus(), bus_bytes(b)) == Some(b),
{
    let bodies = Seq::new(b.connections.len(), |i: int| connection_bytes(b.connections[i]));
    let r1 = string_records(1, b.name);
    let r2 = repeated_records(4, bodies);
    let r3 = string_map_records(5, b.properties);
    lemma_strings_ok(1, b.name);
    assert forall|i: int| 0 <= i < bodies.len() implies body_fits(#[trigger] bodies[i]) by {
        assert(connection_fits(b.connections[i]));
    }
    lemma_repeated_ok(4, bodies);
    lemma_string_map_ok(5, b.properties);
    lemma_records_ok_concat(r1, r2);
    lemma_records_ok_concat(r1 + r2, r3);
    lemma_fields_records(r1 + r2 + r3);
    let step = bus_step();
    let e = empty_bus();
    let m1 = BusV { name: b.name, ..e };
    let m2 = BusV { connections: b.connections, ..m1 };
    lemma_string_value(b.name);
    lemma_string_part(e, 1, b.name, step, m1);
    let body = |c: ConnectionV| connection_bytes(c);
    let set1 = |m: BusV, x: Seq<ConnectionV>| BusV { connections: x, ..m };
    assert forall|i: int| 0 <= i < b.connections.len() implies step(
        set1(m1, b.connections.take(i)),
        (4nat, WireValue::Bytes(body(#[trigger] b.connections[i]))),
    ) == Some(set1(m1, b.connections.take(i + 1))) by {
        assert(connection_fits(b.connections[i]));
        lemma_connection_round_trip(b.connections[i]);
        assert(b.connections.take(i).push(b.connections[i]) =~= b.connections.take(i + 1));
    }
    lemma_repeated_part(m1, 4, b.connections, body, step, set1);
    assert(Seq::new(b.connections.len(), |i: int| body(b.connections[i])) =~= bodies);
    assert(set1(m1, Seq::empty()) =~= m1);
    let set2 = |m: BusV, x: Seq<(Seq<char>, Seq<char>)>| BusV { properties: x, ..m };
    assert(set2(m2, Seq::empty()) == m2);
    assert(set2(m2, b.properties) =~= b);
    lemma_map_part(m2, 5, b.properties, step, set2);
    lemma_merge_concat(e, r1, r2, step);
    lemma_merge_concat(e, r1 + r2, r3, step);
}

impl Bus {
    pub fn encode_to_vec(&self) -> (r: Vec<u8>)
        ensures
            r@ == bus_bytes(self@),
    {
        let mut buf: Vec<u8> = Vec::new();
        put_string_field(1, &self.name, &mut buf);
        let ghost b1 = buf@;
        let ghost rs_connections = repeated_records(4, Seq::new(self.connections@.len(), |i: int| connection_bytes(self.connections@[i]@)));
        let mut k: usize = 0;
        let ghost start_connections = buf@;
        proof {
            assert(rs_connections.take(0) =~= Seq::<Record>::empty());
            assert(start_connections + Seq::<u8>::empty() =~= start_connections);
        }
        while k < self.connections.len()
            invariant
                k <= self.connections@.len(),
                rs_connections == repeated_records(4, Seq::new(self.connections@.len(), |i: int| connection_bytes(self.connections@[i]@))),
                buf@ == start_connections + records_bytes(rs_connections.take(k as int)),
            decreases self.connections@.len() - k,
        {
            let body = self.connections[k].encode_to_vec();
            put_message_field(4, &body, &mut buf);
            proof {
                lemma_records_push(rs_connections, k as int);
                lemma_one_record((4nat, WireValue::Bytes(body@)));
                assert(rs_connections[k as int] == (4nat, WireValue::Bytes(body@)));
                assert(buf@ =~= start_connections + records_bytes(rs_connections.take(k + 1)));
            }
            k = k + 1;
        }
        proof {
            assert(rs_connections.take(k as int) =~= rs_connections);
        }
        let ghost b2 = buf@;
        put_string_map(5, &self.properties, &mut buf);
        proof {
            let r1 = string_records(1, self@.name);
            let r3 = string_map_records(5, self@.properties);
            lemma_string_field(1, self@.name);
            assert(Seq::new(self.connections@.len(), |i: int| connection_bytes(self.connections@[i]@)) =~= Seq::new(
                self@.connections.len(),
                |i: int| connection_bytes(self@.connections[i]),
            ));
            lemma_records_bytes_concat(r1, rs_connections);
            lemma_records_bytes_concat(r1 + rs_connections, r3);
            assert(buf@ =~= bus_bytes(self@));
        }
        buf
    }

    pub fn decode(data: &[u8]) -> (r: Result<Bus, Error>)
        ensures
            match bus_decode(empty_bus(), data@) {
                Some(b) => r is Ok && r->Ok_0@ == b,
                None => r is Err,
            },
    {
        let mut b = Bus { name: String::new(), connections: Vec::new(), properties: Vec::new() };
        let fs = read_fields(data)?;
        let ghost fv = records_view(fs@);
        proof {
            assert(fv.skip(0) =~= fv);
            assert(b@ =~= empty_bus());
        }
        let mut i: usize = 0;
        while i < fs.len()
            invariant
                i <= fs@.len(),
                fv == records_view(fs@),
                bus_decode(empty_bus(), data@) == merge_records(b@, fv.skip(i as int), bus_step()),
            decreases fs@.len() - i,
        {
            proof {
                assert(fv.skip(i as int).drop_first() =~= fv.skip(i + 1));
                assert(fv.skip(i as int)[0] == (fs@[i as int].0 as nat, fs@[i as int].1@));
            }
            let (tag, f) = (fs[i].0, &fs[i].1);
            if tag == 1 {
                b.name = field_string(f)?;
            } else if tag == 4 {
                let body = field_body(f)?;
                let c = Connection::decode(body.as_slice())?;
                let ghost before = b@;
                b.connections.push(c);
                proof {
                    assert(connections_view(b.connections@) =~= before.connections.push(c@));
                }
            } else if tag == 5 {
                merge_string_entry(&mut b.properties, f)?;
            }
            i = i + 1;
        }
        Ok(b)
    }
}

pub open spec fn terminal_fits_b(t: TerminalV) -> bool {
    fits(t.name)
}

/// A module: its name, its pins, parameters, instances, connections and
/// buses, and its properties.
#[derive(Clone, Debug, PartialEq, Eq, Default)]
pub struct Module {
    pub name: String,
    pub terminal: Vec<Terminal>,
    pub parameters: Vec<Parameter>,
    pub module_references: Vec<ModuleReference>,
    pub connections: Vec<Connection>,
    pub buses: Vec<Bus>,
    pub properties: Vec<(String, String)>,
}

#[verifier::ext_equal]
pub struct ModuleV {
    pub name: Seq<char>,
    pub terminal: Seq<TerminalV>,
    pub parameters: Seq<ParameterV>,
    pub module_references: Seq<ModuleReferenceV>,
    pub connections: Seq<ConnectionV>,
    pub buses: Seq<BusV>,
    pub properties: Seq<(Seq<char>, Seq<char>)>,
}

pub open spec fn views_of<T: View>(v: Seq<T>) -> Seq<T::V> {
    Seq::new(v.len(), |i: int| v[i]@)
}

impl View for Module {
    type V = ModuleV;

    open spec fn view(&self) -> ModuleV {
        ModuleV {
            name: self.name@,
            terminal: views_of(self.terminal@),
            parameters: views_of(self.parameters@),
            module_references: views_of(self.module_references@),
            connections: views_of(self.connections@),
            buses: views_of(self.buses@),
            properties: named_view(self.properties@),
        }
    }
}

pub open spec fn empty_module() -> ModuleV {
    ModuleV {
        name: Seq::empty(),
        terminal: Seq::empty(),
        parameters: Seq::empty(),
        module_references: Seq::empty(),
        connections: Seq::empty(),
        buses: Seq::empty(),
        properties: Seq::empty(),
    }
}

pub open spec fn module_records(m: ModuleV) -> Seq<Record> {
    string_records(2, m.name)
        + repeated_records(4, Seq::new(m.terminal.len(), |i: int| terminal_bytes(m.terminal[i])))
        + repeated_records(5, Seq::new(m.parameters.len(), |i: int| parameter_bytes(m.parameters[i])))
        + repeated_records(7, Seq::new(m.module_references.len(), |i: int| module_reference_bytes(m.module_references[i])))
        + repeated_records(8, Seq::new(m.connections.len(), |i: int| connection_bytes(m.connections[i])))
        + repeated_records(9, Seq::new(m.buses.len(), |i: int| bus_bytes(m.buses[i])))
        + string_map_records(10, m.properties)
}

pub open spec fn module_bytes(m: ModuleV) -> Seq<u8> {
    records_bytes(module_records(m))
}

pub open spec fn module_apply(m: ModuleV, f: Record) -> Option<ModuleV> {
    if f.0 == 2 {
        match string_value(f.1) {
            Some(s) => Some(ModuleV { name: s, ..m }),
            None => None,
        }
    } else if f.0 == 4 {
        match f.1 {
            WireValue::Bytes(x) => match terminal_decode(empty_terminal(), x) {
                Some(c) => Some(ModuleV { terminal: m.terminal.push(c), ..m }),
                None => None,
            },
            _ => None,
        }
    } else if f.0 == 5 {
        match f.1 {
            WireValue::Bytes(x) => match parameter_decode(empty_parameter(), x) {
                Some(c) => Some(ModuleV { parameters: m.parameters.push(c), ..m }),
                None => None,
            },
            _ => None,
        }
    } else if f.0 == 7 {
        match f.1 {
            WireValue::Bytes(x) => match module_reference_decode(empty_module_reference(), x) {
                Some(c) => Some(ModuleV { module_references: m.module_references.push(c), ..m }),
                None => None,
            },
            _ => None,
        }
    } else if f.0 == 8 {
        match f.1 {
            WireValue::Bytes(x) => match connection_decode(empty_connection(), x) {
                Some(c) => Some(ModuleV { connections: m.connections.push(c), ..m }),
                None => None,
            },
            _ => None,
        }
    } else if f.0 == 9 {
        match f.1 {
            WireValue::Bytes(x) => match bus_decode(empty_bus(), x) {
                Some(c) => Some(ModuleV { buses: m.buses.push(c), ..m }),
                None => None,
            },
            _ => None,
        }
    } else if f.0 == 10 {
        match string_map_apply(m.properties, f.1) {
            Some(e) => Some(ModuleV { properties: e, ..m }),
            None => None,
        }
    } else {
        Some(m)
    }
}

pub open spec fn module_step() -> spec_fn(ModuleV, Record) -> Option<ModuleV> {
    |m: ModuleV, f: Record| module_apply(m, f)
}

pub open spec fn module_decode(m: ModuleV, b: Seq<u8>) -> Option<ModuleV> {
    match fields(b) {
        None => None,
        Some(fs) => merge_records(m, fs, module_step()),
    }
}

pub open spec fn module_fits(m: ModuleV) -> bool {
    &&& fits(m.name)
    &&& forall|i: int| 0 <= i < m.terminal.len() ==> terminal_fits_b(#[trigger] m.terminal[i]) && body_fits(terminal_bytes(m.terminal[i]))
    &&& forall|i: int| 0 <= i < m.parameters.len() ==> parameter_fits(#[trigger] m.parameters[i]) && body_fits(parameter_bytes(m.parameters[i]))
    &&& forall|i: int| 0 <= i < m.module_references.len() ==> module_reference_fits(#[trigger] m.module_references[i]) && body_fits(module_reference_bytes(m.module_references[i]))
    &&& forall|i: int| 0 <= i < m.connections.len() ==> connection_fits(#[trigger] m.connections[i]) && body_fits(connection_bytes(m.connections[i]))
    &&& forall|i: int| 0 <= i < m.buses.len() ==> bus_fits(#[trigger] m.buses[i]) && body_fits(bus_bytes(m.buses[i]))
    &&& string_map_fits(m.properties)
}

proof fn lemma_module_terminal_part(m0: ModuleV, elems: Seq<TerminalV>)
    requires
        m0.terminal.len() == 0,
        forall|i: int| 0 <= i < elems.len() ==> terminal_fits_b(#[trigger] elems[i]) && body_fits(terminal_bytes(elems[i])),
    ensures
        merge_records(m0, repeated_records(4, Seq::new(elems.len(), |i: int| terminal_bytes(elems[i]))), module_step())
            == Some(ModuleV { terminal: elems, ..m0 }),
        records_ok(repeated_records(4, Seq::new(elems.len(), |i: int| terminal_bytes(elems[i])))),
{
    let step = module_step();
    let body = |c: TerminalV| terminal_bytes(c);
    let set = |m: ModuleV, x: Seq<TerminalV>| ModuleV { terminal: x, ..m };
    assert forall|i: int| 0 <= i < elems.len() implies step(
        set(m0, elems.take(i)),
        (4nat, WireValue::Bytes(body(#[trigger] elems[i]))),
    ) == Some(set(m0, elems.take(i + 1))) by {
        assert(terminal_fits_b(elems[i]));
        lemma_terminal_round_trip(elems[i]);
        assert(elems.take(i).push(elems[i]) =~= elems.take(i + 1));
    }
    lemma_repeated_part(m0, 4, elems, body, step, set);
    assert(Seq::new(elems.len(), |i: int| body(elems[i])) =~= Seq::new(elems.len(), |i: int| terminal_bytes(elems[i])));
    assert(set(m0, Seq::empty()) =~= m0);
    let bodies = Seq::new(elems.len(), |i: int| terminal_bytes(elems[i]));
    assert forall|i: int| 0 <= i < bodies.len() implies body_fits(#[trigger] bodies[i]) by {
        assert(terminal_fits_b(elems[i]));
    }
    lemma_repeated_ok(4, bodies);
}

proof fn lemma_module_parameters_part(m0: ModuleV, elems: Seq<ParameterV>)
    requires
        m0.parameters.len() == 0,
        forall|i: int| 0 <= i < elems.len() ==> parameter_fits(#[trigger] elems[i]) && body_fits(parameter_bytes(elems[i])),
    ensures
        merge_records(m0, repeated_records(5, Seq::new(elems.len(), |i: int| parameter_bytes(elems[i]))), module_step())
            == Some(ModuleV { parameters: elems, ..m0 }),
        records_ok(repeated_records(5, Seq::new(elems.len(), |i: int| parameter_bytes(elems[i])))),
{
    let step = module_step();
    let body = |c: ParameterV| parameter_bytes(c);
    let set = |m: ModuleV, x: Seq<ParameterV>| ModuleV { parameters: x, ..m };
    assert forall|i: int| 0 <= i < elems.len() implies step(
        set(m0, elems.take(i)),
        (5nat, WireValue::Bytes(body(#[trigger] elems[i]))),
    ) == Some(set(m0, elems.take(i + 1))) by {
        assert(parameter_fits(elems[i]));
        lemma_parameter_round_trip(elems[i]);
        assert(elems.take(i).push(elems[i]) =~= elems.take(i + 1));
    }
    lemma_repeated_part(m0, 5, elems, body, step, set);
    assert(Seq::new(elems.len(), |i: int| body(elems[i])) =~= Seq::new(elems.len(), |i: int| parameter_bytes(elems[i])));
    assert(set(m0, Seq::empty()) =~= m0);
    let bodies = Seq::new(elems.len(), |i: int| parameter_bytes(elems[i]));
    assert forall|i: int| 0 <= i < bodies.len() implies body_fits(#[trigger] bodies[i]) by {
        assert(parameter_fits(elems[i]));
    }
    lemma_repeated_ok(5, bodies);
}

proof fn lemma_module_module_references_part(m0: ModuleV, elems: Seq<ModuleReferenceV>)
    requires
        m0.module_references.len() == 0,
        forall|i: int| 0 <= i < elems.len() ==> module_reference_fits(#[trigger] elems[i]) && body_fits(module_reference_bytes(elems[i])),
    ensures
        merge_records(m0, repeated_records(7, Seq::new(elems.len(), |i: int| module_reference_bytes(elems[i]))), module_step())
            == Some(ModuleV { module_references: elems, ..m0 }),
        records_ok(repeated_records(7, Seq::new(elems.len(), |i: int| module_reference_bytes(elems[i])))),
{
    let step = module_step();
    let body = |c: ModuleReferenceV| module_reference_bytes(c);
    let set = |m: ModuleV, x: Seq<ModuleReferenceV>| ModuleV { module_references: x, ..m };
    assert forall|i: int| 0 <= i < elems.len() implies step(
        set(m0, elems.take(i)),
        (7nat, WireValue::Bytes(body(#[trigger] elems[i]))),
    ) == Some(set(m0, elems.take(i + 1))) by {
        assert(module_reference_fits(elems[i]));
        lemma_module_reference_round_trip(elems[i]);
        assert(elems.take(i).push(elems[i]) =~= elems.take(i + 1));
    }
    lemma_repeated_part(m0, 7, elems, body, step, set);
    assert(Seq::new(elems.len(), |i: int| body(elems[i])) =~= Seq::new(elems.len(), |i: int| module_reference_bytes(elems[i])));
    assert(set(m0, Seq::empty()) =~= m0);
    let bodies = Seq::new(elems.len(), |i: int| module_reference_bytes(elems[i]));
    assert forall|i: int| 0 <= i < bodies.len() implies body_fits(#[trigger] bodies[i]) by {
        assert(module_reference_fits(elems[i]));
    }
    lemma_repeated_ok(7, bodies);
}

proof fn lemma_module_connections_part(m0: ModuleV, elems: Seq<ConnectionV>)
    requires
        m0.connections.len() == 0,
        forall|i: int| 0 <= i < elems.len() ==> connection_fits(#[trigger] elems[i]) && body_fits(connection_bytes(elems[i])),
    ensures
        merge_records(m0, repeated_records(8, Seq::new(elems.len(), |i: int| connection_bytes(elems[i]))), module_step())
            == Some(ModuleV { connections: elems, ..m0 }),
        records_ok(repeated_records(8, Seq::new(elems.len(), |i: int| connection_bytes(elems[i])))),
{
    let step = module_step();
    let body = |c: ConnectionV| connection_bytes(c);
    let set = |m: ModuleV, x: Seq<ConnectionV>| ModuleV { connections: x, ..m };
    assert forall|i: int| 0 <= i < elems.len() implies step(
        set(m0, elems.take(i)),
        (8nat, WireValue::Bytes(body(#[trigger] elems[i]))),
    ) == Some(set(m0, elems.take(i + 1))) by {
        assert(connection_fits(elems[i]));
        lemma_connection_round_trip(elems[i]);
        assert(elems.take(i).push(elems[i]) =~= elems.take(i + 1));
    }
    lemma_repeated_part(m0, 8, elems, body, step, set);
    assert(Seq::new(elems.len(), |i: int| body(elems[i])) =~= Seq::new(elems.len(), |i: int| connection_bytes(elems[i])));
    assert(set(m0, Seq::empty()) =~= m0);
    let bodies = Seq::new(elems.len(), |i: int| connection_bytes(elems[i]));
    assert forall|i: int| 0 <= i < bodies.len() implies body_fits(#[trigger] bodies[i]) by {
        assert(connection_fits(elems[i]));
    }
    lemma_repeated_ok(8, bodies);
}

proof fn lemma_module_buses_part(m0: ModuleV, elems: Seq<BusV>)
    requires
        m0.buses.len() == 0,
        forall|i: int| 0 <= i < elems.len() ==> bus_fits(#[trigger] elems[i]) && body_fits(bus_bytes(elems[i])),
    ensures
        merge_records(m0, repeated_records(9, Seq::new(elems.len(), |i: int| bus_bytes(elems[i]))), module_step())
            == Some(ModuleV { buses: elems, ..m0 }),
        records_ok(repeated_records(9, Seq::new(elems.len(), |i: int| bus_bytes(elems[i])))),
{
    let step = module_step();
    let body = |c: BusV| bus_bytes(c);
    let set = |m: ModuleV, x: Seq<BusV>| ModuleV { buses: x, ..m };
    assert forall|i: int| 0 <= i < elems.len() implies step(
        set(m0, elems.take(i)),
        (9nat, WireValue::Bytes(body(#[trigger] elems[i]))),
    ) == Some(set(m0, elems.take(i + 1))) by {
        assert(bus_fits(elems[i]));
        lemma_bus_round_trip(elems[i]);
        assert(elems.take(i).push(elems[i]) =~= elems.take(i + 1));
    }
    lemma_repeated_part(m0, 9, elems, body, step, set);
    assert(Seq::new(elems.len(), |i: int| body(elems[i])) =~= Seq::new(elems.len(), |i: int| bus_bytes(elems[i])));
    assert(set(m0, Seq::empty()) =~= m0);
    let bodies = Seq::new(elems.len(), |i: int| bus_bytes(elems[i]));
    assert forall|i: int| 0 <= i < bodies.len() implies body_fits(#[trigger] bodies[i]) by {
        assert(bus_fits(elems[i]));
    }
    lemma_repeated_ok(9, bodies);
}

/// A module whose parts fit their length fields and whose maps are sorted
/// reads back as itself.
pub proof fn lemma_module_round_trip(m: ModuleV)
    requires
        module_fits(m),
    ensures
        module_decode(empty_module(), module_bytes(m)) == Some(m),
{
    let step = module_step();
    let e = empty_module();
    let p0 = string_records(2, m.name);
    let p1 = repeated_records(4, Seq::new(m.terminal.len(), |i: int| terminal_bytes(m.terminal[i])));
    let p2 = repeated_records(5, Seq::new(m.parameters.len(), |i: int| parameter_bytes(m.parameters[i])));
    let p3 = repeated_records(7, Seq::new(m.module_references.len(), |i: int| module_reference_bytes(m.module_references[i])));
    let p4 = repeated_records(8, Seq::new(m.connections.len(), |i: int| connection_bytes(m.connections[i])));
    let p5 = repeated_records(9, Seq::new(m.buses.len(), |i: int| bus_bytes(m.buses[i])));
    let p6 = string_map_records(10, m.properties);
    let s0 = ModuleV { name: m.name, ..e };
    let s1 = ModuleV { terminal: m.terminal, ..s0 };
    let s2 = ModuleV { parameters: m.parameters, ..s1 };
    let s3 = ModuleV { module_references: m.module_references, ..s2 };
    let s4 = ModuleV { connections: m.connections, ..s3 };
    let s5 = ModuleV { buses: m.buses, ..s4 };
    lemma_strings_ok(2, m.name);
    lemma_string_value(m.name);
    lemma_string_part(e, 2, m.name, step, s0);
    lemma_module_terminal_part(s0, m.terminal);
    lemma_module_parameters_part(s1, m.parameters);
    lemma_module_module_references_part(s2, m.module_references);
    lemma_module_connections_part(s3, m.connections);
    lemma_module_buses_part(s4, m.buses);
    lemma_string_map_ok(10, m.properties);
    let set = |x: ModuleV, y: Seq<(Seq<char>, Seq<char>)>| ModuleV { properties: y, ..x };
    assert(set(s5, Seq::empty()) == s5);
    assert(set(s5, m.properties) =~= m);
    lemma_map_part(s5, 10, m.properties, step, set);
    lemma_records_ok_concat(p0, p1);
    lemma_records_ok_concat(p0 + p1, p2);
    lemma_records_ok_concat(p0 + p1 + p2, p3);
    lemma_records_ok_concat(p0 + p1 + p2 + p3, p4);
    lemma_records_ok_concat(p0 + p1 + p2 + p3 + p4, p5);
    lemma_records_ok_concat(p0 + p1 + p2 + p3 + p4 + p5, p6);
    lemma_fields_records(p0 + p1 + p2 + p3 + p4 + p5 + p6);
    lemma_merge_concat(e, p0, p1, step);
    lemma_merge_concat(e, p0 + p1, p2, step);
    lemma_merge_concat(e, p0 + p1 + p2, p3, step);
    lemma_merge_concat(e, p0 + p1 + p2 + p3, p4, step);
    lemma_merge_concat(e, p0 + p1 + p2 + p3 + p4, p5, step);
    lemma_merge_concat(e, p0 + p1 + p2 + p3 + p4 + p5, p6, step);
}

impl Module {
    pub fn encode_to_vec(&self) -> (r: Vec<u8>)
        ensures
            r@ == module_bytes(self@),
    {
        let mut buf: Vec<u8> = Vec::new();
        put_string_field(2, &self.name, &mut buf);
        let ghost rs_terminal = repeated_records(4, Seq::new(self.terminal@.len(), |i: int| terminal_bytes(self.terminal@[i]@)));
        let mut k_terminal: usize = 0;
        let ghost start_terminal = buf@;
        proof {
            assert(rs_terminal.take(0) =~= Seq::<Record>::empty());
            assert(start_terminal + Seq::<u8>::empty() =~= start_terminal);
        }
        while k_terminal < self.terminal.len()
            invariant
                k_terminal <= self.terminal@.len(),
                rs_terminal == repeated_records(4, Seq::new(self.terminal@.len(), |i: int| terminal_bytes(self.terminal@[i]@))),
                buf@ == start_terminal + records_bytes(rs_terminal.take(k_terminal as int)),
            decreases self.terminal@.len() - k_terminal,
        {
            let body = self.terminal[k_terminal].encode_to_vec();
            put_message_field(4, &body, &mut buf);
            proof {
                lemma_records_push(rs_terminal, k_terminal as int);
                lemma_one_record((4nat, WireValue::Bytes(body@)));
                assert(rs_terminal[k_terminal as int] == (4nat, WireValue::Bytes(body@)));
                assert(buf@ =~= start_terminal + records_bytes(rs_terminal.take(k_terminal + 1)));
            }
            k_terminal = k_terminal + 1;
        }
        proof {
            assert(rs_terminal.take(k_terminal as int) =~= rs_terminal);
        }
        let ghost rs_parameters = repeated_records(5, Seq::new(self.parameters@.len(), |i: int| parameter_bytes(self.parameters@[i]@)));
        let mut k_parameters: usize = 0;
        let ghost start_parameters = buf@;
        proof {
            assert(rs_parameters.take(0) =~= Seq::<Record>::empty());
            assert(start_parameters + Seq::<u8>::empty() =~= start_parameters);
        }
        while k_parameters < self.parameters.len()
            invariant
                k_parameters <= self.parameters@.len(),
                rs_parameters == repeated_records(5, Seq::new(self.parameters@.len(), |i: int| parameter_bytes(self.parameters@[i]@))),
                buf@ == start_parameters + records_bytes(rs_parameters.take(k_parameters as int)),
            decreases self.parameters@.len() - k_parameters,
        {
            let body = self.parameters[k_parameters].encode_to_vec();
            put_message_field(5, &body, &mut buf);
            proof {
                lemma_records_push(rs_parameters, k_parameters as int);
                lemma_one_record((5nat, WireValue::Bytes(body@)));
                assert(rs_parameters[k_parameters as int] == (5nat, WireValue::Bytes(body@)));
                assert(buf@ =~= start_parameters + records_bytes(rs_parameters.take(k_parameters + 1)));
            }
            k_parameters = k_parameters + 1;
        }
        proof {
            assert(rs_parameters.take(k_parameters as int) =~= rs_parameters);
        }
        let ghost rs_module_references = repeated_records(7, Seq::new(self.module_references@.len(), |i: int| module_reference_bytes(self.module_references@[i]@)));
        let mut k_module_references: usize = 0;
        let ghost start_module_references = buf@;
        proof {
            assert(rs_module_references.take(0) =~= Seq::<Record>::empty());
            assert(start_module_references + Seq::<u8>::empty() =~= start_module_references);
        }
        while k_module_references < self.module_references.len()
            invariant
                k_module_references <= self.module_references@.len(),
                rs_module_references == repeated_records(7, Seq::new(self.module_references@.len(), |i: int| module_reference_bytes(self.module_references@[i]@))),
                buf@ == start_module_references + records_bytes(rs_module_references.take(k_module_references as int)),
            decreases self.module_references@.len() - k_module_references,
        {
            let body = self.module_references[k_module_references].encode_to_vec();
            put_message_field(7, &body, &mut buf);
            proof {
                lemma_records_push(rs_module_references, k_module_references as int);
                lemma_one_record((7nat, WireValue::Bytes(body@)));
                assert(rs_module_references[k_module_references as int] == (7nat, WireValue::Bytes(body@)));
                assert(buf@ =~= start_module_references + records_bytes(rs_module_references.take(k_module_references + 1)));
            }
            k_module_references = k_module_references + 1;
        }
        proof {
            assert(rs_module_references.take(k_module_references as int) =~= rs_module_references);
        }
        let ghost rs_connections = repeated_records(8, Seq::new(self.connections@.len(), |i: int| connection_bytes(self.connections@[i]@)));
        let mut k_connections: usize = 0;
        let ghost start_connections = buf@;
        proof {
            assert(rs_connections.take(0) =~= Seq::<Record>::empty());
            assert(start_connections + Seq::<u8>::empty() =~= start_connections);
        }
        while k_connections < self.connections.len()
            invariant
                k_connections <= self.connections@.len(),
                rs_connections == repeated_records(8, Seq::new(self.connections@.len(), |i: int| connection_bytes(self.connections@[i]@))),
                buf@ == start_connections + records_bytes(rs_connections.take(k_connections as int)),
            decreases self.connections@.len() - k_connections,
        {
            let body = self.connections[k_connections].encode_to_vec();
            put_message_field(8, &body, &mut buf);
            proof {
                lemma_records_push(rs_connections, k_connections as int);
                lemma_one_record((8nat, WireValue::Bytes(body@)));
                assert(rs_connections[k_connections as int] == (8nat, WireValue::Bytes(body@)));
                assert(buf@ =~= start_connections + records_bytes(rs_connections.take(k_connections + 1)));
            }
            k_connections = k_connections + 1;
        }
        proof {
            assert(rs_connections.take(k_connections as int) =~= rs_connections);
        }
        let ghost rs_buses = repeated_records(9, Seq::new(self.buses@.len(), |i: int| bus_bytes(self.buses@[i]@)));
        let mut k_buses: usize = 0;
        let ghost start_buses = buf@;
        proof {
            assert(rs_buses.take(0) =~= Seq::<Record>::empty());
            assert(start_buses + Seq::<u8>::empty() =~= start_buses);
        }
        while k_buses < self.buses.len()
            invariant
                k_buses <= self.buses@.len(),
                rs_buses == repeated_records(9, Seq::new(self.buses@.len(), |i: int| bus_bytes(self.buses@[i]@))),
                buf@ == start_buses + records_bytes(rs_buses.take(k_buses as int)),
            decreases self.buses@.len() - k_buses,
        {
            let body = self.buses[k_buses].encode_to_vec();
            put_message_field(9, &body, &mut buf);
            proof {
                lemma_records_push(rs_buses, k_buses as int);
                lemma_one_record((9nat, WireValue::Bytes(body@)));
                assert(rs_buses[k_buses as int] == (9nat, WireValue::Bytes(body@)));
                assert(buf@ =~= start_buses + records_bytes(rs_buses.take(k_buses + 1)));
            }
            k_buses = k_buses + 1;
        }
        proof {
            assert(rs_buses.take(k_buses as int) =~= rs_buses);
        }
        let ghost before_props = buf@;
        put_string_map(10, &self.properties, &mut buf);
        proof {
            let p0 = string_records(2, self@.name);
            let p6 = string_map_records(10, self@.properties);
            lemma_string_field(2, self@.name);
            assert(Seq::new(self.terminal@.len(), |i: int| terminal_bytes(self.terminal@[i]@)) =~= Seq::new(
                self@.terminal.len(),
                |i: int| terminal_bytes(self@.terminal[i]),
            ));
            assert(Seq::new(self.parameters@.len(), |i: int| parameter_bytes(self.parameters@[i]@)) =~= Seq::new(
                self@.parameters.len(),
                |i: int| parameter_bytes(self@.parameters[i]),
            ));
            assert(Seq::new(self.module_references@.len(), |i: int| module_reference_bytes(self.module_references@[i]@)) =~= Seq::new(
                self@.module_references.len(),
                |i: int| module_reference_bytes(self@.module_references[i]),
            ));
            assert(Seq::new(self.connections@.len(), |i: int| connection_bytes(self.connections@[i]@)) =~= Seq::new(
                self@.connections.len(),
                |i: int| connection_bytes(self@.connections[i]),
            ));
            assert(Seq::new(self.buses@.len(), |i: int| bus_bytes(self.buses@[i]@)) =~= Seq::new(
                self@.buses.len(),
                |i: int| bus_bytes(self@.buses[i]),
            ));
            lemma_records_bytes_concat(p0, rs_terminal);
            lemma_records_bytes_concat(p0 + rs_terminal, rs_parameters);
            lemma_records_bytes_concat(p0 + rs_terminal + rs_parameters, rs_module_references);
            lemma_records_bytes_concat(p0 + rs_terminal + rs_parameters + rs_module_references, rs_connections);
            lemma_records_bytes_concat(
                p0 + rs_terminal + rs_parameters + rs_module_references + rs_connections,
                rs_buses,
            );
            lemma_records_bytes_concat(
                p0 + rs_terminal + rs_parameters + rs_module_references + rs_connections + rs_buses,
                p6,
            );
            assert(buf@ =~= module_bytes(self@));
        }
        buf
    }

    pub fn decode(data: &[u8]) -> (r: Result<Module, Error>)
        ensures
            match module_decode(empty_module(), data@) {
                Some(m) => r is Ok && r->Ok_0@ == m,
                None => r is Err,
            },
    {
        let mut m = Module {
            name: String::new(),
            terminal: Vec::new(),
            parameters: Vec::new(),
            module_references: Vec::new(),
            connections: Vec::new(),
            buses: Vec::new(),
            properties: Vec::new(),
        };
        let fs = read_fields(data)?;
        let ghost fv = records_view(fs@);
        proof {
            assert(fv.skip(0) =~= fv);
            assert(m@ =~= empty_module());
        }
        let mut i: usize = 0;
        while i < fs.len()
            invariant
                i <= fs@.len(),
                fv == records_view(fs@),
                module_decode(empty_module(), data@) == merge_records(m@, fv.skip(i as int), module_step()),
            decreases fs@.len() - i,
        {
            proof {
                assert(fv.skip(i as int).drop_first() =~= fv.skip(i + 1));
                assert(fv.skip(i as int)[0] == (fs@[i as int].0 as nat, fs@[i as int].1@));
            }
            let (tag, f) = (fs[i].0, &fs[i].1);
            if tag == 2 {
                m.name = field_string(f)?;
            } else if tag == 4 {
                let body = field_body(f)?;
                let x = Terminal::decode(body.as_slice())?;
                let ghost before = m@;
                m.terminal.push(x);
                proof {
                    assert(views_of(m.terminal@) =~= before.terminal.push(x@));
                }
            } else if tag == 5 {
                let body = field_body(f)?;
                let x = Parameter::decode(body.as_slice())?;
                let ghost before = m@;
                m.parameters.push(x);
                proof {
                    assert(views_of(m.parameters@) =~= before.parameters.push(x@));
                }
            } else if tag == 7 {
                let body = field_body(f)?;
                let x = ModuleReference::decode(body.as_slice())?;
                let ghost before = m@;
                m.module_references.push(x);
                proof {
                    assert(views_of(m.module_references@) =~= before.module_references.push(x@));
                }
            } else if tag == 8 {
                let body = field_body(f)?;
                let x = Connection::decode(body.as_slice())?;
                let ghost before = m@;
                m.connections.push(x);
                proof {
                    assert(views_of(m.connections@) =~= before.connections.push(x@));
                }
            } else if tag == 9 {
                let body = field_body(f)?;
                let x = Bus::decode(body.as_slice())?;
                let ghost before = m@;
                m.buses.push(x);
                proof {
                    assert(views_of(m.buses@) =~= before.buses.push(x@));
                }
            } else if tag == 10 {
                merge_string_entry(&mut m.properties, f)?;
            }
            i = i + 1;
        }
        Ok(m)
    }
}

/// A circuit: its name, its top module and its modules.
#[derive(Clone, Debug, PartialEq, Eq, Default)]
pub struct Circuit {
    pub name: String,
    pub top_module: String,
    pub modules: Vec<Module>,
}

#[verifier::ext_equal]
pub struct CircuitV {
    pub name: Seq<char>,
    pub top_module: Seq<char>,
    pub modules: Seq<ModuleV>,
}

impl View for Circuit {
    type V = CircuitV;

    open spec fn view(&self) -> CircuitV {
        CircuitV { name: self.name@, top_module: self.top_module@, modules: views_of(self.modules@) }
    }
}

pub open spec fn empty_circuit() -> CircuitV {
    CircuitV { name: Seq::empty(), top_module: Seq::empty(), modules: Seq::empty() }
}

pub open spec fn circuit_records(c: CircuitV) -> Seq<Record> {
    string_records(1, c.name) + string_records(3, c.top_module) + repeated_records(
        4,
        Seq::new(c.modules.len(), |i: int| module_bytes(c.modules[i])),
    )
}

pub open spec fn circuit_bytes(c: CircuitV) -> Seq<u8> {
    records_bytes(circuit_records(c))
}

pub open spec fn circuit_apply(c: CircuitV, f: Record) -> Option<CircuitV> {
    if f.0 == 1 {
        match string_value(f.1) {
            Some(s) => Some(CircuitV { name: s, ..c }),
            None => None,
        }
    } else if f.0 == 3 {
        match string_value(f.1) {
            Some(s) => Some(CircuitV { top_module: s, ..c }),
            None => None,
        }
    } else if f.0 == 4 {
        match f.1 {
            WireValue::Bytes(x) => match module_decode(empty_module(), x) {
                Some(m) => Some(CircuitV { modules: c.modules.push(m), ..c }),
                None => None,
            },
            _ => None,
        }
    } else {
        Some(c)
    }
}

pub open spec fn circuit_step() -> spec_fn(CircuitV, Record) -> Option<CircuitV> {
    |c: CircuitV, f: Record| circuit_apply(c, f)
}

/// The circuit `b` holds, read over `c`.
pub open spec fn circuit_decode(c: CircuitV, b: Seq<u8>) -> Option<CircuitV> {
    match fields(b) {
        None => None,
        Some(fs) => merge_records(c, fs, circuit_step()),
    }
}

/// Strings and messages small enough for their fields, maps sorted by key,
/// and no negative-zero number.
pub open spec fn circuit_fits(c: CircuitV) -> bool {
    &&& fits(c.name)
    &&& fits(c.top_module)
    &&& forall|i: int| 0 <= i < c.modules.len() ==> module_fits(#[trigger] c.modules[i]) && body_fits(module_bytes(c.modules[i]))
}

/// A circuit whose parts fit their length fields and whose maps are sorted,
/// written to the wire, reads back as the same circuit.
pub proof fn lemma_circuit_round_trip(c: CircuitV)
    requires
        circuit_fits(c),
    ensures
        circuit_decode(empty_circuit(), circuit_bytes(c)) == Some(c),
{
    let bodies = Seq::new(c.modules.len(), |i: int| module_bytes(c.modules[i]));
    let r1 = string_records(1, c.name);
    let r2 = string_records(3, c.top_module);
    let r3 = repeated_records(4, bodies);
    lemma_strings_ok(1, c.name);
    lemma_strings_ok(3, c.top_module);
    assert forall|i: int| 0 <= i < bodies.len() implies body_fits(#[trigger] bodies[i]) by {
        assert(module_fits(c.modules[i]));
    }
    lemma_repeated_ok(4, bodies);
    lemma_records_ok_concat(r1, r2);
    lemma_records_ok_concat(r1 + r2, r3);
    lemma_fields_records(r1 + r2 + r3);
    let step = circuit_step();
    let e = empty_circuit();
    let m1 = CircuitV { name: c.name, ..e };
    let m2 = CircuitV { top_module: c.top_module, ..m1 };
    lemma_string_value(c.name);
    lemma_string_value(c.top_module);
    lemma_string_part(e, 1, c.name, step, m1);
    lemma_string_part(m1, 3, c.top_module, step, m2);
    let body = |m: ModuleV| module_bytes(m);
    let set = |x: CircuitV, y: Seq<ModuleV>| CircuitV { modules: y, ..x };
    assert forall|i: int| 0 <= i < c.modules.len() implies step(
        set(m2, c.modules.take(i)),
        (4nat, WireValue::Bytes(body(#[trigger] c.modules[i]))),
    ) == Some(set(m2, c.modules.take(i + 1))) by {
        assert(module_fits(c.modules[i]));
        lemma_module_round_trip(c.modules[i]);
        assert(c.modules.take(i).push(c.modules[i]) =~= c.modules.take(i + 1));
    }
    lemma_repeated_part(m2, 4, c.modules, body, step, set);
    assert(Seq::new(c.modules.len(), |i: int| body(c.modules[i])) =~= bodies);
    assert(set(m2, Seq::empty()) =~= m2);
    assert(set(m2, c.modules) =~= c);
    lemma_merge_concat(e, r1, r2, step);
    lemma_merge_concat(e, r1 + r2, r3, step);
}

impl Circuit {
    pub fn encode_into(&self, buf: &mut Vec<u8>)
        ensures
            final(buf)@ == old(buf)@ + circuit_bytes(self@),
    {
        let ghost start = buf@;
        put_string_field(1, &self.name, buf);
        put_string_field(3, &self.top_module, buf);
        let ghost rs_modules = repeated_records(4, Seq::new(self.modules@.len(), |i: int| module_bytes(self.modules@[i]@)));
        let ghost mid = buf@;
        let mut k: usize = 0;
        proof {
            assert(rs_modules.take(0) =~= Seq::<Record>::empty());
            assert(mid + Seq::<u8>::empty() =~= mid);
        }
        while k < self.modules.len()
            invariant
                k <= self.modules@.len(),
                rs_modules == repeated_records(4, Seq::new(self.modules@.len(), |i: int| module_bytes(self.modules@[i]@))),
                buf@ == mid + records_bytes(rs_modules.take(k as int)),
            decreases self.modules@.len() - k,
        {
            let body = self.modules[k].encode_to_vec();
            put_message_field(4, &body, buf);
            proof {
                lemma_records_push(rs_modules, k as int);
                lemma_one_record((4nat, WireValue::Bytes(body@)));
                assert(rs_modules[k as int] == (4nat, WireValue::Bytes(body@)));
                assert(buf@ =~= mid + records_bytes(rs_modules.take(k + 1)));
            }
            k = k + 1;
        }
        proof {
            assert(rs_modules.take(k as int) =~= rs_modules);
            let r1 = string_records(1, self@.name);
            let r2 = string_records(3, self@.top_module);
            lemma_concat_string_fields(1, self@.name, 3, self@.top_module);
            assert(Seq::new(self.modules@.len(), |i: int| module_bytes(self.modules@[i]@)) =~= Seq::new(
                self@.modules.len(),
                |i: int| module_bytes(self@.modules[i]),
            ));
            lemma_records_bytes_concat(r1 + r2, rs_modules);
            assert(buf@ =~= old(buf)@ + circuit_bytes(self@));
        }
    }

    /// The wire bytes of this message.
    pub fn encode_to_vec(&self) -> (r: Vec<u8>)
        ensures
            r@ == circuit_bytes(self@),
    {
        let mut buf: Vec<u8> = Vec::new();
        self.encode_into(&mut buf);
        proof {
            assert(buf@ =~= circuit_bytes(self@));
        }
        buf
    }

    /// Read the fields of `data` over this message.
    pub fn merge(&mut self, data: &[u8]) -> (r: Result<(), Error>)
        ensures
            match circuit_decode(old(self)@, data@) {
                Some(c) => r is Ok && final(self)@ == c,
                None => r is Err,
            },
    {
        let fs = read_fields(data)?;
        let ghost fv = records_view(fs@);
        proof {
            assert(fv.skip(0) =~= fv);
        }
        let mut i: usize = 0;
        while i < fs.len()
            invariant
                i <= fs@.len(),
                fv == records_view(fs@),
                circuit_decode(old(self)@, data@) == merge_records(self@, fv.skip(i as int), circuit_step()),
            decreases fs@.len() - i,
        {
            proof {
                assert(fv.skip(i as int).drop_first() =~= fv.skip(i + 1));
                assert(fv.skip(i as int)[0] == (fs@[i as int].0 as nat, fs@[i as int].1@));
            }
            let (tag, f) = (fs[i].0, &fs[i].1);
            if tag == 1 {
                self.name = field_string(f)?;
            } else if tag == 3 {
                self.top_module = field_string(f)?;
            } else if tag == 4 {
                let body = field_body(f)?;
                let x = Module::decode(body.as_slice())?;
                let ghost before = self@;
                self.modules.push(x);
                proof {
                    assert(views_of(self.modules@) =~= before.modules.push(x@));
                }
            }
            i = i + 1;
        }
        Ok(())
    }

    /// The circuit `data` holds.
    pub fn decode(data: &[u8]) -> (r: Result<Circuit, Error>)
        ensures
            match circuit_decode(empty_circuit(), data@) {
                Some(c) => r is Ok && r->Ok_0@ == c,
                None => r is Err,
            },
    {
        let mut c = Circuit { name: String::new(), top_module: String::new(), modules: Vec::new() };
        proof {
            assert(c@ =~= empty_circuit());
        }
        c.merge(data)?;
        Ok(c)
    }
}

} // verus!
