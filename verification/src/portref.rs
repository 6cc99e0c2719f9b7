//! The textual port references of PIC documents: bare pins (`p`), instance
//! ports (`inst,p`), zero-based bracket elements (`inst[n],p`) and one-based
//! grid elements (`inst<ia.ib>,p`).
use vstd::prelude::*;
use crate::netlist::{MemberV, NetMember, NetlistPort, PortRef, PortArrayRef};
use crate::text::{
    lead_ws, trail_ws, lemma_find_exact, lemma_parse_int_text, lemma_nat_text_digits, nat_text, is_digit,
    trim, find, parse_i64, IntError, int_text, chars_of, trim_bounds, find_char, parse_i64_at,
    string_of, concat, int_chars, push_char, is_ws, lemma_find,
};
use crate::Error;

verus! {

pub open spec fn int_error_message(e: IntError) -> Seq<char> {
    e.spec_message()
}

pub open spec fn invalid_reference_msg(text: Seq<char>) -> Seq<char> {
    "invalid port reference: "@ + text
}

pub open spec fn invalid_array_msg(text: Seq<char>) -> Seq<char> {
    "invalid array reference: "@ + text
}

/// The element selected by the instance part of a reference, if it has one:
/// `(array name, ia, ib)` with one-based indices.
pub open spec fn array_part(inst: Seq<char>, text: Seq<char>) -> Result<
    Option<(Seq<char>, int, int)>,
    Seq<char>,
> {
    match find(inst, '<') {
        Some(k) => {
            let name = inst.take(k);
            let idx = inst.skip(k + 1);
            if idx.len() == 0 || idx.last() != '>' {
                Err(invalid_array_msg(text))
            } else {
                let body = idx.drop_last();
                match find(body, '.') {
                    None => Err(invalid_array_msg(text)),
                    Some(d) => match parse_i64(body.take(d)) {
                        Err(e) => Err(int_error_message(e)),
                        Ok(ia) => match parse_i64(body.skip(d + 1)) {
                            Err(e) => Err(int_error_message(e)),
                            Ok(ib) => Ok(Some((name, ia, ib))),
                        },
                    },
                }
            }
        },
        None => match find(inst, '[') {
            Some(k) => {
                let name = inst.take(k);
                let n = inst.skip(k + 1);
                if n.len() == 0 || n.last() != ']' {
                    Err(invalid_array_msg(text))
                } else {
                    match parse_i64(n.drop_last()) {
                        Err(e) => Err(int_error_message(e)),
                        Ok(v) => if v < 0 {
                            Err("bracket indices must be nonnegative"@)
                        } else if v == i64::MAX {
                            Err("array index overflow"@)
                        } else {
                            Ok(Some((name, v + 1, 1)))
                        },
                    }
                }
            },
            None => Ok(None),
        },
    }
}

/// What a port reference denotes, or why it is refused.
pub open spec fn port_ref_spec(input: Seq<char>) -> Result<MemberV, Seq<char>> {
    let text = trim(input);
    if text.len() == 0 {
        Err("empty port reference"@)
    } else {
        match find(text, ',') {
            None => Ok(MemberV::Port(text)),
            Some(c) => {
                let inst = trim(text.take(c));
                let port = trim(text.skip(c + 1));
                if inst.len() == 0 || port.len() == 0 || find(port, ',') is Some {
                    Err(invalid_reference_msg(text))
                } else {
                    match array_part(inst, text) {
                        Err(e) => Err(e),
                        Ok(None) => Ok(MemberV::Ref(inst, port)),
                        Ok(Some((name, ia, ib))) => if name.len() == 0 || ia < 1 || ib < 1 {
                            Err("array indices must be positive"@)
                        } else {
                            Ok(MemberV::ArrayRef(name, port, ia as i64, ib as i64))
                        },
                    }
                }
            },
        }
    }
}

fn int_error_text(e: IntError) -> (r: String)
    ensures
        r@ == int_error_message(e),
{
    e.message()
}

fn invalid_array(text: &Vec<char>, lo: usize, hi: usize) -> (r: Error)
    requires
        lo <= hi <= text@.len(),
    ensures
        r.0@ == invalid_array_msg(text@.subrange(lo as int, hi as int)),
{
    let t = string_of(text, lo, hi);
    proof {
        reveal_strlit("invalid array reference: ");
    }
    Error(concat("invalid array reference: ", t.as_str()))
}

proof fn lemma_sub<A>(s: Seq<A>, lo: int, hi: int, a: int, b: int)
    requires
        0 <= lo <= hi <= s.len(),
        0 <= a <= b <= hi - lo,
    ensures
        s.subrange(lo, hi).subrange(a, b) == s.subrange(lo + a, lo + b),
{
    assert(s.subrange(lo, hi).subrange(a, b) =~= s.subrange(lo + a, lo + b));
}

/// Parse the array selector of the instance part `s[lo..hi]`.
fn parse_array_part(s: &Vec<char>, lo: usize, hi: usize, tlo: usize, thi: usize) -> (r: Result<
    Option<(usize, usize, i64, i64)>,
    Error,
>)
    requires
        lo <= hi <= s@.len(),
        tlo <= thi <= s@.len(),
    ensures
        match array_part(s@.subrange(lo as int, hi as int), s@.subrange(tlo as int, thi as int)) {
            Err(e) => r is Err && r->Err_0.0@ == e,
            Ok(None) => r == Ok::<Option<(usize, usize, i64, i64)>, Error>(None),
            Ok(Some((name, ia, ib))) => r is Ok && r->Ok_0 is Some && {
                let (nlo, nhi, a, b) = r->Ok_0->0;
                &&& lo <= nlo <= nhi <= hi
                &&& s@.subrange(nlo as int, nhi as int) == name
                &&& a == ia
                &&& b == ib
            },
        },
{
    let ghost inst = s@.subrange(lo as int, hi as int);
    match find_char(s, lo, hi, '<') {
        Some(k) => {
            proof {
                lemma_sub(s@, lo as int, hi as int, 0, k - lo);
                lemma_sub(s@, lo as int, hi as int, k - lo + 1, hi - lo);
                assert(inst.take(k - lo) == s@.subrange(lo as int, k as int));
                assert(inst.skip(k - lo + 1) == s@.subrange(k + 1, hi as int));
            }
            if k + 1 == hi || s[hi - 1] != '>' {
                return Err(invalid_array(s, tlo, thi));
            }
            let ghost idx = s@.subrange(k + 1, hi as int);
            proof {
                assert(idx.last() == s@[hi - 1]);
                assert(idx.drop_last() =~= s@.subrange(k + 1, hi - 1));
            }
            match find_char(s, k + 1, hi - 1, '.') {
                None => {
                    return Err(invalid_array(s, tlo, thi));
                },
                Some(d) => {
                    proof {
                        lemma_sub(s@, k + 1, hi - 1, 0, d - (k + 1));
                        lemma_sub(s@, k + 1, hi - 1, d - (k + 1) + 1, hi - 1 - (k + 1));
                    }
                    let ia = match parse_i64_at(s, k + 1, d) {
                        Ok(v) => v,
                        Err(e) => {
                            return Err(Error(int_error_text(e)));
                        },
                    };
                    let ib = match parse_i64_at(s, d + 1, hi - 1) {
                        Ok(v) => v,
                        Err(e) => {
                            return Err(Error(int_error_text(e)));
                        },
                    };
                    Ok(Some((lo, k, ia, ib)))
                },
            }
        },
        None => {
            match find_char(s, lo, hi, '[') {
                Some(k) => {
                    proof {
                        lemma_sub(s@, lo as int, hi as int, 0, k - lo);
                        lemma_sub(s@, lo as int, hi as int, k - lo + 1, hi - lo);
                        assert(inst.take(k - lo) == s@.subrange(lo as int, k as int));
                        assert(inst.skip(k - lo + 1) == s@.subrange(k + 1, hi as int));
                    }
                    if k + 1 == hi || s[hi - 1] != ']' {
                        return Err(invalid_array(s, tlo, thi));
                    }
                    let ghost n = s@.subrange(k + 1, hi as int);
                    proof {
                        assert(n.last() == s@[hi - 1]);
                        assert(n.drop_last() =~= s@.subrange(k + 1, hi - 1));
                    }
                    let v = match parse_i64_at(s, k + 1, hi - 1) {
                        Ok(v) => v,
                        Err(e) => {
                            return Err(Error(int_error_text(e)));
                        },
                    };
                    if v < 0 {
                        proof {
                            reveal_strlit("bracket indices must be nonnegative");
                        }
                        return Err(Error("bracket indices must be nonnegative".to_owned()));
                    }
                    if v == i64::MAX {
                        proof {
                            reveal_strlit("array index overflow");
                        }
                        return Err(Error("array index overflow".to_owned()));
                    }
                    Ok(Some((lo, k, v + 1, 1)))
                },
                None => Ok(None),
            }
        },
    }
}

/// Parse bare pins, instance pins, one-based grid indices and zero-based
/// bracket indices.
pub fn parse_port_ref(text: &str) -> (r: Result<NetMember, Error>)
    ensures
        match port_ref_spec(text@) {
            Ok(m) => r is Ok && r->Ok_0@ == m,
            Err(e) => r is Err && r->Err_0.0@ == e,
        },
{
    let s = chars_of(text);
    let (lo, hi) = trim_bounds(&s, 0, s.len());
    proof {
        assert(s@.subrange(0, s@.len() as int) =~= text@);
    }
    let ghost t = s@.subrange(lo as int, hi as int);
    if lo == hi {
        proof {
            reveal_strlit("empty port reference");
        }
        return Err(Error("empty port reference".to_owned()));
    }
    match find_char(&s, lo, hi, ',') {
        None => {
            let name = string_of(&s, lo, hi);
            Ok(NetMember::Port(NetlistPort { name }))
        },
        Some(c) => {
            proof {
                lemma_sub(s@, lo as int, hi as int, 0, c - lo);
                lemma_sub(s@, lo as int, hi as int, c - lo + 1, hi - lo);
                assert(t.take(c - lo) == s@.subrange(lo as int, c as int));
                assert(t.skip(c - lo + 1) == s@.subrange(c + 1, hi as int));
            }
            let (ilo, ihi) = trim_bounds(&s, lo, c);
            let (plo, phi) = trim_bounds(&s, c + 1, hi);
            let comma = find_char(&s, plo, phi, ',');
            if ilo == ihi || plo == phi || comma.is_some() {
                let whole = string_of(&s, lo, hi);
                proof {
                    reveal_strlit("invalid port reference: ");
                }
                return Err(Error(concat("invalid port reference: ", whole.as_str())));
            }
            let port = string_of(&s, plo, phi);
            match parse_array_part(&s, ilo, ihi, lo, hi) {
                Err(e) => Err(e),
                Ok(None) => {
                    let instance = string_of(&s, ilo, ihi);
                    Ok(NetMember::Ref(PortRef { instance, port }))
                },
                Ok(Some((nlo, nhi, ia, ib))) => {
                    if nlo == nhi || ia < 1 || ib < 1 {
                        proof {
                            reveal_strlit("array indices must be positive");
                        }
                        return Err(Error("array indices must be positive".to_owned()));
                    }
                    let instance = string_of(&s, nlo, nhi);
                    Ok(NetMember::ArrayRef(PortArrayRef { instance, port, ia, ib }))
                },
            }
        },
    }
}


/// The text of a member, as references are written.
pub open spec fn unparse_spec(m: MemberV) -> Seq<char> {
    match m {
        MemberV::Port(n) => n,
        MemberV::Ref(i, p) => i + seq![','] + p,
        MemberV::ArrayRef(i, p, ia, ib) => i + seq!['<'] + int_text(ia as int) + seq!['.']
            + int_text(ib as int) + seq!['>', ','] + p,
    }
}

fn push_all(out: &mut String, cs: &Vec<char>)
    ensures
        final(out)@ == old(out)@ + cs@,
{
    let mut i: usize = 0;
    while i < cs.len()
        invariant
            i <= cs@.len(),
            out@ == old(out)@ + cs@.take(i as int),
        decreases cs@.len() - i,
    {
        push_char(out, cs[i]);
        proof {
            assert(cs@.take(i + 1) =~= cs@.take(i as int).push(cs@[i as int]));
            assert(old(out)@ + cs@.take(i + 1) =~= (old(out)@ + cs@.take(i as int)).push(cs@[i as int]));
        }
        i = i + 1;
    }
    proof {
        assert(cs@.take(cs@.len() as int) =~= cs@);
    }
}

/// Write a member back as reference text.
pub fn unparse(member: &NetMember) -> (r: String)
    ensures
        r@ == unparse_spec(member@),
{
    match member {
        NetMember::Port(p) => p.name.clone(),
        NetMember::Ref(p) => {
            let mut out = p.instance.clone();
            push_char(&mut out, ',');
            out.append(p.port.as_str());
            proof {
                assert(out@ =~= p.instance@ + seq![','] + p.port@);
            }
            out
        },
        NetMember::ArrayRef(p) => {
            let mut out = p.instance.clone();
            push_char(&mut out, '<');
            push_all(&mut out, &int_chars(p.ia));
            push_char(&mut out, '.');
            push_all(&mut out, &int_chars(p.ib));
            push_char(&mut out, '>');
            push_char(&mut out, ',');
            out.append(p.port.as_str());
            proof {
                assert(out@ =~= p.instance@ + seq!['<'] + int_text(p.ia as int) + seq!['.']
                    + int_text(p.ib as int) + seq!['>', ','] + p.port@);
            }
            out
        },
    }
}

/// A pin or port name that reads back as itself: non-empty, without blanks at
/// either end, without a comma.
pub open spec fn plain_name(s: Seq<char>) -> bool {
    &&& s.len() > 0
    &&& !is_ws(s[0])
    &&& !is_ws(s.last())
    &&& !s.contains(',')
}

/// The members whose written text reads back as the same member: names that
/// survive trimming and splitting, instances of plain references without
/// element selectors, array instances without `<`, and one-based indices.
pub open spec fn round_trips(m: MemberV) -> bool {
    match m {
        MemberV::Port(n) => plain_name(n),
        MemberV::Ref(i, p) => plain_name(i) && !i.contains('<') && !i.contains('[') && plain_name(p),
        MemberV::ArrayRef(i, p, ia, ib) => i.len() > 0 && !is_ws(i[0]) && !i.contains(',')
            && !i.contains('<') && plain_name(p) && ia >= 1 && ib >= 1,
    }
}

pub proof fn lemma_trim_id(s: Seq<char>)
    requires
        s.len() > 0,
        !is_ws(s[0]),
        !is_ws(s.last()),
    ensures
        trim(s) == s,
{
    assert(lead_ws(s) == 0);
    assert(s.skip(0) =~= s);
    assert(trail_ws(s) == 0);
    assert(s.take(s.len() as int) =~= s);
}

pub proof fn lemma_find_after(a: Seq<char>, b: Seq<char>, c: char)
    requires
        !a.contains(c),
    ensures
        find(a + b, c) == (match find(b, c) {
            Some(k) => Some(a.len() + k),
            None => None::<int>,
        }),
{
    lemma_find(b, c);
    let ab = a + b;
    assert forall|j: int| 0 <= j < a.len() implies ab[j] != c by {
        assert(ab[j] == a[j]);
        if a[j] == c {
            assert(a.contains(c));
        }
    }
    match find(b, c) {
        Some(k) => {
            assert forall|j: int| 0 <= j < a.len() + k implies ab[j] != c by {
                if j >= a.len() {
                    assert(ab[j] == b[j - a.len()]);
                }
            }
            assert(ab[a.len() + k] == b[k]);
            lemma_find_exact(ab, c, a.len() + k);
        },
        None => {
            assert forall|j: int| 0 <= j < ab.len() implies ab[j] != c by {
                if j >= a.len() {
                    assert(ab[j] == b[j - a.len()]);
                }
            }
            lemma_find_exact(ab, c, ab.len() as int);
        },
    }
}

pub proof fn lemma_int_text_plain(n: int, c: char)
    requires
        !is_digit(c),
        c != '-',
    ensures
        !int_text(n).contains(c),
        int_text(n).len() > 0,
{
    if n < 0 {
        lemma_nat_text_digits((-n) as nat);
        let t = int_text(n);
        if t.contains(c) {
            let j = choose|j: int| 0 <= j < t.len() && t[j] == c;
            if j > 0 {
                assert(t[j] == nat_text((-n) as nat)[j - 1]);
            }
        }
    } else {
        lemma_nat_text_digits(n as nat);
        let t = int_text(n);
        if t.contains(c) {
            let j = choose|j: int| 0 <= j < t.len() && t[j] == c;
            assert(is_digit(t[j]));
        }
    }
}

pub proof fn lemma_no_char_concat(a: Seq<char>, b: Seq<char>, c: char)
    requires
        !a.contains(c),
        !b.contains(c),
    ensures
        !(a + b).contains(c),
{
    if (a + b).contains(c) {
        let j = choose|j: int| 0 <= j < (a + b).len() && (a + b)[j] == c;
        if j < a.len() {
            assert(a[j] == c);
        } else {
            assert(b[j - a.len()] == c);
        }
    }
}

proof fn lemma_ref_round_trip(i: Seq<char>, p: Seq<char>)
    requires
        round_trips(MemberV::Ref(i, p)),
    ensures
        port_ref_spec(unparse_spec(MemberV::Ref(i, p))) == Ok::<MemberV, Seq<char>>(MemberV::Ref(i, p)),
{
    let text = i + seq![','] + p;
    assert(text[0] == i[0]);
    assert(text.last() == p.last());
    lemma_trim_id(text);
    lemma_find_after(i, seq![','] + p, ',');
    assert(text =~= i + (seq![','] + p));
    assert(find(seq![','] + p, ',') == Some(0int));
    assert(text.take(i.len() as int) =~= i);
    assert(text.skip(i.len() as int + 1) =~= p);
    lemma_trim_id(i);
    lemma_trim_id(p);
    lemma_find(p, ',');
    lemma_find(i, '<');
    lemma_find(i, '[');
    assert(array_part(i, text) == Ok::<Option<(Seq<char>, int, int)>, Seq<char>>(None));
}

pub proof fn lemma_array_text(i: Seq<char>, a: Seq<char>, b: Seq<char>)
    requires
        !i.contains(','),
        !a.contains(','),
        !b.contains(','),
    ensures
        !(i + seq!['<'] + a + seq!['.'] + b + seq!['>']).contains(','),
{
    assert(!seq!['<'].contains(','));
    assert(!seq!['.'].contains(','));
    assert(!seq!['>'].contains(','));
    lemma_no_char_concat(i, seq!['<'], ',');
    lemma_no_char_concat(i + seq!['<'], a, ',');
    lemma_no_char_concat(i + seq!['<'] + a, seq!['.'], ',');
    lemma_no_char_concat(i + seq!['<'] + a + seq!['.'], b, ',');
    lemma_no_char_concat(i + seq!['<'] + a + seq!['.'] + b, seq!['>'], ',');
}

proof fn lemma_array_part_round_trip(i: Seq<char>, ia: i64, ib: i64, text: Seq<char>)
    requires
        !i.contains('<'),
        ia >= 1,
        ib >= 1,
    ensures
        array_part(
            i + seq!['<'] + int_text(ia as int) + seq!['.'] + int_text(ib as int) + seq!['>'],
            text,
        ) == Ok::<Option<(Seq<char>, int, int)>, Seq<char>>(Some((i, ia as int, ib as int))),
{
    let a = int_text(ia as int);
    let b = int_text(ib as int);
    let body = a + seq!['.'] + b;
    let idx = body + seq!['>'];
    let inst = i + seq!['<'] + a + seq!['.'] + b + seq!['>'];
    assert(inst =~= i + (seq!['<'] + idx));
    lemma_find_after(i, seq!['<'] + idx, '<');
    assert(find(seq!['<'] + idx, '<') == Some(0int));
    assert(inst.take(i.len() as int) =~= i);
    assert(inst.skip(i.len() as int + 1) =~= idx);
    assert(idx.drop_last() =~= body);
    lemma_int_text_plain(ia as int, '.');
    lemma_find_after(a, seq!['.'] + b, '.');
    assert(body =~= a + (seq!['.'] + b));
    assert(find(seq!['.'] + b, '.') == Some(0int));
    assert(body.take(a.len() as int) =~= a);
    assert(body.skip(a.len() as int + 1) =~= b);
    lemma_parse_int_text(ia as int);
    lemma_parse_int_text(ib as int);
}

proof fn lemma_array_round_trip(i: Seq<char>, p: Seq<char>, ia: i64, ib: i64)
    requires
        round_trips(MemberV::ArrayRef(i, p, ia, ib)),
    ensures
        port_ref_spec(unparse_spec(MemberV::ArrayRef(i, p, ia, ib))) == Ok::<MemberV, Seq<char>>(
            MemberV::ArrayRef(i, p, ia, ib),
        ),
{
    let a = int_text(ia as int);
    let b = int_text(ib as int);
    let inst = i + seq!['<'] + a + seq!['.'] + b + seq!['>'];
    let text = inst + seq![','] + p;
    assert(unparse_spec(MemberV::ArrayRef(i, p, ia, ib)) =~= text);
    lemma_int_text_plain(ia as int, ',');
    lemma_int_text_plain(ib as int, ',');
    lemma_array_text(i, a, b);
    assert(text[0] == i[0]);
    assert(text.last() == p.last());
    lemma_trim_id(text);
    lemma_find_after(inst, seq![','] + p, ',');
    assert(text =~= inst + (seq![','] + p));
    assert(find(seq![','] + p, ',') == Some(0int));
    assert(text.take(inst.len() as int) =~= inst);
    assert(text.skip(inst.len() as int + 1) =~= p);
    assert(inst[0] == i[0]);
    assert(inst.last() == '>');
    assert(!is_ws('>'));
    lemma_trim_id(inst);
    lemma_trim_id(p);
    lemma_find(p, ',');
    lemma_array_part_round_trip(i, ia, ib, text);
}

/// Reading back the text of a member gives the member.
pub proof fn lemma_parse_unparse(m: MemberV)
    requires
        round_trips(m),
    ensures
        port_ref_spec(unparse_spec(m)) == Ok::<MemberV, Seq<char>>(m),
{
    match m {
        MemberV::Port(n) => {
            lemma_trim_id(n);
            lemma_find(n, ',');
        },
        MemberV::Ref(i, p) => lemma_ref_round_trip(i, p),
        MemberV::ArrayRef(i, p, ia, ib) => lemma_array_round_trip(i, p, ia, ib),
    }
}

} // verus!
