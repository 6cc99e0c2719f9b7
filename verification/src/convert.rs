//! Conversion between documents and circuit messages: pins as terminal
//! references, connections as named terminal pairs, pins as terminals and
//! their connections, and nets as buses of consecutive member pairs.
use vstd::prelude::*;
use crate::proto::{
    Bus, BusV, Connection, ConnectionV, Terminal, TerminalReference, TerminalReferenceV, TerminalV,
    views_of,
};
use crate::document::{pairs_view, strings_view, vmap_insert, vmap_insert_absent};
use crate::netlist::{vkey_index, lemma_vkey_index};
use crate::ordmap::{key_index, lemma_key_index, map_insert, map_insert_absent};
use crate::text::{concat, nat_chars, nat_text};
use crate::text::{chars_of, find, find_char, trim, trim_bounds, string_of, push_char};
use crate::netlist::MemberV;
use crate::portref::{
    round_trips, unparse_spec, lemma_trim_id, lemma_find_after, lemma_int_text_plain,
    lemma_array_text,
};
use crate::text::{lemma_find, int_text, is_ws};

verus! {

/// The terminal a reference text names: the trimmed parts around its first
/// comma, or the trimmed text as a module pin.
pub open spec fn terminal_spec(text: Seq<char>) -> TerminalReferenceV {
    match find(text, ',') {
        Some(c) => TerminalReferenceV {
            instance_name: trim(text.take(c)),
            terminal_name: trim(text.skip(c + 1)),
        },
        None => TerminalReferenceV { instance_name: Seq::empty(), terminal_name: trim(text) },
    }
}

/// The reference text of a terminal.
pub open spec fn reference_spec(t: TerminalReferenceV) -> Seq<char> {
    if t.instance_name.len() == 0 {
        t.terminal_name
    } else {
        t.instance_name + seq![','] + t.terminal_name
    }
}

/// The terminal that reference text names.
pub fn terminal(text: &str) -> (r: TerminalReference)
    ensures
        r@ == terminal_spec(text@),
{
    let s = chars_of(text);
    proof {
        assert(s@.subrange(0, s@.len() as int) =~= text@);
    }
    match find_char(&s, 0, s.len(), ',') {
        Some(c) => {
            proof {
                assert(text@.take(c as int) =~= s@.subrange(0, c as int));
                assert(text@.skip(c + 1) =~= s@.subrange(c + 1, s@.len() as int));
            }
            let (a, b) = trim_bounds(&s, 0, c);
            let (x, y) = trim_bounds(&s, c + 1, s.len());
            TerminalReference { instance_name: string_of(&s, a, b), terminal_name: string_of(&s, x, y) }
        },
        None => {
            let (x, y) = trim_bounds(&s, 0, s.len());
            let r = TerminalReference { instance_name: String::new(), terminal_name: string_of(&s, x, y) };
            proof {
                assert(r@ =~= terminal_spec(text@));
            }
            r
        },
    }
}

/// The reference text of a terminal: the pin name alone for a module pin.
pub fn reference(t: &TerminalReference) -> (r: String)
    ensures
        r@ == reference_spec(t@),
{
    if t.instance_name.as_str().unicode_len() == 0 {
        t.terminal_name.clone()
    } else {
        let mut out = t.instance_name.clone();
        push_char(&mut out, ',');
        out.append(t.terminal_name.as_str());
        proof {
            assert(out@ =~= t.instance_name@ + seq![','] + t.terminal_name@);
        }
        out
    }
}

/// A connection named `name` between the terminals two reference texts name.
pub fn connection(name: String, source: &str, target: &str) -> (r: Connection)
    ensures
        r@ == (ConnectionV {
            name: name@,
            source: Some(terminal_spec(source@)),
            target: Some(terminal_spec(target@)),
        }),
{
    Connection { name, source: Some(terminal(source)), target: Some(terminal(target)) }
}

/// The terminal of a written member reads back as the same reference text,
/// so pins and connections survive the circuit form.
pub proof fn lemma_reference_terminal(m: MemberV)
    requires
        round_trips(m),
    ensures
        reference_spec(terminal_spec(unparse_spec(m))) == unparse_spec(m),
{
    match m {
        MemberV::Port(n) => {
            lemma_find(n, ',');
            lemma_trim_id(n);
        },
        MemberV::Ref(i, p) => {
            let text = i + seq![','] + p;
            lemma_find_after(i, seq![','] + p, ',');
            assert(text =~= i + (seq![','] + p));
            assert(find(seq![','] + p, ',') == Some(0int));
            assert(text.take(i.len() as int) =~= i);
            assert(text.skip(i.len() as int + 1) =~= p);
            lemma_trim_id(i);
            lemma_trim_id(p);
        },
        MemberV::ArrayRef(i, p, ia, ib) => {
            let a = int_text(ia as int);
            let b = int_text(ib as int);
            let inst = i + seq!['<'] + a + seq!['.'] + b + seq!['>'];
            let text = inst + seq![','] + p;
            assert(unparse_spec(m) =~= text);
            lemma_int_text_plain(ia as int, ',');
            lemma_int_text_plain(ib as int, ',');
            lemma_array_text(i, a, b);
            lemma_find_after(inst, seq![','] + p, ',');
            assert(text =~= inst + (seq![','] + p));
            assert(find(seq![','] + p, ',') == Some(0int));
            assert(text.take(inst.len() as int) =~= inst);
            assert(text.skip(inst.len() as int + 1) =~= p);
            assert(inst[0] == i[0]);
            assert(inst.last() == '>');
            assert(!is_ws('>'));
            lemma_trim_id(inst);
            lemma_trim_id(p);
        },
    }
}

/// `prefix` followed by the decimal text of `i`.
pub open spec fn numbered(prefix: Seq<char>, i: nat) -> Seq<char> {
    prefix + nat_text(i)
}

pub(crate) fn numbered_text(prefix: &str, i: usize) -> (r: String)
    ensures
        r@ == numbered(prefix@, i as nat),
{
    let digits = nat_chars(i as u64);
    let tail = string_of(&digits, 0, digits.len());
    proof {
        assert(digits@.subrange(0, digits@.len() as int) =~= digits@);
    }
    concat(prefix, tail.as_str())
}

/// The connection of document connection `i`: named `conn_<i>`.
pub open spec fn link_of(i: nat, source: Seq<char>, target: Seq<char>) -> ConnectionV {
    ConnectionV {
        name: numbered("conn_"@, i),
        source: Some(terminal_spec(source)),
        target: Some(terminal_spec(target)),
    }
}

/// The connection of a pin: named `port_<pin>`, from the pin to what it exposes.
pub open spec fn pin_link(pin: Seq<char>, target: Seq<char>) -> ConnectionV {
    ConnectionV {
        name: "port_"@ + pin,
        source: Some(terminal_spec(pin)),
        target: Some(terminal_spec(target)),
    }
}

/// A module's connections: its connections in order, then one per pin.
pub open spec fn links_spec(ports: Seq<(Seq<char>, Seq<char>)>, conns: Seq<(Seq<char>, Seq<char>)>) -> Seq<ConnectionV> {
    Seq::new(conns.len(), |i: int| link_of(i as nat, conns[i].0, conns[i].1)) + Seq::new(
        ports.len(),
        |i: int| pin_link(ports[i].0, ports[i].1),
    )
}

/// A module's terminals: its pins, numbered in order.
pub open spec fn terminals_spec(ports: Seq<(Seq<char>, Seq<char>)>) -> Seq<TerminalV> {
    Seq::new(ports.len(), |i: int| TerminalV { uid: i as u32, name: ports[i].0 })
}

/// The terminals of a module's pins, numbered from zero.
pub fn module_terminals(ports: &Vec<(String, String)>) -> (r: Vec<Terminal>)
    ensures
        views_of(r@) == terminals_spec(pairs_view(ports@)),
{
    let mut out: Vec<Terminal> = Vec::new();
    let mut i: usize = 0;
    while i < ports.len()
        invariant
            i <= ports@.len(),
            out@.len() == i,
            forall|j: int| 0 <= j < i ==> (#[trigger] out@[j])@ == (TerminalV { uid: j as u32, name: ports@[j].0@ }),
        decreases ports@.len() - i,
    {
        #[verifier::truncate]
        let uid = i as u32;
        out.push(Terminal { uid, name: ports[i].0.clone() });
        i = i + 1;
    }
    assert(views_of(out@) =~= terminals_spec(pairs_view(ports@)));
    out
}

/// The connections of a module: `conn_<i>` for its `i`-th connection, then
/// `port_<pin>` from each pin to the reference it exposes.
pub fn module_links(ports: &Vec<(String, String)>, conns: &Vec<(String, String)>) -> (r: Vec<Connection>)
    ensures
        views_of(r@) == links_spec(pairs_view(ports@), pairs_view(conns@)),
{
    let ghost pv = pairs_view(ports@);
    let ghost cv = pairs_view(conns@);
    let mut out: Vec<Connection> = Vec::new();
    let mut i: usize = 0;
    while i < conns.len()
        invariant
            i <= conns@.len(),
            cv == pairs_view(conns@),
            out@.len() == i,
            forall|j: int| 0 <= j < i ==> (#[trigger] out@[j])@ == link_of(j as nat, cv[j].0, cv[j].1),
        decreases conns@.len() - i,
    {
        let name = numbered_text("conn_", i);
        proof {
            reveal_strlit("conn_");
        }
        out.push(connection(name, conns[i].0.as_str(), conns[i].1.as_str()));
        i = i + 1;
    }
    let mut k: usize = 0;
    while k < ports.len()
        invariant
            k <= ports@.len(),
            cv == pairs_view(conns@),
            pv == pairs_view(ports@),
            out@.len() == cv.len() + k,
            forall|j: int| 0 <= j < cv.len() ==> (#[trigger] out@[j])@ == link_of(j as nat, cv[j].0, cv[j].1),
            forall|j: int| 0 <= j < k ==> (#[trigger] out@[cv.len() + j])@ == pin_link(pv[j].0, pv[j].1),
        decreases ports@.len() - k,
    {
        let name = concat("port_", ports[k].0.as_str());
        proof {
            reveal_strlit("port_");
        }
        let ghost before = out@;
        out.push(connection(name, ports[k].0.as_str(), ports[k].1.as_str()));
        proof {
            assert forall|j: int| 0 <= j < cv.len() implies (#[trigger] out@[j])@ == link_of(j as nat, cv[j].0, cv[j].1) by {
                assert(out@[j] == before[j]);
            }
            assert forall|j: int| 0 <= j < k + 1 implies (#[trigger] out@[cv.len() + j])@ == pin_link(pv[j].0, pv[j].1) by {
                if j < k {
                    assert(out@[cv.len() + j] == before[cv.len() + j]);
                }
            }
        }
        k = k + 1;
    }
    proof {
        let l = links_spec(pv, cv);
        let a = Seq::new(cv.len(), |i: int| link_of(i as nat, cv[i].0, cv[i].1));
        let b = Seq::new(pv.len(), |i: int| pin_link(pv[i].0, pv[i].1));
        assert(l.len() == out@.len());
        assert forall|j: int| 0 <= j < l.len() implies views_of(out@)[j] == l[j] by {
            if j < cv.len() {
                assert(l[j] == a[j]);
            } else {
                assert(l[j] == b[j - cv.len()]);
                assert(out@[cv.len() + (j - cv.len())]@ == pin_link(pv[j - cv.len()].0, pv[j - cv.len()].1));
            }
        }
        assert(views_of(out@) =~= l);
    }
    out
}

/// The connections of net `i` as a bus: `net<i>_c<j>` from its `j`-th member
/// to the next.
pub open spec fn bus_links(i: nat, members: Seq<Seq<char>>) -> Seq<ConnectionV> {
    Seq::new(
        if members.len() == 0 { 0 } else { (members.len() - 1) as nat },
        |j: int|
            ConnectionV {
                name: numbered(numbered("net"@, i) + "_c"@, j as nat),
                source: Some(terminal_spec(members[j])),
                target: Some(terminal_spec(members[j + 1])),
            },
    )
}

/// The bus of net `i`: named `net_<i>`, linking consecutive members.
pub fn net_bus(i: usize, members: &Vec<String>) -> (r: Bus)
    ensures
        r@ == (BusV {
            name: numbered("net_"@, i as nat),
            connections: bus_links(i as nat, strings_view(members@)),
            properties: Seq::empty(),
        }),
{
    let ghost mv = strings_view(members@);
    let name = numbered_text("net_", i);
    let head = numbered_text("net", i);
    let head = concat(head.as_str(), "_c");
    proof {
        reveal_strlit("net_");
        reveal_strlit("net");
        reveal_strlit("_c");
    }
    let mut links: Vec<Connection> = Vec::new();
    let n = if members.len() == 0 { 0 } else { members.len() - 1 };
    let mut j: usize = 0;
    while j < n
        invariant
            j <= n,
            n == if members@.len() == 0 { 0 } else { members@.len() - 1 },
            mv == strings_view(members@),
            head@ == numbered("net"@, i as nat) + "_c"@,
            links@.len() == j,
            forall|q: int|
                0 <= q < j ==> (#[trigger] links@[q])@ == bus_links(i as nat, mv)[q],
        decreases n - j,
    {
        let name_j = numbered_text(head.as_str(), j);
        links.push(connection(name_j, members[j].as_str(), members[j + 1].as_str()));
        j = j + 1;
    }
    let r = Bus { name, connections: links, properties: Vec::new() };
    proof {
        assert(views_of(r.connections@) =~= bus_links(i as nat, mv));
        assert(crate::parser::named_view(r.properties@) =~= Seq::<(Seq<char>, Seq<char>)>::empty());
        assert(r@ =~= (BusV { name: numbered("net_"@, i as nat), connections: bus_links(i as nat, mv), properties: Seq::empty() }));
    }
    r
}

/// Whether a connection name marks a pin's connection.
pub open spec fn names_pin(name: Seq<char>) -> bool {
    name.len() >= 5 && name.take(5) == "port_"@
}

/// Pins and connections read back from the first `n` connections: a pin's
/// connection gives the pin (by its terminal name) and what it exposes; any
/// other gives a connection; a connection missing an end gives nothing.
pub open spec fn recover_links_spec(cs: Seq<ConnectionV>, n: int) -> (Seq<(Seq<char>, Seq<char>)>, Seq<(Seq<char>, Seq<char>)>)
    decreases n,
{
    if n <= 0 {
        (Seq::empty(), Seq::empty())
    } else {
        let (p, c) = recover_links_spec(cs, n - 1);
        let x = cs[n - 1];
        match (x.source, x.target) {
            (Some(s), Some(t)) => if names_pin(x.name) {
                (vmap_insert(p, s.terminal_name, reference_spec(t)), c)
            } else {
                (p, vmap_insert(c, reference_spec(s), reference_spec(t)))
            },
            _ => (p, c),
        }
    }
}

/// Every terminal is a pin; one without a connection names itself.
pub open spec fn add_terminals(p: Seq<(Seq<char>, Seq<char>)>, ts: Seq<TerminalV>, n: int) -> Seq<(Seq<char>, Seq<char>)>
    decreases n,
{
    if n <= 0 {
        p
    } else {
        let acc = add_terminals(p, ts, n - 1);
        vmap_insert_absent(acc, ts[n - 1].name, ts[n - 1].name)
    }
}

/// The pins and connections of a circuit module's connections and terminals.
pub open spec fn recovered_links(cs: Seq<ConnectionV>, ts: Seq<TerminalV>) -> (Seq<(Seq<char>, Seq<char>)>, Seq<(Seq<char>, Seq<char>)>) {
    let (p, c) = recover_links_spec(cs, cs.len() as int);
    (add_terminals(p, ts, ts.len() as int), c)
}

fn has_pin_prefix(name: &String) -> (r: bool)
    ensures
        r == names_pin(name@),
{
    let cs = chars_of(name.as_str());
    proof {
        reveal_strlit("port_");
    }
    if cs.len() < 5 {
        return false;
    }
    let r = cs[0] == 'p' && cs[1] == 'o' && cs[2] == 'r' && cs[3] == 't' && cs[4] == '_';
    proof {
        if r {
            assert(name@.take(5) =~= "port_"@);
        } else {
            if name@.take(5) == "port_"@ {
                assert(name@.take(5)[0] == 'p');
                assert(name@.take(5)[1] == 'o');
                assert(name@.take(5)[2] == 'r');
                assert(name@.take(5)[3] == 't');
                assert(name@.take(5)[4] == '_');
            }
        }
    }
    r
}

proof fn lemma_pairs_key_index(e: Seq<(String, String)>, k: Seq<char>)
    ensures
        key_index(e, k) == vkey_index(pairs_view(e), k),
    decreases e.len(),
{
    if e.len() > 0 {
        assert(pairs_view(e.drop_first()) =~= pairs_view(e).drop_first());
        lemma_pairs_key_index(e.drop_first(), k);
    }
}

fn pair_insert(m: &mut Vec<(String, String)>, k: String, v: String)
    ensures
        pairs_view(final(m)@) == vmap_insert(pairs_view(old(m)@), k@, v@),
{
    proof {
        lemma_pairs_key_index(m@, k@);
        lemma_key_index(m@, k@);
    }
    let ghost before = m@;
    let ghost kv = (k@, v@);
    map_insert(m, k, v);
    proof {
        match key_index(before, kv.0) {
            Some(j) => {
                assert(pairs_view(m@) =~= pairs_view(before).update(j, kv));
            },
            None => {
                assert(pairs_view(m@) =~= pairs_view(before).push(kv));
            },
        }
    }
}

fn pair_insert_absent(m: &mut Vec<(String, String)>, k: String, v: String)
    ensures
        pairs_view(final(m)@) == vmap_insert_absent(pairs_view(old(m)@), k@, v@),
{
    proof {
        lemma_pairs_key_index(m@, k@);
        lemma_key_index(m@, k@);
    }
    let ghost before = m@;
    let ghost kv = (k@, v@);
    map_insert_absent(m, k, v);
    proof {
        if key_index(before, kv.0) is None {
            assert(pairs_view(m@) =~= pairs_view(before).push(kv));
        }
    }
}

/// The pins and connections of a circuit module: `port_` connections give
/// pins, the others connections, then every terminal without one names
/// itself.
pub fn recover_links(conns: &Vec<Connection>, terminals: &Vec<Terminal>) -> (r: (Vec<(String, String)>, Vec<(String, String)>))
    ensures
        (pairs_view(r.0@), pairs_view(r.1@)) == recovered_links(views_of(conns@), views_of(terminals@)),
{
    let ghost cv = views_of(conns@);
    let mut ports: Vec<(String, String)> = Vec::new();
    let mut links: Vec<(String, String)> = Vec::new();
    let mut i: usize = 0;
    proof {
        assert(pairs_view(ports@) =~= Seq::<(Seq<char>, Seq<char>)>::empty());
        assert(pairs_view(links@) =~= Seq::<(Seq<char>, Seq<char>)>::empty());
    }
    while i < conns.len()
        invariant
            i <= conns@.len(),
            cv == views_of(conns@),
            (pairs_view(ports@), pairs_view(links@)) == recover_links_spec(cv, i as int),
        decreases conns@.len() - i,
    {
        let c = &conns[i];
        proof {
            assert(cv[i as int] == c@);
        }
        match (&c.source, &c.target) {
            (Some(s), Some(t)) => {
                if has_pin_prefix(&c.name) {
                    pair_insert(&mut ports, s.terminal_name.clone(), reference(t));
                } else {
                    pair_insert(&mut links, reference(s), reference(t));
                }
            },
            _ => {},
        }
        i = i + 1;
    }
    let ghost tv = views_of(terminals@);
    let ghost p0 = pairs_view(ports@);
    let mut k: usize = 0;
    while k < terminals.len()
        invariant
            k <= terminals@.len(),
            tv == views_of(terminals@),
            pairs_view(ports@) == add_terminals(p0, tv, k as int),
        decreases terminals@.len() - k,
    {
        proof {
            assert(tv[k as int] == terminals@[k as int]@);
        }
        pair_insert_absent(&mut ports, terminals[k].name.clone(), terminals[k].name.clone());
        k = k + 1;
    }
    (ports, links)
}

/// Whether a reference text reads back as itself through its terminal.
pub open spec fn reads_back(x: Seq<char>) -> bool {
    reference_spec(terminal_spec(x)) == x
}

/// Whether a pin name is its own terminal's name.
pub open spec fn pin_reads_back(n: Seq<char>) -> bool {
    terminal_spec(n).terminal_name == n
}

pub open spec fn distinct_keys<V>(e: Seq<(Seq<char>, V)>) -> bool {
    forall|i: int, j: int| 0 <= i < j < e.len() ==> #[trigger] e[i].0 != #[trigger] e[j].0
}

pub(crate) proof fn lemma_insert_next<V>(e: Seq<(Seq<char>, V)>, n: int)
    requires
        distinct_keys(e),
        0 <= n < e.len(),
    ensures
        vmap_insert(e.take(n), e[n].0, e[n].1) == e.take(n + 1),
        vmap_insert_absent(e.take(n), e[n].0, e[n].1) == e.take(n + 1),
{
    lemma_vkey_index(e.take(n), e[n].0);
    if vkey_index(e.take(n), e[n].0) is Some {
        let j = vkey_index(e.take(n), e[n].0)->0;
        assert(e.take(n)[j] == e[j]);
    }
    assert(e.take(n).push(e[n]) =~= e.take(n + 1));
}

proof fn lemma_terminals_present(p: Seq<(Seq<char>, Seq<char>)>, ts: Seq<TerminalV>, n: int)
    requires
        0 <= n <= ts.len(),
        ts.len() == p.len(),
        forall|i: int| 0 <= i < ts.len() ==> #[trigger] ts[i].name == p[i].0,
    ensures
        add_terminals(p, ts, n) == p,
    decreases n,
{
    if n > 0 {
        lemma_terminals_present(p, ts, n - 1);
        lemma_vkey_index(p, ts[n - 1].name);
        assert(p[n - 1].0 == ts[n - 1].name);
    }
}

/// A module's pins and connections, written as terminals and named
/// connections, read back as the same pins and connections, whenever pin
/// names are their own terminal names, references read back as themselves,
/// and names are distinct.
pub proof fn lemma_links_round_trip(ports: Seq<(Seq<char>, Seq<char>)>, conns: Seq<(Seq<char>, Seq<char>)>)
    requires
        distinct_keys(ports),
        distinct_keys(conns),
        forall|i: int| 0 <= i < ports.len() ==> pin_reads_back(#[trigger] ports[i].0) && reads_back(ports[i].1),
        forall|i: int| 0 <= i < conns.len() ==> reads_back(#[trigger] conns[i].0) && reads_back(conns[i].1),
    ensures
        recovered_links(links_spec(ports, conns), terminals_spec(ports)) == (ports, conns),
{
    let cs = links_spec(ports, conns);
    let a = conns.len();
    assert forall|n: int| 0 <= n <= a implies #[trigger] recover_links_spec(cs, n) == (
        Seq::<(Seq<char>, Seq<char>)>::empty(),
        conns.take(n),
    ) by {
        lemma_recover_conns(ports, conns, n);
    }
    lemma_recover_pins(ports, conns, ports.len() as int);
    assert(ports.take(ports.len() as int) =~= ports);
    assert(conns.take(conns.len() as int) =~= conns);
    let ts = terminals_spec(ports);
    lemma_terminals_present(ports, ts, ts.len() as int);
}

proof fn lemma_recover_conns(ports: Seq<(Seq<char>, Seq<char>)>, conns: Seq<(Seq<char>, Seq<char>)>, n: int)
    requires
        distinct_keys(conns),
        forall|i: int| 0 <= i < conns.len() ==> reads_back(#[trigger] conns[i].0) && reads_back(conns[i].1),
        0 <= n <= conns.len(),
    ensures
        recover_links_spec(links_spec(ports, conns), n) == (Seq::<(Seq<char>, Seq<char>)>::empty(), conns.take(n)),
    decreases n,
{
    if n == 0 {
        assert(conns.take(0) =~= Seq::<(Seq<char>, Seq<char>)>::empty());
    } else {
        lemma_recover_conns(ports, conns, n - 1);
        let cs = links_spec(ports, conns);
        let x = cs[n - 1];
        assert(x == link_of((n - 1) as nat, conns[n - 1].0, conns[n - 1].1));
        reveal_strlit("conn_");
        reveal_strlit("port_");
        assert(!names_pin(x.name)) by {
            if names_pin(x.name) {
                assert(x.name.take(5)[0] == 'c');
                assert("port_"@[0] == 'p');
            }
        }
        assert(reads_back(conns[n - 1].0) && reads_back(conns[n - 1].1));
        lemma_insert_next(conns, n - 1);
    }
}

proof fn lemma_recover_pins(ports: Seq<(Seq<char>, Seq<char>)>, conns: Seq<(Seq<char>, Seq<char>)>, k: int)
    requires
        distinct_keys(ports),
        forall|i: int| 0 <= i < ports.len() ==> pin_reads_back(#[trigger] ports[i].0) && reads_back(ports[i].1),
        distinct_keys(conns),
        forall|i: int| 0 <= i < conns.len() ==> reads_back(#[trigger] conns[i].0) && reads_back(conns[i].1),
        0 <= k <= ports.len(),
    ensures
        recover_links_spec(links_spec(ports, conns), conns.len() + k) == (ports.take(k), conns),
    decreases k,
{
    let cs = links_spec(ports, conns);
    if k == 0 {
        lemma_recover_conns(ports, conns, conns.len() as int);
        assert(conns.take(conns.len() as int) =~= conns);
        assert(ports.take(0) =~= Seq::<(Seq<char>, Seq<char>)>::empty());
    } else {
        lemma_recover_pins(ports, conns, k - 1);
        let x = cs[conns.len() + k - 1];
        assert(x == pin_link(ports[k - 1].0, ports[k - 1].1));
        reveal_strlit("port_");
        assert(x.name.take(5) =~= "port_"@);
        assert(pin_reads_back(ports[k - 1].0) && reads_back(ports[k - 1].1));
        lemma_insert_next(ports, k - 1);
    }
}

/// A reference appended to member texts unless it repeats the last one.
pub open spec fn push_ref(acc: Seq<Seq<char>>, t: Option<TerminalReferenceV>) -> Seq<Seq<char>> {
    match t {
        Some(x) => if acc.len() > 0 && acc.last() == reference_spec(x) {
            acc
        } else {
            acc.push(reference_spec(x))
        },
        None => acc,
    }
}

/// The members of a bus read from its first `n` connections: each end in
/// turn, a repeat of the previous member skipped.
pub open spec fn members_from(cs: Seq<ConnectionV>, n: int) -> Seq<Seq<char>>
    decreases n,
{
    if n <= 0 {
        Seq::empty()
    } else {
        push_ref(push_ref(members_from(cs, n - 1), cs[n - 1].source), cs[n - 1].target)
    }
}

fn push_reference(acc: &mut Vec<String>, t: &Option<TerminalReference>)
    ensures
        strings_view(final(acc)@) == push_ref(
            strings_view(old(acc)@),
            match t {
                Some(x) => Some(x@),
                None => None,
            },
        ),
{
    match t {
        Some(x) => {
            let r = reference(x);
            let n = acc.len();
            let repeat = n > 0 && acc[n - 1] == r;
            if !repeat {
                let ghost before = acc@;
                acc.push(r);
                proof {
                    assert(strings_view(acc@) =~= strings_view(before).push(reference_spec(x@)));
                }
            } else {
                proof {
                    assert(strings_view(acc@).last() == acc@[n - 1]@);
                }
            }
        },
        None => {},
    }
}

/// The members of a bus without its member list: the ends of its
/// connections in order, a repeat of the previous member skipped.
pub fn bus_members(bus: &Bus) -> (r: Vec<String>)
    ensures
        strings_view(r@) == members_from(views_of(bus.connections@), bus.connections@.len() as int),
{
    let ghost cv = views_of(bus.connections@);
    let mut out: Vec<String> = Vec::new();
    let mut i: usize = 0;
    proof {
        assert(strings_view(out@) =~= Seq::<Seq<char>>::empty());
    }
    while i < bus.connections.len()
        invariant
            i <= bus.connections@.len(),
            cv == views_of(bus.connections@),
            strings_view(out@) == members_from(cv, i as int),
        decreases bus.connections@.len() - i,
    {
        let c = &bus.connections[i];
        proof {
            assert(cv[i as int] == c@);
        }
        push_reference(&mut out, &c.source);
        push_reference(&mut out, &c.target);
        i = i + 1;
    }
    out
}

/// The members of a net of at least two members, no two consecutive ones
/// alike, each reading back as itself, are recovered from its bus's
/// connections alone.
pub proof fn lemma_bus_members_round_trip(i: nat, members: Seq<Seq<char>>)
    requires
        members.len() >= 2,
        forall|j: int| 0 <= j < members.len() ==> reads_back(#[trigger] members[j]),
        forall|j: int| 0 <= j < members.len() - 1 ==> #[trigger] members[j] != members[j + 1],
    ensures
        members_from(bus_links(i, members), members.len() - 1) == members,
{
    lemma_members_prefix(i, members, members.len() - 1);
    assert(members.take(members.len() as int) =~= members);
}

proof fn lemma_members_prefix(i: nat, members: Seq<Seq<char>>, n: int)
    requires
        members.len() >= 2,
        1 <= n <= members.len() - 1,
        forall|j: int| 0 <= j < members.len() ==> reads_back(#[trigger] members[j]),
        forall|j: int| 0 <= j < members.len() - 1 ==> #[trigger] members[j] != members[j + 1],
    ensures
        members_from(bus_links(i, members), n) == members.take(n + 1),
    decreases n,
{
    let cs = bus_links(i, members);
    assert(reads_back(members[n - 1]) && reads_back(members[n]));
    assert(members[n - 1] != members[n]);
    if n == 1 {
        assert(members_from(cs, 0) == Seq::<Seq<char>>::empty());
        assert(seq![members[0]] =~= Seq::<Seq<char>>::empty().push(members[0]));
        assert(seq![members[0]].push(members[1]) =~= members.take(2));
    } else {
        lemma_members_prefix(i, members, n - 1);
        assert(members.take(n).last() == members[n - 1]);
        assert(members.take(n).push(members[n]) =~= members.take(n + 1));
    }
}

} // verus!
