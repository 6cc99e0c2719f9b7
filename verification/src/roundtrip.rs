//! Recovering a module from a netlist and elaborating it again gives the
//! netlist back, for netlists in the form elaboration itself produces.
use vstd::prelude::*;
use crate::json::JsonV;
use crate::netlist::{InstanceV, MemberV, NetlistV, vkey_index, lemma_vkey_index};
use crate::document::{
    add_connections, add_declared, add_instances, add_nets, add_port_nets, declare_ports, elaborate,
    instance_array, others_of, parse_all, pins_of, recover, recover_instance, split_nets, texts_of,
    vmap_insert, ModuleV, InstanceDocV, recover_all, elaborate_all, elaborate_document,
    TopLevelModuleV,
};
use crate::portref::{lemma_parse_unparse, port_ref_spec, round_trips, unparse_spec};
use crate::text::int_text;

verus! {

/// A net of one pin and one instance port, as `split_nets` sees it.
pub open spec fn is_pin_net(ms: Seq<MemberV>) -> bool {
    pins_of(ms).len() == 1 && others_of(ms).len() == 1
}

pub open spec fn nonpin_nets(ns: Seq<Seq<MemberV>>) -> Seq<Seq<MemberV>>
    decreases ns.len(),
{
    if ns.len() == 0 {
        Seq::empty()
    } else if is_pin_net(ns.last()) {
        nonpin_nets(ns.drop_last())
    } else {
        nonpin_nets(ns.drop_last()).push(ns.last())
    }
}

pub open spec fn pin_nets(ns: Seq<Seq<MemberV>>) -> Seq<Seq<MemberV>>
    decreases ns.len(),
{
    if ns.len() == 0 {
        Seq::empty()
    } else if is_pin_net(ns.last()) {
        pin_nets(ns.drop_last()).push(ns.last())
    } else {
        pin_nets(ns.drop_last())
    }
}

pub open spec fn pin_name(m: MemberV) -> Seq<char> {
    match m {
        MemberV::Port(n) => n,
        _ => Seq::empty(),
    }
}

/// The pins of the pin nets, in order.
pub open spec fn pin_names(ns: Seq<Seq<MemberV>>) -> Seq<Seq<char>> {
    Seq::new(pin_nets(ns).len(), |i: int| pin_name(pin_nets(ns)[i][0]))
}

pub open spec fn pin_entries(ns: Seq<Seq<MemberV>>) -> Seq<(Seq<char>, Seq<char>)> {
    Seq::new(
        pin_nets(ns).len(),
        |i: int| (pin_name(pin_nets(ns)[i][0]), unparse_spec(pin_nets(ns)[i][1])),
    )
}

pub open spec fn nonpin_texts(ns: Seq<Seq<MemberV>>) -> Seq<Seq<Seq<char>>> {
    Seq::new(nonpin_nets(ns).len(), |i: int| texts_of(nonpin_nets(ns)[i]))
}

/// An instance as elaboration places it: no library, object settings, and an
/// array exactly where the document gives one.
pub open spec fn placed_form(inst: InstanceV) -> bool {
    &&& inst.kcl.len() == 0
    &&& inst.settings is Object
    &&& match inst.array {
        Some((na, nb)) => na >= 1 && nb >= 1,
        None => vkey_index(inst.settings->Object_0, "array_size"@) is None,
    }
}

/// The shape of a netlist that elaboration of a recovered module reproduces:
/// names distinct; every member valid and written back as itself, except the
/// pin of a pin-and-port net, which needs only to hold no comma; instances
/// as elaboration places them; nets of one pin and one instance port written
/// pin first, after all other nets; those pins declared first, in the same
/// order.
pub open spec fn elaboration_form(nl: NetlistV) -> bool {
    &&& nl.wf()
    &&& forall|i: int, j: int|
        0 <= i < nl.nets.len() && 0 <= j < nl.nets[i].len() ==> (round_trips(#[trigger] nl.nets[i][j])
            || (is_pin_net(nl.nets[i]) && nl.nets[i][j] is Port && !pin_name(nl.nets[i][j]).contains(',')))
            && nl.member_error(nl.nets[i][j]) is None
    &&& forall|i: int| 0 <= i < nl.instances.len() ==> placed_form(#[trigger] nl.instances[i].1)
    &&& forall|i: int|
        0 <= i < nl.nets.len() && is_pin_net(#[trigger] nl.nets[i]) ==> nl.nets[i].len() == 2
            && nl.nets[i][0] is Port
    &&& forall|i: int, j: int|
        0 <= i < j < nl.nets.len() && is_pin_net(#[trigger] nl.nets[i]) ==> is_pin_net(
            #[trigger] nl.nets[j],
        )
    &&& pin_names(nl.nets).len() <= nl.ports.len()
    &&& nl.ports.take(pin_names(nl.nets).len() as int) == pin_names(nl.nets)
}

pub open spec fn entry_keys(e: Seq<(Seq<char>, Seq<char>)>) -> Seq<Seq<char>> {
    Seq::new(e.len(), |i: int| e[i].0)
}

/// Entries of pins that name themselves, that is, are unconnected.
pub open spec fn self_entries(r: Seq<Seq<char>>) -> Seq<(Seq<char>, Seq<char>)> {
    Seq::new(r.len(), |i: int| (r[i], r[i]))
}

proof fn lemma_pin_net_shape(ms: Seq<MemberV>)
    requires
        is_pin_net(ms),
        ms.len() == 2,
        ms[0] is Port,
    ensures
        pins_of(ms) == seq![ms[0]],
        others_of(ms) == seq![ms[1]],
        !(ms[1] is Port),
{
    assert(ms.drop_last() =~= seq![ms[0]]);
    assert(seq![ms[0]].drop_last() =~= Seq::<MemberV>::empty());
    assert(seq![ms[0]].last() == ms[0]);
    assert(pins_of(seq![ms[0]]) =~= seq![ms[0]]);
    assert(others_of(seq![ms[0]]) =~= Seq::<MemberV>::empty());
    assert(ms.last() == ms[1]);
    if ms[1] is Port {
        assert(pins_of(ms) == pins_of(seq![ms[0]]).push(ms[1]));
        assert(pins_of(ms).len() == 2);
    }
}

proof fn lemma_no_pin_nets(ns: Seq<Seq<MemberV>>)
    requires
        forall|i: int| 0 <= i < ns.len() ==> !is_pin_net(#[trigger] ns[i]),
    ensures
        pin_nets(ns) == Seq::<Seq<MemberV>>::empty(),
        nonpin_nets(ns) == ns,
    decreases ns.len(),
{
    if ns.len() > 0 {
        lemma_no_pin_nets(ns.drop_last());
        assert(ns.drop_last().push(ns.last()) =~= ns);
    }
}

/// With all pin nets after the others, the nets are the other nets followed
/// by the pin nets.
proof fn lemma_nonpin_not_pin(ns: Seq<Seq<MemberV>>, i: int)
    requires
        0 <= i < nonpin_nets(ns).len(),
    ensures
        !is_pin_net(nonpin_nets(ns)[i]),
    decreases ns.len(),
{
    let dl = ns.drop_last();
    if i < nonpin_nets(dl).len() {
        lemma_nonpin_not_pin(dl, i);
    }
}

proof fn lemma_nets_partition(ns: Seq<Seq<MemberV>>)
    requires
        forall|i: int, j: int|
            0 <= i < j < ns.len() && is_pin_net(#[trigger] ns[i]) ==> is_pin_net(#[trigger] ns[j]),
    ensures
        ns == nonpin_nets(ns) + pin_nets(ns),
        forall|i: int| 0 <= i < pin_nets(ns).len() ==> is_pin_net(#[trigger] pin_nets(ns)[i]),
    decreases ns.len(),
{
    if ns.len() > 0 {
        let dl = ns.drop_last();
        assert forall|i: int, j: int|
            0 <= i < j < dl.len() && is_pin_net(#[trigger] dl[i]) implies is_pin_net(#[trigger] dl[j]) by {
            assert(dl[i] == ns[i] && dl[j] == ns[j]);
        }
        lemma_nets_partition(dl);
        if is_pin_net(ns.last()) {
            assert(pin_nets(ns) == pin_nets(dl).push(ns.last()));
            assert(nonpin_nets(ns) == nonpin_nets(dl));
            assert(dl.push(ns.last()) =~= ns);
            assert((nonpin_nets(dl) + pin_nets(dl)).push(ns.last()) =~= nonpin_nets(dl) + pin_nets(
                dl,
            ).push(ns.last()));
            assert(ns =~= nonpin_nets(ns) + pin_nets(ns));
            assert forall|i: int| 0 <= i < pin_nets(ns).len() implies is_pin_net(#[trigger] pin_nets(ns)[i]) by {
                if i < pin_nets(dl).len() {
                    assert(pin_nets(ns)[i] == pin_nets(dl)[i]);
                }
            }
        } else {
            assert forall|i: int| 0 <= i < dl.len() implies !is_pin_net(#[trigger] dl[i]) by {
                assert(dl[i] == ns[i]);
                assert(ns[ns.len() - 1] == ns.last());
            }
            lemma_no_pin_nets(dl);
            assert(pin_nets(ns) == pin_nets(dl));
            assert(nonpin_nets(ns) == nonpin_nets(dl).push(ns.last()));
            assert(dl.push(ns.last()) =~= ns);
            assert(ns =~= nonpin_nets(ns) + pin_nets(ns));
        }
    }
}

/// Nets of distinct pins split into one entry per pin net and the other nets.
proof fn lemma_split_nets(ns: Seq<Seq<MemberV>>)
    requires
        forall|i: int|
            0 <= i < ns.len() && is_pin_net(#[trigger] ns[i]) ==> ns[i].len() == 2 && ns[i][0] is Port,
        forall|i: int, j: int|
            0 <= i < j < pin_names(ns).len() ==> #[trigger] pin_names(ns)[i] != #[trigger] pin_names(ns)[j],
    ensures
        split_nets(ns) == (pin_entries(ns), nonpin_texts(ns)),
    decreases ns.len(),
{
    if ns.len() > 0 {
        let dl = ns.drop_last();
        let last = ns.last();
        assert forall|i: int|
            0 <= i < dl.len() && is_pin_net(#[trigger] dl[i]) implies dl[i].len() == 2 && dl[i][0] is Port by {
            assert(dl[i] == ns[i]);
        }
        if is_pin_net(last) {
            assert(pin_nets(ns) == pin_nets(dl).push(last));
            assert(pin_names(dl) =~= pin_names(ns).take(pin_names(dl).len() as int));
        } else {
            assert(pin_nets(ns) == pin_nets(dl));
            assert(pin_names(dl) =~= pin_names(ns));
        }
        lemma_split_nets(dl);
        if is_pin_net(last) {
            assert(ns[ns.len() - 1] == last);
            lemma_pin_net_shape(last);
            let e = pin_entries(dl);
            let k = pin_name(last[0]);
            lemma_vkey_index(e, k);
            if vkey_index(e, k) is Some {
                let i = vkey_index(e, k)->0;
                assert(pin_names(ns)[i] == e[i].0);
                assert(pin_names(ns)[pin_names(dl).len() as int] == k);
            }
            assert(pin_entries(ns) =~= e.push((k, unparse_spec(last[1]))));
            assert(nonpin_texts(ns) =~= nonpin_texts(dl));
        } else {
            assert(nonpin_nets(ns) == nonpin_nets(dl).push(last));
            assert(pin_entries(ns) =~= pin_entries(dl));
            assert(nonpin_texts(ns) =~= nonpin_texts(dl).push(texts_of(last)));
        }
    }
}

proof fn lemma_add_declared_known(e: Seq<(Seq<char>, Seq<char>)>, d: Seq<Seq<char>>)
    requires
        forall|j: int| 0 <= j < d.len() ==> vkey_index(e, #[trigger] d[j]) is Some,
    ensures
        add_declared(e, d) == e,
    decreases d.len(),
{
    if d.len() > 0 {
        let dl = d.drop_last();
        assert forall|j: int| 0 <= j < dl.len() implies vkey_index(e, #[trigger] dl[j]) is Some by {
            assert(dl[j] == d[j]);
        }
        lemma_add_declared_known(e, dl);
        assert(vkey_index(e, d[d.len() - 1]) is Some);
    }
}

/// Pins declared after the entries' pins, each once, are appended as
/// unconnected entries.
proof fn lemma_add_declared(e: Seq<(Seq<char>, Seq<char>)>, r: Seq<Seq<char>>)
    requires
        forall|i: int, j: int|
            0 <= i < j < (entry_keys(e) + r).len() ==> #[trigger] (entry_keys(e) + r)[i] != #[trigger] (
            entry_keys(e) + r)[j],
    ensures
        add_declared(e, entry_keys(e) + r) == e + self_entries(r),
    decreases r.len(),
{
    let k = entry_keys(e);
    if r.len() == 0 {
        assert(k + r =~= k);
        assert forall|j: int| 0 <= j < k.len() implies vkey_index(e, #[trigger] k[j]) is Some by {
            lemma_vkey_index(e, k[j]);
            if vkey_index(e, k[j]) is None {
                assert(e[j].0 == k[j]);
            }
        }
        lemma_add_declared_known(e, k);
        assert(e + self_entries(r) =~= e);
    } else {
        let rl = r.drop_last();
        let x = r.last();
        assert((k + r).drop_last() =~= k + rl);
        assert forall|i: int, j: int|
            0 <= i < j < (k + rl).len() implies #[trigger] (k + rl)[i] != #[trigger] (k + rl)[j] by {
            assert((k + rl)[i] == (k + r)[i] && (k + rl)[j] == (k + r)[j]);
        }
        lemma_add_declared(e, rl);
        let acc = e + self_entries(rl);
        lemma_vkey_index(acc, x);
        if vkey_index(acc, x) is Some {
            let i = vkey_index(acc, x)->0;
            assert(acc[i].0 == (k + r)[i]);
            assert((k + r)[(k + r).len() - 1] == x);
        }
        assert((k + r).last() == x);
        assert(acc.push((x, x)) =~= e + self_entries(r));
    }
}

/// Declaring pins not yet declared, each once, appends them in order.
proof fn lemma_declare_fresh(n: NetlistV, ps: Seq<(Seq<char>, Seq<char>)>)
    requires
        forall|i: int, j: int| 0 <= i < j < ps.len() ==> #[trigger] ps[i].0 != #[trigger] ps[j].0,
        forall|i: int| 0 <= i < ps.len() ==> !n.ports.contains(#[trigger] ps[i].0),
    ensures
        declare_ports(n, ps) == (NetlistV { ports: n.ports + entry_keys(ps), ..n }),
    decreases ps.len(),
{
    if ps.len() == 0 {
        assert(n.ports + entry_keys(ps) =~= n.ports);
        assert((NetlistV { ports: n.ports + entry_keys(ps), ..n }) =~= n);
    } else {
        let n1 = n.with_port(ps[0].0);
        let rest = ps.drop_first();
        assert(n1 == NetlistV { ports: n.ports.push(ps[0].0), ..n });
        assert forall|i: int, j: int| 0 <= i < j < rest.len() implies #[trigger] rest[i].0 != #[trigger] rest[j].0 by {
            assert(rest[i] == ps[i + 1] && rest[j] == ps[j + 1]);
        }
        assert forall|i: int| 0 <= i < rest.len() implies !n1.ports.contains(#[trigger] rest[i].0) by {
            assert(rest[i] == ps[i + 1]);
            if n1.ports.contains(rest[i].0) {
                let j = choose|j: int| 0 <= j < n1.ports.len() && n1.ports[j] == rest[i].0;
                if j < n.ports.len() {
                    assert(n.ports[j] == n1.ports[j]);
                }
            }
        }
        lemma_declare_fresh(n1, rest);
        assert(n1.ports + entry_keys(rest) =~= n.ports + entry_keys(ps));
    }
}

pub open spec fn recovered_instances(xs: Seq<(Seq<char>, InstanceV)>) -> Seq<(Seq<char>, InstanceDocV)> {
    Seq::new(xs.len(), |i: int| (xs[i].0, recover_instance(xs[i].1)))
}

/// Placing recovered instances of fresh, distinct names reproduces them.
proof fn lemma_add_recovered(n: NetlistV, xs: Seq<(Seq<char>, InstanceV)>)
    requires
        forall|i: int, j: int| 0 <= i < j < xs.len() ==> #[trigger] xs[i].0 != #[trigger] xs[j].0,
        forall|i: int, j: int|
            0 <= i < xs.len() && 0 <= j < n.instances.len() ==> #[trigger] n.instances[j].0
                != #[trigger] xs[i].0,
        forall|i: int| 0 <= i < xs.len() ==> placed_form(#[trigger] xs[i].1),
    ensures
        add_instances(n, recovered_instances(xs)) == Ok::<NetlistV, Seq<char>>(
            NetlistV { instances: n.instances + xs, ..n },
        ),
    decreases xs.len(),
{
    let ri = recovered_instances(xs);
    if xs.len() == 0 {
        assert(n.instances + xs =~= n.instances);
        assert((NetlistV { instances: n.instances + xs, ..n }) =~= n);
    } else {
        let (name, x) = xs[0];
        assert(placed_form(x));
        let d = recover_instance(x);
        assert(ri[0] == (name, d));
        let m = x.settings->Object_0;
        assert(d.settings == m);
        assert(instance_array(d) == Ok::<Option<(i64, i64)>, Seq<char>>(x.array));
        lemma_vkey_index(n.instances, name);
        let (na, nb) = match x.array {
            Some(a) => a,
            None => (0i64, 0i64),
        };
        let placed = InstanceV {
            kcl: Seq::empty(),
            component: d.component,
            settings: JsonV::Object(d.settings),
            array: None,
            info: d.info,
        };
        let got = InstanceV { array: if na > 0 { Some((na, nb)) } else { None }, ..placed };
        assert(got =~= x);
        let n1 = NetlistV { instances: n.instances.push((name, x)), ..n };
        assert(n.with_instance(name, placed, na, nb) == Ok::<NetlistV, Seq<char>>(n1));
        let rest = xs.drop_first();
        assert(ri.drop_first() =~= recovered_instances(rest));
        assert forall|i: int, j: int| 0 <= i < j < rest.len() implies #[trigger] rest[i].0 != #[trigger] rest[j].0 by {
            assert(rest[i] == xs[i + 1] && rest[j] == xs[j + 1]);
        }
        assert forall|i: int, j: int|
            0 <= i < rest.len() && 0 <= j < n1.instances.len() implies #[trigger] n1.instances[j].0
                != #[trigger] rest[i].0 by {
            assert(rest[i] == xs[i + 1]);
            if j < n.instances.len() {
                assert(n1.instances[j] == n.instances[j]);
            }
        }
        assert forall|i: int| 0 <= i < rest.len() implies placed_form(#[trigger] rest[i].1) by {
            assert(rest[i] == xs[i + 1]);
        }
        lemma_add_recovered(n1, rest);
        assert(n1.instances + rest =~= n.instances + xs);
    }
}

/// Written members that read back as themselves parse to the same members.
proof fn lemma_parse_texts(ms: Seq<MemberV>)
    requires
        forall|j: int| 0 <= j < ms.len() ==> round_trips(#[trigger] ms[j]),
    ensures
        parse_all(texts_of(ms)) == Ok::<Seq<MemberV>, Seq<char>>(ms),
    decreases ms.len(),
{
    if ms.len() > 0 {
        let rest = ms.drop_first();
        assert forall|j: int| 0 <= j < rest.len() implies round_trips(#[trigger] rest[j]) by {
            assert(rest[j] == ms[j + 1]);
        }
        lemma_parse_texts(rest);
        assert(texts_of(ms).drop_first() =~= texts_of(rest));
        assert(round_trips(ms[0]));
        lemma_parse_unparse(ms[0]);
        assert(texts_of(ms)[0] == unparse_spec(ms[0]));
        assert(seq![ms[0]] + rest =~= ms);
    } else {
        assert(texts_of(ms) =~= Seq::<Seq<char>>::empty());
        assert(ms =~= Seq::<MemberV>::empty());
    }
}

proof fn lemma_members_valid(n: NetlistV, ms: Seq<MemberV>)
    requires
        forall|j: int| 0 <= j < ms.len() ==> n.member_error(#[trigger] ms[j]) is None,
    ensures
        n.first_member_error(ms) is None,
    decreases ms.len(),
{
    if ms.len() > 0 {
        let rest = ms.drop_first();
        assert forall|j: int| 0 <= j < rest.len() implies n.member_error(#[trigger] rest[j]) is None by {
            assert(rest[j] == ms[j + 1]);
        }
        lemma_members_valid(n, rest);
        assert(n.member_error(ms[0]) is None);
    }
}

/// Connecting written nets whose members read back and are valid adds them.
proof fn lemma_add_written_nets(n: NetlistV, ns: Seq<Seq<MemberV>>)
    requires
        forall|i: int, j: int|
            0 <= i < ns.len() && 0 <= j < ns[i].len() ==> round_trips(#[trigger] ns[i][j])
                && n.member_error(ns[i][j]) is None,
    ensures
        add_nets(n, Seq::new(ns.len(), |i: int| texts_of(ns[i]))) == Ok::<NetlistV, Seq<char>>(
            NetlistV { nets: n.nets + ns, ..n },
        ),
    decreases ns.len(),
{
    let ts = Seq::new(ns.len(), |i: int| texts_of(ns[i]));
    if ns.len() == 0 {
        assert(n.nets + ns =~= n.nets);
        assert((NetlistV { nets: n.nets + ns, ..n }) =~= n);
    } else {
        let ms = ns[0];
        assert forall|j: int| 0 <= j < ms.len() implies round_trips(#[trigger] ms[j]) by {
            assert(round_trips(ns[0][j]));
        }
        lemma_parse_texts(ms);
        assert forall|j: int| 0 <= j < ms.len() implies n.member_error(#[trigger] ms[j]) is None by {
            assert(round_trips(ns[0][j]));
        }
        lemma_members_valid(n, ms);
        let n1 = NetlistV { nets: n.nets.push(ms), ..n };
        assert(n.with_net(ms) == Ok::<NetlistV, Seq<char>>(n1));
        let rest = ns.drop_first();
        assert(ts.drop_first() =~= Seq::new(rest.len(), |i: int| texts_of(rest[i])));
        assert forall|i: int, j: int|
            0 <= i < rest.len() && 0 <= j < rest[i].len() implies round_trips(#[trigger] rest[i][j])
                && n1.member_error(rest[i][j]) is None by {
            assert(rest[i] == ns[i + 1]);
            assert(round_trips(ns[i + 1][j]));
        }
        lemma_add_written_nets(n1, rest);
        assert(n1.nets + rest =~= n.nets + ns);
    }
}

/// The written form of an instance port always holds a comma.
proof fn lemma_unparse_comma(m: MemberV)
    requires
        !(m is Port),
    ensures
        unparse_spec(m).contains(','),
{
    match m {
        MemberV::Ref(i, p) => {
            let t = i + seq![','] + p;
            assert(t[i.len() as int] == ',');
        },
        MemberV::ArrayRef(i, p, ia, ib) => {
            let h = i + seq!['<'] + int_text(ia as int) + seq!['.'] + int_text(ib as int) + seq![
                '>',
                ',',
            ];
            assert(h[h.len() - 1] == ',');
            assert((h + p)[h.len() - 1] == ',');
        },
        _ => {},
    }
}

pub open spec fn entries_of(ps: Seq<Seq<MemberV>>) -> Seq<(Seq<char>, Seq<char>)> {
    Seq::new(ps.len(), |i: int| (pin_name(ps[i][0]), unparse_spec(ps[i][1])))
}

proof fn lemma_unconnected_pins(n: NetlistV, r: Seq<Seq<char>>)
    ensures
        add_port_nets(n, self_entries(r)) == Ok::<NetlistV, Seq<char>>(n),
    decreases r.len(),
{
    if r.len() > 0 {
        assert(self_entries(r).drop_first() =~= self_entries(r.drop_first()));
        lemma_unconnected_pins(n, r.drop_first());
    }
}

/// Connecting pin entries taken from valid pin nets, followed by unconnected
/// pins, adds exactly those pin nets.
proof fn lemma_add_pin_entries(n: NetlistV, ps: Seq<Seq<MemberV>>, r: Seq<Seq<char>>)
    requires
        forall|i: int|
            0 <= i < ps.len() ==> {
                let net = #[trigger] ps[i];
                &&& net.len() == 2
                &&& net[0] is Port
                &&& !(net[1] is Port)
                &&& !pin_name(net[0]).contains(',')
                &&& round_trips(net[1])
                &&& n.member_error(net[0]) is None
                &&& n.member_error(net[1]) is None
            },
    ensures
        add_port_nets(n, entries_of(ps) + self_entries(r)) == Ok::<NetlistV, Seq<char>>(
            NetlistV { nets: n.nets + ps, ..n },
        ),
    decreases ps.len(),
{
    let all = entries_of(ps) + self_entries(r);
    if ps.len() == 0 {
        assert(all =~= self_entries(r));
        lemma_unconnected_pins(n, r);
        assert(n.nets + ps =~= n.nets);
        assert((NetlistV { nets: n.nets + ps, ..n }) =~= n);
    } else {
        let net = ps[0];
        let pin = pin_name(net[0]);
        let u = unparse_spec(net[1]);
        assert(all[0] == (pin, u));
        lemma_unparse_comma(net[1]);
        assert(net[0] == MemberV::Port(pin));
        assert(pin != u);
        lemma_parse_unparse(net[1]);
        assert(seq![MemberV::Port(pin), net[1]] =~= net);
        assert forall|j: int| 0 <= j < net.len() implies n.member_error(#[trigger] net[j]) is None by {}
        lemma_members_valid(n, net);
        let n1 = NetlistV { nets: n.nets.push(net), ..n };
        assert(n.with_net(net) == Ok::<NetlistV, Seq<char>>(n1));
        let rest = ps.drop_first();
        assert(all.drop_first() =~= entries_of(rest) + self_entries(r));
        assert forall|i: int| 0 <= i < rest.len() implies {
            let net = #[trigger] rest[i];
            &&& net.len() == 2
            &&& net[0] is Port
            &&& !(net[1] is Port)
            &&& !pin_name(net[0]).contains(',')
            &&& round_trips(net[1])
            &&& n1.member_error(net[0]) is None
            &&& n1.member_error(net[1]) is None
        } by {
            assert(rest[i] == ps[i + 1]);
        }
        lemma_add_pin_entries(n1, rest, r);
        assert(n1.nets + rest =~= n.nets + ps);
    }
}

/// Recovering a module from a netlist in the form elaboration produces, and
/// elaborating that module again, gives back the same netlist.
#[verifier::rlimit(40)]
pub proof fn lemma_recover_elaborate(name: Seq<char>, nl: NetlistV)
    requires
        elaboration_form(nl),
    ensures
        elaborate(recover(name, nl)) == Ok::<NetlistV, Seq<char>>(nl),
{
    let ns = nl.nets;
    lemma_nets_partition(ns);
    let np = nonpin_nets(ns);
    let pp = pin_nets(ns);
    let pn = pin_names(ns);
    let k = pn.len();
    assert(pp.len() == k);
    assert forall|i: int, j: int| 0 <= i < j < pn.len() implies #[trigger] pn[i] != #[trigger] pn[j] by {
        assert(nl.ports.take(k as int)[i] == nl.ports[i]);
        assert(nl.ports.take(k as int)[j] == nl.ports[j]);
    }
    lemma_split_nets(ns);
    let e = pin_entries(ns);
    let r = nl.ports.skip(k as int);
    assert(entry_keys(e) =~= pn);
    assert(entry_keys(e) + r =~= nl.ports);
    lemma_add_declared(e, r);
    let m = recover(name, nl);
    assert(m.ports == e + self_entries(r));
    let mp = m.ports;
    assert(entry_keys(mp) =~= nl.ports);
    assert forall|i: int, j: int| 0 <= i < j < mp.len() implies #[trigger] mp[i].0 != #[trigger] mp[j].0 by {
        assert(entry_keys(mp)[i] == mp[i].0);
        assert(entry_keys(mp)[j] == mp[j].0);
    }
    lemma_declare_fresh(NetlistV::empty(), mp);
    let n1 = NetlistV { instances: Seq::empty(), nets: Seq::empty(), ports: nl.ports };
    assert(Seq::<Seq<char>>::empty() + entry_keys(mp) =~= nl.ports);
    assert(declare_ports(NetlistV::empty(), mp) == n1);
    assert(m.instances =~= recovered_instances(nl.instances));
    lemma_add_recovered(n1, nl.instances);
    let n2 = NetlistV { instances: nl.instances, nets: Seq::empty(), ports: nl.ports };
    assert(Seq::<(Seq<char>, InstanceV)>::empty() + nl.instances =~= nl.instances);
    assert(add_instances(n1, m.instances) == Ok::<NetlistV, Seq<char>>(n2));
    assert(m.connections.len() == 0);
    assert(add_connections(n2, m.connections) == Ok::<NetlistV, Seq<char>>(n2));
    assert(m.nets == nonpin_texts(ns));
    assert forall|i: int, j: int|
        0 <= i < np.len() && 0 <= j < np[i].len() implies round_trips(#[trigger] np[i][j])
            && n2.member_error(np[i][j]) is None by {
        assert(ns[i] == np[i]);
        lemma_nonpin_not_pin(ns, i);
    }
    lemma_add_written_nets(n2, np);
    let n3 = NetlistV { nets: np, ..n2 };
    assert(Seq::<Seq<MemberV>>::empty() + np =~= np);
    assert(add_nets(n2, m.nets) == Ok::<NetlistV, Seq<char>>(n3));
    assert(e =~= entries_of(pp));
    assert forall|i: int| 0 <= i < pp.len() implies {
        let net = #[trigger] pp[i];
        &&& net.len() == 2
        &&& net[0] is Port
        &&& !(net[1] is Port)
        &&& !pin_name(net[0]).contains(',')
        &&& round_trips(net[1])
        &&& n3.member_error(net[0]) is None
        &&& n3.member_error(net[1]) is None
    } by {
        let w = np.len() + i;
        assert(ns[w] == pp[i]);
        assert(is_pin_net(pp[i]));
        lemma_pin_net_shape(ns[w]);
        assert(nl.member_error(ns[w][0]) is None);
        assert(!pin_name(ns[w][0]).contains(','));
        assert(round_trips(ns[w][1]) && nl.member_error(ns[w][1]) is None);
    }
    lemma_add_pin_entries(n3, pp, r);
    assert((NetlistV { nets: n3.nets + pp, ..n3 }) =~= nl);
}

pub open spec fn names_distinct<V>(e: Seq<(Seq<char>, V)>) -> bool {
    forall|i: int, j: int| 0 <= i < j < e.len() ==> #[trigger] e[i].0 != #[trigger] e[j].0
}

pub open spec fn recovered_modules(ns: Seq<(Seq<char>, NetlistV)>) -> Seq<(Seq<char>, ModuleV)> {
    Seq::new(ns.len(), |i: int| (ns[i].0, recover(ns[i].0, ns[i].1)))
}

/// Where two entry lists have the same names, a name is found at the same place.
proof fn lemma_same_names<A, B>(a: Seq<(Seq<char>, A)>, b: Seq<(Seq<char>, B)>, k: Seq<char>)
    requires
        a.len() == b.len(),
        forall|i: int| 0 <= i < a.len() ==> #[trigger] a[i].0 == b[i].0,
    ensures
        vkey_index(a, k) == vkey_index(b, k),
    decreases a.len(),
{
    if a.len() > 0 {
        assert(a[0].0 == b[0].0);
        let (a1, b1) = (a.drop_first(), b.drop_first());
        assert forall|i: int| 0 <= i < a1.len() implies #[trigger] a1[i].0 == b1[i].0 by {
            assert(a[i + 1].0 == b[i + 1].0);
        }
        lemma_same_names(a1, b1, k);
    }
}

proof fn lemma_fresh_name<V>(acc: Seq<(Seq<char>, V)>, k: Seq<char>, v: V)
    requires
        forall|j: int| 0 <= j < acc.len() ==> #[trigger] acc[j].0 != k,
    ensures
        vmap_insert(acc, k, v) == acc.push((k, v)),
{
    lemma_vkey_index(acc, k);
}

proof fn lemma_recover_all(acc: Seq<(Seq<char>, ModuleV)>, ns: Seq<(Seq<char>, NetlistV)>)
    requires
        names_distinct(acc + recovered_modules(ns)),
    ensures
        recover_all(acc, ns) == acc + recovered_modules(ns),
    decreases ns.len(),
{
    let all = acc + recovered_modules(ns);
    if ns.len() == 0 {
        assert(all =~= acc);
    } else {
        assert forall|j: int| 0 <= j < acc.len() implies #[trigger] acc[j].0 != ns[0].0 by {
            assert(all[j] == acc[j]);
            assert(all[acc.len() as int] == recovered_modules(ns)[0]);
            assert(all[j].0 != all[acc.len() as int].0);
        }
        lemma_fresh_name(acc, ns[0].0, recover(ns[0].0, ns[0].1));
        let acc1 = acc.push((ns[0].0, recover(ns[0].0, ns[0].1)));
        assert(acc1 + recovered_modules(ns.drop_first()) =~= all);
        lemma_recover_all(acc1, ns.drop_first());
    }
}

proof fn lemma_elaborate_all(acc: Seq<(Seq<char>, NetlistV)>, ns: Seq<(Seq<char>, NetlistV)>)
    requires
        names_distinct(acc + ns),
        forall|i: int| 0 <= i < ns.len() ==> elaboration_form(#[trigger] ns[i].1),
    ensures
        elaborate_all(acc, recovered_modules(ns)) == Ok::<Seq<(Seq<char>, NetlistV)>, Seq<char>>(
            acc + ns,
        ),
    decreases ns.len(),
{
    let all = acc + ns;
    let ms = recovered_modules(ns);
    if ns.len() == 0 {
        assert(all =~= acc);
    } else {
        lemma_recover_elaborate(ns[0].0, ns[0].1);
        assert(ms[0] == (ns[0].0, recover(ns[0].0, ns[0].1)));
        assert forall|j: int| 0 <= j < acc.len() implies #[trigger] acc[j].0 != ns[0].0 by {
            assert(all[j] == acc[j]);
            assert(all[acc.len() as int] == ns[0]);
            assert(all[j].0 != all[acc.len() as int].0);
        }
        lemma_fresh_name(acc, ns[0].0, ns[0].1);
        let acc1 = acc.push((ns[0].0, ns[0].1));
        let rest = ns.drop_first();
        assert(acc1 + rest =~= all);
        assert(ms.drop_first() =~= recovered_modules(rest));
        assert forall|i: int| 0 <= i < rest.len() implies elaboration_form(#[trigger] rest[i].1) by {
            assert(rest[i] == ns[i + 1]);
        }
        lemma_elaborate_all(acc1, rest);
    }
}

/// A document recovered from named netlists, each in the form elaboration
/// produces, elaborates back to the same netlists, whenever its top module is
/// one of them or absent.
pub proof fn lemma_recover_elaborate_document(
    ns: Seq<(Seq<char>, NetlistV)>,
    top: Option<Seq<char>>,
)
    requires
        names_distinct(ns),
        forall|i: int| 0 <= i < ns.len() ==> elaboration_form(#[trigger] ns[i].1),
        match top {
            Some(t) => vkey_index(ns, t) is Some,
            None => true,
        },
    ensures
        elaborate_document(
            TopLevelModuleV { modules: recover_all(Seq::empty(), ns), toplevel: top },
        ) == Ok::<Seq<(Seq<char>, NetlistV)>, Seq<char>>(ns),
{
    let ms = recovered_modules(ns);
    assert(Seq::<(Seq<char>, ModuleV)>::empty() + ms =~= ms);
    assert(Seq::<(Seq<char>, NetlistV)>::empty() + ns =~= ns);
    assert forall|i: int, j: int| 0 <= i < j < ms.len() implies #[trigger] ms[i].0 != #[trigger] ms[j].0 by {
        assert(ms[i].0 == ns[i].0 && ms[j].0 == ns[j].0);
    }
    lemma_recover_all(Seq::empty(), ns);
    lemma_elaborate_all(Seq::empty(), ns);
    if let Some(t) = top {
        assert forall|i: int| 0 <= i < ms.len() implies #[trigger] ms[i].0 == ns[i].0 by {}
        lemma_same_names(ms, ns, t);
    }
}

proof fn lemma_present_after_push<V>(e: Seq<(Seq<char>, V)>, x: (Seq<char>, V), k: Seq<char>)
    requires
        vkey_index(e, k) is Some || x.0 == k,
    ensures
        vkey_index(e.push(x), k) is Some,
{
    lemma_vkey_index(e, k);
    lemma_vkey_index(e.push(x), k);
    if vkey_index(e, k) is Some {
        let i = vkey_index(e, k)->0;
        assert(e.push(x)[i] == e[i]);
    } else {
        assert(e.push(x)[e.len() as int] == x);
    }
}

proof fn lemma_add_declared_keys(e: Seq<(Seq<char>, Seq<char>)>, d: Seq<Seq<char>>, k: Seq<char>)
    requires
        vkey_index(e, k) is Some || d.contains(k),
    ensures
        vkey_index(add_declared(e, d), k) is Some,
    decreases d.len(),
{
    if d.len() > 0 {
        let dl = d.drop_last();
        let p = d.last();
        let acc = add_declared(e, dl);
        if vkey_index(e, k) is Some || dl.contains(k) {
            lemma_add_declared_keys(e, dl, k);
            if vkey_index(acc, p) is None {
                lemma_present_after_push(acc, (p, p), k);
            }
        } else {
            let j = choose|j: int| 0 <= j < d.len() && d[j] == k;
            if j < dl.len() {
                assert(dl[j] == d[j]);
            }
            assert(p == k);
            if vkey_index(acc, p) is None {
                lemma_present_after_push(acc, (p, p), k);
            }
        }
    }
}

/// Every declared pin of a netlist has an entry among the recovered module's
/// pins, whether it is unconnected, exposes one port, or sits in a larger net.
pub proof fn lemma_declared_pins_kept(name: Seq<char>, nl: NetlistV)
    ensures
        forall|i: int|
            0 <= i < nl.ports.len() ==> vkey_index(recover(name, nl).ports, #[trigger] nl.ports[i]) is Some,
{
    assert forall|i: int| 0 <= i < nl.ports.len() implies vkey_index(
        recover(name, nl).ports,
        #[trigger] nl.ports[i],
    ) is Some by {
        assert(nl.ports.contains(nl.ports[i]));
        lemma_add_declared_keys(split_nets(nl.nets).0, nl.ports, nl.ports[i]);
    }
}

/// A netlist's pins and instances, without its nets: all that the validity
/// of a member depends on.
pub open spec fn frame(nl: NetlistV) -> NetlistV {
    NetlistV { nets: Seq::empty(), ..nl }
}

/// A net that is not one pin with one port, whose members read back and are valid.
pub open spec fn plain_net_ok(f: NetlistV, ms: Seq<MemberV>) -> bool {
    &&& forall|j: int| 0 <= j < ms.len() ==> round_trips(#[trigger] ms[j]) && f.member_error(ms[j]) is None
    &&& !is_pin_net(ms)
}

/// A pin net as elaboration writes it: the pin (without a comma), then a
/// valid instance port that reads back.
pub open spec fn pin_net_ok(f: NetlistV, ms: Seq<MemberV>) -> bool {
    &&& ms.len() == 2
    &&& ms[0] is Port
    &&& !pin_name(ms[0]).contains(',')
    &&& !(ms[1] is Port)
    &&& round_trips(ms[1])
    &&& f.member_error(ms[0]) is None
    &&& f.member_error(ms[1]) is None
}

/// The connections of a module: each pair of texts, where both parse, names
/// members that read back and is not one pin with one port.
pub open spec fn connections_keep(conns: Seq<(Seq<char>, Seq<char>)>) -> bool {
    forall|i: int|
        0 <= i < conns.len() ==> match (port_ref_spec(#[trigger] conns[i].0), port_ref_spec(conns[i].1)) {
            (Ok(a), Ok(b)) => round_trips(a) && round_trips(b) && !is_pin_net(seq![a, b]),
            _ => true,
        }
}

/// The nets of a module: each, where it parses, has members that read back
/// and is not one pin with one port.
pub open spec fn nets_keep(nets: Seq<Seq<Seq<char>>>) -> bool {
    forall|i: int|
        0 <= i < nets.len() ==> match parse_all(#[trigger] nets[i]) {
            Ok(ms) => (forall|j: int| 0 <= j < ms.len() ==> round_trips(#[trigger] ms[j])) && !is_pin_net(ms),
            _ => true,
        }
}

/// The pins of a module: distinct; the connected ones (whose target is not
/// their own name) first, without a comma in their name, each exposing an
/// instance port that reads back.
pub open spec fn pins_keep(ports: Seq<(Seq<char>, Seq<char>)>) -> bool {
    &&& forall|i: int, j: int| 0 <= i < j < ports.len() ==> #[trigger] ports[i].0 != #[trigger] ports[j].0
    &&& forall|i: int, j: int| 0 <= i < j < ports.len() && #[trigger] ports[i].0 == ports[i].1 ==> #[trigger] ports[j].0 == ports[j].1
    &&& forall|i: int|
        0 <= i < ports.len() && (#[trigger] ports[i]).0 != ports[i].1 ==> !ports[i].0.contains(',') && match port_ref_spec(
            ports[i].1,
        ) {
            Ok(x) => !(x is Port) && round_trips(x),
            _ => true,
        }
}

/// The number of connected pins at the front.
pub open spec fn connected_prefix(ports: Seq<(Seq<char>, Seq<char>)>) -> int
    decreases ports.len(),
{
    if ports.len() == 0 || ports[0].0 == ports[0].1 {
        0
    } else {
        1 + connected_prefix(ports.drop_first())
    }
}

proof fn lemma_first_error_none(n: NetlistV, ms: Seq<MemberV>, j: int)
    requires
        n.first_member_error(ms) is None,
        0 <= j < ms.len(),
    ensures
        n.member_error(ms[j]) is None,
    decreases ms.len(),
{
    if j > 0 {
        lemma_first_error_none(n, ms.drop_first(), j - 1);
    }
}

proof fn lemma_frame_error(n: NetlistV, m: MemberV)
    ensures
        n.member_error(m) == frame(n).member_error(m),
{
}

proof fn lemma_pair_pin_net(k: Seq<char>, x: MemberV)
    requires
        !(x is Port),
    ensures
        is_pin_net(seq![MemberV::Port(k), x]),
{
    let ms = seq![MemberV::Port(k), x];
    let one = seq![MemberV::Port(k)];
    assert(ms.drop_last() =~= one);
    assert(ms.last() == x);
    assert(one.drop_last() =~= Seq::<MemberV>::empty());
    assert(one.last() == MemberV::Port(k));
    assert(pins_of(Seq::<MemberV>::empty()) == Seq::<MemberV>::empty());
    assert(others_of(Seq::<MemberV>::empty()) == Seq::<MemberV>::empty());
    assert(Seq::<MemberV>::empty().push(MemberV::Port(k)) =~= one);
    assert(pins_of(one) =~= one);
    assert(others_of(seq![MemberV::Port(k)]) =~= Seq::<MemberV>::empty());
}

proof fn lemma_instances_placed(n: NetlistV, insts: Seq<(Seq<char>, InstanceDocV)>)
    requires
        forall|i: int, j: int| 0 <= i < j < n.instances.len() ==> n.instances[i].0 != n.instances[j].0,
        forall|i: int| 0 <= i < n.instances.len() ==> placed_form(#[trigger] n.instances[i].1),
    ensures
        add_instances(n, insts) matches Ok(n2) ==> {
            &&& frame(n2).ports == n.ports
            &&& n2.nets == n.nets
            &&& forall|i: int, j: int| 0 <= i < j < n2.instances.len() ==> n2.instances[i].0 != n2.instances[j].0
            &&& forall|i: int| 0 <= i < n2.instances.len() ==> placed_form(#[trigger] n2.instances[i].1)
        },
    decreases insts.len(),
{
    if insts.len() > 0 {
        let (name, inst) = insts[0];
        match instance_array(inst) {
            Err(_) => {},
            Ok(arr) => {
                let (na, nb) = match arr {
                    Some(a) => a,
                    None => (0i64, 0i64),
                };
                if !(arr is Some && (na < 1 || nb < 1)) {
                    let iv = InstanceV {
                        kcl: Seq::empty(),
                        component: inst.component,
                        settings: JsonV::Object(inst.settings),
                        array: None,
                        info: inst.info,
                    };
                    match n.with_instance(name, iv, na, nb) {
                        Err(_) => {},
                        Ok(n1) => {
                            lemma_vkey_index(n.instances, name);
                            assert forall|i: int| 0 <= i < n1.instances.len() implies placed_form(#[trigger] n1.instances[i].1) by {
                                if i < n.instances.len() {
                                    assert(n1.instances[i] == n.instances[i]);
                                } else {
                                    if arr is None {
                                        assert(inst.array is None);
                                        assert(vkey_index(inst.settings, "array_size"@) is None);
                                    }
                                }
                            }
                            assert forall|i: int, j: int| 0 <= i < j < n1.instances.len() implies n1.instances[i].0 != n1.instances[j].0 by {
                                if j < n.instances.len() {
                                    assert(n1.instances[i] == n.instances[i] && n1.instances[j] == n.instances[j]);
                                } else {
                                    assert(n1.instances[i] == n.instances[i]);
                                }
                            }
                            lemma_instances_placed(n1, insts.drop_first());
                        },
                    }
                }
            },
        }
    }
}

proof fn lemma_connections_nets(n: NetlistV, conns: Seq<(Seq<char>, Seq<char>)>)
    requires
        connections_keep(conns),
    ensures
        add_connections(n, conns) matches Ok(n2) ==> {
            &&& frame(n2) == frame(n)
            &&& n.nets.len() <= n2.nets.len()
            &&& n2.nets.take(n.nets.len() as int) == n.nets
            &&& forall|k: int| n.nets.len() <= k < n2.nets.len() ==> plain_net_ok(frame(n), #[trigger] n2.nets[k])
        },
    decreases conns.len(),
{
    if conns.len() > 0 {
        let rest = conns.drop_first();
        assert forall|i: int| 0 <= i < rest.len() implies match (port_ref_spec(#[trigger] rest[i].0), port_ref_spec(rest[i].1)) {
            (Ok(a), Ok(b)) => round_trips(a) && round_trips(b) && !is_pin_net(seq![a, b]),
            _ => true,
        } by {
            assert(rest[i] == conns[i + 1]);
        }
        match port_ref_spec(conns[0].0) {
            Err(_) => {},
            Ok(a) => match port_ref_spec(conns[0].1) {
                Err(_) => {},
                Ok(b) => match n.with_net(seq![a, b]) {
                    Err(_) => {},
                    Ok(n1) => {
                        let ms = seq![a, b];
                        assert(port_ref_spec(conns[0].0) == Ok::<MemberV, Seq<char>>(a));
                        assert forall|j: int| 0 <= j < ms.len() implies round_trips(#[trigger] ms[j]) && frame(n).member_error(ms[j]) is None by {
                            lemma_first_error_none(n, ms, j);
                            lemma_frame_error(n, ms[j]);
                        }
                        assert(frame(n1) =~= frame(n));
                        lemma_connections_nets(n1, rest);
                        if (add_connections(n1, rest)) is Ok {
                            let n2 = (add_connections(n1, rest))->Ok_0;
                            assert(n2.nets.take(n1.nets.len() as int) == n1.nets);
                            assert(n2.nets[n.nets.len() as int] == n1.nets[n.nets.len() as int]);
                            assert(n2.nets.take(n.nets.len() as int) =~= n.nets) by {
                                assert forall|k: int| 0 <= k < n.nets.len() implies n2.nets[k] == n.nets[k] by {
                                    assert(n2.nets.take(n1.nets.len() as int)[k] == n1.nets[k]);
                                }
                            }
                        }
                    },
                },
            },
        }
    }
}

proof fn lemma_nets_nets(n: NetlistV, nets: Seq<Seq<Seq<char>>>)
    requires
        nets_keep(nets),
    ensures
        add_nets(n, nets) matches Ok(n2) ==> {
            &&& frame(n2) == frame(n)
            &&& n.nets.len() <= n2.nets.len()
            &&& n2.nets.take(n.nets.len() as int) == n.nets
            &&& forall|k: int| n.nets.len() <= k < n2.nets.len() ==> plain_net_ok(frame(n), #[trigger] n2.nets[k])
        },
    decreases nets.len(),
{
    if nets.len() > 0 {
        let rest = nets.drop_first();
        assert forall|i: int| 0 <= i < rest.len() implies match parse_all(#[trigger] rest[i]) {
            Ok(ms) => (forall|j: int| 0 <= j < ms.len() ==> round_trips(#[trigger] ms[j])) && !is_pin_net(ms),
            _ => true,
        } by {
            assert(rest[i] == nets[i + 1]);
        }
        match parse_all(nets[0]) {
            Err(_) => {},
            Ok(ms) => match n.with_net(ms) {
                Err(_) => {},
                Ok(n1) => {
                    assert forall|j: int| 0 <= j < ms.len() implies round_trips(#[trigger] ms[j]) && frame(n).member_error(ms[j]) is None by {
                        lemma_first_error_none(n, ms, j);
                        lemma_frame_error(n, ms[j]);
                    }
                    assert(frame(n1) =~= frame(n));
                    lemma_nets_nets(n1, rest);
                    if (add_nets(n1, rest)) is Ok {
                        let n2 = (add_nets(n1, rest))->Ok_0;
                        assert(n2.nets[n.nets.len() as int] == n1.nets[n.nets.len() as int]);
                        assert(n2.nets.take(n.nets.len() as int) =~= n.nets) by {
                            assert forall|k: int| 0 <= k < n.nets.len() implies n2.nets[k] == n.nets[k] by {
                                assert(n2.nets.take(n1.nets.len() as int)[k] == n1.nets[k]);
                            }
                        }
                    }
                },
            },
        }
    }
}

proof fn lemma_pin_port_nets(n: NetlistV, ports: Seq<(Seq<char>, Seq<char>)>)
    requires
        pins_keep(ports),
    ensures
        add_port_nets(n, ports) matches Ok(n2) ==> {
            let c = connected_prefix(ports);
            &&& 0 <= c <= ports.len()
            &&& frame(n2) == frame(n)
            &&& n2.nets.len() == n.nets.len() + c
            &&& n2.nets.take(n.nets.len() as int) == n.nets
            &&& forall|k: int| 0 <= k < c ==> pin_net_ok(frame(n), #[trigger] n2.nets[n.nets.len() + k])
                && pin_name(n2.nets[n.nets.len() + k][0]) == ports[k].0
        },
    decreases ports.len(),
{
    if ports.len() > 0 {
        let rest = ports.drop_first();
        assert(pins_keep(rest)) by {
            assert forall|i: int, j: int| 0 <= i < j < rest.len() implies #[trigger] rest[i].0 != #[trigger] rest[j].0 by {
                assert(rest[i] == ports[i + 1] && rest[j] == ports[j + 1]);
            }
            assert forall|i: int, j: int| 0 <= i < j < rest.len() && #[trigger] rest[i].0 == rest[i].1 implies #[trigger] rest[j].0 == rest[j].1 by {
                assert(rest[i] == ports[i + 1] && rest[j] == ports[j + 1]);
            }
            assert forall|i: int| 0 <= i < rest.len() && (#[trigger] rest[i]).0 != rest[i].1 implies !rest[i].0.contains(',') && match port_ref_spec(rest[i].1) {
                Ok(x) => !(x is Port) && round_trips(x),
                _ => true,
            } by {
                assert(rest[i] == ports[i + 1]);
            }
        }
        lemma_pin_port_nets(n, rest);
        if ports[0].0 == ports[0].1 {
            if rest.len() > 0 {
                assert(rest[0] == ports[1]);
                assert(ports[1].0 == ports[1].1);
            }
            assert(connected_prefix(rest) == 0);
            if (add_port_nets(n, ports)) is Ok {
                let n2 = (add_port_nets(n, ports))->Ok_0;
                assert(n2.nets.len() == n.nets.len());
            }
        } else {
            let p0 = ports[0];
            assert(!p0.0.contains(','));
            match port_ref_spec(p0.1) {
                Err(_) => {},
                Ok(x) => {
                    let ms = seq![MemberV::Port(p0.0), x];
                    match n.with_net(ms) {
                        Err(_) => {},
                        Ok(n1) => {
                            lemma_first_error_none(n, ms, 0);
                            lemma_first_error_none(n, ms, 1);
                            lemma_frame_error(n, ms[0]);
                            lemma_frame_error(n, ms[1]);
                            assert(frame(n1) =~= frame(n));
                            assert(pin_net_ok(frame(n), ms));
                            lemma_pin_port_nets(n1, rest);
                            if (add_port_nets(n1, rest)) is Ok {
                                let n2 = (add_port_nets(n1, rest))->Ok_0;
                                let c = connected_prefix(ports);
                                assert(c == 1 + connected_prefix(rest));
                                assert(n2.nets.take(n1.nets.len() as int) == n1.nets);
                                assert(n2.nets[n.nets.len() as int] == ms) by {
                                    assert(n2.nets.take(n1.nets.len() as int)[n.nets.len() as int] == n1.nets[n.nets.len() as int]);
                                }
                                assert(n2.nets.take(n.nets.len() as int) =~= n.nets) by {
                                    assert forall|k: int| 0 <= k < n.nets.len() implies n2.nets[k] == n.nets[k] by {
                                        assert(n2.nets.take(n1.nets.len() as int)[k] == n1.nets[k]);
                                    }
                                }
                                assert forall|k: int| 0 <= k < c implies pin_net_ok(frame(n), #[trigger] n2.nets[n.nets.len() + k])
                                    && pin_name(n2.nets[n.nets.len() + k][0]) == ports[k].0 by {
                                    if k > 0 {
                                        assert(n2.nets[n1.nets.len() + (k - 1)] == n2.nets[n.nets.len() + k]);
                                        assert(rest[k - 1] == ports[k]);
                                    }
                                }
                            }
                        },
                    }
                },
            }
        }
    }
}

proof fn lemma_pin_nets_split(a: Seq<Seq<MemberV>>, b: Seq<Seq<MemberV>>)
    requires
        forall|i: int| 0 <= i < a.len() ==> !is_pin_net(#[trigger] a[i]),
        forall|i: int| 0 <= i < b.len() ==> is_pin_net(#[trigger] b[i]),
    ensures
        pin_nets(a + b) == b,
    decreases a.len() + b.len(),
{
    if b.len() > 0 {
        assert((a + b).drop_last() =~= a + b.drop_last());
        assert((a + b).last() == b.last());
        lemma_pin_nets_split(a, b.drop_last());
        assert(b.drop_last().push(b.last()) =~= b);
    } else if a.len() > 0 {
        assert(a + b =~= a);
        assert(a.drop_last() + b =~= a.drop_last());
        lemma_pin_nets_split(a.drop_last(), b);
        assert(!is_pin_net(a.last()));
    } else {
        assert(a + b =~= Seq::<Seq<MemberV>>::empty());
    }
}

/// A module whose pins, connections and nets keep their content (see
/// `pins_keep`, `connections_keep`, `nets_keep`) elaborates, where it
/// elaborates at all, into a netlist in the form that recovering and
/// elaborating again gives back unchanged.
#[verifier::rlimit(100)]
pub proof fn lemma_elaboration_keeps(name: Seq<char>, m: ModuleV)
    requires
        pins_keep(m.ports),
        connections_keep(m.connections),
        nets_keep(m.nets),
    ensures
        elaborate(m) matches Ok(nl) ==> elaboration_form(nl) && elaborate(recover(name, nl)) == Ok::<NetlistV, Seq<char>>(nl),
{
    if (elaborate(m)) is Ok {
        let nl = (elaborate(m))->Ok_0;
        let ps = m.ports;
        lemma_declare_fresh(NetlistV::empty(), ps);
        let n0 = declare_ports(NetlistV::empty(), ps);
        assert(Seq::<Seq<char>>::empty() + entry_keys(ps) =~= entry_keys(ps));
        lemma_instances_placed(n0, m.instances);
        let n1 = add_instances(n0, m.instances)->Ok_0;
        lemma_connections_nets(n1, m.connections);
        let n2 = add_connections(n1, m.connections)->Ok_0;
        lemma_nets_nets(n2, m.nets);
        let n3 = add_nets(n2, m.nets)->Ok_0;
        lemma_pin_port_nets(n3, ps);
        let c = connected_prefix(ps);
        let f = frame(nl);
        assert(frame(n1) =~= f);
        let a = nl.nets.take(n3.nets.len() as int);
        let b = nl.nets.skip(n3.nets.len() as int);
        assert(n1.nets.len() == 0);
        assert forall|k: int| 0 <= k < n3.nets.len() implies plain_net_ok(f, #[trigger] nl.nets[k]) by {
            assert(nl.nets.take(n3.nets.len() as int)[k] == n3.nets[k]);
            if k >= n2.nets.len() {
            } else {
                assert(n3.nets.take(n2.nets.len() as int)[k] == n2.nets[k]);
            }
        }
        assert forall|k: int| 0 <= k < b.len() implies pin_net_ok(f, #[trigger] b[k]) && is_pin_net(b[k])
            && pin_name(b[k][0]) == ps[k].0 by {
            assert(b[k] == nl.nets[n3.nets.len() + k]);
            lemma_pair_pin_net(pin_name(b[k][0]), b[k][1]);
            assert(b[k] =~= seq![MemberV::Port(pin_name(b[k][0])), b[k][1]]);
        }
        assert forall|k: int| 0 <= k < a.len() implies !is_pin_net(#[trigger] a[k]) by {
            assert(a[k] == nl.nets[k]);
        }
        assert(nl.nets =~= a + b);
        lemma_pin_nets_split(a, b);
        assert(nl.ports =~= entry_keys(ps));
        assert forall|i: int, j: int| 0 <= i < nl.nets.len() && 0 <= j < nl.nets[i].len() implies (round_trips(#[trigger] nl.nets[i][j])
            || (is_pin_net(nl.nets[i]) && nl.nets[i][j] is Port && !pin_name(nl.nets[i][j]).contains(',')))
            && nl.member_error(nl.nets[i][j]) is None by {
            lemma_frame_error(nl, nl.nets[i][j]);
            if i < a.len() {
                assert(plain_net_ok(f, nl.nets[i]));
            } else {
                assert(nl.nets[i] == b[i - a.len()]);
                assert(pin_net_ok(f, b[i - a.len()]));
            }
        }
        assert forall|i: int| 0 <= i < nl.nets.len() && is_pin_net(#[trigger] nl.nets[i]) implies nl.nets[i].len() == 2
            && nl.nets[i][0] is Port by {
            if i < a.len() {
                assert(nl.nets[i] == a[i]);
            } else {
                assert(nl.nets[i] == b[i - a.len()]);
            }
        }
        assert forall|i: int, j: int| 0 <= i < j < nl.nets.len() && is_pin_net(#[trigger] nl.nets[i]) implies is_pin_net(#[trigger] nl.nets[j]) by {
            if i < a.len() {
                assert(nl.nets[i] == a[i]);
            }
            assert(nl.nets[j] == b[j - a.len()]);
        }
        assert(pin_names(nl.nets) =~= nl.ports.take(c)) by {
            assert forall|k: int| 0 <= k < c implies pin_names(nl.nets)[k] == nl.ports.take(c)[k] by {
                assert(entry_keys(ps)[k] == ps[k].0);
            }
        }
        assert forall|i: int, j: int| 0 <= i < j < nl.ports.len() implies nl.ports[i] != nl.ports[j] by {
            assert(entry_keys(ps)[i] == ps[i].0 && entry_keys(ps)[j] == ps[j].0);
        }
        assert(nl.wf());
        assert(elaboration_form(nl));
        lemma_recover_elaborate(name, nl);
    }
}

} // verus!
