//! Hierarchical PIC documents: modules of instances, pins, connections and
//! nets, and their elaboration into connectivity netlists and back.
use vstd::prelude::*;
use crate::json::{JsonMap, JsonValue, JsonV, map_view, copy_map, object_entries};
use crate::netlist::{
    InstanceV, MemberV, NetMember, Netlist, NetlistPort, NetlistV, vkey_index, members_view,
    bad_dims_msg, NetlistInstance,
};
use crate::ordmap::{find_key, key_index, map_insert, map_insert_absent, lemma_key_index};
use crate::portref::{parse_port_ref, port_ref_spec, unparse, unparse_spec};
use crate::text::concat;
use crate::Error;

verus! {

/// Array dimensions of an instance.
#[derive(Clone, Debug, PartialEq, Eq)]
pub struct ArraySpec {
    pub na: i64,
    pub nb: i64,
}

impl ArraySpec {
    /// A single element: one by one.
    pub fn default() -> (r: ArraySpec)
        ensures
            r.na == 1 && r.nb == 1,
    {
        ArraySpec { na: 1, nb: 1 }
    }
}

#[derive(Debug, PartialEq)]
pub struct Instance {
    pub component: String,
    pub settings: JsonMap,
    pub array: Option<ArraySpec>,
    pub info: JsonMap,
}

#[verifier::ext_equal]
pub struct InstanceDocV {
    pub component: Seq<char>,
    pub settings: Seq<(Seq<char>, JsonV)>,
    pub array: Option<(i64, i64)>,
    pub info: Seq<(Seq<char>, JsonV)>,
}

impl View for Instance {
    type V = InstanceDocV;

    open spec fn view(&self) -> InstanceDocV {
        InstanceDocV {
            component: self.component@,
            settings: map_view(self.settings@),
            array: match self.array {
                Some(a) => Some((a.na, a.nb)),
                None => None,
            },
            info: map_view(self.info@),
        }
    }
}

#[derive(Debug, PartialEq)]
pub struct Module {
    pub name: Option<String>,
    pub settings: JsonMap,
    pub info: JsonMap,
    pub instances: Vec<(String, Instance)>,
    pub placements: JsonMap,
    pub ports: Vec<(String, String)>,
    pub connections: Vec<(String, String)>,
    pub nets: Vec<Vec<String>>,
    pub routes: JsonMap,
}

#[verifier::ext_equal]
pub struct ModuleV {
    pub name: Option<Seq<char>>,
    pub settings: Seq<(Seq<char>, JsonV)>,
    pub info: Seq<(Seq<char>, JsonV)>,
    pub instances: Seq<(Seq<char>, InstanceDocV)>,
    pub placements: Seq<(Seq<char>, JsonV)>,
    pub ports: Seq<(Seq<char>, Seq<char>)>,
    pub connections: Seq<(Seq<char>, Seq<char>)>,
    pub nets: Seq<Seq<Seq<char>>>,
    pub routes: Seq<(Seq<char>, JsonV)>,
}

pub open spec fn pairs_view(e: Seq<(String, String)>) -> Seq<(Seq<char>, Seq<char>)> {
    Seq::new(e.len(), |i: int| (e[i].0@, e[i].1@))
}

pub open spec fn strings_view(e: Seq<String>) -> Seq<Seq<char>> {
    Seq::new(e.len(), |i: int| e[i]@)
}

pub open spec fn doc_instances_view(e: Seq<(String, Instance)>) -> Seq<(Seq<char>, InstanceDocV)> {
    Seq::new(e.len(), |i: int| (e[i].0@, e[i].1@))
}

impl View for Module {
    type V = ModuleV;

    open spec fn view(&self) -> ModuleV {
        ModuleV {
            name: match self.name {
                Some(n) => Some(n@),
                None => None,
            },
            settings: map_view(self.settings@),
            info: map_view(self.info@),
            instances: doc_instances_view(self.instances@),
            placements: map_view(self.placements@),
            ports: pairs_view(self.ports@),
            connections: pairs_view(self.connections@),
            nets: Seq::new(self.nets@.len(), |i: int| strings_view(self.nets@[i]@)),
            routes: map_view(self.routes@),
        }
    }
}

#[derive(Debug, PartialEq)]
pub struct TopLevelModule {
    pub modules: Vec<(String, Module)>,
    pub toplevel: Option<String>,
}

#[verifier::ext_equal]
pub struct TopLevelModuleV {
    pub modules: Seq<(Seq<char>, ModuleV)>,
    pub toplevel: Option<Seq<char>>,
}

impl View for TopLevelModule {
    type V = TopLevelModuleV;

    open spec fn view(&self) -> TopLevelModuleV {
        TopLevelModuleV {
            modules: Seq::new(self.modules@.len(), |i: int| (self.modules@[i].0@, self.modules@[i].1@)),
            toplevel: match self.toplevel {
                Some(t) => Some(t@),
                None => None,
            },
        }
    }
}

pub open spec fn jv_as_i64(v: JsonV) -> Option<i64> {
    match v {
        JsonV::Int(i) => Some(i),
        JsonV::UInt(u) => if u <= i64::MAX as u64 {
            Some(u as i64)
        } else {
            None
        },
        _ => None,
    }
}

pub open spec fn array_size_msg() -> Seq<char> {
    "array_size must be a positive integer"@
}

/// The array an instance elaborates to: its explicit dimensions, else the
/// `array_size` setting as a one-row array.
pub open spec fn instance_array(inst: InstanceDocV) -> Result<Option<(i64, i64)>, Seq<char>> {
    match inst.array {
        Some(a) => Ok(Some(a)),
        None => match vkey_index(inst.settings, "array_size"@) {
            None => Ok(None),
            Some(k) => match jv_as_i64(inst.settings[k].1) {
                Some(n) => if n > 0 {
                    Ok(Some((n, 1)))
                } else {
                    Err(array_size_msg())
                },
                None => Err(array_size_msg()),
            },
        },
    }
}

/// Declare each pin in order.
pub open spec fn declare_ports(nl: NetlistV, ports: Seq<(Seq<char>, Seq<char>)>) -> NetlistV
    decreases ports.len(),
{
    if ports.len() == 0 {
        nl
    } else {
        declare_ports(nl.with_port(ports[0].0), ports.drop_first())
    }
}

/// Place each instance in order.
pub open spec fn add_instances(nl: NetlistV, insts: Seq<(Seq<char>, InstanceDocV)>) -> Result<
    NetlistV,
    Seq<char>,
>
    decreases insts.len(),
{
    if insts.len() == 0 {
        Ok(nl)
    } else {
        let (name, inst) = insts[0];
        match instance_array(inst) {
            Err(e) => Err(e),
            Ok(arr) => {
                let (na, nb) = match arr {
                    Some(a) => a,
                    None => (0i64, 0i64),
                };
                if arr is Some && (na < 1 || nb < 1) {
                    Err(bad_dims_msg())
                } else {
                    match nl.with_instance(
                        name,
                        InstanceV {
                            kcl: Seq::empty(),
                            component: inst.component,
                            settings: JsonV::Object(inst.settings),
                            array: None,
                            info: inst.info,
                        },
                        na,
                        nb,
                    ) {
                        Err(e) => Err(e),
                        Ok(n) => add_instances(n, insts.drop_first()),
                    }
                }
            },
        }
    }
}

/// Connect each `source: target` pair as a two-member net.
pub open spec fn add_connections(nl: NetlistV, conns: Seq<(Seq<char>, Seq<char>)>) -> Result<
    NetlistV,
    Seq<char>,
>
    decreases conns.len(),
{
    if conns.len() == 0 {
        Ok(nl)
    } else {
        match port_ref_spec(conns[0].0) {
            Err(e) => Err(e),
            Ok(a) => match port_ref_spec(conns[0].1) {
                Err(e) => Err(e),
                Ok(b) => match nl.with_net(seq![a, b]) {
                    Err(e) => Err(e),
                    Ok(n) => add_connections(n, conns.drop_first()),
                },
            },
        }
    }
}

/// The members of a written net, or the refusal of its first bad reference.
pub open spec fn parse_all(refs: Seq<Seq<char>>) -> Result<Seq<MemberV>, Seq<char>>
    decreases refs.len(),
{
    if refs.len() == 0 {
        Ok(Seq::empty())
    } else {
        match port_ref_spec(refs[0]) {
            Err(e) => Err(e),
            Ok(m) => match parse_all(refs.drop_first()) {
                Err(e) => Err(e),
                Ok(rest) => Ok(seq![m] + rest),
            },
        }
    }
}

/// Connect each written net.
pub open spec fn add_nets(nl: NetlistV, nets: Seq<Seq<Seq<char>>>) -> Result<NetlistV, Seq<char>>
    decreases nets.len(),
{
    if nets.len() == 0 {
        Ok(nl)
    } else {
        match parse_all(nets[0]) {
            Err(e) => Err(e),
            Ok(ms) => match nl.with_net(ms) {
                Err(e) => Err(e),
                Ok(n) => add_nets(n, nets.drop_first()),
            },
        }
    }
}

/// Connect each pin to the reference it exposes; a pin naming itself is
/// unconnected.
pub open spec fn add_port_nets(nl: NetlistV, ports: Seq<(Seq<char>, Seq<char>)>) -> Result<
    NetlistV,
    Seq<char>,
>
    decreases ports.len(),
{
    if ports.len() == 0 {
        Ok(nl)
    } else if ports[0].0 == ports[0].1 {
        add_port_nets(nl, ports.drop_first())
    } else {
        match port_ref_spec(ports[0].1) {
            Err(e) => Err(e),
            Ok(m) => match nl.with_net(seq![MemberV::Port(ports[0].0), m]) {
                Err(e) => Err(e),
                Ok(n) => add_port_nets(n, ports.drop_first()),
            },
        }
    }
}

/// Elaboration of a module: pins, then instances, then connections, then
/// nets, then pin connections.
pub open spec fn elaborate(m: ModuleV) -> Result<NetlistV, Seq<char>> {
    let nl = declare_ports(NetlistV::empty(), m.ports);
    match add_instances(nl, m.instances) {
        Err(e) => Err(e),
        Ok(nl) => match add_connections(nl, m.connections) {
            Err(e) => Err(e),
            Ok(nl) => match add_nets(nl, m.nets) {
                Err(e) => Err(e),
                Ok(nl) => add_port_nets(nl, m.ports),
            },
        },
    }
}

fn array_size_error() -> (r: Error)
    ensures
        r.0@ == array_size_msg(),
{
    proof {
        reveal_strlit("array_size must be a positive integer");
    }
    Error("array_size must be a positive integer".to_owned())
}

pub proof fn lemma_map_view_key_index(e: Seq<(String, JsonValue)>, k: Seq<char>)
    ensures
        key_index(e, k) == vkey_index(map_view(e), k),
    decreases e.len(),
{
    if e.len() > 0 {
        assert(map_view(e.drop_first()) =~= map_view(e).drop_first());
        lemma_map_view_key_index(e.drop_first(), k);
    }
}

pub proof fn lemma_pairs_key_index(e: Seq<(String, String)>, k: Seq<char>)
    ensures
        key_index(e, k) == vkey_index(pairs_view(e), k),
    decreases e.len(),
{
    if e.len() > 0 {
        assert(pairs_view(e.drop_first()) =~= pairs_view(e).drop_first());
        lemma_pairs_key_index(e.drop_first(), k);
    }
}

impl Instance {
    /// The array this instance elaborates to.
    pub fn elaborated_array(&self) -> (r: Result<Option<ArraySpec>, Error>)
        ensures
            match instance_array(self@) {
                Ok(a) => r is Ok && a == match r->Ok_0 {
                    Some(s) => Some((s.na, s.nb)),
                    None => None::<(i64, i64)>,
                },
                Err(e) => r is Err && r->Err_0.0@ == e,
            },
    {
        match &self.array {
            Some(a) => Ok(Some(ArraySpec { na: a.na, nb: a.nb })),
            None => {
                let key = "array_size".to_owned();
                proof {
                    reveal_strlit("array_size");
                    lemma_map_view_key_index(self.settings@, key@);
                }
                match find_key(&self.settings, &key) {
                    None => Ok(None),
                    Some(k) => match self.settings[k].1.as_i64() {
                        Some(n) => {
                            if n > 0 {
                                Ok(Some(ArraySpec { na: n, nb: 1 }))
                            } else {
                                Err(array_size_error())
                            }
                        },
                        None => Err(array_size_error()),
                    },
                }
            },
        }
    }
}

fn declare_all_ports(nl: &mut Netlist, ports: &Vec<(String, String)>)
    ensures
        final(nl)@ == declare_ports(old(nl)@, pairs_view(ports@)),
{
    let ghost pv = pairs_view(ports@);
    proof {
        assert(pv.skip(0) =~= pv);
    }
    let mut i: usize = 0;
    while i < ports.len()
        invariant
            i <= ports@.len(),
            pv == pairs_view(ports@),
            declare_ports(old(nl)@, pv) == declare_ports(nl@, pv.skip(i as int)),
        decreases ports@.len() - i,
    {
        proof {
            assert(pv.skip(i as int).drop_first() =~= pv.skip(i + 1));
        }
        nl.create_port(ports[i].0.clone());
        i = i + 1;
    }
    proof {
        assert(pv.skip(i as int).len() == 0);
    }
}

fn add_all_instances(nl: &mut Netlist, insts: &Vec<(String, Instance)>) -> (r: Result<(), Error>)
    ensures
        match add_instances(old(nl)@, doc_instances_view(insts@)) {
            Ok(n) => r is Ok && final(nl)@ == n,
            Err(e) => r is Err && r->Err_0.0@ == e,
        },
{
    let ghost iv = doc_instances_view(insts@);
    proof {
        assert(iv.skip(0) =~= iv);
    }
    let mut i: usize = 0;
    while i < insts.len()
        invariant
            i <= insts@.len(),
            iv == doc_instances_view(insts@),
            add_instances(old(nl)@, iv) == add_instances(nl@, iv.skip(i as int)),
        decreases insts@.len() - i,
    {
        proof {
            assert(iv.skip(i as int).drop_first() =~= iv.skip(i + 1));
            assert(iv.skip(i as int)[0] == (insts@[i as int].0@, insts@[i as int].1@));
        }
        let name = &insts[i].0;
        let inst = &insts[i].1;
        let array = inst.elaborated_array()?;
        let (na, nb) = match &array {
            Some(a) => (a.na, a.nb),
            None => (0i64, 0i64),
        };
        if array.is_some() && (na < 1 || nb < 1) {
            proof {
                reveal_strlit("array dimensions must be positive");
            }
            return Err(Error("array dimensions must be positive".to_owned()));
        }
        let settings = JsonValue::Object(copy_map(&inst.settings));
        proof {
            assert(settings@ == JsonV::Object(map_view(inst.settings@))) by {
                if let JsonV::Object(a) = settings@ {
                    assert(a =~= map_view(inst.settings@));
                }
            }
        }
        nl.create_inst_with_info(
            name.clone(),
            String::new(),
            inst.component.clone(),
            settings,
            na,
            nb,
            copy_map(&inst.info),
        )?;
        i = i + 1;
    }
    proof {
        assert(iv.skip(i as int).len() == 0);
    }
    Ok(())
}

fn add_all_connections(nl: &mut Netlist, conns: &Vec<(String, String)>) -> (r: Result<(), Error>)
    ensures
        match add_connections(old(nl)@, pairs_view(conns@)) {
            Ok(n) => r is Ok && final(nl)@ == n,
            Err(e) => r is Err && r->Err_0.0@ == e,
        },
{
    let ghost cv = pairs_view(conns@);
    proof {
        assert(cv.skip(0) =~= cv);
    }
    let mut i: usize = 0;
    while i < conns.len()
        invariant
            i <= conns@.len(),
            cv == pairs_view(conns@),
            add_connections(old(nl)@, cv) == add_connections(nl@, cv.skip(i as int)),
        decreases conns@.len() - i,
    {
        proof {
            assert(cv.skip(i as int).drop_first() =~= cv.skip(i + 1));
            assert(cv.skip(i as int)[0] == (conns@[i as int].0@, conns@[i as int].1@));
        }
        let a = parse_port_ref(conns[i].0.as_str())?;
        let b = parse_port_ref(conns[i].1.as_str())?;
        let ghost (av, bv) = (a@, b@);
        let members = vec![a, b];
        proof {
            assert(members_view(members@) =~= seq![av, bv]);
        }
        nl.create_net(members)?;
        i = i + 1;
    }
    proof {
        assert(cv.skip(i as int).len() == 0);
    }
    Ok(())
}

fn parse_all_refs(refs: &Vec<String>) -> (r: Result<Vec<NetMember>, Error>)
    ensures
        match parse_all(strings_view(refs@)) {
            Ok(ms) => r is Ok && members_view(r->Ok_0@) == ms,
            Err(e) => r is Err && r->Err_0.0@ == e,
        },
{
    let ghost sv = strings_view(refs@);
    let mut out: Vec<NetMember> = Vec::new();
    proof {
        assert(sv.skip(0) =~= sv);
        match parse_all(sv) {
            Ok(rest) => {
                assert(members_view(out@) + rest =~= rest);
            },
            Err(_) => {},
        }
    }
    let mut i: usize = 0;
    while i < refs.len()
        invariant
            i <= refs@.len(),
            sv == strings_view(refs@),
            parse_all(sv) == match parse_all(sv.skip(i as int)) {
                Ok(rest) => Ok(members_view(out@) + rest),
                Err(e) => Err::<Seq<MemberV>, Seq<char>>(e),
            },
        decreases refs@.len() - i,
    {
        proof {
            assert(sv.skip(i as int).drop_first() =~= sv.skip(i + 1));
            assert(sv.skip(i as int)[0] == refs@[i as int]@);
        }
        let m = parse_port_ref(refs[i].as_str())?;
        let ghost before = out@;
        out.push(m);
        proof {
            assert(members_view(out@) =~= members_view(before) + seq![out@.last()@]);
            match parse_all(sv.skip(i + 1)) {
                Ok(rest) => {
                    assert(members_view(before) + (seq![out@.last()@] + rest) =~= members_view(out@) + rest);
                },
                Err(_) => {},
            }
        }
        i = i + 1;
    }
    proof {
        assert(sv.skip(i as int).len() == 0);
        assert(members_view(out@) + Seq::<MemberV>::empty() =~= members_view(out@));
    }
    Ok(out)
}

fn add_all_nets(nl: &mut Netlist, nets: &Vec<Vec<String>>) -> (r: Result<(), Error>)
    ensures
        match add_nets(old(nl)@, Seq::new(nets@.len(), |i: int| strings_view(nets@[i]@))) {
            Ok(n) => r is Ok && final(nl)@ == n,
            Err(e) => r is Err && r->Err_0.0@ == e,
        },
{
    let ghost nv = Seq::new(nets@.len(), |i: int| strings_view(nets@[i]@));
    proof {
        assert(nv.skip(0) =~= nv);
    }
    let mut i: usize = 0;
    while i < nets.len()
        invariant
            i <= nets@.len(),
            nv == Seq::new(nets@.len(), |i: int| strings_view(nets@[i]@)),
            add_nets(old(nl)@, nv) == add_nets(nl@, nv.skip(i as int)),
        decreases nets@.len() - i,
    {
        proof {
            assert(nv.skip(i as int).drop_first() =~= nv.skip(i + 1));
            assert(nv.skip(i as int)[0] == strings_view(nets@[i as int]@));
        }
        let members = parse_all_refs(&nets[i])?;
        nl.create_net(members)?;
        i = i + 1;
    }
    proof {
        assert(nv.skip(i as int).len() == 0);
    }
    Ok(())
}

fn add_all_port_nets(nl: &mut Netlist, ports: &Vec<(String, String)>) -> (r: Result<(), Error>)
    ensures
        match add_port_nets(old(nl)@, pairs_view(ports@)) {
            Ok(n) => r is Ok && final(nl)@ == n,
            Err(e) => r is Err && r->Err_0.0@ == e,
        },
{
    let ghost pv = pairs_view(ports@);
    proof {
        assert(pv.skip(0) =~= pv);
    }
    let mut i: usize = 0;
    while i < ports.len()
        invariant
            i <= ports@.len(),
            pv == pairs_view(ports@),
            add_port_nets(old(nl)@, pv) == add_port_nets(nl@, pv.skip(i as int)),
        decreases ports@.len() - i,
    {
        proof {
            assert(pv.skip(i as int).drop_first() =~= pv.skip(i + 1));
            assert(pv.skip(i as int)[0] == (ports@[i as int].0@, ports@[i as int].1@));
        }
        let name = &ports[i].0;
        let reference = &ports[i].1;
        if *name != *reference {
            let m = parse_port_ref(reference.as_str())?;
            let ghost mv = m@;
            let members = vec![NetMember::Port(NetlistPort { name: name.clone() }), m];
            proof {
                assert(members_view(members@) =~= seq![MemberV::Port(name@), mv]);
            }
            nl.create_net(members)?;
        }
        i = i + 1;
    }
    proof {
        assert(pv.skip(i as int).len() == 0);
    }
    Ok(())
}

impl Module {
    /// Elaborate this module into a connectivity netlist.
    pub fn to_netlist(&self) -> (r: Result<Netlist, Error>)
        ensures
            match elaborate(self@) {
                Ok(n) => r is Ok && r->Ok_0@ == n,
                Err(e) => r is Err && r->Err_0.0@ == e,
            },
    {
        let mut nl = Netlist::new();
        declare_all_ports(&mut nl, &self.ports);
        add_all_instances(&mut nl, &self.instances)?;
        add_all_connections(&mut nl, &self.connections)?;
        add_all_nets(&mut nl, &self.nets)?;
        add_all_port_nets(&mut nl, &self.ports)?;
        Ok(nl)
    }
}

/// `IndexMap::insert` on contents: a present key keeps its place.
pub open spec fn vmap_insert<V>(e: Seq<(Seq<char>, V)>, k: Seq<char>, v: V) -> Seq<(Seq<char>, V)> {
    match vkey_index(e, k) {
        Some(i) => e.update(i, (k, v)),
        None => e.push((k, v)),
    }
}

/// `entry(k).or_insert(v)` on contents.
pub open spec fn vmap_insert_absent<V>(e: Seq<(Seq<char>, V)>, k: Seq<char>, v: V) -> Seq<
    (Seq<char>, V),
> {
    match vkey_index(e, k) {
        Some(_) => e,
        None => e.push((k, v)),
    }
}

/// The pin members of a net, in order.
pub open spec fn pins_of(ms: Seq<MemberV>) -> Seq<MemberV>
    decreases ms.len(),
{
    if ms.len() == 0 {
        Seq::empty()
    } else if ms.last() is Port {
        pins_of(ms.drop_last()).push(ms.last())
    } else {
        pins_of(ms.drop_last())
    }
}

/// The instance-port members of a net, in order.
pub open spec fn others_of(ms: Seq<MemberV>) -> Seq<MemberV>
    decreases ms.len(),
{
    if ms.len() == 0 {
        Seq::empty()
    } else if ms.last() is Port {
        others_of(ms.drop_last())
    } else {
        others_of(ms.drop_last()).push(ms.last())
    }
}

pub open spec fn texts_of(ms: Seq<MemberV>) -> Seq<Seq<char>> {
    Seq::new(ms.len(), |i: int| unparse_spec(ms[i]))
}

/// Nets of one pin and one instance port become pin entries; all other nets
/// stay nets.
pub open spec fn split_nets(ns: Seq<Seq<MemberV>>) -> (Seq<(Seq<char>, Seq<char>)>, Seq<Seq<Seq<char>>>)
    decreases ns.len(),
{
    if ns.len() == 0 {
        (Seq::empty(), Seq::empty())
    } else {
        let (ports, nets) = split_nets(ns.drop_last());
        let net = ns.last();
        let pins = pins_of(net);
        let others = others_of(net);
        if pins.len() == 1 && others.len() == 1 {
            (vmap_insert(ports, unparse_spec(pins[0]), unparse_spec(others[0])), nets)
        } else {
            (ports, nets.push(texts_of(net)))
        }
    }
}

/// Every declared pin gets an entry, naming itself when it has none.
pub open spec fn add_declared(ports: Seq<(Seq<char>, Seq<char>)>, declared: Seq<Seq<char>>) -> Seq<
    (Seq<char>, Seq<char>),
>
    decreases declared.len(),
{
    if declared.len() == 0 {
        ports
    } else {
        let p = declared.last();
        vmap_insert_absent(add_declared(ports, declared.drop_last()), p, p)
    }
}

pub open spec fn recover_instance(i: InstanceV) -> InstanceDocV {
    InstanceDocV {
        component: i.component,
        settings: match i.settings {
            JsonV::Object(m) => m,
            _ => Seq::empty(),
        },
        array: i.array,
        info: i.info,
    }
}

/// The module a netlist recovers: its instances, its pins and its nets; no
/// settings, placements or routes.
pub open spec fn recover(name: Seq<char>, nl: NetlistV) -> ModuleV {
    let (ports, nets) = split_nets(nl.nets);
    ModuleV {
        name: Some(name),
        settings: Seq::empty(),
        info: Seq::empty(),
        instances: Seq::new(nl.instances.len(), |i: int| (nl.instances[i].0, recover_instance(nl.instances[i].1))),
        placements: Seq::empty(),
        ports: add_declared(ports, nl.ports),
        connections: Seq::empty(),
        nets: nets,
        routes: Seq::empty(),
    }
}

fn member_texts(ms: &Vec<NetMember>) -> (r: Vec<String>)
    ensures
        strings_view(r@) == texts_of(members_view(ms@)),
{
    let mut out: Vec<String> = Vec::new();
    let mut i: usize = 0;
    while i < ms.len()
        invariant
            i <= ms@.len(),
            out@.len() == i,
            forall|j: int| 0 <= j < i ==> #[trigger] out@[j]@ == unparse_spec(ms@[j]@),
        decreases ms@.len() - i,
    {
        out.push(unparse(&ms[i]));
        i = i + 1;
    }
    assert(strings_view(out@) =~= texts_of(members_view(ms@)));
    out
}

/// Counts of pin and instance-port members, with the first of each.
fn classify(ms: &Vec<NetMember>) -> (r: (usize, usize, usize, usize))
    ensures
        r.0 == pins_of(members_view(ms@)).len(),
        r.1 == others_of(members_view(ms@)).len(),
        r.0 > 0 ==> r.2 < ms@.len() && ms@[r.2 as int]@ == pins_of(members_view(ms@))[0],
        r.1 > 0 ==> r.3 < ms@.len() && ms@[r.3 as int]@ == others_of(members_view(ms@))[0],
{
    let ghost mv = members_view(ms@);
    let mut pc: usize = 0;
    let mut oc: usize = 0;
    let mut fp: usize = 0;
    let mut fo: usize = 0;
    let mut j: usize = 0;
    while j < ms.len()
        invariant
            j <= ms@.len(),
            mv == members_view(ms@),
            pc == pins_of(mv.take(j as int)).len(),
            oc == others_of(mv.take(j as int)).len(),
            pc <= j,
            oc <= j,
            pc > 0 ==> fp < j && ms@[fp as int]@ == pins_of(mv.take(j as int))[0],
            oc > 0 ==> fo < j && ms@[fo as int]@ == others_of(mv.take(j as int))[0],
        decreases ms@.len() - j,
    {
        proof {
            assert(mv.take(j + 1).drop_last() =~= mv.take(j as int));
            assert(mv.take(j + 1).last() == ms@[j as int]@);
        }
        match &ms[j] {
            NetMember::Port(_) => {
                if pc == 0 {
                    fp = j;
                }
                pc = pc + 1;
            },
            _ => {
                if oc == 0 {
                    fo = j;
                }
                oc = oc + 1;
            },
        }
        j = j + 1;
    }
    proof {
        assert(mv.take(j as int) =~= mv);
    }
    (pc, oc, fp, fo)
}

fn recover_instance_exec(i: &NetlistInstance) -> (r: Instance)
    ensures
        r@ == recover_instance(i@),
{
    let settings = object_entries(&i.settings);
    let r = Instance {
        component: i.component.clone(),
        settings,
        array: match &i.array {
            Some(a) => Some(ArraySpec { na: a.na, nb: a.nb }),
            None => None,
        },
        info: copy_map(&i.info),
    };
    proof {
        match &i.settings {
            JsonValue::Object(m) => {
                assert(map_view(r.settings@) == map_view(m@));
            },
            _ => {
                assert(map_view(r.settings@) =~= Seq::<(Seq<char>, JsonV)>::empty());
            },
        }
        assert(r@ =~= recover_instance(i@));
    }
    r
}

impl Module {
    /// An empty module.
    pub fn empty() -> (r: Module)
        ensures
            r@ == (ModuleV {
                name: None,
                settings: Seq::empty(),
                info: Seq::empty(),
                instances: Seq::empty(),
                placements: Seq::empty(),
                ports: Seq::empty(),
                connections: Seq::empty(),
                nets: Seq::empty(),
                routes: Seq::empty(),
            }),
    {
        let r = Module {
            name: None,
            settings: Vec::new(),
            info: Vec::new(),
            instances: Vec::new(),
            placements: Vec::new(),
            ports: Vec::new(),
            connections: Vec::new(),
            nets: Vec::new(),
            routes: Vec::new(),
        };
        assert(r@.instances =~= Seq::empty());
        assert(r@.nets =~= Seq::empty());
        assert(r@.ports =~= Seq::empty());
        assert(r@.connections =~= Seq::empty());
        r
    }

    /// Recover connectivity and instance metadata. Layout and routing data have
    /// no place in a netlist.
    pub fn from_netlist(name: String, nl: &Netlist) -> (r: Module)
        ensures
            r@ == recover(name@, nl@),
    {
        let mut instances: Vec<(String, Instance)> = Vec::new();
        let mut k: usize = 0;
        while k < nl.instances.len()
            invariant
                k <= nl.instances@.len(),
                instances@.len() == k,
                forall|j: int| 0 <= j < k ==> (#[trigger] instances@[j]).0@ == nl.instances@[j].0@
                    && instances@[j].1@ == recover_instance(nl.instances@[j].1@),
            decreases nl.instances@.len() - k,
        {
            instances.push((nl.instances[k].0.clone(), recover_instance_exec(&nl.instances[k].1)));
            k = k + 1;
        }
        let ghost nv = nl@.nets;
        let mut ports: Vec<(String, String)> = Vec::new();
        let mut nets: Vec<Vec<String>> = Vec::new();
        let mut i: usize = 0;
        while i < nl.nets.len()
            invariant
                i <= nl.nets@.len(),
                nv == nl@.nets,
                (pairs_view(ports@), Seq::new(nets@.len(), |j: int| strings_view(nets@[j]@)))
                    == split_nets(nv.take(i as int)),
            decreases nl.nets@.len() - i,
        {
            let members = &nl.nets[i].members;
            proof {
                assert(nv.take(i + 1).drop_last() =~= nv.take(i as int));
                assert(nv.take(i + 1).last() == members_view(members@));
            }
            let (pc, oc, fp, fo) = classify(members);
            if pc == 1 && oc == 1 {
                let pin = unparse(&members[fp]);
                let other = unparse(&members[fo]);
                proof {
                    lemma_pairs_key_index(ports@, pin@);
                    lemma_key_index(ports@, pin@);
                }
                let ghost before = ports@;
                map_insert(&mut ports, pin, other);
                proof {
                    match key_index(before, pin@) {
                        Some(x) => {
                            assert(pairs_view(ports@) =~= pairs_view(before).update(x, (pin@, other@)));
                        },
                        None => {
                            assert(pairs_view(ports@) =~= pairs_view(before).push((pin@, other@)));
                        },
                    }
                }
            } else {
                let ghost before = nets@;
                nets.push(member_texts(members));
                proof {
                    assert(Seq::new(nets@.len(), |j: int| strings_view(nets@[j]@)) =~= Seq::new(
                        before.len(),
                        |j: int| strings_view(before[j]@),
                    ).push(texts_of(members_view(members@))));
                }
            }
            i = i + 1;
        }
        proof {
            assert(nv.take(i as int) =~= nv);
        }
        let ghost split_ports = pairs_view(ports@);
        let ghost decl = nl@.ports;
        let mut p: usize = 0;
        while p < nl.ports.len()
            invariant
                p <= nl.ports@.len(),
                decl == nl@.ports,
                pairs_view(ports@) == add_declared(split_ports, decl.take(p as int)),
            decreases nl.ports@.len() - p,
        {
            proof {
                assert(decl.take(p + 1).drop_last() =~= decl.take(p as int));
                assert(decl.take(p + 1).last() == nl.ports@[p as int].name@);
                lemma_pairs_key_index(ports@, nl.ports@[p as int].name@);
            }
            let ghost before = ports@;
            map_insert_absent(&mut ports, nl.ports[p].name.clone(), nl.ports[p].name.clone());
            proof {
                match key_index(before, nl.ports@[p as int].name@) {
                    Some(x) => {},
                    None => {
                        assert(pairs_view(ports@) =~= pairs_view(before).push(
                            (nl.ports@[p as int].name@, nl.ports@[p as int].name@),
                        ));
                    },
                }
            }
            p = p + 1;
        }
        proof {
            assert(decl.take(p as int) =~= decl);
        }
        let r = Module {
            name: Some(name),
            settings: Vec::new(),
            info: Vec::new(),
            instances,
            placements: Vec::new(),
            ports,
            connections: Vec::new(),
            nets,
            routes: Vec::new(),
        };
        proof {
            assert(r@.instances =~= recover(name@, nl@).instances);
            assert(r@.settings =~= Seq::empty());
            assert(r@.info =~= Seq::empty());
            assert(r@.placements =~= Seq::empty());
            assert(r@.routes =~= Seq::empty());
            assert(r@.connections =~= Seq::empty());
            assert(r@ =~= recover(name@, nl@));
        }
        r
    }
}

pub open spec fn unknown_toplevel_msg(t: Seq<char>) -> Seq<char> {
    "unknown toplevel module: "@ + t
}

/// Elaborate each module in order, collecting by name.
pub open spec fn elaborate_all(
    acc: Seq<(Seq<char>, NetlistV)>,
    ms: Seq<(Seq<char>, ModuleV)>,
) -> Result<Seq<(Seq<char>, NetlistV)>, Seq<char>>
    decreases ms.len(),
{
    if ms.len() == 0 {
        Ok(acc)
    } else {
        match elaborate(ms[0].1) {
            Err(e) => Err(e),
            Ok(n) => elaborate_all(vmap_insert(acc, ms[0].0, n), ms.drop_first()),
        }
    }
}

/// Elaboration of a document: every module, once the top module is known.
pub open spec fn elaborate_document(d: TopLevelModuleV) -> Result<Seq<(Seq<char>, NetlistV)>, Seq<char>> {
    match d.toplevel {
        Some(t) => if vkey_index(d.modules, t) is None {
            Err(unknown_toplevel_msg(t))
        } else {
            elaborate_all(Seq::empty(), d.modules)
        },
        None => elaborate_all(Seq::empty(), d.modules),
    }
}

/// A document recovered from netlists, one module per netlist.
pub open spec fn recover_all(
    acc: Seq<(Seq<char>, ModuleV)>,
    ns: Seq<(Seq<char>, NetlistV)>,
) -> Seq<(Seq<char>, ModuleV)>
    decreases ns.len(),
{
    if ns.len() == 0 {
        acc
    } else {
        recover_all(vmap_insert(acc, ns[0].0, recover(ns[0].0, ns[0].1)), ns.drop_first())
    }
}

pub open spec fn named_netlists_view(e: Seq<(String, Netlist)>) -> Seq<(Seq<char>, NetlistV)> {
    Seq::new(e.len(), |i: int| (e[i].0@, e[i].1@))
}

pub open spec fn named_modules_view(e: Seq<(String, Module)>) -> Seq<(Seq<char>, ModuleV)> {
    Seq::new(e.len(), |i: int| (e[i].0@, e[i].1@))
}

proof fn lemma_modules_key_index(e: Seq<(String, Module)>, k: Seq<char>)
    ensures
        key_index(e, k) == vkey_index(named_modules_view(e), k),
    decreases e.len(),
{
    if e.len() > 0 {
        assert(named_modules_view(e.drop_first()) =~= named_modules_view(e).drop_first());
        lemma_modules_key_index(e.drop_first(), k);
    }
}

proof fn lemma_netlists_key_index(e: Seq<(String, Netlist)>, k: Seq<char>)
    ensures
        key_index(e, k) == vkey_index(named_netlists_view(e), k),
    decreases e.len(),
{
    if e.len() > 0 {
        assert(named_netlists_view(e.drop_first()) =~= named_netlists_view(e).drop_first());
        lemma_netlists_key_index(e.drop_first(), k);
    }
}

impl TopLevelModule {
    /// Elaborate every module, refusing an unknown top module.
    pub fn to_netlists(&self) -> (r: Result<Vec<(String, Netlist)>, Error>)
        ensures
            match elaborate_document(self@) {
                Ok(ns) => r is Ok && named_netlists_view(r->Ok_0@) == ns,
                Err(e) => r is Err && r->Err_0.0@ == e,
            },
    {
        assert(self@.modules == named_modules_view(self.modules@));
        if let Some(top) = &self.toplevel {
            proof {
                lemma_modules_key_index(self.modules@, top@);
            }
            if find_key(&self.modules, top).is_none() {
                proof {
                    reveal_strlit("unknown toplevel module: ");
                }
                return Err(Error(concat("unknown toplevel module: ", top.as_str())));
            }
        }
        let ghost mv = self@.modules;
        let mut out: Vec<(String, Netlist)> = Vec::new();
        proof {
            assert(mv.skip(0) =~= mv);
            assert(named_netlists_view(out@) =~= Seq::<(Seq<char>, NetlistV)>::empty());
        }
        let mut i: usize = 0;
        while i < self.modules.len()
            invariant
                i <= self.modules@.len(),
                mv == self@.modules,
                mv == named_modules_view(self.modules@),
                elaborate_document(self@) == elaborate_all(Seq::empty(), mv),
                elaborate_all(Seq::empty(), mv) == elaborate_all(named_netlists_view(out@), mv.skip(i as int)),
            decreases self.modules@.len() - i,
        {
            proof {
                assert(mv.skip(i as int).drop_first() =~= mv.skip(i + 1));
                assert(mv.skip(i as int)[0] == (self.modules@[i as int].0@, self.modules@[i as int].1@));
            }
            let nl = self.modules[i].1.to_netlist()?;
            let name = self.modules[i].0.clone();
            proof {
                lemma_netlists_key_index(out@, name@);
                lemma_key_index(out@, name@);
            }
            let ghost before = out@;
            let ghost nlv = nl@;
            map_insert(&mut out, name, nl);
            proof {
                match key_index(before, name@) {
                    Some(x) => {
                        assert(named_netlists_view(out@) =~= named_netlists_view(before).update(x, (name@, nlv)));
                    },
                    None => {
                        assert(named_netlists_view(out@) =~= named_netlists_view(before).push((name@, nlv)));
                    },
                }
            }
            i = i + 1;
        }
        proof {
            assert(mv.skip(i as int).len() == 0);
        }
        Ok(out)
    }

    /// One module per netlist, keeping connectivity and instance metadata.
    pub fn from_netlists(netlists: &Vec<(String, Netlist)>, toplevel: Option<String>) -> (r: TopLevelModule)
        ensures
            r@.modules == recover_all(Seq::empty(), named_netlists_view(netlists@)),
            r@.toplevel == match toplevel {
                Some(t) => Some(t@),
                None => None::<Seq<char>>,
            },
    {
        let ghost nv = named_netlists_view(netlists@);
        let mut modules: Vec<(String, Module)> = Vec::new();
        proof {
            assert(nv.skip(0) =~= nv);
            assert(named_modules_view(modules@) =~= Seq::<(Seq<char>, ModuleV)>::empty());
        }
        let mut i: usize = 0;
        while i < netlists.len()
            invariant
                i <= netlists@.len(),
                nv == named_netlists_view(netlists@),
                recover_all(Seq::empty(), nv) == recover_all(named_modules_view(modules@), nv.skip(i as int)),
            decreases netlists@.len() - i,
        {
            proof {
                assert(nv.skip(i as int).drop_first() =~= nv.skip(i + 1));
                assert(nv.skip(i as int)[0] == (netlists@[i as int].0@, netlists@[i as int].1@));
            }
            let name = netlists[i].0.clone();
            let m = Module::from_netlist(netlists[i].0.clone(), &netlists[i].1);
            proof {
                lemma_modules_key_index(modules@, name@);
                lemma_key_index(modules@, name@);
            }
            let ghost before = modules@;
            let ghost mview = m@;
            map_insert(&mut modules, name, m);
            proof {
                match key_index(before, name@) {
                    Some(x) => {
                        assert(named_modules_view(modules@) =~= named_modules_view(before).update(x, (name@, mview)));
                    },
                    None => {
                        assert(named_modules_view(modules@) =~= named_modules_view(before).push((name@, mview)));
                    },
                }
            }
            i = i + 1;
        }
        proof {
            assert(nv.skip(i as int).len() == 0);
        }
        let r = TopLevelModule { modules, toplevel };
        proof {
            assert(r@.modules =~= named_modules_view(r.modules@));
        }
        r
    }
}

/// Where a document's modules come from: an explicit non-empty `modules`
/// mapping, the bare fields of a single root module, or a `modules` entry that
/// is empty or absent.
pub enum ModuleSource {
    Explicit(JsonMap),
    Root(JsonMap),
    Listed(Option<JsonMap>),
}

pub enum ModuleSourceV {
    Explicit(Seq<(Seq<char>, JsonV)>),
    Root(Seq<(Seq<char>, JsonV)>),
    Listed(Option<Seq<(Seq<char>, JsonV)>>),
}

impl View for ModuleSource {
    type V = ModuleSourceV;

    open spec fn view(&self) -> ModuleSourceV {
        match self {
            ModuleSource::Explicit(m) => ModuleSourceV::Explicit(map_view(m@)),
            ModuleSource::Root(m) => ModuleSourceV::Root(map_view(m@)),
            ModuleSource::Listed(o) => ModuleSourceV::Listed(
                match o {
                    Some(m) => Some(map_view(m@)),
                    None => None,
                },
            ),
        }
    }
}

pub open spec fn modules_not_mapping_msg() -> Seq<char> {
    "modules must be a mapping"@
}

pub open spec fn mixed_fields_msg() -> Seq<char> {
    "cannot mix modules with bare module fields"@
}

/// The shape of a document (its `toplevel` entry already taken out): an
/// explicit non-empty `modules` mapping alone, else bare fields forming the
/// root module (the top module defaulting to it), else the (empty or absent)
/// `modules` entry; refused for a `modules` entry that is not a mapping, or
/// one mixed with bare fields.
pub open spec fn document_shape_spec(raw: Seq<(Seq<char>, JsonV)>, top: Option<Seq<char>>) -> Result<
    (ModuleSourceV, Option<Seq<char>>),
    Seq<char>,
> {
    let mi = vkey_index(raw, "modules"@);
    let rest = match mi {
        Some(i) => raw.remove(i),
        None => raw,
    };
    match mi {
        Some(i) => match raw[i].1 {
            JsonV::Object(m) => if m.len() > 0 {
                if rest.len() > 0 {
                    Err(mixed_fields_msg())
                } else {
                    Ok((ModuleSourceV::Explicit(m), top))
                }
            } else if rest.len() > 0 {
                Ok((ModuleSourceV::Root(rest), Some(match top { Some(t) => t, None => "__root__"@ })))
            } else {
                Ok((ModuleSourceV::Listed(Some(m)), top))
            },
            _ => Err(modules_not_mapping_msg()),
        },
        None => if rest.len() > 0 {
            Ok((ModuleSourceV::Root(rest), Some(match top { Some(t) => t, None => "__root__"@ })))
        } else {
            Ok((ModuleSourceV::Listed(None), top))
        },
    }
}

/// Decide a document's shape from its entries (without `toplevel`) and its
/// top module.
pub fn document_shape(raw: JsonMap, toplevel: Option<String>) -> (r: Result<(ModuleSource, Option<String>), Error>)
    ensures
        match document_shape_spec(
            map_view(raw@),
            match toplevel {
                Some(t) => Some(t@),
                None => None,
            },
        ) {
            Ok((src, top)) => r is Ok && r->Ok_0.0@ == src && match r->Ok_0.1 {
                Some(t) => top == Some(t@),
                None => top is None,
            },
            Err(e) => r is Err && r->Err_0.0@ == e,
        },
{
    let ghost rv = map_view(raw@);
    let key = "modules".to_owned();
    proof {
        reveal_strlit("modules");
        reveal_strlit("__root__");
        reveal_strlit("modules must be a mapping");
        reveal_strlit("cannot mix modules with bare module fields");
        lemma_map_view_key_index(raw@, key@);
        lemma_key_index(raw@, key@);
    }
    let mut rest = raw;
    let ghost mi = vkey_index(rv, "modules"@);
    let ghost mut mval: Option<JsonV> = None;
    let modules: Option<JsonValue> = match find_key(&rest, &key) {
        Some(i) => {
            let (_, v) = rest.remove(i);
            proof {
                assert(map_view(rest@) =~= rv.remove(i as int));
                assert(v@ == rv[i as int].1);
                mval = Some(v@);
            }
            Some(v)
        },
        None => None,
    };
    assert(mval == match mi {
        Some(i) => Some(rv[i].1),
        None => None::<JsonV>,
    });
    assert(mval == match modules {
        Some(v) => Some(v@),
        None => None::<JsonV>,
    });
    let ghost restv = match mi {
        Some(i) => rv.remove(i),
        None => rv,
    };
    assert(map_view(rest@) == restv);
    assert(map_view(rest@).len() == rest@.len());
    let root_top = |t: Option<String>| -> (r: String)
        ensures
            r@ == match t {
                Some(x) => x@,
                None => "__root__"@,
            },
        {
            match t {
                Some(x) => x,
                None => "__root__".to_owned(),
            }
        };
    match modules {
        Some(JsonValue::Object(m)) => {
            proof {
                assert(JsonValue::Object(m)@->Object_0 =~= map_view(m@));
                assert(rv[mi->0].1 == JsonV::Object(map_view(m@)));
                assert(map_view(m@).len() == m@.len());
            }
            if m.len() > 0 {
                if rest.len() > 0 {
                    return Err(Error("cannot mix modules with bare module fields".to_owned()));
                }
                Ok((ModuleSource::Explicit(m), toplevel))
            } else if rest.len() > 0 {
                Ok((ModuleSource::Root(rest), Some(root_top(toplevel))))
            } else {
                Ok((ModuleSource::Listed(Some(m)), toplevel))
            }
        },
        Some(_) => Err(Error("modules must be a mapping".to_owned())),
        None => {
            if rest.len() > 0 {
                Ok((ModuleSource::Root(rest), Some(root_top(toplevel))))
            } else {
                Ok((ModuleSource::Listed(None), toplevel))
            }
        },
    }
}

} // verus!
