//! Connectivity netlists: declared pins, placed instances (optionally arrayed)
//! and nets whose members are pins, instance ports or array-element ports.
use vstd::prelude::*;
use crate::json::{JsonMap, JsonValue, JsonV, map_view};
use crate::ordmap::{key_index, find_key};
use crate::text::concat;
use crate::Error;

verus! {

#[derive(Clone, Debug, PartialEq, Eq)]
pub struct NetlistPort {
    pub name: String,
}

#[derive(Clone, Debug, PartialEq, Eq)]
pub struct PortRef {
    pub instance: String,
    pub port: String,
}

/// A port of one element of an instance array; `ia`, `ib` count from one.
#[derive(Clone, Debug, PartialEq, Eq)]
pub struct PortArrayRef {
    pub instance: String,
    pub port: String,
    pub ia: i64,
    pub ib: i64,
}

#[derive(Clone, Debug, PartialEq, Eq)]
pub enum NetMember {
    Port(NetlistPort),
    Ref(PortRef),
    ArrayRef(PortArrayRef),
}

/// The content of a net member.
pub enum MemberV {
    Port(Seq<char>),
    Ref(Seq<char>, Seq<char>),
    ArrayRef(Seq<char>, Seq<char>, i64, i64),
}

impl View for NetMember {
    type V = MemberV;

    open spec fn view(&self) -> MemberV {
        match self {
            NetMember::Port(p) => MemberV::Port(p.name@),
            NetMember::Ref(r) => MemberV::Ref(r.instance@, r.port@),
            NetMember::ArrayRef(a) => MemberV::ArrayRef(a.instance@, a.port@, a.ia, a.ib),
        }
    }
}

impl NetMember {
    /// An identical copy.
    pub fn duplicate(&self) -> (r: NetMember)
        ensures
            r@ == self@,
    {
        match self {
            NetMember::Port(p) => NetMember::Port(NetlistPort { name: p.name.clone() }),
            NetMember::Ref(p) => NetMember::Ref(
                PortRef { instance: p.instance.clone(), port: p.port.clone() },
            ),
            NetMember::ArrayRef(p) => NetMember::ArrayRef(
                PortArrayRef { instance: p.instance.clone(), port: p.port.clone(), ia: p.ia, ib: p.ib },
            ),
        }
    }
}

pub open spec fn members_view(ms: Seq<NetMember>) -> Seq<MemberV> {
    Seq::new(ms.len(), |i: int| ms[i]@)
}

#[derive(Debug, PartialEq, Eq)]
pub struct Net {
    pub members: Vec<NetMember>,
}

impl View for Net {
    type V = Seq<MemberV>;

    open spec fn view(&self) -> Seq<MemberV> {
        members_view(self.members@)
    }
}

#[derive(Clone, Debug, PartialEq, Eq)]
pub struct InstanceArray {
    pub na: i64,
    pub nb: i64,
}

#[derive(Debug, PartialEq)]
pub struct NetlistInstance {
    pub kcl: String,
    pub component: String,
    pub settings: JsonValue,
    pub array: Option<InstanceArray>,
    pub info: JsonMap,
}

#[verifier::ext_equal]
pub struct InstanceV {
    pub kcl: Seq<char>,
    pub component: Seq<char>,
    pub settings: JsonV,
    pub array: Option<(i64, i64)>,
    pub info: Seq<(Seq<char>, JsonV)>,
}

impl View for NetlistInstance {
    type V = InstanceV;

    open spec fn view(&self) -> InstanceV {
        InstanceV {
            kcl: self.kcl@,
            component: self.component@,
            settings: self.settings@,
            array: match self.array {
                Some(a) => Some((a.na, a.nb)),
                None => None,
            },
            info: map_view(self.info@),
        }
    }
}

#[derive(Debug, PartialEq)]
pub struct Netlist {
    pub instances: Vec<(String, NetlistInstance)>,
    pub nets: Vec<Net>,
    pub ports: Vec<NetlistPort>,
}

/// The content of a netlist: instances in order, nets in order, pins in order.
#[verifier::ext_equal]
pub struct NetlistV {
    pub instances: Seq<(Seq<char>, InstanceV)>,
    pub nets: Seq<Seq<MemberV>>,
    pub ports: Seq<Seq<char>>,
}

pub open spec fn port_names(ps: Seq<NetlistPort>) -> Seq<Seq<char>> {
    Seq::new(ps.len(), |i: int| ps[i].name@)
}

pub open spec fn nets_view(ns: Seq<Net>) -> Seq<Seq<MemberV>> {
    Seq::new(ns.len(), |i: int| ns[i]@)
}

pub open spec fn instances_view(e: Seq<(String, NetlistInstance)>) -> Seq<(Seq<char>, InstanceV)> {
    Seq::new(e.len(), |i: int| (e[i].0@, e[i].1@))
}

impl View for Netlist {
    type V = NetlistV;

    open spec fn view(&self) -> NetlistV {
        NetlistV {
            instances: instances_view(self.instances@),
            nets: nets_view(self.nets@),
            ports: port_names(self.ports@),
        }
    }
}

pub open spec fn unknown_port_msg(n: Seq<char>) -> Seq<char> {
    "unknown port: "@ + n
}

pub open spec fn unknown_instance_msg(n: Seq<char>) -> Seq<char> {
    "unknown instance: "@ + n
}

pub open spec fn not_array_msg(n: Seq<char>) -> Seq<char> {
    "instance is not an array: "@ + n
}

pub open spec fn out_of_range_msg(n: Seq<char>) -> Seq<char> {
    "array index out of range: "@ + n
}

pub open spec fn duplicate_instance_msg(n: Seq<char>) -> Seq<char> {
    "duplicate instance: "@ + n
}

pub open spec fn bad_dims_msg() -> Seq<char> {
    "array dimensions must be positive"@
}

/// Position of key `k` among named entries.
pub open spec fn vkey_index<V>(e: Seq<(Seq<char>, V)>, k: Seq<char>) -> Option<int>
    decreases e.len(),
{
    if e.len() == 0 {
        None
    } else if e[0].0 == k {
        Some(0)
    } else {
        match vkey_index(e.drop_first(), k) {
            Some(i) => Some(i + 1),
            None => None,
        }
    }
}

pub proof fn lemma_instances_key_index(e: Seq<(String, NetlistInstance)>, k: Seq<char>)
    ensures
        key_index(e, k) == vkey_index(instances_view(e), k),
    decreases e.len(),
{
    if e.len() > 0 {
        assert(instances_view(e.drop_first()) =~= instances_view(e).drop_first());
        lemma_instances_key_index(e.drop_first(), k);
    }
}

pub proof fn lemma_vkey_index<V>(e: Seq<(Seq<char>, V)>, k: Seq<char>)
    ensures
        match vkey_index(e, k) {
            Some(i) => 0 <= i < e.len() && e[i].0 == k && forall|j: int|
                0 <= j < i ==> e[j].0 != k,
            None => forall|j: int| 0 <= j < e.len() ==> e[j].0 != k,
        },
    decreases e.len(),
{
    if e.len() > 0 && e[0].0 != k {
        lemma_vkey_index(e.drop_first(), k);
        match vkey_index(e.drop_first(), k) {
            Some(i) => {
                assert forall|j: int| 0 <= j < i + 1 implies e[j].0 != k by {
                    if j > 0 {
                        assert(e[j] == e.drop_first()[j - 1]);
                    }
                }
                assert(e[i + 1] == e.drop_first()[i]);
            },
            None => {
                assert forall|j: int| 0 <= j < e.len() implies e[j].0 != k by {
                    if j > 0 {
                        assert(e[j] == e.drop_first()[j - 1]);
                    }
                }
            },
        }
    }
}

impl NetlistV {
    pub open spec fn empty() -> NetlistV {
        NetlistV { instances: Seq::empty(), nets: Seq::empty(), ports: Seq::empty() }
    }

    /// Instance names and pin names are distinct.
    pub open spec fn wf(self) -> bool {
        &&& forall|i: int, j: int|
            0 <= i < j < self.instances.len() ==> self.instances[i].0 != self.instances[j].0
        &&& forall|i: int, j: int| 0 <= i < j < self.ports.len() ==> self.ports[i] != self.ports[j]
    }

    pub open spec fn has_port(self, n: Seq<char>) -> bool {
        self.ports.contains(n)
    }

    /// Declaring a pin: a no-op when it exists.
    pub open spec fn with_port(self, n: Seq<char>) -> NetlistV {
        if self.has_port(n) {
            self
        } else {
            NetlistV { ports: self.ports.push(n), ..self }
        }
    }

    /// Why `m` cannot be a net member here, if it cannot.
    pub open spec fn member_error(self, m: MemberV) -> Option<Seq<char>> {
        match m {
            MemberV::Port(n) => if self.has_port(n) {
                None
            } else {
                Some(unknown_port_msg(n))
            },
            MemberV::Ref(i, _) => if vkey_index(self.instances, i) is Some {
                None
            } else {
                Some(unknown_instance_msg(i))
            },
            MemberV::ArrayRef(i, _, ia, ib) => match vkey_index(self.instances, i) {
                None => Some(unknown_instance_msg(i)),
                Some(k) => match self.instances[k].1.array {
                    None => Some(not_array_msg(i)),
                    Some((na, nb)) => if 1 <= ia <= na && 1 <= ib <= nb {
                        None
                    } else {
                        Some(out_of_range_msg(i))
                    },
                },
            },
        }
    }

    /// The refusal of the first member that cannot be connected.
    pub open spec fn first_member_error(self, ms: Seq<MemberV>) -> Option<Seq<char>>
        decreases ms.len(),
    {
        if ms.len() == 0 {
            None
        } else {
            match self.member_error(ms[0]) {
                Some(e) => Some(e),
                None => self.first_member_error(ms.drop_first()),
            }
        }
    }

    /// Connecting `ms` as one more net.
    pub open spec fn with_net(self, ms: Seq<MemberV>) -> Result<NetlistV, Seq<char>> {
        match self.first_member_error(ms) {
            Some(e) => Err(e),
            None => Ok(NetlistV { nets: self.nets.push(ms), ..self }),
        }
    }

    /// Placing an instance: refused for a taken name or for dimensions other
    /// than both zero (single) or both positive (array).
    pub open spec fn with_instance(self, name: Seq<char>, inst: InstanceV, na: i64, nb: i64) -> Result<
        NetlistV,
        Seq<char>,
    > {
        if vkey_index(self.instances, name) is Some {
            Err(duplicate_instance_msg(name))
        } else if !((na == 0 && nb == 0) || (na > 0 && nb > 0)) {
            Err(bad_dims_msg())
        } else {
            Ok(
                NetlistV {
                    instances: self.instances.push(
                        (name, InstanceV { array: if na > 0 { Some((na, nb)) } else { None }, ..inst }),
                    ),
                    ..self
                },
            )
        }
    }
}

impl Default for Netlist {
    fn default() -> (r: Netlist)
        ensures
            r@ == NetlistV::empty(),
    {
        Netlist::new()
    }
}

impl Netlist {
    pub fn new() -> (r: Netlist)
        ensures
            r@ == NetlistV::empty(),
    {
        let r = Netlist { instances: Vec::new(), nets: Vec::new(), ports: Vec::new() };
        assert(r@ =~= NetlistV::empty());
        r
    }

    /// Whether a pin of this name is declared.
    pub fn port_declared(&self, name: &String) -> (r: bool)
        ensures
            r == self@.has_port(name@),
    {
        let mut i: usize = 0;
        while i < self.ports.len()
            invariant
                i <= self.ports@.len(),
                forall|j: int| 0 <= j < i ==> self.ports@[j].name@ != name@,
            decreases self.ports@.len() - i,
        {
            if self.ports[i].name == *name {
                proof {
                    assert(port_names(self.ports@)[i as int] == name@);
                }
                return true;
            }
            i = i + 1;
        }
        proof {
            if port_names(self.ports@).contains(name@) {
                let j = choose|j: int|
                    0 <= j < port_names(self.ports@).len() && port_names(self.ports@)[j] == name@;
                assert(self.ports@[j].name@ == name@);
            }
        }
        false
    }

    /// Declare a pin (a no-op when it exists) and return it.
    pub fn create_port(&mut self, name: String) -> (r: NetlistPort)
        ensures
            r.name@ == name@,
            final(self)@ == old(self)@.with_port(name@),
    {
        let declared = self.port_declared(&name);
        let r = NetlistPort { name: name.clone() };
        if !declared {
            let ghost before = self.ports@;
            self.ports.push(NetlistPort { name: name });
            proof {
                assert(port_names(self.ports@) =~= port_names(before).push(name@));
            }
        }
        proof {
            assert(self@ =~= old(self)@.with_port(name@));
        }
        r
    }

    /// Place an instance; `na`, `nb` both zero for a single instance, both
    /// positive for an array.
    pub fn create_inst_with_info(
        &mut self,
        name: String,
        kcl: String,
        component: String,
        settings: JsonValue,
        na: i64,
        nb: i64,
        info: JsonMap,
    ) -> (r: Result<(), Error>)
        ensures
            match old(self)@.with_instance(
                name@,
                InstanceV {
                    kcl: kcl@,
                    component: component@,
                    settings: settings@,
                    array: None,
                    info: map_view(info@),
                },
                na,
                nb,
            ) {
                Ok(n) => r is Ok && final(self)@ == n,
                Err(e) => r is Err && r->Err_0.0@ == e && final(self)@ == old(self)@,
            },
    {
        proof {
            lemma_instances_key_index(self.instances@, name@);
        }
        if find_key(&self.instances, &name).is_some() {
            let msg = concat("duplicate instance: ", name.as_str());
            proof {
                reveal_strlit("duplicate instance: ");
            }
            return Err(Error(msg));
        }
        if !((na == 0 && nb == 0) || (na > 0 && nb > 0)) {
            let msg = "array dimensions must be positive".to_owned();
            proof {
                reveal_strlit("array dimensions must be positive");
            }
            return Err(Error(msg));
        }
        let array = if na > 0 {
            Some(InstanceArray { na, nb })
        } else {
            None
        };
        let ghost before = self.instances@;
        self.instances.push((name, NetlistInstance { kcl, component, settings, array, info }));
        proof {
            assert(instances_view(self.instances@) =~= instances_view(before).push(
                instances_view(self.instances@).last(),
            ));
            assert(self@.nets =~= old(self)@.nets);
            assert(self@.ports =~= old(self)@.ports);
        }
        Ok(())
    }

    /// Why `m` cannot be connected here, if it cannot.
    pub fn check_member(&self, m: &NetMember) -> (r: Option<String>)
        ensures
            match self@.member_error(m@) {
                Some(e) => r is Some && r->0@ == e,
                None => r is None,
            },
    {
        match m {
            NetMember::Port(p) => {
                if self.port_declared(&p.name) {
                    None
                } else {
                    proof {
                        reveal_strlit("unknown port: ");
                    }
                    Some(concat("unknown port: ", p.name.as_str()))
                }
            },
            NetMember::Ref(p) => {
                proof {
                    lemma_instances_key_index(self.instances@, p.instance@);
                }
                if find_key(&self.instances, &p.instance).is_some() {
                    None
                } else {
                    proof {
                        reveal_strlit("unknown instance: ");
                    }
                    Some(concat("unknown instance: ", p.instance.as_str()))
                }
            },
            NetMember::ArrayRef(p) => {
                proof {
                    lemma_instances_key_index(self.instances@, p.instance@);
                }
                match find_key(&self.instances, &p.instance) {
                    None => {
                        proof {
                            reveal_strlit("unknown instance: ");
                        }
                        Some(concat("unknown instance: ", p.instance.as_str()))
                    },
                    Some(k) => match &self.instances[k].1.array {
                        None => {
                            proof {
                                reveal_strlit("instance is not an array: ");
                            }
                            Some(concat("instance is not an array: ", p.instance.as_str()))
                        },
                        Some(a) => {
                            if 1 <= p.ia && p.ia <= a.na && 1 <= p.ib && p.ib <= a.nb {
                                None
                            } else {
                                proof {
                                    reveal_strlit("array index out of range: ");
                                }
                                Some(concat("array index out of range: ", p.instance.as_str()))
                            }
                        },
                    },
                }
            },
        }
    }

    /// Connect `members` as one net, refusing the first member that names an
    /// undeclared pin, an unknown instance, or an element outside an array.
    pub fn create_net(&mut self, members: Vec<NetMember>) -> (r: Result<(), Error>)
        ensures
            match old(self)@.with_net(members_view(members@)) {
                Ok(n) => r is Ok && final(self)@ == n,
                Err(e) => r is Err && r->Err_0.0@ == e && final(self)@ == old(self)@,
            },
    {
        let ghost mv = members_view(members@);
        proof {
            assert(mv.skip(0) =~= mv);
        }
        let mut i: usize = 0;
        while i < members.len()
            invariant
                i <= members@.len(),
                mv == members_view(members@),
                old(self)@.first_member_error(mv) == self@.first_member_error(mv.skip(i as int)),
                *self == *old(self),
            decreases members@.len() - i,
        {
            proof {
                assert(mv.skip(i as int).drop_first() =~= mv.skip(i + 1));
                assert(mv.skip(i as int)[0] == members@[i as int]@);
            }
            match self.check_member(&members[i]) {
                Some(msg) => {
                    return Err(Error(msg));
                },
                None => {},
            }
            i = i + 1;
        }
        proof {
            assert(mv.skip(i as int).len() == 0);
        }
        let ghost before = self.nets@;
        self.nets.push(Net { members });
        proof {
            assert(nets_view(self.nets@) =~= nets_view(before).push(mv));
            assert(self@ =~= NetlistV { nets: old(self)@.nets.push(mv), ..old(self)@ });
        }
        Ok(())
    }
}

} // verus!
