//! Optical adjacency: the ports of a cell and of its instances (array elements
//! included) are bucketed by grid position and layer, neighbouring ports are
//! proposed as pairs in a fixed order, the pairs whose comparison passes become
//! two-member nets, and every port left unconnected becomes a net of its own.
use vstd::prelude::*;
use crate::extract::{contains_string, strings_of};
use crate::netlist::{MemberV, NetMember, NetlistPort, PortArrayRef, PortRef};
use crate::text::concat;
use crate::ports::{LAYER, OPPOSITE, PORT_TYPE, POSITION, SAME, WIDTH};
use crate::extract::ExtractError;

verus! {

/// What adjacency reads of a port: its name and type, its grid position and
/// its layer.
#[derive(Clone, Debug, PartialEq, Eq)]
pub struct OpticalPort {
    pub name: String,
    pub port_type: String,
    pub x: i32,
    pub y: i32,
    pub layer: i32,
    pub datatype: i32,
}

pub struct OpticalPortV {
    pub name: Seq<char>,
    pub port_type: Seq<char>,
    pub x: i32,
    pub y: i32,
    pub layer: i32,
    pub datatype: i32,
}

impl View for OpticalPort {
    type V = OpticalPortV;

    open spec fn view(&self) -> OpticalPortV {
        OpticalPortV {
            name: self.name@,
            port_type: self.port_type@,
            x: self.x,
            y: self.y,
            layer: self.layer,
            datatype: self.datatype,
        }
    }
}

/// An instance with its ports; an array of more than one element also gives
/// its ports placed by each element transform, `placed[ib * na + ia]` for
/// element (`ia`, `ib`).
pub struct OpticalInstance {
    pub name: String,
    pub na: i64,
    pub nb: i64,
    pub ports: Vec<OpticalPort>,
    pub placed: Option<Vec<Vec<OpticalPort>>>,
}

/// Where an adjacency item comes from: a cell port, or a port of an instance
/// (of an array element's placed ports, when the instance is arrayed).
#[derive(Clone, Copy, Debug, PartialEq, Eq)]
pub enum ItemOrigin {
    Cell { port: usize },
    Instance { instance: usize, element: Option<usize>, port: usize },
}

/// A port taking part in adjacency, with the net member it stands for and,
/// for instance ports, its identity (instance, port, element).
#[derive(Debug)]
pub struct OpticalItem {
    pub port: OpticalPort,
    pub reference: NetMember,
    pub identity: Option<(String, String, i64, i64)>,
    pub origin: ItemOrigin,
}

pub struct ItemV {
    pub port: OpticalPortV,
    pub reference: MemberV,
    pub identity: Option<(Seq<char>, Seq<char>, i64, i64)>,
    pub origin: ItemOrigin,
}

impl View for OpticalItem {
    type V = ItemV;

    open spec fn view(&self) -> ItemV {
        ItemV {
            port: self.port@,
            reference: self.reference@,
            identity: match self.identity {
                Some((i, p, a, b)) => Some((i@, p@, a, b)),
                None => None,
            },
            origin: self.origin,
        }
    }
}

pub open spec fn items_view(v: Seq<OpticalItem>) -> Seq<ItemV> {
    Seq::new(v.len(), |i: int| v[i]@)
}

pub open spec fn ports_view(v: Seq<OpticalPort>) -> Seq<OpticalPortV> {
    Seq::new(v.len(), |i: int| v[i]@)
}

pub open spec fn duplicate_msg(n: Seq<char>) -> Seq<char> {
    "Netlist extraction is not possible with colliding port names. Duplicate name: "@ + n
}

pub open spec fn missing_array_msg() -> Seq<char> {
    "missing native instance array"@
}

/// The items of the cell's own ports of a retained type, in order, or the
/// refusal of the first name met twice (empty names are never recorded).
pub open spec fn cell_items_spec(ports: Seq<OpticalPortV>, types: Seq<Seq<char>>, n: int) -> Result<
    (Seq<ItemV>, Seq<Seq<char>>),
    Seq<char>,
>
    decreases n,
{
    if n <= 0 {
        Ok((Seq::empty(), Seq::empty()))
    } else {
        match cell_items_spec(ports, types, n - 1) {
            Err(e) => Err(e),
            Ok((items, seen)) => {
                let p = ports[n - 1];
                if !types.contains(p.port_type) {
                    Ok((items, seen))
                } else if seen.contains(p.name) {
                    Err(duplicate_msg(p.name))
                } else {
                    Ok(
                        (
                            items.push(
                                ItemV {
                                    port: p,
                                    reference: MemberV::Port(p.name),
                                    identity: None,
                                    origin: ItemOrigin::Cell { port: (n - 1) as usize },
                                },
                            ),
                            if p.name.len() > 0 { seen.push(p.name) } else { seen },
                        ),
                    )
                }
            },
        }
    }
}

pub fn copy_port(p: &OpticalPort) -> (r: OpticalPort)
    ensures
        r@ == p@,
{
    OpticalPort {
        name: p.name.clone(),
        port_type: p.port_type.clone(),
        x: p.x,
        y: p.y,
        layer: p.layer,
        datatype: p.datatype,
    }
}

/// The items of the cell's own ports.
pub fn cell_items(ports: &Vec<OpticalPort>, port_types: &Vec<String>) -> (r: Result<Vec<OpticalItem>, ExtractError>)
    ensures
        match cell_items_spec(ports_view(ports@), strings_of(port_types@), ports@.len() as int) {
            Ok((items, _)) => r is Ok && items_view(r->Ok_0@) == items,
            Err(e) => r is Err && r->Err_0 is Invalid && r->Err_0->Invalid_0@ == e,
        },
{
    let ghost pv = ports_view(ports@);
    let ghost types = strings_of(port_types@);
    let mut items: Vec<OpticalItem> = Vec::new();
    let mut seen: Vec<String> = Vec::new();
    let mut i: usize = 0;
    proof {
        assert(items_view(items@) =~= Seq::<ItemV>::empty());
        assert(strings_of(seen@) =~= Seq::<Seq<char>>::empty());
    }
    while i < ports.len()
        invariant
            i <= ports@.len(),
            pv == ports_view(ports@),
            types == strings_of(port_types@),
            cell_items_spec(pv, types, i as int) == Ok::<(Seq<ItemV>, Seq<Seq<char>>), Seq<char>>(
                (items_view(items@), strings_of(seen@)),
            ),
        decreases ports@.len() - i,
    {
        let p = &ports[i];
        proof {
            assert(pv[i as int] == p@);
        }
        if contains_string(port_types, &p.port_type) {
            if contains_string(&seen, &p.name) {
                let msg = concat(
                    "Netlist extraction is not possible with colliding port names. Duplicate name: ",
                    p.name.as_str(),
                );
                proof {
                    reveal_strlit(
                        "Netlist extraction is not possible with colliding port names. Duplicate name: ",
                    );
                    assert(cell_items_spec(pv, types, ports@.len() as int) == Err::<
                        (Seq<ItemV>, Seq<Seq<char>>),
                        Seq<char>,
                    >(duplicate_msg(p.name@))) by {
                        lemma_cell_items_err(pv, types, i as int + 1, ports@.len() as int);
                    }
                }
                return Err(ExtractError::Invalid(msg));
            }
            if !p.name.as_str().is_empty() {
                let ghost before = seen@;
                seen.push(p.name.clone());
                proof {
                    assert(strings_of(seen@) =~= strings_of(before).push(p.name@));
                }
            }
            let ghost before = items@;
            items.push(
                OpticalItem {
                    port: copy_port(p),
                    reference: NetMember::Port(NetlistPort { name: p.name.clone() }),
                    identity: None,
                    origin: ItemOrigin::Cell { port: i },
                },
            );
            proof {
                assert(items_view(items@) =~= items_view(before).push(items_view(items@).last()));
            }
        }
        i = i + 1;
    }
    Ok(items)
}

proof fn lemma_cell_items_err(ports: Seq<OpticalPortV>, types: Seq<Seq<char>>, k: int, n: int)
    requires
        0 < k <= n,
        cell_items_spec(ports, types, k) is Err,
    ensures
        cell_items_spec(ports, types, n) == cell_items_spec(ports, types, k),
    decreases n - k,
{
    if n > k {
        lemma_cell_items_err(ports, types, k, n - 1);
    }
}

pub struct OpticalInstanceV {
    pub name: Seq<char>,
    pub na: i64,
    pub nb: i64,
    pub ports: Seq<OpticalPortV>,
    pub placed: Option<Seq<Seq<OpticalPortV>>>,
}

impl View for OpticalInstance {
    type V = OpticalInstanceV;

    open spec fn view(&self) -> OpticalInstanceV {
        OpticalInstanceV {
            name: self.name@,
            na: self.na,
            nb: self.nb,
            ports: ports_view(self.ports@),
            placed: match self.placed {
                Some(pl) => Some(Seq::new(pl@.len(), |i: int| ports_view(pl@[i]@))),
                None => None,
            },
        }
    }
}

pub open spec fn instances_view(v: Seq<OpticalInstance>) -> Seq<OpticalInstanceV> {
    Seq::new(v.len(), |i: int| v[i]@)
}

/// The member an instance port stands for: an array element's port for an
/// array instance, a plain instance port otherwise.
pub open spec fn instance_member(inst: OpticalInstanceV, port: Seq<char>, ia: i64, ib: i64) -> MemberV {
    if inst.na > 0 && inst.nb > 0 {
        MemberV::ArrayRef(inst.name, port, ia, ib)
    } else {
        MemberV::Ref(inst.name, port)
    }
}

/// The items of the first `n` ports of one element, those of a retained type.
pub open spec fn element_items(
    inst: OpticalInstanceV,
    k: int,
    element: Option<usize>,
    ports: Seq<OpticalPortV>,
    ia: i64,
    ib: i64,
    types: Seq<Seq<char>>,
    n: int,
) -> Seq<ItemV>
    decreases n,
{
    if n <= 0 {
        Seq::empty()
    } else {
        let acc = element_items(inst, k, element, ports, ia, ib, types, n - 1);
        let p = ports[n - 1];
        if types.contains(p.port_type) {
            acc.push(
                ItemV {
                    port: p,
                    reference: instance_member(inst, p.name, ia, ib),
                    identity: Some((inst.name, p.name, ia, ib)),
                    origin: ItemOrigin::Instance { instance: k as usize, element: element, port: (n - 1) as usize },
                },
            )
        } else {
            acc
        }
    }
}

pub open spec fn element_index(inst: OpticalInstanceV, ia: int, ib: int) -> int {
    ib * inst.na + ia
}

/// The items of elements (`ia`, 0) .. (`ia`, `m` - 1).
pub open spec fn row_items(
    inst: OpticalInstanceV,
    k: int,
    pl: Seq<Seq<OpticalPortV>>,
    types: Seq<Seq<char>>,
    ia: int,
    m: int,
) -> Seq<ItemV>
    decreases m,
{
    if m <= 0 {
        Seq::empty()
    } else {
        let e = element_index(inst, ia, m - 1);
        row_items(inst, k, pl, types, ia, m - 1) + element_items(
            inst,
            k,
            Some(e as usize),
            pl[e],
            ia as i64,
            (m - 1) as i64,
            types,
            pl[e].len() as int,
        )
    }
}

/// The items of the elements of rows 0 .. `r` - 1, row by row.
pub open spec fn grid_items(
    inst: OpticalInstanceV,
    k: int,
    pl: Seq<Seq<OpticalPortV>>,
    types: Seq<Seq<char>>,
    r: int,
) -> Seq<ItemV>
    decreases r,
{
    if r <= 0 {
        Seq::empty()
    } else {
        grid_items(inst, k, pl, types, r - 1) + row_items(inst, k, pl, types, r - 1, inst.nb as int)
    }
}

/// The items of an instance: each element's placed ports for an array of
/// more than one element, its own ports otherwise.
pub open spec fn instance_items_spec(inst: OpticalInstanceV, k: int, types: Seq<Seq<char>>) -> Result<
    Seq<ItemV>,
    Seq<char>,
> {
    if inst.na > 1 || inst.nb > 1 {
        match inst.placed {
            None => Err(missing_array_msg()),
            Some(pl) => Ok(grid_items(inst, k, pl, types, inst.na as int)),
        }
    } else {
        Ok(element_items(inst, k, None, inst.ports, 0, 0, types, inst.ports.len() as int))
    }
}

proof fn lemma_element_items_ports(
    inst: OpticalInstanceV,
    k: usize,
    element: Option<usize>,
    ports: Seq<OpticalPortV>,
    ia: i64,
    ib: i64,
    types: Seq<Seq<char>>,
    n: int,
)
    requires
        0 <= n <= ports.len(),
        ports.len() <= usize::MAX,
    ensures
        forall|q: int| 0 <= q < element_items(inst, k as int, element, ports, ia, ib, types, n).len() ==> {
            let it = #[trigger] element_items(inst, k as int, element, ports, ia, ib, types, n)[q];
            &&& it.identity == Some((inst.name, it.port.name, ia, ib))
            &&& it.reference == instance_member(inst, it.port.name, ia, ib)
            &&& types.contains(it.port.port_type)
            &&& it.origin matches ItemOrigin::Instance { instance, port, .. } && instance == k && port < n
                && it.port == ports[port as int]
        },
        forall|j: int| 0 <= j < n && types.contains(#[trigger] ports[j].port_type) ==> exists|q: int|
            0 <= q < element_items(inst, k as int, element, ports, ia, ib, types, n).len() && (#[trigger] element_items(
                inst,
                k as int,
                element,
                ports,
                ia,
                ib,
                types,
                n,
            )[q]).port == ports[j] && element_items(inst, k as int, element, ports, ia, ib, types, n)[q].identity == Some(
                (inst.name, ports[j].name, ia, ib),
            ),
    decreases n,
{
    if n > 0 {
        lemma_element_items_ports(inst, k, element, ports, ia, ib, types, n - 1);
        let acc = element_items(inst, k as int, element, ports, ia, ib, types, n - 1);
        let cur = element_items(inst, k as int, element, ports, ia, ib, types, n);
        let p = ports[n - 1];
        if types.contains(p.port_type) {
            let it = ItemV {
                port: p,
                reference: instance_member(inst, p.name, ia, ib),
                identity: Some((inst.name, p.name, ia, ib)),
                origin: ItemOrigin::Instance { instance: k, element: element, port: (n - 1) as usize },
            };
            assert(cur == acc.push(it));
            assert forall|q: int| 0 <= q < cur.len() implies {
                let it = #[trigger] cur[q];
                &&& it.identity == Some((inst.name, it.port.name, ia, ib))
                &&& it.reference == instance_member(inst, it.port.name, ia, ib)
                &&& types.contains(it.port.port_type)
                &&& it.origin matches ItemOrigin::Instance { instance, port, .. } && instance == k && port < n
                    && it.port == ports[port as int]
            } by {
                if q < acc.len() {
                    assert(cur[q] == acc[q]);
                } else {
                    assert(cur[q] == it);
                }
            }
            assert forall|j: int| 0 <= j < n && types.contains(#[trigger] ports[j].port_type) implies exists|q: int|
                0 <= q < cur.len() && (#[trigger] cur[q]).port == ports[j] && cur[q].identity == Some(
                    (inst.name, ports[j].name, ia, ib),
                ) by {
                if j < n - 1 {
                    let q = choose|q: int|
                        0 <= q < acc.len() && (#[trigger] acc[q]).port == ports[j] && acc[q].identity == Some(
                            (inst.name, ports[j].name, ia, ib),
                        );
                    assert(cur[q] == acc[q]);
                } else {
                    assert(cur[acc.len() as int] == it);
                }
            }
        } else {
            assert(cur == acc);
        }
    }
}

/// Item `it` is port `port` of the placed ports of element (`ia`, `ib`) of
/// an arrayed instance, taken from `placed[ib * na + ia]`.
pub open spec fn placed_item(inst: OpticalInstanceV, k: usize, pl: Seq<Seq<OpticalPortV>>, types: Seq<Seq<char>>, it: ItemV) -> bool {
    &&& it.identity is Some
    &&& (it.identity->0).0 == inst.name
    &&& (it.identity->0).1 == it.port.name
    &&& 0 <= (it.identity->0).2 < inst.na
    &&& 0 <= (it.identity->0).3 < inst.nb
    &&& it.reference == MemberV::ArrayRef(inst.name, it.port.name, (it.identity->0).2, (it.identity->0).3)
    &&& types.contains(it.port.port_type)
    &&& it.origin matches ItemOrigin::Instance { instance, port, .. } && instance == k
        && port < pl[(it.identity->0).3 * inst.na + (it.identity->0).2].len()
        && it.port == pl[(it.identity->0).3 * inst.na + (it.identity->0).2][port as int]
}

proof fn lemma_row_items_ports(inst: OpticalInstanceV, k: usize, pl: Seq<Seq<OpticalPortV>>, types: Seq<Seq<char>>, ia: int, m: int)
    requires
        inst.na > 0,
        inst.nb > 0,
        0 <= ia < inst.na,
        0 <= m <= inst.nb,
        inst.na * inst.nb <= pl.len(),
        forall|e: int| 0 <= e < pl.len() ==> (#[trigger] pl[e]).len() <= usize::MAX,
    ensures
        forall|q: int| 0 <= q < row_items(inst, k as int, pl, types, ia, m).len() ==> {
            let it = #[trigger] row_items(inst, k as int, pl, types, ia, m)[q];
            placed_item(inst, k, pl, types, it) && (it.identity->0).2 == ia && (it.identity->0).3 < m
        },
        forall|b: int, j: int|
            0 <= b < m && 0 <= j < pl[b * inst.na + ia].len() && types.contains(
                (#[trigger] pl[b * inst.na + ia][j]).port_type,
            ) ==> exists|q: int|
                0 <= q < row_items(inst, k as int, pl, types, ia, m).len() && (#[trigger] row_items(
                    inst,
                    k as int,
                    pl,
                    types,
                    ia,
                    m,
                )[q]).port == pl[b * inst.na + ia][j] && row_items(inst, k as int, pl, types, ia, m)[q].identity == Some(
                    (inst.name, pl[b * inst.na + ia][j].name, ia as i64, b as i64),
                ),
    decreases m,
{
    if m > 0 {
        lemma_row_items_ports(inst, k, pl, types, ia, m - 1);
        let e = (m - 1) * inst.na + ia;
        assert(0 <= e < inst.na * inst.nb) by (nonlinear_arith)
            requires
                e == (m - 1) * inst.na + ia,
                0 <= ia < inst.na,
                1 <= m <= inst.nb,
        {
            assert((m - 1) * inst.na <= (inst.nb - 1) * inst.na);
        }
        let ports = pl[e];
        lemma_element_items_ports(inst, k, Some(e as usize), ports, ia as i64, (m - 1) as i64, types, ports.len() as int);
        let a = row_items(inst, k as int, pl, types, ia, m - 1);
        let b = element_items(inst, k as int, Some(e as usize), ports, ia as i64, (m - 1) as i64, types, ports.len() as int);
        let cur = row_items(inst, k as int, pl, types, ia, m);
        assert(cur == a + b);
        assert forall|q: int| 0 <= q < cur.len() implies {
            let it = #[trigger] cur[q];
            placed_item(inst, k, pl, types, it) && (it.identity->0).2 == ia && (it.identity->0).3 < m
        } by {
            if q < a.len() {
                assert(cur[q] == a[q]);
            } else {
                assert(cur[q] == b[q - a.len()]);
                let it = b[q - a.len()];
                assert((it.identity->0).3 as int == m - 1);
                assert((it.identity->0).2 as int == ia);
            }
        }
        assert forall|c: int, j: int|
            0 <= c < m && 0 <= j < pl[c * inst.na + ia].len() && types.contains(
                (#[trigger] pl[c * inst.na + ia][j]).port_type,
            ) implies exists|q: int|
                0 <= q < cur.len() && (#[trigger] cur[q]).port == pl[c * inst.na + ia][j] && cur[q].identity == Some(
                    (inst.name, pl[c * inst.na + ia][j].name, ia as i64, c as i64),
                ) by {
            if c < m - 1 {
                let q = choose|q: int|
                    0 <= q < a.len() && (#[trigger] a[q]).port == pl[c * inst.na + ia][j] && a[q].identity == Some(
                        (inst.name, pl[c * inst.na + ia][j].name, ia as i64, c as i64),
                    );
                assert(cur[q] == a[q]);
            } else {
                assert(ports[j] == pl[c * inst.na + ia][j]);
                assert(types.contains(ports[j].port_type));
                let q = choose|q: int|
                    0 <= q < b.len() && (#[trigger] b[q]).port == ports[j] && b[q].identity == Some(
                        (inst.name, ports[j].name, ia as i64, (m - 1) as i64),
                    );
                assert(cur[a.len() + q] == b[q]);
            }
        }
    }
}

proof fn lemma_grid_items_ports(inst: OpticalInstanceV, k: usize, pl: Seq<Seq<OpticalPortV>>, types: Seq<Seq<char>>, r: int)
    requires
        inst.na > 0,
        inst.nb > 0,
        0 <= r <= inst.na,
        inst.na * inst.nb <= pl.len(),
        forall|e: int| 0 <= e < pl.len() ==> (#[trigger] pl[e]).len() <= usize::MAX,
    ensures
        forall|q: int| 0 <= q < grid_items(inst, k as int, pl, types, r).len() ==> {
            let it = #[trigger] grid_items(inst, k as int, pl, types, r)[q];
            placed_item(inst, k, pl, types, it) && (it.identity->0).2 < r
        },
        forall|a: int, b: int, j: int|
            0 <= a < r && 0 <= b < inst.nb && 0 <= j < pl[b * inst.na + a].len() && types.contains(
                (#[trigger] pl[b * inst.na + a][j]).port_type,
            ) ==> exists|q: int|
                0 <= q < grid_items(inst, k as int, pl, types, r).len() && (#[trigger] grid_items(
                    inst,
                    k as int,
                    pl,
                    types,
                    r,
                )[q]).port == pl[b * inst.na + a][j] && grid_items(inst, k as int, pl, types, r)[q].identity == Some(
                    (inst.name, pl[b * inst.na + a][j].name, a as i64, b as i64),
                ),
    decreases r,
{
    if r > 0 {
        lemma_grid_items_ports(inst, k, pl, types, r - 1);
        lemma_row_items_ports(inst, k, pl, types, r - 1, inst.nb as int);
        let x = grid_items(inst, k as int, pl, types, r - 1);
        let y = row_items(inst, k as int, pl, types, r - 1, inst.nb as int);
        let cur = grid_items(inst, k as int, pl, types, r);
        assert(cur == x + y);
        assert forall|q: int| 0 <= q < cur.len() implies {
            let it = #[trigger] cur[q];
            placed_item(inst, k, pl, types, it) && (it.identity->0).2 < r
        } by {
            if q < x.len() {
                assert(cur[q] == x[q]);
            } else {
                assert(cur[q] == y[q - x.len()]);
            }
        }
        assert forall|a: int, b: int, j: int|
            0 <= a < r && 0 <= b < inst.nb && 0 <= j < pl[b * inst.na + a].len() && types.contains(
                (#[trigger] pl[b * inst.na + a][j]).port_type,
            ) implies exists|q: int|
                0 <= q < cur.len() && (#[trigger] cur[q]).port == pl[b * inst.na + a][j] && cur[q].identity == Some(
                    (inst.name, pl[b * inst.na + a][j].name, a as i64, b as i64),
                ) by {
            if a < r - 1 {
                let q = choose|q: int|
                    0 <= q < x.len() && (#[trigger] x[q]).port == pl[b * inst.na + a][j] && x[q].identity == Some(
                        (inst.name, pl[b * inst.na + a][j].name, a as i64, b as i64),
                    );
                assert(cur[q] == x[q]);
            } else {
                let q = choose|q: int|
                    0 <= q < y.len() && (#[trigger] y[q]).port == pl[b * inst.na + a][j] && y[q].identity == Some(
                        (inst.name, pl[b * inst.na + a][j].name, a as i64, b as i64),
                    );
                assert(cur[x.len() + q] == y[q]);
            }
        }
    }
}

/// The items of an arrayed instance are exactly the placed ports of its
/// elements: each item of element (`ia`, `ib`) is a port, of a retained type,
/// of `placed[ib * na + ia]` (the element's transform in the array's own
/// order), standing for `name<ia.ib>,port`; and every such port is an item of
/// that element.
pub proof fn lemma_array_items(inst: OpticalInstanceV, k: usize, types: Seq<Seq<char>>)
    requires
        inst.na > 1 || inst.nb > 1,
        inst.na > 0,
        inst.nb > 0,
        inst.placed is Some,
        placed_complete(inst),
        forall|e: int| 0 <= e < inst.placed->0.len() ==> (#[trigger] inst.placed->0[e]).len() <= usize::MAX,
    ensures
        instance_items_spec(inst, k as int, types) is Ok,
        forall|q: int| 0 <= q < instance_items_spec(inst, k as int, types)->Ok_0.len() ==> {
            let it = #[trigger] instance_items_spec(inst, k as int, types)->Ok_0[q];
            let pl = inst.placed->0;
            &&& it.identity is Some
            &&& (it.identity->0).0 == inst.name
            &&& (it.identity->0).1 == it.port.name
            &&& 0 <= (it.identity->0).2 < inst.na
            &&& 0 <= (it.identity->0).3 < inst.nb
            &&& it.reference == MemberV::ArrayRef(inst.name, it.port.name, (it.identity->0).2, (it.identity->0).3)
            &&& types.contains(it.port.port_type)
            &&& it.origin matches ItemOrigin::Instance { instance, port, .. } && instance == k
                && port < pl[(it.identity->0).3 * inst.na + (it.identity->0).2].len()
                && it.port == pl[(it.identity->0).3 * inst.na + (it.identity->0).2][port as int]
        },
        forall|ia: int, ib: int, j: int|
            0 <= ia < inst.na && 0 <= ib < inst.nb && 0 <= j < inst.placed->0[ib * inst.na + ia].len() && types.contains(
                (#[trigger] inst.placed->0[ib * inst.na + ia][j]).port_type,
            ) ==> exists|q: int|
                0 <= q < instance_items_spec(inst, k as int, types)->Ok_0.len() && (#[trigger] instance_items_spec(
                    inst,
                    k as int,
                    types,
                )->Ok_0[q]).port == inst.placed->0[ib * inst.na + ia][j] && instance_items_spec(inst, k as int, types)->Ok_0[q].identity
                    == Some((inst.name, inst.placed->0[ib * inst.na + ia][j].name, ia as i64, ib as i64)),
{
    let pl = inst.placed->0;
    lemma_grid_items_ports(inst, k, pl, types, inst.na as int);
    let items = instance_items_spec(inst, k as int, types)->Ok_0;
    assert(items == grid_items(inst, k as int, pl, types, inst.na as int));
    assert forall|q: int| 0 <= q < items.len() implies placed_item(inst, k, pl, types, #[trigger] items[q]) by {}
}

/// Every element transform has its placed ports.
pub open spec fn placed_complete(inst: OpticalInstanceV) -> bool {
    (inst.na > 1 || inst.nb > 1) && inst.na > 0 && inst.nb > 0 && inst.placed is Some ==> inst.na * inst.nb
        <= inst.placed->0.len()
}

fn push_element_items(
    out: &mut Vec<OpticalItem>,
    inst: &OpticalInstance,
    k: usize,
    element: Option<usize>,
    ports: &Vec<OpticalPort>,
    ia: i64,
    ib: i64,
    port_types: &Vec<String>,
)
    ensures
        items_view(final(out)@) == items_view(old(out)@) + element_items(
            inst@,
            k as int,
            element,
            ports_view(ports@),
            ia,
            ib,
            strings_of(port_types@),
            ports@.len() as int,
        ),
{
    let ghost pv = ports_view(ports@);
    let ghost types = strings_of(port_types@);
    let ghost start = items_view(out@);
    let mut i: usize = 0;
    proof {
        assert(start + Seq::<ItemV>::empty() =~= start);
    }
    while i < ports.len()
        invariant
            i <= ports@.len(),
            pv == ports_view(ports@),
            types == strings_of(port_types@),
            items_view(out@) == start + element_items(inst@, k as int, element, pv, ia, ib, types, i as int),
        decreases ports@.len() - i,
    {
        let p = &ports[i];
        proof {
            assert(pv[i as int] == p@);
        }
        if contains_string(port_types, &p.port_type) {
            let reference = if inst.na > 0 && inst.nb > 0 {
                NetMember::ArrayRef(
                    PortArrayRef { instance: inst.name.clone(), port: p.name.clone(), ia: ia, ib: ib },
                )
            } else {
                NetMember::Ref(PortRef { instance: inst.name.clone(), port: p.name.clone() })
            };
            let ghost before = out@;
            out.push(
                OpticalItem {
                    port: copy_port(p),
                    reference: reference,
                    identity: Some((inst.name.clone(), p.name.clone(), ia, ib)),
                    origin: ItemOrigin::Instance { instance: k, element: element, port: i },
                },
            );
            proof {
                assert(items_view(out@) =~= items_view(before).push(items_view(out@).last()));
            }
        }
        i = i + 1;
    }
}

/// Append the items of one instance, or refuse an array whose element
/// placements are missing.
pub fn instance_items(
    out: &mut Vec<OpticalItem>,
    inst: &OpticalInstance,
    k: usize,
    port_types: &Vec<String>,
) -> (r: Result<(), ExtractError>)
    requires
        placed_complete(inst@),
    ensures
        match instance_items_spec(inst@, k as int, strings_of(port_types@)) {
            Ok(items) => r is Ok && items_view(final(out)@) == items_view(old(out)@) + items,
            Err(e) => r is Err && r->Err_0 is Invalid && r->Err_0->Invalid_0@ == e,
        },
{
    let ghost types = strings_of(port_types@);
    if inst.na > 1 || inst.nb > 1 {
        match &inst.placed {
            None => {
                let msg = "missing native instance array".to_owned();
                proof {
                    reveal_strlit("missing native instance array");
                }
                return Err(ExtractError::Invalid(msg));
            },
            Some(placed) => {
                let ghost pl = Seq::new(placed@.len(), |i: int| ports_view(placed@[i]@));
                let ghost start = items_view(out@);
                let mut ia: i64 = 0;
                proof {
                    assert(start + Seq::<ItemV>::empty() =~= start);
                }
                while ia < inst.na
                    invariant
                        inst.na > 1 || inst.nb > 1,
                        placed_complete(inst@),
                        inst@.placed == Some(pl),
                        pl == Seq::new(placed@.len(), |i: int| ports_view(placed@[i]@)),
                        0 <= ia <= inst.na || inst.na <= 0,
                        ia >= 0,
                        inst.na <= 0 ==> ia == 0,
                        types == strings_of(port_types@),
                        items_view(out@) == start + grid_items(inst@, k as int, pl, types, ia as int),
                    decreases inst.na - ia,
                {
                    let ghost row_start = items_view(out@);
                    let mut ib: i64 = 0;
                    proof {
                        assert(row_start + Seq::<ItemV>::empty() =~= row_start);
                    }
                    while ib < inst.nb
                        invariant
                            0 <= ia < inst.na,
                            0 <= ib <= inst.nb || inst.nb <= 0,
                            ib >= 0,
                            inst.nb <= 0 ==> ib == 0,
                            inst.na > 1 || inst.nb > 1,
                            placed_complete(inst@),
                            inst@.placed == Some(pl),
                            pl == Seq::new(placed@.len(), |i: int| ports_view(placed@[i]@)),
                            types == strings_of(port_types@),
                            items_view(out@) == row_start + row_items(inst@, k as int, pl, types, ia as int, ib as int),
                        decreases inst.nb - ib,
                    {
                        assert(ib * inst.na + ia < inst.na * inst.nb && 0 <= ib * inst.na && inst.na <= inst.na
                            * inst.nb && inst.nb <= inst.na * inst.nb) by (nonlinear_arith)
                            requires
                                0 <= ia < inst.na,
                                0 <= ib < inst.nb,
                        ;
                        let plen = placed.len();
                        assert(inst.na * inst.nb <= plen);
                        assert(ib < plen && ia < plen && ib * inst.na < plen);
                        let e: usize = (ib as usize) * (inst.na as usize) + (ia as usize);
                        proof {
                            assert(e == element_index(inst@, ia as int, ib as int));
                            assert(pl[e as int] == ports_view(placed@[e as int]@));
                        }
                        let ghost mid = items_view(out@);
                        push_element_items(out, inst, k, Some(e), &placed[e], ia, ib, port_types);
                        proof {
                            let prev = row_items(inst@, k as int, pl, types, ia as int, ib as int);
                            let here = element_items(
                                inst@,
                                k as int,
                                Some(e),
                                pl[e as int],
                                ia,
                                ib,
                                types,
                                pl[e as int].len() as int,
                            );
                            assert(row_items(inst@, k as int, pl, types, ia as int, ib + 1) == prev + here);
                            assert((row_start + prev) + here =~= row_start + (prev + here));
                        }
                        ib = ib + 1;
                    }
                    proof {
                        let rows = row_items(inst@, k as int, pl, types, ia as int, inst.nb as int);
                        if inst.nb <= 0 {
                            assert(rows =~= Seq::<ItemV>::empty());
                            assert(row_items(inst@, k as int, pl, types, ia as int, ib as int) =~= rows);
                        } else {
                            assert(ib == inst.nb);
                        }
                        let g = grid_items(inst@, k as int, pl, types, ia as int);
                        assert(grid_items(inst@, k as int, pl, types, ia + 1) == g + rows);
                        assert((start + g) + rows =~= start + (g + rows));
                    }
                    ia = ia + 1;
                }
                proof {
                    if inst.na <= 0 {
                        assert(grid_items(inst@, k as int, pl, types, inst.na as int) =~= Seq::<ItemV>::empty());
                        assert(grid_items(inst@, k as int, pl, types, ia as int) =~= Seq::<ItemV>::empty());
                    } else {
                        assert(ia == inst.na);
                    }
                    assert(instance_items_spec(inst@, k as int, types) == Ok::<Seq<ItemV>, Seq<char>>(
                        grid_items(inst@, k as int, pl, types, inst.na as int),
                    ));
                }
            },
        }
    } else {
        push_element_items(out, inst, k, None, &inst.ports, 0, 0, port_types);
    }
    Ok(())
}

/// Item indices by grid position, then by layer, each in order of first use.
pub type Buckets = Vec<((i64, i64), Vec<((i32, i32), Vec<usize>)>)>;

pub type BucketsV = Seq<((i64, i64), Seq<((i32, i32), Seq<usize>)>)>;

pub open spec fn layers_view(v: Seq<((i32, i32), Vec<usize>)>) -> Seq<((i32, i32), Seq<usize>)> {
    Seq::new(v.len(), |i: int| (v[i].0, v[i].1@))
}

pub open spec fn buckets_view(b: Seq<((i64, i64), Vec<((i32, i32), Vec<usize>)>)>) -> BucketsV {
    Seq::new(b.len(), |i: int| (b[i].0, layers_view(b[i].1@)))
}

/// Position of key `k` among keyed entries.
pub open spec fn key_pos<K, V>(e: Seq<(K, V)>, k: K) -> Option<int>
    decreases e.len(),
{
    if e.len() == 0 {
        None
    } else {
        match key_pos(e.drop_last(), k) {
            Some(i) => Some(i),
            None => if e.last().0 == k {
                Some(e.len() - 1)
            } else {
                None
            },
        }
    }
}

pub proof fn lemma_key_pos<K, V>(e: Seq<(K, V)>, k: K)
    ensures
        match key_pos(e, k) {
            Some(i) => 0 <= i < e.len() && e[i].0 == k && forall|j: int| 0 <= j < i ==> e[j].0 != k,
            None => forall|j: int| 0 <= j < e.len() ==> e[j].0 != k,
        },
    decreases e.len(),
{
    if e.len() > 0 {
        lemma_key_pos(e.drop_last(), k);
        assert forall|j: int| 0 <= j < e.len() - 1 implies e[j] == e.drop_last()[j] by {}
    }
}

pub open spec fn layer_insert(ls: Seq<((i32, i32), Seq<usize>)>, l: (i32, i32), j: usize) -> Seq<
    ((i32, i32), Seq<usize>),
> {
    match key_pos(ls, l) {
        Some(i) => ls.update(i, (l, ls[i].1.push(j))),
        None => ls.push((l, seq![j])),
    }
}

pub open spec fn bucket_insert(b: BucketsV, p: (i64, i64), l: (i32, i32), j: usize) -> BucketsV {
    match key_pos(b, p) {
        Some(i) => b.update(i, (p, layer_insert(b[i].1, l, j))),
        None => b.push((p, seq![(l, seq![j])])),
    }
}

pub open spec fn item_point(it: ItemV) -> (i64, i64) {
    (it.port.x as i64, it.port.y as i64)
}

pub open spec fn item_layer(it: ItemV) -> (i32, i32) {
    (it.port.layer, it.port.datatype)
}

/// Items `lo` .. `hi` - 1 bucketed in order.
pub open spec fn bucketed(items: Seq<ItemV>, lo: int, hi: int) -> BucketsV
    decreases hi - lo,
{
    if hi <= lo {
        Seq::empty()
    } else {
        let j = hi - 1;
        bucket_insert(bucketed(items, lo, j), item_point(items[j]), item_layer(items[j]), j as usize)
    }
}

fn find_point(b: &Buckets, p: (i64, i64)) -> (r: Option<usize>)
    ensures
        match r {
            Some(i) => key_pos(buckets_view(b@), p) == Some(i as int),
            None => key_pos(buckets_view(b@), p) is None,
        },
{
    let ghost bv = buckets_view(b@);
    proof {
        lemma_key_pos(bv, p);
    }
    let mut i: usize = 0;
    while i < b.len()
        invariant
            i <= b@.len(),
            bv == buckets_view(b@),
            forall|j: int| 0 <= j < i ==> bv[j].0 != p,
        decreases b@.len() - i,
    {
        if b[i].0.0 == p.0 && b[i].0.1 == p.1 {
            proof {
                assert(bv[i as int].0 == p);
                lemma_key_pos_exact(bv, p, i as int);
            }
            return Some(i);
        }
        i = i + 1;
    }
    None
}

fn find_layer(ls: &Vec<((i32, i32), Vec<usize>)>, l: (i32, i32)) -> (r: Option<usize>)
    ensures
        match r {
            Some(i) => key_pos(layers_view(ls@), l) == Some(i as int),
            None => key_pos(layers_view(ls@), l) is None,
        },
{
    let ghost lv = layers_view(ls@);
    proof {
        lemma_key_pos(lv, l);
    }
    let mut i: usize = 0;
    while i < ls.len()
        invariant
            i <= ls@.len(),
            lv == layers_view(ls@),
            forall|j: int| 0 <= j < i ==> lv[j].0 != l,
        decreases ls@.len() - i,
    {
        if ls[i].0.0 == l.0 && ls[i].0.1 == l.1 {
            proof {
                assert(lv[i as int].0 == l);
                lemma_key_pos_exact(lv, l, i as int);
            }
            return Some(i);
        }
        i = i + 1;
    }
    None
}

proof fn lemma_key_pos_exact<K, V>(e: Seq<(K, V)>, k: K, i: int)
    requires
        0 <= i < e.len(),
        e[i].0 == k,
        forall|j: int| 0 <= j < i ==> e[j].0 != k,
    ensures
        key_pos(e, k) == Some(i),
{
    lemma_key_pos(e, k);
    match key_pos(e, k) {
        Some(m) => {
            if m < i {
                assert(e[m].0 == k);
            } else if m > i {
                assert(e[i].0 != k);
            }
        },
        None => {
            assert(e[i].0 != k);
        },
    }
}

fn insert_item(b: &mut Buckets, p: (i64, i64), l: (i32, i32), j: usize)
    ensures
        buckets_view(final(b)@) == bucket_insert(buckets_view(old(b)@), p, l, j),
{
    let ghost before = buckets_view(b@);
    match find_point(b, p) {
        Some(i) => {
            proof {
                lemma_key_pos(before, p);
            }
            let (_, mut layers) = b.remove(i);
            let ghost lv = layers_view(layers@);
            proof {
                assert(lv == before[i as int].1);
                lemma_key_pos(lv, l);
            }
            match find_layer(&layers, l) {
                Some(k) => {
                    let (_, mut list) = layers.remove(k);
                    list.push(j);
                    layers.insert(k, (l, list));
                    proof {
                        assert(layers_view(layers@) =~= lv.update(k as int, (l, lv[k as int].1.push(j))));
                    }
                },
                None => {
                    let mut list: Vec<usize> = Vec::new();
                    list.push(j);
                    layers.push((l, list));
                    proof {
                        assert(list@ =~= seq![j]);
                        assert(layers_view(layers@) =~= lv.push((l, seq![j])));
                    }
                },
            }
            b.insert(i, (p, layers));
            proof {
                assert(buckets_view(b@) =~= before.update(i as int, (p, layer_insert(before[i as int].1, l, j))));
            }
        },
        None => {
            let mut list: Vec<usize> = Vec::new();
            list.push(j);
            let mut layers: Vec<((i32, i32), Vec<usize>)> = Vec::new();
            layers.push((l, list));
            b.push((p, layers));
            proof {
                assert(list@ =~= seq![j]);
                assert(layers_view(layers@) =~= seq![(l, seq![j])]);
                assert(buckets_view(b@) =~= before.push((p, seq![(l, seq![j])])));
            }
        },
    }
}

/// Bucket items `lo` .. `hi` - 1.
pub fn bucket_items(items: &Vec<OpticalItem>, lo: usize, hi: usize) -> (r: Buckets)
    requires
        lo <= hi <= items@.len(),
    ensures
        buckets_view(r@) == bucketed(items_view(items@), lo as int, hi as int),
{
    let ghost iv = items_view(items@);
    let mut b: Buckets = Vec::new();
    let mut j: usize = lo;
    proof {
        assert(buckets_view(b@) =~= bucketed(iv, lo as int, lo as int));
    }
    while j < hi
        invariant
            lo <= j <= hi <= items@.len(),
            iv == items_view(items@),
            buckets_view(b@) == bucketed(iv, lo as int, j as int),
        decreases hi - j,
    {
        let it = &items[j];
        proof {
            assert(iv[j as int] == it@);
        }
        insert_item(&mut b, (it.port.x as i64, it.port.y as i64), (it.port.layer, it.port.datatype), j);
        j = j + 1;
    }
    b
}

/// A pair of items to compare, with whether their positions are snapped to
/// the grid and the orientation flag the pair needs: unsnapped pairs must
/// face each other, snapped ones (a cell port over an instance port) must
/// face the same way.
#[derive(Clone, Copy, Debug, PartialEq, Eq)]
pub struct Candidate {
    pub a: usize,
    pub b: usize,
    pub snapped: bool,
    pub orientation: u8,
}

/// The items bucketed at a point on a layer.
pub open spec fn at_spec(b: BucketsV, p: (i64, i64), l: (i32, i32)) -> Seq<usize> {
    match key_pos(b, p) {
        Some(i) => match key_pos(b[i].1, l) {
            Some(k) => b[i].1[k].1,
            None => Seq::empty(),
        },
        None => Seq::empty(),
    }
}

pub open spec fn pairs_with(a: usize, others: Seq<usize>, snapped: bool, orientation: u8) -> Seq<Candidate> {
    Seq::new(others.len(), |k: int| Candidate { a: a, b: others[k], snapped: snapped, orientation: orientation })
}

/// The instance items at the point and its eight neighbours, column by column.
pub open spec fn near_spec(c: BucketsV, x: i64, y: i64, l: (i32, i32)) -> Seq<usize> {
    at_spec(c, ((x - 1) as i64, (y - 1) as i64), l) + at_spec(c, ((x - 1) as i64, y), l) + at_spec(
        c,
        ((x - 1) as i64, (y + 1) as i64),
        l,
    ) + at_spec(c, (x, (y - 1) as i64), l) + at_spec(c, (x, y), l) + at_spec(c, (x, (y + 1) as i64), l)
        + at_spec(c, ((x + 1) as i64, (y - 1) as i64), l) + at_spec(c, ((x + 1) as i64, y), l) + at_spec(
        c,
        ((x + 1) as i64, (y + 1) as i64),
        l,
    )
}

/// For the first `n` ports of a bucket: each against the later ports and the
/// neighbouring ones (facing), then against the nearby instance ports
/// (snapped, same way).
pub open spec fn port_pairs(ports: Seq<usize>, extra: Seq<usize>, near: Seq<usize>, n: int) -> Seq<Candidate>
    decreases n,
{
    if n <= 0 {
        Seq::empty()
    } else {
        port_pairs(ports, extra, near, n - 1) + pairs_with(ports[n - 1], ports.skip(n) + extra, false, OPPOSITE)
            + pairs_with(ports[n - 1], near, true, SAME)
    }
}

pub open spec fn layer_pairs(
    own: BucketsV,
    children: Option<BucketsV>,
    p: (i64, i64),
    ls: Seq<((i32, i32), Seq<usize>)>,
    n: int,
) -> Seq<Candidate>
    decreases n,
{
    if n <= 0 {
        Seq::empty()
    } else {
        let (l, ports) = ls[n - 1];
        let extra = at_spec(own, ((p.0 + 1) as i64, p.1), l) + at_spec(own, (p.0, (p.1 + 1) as i64), l);
        let near = match children {
            Some(c) => near_spec(c, p.0, p.1, l),
            None => Seq::empty(),
        };
        layer_pairs(own, children, p, ls, n - 1) + port_pairs(ports, extra, near, ports.len() as int)
    }
}

pub open spec fn stage_pairs(own: BucketsV, children: Option<BucketsV>, n: int) -> Seq<Candidate>
    decreases n,
{
    if n <= 0 {
        Seq::empty()
    } else {
        stage_pairs(own, children, n - 1) + layer_pairs(own, children, own[n - 1].0, own[n - 1].1, own[n - 1].1.len() as int)
    }
}

/// All pairs: the cell's buckets (with nearby instance ports), then the
/// instances' buckets.
pub open spec fn candidates_spec(cell: BucketsV, children: BucketsV) -> Seq<Candidate> {
    stage_pairs(cell, Some(children), cell.len() as int) + stage_pairs(children, None, children.len() as int)
}

/// Bucket points hold coordinates of grid ports.
pub open spec fn small_points(b: BucketsV) -> bool {
    forall|i: int|
        0 <= i < b.len() ==> i32::MIN <= (#[trigger] b[i]).0.0 <= i32::MAX && i32::MIN <= b[i].0.1
            <= i32::MAX
}

pub proof fn lemma_bucketed_small(items: Seq<ItemV>, lo: int, hi: int)
    ensures
        small_points(bucketed(items, lo, hi)),
    decreases hi - lo,
{
    if hi > lo {
        lemma_bucketed_small(items, lo, hi - 1);
        let b = bucketed(items, lo, hi - 1);
        let p = item_point(items[hi - 1]);
        lemma_key_pos(b, p);
        let r = bucketed(items, lo, hi);
        assert forall|i: int| 0 <= i < r.len() implies i32::MIN <= (#[trigger] r[i]).0.0 <= i32::MAX
            && i32::MIN <= r[i].0.1 <= i32::MAX by {
            if i < b.len() {
                assert(r[i].0 == b[i].0);
            }
        }
    }
}

fn copy_at(b: &Buckets, p: (i64, i64), l: (i32, i32), out: &mut Vec<usize>)
    ensures
        final(out)@ == old(out)@ + at_spec(buckets_view(b@), p, l),
{
    match find_point(b, p) {
        Some(i) => {
            proof {
                lemma_key_pos(buckets_view(b@), p);
            }
            match find_layer(&b[i].1, l) {
                Some(k) => {
                    proof {
                        lemma_key_pos(layers_view(b@[i as int].1@), l);
                    }
                    let src = &b[i].1[k].1;
                    append_from(out, src, 0);
                    proof {
                        assert(src@.skip(0) =~= src@);
                    }
                },
                None => {
                    assert(old(out)@ + Seq::<usize>::empty() =~= old(out)@);
                },
            }
        },
        None => {
            assert(old(out)@ + Seq::<usize>::empty() =~= old(out)@);
        },
    }
}

fn append_from(out: &mut Vec<usize>, src: &Vec<usize>, from: usize)
    requires
        from <= src@.len(),
    ensures
        final(out)@ == old(out)@ + src@.skip(from as int),
{
    let mut i: usize = from;
    while i < src.len()
        invariant
            from <= i <= src@.len(),
            out@ == old(out)@ + src@.subrange(from as int, i as int),
        decreases src@.len() - i,
    {
        out.push(src[i]);
        proof {
            assert(src@.subrange(from as int, i + 1) =~= src@.subrange(from as int, i as int).push(src@[i as int]));
        }
        i = i + 1;
    }
    assert(src@.subrange(from as int, i as int) =~= src@.skip(from as int));
}

fn push_pairs(out: &mut Vec<Candidate>, a: usize, others: &Vec<usize>, snapped: bool, orientation: u8)
    ensures
        final(out)@ == old(out)@ + pairs_with(a, others@, snapped, orientation),
{
    let mut i: usize = 0;
    while i < others.len()
        invariant
            i <= others@.len(),
            out@ == old(out)@ + pairs_with(a, others@.take(i as int), snapped, orientation),
        decreases others@.len() - i,
    {
        out.push(Candidate { a: a, b: others[i], snapped: snapped, orientation: orientation });
        proof {
            assert(pairs_with(a, others@.take(i + 1), snapped, orientation) =~= pairs_with(
                a,
                others@.take(i as int),
                snapped,
                orientation,
            ).push(Candidate { a: a, b: others@[i as int], snapped: snapped, orientation: orientation }));
        }
        i = i + 1;
    }
    assert(others@.take(i as int) =~= others@);
}

fn near_items(c: &Buckets, x: i64, y: i64, l: (i32, i32)) -> (r: Vec<usize>)
    requires
        i32::MIN <= x <= i32::MAX,
        i32::MIN <= y <= i32::MAX,
    ensures
        r@ == near_spec(buckets_view(c@), x, y, l),
{
    let mut out: Vec<usize> = Vec::new();
    copy_at(c, (x - 1, y - 1), l, &mut out);
    copy_at(c, (x - 1, y), l, &mut out);
    copy_at(c, (x - 1, y + 1), l, &mut out);
    copy_at(c, (x, y - 1), l, &mut out);
    copy_at(c, (x, y), l, &mut out);
    copy_at(c, (x, y + 1), l, &mut out);
    copy_at(c, (x + 1, y - 1), l, &mut out);
    copy_at(c, (x + 1, y), l, &mut out);
    copy_at(c, (x + 1, y + 1), l, &mut out);
    proof {
        assert(out@ =~= near_spec(buckets_view(c@), x, y, l));
    }
    out
}

fn stage(out: &mut Vec<Candidate>, own: &Buckets, children: Option<&Buckets>)
    requires
        small_points(buckets_view(own@)),
    ensures
        final(out)@ == old(out)@ + stage_pairs(
            buckets_view(own@),
            match children {
                Some(c) => Some(buckets_view(c@)),
                None => None,
            },
            own@.len() as int,
        ),
{
    let ghost ov = buckets_view(own@);
    let ghost cv = match children {
        Some(c) => Some(buckets_view(c@)),
        None => None::<BucketsV>,
    };
    let ghost start = out@;
    let mut i: usize = 0;
    proof {
        assert(start + Seq::<Candidate>::empty() =~= start);
    }
    while i < own.len()
        invariant
            i <= own@.len(),
            ov == buckets_view(own@),
            small_points(ov),
            cv == match children {
                Some(c) => Some(buckets_view(c@)),
                None => None::<BucketsV>,
            },
            out@ == start + stage_pairs(ov, cv, i as int),
        decreases own@.len() - i,
    {
        let p = own[i].0;
        let layers = &own[i].1;
        let ghost lv = layers_view(layers@);
        proof {
            assert(ov[i as int] == (p, lv));
        }
        let ghost mid = out@;
        let mut k: usize = 0;
        proof {
            assert(mid + Seq::<Candidate>::empty() =~= mid);
        }
        while k < layers.len()
            invariant
                i < own@.len(),
                k <= layers@.len(),
                ov == buckets_view(own@),
                small_points(ov),
                ov[i as int] == (p, lv),
                lv == layers_view(layers@),
                cv == match children {
                    Some(c) => Some(buckets_view(c@)),
                    None => None::<BucketsV>,
                },
                out@ == mid + layer_pairs(ov, cv, p, lv, k as int),
            decreases layers@.len() - k,
        {
            let l = layers[k].0;
            let ports = &layers[k].1;
            proof {
                assert(lv[k as int] == (l, ports@));
                assert(i32::MIN <= ov[i as int].0.0 <= i32::MAX && i32::MIN <= ov[i as int].0.1 <= i32::MAX);
            }
            let mut extra: Vec<usize> = Vec::new();
            copy_at(own, (p.0 + 1, p.1), l, &mut extra);
            copy_at(own, (p.0, p.1 + 1), l, &mut extra);
            let near = match children {
                Some(c) => near_items(c, p.0, p.1, l),
                None => Vec::new(),
            };
            let ghost ex = extra@;
            let ghost nr = near@;
            proof {
                assert(ex =~= at_spec(ov, ((p.0 + 1) as i64, p.1), l) + at_spec(ov, (p.0, (p.1 + 1) as i64), l));
                assert(nr =~= match cv {
                    Some(c) => near_spec(c, p.0, p.1, l),
                    None => Seq::<usize>::empty(),
                });
            }
            let ghost inner = out@;
            let mut n: usize = 0;
            proof {
                assert(inner + Seq::<Candidate>::empty() =~= inner);
            }
            while n < ports.len()
                invariant
                    n <= ports@.len(),
                    ex == extra@,
                    nr == near@,
                    out@ == inner + port_pairs(ports@, ex, nr, n as int),
                decreases ports@.len() - n,
            {
                let mut others: Vec<usize> = Vec::new();
                append_from(&mut others, ports, n + 1);
                append_from(&mut others, &extra, 0);
                proof {
                    assert(extra@.skip(0) =~= extra@);
                    assert(others@ =~= ports@.skip(n + 1) + ex);
                }
                let ghost before = out@;
                push_pairs(out, ports[n], &others, false, OPPOSITE);
                push_pairs(out, ports[n], &near, true, SAME);
                proof {
                    let a = port_pairs(ports@, ex, nr, n as int);
                    let b = pairs_with(ports@[n as int], ports@.skip(n + 1) + ex, false, OPPOSITE);
                    let c = pairs_with(ports@[n as int], nr, true, SAME);
                    assert(port_pairs(ports@, ex, nr, n + 1) == a + b + c);
                    assert(out@ =~= inner + (a + b + c));
                }
                n = n + 1;
            }
            proof {
                let a = layer_pairs(ov, cv, p, lv, k as int);
                let b = port_pairs(ports@, ex, nr, ports@.len() as int);
                assert(layer_pairs(ov, cv, p, lv, k + 1) == a + b);
                assert(out@ =~= mid + (a + b));
            }
            k = k + 1;
        }
        proof {
            let a = stage_pairs(ov, cv, i as int);
            let b = layer_pairs(ov, cv, p, lv, lv.len() as int);
            assert(stage_pairs(ov, cv, i + 1) == a + b);
            assert(out@ =~= start + (a + b));
        }
        i = i + 1;
    }
}

/// The pairs to compare, in order.
pub fn candidates(cell: &Buckets, children: &Buckets) -> (r: Vec<Candidate>)
    requires
        small_points(buckets_view(cell@)),
        small_points(buckets_view(children@)),
    ensures
        r@ == candidates_spec(buckets_view(cell@), buckets_view(children@)),
{
    let mut out: Vec<Candidate> = Vec::new();
    stage(&mut out, cell, Some(children));
    stage(&mut out, children, None);
    proof {
        assert(out@ =~= candidates_spec(buckets_view(cell@), buckets_view(children@)));
    }
    out
}

/// The items of all instances, instance by instance.
pub open spec fn all_instance_items(insts: Seq<OpticalInstanceV>, types: Seq<Seq<char>>, n: int) -> Result<
    Seq<ItemV>,
    Seq<char>,
>
    decreases n,
{
    if n <= 0 {
        Ok(Seq::empty())
    } else {
        match all_instance_items(insts, types, n - 1) {
            Err(e) => Err(e),
            Ok(acc) => match instance_items_spec(insts[n - 1], n - 1, types) {
                Err(e) => Err(e),
                Ok(xs) => Ok(acc + xs),
            },
        }
    }
}

/// All items, the cell's first, and how many of them are the cell's.
pub open spec fn plan_items(ports: Seq<OpticalPortV>, insts: Seq<OpticalInstanceV>, types: Seq<Seq<char>>) -> Result<
    (Seq<ItemV>, int),
    Seq<char>,
> {
    match cell_items_spec(ports, types, ports.len() as int) {
        Err(e) => Err(e),
        Ok((cell, _)) => match all_instance_items(insts, types, insts.len() as int) {
            Err(e) => Err(e),
            Ok(xs) => Ok((cell + xs, cell.len() as int)),
        },
    }
}

/// The adjacency of a cell: its items, their buckets and the pairs to compare.
pub struct OpticalPlan {
    pub items: Vec<OpticalItem>,
    pub cell_count: usize,
    pub cell: Buckets,
    pub children: Buckets,
    pub candidates: Vec<Candidate>,
}

pub open spec fn bucket_indices_below(b: BucketsV, n: int) -> bool {
    forall|i: int, k: int, j: int|
        0 <= i < b.len() && 0 <= k < b[i].1.len() && 0 <= j < b[i].1[k].1.len() ==> #[trigger] b[i].1[k].1[j]
            < n
}

impl OpticalPlan {
    /// Every index names an item.
    pub open spec fn wf(&self) -> bool {
        &&& self.cell_count <= self.items@.len()
        &&& buckets_view(self.cell@) == bucketed(items_view(self.items@), 0, self.cell_count as int)
        &&& buckets_view(self.children@) == bucketed(items_view(self.items@), self.cell_count as int, self.items@.len() as int)
        &&& self.candidates@ == candidates_spec(buckets_view(self.cell@), buckets_view(self.children@))
        &&& bucket_indices_below(buckets_view(self.cell@), self.items@.len() as int)
        &&& bucket_indices_below(buckets_view(self.children@), self.items@.len() as int)
        &&& forall|i: int| 0 <= i < self.candidates@.len() ==> (#[trigger] self.candidates@[i]).a < self.items@.len()
            && self.candidates@[i].b < self.items@.len()
    }
}

proof fn lemma_bucketed_below(items: Seq<ItemV>, lo: int, hi: int)
    requires
        0 <= lo <= hi,
    ensures
        bucket_indices_below(bucketed(items, lo, hi), hi),
    decreases hi - lo,
{
    if hi > lo {
        lemma_bucketed_below(items, lo, hi - 1);
        let b = bucketed(items, lo, hi - 1);
        let p = item_point(items[hi - 1]);
        let l = item_layer(items[hi - 1]);
        lemma_key_pos(b, p);
        let r = bucketed(items, lo, hi);
        assert forall|i: int, k: int, j: int|
            0 <= i < r.len() && 0 <= k < r[i].1.len() && 0 <= j < r[i].1[k].1.len() implies #[trigger] r[i].1[k].1[j]
                < hi by {
            match key_pos(b, p) {
                Some(m) => {
                    lemma_key_pos(b[m].1, l);
                    if i != m {
                        assert(r[i] == b[i]);
                    } else {
                        match key_pos(b[m].1, l) {
                            Some(q) => {
                                if k != q {
                                    assert(r[i].1[k] == b[m].1[k]);
                                } else if j < b[m].1[q].1.len() {
                                    assert(r[i].1[k].1[j] == b[m].1[q].1[j]);
                                }
                            },
                            None => {
                                if k < b[m].1.len() {
                                    assert(r[i].1[k] == b[m].1[k]);
                                }
                            },
                        }
                    }
                },
                None => {
                    if i < b.len() {
                        assert(r[i] == b[i]);
                    }
                },
            }
        }
    }
}

proof fn lemma_at_below(b: BucketsV, p: (i64, i64), l: (i32, i32), n: int)
    requires
        bucket_indices_below(b, n),
    ensures
        forall|j: int| 0 <= j < at_spec(b, p, l).len() ==> #[trigger] at_spec(b, p, l)[j] < n,
{
    lemma_key_pos(b, p);
    match key_pos(b, p) {
        Some(i) => {
            lemma_key_pos(b[i].1, l);
        },
        None => {},
    }
}

pub open spec fn all_below(s: Seq<usize>, n: int) -> bool {
    forall|j: int| 0 <= j < s.len() ==> #[trigger] s[j] < n
}

proof fn lemma_concat_below(a: Seq<usize>, b: Seq<usize>, n: int)
    requires
        all_below(a, n),
        all_below(b, n),
    ensures
        all_below(a + b, n),
{
    assert forall|j: int| 0 <= j < (a + b).len() implies #[trigger] (a + b)[j] < n by {
        if j < a.len() {
            assert((a + b)[j] == a[j]);
        } else {
            assert((a + b)[j] == b[j - a.len()]);
        }
    }
}

proof fn lemma_near_below(c: BucketsV, x: i64, y: i64, l: (i32, i32), n: int)
    requires
        bucket_indices_below(c, n),
    ensures
        all_below(near_spec(c, x, y, l), n),
{
    let p0 = at_spec(c, ((x - 1) as i64, (y - 1) as i64), l);
    let p1 = at_spec(c, ((x - 1) as i64, y), l);
    let p2 = at_spec(c, ((x - 1) as i64, (y + 1) as i64), l);
    let p3 = at_spec(c, (x, (y - 1) as i64), l);
    let p4 = at_spec(c, (x, y), l);
    let p5 = at_spec(c, (x, (y + 1) as i64), l);
    let p6 = at_spec(c, ((x + 1) as i64, (y - 1) as i64), l);
    let p7 = at_spec(c, ((x + 1) as i64, y), l);
    let p8 = at_spec(c, ((x + 1) as i64, (y + 1) as i64), l);
    lemma_at_below(c, ((x - 1) as i64, (y - 1) as i64), l, n);
    lemma_at_below(c, ((x - 1) as i64, y), l, n);
    lemma_at_below(c, ((x - 1) as i64, (y + 1) as i64), l, n);
    lemma_at_below(c, (x, (y - 1) as i64), l, n);
    lemma_at_below(c, (x, y), l, n);
    lemma_at_below(c, (x, (y + 1) as i64), l, n);
    lemma_at_below(c, ((x + 1) as i64, (y - 1) as i64), l, n);
    lemma_at_below(c, ((x + 1) as i64, y), l, n);
    lemma_at_below(c, ((x + 1) as i64, (y + 1) as i64), l, n);
    assert(all_below(p0, n) && all_below(p1, n) && all_below(p2, n) && all_below(p3, n));
    assert(all_below(p4, n) && all_below(p5, n) && all_below(p6, n) && all_below(p7, n) && all_below(p8, n));
    lemma_concat_below(p0, p1, n);
    lemma_concat_below(p0 + p1, p2, n);
    lemma_concat_below(p0 + p1 + p2, p3, n);
    lemma_concat_below(p0 + p1 + p2 + p3, p4, n);
    lemma_concat_below(p0 + p1 + p2 + p3 + p4, p5, n);
    lemma_concat_below(p0 + p1 + p2 + p3 + p4 + p5, p6, n);
    lemma_concat_below(p0 + p1 + p2 + p3 + p4 + p5 + p6, p7, n);
    lemma_concat_below(p0 + p1 + p2 + p3 + p4 + p5 + p6 + p7, p8, n);
}

proof fn lemma_candidates_below(cell: BucketsV, children: BucketsV, n: int)
    requires
        bucket_indices_below(cell, n),
        bucket_indices_below(children, n),
    ensures
        forall|i: int|
            0 <= i < candidates_spec(cell, children).len() ==> (#[trigger] candidates_spec(cell, children)[i]).a < n
                && candidates_spec(cell, children)[i].b < n,
{
    lemma_stage_below(cell, Some(children), n, cell.len() as int);
    lemma_stage_below(children, None, n, children.len() as int);
    let a = stage_pairs(cell, Some(children), cell.len() as int);
    let b = stage_pairs(children, None, children.len() as int);
    let all = candidates_spec(cell, children);
    assert forall|i: int| 0 <= i < all.len() implies (#[trigger] all[i]).a < n && all[i].b < n by {
        if i < a.len() {
            assert(all[i] == a[i]);
        } else {
            assert(all[i] == b[i - a.len()]);
        }
    }
}

proof fn lemma_stage_below(own: BucketsV, children: Option<BucketsV>, n: int, m: int)
    requires
        bucket_indices_below(own, n),
        children matches Some(c) ==> bucket_indices_below(c, n),
        m <= own.len(),
    ensures
        forall|i: int|
            0 <= i < stage_pairs(own, children, m).len() ==> (#[trigger] stage_pairs(own, children, m)[i]).a < n
                && stage_pairs(own, children, m)[i].b < n,
    decreases m,
{
    if m > 0 {
        lemma_stage_below(own, children, n, m - 1);
        let ls = own[m - 1].1;
        lemma_layers_below(own, children, own[m - 1].0, ls, n, ls.len() as int, m - 1);
        let a = stage_pairs(own, children, m - 1);
        let b = layer_pairs(own, children, own[m - 1].0, ls, ls.len() as int);
        let all = stage_pairs(own, children, m);
        assert(all == a + b);
        assert forall|i: int| 0 <= i < all.len() implies (#[trigger] all[i]).a < n && all[i].b < n by {
            if i < a.len() {
                assert(all[i] == a[i]);
            } else {
                assert(all[i] == b[i - a.len()]);
            }
        }
    }
}

proof fn lemma_layers_below(
    own: BucketsV,
    children: Option<BucketsV>,
    p: (i64, i64),
    ls: Seq<((i32, i32), Seq<usize>)>,
    n: int,
    k: int,
    bi: int,
)
    requires
        bucket_indices_below(own, n),
        children matches Some(c) ==> bucket_indices_below(c, n),
        0 <= bi < own.len(),
        own[bi].1 == ls,
        k <= ls.len(),
    ensures
        forall|i: int|
            0 <= i < layer_pairs(own, children, p, ls, k).len() ==> (#[trigger] layer_pairs(own, children, p, ls, k)[i]).a
                < n && layer_pairs(own, children, p, ls, k)[i].b < n,
    decreases k,
{
    if k > 0 {
        lemma_layers_below(own, children, p, ls, n, k - 1, bi);
        let (l, ports) = ls[k - 1];
        let extra = at_spec(own, ((p.0 + 1) as i64, p.1), l) + at_spec(own, (p.0, (p.1 + 1) as i64), l);
        let near = match children {
            Some(c) => near_spec(c, p.0, p.1, l),
            None => Seq::empty(),
        };
        lemma_at_below(own, ((p.0 + 1) as i64, p.1), l, n);
        lemma_at_below(own, (p.0, (p.1 + 1) as i64), l, n);
        assert forall|j: int| 0 <= j < extra.len() implies #[trigger] extra[j] < n by {}
        match children {
            Some(c) => {
                lemma_near_below(c, p.0, p.1, l, n);
            },
            None => {},
        }
        assert(all_below(near, n));
        assert forall|j: int| 0 <= j < ports.len() implies #[trigger] ports[j] < n by {
            assert(own[bi].1[k - 1].1[j] == ports[j]);
        }
        lemma_ports_below(ports, extra, near, n, ports.len() as int);
        let a = layer_pairs(own, children, p, ls, k - 1);
        let b = port_pairs(ports, extra, near, ports.len() as int);
        let all = layer_pairs(own, children, p, ls, k);
        assert(all == a + b);
        assert forall|i: int| 0 <= i < all.len() implies (#[trigger] all[i]).a < n && all[i].b < n by {
            if i < a.len() {
                assert(all[i] == a[i]);
            } else {
                assert(all[i] == b[i - a.len()]);
            }
        }
    }
}

proof fn lemma_ports_below(ports: Seq<usize>, extra: Seq<usize>, near: Seq<usize>, n: int, m: int)
    requires
        forall|j: int| 0 <= j < ports.len() ==> #[trigger] ports[j] < n,
        forall|j: int| 0 <= j < extra.len() ==> #[trigger] extra[j] < n,
        forall|j: int| 0 <= j < near.len() ==> #[trigger] near[j] < n,
        m <= ports.len(),
    ensures
        forall|i: int|
            0 <= i < port_pairs(ports, extra, near, m).len() ==> (#[trigger] port_pairs(ports, extra, near, m)[i]).a
                < n && port_pairs(ports, extra, near, m)[i].b < n,
    decreases m,
{
    if m > 0 {
        lemma_ports_below(ports, extra, near, n, m - 1);
        let rest = ports.skip(m) + extra;
        assert forall|j: int| 0 <= j < rest.len() implies #[trigger] rest[j] < n by {
            if j < ports.len() - m {
                assert(rest[j] == ports[m + j]);
            } else {
                assert(rest[j] == extra[j - (ports.len() - m)]);
            }
        }
        let a = port_pairs(ports, extra, near, m - 1);
        let b = pairs_with(ports[m - 1], rest, false, OPPOSITE);
        let c = pairs_with(ports[m - 1], near, true, SAME);
        let all = port_pairs(ports, extra, near, m);
        assert(all == a + b + c);
        assert forall|i: int| 0 <= i < all.len() implies (#[trigger] all[i]).a < n && all[i].b < n by {
            if i < a.len() {
                assert(all[i] == a[i]);
            } else if i < a.len() + b.len() {
                assert(all[i] == b[i - a.len()]);
            } else {
                assert(all[i] == c[i - a.len() - b.len()]);
            }
        }
    }
}

/// Resolve a cell's ports and its instances' ports into items, bucket them,
/// and list the pairs to compare; refused for a repeated cell port name or an
/// array without element placements.
pub fn optical_plan(
    ports: &Vec<OpticalPort>,
    instances: &Vec<OpticalInstance>,
    port_types: &Vec<String>,
) -> (r: Result<OpticalPlan, ExtractError>)
    requires
        forall|i: int| 0 <= i < instances@.len() ==> placed_complete(#[trigger] instances@[i]@),
    ensures
        match plan_items(ports_view(ports@), instances_view(instances@), strings_of(port_types@)) {
            Ok((items, c)) => r is Ok && r->Ok_0.wf() && items_view(r->Ok_0.items@) == items
                && r->Ok_0.cell_count == c,
            Err(e) => r is Err && r->Err_0 is Invalid && r->Err_0->Invalid_0@ == e,
        },
{
    let ghost types = strings_of(port_types@);
    let ghost iv = instances_view(instances@);
    let mut items = match cell_items(ports, port_types) {
        Ok(v) => v,
        Err(e) => {
            return Err(e);
        },
    };
    let cell_count = items.len();
    let ghost cell = items_view(items@);
    let mut k: usize = 0;
    proof {
        assert(cell + Seq::<ItemV>::empty() =~= cell);
    }
    while k < instances.len()
        invariant
            k <= instances@.len(),
            iv == instances_view(instances@),
            types == strings_of(port_types@),
            forall|i: int| 0 <= i < instances@.len() ==> placed_complete(#[trigger] instances@[i]@),
            all_instance_items(iv, types, k as int) is Ok,
            items_view(items@) == cell + all_instance_items(iv, types, k as int)->Ok_0,
            cell_items_spec(ports_view(ports@), types, ports@.len() as int) is Ok,
            cell_items_spec(ports_view(ports@), types, ports@.len() as int)->Ok_0.0 == cell,
            cell.len() == cell_count,
        decreases instances@.len() - k,
    {
        proof {
            assert(iv[k as int] == instances@[k as int]@);
        }
        let ghost before = items_view(items@);
        match instance_items(&mut items, &instances[k], k, port_types) {
            Err(e) => {
                proof {
                    assert(all_instance_items(iv, types, k + 1) == Err::<Seq<ItemV>, Seq<char>>(e->Invalid_0@));
                    lemma_instances_err(iv, types, k as int + 1, iv.len() as int);
                }
                return Err(e);
            },
            Ok(()) => {},
        }
        proof {
            let acc = all_instance_items(iv, types, k as int)->Ok_0;
            let xs = instance_items_spec(iv[k as int], k as int, types)->Ok_0;
            assert(all_instance_items(iv, types, k + 1) == Ok::<Seq<ItemV>, Seq<char>>(acc + xs));
            assert(items_view(items@) =~= cell + (acc + xs));
        }
        k = k + 1;
    }
    let total = items.len();
    let cell_buckets = bucket_items(&items, 0, cell_count);
    let child_buckets = bucket_items(&items, cell_count, total);
    proof {
        lemma_bucketed_small(items_view(items@), 0, cell_count as int);
        lemma_bucketed_small(items_view(items@), cell_count as int, total as int);
        lemma_bucketed_below(items_view(items@), 0, cell_count as int);
        lemma_bucketed_below(items_view(items@), cell_count as int, total as int);
        let cb = buckets_view(cell_buckets@);
        assert forall|i: int, kk: int, j: int|
            0 <= i < cb.len() && 0 <= kk < cb[i].1.len() && 0 <= j < cb[i].1[kk].1.len() implies #[trigger] cb[i].1[kk].1[j]
                < total by {}
    }
    let cands = candidates(&cell_buckets, &child_buckets);
    proof {
        lemma_candidates_below(buckets_view(cell_buckets@), buckets_view(child_buckets@), total as int);
    }
    Ok(OpticalPlan { items, cell_count, cell: cell_buckets, children: child_buckets, candidates: cands })
}

proof fn lemma_instances_err(insts: Seq<OpticalInstanceV>, types: Seq<Seq<char>>, k: int, n: int)
    requires
        0 < k <= n,
        all_instance_items(insts, types, k) is Err,
    ensures
        all_instance_items(insts, types, n) == all_instance_items(insts, types, k),
    decreases n - k,
{
    if n > k {
        lemma_instances_err(insts, types, k, n - 1);
    }
}

/// The flags every pair needs besides its orientation: position, layer, port
/// type, and width unless widths may differ.
pub open spec fn base_mask(allow_width_mismatch: bool) -> u8 {
    if allow_width_mismatch {
        POSITION | LAYER | PORT_TYPE
    } else {
        POSITION | LAYER | PORT_TYPE | WIDTH
    }
}

/// Whether a pair's comparison flags hold all it needs.
pub open spec fn passes(c: Candidate, flags: u8, base: u8) -> bool {
    flags & (base | c.orientation) == (base | c.orientation)
}

/// The two-member nets of the first `n` pairs that pass, in order.
pub open spec fn pair_nets(items: Seq<ItemV>, cs: Seq<Candidate>, fl: Seq<u8>, base: u8, n: int) -> Seq<
    Seq<MemberV>,
>
    decreases n,
{
    if n <= 0 {
        Seq::empty()
    } else {
        let acc = pair_nets(items, cs, fl, base, n - 1);
        let c = cs[n - 1];
        if passes(c, fl[n - 1], base) {
            acc.push(seq![items[c.a as int].reference, items[c.b as int].reference])
        } else {
            acc
        }
    }
}

/// A cell port (by name) that one of the first `k` passing pairs connects.
pub open spec fn name_marked(items: Seq<ItemV>, cs: Seq<Candidate>, fl: Seq<u8>, base: u8, k: int, name: Seq<char>) -> bool {
    exists|i: int|
        0 <= i < k && passes(#[trigger] cs[i], fl[i], base) && ((items[cs[i].a as int].identity is None
            && items[cs[i].a as int].port.name == name) || (items[cs[i].b as int].identity is None
            && items[cs[i].b as int].port.name == name))
}

/// An instance port (by identity) that one of the first `k` passing pairs
/// connects.
pub open spec fn id_marked(
    items: Seq<ItemV>,
    cs: Seq<Candidate>,
    fl: Seq<u8>,
    base: u8,
    k: int,
    id: (Seq<char>, Seq<char>, i64, i64),
) -> bool {
    exists|i: int|
        0 <= i < k && passes(#[trigger] cs[i], fl[i], base) && (items[cs[i].a as int].identity == Some(id)
            || items[cs[i].b as int].identity == Some(id))
}

pub open spec fn connected(items: Seq<ItemV>, cs: Seq<Candidate>, fl: Seq<u8>, base: u8, j: int) -> bool {
    match items[j].identity {
        Some(id) => id_marked(items, cs, fl, base, cs.len() as int, id),
        None => name_marked(items, cs, fl, base, cs.len() as int, items[j].port.name),
    }
}

pub open spec fn flat_layers(ls: Seq<((i32, i32), Seq<usize>)>, m: int) -> Seq<usize>
    decreases m,
{
    if m <= 0 {
        Seq::empty()
    } else {
        flat_layers(ls, m - 1) + ls[m - 1].1
    }
}

/// The bucketed items in bucket order.
pub open spec fn flat(b: BucketsV, n: int) -> Seq<usize>
    decreases n,
{
    if n <= 0 {
        Seq::empty()
    } else {
        flat(b, n - 1) + flat_layers(b[n - 1].1, b[n - 1].1.len() as int)
    }
}

/// A net of its own for each unconnected item of `order`.
pub open spec fn singles(items: Seq<ItemV>, cs: Seq<Candidate>, fl: Seq<u8>, base: u8, order: Seq<usize>, n: int) -> Seq<
    Seq<MemberV>,
>
    decreases n,
{
    if n <= 0 {
        Seq::empty()
    } else {
        let acc = singles(items, cs, fl, base, order, n - 1);
        let j = order[n - 1] as int;
        if connected(items, cs, fl, base, j) {
            acc
        } else {
            acc.push(seq![items[j].reference])
        }
    }
}

/// The optical nets: the passing pairs, then each unconnected port alone, the
/// cell's ports before the instances', in bucket order.
pub open spec fn optical_nets_spec(
    items: Seq<ItemV>,
    cell: BucketsV,
    children: BucketsV,
    cs: Seq<Candidate>,
    fl: Seq<u8>,
    base: u8,
) -> Seq<Seq<MemberV>> {
    let order = flat(cell, cell.len() as int) + flat(children, children.len() as int);
    pair_nets(items, cs, fl, base, cs.len() as int) + singles(items, cs, fl, base, order, order.len() as int)
}

pub open spec fn id_view(t: (String, String, i64, i64)) -> (Seq<char>, Seq<char>, i64, i64) {
    (t.0@, t.1@, t.2, t.3)
}

fn contains_id(v: &Vec<(String, String, i64, i64)>, id: &(String, String, i64, i64)) -> (r: bool)
    ensures
        r == exists|i: int| 0 <= i < v@.len() && id_view(#[trigger] v@[i]) == id_view(*id),
{
    let mut i: usize = 0;
    while i < v.len()
        invariant
            i <= v@.len(),
            forall|j: int| 0 <= j < i ==> id_view(#[trigger] v@[j]) != id_view(*id),
        decreases v@.len() - i,
    {
        if v[i].0 == id.0 && v[i].1 == id.1 && v[i].2 == id.2 && v[i].3 == id.3 {
            proof {
                assert(id_view(v@[i as int]) == id_view(*id));
            }
            return true;
        }
        i = i + 1;
    }
    false
}

fn copy_id(t: &(String, String, i64, i64)) -> (r: (String, String, i64, i64))
    ensures
        id_view(r) == id_view(*t),
{
    (t.0.clone(), t.1.clone(), t.2, t.3)
}

fn mark_item(it: &OpticalItem, names: &mut Vec<String>, ids: &mut Vec<(String, String, i64, i64)>)
    ensures
        forall|n: Seq<char>|
            strings_of(final(names)@).contains(n) <==> (strings_of(old(names)@).contains(n) || (it@.identity is None
                && it@.port.name == n)),
        forall|id: (Seq<char>, Seq<char>, i64, i64)|
            (exists|i: int| 0 <= i < final(ids)@.len() && id_view(#[trigger] final(ids)@[i]) == id) <==> ((exists|i: int|
                0 <= i < old(ids)@.len() && id_view(#[trigger] old(ids)@[i]) == id) || it@.identity == Some(id)),
{
    match &it.identity {
        Some(id) => {
            let ghost before = ids@;
            ids.push(copy_id(id));
            proof {
                assert forall|x: (Seq<char>, Seq<char>, i64, i64)|
                    (exists|i: int| 0 <= i < ids@.len() && id_view(#[trigger] ids@[i]) == x) <==> ((exists|i: int|
                        0 <= i < before.len() && id_view(#[trigger] before[i]) == x) || it@.identity == Some(x)) by {
                    if exists|i: int| 0 <= i < ids@.len() && id_view(#[trigger] ids@[i]) == x {
                        let i = choose|i: int| 0 <= i < ids@.len() && id_view(#[trigger] ids@[i]) == x;
                        if i < before.len() {
                            assert(ids@[i] == before[i]);
                        }
                    }
                    if exists|i: int| 0 <= i < before.len() && id_view(#[trigger] before[i]) == x {
                        let i = choose|i: int| 0 <= i < before.len() && id_view(#[trigger] before[i]) == x;
                        assert(ids@[i] == before[i]);
                    }
                    if it@.identity == Some(x) {
                        assert(id_view(ids@[before.len() as int]) == x);
                    }
                }
            }
        },
        None => {
            let ghost before = names@;
            names.push(it.port.name.clone());
            proof {
                let s0 = strings_of(before);
                let s1 = strings_of(names@);
                assert(s1 =~= s0.push(it.port.name@));
                assert forall|n: Seq<char>| s1.contains(n) <==> (s0.contains(n) || it@.port.name == n) by {
                    if s1.contains(n) {
                        let q = choose|q: int| 0 <= q < s1.len() && s1[q] == n;
                        if q < s0.len() {
                            assert(s0[q] == n);
                        }
                    }
                    if s0.contains(n) {
                        let q = choose|q: int| 0 <= q < s0.len() && s0[q] == n;
                        assert(s1[q] == n);
                    }
                    if it@.port.name == n {
                        assert(s1[s0.len() as int] == n);
                    }
                }
            }
        },
    }
}

/// The nets of a cell's optical ports, given the comparison flags of each
/// pair of the plan, in order.
pub fn optical_nets(plan: &OpticalPlan, flags: &Vec<u8>, allow_width_mismatch: bool) -> (r: Vec<Vec<NetMember>>)
    requires
        plan.wf(),
        flags@.len() == plan.candidates@.len(),
    ensures
        Seq::new(r@.len(), |i: int| crate::netlist::members_view(r@[i]@)) == optical_nets_spec(
            items_view(plan.items@),
            buckets_view(plan.cell@),
            buckets_view(plan.children@),
            plan.candidates@,
            flags@,
            base_mask(allow_width_mismatch),
        ),
{
    let base: u8 = if allow_width_mismatch {
        POSITION | LAYER | PORT_TYPE
    } else {
        POSITION | LAYER | PORT_TYPE | WIDTH
    };
    let ghost items = items_view(plan.items@);
    let ghost cs = plan.candidates@;
    let ghost fl = flags@;
    let mut nets: Vec<Vec<NetMember>> = Vec::new();
    let mut names: Vec<String> = Vec::new();
    let mut ids: Vec<(String, String, i64, i64)> = Vec::new();
    let mut i: usize = 0;
    while i < plan.candidates.len()
        invariant
            i <= cs.len(),
            plan.wf(),
            cs == plan.candidates@,
            fl == flags@,
            fl.len() == cs.len(),
            items == items_view(plan.items@),
            base == base_mask(allow_width_mismatch),
            Seq::new(nets@.len(), |q: int| crate::netlist::members_view(nets@[q]@)) == pair_nets(items, cs, fl, base, i as int),
            forall|n: Seq<char>| strings_of(names@).contains(n) <==> name_marked(items, cs, fl, base, i as int, n),
            forall|id: (Seq<char>, Seq<char>, i64, i64)|
                (exists|q: int| 0 <= q < ids@.len() && id_view(#[trigger] ids@[q]) == id) <==> id_marked(
                    items,
                    cs,
                    fl,
                    base,
                    i as int,
                    id,
                ),
        decreases cs.len() - i,
    {
        let c = plan.candidates[i];
        let mask = base | c.orientation;
        let ghost before = Seq::new(nets@.len(), |q: int| crate::netlist::members_view(nets@[q]@));
        if flags[i] & mask == mask {
            let a = &plan.items[c.a];
            let b = &plan.items[c.b];
            proof {
                assert(items[c.a as int] == a@);
                assert(items[c.b as int] == b@);
            }
            let mut members: Vec<NetMember> = Vec::new();
            members.push(a.reference.duplicate());
            members.push(b.reference.duplicate());
            nets.push(members);
            proof {
                assert(crate::netlist::members_view(members@) =~= seq![a@.reference, b@.reference]);
                assert(Seq::new(nets@.len(), |q: int| crate::netlist::members_view(nets@[q]@)) =~= before.push(
                    seq![items[c.a as int].reference, items[c.b as int].reference],
                ));
            }
            let ghost names0 = names@;
            let ghost ids0 = ids@;
            mark_item(a, &mut names, &mut ids);
            let ghost names1 = names@;
            let ghost ids1 = ids@;
            mark_item(b, &mut names, &mut ids);
            proof {
                assert forall|n: Seq<char>| strings_of(names@).contains(n) <==> #[trigger] name_marked(
                    items,
                    cs,
                    fl,
                    base,
                    i + 1,
                    n,
                ) by {
                    if name_marked(items, cs, fl, base, i + 1, n) && !name_marked(items, cs, fl, base, i as int, n) {
                        let q = choose|q: int|
                            0 <= q < i + 1 && passes(#[trigger] cs[q], fl[q], base) && ((items[cs[q].a as int].identity
                                is None && items[cs[q].a as int].port.name == n) || (
                            items[cs[q].b as int].identity is None && items[cs[q].b as int].port.name == n));
                        assert(q == i);
                    }
                    if strings_of(names@).contains(n) && !strings_of(names0).contains(n) {
                        assert(passes(cs[i as int], fl[i as int], base));
                    }
                }
                assert forall|id: (Seq<char>, Seq<char>, i64, i64)|
                    (exists|q: int| 0 <= q < ids@.len() && id_view(#[trigger] ids@[q]) == id) <==> #[trigger] id_marked(
                        items,
                        cs,
                        fl,
                        base,
                        i + 1,
                        id,
                    ) by {
                    if id_marked(items, cs, fl, base, i as int, id) {
                        let q = choose|q: int|
                            0 <= q < i && passes(#[trigger] cs[q], fl[q], base) && (items[cs[q].a as int].identity
                                == Some(id) || items[cs[q].b as int].identity == Some(id));
                        assert(passes(cs[q], fl[q], base));
                    }
                    if a@.identity == Some(id) || b@.identity == Some(id) {
                        assert(passes(cs[i as int], fl[i as int], base));
                    }
                    if id_marked(items, cs, fl, base, i + 1, id) && !id_marked(items, cs, fl, base, i as int, id) {
                        let q = choose|q: int|
                            0 <= q < i + 1 && passes(#[trigger] cs[q], fl[q], base) && (items[cs[q].a as int].identity
                                == Some(id) || items[cs[q].b as int].identity == Some(id));
                        assert(q == i);
                    }
                }
            }
        } else {
            proof {
                assert(!passes(cs[i as int], fl[i as int], base));
                assert forall|n: Seq<char>| #[trigger] name_marked(items, cs, fl, base, i + 1, n) <==> name_marked(
                    items,
                    cs,
                    fl,
                    base,
                    i as int,
                    n,
                ) by {
                    if name_marked(items, cs, fl, base, i + 1, n) {
                        let q = choose|q: int|
                            0 <= q < i + 1 && passes(#[trigger] cs[q], fl[q], base) && ((items[cs[q].a as int].identity
                                is None && items[cs[q].a as int].port.name == n) || (
                            items[cs[q].b as int].identity is None && items[cs[q].b as int].port.name == n));
                        assert(q != i);
                    }
                }
                assert forall|id: (Seq<char>, Seq<char>, i64, i64)| #[trigger] id_marked(items, cs, fl, base, i + 1, id) <==> id_marked(
                    items,
                    cs,
                    fl,
                    base,
                    i as int,
                    id,
                ) by {
                    if id_marked(items, cs, fl, base, i + 1, id) {
                        let q = choose|q: int|
                            0 <= q < i + 1 && passes(#[trigger] cs[q], fl[q], base) && (items[cs[q].a as int].identity
                                == Some(id) || items[cs[q].b as int].identity == Some(id));
                        assert(q != i);
                    }
                }
            }
        }
        i = i + 1;
    }
    let ghost pairs = Seq::new(nets@.len(), |q: int| crate::netlist::members_view(nets@[q]@));
    let mut order = flatten(&plan.cell);
    let rest = flatten(&plan.children);
    let mut k: usize = 0;
    while k < rest.len()
        invariant
            k <= rest@.len(),
            order@ == flat(buckets_view(plan.cell@), plan.cell@.len() as int) + rest@.take(k as int),
        decreases rest@.len() - k,
    {
        order.push(rest[k]);
        proof {
            assert(rest@.take(k + 1) =~= rest@.take(k as int).push(rest@[k as int]));
        }
        k = k + 1;
    }
    proof {
        assert(rest@.take(k as int) =~= rest@);
        lemma_flat_below(buckets_view(plan.cell@), items.len() as int);
        lemma_flat_below(buckets_view(plan.children@), items.len() as int);
        lemma_concat_below(
            flat(buckets_view(plan.cell@), plan.cell@.len() as int),
            flat(buckets_view(plan.children@), plan.children@.len() as int),
            items.len() as int,
        );
    }
    let ghost ov = order@;
    let mut m: usize = 0;
    proof {
        assert(pairs + Seq::<Seq<MemberV>>::empty() =~= pairs);
    }
    while m < order.len()
        invariant
            m <= ov.len(),
            ov == order@,
            all_below(ov, items.len() as int),
            plan.wf(),
            cs == plan.candidates@,
            fl == flags@,
            items == items_view(plan.items@),
            pairs == pair_nets(items, cs, fl, base, cs.len() as int),
            Seq::new(nets@.len(), |q: int| crate::netlist::members_view(nets@[q]@)) == pairs + singles(
                items,
                cs,
                fl,
                base,
                ov,
                m as int,
            ),
            forall|n: Seq<char>| strings_of(names@).contains(n) <==> name_marked(items, cs, fl, base, cs.len() as int, n),
            forall|id: (Seq<char>, Seq<char>, i64, i64)|
                (exists|q: int| 0 <= q < ids@.len() && id_view(#[trigger] ids@[q]) == id) <==> id_marked(
                    items,
                    cs,
                    fl,
                    base,
                    cs.len() as int,
                    id,
                ),
        decreases ov.len() - m,
    {
        let j = order[m];
        proof {
            assert(ov[m as int] < items.len());
        }
        let it = &plan.items[j];
        proof {
            assert(items[j as int] == it@);
        }
        let linked = match &it.identity {
            Some(id) => contains_id(&ids, id),
            None => contains_string(&names, &it.port.name),
        };
        proof {
            assert(linked == connected(items, cs, fl, base, j as int));
        }
        let ghost before = Seq::new(nets@.len(), |q: int| crate::netlist::members_view(nets@[q]@));
        if !linked {
            let mut members: Vec<NetMember> = Vec::new();
            members.push(it.reference.duplicate());
            nets.push(members);
            proof {
                assert(crate::netlist::members_view(members@) =~= seq![it@.reference]);
                assert(Seq::new(nets@.len(), |q: int| crate::netlist::members_view(nets@[q]@)) =~= before.push(
                    seq![items[j as int].reference],
                ));
            }
        }
        proof {
            let a = singles(items, cs, fl, base, ov, m as int);
            assert((pairs + a).push(seq![items[j as int].reference]) =~= pairs + a.push(seq![items[j as int].reference]));
        }
        m = m + 1;
    }
    nets
}

proof fn lemma_flat_below(b: BucketsV, n: int)
    requires
        bucket_indices_below(b, n),
    ensures
        all_below(flat(b, b.len() as int), n),
{
    lemma_flat_below_upto(b, n, b.len() as int);
}

proof fn lemma_flat_below_upto(b: BucketsV, n: int, m: int)
    requires
        bucket_indices_below(b, n),
        m <= b.len(),
    ensures
        all_below(flat(b, m), n),
    decreases m,
{
    if m > 0 {
        lemma_flat_below_upto(b, n, m - 1);
        lemma_flat_layers_below(b, n, m - 1, b[m - 1].1.len() as int);
        lemma_concat_below(flat(b, m - 1), flat_layers(b[m - 1].1, b[m - 1].1.len() as int), n);
    }
}

proof fn lemma_flat_layers_below(b: BucketsV, n: int, i: int, k: int)
    requires
        bucket_indices_below(b, n),
        0 <= i < b.len(),
        k <= b[i].1.len(),
    ensures
        all_below(flat_layers(b[i].1, k), n),
    decreases k,
{
    if k > 0 {
        lemma_flat_layers_below(b, n, i, k - 1);
        assert forall|j: int| 0 <= j < b[i].1[k - 1].1.len() implies #[trigger] b[i].1[k - 1].1[j] < n by {}
        lemma_concat_below(flat_layers(b[i].1, k - 1), b[i].1[k - 1].1, n);
    }
}

fn flatten(b: &Buckets) -> (r: Vec<usize>)
    ensures
        r@ == flat(buckets_view(b@), b@.len() as int),
{
    let ghost bv = buckets_view(b@);
    let mut out: Vec<usize> = Vec::new();
    let mut i: usize = 0;
    while i < b.len()
        invariant
            i <= b@.len(),
            bv == buckets_view(b@),
            out@ == flat(bv, i as int),
        decreases b@.len() - i,
    {
        let layers = &b[i].1;
        let ghost lv = layers_view(layers@);
        proof {
            assert(bv[i as int].1 == lv);
        }
        let ghost mid = out@;
        let mut k: usize = 0;
        proof {
            assert(mid + Seq::<usize>::empty() =~= mid);
        }
        while k < layers.len()
            invariant
                k <= layers@.len(),
                lv == layers_view(layers@),
                out@ == mid + flat_layers(lv, k as int),
            decreases layers@.len() - k,
        {
            let ghost before = out@;
            append_from(&mut out, &layers[k].1, 0);
            proof {
                assert(layers[k as int].1@.skip(0) =~= layers[k as int].1@);
                assert(lv[k as int].1 == layers[k as int].1@);
                assert(out@ =~= mid + flat_layers(lv, k + 1));
            }
            k = k + 1;
        }
        i = i + 1;
    }
    out
}

/// Item `x` is in some bucket.
pub open spec fn in_buckets(b: BucketsV, x: usize) -> bool {
    exists|i: int, k: int| 0 <= i < b.len() && 0 <= k < b[i].1.len() && (#[trigger] b[i].1[k]).1.contains(x)
}

proof fn lemma_flat_layers_contains(ls: Seq<((i32, i32), Seq<usize>)>, m: int, k: int, x: usize)
    requires
        0 <= k < m <= ls.len(),
        ls[k].1.contains(x),
    ensures
        flat_layers(ls, m).contains(x),
    decreases m,
{
    let prev = flat_layers(ls, m - 1);
    let all = flat_layers(ls, m);
    assert(all == prev + ls[m - 1].1);
    if k == m - 1 {
        let q = choose|q: int| 0 <= q < ls[k].1.len() && ls[k].1[q] == x;
        assert(all[prev.len() + q] == x);
    } else {
        lemma_flat_layers_contains(ls, m - 1, k, x);
        let q = choose|q: int| 0 <= q < prev.len() && prev[q] == x;
        assert(all[q] == x);
    }
}

proof fn lemma_flat_contains(b: BucketsV, n: int, i: int, k: int, x: usize)
    requires
        0 <= i < n <= b.len(),
        0 <= k < b[i].1.len(),
        b[i].1[k].1.contains(x),
    ensures
        flat(b, n).contains(x),
    decreases n,
{
    let prev = flat(b, n - 1);
    let all = flat(b, n);
    let tail = flat_layers(b[n - 1].1, b[n - 1].1.len() as int);
    assert(all == prev + tail);
    if i == n - 1 {
        lemma_flat_layers_contains(b[i].1, b[i].1.len() as int, k, x);
        let q = choose|q: int| 0 <= q < tail.len() && tail[q] == x;
        assert(all[prev.len() + q] == x);
    } else {
        lemma_flat_contains(b, n - 1, i, k, x);
        let q = choose|q: int| 0 <= q < prev.len() && prev[q] == x;
        assert(all[q] == x);
    }
}

proof fn lemma_insert_in_buckets(b: BucketsV, p: (i64, i64), l: (i32, i32), j: usize, x: usize)
    requires
        in_buckets(b, x) || x == j,
    ensures
        in_buckets(bucket_insert(b, p, l, j), x),
{
    let r = bucket_insert(b, p, l, j);
    lemma_key_pos(b, p);
    match key_pos(b, p) {
        Some(i) => {
            let ls = b[i].1;
            let nl = layer_insert(ls, l, j);
            assert(r[i].1 == nl);
            lemma_key_pos(ls, l);
            if x == j {
                match key_pos(ls, l) {
                    Some(k) => {
                        assert(nl[k].1 == ls[k].1.push(j));
                        assert(nl[k].1[ls[k].1.len() as int] == j);
                        assert(r[i].1[k].1.contains(x));
                    },
                    None => {
                        assert(nl[ls.len() as int].1 == seq![j]);
                        assert(nl[ls.len() as int].1[0] == j);
                        assert(r[i].1[ls.len() as int].1.contains(x));
                    },
                }
            } else {
                let (i0, k0) = choose|i0: int, k0: int|
                    0 <= i0 < b.len() && 0 <= k0 < b[i0].1.len() && (#[trigger] b[i0].1[k0]).1.contains(x);
                let q = choose|q: int| 0 <= q < b[i0].1[k0].1.len() && b[i0].1[k0].1[q] == x;
                if i0 != i {
                    assert(r[i0] == b[i0]);
                    assert(r[i0].1[k0].1.contains(x));
                } else {
                    match key_pos(ls, l) {
                        Some(k) => {
                            if k0 == k {
                                assert(nl[k].1 == ls[k].1.push(j));
                                assert(nl[k].1[q] == x);
                            } else {
                                assert(nl[k0] == ls[k0]);
                            }
                        },
                        None => {
                            assert(nl[k0] == ls[k0]);
                        },
                    }
                    assert(r[i0].1[k0].1[q] == x);
                    assert(r[i0].1[k0].1.contains(x));
                }
            }
        },
        None => {
            if x == j {
                assert(r[b.len() as int].1[0].1 == seq![j]);
                assert(r[b.len() as int].1[0].1[0] == j);
                assert(r[b.len() as int].1[0].1.contains(x));
            } else {
                let (i0, k0) = choose|i0: int, k0: int|
                    0 <= i0 < b.len() && 0 <= k0 < b[i0].1.len() && (#[trigger] b[i0].1[k0]).1.contains(x);
                assert(r[i0] == b[i0]);
                assert(r[i0].1[k0].1.contains(x));
            }
        },
    }
}

proof fn lemma_bucketed_in(items: Seq<ItemV>, lo: int, hi: int, x: int)
    requires
        0 <= lo <= x < hi <= usize::MAX,
    ensures
        in_buckets(bucketed(items, lo, hi), x as usize),
    decreases hi - lo,
{
    let j = hi - 1;
    if x < j {
        lemma_bucketed_in(items, lo, j, x);
    }
    lemma_insert_in_buckets(bucketed(items, lo, j), item_point(items[j]), item_layer(items[j]), j as usize, x as usize);
}

proof fn lemma_in_flat(b: BucketsV, x: usize)
    requires
        in_buckets(b, x),
    ensures
        flat(b, b.len() as int).contains(x),
{
    let (i, k) = choose|i: int, k: int| 0 <= i < b.len() && 0 <= k < b[i].1.len() && (#[trigger] b[i].1[k]).1.contains(x);
    lemma_flat_contains(b, b.len() as int, i, k, x);
}

proof fn lemma_pair_net_in(items: Seq<ItemV>, cs: Seq<Candidate>, fl: Seq<u8>, base: u8, n: int, i: int)
    requires
        0 <= i < n <= cs.len(),
        passes(cs[i], fl[i], base),
    ensures
        pair_nets(items, cs, fl, base, n).contains(seq![items[cs[i].a as int].reference, items[cs[i].b as int].reference]),
    decreases n,
{
    let prev = pair_nets(items, cs, fl, base, n - 1);
    if i == n - 1 {
        assert(pair_nets(items, cs, fl, base, n)[prev.len() as int] == seq![
            items[cs[i].a as int].reference,
            items[cs[i].b as int].reference,
        ]);
    } else {
        lemma_pair_net_in(items, cs, fl, base, n - 1, i);
        let net = seq![items[cs[i].a as int].reference, items[cs[i].b as int].reference];
        let q = choose|q: int| 0 <= q < prev.len() && prev[q] == net;
        assert(pair_nets(items, cs, fl, base, n)[q] == net);
    }
}

proof fn lemma_single_in(items: Seq<ItemV>, cs: Seq<Candidate>, fl: Seq<u8>, base: u8, order: Seq<usize>, n: int, q: int)
    requires
        0 <= q < n <= order.len(),
        !connected(items, cs, fl, base, order[q] as int),
    ensures
        singles(items, cs, fl, base, order, n).contains(seq![items[order[q] as int].reference]),
    decreases n,
{
    let prev = singles(items, cs, fl, base, order, n - 1);
    let net = seq![items[order[q] as int].reference];
    if q == n - 1 {
        assert(singles(items, cs, fl, base, order, n)[prev.len() as int] == net);
    } else {
        lemma_single_in(items, cs, fl, base, order, n - 1, q);
        let k = choose|k: int| 0 <= k < prev.len() && prev[k] == net;
        let j = order[n - 1] as int;
        if !connected(items, cs, fl, base, j) {
            assert(singles(items, cs, fl, base, order, n)[k] == net);
        }
    }
}

/// Two items stand for the same port: the same identity for instance ports,
/// the same name for cell ports.
pub open spec fn same_port(a: ItemV, b: ItemV) -> bool {
    match b.identity {
        Some(id) => a.identity == Some(id),
        None => a.identity is None && a.port.name == b.port.name,
    }
}

/// No optical port is lost: every item of a plan either is a net of its own,
/// or a pair that passes its comparison joins a port standing for the same
/// port, and that pair is a net.
pub proof fn lemma_no_port_lost(
    items: Seq<ItemV>,
    cell_count: int,
    cs: Seq<Candidate>,
    fl: Seq<u8>,
    base: u8,
    j: int,
)
    requires
        0 <= cell_count <= items.len() <= usize::MAX,
        fl.len() == cs.len(),
        forall|i: int| 0 <= i < cs.len() ==> (#[trigger] cs[i]).a < items.len() && cs[i].b < items.len(),
        0 <= j < items.len(),
    ensures
        ({
            let nets = optical_nets_spec(
                items,
                bucketed(items, 0, cell_count),
                bucketed(items, cell_count, items.len() as int),
                cs,
                fl,
                base,
            );
            ||| nets.contains(seq![items[j].reference])
            ||| exists|i: int|
                0 <= i < cs.len() && passes(#[trigger] cs[i], fl[i], base) && (same_port(items[cs[i].a as int], items[j])
                    || same_port(items[cs[i].b as int], items[j])) && nets.contains(
                    seq![items[cs[i].a as int].reference, items[cs[i].b as int].reference],
                )
        }),
{
    let cell = bucketed(items, 0, cell_count);
    let children = bucketed(items, cell_count, items.len() as int);
    let order = flat(cell, cell.len() as int) + flat(children, children.len() as int);
    let pairs = pair_nets(items, cs, fl, base, cs.len() as int);
    let single = singles(items, cs, fl, base, order, order.len() as int);
    let nets = optical_nets_spec(items, cell, children, cs, fl, base);
    assert(nets == pairs + single);
    if connected(items, cs, fl, base, j) {
        let i = match items[j].identity {
            Some(id) => choose|i: int|
                0 <= i < cs.len() && passes(#[trigger] cs[i], fl[i], base) && (items[cs[i].a as int].identity == Some(id)
                    || items[cs[i].b as int].identity == Some(id)),
            None => choose|i: int|
                0 <= i < cs.len() && passes(#[trigger] cs[i], fl[i], base) && ((items[cs[i].a as int].identity is None
                    && items[cs[i].a as int].port.name == items[j].port.name) || (items[cs[i].b as int].identity is None
                    && items[cs[i].b as int].port.name == items[j].port.name)),
        };
        lemma_pair_net_in(items, cs, fl, base, cs.len() as int, i);
        let net = seq![items[cs[i].a as int].reference, items[cs[i].b as int].reference];
        let q = choose|q: int| 0 <= q < pairs.len() && pairs[q] == net;
        assert(nets[q] == net);
        assert(same_port(items[cs[i].a as int], items[j]) || same_port(items[cs[i].b as int], items[j]));
    } else {
        let a = flat(cell, cell.len() as int);
        if j < cell_count {
            lemma_bucketed_in(items, 0, cell_count, j);
            lemma_in_flat(cell, j as usize);
            let q = choose|q: int| 0 <= q < a.len() && a[q] == j as usize;
            assert(order[q] == j as usize);
            lemma_single_in(items, cs, fl, base, order, order.len() as int, q);
        } else {
            lemma_bucketed_in(items, cell_count, items.len() as int, j);
            lemma_in_flat(children, j as usize);
            let b = flat(children, children.len() as int);
            let q = choose|q: int| 0 <= q < b.len() && b[q] == j as usize;
            assert(order[a.len() + q] == j as usize);
            lemma_single_in(items, cs, fl, base, order, order.len() as int, a.len() + q);
        }
        let net = seq![items[j].reference];
        let k = choose|k: int| 0 <= k < single.len() && single[k] == net;
        assert(nets[pairs.len() + k] == net);
    }
}

/// `a` is a subsequence of `b`: its entries appear in `b` in the same order.
pub open spec fn subsequence<T>(a: Seq<T>, b: Seq<T>) -> bool {
    exists|f: Seq<int>| #[trigger] embeds(f, a, b)
}

/// `f` places each entry of `a` at an increasing position of `b` holding it.
pub open spec fn embeds<T>(f: Seq<int>, a: Seq<T>, b: Seq<T>) -> bool {
    &&& f.len() == a.len()
    &&& forall|i: int, j: int| 0 <= i < j < f.len() ==> f[i] < f[j]
    &&& forall|i: int| 0 <= i < f.len() ==> 0 <= #[trigger] f[i] < b.len() && b[f[i]] == a[i]
}

/// A pair that passes with widths compared also passes with widths free.
proof fn lemma_passes_looser(c: Candidate, flags: u8)
    ensures
        passes(c, flags, base_mask(false)) ==> passes(c, flags, base_mask(true)),
{
    let o = c.orientation;
    assert(base_mask(false) == 57u8) by (bit_vector);
    assert(base_mask(true) == 49u8) by (bit_vector);
    assert(flags & (57u8 | o) == (57u8 | o) ==> flags & (49u8 | o) == (49u8 | o)) by (bit_vector);
}

proof fn lemma_pairs_embed(items: Seq<ItemV>, cs: Seq<Candidate>, fl: Seq<u8>, n: int) -> (f: Seq<int>)
    requires
        0 <= n <= cs.len(),
        fl.len() == cs.len(),
    ensures
        embeds(
            f,
            pair_nets(items, cs, fl, base_mask(false), n),
            pair_nets(items, cs, fl, base_mask(true), n),
        ),
    decreases n,
{
    if n == 0 {
        Seq::empty()
    } else {
        let f0 = lemma_pairs_embed(items, cs, fl, n - 1);
        let a0 = pair_nets(items, cs, fl, base_mask(false), n - 1);
        let b0 = pair_nets(items, cs, fl, base_mask(true), n - 1);
        let a = pair_nets(items, cs, fl, base_mask(false), n);
        let b = pair_nets(items, cs, fl, base_mask(true), n);
        let c = cs[n - 1];
        lemma_passes_looser(c, fl[n - 1]);
        if passes(c, fl[n - 1], base_mask(false)) {
            let f = f0.push(b0.len() as int);
            assert forall|i: int| 0 <= i < f.len() implies 0 <= #[trigger] f[i] < b.len() && b[f[i]] == a[i] by {
                if i < f0.len() {
                    assert(f[i] == f0[i]);
                    assert(b[f0[i]] == b0[f0[i]]);
                    assert(a[i] == a0[i]);
                }
            }
            assert forall|i: int, j: int| 0 <= i < j < f.len() implies f[i] < f[j] by {
                if j < f0.len() {
                    assert(f[i] == f0[i] && f[j] == f0[j]);
                } else {
                    assert(f[i] == f0[i]);
                }
            }
            f
        } else {
            if passes(c, fl[n - 1], base_mask(true)) {
                assert forall|i: int| 0 <= i < f0.len() implies 0 <= #[trigger] f0[i] < b.len() && b[f0[i]] == a[i] by {
                    assert(b[f0[i]] == b0[f0[i]]);
                }
            }
            f0
        }
    }
}

proof fn lemma_connected_looser(items: Seq<ItemV>, cs: Seq<Candidate>, fl: Seq<u8>, j: int)
    requires
        fl.len() == cs.len(),
    ensures
        connected(items, cs, fl, base_mask(false), j) ==> connected(items, cs, fl, base_mask(true), j),
{
    if connected(items, cs, fl, base_mask(false), j) {
        match items[j].identity {
            Some(id) => {
                let i = choose|i: int|
                    0 <= i < cs.len() && passes(#[trigger] cs[i], fl[i], base_mask(false)) && (
                    items[cs[i].a as int].identity == Some(id) || items[cs[i].b as int].identity == Some(id));
                lemma_passes_looser(cs[i], fl[i]);
            },
            None => {
                let i = choose|i: int|
                    0 <= i < cs.len() && passes(#[trigger] cs[i], fl[i], base_mask(false)) && ((
                    items[cs[i].a as int].identity is None && items[cs[i].a as int].port.name
                        == items[j].port.name) || (items[cs[i].b as int].identity is None
                        && items[cs[i].b as int].port.name == items[j].port.name));
                lemma_passes_looser(cs[i], fl[i]);
            },
        }
    }
}

proof fn lemma_singles_embed(items: Seq<ItemV>, cs: Seq<Candidate>, fl: Seq<u8>, order: Seq<usize>, n: int) -> (f: Seq<int>)
    requires
        0 <= n <= order.len(),
        fl.len() == cs.len(),
    ensures
        embeds(
            f,
            singles(items, cs, fl, base_mask(true), order, n),
            singles(items, cs, fl, base_mask(false), order, n),
        ),
    decreases n,
{
    if n == 0 {
        Seq::empty()
    } else {
        let f0 = lemma_singles_embed(items, cs, fl, order, n - 1);
        let a0 = singles(items, cs, fl, base_mask(true), order, n - 1);
        let b0 = singles(items, cs, fl, base_mask(false), order, n - 1);
        let a = singles(items, cs, fl, base_mask(true), order, n);
        let b = singles(items, cs, fl, base_mask(false), order, n);
        let j = order[n - 1] as int;
        lemma_connected_looser(items, cs, fl, j);
        if !connected(items, cs, fl, base_mask(true), j) {
            let f = f0.push(b0.len() as int);
            assert forall|i: int| 0 <= i < f.len() implies 0 <= #[trigger] f[i] < b.len() && b[f[i]] == a[i] by {
                if i < f0.len() {
                    assert(f[i] == f0[i]);
                    assert(b[f0[i]] == b0[f0[i]]);
                    assert(a[i] == a0[i]);
                }
            }
            assert forall|i: int, k: int| 0 <= i < k < f.len() implies f[i] < f[k] by {
                if k < f0.len() {
                    assert(f[i] == f0[i] && f[k] == f0[k]);
                } else {
                    assert(f[i] == f0[i]);
                }
            }
            f
        } else {
            if !connected(items, cs, fl, base_mask(false), j) {
                assert forall|i: int| 0 <= i < f0.len() implies 0 <= #[trigger] f0[i] < b.len() && b[f0[i]] == a[i] by {
                    assert(b[f0[i]] == b0[f0[i]]);
                }
            }
            f0
        }
    }
}

proof fn lemma_pair_net_sizes(items: Seq<ItemV>, cs: Seq<Candidate>, fl: Seq<u8>, base: u8, n: int)
    ensures
        forall|i: int| 0 <= i < pair_nets(items, cs, fl, base, n).len() ==> (#[trigger] pair_nets(items, cs, fl, base, n)[i]).len() == 2,
    decreases n,
{
    if n > 0 {
        lemma_pair_net_sizes(items, cs, fl, base, n - 1);
        let acc = pair_nets(items, cs, fl, base, n - 1);
        let cur = pair_nets(items, cs, fl, base, n);
        assert forall|i: int| 0 <= i < cur.len() implies (#[trigger] cur[i]).len() == 2 by {
            if i < acc.len() {
                assert(cur[i] == acc[i]);
            }
        }
    }
}

proof fn lemma_single_net_sizes(items: Seq<ItemV>, cs: Seq<Candidate>, fl: Seq<u8>, base: u8, order: Seq<usize>, n: int)
    ensures
        forall|i: int| 0 <= i < singles(items, cs, fl, base, order, n).len() ==> (#[trigger] singles(items, cs, fl, base, order, n)[i]).len() == 1,
    decreases n,
{
    if n > 0 {
        lemma_single_net_sizes(items, cs, fl, base, order, n - 1);
        let acc = singles(items, cs, fl, base, order, n - 1);
        let cur = singles(items, cs, fl, base, order, n);
        assert forall|i: int| 0 <= i < cur.len() implies (#[trigger] cur[i]).len() == 1 by {
            if i < acc.len() {
                assert(cur[i] == acc[i]);
            }
        }
    }
}

/// Every optical net is a passing pair of two ports, or a single port that no
/// passing pair connects; the pairs come first.
pub proof fn lemma_optical_net_sizes(
    items: Seq<ItemV>,
    cell: BucketsV,
    children: BucketsV,
    cs: Seq<Candidate>,
    fl: Seq<u8>,
    base: u8,
)
    ensures
        ({
            let nets = optical_nets_spec(items, cell, children, cs, fl, base);
            let np = pair_nets(items, cs, fl, base, cs.len() as int).len();
            &&& forall|i: int| 0 <= i < np ==> (#[trigger] nets[i]).len() == 2
            &&& forall|i: int| np <= i < nets.len() ==> (#[trigger] nets[i]).len() == 1
        }),
{
    let order = flat(cell, cell.len() as int) + flat(children, children.len() as int);
    let pairs = pair_nets(items, cs, fl, base, cs.len() as int);
    let ones = singles(items, cs, fl, base, order, order.len() as int);
    lemma_pair_net_sizes(items, cs, fl, base, cs.len() as int);
    lemma_single_net_sizes(items, cs, fl, base, order, order.len() as int);
    let nets = optical_nets_spec(items, cell, children, cs, fl, base);
    assert(nets == pairs + ones);
    assert forall|i: int| pairs.len() <= i < nets.len() implies (#[trigger] nets[i]).len() == 1 by {
        assert(nets[i] == ones[i - pairs.len()]);
    }
    assert forall|i: int| 0 <= i < pairs.len() implies (#[trigger] nets[i]).len() == 2 by {
        assert(nets[i] == pairs[i]);
    }
}

/// Allowing widths to differ only adds connections: the nets of the passing
/// pairs (two members each) with widths compared appear, in order, among
/// those with widths free, and every port left alone with widths free is left
/// alone, in order, with widths compared.
pub proof fn lemma_width_mismatch_adds(
    items: Seq<ItemV>,
    cell: BucketsV,
    children: BucketsV,
    cs: Seq<Candidate>,
    fl: Seq<u8>,
)
    requires
        fl.len() == cs.len(),
    ensures
        ({
            let order = flat(cell, cell.len() as int) + flat(children, children.len() as int);
            let strict_pairs = pair_nets(items, cs, fl, base_mask(false), cs.len() as int);
            let free_pairs = pair_nets(items, cs, fl, base_mask(true), cs.len() as int);
            let strict_singles = singles(items, cs, fl, base_mask(false), order, order.len() as int);
            let free_singles = singles(items, cs, fl, base_mask(true), order, order.len() as int);
            &&& optical_nets_spec(items, cell, children, cs, fl, base_mask(false)) == strict_pairs + strict_singles
            &&& optical_nets_spec(items, cell, children, cs, fl, base_mask(true)) == free_pairs + free_singles
            &&& subsequence(strict_pairs, free_pairs)
            &&& subsequence(free_singles, strict_singles)
        }),
{
    let order = flat(cell, cell.len() as int) + flat(children, children.len() as int);
    let f = lemma_pairs_embed(items, cs, fl, cs.len() as int);
    let g = lemma_singles_embed(items, cs, fl, order, order.len() as int);
    assert(embeds(f, pair_nets(items, cs, fl, base_mask(false), cs.len() as int), pair_nets(items, cs, fl, base_mask(true), cs.len() as int)));
    assert(embeds(g, singles(items, cs, fl, base_mask(true), order, order.len() as int), singles(items, cs, fl, base_mask(false), order, order.len() as int)));
}

} // verus!
