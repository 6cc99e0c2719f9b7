//! Layout-independent rules of netlist extraction: how matched instances are
//! reported, how equivalent ports fold into canonical names, and which
//! connectivity groups are accepted. Flattening a netlist is not done here:
//! the `flatten` option is carried for the caller that flattens.
use vstd::prelude::*;
use crate::document::{vmap_insert, vmap_insert_absent};
use crate::netlist::{vkey_index, lemma_vkey_index};
use crate::ordmap::{find_key, key_index, lemma_key_index, map_insert, map_insert_absent};
use crate::json::{JsonMap, JsonValue, copy_map, map_view};
use crate::netlist::{InstanceV, MemberV, NetMember, Netlist, NetlistV, PortArrayRef, PortRef, members_view};
use crate::Error;
use crate::parser::LayerKey;

verus! {

/// Which extracted cells the caller is asked to flatten into their parents;
/// nothing in this library flattens.
#[derive(Debug, PartialEq, Eq, Default)]
pub enum Flatten {
    #[default]
    No,
    All,
    Cells(Vec<String>),
}

/// Why extraction refused: a netlist edit the model refused, an invalid
/// input, something missing, or an empty group of connected layers.
#[derive(Debug, PartialEq, Eq)]
pub enum ExtractError {
    Model(Error),
    Invalid(String),
    Missing(String),
    EmptyConnectivity,
}

/// The text of a refusal.
pub open spec fn extract_error_text(e: ExtractError) -> Seq<char> {
    match e {
        ExtractError::Model(m) => m.0@,
        ExtractError::Invalid(s) => s@,
        ExtractError::Missing(s) => s@,
        ExtractError::EmptyConnectivity => "list index out of range"@,
    }
}

impl ExtractError {
    /// The reason, as text.
    pub fn message(&self) -> (r: String)
        ensures
            r@ == extract_error_text(*self),
    {
        match self {
            ExtractError::Model(m) => m.0.clone(),
            ExtractError::Invalid(s) => s.clone(),
            ExtractError::Missing(s) => s.clone(),
            ExtractError::EmptyConnectivity => {
                let s = "list index out of range".to_owned();
                proof {
                    reveal_strlit("list index out of range");
                }
                s
            },
        }
    }
}

/// Refuse a connectivity with an empty group of layers.
pub fn check_connectivity(groups: &Vec<Vec<LayerKey>>) -> (r: Result<(), ExtractError>)
    ensures
        r is Ok <==> forall|i: int| 0 <= i < groups@.len() ==> (#[trigger] groups@[i])@.len() > 0,
        r is Err ==> r->Err_0 == ExtractError::EmptyConnectivity,
{
    let mut i: usize = 0;
    while i < groups.len()
        invariant
            i <= groups@.len(),
            forall|j: int| 0 <= j < i ==> (#[trigger] groups@[j])@.len() > 0,
        decreases groups@.len() - i,
    {
        if groups[i].len() == 0 {
            return Err(ExtractError::EmptyConnectivity);
        }
        i = i + 1;
    }
    Ok(())
}

/// How a hierarchy is extracted: which port types join optical nets and which
/// mark electrical ports, the layer groups that conduct together, the groups
/// of equivalent ports, which instances are dropped, whether widths may
/// differ and placements are kept, and which cells the caller is to flatten
/// (no function here flattens).
pub struct Options {
    pub port_types: Vec<String>,
    pub mark_port_types: Vec<String>,
    pub connectivity: Vec<Vec<LayerKey>>,
    pub equivalent_ports: Option<Equivalents>,
    pub ignore_unnamed: bool,
    pub exclude_purposes: Vec<String>,
    pub allow_width_mismatch: bool,
    pub include_placement: bool,
    pub flatten: Flatten,
}

impl Default for Options {
    /// Optical ports join nets; electrical, RF and DC ports are marked;
    /// nothing else is set.
    fn default() -> (r: Options)
        ensures
            strings_of(r.port_types@) == seq!["optical"@],
            strings_of(r.mark_port_types@) == seq!["electrical"@, "RF"@, "DC"@],
            r.connectivity@.len() == 0,
            r.equivalent_ports is None,
            !r.ignore_unnamed,
            r.exclude_purposes@.len() == 0,
            !r.allow_width_mismatch,
            !r.include_placement,
            r.flatten is No,
    {
        let r = Options {
            port_types: vec!["optical".to_owned()],
            mark_port_types: vec!["electrical".to_owned(), "RF".to_owned(), "DC".to_owned()],
            connectivity: Vec::new(),
            equivalent_ports: None,
            ignore_unnamed: false,
            exclude_purposes: Vec::new(),
            allow_width_mismatch: false,
            include_placement: false,
            flatten: Flatten::No,
        };
        proof {
            assert(strings_of(r.port_types@) =~= seq!["optical"@]);
            assert(strings_of(r.mark_port_types@) =~= seq!["electrical"@, "RF"@, "DC"@]);
        }
        r
    }
}

/// An instance found at a subcircuit pin, with the name its metadata gives.
#[derive(Debug, PartialEq, Eq)]
pub struct InstanceMatch {
    /// The native handle of the matched instance.
    pub instance: u64,
    pub default_name: String,
}

/// Groups of equivalent ports, per cell or factory name.
pub type Equivalents = Vec<(String, Vec<Vec<String>>)>;

/// Canonical port names, per cell or factory name.
pub type PortMapping = Vec<(String, Vec<(String, String)>)>;

pub open spec fn strings_of(v: Seq<String>) -> Seq<Seq<char>> {
    Seq::new(v.len(), |i: int| v[i]@)
}

pub open spec fn groups_of(v: Seq<Vec<String>>) -> Seq<Seq<Seq<char>>> {
    Seq::new(v.len(), |i: int| strings_of(v[i]@))
}

pub open spec fn equivalents_view(e: Seq<(String, Vec<Vec<String>>)>) -> Seq<(Seq<char>, Seq<Seq<Seq<char>>>)> {
    Seq::new(e.len(), |i: int| (e[i].0@, groups_of(e[i].1@)))
}

pub open spec fn aliases_view(e: Seq<(String, String)>) -> Seq<(Seq<char>, Seq<char>)> {
    Seq::new(e.len(), |i: int| (e[i].0@, e[i].1@))
}

pub open spec fn mapping_view(e: Seq<(String, Vec<(String, String)>)>) -> Seq<(Seq<char>, Seq<(Seq<char>, Seq<char>)>)> {
    Seq::new(e.len(), |i: int| (e[i].0@, aliases_view(e[i].1@)))
}

/// The aliases of `cell`, if it has any.
pub open spec fn aliases_of(m: Seq<(Seq<char>, Seq<(Seq<char>, Seq<char>)>)>, cell: Seq<char>) -> Seq<
    (Seq<char>, Seq<char>),
> {
    match vkey_index(m, cell) {
        Some(i) => m[i].1,
        None => Seq::empty(),
    }
}

/// Record that `port` of `cell` is known by the name `first`.
pub open spec fn with_alias(
    m: Seq<(Seq<char>, Seq<(Seq<char>, Seq<char>)>)>,
    cell: Seq<char>,
    port: Seq<char>,
    first: Seq<char>,
) -> Seq<(Seq<char>, Seq<(Seq<char>, Seq<char>)>)> {
    vmap_insert(m, cell, vmap_insert(aliases_of(m, cell), port, first))
}

/// Every port of a group maps to `first`, in order.
pub open spec fn alias_group(
    m: Seq<(Seq<char>, Seq<(Seq<char>, Seq<char>)>)>,
    cell: Seq<char>,
    ports: Seq<Seq<char>>,
    first: Seq<char>,
) -> Seq<(Seq<char>, Seq<(Seq<char>, Seq<char>)>)>
    decreases ports.len(),
{
    if ports.len() == 0 {
        m
    } else {
        with_alias(alias_group(m, cell, ports.drop_last(), first), cell, ports.last(), first)
    }
}

/// Each non-empty group of a cell maps its ports to its first port.
pub open spec fn alias_groups(
    m: Seq<(Seq<char>, Seq<(Seq<char>, Seq<char>)>)>,
    cell: Seq<char>,
    groups: Seq<Seq<Seq<char>>>,
) -> Seq<(Seq<char>, Seq<(Seq<char>, Seq<char>)>)>
    decreases groups.len(),
{
    if groups.len() == 0 {
        m
    } else {
        let m1 = alias_groups(m, cell, groups.drop_last());
        let g = groups.last();
        if g.len() == 0 {
            m1
        } else {
            alias_group(m1, cell, g, g[0])
        }
    }
}

/// The canonical-name table of all cells' equivalent-port groups.
pub open spec fn port_mapping_spec(e: Seq<(Seq<char>, Seq<Seq<Seq<char>>>)>) -> Seq<
    (Seq<char>, Seq<(Seq<char>, Seq<char>)>),
>
    decreases e.len(),
{
    if e.len() == 0 {
        Seq::empty()
    } else {
        alias_groups(port_mapping_spec(e.drop_last()), e.last().0, e.last().1)
    }
}

fn copy_strings(v: &Vec<String>) -> (r: Vec<String>)
    ensures
        strings_of(r@) == strings_of(v@),
{
    let mut out: Vec<String> = Vec::new();
    let mut i: usize = 0;
    while i < v.len()
        invariant
            i <= v@.len(),
            out@.len() == i,
            forall|j: int| 0 <= j < i ==> #[trigger] out@[j]@ == v@[j]@,
        decreases v@.len() - i,
    {
        out.push(v[i].clone());
        i = i + 1;
    }
    assert(strings_of(out@) =~= strings_of(v@));
    out
}

fn copy_aliases(v: &Vec<(String, String)>) -> (r: Vec<(String, String)>)
    ensures
        aliases_view(r@) == aliases_view(v@),
{
    let mut out: Vec<(String, String)> = Vec::new();
    let mut i: usize = 0;
    while i < v.len()
        invariant
            i <= v@.len(),
            out@.len() == i,
            forall|j: int| 0 <= j < i ==> (#[trigger] out@[j]).0@ == v@[j].0@ && out@[j].1@ == v@[j].1@,
        decreases v@.len() - i,
    {
        out.push((v[i].0.clone(), v[i].1.clone()));
        i = i + 1;
    }
    assert(aliases_view(out@) =~= aliases_view(v@));
    out
}

proof fn lemma_mapping_key_index(e: Seq<(String, Vec<(String, String)>)>, k: Seq<char>)
    ensures
        key_index(e, k) == vkey_index(mapping_view(e), k),
    decreases e.len(),
{
    if e.len() > 0 {
        assert(mapping_view(e.drop_first()) =~= mapping_view(e).drop_first());
        lemma_mapping_key_index(e.drop_first(), k);
    }
}

proof fn lemma_aliases_key_index(e: Seq<(String, String)>, k: Seq<char>)
    ensures
        key_index(e, k) == vkey_index(aliases_view(e), k),
    decreases e.len(),
{
    if e.len() > 0 {
        assert(aliases_view(e.drop_first()) =~= aliases_view(e).drop_first());
        lemma_aliases_key_index(e.drop_first(), k);
    }
}

fn add_alias(m: &mut PortMapping, cell: &String, port: &String, first: &String)
    ensures
        mapping_view(final(m)@) == with_alias(mapping_view(old(m)@), cell@, port@, first@),
{
    proof {
        lemma_mapping_key_index(m@, cell@);
    }
    match find_key(m, cell) {
        Some(i) => {
            let mut inner = copy_aliases(&m[i].1);
            let ghost inner0 = inner@;
            proof {
                lemma_aliases_key_index(inner@, port@);
                lemma_key_index(inner@, port@);
            }
            map_insert(&mut inner, port.clone(), first.clone());
            proof {
                match key_index(inner0, port@) {
                    Some(j) => {
                        assert(aliases_view(inner@) =~= aliases_view(inner0).update(j, (port@, first@)));
                    },
                    None => {
                        assert(aliases_view(inner@) =~= aliases_view(inner0).push((port@, first@)));
                    },
                }
            }
            let ghost before = m@;
            m.set(i, (cell.clone(), inner));
            proof {
                assert(aliases_view(inner@) == vmap_insert(aliases_of(mapping_view(before), cell@), port@, first@)) by {
                    assert(aliases_view(inner@) =~= vmap_insert(aliases_view(before[i as int].1@), port@, first@));
                }
                assert(mapping_view(m@) =~= mapping_view(before).update(
                    i as int,
                    (cell@, vmap_insert(aliases_of(mapping_view(before), cell@), port@, first@)),
                ));
            }
        },
        None => {
            let mut inner: Vec<(String, String)> = Vec::new();
            inner.push((port.clone(), first.clone()));
            let ghost before = m@;
            m.push((cell.clone(), inner));
            proof {
                assert(aliases_view(inner@) =~= seq![(port@, first@)]);
                assert(vmap_insert(Seq::<(Seq<char>, Seq<char>)>::empty(), port@, first@) =~= seq![(port@, first@)]);
                assert(mapping_view(m@) =~= mapping_view(before).push((cell@, aliases_view(inner@))));
            }
        },
    }
}

/// The canonical-name table: in each non-empty group of equivalent ports,
/// every port is known by the group's first port; a later group overrides an
/// earlier one for a port in both.
pub fn port_mapping(equivalents: &Equivalents) -> (r: PortMapping)
    ensures
        mapping_view(r@) == port_mapping_spec(equivalents_view(equivalents@)),
{
    let ghost ev = equivalents_view(equivalents@);
    let mut m: PortMapping = Vec::new();
    let mut c: usize = 0;
    proof {
        assert(mapping_view(m@) =~= Seq::<(Seq<char>, Seq<(Seq<char>, Seq<char>)>)>::empty());
        assert(ev.take(0) =~= Seq::<(Seq<char>, Seq<Seq<Seq<char>>>)>::empty());
    }
    while c < equivalents.len()
        invariant
            c <= equivalents@.len(),
            ev == equivalents_view(equivalents@),
            mapping_view(m@) == port_mapping_spec(ev.take(c as int)),
        decreases equivalents@.len() - c,
    {
        let cell = &equivalents[c].0;
        let groups = &equivalents[c].1;
        let ghost gv = groups_of(groups@);
        let ghost start = mapping_view(m@);
        proof {
            assert(ev.take(c + 1).drop_last() =~= ev.take(c as int));
            assert(ev.take(c + 1).last() == (cell@, gv));
            assert(gv.take(0) =~= Seq::<Seq<Seq<char>>>::empty());
        }
        let mut g: usize = 0;
        while g < groups.len()
            invariant
                g <= groups@.len(),
                gv == groups_of(groups@),
                mapping_view(m@) == alias_groups(start, cell@, gv.take(g as int)),
            decreases groups@.len() - g,
        {
            let ports = &groups[g];
            let ghost pv = strings_of(ports@);
            let ghost mid = mapping_view(m@);
            proof {
                assert(gv.take(g + 1).drop_last() =~= gv.take(g as int));
                assert(gv.take(g + 1).last() == pv);
            }
            if ports.len() > 0 {
                let first = &ports[0];
                let mut p: usize = 0;
                proof {
                    assert(pv.take(0) =~= Seq::<Seq<char>>::empty());
                }
                while p < ports.len()
                    invariant
                        p <= ports@.len(),
                        ports@.len() > 0,
                        first@ == pv[0],
                        pv == strings_of(ports@),
                        mapping_view(m@) == alias_group(mid, cell@, pv.take(p as int), first@),
                    decreases ports@.len() - p,
                {
                    proof {
                        assert(pv.take(p + 1).drop_last() =~= pv.take(p as int));
                        assert(pv.take(p + 1).last() == ports@[p as int]@);
                    }
                    add_alias(&mut m, cell, &ports[p], first);
                    p = p + 1;
                }
                proof {
                    assert(pv.take(p as int) =~= pv);
                }
            } else {
                proof {
                    assert(pv.len() == 0);
                }
            }
            g = g + 1;
        }
        proof {
            assert(gv.take(g as int) =~= gv);
        }
        c = c + 1;
    }
    proof {
        assert(ev.take(c as int) =~= ev);
    }
    m
}

/// The equivalent-port groups declared by the cells themselves, by cell name.
pub open spec fn cell_equivalents_spec(cells: Seq<(Seq<char>, Option<Seq<Seq<Seq<char>>>>)>) -> Seq<
    (Seq<char>, Seq<Seq<Seq<char>>>),
>
    decreases cells.len(),
{
    if cells.len() == 0 {
        Seq::empty()
    } else {
        let acc = cell_equivalents_spec(cells.drop_last());
        match cells.last().1 {
            Some(g) => vmap_insert(acc, cells.last().0, g),
            None => acc,
        }
    }
}

pub open spec fn declared_view(e: Seq<(String, Option<Vec<Vec<String>>>)>) -> Seq<
    (Seq<char>, Option<Seq<Seq<Seq<char>>>>),
> {
    Seq::new(
        e.len(),
        |i: int|
            (
                e[i].0@,
                match e[i].1 {
                    Some(g) => Some(groups_of(g@)),
                    None => None,
                },
            ),
    )
}

fn copy_groups(v: &Vec<Vec<String>>) -> (r: Vec<Vec<String>>)
    ensures
        groups_of(r@) == groups_of(v@),
{
    let mut out: Vec<Vec<String>> = Vec::new();
    let mut i: usize = 0;
    while i < v.len()
        invariant
            i <= v@.len(),
            out@.len() == i,
            forall|j: int| 0 <= j < i ==> strings_of(#[trigger] out@[j]@) == strings_of(v@[j]@),
        decreases v@.len() - i,
    {
        out.push(copy_strings(&v[i]));
        i = i + 1;
    }
    assert(groups_of(out@) =~= groups_of(v@));
    out
}

proof fn lemma_equivalents_key_index(e: Seq<(String, Vec<Vec<String>>)>, k: Seq<char>)
    ensures
        key_index(e, k) == vkey_index(equivalents_view(e), k),
    decreases e.len(),
{
    if e.len() > 0 {
        assert(equivalents_view(e.drop_first()) =~= equivalents_view(e).drop_first());
        lemma_equivalents_key_index(e.drop_first(), k);
    }
}

/// The groups the cells declare, for use when the caller gives none: each
/// declaring cell in order, a repeated name keeping its first place and its
/// last groups.
pub fn cell_equivalents(cells: &Vec<(String, Option<Vec<Vec<String>>>)>) -> (r: Equivalents)
    ensures
        equivalents_view(r@) == cell_equivalents_spec(declared_view(cells@)),
{
    let ghost dv = declared_view(cells@);
    let mut out: Equivalents = Vec::new();
    let mut i: usize = 0;
    proof {
        assert(dv.take(0) =~= Seq::<(Seq<char>, Option<Seq<Seq<Seq<char>>>>)>::empty());
        assert(equivalents_view(out@) =~= Seq::<(Seq<char>, Seq<Seq<Seq<char>>>)>::empty());
    }
    while i < cells.len()
        invariant
            i <= cells@.len(),
            dv == declared_view(cells@),
            equivalents_view(out@) == cell_equivalents_spec(dv.take(i as int)),
        decreases cells@.len() - i,
    {
        proof {
            assert(dv.take(i + 1).drop_last() =~= dv.take(i as int));
            assert(dv.take(i + 1).last() == dv[i as int]);
        }
        match &cells[i].1 {
            Some(groups) => {
                let g = copy_groups(groups);
                let ghost before = out@;
                proof {
                    lemma_equivalents_key_index(out@, cells@[i as int].0@);
                    lemma_key_index(out@, cells@[i as int].0@);
                }
                map_insert(&mut out, cells[i].0.clone(), g);
                proof {
                    match key_index(before, cells@[i as int].0@) {
                        Some(j) => {
                            assert(equivalents_view(out@) =~= equivalents_view(before).update(
                                j,
                                (cells@[i as int].0@, groups_of(g@)),
                            ));
                        },
                        None => {
                            assert(equivalents_view(out@) =~= equivalents_view(before).push(
                                (cells@[i as int].0@, groups_of(g@)),
                            ));
                        },
                    }
                }
            },
            None => {},
        }
        i = i + 1;
    }
    proof {
        assert(dv.take(i as int) =~= dv);
    }
    out
}

/// The name a port is known by under `aliases`.
pub open spec fn canonical(aliases: Seq<(Seq<char>, Seq<char>)>, name: Seq<char>) -> Seq<char> {
    match vkey_index(aliases, name) {
        Some(i) => aliases[i].1,
        None => name,
    }
}

/// The aliases that apply to a marker cell: its own, else its factory's.
pub open spec fn marker_aliases(
    m: Seq<(Seq<char>, Seq<(Seq<char>, Seq<char>)>)>,
    cell: Seq<char>,
    factory: Option<Seq<char>>,
) -> Seq<(Seq<char>, Seq<char>)> {
    match vkey_index(m, cell) {
        Some(i) => m[i].1,
        None => match factory {
            Some(f) => aliases_of(m, f),
            None => Seq::empty(),
        },
    }
}

/// The aliases used for a marker cell are the cell's own entry of the
/// mapping whenever the mapping has one (its first); the factory's entry is
/// used only when the cell has none, and no aliases when neither has one.
pub proof fn lemma_marker_aliases_choice(
    m: Seq<(Seq<char>, Seq<(Seq<char>, Seq<char>)>)>,
    cell: Seq<char>,
    factory: Option<Seq<char>>,
)
    ensures
        forall|i: int|
            0 <= i < m.len() && #[trigger] m[i].0 == cell && (forall|j: int| 0 <= j < i ==> m[j].0 != cell)
                ==> marker_aliases(m, cell, factory) == m[i].1,
        (forall|i: int| 0 <= i < m.len() ==> #[trigger] m[i].0 != cell) ==> match factory {
            Some(f) => (forall|i: int|
                0 <= i < m.len() && #[trigger] m[i].0 == f && (forall|j: int| 0 <= j < i ==> m[j].0 != f)
                    ==> marker_aliases(m, cell, factory) == m[i].1) && ((forall|i: int|
                0 <= i < m.len() ==> #[trigger] m[i].0 != f) ==> marker_aliases(m, cell, factory) == Seq::<
                (Seq<char>, Seq<char>),
            >::empty()),
            None => marker_aliases(m, cell, factory) == Seq::<(Seq<char>, Seq<char>)>::empty(),
        },
{
    lemma_vkey_index(m, cell);
    assert forall|i: int|
        0 <= i < m.len() && #[trigger] m[i].0 == cell && (forall|j: int| 0 <= j < i ==> m[j].0 != cell) implies marker_aliases(
        m,
        cell,
        factory,
    ) == m[i].1 by {
        let x = vkey_index(m, cell)->0;
        if x < i {
            assert(m[x].0 != cell);
        }
    }
    match factory {
        Some(f) => {
            lemma_vkey_index(m, f);
            assert forall|i: int|
                0 <= i < m.len() && #[trigger] m[i].0 == f && (forall|j: int| 0 <= j < i ==> m[j].0 != f) && (forall|
                    i2: int,
                | 0 <= i2 < m.len() ==> #[trigger] m[i2].0 != cell) implies marker_aliases(m, cell, factory) == m[i].1 by {
                let x = vkey_index(m, f)->0;
                if x < i {
                    assert(m[x].0 != f);
                }
            }
        },
        None => {},
    }
}

/// For each canonical name, the first marked port that carries it.
pub open spec fn preferred_ports(
    ports: Seq<(Seq<char>, Seq<char>)>,
    marks: Seq<Seq<char>>,
    aliases: Seq<(Seq<char>, Seq<char>)>,
) -> Seq<(Seq<char>, Seq<char>)>
    decreases ports.len(),
{
    if ports.len() == 0 {
        Seq::empty()
    } else {
        let acc = preferred_ports(ports.drop_last(), marks, aliases);
        let (name, kind) = ports.last();
        if marks.contains(kind) {
            vmap_insert_absent(acc, canonical(aliases, name), name)
        } else {
            acc
        }
    }
}

/// Whether the port at `i` labels its net: it is the preferred port of its
/// canonical name (by name).
pub open spec fn labels_net(
    ports: Seq<(Seq<char>, Seq<char>)>,
    marks: Seq<Seq<char>>,
    aliases: Seq<(Seq<char>, Seq<char>)>,
    i: int,
) -> bool {
    let pref = preferred_ports(ports, marks, aliases);
    match vkey_index(pref, canonical(aliases, ports[i].0)) {
        Some(k) => pref[k].1 == ports[i].0,
        None => false,
    }
}

/// The labels written into a marker cell, in port order: the port's index and
/// its canonical name.
pub open spec fn marker_labels_spec(
    ports: Seq<(Seq<char>, Seq<char>)>,
    marks: Seq<Seq<char>>,
    aliases: Seq<(Seq<char>, Seq<char>)>,
    n: int,
) -> Seq<(int, Seq<char>)>
    decreases n,
{
    if n <= 0 {
        Seq::empty()
    } else {
        let acc = marker_labels_spec(ports, marks, aliases, n - 1);
        if labels_net(ports, marks, aliases, n - 1) {
            acc.push((n - 1, canonical(aliases, ports[n - 1].0)))
        } else {
            acc
        }
    }
}

/// A port's canonical name: the value of the first alias entry for its name,
/// or the name itself where there is none.
pub proof fn lemma_canonical_name(aliases: Seq<(Seq<char>, Seq<char>)>, name: Seq<char>)
    ensures
        forall|a: int|
            0 <= a < aliases.len() && #[trigger] aliases[a].0 == name && (forall|b: int| 0 <= b < a ==> aliases[b].0 != name)
                ==> canonical(aliases, name) == aliases[a].1,
        (forall|a: int| 0 <= a < aliases.len() ==> #[trigger] aliases[a].0 != name) ==> canonical(aliases, name) == name,
{
    lemma_vkey_index(aliases, name);
    assert forall|a: int|
        0 <= a < aliases.len() && #[trigger] aliases[a].0 == name && (forall|b: int| 0 <= b < a ==> aliases[b].0 != name)
            implies canonical(aliases, name) == aliases[a].1 by {
        let x = vkey_index(aliases, name)->0;
        if x < a {
            assert(aliases[x].0 != name);
        }
    }
}

/// Port `j` is marked and carries canonical name `c`.
pub open spec fn marked_with(
    ports: Seq<(Seq<char>, Seq<char>)>,
    marks: Seq<Seq<char>>,
    aliases: Seq<(Seq<char>, Seq<char>)>,
    j: int,
    c: Seq<char>,
) -> bool {
    marks.contains(ports[j].1) && canonical(aliases, ports[j].0) == c
}

proof fn lemma_vkey_index_push<V>(e: Seq<(Seq<char>, V)>, x: (Seq<char>, V), k: Seq<char>)
    ensures
        vkey_index(e.push(x), k) == match vkey_index(e, k) {
            Some(i) => Some(i),
            None => if x.0 == k {
                Some(e.len() as int)
            } else {
                None::<int>
            },
        },
{
    lemma_vkey_index(e, k);
    lemma_vkey_index(e.push(x), k);
    let p = e.push(x);
    match vkey_index(e, k) {
        Some(i) => {
            assert(p[i] == e[i]);
            let y = vkey_index(p, k)->0;
            if y < i {
                assert(p[y] == e[y]);
            }
        },
        None => {
            if vkey_index(p, k) is Some {
                let y = vkey_index(p, k)->0;
                if y < e.len() {
                    assert(p[y] == e[y]);
                }
            }
            if x.0 == k {
                assert(p[e.len() as int] == x);
            }
        },
    }
}

/// The preferred ports: a canonical name is present exactly when some marked
/// port carries it, and then it holds the name of the first such port.
proof fn lemma_preferred_ports(
    ports: Seq<(Seq<char>, Seq<char>)>,
    marks: Seq<Seq<char>>,
    aliases: Seq<(Seq<char>, Seq<char>)>,
)
    ensures
        forall|c: Seq<char>|
            #[trigger] vkey_index(preferred_ports(ports, marks, aliases), c) is Some <==> exists|j: int|
                0 <= j < ports.len() && #[trigger] marked_with(ports, marks, aliases, j, c),
        forall|c: Seq<char>, f: int|
            0 <= f < ports.len() && #[trigger] marked_with(ports, marks, aliases, f, c) && (forall|g: int|
                0 <= g < f ==> !marked_with(ports, marks, aliases, g, c)) ==> {
                let pref = preferred_ports(ports, marks, aliases);
                vkey_index(pref, c) is Some && pref[vkey_index(pref, c)->0].1 == ports[f].0
            },
    decreases ports.len(),
{
    if ports.len() > 0 {
        let d = ports.drop_last();
        let last = ports.last();
        let n = ports.len() - 1;
        lemma_preferred_ports(d, marks, aliases);
        let pd = preferred_ports(d, marks, aliases);
        let pref = preferred_ports(ports, marks, aliases);
        let lc = canonical(aliases, last.0);
        let m = marks.contains(last.1);
        assert(ports[n] == last);
        assert(pref == if m {
            vmap_insert_absent(pd, lc, last.0)
        } else {
            pd
        });
        assert forall|c: Seq<char>| #[trigger] vkey_index(pref, c) == match vkey_index(pd, c) {
            Some(i) => Some(i),
            None => if m && lc == c {
                Some(pd.len() as int)
            } else {
                None::<int>
            },
        } by {
            if m {
                lemma_vkey_index_push(pd, (lc, last.0), c);
                lemma_vkey_index_push(pd, (lc, last.0), lc);
            }
        }
        assert forall|c: Seq<char>|
            #[trigger] vkey_index(pref, c) is Some <==> exists|j: int|
                0 <= j < ports.len() && #[trigger] marked_with(ports, marks, aliases, j, c) by {
            if vkey_index(pd, c) is Some {
                let j = choose|j: int| 0 <= j < d.len() && #[trigger] marked_with(d, marks, aliases, j, c);
                assert(d[j] == ports[j]);
                assert(marked_with(ports, marks, aliases, j, c));
            } else if m && lc == c {
                assert(marked_with(ports, marks, aliases, n, c));
            } else {
                assert forall|j: int| 0 <= j < ports.len() implies !#[trigger] marked_with(ports, marks, aliases, j, c) by {
                    if j < n {
                        assert(d[j] == ports[j]);
                        if marked_with(ports, marks, aliases, j, c) {
                            assert(marked_with(d, marks, aliases, j, c));
                        }
                    }
                }
            }
        }
        assert forall|c: Seq<char>, f: int|
            0 <= f < ports.len() && #[trigger] marked_with(ports, marks, aliases, f, c) && (forall|g: int|
                0 <= g < f ==> !marked_with(ports, marks, aliases, g, c)) implies vkey_index(pref, c) is Some
            && pref[vkey_index(pref, c)->0].1 == ports[f].0 by {
            if f < n {
                assert(d[f] == ports[f]);
                assert(marked_with(d, marks, aliases, f, c));
                assert forall|g: int| 0 <= g < f implies !marked_with(d, marks, aliases, g, c) by {
                    assert(d[g] == ports[g]);
                    assert(!marked_with(ports, marks, aliases, g, c));
                }
                let i = vkey_index(pd, c)->0;
                lemma_vkey_index(pd, c);
                if m && vkey_index(pd, lc) is None {
                    assert(pref == pd.push((lc, last.0)));
                    assert(pref[i] == pd[i]);
                } else {
                    assert(pref == pd);
                }
            } else {
                if vkey_index(pd, c) is Some {
                    let j = choose|j: int| 0 <= j < d.len() && #[trigger] marked_with(d, marks, aliases, j, c);
                    assert(d[j] == ports[j]);
                    assert(marked_with(ports, marks, aliases, j, c));
                    assert(false);
                }
                assert(pref == pd.push((lc, last.0)));
                assert(pref[pd.len() as int] == (lc, last.0));
            }
        }
    }
}

/// A predicate that holds somewhere below `n` holds first somewhere.
proof fn lemma_first_marked(
    ports: Seq<(Seq<char>, Seq<char>)>,
    marks: Seq<Seq<char>>,
    aliases: Seq<(Seq<char>, Seq<char>)>,
    c: Seq<char>,
    j: int,
) -> (f: int)
    requires
        0 <= j < ports.len(),
        marked_with(ports, marks, aliases, j, c),
    ensures
        0 <= f <= j,
        marked_with(ports, marks, aliases, f, c),
        forall|g: int| 0 <= g < f ==> !marked_with(ports, marks, aliases, g, c),
    decreases j,
{
    if exists|g: int| 0 <= g < j && marked_with(ports, marks, aliases, g, c) {
        let g = choose|g: int| 0 <= g < j && marked_with(ports, marks, aliases, g, c);
        lemma_first_marked(ports, marks, aliases, c, g)
    } else {
        j
    }
}

/// Port `f` is the first marked port that carries canonical name `c`.
pub open spec fn first_marked(
    ports: Seq<(Seq<char>, Seq<char>)>,
    marks: Seq<Seq<char>>,
    aliases: Seq<(Seq<char>, Seq<char>)>,
    f: int,
    c: Seq<char>,
) -> bool {
    &&& 0 <= f < ports.len()
    &&& marked_with(ports, marks, aliases, f, c)
    &&& forall|g: int| 0 <= g < f ==> !marked_with(ports, marks, aliases, g, c)
}

proof fn lemma_labels_net_first(
    ports: Seq<(Seq<char>, Seq<char>)>,
    marks: Seq<Seq<char>>,
    aliases: Seq<(Seq<char>, Seq<char>)>,
    i: int,
)
    requires
        0 <= i < ports.len(),
    ensures
        labels_net(ports, marks, aliases, i) <==> exists|f: int|
            #[trigger] first_marked(ports, marks, aliases, f, canonical(aliases, ports[i].0)) && ports[f].0 == ports[i].0,
{
    lemma_preferred_ports(ports, marks, aliases);
    let pref = preferred_ports(ports, marks, aliases);
    let c = canonical(aliases, ports[i].0);
    if exists|f: int| #[trigger] first_marked(ports, marks, aliases, f, c) && ports[f].0 == ports[i].0 {
        let f = choose|f: int| #[trigger] first_marked(ports, marks, aliases, f, c) && ports[f].0 == ports[i].0;
        assert(marked_with(ports, marks, aliases, f, c));
    } else if labels_net(ports, marks, aliases, i) {
        let k = vkey_index(pref, c)->0;
        let j = choose|j: int| 0 <= j < ports.len() && #[trigger] marked_with(ports, marks, aliases, j, c);
        let f = lemma_first_marked(ports, marks, aliases, c, j);
        assert(pref[k].1 == ports[f].0);
        assert(first_marked(ports, marks, aliases, f, c));
        assert(false);
    }
}

/// The labels of a marker cell, over all inputs: port `i` is labelled, once
/// and in port order, with its canonical name `c`, exactly when the first
/// marked port that carries `c` has the same name as port `i`.
pub proof fn lemma_marker_labels_exact(
    ports: Seq<(Seq<char>, Seq<char>)>,
    marks: Seq<Seq<char>>,
    aliases: Seq<(Seq<char>, Seq<char>)>,
)
    ensures
        forall|i: int| 0 <= i < ports.len() ==> (marker_labels_spec(ports, marks, aliases, ports.len() as int).contains(
            (i, canonical(aliases, #[trigger] ports[i].0)),
        ) <==> exists|f: int|
            #[trigger] first_marked(ports, marks, aliases, f, canonical(aliases, ports[i].0)) && ports[f].0 == ports[i].0),
        forall|q: int| 0 <= q < marker_labels_spec(ports, marks, aliases, ports.len() as int).len() ==> {
            let e = #[trigger] marker_labels_spec(ports, marks, aliases, ports.len() as int)[q];
            0 <= e.0 < ports.len() && e.1 == canonical(aliases, ports[e.0].0)
        },
        forall|p: int, q: int| 0 <= p < q < marker_labels_spec(ports, marks, aliases, ports.len() as int).len() ==>
            (#[trigger] marker_labels_spec(ports, marks, aliases, ports.len() as int)[p]).0
            < (#[trigger] marker_labels_spec(ports, marks, aliases, ports.len() as int)[q]).0,
{
    lemma_labels_upto(ports, marks, aliases, ports.len() as int);
    let l = marker_labels_spec(ports, marks, aliases, ports.len() as int);
    assert forall|i: int| 0 <= i < ports.len() implies (l.contains((i, canonical(aliases, #[trigger] ports[i].0)))
        <==> exists|f: int|
        #[trigger] first_marked(ports, marks, aliases, f, canonical(aliases, ports[i].0)) && ports[f].0 == ports[i].0) by {
        lemma_labels_net_first(ports, marks, aliases, i);
    }
}

proof fn lemma_labels_upto(
    ports: Seq<(Seq<char>, Seq<char>)>,
    marks: Seq<Seq<char>>,
    aliases: Seq<(Seq<char>, Seq<char>)>,
    n: int,
)
    requires
        0 <= n <= ports.len(),
    ensures
        forall|i: int| 0 <= i < n ==> (marker_labels_spec(ports, marks, aliases, n).contains(
            (i, canonical(aliases, #[trigger] ports[i].0)),
        ) <==> labels_net(ports, marks, aliases, i)),
        forall|q: int| 0 <= q < marker_labels_spec(ports, marks, aliases, n).len() ==> {
            let e = #[trigger] marker_labels_spec(ports, marks, aliases, n)[q];
            0 <= e.0 < n && e.1 == canonical(aliases, ports[e.0].0)
        },
        forall|p: int, q: int| 0 <= p < q < marker_labels_spec(ports, marks, aliases, n).len() ==>
            (#[trigger] marker_labels_spec(ports, marks, aliases, n)[p]).0
            < (#[trigger] marker_labels_spec(ports, marks, aliases, n)[q]).0,
    decreases n,
{
    if n > 0 {
        lemma_labels_upto(ports, marks, aliases, n - 1);
        let a = marker_labels_spec(ports, marks, aliases, n - 1);
        let cur = marker_labels_spec(ports, marks, aliases, n);
        let x = (n - 1, canonical(aliases, ports[n - 1].0));
        assert forall|q: int| 0 <= q < cur.len() implies {
            let e = #[trigger] cur[q];
            0 <= e.0 < n && e.1 == canonical(aliases, ports[e.0].0)
        } by {
            if q < a.len() {
                assert(cur[q] == a[q]);
            } else {
                assert(cur[q] == x);
            }
        }
        assert forall|p: int, q: int| 0 <= p < q < cur.len() implies (#[trigger] cur[p]).0 < (#[trigger] cur[q]).0 by {
            assert(cur[p] == a[p]);
            if q < a.len() {
                assert(cur[q] == a[q]);
            } else {
                assert(cur[q] == x);
            }
        }
        assert forall|i: int| 0 <= i < n implies (cur.contains((i, canonical(aliases, #[trigger] ports[i].0)))
            <==> labels_net(ports, marks, aliases, i)) by {
            let y = (i, canonical(aliases, ports[i].0));
            if cur.contains(y) {
                let q = choose|q: int| 0 <= q < cur.len() && cur[q] == y;
                if q < a.len() {
                    assert(cur[q] == a[q]);
                    assert(a.contains(y));
                } else {
                    assert(cur[q] == x);
                }
            }
            if labels_net(ports, marks, aliases, i) {
                if i < n - 1 {
                    let q = choose|q: int| 0 <= q < a.len() && a[q] == y;
                    assert(cur[q] == a[q]);
                } else {
                    assert(cur[a.len() as int] == x);
                }
            }
        }
    }
}

pub fn contains_string(v: &Vec<String>, s: &String) -> (r: bool)
    ensures
        r == strings_of(v@).contains(s@),
{
    let mut i: usize = 0;
    while i < v.len()
        invariant
            i <= v@.len(),
            forall|j: int| 0 <= j < i ==> v@[j]@ != s@,
        decreases v@.len() - i,
    {
        if v[i] == *s {
            proof {
                assert(strings_of(v@)[i as int] == s@);
            }
            return true;
        }
        i = i + 1;
    }
    proof {
        if strings_of(v@).contains(s@) {
            let j = choose|j: int| 0 <= j < strings_of(v@).len() && strings_of(v@)[j] == s@;
            assert(v@[j]@ == s@);
        }
    }
    false
}

fn canonical_of(aliases: &Vec<(String, String)>, name: &String) -> (r: String)
    ensures
        r@ == canonical(aliases_view(aliases@), name@),
{
    proof {
        lemma_aliases_key_index(aliases@, name@);
    }
    match find_key(aliases, name) {
        Some(i) => aliases[i].1.clone(),
        None => name.clone(),
    }
}

/// The labels that mark a cell's ports for electrical extraction: each port
/// whose name is the first marked port of its canonical name is labelled with
/// that canonical name. The aliases are the cell's own, else its factory's.
pub fn marker_labels(
    cell: &String,
    factory: &Option<String>,
    ports: &Vec<(String, String)>,
    mark_types: &Vec<String>,
    mappings: &PortMapping,
) -> (r: Vec<(usize, String)>)
    ensures
        r@.len() == marker_labels_spec(
            aliases_view(ports@),
            strings_of(mark_types@),
            marker_aliases(
                mapping_view(mappings@),
                cell@,
                match factory {
                    Some(f) => Some(f@),
                    None => None,
                },
            ),
            ports@.len() as int,
        ).len(),
        forall|i: int|
            0 <= i < r@.len() ==> (#[trigger] r@[i]).0 as int == marker_labels_spec(
                aliases_view(ports@),
                strings_of(mark_types@),
                marker_aliases(
                    mapping_view(mappings@),
                    cell@,
                    match factory {
                        Some(f) => Some(f@),
                        None => None,
                    },
                ),
                ports@.len() as int,
            )[i].0 && r@[i].1@ == marker_labels_spec(
                aliases_view(ports@),
                strings_of(mark_types@),
                marker_aliases(
                    mapping_view(mappings@),
                    cell@,
                    match factory {
                        Some(f) => Some(f@),
                        None => None,
                    },
                ),
                ports@.len() as int,
            )[i].1,
{
    let ghost fv = match factory {
        Some(f) => Some(f@),
        None => None::<Seq<char>>,
    };
    let ghost pv = aliases_view(ports@);
    let ghost marks = strings_of(mark_types@);
    proof {
        lemma_mapping_key_index(mappings@, cell@);
    }
    let empty: Vec<(String, String)> = Vec::new();
    let aliases: &Vec<(String, String)> = match find_key(mappings, cell) {
        Some(i) => &mappings[i].1,
        None => match factory {
            Some(f) => {
                proof {
                    lemma_mapping_key_index(mappings@, f@);
                }
                match find_key(mappings, f) {
                    Some(j) => &mappings[j].1,
                    None => &empty,
                }
            },
            None => &empty,
        },
    };
    let ghost av = aliases_view(aliases@);
    assert(av == marker_aliases(mapping_view(mappings@), cell@, fv)) by {
        assert(aliases_view(empty@) =~= Seq::<(Seq<char>, Seq<char>)>::empty());
    }
    let mut preferred: Vec<(String, String)> = Vec::new();
    let mut i: usize = 0;
    proof {
        assert(pv.take(0) =~= Seq::<(Seq<char>, Seq<char>)>::empty());
        assert(aliases_view(preferred@) =~= Seq::<(Seq<char>, Seq<char>)>::empty());
    }
    while i < ports.len()
        invariant
            i <= ports@.len(),
            pv == aliases_view(ports@),
            marks == strings_of(mark_types@),
            av == aliases_view(aliases@),
            aliases_view(preferred@) == preferred_ports(pv.take(i as int), marks, av),
        decreases ports@.len() - i,
    {
        proof {
            assert(pv.take(i + 1).drop_last() =~= pv.take(i as int));
            assert(pv.take(i + 1).last() == pv[i as int]);
        }
        if contains_string(mark_types, &ports[i].1) {
            let c = canonical_of(aliases, &ports[i].0);
            let ghost before = preferred@;
            proof {
                lemma_aliases_key_index(preferred@, c@);
                lemma_key_index(preferred@, c@);
            }
            map_insert_absent(&mut preferred, c, ports[i].0.clone());
            proof {
                if key_index(before, c@) is None {
                    assert(aliases_view(preferred@) =~= aliases_view(before).push((c@, ports@[i as int].0@)));
                }
            }
        }
        i = i + 1;
    }
    proof {
        assert(pv.take(i as int) =~= pv);
    }
    let ghost pref = aliases_view(preferred@);
    let mut out: Vec<(usize, String)> = Vec::new();
    let mut k: usize = 0;
    while k < ports.len()
        invariant
            k <= ports@.len(),
            pv == aliases_view(ports@),
            av == aliases_view(aliases@),
            pref == aliases_view(preferred@),
            pref == preferred_ports(pv, marks, av),
            out@.len() == marker_labels_spec(pv, marks, av, k as int).len(),
            forall|j: int|
                0 <= j < out@.len() ==> (#[trigger] out@[j]).0 as int == marker_labels_spec(pv, marks, av, k as int)[j].0
                    && out@[j].1@ == marker_labels_spec(pv, marks, av, k as int)[j].1,
        decreases ports@.len() - k,
    {
        let c = canonical_of(aliases, &ports[k].0);
        proof {
            lemma_aliases_key_index(preferred@, c@);
        }
        let labelled = match find_key(&preferred, &c) {
            Some(j) => preferred[j].1 == ports[k].0,
            None => false,
        };
        proof {
            assert(labelled == labels_net(pv, marks, av, k as int));
        }
        if labelled {
            out.push((k, c));
        }
        k = k + 1;
    }
    out
}

/// An instance of a cell as the caller describes it: its native handle, its
/// name and cell, what the netlist records of it, and whether it is named and
/// for what purpose it was placed.
pub struct InstanceInput {
    pub native: u64,
    pub name: String,
    pub cell: String,
    pub component: String,
    pub kcl: String,
    pub settings: JsonValue,
    pub info: JsonMap,
    pub named: bool,
    pub purpose: Option<String>,
    pub na: i64,
    pub nb: i64,
}

pub open spec fn input_instance(i: InstanceInput) -> InstanceV {
    InstanceV {
        kcl: i.kcl@,
        component: i.component@,
        settings: i.settings@,
        array: None,
        info: map_view(i.info@),
    }
}

/// Placing the instances in order.
pub open spec fn place_inputs(nl: NetlistV, xs: Seq<InstanceInput>) -> Result<NetlistV, Seq<char>>
    decreases xs.len(),
{
    if xs.len() == 0 {
        Ok(nl)
    } else {
        match nl.with_instance(xs[0].name@, input_instance(xs[0]), xs[0].na, xs[0].nb) {
            Err(e) => Err(e),
            Ok(n) => place_inputs(n, xs.drop_first()),
        }
    }
}

/// Declaring the pins in order.
pub open spec fn declare_names(nl: NetlistV, ps: Seq<Seq<char>>) -> NetlistV
    decreases ps.len(),
{
    if ps.len() == 0 {
        nl
    } else {
        declare_names(nl.with_port(ps[0]), ps.drop_first())
    }
}

/// Connecting the nets in order.
pub open spec fn connect_nets(nl: NetlistV, nets: Seq<Seq<MemberV>>) -> Result<NetlistV, Seq<char>>
    decreases nets.len(),
{
    if nets.len() == 0 {
        Ok(nl)
    } else {
        match nl.with_net(nets[0]) {
            Err(e) => Err(e),
            Ok(n) => connect_nets(n, nets.drop_first()),
        }
    }
}

/// A cell's netlist before its extracted nets: its instances, its pins, and
/// the nets its optical ports form.
pub open spec fn cell_netlist_spec(
    insts: Seq<InstanceInput>,
    ports: Seq<Seq<char>>,
    nets: Seq<Seq<MemberV>>,
) -> Result<NetlistV, Seq<char>> {
    match place_inputs(NetlistV::empty(), insts) {
        Err(e) => Err(e),
        Ok(n) => connect_nets(declare_names(n, ports), nets),
    }
}

pub open spec fn member_lists(v: Seq<Vec<NetMember>>) -> Seq<Seq<MemberV>> {
    Seq::new(v.len(), |i: int| members_view(v[i]@))
}

fn copy_members(ms: &Vec<NetMember>) -> (r: Vec<NetMember>)
    ensures
        members_view(r@) == members_view(ms@),
{
    let mut out: Vec<NetMember> = Vec::new();
    let mut i: usize = 0;
    while i < ms.len()
        invariant
            i <= ms@.len(),
            out@.len() == i,
            forall|j: int| 0 <= j < i ==> (#[trigger] out@[j])@ == ms@[j]@,
        decreases ms@.len() - i,
    {
        out.push(ms[i].duplicate());
        i = i + 1;
    }
    assert(members_view(out@) =~= members_view(ms@));
    out
}

/// The netlist of a cell before extraction: its instances placed in order,
/// then its pins declared, then the nets of its optical ports connected.
pub fn cell_netlist(
    instances: &Vec<InstanceInput>,
    ports: &Vec<String>,
    optical: &Vec<Vec<NetMember>>,
) -> (r: Result<Netlist, ExtractError>)
    ensures
        match cell_netlist_spec(instances@, strings_of(ports@), member_lists(optical@)) {
            Ok(n) => r is Ok && r->Ok_0@ == n,
            Err(e) => r is Err && r->Err_0 is Model && r->Err_0->Model_0.0@ == e,
        },
{
    let mut nl = Netlist::new();
    let mut i: usize = 0;
    proof {
        assert(instances@.skip(0) =~= instances@);
    }
    while i < instances.len()
        invariant
            i <= instances@.len(),
            place_inputs(NetlistV::empty(), instances@) == place_inputs(nl@, instances@.skip(i as int)),
        decreases instances@.len() - i,
    {
        let x = &instances[i];
        proof {
            assert(instances@.skip(i as int).drop_first() =~= instances@.skip(i + 1));
            assert(instances@.skip(i as int)[0] == instances@[i as int]);
        }
        let settings = x.settings.duplicate();
        let info = copy_map(&x.info);
        let placed = nl.create_inst_with_info(
            x.name.clone(),
            x.kcl.clone(),
            x.component.clone(),
            settings,
            x.na,
            x.nb,
            info,
        );
        match placed {
            Err(e) => {
                return Err(ExtractError::Model(e));
            },
            Ok(()) => {},
        }
        i = i + 1;
    }
    let ghost placed = nl@;
    proof {
        assert(instances@.skip(i as int) =~= Seq::<InstanceInput>::empty());
    }
    let ghost pv = strings_of(ports@);
    let mut k: usize = 0;
    proof {
        assert(pv.skip(0) =~= pv);
    }
    while k < ports.len()
        invariant
            k <= ports@.len(),
            pv == strings_of(ports@),
            place_inputs(NetlistV::empty(), instances@) == Ok::<NetlistV, Seq<char>>(placed),
            declare_names(placed, pv) == declare_names(nl@, pv.skip(k as int)),
        decreases ports@.len() - k,
    {
        proof {
            assert(pv.skip(k as int).drop_first() =~= pv.skip(k + 1));
            assert(pv.skip(k as int)[0] == ports@[k as int]@);
        }
        nl.create_port(ports[k].clone());
        k = k + 1;
    }
    proof {
        assert(pv.skip(k as int) =~= Seq::<Seq<char>>::empty());
    }
    let ghost nv = member_lists(optical@);
    let mut n: usize = 0;
    proof {
        assert(nv.skip(0) =~= nv);
    }
    while n < optical.len()
        invariant
            n <= optical@.len(),
            nv == member_lists(optical@),
            pv == strings_of(ports@),
            place_inputs(NetlistV::empty(), instances@) == Ok::<NetlistV, Seq<char>>(placed),
            connect_nets(declare_names(placed, pv), nv) == connect_nets(nl@, nv.skip(n as int)),
        decreases optical@.len() - n,
    {
        proof {
            assert(nv.skip(n as int).drop_first() =~= nv.skip(n + 1));
            assert(nv.skip(n as int)[0] == members_view(optical@[n as int]@));
        }
        let members = copy_members(&optical[n]);
        match nl.create_net(members) {
            Err(e) => {
                return Err(ExtractError::Model(e));
            },
            Ok(()) => {},
        }
        n = n + 1;
    }
    proof {
        assert(nv.skip(n as int) =~= Seq::<Seq<MemberV>>::empty());
    }
    Ok(nl)
}

/// Whether extraction drops an instance: unnamed ones when asked to, and
/// those placed for an excluded purpose.
pub open spec fn is_removed(x: InstanceInput, ignore_unnamed: bool, excluded: Seq<Seq<char>>) -> bool {
    (ignore_unnamed && !x.named) || match x.purpose {
        Some(p) => excluded.contains(p@),
        None => false,
    }
}

pub open spec fn removed_spec(xs: Seq<InstanceInput>, ignore_unnamed: bool, excluded: Seq<Seq<char>>) -> Seq<
    Seq<char>,
>
    decreases xs.len(),
{
    if xs.len() == 0 {
        Seq::empty()
    } else {
        let acc = removed_spec(xs.drop_last(), ignore_unnamed, excluded);
        if is_removed(xs.last(), ignore_unnamed, excluded) {
            acc.push(xs.last().name@)
        } else {
            acc
        }
    }
}

/// The names of the instances extraction drops, in instance order.
pub fn removed_instances(
    instances: &Vec<InstanceInput>,
    ignore_unnamed: bool,
    exclude_purposes: &Vec<String>,
) -> (r: Vec<String>)
    ensures
        strings_of(r@) == removed_spec(instances@, ignore_unnamed, strings_of(exclude_purposes@)),
{
    let ghost ex = strings_of(exclude_purposes@);
    let mut out: Vec<String> = Vec::new();
    let mut i: usize = 0;
    proof {
        assert(instances@.take(0) =~= Seq::<InstanceInput>::empty());
        assert(strings_of(out@) =~= Seq::<Seq<char>>::empty());
    }
    while i < instances.len()
        invariant
            i <= instances@.len(),
            ex == strings_of(exclude_purposes@),
            strings_of(out@) == removed_spec(instances@.take(i as int), ignore_unnamed, ex),
        decreases instances@.len() - i,
    {
        let x = &instances[i];
        proof {
            assert(instances@.take(i + 1).drop_last() =~= instances@.take(i as int));
            assert(instances@.take(i + 1).last() == instances@[i as int]);
        }
        let excluded = match &x.purpose {
            Some(p) => contains_string(exclude_purposes, p),
            None => false,
        };
        if (ignore_unnamed && !x.named) || excluded {
            let ghost before = out@;
            out.push(x.name.clone());
            proof {
                assert(strings_of(out@) =~= strings_of(before).push(x.name@));
            }
        }
        i = i + 1;
    }
    proof {
        assert(instances@.take(i as int) =~= instances@);
    }
    out
}

/// A reference met on an extracted net: a pin of the cell, or a port of the
/// instance at a match index, with its array element (`ia < 0` for none).
pub enum PendingRef {
    Port(String),
    Instance { index: usize, port: String, ia: i64, ib: i64 },
}

/// The member a reference resolves to, given the converted instance names.
pub open spec fn pending_member(r: PendingRef, names: Seq<Seq<char>>) -> MemberV {
    match r {
        PendingRef::Port(p) => MemberV::Port(p@),
        PendingRef::Instance { index, port, ia, ib } => if ia < 0 {
            MemberV::Ref(names[index as int], port@)
        } else {
            MemberV::ArrayRef(names[index as int], port@, ia, ib)
        },
    }
}

/// Pins named by the references are declared, in order.
pub open spec fn pending_pins(nl: NetlistV, refs: Seq<PendingRef>) -> NetlistV
    decreases refs.len(),
{
    if refs.len() == 0 {
        nl
    } else {
        let n = pending_pins(nl, refs.drop_last());
        match refs.last() {
            PendingRef::Port(p) => n.with_port(p@),
            _ => n,
        }
    }
}

/// Each extracted net in turn: its pins declared, then its members connected.
pub open spec fn resolve_spec(
    nl: NetlistV,
    pending: Seq<Vec<PendingRef>>,
    names: Seq<Seq<char>>,
) -> Result<NetlistV, Seq<char>>
    decreases pending.len(),
{
    if pending.len() == 0 {
        Ok(nl)
    } else {
        let refs = pending[0]@;
        let n = pending_pins(nl, refs);
        match n.with_net(Seq::new(refs.len(), |i: int| pending_member(refs[i], names))) {
            Err(e) => Err(e),
            Ok(n2) => resolve_spec(n2, pending.drop_first(), names),
        }
    }
}

pub open spec fn indices_below(pending: Seq<Vec<PendingRef>>, n: int) -> bool {
    forall|i: int, j: int|
        0 <= i < pending.len() && 0 <= j < pending[i]@.len() ==> match #[trigger] pending[i]@[j] {
            PendingRef::Instance { index, .. } => index < n,
            _ => true,
        }
}

fn resolve_net(nl: &mut Netlist, refs: Vec<PendingRef>, names: &Vec<String>) -> (r: Vec<NetMember>)
    requires
        forall|j: int| 0 <= j < refs@.len() ==> match #[trigger] refs@[j] {
            PendingRef::Instance { index, .. } => index < names@.len(),
            _ => true,
        },
    ensures
        final(nl)@ == pending_pins(old(nl)@, refs@),
        members_view(r@) == Seq::new(refs@.len(), |i: int| pending_member(refs@[i], strings_of(names@))),
{
    let ghost rv = refs@;
    let ghost nv = strings_of(names@);
    let mut members: Vec<NetMember> = Vec::new();
    let mut i: usize = 0;
    proof {
        assert(rv.take(0) =~= Seq::<PendingRef>::empty());
    }
    while i < refs.len()
        invariant
            i <= refs@.len(),
            rv == refs@,
            nv == strings_of(names@),
            forall|j: int| 0 <= j < refs@.len() ==> match #[trigger] refs@[j] {
                PendingRef::Instance { index, .. } => index < names@.len(),
                _ => true,
            },
            nl@ == pending_pins(old(nl)@, rv.take(i as int)),
            members@.len() == i,
            forall|j: int| 0 <= j < i ==> (#[trigger] members@[j])@ == pending_member(rv[j], nv),
        decreases refs@.len() - i,
    {
        proof {
            assert(rv.take(i + 1).drop_last() =~= rv.take(i as int));
            assert(rv.take(i + 1).last() == rv[i as int]);
        }
        let m = match &refs[i] {
            PendingRef::Port(name) => NetMember::Port(nl.create_port(name.clone())),
            PendingRef::Instance { index, port, ia, ib } => {
                if *ia < 0 {
                    NetMember::Ref(PortRef { instance: names[*index].clone(), port: port.clone() })
                } else {
                    NetMember::ArrayRef(
                        PortArrayRef {
                            instance: names[*index].clone(),
                            port: port.clone(),
                            ia: *ia,
                            ib: *ib,
                        },
                    )
                }
            },
        };
        members.push(m);
        i = i + 1;
    }
    proof {
        assert(rv.take(i as int) =~= rv);
        assert(members_view(members@) =~= Seq::new(rv.len(), |k: int| pending_member(rv[k], nv)));
    }
    members
}

/// Resolve the nets extraction found: pins are declared as met, instance
/// references take their converted names, a negative first array index
/// meaning a plain instance; the first refused net stops the resolution.
pub fn resolve_pending(nl: &mut Netlist, pending: Vec<Vec<PendingRef>>, names: &Vec<String>) -> (r: Result<(), ExtractError>)
    requires
        indices_below(pending@, names@.len() as int),
    ensures
        match resolve_spec(old(nl)@, pending@, strings_of(names@)) {
            Ok(n) => r is Ok && final(nl)@ == n,
            Err(e) => r is Err && r->Err_0 is Model && r->Err_0->Model_0.0@ == e,
        },
{
    let ghost pv = pending@;
    let ghost nv = strings_of(names@);
    let ghost goal = resolve_spec(old(nl)@, pv, nv);
    let mut rest = pending;
    proof {
        assert(rest@ == pv.skip(0));
    }
    let ghost mut k: int = 0;
    while rest.len() > 0
        invariant
            0 <= k <= pv.len(),
            rest@ == pv.skip(k as int),
            nv == strings_of(names@),
            indices_below(pv, names@.len() as int),
            goal == resolve_spec(old(nl)@, pv, nv),
            pv == pending@,
            goal == resolve_spec(nl@, rest@, nv),
        decreases rest@.len(),
    {
        let ghost before = rest@;
        let refs = rest.remove(0);
        proof {
            assert(refs == pv[k as int]);
            assert(before[0] == refs);
            assert(before.drop_first() =~= rest@);
            assert forall|j: int| 0 <= j < refs@.len() implies match #[trigger] refs@[j] {
                PendingRef::Instance { index, .. } => index < names@.len(),
                _ => true,
            } by {
                assert(pv[k as int]@[j] == refs@[j]);
            }
            assert(rest@ =~= pv.skip(k + 1));
        }
        let ghost rv = refs@;
        let ghost nl0 = nl@;
        let members = resolve_net(nl, refs, names);
        proof {
            let spec_members = Seq::new(before[0]@.len(), |i: int| pending_member(before[0]@[i], nv));
            assert(members_view(members@) =~= spec_members);
            assert(resolve_spec(nl0, before, nv) == match pending_pins(nl0, before[0]@).with_net(spec_members) {
                Err(e) => Err(e),
                Ok(n2) => resolve_spec(n2, before.drop_first(), nv),
            });
        }
        match nl.create_net(members) {
            Err(e) => {
                return Err(ExtractError::Model(e));
            },
            Ok(()) => {},
        }
        proof {
            k = k + 1;
        }
    }
    Ok(())
}

pub open spec fn names_mismatch_msg() -> Seq<char> {
    "one converted name is required per matched instance"@
}

/// Refuse converted names that are not one per matched instance.
pub fn check_converted_names(names: &Vec<String>, match_count: usize) -> (r: Result<(), ExtractError>)
    ensures
        r is Ok <==> names@.len() == match_count,
        r is Err ==> r->Err_0 is Invalid && r->Err_0->Invalid_0@ == names_mismatch_msg(),
{
    if names.len() != match_count {
        let msg = "one converted name is required per matched instance".to_owned();
        proof {
            reveal_strlit("one converted name is required per matched instance");
        }
        return Err(ExtractError::Invalid(msg));
    }
    Ok(())
}

} // verus!
