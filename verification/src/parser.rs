//! The public JSON description of an extracted netlist: per circuit its pins,
//! its subcircuits and its nets; per net its pins, the subcircuit pins it
//! reaches and its shapes by layer, with layer and instance filters applied.
use vstd::prelude::*;
use crate::document::{lemma_map_view_key_index, vmap_insert};
use crate::json::map_view;
use crate::extract::{contains_string, strings_of};
use crate::json::{JsonV, JsonValue};

use crate::ordmap::{key_index, lemma_key_index, map_insert};
use crate::text::{chars_of, nat_chars, nat_text, string_of};

verus! {

/// A layer: its numbers and its name.
#[derive(Clone, Debug, PartialEq, Eq)]
pub struct LayerKey {
    pub layer: i32,
    pub datatype: i32,
    pub name: String,
}

pub open spec fn layer_view(l: LayerKey) -> (i32, i32, Seq<char>) {
    (l.layer, l.datatype, l.name@)
}

pub open spec fn layer_set(v: Seq<LayerKey>) -> Seq<(i32, i32, Seq<char>)> {
    Seq::new(v.len(), |i: int| layer_view(v[i]))
}

/// Which layers and instances a description keeps; an absent set keeps all.
pub struct Filters {
    pub include_layers: Option<Vec<LayerKey>>,
    pub exclude_layers: Option<Vec<LayerKey>>,
    pub include_instances: Option<Vec<String>>,
    pub exclude_instances: Option<Vec<String>>,
}

pub struct FiltersV {
    pub include_layers: Option<Seq<(i32, i32, Seq<char>)>>,
    pub exclude_layers: Option<Seq<(i32, i32, Seq<char>)>>,
    pub include_instances: Option<Seq<Seq<char>>>,
    pub exclude_instances: Option<Seq<Seq<char>>>,
}

impl View for Filters {
    type V = FiltersV;

    open spec fn view(&self) -> FiltersV {
        FiltersV {
            include_layers: match self.include_layers {
                Some(v) => Some(layer_set(v@)),
                None => None,
            },
            exclude_layers: match self.exclude_layers {
                Some(v) => Some(layer_set(v@)),
                None => None,
            },
            include_instances: match self.include_instances {
                Some(v) => Some(strings_of(v@)),
                None => None,
            },
            exclude_instances: match self.exclude_instances {
                Some(v) => Some(strings_of(v@)),
                None => None,
            },
        }
    }
}

/// `a` sorts strictly before `b`, character by character.
pub open spec fn str_lt(a: Seq<char>, b: Seq<char>) -> bool
    decreases a.len(),
{
    if b.len() == 0 {
        false
    } else if a.len() == 0 {
        true
    } else if a[0] != b[0] {
        (a[0] as u32) < (b[0] as u32)
    } else {
        str_lt(a.drop_first(), b.drop_first())
    }
}

pub proof fn lemma_str_lt_irreflexive(a: Seq<char>)
    ensures
        !str_lt(a, a),
    decreases a.len(),
{
    if a.len() > 0 {
        lemma_str_lt_irreflexive(a.drop_first());
    }
}

pub proof fn lemma_str_lt_asymmetric(a: Seq<char>, b: Seq<char>)
    ensures
        str_lt(a, b) ==> !str_lt(b, a),
    decreases a.len(),
{
    if a.len() > 0 && b.len() > 0 && a[0] == b[0] {
        lemma_str_lt_asymmetric(a.drop_first(), b.drop_first());
    }
}

/// Whether `a` sorts strictly before `b`.
pub fn string_less(a: &String, b: &String) -> (r: bool)
    ensures
        r == str_lt(a@, b@),
{
    let x = chars_of(a.as_str());
    let y = chars_of(b.as_str());
    let mut i: usize = 0;
    proof {
        assert(x@.skip(0) =~= x@);
        assert(y@.skip(0) =~= y@);
    }
    while i < x.len() && i < y.len()
        invariant
            i <= x@.len(),
            i <= y@.len(),
            x@ == a@,
            y@ == b@,
            x@.take(i as int) == y@.take(i as int),
            str_lt(a@, b@) == str_lt(x@.skip(i as int), y@.skip(i as int)),
        decreases x@.len() - i,
    {
        proof {
            assert(x@.skip(i as int)[0] == x@[i as int]);
            assert(y@.skip(i as int)[0] == y@[i as int]);
            assert(x@.skip(i as int).drop_first() =~= x@.skip(i + 1));
            assert(y@.skip(i as int).drop_first() =~= y@.skip(i + 1));
        }
        if x[i] != y[i] {
            return (x[i] as u32) < (y[i] as u32);
        }
        proof {
            assert(x@.take(i + 1) =~= x@.take(i as int).push(x@[i as int]));
            assert(y@.take(i + 1) =~= y@.take(i as int).push(y@[i as int]));
        }
        i = i + 1;
    }
    proof {
        assert(x@.skip(i as int).len() == 0 || y@.skip(i as int).len() == 0);
    }
    i == x.len() && i < y.len()
}

/// Insert `x` after every entry whose name does not sort after it.
pub open spec fn insert_sorted<V>(s: Seq<(Seq<char>, V)>, x: (Seq<char>, V)) -> Seq<(Seq<char>, V)>
    decreases s.len(),
{
    if s.len() == 0 {
        seq![x]
    } else if str_lt(x.0, s.last().0) {
        insert_sorted(s.drop_last(), x).push(s.last())
    } else {
        s.push(x)
    }
}

/// Entries sorted by name, entries of equal names keeping their order.
pub open spec fn sort_by_name<V>(s: Seq<(Seq<char>, V)>) -> Seq<(Seq<char>, V)>
    decreases s.len(),
{
    if s.len() == 0 {
        Seq::empty()
    } else {
        insert_sorted(sort_by_name(s.drop_last()), s.last())
    }
}

pub open spec fn named_view<T: View>(v: Seq<(String, T)>) -> Seq<(Seq<char>, T::V)> {
    Seq::new(v.len(), |i: int| (v[i].0@, v[i].1@))
}

pub fn insert_in_order<T: View>(v: &mut Vec<(String, T)>, x: (String, T))
    ensures
        named_view(final(v)@) == insert_sorted(named_view(old(v)@), (x.0@, x.1@)),
{
    let ghost xv = (x.0@, x.1@);
    let ghost nv = named_view(v@);
    let mut k = v.len();
    proof {
        assert(nv.take(k as int) =~= nv);
        assert(nv.skip(k as int) =~= Seq::<(Seq<char>, T::V)>::empty());
        assert(nv + Seq::<(Seq<char>, T::V)>::empty() =~= nv);
    }
    while k > 0
        invariant
            k <= v@.len(),
            v@ == old(v)@,
            nv == named_view(v@),
            xv == (x.0@, x.1@),
            insert_sorted(nv, xv) == insert_sorted(nv.take(k as int), xv) + nv.skip(k as int),
        ensures
            k <= v@.len(),
            v@ == old(v)@,
            nv == named_view(v@),
            insert_sorted(nv, xv) == insert_sorted(nv.take(k as int), xv) + nv.skip(k as int),
            k == 0 || !str_lt(xv.0, nv[k - 1].0),
        decreases k,
    {
        let less = string_less(&x.0, &v[k - 1].0);
        proof {
            assert(less == str_lt(x.0@, v@[k - 1].0@));
            assert(xv.0 == x.0@);
            assert(nv[k - 1].0 == v@[k - 1].0@);
        }
        if !less {
            break;
        }
        proof {
            let t = nv.take(k as int);
            assert(t.last() == nv[k - 1]);
            assert(nv[k - 1].0 == v@[k - 1].0@);
            assert(str_lt(xv.0, t.last().0));
            assert(t.drop_last() =~= nv.take(k - 1));
            assert(insert_sorted(t, xv) == insert_sorted(nv.take(k - 1), xv).push(t.last()));
            assert(nv.skip(k - 1) =~= seq![t.last()] + nv.skip(k as int));
            assert(insert_sorted(nv.take(k - 1), xv).push(t.last()) + nv.skip(k as int)
                =~= insert_sorted(nv.take(k - 1), xv) + nv.skip(k - 1));
        }
        k = k - 1;
    }
    let ghost before = v@;
    proof {
        let t = nv.take(k as int);
        if k > 0 {
            assert(t.last() == nv[k - 1]);
        } else {
            assert(t =~= Seq::<(Seq<char>, T::V)>::empty());
        }
        assert(insert_sorted(t, xv) == t.push(xv));
    }
    v.insert(k, x);
    proof {
        assert(named_view(v@) =~= nv.take(k as int).push(xv) + nv.skip(k as int));
    }
}

fn sort_entries<T: View>(v: Vec<(String, T)>) -> (r: Vec<(String, T)>)
    ensures
        named_view(r@) == sort_by_name(named_view(v@)),
{
    let ghost orig = named_view(v@);
    let mut rest = v;
    let mut out: Vec<(String, T)> = Vec::new();
    let ghost mut k: int = 0;
    proof {
        assert(orig.take(0) =~= Seq::<(Seq<char>, T::V)>::empty());
        assert(named_view(out@) =~= Seq::<(Seq<char>, T::V)>::empty());
        assert(named_view(rest@) =~= orig.skip(0));
    }
    while rest.len() > 0
        invariant
            0 <= k <= orig.len(),
            named_view(rest@) == orig.skip(k),
            named_view(out@) == sort_by_name(orig.take(k)),
        decreases rest@.len(),
    {
        let ghost r0 = rest@;
        proof {
            assert(named_view(r0).len() == r0.len());
            assert(k < orig.len());
            assert(orig.skip(k)[0] == orig[k]);
        }
        let x = rest.remove(0);
        proof {
            assert(named_view(r0)[0] == (x.0@, x.1@));
            assert(orig[k] == (x.0@, x.1@));
            assert(orig.take(k + 1).drop_last() =~= orig.take(k));
            assert(orig.take(k + 1).last() == orig[k]);
            assert(rest@ =~= r0.drop_first());
            assert(named_view(rest@) =~= named_view(r0).drop_first());
            assert(orig.skip(k).drop_first() =~= orig.skip(k + 1));
            assert(named_view(rest@) =~= orig.skip(k + 1));
        }
        insert_in_order(&mut out, x);
        proof {
            k = k + 1;
        }
    }
    proof {
        assert(orig.skip(k).len() == 0);
        assert(orig.take(k) =~= orig);
    }
    out
}

/// A polygon: its hull and its holes, as points.
pub struct Polygon {
    pub hull: Vec<(i32, i32)>,
    pub holes: Vec<Vec<(i32, i32)>>,
}

/// A net's shapes on one layer, with the layer's display name.
pub struct LayerShapes {
    pub layer: LayerKey,
    pub display: String,
    pub polygons: Vec<Polygon>,
}

/// A pin of a subcircuit that a net reaches.
pub struct SubcircuitPin {
    pub id: u64,
    pub name: String,
    pub pin: String,
}

/// What the description reads of an extracted net: its name, its pin names,
/// the subcircuit pins it reaches and, when shapes are reported, its
/// non-empty shapes by layer.
pub struct NetFacts {
    pub name: String,
    pub pins: Vec<String>,
    pub subcircuit_pins: Vec<SubcircuitPin>,
    pub shapes: Option<Vec<LayerShapes>>,
}

pub open spec fn int_json(v: int) -> JsonV {
    if v < 0 {
        JsonV::Int(v as i64)
    } else {
        JsonV::UInt(v as u64)
    }
}

pub open spec fn points_json(ps: Seq<(i32, i32)>) -> JsonV {
    JsonV::Array(Seq::new(ps.len(), |i: int| JsonV::Array(seq![int_json(ps[i].0 as int), int_json(ps[i].1 as int)])))
}

pub open spec fn hulls_json(polys: Seq<Polygon>) -> JsonV {
    JsonV::Array(Seq::new(polys.len(), |i: int| points_json(polys[i].hull@)))
}

/// The holes of the first `n` polygons, polygon by polygon.
pub open spec fn holes_json(polys: Seq<Polygon>, n: int) -> Seq<JsonV>
    decreases n,
{
    if n <= 0 {
        Seq::empty()
    } else {
        holes_json(polys, n - 1) + Seq::new(
            polys[n - 1].holes@.len(),
            |k: int| points_json(polys[n - 1].holes@[k]@),
        )
    }
}

/// The JSON of a layer's shapes: its hulls, and its holes.
pub struct LayerJson {
    pub hulls: JsonValue,
    pub holes: Vec<JsonValue>,
}

impl View for LayerJson {
    type V = (JsonV, Seq<JsonV>);

    open spec fn view(&self) -> (JsonV, Seq<JsonV>) {
        (self.hulls@, Seq::new(self.holes@.len(), |i: int| self.holes@[i]@))
    }
}

pub open spec fn layer_json_spec(polys: Seq<Polygon>) -> (JsonV, Seq<JsonV>) {
    (hulls_json(polys), holes_json(polys, polys.len() as int))
}

pub open spec fn layer_allowed(f: FiltersV, layers: Seq<(i32, i32, Seq<char>)>) -> bool {
    &&& match f.include_layers {
        Some(inc) => exists|i: int| 0 <= i < layers.len() && inc.contains(#[trigger] layers[i]),
        None => true,
    }
    &&& match f.exclude_layers {
        Some(exc) => !(layers.len() > 0 && forall|i: int| 0 <= i < layers.len() ==> exc.contains(#[trigger] layers[i])),
        None => true,
    }
}

pub open spec fn shape_layers(sh: Seq<LayerShapes>) -> Seq<(i32, i32, Seq<char>)> {
    Seq::new(sh.len(), |i: int| layer_view(sh[i].layer))
}

/// The non-empty names of the first `n`, in order.
pub open spec fn nonempty_names(names: Seq<Seq<char>>, n: int) -> Seq<Seq<char>>
    decreases n,
{
    if n <= 0 {
        Seq::empty()
    } else if names[n - 1].len() > 0 {
        nonempty_names(names, n - 1).push(names[n - 1])
    } else {
        nonempty_names(names, n - 1)
    }
}

/// A subcircuit's name, or `$` and its id when it has none.
pub open spec fn sub_name(id: u64, name: Seq<char>) -> Seq<char> {
    if name.len() == 0 {
        seq!['$'] + nat_text(id as nat)
    } else {
        name
    }
}

pub open spec fn strs_json(v: Seq<Seq<char>>) -> JsonV {
    JsonV::Array(Seq::new(v.len(), |i: int| JsonV::Str(v[i])))
}

/// The subcircuit pins of the first `n` references that are kept (by the
/// subcircuit selection) and named.
pub open spec fn child_pins(sps: Seq<SubcircuitPin>, subs: Option<Seq<u64>>, n: int) -> Seq<JsonV>
    decreases n,
{
    if n <= 0 {
        Seq::empty()
    } else {
        let acc = child_pins(sps, subs, n - 1);
        let sp = sps[n - 1];
        if (subs matches Some(ids) && !ids.contains(sp.id)) || sp.pin@.len() == 0 {
            acc
        } else {
            acc.push(
                JsonV::Object(
                    seq![("subcircuit"@, JsonV::Str(sub_name(sp.id, sp.name@))), ("pin"@, JsonV::Str(sp.pin@))],
                ),
            )
        }
    }
}

pub open spec fn fold_polygons(e: Seq<(Seq<char>, (JsonV, Seq<JsonV>))>, n: int) -> Seq<(Seq<char>, JsonV)>
    decreases n,
{
    if n <= 0 {
        Seq::empty()
    } else {
        vmap_insert(fold_polygons(e, n - 1), e[n - 1].0, e[n - 1].1.0)
    }
}

pub open spec fn fold_holes(e: Seq<(Seq<char>, (JsonV, Seq<JsonV>))>, n: int) -> Seq<(Seq<char>, JsonV)>
    decreases n,
{
    if n <= 0 {
        Seq::empty()
    } else if e[n - 1].1.1.len() > 0 {
        vmap_insert(fold_holes(e, n - 1), e[n - 1].0, JsonV::Array(e[n - 1].1.1))
    } else {
        fold_holes(e, n - 1)
    }
}

/// The shape entries of a net: its layers sorted by display name, hulls per
/// name, holes per name where there are any.
pub open spec fn shapes_part(sh: Seq<LayerShapes>) -> Seq<(Seq<char>, JsonV)> {
    if sh.len() == 0 {
        Seq::empty()
    } else {
        let sorted = sort_by_name(Seq::new(sh.len(), |i: int| (sh[i].display@, layer_json_spec(sh[i].polygons@))));
        let polys = fold_polygons(sorted, sorted.len() as int);
        let holes = fold_holes(sorted, sorted.len() as int);
        seq![("layer_to_polygons"@, JsonV::Object(polys))] + if holes.len() > 0 {
            seq![("layer_to_holes"@, JsonV::Object(holes))]
        } else {
            Seq::empty()
        }
    }
}

/// The description of a net, or nothing when its shapes are all filtered out
/// or it reaches no named pin.
/// The shapes a net reports: none when shapes are not reported.
pub open spec fn reported_shapes(net: NetFacts) -> Seq<LayerShapes> {
    match net.shapes {
        Some(v) => v@,
        None => Seq::empty(),
    }
}

pub open spec fn net_json(net: NetFacts, subs: Option<Seq<u64>>, f: FiltersV) -> Option<JsonV> {
    let sh = reported_shapes(net);
    let filtered = net.shapes is Some && !layer_allowed(f, shape_layers(sh));
    let pins = nonempty_names(strings_of(net.pins@), net.pins@.len() as int);
    let child = child_pins(net.subcircuit_pins@, subs, net.subcircuit_pins@.len() as int);
    if filtered || (pins.len() == 0 && child.len() == 0) {
        None
    } else {
        Some(
            JsonV::Object(
                seq![("name"@, if net.name@.len() == 0 { JsonV::Null } else { JsonV::Str(net.name@) })] + (if pins.len()
                    > 0 {
                    seq![("pins"@, strs_json(pins))]
                } else {
                    Seq::empty()
                }) + (if child.len() > 0 {
                    seq![("subcircuit_pins"@, JsonV::Array(child))]
                } else {
                    Seq::empty()
                }) + shapes_part(sh),
            ),
        )
    }
}

fn int_value(v: i64) -> (r: JsonValue)
    ensures
        r@ == int_json(v as int),
{
    if v < 0 {
        JsonValue::Int(v)
    } else {
        JsonValue::UInt(v as u64)
    }
}

fn points_value(ps: &Vec<(i32, i32)>) -> (r: JsonValue)
    ensures
        r@ == points_json(ps@),
{
    let mut out: Vec<JsonValue> = Vec::new();
    let mut i: usize = 0;
    while i < ps.len()
        invariant
            i <= ps@.len(),
            out@.len() == i,
            forall|j: int|
                0 <= j < i ==> (#[trigger] out@[j])@ == JsonV::Array(
                    seq![int_json(ps@[j].0 as int), int_json(ps@[j].1 as int)],
                ),
        decreases ps@.len() - i,
    {
        let mut pair: Vec<JsonValue> = Vec::new();
        pair.push(int_value(ps[i].0 as i64));
        pair.push(int_value(ps[i].1 as i64));
        let v = JsonValue::Array(pair);
        proof {
            assert(v@->Array_0 =~= seq![int_json(ps@[i as int].0 as int), int_json(ps@[i as int].1 as int)]);
        }
        out.push(v);
        i = i + 1;
    }
    let r = JsonValue::Array(out);
    proof {
        assert(r@->Array_0 =~= points_json(ps@)->Array_0);
    }
    r
}

/// The JSON of one layer's polygons.
pub fn layer_json(polys: &Vec<Polygon>) -> (r: LayerJson)
    ensures
        r@ == layer_json_spec(polys@),
{
    let mut hulls: Vec<JsonValue> = Vec::new();
    let mut holes: Vec<JsonValue> = Vec::new();
    let mut i: usize = 0;
    proof {
        assert(Seq::new(holes@.len(), |q: int| holes@[q]@) =~= holes_json(polys@, 0));
    }
    while i < polys.len()
        invariant
            i <= polys@.len(),
            hulls@.len() == i,
            forall|j: int| 0 <= j < i ==> (#[trigger] hulls@[j])@ == points_json(polys@[j].hull@),
            Seq::new(holes@.len(), |q: int| holes@[q]@) == holes_json(polys@, i as int),
        decreases polys@.len() - i,
    {
        hulls.push(points_value(&polys[i].hull));
        let ghost start = Seq::new(holes@.len(), |q: int| holes@[q]@);
        let hs = &polys[i].holes;
        let mut k: usize = 0;
        while k < hs.len()
            invariant
                k <= hs@.len(),
                hs@ == polys@[i as int].holes@,
                Seq::new(holes@.len(), |q: int| holes@[q]@) == start + Seq::new(k as nat, |m: int| points_json(hs@[m]@)),
            decreases hs@.len() - k,
        {
            let ghost before = Seq::new(holes@.len(), |q: int| holes@[q]@);
            holes.push(points_value(&hs[k]));
            proof {
                assert(Seq::new(holes@.len(), |q: int| holes@[q]@) =~= before.push(points_json(hs@[k as int]@)));
                assert(start + Seq::new((k + 1) as nat, |m: int| points_json(hs@[m]@)) =~= (start + Seq::new(
                    k as nat,
                    |m: int| points_json(hs@[m]@),
                )).push(points_json(hs@[k as int]@)));
            }
            k = k + 1;
        }
        proof {
            assert(Seq::new(k as nat, |m: int| points_json(hs@[m]@)) =~= Seq::new(
                polys@[i as int].holes@.len(),
                |m: int| points_json(polys@[i as int].holes@[m]@),
            ));
        }
        i = i + 1;
    }
    let h = JsonValue::Array(hulls);
    proof {
        assert(h@->Array_0 =~= hulls_json(polys@)->Array_0);
    }
    LayerJson { hulls: h, holes: holes }
}

pub(crate) fn layer_in(v: &Vec<LayerKey>, l: &LayerKey) -> (r: bool)
    ensures
        r == layer_set(v@).contains(layer_view(*l)),
{
    let mut i: usize = 0;
    while i < v.len()
        invariant
            i <= v@.len(),
            forall|j: int| 0 <= j < i ==> layer_view(#[trigger] v@[j]) != layer_view(*l),
        decreases v@.len() - i,
    {
        if v[i].layer == l.layer && v[i].datatype == l.datatype && v[i].name == l.name {
            proof {
                assert(layer_set(v@)[i as int] == layer_view(*l));
            }
            return true;
        }
        i = i + 1;
    }
    proof {
        if layer_set(v@).contains(layer_view(*l)) {
            let j = choose|j: int| 0 <= j < layer_set(v@).len() && layer_set(v@)[j] == layer_view(*l);
            assert(layer_view(v@[j]) == layer_view(*l));
        }
    }
    false
}

fn layers_allowed(f: &Filters, sh: &Vec<LayerShapes>) -> (r: bool)
    ensures
        r == layer_allowed(f@, shape_layers(sh@)),
{
    let ghost ls = shape_layers(sh@);
    let inc_ok = match &f.include_layers {
        Some(inc) => {
            let mut found = false;
            let mut i: usize = 0;
            while i < sh.len()
                invariant
                    i <= sh@.len(),
                    ls == shape_layers(sh@),
                    found == exists|j: int| 0 <= j < i && layer_set(inc@).contains(#[trigger] ls[j]),
                decreases sh@.len() - i,
            {
                let hit = layer_in(inc, &sh[i].layer);
                proof {
                    assert(ls[i as int] == layer_view(sh@[i as int].layer));
                    if found || hit {
                        if hit {
                            assert(layer_set(inc@).contains(ls[i as int]));
                        }
                    } else {
                        assert forall|j: int| 0 <= j < i + 1 implies !layer_set(inc@).contains(#[trigger] ls[j]) by {}
                    }
                }
                found = found || hit;
                i = i + 1;
            }
            found
        },
        None => true,
    };
    let exc_ok = match &f.exclude_layers {
        Some(exc) => {
            let mut all = true;
            let mut i: usize = 0;
            while i < sh.len()
                invariant
                    i <= sh@.len(),
                    ls == shape_layers(sh@),
                    all == forall|j: int| 0 <= j < i ==> layer_set(exc@).contains(#[trigger] ls[j]),
                decreases sh@.len() - i,
            {
                let hit = layer_in(exc, &sh[i].layer);
                proof {
                    assert(ls[i as int] == layer_view(sh@[i as int].layer));
                    if !hit {
                        assert(!layer_set(exc@).contains(ls[i as int]));
                    }
                }
                all = all && hit;
                i = i + 1;
            }
            !(sh.len() > 0 && all)
        },
        None => true,
    };
    inc_ok && exc_ok
}

fn contains_u64(v: &Vec<u64>, x: u64) -> (r: bool)
    ensures
        r == v@.contains(x),
{
    let mut i: usize = 0;
    while i < v.len()
        invariant
            i <= v@.len(),
            forall|j: int| 0 <= j < i ==> v@[j] != x,
        decreases v@.len() - i,
    {
        if v[i] == x {
            return true;
        }
        i = i + 1;
    }
    false
}

/// A subcircuit's name, or `$` and its id when it has none.
pub fn sub_label(id: u64, name: &String) -> (r: String)
    ensures
        r@ == sub_name(id, name@),
{
    if name.as_str().is_empty() {
        let digits = nat_chars(id);
        let mut out = String::new();
        crate::text::push_char(&mut out, '$');
        let tail = string_of(&digits, 0, digits.len());
        let r = crate::text::concat(out.as_str(), tail.as_str());
        proof {
            assert(digits@.subrange(0, digits@.len() as int) =~= digits@);
            assert(r@ =~= seq!['$'] + nat_text(id as nat));
        }
        r
    } else {
        name.clone()
    }
}

fn strs_value(v: &Vec<String>) -> (r: JsonValue)
    ensures
        r@ == strs_json(strings_of(v@)),
{
    let mut out: Vec<JsonValue> = Vec::new();
    let mut i: usize = 0;
    while i < v.len()
        invariant
            i <= v@.len(),
            out@.len() == i,
            forall|j: int| 0 <= j < i ==> (#[trigger] out@[j])@ == JsonV::Str(v@[j]@),
        decreases v@.len() - i,
    {
        out.push(JsonValue::Str(v[i].clone()));
        i = i + 1;
    }
    let r = JsonValue::Array(out);
    proof {
        assert(r@->Array_0 =~= strs_json(strings_of(v@))->Array_0);
    }
    r
}

fn nonempty(v: &Vec<String>) -> (r: Vec<String>)
    ensures
        strings_of(r@) == nonempty_names(strings_of(v@), v@.len() as int),
{
    let mut out: Vec<String> = Vec::new();
    let mut i: usize = 0;
    proof {
        assert(strings_of(out@) =~= Seq::<Seq<char>>::empty());
    }
    while i < v.len()
        invariant
            i <= v@.len(),
            strings_of(out@) == nonempty_names(strings_of(v@), i as int),
        decreases v@.len() - i,
    {
        if !v[i].as_str().is_empty() {
            let ghost before = out@;
            out.push(v[i].clone());
            proof {
                assert(strings_of(out@) =~= strings_of(before).push(v@[i as int]@));
            }
        }
        i = i + 1;
    }
    out
}

fn child_pin_values(sps: &Vec<SubcircuitPin>, subs: Option<&Vec<u64>>) -> (r: Vec<JsonValue>)
    ensures
        Seq::new(r@.len(), |i: int| r@[i]@) == child_pins(
            sps@,
            match subs {
                Some(v) => Some(v@),
                None => None,
            },
            sps@.len() as int,
        ),
{
    let ghost sv = match subs {
        Some(v) => Some(v@),
        None => None::<Seq<u64>>,
    };
    let mut out: Vec<JsonValue> = Vec::new();
    let mut i: usize = 0;
    proof {
        assert(Seq::new(out@.len(), |q: int| out@[q]@) =~= Seq::<JsonV>::empty());
    }
    while i < sps.len()
        invariant
            i <= sps@.len(),
            sv == match subs {
                Some(v) => Some(v@),
                None => None::<Seq<u64>>,
            },
            Seq::new(out@.len(), |q: int| out@[q]@) == child_pins(sps@, sv, i as int),
        decreases sps@.len() - i,
    {
        let sp = &sps[i];
        let skipped = match subs {
            Some(ids) => !contains_u64(ids, sp.id),
            None => false,
        };
        if !skipped && !sp.pin.as_str().is_empty() {
            let mut entries: Vec<(String, JsonValue)> = Vec::new();
            entries.push(("subcircuit".to_owned(), JsonValue::Str(sub_label(sp.id, &sp.name))));
            entries.push(("pin".to_owned(), JsonValue::Str(sp.pin.clone())));
            let v = JsonValue::Object(entries);
            let ghost before = Seq::new(out@.len(), |q: int| out@[q]@);
            proof {
                assert(entries@.len() == 2);
                assert(v@->Object_0.len() == 2);
                assert(v@->Object_0[0] == (entries@[0].0@, entries@[0].1@));
                assert(v@->Object_0[1] == (entries@[1].0@, entries@[1].1@));
                assert(v@->Object_0 =~= seq![
                    ("subcircuit"@, JsonV::Str(sub_name(sp.id, sp.name@))),
                    ("pin"@, JsonV::Str(sp.pin@)),
                ]);
            }
            out.push(v);
            proof {
                assert(Seq::new(out@.len(), |q: int| out@[q]@) =~= before.push(v@));
            }
        }
        i = i + 1;
    }
    out
}

fn json_insert(m: &mut Vec<(String, JsonValue)>, k: String, v: JsonValue)
    ensures
        map_view(final(m)@) == vmap_insert(map_view(old(m)@), k@, v@),
{
    proof {
        lemma_map_view_key_index(m@, k@);
        lemma_key_index(m@, k@);
    }
    let ghost before = m@;
    let ghost kv = k@;
    let ghost vv = v@;
    map_insert(m, k, v);
    proof {
        match key_index(before, kv) {
            Some(j) => {
                assert(map_view(m@) =~= map_view(before).update(j, (kv, vv)));
            },
            None => {
                assert(map_view(m@) =~= map_view(before).push((kv, vv)));
            },
        }
    }
}

fn copy_values(v: &Vec<JsonValue>) -> (r: Vec<JsonValue>)
    ensures
        Seq::new(r@.len(), |i: int| r@[i]@) == Seq::new(v@.len(), |i: int| v@[i]@),
{
    let mut out: Vec<JsonValue> = Vec::new();
    let mut i: usize = 0;
    while i < v.len()
        invariant
            i <= v@.len(),
            out@.len() == i,
            forall|j: int| 0 <= j < i ==> (#[trigger] out@[j])@ == v@[j]@,
        decreases v@.len() - i,
    {
        out.push(v[i].duplicate());
        i = i + 1;
    }
    assert(Seq::new(out@.len(), |q: int| out@[q]@) =~= Seq::new(v@.len(), |q: int| v@[q]@));
    out
}

/// The shape entries of a net's description.
pub fn shape_entries(sh: &Vec<LayerShapes>) -> (r: Vec<(String, JsonValue)>)
    ensures
        map_view(r@) == shapes_part(sh@),
{
    let mut out: Vec<(String, JsonValue)> = Vec::new();
    if sh.len() == 0 {
        proof {
            assert(map_view(out@) =~= shapes_part(sh@));
        }
        return out;
    }
    let mut entries: Vec<(String, LayerJson)> = Vec::new();
    let mut i: usize = 0;
    while i < sh.len()
        invariant
            i <= sh@.len(),
            entries@.len() == i,
            forall|j: int|
                0 <= j < i ==> ((#[trigger] entries@[j]).0@, entries@[j].1@) == (sh@[j].display@, layer_json_spec(
                    sh@[j].polygons@,
                )),
        decreases sh@.len() - i,
    {
        entries.push((sh[i].display.clone(), layer_json(&sh[i].polygons)));
        i = i + 1;
    }
    let ghost unsorted = Seq::new(sh@.len(), |q: int| (sh@[q].display@, layer_json_spec(sh@[q].polygons@)));
    proof {
        assert(named_view(entries@) =~= unsorted);
    }
    let sorted = sort_entries(entries);
    let ghost sv = named_view(sorted@);
    let mut polys: Vec<(String, JsonValue)> = Vec::new();
    let mut holes: Vec<(String, JsonValue)> = Vec::new();
    let mut k: usize = 0;
    proof {
        assert(map_view(polys@) =~= Seq::<(Seq<char>, JsonV)>::empty());
        assert(map_view(holes@) =~= Seq::<(Seq<char>, JsonV)>::empty());
    }
    while k < sorted.len()
        invariant
            k <= sorted@.len(),
            sv == named_view(sorted@),
            map_view(polys@) == fold_polygons(sv, k as int),
            map_view(holes@) == fold_holes(sv, k as int),
        decreases sorted@.len() - k,
    {
        let e = &sorted[k];
        proof {
            assert(sv[k as int] == (e.0@, e.1@));
        }
        json_insert(&mut polys, e.0.clone(), e.1.hulls.duplicate());
        if e.1.holes.len() > 0 {
            let hv = copy_values(&e.1.holes);
            let a = JsonValue::Array(hv);
            proof {
                assert(a@->Array_0 =~= e.1@.1);
            }
            json_insert(&mut holes, e.0.clone(), a);
        }
        k = k + 1;
    }
    let ghost pv = map_view(polys@);
    let ghost hv = map_view(holes@);
    let has_holes = holes.len() > 0;
    out.push(("layer_to_polygons".to_owned(), JsonValue::Object(polys)));
    proof {
        reveal_strlit("layer_to_polygons");
        assert(out@[0].1@->Object_0 =~= pv);
    }
    if has_holes {
        out.push(("layer_to_holes".to_owned(), JsonValue::Object(holes)));
        proof {
            reveal_strlit("layer_to_holes");
            assert(out@[1].1@->Object_0 =~= hv);
        }
    }
    proof {
        assert(sv == sort_by_name(unsorted));
        assert(map_view(out@) =~= shapes_part(sh@));
    }
    out
}

fn append_entries(out: &mut Vec<(String, JsonValue)>, more: Vec<(String, JsonValue)>)
    ensures
        map_view(final(out)@) == map_view(old(out)@) + map_view(more@),
{
    let mut rest = more;
    let ghost orig = map_view(rest@);
    let ghost start = map_view(out@);
    let ghost mut k: int = 0;
    proof {
        assert(orig.skip(0) =~= orig);
        assert(start + orig.take(0) =~= start);
    }
    while rest.len() > 0
        invariant
            0 <= k <= orig.len(),
            map_view(rest@) == orig.skip(k),
            map_view(out@) == start + orig.take(k),
        decreases rest@.len(),
    {
        let ghost r0 = rest@;
        proof {
            assert(map_view(r0).len() == r0.len());
            assert(k < orig.len());
            assert(orig.skip(k)[0] == orig[k]);
            assert(map_view(r0)[0] == orig[k]);
        }
        let x = rest.remove(0);
        let ghost o0 = out@;
        out.push(x);
        proof {
            assert(rest@ =~= r0.drop_first());
            assert(map_view(rest@) =~= map_view(r0).drop_first());
            assert(orig.skip(k).drop_first() =~= orig.skip(k + 1));
            assert(map_view(rest@) =~= orig.skip(k + 1));
            assert(map_view(out@) =~= map_view(o0).push(orig[k]));
            assert(orig.take(k + 1) =~= orig.take(k).push(orig[k]));
            k = k + 1;
        }
    }
    proof {
        assert(orig.take(k) =~= orig);
    }
}

/// The description of a net: its name (null when it has none), its named
/// pins, the named subcircuit pins it reaches (of the selected subcircuits),
/// and its shapes by layer; nothing when the layer filters drop all of its
/// shapes or it reaches no named pin.
pub fn serialize_net(net: &NetFacts, subs: Option<&Vec<u64>>, filters: &Filters) -> (r: Option<JsonValue>)
    ensures
        match net_json(
            *net,
            match subs {
                Some(v) => Some(v@),
                None => None,
            },
            filters@,
        ) {
            Some(j) => r is Some && r->0@ == j,
            None => r is None,
        },
{
    let ghost sv = match subs {
        Some(v) => Some(v@),
        None => None::<Seq<u64>>,
    };
    let ghost sh = reported_shapes(*net);
    let mut shapes_out: Vec<(String, JsonValue)> = Vec::new();
    match &net.shapes {
        Some(sh) => {
            if !layers_allowed(filters, sh) {
                return None;
            }
            shapes_out = shape_entries(sh);
        },
        None => {
            proof {
                assert(map_view(shapes_out@) =~= shapes_part(Seq::<LayerShapes>::empty()));
            }
        },
    }
    let pins = nonempty(&net.pins);
    let child = child_pin_values(&net.subcircuit_pins, subs);
    if pins.len() == 0 && child.len() == 0 {
        return None;
    }
    let mut entries: Vec<(String, JsonValue)> = Vec::new();
    let name_value = if net.name.as_str().is_empty() {
        JsonValue::Null
    } else {
        JsonValue::Str(net.name.clone())
    };
    entries.push(("name".to_owned(), name_value));
    proof {
        reveal_strlit("name");
        reveal_strlit("pins");
        reveal_strlit("subcircuit_pins");
    }
    let ghost e1 = map_view(entries@);
    let ghost cp = child_pins(net.subcircuit_pins@, sv, net.subcircuit_pins@.len() as int);
    assert(Seq::new(child@.len(), |q: int| child@[q]@) == cp);
    if pins.len() > 0 {
        entries.push(("pins".to_owned(), strs_value(&pins)));
    }
    let ghost e2 = map_view(entries@);
    if child.len() > 0 {
        let ghost cv = Seq::new(child@.len(), |q: int| child@[q]@);
        let a = JsonValue::Array(child);
        proof {
            assert(a@->Array_0 =~= cv);
        }
        entries.push(("subcircuit_pins".to_owned(), a));
    }
    let ghost e3 = map_view(entries@);
    append_entries(&mut entries, shapes_out);
    let r = JsonValue::Object(entries);
    proof {
        let pv = nonempty_names(strings_of(net.pins@), net.pins@.len() as int);
        assert(e1 =~= seq![("name"@, if net.name@.len() == 0 { JsonV::Null } else { JsonV::Str(net.name@) })]);
        assert(e2 =~= e1 + (if pv.len() > 0 { seq![("pins"@, strs_json(pv))] } else { Seq::empty() }));
        assert(e3 =~= e2 + (if cp.len() > 0 { seq![("subcircuit_pins"@, JsonV::Array(cp))] } else { Seq::empty() }));
        assert(map_view(entries@) == e3 + shapes_part(sh));
        assert(r@->Object_0 =~= map_view(entries@));
    }
    Some(r)
}

/// A subcircuit as the description reads it.
pub struct SubcircuitFacts {
    pub id: u64,
    pub name: String,
    pub circuit_ref: String,
    pub transform: String,
}

/// What the description reads of a circuit: its pin names, its subcircuits
/// and its nets.
pub struct CircuitFacts {
    pub pins: Vec<String>,
    pub subcircuits: Vec<SubcircuitFacts>,
    pub nets: Vec<NetFacts>,
}

/// Whether the instance filters keep a subcircuit of the given cell.
pub open spec fn sub_kept(f: FiltersV, target: Seq<char>) -> bool {
    &&& !(f.include_instances matches Some(inc) && !inc.contains(target))
    &&& !(f.exclude_instances matches Some(exc) && exc.contains(target))
}

pub open spec fn sub_json(s: SubcircuitFacts) -> JsonV {
    JsonV::Object(
        seq![
            ("name"@, JsonV::Str(sub_name(s.id, s.name@))),
            ("circuit_ref"@, JsonV::Str(s.circuit_ref@)),
            ("transform"@, JsonV::Str(s.transform@)),
        ],
    )
}

/// The descriptions and ids of the first `n` subcircuits the filters keep.
pub open spec fn kept_subs(subs: Seq<SubcircuitFacts>, f: FiltersV, n: int) -> (Seq<JsonV>, Seq<u64>)
    decreases n,
{
    if n <= 0 {
        (Seq::empty(), Seq::empty())
    } else {
        let (js, ids) = kept_subs(subs, f, n - 1);
        if sub_kept(f, subs[n - 1].circuit_ref@) {
            (js.push(sub_json(subs[n - 1])), ids.push(subs[n - 1].id))
        } else {
            (js, ids)
        }
    }
}

/// The descriptions of the first `n` nets that have one.
pub open spec fn nets_json(nets: Seq<NetFacts>, sel: Option<Seq<u64>>, f: FiltersV, n: int) -> Seq<JsonV>
    decreases n,
{
    if n <= 0 {
        Seq::empty()
    } else {
        match net_json(nets[n - 1], sel, f) {
            Some(j) => nets_json(nets, sel, f, n - 1).push(j),
            None => nets_json(nets, sel, f, n - 1),
        }
    }
}

pub open spec fn pairs_of(v: Seq<Seq<char>>) -> Seq<(Seq<char>, Seq<char>)> {
    Seq::new(v.len(), |i: int| (v[i], v[i]))
}

/// The circuit's named pins, sorted.
pub open spec fn sorted_pins(pins: Seq<Seq<char>>) -> Seq<Seq<char>> {
    let s = sort_by_name(pairs_of(nonempty_names(pins, pins.len() as int)));
    Seq::new(s.len(), |i: int| s[i].0)
}

/// The description of a circuit: its named pins sorted, the subcircuits the
/// instance filters keep, and the nets that have a description (restricted to
/// the kept subcircuits when instances are filtered); each entry present only
/// when non-empty.
pub open spec fn circuit_json(c: CircuitFacts, f: FiltersV) -> JsonV {
    let pins = sorted_pins(strings_of(c.pins@));
    let (subs, ids) = kept_subs(c.subcircuits@, f, c.subcircuits@.len() as int);
    let sel = if f.include_instances is Some || f.exclude_instances is Some {
        Some(ids)
    } else {
        None
    };
    let nets = nets_json(c.nets@, sel, f, c.nets@.len() as int);
    JsonV::Object(
        (if pins.len() > 0 {
            seq![("pins"@, strs_json(pins))]
        } else {
            Seq::empty()
        }) + (if subs.len() > 0 {
            seq![("subcircuits"@, JsonV::Array(subs))]
        } else {
            Seq::empty()
        }) + (if nets.len() > 0 {
            seq![("nets"@, JsonV::Array(nets))]
        } else {
            Seq::empty()
        }),
    )
}

fn sorted_names(pins: &Vec<String>) -> (r: Vec<String>)
    ensures
        strings_of(r@) == sorted_pins(strings_of(pins@)),
{
    let named = nonempty(pins);
    let mut pairs: Vec<(String, String)> = Vec::new();
    let mut i: usize = 0;
    while i < named.len()
        invariant
            i <= named@.len(),
            pairs@.len() == i,
            forall|j: int| 0 <= j < i ==> (#[trigger] pairs@[j]).0@ == named@[j]@ && pairs@[j].1@ == named@[j]@,
        decreases named@.len() - i,
    {
        pairs.push((named[i].clone(), named[i].clone()));
        i = i + 1;
    }
    proof {
        assert(named_view(pairs@) =~= pairs_of(strings_of(named@)));
    }
    let sorted = sort_entries(pairs);
    let ghost sv = named_view(sorted@);
    let mut out: Vec<String> = Vec::new();
    let mut k: usize = 0;
    while k < sorted.len()
        invariant
            k <= sorted@.len(),
            sv == named_view(sorted@),
            out@.len() == k,
            forall|j: int| 0 <= j < k ==> (#[trigger] out@[j])@ == sv[j].0,
        decreases sorted@.len() - k,
    {
        out.push(sorted[k].0.clone());
        k = k + 1;
    }
    proof {
        assert(strings_of(out@) =~= sorted_pins(strings_of(pins@)));
    }
    out
}

/// The description of a circuit.
pub fn serialize_circuit(c: &CircuitFacts, filters: &Filters) -> (r: JsonValue)
    ensures
        r@ == circuit_json(*c, filters@),
{
    let ghost f = filters@;
    let pins = sorted_names(&c.pins);
    let mut subs: Vec<JsonValue> = Vec::new();
    let mut ids: Vec<u64> = Vec::new();
    let mut i: usize = 0;
    proof {
        reveal_strlit("name");
        reveal_strlit("circuit_ref");
        reveal_strlit("transform");
        reveal_strlit("pins");
        reveal_strlit("subcircuits");
        reveal_strlit("nets");
        assert(Seq::new(subs@.len(), |q: int| subs@[q]@) =~= Seq::<JsonV>::empty());
    }
    while i < c.subcircuits.len()
        invariant
            i <= c.subcircuits@.len(),
            f == filters@,
            (Seq::new(subs@.len(), |q: int| subs@[q]@), ids@) == kept_subs(c.subcircuits@, f, i as int),
        decreases c.subcircuits@.len() - i,
    {
        let s = &c.subcircuits[i];
        let included = match &filters.include_instances {
            Some(inc) => contains_string(inc, &s.circuit_ref),
            None => true,
        };
        let excluded = match &filters.exclude_instances {
            Some(exc) => contains_string(exc, &s.circuit_ref),
            None => false,
        };
        if included && !excluded {
            let mut entries: Vec<(String, JsonValue)> = Vec::new();
            entries.push(("name".to_owned(), JsonValue::Str(sub_label(s.id, &s.name))));
            entries.push(("circuit_ref".to_owned(), JsonValue::Str(s.circuit_ref.clone())));
            entries.push(("transform".to_owned(), JsonValue::Str(s.transform.clone())));
            let v = JsonValue::Object(entries);
            proof {
                assert(v@->Object_0.len() == 3);
                assert(v@->Object_0[0] == (entries@[0].0@, entries@[0].1@));
                assert(v@->Object_0[1] == (entries@[1].0@, entries@[1].1@));
                assert(v@->Object_0[2] == (entries@[2].0@, entries@[2].1@));
                assert(v@->Object_0 =~= sub_json(*s)->Object_0);
            }
            let ghost before = Seq::new(subs@.len(), |q: int| subs@[q]@);
            subs.push(v);
            ids.push(s.id);
            proof {
                assert(Seq::new(subs@.len(), |q: int| subs@[q]@) =~= before.push(v@));
            }
        }
        i = i + 1;
    }
    let filtered = filters.include_instances.is_some() || filters.exclude_instances.is_some();
    let mut nets: Vec<JsonValue> = Vec::new();
    let ghost sel = if filtered {
        Some(ids@)
    } else {
        None::<Seq<u64>>
    };
    let mut k: usize = 0;
    proof {
        assert(Seq::new(nets@.len(), |q: int| nets@[q]@) =~= Seq::<JsonV>::empty());
    }
    while k < c.nets.len()
        invariant
            k <= c.nets@.len(),
            f == filters@,
            sel == if filtered { Some(ids@) } else { None::<Seq<u64>> },
            Seq::new(nets@.len(), |q: int| nets@[q]@) == nets_json(c.nets@, sel, f, k as int),
        decreases c.nets@.len() - k,
    {
        let j = if filtered {
            serialize_net(&c.nets[k], Some(&ids), filters)
        } else {
            serialize_net(&c.nets[k], None, filters)
        };
        match j {
            Some(v) => {
                let ghost before = Seq::new(nets@.len(), |q: int| nets@[q]@);
                nets.push(v);
                proof {
                    assert(Seq::new(nets@.len(), |q: int| nets@[q]@) =~= before.push(v@));
                }
            },
            None => {},
        }
        k = k + 1;
    }
    let ghost sv = Seq::new(subs@.len(), |q: int| subs@[q]@);
    let ghost nv = Seq::new(nets@.len(), |q: int| nets@[q]@);
    let mut entries: Vec<(String, JsonValue)> = Vec::new();
    if pins.len() > 0 {
        entries.push(("pins".to_owned(), strs_value(&pins)));
    }
    let ghost e1 = map_view(entries@);
    if subs.len() > 0 {
        let a = JsonValue::Array(subs);
        proof {
            assert(a@->Array_0 =~= sv);
        }
        entries.push(("subcircuits".to_owned(), a));
    }
    let ghost e2 = map_view(entries@);
    if nets.len() > 0 {
        let a = JsonValue::Array(nets);
        proof {
            assert(a@->Array_0 =~= nv);
        }
        entries.push(("nets".to_owned(), a));
    }
    let r = JsonValue::Object(entries);
    proof {
        let pv = sorted_pins(strings_of(c.pins@));
        assert(e1 =~= if pv.len() > 0 { seq![("pins"@, strs_json(pv))] } else { Seq::empty() });
        assert(e2 =~= e1 + (if sv.len() > 0 { seq![("subcircuits"@, JsonV::Array(sv))] } else { Seq::empty() }));
        assert(map_view(entries@) =~= e2 + (if nv.len() > 0 { seq![("nets"@, JsonV::Array(nv))] } else { Seq::empty() }));
        assert(r@->Object_0 =~= map_view(entries@));
    }
    r
}

impl View for LayerKey {
    type V = (i32, i32, Seq<char>);

    open spec fn view(&self) -> (i32, i32, Seq<char>) {
        layer_view(*self)
    }
}

/// A layer of the extraction, with its display name.
pub struct LayerFacts {
    pub layer: LayerKey,
    pub display: String,
}

/// Whether the layer filters report a layer.
pub open spec fn layer_reported(f: FiltersV, l: (i32, i32, Seq<char>)) -> bool {
    &&& match f.include_layers {
        Some(inc) => inc.contains(l),
        None => true,
    }
    &&& match f.exclude_layers {
        Some(exc) => !exc.contains(l),
        None => true,
    }
}

/// The first `n` reported layers, by display name and layer.
pub open spec fn reported_layers(ls: Seq<LayerFacts>, f: FiltersV, n: int) -> Seq<(Seq<char>, (i32, i32, Seq<char>))>
    decreases n,
{
    if n <= 0 {
        Seq::empty()
    } else if layer_reported(f, layer_view(ls[n - 1].layer)) {
        reported_layers(ls, f, n - 1).push((ls[n - 1].display@, layer_view(ls[n - 1].layer)))
    } else {
        reported_layers(ls, f, n - 1)
    }
}

pub open spec fn layer_entry_json(e: (Seq<char>, (i32, i32, Seq<char>))) -> JsonV {
    JsonV::Object(
        seq![
            ("name"@, JsonV::Str(e.0)),
            ("layer"@, int_json(e.1.0 as int)),
            ("datatype"@, int_json(e.1.1 as int)),
        ],
    )
}

/// A JSON number of a double given by its bits: null when it is not finite.
pub open spec fn dbu_json(bits: u64) -> JsonV {
    if (bits >> 52u64) & 0x7ffu64 == 0x7ffu64 {
        JsonV::Null
    } else {
        JsonV::Float(bits)
    }
}

pub open spec fn circuits_fold(cs: Seq<(Seq<char>, JsonV)>, n: int) -> Seq<(Seq<char>, JsonV)>
    decreases n,
{
    if n <= 0 {
        Seq::empty()
    } else {
        vmap_insert(circuits_fold(cs, n - 1), cs[n - 1].0, cs[n - 1].1)
    }
}

/// The description of an extraction: its top circuit, its database unit,
/// its reported layers sorted by display name, and its circuits by name.
pub open spec fn l2n_json(
    top: Seq<char>,
    dbu_bits: u64,
    ls: Seq<LayerFacts>,
    cs: Seq<(Seq<char>, JsonV)>,
    f: FiltersV,
) -> JsonV {
    let sorted = sort_by_name(reported_layers(ls, f, ls.len() as int));
    JsonV::Object(
        seq![
            ("top_circuit"@, JsonV::Str(top)),
            ("dbu"@, dbu_json(dbu_bits)),
            ("layers"@, JsonV::Array(Seq::new(sorted.len(), |i: int| layer_entry_json(sorted[i])))),
            ("circuits"@, JsonV::Object(circuits_fold(cs, cs.len() as int))),
        ],
    )
}

fn copy_layer(l: &LayerKey) -> (r: LayerKey)
    ensures
        layer_view(r) == layer_view(*l),
{
    LayerKey { layer: l.layer, datatype: l.datatype, name: l.name.clone() }
}

/// The description of an extraction, given the descriptions of its circuits
/// in order.
pub fn l2n_document(
    top: &String,
    dbu_bits: u64,
    layers: &Vec<LayerFacts>,
    circuits: Vec<(String, JsonValue)>,
    filters: &Filters,
) -> (r: JsonValue)
    ensures
        r@ == l2n_json(top@, dbu_bits, layers@, map_view(circuits@), filters@),
{
    let ghost f = filters@;
    let mut reported: Vec<(String, LayerKey)> = Vec::new();
    let mut i: usize = 0;
    proof {
        assert(named_view(reported@) =~= Seq::<(Seq<char>, (i32, i32, Seq<char>))>::empty());
    }
    while i < layers.len()
        invariant
            i <= layers@.len(),
            f == filters@,
            named_view(reported@) == reported_layers(layers@, f, i as int),
        decreases layers@.len() - i,
    {
        let l = &layers[i];
        let inc = match &filters.include_layers {
            Some(v) => layer_in(v, &l.layer),
            None => true,
        };
        let exc = match &filters.exclude_layers {
            Some(v) => layer_in(v, &l.layer),
            None => false,
        };
        if inc && !exc {
            let ghost before = named_view(reported@);
            reported.push((l.display.clone(), copy_layer(&l.layer)));
            proof {
                assert(named_view(reported@) =~= before.push((l.display@, layer_view(l.layer))));
            }
        }
        i = i + 1;
    }
    let sorted = sort_entries(reported);
    let ghost sv = named_view(sorted@);
    proof {
        reveal_strlit("name");
        reveal_strlit("layer");
        reveal_strlit("datatype");
        reveal_strlit("top_circuit");
        reveal_strlit("dbu");
        reveal_strlit("layers");
        reveal_strlit("circuits");
    }
    let mut entries: Vec<JsonValue> = Vec::new();
    let mut k: usize = 0;
    while k < sorted.len()
        invariant
            k <= sorted@.len(),
            sv == named_view(sorted@),
            entries@.len() == k,
            forall|j: int| 0 <= j < k ==> (#[trigger] entries@[j])@ == layer_entry_json(sv[j]),
        decreases sorted@.len() - k,
    {
        let e = &sorted[k];
        let mut fields: Vec<(String, JsonValue)> = Vec::new();
        fields.push(("name".to_owned(), JsonValue::Str(e.0.clone())));
        fields.push(("layer".to_owned(), int_value(e.1.layer as i64)));
        fields.push(("datatype".to_owned(), int_value(e.1.datatype as i64)));
        let v = JsonValue::Object(fields);
        proof {
            assert(sv[k as int] == (e.0@, layer_view(e.1)));
            assert(v@->Object_0.len() == 3);
            assert(v@->Object_0[0] == (fields@[0].0@, fields@[0].1@));
            assert(v@->Object_0[1] == (fields@[1].0@, fields@[1].1@));
            assert(v@->Object_0[2] == (fields@[2].0@, fields@[2].1@));
            assert(v@->Object_0 =~= layer_entry_json(sv[k as int])->Object_0);
        }
        entries.push(v);
        k = k + 1;
    }
    let ghost cv = map_view(circuits@);
    let mut rest = circuits;
    let mut folded: Vec<(String, JsonValue)> = Vec::new();
    let ghost mut c: int = 0;
    proof {
        assert(map_view(folded@) =~= Seq::<(Seq<char>, JsonV)>::empty());
        assert(map_view(rest@) =~= cv.skip(0));
    }
    while rest.len() > 0
        invariant
            0 <= c <= cv.len(),
            map_view(rest@) == cv.skip(c),
            map_view(folded@) == circuits_fold(cv, c),
        decreases rest@.len(),
    {
        let ghost r0 = rest@;
        proof {
            assert(map_view(r0).len() == r0.len());
            assert(c < cv.len());
            assert(cv.skip(c)[0] == cv[c]);
            assert(map_view(r0)[0] == cv[c]);
        }
        let (name, value) = rest.remove(0);
        json_insert(&mut folded, name, value);
        proof {
            assert(rest@ =~= r0.drop_first());
            assert(map_view(rest@) =~= map_view(r0).drop_first());
            assert(cv.skip(c).drop_first() =~= cv.skip(c + 1));
            c = c + 1;
        }
    }
    proof {
        assert(cv.skip(c).len() == 0);
    }
    let dbu = if (dbu_bits >> 52u64) & 0x7ffu64 == 0x7ffu64 {
        JsonValue::Null
    } else {
        JsonValue::Float(dbu_bits)
    };
    let ghost ev = Seq::new(entries@.len(), |q: int| entries@[q]@);
    let ghost fv = map_view(folded@);
    let mut out: Vec<(String, JsonValue)> = Vec::new();
    out.push(("top_circuit".to_owned(), JsonValue::Str(top.clone())));
    out.push(("dbu".to_owned(), dbu));
    out.push(("layers".to_owned(), JsonValue::Array(entries)));
    out.push(("circuits".to_owned(), JsonValue::Object(folded)));
    let r = JsonValue::Object(out);
    proof {
        assert(ev =~= Seq::new(sv.len(), |q: int| layer_entry_json(sv[q])));
        assert(out@[2].1@->Array_0 =~= ev);
        assert(out@[3].1@->Object_0 =~= fv);
        assert(r@->Object_0.len() == 4);
        assert(r@->Object_0[0] == (out@[0].0@, out@[0].1@));
        assert(r@->Object_0[1] == (out@[1].0@, out@[1].1@));
        assert(r@->Object_0[2] == (out@[2].0@, out@[2].1@));
        assert(r@->Object_0[3] == (out@[3].0@, out@[3].1@));
        assert(r@->Object_0 =~= l2n_json(top@, dbu_bits, layers@, cv, f)->Object_0);
    }
    r
}

} // verus!
