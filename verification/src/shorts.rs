//! Shorts: pairs of distinct nets of one circuit whose shapes overlap on a
//! layer. Which shapes overlap is found by the layout engine; this module
//! decides which layers are examined, how nets are named, and in which order
//! the pairs are reported.
use vstd::prelude::*;
use crate::parser::{LayerKey, layer_set, layer_view, sub_name, sub_label, layer_in};
use crate::text::nat_text;

verus! {

/// The nets of a circuit that have shapes on one layer, with, for each pair
/// of them, whether those shapes overlap.
pub struct LayerNets {
    pub layer: LayerKey,
    /// The layer's name as reported.
    pub display: String,
    /// Cluster id and name of each net with shapes on the layer, in the
    /// circuit's order.
    pub nets: Vec<(u64, String)>,
    /// `overlap[i][j]` (for `i < j`): the shapes of nets `i` and `j` overlap.
    pub overlap: Vec<Vec<bool>>,
}

/// Two nets whose shapes overlap on a layer. `layer_index` is the layer's
/// position in the input, `first` and `second` the nets' positions in its list.
pub struct Short {
    pub net_a: String,
    pub net_b: String,
    pub layer: String,
    pub layer_index: usize,
    pub first: usize,
    pub second: usize,
}

pub open spec fn short_view(s: Short) -> (Seq<char>, Seq<char>, Seq<char>, int, int, int) {
    (s.net_a@, s.net_b@, s.layer@, s.layer_index as int, s.first as int, s.second as int)
}

pub open spec fn shorts_view(v: Seq<Short>) -> Seq<(Seq<char>, Seq<char>, Seq<char>, int, int, int)> {
    Seq::new(v.len(), |i: int| short_view(v[i]))
}

/// A layer's matrix holds a row of the right length for each of its nets.
pub open spec fn layer_wf(l: LayerNets) -> bool {
    &&& l.overlap@.len() == l.nets@.len()
    &&& forall|i: int| 0 <= i < l.overlap@.len() ==> (#[trigger] l.overlap@[i])@.len() == l.nets@.len()
}

/// How a net is named in a short: its name, or `$` and its cluster id.
pub open spec fn net_label(n: (u64, String)) -> Seq<char> {
    sub_name(n.0, n.1@)
}

/// The shorts of net `i` with its partners `i + 1 .. j`, in order.
pub open spec fn row_shorts(l: LayerNets, k: int, i: int, j: int) -> Seq<(Seq<char>, Seq<char>, Seq<char>, int, int, int)>
    decreases j - i,
{
    if j <= i + 1 {
        seq![]
    } else {
        row_shorts(l, k, i, j - 1) + if l.overlap@[i]@[j - 1] {
            seq![(net_label(l.nets@[i]), net_label(l.nets@[j - 1]), l.display@, k, i, j - 1)]
        } else {
            seq![]
        }
    }
}

/// The shorts on one layer (at position `k`) among pairs whose first net is
/// before `n`: pairs in order of their first net, then of their second.
pub open spec fn layer_shorts(l: LayerNets, k: int, n: int) -> Seq<(Seq<char>, Seq<char>, Seq<char>, int, int, int)>
    decreases n,
{
    if n <= 0 {
        seq![]
    } else {
        layer_shorts(l, k, n - 1) + row_shorts(l, k, n - 1, l.nets@.len() as int)
    }
}

/// A layer is examined when no set of layers is given, or when it is in the set.
pub open spec fn layer_examined(allowed: Option<Seq<LayerKey>>, l: LayerKey) -> bool {
    match allowed {
        None => true,
        Some(a) => layer_set(a).contains(layer_view(l)),
    }
}

/// The shorts on the examined layers among the first `n`, layer by layer.
pub open spec fn shorts_spec(ls: Seq<LayerNets>, allowed: Option<Seq<LayerKey>>, n: int) -> Seq<(Seq<char>, Seq<char>, Seq<char>, int, int, int)>
    decreases n,
{
    if n <= 0 {
        seq![]
    } else {
        shorts_spec(ls, allowed, n - 1) + if layer_examined(allowed, ls[n - 1].layer) {
            layer_shorts(ls[n - 1], n - 1, ls[n - 1].nets@.len() as int)
        } else {
            seq![]
        }
    }
}

/// The short between nets `i` and `j` of layer `l`, at position `k`.
pub open spec fn short_of(l: LayerNets, k: int, i: int, j: int) -> (Seq<char>, Seq<char>, Seq<char>, int, int, int) {
    (net_label(l.nets@[i]), net_label(l.nets@[j]), l.display@, k, i, j)
}

/// `x` comes before `y`: by layer position, then first net, then second.
pub open spec fn short_before(
    x: (Seq<char>, Seq<char>, Seq<char>, int, int, int),
    y: (Seq<char>, Seq<char>, Seq<char>, int, int, int),
) -> bool {
    x.3 < y.3 || (x.3 == y.3 && (x.4 < y.4 || (x.4 == y.4 && x.5 < y.5)))
}

pub open spec fn shorts_ordered(s: Seq<(Seq<char>, Seq<char>, Seq<char>, int, int, int)>) -> bool {
    forall|p: int, q: int| 0 <= p < q < s.len() ==> short_before(#[trigger] s[p], #[trigger] s[q])
}

proof fn lemma_contains_concat<T>(a: Seq<T>, b: Seq<T>, x: T)
    requires
        a.contains(x) || b.contains(x),
    ensures
        (a + b).contains(x),
{
    if a.contains(x) {
        let p = choose|p: int| 0 <= p < a.len() && a[p] == x;
        assert((a + b)[p] == x);
    } else {
        let p = choose|p: int| 0 <= p < b.len() && b[p] == x;
        assert((a + b)[a.len() + p] == x);
    }
}

proof fn lemma_ordered_concat(
    a: Seq<(Seq<char>, Seq<char>, Seq<char>, int, int, int)>,
    b: Seq<(Seq<char>, Seq<char>, Seq<char>, int, int, int)>,
)
    requires
        shorts_ordered(a),
        shorts_ordered(b),
        forall|p: int, q: int| 0 <= p < a.len() && 0 <= q < b.len() ==> short_before(#[trigger] a[p], #[trigger] b[q]),
    ensures
        shorts_ordered(a + b),
{
    let s = a + b;
    assert forall|p: int, q: int| 0 <= p < q < s.len() implies short_before(#[trigger] s[p], #[trigger] s[q]) by {
        if q < a.len() {
            assert(s[p] == a[p] && s[q] == a[q]);
        } else if p < a.len() {
            assert(s[p] == a[p] && s[q] == b[q - a.len()]);
        } else {
            assert(s[p] == b[p - a.len()] && s[q] == b[q - a.len()]);
        }
    }
}

proof fn lemma_row_shorts(l: LayerNets, k: int, i: int, j: int)
    requires
        0 <= i,
        j <= l.nets@.len(),
    ensures
        forall|q: int| 0 <= q < row_shorts(l, k, i, j).len() ==> {
            let e = #[trigger] row_shorts(l, k, i, j)[q];
            &&& e.3 == k && e.4 == i && i < e.5 < j
            &&& l.overlap@[i]@[e.5]
            &&& e == short_of(l, k, i, e.5)
        },
        forall|b: int| i < b < j && #[trigger] l.overlap@[i]@[b] ==> row_shorts(l, k, i, j).contains(short_of(l, k, i, b)),
        shorts_ordered(row_shorts(l, k, i, j)),
    decreases j - i,
{
    if j > i + 1 {
        lemma_row_shorts(l, k, i, j - 1);
        let a = row_shorts(l, k, i, j - 1);
        let b: Seq<(Seq<char>, Seq<char>, Seq<char>, int, int, int)> = if l.overlap@[i]@[j - 1] {
            seq![short_of(l, k, i, j - 1)]
        } else {
            seq![]
        };
        let s = row_shorts(l, k, i, j);
        assert(s == a + b);
        assert forall|q: int| 0 <= q < s.len() implies {
            let e = #[trigger] s[q];
            &&& e.3 == k && e.4 == i && i < e.5 < j
            &&& l.overlap@[i]@[e.5]
            &&& e == short_of(l, k, i, e.5)
        } by {
            if q < a.len() {
                assert(s[q] == a[q]);
            } else {
                assert(s[q] == b[q - a.len()]);
            }
        }
        assert forall|c: int| i < c < j && #[trigger] l.overlap@[i]@[c] implies s.contains(short_of(l, k, i, c)) by {
            if c == j - 1 {
                assert(b[0] == short_of(l, k, i, c));
                assert(b.contains(short_of(l, k, i, c)));
            }
            lemma_contains_concat(a, b, short_of(l, k, i, c));
        }
        lemma_ordered_concat(a, b);
    }
}

proof fn lemma_layer_shorts(l: LayerNets, k: int, n: int)
    requires
        0 <= n <= l.nets@.len(),
    ensures
        forall|q: int| 0 <= q < layer_shorts(l, k, n).len() ==> {
            let e = #[trigger] layer_shorts(l, k, n)[q];
            &&& e.3 == k && 0 <= e.4 < n && e.4 < e.5 < l.nets@.len()
            &&& l.overlap@[e.4]@[e.5]
            &&& e == short_of(l, k, e.4, e.5)
        },
        forall|a: int, b: int| 0 <= a < n && a < b < l.nets@.len() && #[trigger] l.overlap@[a]@[b] ==> layer_shorts(l, k, n).contains(
            short_of(l, k, a, b),
        ),
        shorts_ordered(layer_shorts(l, k, n)),
    decreases n,
{
    if n > 0 {
        lemma_layer_shorts(l, k, n - 1);
        lemma_row_shorts(l, k, n - 1, l.nets@.len() as int);
        let a = layer_shorts(l, k, n - 1);
        let b = row_shorts(l, k, n - 1, l.nets@.len() as int);
        let s = layer_shorts(l, k, n);
        assert(s == a + b);
        assert forall|q: int| 0 <= q < s.len() implies {
            let e = #[trigger] s[q];
            &&& e.3 == k && 0 <= e.4 < n && e.4 < e.5 < l.nets@.len()
            &&& l.overlap@[e.4]@[e.5]
            &&& e == short_of(l, k, e.4, e.5)
        } by {
            if q < a.len() {
                assert(s[q] == a[q]);
            } else {
                assert(s[q] == b[q - a.len()]);
            }
        }
        assert forall|x: int, y: int| 0 <= x < n && x < y < l.nets@.len() && #[trigger] l.overlap@[x]@[y] implies s.contains(
            short_of(l, k, x, y),
        ) by {
            lemma_contains_concat(a, b, short_of(l, k, x, y));
        }
        assert forall|p: int, q: int| 0 <= p < a.len() && 0 <= q < b.len() implies short_before(#[trigger] a[p], #[trigger] b[q]) by {}
        lemma_ordered_concat(a, b);
    }
}

proof fn lemma_shorts_upto(ls: Seq<LayerNets>, allowed: Option<Seq<LayerKey>>, n: int)
    requires
        0 <= n <= ls.len(),
    ensures
        forall|q: int| 0 <= q < shorts_spec(ls, allowed, n).len() ==> {
            let e = #[trigger] shorts_spec(ls, allowed, n)[q];
            &&& 0 <= e.3 < n && layer_examined(allowed, ls[e.3].layer)
            &&& 0 <= e.4 < e.5 < ls[e.3].nets@.len()
            &&& ls[e.3].overlap@[e.4]@[e.5]
            &&& e == short_of(ls[e.3], e.3, e.4, e.5)
        },
        forall|k: int, a: int, b: int|
            0 <= k < n && layer_examined(allowed, ls[k].layer) && 0 <= a < b < ls[k].nets@.len() && #[trigger] ls[k].overlap@[a]@[b]
                ==> shorts_spec(ls, allowed, n).contains(short_of(ls[k], k, a, b)),
        shorts_ordered(shorts_spec(ls, allowed, n)),
    decreases n,
{
    if n > 0 {
        lemma_shorts_upto(ls, allowed, n - 1);
        let l = ls[n - 1];
        lemma_layer_shorts(l, n - 1, l.nets@.len() as int);
        let a = shorts_spec(ls, allowed, n - 1);
        let b = if layer_examined(allowed, l.layer) {
            layer_shorts(l, n - 1, l.nets@.len() as int)
        } else {
            seq![]
        };
        let s = shorts_spec(ls, allowed, n);
        assert(s == a + b);
        assert forall|q: int| 0 <= q < s.len() implies {
            let e = #[trigger] s[q];
            &&& 0 <= e.3 < n && layer_examined(allowed, ls[e.3].layer)
            &&& 0 <= e.4 < e.5 < ls[e.3].nets@.len()
            &&& ls[e.3].overlap@[e.4]@[e.5]
            &&& e == short_of(ls[e.3], e.3, e.4, e.5)
        } by {
            if q < a.len() {
                assert(s[q] == a[q]);
            } else {
                assert(s[q] == b[q - a.len()]);
            }
        }
        assert forall|k: int, x: int, y: int|
            0 <= k < n && layer_examined(allowed, ls[k].layer) && 0 <= x < y < ls[k].nets@.len() && #[trigger] ls[k].overlap@[x]@[y]
                implies s.contains(short_of(ls[k], k, x, y)) by {
            if k == n - 1 {
                assert(l.overlap@[x]@[y]);
            }
            lemma_contains_concat(a, b, short_of(ls[k], k, x, y));
        }
        assert forall|p: int, q: int| 0 <= p < a.len() && 0 <= q < b.len() implies short_before(#[trigger] a[p], #[trigger] b[q]) by {}
        lemma_ordered_concat(a, b);
    }
}

/// How a net is named in a short, spelled out: its name, or `$` and its
/// cluster id where its name is empty.
pub open spec fn named_net(n: (u64, String)) -> Seq<char> {
    if n.1@.len() == 0 {
        seq!['$'] + nat_text(n.0 as nat)
    } else {
        n.1@
    }
}

/// Whether layer `l` is examined, spelled out: every layer when no set is
/// given, else the layers in the set.
pub open spec fn examined(allowed: Option<Seq<LayerKey>>, l: LayerKey) -> bool {
    allowed is None || layer_set(allowed->0).contains(layer_view(l))
}

/// The shorts are exactly the pairs `i < j` of nets of an examined layer whose
/// entry `overlap[i][j]` holds, each once, reported as its nets' names, the
/// layer's name, its position and the two nets' positions, ordered by layer,
/// then first net, then second.
pub proof fn lemma_shorts_exact(ls: Seq<LayerNets>, allowed: Option<Seq<LayerKey>>)
    ensures
        forall|q: int| 0 <= q < shorts_spec(ls, allowed, ls.len() as int).len() ==> {
            let e = #[trigger] shorts_spec(ls, allowed, ls.len() as int)[q];
            let (k, i, j) = (e.3, e.4, e.5);
            &&& 0 <= k < ls.len() && examined(allowed, ls[k].layer)
            &&& 0 <= i < j < ls[k].nets@.len()
            &&& ls[k].overlap@[i]@[j]
            &&& e == (named_net(ls[k].nets@[i]), named_net(ls[k].nets@[j]), ls[k].display@, k, i, j)
        },
        forall|k: int, i: int, j: int|
            0 <= k < ls.len() && examined(allowed, ls[k].layer) && 0 <= i < j < ls[k].nets@.len() && #[trigger] ls[k].overlap@[i]@[j]
                ==> shorts_spec(ls, allowed, ls.len() as int).contains(
                (named_net(ls[k].nets@[i]), named_net(ls[k].nets@[j]), ls[k].display@, k, i, j),
            ),
        forall|p: int, q: int| 0 <= p < q < shorts_spec(ls, allowed, ls.len() as int).len() ==> {
            let x = #[trigger] shorts_spec(ls, allowed, ls.len() as int)[p];
            let y = #[trigger] shorts_spec(ls, allowed, ls.len() as int)[q];
            x.3 < y.3 || (x.3 == y.3 && (x.4 < y.4 || (x.4 == y.4 && x.5 < y.5)))
        },
{
    lemma_shorts_upto(ls, allowed, ls.len() as int);
    assert forall|l: LayerKey| #[trigger] layer_examined(allowed, l) == examined(allowed, l) by {}
    assert forall|n: (u64, String)| #[trigger] net_label(n) == named_net(n) by {}
}

/// The circuit examined: the one named, unless the name is absent or empty;
/// then the top cell's.
pub open spec fn circuit_choice(given: Option<Seq<char>>, top: Seq<char>) -> Seq<char> {
    match given {
        Some(g) => if g.len() > 0 { g } else { top },
        None => top,
    }
}

/// The name of the circuit in which shorts are looked for.
pub fn short_circuit_name(given: Option<&String>, top: &String) -> (r: String)
    ensures
        r@ == circuit_choice(
            match given {
                Some(g) => Some(g@),
                None => None,
            },
            top@,
        ),
{
    match given {
        Some(g) => if g.as_str().is_empty() {
            top.clone()
        } else {
            g.clone()
        },
        None => top.clone(),
    }
}

fn push_row(out: &mut Vec<Short>, l: &LayerNets, k: usize, i: usize)
    requires
        layer_wf(*l),
        i < l.nets@.len(),
    ensures
        shorts_view(final(out)@) == shorts_view(old(out)@) + row_shorts(*l, k as int, i as int, l.nets@.len() as int),
{
    let n = l.nets.len();
    let mut j: usize = i + 1;
    proof {
        assert(shorts_view(out@) =~= shorts_view(old(out)@) + row_shorts(*l, k as int, i as int, j as int));
    }
    while j < n
        invariant
            layer_wf(*l),
            n == l.nets@.len(),
            i < n,
            i + 1 <= j <= n,
            shorts_view(out@) == shorts_view(old(out)@) + row_shorts(*l, k as int, i as int, j as int),
        decreases n - j,
    {
        let ghost before = shorts_view(out@);
        assert(l.overlap@[i as int]@.len() == n);
        if l.overlap[i][j] {
            let a = sub_label(l.nets[i].0, &l.nets[i].1);
            let b = sub_label(l.nets[j].0, &l.nets[j].1);
            out.push(Short {
                net_a: a,
                net_b: b,
                layer: l.display.clone(),
                layer_index: k,
                first: i,
                second: j,
            });
            proof {
                assert(shorts_view(out@) =~= before + seq![(net_label(l.nets@[i as int]), net_label(l.nets@[j as int]), l.display@, k as int, i as int, j as int)]);
            }
        }
        proof {
            assert(row_shorts(*l, k as int, i as int, j + 1) == row_shorts(*l, k as int, i as int, j as int) + if l.overlap@[i as int]@[j as int] {
                seq![(net_label(l.nets@[i as int]), net_label(l.nets@[j as int]), l.display@, k as int, i as int, j as int)]
            } else {
                seq![]
            });
            assert(shorts_view(out@) =~= shorts_view(old(out)@) + row_shorts(*l, k as int, i as int, j + 1));
        }
        j = j + 1;
    }
}

/// The shorts on the layers examined, layer by layer; on each layer every
/// pair of distinct nets once, in the order of the nets, with the nets named
/// by name or, where that is empty, by `$` and their cluster id.
pub fn detect_shorts(layers: &Vec<LayerNets>, short_layers: Option<&Vec<LayerKey>>) -> (r: Vec<Short>)
    requires
        forall|k: int| 0 <= k < layers@.len() ==> layer_wf(#[trigger] layers@[k]),
    ensures
        shorts_view(r@) == shorts_spec(
            layers@,
            match short_layers {
                Some(a) => Some(a@),
                None => None,
            },
            layers@.len() as int,
        ),
{
    let ghost allowed = match short_layers {
        Some(a) => Some(a@),
        None => None,
    };
    let mut out: Vec<Short> = Vec::new();
    let mut k: usize = 0;
    proof {
        assert(shorts_view(out@) =~= shorts_spec(layers@, allowed, 0));
    }
    while k < layers.len()
        invariant
            k <= layers@.len(),
            forall|q: int| 0 <= q < layers@.len() ==> layer_wf(#[trigger] layers@[q]),
            allowed == match short_layers {
                Some(a) => Some(a@),
                None => None,
            },
            shorts_view(out@) == shorts_spec(layers@, allowed, k as int),
        decreases layers@.len() - k,
    {
        let l = &layers[k];
        let examined = match short_layers {
            Some(a) => layer_in(a, &l.layer),
            None => true,
        };
        let ghost start = shorts_view(out@);
        if examined {
            let n = l.nets.len();
            let mut i: usize = 0;
            proof {
                assert(shorts_view(out@) =~= start + layer_shorts(*l, k as int, 0));
            }
            while i < n
                invariant
                    layer_wf(*l),
                    n == l.nets@.len(),
                    i <= n,
                    shorts_view(out@) == start + layer_shorts(*l, k as int, i as int),
                decreases n - i,
            {
                push_row(&mut out, l, k, i);
                proof {
                    assert(shorts_view(out@) =~= start + layer_shorts(*l, k as int, i + 1));
                }
                i = i + 1;
            }
        }
        proof {
            assert(shorts_view(out@) =~= shorts_spec(layers@, allowed, k + 1));
        }
        k = k + 1;
    }
    out
}

} // verus!
