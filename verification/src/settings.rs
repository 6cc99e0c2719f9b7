//! Setting values handed over by a caller, and their encoding: native objects
//! become tagged text, containers are encoded element by element, and opaque
//! values pass through untouched.
use vstd::prelude::*;
use crate::text::concat;

verus! {

/// A setting value: nested maps and sequences, a native object given by class
/// name and text, its encoded form, or a value owned by the caller.
pub enum Setting<T> {
    Mapping(Vec<(String, Setting<T>)>),
    List(Vec<Setting<T>>),
    Tuple(Vec<Setting<T>>),
    Native { class: String, text: String },
    Encoded(String),
    Opaque(T),
}

/// The content of a setting.
pub enum SettingV<T> {
    Mapping(Seq<(Seq<char>, SettingV<T>)>),
    List(Seq<SettingV<T>>),
    Tuple(Seq<SettingV<T>>),
    Native(Seq<char>, Seq<char>),
    Encoded(Seq<char>),
    Opaque(T),
}

/// The content of the `i`-th setting of `v`.
pub open spec fn views_at<T>(v: Seq<Setting<T>>, i: int) -> SettingV<T>
    decreases v, 0int,
{
    if 0 <= i < v.len() {
        setting_view(v[i])
    } else {
        SettingV::Encoded(Seq::empty())
    }
}

pub open spec fn setting_view<T>(s: Setting<T>) -> SettingV<T>
    decreases s, 1int,
{
    match s {
        Setting::Mapping(v) => SettingV::Mapping(
            Seq::new(
                v@.len(),
                |i: int|
                    if 0 <= i < v@.len() {
                        (v@[i].0@, setting_view(v@[i].1))
                    } else {
                        (Seq::empty(), SettingV::Encoded(Seq::empty()))
                    },
            ),
        ),
        Setting::List(v) => SettingV::List(Seq::new(v@.len(), |i: int| views_at(v@, i))),
        Setting::Tuple(v) => SettingV::Tuple(Seq::new(v@.len(), |i: int| views_at(v@, i))),
        Setting::Native { class, text } => SettingV::Native(class@, text@),
        Setting::Encoded(t) => SettingV::Encoded(t@),
        Setting::Opaque(x) => SettingV::Opaque(x),
    }
}

/// The tagged text of a native object: `!#`, its class, a blank, its text.
pub open spec fn native_text(class: Seq<char>, text: Seq<char>) -> Seq<char> {
    "!#"@ + class + seq![' '] + text
}

/// The encoding of a setting: each native object, however deeply nested,
/// replaced by its tagged text; everything else kept.
pub open spec fn encoded<T>(s: SettingV<T>) -> SettingV<T>
    decreases s,
{
    match s {
        SettingV::Mapping(es) => SettingV::Mapping(
            Seq::new(
                es.len(),
                |i: int|
                    if 0 <= i < es.len() {
                        (es[i].0, encoded(es[i].1))
                    } else {
                        (Seq::empty(), SettingV::Encoded(Seq::empty()))
                    },
            ),
        ),
        SettingV::List(xs) => SettingV::List(
            Seq::new(xs.len(), |i: int| if 0 <= i < xs.len() { encoded(xs[i]) } else { xs[0] }),
        ),
        SettingV::Tuple(xs) => SettingV::Tuple(
            Seq::new(xs.len(), |i: int| if 0 <= i < xs.len() { encoded(xs[i]) } else { xs[0] }),
        ),
        SettingV::Native(c, t) => SettingV::Encoded(native_text(c, t)),
        SettingV::Encoded(t) => SettingV::Encoded(t),
        SettingV::Opaque(x) => SettingV::Opaque(x),
    }
}

/// Encoding is idempotent: an encoded setting holds no native object, so
/// encoding it again changes nothing.
pub proof fn lemma_encode_idempotent<T>(s: SettingV<T>)
    ensures
        encoded(encoded(s)) == encoded(s),
    decreases s,
{
    match s {
        SettingV::Mapping(es) => {
            let e1 = encoded(s)->Mapping_0;
            let e2 = encoded(encoded(s))->Mapping_0;
            assert forall|i: int| 0 <= i < es.len() implies e2[i] == e1[i] by {
                assert(decreases_to!(s => es[i].1));
                lemma_encode_idempotent(es[i].1);
            }
            assert(e2 =~= e1);
        },
        SettingV::List(xs) => {
            let e1 = encoded(s)->List_0;
            let e2 = encoded(encoded(s))->List_0;
            assert forall|i: int| 0 <= i < xs.len() implies e2[i] == e1[i] by {
                assert(decreases_to!(s => xs[i]));
                lemma_encode_idempotent(xs[i]);
            }
            assert(e2 =~= e1);
        },
        SettingV::Tuple(xs) => {
            let e1 = encoded(s)->Tuple_0;
            let e2 = encoded(encoded(s))->Tuple_0;
            assert forall|i: int| 0 <= i < xs.len() implies e2[i] == e1[i] by {
                assert(decreases_to!(s => xs[i]));
                lemma_encode_idempotent(xs[i]);
            }
            assert(e2 =~= e1);
        },
        _ => {},
    }
}

fn encode_all<T>(values: Vec<Setting<T>>) -> (r: Vec<Setting<T>>)
    ensures
        r@.len() == values@.len(),
        forall|i: int|
            0 <= i < values@.len() ==> setting_view(#[trigger] r@[i]) == encoded(setting_view(values@[i])),
    decreases values,
{
    let ghost orig = values@;
    let mut rest = values;
    let mut out: Vec<Setting<T>> = Vec::new();
    while rest.len() > 0
        invariant
            rest@ == orig.skip(out@.len() as int),
            out@.len() <= orig.len(),
            orig == values@,
            forall|i: int| 0 <= i < out@.len() ==> setting_view(#[trigger] out@[i]) == encoded(setting_view(orig[i])),
        decreases rest@.len(),
    {
        let ghost k = out@.len() as int;
        assert(k < orig.len());
        let x = rest.remove(0);
        proof {
            assert(x == orig[k]);
            assert(decreases_to!(values => values@));
            assert(decreases_to!(values@ => values@[k]));
        }
        let e = x.encode();
        out.push(e);
        proof {
            assert(rest@ =~= orig.skip(out@.len() as int));
        }
    }
    out
}

fn encode_entries<T>(values: Vec<(String, Setting<T>)>) -> (r: Vec<(String, Setting<T>)>)
    ensures
        r@.len() == values@.len(),
        forall|i: int|
            0 <= i < values@.len() ==> (#[trigger] r@[i]).0@ == values@[i].0@ && setting_view(r@[i].1)
                == encoded(setting_view(values@[i].1)),
    decreases values,
{
    let ghost orig = values@;
    let mut rest = values;
    let mut out: Vec<(String, Setting<T>)> = Vec::new();
    while rest.len() > 0
        invariant
            rest@ == orig.skip(out@.len() as int),
            out@.len() <= orig.len(),
            orig == values@,
            forall|i: int| 0 <= i < out@.len() ==> (#[trigger] out@[i]).0@ == orig[i].0@
                && setting_view(out@[i].1) == encoded(setting_view(orig[i].1)),
        decreases rest@.len(),
    {
        let ghost k = out@.len() as int;
        assert(k < orig.len());
        let (key, x) = rest.remove(0);
        proof {
            assert((key, x) == orig[k]);
            assert(decreases_to!(values => values@));
            assert(decreases_to!(values@ => values@[k]));
            assert(decreases_to!(values@[k] => values@[k].1));
        }
        let e = x.encode();
        out.push((key, e));
        proof {
            assert(rest@ =~= orig.skip(out@.len() as int));
        }
    }
    out
}

impl<T> Setting<T> {
    /// Replace every native object by its tagged text, at any depth.
    pub fn encode(self) -> (r: Setting<T>)
        ensures
            setting_view(r) == encoded(setting_view(self)),
        decreases self,
    {
        let ghost sv = setting_view(self);
        match self {
            Setting::Mapping(values) => {
                let ghost vv = values@;
                let out = encode_entries(values);
                let r = Setting::Mapping(out);
                proof {
                    let a = setting_view(r)->Mapping_0;
                    let b = encoded(sv)->Mapping_0;
                    assert(a.len() == b.len());
                    assert forall|i: int| 0 <= i < a.len() implies a[i] == b[i] by {
                        assert(sv->Mapping_0[i] == (vv[i].0@, setting_view(vv[i].1)));
                    }
                    assert(a =~= b);
                }
                r
            },
            Setting::List(values) => {
                let ghost vv = values@;
                let out = encode_all(values);
                let r = Setting::List(out);
                proof {
                    let a = setting_view(r)->List_0;
                    let b = encoded(sv)->List_0;
                    assert forall|i: int| 0 <= i < a.len() implies a[i] == b[i] by {
                        assert(sv->List_0[i] == views_at(vv, i));
                        assert(a[i] == views_at(out@, i));
                    }
                    assert(a =~= b);
                }
                r
            },
            Setting::Tuple(values) => {
                let ghost vv = values@;
                let out = encode_all(values);
                let r = Setting::Tuple(out);
                proof {
                    let a = setting_view(r)->Tuple_0;
                    let b = encoded(sv)->Tuple_0;
                    assert forall|i: int| 0 <= i < a.len() implies a[i] == b[i] by {
                        assert(sv->Tuple_0[i] == views_at(vv, i));
                        assert(a[i] == views_at(out@, i));
                    }
                    assert(a =~= b);
                }
                r
            },
            Setting::Native { class, text } => {
                let head = concat("!#", class.as_str());
                let head = concat(head.as_str(), " ");
                let r = concat(head.as_str(), text.as_str());
                proof {
                    reveal_strlit("!#");
                    reveal_strlit(" ");
                    assert(r@ =~= native_text(class@, text@));
                }
                Setting::Encoded(r)
            },
            other => other,
        }
    }
}

} // verus!
