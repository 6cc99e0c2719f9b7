//! Documents as circuit messages and back. The JSON texts of the document
//! fields that a message keeps as properties, and the numbers of settings, are
//! made by the caller; this module decides where each goes: which properties
//! a module, an instance and a net carry, how parameters are numbered, and how
//! pins, connections and nets become terminals, connections and buses.
use vstd::prelude::*;
use crate::convert::{
    bus_links, links_spec, module_links, module_terminals, net_bus, numbered, terminals_spec,
};
use crate::document::{Instance, InstanceDocV, Module, ModuleV, strings_view, TopLevelModule};
use crate::proto::{
    map_put, put_entry, BusV, Circuit, CircuitV, Module as ModuleMessage, ModuleReference,
    ModuleReferenceV, ModuleV as ModuleMessageV, keys_sorted, lemma_put_next, Parameter, ParameterV, ParameterValue, ParameterValueV, views_of, value_view, copy_value,
};
use crate::text::{chars_of, concat, string_of};
use crate::convert::{
    bus_members, distinct_keys, lemma_insert_next, lemma_links_round_trip, members_from,
    pin_reads_back, reads_back, recover_links, recovered_links,
};
use crate::document::{ArraySpec, doc_instances_view, lemma_map_view_key_index, vmap_insert};
use crate::json::{JsonMap, JsonV, JsonValue, map_view};
use crate::netlist::vkey_index;
use crate::ordmap::{find_key, lemma_key_index, map_insert};
use crate::proto::lemma_named_key_index;
use crate::parser::{insert_sorted, named_view, str_lt};
use crate::netlist::lemma_vkey_index;
use crate::keyed::{value_at, lemma_value_at_sorted, lemma_map_put_sorted, lemma_sorted_unique};
use crate::parser::lemma_str_lt_irreflexive;

verus! {

/// The JSON texts of an instance's array and info, and per setting, in order,
/// its JSON text and its number, where it is one.
pub struct InstanceTexts {
    pub array: String,
    pub info: String,
    pub settings: Vec<(String, Option<ParameterValue>)>,
}

pub struct InstanceTextsV {
    pub array: Seq<char>,
    pub info: Seq<char>,
    pub settings: Seq<(Seq<char>, Option<ParameterValueV>)>,
}

pub open spec fn texts_view(v: Seq<(String, Option<ParameterValue>)>) -> Seq<(Seq<char>, Option<ParameterValueV>)> {
    Seq::new(v.len(), |i: int| (v[i].0@, value_view(v[i].1)))
}

impl View for InstanceTexts {
    type V = InstanceTextsV;

    open spec fn view(&self) -> InstanceTextsV {
        InstanceTextsV { array: self.array@, info: self.info@, settings: texts_view(self.settings@) }
    }
}

/// The JSON texts of a module's name, placements, routes and info; per
/// setting its JSON text and number; per instance its texts; per net the JSON
/// text of its member list.
pub struct ModuleTexts {
    pub name: String,
    pub placements: String,
    pub routes: String,
    pub info: String,
    pub settings: Vec<(String, Option<ParameterValue>)>,
    pub instances: Vec<InstanceTexts>,
    pub members: Vec<String>,
}

pub struct ModuleTextsV {
    pub name: Seq<char>,
    pub placements: Seq<char>,
    pub routes: Seq<char>,
    pub info: Seq<char>,
    pub settings: Seq<(Seq<char>, Option<ParameterValueV>)>,
    pub instances: Seq<InstanceTextsV>,
    pub members: Seq<Seq<char>>,
}

impl View for ModuleTexts {
    type V = ModuleTextsV;

    open spec fn view(&self) -> ModuleTextsV {
        ModuleTextsV {
            name: self.name@,
            placements: self.placements@,
            routes: self.routes@,
            info: self.info@,
            settings: texts_view(self.settings@),
            instances: views_of(self.instances@),
            members: strings_view(self.members@),
        }
    }
}

/// The texts were made for this instance: one per setting.
pub open spec fn instance_texts_fit(i: InstanceDocV, t: InstanceTextsV) -> bool {
    t.settings.len() == i.settings.len()
}

/// The texts were made for this module: one per setting, instance and net.
pub open spec fn module_texts_fit(m: ModuleV, t: ModuleTextsV) -> bool {
    &&& t.settings.len() == m.settings.len()
    &&& t.instances.len() == m.instances.len()
    &&& t.members.len() == m.nets.len()
    &&& forall|i: int| 0 <= i < t.instances.len() ==> instance_texts_fit(m.instances[i].1, #[trigger] t.instances[i])
}

/// The property under which an instance keeps the JSON text of a setting.
pub open spec fn setting_property(key: Seq<char>) -> Seq<char> {
    "__setting__"@ + key
}

/// The numeric overrides of the first `n` settings, by name.
pub open spec fn overrides_upto(
    keys: Seq<(Seq<char>, crate::json::JsonV)>,
    texts: Seq<(Seq<char>, Option<ParameterValueV>)>,
    n: int,
) -> Seq<(Seq<char>, ParameterValueV)>
    decreases n,
{
    if n <= 0 {
        seq![]
    } else {
        let acc = overrides_upto(keys, texts, n - 1);
        match texts[n - 1].1 {
            Some(p) => map_put(acc, keys[n - 1].0, p),
            None => acc,
        }
    }
}

/// An instance's properties: its array and info, then the JSON text of each
/// of its first `n` settings.
pub open spec fn instance_props_upto(
    keys: Seq<(Seq<char>, crate::json::JsonV)>,
    t: InstanceTextsV,
    n: int,
) -> Seq<(Seq<char>, Seq<char>)>
    decreases n,
{
    if n <= 0 {
        map_put(map_put(seq![], "__array__"@, t.array), "__info__"@, t.info)
    } else {
        map_put(instance_props_upto(keys, t, n - 1), setting_property(keys[n - 1].0), t.settings[n - 1].0)
    }
}

/// The module reference of instance `name`: the component it places, its
/// numeric settings as overrides, and its array, info and settings as JSON
/// properties.
pub open spec fn instance_message_spec(name: Seq<char>, i: InstanceDocV, t: InstanceTextsV) -> ModuleReferenceV {
    ModuleReferenceV {
        name: name,
        module_name: i.component,
        parameter_overrides: overrides_upto(i.settings, t.settings, i.settings.len() as int),
        properties: instance_props_upto(i.settings, t, i.settings.len() as int),
    }
}

impl Instance {
    /// The module reference of an instance.
    pub fn to_proto_ref(&self, name: &String, texts: &InstanceTexts) -> (r: ModuleReference)
        requires
            instance_texts_fit(self@, texts@),
        ensures
            r@ == instance_message_spec(name@, self@, texts@),
    {
        let inst = self;
        let ghost keys = inst@.settings;
        let ghost tv = texts@;
        let mut props: Vec<(String, String)> = Vec::new();
        put_entry(&mut props, "__array__".to_owned(), texts.array.clone());
        put_entry(&mut props, "__info__".to_owned(), texts.info.clone());
        proof {
            reveal_strlit("__array__");
            reveal_strlit("__info__");
            assert(named_view(props@) =~= instance_props_upto(keys, tv, 0));
        }
        let mut overrides: Vec<(String, ParameterValue)> = Vec::new();
        proof {
            assert(named_view(overrides@) =~= overrides_upto(keys, tv.settings, 0));
        }
        let mut i: usize = 0;
        while i < inst.settings.len()
            invariant
                i <= inst.settings@.len(),
                keys == inst@.settings,
                tv == texts@,
                instance_texts_fit(inst@, texts@),
                named_view(props@) == instance_props_upto(keys, tv, i as int),
                named_view(overrides@) == overrides_upto(keys, tv.settings, i as int),
            decreases inst.settings@.len() - i,
        {
            let key = &inst.settings[i].0;
            proof {
                assert(keys[i as int].0 == key@);
                assert(tv.settings[i as int] == (texts.settings@[i as int].0@, value_view(texts.settings@[i as int].1)));
            }
            match &texts.settings[i].1 {
                Some(p) => put_entry(&mut overrides, key.clone(), p.copy()),
                None => {},
            }
            let prop = concat("__setting__", key.as_str());
            proof {
                reveal_strlit("__setting__");
            }
            put_entry(&mut props, prop, texts.settings[i].0.clone());
            i = i + 1;
        }
        ModuleReference {
            name: name.clone(),
            module_name: inst.component.clone(),
            parameter_overrides: overrides,
            properties: props,
        }
    }
}

/// A module's properties: the JSON texts of its name, placements, routes and
/// info.
pub open spec fn module_props(t: ModuleTextsV) -> Seq<(Seq<char>, Seq<char>)> {
    map_put(
        map_put(map_put(map_put(seq![], "__name__"@, t.name), "__placements__"@, t.placements), "__routes__"@, t.routes),
        "__info__"@,
        t.info,
    )
}

/// Parameter `i` of a module: numbered by position, named by its setting,
/// with its number as default value and its JSON text as a property.
pub open spec fn parameter_spec(i: int, key: Seq<char>, text: (Seq<char>, Option<ParameterValueV>)) -> ParameterV {
    ParameterV {
        uid: i as u32,
        name: key,
        default_value: text.1,
        properties: map_put(seq![], "__json_value__"@, text.0),
    }
}

/// The bus of net `i`: its consecutive member pairs, its member list kept as
/// a JSON property.
pub open spec fn bus_spec(i: int, members: Seq<Seq<char>>, text: Seq<char>) -> BusV {
    BusV {
        name: numbered("net_"@, i as nat),
        connections: bus_links(i as nat, members),
        properties: map_put(seq![], "__members__"@, text),
    }
}

/// The message of module `name`.
pub open spec fn module_message_spec(name: Seq<char>, m: ModuleV, t: ModuleTextsV) -> ModuleMessageV {
    ModuleMessageV {
        name: name,
        terminal: terminals_spec(m.ports),
        parameters: Seq::new(m.settings.len(), |i: int| parameter_spec(i, m.settings[i].0, t.settings[i])),
        module_references: Seq::new(
            m.instances.len(),
            |i: int| instance_message_spec(m.instances[i].0, m.instances[i].1, t.instances[i]),
        ),
        connections: links_spec(m.ports, m.connections),
        buses: Seq::new(m.nets.len(), |i: int| bus_spec(i, m.nets[i], t.members[i])),
        properties: module_props(t),
    }
}

impl Module {
    /// The message of a module named `name`.
    pub fn to_proto_module(&self, name: &String, texts: &ModuleTexts) -> (r: ModuleMessage)
        requires
            module_texts_fit(self@, texts@),
        ensures
            r@ == module_message_spec(name@, self@, texts@),
    {
        let m = self;
        let ghost mv = m@;
        let ghost tv = texts@;
        let mut props: Vec<(String, String)> = Vec::new();
        put_entry(&mut props, "__name__".to_owned(), texts.name.clone());
        put_entry(&mut props, "__placements__".to_owned(), texts.placements.clone());
        put_entry(&mut props, "__routes__".to_owned(), texts.routes.clone());
        put_entry(&mut props, "__info__".to_owned(), texts.info.clone());
        proof {
            reveal_strlit("__name__");
            reveal_strlit("__placements__");
            reveal_strlit("__routes__");
            reveal_strlit("__info__");
            assert(named_view(props@) =~= module_props(tv));
        }
        let mut parameters: Vec<Parameter> = Vec::new();
        let mut i: usize = 0;
        while i < m.settings.len()
            invariant
                i <= m.settings@.len(),
                mv == m@,
                tv == texts@,
                module_texts_fit(mv, tv),
                parameters@.len() == i,
                forall|j: int| 0 <= j < i ==> (#[trigger] parameters@[j])@ == parameter_spec(j, mv.settings[j].0, tv.settings[j]),
            decreases m.settings@.len() - i,
        {
            let mut pp: Vec<(String, String)> = Vec::new();
            put_entry(&mut pp, "__json_value__".to_owned(), texts.settings[i].0.clone());
            proof {
                reveal_strlit("__json_value__");
                assert(tv.settings[i as int] == (texts.settings@[i as int].0@, value_view(texts.settings@[i as int].1)));
                assert(mv.settings[i as int].0 == m.settings@[i as int].0@);
            }
            #[verifier::truncate]
            let uid = i as u32;
            parameters.push(Parameter {
                uid,
                name: m.settings[i].0.clone(),
                default_value: copy_value(&texts.settings[i].1),
                properties: pp,
            });
            i = i + 1;
        }
        let mut refs: Vec<ModuleReference> = Vec::new();
        let mut k: usize = 0;
        while k < m.instances.len()
            invariant
                k <= m.instances@.len(),
                mv == m@,
                tv == texts@,
                module_texts_fit(mv, tv),
                refs@.len() == k,
                forall|j: int| 0 <= j < k ==> (#[trigger] refs@[j])@ == instance_message_spec(mv.instances[j].0, mv.instances[j].1, tv.instances[j]),
            decreases m.instances@.len() - k,
        {
            proof {
                assert(tv.instances[k as int] == texts.instances@[k as int]@);
                assert(mv.instances[k as int] == (m.instances@[k as int].0@, m.instances@[k as int].1@));
            }
            let r = m.instances[k].1.to_proto_ref(&m.instances[k].0, &texts.instances[k]);
            refs.push(r);
            k = k + 1;
        }
        let mut buses: Vec<crate::proto::Bus> = Vec::new();
        let mut n: usize = 0;
        while n < m.nets.len()
            invariant
                n <= m.nets@.len(),
                mv == m@,
                tv == texts@,
                module_texts_fit(mv, tv),
                buses@.len() == n,
                forall|j: int| 0 <= j < n ==> (#[trigger] buses@[j])@ == bus_spec(j, mv.nets[j], tv.members[j]),
            decreases m.nets@.len() - n,
        {
            let mut b = net_bus(n, &m.nets[n]);
            proof {
                assert(mv.nets[n as int] == strings_view(m.nets@[n as int]@));
                assert(tv.members[n as int] == texts.members@[n as int]@);
                reveal_strlit("__members__");
            }
            put_entry(&mut b.properties, "__members__".to_owned(), texts.members[n].clone());
            proof {
                assert(b@ == bus_spec(n as int, mv.nets[n as int], tv.members[n as int]));
            }
            buses.push(b);
            n = n + 1;
        }
        let r = ModuleMessage {
            name: name.clone(),
            terminal: module_terminals(&m.ports),
            parameters: parameters,
            module_references: refs,
            connections: module_links(&m.ports, &m.connections),
            buses: buses,
            properties: props,
        };
        proof {
            let s = module_message_spec(name@, mv, tv);
            assert(views_of(r.parameters@) =~= s.parameters);
            assert(views_of(r.module_references@) =~= s.module_references);
            assert(views_of(r.buses@) =~= s.buses);
        }
        r
    }
}

/// The circuit of a document: named, and topped, by its top module (empty
/// when it has none), with one message per module in order.
pub open spec fn circuit_message_spec(d: crate::document::TopLevelModuleV, t: Seq<ModuleTextsV>) -> CircuitV {
    let top = match d.toplevel {
        Some(n) => n,
        None => Seq::empty(),
    };
    CircuitV {
        name: top,
        top_module: top,
        modules: Seq::new(d.modules.len(), |i: int| module_message_spec(d.modules[i].0, d.modules[i].1, t[i])),
    }
}

impl TopLevelModule {
    /// The circuit message of a document, given the texts of each module.
    pub fn to_proto_circuit(&self, texts: &Vec<ModuleTexts>) -> (r: Circuit)
        requires
            texts@.len() == self@.modules.len(),
            forall|i: int| 0 <= i < texts@.len() ==> module_texts_fit(self@.modules[i].1, #[trigger] texts@[i]@),
        ensures
            r@ == circuit_message_spec(self@, views_of(texts@)),
    {
        let doc = self;
        let ghost dv = doc@;
        let mut modules: Vec<ModuleMessage> = Vec::new();
        let mut i: usize = 0;
        while i < doc.modules.len()
            invariant
                i <= doc.modules@.len(),
                dv == doc@,
                texts@.len() == dv.modules.len(),
                forall|q: int| 0 <= q < texts@.len() ==> module_texts_fit(dv.modules[q].1, #[trigger] texts@[q]@),
                modules@.len() == i,
                forall|j: int| 0 <= j < i ==> (#[trigger] modules@[j])@ == module_message_spec(dv.modules[j].0, dv.modules[j].1, texts@[j]@),
            decreases doc.modules@.len() - i,
        {
            proof {
                assert(dv.modules[i as int] == (doc.modules@[i as int].0@, doc.modules@[i as int].1@));
                assert(module_texts_fit(dv.modules[i as int].1, texts@[i as int]@));
            }
            let m = doc.modules[i].1.to_proto_module(&doc.modules[i].0, &texts[i]);
            modules.push(m);
            i = i + 1;
        }
        let top = match &doc.toplevel {
            Some(t) => t.clone(),
            None => String::new(),
        };
        let r = Circuit { name: top.clone(), top_module: top, modules };
        proof {
            assert(views_of(r.modules@) =~= circuit_message_spec(dv, views_of(texts@)).modules);
        }
        r
    }
}


/// The setting an instance property holds: the key after `__setting__`.
pub open spec fn setting_of(key: Seq<char>) -> Option<Seq<char>> {
    if key.len() >= 11 && key.take(11) == "__setting__"@ {
        Some(key.skip(11))
    } else {
        None
    }
}

/// The setting whose JSON text an instance property holds, if it holds one.
pub fn setting_name(key: &String) -> (r: Option<String>)
    ensures
        match r {
            Some(k) => setting_of(key@) == Some(k@),
            None => setting_of(key@) is None,
        },
{
    let cs = chars_of(key.as_str());
    let prefix = chars_of("__setting__");
    proof {
        reveal_strlit("__setting__");
        assert(cs@.subrange(0, cs@.len() as int) =~= key@);
    }
    if cs.len() < 11 {
        return None;
    }
    let mut i: usize = 0;
    while i < 11
        invariant
            i <= 11,
            cs@ == key@,
            prefix@ == "__setting__"@,
            prefix@.len() == 11,
            cs@.len() >= 11,
            forall|j: int| 0 <= j < i ==> cs@[j] == prefix@[j],
        decreases 11 - i,
    {
        if cs[i] != prefix[i] {
            proof {
                if key@.take(11) == "__setting__"@ {
                    assert(key@.take(11)[i as int] == cs@[i as int]);
                }
            }
            return None;
        }
        i = i + 1;
    }
    proof {
        assert(key@.take(11) =~= "__setting__"@);
        assert(key@.skip(11) =~= cs@.subrange(11, cs@.len() as int));
    }
    Some(string_of(&cs, 11, cs.len()))
}

/// An instance's settings from its message, held sorted by name as a JSON
/// object holds them: its numeric overrides where they are numbers, then the
/// settings its properties hold as JSON, which replace an override of the
/// same name.
pub open spec fn ref_settings_upto(
    r: ModuleReferenceV,
    numbers: Seq<Option<JsonV>>,
    values: Seq<JsonV>,
    n: int,
) -> Seq<(Seq<char>, JsonV)>
    decreases n,
{
    if n <= 0 {
        seq![]
    } else if n <= r.parameter_overrides.len() {
        let acc = ref_settings_upto(r, numbers, values, n - 1);
        match numbers[n - 1] {
            Some(v) => map_put(acc, r.parameter_overrides[n - 1].0, v),
            None => acc,
        }
    } else {
        let acc = ref_settings_upto(r, numbers, values, n - 1);
        let k = n - 1 - r.parameter_overrides.len();
        match setting_of(r.properties[k].0) {
            Some(name) => map_put(acc, name, values[k]),
            None => acc,
        }
    }
}

/// The instance of a module reference, given the numbers of its overrides
/// (where they are numbers), the values of its properties read as JSON (used
/// for the properties that hold settings), and its array and info.
pub open spec fn instance_from_spec(
    r: ModuleReferenceV,
    numbers: Seq<Option<JsonV>>,
    values: Seq<JsonV>,
    array: Option<(i64, i64)>,
    info: Seq<(Seq<char>, JsonV)>,
) -> InstanceDocV {
    InstanceDocV {
        component: r.module_name,
        settings: ref_settings_upto(r, numbers, values, (r.parameter_overrides.len() + r.properties.len()) as int),
        array: array,
        info: info,
    }
}

pub open spec fn json_views(v: Seq<JsonValue>) -> Seq<JsonV> {
    Seq::new(v.len(), |i: int| v[i]@)
}

pub open spec fn option_json_views(v: Seq<Option<JsonValue>>) -> Seq<Option<JsonV>> {
    Seq::new(
        v.len(),
        |i: int|
            match v[i] {
                Some(x) => Some(x@),
                None => None,
            },
    )
}

impl Instance {
    /// The instance a module reference describes.
    pub fn from_proto_ref(
        r: &ModuleReference,
        numbers: Vec<Option<JsonValue>>,
        values: Vec<JsonValue>,
        array: Option<ArraySpec>,
        info: JsonMap,
    ) -> (inst: Instance)
        requires
            numbers@.len() == r.parameter_overrides@.len(),
            values@.len() == r.properties@.len(),
        ensures
            inst@ == instance_from_spec(
                r@,
                option_json_views(numbers@),
                json_views(values@),
                match array {
                    Some(a) => Some((a.na, a.nb)),
                    None => None,
                },
                map_view(info@),
            ),
    {
        let ghost rv = r@;
        let ghost nv = option_json_views(numbers@);
        let ghost vv = json_views(values@);
        let no = r.parameter_overrides.len();
        let mut settings: JsonMap = Vec::new();
        let mut numbers = numbers;
        let mut values = values;
        let ghost numbers0 = numbers@;
        let ghost values0 = values@;
        proof {
            assert(map_view(settings@) =~= ref_settings_upto(rv, nv, vv, 0));
        }
        let mut i: usize = 0;
        while i < no
            invariant
                i <= no,
                no == r.parameter_overrides@.len(),
                rv == r@,
                numbers@ == numbers0.skip(i as int),
                nv == option_json_views(numbers0),
                numbers0.len() == no,
                map_view(settings@) == ref_settings_upto(rv, nv, vv, i as int),
            decreases no - i,
        {
            let taken = numbers.remove(0);
            proof {
                assert(numbers@ =~= numbers0.skip(i + 1));
            }
            proof {
                assert(rv.parameter_overrides[i as int].0 == r.parameter_overrides@[i as int].0@);
            }
            match taken {
                Some(v) => {
                    proof {
                        lemma_key_index(settings@, r.parameter_overrides@[i as int].0@);
                        lemma_map_view_key_index(settings@, r.parameter_overrides@[i as int].0@);
                    }
                    let ghost before = settings@;
                    assert(map_view(settings@) =~= named_view(settings@));
                    put_entry(&mut settings, r.parameter_overrides[i].0.clone(), v);
                    proof {
                        assert(map_view(settings@) =~= named_view(settings@));
                    }
                },
                None => {},
            }
            i = i + 1;
        }
        let np = r.properties.len();
        let mut k: usize = 0;
        while k < np
            invariant
                k <= np,
                np == r.properties@.len(),
                no == r.parameter_overrides@.len(),
                rv == r@,
                values@ == values0.skip(k as int),
                vv == json_views(values0),
                values0.len() == np,
                map_view(settings@) == ref_settings_upto(rv, nv, vv, no + k),
            decreases np - k,
        {
            proof {
                assert(rv.properties[k as int].0 == r.properties@[k as int].0@);
            }
            let v = values.remove(0);
            proof {
                assert(values@ =~= values0.skip(k + 1));
            }
            match setting_name(&r.properties[k].0) {
                Some(name) => {
                    proof {
                        lemma_key_index(settings@, name@);
                        lemma_map_view_key_index(settings@, name@);
                    }
                    let ghost before = settings@;
                    assert(map_view(settings@) =~= named_view(settings@));
                    put_entry(&mut settings, name, v);
                    proof {
                        assert(map_view(settings@) =~= named_view(settings@));
                    }
                },
                None => {},
            }
            k = k + 1;
        }
        Instance { component: r.module_name.clone(), settings, array, info }
    }
}

/// What the texts of a module reference hold, read by the caller: per
/// override its number (where it is one), per property its JSON value (used
/// for the properties that hold settings), and its array and info.
pub struct RefValues {
    pub numbers: Vec<Option<JsonValue>>,
    pub values: Vec<JsonValue>,
    pub array: Option<ArraySpec>,
    pub info: JsonMap,
}

pub struct RefValuesV {
    pub numbers: Seq<Option<JsonV>>,
    pub values: Seq<JsonV>,
    pub array: Option<(i64, i64)>,
    pub info: Seq<(Seq<char>, JsonV)>,
}

impl View for RefValues {
    type V = RefValuesV;

    open spec fn view(&self) -> RefValuesV {
        RefValuesV {
            numbers: option_json_views(self.numbers@),
            values: json_views(self.values@),
            array: match self.array {
                Some(a) => Some((a.na, a.nb)),
                None => None,
            },
            info: map_view(self.info@),
        }
    }
}

/// What the JSON texts of a module message hold, read by the caller: the
/// value of `__name__` (used where present), its info, placements and
/// routes; per parameter the value of its `__json_value__` (used where
/// present) and its number (where it is one); per module reference what its
/// texts hold; per bus the members its `__members__` lists (used where
/// present).
pub struct ModuleValues {
    pub name: Option<String>,
    pub info: JsonMap,
    pub placements: JsonMap,
    pub routes: JsonMap,
    pub values: Vec<JsonValue>,
    pub numbers: Vec<Option<JsonValue>>,
    pub instances: Vec<RefValues>,
    pub members: Vec<Vec<String>>,
}

pub struct ModuleValuesV {
    pub name: Option<Seq<char>>,
    pub info: Seq<(Seq<char>, JsonV)>,
    pub placements: Seq<(Seq<char>, JsonV)>,
    pub routes: Seq<(Seq<char>, JsonV)>,
    pub values: Seq<JsonV>,
    pub numbers: Seq<Option<JsonV>>,
    pub instances: Seq<RefValuesV>,
    pub members: Seq<Seq<Seq<char>>>,
}

impl View for ModuleValues {
    type V = ModuleValuesV;

    open spec fn view(&self) -> ModuleValuesV {
        ModuleValuesV {
            name: match self.name {
                Some(n) => Some(n@),
                None => None,
            },
            info: map_view(self.info@),
            placements: map_view(self.placements@),
            routes: map_view(self.routes@),
            values: json_views(self.values@),
            numbers: option_json_views(self.numbers@),
            instances: views_of(self.instances@),
            members: Seq::new(self.members@.len(), |i: int| strings_view(self.members@[i]@)),
        }
    }
}

/// The values were read from this reference: one per override and property.
pub open spec fn ref_values_fit(r: ModuleReferenceV, v: RefValuesV) -> bool {
    &&& v.numbers.len() == r.parameter_overrides.len()
    &&& v.values.len() == r.properties.len()
}

/// The values were read from this message: one per parameter, reference and bus.
pub open spec fn module_values_fit(m: ModuleMessageV, v: ModuleValuesV) -> bool {
    &&& v.values.len() == m.parameters.len()
    &&& v.numbers.len() == m.parameters.len()
    &&& v.instances.len() == m.module_references.len()
    &&& v.members.len() == m.buses.len()
    &&& forall|i: int| 0 <= i < v.instances.len() ==> ref_values_fit(m.module_references[i], #[trigger] v.instances[i])
}

/// The instance a module reference and the values read from its texts describe.
pub open spec fn ref_instance(r: ModuleReferenceV, v: RefValuesV) -> InstanceDocV {
    instance_from_spec(r, v.numbers, v.values, v.array, v.info)
}

pub open spec fn has_key<V>(props: Seq<(Seq<char>, V)>, key: Seq<char>) -> bool {
    vkey_index(props, key) is Some
}

/// A module's settings from its first `n` parameters: the JSON value where a
/// parameter keeps one, else its number, where it has one.
pub open spec fn params_settings_upto(ps: Seq<ParameterV>, v: ModuleValuesV, n: int) -> Seq<(Seq<char>, JsonV)>
    decreases n,
{
    if n <= 0 {
        seq![]
    } else {
        let acc = params_settings_upto(ps, v, n - 1);
        if has_key(ps[n - 1].properties, "__json_value__"@) {
            map_put(acc, ps[n - 1].name, v.values[n - 1])
        } else {
            match v.numbers[n - 1] {
                Some(x) => map_put(acc, ps[n - 1].name, x),
                None => acc,
            }
        }
    }
}

/// A module's instances from its first `n` references, by name.
pub open spec fn refs_instances_upto(rs: Seq<ModuleReferenceV>, v: ModuleValuesV, n: int) -> Seq<(Seq<char>, InstanceDocV)>
    decreases n,
{
    if n <= 0 {
        seq![]
    } else {
        vmap_insert(refs_instances_upto(rs, v, n - 1), rs[n - 1].name, ref_instance(rs[n - 1], v.instances[n - 1]))
    }
}

/// A module's nets from its buses: the members a bus lists where it lists
/// them, else the ends of its connections.
pub open spec fn bus_nets(bs: Seq<BusV>, v: ModuleValuesV) -> Seq<Seq<Seq<char>>> {
    Seq::new(
        bs.len(),
        |i: int|
            if has_key(bs[i].properties, "__members__"@) {
                v.members[i]
            } else {
                members_from(bs[i].connections, bs[i].connections.len() as int)
            },
    )
}

/// The document module of a message.
pub open spec fn module_from_spec(m: ModuleMessageV, v: ModuleValuesV) -> ModuleV {
    let (ports, conns) = recovered_links(m.connections, m.terminal);
    ModuleV {
        name: if has_key(m.properties, "__name__"@) {
            v.name
        } else {
            Some(m.name)
        },
        settings: params_settings_upto(m.parameters, v, m.parameters.len() as int),
        info: v.info,
        instances: refs_instances_upto(m.module_references, v, m.module_references.len() as int),
        placements: v.placements,
        ports: ports,
        connections: conns,
        nets: bus_nets(m.buses, v),
        routes: v.routes,
    }
}

fn property_present(props: &Vec<(String, String)>, key: &str) -> (r: bool)
    ensures
        r == has_key(named_view(props@), key@),
{
    let k = key.to_owned();
    proof {
        lemma_named_key_index(props@, k@);
        lemma_key_index(props@, k@);
    }
    find_key(props, &k).is_some()
}

impl Module {
    /// The document module a circuit module describes, given what its JSON
    /// texts hold.
    pub fn from_proto_module(pm: &ModuleMessage, values: ModuleValues) -> (m: Module)
        requires
            module_values_fit(pm@, values@),
        ensures
            m@ == module_from_spec(pm@, values@),
    {
        let ghost pv = pm@;
        let ghost vv = values@;
        let ModuleValues { name, info, placements, routes, values: jvalues, numbers, instances, members } = values;
        let name = if property_present(&pm.properties, "__name__") {
            proof {
                reveal_strlit("__name__");
            }
            name
        } else {
            proof {
                reveal_strlit("__name__");
            }
            Some(pm.name.clone())
        };
        let mut settings: JsonMap = Vec::new();
        let mut jvalues = jvalues;
        let mut numbers = numbers;
        proof {
            assert(map_view(settings@) =~= params_settings_upto(pv.parameters, vv, 0));
            reveal_strlit("__json_value__");
        }
        let mut i: usize = 0;
        while i < pm.parameters.len()
            invariant
                i <= pm.parameters@.len(),
                pv == pm@,
                module_values_fit(pv, vv),
                jvalues@.len() == pm.parameters@.len() - i,
                numbers@.len() == pm.parameters@.len() - i,
                forall|j: int| 0 <= j < jvalues@.len() ==> (#[trigger] jvalues@[j])@ == vv.values[j + i],
                forall|j: int| 0 <= j < numbers@.len() ==> match #[trigger] numbers@[j] {
                    Some(x) => vv.numbers[j + i] == Some(x@),
                    None => vv.numbers[j + i] is None,
                },
                map_view(settings@) == params_settings_upto(pv.parameters, vv, i as int),
            decreases pm.parameters@.len() - i,
        {
            let p = &pm.parameters[i];
            proof {
                assert(pv.parameters[i as int] == p@);
            }
            let present = property_present(&p.properties, "__json_value__");
            let ghost before = settings@;
            let v = jvalues.remove(0);
            let n = numbers.remove(0);
            if present {
                proof {
                    lemma_key_index(settings@, p.name@);
                    lemma_map_view_key_index(settings@, p.name@);
                }
                assert(map_view(settings@) =~= named_view(settings@));
                put_entry(&mut settings, p.name.clone(), v);
                proof {
                    assert(map_view(settings@) =~= named_view(settings@));
                }
            } else {
                match n {
                    Some(x) => {
                        proof {
                            lemma_key_index(settings@, p.name@);
                            lemma_map_view_key_index(settings@, p.name@);
                        }
                        assert(map_view(settings@) =~= named_view(settings@));
                        put_entry(&mut settings, p.name.clone(), x);
                        proof {
                            assert(map_view(settings@) =~= named_view(settings@));
                        }
                    },
                    None => {},
                }
            }
            i = i + 1;
        }
        let mut insts: Vec<(String, Instance)> = Vec::new();
        let mut instances = instances;
        proof {
            assert(doc_instances_view(insts@) =~= refs_instances_upto(pv.module_references, vv, 0));
        }
        let mut k: usize = 0;
        while k < pm.module_references.len()
            invariant
                k <= pm.module_references@.len(),
                pv == pm@,
                module_values_fit(pv, vv),
                instances@.len() == pm.module_references@.len() - k,
                forall|j: int| 0 <= j < instances@.len() ==> (#[trigger] instances@[j])@ == vv.instances[j + k],
                doc_instances_view(insts@) == refs_instances_upto(pv.module_references, vv, k as int),
            decreases pm.module_references@.len() - k,
        {
            let rv = instances.remove(0);
            proof {
                assert(rv@ == vv.instances[k as int]);
                assert(ref_values_fit(pv.module_references[k as int], vv.instances[k as int]));
                assert(pv.module_references[k as int] == pm.module_references@[k as int]@);
            }
            let RefValues { numbers: ref_numbers, values: ref_values, array, info: ref_info } = rv;
            let inst = Instance::from_proto_ref(&pm.module_references[k], ref_numbers, ref_values, array, ref_info);
            let key = pm.module_references[k].name.clone();
            proof {
                assert(inst@ == ref_instance(pv.module_references[k as int], vv.instances[k as int]));
                assert(pv.module_references[k as int].name == key@);
                lemma_key_index(insts@, key@);
                lemma_named_key_index(insts@, key@);
                assert(doc_instances_view(insts@) =~= named_view(insts@));
            }
            let ghost before = insts@;
            map_insert(&mut insts, key, inst);
            proof {
                assert(doc_instances_view(insts@) =~= vmap_insert(
                    doc_instances_view(before),
                    pv.module_references[k as int].name,
                    ref_instance(pv.module_references[k as int], vv.instances[k as int]),
                ));
            }
            k = k + 1;
        }
        let (ports, connections) = recover_links(&pm.connections, &pm.terminal);
        let mut nets: Vec<Vec<String>> = Vec::new();
        let mut members = members;
        let mut b: usize = 0;
        proof {
            reveal_strlit("__members__");
        }
        while b < pm.buses.len()
            invariant
                b <= pm.buses@.len(),
                pv == pm@,
                module_values_fit(pv, vv),
                members@.len() == pm.buses@.len() - b,
                forall|j: int| 0 <= j < members@.len() ==> strings_view((#[trigger] members@[j])@) == vv.members[j + b],
                nets@.len() == b,
                forall|j: int| 0 <= j < b ==> strings_view((#[trigger] nets@[j])@) == bus_nets(pv.buses, vv)[j],
            decreases pm.buses@.len() - b,
        {
            let bus = &pm.buses[b];
            proof {
                assert(pv.buses[b as int] == bus@);
            }
            let listed = members.remove(0);
            let net = if property_present(&bus.properties, "__members__") {
                listed
            } else {
                bus_members(bus)
            };
            nets.push(net);
            b = b + 1;
        }
        let m = Module {
            name,
            settings,
            info,
            instances: insts,
            placements,
            ports,
            connections,
            nets,
            routes,
        };
        proof {
            assert(m@.nets =~= bus_nets(pv.buses, vv));
            assert(m@ =~= module_from_spec(pv, vv));
        }
        m
    }
}

/// The document of a circuit, given what each module's texts hold: its
/// modules by name, its top module where one is named.
pub open spec fn document_from_spec(c: CircuitV, vs: Seq<ModuleValuesV>) -> crate::document::TopLevelModuleV {
    crate::document::TopLevelModuleV {
        modules: Seq::new(c.modules.len(), |i: int| (c.modules[i].name, module_from_spec(c.modules[i], vs[i]))),
        toplevel: if c.top_module.len() == 0 {
            None
        } else {
            Some(c.top_module)
        },
    }
}

impl TopLevelModule {
    /// The document a circuit describes.
    pub fn from_proto_circuit(c: &Circuit, values: Vec<ModuleValues>) -> (d: TopLevelModule)
        requires
            values@.len() == c.modules@.len(),
            forall|i: int| 0 <= i < values@.len() ==> module_values_fit(c.modules@[i]@, #[trigger] values@[i]@),
        ensures
            d@ == document_from_spec(c@, views_of(values@)),
    {
        let ghost cv = c@;
        let ghost vs = views_of(values@);
        let mut values = values;
        let mut modules: Vec<(String, Module)> = Vec::new();
        let mut i: usize = 0;
        while i < c.modules.len()
            invariant
                i <= c.modules@.len(),
                cv == c@,
                values@.len() == c.modules@.len() - i,
                vs.len() == c.modules@.len(),
                forall|j: int| 0 <= j < values@.len() ==> (#[trigger] values@[j])@ == vs[j + i],
                forall|j: int| 0 <= j < vs.len() ==> module_values_fit(cv.modules[j], #[trigger] vs[j]),
                modules@.len() == i,
                forall|j: int| 0 <= j < i ==> (#[trigger] modules@[j]).0@ == cv.modules[j].name
                    && modules@[j].1@ == module_from_spec(cv.modules[j], vs[j]),
            decreases c.modules@.len() - i,
        {
            let v = values.remove(0);
            proof {
                assert(cv.modules[i as int] == c.modules@[i as int]@);
            }
            let m = Module::from_proto_module(&c.modules[i], v);
            modules.push((c.modules[i].name.clone(), m));
            i = i + 1;
        }
        let toplevel = if c.top_module.as_str().unicode_len() == 0 {
            None
        } else {
            Some(c.top_module.clone())
        };
        let d = TopLevelModule { modules, toplevel };
        proof {
            assert(d@ =~= document_from_spec(cv, vs));
        }
        d
    }
}


/// An entry that `insert_sorted` is given, or that it is given to insert
/// into, is in what it returns.
proof fn lemma_insert_sorted_contains<V>(e: Seq<(Seq<char>, V)>, x: (Seq<char>, V), y: (Seq<char>, V))
    requires
        y == x || e.contains(y),
    ensures
        insert_sorted(e, x).contains(y),
    decreases e.len(),
{
    if e.len() == 0 {
        assert(insert_sorted(e, x)[0] == x);
    } else if str_lt(x.0, e.last().0) {
        let r = insert_sorted(e.drop_last(), x);
        if y == e.last() {
            assert(r.push(e.last())[r.len() as int] == y);
        } else {
            if y != x {
                let j = choose|j: int| 0 <= j < e.len() && e[j] == y;
                assert(e.drop_last()[j] == y);
            }
            lemma_insert_sorted_contains(e.drop_last(), x, y);
            let j = choose|j: int| 0 <= j < r.len() && r[j] == y;
            assert(r.push(e.last())[j] == y);
        }
    } else {
        if y == x {
            assert(e.push(x)[e.len() as int] == y);
        } else {
            let j = choose|j: int| 0 <= j < e.len() && e[j] == y;
            assert(e.push(x)[j] == y);
        }
    }
}

proof fn lemma_has_key_of_contains<V>(e: Seq<(Seq<char>, V)>, j: int)
    requires
        0 <= j < e.len(),
    ensures
        has_key(e, e[j].0),
{
    lemma_vkey_index(e, e[j].0);
}

/// After `map_put`, the key put is present, and so is every key that was.
proof fn lemma_map_put_has<V>(e: Seq<(Seq<char>, V)>, k: Seq<char>, v: V, k2: Seq<char>)
    requires
        k2 == k || has_key(e, k2),
    ensures
        has_key(map_put(e, k, v), k2),
{
    lemma_vkey_index(e, k);
    lemma_vkey_index(e, k2);
    let r = map_put(e, k, v);
    match vkey_index(e, k) {
        Some(i) => {
            if k2 == k {
                lemma_has_key_of_contains(r, i);
            } else {
                let j = vkey_index(e, k2)->0;
                assert(r[j] == e[j]);
                lemma_has_key_of_contains(r, j);
            }
        },
        None => {
            let y = if k2 == k {
                (k, v)
            } else {
                e[vkey_index(e, k2)->0]
            };
            if k2 != k {
                assert(e.contains(y));
            }
            lemma_insert_sorted_contains(e, (k, v), y);
            let j = choose|j: int| 0 <= j < r.len() && r[j] == y;
            lemma_has_key_of_contains(r, j);
        },
    }
}

proof fn lemma_setting_property(s: Seq<char>)
    ensures
        setting_of(setting_property(s)) == Some(s),
{
    reveal_strlit("__setting__");
    assert(setting_property(s).take(11) =~= "__setting__"@);
    assert(setting_property(s).skip(11) =~= s);
}

proof fn lemma_setting_of_same(k1: Seq<char>, k2: Seq<char>)
    requires
        setting_of(k1) is Some,
        setting_of(k1) == setting_of(k2),
    ensures
        k1 == k2,
{
    assert(k1 =~= k1.take(11) + k1.skip(11));
    assert(k2 =~= k2.take(11) + k2.skip(11));
}

/// The numeric overrides of an instance are sorted, and each is under the
/// name of one of its settings.
proof fn lemma_overrides(keys: Seq<(Seq<char>, JsonV)>, texts: Seq<(Seq<char>, Option<ParameterValueV>)>, n: int)
    requires
        0 <= n <= keys.len(),
        n <= texts.len(),
    ensures
        keys_sorted(overrides_upto(keys, texts, n)),
        forall|k: Seq<char>| #[trigger] value_at(overrides_upto(keys, texts, n), k) is Some ==> exists|j: int|
            0 <= j < n && (#[trigger] keys[j]).0 == k,
    decreases n,
{
    if n > 0 {
        lemma_overrides(keys, texts, n - 1);
        let acc = overrides_upto(keys, texts, n - 1);
        let cur = overrides_upto(keys, texts, n);
        match texts[n - 1].1 {
            Some(p) => {
                lemma_map_put_sorted(acc, keys[n - 1].0, p);
            },
            None => {},
        }
        assert forall|k: Seq<char>| #[trigger] value_at(cur, k) is Some implies exists|j: int|
            0 <= j < n && (#[trigger] keys[j]).0 == k by {
            if k == keys[n - 1].0 {
                assert(keys[n - 1].0 == k);
            } else {
                assert(value_at(acc, k) is Some);
                let j = choose|j: int| 0 <= j < n - 1 && (#[trigger] keys[j]).0 == k;
                assert(keys[j].0 == k);
            }
        }
    }
}

/// An instance's properties are sorted; they are its array, its info, and
/// one per setting among its first `n`.
proof fn lemma_instance_props(keys: Seq<(Seq<char>, JsonV)>, t: InstanceTextsV, n: int)
    requires
        0 <= n <= keys.len(),
        n <= t.settings.len(),
    ensures
        keys_sorted(instance_props_upto(keys, t, n)),
        forall|k: Seq<char>| #[trigger] value_at(instance_props_upto(keys, t, n), k) is Some <==> (k == "__array__"@
            || k == "__info__"@ || exists|j: int| 0 <= j < n && k == setting_property((#[trigger] keys[j]).0)),
    decreases n,
{
    let cur = instance_props_upto(keys, t, n);
    if n == 0 {
        let e = Seq::<(Seq<char>, Seq<char>)>::empty();
        let e1 = map_put(e, "__array__"@, t.array);
        lemma_map_put_sorted(e, "__array__"@, t.array);
        lemma_map_put_sorted(e1, "__info__"@, t.info);
        assert forall|k: Seq<char>| #[trigger] value_at(cur, k) is Some <==> (k == "__array__"@ || k == "__info__"@
            || exists|j: int| 0 <= j < n && k == setting_property((#[trigger] keys[j]).0)) by {
            assert(value_at(e, k) is None);
        }
    } else {
        lemma_instance_props(keys, t, n - 1);
        let acc = instance_props_upto(keys, t, n - 1);
        let sp = setting_property(keys[n - 1].0);
        lemma_map_put_sorted(acc, sp, t.settings[n - 1].0);
        assert forall|k: Seq<char>| #[trigger] value_at(cur, k) is Some <==> (k == "__array__"@ || k == "__info__"@
            || exists|j: int| 0 <= j < n && k == setting_property((#[trigger] keys[j]).0)) by {
            if exists|j: int| 0 <= j < n && k == setting_property((#[trigger] keys[j]).0) {
                let j = choose|j: int| 0 <= j < n && k == setting_property((#[trigger] keys[j]).0);
                if j < n - 1 {
                    assert(exists|j: int| 0 <= j < n - 1 && k == setting_property((#[trigger] keys[j]).0));
                }
            }
            if k == sp {
                assert(k == setting_property(keys[n - 1].0));
            } else if exists|j: int| 0 <= j < n - 1 && k == setting_property((#[trigger] keys[j]).0) {
                let j = choose|j: int| 0 <= j < n - 1 && k == setting_property((#[trigger] keys[j]).0);
                assert(0 <= j < n && k == setting_property(keys[j].0));
            }
        }
    }
}

/// Reading the numeric overrides of a reference keeps settings sorted, each
/// under the name of an override.
proof fn lemma_ref_overrides(r: ModuleReferenceV, numbers: Seq<Option<JsonV>>, values: Seq<JsonV>, n: int)
    requires
        0 <= n <= r.parameter_overrides.len(),
    ensures
        keys_sorted(ref_settings_upto(r, numbers, values, n)),
        forall|k: Seq<char>| #[trigger] value_at(ref_settings_upto(r, numbers, values, n), k) is Some ==> exists|j: int|
            0 <= j < n && (#[trigger] r.parameter_overrides[j]).0 == k,
    decreases n,
{
    if n > 0 {
        lemma_ref_overrides(r, numbers, values, n - 1);
        let acc = ref_settings_upto(r, numbers, values, n - 1);
        let cur = ref_settings_upto(r, numbers, values, n);
        let key = r.parameter_overrides[n - 1].0;
        match numbers[n - 1] {
            Some(v) => {
                lemma_map_put_sorted(acc, key, v);
            },
            None => {},
        }
        assert forall|k: Seq<char>| #[trigger] value_at(cur, k) is Some implies exists|j: int|
            0 <= j < n && (#[trigger] r.parameter_overrides[j]).0 == k by {
            if k == key {
                assert(r.parameter_overrides[n - 1].0 == k);
            } else {
                assert(value_at(acc, k) is Some);
                let j = choose|j: int| 0 <= j < n - 1 && (#[trigger] r.parameter_overrides[j]).0 == k;
                assert(r.parameter_overrides[j].0 == k);
            }
        }
    }
}

/// Reading the first `m` properties of a reference after its overrides: the
/// settings stay sorted, each property that holds a setting gives it its
/// value, and each setting comes from an override or such a property.
proof fn lemma_ref_properties(r: ModuleReferenceV, numbers: Seq<Option<JsonV>>, values: Seq<JsonV>, m: int)
    requires
        0 <= m <= r.properties.len(),
        keys_sorted(r.properties),
    ensures
        keys_sorted(ref_settings_upto(r, numbers, values, r.parameter_overrides.len() + m)),
        forall|q: int| 0 <= q < m && setting_of((#[trigger] r.properties[q]).0) is Some ==> value_at(
            ref_settings_upto(r, numbers, values, r.parameter_overrides.len() + m),
            setting_of(r.properties[q].0)->0,
        ) == Some(values[q]),
        forall|k: Seq<char>| #[trigger] value_at(ref_settings_upto(r, numbers, values, r.parameter_overrides.len() + m), k)
            is Some ==> (exists|j: int| 0 <= j < r.parameter_overrides.len() && (#[trigger] r.parameter_overrides[j]).0 == k)
            || (exists|q: int| 0 <= q < m && setting_of((#[trigger] r.properties[q]).0) == Some(k)),
    decreases m,
{
    let no = r.parameter_overrides.len() as int;
    if m == 0 {
        lemma_ref_overrides(r, numbers, values, no);
    } else {
        lemma_ref_properties(r, numbers, values, m - 1);
        let acc = ref_settings_upto(r, numbers, values, no + m - 1);
        let cur = ref_settings_upto(r, numbers, values, no + m);
        assert(cur == match setting_of(r.properties[m - 1].0) {
            Some(name) => map_put(acc, name, values[m - 1]),
            None => acc,
        });
        match setting_of(r.properties[m - 1].0) {
            Some(s) => {
                lemma_map_put_sorted(acc, s, values[m - 1]);
                assert forall|q: int| 0 <= q < m && setting_of((#[trigger] r.properties[q]).0) is Some implies value_at(
                    cur,
                    setting_of(r.properties[q].0)->0,
                ) == Some(values[q]) by {
                    if q < m - 1 {
                        if setting_of(r.properties[q].0)->0 == s {
                            lemma_setting_of_same(r.properties[q].0, r.properties[m - 1].0);
                            assert(str_lt(r.properties[q].0, r.properties[m - 1].0));
                            lemma_str_lt_irreflexive(r.properties[q].0);
                        }
                    }
                }
                assert forall|k: Seq<char>| #[trigger] value_at(cur, k) is Some implies (exists|j: int|
                    0 <= j < no && (#[trigger] r.parameter_overrides[j]).0 == k) || (exists|q: int|
                    0 <= q < m && setting_of((#[trigger] r.properties[q]).0) == Some(k)) by {
                    if k == s {
                        assert(setting_of(r.properties[m - 1].0) == Some(k));
                    } else {
                        assert(value_at(acc, k) is Some);
                        if exists|q: int| 0 <= q < m - 1 && setting_of((#[trigger] r.properties[q]).0) == Some(k) {
                            let q = choose|q: int| 0 <= q < m - 1 && setting_of((#[trigger] r.properties[q]).0) == Some(k);
                            assert(setting_of(r.properties[q].0) == Some(k));
                        }
                    }
                }
            },
            None => {
                assert forall|k: Seq<char>| #[trigger] value_at(cur, k) is Some implies (exists|j: int|
                    0 <= j < no && (#[trigger] r.parameter_overrides[j]).0 == k) || (exists|q: int|
                    0 <= q < m && setting_of((#[trigger] r.properties[q]).0) == Some(k)) by {
                    if exists|q: int| 0 <= q < m - 1 && setting_of((#[trigger] r.properties[q]).0) == Some(k) {
                        let q = choose|q: int| 0 <= q < m - 1 && setting_of((#[trigger] r.properties[q]).0) == Some(k);
                        assert(setting_of(r.properties[q].0) == Some(k));
                    }
                }
            },
        }
    }
}

/// What a caller reads back from the texts written for an instance: its
/// array and info, and, from each property that holds the JSON text of a
/// setting, that setting's value.
pub open spec fn instance_values_read_back(i: InstanceDocV, t: InstanceTextsV, v: RefValuesV) -> bool {
    let props = instance_props_upto(i.settings, t, i.settings.len() as int);
    &&& v.numbers.len() == overrides_upto(i.settings, t.settings, i.settings.len() as int).len()
    &&& v.values.len() == props.len()
    &&& v.array == i.array
    &&& v.info == i.info
    &&& forall|q: int, j: int|
        0 <= q < props.len() && 0 <= j < i.settings.len() && (#[trigger] props[q]).0 == setting_property(
            (#[trigger] i.settings[j]).0,
        ) ==> v.values[q] == i.settings[j].1
}

/// An instance written as a module reference and read back (its texts read
/// back as the values they were written from) is the same instance, whenever
/// its settings are sorted by name, as a JSON object keeps them.
pub proof fn lemma_instance_round_trip(name: Seq<char>, i: InstanceDocV, t: InstanceTextsV, v: RefValuesV)
    requires
        instance_texts_fit(i, t),
        keys_sorted(i.settings),
        instance_values_read_back(i, t, v),
    ensures
        instance_from_spec(instance_message_spec(name, i, t), v.numbers, v.values, v.array, v.info) == i,
{
    let r = instance_message_spec(name, i, t);
    let n = i.settings.len() as int;
    let keys = i.settings;
    let props = r.properties;
    lemma_instance_props(keys, t, n);
    lemma_overrides(keys, t.settings, n);
    lemma_ref_properties(r, v.numbers, v.values, props.len() as int);
    let rs = ref_settings_upto(r, v.numbers, v.values, (r.parameter_overrides.len() + props.len()) as int);
    reveal_strlit("__array__");
    reveal_strlit("__info__");
    assert(setting_of("__array__"@) is None);
    assert(setting_of("__info__"@) is None);
    assert forall|k: Seq<char>| #[trigger] value_at(rs, k) == value_at(keys, k) by {
        lemma_value_at_sorted(keys, k);
        lemma_value_at_sorted(rs, k);
        lemma_value_at_sorted(props, setting_property(k));
        lemma_setting_property(k);
        if exists|j: int| 0 <= j < n && (#[trigger] keys[j]).0 == k {
            let j = choose|j: int| 0 <= j < n && (#[trigger] keys[j]).0 == k;
            assert(value_at(props, setting_property(keys[j].0)) is Some);
            let q = choose|q: int| 0 <= q < props.len() && (#[trigger] props[q]).0 == setting_property(k);
            assert(props[q].0 == setting_property(keys[j].0));
            assert(v.values[q] == keys[j].1);
        } else {
            if value_at(rs, k) is Some {
                if exists|j: int| 0 <= j < r.parameter_overrides.len() && (#[trigger] r.parameter_overrides[j]).0 == k {
                    let j = choose|j: int| 0 <= j < r.parameter_overrides.len() && (#[trigger] r.parameter_overrides[j]).0 == k;
                    lemma_value_at_sorted(r.parameter_overrides, k);
                    assert(value_at(overrides_upto(keys, t.settings, n), k) is Some);
                    let j2 = choose|j2: int| 0 <= j2 < n && (#[trigger] keys[j2]).0 == k;
                    assert(keys[j2].0 == k);
                } else {
                    let q = choose|q: int| 0 <= q < props.len() && setting_of((#[trigger] props[q]).0) == Some(k);
                    lemma_value_at_sorted(props, props[q].0);
                    assert(value_at(props, props[q].0) is Some);
                    if exists|j: int| 0 <= j < n && props[q].0 == setting_property((#[trigger] keys[j]).0) {
                        let j = choose|j: int| 0 <= j < n && props[q].0 == setting_property((#[trigger] keys[j]).0);
                        lemma_setting_property(keys[j].0);
                        assert(keys[j].0 == k);
                    }
                }
            }
        }
    }
    lemma_sorted_unique(rs, keys);
}

/// What a caller reads back from the texts written for a module: each text
/// holds again the value it was written from.
pub open spec fn values_read_back(m: ModuleV, t: ModuleTextsV, v: ModuleValuesV) -> bool {
    &&& v.name == m.name
    &&& v.info == m.info
    &&& v.placements == m.placements
    &&& v.routes == m.routes
    &&& v.values.len() == m.settings.len()
    &&& v.numbers.len() == m.settings.len()
    &&& v.instances.len() == m.instances.len()
    &&& v.members.len() == m.nets.len()
    &&& forall|i: int| 0 <= i < m.settings.len() ==> #[trigger] v.values[i] == m.settings[i].1
    &&& forall|i: int| 0 <= i < m.instances.len() ==> instance_values_read_back(m.instances[i].1, t.instances[i], #[trigger] v.instances[i])
    &&& forall|i: int| 0 <= i < m.nets.len() ==> #[trigger] v.members[i] == m.nets[i]
}

proof fn lemma_settings_back(m: ModuleV, t: ModuleTextsV, v: ModuleValuesV, n: int)
    requires
        module_texts_fit(m, t),
        values_read_back(m, t, v),
        keys_sorted(m.settings),
        0 <= n <= m.settings.len(),
    ensures
        params_settings_upto(module_message_spec(Seq::empty(), m, t).parameters, v, n) == m.settings.take(n),
    decreases n,
{
    let ps = module_message_spec(Seq::empty(), m, t).parameters;
    if n == 0 {
        assert(m.settings.take(0) =~= Seq::<(Seq<char>, JsonV)>::empty());
    } else {
        lemma_settings_back(m, t, v, n - 1);
        reveal_strlit("__json_value__");
        lemma_map_put_has(Seq::<(Seq<char>, Seq<char>)>::empty(), "__json_value__"@, t.settings[n - 1].0, "__json_value__"@);
        assert(ps[n - 1] == parameter_spec(n - 1, m.settings[n - 1].0, t.settings[n - 1]));
        assert(v.values[n - 1] == m.settings[n - 1].1);
        lemma_put_next(m.settings, n - 1);
    }
}

proof fn lemma_instances_back(m: ModuleV, t: ModuleTextsV, v: ModuleValuesV, n: int)
    requires
        module_texts_fit(m, t),
        values_read_back(m, t, v),
        distinct_keys(m.instances),
        forall|j: int| 0 <= j < m.instances.len() ==> keys_sorted((#[trigger] m.instances[j]).1.settings),
        0 <= n <= m.instances.len(),
    ensures
        refs_instances_upto(module_message_spec(Seq::empty(), m, t).module_references, v, n) == m.instances.take(n),
    decreases n,
{
    let rs = module_message_spec(Seq::empty(), m, t).module_references;
    if n == 0 {
        assert(m.instances.take(0) =~= Seq::<(Seq<char>, InstanceDocV)>::empty());
    } else {
        lemma_instances_back(m, t, v, n - 1);
        assert(rs[n - 1] == instance_message_spec(m.instances[n - 1].0, m.instances[n - 1].1, t.instances[n - 1]));
        assert(instance_texts_fit(m.instances[n - 1].1, t.instances[n - 1]));
        assert(keys_sorted(m.instances[n - 1].1.settings));
        assert(instance_values_read_back(m.instances[n - 1].1, t.instances[n - 1], v.instances[n - 1]));
        lemma_instance_round_trip(m.instances[n - 1].0, m.instances[n - 1].1, t.instances[n - 1], v.instances[n - 1]);
        lemma_insert_next(m.instances, n - 1);
    }
}

/// A module whose settings, and the settings of each of its instances, are
/// sorted by name, as a JSON object keeps them; whose instances, pins and
/// connections have distinct names; and whose pins and references read back
/// as themselves.
pub open spec fn module_keeps(m: ModuleV) -> bool {
    &&& keys_sorted(m.settings)
    &&& forall|i: int| 0 <= i < m.instances.len() ==> keys_sorted((#[trigger] m.instances[i]).1.settings)
    &&& distinct_keys(m.instances)
    &&& distinct_keys(m.ports)
    &&& distinct_keys(m.connections)
    &&& forall|i: int| 0 <= i < m.ports.len() ==> pin_reads_back(#[trigger] m.ports[i].0) && reads_back(m.ports[i].1)
    &&& forall|i: int| 0 <= i < m.connections.len() ==> reads_back(#[trigger] m.connections[i].0) && reads_back(
        m.connections[i].1,
    )
}

/// A module written as a circuit module and read back (its texts read back
/// as the values they were written from) is the same module, whenever its
/// settings and its instances' settings are sorted by name, its instances,
/// pins and connections have distinct names, and its pins and references
/// read back as themselves.
pub proof fn lemma_module_round_trip(name: Seq<char>, m: ModuleV, t: ModuleTextsV, v: ModuleValuesV)
    requires
        module_texts_fit(m, t),
        values_read_back(m, t, v),
        module_keeps(m),
    ensures
        module_from_spec(module_message_spec(name, m, t), v) == m,
{
    let msg = module_message_spec(name, m, t);
    let plain = module_message_spec(Seq::empty(), m, t);
    assert(msg.parameters == plain.parameters);
    assert(msg.module_references == plain.module_references);
    reveal_strlit("__name__");
    reveal_strlit("__placements__");
    reveal_strlit("__routes__");
    reveal_strlit("__info__");
    reveal_strlit("__members__");
    let e = Seq::<(Seq<char>, Seq<char>)>::empty();
    let p1 = map_put(e, "__name__"@, t.name);
    let p2 = map_put(p1, "__placements__"@, t.placements);
    let p3 = map_put(p2, "__routes__"@, t.routes);
    lemma_map_put_has(e, "__name__"@, t.name, "__name__"@);
    lemma_map_put_has(p1, "__placements__"@, t.placements, "__name__"@);
    lemma_map_put_has(p2, "__routes__"@, t.routes, "__name__"@);
    lemma_map_put_has(p3, "__info__"@, t.info, "__name__"@);
    lemma_settings_back(m, t, v, m.settings.len() as int);
    lemma_instances_back(m, t, v, m.instances.len() as int);
    assert(m.settings.take(m.settings.len() as int) =~= m.settings);
    assert(m.instances.take(m.instances.len() as int) =~= m.instances);
    lemma_links_round_trip(m.ports, m.connections);
    let nets = bus_nets(msg.buses, v);
    assert forall|i: int| 0 <= i < m.nets.len() implies nets[i] == m.nets[i] by {
        lemma_map_put_has(e, "__members__"@, t.members[i], "__members__"@);
        assert(msg.buses[i] == bus_spec(i, m.nets[i], t.members[i]));
        assert(v.members[i] == m.nets[i]);
    }
    assert(nets =~= m.nets);
    assert(module_from_spec(msg, v) =~= m);
}


/// A document written as a circuit and read back (each module's texts read
/// back as the values they were written from) is the same document, whenever
/// each module keeps its content and a named top module has a non-empty name.
pub proof fn lemma_document_round_trip(d: crate::document::TopLevelModuleV, t: Seq<ModuleTextsV>, v: Seq<ModuleValuesV>)
    requires
        t.len() == d.modules.len(),
        v.len() == d.modules.len(),
        forall|i: int| 0 <= i < d.modules.len() ==> module_texts_fit(d.modules[i].1, #[trigger] t[i]),
        forall|i: int| 0 <= i < d.modules.len() ==> values_read_back(d.modules[i].1, t[i], #[trigger] v[i]),
        forall|i: int| 0 <= i < d.modules.len() ==> module_keeps(#[trigger] d.modules[i].1),
        d.toplevel != Some(Seq::<char>::empty()),
    ensures
        document_from_spec(circuit_message_spec(d, t), v) == d,
{
    let c = circuit_message_spec(d, t);
    let r = document_from_spec(c, v);
    assert forall|i: int| 0 <= i < d.modules.len() implies r.modules[i] == d.modules[i] by {
        assert(c.modules[i] == module_message_spec(d.modules[i].0, d.modules[i].1, t[i]));
        lemma_module_round_trip(d.modules[i].0, d.modules[i].1, t[i], v[i]);
    }
    assert(r.modules =~= d.modules);
    match d.toplevel {
        Some(n) => {
            if n.len() == 0 {
                assert(n =~= Seq::<char>::empty());
            }
        },
        None => {},
    }
    assert(r =~= d);
}

} // verus!
