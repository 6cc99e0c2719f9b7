use kfnetlist::circuit::{setting_name, InstanceTexts, ModuleTexts, ModuleValues, RefValues};
use kfnetlist::convert::{
    bus_members, connection, module_links, module_terminals, net_bus, recover_links, reference, terminal,
};
use kfnetlist::document::{ArraySpec, Instance, Module, TopLevelModule};
use kfnetlist::json::{copy_map, JsonValue};
use kfnetlist::proto::{Bus, Circuit, Connection, ParameterKind, ParameterValue, PrefixedValue, Terminal, TerminalReference};

fn s(x: &str) -> String {
    x.to_string()
}

fn tref(i: &str, t: &str) -> TerminalReference {
    TerminalReference { instance_name: s(i), terminal_name: s(t) }
}

fn pairs(items: &[(&str, &str)]) -> Vec<(String, String)> {
    items.iter().map(|(a, b)| (s(a), s(b))).collect()
}

fn number(x: f64) -> ParameterValue {
    ParameterValue { value: Some(ParameterKind::PrefixedValue(PrefixedValue { double_bits: x.to_bits(), prefix: 0 })) }
}

#[test]
fn references_become_terminals_and_back() {
    assert_eq!(terminal(" a , p "), tref("a", "p"));
    assert_eq!(terminal("out"), tref("", "out"));
    assert_eq!(terminal("a<1.2>,o"), tref("a<1.2>", "o"));
    assert_eq!(reference(&tref("a", "p")), "a,p");
    assert_eq!(reference(&tref("", "out")), "out");
    let c = connection(s("conn_0"), "a,o", "b,i");
    assert_eq!(c, Connection { name: s("conn_0"), source: Some(tref("a", "o")), target: Some(tref("b", "i")) });
}

#[test]
fn pins_and_connections_are_named_in_order() {
    let ports = pairs(&[("in", "a,i"), ("out", "b,o")]);
    let conns = pairs(&[("a,o", "b,i")]);
    assert_eq!(
        module_terminals(&ports),
        vec![Terminal { uid: 0, name: s("in") }, Terminal { uid: 1, name: s("out") }]
    );
    let links = module_links(&ports, &conns);
    let names: Vec<&str> = links.iter().map(|c| c.name.as_str()).collect();
    assert_eq!(names, vec!["conn_0", "port_in", "port_out"]);
    assert_eq!(links[1].source, Some(tref("", "in")));
    assert_eq!(links[1].target, Some(tref("a", "i")));
    let (back_ports, back_conns) = recover_links(&links, &module_terminals(&ports));
    assert_eq!(back_ports, ports);
    assert_eq!(back_conns, conns);
}

#[test]
fn terminals_without_a_connection_name_themselves() {
    let links = vec![Connection { name: s("port_p"), source: Some(tref("", "p")), target: None }];
    let terms = vec![Terminal { uid: 0, name: s("p") }, Terminal { uid: 1, name: s("q") }];
    let (ports, conns) = recover_links(&links, &terms);
    assert_eq!(ports, pairs(&[("p", "p"), ("q", "q")]));
    assert!(conns.is_empty());
}

#[test]
fn nets_become_buses_of_consecutive_pairs() {
    let members = vec![s("a,o"), s("b,i"), s("c,i")];
    let bus = net_bus(3, &members);
    assert_eq!(bus.name, "net_3");
    let names: Vec<&str> = bus.connections.iter().map(|c| c.name.as_str()).collect();
    assert_eq!(names, vec!["net3_c0", "net3_c1"]);
    assert!(bus.properties.is_empty());
    assert_eq!(bus_members(&bus), members);
    // A single member leaves no connection to recover it from.
    assert!(bus_members(&net_bus(0, &vec![s("a,o")])).is_empty());
    let repeated = Bus { name: s("net_0"), connections: vec![connection(s("c"), "a,o", "a,o")], properties: vec![] };
    assert_eq!(bus_members(&repeated), vec![s("a,o")]);
}

fn module() -> Module {
    Module {
        name: Some(s("display")),
        settings: vec![(s("mode"), JsonValue::Str(s("te"))), (s("width"), JsonValue::Float(0.5f64.to_bits()))],
        info: vec![],
        instances: vec![(
            s("a"),
            Instance {
                component: s("mmi"),
                settings: vec![(s("length"), JsonValue::UInt(10)), (s("tag"), JsonValue::Str(s("x")))],
                array: Some(ArraySpec { na: 2, nb: 1 }),
                info: vec![],
            },
        )],
        placements: vec![],
        ports: pairs(&[("in", "a<1.1>,o1")]),
        connections: pairs(&[("a<1.1>,o2", "a<2.1>,o1")]),
        nets: vec![vec![s("a<2.1>,o2")]],
        routes: vec![],
    }
}

fn texts() -> ModuleTexts {
    ModuleTexts {
        name: s("\"display\""),
        placements: s("{}"),
        routes: s("{}"),
        info: s("{}"),
        settings: vec![(s("\"te\""), None), (s("0.5"), Some(number(0.5)))],
        instances: vec![InstanceTexts {
            array: s("{\"na\":2,\"nb\":1}"),
            info: s("{}"),
            settings: vec![(s("10"), Some(number(10.0))), (s("\"x\""), None)],
        }],
        members: vec![s("[\"a<2.1>,o2\"]")],
    }
}

#[test]
fn modules_become_circuit_modules() {
    let m = module();
    let t = texts();
    let pm = m.to_proto_module(&s("child"), &t);
    assert_eq!(pm.name, "child");
    let keys: Vec<&str> = pm.properties.iter().map(|(k, _)| k.as_str()).collect();
    assert_eq!(keys, vec!["__info__", "__name__", "__placements__", "__routes__"]);
    assert_eq!(pm.parameters.len(), 2);
    assert_eq!(pm.parameters[1].uid, 1);
    assert_eq!(pm.parameters[0].name, "mode");
    assert_eq!(pm.parameters[0].default_value, None);
    assert_eq!(pm.parameters[1].name, "width");
    assert_eq!(pm.parameters[1].default_value, Some(number(0.5)));
    assert_eq!(pm.parameters[0].properties, pairs(&[("__json_value__", "\"te\"")]));
    let r = &pm.module_references[0];
    assert_eq!(r.module_name, "mmi");
    assert_eq!(r.parameter_overrides, vec![(s("length"), number(10.0))]);
    let rkeys: Vec<&str> = r.properties.iter().map(|(k, _)| k.as_str()).collect();
    assert_eq!(rkeys, vec!["__array__", "__info__", "__setting__length", "__setting__tag"]);
    assert_eq!(pm.buses[0].properties, pairs(&[("__members__", "[\"a<2.1>,o2\"]")]));
    assert_eq!(pm.connections.len(), 2);
    let c = TopLevelModule { modules: vec![(s("child"), m)], toplevel: None }.to_proto_circuit(&vec![t]);
    assert_eq!(c.name, "");
    assert_eq!(c.top_module, "");
}

#[test]
fn circuit_modules_read_back_as_modules() {
    let m = module();
    let pm = m.to_proto_module(&s("child"), &texts());
    let values = ModuleValues {
        name: Some(s("display")),
        info: vec![],
        placements: vec![],
        routes: vec![],
        values: vec![JsonValue::Str(s("te")), JsonValue::Float(0.5f64.to_bits())],
        numbers: vec![None, Some(JsonValue::Float(0.5f64.to_bits()))],
        instances: vec![RefValues {
            numbers: vec![Some(JsonValue::Float(10.0f64.to_bits()))],
            values: vec![JsonValue::Null, JsonValue::Null, JsonValue::UInt(10), JsonValue::Str(s("x"))],
            array: Some(ArraySpec { na: 2, nb: 1 }),
            info: vec![],
        }],
        members: vec![vec![s("a<2.1>,o2")]],
    };
    assert_eq!(Module::from_proto_module(&pm, values), m);
    let c = Circuit { name: s("t"), top_module: s("t"), modules: vec![pm.clone()] };
    let values = ModuleValues {
        name: None,
        info: vec![],
        placements: vec![],
        routes: vec![],
        values: vec![JsonValue::Null, JsonValue::Null],
        numbers: vec![None, None],
        instances: vec![RefValues {
            numbers: vec![None],
            values: vec![JsonValue::Null, JsonValue::Null, JsonValue::Null, JsonValue::Null],
            array: None,
            info: vec![],
        }],
        members: vec![vec![]],
    };
    let d = TopLevelModule::from_proto_circuit(&c, vec![values]);
    assert_eq!(d.toplevel, Some(s("t")));
    assert_eq!(d.modules[0].0, "child");
    assert_eq!(d.modules[0].1.name, None);
}

#[test]
fn circuit_modules_without_texts_fall_back_to_their_structure() {
    let mut pm = module().to_proto_module(&s("child"), &texts());
    pm.properties.clear();
    for p in pm.parameters.iter_mut() {
        p.properties.clear();
    }
    for b in pm.buses.iter_mut() {
        b.properties.clear();
    }
    let values = ModuleValues {
        name: Some(s("ignored")),
        info: vec![],
        placements: vec![],
        routes: vec![],
        values: vec![JsonValue::Bool(true), JsonValue::Bool(true)],
        numbers: vec![None, Some(JsonValue::Float(0.5f64.to_bits()))],
        instances: vec![RefValues {
            numbers: vec![None],
            values: vec![JsonValue::Null, JsonValue::Null, JsonValue::Null, JsonValue::Null],
            array: None,
            info: vec![],
        }],
        members: vec![vec![s("ignored")]],
    };
    let back = Module::from_proto_module(&pm, values);
    assert_eq!(back.name, Some(s("child")));
    assert_eq!(back.settings, vec![(s("width"), JsonValue::Float(0.5f64.to_bits()))]);
    assert_eq!(back.nets, vec![Vec::<String>::new()]);
}

#[test]
fn instance_settings_come_from_overrides_then_setting_properties() {
    let inst = Instance {
        component: s("mmi"),
        settings: vec![(s("length"), JsonValue::UInt(10)), (s("tag"), JsonValue::Str(s("x")))],
        array: None,
        info: vec![],
    };
    let r = inst.to_proto_ref(
        &s("a"),
        &InstanceTexts {
            array: s("null"),
            info: s("{}"),
            settings: vec![(s("10"), Some(number(10.0))), (s("\"x\""), None)],
        },
    );
    assert_eq!(setting_name(&s("__setting__tag")), Some(s("tag")));
    assert_eq!(setting_name(&s("__array__")), None);
    let values: Vec<JsonValue> = r
        .properties
        .iter()
        .map(|(k, _)| match setting_name(k).as_deref() {
            Some("length") => JsonValue::UInt(10),
            Some("tag") => JsonValue::Str(s("x")),
            _ => JsonValue::Null,
        })
        .collect();
    let back = Instance::from_proto_ref(&r, vec![Some(JsonValue::Float(10.0f64.to_bits()))], values, None, vec![]);
    assert_eq!(back, inst);
}

#[test]
fn instances_read_back_with_their_settings_sorted_by_name() {
    // A JSON object keeps its keys sorted: enabled, expr, large, width.
    let inst = Instance {
        component: s("coupler"),
        settings: vec![
            (s("enabled"), JsonValue::Bool(true)),
            (s("expr"), JsonValue::Str(s("${settings.width}"))),
            (s("large"), JsonValue::UInt(9007199254740993)),
            (s("width"), JsonValue::Float(0.5f64.to_bits())),
        ],
        array: Some(ArraySpec { na: 3, nb: 2 }),
        info: vec![(s("source"), JsonValue::Str(s("layout")))],
    };
    let r = inst.to_proto_ref(
        &s("a"),
        &InstanceTexts {
            array: s("{\"na\":3,\"nb\":2}"),
            info: s("{\"source\":\"layout\"}"),
            settings: vec![
                (s("true"), None),
                (s("\"${settings.width}\""), None),
                (s("9007199254740993"), Some(number(9007199254740993u64 as f64))),
                (s("0.5"), Some(number(0.5))),
            ],
        },
    );
    let names: Vec<&str> = r.parameter_overrides.iter().map(|(k, _)| k.as_str()).collect();
    assert_eq!(names, vec!["large", "width"]);
    let values: Vec<JsonValue> = r
        .properties
        .iter()
        .map(|(k, _)| match setting_name(k) {
            Some(name) => inst.settings.iter().find(|(n, _)| *n == name).unwrap().1.duplicate(),
            None => JsonValue::Null,
        })
        .collect();
    let numbers = vec![
        Some(JsonValue::Float((9007199254740993u64 as f64).to_bits())),
        Some(JsonValue::Float(0.5f64.to_bits())),
    ];
    let back = Instance::from_proto_ref(&r, numbers, values, inst.array.clone(), copy_map(&inst.info));
    assert_eq!(back, inst);
    assert_eq!(back.settings[2].1, JsonValue::UInt(9007199254740993));
}
