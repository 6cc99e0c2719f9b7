use kfnetlist::document::{document_shape, ArraySpec, Instance, Module, ModuleSource, TopLevelModule};
use kfnetlist::json::JsonValue;
use kfnetlist::netlist::{NetMember, Netlist};
use kfnetlist::proto;

fn s(text: &str) -> String {
    text.to_string()
}

fn text(v: &str) -> JsonValue {
    JsonValue::Str(s(v))
}

fn float(x: f64) -> JsonValue {
    JsonValue::Float(x.to_bits())
}

fn entries(items: Vec<(&str, JsonValue)>) -> Vec<(String, JsonValue)> {
    items.into_iter().map(|(k, v)| (s(k), v)).collect()
}

fn pairs(items: &[(&str, &str)]) -> Vec<(String, String)> {
    items.iter().map(|(a, b)| (s(a), s(b))).collect()
}

fn empty_module() -> Module {
    Module {
        name: None,
        settings: vec![],
        info: vec![],
        instances: vec![],
        placements: vec![],
        ports: vec![],
        connections: vec![],
        nets: vec![],
        routes: vec![],
    }
}

fn instance(component: &str) -> Instance {
    Instance { component: s(component), settings: vec![], array: None, info: vec![] }
}

fn document() -> TopLevelModule {
    let child = Module {
        name: Some(s("display name")),
        settings: entries(vec![("width", float(0.5))]),
        info: entries(vec![("description", text("test"))]),
        instances: vec![(
            s("a"),
            Instance {
                component: s("coupler"),
                // A JSON object holds its keys sorted.
                settings: entries(vec![
                    ("enabled", JsonValue::Bool(true)),
                    ("expr", text("${settings.width}")),
                    ("large", JsonValue::UInt(9007199254740993)),
                    ("null", JsonValue::Null),
                    ("values", JsonValue::Array(vec![JsonValue::UInt(1), text("two")])),
                    ("width", float(0.5)),
                ]),
                array: Some(ArraySpec { na: 3, nb: 2 }),
                info: entries(vec![("source", text("layout"))]),
            },
        )],
        placements: entries(vec![("a", JsonValue::Object(entries(vec![("x", text("pad,e4"))])))]),
        ports: pairs(&[("in", "a[0],in"), ("out", "a<3.2>,out")]),
        connections: pairs(&[("a<1.2>,out", "a<2.2>,in")]),
        nets: vec![
            vec![],
            vec![s("a,in")],
            vec![s("a,in"), s("a[2],in"), s("a<3.2>,out")],
        ],
        routes: entries(vec![(
            "optical",
            JsonValue::Object(entries(vec![("radius", JsonValue::UInt(10))])),
        )]),
    };
    let mut parent = empty_module();
    parent.instances = vec![(s("sub"), instance("child"))];
    TopLevelModule { modules: vec![(s("child"), child), (s("parent"), parent)], toplevel: Some(s("parent")) }
}

fn lookup<'a, V>(entries: &'a [(String, V)], key: &str) -> &'a V {
    &entries.iter().find(|(k, _)| k == key).expect("entry present").1
}

#[test]
fn wire_matches_a_fixed_protobuf_fixture() {
    // Circuit.name = field 1, Circuit.top_module = field 3; wire type 2.
    let bytes = b"\x0a\x04demo\x1a\x03top";
    let circuit = proto::Circuit::decode(bytes.as_slice()).unwrap();
    assert_eq!(circuit.name, "demo");
    assert_eq!(circuit.top_module, "top");
    assert_eq!(circuit.encode_to_vec(), bytes);
    // TerminalReference uses the original field numbers, including Terminal_name.
    let pin = proto::TerminalReference {
        instance_name: "a".into(),
        terminal_name: "p".into(),
    };
    assert_eq!(pin.encode_to_vec(), b"\x0a\x01a\x12\x01p");
}

#[test]
fn elaboration_preserves_arrays_connectivity_and_instance_metadata() {
    let doc = document();
    let netlists = doc.to_netlists().unwrap();
    let nl = lookup(&netlists, "child");
    let a = lookup(&nl.instances, "a");
    assert_eq!(*lookup(&a.info, "source"), text("layout"));
    assert_eq!(a.array.as_ref().unwrap().nb, 2);
    assert!(nl
        .nets
        .iter()
        .flat_map(|n| &n.members)
        .any(|m| matches!(m, NetMember::ArrayRef(p) if p.ia == 3 && p.ib == 2)));
    let reverse = TopLevelModule::from_netlists(&netlists, Some("parent".into()));
    let child = lookup(&reverse.modules, "child");
    assert_eq!(*lookup(&lookup(&child.instances, "a").info, "source"), text("layout"));
    assert_eq!(reverse.to_netlists().unwrap(), netlists);
}

#[test]
fn bare_yaml_and_array_size_shorthand() {
    // instances: {a: {component: coupler, settings: {array_size: 3}}}, ports: {out: 'a[2],out'}
    let raw = entries(vec![
        ("instances", JsonValue::Object(vec![])),
        ("ports", JsonValue::Object(vec![])),
    ]);
    let (source, top) = document_shape(raw, None).unwrap();
    assert!(matches!(source, ModuleSource::Root(ref m) if m.len() == 2));
    assert_eq!(top.as_deref(), Some("__root__"));
    let mut root = empty_module();
    let mut a = instance("coupler");
    a.settings = entries(vec![("array_size", JsonValue::UInt(3))]);
    root.instances = vec![(s("a"), a)];
    root.ports = pairs(&[("out", "a[2],out")]);
    let doc = TopLevelModule { modules: vec![(s("__root__"), root)], toplevel: top };
    let netlists = doc.to_netlists().unwrap();
    assert_eq!(lookup(&lookup(&netlists, "__root__").instances, "a").array.as_ref().unwrap().na, 3);
}

#[test]
fn bad_inputs_report_errors() {
    assert!(proto::Circuit::decode(b"\xff").is_err());
    let mut m = empty_module();
    m.name = None;
    let bad = TopLevelModule { modules: vec![(s("m"), m)], toplevel: Some(s("absent")) };
    assert!(bad.to_netlists().is_err());
    for reference in [
        "a[-1],p",
        "a<0.1>,p",
        "a[999999999999999999999],p",
        "a[3],p",
        "absent,p",
        "a,p,extra",
    ] {
        let mut root = empty_module();
        let mut a = instance("x");
        a.array = Some(ArraySpec { na: 2, nb: 1 });
        root.instances = vec![(s("a"), a)];
        root.ports = pairs(&[("out", reference)]);
        let doc = TopLevelModule { modules: vec![(s("__root__"), root)], toplevel: Some(s("__root__")) };
        assert!(doc.to_netlists().is_err(), "accepted {reference}");
    }
    for size in [
        JsonValue::UInt(0),
        JsonValue::Int(-1),
        float(2.5),
        JsonValue::Bool(true),
        text("two"),
    ] {
        let mut root = empty_module();
        let mut a = instance("x");
        a.settings = vec![(s("array_size"), size)];
        root.instances = vec![(s("a"), a)];
        let doc = TopLevelModule { modules: vec![(s("__root__"), root)], toplevel: Some(s("__root__")) };
        assert!(doc.to_netlists().is_err());
    }
}

#[test]
fn unconnected_and_multi_net_pins_are_not_lost() {
    let mut nl = Netlist::default();
    let p = nl.create_port("p".into());
    nl.create_port("q".into());
    let r = nl.create_port("r".into());
    nl.create_net(vec![NetMember::Port(p), NetMember::Port(r)])
        .unwrap();
    let module = Module::from_netlist("m".into(), &nl);
    assert_eq!(module.ports.len(), 3);
    assert_eq!(module.to_netlist().unwrap(), nl);
}

#[test]
fn pins_with_spaces_survive_recovery_and_elaboration() {
    let mut nl = Netlist::default();
    let p = nl.create_port(" p ".into());
    nl.create_inst_with_info("a".into(), String::new(), "c".into(), JsonValue::Object(vec![]), 0, 0, vec![])
        .unwrap();
    nl.create_net(vec![
        NetMember::Port(p),
        NetMember::Ref(kfnetlist::netlist::PortRef { instance: "a".into(), port: "o".into() }),
    ])
    .unwrap();
    let module = Module::from_netlist("m".into(), &nl);
    assert_eq!(module.ports, vec![(" p ".to_string(), "a,o".to_string())]);
    assert_eq!(module.to_netlist().unwrap(), nl);
}
