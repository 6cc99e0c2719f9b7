use kfnetlist::json::JsonValue;
use kfnetlist::parser::{
    insert_in_order, l2n_document, serialize_circuit, serialize_net, string_less, sub_label, CircuitFacts, Filters,
    LayerFacts, LayerKey, LayerShapes, NetFacts, Polygon, SubcircuitFacts, SubcircuitPin,
};

fn s(x: &str) -> String {
    x.to_string()
}

fn text(x: &str) -> JsonValue {
    JsonValue::Str(s(x))
}

fn obj(items: Vec<(&str, JsonValue)>) -> JsonValue {
    JsonValue::Object(items.into_iter().map(|(k, v)| (s(k), v)).collect())
}

fn texts(xs: &[&str]) -> JsonValue {
    JsonValue::Array(xs.iter().map(|x| text(x)).collect())
}

fn point(x: i32, y: i32) -> JsonValue {
    let n = |v: i32| if v < 0 { JsonValue::Int(v as i64) } else { JsonValue::UInt(v as u64) };
    JsonValue::Array(vec![n(x), n(y)])
}

fn no_filters() -> Filters {
    Filters { include_layers: None, exclude_layers: None, include_instances: None, exclude_instances: None }
}

fn key(layer: i32, datatype: i32, name: &str) -> LayerKey {
    LayerKey { layer, datatype, name: s(name) }
}

fn net(name: &str, pins: &[&str], subs: Vec<SubcircuitPin>, shapes: Option<Vec<LayerShapes>>) -> NetFacts {
    NetFacts { name: s(name), pins: pins.iter().map(|p| s(p)).collect(), subcircuit_pins: subs, shapes }
}

fn sub_pin(id: u64, name: &str, pin: &str) -> SubcircuitPin {
    SubcircuitPin { id, name: s(name), pin: s(pin) }
}

#[test]
fn nets_list_named_pins_and_reachable_subcircuit_pins() {
    let n = net("", &["a", "", "b"], vec![sub_pin(3, "", "o1"), sub_pin(4, "x", "")], None);
    let expected = obj(vec![
        ("name", JsonValue::Null),
        ("pins", texts(&["a", "b"])),
        ("subcircuit_pins", JsonValue::Array(vec![obj(vec![("subcircuit", text("$3")), ("pin", text("o1"))])])),
    ]);
    assert_eq!(serialize_net(&n, None, &no_filters()), Some(expected));
    // Only the kept subcircuits count.
    let kept = vec![4u64];
    let only_pins = serialize_net(&n, Some(&kept), &no_filters()).unwrap();
    assert_eq!(only_pins, obj(vec![("name", JsonValue::Null), ("pins", texts(&["a", "b"]))]));
    let bare = net("n1", &["", ""], vec![], None);
    assert_eq!(serialize_net(&bare, None, &no_filters()), None);
}

#[test]
fn net_shapes_are_listed_by_layer_name() {
    let wg = LayerShapes {
        layer: key(1, 0, "WG"),
        display: s("WG"),
        polygons: vec![Polygon { hull: vec![(0, 0), (4, 0), (4, -2)], holes: vec![vec![(1, -1)]] }],
    };
    let m1 = LayerShapes {
        layer: key(2, 0, "M1"),
        display: s("M1"),
        polygons: vec![Polygon { hull: vec![(5, 5)], holes: vec![] }],
    };
    let n = net("sig", &["p"], vec![], Some(vec![wg, m1]));
    let expected = obj(vec![
        ("name", text("sig")),
        ("pins", texts(&["p"])),
        (
            "layer_to_polygons",
            obj(vec![
                ("M1", JsonValue::Array(vec![JsonValue::Array(vec![point(5, 5)])])),
                ("WG", JsonValue::Array(vec![JsonValue::Array(vec![point(0, 0), point(4, 0), point(4, -2)])])),
            ]),
        ),
        ("layer_to_holes", obj(vec![("WG", JsonValue::Array(vec![JsonValue::Array(vec![point(1, -1)])]))])),
    ]);
    assert_eq!(serialize_net(&n, None, &no_filters()), Some(expected));
    let mut only = no_filters();
    only.include_layers = Some(vec![key(9, 0, "X")]);
    assert_eq!(serialize_net(&n, None, &only), None);
    let mut without = no_filters();
    without.exclude_layers = Some(vec![key(1, 0, "WG"), key(2, 0, "M1")]);
    assert_eq!(serialize_net(&n, None, &without), None);
    without.exclude_layers = Some(vec![key(1, 0, "WG")]);
    assert!(serialize_net(&n, None, &without).is_some());
}

#[test]
fn circuits_sort_pins_and_filter_subcircuits() {
    let c = CircuitFacts {
        pins: vec![s("b"), s(""), s("a")],
        subcircuits: vec![
            SubcircuitFacts { id: 1, name: s(""), circuit_ref: s("wg"), transform: s("r0 0,0") },
            SubcircuitFacts { id: 2, name: s("x"), circuit_ref: s("pad"), transform: s("r90 1,2") },
        ],
        nets: vec![
            net("n1", &[], vec![sub_pin(2, "x", "e1")], None),
            net("n2", &[], vec![sub_pin(1, "", "o1")], None),
        ],
    };
    let mut f = no_filters();
    f.exclude_instances = Some(vec![s("pad")]);
    let expected = obj(vec![
        ("pins", texts(&["a", "b"])),
        (
            "subcircuits",
            JsonValue::Array(vec![obj(vec![
                ("name", text("$1")),
                ("circuit_ref", text("wg")),
                ("transform", text("r0 0,0")),
            ])]),
        ),
        (
            "nets",
            JsonValue::Array(vec![obj(vec![
                ("name", text("n2")),
                ("subcircuit_pins", JsonValue::Array(vec![obj(vec![("subcircuit", text("$1")), ("pin", text("o1"))])])),
            ])]),
        ),
    ]);
    assert_eq!(serialize_circuit(&c, &f), expected);
    let empty = CircuitFacts { pins: vec![], subcircuits: vec![], nets: vec![] };
    assert_eq!(serialize_circuit(&empty, &no_filters()), obj(vec![]));
}

#[test]
fn extraction_documents_sort_layers_and_keep_circuits_by_name() {
    let layers = vec![
        LayerFacts { layer: key(2, 0, "M1"), display: s("M1") },
        LayerFacts { layer: key(1, 0, "WG"), display: s("WG") },
        LayerFacts { layer: key(-3, 5, ""), display: s("A") },
    ];
    let mut f = no_filters();
    f.exclude_layers = Some(vec![key(1, 0, "WG")]);
    let circuits = vec![(s("TOP"), obj(vec![])), (s("CHILD"), obj(vec![])), (s("TOP"), obj(vec![("pins", texts(&["p"]))]))];
    let doc = l2n_document(&s("TOP"), 0.001f64.to_bits(), &layers, circuits, &f);
    let expected = obj(vec![
        ("top_circuit", text("TOP")),
        ("dbu", JsonValue::Float(0.001f64.to_bits())),
        (
            "layers",
            JsonValue::Array(vec![
                obj(vec![("name", text("A")), ("layer", JsonValue::Int(-3)), ("datatype", JsonValue::UInt(5))]),
                obj(vec![("name", text("M1")), ("layer", JsonValue::UInt(2)), ("datatype", JsonValue::UInt(0))]),
            ]),
        ),
        ("circuits", obj(vec![("TOP", obj(vec![("pins", texts(&["p"]))])), ("CHILD", obj(vec![]))])),
    ]);
    assert_eq!(doc, expected);
    let nan = l2n_document(&s("TOP"), f64::NAN.to_bits(), &vec![], vec![], &no_filters());
    match nan {
        JsonValue::Object(entries) => assert_eq!(entries[1], (s("dbu"), JsonValue::Null)),
        _ => panic!("not an object"),
    }
}

#[test]
fn names_sort_by_character_and_unnamed_subcircuits_by_id() {
    assert!(string_less(&s("a"), &s("b")));
    assert!(string_less(&s("ab"), &s("abc")));
    assert!(!string_less(&s("b"), &s("B")));
    assert!(!string_less(&s("x"), &s("x")));
    assert_eq!(sub_label(42, &s("")), "$42");
    assert_eq!(sub_label(42, &s("inst")), "inst");
    let mut v: Vec<(String, LayerKey)> = vec![];
    insert_in_order(&mut v, (s("M2"), key(2, 0, "")));
    insert_in_order(&mut v, (s("M1"), key(1, 0, "")));
    insert_in_order(&mut v, (s("M2"), key(3, 0, "")));
    let order: Vec<(&str, i32)> = v.iter().map(|(n, k)| (n.as_str(), k.layer)).collect();
    assert_eq!(order, vec![("M1", 1), ("M2", 2), ("M2", 3)]);
}
