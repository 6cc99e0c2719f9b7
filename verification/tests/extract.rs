use kfnetlist::extract::{
    cell_equivalents, cell_netlist, check_converted_names, marker_labels, port_mapping, removed_instances,
    resolve_pending, check_connectivity, ExtractError, Flatten, InstanceInput, Options, PendingRef,
};
use kfnetlist::parser::LayerKey;
use kfnetlist::json::JsonValue;
use kfnetlist::netlist::{NetMember, Netlist, NetlistPort, PortArrayRef, PortRef};

fn s(x: &str) -> String {
    x.to_string()
}

fn group(xs: &[&str]) -> Vec<String> {
    xs.iter().map(|x| s(x)).collect()
}

fn input(name: &str, named: bool, purpose: Option<&str>, na: i64, nb: i64) -> InstanceInput {
    InstanceInput {
        native: 0,
        name: s(name),
        cell: s("cell"),
        component: s("comp"),
        kcl: s("lib"),
        settings: JsonValue::Object(vec![]),
        info: vec![],
        named,
        purpose: purpose.map(s),
        na,
        nb,
    }
}

fn pin(name: &str) -> NetMember {
    NetMember::Port(NetlistPort { name: s(name) })
}

#[test]
fn equivalent_ports_map_to_the_first_of_their_group() {
    let eq = vec![
        (s("mmi"), vec![group(&["o1", "o2"]), vec![], group(&["e1", "e2", "e3"])]),
        (s("ring"), vec![group(&["a", "b"])]),
        (s("mmi"), vec![group(&["o2", "o9"])]),
    ];
    let m = port_mapping(&eq);
    assert_eq!(m.len(), 2);
    assert_eq!(m[0].0, "mmi");
    let pairs: Vec<(&str, &str)> = m[0].1.iter().map(|(a, b)| (a.as_str(), b.as_str())).collect();
    assert_eq!(
        pairs,
        vec![("o1", "o1"), ("o2", "o2"), ("e1", "e1"), ("e2", "e1"), ("e3", "e1"), ("o9", "o2")]
    );
    assert_eq!(m[1].1, vec![(s("a"), s("a")), (s("b"), s("a"))]);
}

#[test]
fn cells_without_declared_groups_are_skipped() {
    let cells = vec![
        (s("a"), Some(vec![group(&["x", "y"])])),
        (s("b"), None),
        (s("a"), Some(vec![group(&["p", "q"])])),
    ];
    let eq = cell_equivalents(&cells);
    assert_eq!(eq, vec![(s("a"), vec![group(&["p", "q"])])]);
}

#[test]
fn one_marker_per_canonical_port() {
    let ports = vec![
        (s("o1"), s("optical")),
        (s("e2"), s("electrical")),
        (s("e1"), s("electrical")),
        (s("d1"), s("DC")),
    ];
    let marks = group(&["electrical", "RF", "DC"]);
    let mapping = port_mapping(&vec![(s("pad"), vec![group(&["e1", "e2"])])]);
    // The cell has no aliases of its own; its factory's apply.
    let labels = marker_labels(&s("pad_1"), &Some(s("pad")), &ports, &marks, &mapping);
    assert_eq!(labels, vec![(1, s("e1")), (3, s("d1"))]);
    // Without aliases every marked port keeps its own name.
    let plain = marker_labels(&s("other"), &None, &ports, &marks, &mapping);
    assert_eq!(plain, vec![(1, s("e2")), (2, s("e1")), (3, s("d1"))]);
}

#[test]
fn cell_netlists_place_declare_and_connect() {
    let instances = vec![input("a", true, None, 0, 0), input("b", true, None, 2, 1)];
    let optical = vec![vec![
        NetMember::Ref(PortRef { instance: s("a"), port: s("o1") }),
        NetMember::ArrayRef(PortArrayRef { instance: s("b"), port: s("o2"), ia: 2, ib: 1 }),
    ]];
    let nl = cell_netlist(&instances, &group(&["in", "out"]), &optical).unwrap();
    assert_eq!(nl.instances.len(), 2);
    assert_eq!(nl.ports.len(), 2);
    assert_eq!(nl.nets.len(), 1);
    assert_eq!(nl.nets[0].members, optical[0]);
    let twice = vec![input("a", true, None, 0, 0), input("a", true, None, 0, 0)];
    assert_eq!(cell_netlist(&twice, &vec![], &vec![]).unwrap_err().message(), "duplicate instance: a");
    let bad = vec![vec![NetMember::Ref(PortRef { instance: s("z"), port: s("o1") })]];
    assert_eq!(cell_netlist(&instances, &vec![], &bad).unwrap_err().message(), "unknown instance: z");
}

#[test]
fn unnamed_and_excluded_instances_are_removed() {
    let instances = vec![
        input("a", true, None, 0, 0),
        input("b", false, None, 0, 0),
        input("c", true, Some("routing"), 0, 0),
        input("d", true, Some("device"), 0, 0),
    ];
    assert_eq!(removed_instances(&instances, false, &vec![]), Vec::<String>::new());
    assert_eq!(removed_instances(&instances, true, &vec![]), group(&["b"]));
    assert_eq!(removed_instances(&instances, true, &group(&["routing"])), group(&["b", "c"]));
}

#[test]
fn pending_references_take_converted_names() {
    let mut nl = Netlist::new();
    nl.create_inst_with_info(s("x1"), s(""), s("c"), JsonValue::Null, 0, 0, vec![]).unwrap();
    nl.create_inst_with_info(s("x2"), s(""), s("c"), JsonValue::Null, 2, 2, vec![]).unwrap();
    let pending = vec![vec![
        PendingRef::Port(s("p")),
        PendingRef::Instance { index: 0, port: s("o1"), ia: -1, ib: -1 },
        PendingRef::Instance { index: 1, port: s("o2"), ia: 2, ib: 1 },
    ]];
    resolve_pending(&mut nl, pending, &group(&["x1", "x2"])).unwrap();
    assert_eq!(nl.ports, vec![NetlistPort { name: s("p") }]);
    assert_eq!(
        nl.nets[0].members,
        vec![
            pin("p"),
            NetMember::Ref(PortRef { instance: s("x1"), port: s("o1") }),
            NetMember::ArrayRef(PortArrayRef { instance: s("x2"), port: s("o2"), ia: 2, ib: 1 }),
        ]
    );
    let out_of_range = vec![vec![PendingRef::Instance { index: 1, port: s("o2"), ia: 3, ib: 1 }]];
    assert_eq!(
        resolve_pending(&mut nl, out_of_range, &group(&["x1", "x2"])).unwrap_err().message(),
        "array index out of range: x2"
    );
}

#[test]
fn converted_names_must_match_the_instances() {
    assert!(check_converted_names(&group(&["a", "b"]), 2).is_ok());
    assert_eq!(
        check_converted_names(&group(&["a"]), 2).unwrap_err().message(),
        "one converted name is required per matched instance"
    );
}

#[test]
fn default_options_join_optical_ports_and_mark_electrical_ones() {
    let o = Options::default();
    assert_eq!(o.port_types, group(&["optical"]));
    assert_eq!(o.mark_port_types, group(&["electrical", "RF", "DC"]));
    assert!(o.connectivity.is_empty());
    assert!(o.equivalent_ports.is_none());
    assert!(!o.ignore_unnamed && !o.allow_width_mismatch && !o.include_placement);
    assert!(o.exclude_purposes.is_empty());
    assert_eq!(o.flatten, Flatten::No);
}

#[test]
fn refusals_keep_their_kind() {
    assert!(matches!(check_converted_names(&group(&["a"]), 2), Err(ExtractError::Invalid(_))));
    let twice = vec![input("a", true, None, 0, 0), input("a", true, None, 0, 0)];
    assert!(matches!(cell_netlist(&twice, &vec![], &vec![]), Err(ExtractError::Model(_))));
    let layer = LayerKey { layer: 1, datatype: 0, name: s("M1") };
    assert_eq!(check_connectivity(&vec![vec![layer.clone()]]), Ok(()));
    let refused = check_connectivity(&vec![vec![layer], vec![]]).unwrap_err();
    assert_eq!(refused, ExtractError::EmptyConnectivity);
    assert_eq!(refused.message(), "list index out of range");
}
