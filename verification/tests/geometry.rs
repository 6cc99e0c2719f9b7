use kfnetlist::geometry::{cell_items, instance_items, optical_nets, optical_plan, Candidate, OpticalInstance, OpticalPort};
use kfnetlist::netlist::{NetMember, NetlistPort, PortArrayRef, PortRef};
use kfnetlist::ports::{LAYER, OPPOSITE, PORT_TYPE, POSITION, SAME, WIDTH};

fn port(name: &str, kind: &str, x: i32, y: i32) -> OpticalPort {
    OpticalPort { name: name.to_string(), port_type: kind.to_string(), x, y, layer: 1, datatype: 0 }
}

fn inst(name: &str, ports: Vec<OpticalPort>) -> OpticalInstance {
    OpticalInstance { name: name.to_string(), na: 0, nb: 0, ports, placed: None }
}

fn optical() -> Vec<String> {
    vec!["optical".to_string()]
}

fn pin(n: &str) -> NetMember {
    NetMember::Port(NetlistPort { name: n.to_string() })
}

fn iref(i: &str, p: &str) -> NetMember {
    NetMember::Ref(PortRef { instance: i.to_string(), port: p.to_string() })
}

#[test]
fn cell_ports_of_other_types_are_ignored_and_names_must_be_unique() {
    let items = cell_items(&vec![port("o1", "optical", 0, 0), port("e1", "electrical", 0, 0)], &optical()).unwrap();
    assert_eq!(items.len(), 1);
    assert_eq!(items[0].reference, pin("o1"));
    let err = cell_items(&vec![port("o1", "optical", 0, 0), port("o1", "optical", 5, 0)], &optical()).unwrap_err();
    assert_eq!(err.message(), "Netlist extraction is not possible with colliding port names. Duplicate name: o1");
    // Unnamed ports are never counted as repeats.
    assert_eq!(cell_items(&vec![port("", "optical", 0, 0), port("", "optical", 5, 0)], &optical()).unwrap().len(), 2);
}

#[test]
fn array_elements_are_placed_one_by_one() {
    let mut arr = inst("arr", vec![port("o1", "optical", 0, 0)]);
    arr.na = 2;
    arr.nb = 1;
    let mut out = Vec::new();
    assert_eq!(instance_items(&mut out, &arr, 0, &optical()).unwrap_err().message(), "missing native instance array");
    arr.placed = Some(vec![vec![port("o1", "optical", 0, 0)], vec![port("o1", "optical", 7, 0)]]);
    instance_items(&mut out, &arr, 0, &optical()).unwrap();
    assert_eq!(out.len(), 2);
    assert_eq!(out[1].port.x, 7);
    assert_eq!(
        out[1].reference,
        NetMember::ArrayRef(PortArrayRef { instance: "arr".to_string(), port: "o1".to_string(), ia: 1, ib: 0 })
    );
}

#[test]
fn adjacent_ports_form_nets_and_the_rest_stand_alone() {
    let ports = vec![port("p1", "optical", 0, 0)];
    let instances = vec![
        inst("a", vec![port("o1", "optical", 0, 0), port("o2", "optical", 10, 0)]),
        inst("b", vec![port("o1", "optical", 10, 0)]),
    ];
    let plan = optical_plan(&ports, &instances, &optical()).unwrap();
    assert_eq!(plan.cell_count, 1);
    assert_eq!(
        plan.candidates,
        vec![
            Candidate { a: 0, b: 1, snapped: true, orientation: SAME },
            Candidate { a: 2, b: 3, snapped: false, orientation: OPPOSITE },
        ]
    );
    let base = POSITION | LAYER | PORT_TYPE | WIDTH;
    let nets = optical_nets(&plan, &vec![base | SAME, base | OPPOSITE], false);
    assert_eq!(nets, vec![vec![pin("p1"), iref("a", "o1")], vec![iref("a", "o2"), iref("b", "o1")]]);
    // A width mismatch breaks the second pair unless it is allowed.
    let nets = optical_nets(&plan, &vec![base | SAME, POSITION | LAYER | PORT_TYPE | OPPOSITE], false);
    assert_eq!(nets, vec![vec![pin("p1"), iref("a", "o1")], vec![iref("a", "o2")], vec![iref("b", "o1")]]);
    let nets = optical_nets(&plan, &vec![base | SAME, POSITION | LAYER | PORT_TYPE | OPPOSITE], true);
    assert_eq!(nets.len(), 2);
}
