use kfnetlist::json::JsonValue;
use kfnetlist::netlist::{NetMember, Netlist, NetlistPort, PortArrayRef, PortRef};

fn inst(instance: &str, p: &str) -> NetMember {
    NetMember::Ref(PortRef { instance: instance.to_string(), port: p.to_string() })
}

fn elem(instance: &str, p: &str, ia: i64, ib: i64) -> NetMember {
    NetMember::ArrayRef(PortArrayRef { instance: instance.to_string(), port: p.to_string(), ia, ib })
}

fn place(nl: &mut Netlist, name: &str, na: i64, nb: i64) -> Result<(), String> {
    nl.create_inst_with_info(name.to_string(), String::new(), "c".to_string(), JsonValue::Null, na, nb, vec![])
        .map_err(|e| e.message())
}

#[test]
fn pins_are_declared_once() {
    let mut nl = Netlist::new();
    nl.create_port("p".to_string());
    nl.create_port("p".to_string());
    assert_eq!(nl.ports.len(), 1);
    assert!(nl.port_declared(&"p".to_string()));
    assert!(!nl.port_declared(&"q".to_string()));
}

#[test]
fn instances_and_arrays_are_checked() {
    let mut nl = Netlist::new();
    assert_eq!(place(&mut nl, "a", 0, 0), Ok(()));
    assert_eq!(place(&mut nl, "a", 0, 0), Err("duplicate instance: a".to_string()));
    assert_eq!(place(&mut nl, "b", 2, 0), Err("array dimensions must be positive".to_string()));
    assert_eq!(place(&mut nl, "b", -1, -1), Err("array dimensions must be positive".to_string()));
    assert_eq!(place(&mut nl, "b", 2, 3), Ok(()));
    assert_eq!(nl.instances.len(), 2);
    assert_eq!(nl.instances[1].1.array.as_ref().map(|a| (a.na, a.nb)), Some((2, 3)));
    assert!(nl.instances[0].1.array.is_none());
}

#[test]
fn net_members_must_exist() {
    let mut nl = Netlist::new();
    nl.create_port("p".to_string());
    place(&mut nl, "a", 0, 0).unwrap();
    place(&mut nl, "b", 2, 3).unwrap();
    let unknown_pin = NetMember::Port(NetlistPort { name: "q".to_string() });
    assert_eq!(nl.create_net(vec![unknown_pin]).unwrap_err().message(), "unknown port: q");
    assert_eq!(nl.create_net(vec![inst("z", "o")]).unwrap_err().message(), "unknown instance: z");
    assert_eq!(nl.create_net(vec![elem("a", "o", 1, 1)]).unwrap_err().message(), "instance is not an array: a");
    assert_eq!(nl.create_net(vec![elem("b", "o", 3, 1)]).unwrap_err().message(), "array index out of range: b");
    assert_eq!(nl.create_net(vec![elem("b", "o", 2, 0)]).unwrap_err().message(), "array index out of range: b");
    assert!(nl.nets.is_empty());
    let pin = NetMember::Port(NetlistPort { name: "p".to_string() });
    nl.create_net(vec![pin.clone(), inst("a", "o"), elem("b", "i", 2, 3)]).unwrap();
    assert_eq!(nl.nets.len(), 1);
    assert_eq!(nl.nets[0].members, vec![pin, inst("a", "o"), elem("b", "i", 2, 3)]);
    assert_eq!(nl.check_member(&inst("a", "x")), None);
    assert_eq!(nl.check_member(&inst("c", "x")), Some("unknown instance: c".to_string()));
}
