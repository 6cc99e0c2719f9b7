use kfnetlist::proto::{
    Bus, Circuit, Connection, Module, ModuleReference, Parameter, ParameterKind, ParameterValue, PrefixedValue, Terminal,
    TerminalReference,
};

fn tref(instance: &str, terminal: &str) -> TerminalReference {
    TerminalReference { instance_name: instance.to_string(), terminal_name: terminal.to_string() }
}

fn link(name: &str, a: (&str, &str), b: (&str, &str)) -> Connection {
    Connection { name: name.to_string(), source: Some(tref(a.0, a.1)), target: Some(tref(b.0, b.1)) }
}

fn props(items: &[(&str, &str)]) -> Vec<(String, String)> {
    items.iter().map(|(k, v)| (k.to_string(), v.to_string())).collect()
}

fn number(x: f64, prefix: i32) -> ParameterValue {
    ParameterValue { value: Some(ParameterKind::PrefixedValue(PrefixedValue { double_bits: x.to_bits(), prefix })) }
}

#[test]
fn connection_bytes_nest_their_terminals() {
    let c = Connection { name: "c".to_string(), source: Some(tref("a", "p")), target: None };
    assert_eq!(c.encode_to_vec(), b"\x0a\x01c\x12\x06\x0a\x01a\x12\x01p");
    assert_eq!(Connection::decode(&c.encode_to_vec()).unwrap(), c);
    let empty = Connection::default();
    assert!(empty.encode_to_vec().is_empty());
    assert_eq!(Connection::decode(&[]).unwrap(), empty);
}

#[test]
fn default_fields_are_not_written() {
    assert!(TerminalReference::default().encode_to_vec().is_empty());
    assert!(PrefixedValue::default().encode_to_vec().is_empty());
    let negative_zero = PrefixedValue { double_bits: (-0.0f64).to_bits(), prefix: 0 };
    assert!(negative_zero.encode_to_vec().is_empty());
    assert_eq!(Terminal { uid: 0, name: "p".to_string() }.encode_to_vec(), b"\x12\x01p");
    assert_eq!(Terminal { uid: 300, name: String::new() }.encode_to_vec(), b"\x08\xac\x02");
}

#[test]
fn prefixed_numbers_keep_their_bits_and_prefix() {
    let p = PrefixedValue { double_bits: 2.0f64.to_bits(), prefix: -3 };
    let bytes = p.encode_to_vec();
    assert_eq!(&bytes[..9], b"\x09\x00\x00\x00\x00\x00\x00\x00\x40");
    assert_eq!(&bytes[9..], b"\x10\xfd\xff\xff\xff\xff\xff\xff\xff\xff\x01");
    let mut q = PrefixedValue::default();
    q.merge(&bytes).unwrap();
    assert_eq!(q, p);
    let v = number(1.5, 6);
    let mut w = ParameterValue::default();
    w.merge(&v.encode_to_vec()).unwrap();
    assert_eq!(w, v);
}

#[test]
fn messages_read_back_what_was_written() {
    let t = Terminal { uid: 7, name: "out".to_string() };
    assert_eq!(Terminal::decode(&t.encode_to_vec()).unwrap(), t);
    let p = Parameter {
        uid: 2,
        name: "width".to_string(),
        default_value: Some(number(0.5, 0)),
        properties: props(&[("a", "1"), ("b", "2")]),
    };
    assert_eq!(Parameter::decode(&p.encode_to_vec()).unwrap(), p);
    let r = ModuleReference {
        name: "sub".to_string(),
        module_name: "child".to_string(),
        parameter_overrides: vec![("length".to_string(), number(10.0, -6))],
        properties: props(&[("__info__", "{}")]),
    };
    assert_eq!(ModuleReference::decode(&r.encode_to_vec()).unwrap(), r);
    let b = Bus {
        name: "net_0".to_string(),
        connections: vec![link("net0_c0", ("a", "o"), ("b", "i")), link("net0_c1", ("b", "i"), ("", "p"))],
        properties: vec![],
    };
    assert_eq!(Bus::decode(&b.encode_to_vec()).unwrap(), b);
    let m = Module {
        name: "child".to_string(),
        terminal: vec![Terminal { uid: 0, name: "in".to_string() }, Terminal { uid: 1, name: "out".to_string() }],
        parameters: vec![p.clone()],
        module_references: vec![r.clone()],
        connections: vec![link("conn_0", ("a", "o"), ("b", "i"))],
        buses: vec![b.clone()],
        properties: props(&[("settings", "{}")]),
    };
    assert_eq!(Module::decode(&m.encode_to_vec()).unwrap(), m);
    let c = Circuit { name: "demo".to_string(), top_module: "child".to_string(), modules: vec![m.clone(), Module::default()] };
    assert_eq!(Circuit::decode(&c.encode_to_vec()).unwrap(), c);
}

#[test]
fn property_maps_are_written_in_key_order_and_later_entries_win() {
    // Entries are laid out as sorted map entries; a repeated key keeps its last value.
    let r = ModuleReference {
        name: String::new(),
        module_name: String::new(),
        parameter_overrides: vec![],
        properties: props(&[("a", "1"), ("b", "2")]),
    };
    assert_eq!(r.encode_to_vec(), b"\x32\x06\x0a\x01a\x12\x011\x32\x06\x0a\x01b\x12\x012");
    let twice = b"\x32\x06\x0a\x01a\x12\x011\x32\x06\x0a\x01a\x12\x013";
    let back = ModuleReference::decode(twice).unwrap();
    assert_eq!(back.properties, props(&[("a", "3")]));
}

#[test]
fn unknown_fields_are_skipped() {
    // Field 2 (description) is not modeled and is skipped when reading.
    let bytes = b"\x0a\x04demo\x12\x02xx\x1a\x03top";
    let c = Circuit::decode(bytes).unwrap();
    assert_eq!(c.name, "demo");
    assert_eq!(c.top_module, "top");
}

#[test]
fn malformed_bytes_are_refused() {
    assert!(Circuit::decode(b"\xff").is_err());
    assert!(Circuit::decode(b"\x0a\x05demo").is_err());
    assert!(Circuit::decode(b"\x0a\x02\xff\xfe").is_err());
    assert!(Circuit::decode(b"\x08").is_err());
    assert!(Circuit::decode(b"\x00\x01").is_err());
    assert!(TerminalReference::decode(b"\x08\x01").is_err());
    assert!(Terminal::decode(b"\x0a\x01p").is_err());
}

#[test]
fn model_references_are_kept_and_one_value_replaces_the_other() {
    // A model reference (field 2) is kept as the bytes of its message.
    let body = b"\x0a\x05model".to_vec();
    let v = ParameterValue { value: Some(ParameterKind::ModelRef(body.clone())) };
    let bytes = v.encode_to_vec();
    assert_eq!(bytes, b"\x12\x07\x0a\x05model");
    let mut back = ParameterValue::default();
    back.merge(&bytes).unwrap();
    assert_eq!(back, v);
    // A later prefixed number replaces the reference, and the other way round.
    let mut mixed = bytes.clone();
    mixed.extend_from_slice(&number(2.0, 0).encode_to_vec());
    let mut w = ParameterValue::default();
    w.merge(&mixed).unwrap();
    assert_eq!(w, number(2.0, 0));
    let mut z = ParameterValue::default();
    let mut other = number(2.0, 0).encode_to_vec();
    other.extend_from_slice(&bytes);
    z.merge(&other).unwrap();
    assert_eq!(z, v);
    // A reference whose bytes are not a message is refused.
    assert!(ParameterValue::default().merge(b"\x12\x01\xff").is_err());
}
