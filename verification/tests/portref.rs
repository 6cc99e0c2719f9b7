use kfnetlist::netlist::{NetMember, NetlistPort, PortArrayRef, PortRef};
use kfnetlist::portref::{parse_port_ref, unparse};

fn port(name: &str) -> NetMember {
    NetMember::Port(NetlistPort { name: name.to_string() })
}

fn inst(instance: &str, p: &str) -> NetMember {
    NetMember::Ref(PortRef { instance: instance.to_string(), port: p.to_string() })
}

fn elem(instance: &str, p: &str, ia: i64, ib: i64) -> NetMember {
    NetMember::ArrayRef(PortArrayRef { instance: instance.to_string(), port: p.to_string(), ia, ib })
}

fn refused(text: &str) -> String {
    parse_port_ref(text).unwrap_err().message()
}

#[test]
fn bare_pins_and_instance_pins_are_trimmed() {
    assert_eq!(parse_port_ref("  out  ").unwrap(), port("out"));
    assert_eq!(parse_port_ref("a,p").unwrap(), inst("a", "p"));
    assert_eq!(parse_port_ref(" a , p ").unwrap(), inst("a", "p"));
}

#[test]
fn bracket_indices_count_from_zero_and_grid_indices_from_one() {
    assert_eq!(parse_port_ref("a[0],p").unwrap(), elem("a", "p", 1, 1));
    assert_eq!(parse_port_ref("a[2],in").unwrap(), elem("a", "in", 3, 1));
    assert_eq!(parse_port_ref("a<3.2>,out").unwrap(), elem("a", "out", 3, 2));
    assert_eq!(parse_port_ref("a< 3 . 2 >,out").unwrap_err().message(), "invalid digit found in string");
}

#[test]
fn malformed_references_are_refused_with_their_reason() {
    assert_eq!(refused(""), "empty port reference");
    assert_eq!(refused("   "), "empty port reference");
    assert_eq!(refused("a,p,extra"), "invalid port reference: a,p,extra");
    assert_eq!(refused(",p"), "invalid port reference: ,p");
    assert_eq!(refused("a,"), "invalid port reference: a,");
    assert_eq!(refused("a<1.2,p"), "invalid array reference: a<1.2,p");
    assert_eq!(refused("a<12>,p"), "invalid array reference: a<12>,p");
    assert_eq!(refused("a[1,p"), "invalid array reference: a[1,p");
    assert_eq!(refused("a[-1],p"), "bracket indices must be nonnegative");
    assert_eq!(refused("a[9223372036854775807],p"), "array index overflow");
    assert_eq!(refused("a<0.1>,p"), "array indices must be positive");
    assert_eq!(refused("<1.1>,p"), "array indices must be positive");
    assert_eq!(refused("a[x],p"), "invalid digit found in string");
    assert_eq!(refused("a[],p"), "cannot parse integer from empty string");
    assert_eq!(refused("a[999999999999999999999],p"), "number too large to fit in target type");
    assert_eq!(refused("a<-99999999999999999999.1>,p"), "number too small to fit in target type");
}

#[test]
fn written_members_read_back() {
    for m in [port("out"), inst("a", "p"), elem("a", "p", 2, 3), elem("arr", "o1", 12, 1)] {
        let text = unparse(&m);
        assert_eq!(parse_port_ref(&text).unwrap(), m);
    }
    assert_eq!(unparse(&elem("a", "p", 2, 3)), "a<2.3>,p");
    assert_eq!(unparse(&inst("a", "p")), "a,p");
    assert_eq!(unparse(&port("q")), "q");
}
