use kfnetlist::ports::{
    check_grid_connection, grid_flags, has_all, metadata_flags, quarter_turns, GridTransform, PortFacts, Rotation,
    CROSS_SECTION, LAYER, OPPOSITE, PORT_TYPE, POSITION, SAME, WIDTH,
};

fn at(x: i64, y: i64, rotation: Rotation) -> GridTransform {
    GridTransform { x, y, rotation }
}

fn facts(kind: &str, width: i64, cross_section: usize) -> PortFacts {
    PortFacts { port_type: kind.to_string(), width, cross_section }
}

#[test]
fn rotations_count_quarter_turns() {
    assert_eq!(quarter_turns(Rotation::R0), 0);
    assert_eq!(quarter_turns(Rotation::R90), 1);
    assert_eq!(quarter_turns(Rotation::R180), 2);
    assert_eq!(quarter_turns(Rotation::R270), 3);
}

#[test]
fn grid_placements_compare_exactly() {
    assert_eq!(grid_flags(at(0, 0, Rotation::R0), at(0, 0, Rotation::R180)), POSITION | OPPOSITE);
    assert_eq!(grid_flags(at(0, 0, Rotation::R90), at(0, 0, Rotation::R270)), POSITION | OPPOSITE);
    assert_eq!(grid_flags(at(0, 0, Rotation::R270), at(0, 1, Rotation::R270)), SAME);
    assert_eq!(grid_flags(at(0, 0, Rotation::R0), at(0, 0, Rotation::R90)), POSITION);
    assert_eq!(grid_flags(at(5, 5, Rotation::R0), at(5, 6, Rotation::R270)), 0);
}

#[test]
fn metadata_compares_cross_section_first() {
    assert_eq!(metadata_flags(&facts("optical", 1, 0), &facts("optical", 2, 0), false), CROSS_SECTION | WIDTH | LAYER | PORT_TYPE);
    assert_eq!(metadata_flags(&facts("optical", 1, 0), &facts("electrical", 1, 1), true), LAYER | WIDTH);
    assert_eq!(metadata_flags(&facts("optical", 1, 0), &facts("optical", 2, 1), false), PORT_TYPE);
    let all = check_grid_connection(
        at(3, 4, Rotation::R0),
        at(3, 4, Rotation::R180),
        &facts("optical", 500, 7),
        &facts("optical", 500, 7),
        true,
    );
    assert_eq!(all, POSITION | OPPOSITE | CROSS_SECTION | WIDTH | LAYER | PORT_TYPE);
    assert!(has_all(all, POSITION | OPPOSITE | WIDTH));
    assert!(!has_all(all, SAME));
}
