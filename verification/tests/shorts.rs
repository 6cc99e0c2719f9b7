use kfnetlist::parser::LayerKey;
use kfnetlist::shorts::{detect_shorts, short_circuit_name, LayerNets};

fn key(layer: i32, name: &str) -> LayerKey {
    LayerKey { layer, datatype: 0, name: name.to_string() }
}

fn layer(l: i32, display: &str, nets: Vec<(u64, &str)>, overlap: Vec<Vec<bool>>) -> LayerNets {
    LayerNets {
        layer: key(l, display),
        display: display.to_string(),
        nets: nets.into_iter().map(|(i, n)| (i, n.to_string())).collect(),
        overlap,
    }
}

#[test]
fn overlapping_nets_are_reported_pair_by_pair() {
    let t = true;
    let f = false;
    let layers = vec![
        layer(1, "M1", vec![(1, "a"), (2, ""), (3, "c")], vec![vec![f, t, t], vec![t, f, f], vec![t, f, f]]),
        layer(2, "M2", vec![(1, "a"), (3, "c")], vec![vec![f, t], vec![t, f]]),
    ];
    let found = detect_shorts(&layers, None);
    let pairs: Vec<(&str, &str, &str, usize, usize, usize)> = found
        .iter()
        .map(|s| (s.net_a.as_str(), s.net_b.as_str(), s.layer.as_str(), s.layer_index, s.first, s.second))
        .collect();
    assert_eq!(pairs, vec![("a", "$2", "M1", 0, 0, 1), ("a", "c", "M1", 0, 0, 2), ("a", "c", "M2", 1, 0, 1)]);
    let only_m2 = vec![key(2, "M2")];
    let found = detect_shorts(&layers, Some(&only_m2));
    assert_eq!(found.len(), 1);
    assert_eq!(found[0].layer, "M2");
    assert!(detect_shorts(&vec![], None).is_empty());
}

#[test]
fn shorts_are_sought_in_the_named_circuit_or_the_top_cell() {
    let top = "TOP".to_string();
    assert_eq!(short_circuit_name(Some(&"CHIP".to_string()), &top), "CHIP");
    assert_eq!(short_circuit_name(Some(&String::new()), &top), "TOP");
    assert_eq!(short_circuit_name(None, &top), "TOP");
}
