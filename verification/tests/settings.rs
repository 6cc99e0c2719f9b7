use kfnetlist::settings::Setting;

#[test]
fn native_values_become_tagged_text() {
    let s: Setting<u8> = Setting::Native { class: "DPoint".to_string(), text: "1,2".to_string() };
    match s.encode() {
        Setting::Encoded(t) => assert_eq!(t, "!#DPoint 1,2"),
        _ => panic!("not encoded"),
    }
}

#[test]
fn containers_encode_their_items_and_keep_their_keys() {
    let s: Setting<u8> = Setting::Mapping(vec![
        ("p".to_string(), Setting::Native { class: "Trans".to_string(), text: "r90 0,0".to_string() }),
        ("n".to_string(), Setting::Opaque(7)),
    ]);
    match s.encode() {
        Setting::Mapping(items) => {
            assert_eq!(items.len(), 2);
            assert_eq!(items[0].0, "p");
            assert!(matches!(&items[0].1, Setting::Encoded(t) if t == "!#Trans r90 0,0"));
            assert!(matches!(items[1].1, Setting::Opaque(7)));
        }
        _ => panic!("not a mapping"),
    }
    let l: Setting<u8> = Setting::Tuple(vec![Setting::List(vec![Setting::Native { class: "A".to_string(), text: String::new() }])]);
    match l.encode() {
        Setting::Tuple(items) => match &items[0] {
            Setting::List(inner) => assert!(matches!(&inner[0], Setting::Encoded(t) if t == "!#A ")),
            _ => panic!("not a list"),
        },
        _ => panic!("not a tuple"),
    }
}

#[test]
fn encoding_twice_changes_nothing_more() {
    let s: Setting<u8> = Setting::List(vec![
        Setting::Native { class: "C".to_string(), text: "x".to_string() },
        Setting::Encoded("!#C x".to_string()),
    ]);
    match s.encode().encode() {
        Setting::List(items) => {
            assert!(matches!(&items[0], Setting::Encoded(t) if t == "!#C x"));
            assert!(matches!(&items[1], Setting::Encoded(t) if t == "!#C x"));
        }
        _ => panic!("not a list"),
    }
}
