use rusty_shooter::visitor::{decode, read_int, Record, Visitor};

fn name(s: &str) -> Vec<u8> {
    s.as_bytes().to_vec()
}

#[test]
fn built_tree_saves_only_when_closed() {
    let mut v = Visitor::new();
    v.enter_region(name("Level"));
    v.field_int(name("Health"), 80);
    assert_eq!(v.save_binary(), None);
    v.enter_region(name("Player"));
    v.field_bool(name("Alive"), true);
    assert!(v.leave_region());
    assert!(v.leave_region());
    let bytes = v.save_binary().unwrap();
    let records = decode(&bytes).unwrap();
    assert_eq!(
        records,
        vec![
            Record::Enter(name("Level")),
            Record::Int(name("Health"), 80),
            Record::Enter(name("Player")),
            Record::Bool(name("Alive"), true),
            Record::Leave,
            Record::Leave,
        ]
    );
    assert_eq!(read_int(&records, &name("Level"), &name("Health")), Ok(80));
    assert_eq!(v.into_records(), records);
}

#[test]
fn leave_without_open_region_is_refused() {
    let mut v = Visitor::new();
    assert!(!v.leave_region());
    assert_eq!(v.save_binary(), Some(vec![]));
}

#[test]
fn long_name_is_kept_whole() {
    let mut v = Visitor::new();
    let long = vec![b'x'; 256];
    v.enter_region(long.clone());
    v.field_int(vec![b'y'; 255], 2);
    assert!(v.leave_region());
    let records = decode(&v.save_binary().unwrap()).unwrap();
    assert_eq!(read_int(&records, &long, &vec![b'y'; 255]), Ok(2));
}

#[test]
fn nested_field_is_not_a_direct_child() {
    let mut v = Visitor::new();
    v.enter_region(name("Level"));
    v.enter_region(name("Bot"));
    v.field_int(name("Health"), 10);
    v.leave_region();
    v.field_int(name("Health"), 55);
    v.leave_region();
    let records = v.into_records();
    assert_eq!(read_int(&records, &name("Level"), &name("Health")), Ok(55));
}
