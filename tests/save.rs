use rusty_shooter::game::{Effect, Game};
use rusty_shooter::visitor::{decode, encode, read_bool, read_int, LoadError, Record, KIND_BOOL, KIND_END, KIND_INT, KIND_REGION};
use std::io::Write;

fn name(s: &str) -> Vec<u8> {
    s.as_bytes().to_vec()
}

fn level_with_health(h: u32) -> Vec<Record> {
    vec![Record::Int(name("Health"), h), Record::Bool(name("Alive"), true)]
}

#[test]
fn saved_level_health_reads_back() {
    let g = Game::new(10, 0);
    let bytes = g.save_game(vec![Record::Int(name("Frame"), 7)], level_with_health(80));
    let records = decode(&bytes).unwrap();
    assert_eq!(read_int(&records, &name("Level"), &name("Health")), Ok(80));
    assert_eq!(read_int(&records, &name("Engine"), &name("Frame")), Ok(7));
    assert_eq!(read_bool(&records, &name("Level"), &name("Alive")), Ok(true));
    assert_eq!(
        read_bool(&records, &name("Level"), &name("Health")),
        Err(LoadError::BadKind(vec![name("Level"), name("Health")]))
    );
}

#[test]
fn nested_tree_round_trips() {
    let tree = vec![
        Record::Enter(name("Level")),
        Record::Int(name("Health"), 0xDEAD_BEEF),
        Record::Enter(name("Player")),
        Record::Bool(name("Crouch"), false),
        Record::Enter(name("Weapon")),
        Record::Int(name("Ammo"), 0),
        Record::Leave,
        Record::Leave,
        Record::Enter(name("")),
        Record::Leave,
        Record::Leave,
    ];
    let bytes = encode(&tree);
    assert_eq!(decode(&bytes), Ok(tree));
}

#[test]
fn int_field_layout_is_little_endian() {
    let bytes = encode(&vec![Record::Int(name("ab"), 0x0102_0304)]);
    assert_eq!(bytes, vec![2, 0, 0, 0, 0, 0, 0, 0, b'a', b'b', KIND_INT, 4, 4, 3, 2, 1]);
}

#[test]
fn region_and_end_layout() {
    let bytes = encode(&vec![Record::Enter(name("R")), Record::Bool(name("b"), true), Record::Leave]);
    assert_eq!(
        bytes,
        vec![
            1, 0, 0, 0, 0, 0, 0, 0, b'R', KIND_REGION, 0,
            1, 0, 0, 0, 0, 0, 0, 0, b'b', KIND_BOOL, 1, 1,
            0, 0, 0, 0, 0, 0, 0, 0, KIND_END, 0,
        ]
    );
}

#[test]
fn corrupt_kind_byte_names_the_field_path() {
    let g = Game::new(10, 0);
    let mut bytes = g.save_game(vec![], level_with_health(80));
    // Engine region: 8 + 6 + 2 bytes, its end: 8 + 2, Level region: 8 + 5 + 2,
    // then the field's length prefix and name: 8 + 6, then its kind byte.
    let kind_at = 16 + 10 + 15 + 14;
    assert_eq!(bytes[kind_at], KIND_INT);
    bytes[kind_at] = 0x77;
    assert_eq!(decode(&bytes), Err(LoadError::BadKind(vec![name("Level"), name("Health")])));

    let mut live = Game::new(10, 0);
    live.start_new_game();
    let (fx, result) = live.load_game(Some(bytes));
    assert_eq!(result.err(), Some(LoadError::BadKind(vec![name("Level"), name("Health")])));
    assert_eq!(fx, vec![Effect::DestroySession]);
    assert!(!live.has_level());
}

#[test]
fn bad_bool_value_names_the_field_path() {
    let mut bytes = encode(&vec![Record::Enter(name("L")), Record::Bool(name("on"), true), Record::Leave]);
    bytes[23] = 9;
    assert_eq!(decode(&bytes), Err(LoadError::BadValue(vec![name("L"), name("on")])));
}

#[test]
fn truncated_and_unbalanced_streams_fail() {
    let bytes = encode(&vec![Record::Int(name("x"), 5)]);
    assert_eq!(decode(&bytes[..bytes.len() - 1].to_vec()), Err(LoadError::Truncated));
    assert_eq!(decode(&vec![3, b'a']), Err(LoadError::Truncated));
    assert_eq!(decode(&encode(&vec![Record::Enter(name("open"))])), Err(LoadError::Unbalanced));
    assert_eq!(decode(&encode(&vec![Record::Leave])), Err(LoadError::Unbalanced));
    assert_eq!(decode(&vec![]), Ok(vec![]));
}

#[test]
fn absent_names_are_reported_with_their_path() {
    let records = vec![Record::Enter(name("Level")), Record::Bool(name("Health"), true), Record::Leave];
    assert_eq!(read_int(&records, &name("Engine"), &name("Health")), Err(LoadError::Missing(vec![name("Engine")])));
    assert_eq!(
        read_int(&records, &name("Level"), &name("Armor")),
        Err(LoadError::Missing(vec![name("Level"), name("Armor")]))
    );
    assert_eq!(
        read_int(&records, &name("Level"), &name("Health")),
        Err(LoadError::BadKind(vec![name("Level"), name("Health")]))
    );
}

#[test]
fn load_restores_a_session_and_hides_menu() {
    let mut g = Game::new(10, 0);
    let bytes = g.save_game(vec![], level_with_health(80));
    let (fx, result) = g.load_game(Some(bytes));
    let state = result.unwrap();
    assert_eq!(fx, vec![Effect::CreateSession, Effect::SetMenuVisible(false)]);
    assert!(g.has_level());
    assert!(!g.is_menu_visible());
    assert_eq!(state.engine, (0, 1));
    assert_eq!(state.level, (2, 5));
}

#[test]
fn load_without_level_region_fails() {
    let mut g = Game::new(10, 0);
    let bytes = encode(&vec![Record::Enter(name("Engine")), Record::Leave]);
    let (_, result) = g.load_game(Some(bytes));
    assert_eq!(result.err(), Some(LoadError::Missing(vec![name("Level")])));
    assert!(!g.has_level());
}

#[test]
fn unreadable_save_still_loses_the_session() {
    let mut g = Game::new(10, 0);
    g.start_new_game();
    let (fx, result) = g.load_game(None);
    assert_eq!(result.err(), Some(LoadError::Unreadable));
    assert_eq!(fx, vec![Effect::DestroySession]);
    assert!(!g.has_level());
}

#[test]
fn int_kind_changed_to_bool_names_the_field_path() {
    let mut v = vec![Record::Enter(name("Level")), Record::Int(name("a"), 0x0102_0001), Record::Leave];
    let mut bytes = encode(&v);
    // Level region: 8 + 5 + 2 bytes, then the field's prefix and name: 8 + 1.
    let kind_at = 15 + 9;
    assert_eq!(bytes[kind_at], KIND_INT);
    for k in [KIND_BOOL, KIND_REGION, KIND_END] {
        bytes[kind_at] = k;
        assert_eq!(decode(&bytes), Err(LoadError::BadKind(vec![name("Level"), name("a")])));
    }
    v[1] = Record::Bool(name("a"), true);
    let mut bytes = encode(&v);
    bytes[kind_at] = KIND_INT;
    assert_eq!(decode(&bytes), Err(LoadError::BadKind(vec![name("Level"), name("a")])));
    let mut g = Game::new(10, 0);
    g.start_new_game();
    let (_, result) = g.load_game(Some(bytes));
    assert!(result.is_err());
    assert!(!g.has_level());
}

#[test]
fn long_names_round_trip() {
    let tree = vec![Record::Enter(vec![b'r'; 300]), Record::Int(vec![b'f'; 70_000], 9), Record::Leave];
    assert_eq!(decode(&encode(&tree)), Ok(tree));
}

#[test]
fn failed_save_write_leaves_session_untouched() {
    let mut g = Game::new(10, 0);
    g.start_new_game();
    let bytes = g.save_game(vec![], level_with_health(80));
    // A sink with room for only part of the save refuses the write.
    let mut disk = [0u8; 16];
    let mut sink: &mut [u8] = &mut disk;
    assert!(sink.write_all(&bytes).is_err());
    assert!(g.has_level());
    assert!(g.is_running());
    assert!(!g.is_menu_visible());
    // The bytes handed to the writer were the whole tree, built before any write.
    let records = decode(&bytes).unwrap();
    assert_eq!(read_int(&records, &name("Level"), &name("Health")), Ok(80));
}
