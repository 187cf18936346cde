use dorea::database::{Database, DataBaseManager};
use dorea::handle::{parser, execute, CommandResponse, ExecError};
use dorea::server::ConnectionRegistry;
use dorea::value::DataValue;

fn setup() -> (DataBaseManager, ConnectionRegistry, String) {
    let mgr = DataBaseManager::new("default-group".to_string());
    let reg = ConnectionRegistry::new();
    (mgr, reg, "default-group".to_string())
}

fn run(
    mgr: &mut DataBaseManager,
    reg: &mut ConnectionRegistry,
    cur: &mut String,
    line: &str,
) -> CommandResponse {
    let meta = parser(line.to_string()).expect("line parses");
    execute(mgr, reg, 7, cur, &meta)
}

#[test]
fn set_then_get_returns_the_number() {
    let (mut mgr, mut reg, mut cur) = setup();
    assert_eq!(run(&mut mgr, &mut reg, &mut cur, "SET k :10"), CommandResponse::Okay);
    assert_eq!(
        run(&mut mgr, &mut reg, &mut cur, "GET k"),
        CommandResponse::Val(DataValue::Number(10))
    );
}

#[test]
fn group_isolation() {
    let (mut mgr, mut reg, mut cur) = setup();
    run(&mut mgr, &mut reg, &mut cur, "SELECT grp");
    assert_eq!(cur, "grp");
    run(&mut mgr, &mut reg, &mut cur, "SET a :1");
    run(&mut mgr, &mut reg, &mut cur, "SELECT default-group");
    assert_eq!(run(&mut mgr, &mut reg, &mut cur, "GET a"), CommandResponse::NotFound);
    // And the key is still there in its own group.
    run(&mut mgr, &mut reg, &mut cur, "SELECT grp");
    assert_eq!(
        run(&mut mgr, &mut reg, &mut cur, "GET a"),
        CommandResponse::Val(DataValue::Number(1))
    );
}

#[test]
fn clean_removes_every_key() {
    let (mut mgr, mut reg, mut cur) = setup();
    run(&mut mgr, &mut reg, &mut cur, "SET a :1");
    run(&mut mgr, &mut reg, &mut cur, "SET b :2");
    assert_eq!(run(&mut mgr, &mut reg, &mut cur, "CLEAN"), CommandResponse::Okay);
    assert_eq!(run(&mut mgr, &mut reg, &mut cur, "GET a"), CommandResponse::NotFound);
    assert_eq!(run(&mut mgr, &mut reg, &mut cur, "GET b"), CommandResponse::NotFound);
}

#[test]
fn serialized_sets_leave_one_whole_value() {
    // Two writers race on one key; the manager's lock serializes them in
    // one of two orders, and either order leaves one of the written values.
    let (mut m1, mut r1, mut c1) = setup();
    run(&mut m1, &mut r1, &mut c1, "SET k v1");
    run(&mut m1, &mut r1, &mut c1, "SET k v2");
    let (mut m2, mut r2, mut c2) = setup();
    run(&mut m2, &mut r2, &mut c2, "SET k v2");
    run(&mut m2, &mut r2, &mut c2, "SET k v1");
    let out1 = run(&mut m1, &mut r1, &mut c1, "GET k");
    let out2 = run(&mut m2, &mut r2, &mut c2, "GET k");
    let v1 = CommandResponse::Val(DataValue::String("v1".to_string()));
    let v2 = CommandResponse::Val(DataValue::String("v2".to_string()));
    assert_eq!(out1, v2);
    assert_eq!(out2, v1);
}

#[test]
fn set_value_with_embedded_spaces() {
    let (mut mgr, mut reg, mut cur) = setup();
    run(&mut mgr, &mut reg, &mut cur, "SET k a b c");
    assert_eq!(
        run(&mut mgr, &mut reg, &mut cur, "GET k"),
        CommandResponse::Val(DataValue::String("a b c".to_string()))
    );
}

#[test]
fn remove_reports_what_it_did() {
    let (mut mgr, mut reg, mut cur) = setup();
    run(&mut mgr, &mut reg, &mut cur, "SET k :1");
    assert!(mgr.remove(&cur, "k"));
    assert!(!mgr.remove(&cur, "k"));
    assert_eq!(run(&mut mgr, &mut reg, &mut cur, "GET k"), CommandResponse::NotFound);
    // Removing an absent key through the protocol is not an error.
    assert_eq!(run(&mut mgr, &mut reg, &mut cur, "REMOVE k"), CommandResponse::Okay);
}

#[test]
fn overwrite_keeps_one_value_per_key() {
    let mut db = Database::new();
    db.set("k", DataValue::Number(1));
    db.set("k", DataValue::Number(2));
    assert_eq!(db.data.len(), 1);
    assert_eq!(db.get("k"), Some(&DataValue::Number(2)));
    assert!(db.dirty);
}

#[test]
fn select_or_create_is_idempotent() {
    let mut mgr = DataBaseManager::new("default-group".to_string());
    mgr.select_or_create("g");
    mgr.set("g", "k", DataValue::Number(1));
    mgr.select_or_create("g");
    assert_eq!(mgr.get("g", "k"), Some(&DataValue::Number(1)));
    assert_eq!(mgr.db_list.len(), 1);
}

#[test]
fn note_persist_clears_the_dirty_flag() {
    let mut mgr = DataBaseManager::new("default-group".to_string());
    mgr.set("g", "k", DataValue::Number(1));
    mgr.note_persist("g", false, 50);
    assert!(mgr.db_list[0].1.dirty);
    mgr.note_persist("g", true, 99);
    assert!(!mgr.db_list[0].1.dirty);
    assert_eq!(mgr.db_list[0].1.last_save, 99);
    assert_eq!(mgr.get("g", "k"), Some(&DataValue::Number(1)));
}

#[test]
fn group_names_lists_every_group() {
    let mut mgr = DataBaseManager::new("default-group".to_string());
    mgr.select_or_create("a");
    mgr.select_or_create("b");
    assert_eq!(mgr.group_names(), vec!["a".to_string(), "b".to_string()]);
}

#[test]
fn dict_set_and_get_fields() {
    let (mut mgr, mut reg, mut cur) = setup();
    assert_eq!(run(&mut mgr, &mut reg, &mut cur, "DICT d set f :1"), CommandResponse::Okay);
    assert_eq!(
        run(&mut mgr, &mut reg, &mut cur, "DICT d get f"),
        CommandResponse::Val(DataValue::Number(1))
    );
    assert_eq!(run(&mut mgr, &mut reg, &mut cur, "DICT d get g"), CommandResponse::NotFound);
}

#[test]
fn dict_on_a_non_dict_value_fails() {
    let (mut mgr, mut reg, mut cur) = setup();
    run(&mut mgr, &mut reg, &mut cur, "SET d :10");
    assert_eq!(
        run(&mut mgr, &mut reg, &mut cur, "DICT d get f"),
        CommandResponse::Error(ExecError::NotDict)
    );
    assert_eq!(
        run(&mut mgr, &mut reg, &mut cur, "DICT d set f :1"),
        CommandResponse::Error(ExecError::NotDict)
    );
}

#[test]
fn dict_unknown_operation_fails() {
    let (mut mgr, mut reg, mut cur) = setup();
    assert_eq!(
        run(&mut mgr, &mut reg, &mut cur, "DICT d drop f"),
        CommandResponse::Error(ExecError::UnknownOperation("drop".to_string()))
    );
}

#[test]
fn dict_set_without_a_value_fails() {
    let (mut mgr, mut reg, mut cur) = setup();
    assert_eq!(
        run(&mut mgr, &mut reg, &mut cur, "DICT d set f"),
        CommandResponse::Error(ExecError::MissingArgument)
    );
}

#[test]
fn select_updates_the_registry() {
    let (mut mgr, mut reg, mut cur) = setup();
    run(&mut mgr, &mut reg, &mut cur, "SELECT grp");
    assert!(reg.db_stat_exist("grp"));
    assert!(!reg.db_stat_exist("other"));
}
