use dorea::server::{
    admission_check, collect_persist_failures, connection_step, ConnEvent, ConnState,
    ConnectNumber, ConnectionRegistry, EventManager,
};
use dorea::compatible_versions;

#[test]
fn ceiling_of_one_admits_exactly_one() {
    let mut count = ConnectNumber::new();
    let max: u16 = 1;
    // First attempt passes the admission check and takes the slot.
    assert!(admission_check(&count, max));
    count.add();
    // The second attempt is refused while the first is live.
    assert!(!admission_check(&count, max));
    // Once the first closes, a new attempt is admitted again.
    count.low();
    assert!(admission_check(&count, max));
}

#[test]
fn connect_number_counts() {
    let mut c = ConnectNumber::new();
    assert_eq!(c.get(), 0);
    c.add();
    c.add();
    assert_eq!(c.get(), 2);
    c.low();
    assert_eq!(c.get(), 1);
}

#[test]
fn connection_lifecycle() {
    let s = ConnState::Accepted;
    let s = connection_step(s, ConnEvent::AdmissionChecked(true));
    assert_eq!(s, ConnState::Admitted);
    let s = connection_step(s, ConnEvent::Registered);
    assert_eq!(s, ConnState::Ready);
    let s = connection_step(s, ConnEvent::LineReceived);
    assert_eq!(s, ConnState::Processing);
    let s = connection_step(s, ConnEvent::Replied);
    assert_eq!(s, ConnState::Ready);
    let s = connection_step(s, ConnEvent::Disconnected);
    assert_eq!(s, ConnState::Closed);
}

#[test]
fn refused_admission_closes_silently() {
    let s = connection_step(ConnState::Accepted, ConnEvent::AdmissionChecked(false));
    assert_eq!(s, ConnState::Closed);
}

#[test]
fn registry_tracks_selected_groups() {
    let mut reg = ConnectionRegistry::new();
    reg.db_stat_set(1, "alpha".to_string());
    reg.db_stat_set(2, "beta".to_string());
    assert!(reg.db_stat_exist("alpha"));
    assert!(reg.db_stat_exist("beta"));
    reg.db_stat_set(1, "gamma".to_string());
    assert!(!reg.db_stat_exist("alpha"));
    reg.db_stat_remove(2);
    assert!(!reg.db_stat_exist("beta"));
    assert!(reg.db_stat_exist("gamma"));
    assert_eq!(reg.entries.len(), 1);
}

#[test]
fn event_manager_schedule() {
    let mut ev = EventManager::init(10, 100);
    assert!(!ev.due(105));
    assert!(ev.due(110));
    ev.mark_ran(110);
    assert!(!ev.due(115));
    assert!(ev.due(121));
}

#[test]
fn persist_sweep_reports_every_failure() {
    let results = vec![
        ("a".to_string(), true),
        ("b".to_string(), false),
        ("c".to_string(), true),
        ("d".to_string(), false),
    ];
    assert_eq!(
        collect_persist_failures(&results),
        vec!["b".to_string(), "d".to_string()]
    );
    assert_eq!(collect_persist_failures(&Vec::new()), Vec::<String>::new());
}

#[test]
fn compatible_versions_is_one_digest() {
    let v = compatible_versions();
    assert_eq!(v.len(), 1);
    assert_eq!(v[0].len(), 32);
    // The digest is stable across calls.
    assert_eq!(compatible_versions(), v);
}
