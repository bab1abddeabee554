use minibus::names::{NameFlags, NameOutcome, NameTable};

fn flags(allow_replacement: bool, replace_existing: bool, do_not_queue: bool) -> NameFlags {
    NameFlags { allow_replacement, replace_existing, do_not_queue }
}

#[test]
fn free_name_is_granted() {
    let mut t = NameTable::new();
    let r = t.request_name(1, b"com.example.dbustest".to_vec(), flags(false, true, false));
    assert_eq!(r, NameOutcome::Owner);
    assert_eq!(t.entries.len(), 1);
    assert_eq!(t.entries[0].owner, 1);
}

#[test]
fn held_name_with_do_not_queue_is_denied_not_owned() {
    let mut t = NameTable::new();
    assert_eq!(
        t.request_name(1, b"com.example.dbustest".to_vec(), flags(false, false, false)),
        NameOutcome::Owner
    );
    let r = t.request_name(2, b"com.example.dbustest".to_vec(), flags(false, false, true));
    assert_eq!(r, NameOutcome::Denied);
    assert_ne!(r, NameOutcome::Owner);
    assert_eq!(t.entries[0].owner, 1, "the first owner keeps the name");
}

#[test]
fn requesting_an_owned_name_again_reports_already_owned() {
    let mut t = NameTable::new();
    t.request_name(1, b"n".to_vec(), flags(false, false, false));
    let r = t.request_name(1, b"n".to_vec(), flags(true, false, false));
    assert_eq!(r, NameOutcome::AlreadyOwned);
    assert!(t.entries[0].allow_replacement, "the replacement flag is refreshed");
}

#[test]
fn willing_owner_is_replaced() {
    let mut t = NameTable::new();
    t.request_name(1, b"n".to_vec(), flags(true, false, false));
    let r = t.request_name(2, b"n".to_vec(), flags(false, true, false));
    assert_eq!(r, NameOutcome::Owner);
    assert_eq!(t.entries[0].owner, 2);
}

#[test]
fn unwilling_owner_queues_a_patient_requester() {
    let mut t = NameTable::new();
    t.request_name(1, b"n".to_vec(), flags(false, false, false));
    let r = t.request_name(2, b"n".to_vec(), flags(false, true, false));
    assert_eq!(r, NameOutcome::InQueue);
    assert_eq!(t.entries[0].owner, 1);
    assert_eq!(t.entries[0].queue, vec![2]);
}

#[test]
fn distinct_names_do_not_interfere() {
    let mut t = NameTable::new();
    assert_eq!(t.request_name(1, b"a".to_vec(), flags(false, false, true)), NameOutcome::Owner);
    assert_eq!(t.request_name(2, b"b".to_vec(), flags(false, false, true)), NameOutcome::Owner);
    assert_eq!(t.entries.len(), 2);
}
