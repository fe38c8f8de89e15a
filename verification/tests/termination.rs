use monitor_app::termination::{
    check_process_identity, check_termination_target, kill_outcome, KillErrno, ProcessLookup,
};

#[test]
fn rejects_protected_ids() {
    let me = 4242;
    for pid in [0, 1, u32::MAX, me] {
        assert_eq!(check_termination_target(pid, me).unwrap_err(), "protected");
    }
    assert!(check_termination_target(2, me).is_ok());
    assert_eq!(check_termination_target(2_147_483_648, me).unwrap_err(), "protected");
}

#[test]
fn identity_and_owner_are_checked() {
    assert_eq!(check_process_identity(ProcessLookup::Gone, 5, 501).unwrap_err(), "gone");
    let found = |t, o| ProcessLookup::Found { start_time: t, owner_uid: o };
    assert_eq!(check_process_identity(found(5, Some(501)), 6, 501).unwrap_err(), "changed");
    assert_eq!(check_process_identity(found(5, Some(501)), 0, 501).unwrap_err(), "changed");
    assert_eq!(check_process_identity(found(5, Some(0)), 5, 501).unwrap_err(), "permission");
    assert_eq!(check_process_identity(found(5, None), 5, 501).unwrap_err(), "permission");
    assert!(check_process_identity(found(5, Some(501)), 5, 501).is_ok());
}

#[test]
fn kill_errors_are_named() {
    assert!(kill_outcome(0, KillErrno::Other).is_ok());
    assert_eq!(kill_outcome(-1, KillErrno::NoSuchProcess).unwrap_err(), "gone");
    assert_eq!(kill_outcome(-1, KillErrno::NotPermitted).unwrap_err(), "permission");
    assert_eq!(kill_outcome(-1, KillErrno::Other).unwrap_err(), "failed");
}
