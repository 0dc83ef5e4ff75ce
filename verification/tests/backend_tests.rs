use block_sleep::backend::{pid1_comm_names_systemd, Backend, BackendError, OsKind};
use block_sleep::inhibit::{sleep_inhibit_flags, FLAG_IDLE, FLAG_SUSPEND};
use block_sleep::liveness::interpret_probe;

#[test]
fn macos_host_selects_the_macos_backend() {
    let r = Backend::from_probes(OsKind::MacOs, None, None, None);
    assert_eq!(r, Ok(Backend::MacOS));
}

#[test]
fn unknown_host_is_unsupported() {
    let r = Backend::from_probes(OsKind::Other, None, None, None);
    assert_eq!(r, Err(BackendError::UnsupportedOs));
}

#[test]
fn linux_without_init_probe_fails() {
    let r = Backend::from_probes(OsKind::Linux, None, None, None);
    assert_eq!(r, Err(BackendError::InitProbeFailed));
}

#[test]
fn linux_without_systemd_fails() {
    let r = Backend::from_probes(OsKind::Linux, Some(b"runit".to_vec()), None, None);
    assert_eq!(r, Err(BackendError::NotSystemd));
}

#[test]
fn linux_with_systemd_and_no_desktop_uses_systemd_inhibit() {
    let r = Backend::from_probes(OsKind::Linux, Some(b"systemd\n".to_vec()), None, None);
    assert_eq!(r, Ok(Backend::SystemdInhibit));
}

#[test]
fn gnome_desktop_variable_selects_gnome() {
    let r = Backend::from_probes(
        OsKind::Linux,
        Some(b"systemd\n".to_vec()),
        Some(b"GNOME".to_vec()),
        None,
    );
    assert_eq!(r, Ok(Backend::Gnome));
}

#[test]
fn gnome_session_variable_selects_gnome() {
    let r = Backend::from_probes(
        OsKind::Linux,
        Some(b"systemd\n".to_vec()),
        Some(b"KDE".to_vec()),
        Some(b"gnome".to_vec()),
    );
    assert_eq!(r, Ok(Backend::Gnome));
}

#[test]
fn other_desktops_use_systemd_inhibit() {
    let r = Backend::from_probes(
        OsKind::Linux,
        Some(b"systemd\n".to_vec()),
        Some(b"KDE".to_vec()),
        Some(b"plasma".to_vec()),
    );
    assert_eq!(r, Ok(Backend::SystemdInhibit));
}

#[test]
fn exact_match_is_required_for_gnome_names() {
    let r = Backend::from_probes(
        OsKind::Linux,
        Some(b"systemd\n".to_vec()),
        Some(b"GNOME2".to_vec()),
        Some(b"gnome-classic".to_vec()),
    );
    assert_eq!(r, Ok(Backend::SystemdInhibit));
}

#[test]
fn systemd_is_found_anywhere_in_the_name() {
    assert!(pid1_comm_names_systemd(&b"systemd".to_vec()));
    assert!(pid1_comm_names_systemd(&b"xxsystemdyy".to_vec()));
    assert!(pid1_comm_names_systemd(&b"/usr/lib/systemd\n".to_vec()));
    assert!(!pid1_comm_names_systemd(&b"system".to_vec()));
    assert!(!pid1_comm_names_systemd(&b"".to_vec()));
    assert!(!pid1_comm_names_systemd(&b"SYSTEMD".to_vec()));
}

#[test]
fn probe_success_means_running() {
    assert!(interpret_probe(0, 0));
}

#[test]
fn probe_denied_still_means_running() {
    // Permission denied: the process exists, merely owned by another
    // user. The errno for that is 1.
    assert!(interpret_probe(-1, 1));
}

#[test]
fn probe_no_such_process_means_gone() {
    // The errno for a missing process is 3.
    assert!(!interpret_probe(-1, 3));
}

#[test]
fn inhibit_mask_is_suspend_and_idle() {
    assert_eq!(sleep_inhibit_flags(), FLAG_SUSPEND | FLAG_IDLE);
    assert_eq!(sleep_inhibit_flags(), 12);
}
