use nvmux::error::PathError;
use nvmux::paths::{
    check_sock_path, client_log, control_path, forwarded_sock, master_socket, near_the_limit,
    runtime_dir, Found, Secure, Securing, SessionPaths, Stat, ATTEMPTS, MAX_SOCK_PATH,
};

#[test]
fn runtime_dir_has_no_doubled_segment() {
    let s = runtime_dir(501);
    assert!(s.starts_with("/tmp/nvmux-"), "unexpected prefix: {s}");
    assert_eq!(
        s.matches("nvmux").count(),
        1,
        "doubled nvmux segment in {s}"
    );
    assert_eq!(s, "/tmp/nvmux-501");
    assert_eq!(runtime_dir(u32::MAX), "/tmp/nvmux-4294967295");
}

#[test]
fn session_paths_share_a_stem() {
    let p = SessionPaths::new("/tmp/nvmux-501", "abcdefgh").expect("within budget");
    assert_eq!(p.sock, "/tmp/nvmux-501/abcdefgh.sock");
    assert_eq!(p.json, "/tmp/nvmux-501/abcdefgh.json");
    assert_eq!(p.log, "/tmp/nvmux-501/abcdefgh.log");
}

#[test]
fn realistic_paths_have_ample_headroom() {
    let cases = [
        "/tmp/nvmux-501/abcdefgh.sock".to_string(),
        "/tmp/nvmux-1000/abcdefgh.sock".to_string(),
        "/tmp/nvmux-4294967295/6iger7ax-abcdefgh.sock".to_string(),
        "/tmp/nvmux-4294967295/cm-6iger7ax".to_string(),
        master_socket("/tmp/nvmux-4294967295/cm-6iger7ax", "abcdefgh"),
        "/tmp/nvmux-4294967295/cm-6iger7ax.abcdefgh.0123456789abcdef".to_string(),
    ];
    for c in cases {
        let len = c.len();
        assert!(len <= MAX_SOCK_PATH, "{c} is {len} bytes");
        check_sock_path(&c).expect("should be within budget");
        assert!(!near_the_limit(&c), "{c}");
    }
}

#[test]
fn every_master_binds_a_name_of_its_own() {
    let ctl = "/tmp/nvmux-501/cm-abcdefgh";
    let a = master_socket(ctl, "aaaaaaaa");
    assert_eq!(a, "/tmp/nvmux-501/cm-abcdefgh.aaaaaaaa");
    assert_ne!(a, master_socket(ctl, "bbbbbbbb"));
    assert_eq!(a.rsplit_once('/').map(|p| p.0), ctl.rsplit_once('/').map(|p| p.0));
}

#[test]
fn a_control_path_is_refused_when_its_masters_sockets_would_not_fit() {
    let dir = format!("/tmp/{}", "a".repeat(80));
    assert!(
        check_sock_path(&format!("{dir}/cm-abcdefgh")).is_ok(),
        "precondition: the ControlPath alone is within budget"
    );
    assert!(matches!(
        control_path(&dir, "abcdefgh"),
        Err(PathError::TooLong { .. })
    ));
    assert_eq!(
        control_path("/tmp/nvmux-501", "abcdefgh").expect("fits"),
        "/tmp/nvmux-501/cm-abcdefgh"
    );
}

#[test]
fn overlong_paths_are_rejected() {
    let long = format!("/tmp/{}/x.sock", "a".repeat(120));
    let err = check_sock_path(&long).expect_err("should exceed the budget");
    match err {
        PathError::TooLong { len, max, .. } => {
            assert!(len > max);
            assert_eq!(max, MAX_SOCK_PATH);
        }
        other => panic!("expected TooLong, got {other:?}"),
    }
}

#[test]
fn budget_is_counted_in_bytes_not_chars() {
    let dir: String = "é".repeat(51);
    let p = format!("/{dir}");
    let bytes = p.len();
    let chars = p.chars().count();
    assert!(
        bytes > MAX_SOCK_PATH && chars < MAX_SOCK_PATH,
        "test vector is not discriminating: {bytes} bytes, {chars} chars"
    );
    assert!(
        check_sock_path(&p).is_err(),
        "byte length must be what is measured"
    );
}

#[test]
fn forwarded_socket_is_namespaced_by_host() {
    let dir = "/tmp/nvmux-501";
    let a = forwarded_sock(dir, "aaaaaaaa", "abcdefgh").expect("ok");
    let b = forwarded_sock(dir, "bbbbbbbb", "abcdefgh").expect("ok");
    assert_ne!(
        a, b,
        "same session id on two hosts must not share a local path"
    );
    assert_eq!(a, "/tmp/nvmux-501/aaaaaaaa-abcdefgh.sock");
}

#[test]
fn a_malformed_id_has_no_paths() {
    match SessionPaths::new("/tmp/nvmux-501", "../../etc") {
        Err(PathError::MalformedId(id)) => assert_eq!(id, "../../etc"),
        other => panic!("expected MalformedId, got {other:?}"),
    }
    let deep = format!("/{}", "a".repeat(100));
    assert!(matches!(
        SessionPaths::new(&deep, "abcdefgh"),
        Err(PathError::TooLong { .. })
    ));
}

#[test]
fn a_path_close_to_the_limit_is_noticed() {
    assert!(!near_the_limit(&"a".repeat(90)));
    assert!(near_the_limit(&"a".repeat(91)));
    assert!(near_the_limit(&"a".repeat(100)));
    assert!(!near_the_limit(&"a".repeat(101)), "that one is refused");
}

#[test]
fn the_log_is_in_the_runtime_directory() {
    assert_eq!(client_log("/tmp/nvmux-501"), "/tmp/nvmux-501/nvmux.log");
}

fn entry(is_dir: bool, uid: u32, mode: u32) -> Found {
    Found::Entry(Stat { is_dir, uid, mode })
}

#[test]
fn creates_a_missing_directory_as_0700() {
    let (mut securing, first) = Securing::start("/tmp/nvmux-501", 501);
    assert!(matches!(first, Secure::Look));
    assert!(matches!(securing.next(Found::Missing), Secure::Make));
    assert!(matches!(securing.next(Found::Made), Secure::Look));
    assert!(matches!(
        securing.next(entry(true, 501, 0o40700)),
        Secure::Ready
    ));
}

#[test]
fn accepts_a_directory_it_already_owns() {
    let (mut securing, _) = Securing::start("/tmp/nvmux-501", 501);
    assert!(matches!(
        securing.next(entry(true, 501, 0o40700)),
        Secure::Ready
    ));
}

#[test]
fn rejects_a_symlink_to_a_directory() {
    let (mut securing, _) = Securing::start("/tmp/nvmux-501", 501);
    match securing.next(entry(false, 501, 0o120777)) {
        Secure::Refuse(PathError::NotADirectory(path)) => assert_eq!(path, "/tmp/nvmux-501"),
        other => panic!("want NotADirectory, got {other:?}"),
    }
}

#[test]
fn rejects_a_group_or_world_accessible_directory() {
    for mode in [0o755, 0o770, 0o707, 0o701] {
        let (mut securing, _) = Securing::start("/tmp/nvmux-501", 501);
        match securing.next(entry(true, 501, 0o40000 + mode)) {
            Secure::Refuse(PathError::BadMode { mode: found, .. }) => assert_eq!(found, mode),
            other => panic!("want BadMode for {mode:o}, got {other:?}"),
        }
    }
}

#[test]
fn rejects_a_regular_file_in_the_way() {
    let (mut securing, _) = Securing::start("/tmp/nvmux-501", 501);
    assert!(matches!(
        securing.next(entry(false, 501, 0o100600)),
        Secure::Refuse(PathError::NotADirectory(_))
    ));
}

#[test]
fn rejects_a_directory_someone_else_owns() {
    let (mut securing, _) = Securing::start("/tmp/nvmux-501", 501);
    match securing.next(entry(true, 0, 0o40700)) {
        Secure::Refuse(PathError::BadOwner {
            owner, expected, ..
        }) => assert_eq!((owner, expected), (0, 501)),
        other => panic!("want BadOwner, got {other:?}"),
    }
}

#[test]
fn a_directory_that_keeps_changing_is_given_up_on() {
    let (mut securing, _) = Securing::start("/tmp/nvmux-501", 501);
    for _ in 0..ATTEMPTS - 1 {
        assert!(matches!(securing.next(Found::Missing), Secure::Make));
        assert!(matches!(securing.next(Found::AlreadyExists), Secure::Look));
    }
    assert!(matches!(securing.next(Found::Missing), Secure::Make));
    match securing.next(Found::AlreadyExists) {
        Secure::Refuse(PathError::Io { source, .. }) => {
            assert_eq!(source, "runtime directory kept changing underneath us")
        }
        other => panic!("want Io, got {other:?}"),
    }
}

#[test]
fn what_the_system_says_is_passed_on() {
    let (mut securing, _) = Securing::start("/tmp/nvmux-501", 501);
    match securing.next(Found::Failed("permission denied".into())) {
        Secure::Refuse(e) => assert_eq!(e.message(), "/tmp/nvmux-501: permission denied"),
        other => panic!("want a refusal, got {other:?}"),
    }
}
