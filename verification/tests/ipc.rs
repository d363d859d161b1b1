use nvmux::config::Platform;
use nvmux::ipc::address;

#[test]
fn an_address_is_a_socket_here_and_a_pipe_there() {
    assert_eq!(
        address(Platform::Unix, "/tmp/nvmux-501", "t1", "aaaaaaaa", "abcdefgh"),
        "/tmp/nvmux-501/aaaaaaaa-abcdefgh.sock"
    );
    assert_eq!(
        address(Platform::Windows, "/tmp/nvmux-501", "t1", "aaaaaaaa", "abcdefgh"),
        r"\\.\pipe\nvmux-t1-aaaaaaaa-abcdefgh"
    );
}

#[test]
fn addresses_tell_sessions_apart() {
    for platform in [Platform::Unix, Platform::Windows] {
        assert_ne!(
            address(platform, "/d", "t", "aaaaaaaa", "abcdefgh"),
            address(platform, "/d", "t", "aaaaaaaa", "abcdefgi")
        );
    }
}
