use nvmux::cli::{Cli, Location};

#[test]
fn bare_invocation_is_local() {
    let cli = Cli { host: None };
    assert_eq!(cli.location(), Location::Local);
}

#[test]
fn a_host_argument_selects_ssh() {
    for host in ["myhost", "user@myhost", "my-ssh-config-alias", "1.2.3.4"] {
        let cli = Cli {
            host: Some(host.to_string()),
        };
        assert_eq!(
            cli.location(),
            Location::Ssh(host.to_string()),
            "host must be passed through verbatim"
        );
    }
}
