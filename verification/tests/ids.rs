use nvmux::ids::{b32_40, host_token, is_valid_id, new_id, ID_LEN};

const ALPHABET: &[u8; 32] = b"abcdefghijklmnopqrstuvwxyz234567";

#[test]
fn ids_are_eight_chars_from_the_alphabet() {
    for _ in 0..256 {
        let id = new_id().expect("getrandom");
        assert_eq!(id.len(), 8, "id {id:?} is not 8 chars");
        assert!(
            id.bytes().all(|b| ALPHABET.contains(&b)),
            "id {id:?} has characters outside the base32 alphabet"
        );
    }
}

#[test]
fn ids_do_not_obviously_collide() {
    let ids: std::collections::HashSet<_> = (0..1000).filter_map(|_| new_id().ok()).collect();
    assert_eq!(ids.len(), 1000, "duplicate ids from new_id()");
}

#[test]
fn b32_is_msb_first_and_covers_the_alphabet() {
    assert_eq!(b32_40(&[0, 0, 0, 0, 0]), "aaaaaaaa");
    assert_eq!(b32_40(&[0xff; 5]), "77777777");
    assert_eq!(b32_40(&[0x00, 0x44, 0x32, 0x14, 0xc7]), "abcdefgh");
}

#[test]
fn generated_ids_are_valid() {
    for _ in 0..256 {
        assert!(is_valid_id(&new_id().expect("getrandom")));
    }
    assert!(is_valid_id(&host_token("myhost")));
}

#[test]
fn ids_that_would_escape_the_runtime_directory_are_rejected() {
    for bad in [
        "",
        "short",
        "toolongtobevalid",
        "../../etc",
        "..",
        ".",
        "/etc/passwd",
        "abcdefg/",
        "abcdefg.",
        "ABCDEFGH",
        "abcdefg1",
        "abcdefg-",
        "abcd efg",
        "abcdefg\n",
        "abcdef\u{0}h",
    ] {
        assert!(!is_valid_id(bad), "{bad:?} should be rejected");
    }
}

#[test]
fn host_token_is_stable_forever() {
    assert_eq!(host_token("myhost"), "gtqu2ip5");
    assert_eq!(host_token("user@myhost"), "yiolvso2");
    assert_eq!(host_token(""), "4scceizf");
}

#[test]
fn host_token_distinguishes_similar_hosts() {
    assert_ne!(host_token("myhost"), host_token("myhost "));
    assert_ne!(host_token("a@h"), host_token("b@h"));
}

#[test]
fn every_byte_of_an_id_shows() {
    assert_eq!(ID_LEN, 8);
    let zero = b32_40(&[0; 5]);
    for at in 0..5 {
        for bit in 0..8 {
            let mut bytes = [0u8; 5];
            bytes[at] = 1 << bit;
            assert_ne!(b32_40(&bytes), zero, "bit {bit} of byte {at} is lost");
        }
    }
}

#[test]
fn a_token_can_be_used_as_an_id() {
    for host in ["", "myhost", "user@myhost", "日本語"] {
        assert!(is_valid_id(&host_token(host)), "{host:?}");
    }
}
