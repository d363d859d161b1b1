use nvmux::dirs::{anchored as anchor, split as part};

fn anchored(input: &str) -> (&str, &str) {
    let (inert, live) = anchor(input);
    assert_eq!(format!("{inert}{live}"), input, "nothing is lost");
    input.split_at(inert.len())
}

fn split(input: &str) -> Option<(String, String)> {
    part(input)
}

fn pair(dir: &str, name: &str) -> Option<(String, String)> {
    Some((dir.to_string(), name.to_string()))
}

#[test]
fn a_double_slash_starts_again_from_the_root() {
    assert_eq!(anchored("/home/shu//etc"), ("/home/shu/", "/etc"));
    assert_eq!(
        anchored("/home/shu/projects//etc"),
        ("/home/shu/projects/", "/etc")
    );
    assert_eq!(anchored("/a//b//c"), ("/a//b/", "/c"));
    assert_eq!(anchored("//"), ("/", "/"));
    assert_eq!(anchored("///etc"), ("//", "/etc"));
    assert_eq!(anchored("/home/shu/projects"), ("", "/home/shu/projects"));
    assert_eq!(anchored("/"), ("", "/"));
    assert_eq!(anchored(""), ("", ""));
    assert_eq!(anchored("/home/shu//"), ("/home/shu/", "/"));
}

#[test]
fn what_a_double_slash_leaves_behind_is_still_absolute() {
    for input in ["/home/shu//etc", "//", "///x", "/a//b//c"] {
        let (_, live) = anchored(input);
        assert!(live.starts_with('/'), "{input:?} left {live:?}");
    }
}

#[test]
fn a_path_is_split_into_the_directory_to_list_and_the_name_to_match() {
    assert_eq!(split("/home/you/pro"), pair("/home/you", "pro"));
    assert_eq!(split("/home/you/"), pair("/home/you", ""));
    assert_eq!(split("/etc"), pair("/", "etc"));
    assert_eq!(split("/"), pair("/", ""));
    assert_eq!(split("home"), None);
    assert_eq!(split(""), None);
}

#[test]
fn a_directory_name_with_a_space_in_it_survives_the_split() {
    assert_eq!(split("/home/you/my pro"), pair("/home/you", "my pro"));
}

