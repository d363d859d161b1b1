use nvmux::config::ClientSettings;
use nvmux::pool::{Attachment, Pool, Taken};
use nvmux::session::Session;

fn kept_standin(session: &str, client: u64) -> Attachment {
    Attachment {
        session_id: session.to_string(),
        client,
        parkable: true,
        parks: true,
    }
}

#[test]
fn a_pool_that_does_not_keep_hands_every_client_back() {
    let mut pool = Pool::new(false);
    let (back, gone) = pool.set_aside(Some(kept_standin("s1", 7)));
    assert_eq!(back.expect("handed back").client, 7);
    assert!(gone.is_empty());
    assert!(pool.is_empty());
    assert!(pool.set_aside(None).0.is_none());
}

#[test]
fn a_kept_client_is_parked_and_taken_back_by_its_session() {
    let mut pool = Pool::new(true);
    assert!(
        pool.set_aside(Some(kept_standin("s1", 7))).0.is_none(),
        "the client was not parked"
    );
    assert!(pool.holds("s1"));
    assert!(!pool.holds("s2"));
    assert!(matches!(pool.take("s2"), Taken::Absent));
    let Taken::Kept(back) = pool.take("s1") else {
        panic!("not taken back");
    };
    assert_eq!(back, 7);
    assert!(!pool.holds("s1"), "taken back, and still held");
    assert!(pool.is_empty());
}

#[test]
fn a_client_cut_short_in_its_startup_is_not_parked() {
    let mut pool = Pool::new(true);
    let mut a = kept_standin("s1", 7);
    a.parkable = false;
    assert!(pool.set_aside(Some(a)).0.is_some());
    assert!(pool.is_empty());
}

#[test]
fn a_second_client_for_a_session_retires_the_first() {
    let mut pool = Pool::new(true);
    pool.set_aside(Some(kept_standin("s1", 7)));
    let (_, gone) = pool.set_aside(Some(kept_standin("s1", 8)));
    assert_eq!(pool.len(), 1);
    assert_eq!(gone, [7], "the first client was not retired");
    let Taken::Kept(back) = pool.take("s1") else {
        panic!("not taken back");
    };
    assert_eq!(back, 8);
}

#[test]
fn a_client_that_left_is_not_held() {
    let mut pool = Pool::new(true);
    pool.set_aside(Some(kept_standin("s1", 7)));
    pool.left(7);
    assert!(!pool.holds("s1"));
    assert!(
        pool.has("s1"),
        "a client that left is forgotten before it is asked for"
    );
    assert!(
        matches!(pool.take("s1"), Taken::Left(7)),
        "a client that left is not told apart from none at all"
    );
    assert!(matches!(pool.take("s1"), Taken::Absent));
}

#[test]
fn a_session_gone_from_the_listing_has_its_client_retired() {
    let mut pool = Pool::new(true);
    pool.set_aside(Some(kept_standin("s1", 7)));
    pool.set_aside(Some(kept_standin("s2", 8)));
    let listing = vec![Session::new("s2".into(), "two".into(), 1, 1)];
    let gone = pool.keep_only(&listing);
    assert!(!pool.holds("s1"));
    assert!(pool.holds("s2"));
    assert_eq!(
        gone,
        [7],
        "the client of a session gone from the listing lived on"
    );
}

#[test]
fn clearing_the_pool_lets_go_of_every_client() {
    let mut pool = Pool::new(true);
    for i in 0..4u64 {
        pool.set_aside(Some(kept_standin(&format!("s{i}"), i)));
    }
    assert_eq!(pool.clear(), [0, 1, 2, 3]);
    assert!(pool.is_empty());
}

#[test]
fn a_client_that_cannot_be_put_away_is_let_go_of() {
    let mut pool = Pool::new(true);
    pool.set_aside(Some(kept_standin("s1", 7)));
    let mut a = kept_standin("s1", 8);
    a.parks = false;
    let (back, gone) = pool.set_aside(Some(a));
    assert!(back.is_none());
    assert_eq!(gone, [7, 8]);
    assert!(pool.is_empty());
}

#[test]
fn the_configuration_says_whether_clients_are_kept() {
    let mut off = Pool::configured(&ClientSettings { per_session: false });
    assert!(off.set_aside(Some(kept_standin("s1", 7))).0.is_some());
    let mut on = Pool::configured(&ClientSettings { per_session: true });
    assert!(on.set_aside(Some(kept_standin("s1", 7))).0.is_none());
}

#[test]
fn other_sessions_keep_their_clients() {
    let mut pool = Pool::new(true);
    pool.set_aside(Some(kept_standin("s1", 1)));
    pool.set_aside(Some(kept_standin("s2", 2)));
    pool.set_aside(Some(kept_standin("s1", 3)));
    assert_eq!(pool.take("s2"), Taken::Kept(2));
    assert_eq!(pool.take("s1"), Taken::Kept(3));
}
