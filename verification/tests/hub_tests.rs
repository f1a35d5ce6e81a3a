use position_hub::hub::Hub;
use position_hub::messages::{Location, Message, UserLocation};

fn loc(x: u32, y: u32) -> Location {
    Location { x, y }
}

fn ul(user_id: usize, x: u32, y: u32) -> Message {
    Message::Location(UserLocation {
        user_id,
        location: Location { x, y },
    })
}

#[test]
fn end_to_end_scenario() {
    let mut hub = Hub::new();

    let (id1, mut rx1, _) = hub.connect();
    assert_eq!(id1, 1);
    assert_eq!(rx1.try_recv().unwrap(), Message::UserId(1));
    assert!(rx1.try_recv().is_err());

    let (id2, mut rx2, _) = hub.connect();
    assert_eq!(id2, 2);
    assert_eq!(rx2.try_recv().unwrap(), Message::UserId(2));
    assert_eq!(rx2.try_recv().unwrap(), ul(1, 0, 0));
    assert!(rx2.try_recv().is_err());

    let _ = hub.report_location(1, loc(5, 9));
    assert_eq!(rx1.try_recv().unwrap(), ul(1, 5, 9));
    assert_eq!(rx2.try_recv().unwrap(), ul(1, 5, 9));

    drop(rx2);
    let _ = hub.report_location(1, loc(6, 9));
    assert_eq!(rx1.try_recv().unwrap(), ul(1, 6, 9));
    assert_eq!(rx1.try_recv().unwrap(), Message::Kickout(vec![2]));
    assert!(rx1.try_recv().is_err());
}

#[test]
fn identities_are_pairwise_distinct() {
    let mut hub = Hub::new();
    let (a, _rxa, _) = hub.connect();
    let (b, _rxb, _) = hub.connect();
    let (c, _rxc, _) = hub.connect();
    assert_ne!(a, b);
    assert_ne!(a, c);
    assert_ne!(b, c);
    assert_eq!((a, b, c), (1, 2, 3));
}

#[test]
fn admission_snapshot_has_one_entry_per_prior_connection() {
    let mut hub = Hub::new();
    let (_, _rx1, _) = hub.connect();
    let (_, _rx2, _) = hub.connect();
    let (_, _rx3, _) = hub.connect();

    let (id4, mut rx4, _) = hub.connect();
    assert_eq!(id4, 4);
    assert_eq!(rx4.try_recv().unwrap(), Message::UserId(4));
    let mut seen: Vec<usize> = Vec::new();
    for _ in 0..3 {
        match rx4.try_recv().unwrap() {
            Message::Location(u) => {
                assert_eq!((u.location.x, u.location.y), (0, 0));
                seen.push(u.user_id);
            }
            other => panic!("expected a position message, got {:?}", other),
        }
    }
    seen.sort();
    assert_eq!(seen, vec![1, 2, 3]);
    assert!(rx4.try_recv().is_err());
}

#[test]
fn admission_snapshot_carries_last_reported_position() {
    let mut hub = Hub::new();
    let (id1, mut rx1, _) = hub.connect();
    let _ = hub.report_location(id1, loc(7, 8));
    assert_eq!(rx1.try_recv().unwrap(), Message::UserId(1));
    assert_eq!(rx1.try_recv().unwrap(), ul(1, 7, 8));

    let (_, mut rx2, _) = hub.connect();
    assert_eq!(rx2.try_recv().unwrap(), Message::UserId(2));
    assert_eq!(rx2.try_recv().unwrap(), ul(1, 7, 8));
    assert!(rx2.try_recv().is_err());
}

#[test]
fn reporter_hears_its_own_echo() {
    let mut hub = Hub::new();
    let (id, mut rx, _) = hub.connect();
    assert_eq!(rx.try_recv().unwrap(), Message::UserId(1));
    let _ = hub.report_location(id, loc(3, 4));
    assert_eq!(rx.try_recv().unwrap(), ul(1, 3, 4));
    assert!(rx.try_recv().is_err());
}

#[test]
fn peers_are_not_told_of_a_new_connection_until_it_reports() {
    let mut hub = Hub::new();
    let (_, mut rx1, _) = hub.connect();
    assert_eq!(rx1.try_recv().unwrap(), Message::UserId(1));

    let (id2, _rx2, _) = hub.connect();
    assert!(rx1.try_recv().is_err());

    let _ = hub.report_location(id2, loc(1, 1));
    assert_eq!(rx1.try_recv().unwrap(), ul(2, 1, 1));
}

#[test]
fn all_dropped_peers_are_evicted_in_one_notice() {
    let mut hub = Hub::new();
    let (id1, mut rx1, _) = hub.connect();
    let (_, rx2, _) = hub.connect();
    let (_, rx3, _) = hub.connect();
    drop(rx2);
    drop(rx3);

    let _ = hub.report_location(id1, loc(2, 2));
    assert_eq!(rx1.try_recv().unwrap(), Message::UserId(1));
    assert_eq!(rx1.try_recv().unwrap(), ul(1, 2, 2));
    assert_eq!(rx1.try_recv().unwrap(), Message::Kickout(vec![2, 3]));
    assert!(rx1.try_recv().is_err());
}

#[test]
fn evicted_identity_is_gone_from_later_snapshots() {
    let mut hub = Hub::new();
    let (id1, mut rx1, _) = hub.connect();
    let (_, rx2, _) = hub.connect();
    drop(rx2);
    let _ = hub.report_location(id1, loc(9, 9));
    assert_eq!(rx1.try_recv().unwrap(), Message::UserId(1));
    assert_eq!(rx1.try_recv().unwrap(), ul(1, 9, 9));
    assert_eq!(rx1.try_recv().unwrap(), Message::Kickout(vec![2]));

    let (_, mut rx3, _) = hub.connect();
    assert_eq!(rx3.try_recv().unwrap(), Message::UserId(3));
    assert_eq!(rx3.try_recv().unwrap(), ul(1, 9, 9));
    assert!(rx3.try_recv().is_err());
}

#[test]
fn a_live_connection_never_appears_in_an_eviction_notice() {
    let mut hub = Hub::new();
    let (id1, mut rx1, _) = hub.connect();
    let (_, mut rx2, _) = hub.connect();
    let (_, rx3, _) = hub.connect();
    drop(rx3);

    let _ = hub.report_location(id1, loc(4, 4));
    assert_eq!(rx1.try_recv().unwrap(), Message::UserId(1));
    assert_eq!(rx1.try_recv().unwrap(), ul(1, 4, 4));
    assert_eq!(rx1.try_recv().unwrap(), Message::Kickout(vec![3]));
    assert_eq!(rx2.try_recv().unwrap(), Message::UserId(2));
    assert_eq!(rx2.try_recv().unwrap(), ul(1, 0, 0));
    assert_eq!(rx2.try_recv().unwrap(), ul(1, 4, 4));
    assert_eq!(rx2.try_recv().unwrap(), Message::Kickout(vec![3]));
}

#[test]
fn a_report_under_an_unknown_identity_is_broadcast_but_not_stored() {
    let mut hub = Hub::new();
    let (_, mut rx1, _) = hub.connect();
    assert_eq!(rx1.try_recv().unwrap(), Message::UserId(1));

    let _ = hub.report_location(99, loc(5, 5));
    assert_eq!(rx1.try_recv().unwrap(), ul(99, 5, 5));

    let (_, mut rx2, _) = hub.connect();
    assert_eq!(rx2.try_recv().unwrap(), Message::UserId(2));
    assert_eq!(rx2.try_recv().unwrap(), ul(1, 0, 0));
    assert!(rx2.try_recv().is_err());
}

#[test]
fn a_report_on_an_empty_hub_does_nothing() {
    let mut hub = Hub::new();
    let _ = hub.report_location(1, loc(1, 2));
    let (id, mut rx, _) = hub.connect();
    assert_eq!(id, 1);
    assert_eq!(rx.try_recv().unwrap(), Message::UserId(1));
    assert!(rx.try_recv().is_err());
}
