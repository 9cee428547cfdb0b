use zoocache::errors::CacheError;
use zoocache::flight::{FlightRegistry, FlightStatus};

#[test]
fn test_flight_lifecycle() {
    let mut flights = FlightRegistry::new();

    let (flight1, is_leader1) = flights.try_enter_flight("key1");
    assert!(is_leader1);

    let (flight2, is_leader2) = flights.try_enter_flight("key1");
    assert!(!is_leader2);
    assert!(flight1 == flight2);

    flights.complete_flight("key1", false, None);
    assert!(!flights.has_active_flight("key1"));
}

#[test]
fn followers_share_the_leaders_value() {
    let mut flights = FlightRegistry::new();
    let (id, leader) = flights.try_enter_flight("k");
    assert!(leader);
    let (follower_id, follower_leads) = flights.try_enter_flight("k");
    assert_eq!(follower_id, id);
    assert!(!follower_leads);

    flights.complete_flight("k", false, Some(b"v".to_vec()));
    assert_eq!(flights.flight_status(id), FlightStatus::Done);
    assert_eq!(flights.resolve_wait(follower_id, false), Ok(Some(b"v".to_vec())));

    // after completion the key is free: the next caller leads a fresh flight
    let (id2, leader2) = flights.try_enter_flight("k");
    assert!(leader2);
    assert_ne!(id2, id);
}

#[test]
fn leader_failure_surfaces_to_followers() {
    let mut flights = FlightRegistry::new();
    let (id, _) = flights.try_enter_flight("k");
    flights.complete_flight("k", true, None);
    assert_eq!(flights.flight_status(id), FlightStatus::Error);
    assert_eq!(flights.resolve_wait(id, false), Err(CacheError::FlightLeaderFailed));
}

#[test]
fn timed_out_wait_fails_even_when_pending() {
    let mut flights = FlightRegistry::new();
    let (id, _) = flights.try_enter_flight("k");
    assert_eq!(flights.flight_status(id), FlightStatus::Pending);
    assert_eq!(flights.resolve_wait(id, true), Err(CacheError::FlightLeaderFailed));
}

#[test]
fn registered_handle_returns_on_completion() {
    let mut flights = FlightRegistry::new();
    let (_, leader) = flights.try_enter_flight("k");
    assert!(leader);
    flights.register_flight_future("k", 42);
    let handle = flights.complete_flight("k", false, None);
    assert_eq!(handle, Some(42));
}
