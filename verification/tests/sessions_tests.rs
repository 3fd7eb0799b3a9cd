use canvas_replay::sessions::{sessions, SessionEvent};

fn event(user: u64, timestamp: i64) -> SessionEvent {
    SessionEvent { user, timestamp, retracted: false }
}

#[test]
fn one_session_split_by_a_long_pause() {
    // Three quick placements, a long pause, then three more: two
    // sessions, both over the threshold of two pixels.
    let events = vec![
        event(7, 0),
        event(7, 2),
        event(7, 4),
        event(7, 100),
        event(7, 101),
        event(7, 102),
    ];
    let found = sessions(&events, 5, 2);
    assert_eq!(found, vec![(7, 0, 3), (7, 100, 3)]);
}

#[test]
fn open_sessions_are_reported_at_the_end() {
    let events = vec![event(7, 0), event(7, 1), event(7, 2)];
    let found = sessions(&events, 5, 2);
    assert_eq!(found, vec![(7, 0, 3)]);
}

#[test]
fn short_sessions_are_dropped() {
    // The first session holds two placements: not more than two, so
    // only the second, three-placement session is reported.
    let events = vec![
        event(7, 0),
        event(7, 1),
        event(7, 50),
        event(7, 51),
        event(7, 52),
    ];
    let found = sessions(&events, 5, 2);
    assert_eq!(found, vec![(7, 50, 3)]);
}

#[test]
fn users_are_tracked_independently() {
    let events = vec![
        event(7, 0),
        event(9, 1),
        event(7, 2),
        event(9, 3),
        event(7, 4),
    ];
    let found = sessions(&events, 5, 1);
    assert_eq!(found, vec![(7, 0, 3), (9, 1, 2)]);
}

#[test]
fn retractions_do_not_extend_sessions() {
    let mut events = vec![event(7, 0), event(7, 1), event(7, 2)];
    events.push(SessionEvent { user: 7, timestamp: 3, retracted: true });
    let found = sessions(&events, 5, 2);
    assert_eq!(found, vec![(7, 0, 3)]);
}

#[test]
fn pause_exactly_at_the_limit_continues_the_session() {
    let events = vec![event(7, 0), event(7, 5), event(7, 10)];
    let found = sessions(&events, 5, 2);
    assert_eq!(found, vec![(7, 0, 3)]);
}
