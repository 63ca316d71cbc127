use giui::control::Id;
use giui::scheduler::{Due, Scheduler};

fn id(i: u32) -> Id {
    Id { index: i, generation: 1 }
}

#[test]
fn events_come_out_by_time_then_order() {
    let mut s = Scheduler::new();
    let k0 = s.schedule(id(1), "late", 30);
    let k1 = s.schedule(id(2), "early", 10);
    let k2 = s.schedule(id(3), "early too", 10);
    assert_eq!((k0, k1, k2), (0, 1, 2));
    match s.pop_due(5) {
        Due::Wait(t) => assert_eq!(t, 10),
        _ => panic!("nothing is due at 5"),
    }
    match s.pop_due(20) {
        Due::Event(e) => {
            assert_eq!(e.event, "early");
            assert_eq!(e.id, id(2));
            assert_eq!(e.key, 1);
        }
        _ => panic!("an event is due at 20"),
    }
    match s.pop_due(20) {
        Due::Event(e) => assert_eq!(e.event, "early too"),
        _ => panic!("an event is due at 20"),
    }
    match s.pop_due(20) {
        Due::Wait(t) => assert_eq!(t, 30),
        _ => panic!("the last event is due at 30"),
    }
    match s.pop_due(30) {
        Due::Event(e) => assert_eq!(e.event, "late"),
        _ => panic!("an event is due at 30"),
    }
    assert!(matches!(s.pop_due(100), Due::Empty));
}

#[test]
fn cancelled_event_never_comes() {
    let mut s = Scheduler::new();
    let k = s.schedule(id(1), 1u8, 5);
    s.schedule(id(2), 2u8, 6);
    s.cancel(k);
    match s.pop_due(10) {
        Due::Event(e) => assert_eq!(e.event, 2),
        _ => panic!("the second event is due"),
    }
    assert!(matches!(s.pop_due(10), Due::Empty));
    // cancelling twice, or an unknown key, changes nothing
    s.cancel(k);
    s.cancel(77);
    assert!(matches!(s.pop_due(10), Due::Empty));
}

#[test]
fn only_event_comes_out_when_due() {
    let mut s = Scheduler::new();
    let k = s.schedule(id(4), 'x', 7);
    match s.pop_due(7) {
        Due::Event(e) => {
            assert_eq!(e.key, k);
            assert_eq!(e.time, 7);
            assert_eq!(e.event, 'x');
        }
        _ => panic!("the event is due at its time"),
    }
}
