use giui::control::Id;
use giui::event::{is_click, next_click_count, queue_replacing, LazyEvent, MouseButton, MouseEvent};
use std::collections::VecDeque;

#[test]
fn click_is_release_of_left_button() {
    assert!(is_click(MouseEvent::Up(MouseButton::Left), 1));
    assert!(is_click(MouseEvent::Up(MouseButton::Left), 3));
    assert!(!is_click(MouseEvent::Up(MouseButton::Left), 0));
    assert!(!is_click(MouseEvent::Down(MouseButton::Left), 1));
    assert!(!is_click(MouseEvent::Up(MouseButton::Right), 1));
    assert!(!is_click(MouseEvent::NoEvent, 1));
}

#[test]
fn click_count() {
    assert_eq!(next_click_count(0, None), 1);
    assert_eq!(next_click_count(1, Some(499)), 2);
    assert_eq!(next_click_count(2, Some(500)), 1);
    assert_eq!(next_click_count(255, Some(10)), 255);
}

#[test]
fn activation_cancels_pending_deactivation() {
    let a = Id { index: 1, generation: 1 };
    let b = Id { index: 2, generation: 1 };
    let mut queue = VecDeque::new();
    queue.push_back(LazyEvent::OnStart(a));
    queue.push_back(LazyEvent::OnDeactive(a));
    queue.push_back(LazyEvent::OnDeactive(b));
    queue.push_back(LazyEvent::OnDeactive(a));
    queue_replacing(&mut queue, LazyEvent::OnDeactive(a), LazyEvent::OnActive(a));
    assert_eq!(
        queue,
        vec![
            LazyEvent::OnStart(a),
            LazyEvent::OnDeactive(b),
            LazyEvent::OnDeactive(a),
            LazyEvent::OnActive(a),
        ]
    );
    queue_replacing(&mut queue, LazyEvent::OnActive(b), LazyEvent::OnRemove(b));
    assert_eq!(queue.len(), 5);
    assert_eq!(queue[4], LazyEvent::OnRemove(b));
}
