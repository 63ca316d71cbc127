use vstd::prelude::*;

use crate::control::Id;
use std::collections::VecDeque;

verus! {

/// Sent to the gui: keep sending mouse events to the control under the mouse, even when the
/// mouse leaves it.
pub struct LockOver;

/// Sent to the gui: stop the effect of `LockOver`.
pub struct UnlockOver;

/// Sent to the gui: give the focus to the control `id`.
pub struct RequestFocus {
    pub id: Id,
}

/// Sent to the gui: activate the control `id`.
pub struct ActiveControl {
    pub id: Id,
}

/// Sent to the gui: deactivate the control `id`.
pub struct DeactiveControl {
    pub id: Id,
}

/// Sent to the gui: remove the control `id` and all of its descendants.
pub struct RemoveControl {
    pub id: Id,
}

/// Sent to the gui: start the control `id`, which was built from a reserved id.
pub struct CreateControl {
    pub id: Id,
}

/// Sent to a control: set its value to the given one.
pub struct SetValue<T>(pub T);

/// Sent by a toggle control when it changed its value.
pub struct ToggleChanged {
    pub id: Id,
    pub value: bool,
}

/// A button of the mouse.
#[derive(Clone, Copy, PartialEq, Eq, Structural, Debug)]
pub enum MouseButton {
    Left,
    Right,
    Middle,
    Other(u16),
}

/// What the mouse did over a control.
#[derive(Clone, Copy, PartialEq, Eq, Structural, Debug)]
pub enum MouseEvent {
    Enter,
    Exit,
    Down(MouseButton),
    Up(MouseButton),
    Moved,
    /// No mouse event (the state of a mouse that has not done anything yet).
    NoEvent,
}

/// Two presses of the left button closer in time than this many milliseconds count as one
/// multiple click.
pub const DOUBLE_CLICK_MILLIS: u128 = 500;

/// A mouse event is a click when at least one press was counted and it is the release of the
/// left button.
pub fn is_click(event: MouseEvent, click_count: u8) -> (r: bool)
    ensures
        r == (click_count > 0 && event == MouseEvent::Up(MouseButton::Left)),
{
    click_count > 0 && match event {
        MouseEvent::Up(MouseButton::Left) => true,
        _ => false,
    }
}

/// The number of consecutive presses after a press of the left button. `elapsed_millis` is the
/// time since the previous press of the left button, `None` if there was none. A press within
/// `DOUBLE_CLICK_MILLIS` of the previous one adds one to the count (stopping at 255); a later one
/// starts a new count.
pub fn next_click_count(count: u8, elapsed_millis: Option<u128>) -> (c: u8)
    ensures
        c == (match elapsed_millis {
            Some(ms) if ms >= DOUBLE_CLICK_MILLIS => 1,
            _ => if count == u8::MAX { u8::MAX } else { (count + 1) as u8 },
        }),
{
    let time: u128 = match elapsed_millis {
        Some(ms) => ms,
        None => 0,
    };
    if time < DOUBLE_CLICK_MILLIS {
        count.saturating_add(1)
    } else {
        1
    }
}

/// A callback of a control that the gui runs later, in the order the events were queued.
#[derive(Clone, Copy, PartialEq, Eq, Structural, Debug)]
pub enum LazyEvent {
    OnStart(Id),
    OnRemove(Id),
    OnActive(Id),
    OnDeactive(Id),
}

/// `s` without its first element equal to `x`, or `s` itself where there is none.
pub open spec fn without_first<A>(s: Seq<A>, x: A) -> Seq<A> {
    if exists|i: int| 0 <= i < s.len() && s[i] == x {
        let i = choose|i: int|
            0 <= i < s.len() && s[i] == x && forall|j: int| 0 <= j < i ==> s[j] != x;
        s.remove(i)
    } else {
        s
    }
}

/// Queue `event`, first dropping the earliest queued `cancelled` event if there is one. Queuing an
/// activation cancels a pending deactivation of the same control, and the other way round.
pub fn queue_replacing(queue: &mut VecDeque<LazyEvent>, cancelled: LazyEvent, event: LazyEvent)
    ensures
        final(queue)@ == without_first(old(queue)@, cancelled).push(event),
{
    let ghost s = queue@;
    let mut i: usize = 0;
    let n = queue.len();
    while i < n
        invariant
            n == s.len(),
            s == old(queue)@,
            queue@ == s,
            i <= n,
            forall|j: int| 0 <= j < i ==> s[j] != cancelled,
        decreases n - i,
    {
        if queue[i] == cancelled {
            proof {
                let k = choose|k: int|
                    0 <= k < s.len() && s[k] == cancelled && forall|j: int|
                        0 <= j < k ==> s[j] != cancelled;
                assert(0 <= i < s.len() && s[i as int] == cancelled && forall|j: int|
                    0 <= j < i ==> s[j] != cancelled);
                if k < i {
                    assert(s[k] != cancelled);
                } else if k > i {
                    assert(s[i as int] != cancelled);
                }
                assert(k == i);
                assert(without_first(s, cancelled) == s.remove(i as int));
            }
            queue.remove(i);
            queue.push_back(event);
            return;
        }
        i = i + 1;
    }
    assert(without_first(s, cancelled) == s);
    queue.push_back(event);
}

} // verus!
