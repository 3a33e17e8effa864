use chess_driller::events::kind_not_greater;
use chess_driller::events::sort_by_kind;
use chess_driller::events::DragState;
use chess_driller::events::Event;
use chess_driller::events::EventKind;
use chess_driller::events::EventSystem;
use chess_driller::events::Input;
use chess_driller::events::Key;

fn event(kind: EventKind, timestamp: u32) -> Event {
    Event { kind, timestamp }
}

fn down(x: i32, y: i32, timestamp: u32) -> Input {
    Input::MouseButtonDown { x, y, left: true, timestamp }
}

fn up(x: i32, y: i32, timestamp: u32) -> Input {
    Input::MouseButtonUp { x, y, left: true, timestamp }
}

#[test]
fn keys_give_commands() {
    let mut events = EventSystem::new();
    let got = events.handle_events(&vec![
        Input::KeyUp { key: Key::Space, timestamp: 1 },
        Input::KeyUp { key: Key::Other, timestamp: 2 },
        Input::KeyUp { key: Key::R, timestamp: 3 },
        Input::KeyUp { key: Key::F, timestamp: 4 },
        Input::Quit { timestamp: 5 },
        Input::Other,
    ]);
    assert_eq!(
        got,
        vec![
            event(EventKind::Close, 5),
            event(EventKind::FlipBoard, 4),
            event(EventKind::Reset, 3),
            event(EventKind::StartPractising, 1),
        ]
    );
    assert_eq!(events.drag_state(), DragState::NotDragging);
}

#[test]
fn press_and_release_in_one_batch_is_a_click() {
    let mut events = EventSystem::new();
    let got = events.handle_events(&vec![down(10, 20, 1000), up(12, 17, 1149)]);
    assert_eq!(got, vec![event(EventKind::MouseClick { x: 12, y: 17 }, 1149)]);
    assert_eq!(events.drag_state(), DragState::NotDragging);
}

#[test]
fn slow_or_far_release_is_dropped() {
    let mut events = EventSystem::new();
    let got = events.handle_events(&vec![down(10, 20, 1000), up(10, 20, 1150)]);
    assert_eq!(got, vec![event(EventKind::MouseDown { x: 10, y: 20 }, 1000)]);
    assert_eq!(events.drag_state(), DragState::MaybeDragging);

    let mut events = EventSystem::new();
    let got = events.handle_events(&vec![down(10, 20, 1000), up(15, 20, 1001)]);
    assert_eq!(got, vec![event(EventKind::MouseDown { x: 10, y: 20 }, 1000)]);
    let mut events = EventSystem::new();
    let got = events.handle_events(&vec![down(10, 20, 1000), up(10, 15, 1001)]);
    assert_eq!(got, vec![event(EventKind::MouseDown { x: 10, y: 20 }, 1000)]);
    let mut events = EventSystem::new();
    let got = events.handle_events(&vec![down(10, 20, 1000), up(6, 24, 1001)]);
    assert_eq!(got, vec![event(EventKind::MouseClick { x: 6, y: 24 }, 1001)]);
}

#[test]
fn click_survives_the_clock_starting_again() {
    let mut events = EventSystem::new();
    let got = events.handle_events(&vec![down(1, 1, u32::MAX - 10), up(1, 1, 100)]);
    assert_eq!(got, vec![event(EventKind::MouseClick { x: 1, y: 1 }, 100)]);
    let mut events = EventSystem::new();
    let got = events.handle_events(&vec![down(1, 1, u32::MAX - 100), up(1, 1, 100)]);
    assert_eq!(got, vec![event(EventKind::MouseDown { x: 1, y: 1 }, u32::MAX - 100)]);
}

#[test]
fn far_coordinates_do_not_overflow() {
    let mut events = EventSystem::new();
    let got = events.handle_events(&vec![down(i32::MIN, 0, 0), up(i32::MAX, 0, 1)]);
    assert_eq!(got, vec![event(EventKind::MouseDown { x: i32::MIN, y: 0 }, 0)]);
}

#[test]
fn press_then_motion_then_release_is_a_drag() {
    let mut events = EventSystem::new();
    let got = events.handle_events(&vec![down(10, 20, 1000)]);
    assert_eq!(got, vec![event(EventKind::MouseDown { x: 10, y: 20 }, 1000)]);
    assert_eq!(events.drag_state(), DragState::MaybeDragging);

    let got = events.handle_events(&vec![
        Input::MouseMotion { x: 11, y: 21, timestamp: 1010 },
        Input::MouseMotion { x: 12, y: 22, timestamp: 1020 },
    ]);
    assert_eq!(
        got,
        vec![
            event(EventKind::MouseDragBegin { x: 11, y: 21 }, 1010),
            event(EventKind::MouseDragMove { x: 12, y: 22 }, 1020),
        ]
    );
    assert_eq!(events.drag_state(), DragState::Dragging);

    let got = events.handle_events(&vec![up(30, 40, 1030)]);
    assert_eq!(got, vec![event(EventKind::MouseDragEnd { x: 30, y: 40 }, 1030)]);
    assert_eq!(events.drag_state(), DragState::NotDragging);
}

#[test]
fn release_in_a_later_batch_is_a_click() {
    let mut events = EventSystem::new();
    events.handle_events(&vec![down(10, 20, 1000)]);
    let got = events.handle_events(&vec![up(200, 300, 9000)]);
    assert_eq!(got, vec![event(EventKind::MouseClick { x: 200, y: 300 }, 9000)]);
    assert_eq!(events.drag_state(), DragState::NotDragging);
}

#[test]
fn motion_and_release_without_a_press_are_mouse_up() {
    let mut events = EventSystem::new();
    let got = events.handle_events(&vec![
        Input::MouseMotion { x: 5, y: 6, timestamp: 1 },
        up(7, 8, 2),
    ]);
    assert_eq!(
        got,
        vec![event(EventKind::MouseUp { x: 5, y: 6 }, 1), event(EventKind::MouseUp { x: 7, y: 8 }, 2)]
    );
}

#[test]
fn other_buttons_are_ignored() {
    let mut events = EventSystem::new();
    let got = events.handle_events(&vec![
        Input::MouseButtonDown { x: 1, y: 1, left: false, timestamp: 1 },
        Input::MouseButtonUp { x: 1, y: 1, left: false, timestamp: 2 },
    ]);
    assert!(got.is_empty());
    assert_eq!(events.drag_state(), DragState::NotDragging);
}

#[test]
fn press_that_is_not_last_in_kind_order_begins_no_drag() {
    let mut events = EventSystem::new();
    let got = events.handle_events(&vec![
        Input::KeyUp { key: Key::Space, timestamp: 1 },
        down(1, 2, 3),
    ]);
    assert_eq!(
        got,
        vec![event(EventKind::MouseDown { x: 1, y: 2 }, 3), event(EventKind::StartPractising, 1)]
    );
    assert_eq!(events.drag_state(), DragState::NotDragging);
}

#[test]
fn events_are_sorted_by_kind_and_stay_in_order_within_a_kind() {
    let unsorted = vec![
        event(EventKind::StartPractising, 1),
        event(EventKind::MouseUp { x: 3, y: 1 }, 2),
        event(EventKind::MouseUp { x: 2, y: 9 }, 3),
        event(EventKind::Reset, 4),
        event(EventKind::MouseUp { x: 2, y: 9 }, 5),
        event(EventKind::MouseUp { x: 2, y: -9 }, 6),
        event(EventKind::Close, 7),
        event(EventKind::Reset, 8),
    ];
    let sorted = sort_by_kind(&unsorted);
    let mut expected = unsorted.clone();
    expected.sort_by_key(|e| e.kind);
    assert_eq!(sorted, expected);
    assert_eq!(
        sorted,
        vec![
            event(EventKind::Close, 7),
            event(EventKind::Reset, 4),
            event(EventKind::Reset, 8),
            event(EventKind::MouseUp { x: 2, y: -9 }, 6),
            event(EventKind::MouseUp { x: 2, y: 9 }, 3),
            event(EventKind::MouseUp { x: 2, y: 9 }, 5),
            event(EventKind::MouseUp { x: 3, y: 1 }, 2),
            event(EventKind::StartPractising, 1),
        ]
    );
}

#[test]
fn kind_order_is_the_order_of_the_derived_comparison() {
    let kinds = [
        EventKind::Close,
        EventKind::FlipBoard,
        EventKind::Reset,
        EventKind::MouseDown { x: 0, y: 0 },
        EventKind::MouseDown { x: -1, y: 5 },
        EventKind::MouseUp { x: 0, y: 0 },
        EventKind::MouseClick { x: 1, y: 0 },
        EventKind::MouseClick { x: 1, y: -1 },
        EventKind::MouseDragBegin { x: 0, y: 0 },
        EventKind::MouseDragMove { x: 0, y: 0 },
        EventKind::MouseDragEnd { x: 0, y: 0 },
        EventKind::StartPractising,
    ];
    for a in &kinds {
        for b in &kinds {
            assert_eq!(kind_not_greater(a, b), a <= b);
        }
    }
}
