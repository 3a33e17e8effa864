//! From what the window reports (keys, mouse buttons, mouse motion) to what
//! the board understands: clicks, drags, and the commands of the keyboard.

use vstd::prelude::*;

verus! {

/// How far a press of the left button has come towards a drag.
#[derive(Clone, Copy, Debug, PartialEq, Eq, Structural)]
pub enum DragState {
    Dragging,
    MaybeDragging,
    NotDragging,
}

/// Turns the reports of the window into events, and remembers between two
/// batches of reports whether a drag is under way.
pub struct EventSystem {
    drag_state: DragState,
}

#[derive(Copy, Clone, Debug, PartialEq, Eq, Structural)]
pub struct Event {
    pub kind: EventKind,
    pub timestamp: u32,
}

#[derive(Copy, Clone, Debug, PartialEq, Eq, PartialOrd, Ord, Structural)]
pub enum EventKind {
    Close,
    /// Flips the board perspective
    FlipBoard,
    /// Reset the board
    Reset,
    /// Click somewhere on the screen
    MouseDown {
        x: i32,
        y: i32,
    },
    MouseUp {
        x: i32,
        y: i32,
    },
    MouseClick {
        x: i32,
        y: i32,
    },
    MouseDragBegin {
        x: i32,
        y: i32,
    },
    MouseDragMove {
        x: i32,
        y: i32,
    },
    MouseDragEnd {
        x: i32,
        y: i32,
    },
    /// Start playing through your prep
    StartPractising,
}

/// The keys that a command is bound to.
#[derive(Copy, Clone, Debug, PartialEq, Eq, Structural)]
pub enum Key {
    F,
    R,
    Space,
    /// Any other key, or a key that the window could not name.
    Other,
}

/// One report of the window.
#[derive(Copy, Clone, Debug, PartialEq, Eq, Structural)]
pub enum Input {
    Quit { timestamp: u32 },
    KeyUp { key: Key, timestamp: u32 },
    MouseButtonUp { x: i32, y: i32, left: bool, timestamp: u32 },
    MouseButtonDown { x: i32, y: i32, left: bool, timestamp: u32 },
    MouseMotion { x: i32, y: i32, timestamp: u32 },
    /// Anything else.
    Other,
}

/// The place of a kind of event among the kinds, in the order of their
/// declaration.
pub open spec fn kind_rank(kind: EventKind) -> int {
    match kind {
        EventKind::Close => 0,
        EventKind::FlipBoard => 1,
        EventKind::Reset => 2,
        EventKind::MouseDown { .. } => 3,
        EventKind::MouseUp { .. } => 4,
        EventKind::MouseClick { .. } => 5,
        EventKind::MouseDragBegin { .. } => 6,
        EventKind::MouseDragMove { .. } => 7,
        EventKind::MouseDragEnd { .. } => 8,
        EventKind::StartPractising => 9,
    }
}

/// Where on the screen an event of the mouse happened; (0, 0) for the others.
pub open spec fn kind_point(kind: EventKind) -> (int, int) {
    match kind {
        EventKind::MouseDown { x, y } => (x as int, y as int),
        EventKind::MouseUp { x, y } => (x as int, y as int),
        EventKind::MouseClick { x, y } => (x as int, y as int),
        EventKind::MouseDragBegin { x, y } => (x as int, y as int),
        EventKind::MouseDragMove { x, y } => (x as int, y as int),
        EventKind::MouseDragEnd { x, y } => (x as int, y as int),
        _ => (0, 0),
    }
}

/// The order of the kinds: by their rank, then by x, then by y.
pub open spec fn kind_le(a: EventKind, b: EventKind) -> bool {
    let (ax, ay) = kind_point(a);
    let (bx, by) = kind_point(b);
    kind_rank(a) < kind_rank(b) || (kind_rank(a) == kind_rank(b) && (ax < bx || (ax == bx && ay
        <= by)))
}

/// No event stands before one of a lesser kind.
pub open spec fn in_kind_order(events: Seq<Event>) -> bool {
    forall|i: int, j: int|
        0 <= i < j < events.len() ==> kind_le(#[trigger] events[i].kind, #[trigger] events[j].kind)
}

/// `sorted` with `e` put behind the last event whose kind is not greater.
pub open spec fn inserted(sorted: Seq<Event>, e: Event) -> Seq<Event>
    decreases sorted.len(),
{
    if sorted.len() == 0 {
        seq![e]
    } else if kind_le(sorted.last().kind, e.kind) {
        sorted.push(e)
    } else {
        inserted(sorted.drop_last(), e).push(sorted.last())
    }
}

/// `events` in the order of their kinds; events of one kind stay in the
/// order in which they came.
pub open spec fn sorted_by_kind(events: Seq<Event>) -> Seq<Event>
    decreases events.len(),
{
    if events.len() == 0 {
        events
    } else {
        inserted(sorted_by_kind(events.drop_last()), events.last())
    }
}

/// The time from `from` to `to` on a clock of 32 bits that starts again at
/// zero when it is full.
pub open spec fn elapsed(from: u32, to: u32) -> int {
    if to >= from {
        to - from
    } else {
        to - from + 0x1_0000_0000
    }
}

/// Whether a release of the button at (`x`, `y`) and `timestamp` makes a click
/// of the press `down`: it comes within 150 ticks and less than 5 points away
/// on either axis.
pub open spec fn is_click(down: Event, x: i32, y: i32, timestamp: u32) -> bool {
    let (px, py) = kind_point(down.kind);
    &&& elapsed(down.timestamp, timestamp) < 150
    &&& -5 < x - px < 5
    &&& -5 < y - py < 5
}

/// What has come of the reports read so far.
pub struct Translation {
    pub drag: DragState,
    pub events: Seq<Event>,
}

/// What comes of one more report.
pub open spec fn after_input(t: Translation, input: Input) -> Translation {
    match input {
        Input::Quit { timestamp } => Translation {
            drag: t.drag,
            events: t.events.push(Event { kind: EventKind::Close, timestamp }),
        },
        Input::KeyUp { key, timestamp } => match key {
            Key::F => Translation {
                drag: t.drag,
                events: t.events.push(Event { kind: EventKind::FlipBoard, timestamp }),
            },
            Key::R => Translation {
                drag: t.drag,
                events: t.events.push(Event { kind: EventKind::Reset, timestamp }),
            },
            Key::Space => Translation {
                drag: t.drag,
                events: t.events.push(Event { kind: EventKind::StartPractising, timestamp }),
            },
            Key::Other => t,
        },
        Input::MouseButtonUp { x, y, left, timestamp } => if !left {
            t
        } else if t.drag == DragState::Dragging {
            Translation {
                drag: DragState::NotDragging,
                events: t.events.push(Event { kind: EventKind::MouseDragEnd { x, y }, timestamp }),
            }
        } else if t.events.len() > 0 && t.events.last().kind is MouseDown {
            if is_click(t.events.last(), x, y, timestamp) {
                Translation {
                    drag: t.drag,
                    events: t.events.drop_last().push(
                        Event { kind: EventKind::MouseClick { x, y }, timestamp },
                    ),
                }
            } else {
                t
            }
        } else if t.drag == DragState::MaybeDragging {
            Translation {
                drag: DragState::NotDragging,
                events: t.events.push(Event { kind: EventKind::MouseClick { x, y }, timestamp }),
            }
        } else {
            Translation {
                drag: t.drag,
                events: t.events.push(Event { kind: EventKind::MouseUp { x, y }, timestamp }),
            }
        },
        Input::MouseButtonDown { x, y, left, timestamp } => if left {
            Translation {
                drag: t.drag,
                events: t.events.push(Event { kind: EventKind::MouseDown { x, y }, timestamp }),
            }
        } else {
            t
        },
        Input::MouseMotion { x, y, timestamp } => match t.drag {
            DragState::Dragging => Translation {
                drag: t.drag,
                events: t.events.push(Event { kind: EventKind::MouseDragMove { x, y }, timestamp }),
            },
            DragState::MaybeDragging => Translation {
                drag: DragState::Dragging,
                events: t.events.push(
                    Event { kind: EventKind::MouseDragBegin { x, y }, timestamp },
                ),
            },
            DragState::NotDragging => Translation {
                drag: t.drag,
                events: t.events.push(Event { kind: EventKind::MouseUp { x, y }, timestamp }),
            },
        },
        Input::Other => t,
    }
}

/// What comes of the reports `inputs`, read in order.
pub open spec fn after_inputs(t: Translation, inputs: Seq<Input>) -> Translation
    decreases inputs.len(),
{
    if inputs.len() == 0 {
        t
    } else {
        after_input(after_inputs(t, inputs.drop_last()), inputs.last())
    }
}

/// The state of the drag after a batch whose events, in the order of their
/// kinds, are `sorted`: a press of the button that stands last may begin a
/// drag.
pub open spec fn drag_after(drag: DragState, sorted: Seq<Event>) -> DragState {
    if sorted.len() > 0 && sorted.last().kind is MouseDown {
        DragState::MaybeDragging
    } else {
        drag
    }
}

/// The rank of a kind, computed.
fn rank_of(kind: &EventKind) -> (rank: u8)
    ensures
        rank == kind_rank(*kind),
{
    match kind {
        EventKind::Close => 0,
        EventKind::FlipBoard => 1,
        EventKind::Reset => 2,
        EventKind::MouseDown { .. } => 3,
        EventKind::MouseUp { .. } => 4,
        EventKind::MouseClick { .. } => 5,
        EventKind::MouseDragBegin { .. } => 6,
        EventKind::MouseDragMove { .. } => 7,
        EventKind::MouseDragEnd { .. } => 8,
        EventKind::StartPractising => 9,
    }
}

/// The point of a kind, computed.
fn point_of(kind: &EventKind) -> (point: (i32, i32))
    ensures
        (point.0 as int, point.1 as int) == kind_point(*kind),
{
    match kind {
        EventKind::MouseDown { x, y } => (*x, *y),
        EventKind::MouseUp { x, y } => (*x, *y),
        EventKind::MouseClick { x, y } => (*x, *y),
        EventKind::MouseDragBegin { x, y } => (*x, *y),
        EventKind::MouseDragMove { x, y } => (*x, *y),
        EventKind::MouseDragEnd { x, y } => (*x, *y),
        _ => (0, 0),
    }
}

/// Whether the kind `a` is not greater than the kind `b`.
pub fn kind_not_greater(a: &EventKind, b: &EventKind) -> (le: bool)
    ensures
        le == kind_le(*a, *b),
{
    let ra = rank_of(a);
    let rb = rank_of(b);
    let (ax, ay) = point_of(a);
    let (bx, by) = point_of(b);
    ra < rb || (ra == rb && (ax < bx || (ax == bx && ay <= by)))
}

/// Putting `e` at the place `at` is what `inserted` does, where every event
/// from `at` on is of a greater kind and the one before is not.
proof fn lemma_inserted_at(sorted: Seq<Event>, e: Event, at: int)
    requires
        0 <= at <= sorted.len(),
        forall|k: int| at <= k < sorted.len() ==> !kind_le(#[trigger] sorted[k].kind, e.kind),
        at > 0 ==> kind_le(sorted[at - 1].kind, e.kind),
    ensures
        inserted(sorted, e) == sorted.insert(at, e),
    decreases sorted.len(),
{
    if sorted.len() == 0 {
        assert(sorted.insert(at, e) == seq![e]);
    } else if at == sorted.len() {
        assert(sorted.insert(at, e) == sorted.push(e));
    } else {
        assert(!kind_le(sorted[sorted.len() - 1].kind, e.kind));
        lemma_inserted_at(sorted.drop_last(), e, at);
        assert(sorted.drop_last().insert(at, e).push(sorted.last()) == sorted.insert(at, e));
    }
}

/// Putting an event into a sequence that is in the order of the kinds
/// leaves it in that order and adds the event, nothing else.
pub proof fn lemma_inserted(sorted: Seq<Event>, e: Event)
    requires
        in_kind_order(sorted),
    ensures
        in_kind_order(inserted(sorted, e)),
        inserted(sorted, e).to_multiset() == sorted.to_multiset().insert(e),
        inserted(sorted, e).len() == sorted.len() + 1,
    decreases sorted.len(),
{
    if sorted.len() == 0 {
        assert(seq![e] == Seq::<Event>::empty().push(e));
        vstd::seq_lib::to_multiset_build(Seq::<Event>::empty(), e);
        assert(sorted == Seq::<Event>::empty());
    } else if kind_le(sorted.last().kind, e.kind) {
        vstd::seq_lib::to_multiset_build(sorted, e);
        assert forall|i: int, j: int| 0 <= i < j < sorted.push(e).len() implies kind_le(
            #[trigger] sorted.push(e)[i].kind,
            #[trigger] sorted.push(e)[j].kind,
        ) by {
            if j == sorted.len() && i < sorted.len() - 1 {
                assert(kind_le(sorted[i].kind, sorted[sorted.len() - 1].kind));
            }
        }
    } else {
        let front = sorted.drop_last();
        let last = sorted.last();
        assert(in_kind_order(front)) by {
            assert forall|i: int, j: int| 0 <= i < j < front.len() implies kind_le(
                #[trigger] front[i].kind,
                #[trigger] front[j].kind,
            ) by {
                assert(front[i] == sorted[i] && front[j] == sorted[j]);
            }
        }
        lemma_inserted(front, e);
        let mid = inserted(front, e);
        vstd::seq_lib::to_multiset_build(mid, last);
        vstd::seq_lib::to_multiset_build(front, last);
        assert(front.push(last) == sorted);
        assert(mid.push(last).to_multiset() == sorted.to_multiset().insert(e));
        assert forall|i: int, j: int| 0 <= i < j < mid.push(last).len() implies kind_le(
            #[trigger] mid.push(last)[i].kind,
            #[trigger] mid.push(last)[j].kind,
        ) by {
            if j == mid.len() {
                // every event of `mid` is `e` or an event of `front`
                vstd::seq_lib::to_multiset_contains(mid, mid[i]);
                vstd::seq_lib::to_multiset_contains(front, mid[i]);
                if mid[i] != e {
                    assert(front.contains(mid[i]));
                    let k = choose|k: int| 0 <= k < front.len() && front[k] == mid[i];
                    assert(kind_le(sorted[k].kind, sorted[sorted.len() - 1].kind));
                }
            }
        }
    }
}

/// Sorting by kind gives the same events, in the order of their kinds.
pub proof fn law_sorted_by_kind(events: Seq<Event>)
    ensures
        in_kind_order(sorted_by_kind(events)),
        sorted_by_kind(events).to_multiset() == events.to_multiset(),
        sorted_by_kind(events).len() == events.len(),
    decreases events.len(),
{
    if events.len() > 0 {
        law_sorted_by_kind(events.drop_last());
        lemma_inserted(sorted_by_kind(events.drop_last()), events.last());
        vstd::seq_lib::to_multiset_build(events.drop_last(), events.last());
        assert(events.drop_last().push(events.last()) == events);
    }
}

/// The events `events` in the order of their kinds.
pub fn sort_by_kind(events: &Vec<Event>) -> (sorted: Vec<Event>)
    ensures
        sorted@ == sorted_by_kind(events@),
{
    let mut sorted: Vec<Event> = Vec::new();
    let mut i: usize = 0;
    assert(events@.take(0) == Seq::<Event>::empty());
    while i < events.len()
        invariant
            i <= events@.len(),
            sorted@ == sorted_by_kind(events@.take(i as int)),
            sorted@.len() == i,
        decreases events@.len() - i,
    {
        let e = events[i];
        let mut at: usize = sorted.len();
        while at > 0 && !kind_not_greater(&sorted[at - 1].kind, &e.kind)
            invariant
                at <= sorted@.len(),
                forall|k: int| at <= k < sorted@.len() ==> !kind_le(#[trigger] sorted@[k].kind, e.kind),
            decreases at,
        {
            at -= 1;
        }
        proof {
            lemma_inserted_at(sorted@, e, at as int);
            assert(events@.take(i + 1).drop_last() == events@.take(i as int));
            assert(events@.take(i + 1).last() == e);
        }
        sorted.insert(at, e);
        i += 1;
    }
    assert(events@.take(events@.len() as int) == events@);
    sorted
}

/// Whether two coordinates lie less than 5 points apart.
fn close_by(a: i32, b: i32) -> (close: bool)
    ensures
        close == (-5 < a - b < 5),
{
    let d: i64 = a as i64 - b as i64;
    -5 < d && d < 5
}

impl EventSystem {
    /// How far a drag has come.
    pub closed spec fn drag(&self) -> DragState {
        self.drag_state
    }

    /// A translator with no drag under way.
    pub fn new() -> (events: Self)
        ensures
            events.drag() == DragState::NotDragging,
    {
        EventSystem { drag_state: DragState::NotDragging }
    }

    /// How far a drag has come.
    pub fn drag_state(&self) -> (drag: DragState)
        ensures
            drag == self.drag(),
    {
        self.drag_state
    }

    /// Takes one more report into the events of a batch.
    fn take(&mut self, events: &mut Vec<Event>, input: Input)
        ensures
            (Translation { drag: final(self).drag(), events: final(events)@ }) == after_input(
                Translation { drag: old(self).drag(), events: old(events)@ },
                input,
            ),
    {
        match input {
            Input::Quit { timestamp } => {
                events.push(Event { kind: EventKind::Close, timestamp });
            },
            Input::KeyUp { key, timestamp } => match key {
                Key::F => {
                    events.push(Event { kind: EventKind::FlipBoard, timestamp });
                },
                Key::R => {
                    events.push(Event { kind: EventKind::Reset, timestamp });
                },
                Key::Space => {
                    events.push(Event { kind: EventKind::StartPractising, timestamp });
                },
                Key::Other => {},
            },
            Input::MouseButtonUp { x, y, left, timestamp } => {
                if !left {
                    return ;
                }
                if self.drag_state == DragState::Dragging {
                    self.drag_state = DragState::NotDragging;
                    events.push(Event { kind: EventKind::MouseDragEnd { x, y }, timestamp });
                    return ;
                }
                let n = events.len();
                if n > 0 {
                    let last = events[n - 1];
                    if let EventKind::MouseDown { x: x2, y: y2 } = last.kind {
                        if timestamp.wrapping_sub(last.timestamp) < 150 && close_by(x, x2)
                            && close_by(y, y2) {
                            events.pop();
                            events.push(Event { kind: EventKind::MouseClick { x, y }, timestamp });
                        }
                        return ;
                    }
                }
                if self.drag_state == DragState::MaybeDragging {
                    events.push(Event { kind: EventKind::MouseClick { x, y }, timestamp });
                    self.drag_state = DragState::NotDragging;
                } else {
                    events.push(Event { kind: EventKind::MouseUp { x, y }, timestamp });
                }
            },
            Input::MouseButtonDown { x, y, left, timestamp } => {
                if left {
                    events.push(Event { kind: EventKind::MouseDown { x, y }, timestamp });
                }
            },
            Input::MouseMotion { x, y, timestamp } => match self.drag_state {
                DragState::Dragging => {
                    events.push(Event { kind: EventKind::MouseDragMove { x, y }, timestamp });
                },
                DragState::MaybeDragging => {
                    events.push(Event { kind: EventKind::MouseDragBegin { x, y }, timestamp });
                    self.drag_state = DragState::Dragging;
                },
                DragState::NotDragging => {
                    events.push(Event { kind: EventKind::MouseUp { x, y }, timestamp });
                },
            },
            Input::Other => {},
        }
    }

    /// Turns one batch of reports into events, in the order of their kinds,
    /// so that the command to start practising comes last.
    pub fn handle_events(&mut self, inputs: &Vec<Input>) -> (events: Vec<Event>)
        ensures
            events@ == sorted_by_kind(
                after_inputs(
                    Translation { drag: old(self).drag(), events: Seq::empty() },
                    inputs@,
                ).events,
            ),
            final(self).drag() == drag_after(
                after_inputs(
                    Translation { drag: old(self).drag(), events: Seq::empty() },
                    inputs@,
                ).drag,
                events@,
            ),
    {
        let ghost start = Translation { drag: self.drag(), events: Seq::empty() };
        let mut events: Vec<Event> = Vec::new();
        let mut i: usize = 0;
        assert(inputs@.take(0) == Seq::<Input>::empty());
        while i < inputs.len()
            invariant
                i <= inputs@.len(),
                (Translation { drag: self.drag(), events: events@ }) == after_inputs(
                    start,
                    inputs@.take(i as int),
                ),
            decreases inputs@.len() - i,
        {
            proof {
                assert(inputs@.take(i + 1).drop_last() == inputs@.take(i as int));
                assert(inputs@.take(i + 1).last() == inputs@[i as int]);
            }
            self.take(&mut events, inputs[i]);
            i += 1;
        }
        assert(inputs@.take(inputs@.len() as int) == inputs@);
        let sorted = sort_by_kind(&events);
        let n = sorted.len();
        if n > 0 {
            if let EventKind::MouseDown { .. } = sorted[n - 1].kind {
                self.drag_state = DragState::MaybeDragging;
            }
        }
        sorted
    }
}

} // verus!
