//! Edge-triggered button-state tracking.
//!
//! A [`Mouse`] consumes one snapshot per frame: the set of buttons the input
//! layer reports as currently held, plus an optional cursor position sample.
//! From consecutive snapshots it derives the edge-triggered state — which
//! buttons were just pressed and just released this frame — together with the
//! absolute cursor position and its per-frame displacement.
//!
//! Coordinates live in an integer space chosen by the caller; the displacement
//! is reported as a wider integer so that the difference of any two positions
//! is always representable.

use vstd::prelude::*;

verus! {

/// Identifies one input button. Which identifiers the tracker recognizes is
/// fixed when it is built; unrecognized identifiers are ignored by every
/// operation.
pub type ButtonId = u64;

/// Abstract state of a tracker: which identifiers it recognizes, which of
/// them are held, which transitioned during the most recent frame, and the
/// cursor position with its most recent displacement.
#[verifier::ext_equal]
pub struct TrackerState {
    pub recognized: Set<ButtonId>,
    pub held: Set<ButtonId>,
    pub pressed: Set<ButtonId>,
    pub released: Set<ButtonId>,
    pub x: int,
    pub y: int,
    pub dx: int,
    pub dy: int,
}

/// The state a tracker starts in: nothing held, no transitions, cursor at the
/// origin with no displacement.
pub open spec fn initial(recognized: Set<ButtonId>) -> TrackerState {
    TrackerState {
        recognized: recognized,
        held: Set::empty(),
        pressed: Set::empty(),
        released: Set::empty(),
        x: 0,
        y: 0,
        dx: 0,
        dy: 0,
    }
}

/// How one frame advances the abstract state.
///
/// The held set becomes exactly the recognized part of the snapshot; the
/// pressed and released sets are the two directions of the difference between
/// the new held set and the old one. A position sample moves the cursor and
/// records the displacement from the previous position; a frame without a
/// sample leaves position and displacement untouched.
pub open spec fn step(pre: TrackerState, down: Set<ButtonId>, sample: Option<(int, int)>) -> TrackerState {
    TrackerState {
        recognized: pre.recognized,
        held: pre.recognized.intersect(down),
        pressed: pre.recognized.intersect(down).difference(pre.held),
        released: pre.held.difference(down),
        x: match sample { Some(p) => p.0, None => pre.x },
        y: match sample { Some(p) => p.1, None => pre.y },
        dx: match sample { Some(p) => p.0 - pre.x, None => pre.dx },
        dy: match sample { Some(p) => p.1 - pre.y, None => pre.dy },
    }
}

/// The exact-integer image of a concrete position sample.
pub open spec fn sample_view(position: Option<(i32, i32)>) -> Option<(int, int)> {
    match position {
        Some(p) => Some((p.0 as int, p.1 as int)),
        None => None,
    }
}

/// The set of identifiers whose entry in `mask` is set, where `mask` runs
/// parallel to `ids`.
spec fn marked(ids: Seq<ButtonId>, mask: Seq<bool>) -> Set<ButtonId> {
    Set::new(|b: ButtonId| exists|i: int| 0 <= i < ids.len() && i < mask.len() && ids[i] == b && mask[i])
}

/// Tracks the held/pressed/released state of a fixed set of buttons and the
/// cursor position, one input snapshot per frame.
///
/// The recognized identifiers are kept in `ids`; the three boolean vectors
/// run parallel to it, one entry per recognized button.
pub struct Mouse {
    ids: Vec<ButtonId>,
    held: Vec<bool>,
    pressed: Vec<bool>,
    released: Vec<bool>,
    x: i32,
    y: i32,
    dx: i64,
    dy: i64,
}

impl View for Mouse {
    type V = TrackerState;

    closed spec fn view(&self) -> TrackerState {
        TrackerState {
            recognized: self.ids@.to_set(),
            held: marked(self.ids@, self.held@),
            pressed: marked(self.ids@, self.pressed@),
            released: marked(self.ids@, self.released@),
            x: self.x as int,
            y: self.y as int,
            dx: self.dx as int,
            dy: self.dy as int,
        }
    }
}

impl Mouse {
    /// The identifier list holds no duplicates and the state vectors run
    /// parallel to it.
    pub closed spec fn wf(&self) -> bool {
        &&& self.ids@.no_duplicates()
        &&& self.held@.len() == self.ids@.len()
        &&& self.pressed@.len() == self.ids@.len()
        &&& self.released@.len() == self.ids@.len()
    }

    /// Builds a tracker that recognizes exactly the given identifiers.
    /// Before the first frame every query reports the default state: nothing
    /// held, no transitions, cursor at the origin with no displacement.
    pub fn new(recognized: Vec<ButtonId>) -> (tracker: Mouse)
        requires
            recognized@.no_duplicates(),
        ensures
            tracker.wf(),
            tracker@ == initial(recognized@.to_set()),
    {
        let n = recognized.len();
        let tracker = Mouse {
            ids: recognized,
            held: all_clear(n),
            pressed: all_clear(n),
            released: all_clear(n),
            x: 0,
            y: 0,
            dx: 0,
            dy: 0,
        };
        proof {
            assert(tracker@.held =~= Set::<ButtonId>::empty());
            assert(tracker@.pressed =~= Set::<ButtonId>::empty());
            assert(tracker@.released =~= Set::<ButtonId>::empty());
            assert(tracker@ =~= initial(tracker.ids@.to_set()));
        }
        tracker
    }

    /// Consumes one frame's input snapshot: the buttons the input layer
    /// reports as held (order and duplicates are irrelevant — only membership
    /// counts) and, when one was available, a cursor position sample.
    ///
    /// The tracker advances exactly as [`step`] describes: held state follows
    /// the snapshot, the pressed and released sets hold this frame's
    /// transitions alone, and a missing sample leaves position and
    /// displacement untouched.
    pub fn update(&mut self, down_buttons: &Vec<ButtonId>, position: Option<(i32, i32)>)
        requires
            old(self).wf(),
        ensures
            final(self).wf(),
            final(self)@ == step(old(self)@, down_buttons@.to_set(), sample_view(position)),
    {
        let n = self.ids.len();
        let mut i: usize = 0;
        while i < n
            invariant
                self.wf(),
                n == self.ids@.len(),
                i <= n,
                self.ids@ == old(self).ids@,
                self.x == old(self).x,
                self.y == old(self).y,
                self.dx == old(self).dx,
                self.dy == old(self).dy,
                forall|j: int| 0 <= j < i ==> self.held@[j] == down_buttons@.contains(self.ids@[j]),
                forall|j: int| 0 <= j < i ==>
                    self.pressed@[j] == (down_buttons@.contains(self.ids@[j]) && !old(self).held@[j]),
                forall|j: int| 0 <= j < i ==>
                    self.released@[j] == (!down_buttons@.contains(self.ids@[j]) && old(self).held@[j]),
                forall|j: int| i <= j < n ==> self.held@[j] == old(self).held@[j],
            decreases n - i,
        {
            let b = self.ids[i];
            let is_down = contains_id(down_buttons, b);
            let was = self.held[i];
            self.pressed.set(i, is_down && !was);
            self.released.set(i, !is_down && was);
            self.held.set(i, is_down);
            i += 1;
        }
        match position {
            Some(p) => {
                self.dx = p.0 as i64 - self.x as i64;
                self.dy = p.1 as i64 - self.y as i64;
                self.x = p.0;
                self.y = p.1;
            }
            None => {}
        }
        proof {
            lemma_masks_give_step(
                self.ids@,
                old(self).held@,
                self.held@,
                self.pressed@,
                self.released@,
                down_buttons@,
            );
            assert(self@ =~= step(old(self)@, down_buttons@.to_set(), sample_view(position)));
        }
    }

    /// Whether `button` is currently held; false for an unrecognized
    /// identifier.
    pub fn get(&self, button: ButtonId) -> (held: bool)
        requires
            self.wf(),
        ensures
            held == self@.held.contains(button),
    {
        lookup(&self.ids, &self.held, button)
    }

    /// Whether `button` went from released to held during the most recent
    /// frame; false for an unrecognized identifier.
    pub fn get_down(&self, button: ButtonId) -> (pressed: bool)
        requires
            self.wf(),
        ensures
            pressed == self@.pressed.contains(button),
    {
        lookup(&self.ids, &self.pressed, button)
    }

    /// Whether `button` went from held to released during the most recent
    /// frame; false for an unrecognized identifier.
    pub fn get_up(&self, button: ButtonId) -> (released: bool)
        requires
            self.wf(),
        ensures
            released == self@.released.contains(button),
    {
        lookup(&self.ids, &self.released, button)
    }

    /// The cursor position last reported by a frame with a sample; the origin
    /// before the first such frame.
    pub fn position(&self) -> (pos: (i32, i32))
        ensures
            pos.0 as int == self@.x,
            pos.1 as int == self@.y,
    {
        (self.x, self.y)
    }

    /// The cursor displacement computed by the most recent frame that carried
    /// a position sample; zero before the first such frame.
    pub fn delta(&self) -> (displacement: (i64, i64))
        ensures
            displacement.0 as int == self@.dx,
            displacement.1 as int == self@.dy,
    {
        (self.dx, self.dy)
    }
}

/// After any frame, no button is both just-pressed and just-released: the two
/// transition sets a single update computes are disjoint, whatever state the
/// tracker was in and whatever the snapshot reported.
pub proof fn lemma_pressed_released_disjoint(
    pre: TrackerState,
    down: Set<ButtonId>,
    sample: Option<(int, int)>,
)
    ensures
        step(pre, down, sample).pressed.disjoint(step(pre, down, sample).released),
{
    let post = step(pre, down, sample);
    assert forall|b: ButtonId| post.pressed.contains(b) implies !post.released.contains(b) by {
        assert(down.contains(b));
    }
}

/// After any frame, every just-pressed button is held and no just-released
/// button is held.
pub proof fn lemma_transitions_match_held(
    pre: TrackerState,
    down: Set<ButtonId>,
    sample: Option<(int, int)>,
)
    ensures
        step(pre, down, sample).pressed.subset_of(step(pre, down, sample).held),
        step(pre, down, sample).released.disjoint(step(pre, down, sample).held),
{
    let post = step(pre, down, sample);
    assert forall|b: ButtonId| post.released.contains(b) implies !post.held.contains(b) by {
        assert(!down.contains(b));
    }
}

/// A recognized button that the snapshot reports down on one frame but did
/// not report down on the frame before is just-pressed — and held — right
/// after the second of the two frames.
pub proof fn lemma_press_edge(
    pre: TrackerState,
    down1: Set<ButtonId>,
    sample1: Option<(int, int)>,
    down2: Set<ButtonId>,
    sample2: Option<(int, int)>,
    b: ButtonId,
)
    requires
        pre.recognized.contains(b),
        !down1.contains(b),
        down2.contains(b),
    ensures
        step(step(pre, down1, sample1), down2, sample2).pressed.contains(b),
        step(step(pre, down1, sample1), down2, sample2).held.contains(b),
{
}

/// A recognized button that the snapshot reported down on one frame but no
/// longer reports down on the next is just-released — and no longer held —
/// right after the second of the two frames.
pub proof fn lemma_release_edge(
    pre: TrackerState,
    down1: Set<ButtonId>,
    sample1: Option<(int, int)>,
    down2: Set<ButtonId>,
    sample2: Option<(int, int)>,
    b: ButtonId,
)
    requires
        pre.recognized.contains(b),
        down1.contains(b),
        !down2.contains(b),
    ensures
        step(step(pre, down1, sample1), down2, sample2).released.contains(b),
        !step(step(pre, down1, sample1), down2, sample2).held.contains(b),
{
}

/// A recognized button held across two consecutive frames is held after both,
/// and the second frame reports neither a press nor a release for it.
pub proof fn lemma_hold_is_no_edge(
    pre: TrackerState,
    down1: Set<ButtonId>,
    sample1: Option<(int, int)>,
    down2: Set<ButtonId>,
    sample2: Option<(int, int)>,
    b: ButtonId,
)
    requires
        pre.recognized.contains(b),
        down1.contains(b),
        down2.contains(b),
    ensures
        step(pre, down1, sample1).held.contains(b),
        step(step(pre, down1, sample1), down2, sample2).held.contains(b),
        !step(step(pre, down1, sample1), down2, sample2).pressed.contains(b),
        !step(step(pre, down1, sample1), down2, sample2).released.contains(b),
{
}

/// A frame without a position sample leaves the cursor position and its
/// displacement exactly as the previous frame left them.
pub proof fn lemma_no_sample_keeps_position(pre: TrackerState, down: Set<ButtonId>)
    ensures
        step(pre, down, None).x == pre.x,
        step(pre, down, None).y == pre.y,
        step(pre, down, None).dx == pre.dx,
        step(pre, down, None).dy == pre.dy,
{
}

/// With a duplicate-free identifier list and a mask of the same length,
/// membership of `ids[i]` in the marked set is decided by `mask[i]` alone.
proof fn lemma_marked_index(ids: Seq<ButtonId>, mask: Seq<bool>, i: int)
    requires
        ids.no_duplicates(),
        mask.len() == ids.len(),
        0 <= i < ids.len(),
    ensures
        marked(ids, mask).contains(ids[i]) == mask[i],
{
    if mask[i] {
        assert(0 <= i < ids.len() && i < mask.len() && ids[i] == ids[i] && mask[i]);
        assert(marked(ids, mask).contains(ids[i]));
    } else {
        if marked(ids, mask).contains(ids[i]) {
            let j = choose|j: int| 0 <= j < ids.len() && j < mask.len() && ids[j] == ids[i] && mask[j];
            assert(j == i);
        }
    }
}

/// An identifier that occurs nowhere in `ids` is in no marked set over `ids`.
proof fn lemma_marked_unrecognized(ids: Seq<ButtonId>, mask: Seq<bool>, b: ButtonId)
    requires
        !ids.contains(b),
    ensures
        !marked(ids, mask).contains(b),
{
    if marked(ids, mask).contains(b) {
        let j = choose|j: int| 0 <= j < ids.len() && j < mask.len() && ids[j] == b && mask[j];
        assert(ids[j] == b);
    }
}

/// Whether `b` occurs in `buttons`, by linear search.
fn contains_id(buttons: &Vec<ButtonId>, b: ButtonId) -> (found: bool)
    ensures
        found == buttons@.contains(b),
{
    let n = buttons.len();
    let mut i: usize = 0;
    while i < n
        invariant
            n == buttons@.len(),
            i <= n,
            forall|j: int| 0 <= j < i ==> buttons@[j] != b,
        decreases n - i,
    {
        if buttons[i] == b {
            proof {
                assert(buttons@[i as int] == b);
                assert(buttons@.contains(b));
            }
            return true;
        }
        i += 1;
    }
    proof {
        if buttons@.contains(b) {
            let j = choose|j: int| 0 <= j < buttons@.len() && buttons@[j] == b;
            assert(false);
        }
    }
    false
}

/// Masks whose entries diff the snapshot against the previous held state,
/// read as sets over the identifier list, are exactly the sets that [`step`]
/// prescribes: held follows the snapshot, pressed and released are the two
/// directions of the change.
proof fn lemma_masks_give_step(
    ids: Seq<ButtonId>,
    old_held: Seq<bool>,
    held: Seq<bool>,
    pressed: Seq<bool>,
    released: Seq<bool>,
    down: Seq<ButtonId>,
)
    requires
        ids.no_duplicates(),
        old_held.len() == ids.len(),
        held.len() == ids.len(),
        pressed.len() == ids.len(),
        released.len() == ids.len(),
        forall|j: int| 0 <= j < ids.len() ==> held[j] == down.contains(#[trigger] ids[j]),
        forall|j: int| 0 <= j < ids.len() ==>
            pressed[j] == (down.contains(#[trigger] ids[j]) && !old_held[j]),
        forall|j: int| 0 <= j < ids.len() ==>
            released[j] == (!down.contains(#[trigger] ids[j]) && old_held[j]),
    ensures
        marked(ids, held) == ids.to_set().intersect(down.to_set()),
        marked(ids, pressed) == ids.to_set().intersect(down.to_set()).difference(
            marked(ids, old_held),
        ),
        marked(ids, released) == marked(ids, old_held).difference(down.to_set()),
{
    let recognized_down = ids.to_set().intersect(down.to_set());
    let was_held = marked(ids, old_held);
    assert forall|b: ButtonId| marked(ids, held).contains(b) == recognized_down.contains(b) by {
        if marked(ids, held).contains(b) {
            let j = choose|j: int| 0 <= j < ids.len() && j < held.len() && ids[j] == b && held[j];
            assert(ids.contains(b));
            assert(down.contains(b));
        }
        if recognized_down.contains(b) {
            let j = choose|j: int| 0 <= j < ids.len() && ids[j] == b;
            assert(held[j]);
            assert(marked(ids, held).contains(b));
        }
    }
    assert forall|b: ButtonId|
        marked(ids, pressed).contains(b) == recognized_down.difference(was_held).contains(b) by {
        if marked(ids, pressed).contains(b) {
            let j = choose|j: int| 0 <= j < ids.len() && j < pressed.len() && ids[j] == b
                && pressed[j];
            assert(ids.contains(b));
            assert(down.contains(b));
            lemma_marked_index(ids, old_held, j);
        }
        if recognized_down.difference(was_held).contains(b) {
            let j = choose|j: int| 0 <= j < ids.len() && ids[j] == b;
            lemma_marked_index(ids, old_held, j);
            assert(pressed[j]);
            assert(marked(ids, pressed).contains(b));
        }
    }
    assert forall|b: ButtonId|
        marked(ids, released).contains(b) == was_held.difference(down.to_set()).contains(b) by {
        if marked(ids, released).contains(b) {
            let j = choose|j: int| 0 <= j < ids.len() && j < released.len() && ids[j] == b
                && released[j];
            lemma_marked_index(ids, old_held, j);
        }
        if was_held.difference(down.to_set()).contains(b) {
            let j = choose|j: int| 0 <= j < ids.len() && j < old_held.len() && ids[j] == b
                && old_held[j];
            assert(released[j]);
            assert(marked(ids, released).contains(b));
        }
    }
    assert(marked(ids, held) =~= recognized_down);
    assert(marked(ids, pressed) =~= recognized_down.difference(was_held));
    assert(marked(ids, released) =~= was_held.difference(down.to_set()));
}

/// Whether `mask` is set at the position `button` occupies in `ids`, by
/// linear search; reports false for an identifier not in `ids`.
fn lookup(ids: &Vec<ButtonId>, mask: &Vec<bool>, button: ButtonId) -> (flagged: bool)
    requires
        ids@.no_duplicates(),
        mask@.len() == ids@.len(),
    ensures
        flagged == marked(ids@, mask@).contains(button),
{
    let n = ids.len();
    let mut i: usize = 0;
    while i < n
        invariant
            ids@.no_duplicates(),
            mask@.len() == ids@.len(),
            n == ids@.len(),
            i <= n,
            forall|j: int| 0 <= j < i ==> ids@[j] != button,
        decreases n - i,
    {
        if ids[i] == button {
            proof {
                lemma_marked_index(ids@, mask@, i as int);
            }
            return mask[i];
        }
        i += 1;
    }
    proof {
        if ids@.contains(button) {
            let j = choose|j: int| 0 <= j < ids@.len() && ids@[j] == button;
            assert(false);
        }
        lemma_marked_unrecognized(ids@, mask@, button);
    }
    false
}

/// A vector of `n` cleared flags.
fn all_clear(n: usize) -> (flags: Vec<bool>)
    ensures
        flags@.len() == n,
        forall|i: int| 0 <= i < n ==> !flags@[i],
{
    let mut flags: Vec<bool> = Vec::new();
    while flags.len() < n
        invariant
            flags@.len() <= n,
            forall|i: int| 0 <= i < flags@.len() ==> !flags@[i],
        decreases n - flags@.len(),
    {
        flags.push(false);
    }
    flags
}

} // verus!
