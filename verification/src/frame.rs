//! One tick of the contact pipeline as a state machine.
//!
//! The host owns the bodies and does the arithmetic; the frame decides what
//! is tested and applied, and in which order. A tick starts with
//! [`Event::Begin`]. The frame then asks for one [`Action`] at a time and
//! takes the host's answer as the next [`Event`]: first an overlap test for
//! every pair of marbles and for every marble at every wall, then, from the
//! deepest contact to the shallowest, a fresh test of each contact and, where
//! the bodies still overlap, the response to it.

use vstd::prelude::*;
use crate::collision::{deepest_first, lemma_sorted_by_depth, sorted_by_depth, Contact, Mtv};
use crate::geom::Vec3;
use crate::scan::{all_pairs, all_walls, found, pair_row, pair_rows, wall_row, wall_rows};

verus! {

/// What the host reports to the frame.
#[derive(Clone, Copy, PartialEq, Eq, Debug)]
pub enum Event {
    /// A new tick, over this many walls and marbles.
    Begin { walls: usize, marbles: usize },
    /// The outcome of the overlap test that was asked for.
    Tested(Option<Mtv>),
    /// The response that was asked for has been applied.
    Applied,
}

/// What the frame asks of the host.
#[derive(Clone, Copy, PartialEq, Eq, Debug)]
pub enum Action {
    /// Test the marbles `a` and `b` for overlap.
    TestMarbles { a: usize, b: usize },
    /// Test the marble `a` against the wall `b`.
    TestWall { a: usize, b: usize },
    /// Move the marble `a` by `disp`, out of the wall, and add `disp` to its
    /// velocity.
    PushOut { a: usize, disp: Vec3 },
    /// Let the marbles `a` and `b`, which overlap by `disp`, collide
    /// elastically. With the masses `m1` and `m2` and the velocities `v1` and
    /// `v2`, `a` leaves at `w1 = (m1*v1 + 2*m2*v2 - m2*v1) / (m1 + m2)` and `b`
    /// at `w2 = v1 + w1 - v2`. `a` moves back by its share of `disp` and `b`
    /// on by its own: `|w1|^2 / |w1 + w2|^2` and `|w2|^2 / |w1 + w2|^2`, or
    /// half each, as `share_displacement` decides.
    Bounce { a: usize, b: usize, disp: Vec3 },
    /// The tick is over.
    Done,
}

/// Where a tick stands.
#[derive(Clone, Copy, PartialEq, Eq, Debug)]
pub enum Stage {
    /// No tick is under way.
    Idle,
    /// Gathering: the marbles `a` and `b` are being tested.
    PairScan { a: usize, b: usize },
    /// Gathering: the marble `a` is being tested against the wall `b`.
    WallScan { a: usize, b: usize },
    /// Resolving: the wall contact `k` is being tested again.
    WallRetest { k: usize },
    /// Resolving: the wall contact `k` still holds, by `disp`.
    WallPush { k: usize, disp: Vec3 },
    /// Resolving: the marble contact `k` is being tested again.
    PairRetest { k: usize },
    /// Resolving: the marble contact `k` still holds, by `disp`.
    PairBounce { k: usize, disp: Vec3 },
}

/// A frame as a mathematical value.
pub struct FrameView {
    pub walls: usize,
    pub marbles: usize,
    pub stage: Stage,
    pub wm: Seq<Contact<usize>>,
    pub mm: Seq<Contact<usize>>,
}

impl FrameView {
    /// The frame between ticks, before the first of them.
    pub open spec fn idle() -> FrameView {
        FrameView { walls: 0, marbles: 0, stage: Stage::Idle, wm: Seq::empty(), mm: Seq::empty() }
    }

    /// The same frame at another stage.
    pub open spec fn at(self, stage: Stage) -> FrameView {
        FrameView { stage, ..self }
    }

    /// Gathering starts with the marbles 0 and 1, where there are two.
    pub open spec fn enter_pair_scan(self) -> FrameView {
        if self.marbles >= 2 {
            self.at(Stage::PairScan { a: 0, b: 1 })
        } else {
            self.enter_wall_scan()
        }
    }

    /// Gathering goes on with the marble 0 at the wall 0, where both exist.
    pub open spec fn enter_wall_scan(self) -> FrameView {
        if self.walls >= 1 && self.marbles >= 1 {
            self.at(Stage::WallScan { a: 0, b: 0 })
        } else {
            self.enter_resolution()
        }
    }

    /// Resolution starts by ordering both lists, the deepest contact first.
    pub open spec fn enter_resolution(self) -> FrameView {
        FrameView { wm: sorted_by_depth(self.wm), mm: sorted_by_depth(self.mm), ..self }.seek_wall(
            0,
        )
    }

    /// Resolution goes on with the wall contact `k`, or with the marble
    /// contacts when the wall contacts are through.
    pub open spec fn seek_wall(self, k: int) -> FrameView {
        if k < self.wm.len() {
            self.at(Stage::WallRetest { k: k as usize })
        } else {
            self.seek_pair(0)
        }
    }

    /// Resolution goes on with the marble contact `k`, or ends the tick.
    pub open spec fn seek_pair(self, k: int) -> FrameView {
        if k < self.mm.len() {
            self.at(Stage::PairRetest { k: k as usize })
        } else {
            self.at(Stage::Idle)
        }
    }

    /// The frame after `event`. An event that does not answer what the frame
    /// has asked for leaves it as it is.
    pub open spec fn after(self, event: Event) -> FrameView {
        match event {
            Event::Begin { walls, marbles } => FrameView {
                walls,
                marbles,
                stage: Stage::Idle,
                wm: Seq::empty(),
                mm: Seq::empty(),
            }.enter_pair_scan(),
            Event::Tested(hit) => match self.stage {
                Stage::PairScan { a, b } => {
                    let s = FrameView { mm: found(self.mm, a, b, hit), ..self };
                    if b + 1 < s.marbles {
                        s.at(Stage::PairScan { a, b: (b + 1) as usize })
                    } else if a + 2 < s.marbles {
                        s.at(Stage::PairScan { a: (a + 1) as usize, b: (a + 2) as usize })
                    } else {
                        s.enter_wall_scan()
                    }
                },
                Stage::WallScan { a, b } => {
                    let s = FrameView { wm: found(self.wm, a, b, hit), ..self };
                    if a + 1 < s.marbles {
                        s.at(Stage::WallScan { a: (a + 1) as usize, b })
                    } else if b + 1 < s.walls {
                        s.at(Stage::WallScan { a: 0, b: (b + 1) as usize })
                    } else {
                        s.enter_resolution()
                    }
                },
                Stage::WallRetest { k } => match hit {
                    Some(mtv) => self.at(Stage::WallPush { k, disp: mtv.vector }),
                    None => self.seek_wall(k + 1),
                },
                Stage::PairRetest { k } => match hit {
                    Some(mtv) => self.at(Stage::PairBounce { k, disp: mtv.vector }),
                    None => self.seek_pair(k + 1),
                },
                _ => self,
            },
            Event::Applied => match self.stage {
                Stage::WallPush { k, disp } => self.seek_wall(k + 1),
                Stage::PairBounce { k, disp } => self.seek_pair(k + 1),
                _ => self,
            },
        }
    }

    /// What the frame asks of the host at this stage.
    pub open spec fn pending(self) -> Action {
        match self.stage {
            Stage::Idle => Action::Done,
            Stage::PairScan { a, b } => Action::TestMarbles { a, b },
            Stage::WallScan { a, b } => Action::TestWall { a, b },
            Stage::WallRetest { k } => Action::TestWall {
                a: self.wm[k as int].a,
                b: self.wm[k as int].b,
            },
            Stage::WallPush { k, disp } => Action::PushOut { a: self.wm[k as int].a, disp },
            Stage::PairRetest { k } => Action::TestMarbles {
                a: self.mm[k as int].a,
                b: self.mm[k as int].b,
            },
            Stage::PairBounce { k, disp } => Action::Bounce {
                a: self.mm[k as int].a,
                b: self.mm[k as int].b,
                disp,
            },
        }
    }

    /// Every contact names bodies that exist, and a marble contact names the
    /// lower marble first.
    pub open spec fn contacts_in_range(self) -> bool {
        &&& forall|i: int|
            0 <= i < self.wm.len() ==> (#[trigger] self.wm[i]).a < self.marbles && self.wm[i].b
                < self.walls
        &&& forall|i: int|
            0 <= i < self.mm.len() ==> (#[trigger] self.mm[i]).a < self.mm[i].b < self.marbles
    }

    /// Both lists are of a length that a machine can hold.
    pub open spec fn fits(self) -> bool {
        self.wm.len() <= usize::MAX && self.mm.len() <= usize::MAX
    }

    /// Both lists have the deepest contact first.
    pub open spec fn ordered(self) -> bool {
        deepest_first(self.wm) && deepest_first(self.mm)
    }

    /// What holds of a frame at every moment.
    pub open spec fn wf(self) -> bool {
        &&& self.contacts_in_range()
        &&& match self.stage {
            Stage::Idle => self.ordered(),
            Stage::PairScan { a, b } => a < b < self.marbles && self.wm.len() == 0,
            Stage::WallScan { a, b } => a < self.marbles && b < self.walls,
            Stage::WallRetest { k } => k < self.wm.len() && self.ordered(),
            Stage::WallPush { k, disp } => k < self.wm.len() && self.ordered(),
            Stage::PairRetest { k } => k < self.mm.len() && self.ordered(),
            Stage::PairBounce { k, disp } => k < self.mm.len() && self.ordered(),
        }
    }
}

/// What comes out of sorting was in the list.
pub proof fn lemma_sorted_members(s: Seq<Contact<usize>>)
    ensures
        forall|i: int|
            0 <= i < sorted_by_depth(s).len() ==> s.contains(#[trigger] sorted_by_depth(s)[i]),
{
    let t = sorted_by_depth(s);
    lemma_sorted_by_depth(s);
    assert forall|i: int| 0 <= i < t.len() implies s.contains(#[trigger] t[i]) by {
        t.to_multiset_ensures();
        s.to_multiset_ensures();
        assert(t.contains(t[i]));
        assert(t.to_multiset().count(t[i]) > 0);
    }
}

/// Whatever the host reports, a frame stays well formed.
pub proof fn lemma_after_keeps_wf(s: FrameView, event: Event)
    requires
        s.wf(),
    ensures
        s.after(event).wf(),
{
    lemma_sorted_members(s.wm);
    lemma_sorted_members(s.mm);
    lemma_sorted_by_depth(s.wm);
    lemma_sorted_by_depth(s.mm);
    let empty = Seq::<Contact<usize>>::empty();
    assert(sorted_by_depth(empty) =~= empty);
    match event {
        Event::Tested(hit) => {
            match s.stage {
                Stage::PairScan { a, b } => {
                    let grown = found(s.mm, a, b, hit);
                    lemma_sorted_members(grown);
                    lemma_sorted_by_depth(grown);
                },
                Stage::WallScan { a, b } => {
                    let grown = found(s.wm, a, b, hit);
                    lemma_sorted_members(grown);
                    lemma_sorted_by_depth(grown);
                },
                _ => {},
            }
        },
        _ => {},
    }
}

/// Every action that a frame asks for names bodies that exist, and two
/// different marbles with the lower one first; the tick is over exactly
/// when the frame is idle.
pub proof fn lemma_pending_in_range(s: FrameView)
    requires
        s.wf(),
    ensures
        match s.pending() {
            Action::TestMarbles { a, b } => a < b < s.marbles,
            Action::TestWall { a, b } => a < s.marbles && b < s.walls,
            Action::PushOut { a, disp } => a < s.marbles,
            Action::Bounce { a, b, disp } => a < b < s.marbles,
            Action::Done => s.stage is Idle,
        },
{
}

/// The frame after a row of events, taken one after the other.
pub open spec fn run(s: FrameView, events: Seq<Event>) -> FrameView
    decreases events.len(),
{
    if events.len() == 0 {
        s
    } else {
        run(s, events.drop_last()).after(events.last())
    }
}

/// A row of events keeps a frame well formed.
pub proof fn lemma_run_keeps_wf(s: FrameView, events: Seq<Event>)
    requires
        s.wf(),
    ensures
        run(s, events).wf(),
    decreases events.len(),
{
    if events.len() > 0 {
        lemma_run_keeps_wf(s, events.drop_last());
        lemma_after_keeps_wf(run(s, events.drop_last()), events.last());
    }
}

/// Nothing of a tick outlasts the start of the next one: whatever two frames
/// held before, after the same `Begin` and the same events they are the same
/// frame, and so ask for the same action.
pub proof fn lemma_tick_forgets_the_past(
    s1: FrameView,
    s2: FrameView,
    walls: usize,
    marbles: usize,
    events: Seq<Event>,
)
    ensures
        run(s1.after(Event::Begin { walls, marbles }), events) == run(
            s2.after(Event::Begin { walls, marbles }),
            events,
        ),
        run(s1.after(Event::Begin { walls, marbles }), events).pending() == run(
            s2.after(Event::Begin { walls, marbles }),
            events,
        ).pending(),
{
}

impl FrameView {
    /// The frame holds what a tick over bodies whose overlap tests come out
    /// as `pairs` and `walls` say has gathered so far: while it gathers, the
    /// contact of every pair that it has passed, in the order of the scan;
    /// from then on the contacts of all pairs, the deepest first.
    pub open spec fn agrees(
        self,
        pairs: spec_fn(usize, usize) -> Option<Mtv>,
        walls: spec_fn(usize, usize) -> Option<Mtv>,
    ) -> bool {
        match self.stage {
            Stage::PairScan { a, b } => {
                &&& self.mm == pair_rows(self.marbles, a as int, pairs) + pair_row(
                    a,
                    b as int,
                    pairs,
                )
                &&& self.wm == Seq::<Contact<usize>>::empty()
            },
            Stage::WallScan { a, b } => {
                &&& self.mm == all_pairs(self.marbles, pairs)
                &&& self.wm == wall_rows(self.marbles, b as int, walls) + wall_row(
                    b,
                    a as int,
                    walls,
                )
            },
            _ => {
                &&& self.mm == sorted_by_depth(all_pairs(self.marbles, pairs))
                &&& self.wm == sorted_by_depth(all_walls(self.walls, self.marbles, walls))
            },
        }
    }

    /// The event by which the host answers the pending test of a gathering
    /// frame, where its tests come out as `pairs` and `walls` say.
    pub open spec fn answer(
        self,
        pairs: spec_fn(usize, usize) -> Option<Mtv>,
        walls: spec_fn(usize, usize) -> Option<Mtv>,
    ) -> Event {
        match self.stage {
            Stage::PairScan { a, b } => Event::Tested(pairs(a, b)),
            Stage::WallScan { a, b } => Event::Tested(walls(a, b)),
            _ => Event::Applied,
        }
    }

    /// The frame is between gathering and the end of the tick.
    pub open spec fn resolving(self) -> bool {
        self.stage is WallRetest || self.stage is WallPush || self.stage is PairRetest
            || self.stage is PairBounce
    }
}

proof fn lemma_no_marbles_no_wall_contacts(b: int, test: spec_fn(usize, usize) -> Option<Mtv>)
    ensures
        wall_rows(0, b, test) == Seq::<Contact<usize>>::empty(),
    decreases b,
{
    if b > 0 {
        lemma_no_marbles_no_wall_contacts(b - 1, test);
        assert(wall_rows(0, b, test) =~= Seq::<Contact<usize>>::empty());
    }
}

proof fn lemma_few_marbles_no_pair_contacts(
    marbles: usize,
    test: spec_fn(usize, usize) -> Option<Mtv>,
)
    requires
        marbles < 2,
    ensures
        pair_rows(marbles, marbles as int, test) == Seq::<Contact<usize>>::empty(),
{
    if marbles == 1 {
        assert(pair_rows(1, 0, test) =~= Seq::<Contact<usize>>::empty());
        assert(pair_row(0, 1, test) =~= Seq::<Contact<usize>>::empty());
        assert(pair_rows(1, 1, test) =~= Seq::<Contact<usize>>::empty());
    }
}

/// A tick starts in agreement with any overlap tests: nothing is gathered
/// yet, and where there is nothing to test, nothing will be.
pub proof fn lemma_begin_agrees(
    s: FrameView,
    walls: usize,
    marbles: usize,
    pair_test: spec_fn(usize, usize) -> Option<Mtv>,
    wall_test: spec_fn(usize, usize) -> Option<Mtv>,
)
    ensures
        s.after(Event::Begin { walls, marbles }).agrees(pair_test, wall_test),
        s.after(Event::Begin { walls, marbles }).walls == walls,
        s.after(Event::Begin { walls, marbles }).marbles == marbles,
{
    let empty = Seq::<Contact<usize>>::empty();
    assert(sorted_by_depth(empty) =~= empty);
    assert(pair_rows(marbles, 0, pair_test) + pair_row(0, 1, pair_test) =~= empty);
    assert(wall_rows(marbles, 0, wall_test) + wall_row(0, 0, wall_test) =~= empty);
    if marbles < 2 {
        lemma_few_marbles_no_pair_contacts(marbles, pair_test);
    }
    if marbles == 0 {
        lemma_no_marbles_no_wall_contacts(walls as int, wall_test);
    }
}

impl FrameView {
    /// The event is one that a host, whose overlap tests come out as
    /// `pairs` and `walls` say while the frame gathers, may report within
    /// a tick: it starts no new tick, and if it answers a test of the
    /// gathering, it is the answer that they give.
    pub open spec fn faithful(
        self,
        event: Event,
        pairs: spec_fn(usize, usize) -> Option<Mtv>,
        walls: spec_fn(usize, usize) -> Option<Mtv>,
    ) -> bool {
        &&& !(event is Begin)
        &&& (self.stage is PairScan || self.stage is WallScan) && event is Tested ==> event
            == self.answer(pairs, walls)
    }
}

/// Gathering is the brute-force scan, and resolution works on what it
/// gathered: as long as the host answers each test of the gathering as
/// `pair_test` and `wall_test` say, the frame stays in agreement with them.
/// So resolution starts on the contacts of all pairs of marbles and of all
/// marbles at all walls, no pair left out and none taken twice, and keeps
/// them to the end of the tick.
pub proof fn lemma_agreement_lasts(
    s: FrameView,
    event: Event,
    pair_test: spec_fn(usize, usize) -> Option<Mtv>,
    wall_test: spec_fn(usize, usize) -> Option<Mtv>,
)
    requires
        s.wf(),
        s.agrees(pair_test, wall_test),
        s.faithful(event, pair_test, wall_test),
    ensures
        s.after(event).agrees(pair_test, wall_test),
        s.after(event).walls == s.walls,
        s.after(event).marbles == s.marbles,
{
    if (s.stage is PairScan || s.stage is WallScan) && event is Tested {
        lemma_gathering_agrees(s, pair_test, wall_test);
    }
}

/// All the events of `events` are faithful, each to the frame that the ones
/// before it have led to.
pub open spec fn faithful_run(
    s: FrameView,
    events: Seq<Event>,
    pairs: spec_fn(usize, usize) -> Option<Mtv>,
    walls: spec_fn(usize, usize) -> Option<Mtv>,
) -> bool
    decreases events.len(),
{
    events.len() > 0 ==> faithful_run(s, events.drop_last(), pairs, walls) && run(
        s,
        events.drop_last(),
    ).faithful(events.last(), pairs, walls)
}

/// A tick gathers what the overlap tests give, and nothing else: however
/// far a tick over `walls` walls and `marbles` marbles has come, the frame
/// agrees with the tests by which the host has answered, and is a frame over
/// that many walls and marbles.
pub proof fn lemma_tick_agrees(
    s: FrameView,
    walls: usize,
    marbles: usize,
    events: Seq<Event>,
    pair_test: spec_fn(usize, usize) -> Option<Mtv>,
    wall_test: spec_fn(usize, usize) -> Option<Mtv>,
)
    requires
        faithful_run(s.after(Event::Begin { walls, marbles }), events, pair_test, wall_test),
    ensures
        run(s.after(Event::Begin { walls, marbles }), events).agrees(pair_test, wall_test),
        run(s.after(Event::Begin { walls, marbles }), events).walls == walls,
        run(s.after(Event::Begin { walls, marbles }), events).marbles == marbles,
        run(s.after(Event::Begin { walls, marbles }), events).wf(),
    decreases events.len(),
{
    let start = s.after(Event::Begin { walls, marbles });
    lemma_begin_agrees(s, walls, marbles, pair_test, wall_test);
    lemma_begin_is_wf(s, walls, marbles);
    if events.len() > 0 {
        lemma_tick_agrees(s, walls, marbles, events.drop_last(), pair_test, wall_test);
        let before = run(start, events.drop_last());
        lemma_after_keeps_wf(before, events.last());
        lemma_agreement_lasts(before, events.last(), pair_test, wall_test);
    }
}

/// A tick starts well formed, whatever the frame held before.
pub proof fn lemma_begin_is_wf(s: FrameView, walls: usize, marbles: usize)
    ensures
        s.after(Event::Begin { walls, marbles }).wf(),
{
    let empty = Seq::<Contact<usize>>::empty();
    assert(sorted_by_depth(empty) =~= empty);
}

proof fn lemma_gathering_agrees(
    s: FrameView,
    pair_test: spec_fn(usize, usize) -> Option<Mtv>,
    wall_test: spec_fn(usize, usize) -> Option<Mtv>,
)
    requires
        s.wf(),
        s.agrees(pair_test, wall_test),
        s.stage is PairScan || s.stage is WallScan,
    ensures
        s.after(s.answer(pair_test, wall_test)).agrees(pair_test, wall_test),
        s.after(s.answer(pair_test, wall_test)).walls == s.walls,
        s.after(s.answer(pair_test, wall_test)).marbles == s.marbles,
{
    let empty = Seq::<Contact<usize>>::empty();
    let n = s.marbles;
    let t = s.after(s.answer(pair_test, wall_test));
    assert(sorted_by_depth(empty) =~= empty);
    match s.stage {
        Stage::PairScan { a, b } => {
            let before = pair_rows(n, a as int, pair_test);
            let row = pair_row(a, b as int, pair_test);
            let grown = pair_row(a, b + 1, pair_test);
            assert(found(before + row, a, b, pair_test(a, b)) =~= before + grown);
            if b + 1 < n {
            } else {
                assert(pair_rows(n, a + 1, pair_test) == before + grown);
                assert(pair_row((a + 1) as usize, a + 2, pair_test) =~= empty);
                assert(pair_rows(n, a + 1, pair_test) + empty =~= pair_rows(n, a + 1, pair_test));
                if a + 2 < n {
                } else {
                    assert(pair_row((n - 1) as usize, n as int, pair_test) =~= empty);
                    assert(pair_rows(n, n as int, pair_test) =~= pair_rows(n, a + 1, pair_test));
                    assert(wall_rows(n, 0, wall_test) + wall_row(0, 0, wall_test) =~= empty);
                }
            }
        },
        Stage::WallScan { a, b } => {
            let before = wall_rows(n, b as int, wall_test);
            let row = wall_row(b, a as int, wall_test);
            let grown = wall_row(b, a + 1, wall_test);
            assert(found(before + row, a, b, wall_test(a, b)) =~= before + grown);
            if a + 1 < n {
            } else {
                assert(wall_rows(n, b + 1, wall_test) == before + grown);
                assert(wall_row((b + 1) as usize, 0, wall_test) =~= empty);
                assert(wall_rows(n, b + 1, wall_test) + empty =~= wall_rows(n, b + 1, wall_test));
            }
        },
        _ => {},
    }
}

impl FrameView {
    /// How many contacts resolution has behind it, the walls' contacts
    /// counted before the marbles'.
    pub open spec fn resolved(self) -> int {
        match self.stage {
            Stage::WallRetest { k } => k as int,
            Stage::WallPush { k, disp } => k as int,
            Stage::PairRetest { k } => self.wm.len() + k,
            Stage::PairBounce { k, disp } => self.wm.len() + k,
            _ => (self.wm.len() + self.mm.len()) as int,
        }
    }

    /// The event closes the contact at hand: a test that finds no overlap
    /// any more, or a response that has been applied.
    pub open spec fn closes(self, event: Event) -> bool {
        match (self.stage, event) {
            (Stage::WallRetest { k }, Event::Tested(None)) => true,
            (Stage::PairRetest { k }, Event::Tested(None)) => true,
            (Stage::WallPush { k, disp }, Event::Applied) => true,
            (Stage::PairBounce { k, disp }, Event::Applied) => true,
            _ => false,
        }
    }
}

/// Resolution takes the contacts one by one as they are ordered, all of the
/// walls' before the marbles', and in each list the deepest first: it
/// changes neither list, every contact is at least as deep as those behind
/// it in its list, and an event moves the frame on by one contact where it
/// closes the contact at hand, and by none where it does not.
pub proof fn lemma_resolution_order(s: FrameView, event: Event)
    requires
        s.wf(),
        s.fits(),
        s.resolving(),
        !(event is Begin),
    ensures
        deepest_first(s.wm),
        deepest_first(s.mm),
        s.after(event).wm == s.wm,
        s.after(event).mm == s.mm,
        s.after(event).resolving() || s.after(event).stage is Idle,
        s.after(event).resolved() == s.resolved() + (if s.closes(event) {
            1int
        } else {
            0int
        }),
        0 <= s.resolved() < s.wm.len() + s.mm.len(),
{
}

/// A response is asked for only on a fresh test, and with what that test
/// has just found: the frame asks to push a marble out of a wall, or to let
/// two marbles collide, exactly when the test of that contact, made again,
/// still finds an overlap, and it hands on that overlap, not the one that
/// was gathered.
pub proof fn lemma_response_is_fresh(s: FrameView, event: Event)
    requires
        s.wf(),
    ensures
        s.after(event).pending() != s.pending() ==> match s.after(event).pending() {
            Action::PushOut { a, disp } => exists|k: usize, mtv: Mtv|
                s.stage == (Stage::WallRetest { k }) && event == Event::Tested(Some(mtv)) && a
                    == s.wm[k as int].a && disp == mtv.vector,
            Action::Bounce { a, b, disp } => exists|k: usize, mtv: Mtv|
                s.stage == (Stage::PairRetest { k }) && event == Event::Tested(Some(mtv)) && a
                    == s.mm[k as int].a && b == s.mm[k as int].b && disp == mtv.vector,
            _ => true,
        },
{
}

/// The number of pairs among `k + 1` bodies: `1 + 2 + ... + k`.
pub open spec fn triangle(k: int) -> int
    decreases k,
{
    if k <= 0 {
        0
    } else {
        k + triangle(k - 1)
    }
}

impl FrameView {
    /// How many overlap tests the gathering has still to ask for, the
    /// pending one among them.
    pub open spec fn tests_left(self) -> int {
        match self.stage {
            Stage::PairScan { a, b } => (self.marbles - b) + triangle(self.marbles - 2 - a)
                + self.walls * self.marbles,
            Stage::WallScan { a, b } => (self.marbles - a) + (self.walls - 1 - b) * self.marbles,
            _ => 0,
        }
    }

    /// The event answers what the frame has asked for.
    pub open spec fn answers(self, event: Event) -> bool {
        match (self.stage, event) {
            (Stage::PairScan { a, b }, Event::Tested(hit)) => true,
            (Stage::WallScan { a, b }, Event::Tested(hit)) => true,
            (Stage::WallRetest { k }, Event::Tested(hit)) => true,
            (Stage::PairRetest { k }, Event::Tested(hit)) => true,
            (Stage::WallPush { k, disp }, Event::Applied) => true,
            (Stage::PairBounce { k, disp }, Event::Applied) => true,
            _ => false,
        }
    }

    /// How many answers the tick can still take: three for every test that
    /// gathering has to ask for, since each may find a contact that is then
    /// tested again and responded to, and two for every contact that is
    /// gathered and not yet resolved, less one where its test has been
    /// made again.
    pub open spec fn events_left(self) -> int {
        let contacts = self.wm.len() + self.mm.len();
        match self.stage {
            Stage::Idle => 0,
            Stage::PairScan { a, b } => 3 * self.tests_left() + 2 * contacts,
            Stage::WallScan { a, b } => 3 * self.tests_left() + 2 * contacts,
            Stage::WallRetest { k } => 2 * (contacts - self.resolved()),
            Stage::PairRetest { k } => 2 * (contacts - self.resolved()),
            Stage::WallPush { k, disp } => 2 * (contacts - self.resolved()) - 1,
            Stage::PairBounce { k, disp } => 2 * (contacts - self.resolved()) - 1,
        }
    }
}

/// A tick starts with one test to ask for for every pair of marbles and for
/// every marble at every wall.
pub proof fn lemma_begin_counts(s: FrameView, walls: usize, marbles: usize)
    ensures
        s.after(Event::Begin { walls, marbles }).events_left() == 3 * (triangle(marbles - 1)
            + walls * marbles),
{
    let empty = Seq::<Contact<usize>>::empty();
    assert(sorted_by_depth(empty) =~= empty);
    assert(triangle(0) == 0);
    assert(triangle(-1) == 0);
    if marbles >= 2 {
        assert(triangle(marbles - 1) == (marbles - 1) + triangle(marbles - 2));
    } else if marbles == 1 {
        assert(walls * marbles == walls) by (nonlinear_arith)
            requires
                marbles == 1,
        ;
        assert((walls - 1) * marbles == walls - 1) by (nonlinear_arith)
            requires
                marbles == 1,
        ;
    } else {
        assert(walls * marbles == 0) by (nonlinear_arith)
            requires
                marbles == 0,
        ;
    }
}

/// A tick ends: every answer to what the frame has asked for brings it
/// nearer to the end, which is reached when nothing is left; and what is no
/// answer, short of a new `Begin`, changes nothing.
pub proof fn lemma_tick_ends(s: FrameView, event: Event)
    requires
        s.wf(),
        s.fits(),
    ensures
        s.events_left() >= 0,
        s.events_left() == 0 <==> s.stage is Idle,
        s.answers(event) ==> 0 <= s.after(event).events_left() < s.events_left(),
        !s.answers(event) && !(event is Begin) ==> s.after(event) == s,
{
    let n = s.marbles as int;
    let w = s.walls as int;
    lemma_sorted_by_depth(s.wm);
    lemma_sorted_by_depth(s.mm);
    assert(w * n >= 0) by (nonlinear_arith)
        requires
            w >= 0,
            n >= 0,
    ;
    assert(n + (w - 1) * n == w * n) by (nonlinear_arith);
    match s.stage {
        Stage::PairScan { a, b } => {
            lemma_triangle_is_not_negative(n - 2 - a);
            if let Event::Tested(hit) = event {
                let grown = found(s.mm, a, b, hit);
                lemma_sorted_by_depth(grown);
                assert(triangle(n - 2 - a) == if n - 2 - a <= 0 {
                    0
                } else {
                    (n - 2 - a) + triangle(n - 3 - a)
                });
                lemma_triangle_is_not_negative(n - 3 - a);
            }
        },
        Stage::WallScan { a, b } => {
            assert((w - 1 - b) * n >= 0) by (nonlinear_arith)
                requires
                    w - 1 - b >= 0,
                    n >= 0,
            ;
            assert(n + (w - 2 - b) * n == (w - 1 - b) * n) by (nonlinear_arith);
            if let Event::Tested(hit) = event {
                let grown = found(s.wm, a, b, hit);
                lemma_sorted_by_depth(grown);
            }
        },
        _ => {},
    }
}

proof fn lemma_triangle_is_not_negative(k: int)
    ensures
        triangle(k) >= 0,
    decreases k,
{
    if k > 0 {
        lemma_triangle_is_not_negative(k - 1);
    }
}

} // verus!
