//! The per-tick contact set: what overlaps, and in which order it is resolved.

use vstd::prelude::*;
use crate::frame::{lemma_after_keeps_wf, Action, Event, FrameView, Stage};
use crate::geom::Vec3;
use crate::scalar::Scalar;

verus! {

/// A vector that takes two overlapping bodies apart: it points from the first
/// body to the second and is as long as the overlap is deep. With it comes
/// the square of its length, as its host has computed it, by which contacts
/// are ordered.
#[derive(Clone, Copy, PartialEq, Eq, Debug)]
pub struct Mtv {
    pub vector: Vec3,
    pub magnitude2: Scalar,
}

/// An overlap of the bodies `a` and `b`, found at one tick.
#[derive(Copy, Debug)]
pub struct Contact<T: Copy> {
    pub a: T,
    pub b: T,
    pub mtv: Mtv,
}

impl<T: Copy> Clone for Contact<T> {
    fn clone(&self) -> (c: Self)
        ensures
            c == *self,
    {
        *self
    }
}

/// The contacts of one tick: walls against marbles, and marbles against
/// marbles. In a wall contact `a` is the marble and `b` the wall.
pub struct Contacts {
    pub wm: Vec<Contact<usize>>,
    pub mm: Vec<Contact<usize>>,
}

/// How deep a contact is: the place of the squared length of its vector.
pub open spec fn depth(c: Contact<usize>) -> int {
    c.mtv.magnitude2.spec_place()
}

/// Every contact is at least as deep as those behind it.
pub open spec fn deepest_first(s: Seq<Contact<usize>>) -> bool {
    forall|i: int, j: int| 0 <= i < j < s.len() ==> depth(s[i]) >= depth(s[j])
}

/// `c` put into `s` behind every contact that is at least as deep.
pub open spec fn insert_by_depth(s: Seq<Contact<usize>>, c: Contact<usize>) -> Seq<
    Contact<usize>,
>
    decreases s.len(),
{
    if s.len() == 0 {
        seq![c]
    } else if depth(s.last()) >= depth(c) {
        s.push(c)
    } else {
        insert_by_depth(s.drop_last(), c).push(s.last())
    }
}

/// The contacts of `s` from the deepest to the shallowest; contacts of one
/// depth stay in the order in which `s` has them.
pub open spec fn sorted_by_depth(s: Seq<Contact<usize>>) -> Seq<Contact<usize>>
    decreases s.len(),
{
    if s.len() == 0 {
        s
    } else {
        insert_by_depth(sorted_by_depth(s.drop_last()), s.last())
    }
}

/// Where `c` goes in `s`: behind `j` contacts, the last of which is at least
/// as deep as `c`, and before the others, which are all shallower.
proof fn lemma_insert_at(s: Seq<Contact<usize>>, c: Contact<usize>, j: int)
    requires
        0 <= j <= s.len(),
        j > 0 ==> depth(s[j - 1]) >= depth(c),
        forall|k: int| j <= k < s.len() ==> depth(s[k]) < depth(c),
    ensures
        insert_by_depth(s, c) == s.insert(j, c),
    decreases s.len(),
{
    if s.len() == 0 {
        assert(s.insert(j, c) =~= seq![c]);
    } else if j == s.len() {
        assert(s.insert(j, c) =~= s.push(c));
    } else {
        lemma_insert_at(s.drop_last(), c, j);
        assert(s.insert(j, c) =~= s.drop_last().insert(j, c).push(s.last()));
    }
}

/// Inserting keeps the length, the contents and the order.
pub proof fn lemma_insert_by_depth(s: Seq<Contact<usize>>, c: Contact<usize>)
    ensures
        insert_by_depth(s, c).len() == s.len() + 1,
        insert_by_depth(s, c).to_multiset() == s.to_multiset().insert(c),
        deepest_first(s) ==> deepest_first(insert_by_depth(s, c)),
    decreases s.len(),
{
    broadcast use vstd::seq_lib::to_multiset_build;

    if s.len() == 0 {
        assert(seq![c] =~= s.push(c));
    } else if depth(s.last()) >= depth(c) {
    } else {
        let front = s.drop_last();
        let r = insert_by_depth(front, c);
        lemma_insert_by_depth(front, c);
        assert(s =~= front.push(s.last()));
        assert(r.push(s.last()).to_multiset() =~= s.to_multiset().insert(c));
        if deepest_first(s) {
            assert(deepest_first(front)) by {
                assert forall|i: int, j: int| 0 <= i < j < front.len() implies depth(front[i])
                    >= depth(front[j]) by {
                    assert(front[i] == s[i] && front[j] == s[j]);
                }
            }
            let out = r.push(s.last());
            assert forall|i: int, j: int| 0 <= i < j < out.len() implies depth(out[i]) >= depth(
                out[j],
            ) by {
                if j == out.len() - 1 {
                    // whatever stands in front came from `front` or is `c`
                    assert(r.to_multiset().count(r[i]) > 0) by {
                        r.to_multiset_ensures();
                        assert(r.contains(r[i]));
                    }
                    if r[i] != c {
                        assert(front.to_multiset().count(r[i]) > 0);
                        front.to_multiset_ensures();
                        assert(front.contains(r[i]));
                        let k = choose|k: int| 0 <= k < front.len() && front[k] == r[i];
                        assert(s[k] == r[i]);
                        assert(depth(s[k]) >= depth(s[s.len() - 1]));
                    }
                }
            }
        }
    }
}

/// Sorting keeps the length and the contents, and puts the deepest first.
pub proof fn lemma_sorted_by_depth(s: Seq<Contact<usize>>)
    ensures
        sorted_by_depth(s).len() == s.len(),
        sorted_by_depth(s).to_multiset() == s.to_multiset(),
        deepest_first(sorted_by_depth(s)),
    decreases s.len(),
{
    broadcast use vstd::seq_lib::to_multiset_build;

    if s.len() > 0 {
        lemma_sorted_by_depth(s.drop_last());
        lemma_insert_by_depth(sorted_by_depth(s.drop_last()), s.last());
        assert(s =~= s.drop_last().push(s.last()));
    }
}

/// Whether a contact is of the depth `d`.
pub open spec fn at_depth(d: int) -> spec_fn(Contact<usize>) -> bool {
    |c: Contact<usize>| depth(c) == d
}

proof fn lemma_insert_is_stable(s: Seq<Contact<usize>>, c: Contact<usize>, d: int)
    ensures
        insert_by_depth(s, c).filter(at_depth(d)) == (if depth(c) == d {
            s.filter(at_depth(d)).push(c)
        } else {
            s.filter(at_depth(d))
        }),
    decreases s.len(),
{
    let p = at_depth(d);
    if s.len() == 0 {
        assert(seq![c] =~= s.push(c));
        s.lemma_filter_push(c, p);
    } else if depth(s.last()) >= depth(c) {
        s.lemma_filter_push(c, p);
    } else {
        let front = s.drop_last();
        lemma_insert_is_stable(front, c, d);
        assert(s =~= front.push(s.last()));
        front.lemma_filter_push(s.last(), p);
        insert_by_depth(front, c).lemma_filter_push(s.last(), p);
    }
}

/// Sorting is stable: the contacts of any one depth come out in the order
/// in which they went in.
pub proof fn lemma_sort_is_stable(s: Seq<Contact<usize>>, d: int)
    ensures
        sorted_by_depth(s).filter(at_depth(d)) == s.filter(at_depth(d)),
    decreases s.len(),
{
    if s.len() > 0 {
        let front = s.drop_last();
        lemma_sort_is_stable(front, d);
        lemma_insert_is_stable(sorted_by_depth(front), s.last(), d);
        assert(s =~= front.push(s.last()));
        front.lemma_filter_push(s.last(), at_depth(d));
    }
}

/// Sorts `v` from the deepest contact to the shallowest, and keeps contacts
/// of one depth in the order in which they stood.
pub fn sort_by_depth(v: &mut Vec<Contact<usize>>)
    ensures
        final(v)@ == sorted_by_depth(old(v)@),
        deepest_first(final(v)@),
        final(v)@.to_multiset() == old(v)@.to_multiset(),
        forall|d: int| #[trigger] final(v)@.filter(at_depth(d)) == old(v)@.filter(at_depth(d)),
{
    let n: usize = v.len();
    let mut i: usize = 0;
    while i < n
        invariant
            i <= n,
            v@.len() == n,
            old(v)@.len() == n,
            v@.subrange(0, i as int) == sorted_by_depth(old(v)@.subrange(0, i as int)),
            forall|k: int| i <= k < n ==> v@[k] == old(v)@[k],
        decreases n - i,
    {
        let c: Contact<usize> = v[i];
        let ghost front = v@.subrange(0, i as int);
        let key: i64 = c.mtv.magnitude2.place();
        let mut j: usize = i;
        while j > 0 && v[j - 1].mtv.magnitude2.place() < key
            invariant
                j <= i < n,
                v@.len() == n,
                old(v)@.len() == n,
                front.len() == i,
                key == depth(c),
                forall|k: int| 0 <= k < j ==> v@[k] == front[k],
                forall|k: int| j < k <= i ==> v@[k] == front[k - 1],
                forall|k: int| i < k < n ==> v@[k] == old(v)@[k],
                forall|k: int| j <= k < i ==> depth(front[k]) < depth(c),
            decreases j,
        {
            let shifted: Contact<usize> = v[j - 1];
            v.set(j, shifted);
            j = j - 1;
        }
        v.set(j, c);
        proof {
            lemma_insert_at(front, c, j as int);
            assert(v@.subrange(0, i as int + 1) =~= front.insert(j as int, c));
            let grown = old(v)@.subrange(0, i as int + 1);
            assert(grown.drop_last() =~= old(v)@.subrange(0, i as int));
            assert(grown.last() == c);
        }
        i = i + 1;
    }
    proof {
        assert(v@.subrange(0, n as int) =~= v@);
        assert(old(v)@.subrange(0, n as int) =~= old(v)@);
        lemma_sorted_by_depth(old(v)@);
        assert forall|d: int| #[trigger]
            v@.filter(at_depth(d)) == old(v)@.filter(at_depth(d)) by {
            lemma_sort_is_stable(old(v)@, d);
        }
    }
}

impl Contacts {
    /// An empty contact set.
    pub fn new() -> (s: Contacts)
        ensures
            s.wm@ == Seq::<Contact<usize>>::empty(),
            s.mm@ == Seq::<Contact<usize>>::empty(),
    {
        Contacts { wm: Vec::new(), mm: Vec::new() }
    }

    /// Orders both lists from the deepest contact to the shallowest; each
    /// keeps its contacts, and those of one depth in the order that they had.
    pub fn sort(&mut self)
        ensures
            final(self).wm@ == sorted_by_depth(old(self).wm@),
            final(self).mm@ == sorted_by_depth(old(self).mm@),
            deepest_first(final(self).wm@),
            deepest_first(final(self).mm@),
            final(self).wm@.to_multiset() == old(self).wm@.to_multiset(),
            final(self).mm@.to_multiset() == old(self).mm@.to_multiset(),
    {
        sort_by_depth(&mut self.wm);
        sort_by_depth(&mut self.mm);
    }

    /// Forgets every contact.
    pub fn clear(&mut self)
        ensures
            final(self).wm@ == Seq::<Contact<usize>>::empty(),
            final(self).mm@ == Seq::<Contact<usize>>::empty(),
    {
        self.wm.clear();
        self.mm.clear();
    }
}

/// How the vector that parts two colliding marbles is shared out.
#[derive(Clone, Copy, PartialEq, Eq, Debug)]
pub enum Share {
    /// Each marble takes the part that the square of its speed after the
    /// collision has in `total2`.
    Proportional,
    /// Each marble takes half.
    Even,
}

/// Decides how two colliding marbles share the vector that parts them,
/// from `total2`, the squared length of the sum of their velocities after
/// the collision: in proportion to the squares of their speeds, and evenly
/// where that sum is zero and a proportion would divide by zero.
pub fn share_displacement(total2: Scalar) -> (share: Share)
    ensures
        share == (if total2.zero() {
            Share::Even
        } else {
            Share::Proportional
        }),
{
    if total2.is_zero() {
        Share::Even
    } else {
        Share::Proportional
    }
}

/// The state of the contact pipeline: the contact set, which is reused from
/// tick to tick, and how far the tick under way has come.
pub struct Frame {
    walls: usize,
    marbles: usize,
    stage: Stage,
    contacts: Contacts,
}

impl View for Frame {
    type V = FrameView;

    closed spec fn view(&self) -> FrameView {
        FrameView {
            walls: self.walls,
            marbles: self.marbles,
            stage: self.stage,
            wm: self.contacts.wm@,
            mm: self.contacts.mm@,
        }
    }
}

impl Frame {
    /// A frame between ticks, which keeps its contacts in `contacts`; what
    /// `contacts` held is forgotten.
    pub fn new(contacts: Contacts) -> (f: Frame)
        ensures
            f@ == FrameView::idle(),
            f@.wf(),
            f@.fits(),
    {
        let mut contacts = contacts;
        contacts.clear();
        Frame { walls: 0, marbles: 0, stage: Stage::Idle, contacts }
    }

    /// The number of walls of the tick.
    pub fn walls(&self) -> (n: usize)
        ensures
            n == self@.walls,
    {
        self.walls
    }

    /// The number of marbles of the tick.
    pub fn marbles(&self) -> (n: usize)
        ensures
            n == self@.marbles,
    {
        self.marbles
    }

    /// Where the tick stands.
    pub fn stage(&self) -> (stage: Stage)
        ensures
            stage == self@.stage,
    {
        self.stage
    }

    /// The contacts of the tick: as gathered while the frame gathers, and
    /// from the deepest to the shallowest once it resolves.
    pub fn contacts(&self) -> (contacts: &Contacts)
        ensures
            contacts.wm@ == self@.wm,
            contacts.mm@ == self@.mm,
    {
        &self.contacts
    }

    /// Gives the contact set back.
    pub fn into_contacts(self) -> (contacts: Contacts)
        ensures
            contacts.wm@ == self@.wm,
            contacts.mm@ == self@.mm,
    {
        self.contacts
    }

    /// What the frame asks of the host.
    pub fn pending(&self) -> (action: Action)
        requires
            self@.wf(),
        ensures
            action == self@.pending(),
    {
        match self.stage {
            Stage::Idle => Action::Done,
            Stage::PairScan { a, b } => Action::TestMarbles { a, b },
            Stage::WallScan { a, b } => Action::TestWall { a, b },
            Stage::WallRetest { k } => Action::TestWall {
                a: self.contacts.wm[k].a,
                b: self.contacts.wm[k].b,
            },
            Stage::WallPush { k, disp } => Action::PushOut { a: self.contacts.wm[k].a, disp },
            Stage::PairRetest { k } => Action::TestMarbles {
                a: self.contacts.mm[k].a,
                b: self.contacts.mm[k].b,
            },
            Stage::PairBounce { k, disp } => Action::Bounce {
                a: self.contacts.mm[k].a,
                b: self.contacts.mm[k].b,
                disp,
            },
        }
    }

    fn enter_pair_scan(&mut self)
        ensures
            final(self)@ == old(self)@.enter_pair_scan(),
    {
        if self.marbles >= 2 {
            self.stage = Stage::PairScan { a: 0, b: 1 };
        } else {
            self.enter_wall_scan();
        }
    }

    fn enter_wall_scan(&mut self)
        ensures
            final(self)@ == old(self)@.enter_wall_scan(),
    {
        if self.walls >= 1 && self.marbles >= 1 {
            self.stage = Stage::WallScan { a: 0, b: 0 };
        } else {
            self.enter_resolution();
        }
    }

    fn enter_resolution(&mut self)
        ensures
            final(self)@ == old(self)@.enter_resolution(),
    {
        self.contacts.sort();
        self.seek_wall(0);
    }

    fn seek_wall(&mut self, k: usize)
        ensures
            final(self)@ == old(self)@.seek_wall(k as int),
    {
        if k < self.contacts.wm.len() {
            self.stage = Stage::WallRetest { k };
        } else {
            self.seek_pair(0);
        }
    }

    fn seek_pair(&mut self, k: usize)
        ensures
            final(self)@ == old(self)@.seek_pair(k as int),
    {
        if k < self.contacts.mm.len() {
            self.stage = Stage::PairRetest { k };
        } else {
            self.stage = Stage::Idle;
        }
    }
}

/// One step of gathering: takes the outcome `hit` of the overlap test that
/// the frame has asked for, keeps the contact where there is one, and moves
/// on to the next pair of bodies; behind the last pair, to resolution.
fn gather_contacts(frame: &mut Frame, hit: Option<Mtv>)
    requires
        old(frame)@.wf(),
        old(frame)@.stage is PairScan || old(frame)@.stage is WallScan,
    ensures
        final(frame)@ == old(frame)@.after(Event::Tested(hit)),
{
    match frame.stage {
        Stage::PairScan { a, b } => {
            if let Some(mtv) = hit {
                frame.contacts.mm.push(Contact { a, b, mtv });
            }
            if b + 1 < frame.marbles {
                frame.stage = Stage::PairScan { a, b: b + 1 };
            } else if a + 2 < frame.marbles {
                frame.stage = Stage::PairScan { a: a + 1, b: a + 2 };
            } else {
                frame.enter_wall_scan();
            }
        },
        Stage::WallScan { a, b } => {
            if let Some(mtv) = hit {
                frame.contacts.wm.push(Contact { a, b, mtv });
            }
            if a + 1 < frame.marbles {
                frame.stage = Stage::WallScan { a: a + 1, b };
            } else if b + 1 < frame.walls {
                frame.stage = Stage::WallScan { a: 0, b: b + 1 };
            } else {
                frame.enter_resolution();
            }
        },
        _ => {},
    }
}

/// One step of resolution: after a fresh test of the contact at hand, asks
/// for the response where the bodies still overlap, by what the test has
/// just found, and passes to the next contact where they do not; after a
/// response, passes to the next contact.
fn restitute(frame: &mut Frame, event: Event)
    requires
        old(frame)@.wf(),
        !(event is Begin),
        !(old(frame)@.stage is PairScan) && !(old(frame)@.stage is WallScan),
    ensures
        final(frame)@ == old(frame)@.after(event),
{
    match (frame.stage, event) {
        (Stage::WallRetest { k }, Event::Tested(Some(mtv))) => {
            frame.stage = Stage::WallPush { k, disp: mtv.vector };
        },
        (Stage::WallRetest { k }, Event::Tested(None)) => {
            assert(k < frame.contacts.wm.len());
            frame.seek_wall(k + 1);
        },
        (Stage::WallPush { k, disp }, Event::Applied) => {
            assert(k < frame.contacts.wm.len());
            frame.seek_wall(k + 1);
        },
        (Stage::PairRetest { k }, Event::Tested(Some(mtv))) => {
            frame.stage = Stage::PairBounce { k, disp: mtv.vector };
        },
        (Stage::PairRetest { k }, Event::Tested(None)) => {
            assert(k < frame.contacts.mm.len());
            frame.seek_pair(k + 1);
        },
        (Stage::PairBounce { k, disp }, Event::Applied) => {
            assert(k < frame.contacts.mm.len());
            frame.seek_pair(k + 1);
        },
        _ => {},
    }
}

/// Takes the host's report and says what it is to do next.
///
/// [`Event::Begin`] starts a tick: the contact set is cleared, then gathered
/// anew test by test, then ordered and resolved contact by contact. The
/// frame after the event is `after(event)` of the frame before it, and the
/// action is what that frame has pending; [`Action::Done`] ends the tick.
pub fn update(frame: &mut Frame, event: Event) -> (action: Action)
    requires
        old(frame)@.wf(),
    ensures
        final(frame)@ == old(frame)@.after(event),
        final(frame)@.wf(),
        final(frame)@.fits(),
        action == final(frame)@.pending(),
{
    proof {
        lemma_after_keeps_wf(frame@, event);
    }
    match event {
        Event::Begin { walls, marbles } => {
            frame.contacts.clear();
            frame.walls = walls;
            frame.marbles = marbles;
            frame.stage = Stage::Idle;
            frame.enter_pair_scan();
        },
        Event::Tested(hit) => {
            match frame.stage {
                Stage::PairScan { a, b } => gather_contacts(frame, hit),
                Stage::WallScan { a, b } => gather_contacts(frame, hit),
                _ => restitute(frame, event),
            }
        },
        Event::Applied => {
            match frame.stage {
                Stage::PairScan { a, b } => {},
                Stage::WallScan { a, b } => {},
                _ => restitute(frame, event),
            }
        },
    }
    proof {
        assert(frame.contacts.wm.len() <= usize::MAX);
        assert(frame.contacts.mm.len() <= usize::MAX);
    }
    frame.pending()
}

} // verus!
