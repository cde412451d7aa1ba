//! What the brute-force scan gathers: the contact of every pair of bodies
//! whose overlap test finds one, no pair left out and none taken twice.

use vstd::prelude::*;
use crate::collision::{Contact, Mtv};

verus! {

/// `list`, with the contact of `a` and `b` behind it where the test found one.
pub open spec fn found(list: Seq<Contact<usize>>, a: usize, b: usize, hit: Option<Mtv>) -> Seq<
    Contact<usize>,
> {
    match hit {
        Some(mtv) => list.push(Contact { a, b, mtv }),
        None => list,
    }
}

/// The contacts of the marble `a` with the marbles above it and below `b`,
/// in rising order, where `test` gives the outcome of each overlap test.
pub open spec fn pair_row(a: usize, b: int, test: spec_fn(usize, usize) -> Option<Mtv>) -> Seq<
    Contact<usize>,
>
    decreases b,
{
    if b <= a + 1 {
        Seq::empty()
    } else {
        found(pair_row(a, b - 1, test), a, (b - 1) as usize, test(a, (b - 1) as usize))
    }
}

/// The contacts among `marbles` marbles of each marble below `a` with the
/// marbles above it: marble by marble, each with its row.
pub open spec fn pair_rows(marbles: usize, a: int, test: spec_fn(usize, usize) -> Option<Mtv>) -> Seq<
    Contact<usize>,
>
    decreases a,
{
    if a <= 0 {
        Seq::empty()
    } else {
        pair_rows(marbles, a - 1, test) + pair_row((a - 1) as usize, marbles as int, test)
    }
}

/// The contacts of the wall `b` with the marbles below `a`, in rising order.
pub open spec fn wall_row(b: usize, a: int, test: spec_fn(usize, usize) -> Option<Mtv>) -> Seq<
    Contact<usize>,
>
    decreases a,
{
    if a <= 0 {
        Seq::empty()
    } else {
        found(wall_row(b, a - 1, test), (a - 1) as usize, b, test((a - 1) as usize, b))
    }
}

/// The contacts of the walls below `b` with all of `marbles` marbles: wall
/// by wall, each with its row.
pub open spec fn wall_rows(marbles: usize, b: int, test: spec_fn(usize, usize) -> Option<Mtv>) -> Seq<
    Contact<usize>,
>
    decreases b,
{
    if b <= 0 {
        Seq::empty()
    } else {
        wall_rows(marbles, b - 1, test) + wall_row((b - 1) as usize, marbles as int, test)
    }
}

/// The contacts among `marbles` marbles, in the order of the scan.
pub open spec fn all_pairs(marbles: usize, test: spec_fn(usize, usize) -> Option<Mtv>) -> Seq<
    Contact<usize>,
> {
    pair_rows(marbles, marbles as int, test)
}

/// The contacts of `marbles` marbles at `walls` walls, in the order of the
/// scan.
pub open spec fn all_walls(
    walls: usize,
    marbles: usize,
    test: spec_fn(usize, usize) -> Option<Mtv>,
) -> Seq<Contact<usize>> {
    wall_rows(marbles, walls as int, test)
}

/// The contact that the test of `a` and `b` gives, where it gives one.
pub open spec fn contact_of(a: usize, b: usize, test: spec_fn(usize, usize) -> Option<Mtv>) -> Contact<
    usize,
> {
    Contact { a, b, mtv: test(a, b)->0 }
}

/// `c` comes before `d` in the scan of the marbles: lower first marble, or
/// the same and lower second marble.
pub open spec fn pair_before(c: Contact<usize>, d: Contact<usize>) -> bool {
    c.a < d.a || (c.a == d.a && c.b < d.b)
}

/// `c` comes before `d` in the scan of the walls: lower wall, or the same
/// and lower marble.
pub open spec fn wall_before(c: Contact<usize>, d: Contact<usize>) -> bool {
    c.b < d.b || (c.b == d.b && c.a < d.a)
}

proof fn lemma_pair_row(a: usize, b: int, test: spec_fn(usize, usize) -> Option<Mtv>)
    requires
        b <= usize::MAX,
    ensures
        forall|i: int|
            0 <= i < pair_row(a, b, test).len() ==> {
                let c = #[trigger] pair_row(a, b, test)[i];
                c.a == a && a < c.b < b && test(a, c.b) == Some(c.mtv)
            },
        forall|i: int, j: int|
            0 <= i < j < pair_row(a, b, test).len() ==> (#[trigger] pair_row(a, b, test)[i]).b < (
            #[trigger] pair_row(a, b, test)[j]).b,
        forall|y: usize|
            a < y < b && (#[trigger] test(a, y)) is Some ==> pair_row(a, b, test).contains(
                contact_of(a, y, test),
            ),
    decreases b,
{
    if b > a + 1 {
        lemma_pair_row(a, b - 1, test);
        let front = pair_row(a, b - 1, test);
        let row = pair_row(a, b, test);
        let last = (b - 1) as usize;
        assert forall|y: usize| a < y < b && (#[trigger] test(a, y)) is Some implies row.contains(
            contact_of(a, y, test),
        ) by {
            if y < b - 1 {
                let k = choose|k: int| 0 <= k < front.len() && front[k] == contact_of(a, y, test);
                assert(row[k] == contact_of(a, y, test));
            } else {
                assert(row[row.len() - 1] == contact_of(a, last, test));
            }
        }
    }
}

proof fn lemma_pair_rows(marbles: usize, a: int, test: spec_fn(usize, usize) -> Option<Mtv>)
    requires
        0 <= a <= marbles,
    ensures
        forall|i: int|
            0 <= i < pair_rows(marbles, a, test).len() ==> {
                let c = #[trigger] pair_rows(marbles, a, test)[i];
                c.a < a && c.a < c.b < marbles && test(c.a, c.b) == Some(c.mtv)
            },
        forall|i: int, j: int|
            0 <= i < j < pair_rows(marbles, a, test).len() ==> pair_before(
                #[trigger] pair_rows(marbles, a, test)[i],
                #[trigger] pair_rows(marbles, a, test)[j],
            ),
        forall|x: usize, y: usize|
            x < a && x < y < marbles && (#[trigger] test(x, y)) is Some ==> pair_rows(
                marbles,
                a,
                test,
            ).contains(contact_of(x, y, test)),
    decreases a,
{
    if a > 0 {
        lemma_pair_rows(marbles, a - 1, test);
        lemma_pair_row((a - 1) as usize, marbles as int, test);
        let front = pair_rows(marbles, a - 1, test);
        let row = pair_row((a - 1) as usize, marbles as int, test);
        let rows = pair_rows(marbles, a, test);
        assert(rows == front + row);
        assert forall|i: int| 0 <= i < rows.len() implies {
            let c = #[trigger] rows[i];
            c.a < a && c.a < c.b < marbles && test(c.a, c.b) == Some(c.mtv)
        } by {
            if i < front.len() {
                assert(rows[i] == front[i]);
            } else {
                assert(rows[i] == row[i - front.len()]);
            }
        }
        assert forall|i: int, j: int| 0 <= i < j < rows.len() implies pair_before(
            #[trigger] rows[i],
            #[trigger] rows[j],
        ) by {
            if j < front.len() {
                assert(rows[i] == front[i] && rows[j] == front[j]);
            } else if i < front.len() {
                assert(rows[i] == front[i] && rows[j] == row[j - front.len()]);
            } else {
                assert(rows[i] == row[i - front.len()] && rows[j] == row[j - front.len()]);
            }
        }
        assert forall|x: usize, y: usize|
            x < a && x < y < marbles && (#[trigger] test(x, y)) is Some implies rows.contains(
            contact_of(x, y, test),
        ) by {
            if x < a - 1 {
                let k = choose|k: int| 0 <= k < front.len() && front[k] == contact_of(x, y, test);
                assert(rows[k] == contact_of(x, y, test));
            } else {
                let k = choose|k: int| 0 <= k < row.len() && row[k] == contact_of(x, y, test);
                assert(rows[front.len() + k] == contact_of(x, y, test));
            }
        }
    }
}

proof fn lemma_wall_row(b: usize, a: int, test: spec_fn(usize, usize) -> Option<Mtv>)
    requires
        a <= usize::MAX,
    ensures
        forall|i: int|
            0 <= i < wall_row(b, a, test).len() ==> {
                let c = #[trigger] wall_row(b, a, test)[i];
                c.b == b && c.a < a && test(c.a, b) == Some(c.mtv)
            },
        forall|i: int, j: int|
            0 <= i < j < wall_row(b, a, test).len() ==> (#[trigger] wall_row(b, a, test)[i]).a < (
            #[trigger] wall_row(b, a, test)[j]).a,
        forall|x: usize|
            x < a && (#[trigger] test(x, b)) is Some ==> wall_row(b, a, test).contains(
                contact_of(x, b, test),
            ),
    decreases a,
{
    if a > 0 {
        lemma_wall_row(b, a - 1, test);
        let front = wall_row(b, a - 1, test);
        let row = wall_row(b, a, test);
        let last = (a - 1) as usize;
        assert forall|x: usize| x < a && (#[trigger] test(x, b)) is Some implies row.contains(
            contact_of(x, b, test),
        ) by {
            if x < a - 1 {
                let k = choose|k: int| 0 <= k < front.len() && front[k] == contact_of(x, b, test);
                assert(row[k] == contact_of(x, b, test));
            } else {
                assert(row[row.len() - 1] == contact_of(last, b, test));
            }
        }
    }
}

proof fn lemma_wall_rows(marbles: usize, b: int, test: spec_fn(usize, usize) -> Option<Mtv>)
    requires
        0 <= b <= usize::MAX,
    ensures
        forall|i: int|
            0 <= i < wall_rows(marbles, b, test).len() ==> {
                let c = #[trigger] wall_rows(marbles, b, test)[i];
                c.b < b && c.a < marbles && test(c.a, c.b) == Some(c.mtv)
            },
        forall|i: int, j: int|
            0 <= i < j < wall_rows(marbles, b, test).len() ==> wall_before(
                #[trigger] wall_rows(marbles, b, test)[i],
                #[trigger] wall_rows(marbles, b, test)[j],
            ),
        forall|x: usize, y: usize|
            y < b && x < marbles && (#[trigger] test(x, y)) is Some ==> wall_rows(
                marbles,
                b,
                test,
            ).contains(contact_of(x, y, test)),
    decreases b,
{
    if b > 0 {
        lemma_wall_rows(marbles, b - 1, test);
        lemma_wall_row((b - 1) as usize, marbles as int, test);
        let front = wall_rows(marbles, b - 1, test);
        let row = wall_row((b - 1) as usize, marbles as int, test);
        let rows = wall_rows(marbles, b, test);
        assert(rows == front + row);
        assert forall|i: int| 0 <= i < rows.len() implies {
            let c = #[trigger] rows[i];
            c.b < b && c.a < marbles && test(c.a, c.b) == Some(c.mtv)
        } by {
            if i < front.len() {
                assert(rows[i] == front[i]);
            } else {
                assert(rows[i] == row[i - front.len()]);
            }
        }
        assert forall|i: int, j: int| 0 <= i < j < rows.len() implies wall_before(
            #[trigger] rows[i],
            #[trigger] rows[j],
        ) by {
            if j < front.len() {
                assert(rows[i] == front[i] && rows[j] == front[j]);
            } else if i < front.len() {
                assert(rows[i] == front[i] && rows[j] == row[j - front.len()]);
            } else {
                assert(rows[i] == row[i - front.len()] && rows[j] == row[j - front.len()]);
            }
        }
        assert forall|x: usize, y: usize|
            y < b && x < marbles && (#[trigger] test(x, y)) is Some implies rows.contains(
            contact_of(x, y, test),
        ) by {
            if y < b - 1 {
                let k = choose|k: int| 0 <= k < front.len() && front[k] == contact_of(x, y, test);
                assert(rows[k] == contact_of(x, y, test));
            } else {
                let k = choose|k: int| 0 <= k < row.len() && row[k] == contact_of(x, y, test);
                assert(rows[front.len() + k] == contact_of(x, y, test));
            }
        }
    }
}

/// The scan of the marbles gathers the contact of a pair exactly where the
/// test of that pair finds an overlap: every contact names two marbles that
/// exist, the lower one first, and holds what their test gave; every pair
/// whose test gives something has its contact; and the contacts stand in the
/// order of the scan, so that no pair has two.
pub proof fn lemma_all_pairs(marbles: usize, test: spec_fn(usize, usize) -> Option<Mtv>)
    ensures
        forall|i: int|
            0 <= i < all_pairs(marbles, test).len() ==> {
                let c = #[trigger] all_pairs(marbles, test)[i];
                c.a < c.b < marbles && test(c.a, c.b) == Some(c.mtv)
            },
        forall|a: usize, b: usize|
            a < b < marbles && (#[trigger] test(a, b)) is Some ==> all_pairs(
                marbles,
                test,
            ).contains(contact_of(a, b, test)),
        forall|i: int, j: int|
            0 <= i < j < all_pairs(marbles, test).len() ==> pair_before(
                #[trigger] all_pairs(marbles, test)[i],
                #[trigger] all_pairs(marbles, test)[j],
            ),
{
    lemma_pair_rows(marbles, marbles as int, test);
}

/// The scan of the walls gathers the contact of a marble and a wall exactly
/// where their test finds an overlap: every contact names a marble and a
/// wall that exist and holds what their test gave; every marble and wall
/// whose test gives something have their contact; and the contacts stand in
/// the order of the scan, wall by wall, so that no two bodies have two.
pub proof fn lemma_all_walls(
    walls: usize,
    marbles: usize,
    test: spec_fn(usize, usize) -> Option<Mtv>,
)
    ensures
        forall|i: int|
            0 <= i < all_walls(walls, marbles, test).len() ==> {
                let c = #[trigger] all_walls(walls, marbles, test)[i];
                c.a < marbles && c.b < walls && test(c.a, c.b) == Some(c.mtv)
            },
        forall|a: usize, b: usize|
            a < marbles && b < walls && (#[trigger] test(a, b)) is Some ==> all_walls(
                walls,
                marbles,
                test,
            ).contains(contact_of(a, b, test)),
        forall|i: int, j: int|
            0 <= i < j < all_walls(walls, marbles, test).len() ==> wall_before(
                #[trigger] all_walls(walls, marbles, test)[i],
                #[trigger] all_walls(walls, marbles, test)[j],
            ),
{
    lemma_wall_rows(marbles, walls as int, test);
}

} // verus!
