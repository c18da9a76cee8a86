use vstd::prelude::*;

use crate::point::{key_eq, key_le, key_lt, Point};
use crate::rng::gen_range_usize;
use rand::rngs::SmallRng;

verus! {

/// Keys weakly ascend along the sequence.
pub open spec fn sorted_by_key(s: Seq<Point>) -> bool {
    forall|i: int, j: int| 0 <= i < j < s.len() ==> key_le(#[trigger] s[i], #[trigger] s[j])
}

/// Keys strictly ascend along the sequence: no two elements compare equal.
pub open spec fn strictly_sorted_by_key(s: Seq<Point>) -> bool {
    forall|i: int, j: int| 0 <= i < j < s.len() ==> key_lt(#[trigger] s[i], #[trigger] s[j])
}

/// Some element of `s` compares equal to `p` on every axis.
pub open spec fn has_key_eq(s: Seq<Point>, p: Point) -> bool {
    exists|j: int| 0 <= j < s.len() && key_eq(#[trigger] s[j], p)
}

/// `new_s` is `old_s` with `p` placed at some position.
pub open spec fn seq_inserted(old_s: Seq<Point>, new_s: Seq<Point>, p: Point) -> bool {
    exists|i: int| 0 <= i <= old_s.len() && new_s == #[trigger] old_s.insert(i, p)
}

/// `new_s` is `old_s` with the element at some position removed, and `p` is
/// that element.
pub open spec fn seq_removed(old_s: Seq<Point>, new_s: Seq<Point>, p: Point) -> bool {
    exists|i: int| 0 <= i < old_s.len() && p == old_s[i] && new_s == #[trigger] old_s.remove(i)
}

/// The pending-cell container: one selection policy, chosen once per run.
#[derive(Debug)]
pub enum PendingKind {
    /// Append on insert; extract a uniformly random member.
    UniformRandom(Vec<Point>),
    /// Append on insert; extract the most recently inserted member. The
    /// second field is the chance, in percent, of shuffling neighbour lists.
    LifoChance(Vec<Point>, u8),
    /// Keep the members in ascending key order; extract the minimum.
    Ascending(Vec<Point>),
    /// Keep the members in ascending key order; extract the maximum.
    Descending(Vec<Point>),
    /// Heap discipline: extract a maximum, duplicates allowed.
    MaxHeap(Vec<Point>),
}

impl PendingKind {
    /// The pending cells, in container order.
    pub open spec fn contents(self) -> Seq<Point> {
        match self {
            PendingKind::UniformRandom(v) => v@,
            PendingKind::LifoChance(v, _) => v@,
            PendingKind::Ascending(v) => v@,
            PendingKind::Descending(v) => v@,
            PendingKind::MaxHeap(v) => v@,
        }
    }

    /// The configured chance of shuffling a neighbour list, in percent.
    pub open spec fn chance(self) -> u8 {
        match self {
            PendingKind::LifoChance(_, c) => c,
            _ => 0,
        }
    }

    /// The container's internal ordering discipline.
    pub open spec fn wf(self) -> bool {
        match self {
            PendingKind::UniformRandom(_) => true,
            PendingKind::LifoChance(_, _) => true,
            PendingKind::Ascending(v) => strictly_sorted_by_key(v@),
            PendingKind::Descending(v) => strictly_sorted_by_key(v@),
            PendingKind::MaxHeap(v) => sorted_by_key(v@),
        }
    }

    /// Both values use the same selection policy, with the same chance.
    pub open spec fn same_kind(self, other: Self) -> bool {
        match (self, other) {
            (PendingKind::UniformRandom(_), PendingKind::UniformRandom(_)) => true,
            (PendingKind::LifoChance(_, c1), PendingKind::LifoChance(_, c2)) => c1 == c2,
            (PendingKind::Ascending(_), PendingKind::Ascending(_)) => true,
            (PendingKind::Descending(_), PendingKind::Descending(_)) => true,
            (PendingKind::MaxHeap(_), PendingKind::MaxHeap(_)) => true,
            _ => false,
        }
    }

    /// True for the append-style policies, whose insert is a plain push.
    pub open spec fn appends(self) -> bool {
        match self {
            PendingKind::UniformRandom(_) => true,
            PendingKind::LifoChance(_, _) => true,
            _ => false,
        }
    }

    /// True for the set-like policies, which drop an insert whose key is
    /// already present.
    pub open spec fn dedups(self) -> bool {
        match self {
            PendingKind::Ascending(_) => true,
            PendingKind::Descending(_) => true,
            _ => false,
        }
    }

    /// Inserts a cell. Append-style policies always append; the ordered
    /// set-like policies place it by key and drop it when an equal key is
    /// already held; the heap keeps duplicates.
    pub fn add(&mut self, point: Point)
        requires
            old(self).wf(),
        ensures
            final(self).wf(),
            final(self).same_kind(*old(self)),
            !old(self).dedups() || !has_key_eq(old(self).contents(), point) ==> seq_inserted(
                old(self).contents(),
                final(self).contents(),
                point,
            ),
            old(self).dedups() && has_key_eq(old(self).contents(), point)
                ==> final(self).contents() == old(self).contents(),
            old(self).appends() ==> final(self).contents() == old(self).contents().push(point),
    {
        match self {
            PendingKind::UniformRandom(v) => {
                v.push(point);
                proof {
                    assert(v@ == old(self).contents().insert(old(self).contents().len() as int, point));
                }
            },
            PendingKind::LifoChance(v, _) => {
                v.push(point);
                proof {
                    assert(v@ == old(self).contents().insert(old(self).contents().len() as int, point));
                }
            },
            PendingKind::Ascending(v) => {
                insert_ordered_distinct(v, point);
            },
            PendingKind::Descending(v) => {
                insert_ordered_distinct(v, point);
            },
            PendingKind::MaxHeap(v) => {
                insert_ordered(v, point);
            },
        }
    }

    /// Extracts one cell per the policy: a random member, the most recent,
    /// the minimum, or a maximum. Must not be called on an empty container.
    pub fn pop(&mut self, rng: &mut SmallRng) -> (p: Point)
        requires
            old(self).wf(),
            old(self).contents().len() > 0,
        ensures
            final(self).wf(),
            final(self).same_kind(*old(self)),
            seq_removed(old(self).contents(), final(self).contents(), p),
            old(self) matches PendingKind::LifoChance(_, _) ==> p == old(self).contents().last()
                && final(self).contents() == old(self).contents().drop_last(),
            old(self) matches PendingKind::Ascending(_) ==> p == old(self).contents()[0]
                && final(self).contents() == old(self).contents().remove(0) && forall|j: int|
                0 <= j < old(self).contents().len() ==> key_le(p, #[trigger] old(self).contents()[j]),
            (old(self) matches PendingKind::Descending(_) || old(self)
                matches PendingKind::MaxHeap(_)) ==> p == old(self).contents().last()
                && final(self).contents() == old(self).contents().drop_last() && forall|j: int|
                0 <= j < old(self).contents().len() ==> key_le(#[trigger] old(self).contents()[j], p),
    {
        match self {
            PendingKind::UniformRandom(v) => {
                let which = gen_range_usize(rng, 0, v.len());
                let p = v.remove(which);
                proof {
                    assert(seq_removed(old(self).contents(), v@, p));
                }
                p
            },
            PendingKind::LifoChance(v, _) => {
                let p = v.pop().unwrap();
                proof {
                    let n = old(self).contents().len() as int;
                    assert(v@ =~= old(self).contents().remove(n - 1));
                }
                p
            },
            PendingKind::Ascending(v) => {
                let p = v.remove(0);
                p
            },
            PendingKind::Descending(v) => {
                let p = v.pop().unwrap();
                proof {
                    let n = old(self).contents().len() as int;
                    assert(v@ =~= old(self).contents().remove(n - 1));
                }
                p
            },
            PendingKind::MaxHeap(v) => {
                let p = v.pop().unwrap();
                proof {
                    let n = old(self).contents().len() as int;
                    assert(v@ =~= old(self).contents().remove(n - 1));
                }
                p
            },
        }
    }

    /// True while at least one cell is pending.
    pub fn has_any(&self) -> (r: bool)
        ensures
            r == (self.contents().len() > 0),
    {
        match self {
            PendingKind::UniformRandom(v) => !v.is_empty(),
            PendingKind::LifoChance(v, _) => !v.is_empty(),
            PendingKind::Ascending(v) => !v.is_empty(),
            PendingKind::Descending(v) => !v.is_empty(),
            PendingKind::MaxHeap(v) => !v.is_empty(),
        }
    }

    /// The chance, in percent, that a neighbour list is shuffled before it
    /// is processed; zero for every policy but the LIFO one.
    pub fn shuffle_chance(&self) -> (r: u8)
        ensures
            r == self.chance(),
    {
        match self {
            PendingKind::LifoChance(_, chance) => *chance,
            _ => 0,
        }
    }
}

/// Places `point` at its key position in a strictly ascending vector,
/// dropping it when an equal key is already held (set discipline).
fn insert_ordered_distinct(v: &mut Vec<Point>, point: Point)
    requires
        strictly_sorted_by_key(old(v)@),
    ensures
        strictly_sorted_by_key(final(v)@),
        !has_key_eq(old(v)@, point) ==> seq_inserted(old(v)@, final(v)@, point),
        has_key_eq(old(v)@, point) ==> final(v)@ == old(v)@,
{
    let mut i: usize = 0;
    while i < v.len() && v[i].lt_by_key(&point)
        invariant
            i <= v@.len(),
            v@ == old(v)@,
            strictly_sorted_by_key(v@),
            forall|j: int| 0 <= j < i ==> key_lt(#[trigger] v@[j], point),
        decreases v@.len() - i,
    {
        i += 1;
    }
    if i < v.len() && !point.lt_by_key(&v[i]) {
        // key_le both ways: an equal key is already present.
        assert(key_eq(v@[i as int], point));
        assert(has_key_eq(v@, point));
    } else {
        v.insert(i, point);
        proof {
            let prev = old(v)@;
            assert forall|a: int, b: int| 0 <= a < b < v@.len() implies key_lt(
                #[trigger] v@[a],
                #[trigger] v@[b],
            ) by {
                prev.insert_ensures(i as int, point);
            }
            assert(!has_key_eq(prev, point)) by {
                if has_key_eq(prev, point) {
                    let j = choose|j: int| 0 <= j < prev.len() && key_eq(#[trigger] prev[j], point);
                    if j < i {
                        assert(key_lt(prev[j], point));
                    } else {
                        assert(key_lt(point, prev[i as int]));
                        assert(key_le(prev[i as int], prev[j]));
                    }
                }
            }
        }
    }
}

/// Places `point` at its key position in a weakly ascending vector,
/// keeping duplicates (heap discipline).
fn insert_ordered(v: &mut Vec<Point>, point: Point)
    requires
        sorted_by_key(old(v)@),
    ensures
        sorted_by_key(final(v)@),
        seq_inserted(old(v)@, final(v)@, point),
{
    let mut i: usize = 0;
    while i < v.len() && v[i].lt_by_key(&point)
        invariant
            i <= v@.len(),
            v@ == old(v)@,
            sorted_by_key(v@),
            forall|j: int| 0 <= j < i ==> key_lt(#[trigger] v@[j], point),
        decreases v@.len() - i,
    {
        i += 1;
    }
    v.insert(i, point);
    proof {
        let prev = old(v)@;
        assert forall|a: int, b: int| 0 <= a < b < v@.len() implies key_le(
            #[trigger] v@[a],
            #[trigger] v@[b],
        ) by {
            prev.insert_ensures(i as int, point);
        }
    }
}

} // verus!
