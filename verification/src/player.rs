//! One participant of a draft: an identity, an ordered list of locked-in
//! picks, and a FIFO queue of items the participant has pre-committed to pick
//! automatically when their turn arrives.

use std::collections::VecDeque;
use vstd::prelude::*;

use crate::item::str_eq;
use crate::item::Draftable;
use crate::seq_find::first_match;
use crate::seq_find::lemma_first_match;

verus! {

/// The names held by a sequence of items, in order.
pub open spec fn names_of(s: Seq<Draftable>) -> Seq<Seq<char>> {
    s.map_values(|d: Draftable| d@)
}

/// The predicate "this name is the one looked for".
pub open spec fn is_name(name: Seq<char>) -> spec_fn(Seq<char>) -> bool {
    |x: Seq<char>| x == name
}

/// Index of the first occurrence of `name` in `s`, or `s.len()` when absent.
pub open spec fn name_index(s: Seq<Seq<char>>, name: Seq<char>) -> int {
    first_match(s, is_name(name))
}

/// `s` with its first occurrence of `name` removed, or `s` itself when
/// `name` does not occur.
pub open spec fn remove_first_name(s: Seq<Seq<char>>, name: Seq<char>) -> Seq<Seq<char>> {
    if name_index(s, name) < s.len() {
        s.remove(name_index(s, name))
    } else {
        s
    }
}

/// What `name_index` returns: the index of the first occurrence of `name`,
/// within bounds exactly when `name` occurs at all.
pub proof fn lemma_name_index(s: Seq<Seq<char>>, name: Seq<char>)
    ensures
        0 <= name_index(s, name) <= s.len(),
        name_index(s, name) < s.len() <==> s.contains(name),
        name_index(s, name) < s.len() ==> s[name_index(s, name)] == name,
        forall|j: int| 0 <= j < name_index(s, name) ==> s[j] != name,
{
    lemma_first_match(s, is_name(name));
    if s.contains(name) {
        let w = choose|j: int| 0 <= j < s.len() && s[j] == name;
        assert(is_name(name)(s[w]));
    }
}

/// The state of one participant: the identity, the names of the locked-in
/// picks in pick order, and the names in the personal queue in queue order.
#[verifier::ext_equal]
pub ghost struct PlayerView {
    pub id: u64,
    pub picks: Seq<Seq<char>>,
    pub queue: Seq<Seq<char>>,
}

impl PlayerView {
    /// This participant after the first queued occurrence of `name`, if any,
    /// is removed.
    pub open spec fn remove_queued(self, name: Seq<char>) -> PlayerView {
        PlayerView { queue: remove_first_name(self.queue, name), ..self }
    }

    /// This participant after the first occurrence of `name` among the picks,
    /// if any, is removed.
    pub open spec fn remove_pick(self, name: Seq<char>) -> PlayerView {
        PlayerView { picks: remove_first_name(self.picks, name), ..self }
    }

    /// This participant after an item named `name` is locked in.
    pub open spec fn push_pick(self, name: Seq<char>) -> PlayerView {
        PlayerView { picks: self.picks.push(name), ..self }
    }

    /// This participant after an item named `name` joins the back of the
    /// queue.
    pub open spec fn push_queued(self, name: Seq<char>) -> PlayerView {
        PlayerView { queue: self.queue.push(name), ..self }
    }

    /// This participant after the front of the queue leaves.
    pub open spec fn pop_queued(self) -> PlayerView {
        PlayerView { queue: self.queue.drop_first(), ..self }
    }

    /// This participant with an emptied queue.
    pub open spec fn clear_queue(self) -> PlayerView {
        PlayerView { queue: Seq::<Seq<char>>::empty(), ..self }
    }
}

/// A participant who is currently part of a league. All mutation is driven by
/// the [`crate::league::League`] that owns it.
pub struct ActivePlayer {
    picks: Vec<Draftable>,
    queue: VecDeque<Draftable>,
    id: u64,
}

impl View for ActivePlayer {
    type V = PlayerView;

    closed spec fn view(&self) -> PlayerView {
        PlayerView { id: self.id, picks: names_of(self.picks@), queue: names_of(self.queue@) }
    }
}

impl ActivePlayer {
    /// Creates a participant with no picks and an empty queue.
    pub fn new(id: u64) -> (p: ActivePlayer)
        ensures
            p@ == (PlayerView { id, picks: Seq::<Seq<char>>::empty(), queue: Seq::<
                Seq<char>,
            >::empty() }),
    {
        let p = ActivePlayer { picks: Vec::new(), queue: VecDeque::new(), id };
        proof {
            assert(p@.picks =~= Seq::<Seq<char>>::empty());
            assert(p@.queue =~= Seq::<Seq<char>>::empty());
        }
        p
    }

    /// The participant's identity.
    pub fn id(&self) -> (r: u64)
        ensures
            r == self@.id,
    {
        self.id
    }

    /// The locked-in picks, in pick order.
    pub fn picks(&self) -> (r: &Vec<Draftable>)
        ensures
            names_of(r@) == self@.picks,
    {
        &self.picks
    }

    /// The queued items, front first.
    pub fn queue(&self) -> (r: &VecDeque<Draftable>)
        ensures
            names_of(r@) == self@.queue,
    {
        &self.queue
    }

    /// Appends an item to the back of the queue.
    pub fn add_to_queue(&mut self, item: Draftable)
        ensures
            final(self)@ == old(self)@.push_queued(item@),
    {
        let ghost pre = self@;
        self.queue.push_back(item);
        proof {
            assert(self@.queue =~= pre.queue.push(item@));
            assert(self@ =~= pre.push_queued(item@));
        }
    }

    /// Appends an item to the pick list. The append is unconditional: callers
    /// are responsible for pool-membership checks.
    pub fn lock_in(&mut self, item: Draftable)
        ensures
            final(self)@ == old(self)@.push_pick(item@),
    {
        let ghost pre = self@;
        self.picks.push(item);
        proof {
            assert(self@.picks =~= pre.picks.push(item@));
            assert(self@ =~= pre.push_pick(item@));
        }
    }

    /// Removes and returns the item at the front of the queue, or `None` when
    /// the queue is empty.
    pub fn first_in_queue(&mut self) -> (r: Option<Draftable>)
        ensures
            old(self)@.queue.len() == 0 ==> r is None && final(self)@ == old(self)@,
            old(self)@.queue.len() > 0 ==> (r matches Some(d) && d@ == old(self)@.queue[0]
                && final(self)@ == old(self)@.pop_queued()),
    {
        let ghost pre = self@;
        let r = self.queue.pop_front();
        proof {
            if pre.queue.len() == 0 {
                assert(self@ =~= pre);
            } else {
                assert(self@.queue =~= pre.queue.drop_first());
                assert(self@ =~= pre.pop_queued());
            }
        }
        r
    }

    /// Removes and returns the first item in the queue with the given name,
    /// or `None`, leaving the queue unchanged, when no queued item has it.
    pub fn delete_from_queue(&mut self, name: &str) -> (r: Option<Draftable>)
        ensures
            final(self)@ == old(self)@.remove_queued(name@),
            r matches Some(d) ==> old(self)@.queue.contains(name@) && d@ == name@,
            r is None ==> !old(self)@.queue.contains(name@),
    {
        let ghost pre = self@;
        proof {
            lemma_name_index(pre.queue, name@);
        }
        let mut i: usize = 0;
        let n = self.queue.len();
        while i < n
            invariant
                n == self.queue.len(),
                i <= n,
                *self == *old(self),
                pre == self@,
                forall|j: int| 0 <= j < i ==> pre.queue[j] != name@,
            decreases n - i,
        {
            if str_eq(self.queue[i].name(), name) {
                proof {
                    lemma_name_index(pre.queue, name@);
                }
                assert(pre.queue[i as int] == name@);
                assert(name_index(pre.queue, name@) == i);
                let r = self.queue.remove(i);
                proof {
                    assert(self@.queue =~= pre.queue.remove(i as int));
                    assert(self@ =~= pre.remove_queued(name@));
                }
                return r;
            }
            i = i + 1;
        }
        proof {
            assert(!pre.queue.contains(name@));
            assert(self@ =~= pre.remove_queued(name@));
        }
        None
    }

    /// Position of the first pick with the given name, if any.
    pub(crate) fn pick_position(&self, name: &str) -> (r: Option<usize>)
        ensures
            match r {
                Some(i) => i == name_index(self@.picks, name@) && i < self@.picks.len(),
                None => !self@.picks.contains(name@),
            },
    {
        let ghost pre = self@;
        let mut i: usize = 0;
        let n = self.picks.len();
        while i < n
            invariant
                n == self.picks.len(),
                pre == self@,
                i <= n,
                forall|j: int| 0 <= j < i ==> pre.picks[j] != name@,
            decreases n - i,
        {
            if str_eq(self.picks[i].name(), name) {
                proof {
                    lemma_name_index(pre.picks, name@);
                }
                assert(pre.picks[i as int] == name@);
                return Some(i);
            }
            i = i + 1;
        }
        None
    }

    /// Removes and returns the pick at the given position.
    pub(crate) fn remove_pick_at(&mut self, i: usize) -> (r: Draftable)
        requires
            i < old(self)@.picks.len(),
        ensures
            r@ == old(self)@.picks[i as int],
            final(self)@ == (PlayerView { picks: old(self)@.picks.remove(i as int), ..old(
                self,
            )@ }),
    {
        let ghost pre = self@;
        let r = self.picks.remove(i);
        proof {
            assert(self@.picks =~= pre.picks.remove(i as int));
            assert(self@ =~= (PlayerView { picks: pre.picks.remove(i as int), ..pre }));
        }
        r
    }

    /// Puts a pick back at the given position.
    pub(crate) fn insert_pick_at(&mut self, i: usize, item: Draftable)
        requires
            i <= old(self)@.picks.len(),
        ensures
            final(self)@ == (PlayerView { picks: old(self)@.picks.insert(i as int, item@), ..old(
                self,
            )@ }),
    {
        let ghost pre = self@;
        self.picks.insert(i, item);
        proof {
            assert(self@.picks =~= pre.picks.insert(i as int, item@));
            assert(self@ =~= (PlayerView { picks: pre.picks.insert(i as int, item@), ..pre }));
        }
    }

    /// Empties the queue, returning the queued items in order.
    pub(crate) fn take_queue(&mut self) -> (r: Vec<Draftable>)
        ensures
            final(self)@ == old(self)@.clear_queue(),
            names_of(r@) == old(self)@.queue,
    {
        let ghost pre = self@;
        let mut r: Vec<Draftable> = Vec::new();
        proof {
            assert(names_of(r@) =~= Seq::<Seq<char>>::empty());
        }
        loop
            invariant_except_break
                pre.picks == self@.picks,
                pre.id == self@.id,
                pre.queue == names_of(r@) + self@.queue,
            ensures
                self@ == pre.clear_queue(),
                names_of(r@) == pre.queue,
            decreases self@.queue.len(),
        {
            let ghost qpre = self@.queue;
            match self.queue.pop_front() {
                Some(d) => {
                    proof {
                        assert(self@.queue =~= qpre.drop_first());
                    }
                    let ghost rpre = r@;
                    r.push(d);
                    proof {
                        assert(names_of(r@) =~= names_of(rpre).push(d@));
                        assert(names_of(r@) + self@.queue =~= names_of(rpre) + qpre);
                    }
                },
                None => {
                    proof {
                        assert(names_of(r@) + self@.queue =~= names_of(r@));
                        assert(self@ =~= pre.clear_queue());
                    }
                    break ;
                },
            }
        }
        r
    }

    /// Removes and returns the first pick with the given name, or `None`,
    /// leaving the picks unchanged, when no pick has it.
    pub fn delete_from_picks(&mut self, name: &str) -> (r: Option<Draftable>)
        ensures
            final(self)@ == old(self)@.remove_pick(name@),
            r matches Some(d) ==> old(self)@.picks.contains(name@) && d@ == name@,
            r is None ==> !old(self)@.picks.contains(name@),
    {
        let ghost pre = self@;
        proof {
            lemma_name_index(pre.picks, name@);
        }
        let mut i: usize = 0;
        let n = self.picks.len();
        while i < n
            invariant
                n == self.picks.len(),
                i <= n,
                *self == *old(self),
                pre == self@,
                forall|j: int| 0 <= j < i ==> pre.picks[j] != name@,
            decreases n - i,
        {
            if str_eq(self.picks[i].name(), name) {
                proof {
                    lemma_name_index(pre.picks, name@);
                }
                assert(pre.picks[i as int] == name@);
                assert(name_index(pre.picks, name@) == i);
                let r = self.picks.remove(i);
                proof {
                    assert(self@.picks =~= pre.picks.remove(i as int));
                    assert(self@ =~= pre.remove_pick(name@));
                }
                return Some(r);
            }
            i = i + 1;
        }
        proof {
            assert(!pre.picks.contains(name@));
            assert(self@ =~= pre.remove_pick(name@));
        }
        None
    }
}

} // verus!
