//! Laws of the draft engine, stated and proved over the league model: how
//! repeated turn advances complete a draft, and what a pick cascade does to
//! the participants' queues.

use vstd::prelude::*;

use crate::draft_types::lemma_seat_in_range;
use crate::draft_types::next_seat_of;
use crate::league::LeagueView;
use crate::player::lemma_name_index;
use crate::player::name_index;
use crate::player::remove_first_name;

verus! {

/// The league after `k` turn advances from `m`.
pub open spec fn advance_times(m: LeagueView, k: nat) -> LeagueView
    decreases k,
{
    if k == 0 {
        m
    } else {
        advance_times(m, (k - 1) as nat).spec_advance().0
    }
}

/// The first `k` advances of a fresh draft each yield a next participant and
/// step the pick counter, touching nothing else of the engine state.
proof fn lemma_advance_iter(m: LeagueView, k: nat)
    requires
        m.wf(),
        m.total_picks == 0,
        k <= m.final_pick,
    ensures
        advance_times(m, k).wf(),
        advance_times(m, k) == (LeagueView {
            current_seat: advance_times(m, k).current_seat,
            total_picks: k,
            ..m
        }),
        k > 0 ==> advance_times(m, (k - 1) as nat).spec_advance().1 is Some,
    decreases k,
{
    if k > 0 {
        lemma_advance_iter(m, (k - 1) as nat);
        let prev = advance_times(m, (k - 1) as nat);
        lemma_seat_in_range(prev.total_picks + 1, prev.players.len());
    }
}

/// Law: from a fresh draft, each of the first `final_pick` turn advances
/// yields a next participant; the advance numbered `final_pick + 1` finds
/// the final pick made, deactivates the draft and yields no participant; and
/// any further advance again yields no participant.
pub proof fn lemma_advance_completes(m: LeagueView)
    requires
        m.wf(),
        m.total_picks == 0,
        m.active,
    ensures
        forall|k: nat|
            k < m.final_pick ==> (#[trigger] advance_times(m, k)).spec_advance().1 is Some,
        advance_times(m, m.final_pick).active,
        advance_times(m, m.final_pick).spec_advance().1 is None,
        !advance_times(m, m.final_pick + 1).active,
        advance_times(m, m.final_pick + 1).spec_advance().1 is None,
{
    assert forall|k: nat| k < m.final_pick implies (#[trigger] advance_times(
        m,
        k,
    )).spec_advance().1 is Some by {
        lemma_advance_iter(m, k);
        lemma_advance_iter(m, (k + 1) as nat);
    }
    lemma_advance_iter(m, m.final_pick);
    let done = advance_times(m, m.final_pick);
    assert(done.total_picks == done.final_pick);
    assert(advance_times(m, m.final_pick + 1) == done.spec_advance().0);
}

/// Every queue of the league avoids `name`.
pub open spec fn no_queue_holds(m: LeagueView, name: Seq<char>) -> bool {
    forall|i: int| 0 <= i < m.players.len() ==> !(#[trigger] m.players[i]).queue.contains(name)
}

/// Every queue of the league is free of repeated names.
pub open spec fn queues_distinct(m: LeagueView) -> bool {
    forall|i: int| 0 <= i < m.players.len() ==> (#[trigger] m.players[i]).queue.no_duplicates()
}

/// Removing the first occurrence of `name` from a duplicate-free list leaves
/// a duplicate-free list without `name`, and introduces nothing.
proof fn lemma_remove_first_name_facts(s: Seq<Seq<char>>, name: Seq<char>, x: Seq<char>)
    ensures
        s.no_duplicates() ==> !remove_first_name(s, name).contains(name),
        s.no_duplicates() ==> remove_first_name(s, name).no_duplicates(),
        !s.contains(x) ==> !remove_first_name(s, name).contains(x),
{
    lemma_name_index(s, name);
    let i = name_index(s, name);
    if i < s.len() {
        let t = s.remove(i);
        s.remove_ensures(i);
        if s.no_duplicates() && t.contains(name) {
            let j = choose|j: int| 0 <= j < t.len() && t[j] == name;
            if j < i {
                assert(s[j] == name);
            } else {
                assert(s[j + 1] == name);
            }
            assert(s[i] == name);
            assert(false);
        }
        if s.no_duplicates() {
            assert forall|a: int, b: int|
                0 <= a < t.len() && 0 <= b < t.len() && a != b implies t[a] != t[b] by {
                let a0 = if a < i {
                    a
                } else {
                    a + 1
                };
                let b0 = if b < i {
                    b
                } else {
                    b + 1
                };
                assert(t[a] == s[a0]);
                assert(t[b] == s[b0]);
            }
        }
        if !s.contains(x) && t.contains(x) {
            let j = choose|j: int| 0 <= j < t.len() && t[j] == x;
            if j < i {
                assert(s[j] == x);
            } else {
                assert(s[j + 1] == x);
            }
            assert(false);
        }
    }
}

/// Dropping the front of a duplicate-free list keeps it duplicate-free and
/// introduces nothing.
proof fn lemma_drop_first_facts(s: Seq<Seq<char>>, x: Seq<char>)
    requires
        s.len() > 0,
    ensures
        s.no_duplicates() ==> s.drop_first().no_duplicates(),
        !s.contains(x) ==> !s.drop_first().contains(x),
{
    let t = s.drop_first();
    if s.no_duplicates() {
        assert forall|a: int, b: int|
            0 <= a < t.len() && 0 <= b < t.len() && a != b implies t[a] != t[b] by {
            assert(t[a] == s[a + 1]);
            assert(t[b] == s[b + 1]);
        }
    }
    if !s.contains(x) && t.contains(x) {
        let j = choose|j: int| 0 <= j < t.len() && t[j] == x;
        assert(s[j + 1] == x);
        assert(false);
    }
}

/// Whatever holds of the queues holds of a league whose queues are the same.
proof fn lemma_same_queues(a: LeagueView, b: LeagueView, x: Seq<char>)
    requires
        a.players.len() == b.players.len(),
        forall|i: int|
            0 <= i < a.players.len() ==> (#[trigger] a.players[i]).queue == b.players[i].queue,
    ensures
        no_queue_holds(a, x) ==> no_queue_holds(b, x),
        queues_distinct(a) ==> queues_distinct(b),
{
    if no_queue_holds(a, x) {
        assert forall|i: int| 0 <= i < b.players.len() implies !(
        #[trigger] b.players[i]).queue.contains(x) by {
            assert(a.players[i].queue == b.players[i].queue);
        }
    }
    if queues_distinct(a) {
        assert forall|i: int| 0 <= i < b.players.len() implies (
        #[trigger] b.players[i]).queue.no_duplicates() by {
            assert(a.players[i].queue == b.players[i].queue);
        }
    }
}

/// What removing a name from all queues does: the name is gone from every
/// queue as long as no queue held it twice; distinctness survives; a name
/// absent everywhere stays absent everywhere.
proof fn lemma_removal_step(m: LeagueView, name: Seq<char>, x: Seq<char>)
    ensures
        queues_distinct(m) ==> no_queue_holds(m.remove_name_from_queues(name), name),
        queues_distinct(m) ==> queues_distinct(m.remove_name_from_queues(name)),
        no_queue_holds(m, x) ==> no_queue_holds(m.remove_name_from_queues(name), x),
{
    let r = m.remove_name_from_queues(name);
    if queues_distinct(m) {
        assert forall|i: int| 0 <= i < r.players.len() implies !(
        #[trigger] r.players[i]).queue.contains(name) by {
            lemma_remove_first_name_facts(m.players[i].queue, name, name);
        }
        assert forall|i: int| 0 <= i < r.players.len() implies (
        #[trigger] r.players[i]).queue.no_duplicates() by {
            lemma_remove_first_name_facts(m.players[i].queue, name, name);
        }
    }
    if no_queue_holds(m, x) {
        assert forall|i: int| 0 <= i < r.players.len() implies !(
        #[trigger] r.players[i]).queue.contains(x) by {
            lemma_remove_first_name_facts(m.players[i].queue, name, x);
        }
    }
}

/// A whole cascade never adds to any queue: a name absent from every queue
/// before the cascade is absent from every queue after it; and the queues
/// stay duplicate-free.
proof fn lemma_cascade_keeps(m: LeagueView, name: Seq<char>, x: Seq<char>)
    requires
        m.wf(),
    ensures
        no_queue_holds(m, x) ==> no_queue_holds(m.spec_cascade(name).0, x),
        queues_distinct(m) ==> queues_distinct(m.spec_cascade(name).0),
    decreases m.final_pick - m.total_picks,
{
    let removed = m.remove_name_from_queues(name);
    let locked = removed.lock_current(name);
    let stepped = locked.spec_advance();
    let m1 = stepped.0;
    lemma_removal_step(m, name, x);
    lemma_same_queues(removed, locked, x);
    lemma_same_queues(locked, m1, x);
    if stepped.1 is Some && m1.on_clock().queue.len() > 0 {
        let nn = m1.on_clock().queue[0];
        let popped = m1.pop_current_queue();
        lemma_seat_in_range(locked.total_picks + 1, locked.players.len());
        assert forall|i: int|
            0 <= i < m1.players.len() implies ((!(#[trigger] m1.players[i]).queue.contains(x)
            ==> !popped.players[i].queue.contains(x)) && (m1.players[i].queue.no_duplicates()
            ==> popped.players[i].queue.no_duplicates())) by {
            if i == m1.current_seat as int {
                lemma_drop_first_facts(m1.players[i].queue, x);
            } else {
                assert(popped.players[i].queue == m1.players[i].queue);
            }
        }
        lemma_cascade_keeps(popped, nn, x);
    }
}

/// Law: locking an item removes its name from every participant's queue —
/// also from participants who are not on the clock — and so does every pick
/// auto-resolved in the same cascade, as long as no single queue holds a
/// name twice.
pub proof fn lemma_lock_clears_queues(m: LeagueView, name: Seq<char>)
    requires
        m.wf(),
        queues_distinct(m),
    ensures
        forall|k: int|
            0 <= k < m.spec_cascade(name).1.len() ==> no_queue_holds(
                m.spec_cascade(name).0,
                (#[trigger] m.spec_cascade(name).1[k]).1,
            ),
    decreases m.final_pick - m.total_picks,
{
    let removed = m.remove_name_from_queues(name);
    let locked = removed.lock_current(name);
    let stepped = locked.spec_advance();
    let m1 = stepped.0;
    let c = m.spec_cascade(name);
    lemma_removal_step(m, name, name);
    lemma_same_queues(removed, locked, name);
    lemma_same_queues(locked, m1, name);
    if stepped.1 is Some && m1.on_clock().queue.len() > 0 {
        let nn = m1.on_clock().queue[0];
        let popped = m1.pop_current_queue();
        let rest = popped.spec_cascade(nn);
        lemma_seat_in_range(locked.total_picks + 1, locked.players.len());
        assert forall|i: int|
            0 <= i < m1.players.len() implies ((!(#[trigger] m1.players[i]).queue.contains(name)
            ==> !popped.players[i].queue.contains(name)) && (m1.players[i].queue.no_duplicates()
            ==> popped.players[i].queue.no_duplicates())) by {
            if i == m1.current_seat as int {
                lemma_drop_first_facts(m1.players[i].queue, name);
            } else {
                assert(popped.players[i].queue == m1.players[i].queue);
            }
        }
        lemma_lock_clears_queues(popped, nn);
        lemma_cascade_keeps(popped, nn, name);
        assert forall|k: int| 0 <= k < c.1.len() implies no_queue_holds(
            c.0,
            (#[trigger] c.1[k]).1,
        ) by {
            if k == 0 {
                assert(c.1[0].1 == name);
            } else {
                assert(c.1[k] == rest.1[k - 1]);
            }
        }
    } else {
        assert forall|k: int| 0 <= k < c.1.len() implies no_queue_holds(
            c.0,
            (#[trigger] c.1[k]).1,
        ) by {
            assert(c.1[k].1 == name);
        }
    }
}

/// Law (cascade shape): with the participant on the clock holding an empty
/// queue, the next seat's participant holding a non-empty, duplicate-free
/// queue that avoids the locked name, and the cascade stopping after that
/// second pick, locking an item yields exactly two records — the on-clock
/// participant with the item, then the next participant with their queue's
/// front — and the next participant's queue loses exactly its front.
pub proof fn lemma_cascade_two_picks(m: LeagueView, name: Seq<char>)
    requires
        m.wf(),
        m.on_clock().queue.len() == 0,
        m.total_picks < m.final_pick,
        ({
            let sb = next_seat_of(m.draft_type, m.total_picks, m.players.len()) as int;
            &&& m.players[sb].queue.len() > 0
            &&& !m.players[sb].queue.contains(name)
            &&& m.players[sb].queue.no_duplicates()
        }),
        ({
            let s1 = m.remove_name_from_queues(name).lock_current(name).spec_advance();
            let q0 = s1.0.on_clock().queue[0];
            let s2 = s1.0.pop_current_queue().remove_name_from_queues(q0).lock_current(
                q0,
            ).spec_advance();
            s2.1 is None || s2.0.on_clock().queue.len() == 0
        }),
    ensures
        ({
            let sb = next_seat_of(m.draft_type, m.total_picks, m.players.len()) as int;
            let q0 = m.players[sb].queue[0];
            let c = m.spec_cascade(name);
            &&& c.1 == seq![(m.on_clock().id, name), (m.players[sb].id, q0)]
            &&& c.0.players[sb].queue == m.players[sb].queue.drop_first()
        }),
{
    let sb = next_seat_of(m.draft_type, m.total_picks, m.players.len()) as int;
    let q0 = m.players[sb].queue[0];
    let c = m.spec_cascade(name);
    lemma_seat_in_range(m.total_picks + 1, m.players.len());
    let removed = m.remove_name_from_queues(name);
    let locked = removed.lock_current(name);
    let stepped = locked.spec_advance();
    let m1 = stepped.0;
    lemma_name_index(m.players[sb].queue, name);
    assert(removed.players[sb].queue == m.players[sb].queue);
    assert(m1.players[sb].queue == m.players[sb].queue);
    assert(m1.current_seat as int == sb);
    assert(m1.on_clock().queue.len() > 0);
    let popped = m1.pop_current_queue();
    assert(popped.players[sb].queue == m.players[sb].queue.drop_first());
    let rest = popped.spec_cascade(q0);
    assert(c.1 == seq![(removed.on_clock().id, name)] + rest.1);
    let removed2 = popped.remove_name_from_queues(q0);
    let locked2 = removed2.lock_current(q0);
    let stepped2 = locked2.spec_advance();
    assert(!m.players[sb].queue.drop_first().contains(q0)) by {
        if m.players[sb].queue.drop_first().contains(q0) {
            let j = choose|j: int|
                0 <= j < m.players[sb].queue.drop_first().len()
                    && m.players[sb].queue.drop_first()[j] == q0;
            assert(m.players[sb].queue[j + 1] == q0);
            assert(m.players[sb].queue[0] == q0);
            assert(false);
        }
    }
    lemma_name_index(popped.players[sb].queue, q0);
    assert(removed2.players[sb].queue == m.players[sb].queue.drop_first());
    assert(stepped2.1 is None || stepped2.0.on_clock().queue.len() == 0);
    assert(rest == (stepped2.0, seq![(removed2.on_clock().id, q0)]));
    assert(c.1 =~= seq![(m.on_clock().id, name), (m.players[sb].id, q0)]);
    assert(c.0.players[sb].queue == m.players[sb].queue.drop_first());
}

} // verus!
