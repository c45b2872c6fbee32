//! The draft engine. A league owns an ordered roster of participants, the
//! current turn pointer, and the pick counter; it resolves picks, queued
//! fallback picks, waivers and trades.

use std::collections::VecDeque;
use vstd::prelude::*;

use crate::draft_types::linear_draft;
use crate::draft_types::next_seat_of;
use crate::draft_types::snake_draft;
use crate::draft_types::DraftType;
use crate::item::clone_items;
use crate::item::clone_queue_items;
use crate::item::str_eq;
use crate::item::Draftable;
use crate::player::lemma_name_index;
use crate::player::names_of;
use crate::player::ActivePlayer;
use crate::player::PlayerView;
use crate::seq_find::first_match;
use crate::seq_find::lemma_first_match;

verus! {

/// Why a league operation failed.
#[derive(Debug)]
pub enum LeagueError {
    /// No participant with the given id is in this league.
    PlayerNotFoundError,
    /// No item with the given name is in the expected pick list or queue.
    DraftableNotFoundError,
    /// An item with the given name is already locked in somewhere.
    DraftableInUseError,
    /// The participant has not locked in any picks yet.
    PlayerPicksEmptyError,
    /// The participant's queue holds nothing.
    PlayerQueueEmptyError,
    /// The operation needs an inactive league, but the draft is running.
    LeagueActiveError,
    /// The operation needs an active league, but the draft is not running.
    LeagueInactiveError,
    /// Nobody has locked in any pick yet.
    NoPicksError,
}

/// The state of a whole league: the participants in seat order and the
/// engine's turn bookkeeping.
#[verifier::ext_equal]
pub ghost struct LeagueView {
    pub id: u64,
    pub name: Seq<char>,
    pub output: Option<u64>,
    pub players: Seq<PlayerView>,
    pub active: bool,
    pub current_seat: nat,
    pub total_picks: nat,
    pub draft_type: DraftType,
    pub final_pick: nat,
}

/// The predicate "this participant has the id looked for".
pub open spec fn has_id(id: u64) -> spec_fn(PlayerView) -> bool {
    |p: PlayerView| p.id == id
}

impl LeagueView {
    /// Internal validity: the roster is non-empty and fixed within machine
    /// bounds, the seat pointer is on the table, and the pick counter has not
    /// passed the final pick.
    pub open spec fn wf(self) -> bool {
        &&& self.players.len() > 0
        &&& self.players.len() <= u32::MAX as nat
        &&& self.current_seat < self.players.len()
        &&& self.total_picks <= self.final_pick
        &&& self.final_pick <= u32::MAX as nat
    }

    /// The participant whose turn it is.
    pub open spec fn on_clock(self) -> PlayerView {
        self.players[self.current_seat as int]
    }

    /// Seat of the first participant with the given id, or the roster length
    /// when the id is unknown.
    pub open spec fn player_index(self, id: u64) -> int {
        first_match(self.players, has_id(id))
    }

    /// Whether some participant has the given id.
    pub open spec fn has_player(self, id: u64) -> bool {
        self.player_index(id) < self.players.len()
    }

    /// The league after the first queued occurrence of `name`, if any, leaves
    /// every participant's queue.
    pub open spec fn remove_name_from_queues(self, name: Seq<char>) -> LeagueView {
        LeagueView {
            players: self.players.map_values(|p: PlayerView| p.remove_queued(name)),
            ..self
        }
    }

    /// The league after the participant on the clock locks in an item named
    /// `name`.
    pub open spec fn lock_current(self, name: Seq<char>) -> LeagueView {
        LeagueView {
            players: self.players.update(
                self.current_seat as int,
                self.on_clock().push_pick(name),
            ),
            ..self
        }
    }

    /// The league after the front of the on-clock participant's queue leaves.
    pub open spec fn pop_current_queue(self) -> LeagueView {
        LeagueView {
            players: self.players.update(
                self.current_seat as int,
                self.on_clock().pop_queued(),
            ),
            ..self
        }
    }

    /// Whether an item named `name` is locked in among anyone's picks.
    pub open spec fn locked_anywhere(self, name: Seq<char>) -> bool {
        exists|i: int, j: int|
            0 <= i < self.players.len() && 0 <= j < self.players[i].picks.len()
                && self.players[i].picks[j] == name
    }

    /// The league with the participant at seat `i` replaced.
    pub open spec fn update_player(self, i: int, p: PlayerView) -> LeagueView {
        LeagueView { players: self.players.update(i, p), ..self }
    }

    /// The league after `user1`'s pick named `item1` and `user2`'s pick named
    /// `item2` change hands: each side loses its named pick and gains the
    /// other's, `user1`'s side first.
    pub open spec fn spec_trade(
        self,
        user1: u64,
        item1: Seq<char>,
        user2: u64,
        item2: Seq<char>,
    ) -> LeagueView {
        let i1 = self.player_index(user1);
        let mid = self.update_player(i1, self.players[i1].remove_pick(item1));
        let i2 = mid.player_index(user2);
        let m2 = mid.update_player(i2, mid.players[i2].remove_pick(item2));
        let m3 = m2.update_player(i1, m2.players[i1].push_pick(item2));
        m3.update_player(i2, m3.players[i2].push_pick(item1))
    }

    /// One turn advance: when the final pick has been made the league goes
    /// inactive and nobody is next; otherwise the seat pointer moves to the
    /// rotation's next seat, the counter steps, and the participant now on
    /// the clock is next.
    pub open spec fn spec_advance(self) -> (LeagueView, Option<u64>) {
        if self.total_picks == self.final_pick {
            (LeagueView { active: false, ..self }, None)
        } else {
            let seat = next_seat_of(self.draft_type, self.total_picks, self.players.len());
            (
                LeagueView { current_seat: seat, total_picks: self.total_picks + 1, ..self },
                Some(self.players[seat as int].id),
            )
        }
    }

    /// Locking an item named `name` for the participant on the clock, then
    /// cascading: the name leaves every queue, the pick is recorded and
    /// appended, the turn advances, and — as long as a next participant has a
    /// queued item — that front item is picked the same way in turn.
    pub open spec fn spec_cascade(self, name: Seq<char>) -> (LeagueView, Seq<(u64, Seq<char>)>)
        decreases self.final_pick - self.total_picks,
            when self.total_picks <= self.final_pick
    {
        let removed = self.remove_name_from_queues(name);
        let rec = (removed.on_clock().id, name);
        let locked = removed.lock_current(name);
        let stepped = locked.spec_advance();
        let m1 = stepped.0;
        if stepped.1 is Some && m1.on_clock().queue.len() > 0 {
            let next_name = m1.on_clock().queue[0];
            let rest = m1.pop_current_queue().spec_cascade(next_name);
            (rest.0, seq![rec] + rest.1)
        } else {
            (m1, seq![rec])
        }
    }
}

/// Whether two league states agree on everything but the participants.
pub open spec fn same_but_players(a: LeagueView, b: LeagueView) -> bool {
    a == (LeagueView { players: a.players, ..b })
}

/// The `(participant id, item name)` pairs named by a sequence of pick
/// records.
pub open spec fn records_view(s: Seq<(u64, String)>) -> Seq<(u64, Seq<char>)> {
    s.map_values(|t: (u64, String)| (t.0, t.1@))
}

/// The names of all picks locked in across a roster, participant by
/// participant in seat order, each participant's picks in pick order.
pub open spec fn picks_concat(players: Seq<PlayerView>) -> Seq<Seq<char>>
    decreases players.len(),
{
    if players.len() == 0 {
        Seq::<Seq<char>>::empty()
    } else {
        picks_concat(players.drop_last()) + players.last().picks
    }
}

/// What `LeagueView::player_index` returns: the first seat whose participant
/// has the id, within bounds exactly when the id is known at all.
pub proof fn lemma_player_index(m: LeagueView, id: u64)
    ensures
        0 <= m.player_index(id) <= m.players.len(),
        m.has_player(id) ==> m.players[m.player_index(id)].id == id,
        forall|j: int| 0 <= j < m.player_index(id) ==> m.players[j].id != id,
        m.has_player(id) <==> exists|j: int|
            0 <= j < m.players.len() && #[trigger] m.players[j].id == id,
{
    lemma_first_match(m.players, has_id(id));
    if exists|j: int| 0 <= j < m.players.len() && #[trigger] m.players[j].id == id {
        let w = choose|j: int| 0 <= j < m.players.len() && #[trigger] m.players[j].id == id;
        assert(has_id(id)(m.players[w]));
    }
}

/// A specific ongoing draft league: a fixed roster of participants in seat
/// order, a rotation mode, and the engine's turn state.
pub struct League {
    id: u64,
    players: Vec<ActivePlayer>,
    output: Option<u64>,
    name: String,
    active: bool,
    current_seat: u32,
    total_picks: u32,
    draft_type: DraftType,
    final_pick: u32,
}

impl View for League {
    type V = LeagueView;

    closed spec fn view(&self) -> LeagueView {
        LeagueView {
            id: self.id,
            name: self.name@,
            output: self.output,
            players: self.players@.map_values(|p: ActivePlayer| p@),
            active: self.active,
            current_seat: self.current_seat as nat,
            total_picks: self.total_picks as nat,
            draft_type: self.draft_type,
            final_pick: self.final_pick as nat,
        }
    }
}

impl League {
    /// Creates a league, inactive and with no picks made, with one
    /// participant per entry of `users` in seat order. Each participant will
    /// lock in `team_size` items, so the final pick is numbered
    /// `users.len() * team_size - 1`.
    pub fn new(
        users: &[u64],
        id: u64,
        name: String,
        output: Option<u64>,
        draft_type: DraftType,
        team_size: u32,
    ) -> (league: League)
        requires
            users@.len() >= 1,
            team_size >= 1,
            users@.len() * team_size <= u32::MAX as nat,
        ensures
            league@.wf(),
            league@.id == id,
            league@.name == name@,
            league@.output == output,
            league@.active == false,
            league@.current_seat == 0,
            league@.total_picks == 0,
            league@.draft_type == draft_type,
            league@.final_pick == users@.len() * team_size - 1,
            league@.players.len() == users@.len(),
            forall|i: int|
                0 <= i < users@.len() ==> league@.players[i] == (PlayerView {
                    id: users@[i],
                    picks: Seq::<Seq<char>>::empty(),
                    queue: Seq::<Seq<char>>::empty(),
                }),
    {
        proof {
            assert(users@.len() * 1 <= users@.len() * team_size) by (nonlinear_arith)
                requires team_size >= 1;
            assert(1 * 1 <= users@.len() * team_size) by (nonlinear_arith)
                requires users@.len() >= 1 && team_size >= 1;
        }
        let mut players: Vec<ActivePlayer> = Vec::new();
        let mut i: usize = 0;
        while i < users.len()
            invariant
                i <= users@.len(),
                players@.len() == i,
                forall|j: int|
                    0 <= j < i ==> players@[j]@ == (PlayerView {
                        id: users@[j],
                        picks: Seq::<Seq<char>>::empty(),
                        queue: Seq::<Seq<char>>::empty(),
                    }),
            decreases users@.len() - i,
        {
            players.push(ActivePlayer::new(users[i]));
            i = i + 1;
        }
        proof {
            assert(players@.len() * team_size == users@.len() * team_size);
        }
        let count = players.len() as u32;
        let final_pick = count * team_size - 1;
        League {
            id,
            players,
            output,
            name,
            active: false,
            current_seat: 0,
            total_picks: 0,
            draft_type,
            final_pick,
        }
    }

    /// Sets the league to active: the draft is running, so waivers and trades
    /// are disabled and picks are accepted.
    pub fn activate(&mut self)
        ensures
            final(self)@ == (LeagueView { active: true, ..old(self)@ }),
    {
        self.active = true;
    }

    /// Sets the league to inactive: picks are no longer accepted.
    pub fn deactivate(&mut self)
        ensures
            final(self)@ == (LeagueView { active: false, ..old(self)@ }),
    {
        self.active = false;
    }

    /// Whether the draft is running.
    pub fn active(&self) -> (r: bool)
        ensures
            r == self@.active,
    {
        self.active
    }

    /// The league's identity.
    pub fn id(&self) -> (r: u64)
        ensures
            r == self@.id,
    {
        self.id
    }

    /// The league's name.
    pub fn name(&self) -> (r: &String)
        ensures
            r@ == self@.name,
    {
        &self.name
    }

    /// The number of seats at the table.
    pub fn player_count(&self) -> (r: usize)
        ensures
            r == self@.players.len(),
    {
        self.players.len()
    }

    /// Moves the draft one seat forward and returns the id of the
    /// participant now on the clock, or `None` when the draft is complete.
    /// On completion the league is set to inactive.
    pub fn advance(&mut self) -> (r: Option<u64>)
        requires
            old(self)@.wf(),
        ensures
            final(self)@.wf(),
            final(self)@ == old(self)@.spec_advance().0,
            r == old(self)@.spec_advance().1,
    {
        if self.total_picks == self.final_pick {
            self.active = false;
            proof {
                assert(self@ =~= (LeagueView { active: false, ..old(self)@ }));
            }
            return None;
        }
        let n = self.players.len() as u32;
        let next = match self.draft_type {
            DraftType::Snake => snake_draft(self.total_picks, n),
            DraftType::Linear => linear_draft(self.total_picks, n),
        };
        self.current_seat = next;
        self.total_picks = self.total_picks + 1;
        let id = self.players[next as usize].id();
        proof {
            assert(self@ =~= (LeagueView {
                current_seat: next as nat,
                total_picks: old(self)@.total_picks + 1,
                ..old(self)@
            }));
        }
        Some(id)
    }

    /// The participant whose turn it is to pick, or an inactivity signal when
    /// the draft is not running.
    pub fn current_player(&self) -> (r: Result<&ActivePlayer, LeagueError>)
        requires
            self@.wf(),
        ensures
            self@.active ==> (r matches Ok(p) && p@ == self@.on_clock()),
            !self@.active ==> (r matches Err(e) && e == LeagueError::LeagueInactiveError),
    {
        if !self.active {
            return Err(LeagueError::LeagueInactiveError);
        }
        Ok(&self.players[self.current_seat as usize])
    }

    /// Removes the first queued occurrence of the named item, if any, from
    /// every participant's queue.
    fn remove_from_all_queues(&mut self, name: &str)
        ensures
            final(self)@ == old(self)@.remove_name_from_queues(name@),
    {
        let ghost pre = self@;
        let mut i: usize = 0;
        let n = self.players.len();
        while i < n
            invariant
                n == pre.players.len(),
                i <= n,
                self@.players.len() == pre.players.len(),
                same_but_players(self@, pre),
                forall|j: int|
                    0 <= j < i ==> self@.players[j] == pre.players[j].remove_queued(name@),
                forall|j: int| i <= j < n ==> self@.players[j] == pre.players[j],
            decreases n - i,
        {
            let ghost snap = self@;
            let p = &mut self.players[i];
            p.delete_from_queue(name);
            proof {
                assert(self@.players =~= snap.players.update(
                    i as int,
                    snap.players[i as int].remove_queued(name@),
                ));
            }
            i = i + 1;
        }
        proof {
            assert(self@.players =~= pre.players.map_values(
                |p: PlayerView| p.remove_queued(name@),
            ));
            assert(self@ =~= pre.remove_name_from_queues(name@));
        }
    }

    /// Records the given pick for whoever holds the turn, then repeatedly
    /// advances the draft, locking in the front of each next participant's
    /// queue, until the draft completes or a participant with an empty queue
    /// comes on the clock. Every locked name leaves every queue. Returns the
    /// `(participant id, item name)` pairs in pick order, or an inactivity
    /// signal — with nothing changed — when the draft is not running.
    pub fn lock(&mut self, pick: Draftable) -> (r: Result<Vec<(u64, String)>, LeagueError>)
        requires
            old(self)@.wf(),
        ensures
            final(self)@.wf(),
            !old(self)@.active ==> (r matches Err(e) && e == LeagueError::LeagueInactiveError
                && final(self)@ == old(self)@),
            old(self)@.active ==> (r matches Ok(v) && old(self)@.spec_cascade(pick@) == (
                final(self)@,
                records_view(v@),
            )),
    {
        if !self.active {
            return Err(LeagueError::LeagueInactiveError);
        }
        let ghost start = self@;
        let ghost pname = pick@;
        let mut records: Vec<(u64, String)> = Vec::new();
        let mut cur = pick;
        proof {
            assert(records_view(records@) + start.spec_cascade(pname).1 =~= start.spec_cascade(
                pname,
            ).1);
        }
        loop
            invariant_except_break
                self@.wf(),
                start.spec_cascade(pname).0 == self@.spec_cascade(cur@).0,
                start.spec_cascade(pname).1 == records_view(records@) + self@.spec_cascade(
                    cur@,
                ).1,
            ensures
                self@.wf(),
                start.spec_cascade(pname) == (self@, records_view(records@)),
            decreases self@.final_pick - self@.total_picks,
        {
            let ghost pre = self@;
            let ghost cname = cur@;
            let ghost c = pre.spec_cascade(cname);
            self.remove_from_all_queues(cur.name());
            let ghost removed = pre.remove_name_from_queues(cname);
            let seat = self.current_seat as usize;
            let current_id = self.players[seat].id();
            records.push((current_id, cur.name_owned()));
            let ghost rec = (removed.on_clock().id, cname);
            proof {
                assert(current_id == rec.0);
                assert(records_view(records@) =~= records_view(records@.drop_last()).push(rec));
            }
            let p = &mut self.players[seat];
            p.lock_in(cur);
            let ghost locked = removed.lock_current(cname);
            proof {
                assert(self@.players =~= locked.players);
                assert(self@ =~= locked);
            }
            match self.advance() {
                None => {
                    proof {
                        assert(c == (self@, seq![rec]));
                        assert(records_view(records@.drop_last()) + c.1 =~= records_view(
                            records@,
                        ));
                    }
                    break ;
                },
                Some(_) => {
                    let seat2 = self.current_seat as usize;
                    let ghost m1 = locked.spec_advance().0;
                    let q = &mut self.players[seat2];
                    match q.first_in_queue() {
                        None => {
                            proof {
                                assert(c == (self@, seq![rec]));
                                assert(records_view(records@.drop_last()) + c.1 =~= records_view(
                                    records@,
                                ));
                            }
                            break ;
                        },
                        Some(next) => {
                            proof {
                                assert(self@.players =~= m1.pop_current_queue().players);
                                assert(self@ =~= m1.pop_current_queue());
                                let rest = m1.pop_current_queue().spec_cascade(next@);
                                assert(c == (rest.0, seq![rec] + rest.1));
                                assert(records_view(records@) + rest.1 =~= records_view(
                                    records@.drop_last(),
                                ) + (seq![rec] + rest.1));
                            }
                            cur = next;
                        },
                    }
                },
            }
        }
        proof {
            assert(start == old(self)@);
            assert(pname == pick@);
        }
        Ok(records)
    }

    /// Whether an item with the given name is locked in among anyone's
    /// picks.
    fn name_in_any_picks(&self, name: &str) -> (r: bool)
        ensures
            r == self@.locked_anywhere(name@),
    {
        let ghost m = self@;
        let mut i: usize = 0;
        let n = self.players.len();
        while i < n
            invariant
                m == self@,
                n == m.players.len(),
                i <= n,
                forall|i2: int, j: int|
                    0 <= i2 < i && 0 <= j < m.players[i2].picks.len()
                        ==> m.players[i2].picks[j] != name@,
            decreases n - i,
        {
            let picks = self.players[i].picks();
            let mut j: usize = 0;
            let k = picks.len();
            while j < k
                invariant
                    m == self@,
                    n == m.players.len(),
                    i < n,
                    k == picks@.len(),
                    j <= k,
                    names_of(picks@) == m.players[i as int].picks,
                    forall|i2: int, j2: int|
                        0 <= i2 < i && 0 <= j2 < m.players[i2].picks.len()
                            ==> m.players[i2].picks[j2] != name@,
                    forall|j2: int| 0 <= j2 < j ==> m.players[i as int].picks[j2] != name@,
                decreases k - j,
            {
                if str_eq(picks[j].name(), name) {
                    assert(m.players[i as int].picks[j as int] == name@);
                    return true;
                }
                j = j + 1;
            }
            i = i + 1;
        }
        assert(!m.locked_anywhere(name@));
        false
    }

    /// Exchanges a participant's pick named `waivered_from` for the pool item
    /// `waivered_for`. Requires an inactive league; the incoming name must
    /// not be locked in anywhere; the outgoing name must be among the
    /// participant's picks. Returns the participant's updated picks; on any
    /// failure nothing changes.
    pub fn waiver(&mut self, id: u64, waivered_from: &str, waivered_for: Draftable) -> (r:
        Result<Vec<Draftable>, LeagueError>)
        ensures
            old(self)@.active ==> (r matches Err(e) && e == LeagueError::LeagueActiveError
                && final(self)@ == old(self)@),
            !old(self)@.active && old(self)@.locked_anywhere(waivered_for@) ==> (r matches Err(e)
                && e == LeagueError::DraftableInUseError && final(self)@ == old(self)@),
            !old(self)@.active && !old(self)@.locked_anywhere(waivered_for@) && !old(
                self,
            )@.has_player(id) ==> (r matches Err(e) && e == LeagueError::PlayerNotFoundError
                && final(self)@ == old(self)@),
            !old(self)@.active && !old(self)@.locked_anywhere(waivered_for@) && old(
                self,
            )@.has_player(id) && !old(self)@.players[old(self)@.player_index(id)].picks.contains(
                waivered_from@,
            ) ==> (r matches Err(e) && e == LeagueError::DraftableNotFoundError && final(self)@
                == old(self)@),
            !old(self)@.active && !old(self)@.locked_anywhere(waivered_for@) && old(
                self,
            )@.has_player(id) && old(self)@.players[old(self)@.player_index(id)].picks.contains(
                waivered_from@,
            ) ==> (r matches Ok(v) && ({
                let pi = old(self)@.player_index(id);
                let np = old(self)@.players[pi].remove_pick(waivered_from@).push_pick(
                    waivered_for@,
                );
                &&& final(self)@ == old(self)@.update_player(pi, np)
                &&& names_of(v@) == np.picks
            })),
    {
        if self.active {
            return Err(LeagueError::LeagueActiveError);
        }
        if self.name_in_any_picks(waivered_for.name()) {
            return Err(LeagueError::DraftableInUseError);
        }
        let ghost m = self@;
        let ghost fname = waivered_for@;
        let pi = match self.find_player(id) {
            Some(i) => i,
            None => {
                return Err(LeagueError::PlayerNotFoundError);
            },
        };
        let p = &mut self.players[pi];
        match p.delete_from_picks(waivered_from) {
            Some(_outgoing) => {
                p.lock_in(waivered_for);
                let v = clone_items(p.picks());
                proof {
                    let np = m.players[pi as int].remove_pick(waivered_from@).push_pick(fname);
                    assert(self@.players =~= m.players.update(pi as int, np));
                    assert(self@ =~= m.update_player(pi as int, np));
                }
                Ok(v)
            },
            None => {
                proof {
                    lemma_name_index(m.players[pi as int].picks, waivered_from@);
                    assert(self@.players =~= m.players);
                    assert(self@ =~= m);
                }
                Err(LeagueError::DraftableNotFoundError)
            },
        }
    }

    /// Trades `user1`'s pick named `item1` for `user2`'s pick named `item2`.
    /// Requires an inactive league; both participants must be in it and each
    /// must hold the named pick. The trade is all-or-nothing: on any failure
    /// nothing changes. On success returns both updated pick lists.
    pub fn trade(&mut self, user1: u64, item1: &str, user2: u64, item2: &str) -> (r: Result<
        (Vec<Draftable>, Vec<Draftable>),
        LeagueError,
    >)
        ensures
            old(self)@.active ==> (r matches Err(e) && e == LeagueError::LeagueActiveError
                && final(self)@ == old(self)@),
            !old(self)@.active && !old(self)@.has_player(user1) ==> (r matches Err(e) && e
                == LeagueError::PlayerNotFoundError && final(self)@ == old(self)@),
            !old(self)@.active && old(self)@.has_player(user1) && !old(self)@.players[old(
                self,
            )@.player_index(user1)].picks.contains(item1@) ==> (r matches Err(e) && e
                == LeagueError::DraftableNotFoundError && final(self)@ == old(self)@),
            ({
                let m = old(self)@;
                let i1 = m.player_index(user1);
                let mid = m.update_player(i1, m.players[i1].remove_pick(item1@));
                &&& (!m.active && m.has_player(user1) && m.players[i1].picks.contains(item1@)
                    && !mid.has_player(user2) ==> (r matches Err(e) && e
                    == LeagueError::PlayerNotFoundError && final(self)@ == m))
                &&& (!m.active && m.has_player(user1) && m.players[i1].picks.contains(item1@)
                    && mid.has_player(user2) && !mid.players[mid.player_index(
                    user2,
                )].picks.contains(item2@) ==> (r matches Err(e) && e
                    == LeagueError::DraftableNotFoundError && final(self)@ == m))
                &&& (!m.active && m.has_player(user1) && m.players[i1].picks.contains(item1@)
                    && mid.has_player(user2) && mid.players[mid.player_index(
                    user2,
                )].picks.contains(item2@) ==> (r matches Ok(v) && ({
                    let done = m.spec_trade(user1, item1@, user2, item2@);
                    &&& final(self)@ == done
                    &&& names_of(v.0@) == done.players[i1].picks
                    &&& names_of(v.1@) == done.players[mid.player_index(user2)].picks
                })))
            }),
    {
        if self.active {
            return Err(LeagueError::LeagueActiveError);
        }
        let ghost m = self@;
        let i1 = match self.find_player(user1) {
            Some(i) => i,
            None => {
                return Err(LeagueError::PlayerNotFoundError);
            },
        };
        let j1 = match self.players[i1].pick_position(item1) {
            Some(j) => j,
            None => {
                return Err(LeagueError::DraftableNotFoundError);
            },
        };
        let p1 = &mut self.players[i1];
        let it1 = p1.remove_pick_at(j1);
        let ghost mid = m.update_player(i1 as int, m.players[i1 as int].remove_pick(item1@));
        proof {
            lemma_name_index(m.players[i1 as int].picks, item1@);
            assert(self@.players =~= mid.players);
            assert(self@ =~= mid);
        }
        let i2 = match self.find_player(user2) {
            Some(i) => i,
            None => {
                let p1b = &mut self.players[i1];
                p1b.insert_pick_at(j1, it1);
                proof {
                    assert(self@.players[i1 as int].picks =~= m.players[i1 as int].picks);
                    assert(self@.players =~= m.players);
                    assert(self@ =~= m);
                }
                return Err(LeagueError::PlayerNotFoundError);
            },
        };
        let p2 = &mut self.players[i2];
        match p2.delete_from_picks(item2) {
            None => {
                proof {
                    lemma_name_index(mid.players[i2 as int].picks, item2@);
                    assert(self@.players =~= mid.players);
                }
                let p1b = &mut self.players[i1];
                p1b.insert_pick_at(j1, it1);
                proof {
                    assert(self@.players[i1 as int].picks =~= m.players[i1 as int].picks);
                    assert(self@.players =~= m.players);
                    assert(self@ =~= m);
                }
                Err(LeagueError::DraftableNotFoundError)
            },
            Some(it2) => {
                let ghost m2 = mid.update_player(
                    i2 as int,
                    mid.players[i2 as int].remove_pick(item2@),
                );
                proof {
                    assert(self@.players =~= m2.players);
                    assert(self@ =~= m2);
                }
                let q1 = &mut self.players[i1];
                q1.lock_in(it2);
                let ghost m3 = m2.update_player(i1 as int, m2.players[i1 as int].push_pick(item2@));
                proof {
                    assert(self@.players =~= m3.players);
                    assert(self@ =~= m3);
                }
                let q2 = &mut self.players[i2];
                q2.lock_in(it1);
                proof {
                    let done = m.spec_trade(user1, item1@, user2, item2@);
                    assert(self@.players =~= done.players);
                    assert(self@ =~= done);
                }
                let v1 = clone_items(self.players[i1].picks());
                let v2 = clone_items(self.players[i2].picks());
                Ok((v1, v2))
            },
        }
    }

    /// Appends an item to the given participant's queue and returns the
    /// updated queue, front first.
    pub fn add_to_player_queue(&mut self, id: u64, item: Draftable) -> (r: Result<
        Vec<Draftable>,
        LeagueError,
    >)
        ensures
            !old(self)@.has_player(id) ==> (r matches Err(e) && e
                == LeagueError::PlayerNotFoundError && final(self)@ == old(self)@),
            old(self)@.has_player(id) ==> (r matches Ok(v) && ({
                let pi = old(self)@.player_index(id);
                let np = old(self)@.players[pi].push_queued(item@);
                &&& final(self)@ == old(self)@.update_player(pi, np)
                &&& names_of(v@) == np.queue
            })),
    {
        let ghost m = self@;
        let ghost iname = item@;
        match self.find_player(id) {
            None => Err(LeagueError::PlayerNotFoundError),
            Some(pi) => {
                let p = &mut self.players[pi];
                p.add_to_queue(item);
                let v = clone_queue_items(p.queue());
                proof {
                    let np = m.players[pi as int].push_queued(iname);
                    assert(self@.players =~= m.players.update(pi as int, np));
                    assert(self@ =~= m.update_player(pi as int, np));
                }
                Ok(v)
            },
        }
    }

    /// Removes the first item with the given name from the given
    /// participant's queue and returns it.
    pub fn delete_from_player_queue(&mut self, id: u64, name: &str) -> (r: Result<
        Draftable,
        LeagueError,
    >)
        ensures
            !old(self)@.has_player(id) ==> (r matches Err(e) && e
                == LeagueError::PlayerNotFoundError && final(self)@ == old(self)@),
            old(self)@.has_player(id) && !old(self)@.players[old(self)@.player_index(
                id,
            )].queue.contains(name@) ==> (r matches Err(e) && e
                == LeagueError::DraftableNotFoundError && final(self)@ == old(self)@),
            old(self)@.has_player(id) && old(self)@.players[old(self)@.player_index(
                id,
            )].queue.contains(name@) ==> (r matches Ok(d) && d@ == name@ && ({
                let pi = old(self)@.player_index(id);
                final(self)@ == old(self)@.update_player(
                    pi,
                    old(self)@.players[pi].remove_queued(name@),
                )
            })),
    {
        let ghost m = self@;
        match self.find_player(id) {
            None => Err(LeagueError::PlayerNotFoundError),
            Some(pi) => {
                let p = &mut self.players[pi];
                let removed = p.delete_from_queue(name);
                proof {
                    let np = m.players[pi as int].remove_queued(name@);
                    assert(self@.players =~= m.players.update(pi as int, np));
                    assert(self@ =~= m.update_player(pi as int, np));
                    if !m.players[pi as int].queue.contains(name@) {
                        lemma_name_index(m.players[pi as int].queue, name@);
                        assert(self@.players =~= m.players);
                        assert(self@ =~= m);
                    }
                }
                match removed {
                    Some(d) => Ok(d),
                    None => Err(LeagueError::DraftableNotFoundError),
                }
            },
        }
    }

    /// The given participant's queue, front first, or a signal that the
    /// participant is unknown or the queue holds nothing.
    pub fn player_queue(&self, id: u64) -> (r: Result<&VecDeque<Draftable>, LeagueError>)
        ensures
            !self@.has_player(id) ==> (r matches Err(e) && e
                == LeagueError::PlayerNotFoundError),
            self@.has_player(id) && self@.players[self@.player_index(id)].queue.len() == 0 ==> (
            r matches Err(e) && e == LeagueError::PlayerQueueEmptyError),
            self@.has_player(id) && self@.players[self@.player_index(id)].queue.len() > 0 ==> (
            r matches Ok(q) && names_of(q@) == self@.players[self@.player_index(id)].queue),
    {
        match self.find_player(id) {
            None => Err(LeagueError::PlayerNotFoundError),
            Some(pi) => {
                let q = self.players[pi].queue();
                if q.len() == 0 {
                    Err(LeagueError::PlayerQueueEmptyError)
                } else {
                    Ok(q)
                }
            },
        }
    }

    /// The given participant's locked-in picks, in pick order, or a signal
    /// that the participant is unknown or has no picks yet.
    pub fn player_picks(&self, id: u64) -> (r: Result<&Vec<Draftable>, LeagueError>)
        ensures
            !self@.has_player(id) ==> (r matches Err(e) && e
                == LeagueError::PlayerNotFoundError),
            self@.has_player(id) && self@.players[self@.player_index(id)].picks.len() == 0 ==> (
            r matches Err(e) && e == LeagueError::PlayerPicksEmptyError),
            self@.has_player(id) && self@.players[self@.player_index(id)].picks.len() > 0 ==> (
            r matches Ok(v) && names_of(v@) == self@.players[self@.player_index(id)].picks),
    {
        match self.find_player(id) {
            None => Err(LeagueError::PlayerNotFoundError),
            Some(pi) => {
                let v = self.players[pi].picks();
                if v.len() == 0 {
                    Err(LeagueError::PlayerPicksEmptyError)
                } else {
                    Ok(v)
                }
            },
        }
    }

    /// Copies of all picks locked in across the league, in seat order and
    /// pick order, or a signal that nobody has picked yet.
    pub fn all_picks(&self) -> (r: Result<Vec<Draftable>, LeagueError>)
        ensures
            picks_concat(self@.players).len() == 0 <==> (r matches Err(e) && e
                == LeagueError::NoPicksError),
            picks_concat(self@.players).len() > 0 ==> (r matches Ok(v) && names_of(v@)
                == picks_concat(self@.players)),
    {
        let ghost m = self@;
        let mut out: Vec<Draftable> = Vec::new();
        let mut i: usize = 0;
        let n = self.players.len();
        proof {
            assert(m.players.take(0) =~= Seq::<PlayerView>::empty());
            assert(names_of(out@) =~= picks_concat(m.players.take(0)));
        }
        while i < n
            invariant
                m == self@,
                n == m.players.len(),
                i <= n,
                names_of(out@) == picks_concat(m.players.take(i as int)),
            decreases n - i,
        {
            let picks = self.players[i].picks();
            let mut j: usize = 0;
            let k = picks.len();
            while j < k
                invariant
                    m == self@,
                    n == m.players.len(),
                    i < n,
                    k == picks@.len(),
                    j <= k,
                    names_of(picks@) == m.players[i as int].picks,
                    names_of(out@) == picks_concat(m.players.take(i as int)) + names_of(
                        picks@,
                    ).take(j as int),
                decreases k - j,
            {
                let ghost opre = out@;
                out.push(picks[j].clone());
                proof {
                    assert(names_of(out@) =~= names_of(opre).push(picks@[j as int]@));
                    assert(names_of(picks@).take(j + 1) =~= names_of(picks@).take(
                        j as int,
                    ).push(names_of(picks@)[j as int]));
                    assert(names_of(out@) =~= picks_concat(m.players.take(i as int)) + names_of(
                        picks@,
                    ).take(j + 1));
                }
                j = j + 1;
            }
            proof {
                assert(names_of(picks@).take(k as int) =~= names_of(picks@));
                assert(m.players.take(i + 1).drop_last() =~= m.players.take(i as int));
                assert(m.players.take(i + 1).last() == m.players[i as int]);
                assert(names_of(out@) =~= picks_concat(m.players.take(i + 1)));
            }
            i = i + 1;
        }
        proof {
            assert(m.players.take(n as int) =~= m.players);
        }
        if out.len() == 0 {
            Err(LeagueError::NoPicksError)
        } else {
            Ok(out)
        }
    }

    /// Empties the given participant's queue and returns the removed items in
    /// queue order.
    pub fn clear_player_queue(&mut self, id: u64) -> (r: Result<Vec<Draftable>, LeagueError>)
        ensures
            !old(self)@.has_player(id) ==> (r matches Err(e) && e
                == LeagueError::PlayerNotFoundError && final(self)@ == old(self)@),
            old(self)@.has_player(id) && old(self)@.players[old(self)@.player_index(
                id,
            )].queue.len() == 0 ==> (r matches Err(e) && e == LeagueError::PlayerQueueEmptyError
                && final(self)@ == old(self)@),
            old(self)@.has_player(id) && old(self)@.players[old(self)@.player_index(
                id,
            )].queue.len() > 0 ==> (r matches Ok(v) && ({
                let pi = old(self)@.player_index(id);
                &&& names_of(v@) == old(self)@.players[pi].queue
                &&& final(self)@ == old(self)@.update_player(
                    pi,
                    old(self)@.players[pi].clear_queue(),
                )
            })),
    {
        let ghost m = self@;
        match self.find_player(id) {
            None => Err(LeagueError::PlayerNotFoundError),
            Some(pi) => {
                if self.players[pi].queue().len() == 0 {
                    return Err(LeagueError::PlayerQueueEmptyError);
                }
                let p = &mut self.players[pi];
                let v = p.take_queue();
                proof {
                    let np = m.players[pi as int].clear_queue();
                    assert(self@.players =~= m.players.update(pi as int, np));
                    assert(self@ =~= m.update_player(pi as int, np));
                }
                Ok(v)
            },
        }
    }

    /// Adds an item straight into the given participant's picks, bypassing
    /// turn order — for an organizer resolving a skipped turn. The name must
    /// not be locked in anywhere. Returns the participant's updated picks.
    pub fn add_to_player_picks(&mut self, id: u64, pick: Draftable) -> (r: Result<
        Vec<Draftable>,
        LeagueError,
    >)
        ensures
            old(self)@.locked_anywhere(pick@) ==> (r matches Err(e) && e
                == LeagueError::DraftableInUseError && final(self)@ == old(self)@),
            !old(self)@.locked_anywhere(pick@) && !old(self)@.has_player(id) ==> (r matches Err(e)
                && e == LeagueError::PlayerNotFoundError && final(self)@ == old(self)@),
            !old(self)@.locked_anywhere(pick@) && old(self)@.has_player(id) ==> (r matches Ok(v)
                && ({
                let pi = old(self)@.player_index(id);
                let np = old(self)@.players[pi].push_pick(pick@);
                &&& final(self)@ == old(self)@.update_player(pi, np)
                &&& names_of(v@) == np.picks
            })),
    {
        if self.name_in_any_picks(pick.name()) {
            return Err(LeagueError::DraftableInUseError);
        }
        let ghost m = self@;
        let ghost pname = pick@;
        match self.find_player(id) {
            None => Err(LeagueError::PlayerNotFoundError),
            Some(pi) => {
                let p = &mut self.players[pi];
                p.lock_in(pick);
                let v = clone_items(p.picks());
                proof {
                    let np = m.players[pi as int].push_pick(pname);
                    assert(self@.players =~= m.players.update(pi as int, np));
                    assert(self@ =~= m.update_player(pi as int, np));
                }
                Ok(v)
            },
        }
    }

    /// Seat of the first participant with the given id, if any.
    fn find_player(&self, id: u64) -> (r: Option<usize>)
        ensures
            match r {
                Some(i) => self@.has_player(id) && i == self@.player_index(id),
                None => !self@.has_player(id),
            },
    {
        let ghost m = self@;
        let mut i: usize = 0;
        let n = self.players.len();
        while i < n
            invariant
                n == self@.players.len(),
                m == self@,
                i <= n,
                forall|j: int| 0 <= j < i ==> m.players[j].id != id,
            decreases n - i,
        {
            if self.players[i].id() == id {
                proof {
                    assert(m.players[i as int].id == id);
                    lemma_player_index(m, id);
                }
                return Some(i);
            }
            i = i + 1;
        }
        proof {
            lemma_player_index(m, id);
        }
        None
    }
}

} // verus!
