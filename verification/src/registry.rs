//! A name-keyed collection of independent leagues scoped to one organizing
//! context: pure bookkeeping. No two leagues in a guild share a name.

use vstd::prelude::*;

use crate::item::str_eq;
use crate::league::League;
use crate::league::LeagueView;
use crate::seq_find::first_match;
use crate::seq_find::lemma_first_match;

verus! {

/// Why a guild operation failed.
#[derive(Debug)]
pub enum DraftGuildError {
    /// No league with the given name or id is in this guild.
    LeagueNotFoundError,
    /// A league with the given name is already in this guild.
    LeagueNameAlreadyInUseError,
}

/// The predicate "this league has the name looked for".
pub open spec fn league_has_name(name: Seq<char>) -> spec_fn(LeagueView) -> bool {
    |l: LeagueView| l.name == name
}

/// The predicate "this league has the id looked for".
pub open spec fn league_has_id(id: u64) -> spec_fn(LeagueView) -> bool {
    |l: LeagueView| l.id == id
}

/// The leagues a guild holds, in insertion order, and its own identity.
#[verifier::ext_equal]
pub ghost struct GuildView {
    pub id: u64,
    pub default_output: u64,
    pub leagues: Seq<LeagueView>,
}

impl GuildView {
    /// Internal validity: no two leagues share a name.
    pub open spec fn wf(self) -> bool {
        forall|i: int, j: int|
            0 <= i < j < self.leagues.len() ==> (#[trigger] self.leagues[i]).name != (
            #[trigger] self.leagues[j]).name
    }

    /// Position of the first league with the given name, or the number of
    /// leagues when none has it.
    pub open spec fn index_by_name(self, name: Seq<char>) -> int {
        first_match(self.leagues, league_has_name(name))
    }

    /// Whether some league has the given name.
    pub open spec fn has_league_named(self, name: Seq<char>) -> bool {
        self.index_by_name(name) < self.leagues.len()
    }

    /// Position of the first league with the given id, or the number of
    /// leagues when none has it.
    pub open spec fn index_by_id(self, id: u64) -> int {
        first_match(self.leagues, league_has_id(id))
    }

    /// Whether some league has the given id.
    pub open spec fn has_league_with_id(self, id: u64) -> bool {
        self.index_by_id(id) < self.leagues.len()
    }
}

/// What `GuildView::index_by_name` returns: the first position whose league
/// has the name, within bounds exactly when the name is present at all.
pub proof fn lemma_index_by_name(g: GuildView, name: Seq<char>)
    ensures
        0 <= g.index_by_name(name) <= g.leagues.len(),
        g.has_league_named(name) ==> g.leagues[g.index_by_name(name)].name == name,
        forall|j: int| 0 <= j < g.index_by_name(name) ==> (#[trigger] g.leagues[j]).name != name,
        g.has_league_named(name) <==> exists|j: int|
            0 <= j < g.leagues.len() && (#[trigger] g.leagues[j]).name == name,
{
    lemma_first_match(g.leagues, league_has_name(name));
    if exists|j: int| 0 <= j < g.leagues.len() && (#[trigger] g.leagues[j]).name == name {
        let w = choose|j: int| 0 <= j < g.leagues.len() && (#[trigger] g.leagues[j]).name == name;
        assert(league_has_name(name)(g.leagues[w]));
    }
}

/// A container for any number of draft leagues in a single organizing
/// context, found by name or id, with a default output channel for leagues
/// that set none of their own.
pub struct DraftGuild {
    id: u64,
    leagues: Vec<League>,
    default_output: u64,
}

impl View for DraftGuild {
    type V = GuildView;

    closed spec fn view(&self) -> GuildView {
        GuildView {
            id: self.id,
            default_output: self.default_output,
            leagues: self.leagues@.map_values(|l: League| l@),
        }
    }
}

impl DraftGuild {
    /// Creates a guild holding no leagues.
    pub fn new(id: u64, default_output: u64) -> (g: DraftGuild)
        ensures
            g@.wf(),
            g@.id == id,
            g@.default_output == default_output,
            g@.leagues.len() == 0,
    {
        let g = DraftGuild { id, leagues: Vec::new(), default_output };
        proof {
            assert(g@.leagues =~= Seq::<LeagueView>::empty());
        }
        g
    }

    /// Position of the first league with the given name, if any.
    fn find_by_name(&self, name: &str) -> (r: Option<usize>)
        ensures
            match r {
                Some(i) => self@.has_league_named(name@) && i == self@.index_by_name(name@),
                None => !self@.has_league_named(name@),
            },
    {
        let ghost g = self@;
        let mut i: usize = 0;
        let n = self.leagues.len();
        while i < n
            invariant
                g == self@,
                n == g.leagues.len(),
                i <= n,
                forall|j: int| 0 <= j < i ==> (#[trigger] g.leagues[j]).name != name@,
            decreases n - i,
        {
            if str_eq(self.leagues[i].name().as_str(), name) {
                proof {
                    lemma_first_match(g.leagues, league_has_name(name@));
                    assert(league_has_name(name@)(g.leagues[i as int]));
                }
                return Some(i);
            }
            i = i + 1;
        }
        proof {
            lemma_first_match(g.leagues, league_has_name(name@));
        }
        None
    }

    /// Position of the first league with the given id, if any.
    fn find_by_id(&self, id: u64) -> (r: Option<usize>)
        ensures
            match r {
                Some(i) => self@.has_league_with_id(id) && i == self@.index_by_id(id),
                None => !self@.has_league_with_id(id),
            },
    {
        let ghost g = self@;
        let mut i: usize = 0;
        let n = self.leagues.len();
        while i < n
            invariant
                g == self@,
                n == g.leagues.len(),
                i <= n,
                forall|j: int| 0 <= j < i ==> (#[trigger] g.leagues[j]).id != id,
            decreases n - i,
        {
            if self.leagues[i].id() == id {
                proof {
                    lemma_first_match(g.leagues, league_has_id(id));
                    assert(league_has_id(id)(g.leagues[i as int]));
                }
                return Some(i);
            }
            i = i + 1;
        }
        proof {
            lemma_first_match(g.leagues, league_has_id(id));
        }
        None
    }

    /// Adds a league. No more than one league with a given name can be in a
    /// guild at a time: a second one is refused and nothing changes.
    pub fn add_league(&mut self, league: League) -> (r: Result<(), DraftGuildError>)
        ensures
            old(self)@.has_league_named(league@.name) ==> (r matches Err(e) && e
                == DraftGuildError::LeagueNameAlreadyInUseError && final(self)@ == old(self)@),
            !old(self)@.has_league_named(league@.name) ==> r is Ok && final(self)@ == (GuildView {
                leagues: old(self)@.leagues.push(league@),
                ..old(self)@
            }),
            old(self)@.wf() ==> final(self)@.wf(),
    {
        let ghost g = self@;
        let ghost lv = league@;
        if self.find_by_name(league.name().as_str()).is_some() {
            return Err(DraftGuildError::LeagueNameAlreadyInUseError);
        }
        self.leagues.push(league);
        proof {
            assert(self@.leagues =~= g.leagues.push(lv));
            assert(self@ =~= (GuildView { leagues: g.leagues.push(lv), ..g }));
            if g.wf() {
                lemma_index_by_name(g, lv.name);
            }
        }
        Ok(())
    }

    /// The league with the given name, if one is in this guild.
    pub fn league_by_name(&self, key: String) -> (r: Result<&League, DraftGuildError>)
        ensures
            self@.has_league_named(key@) ==> (r matches Ok(l) && l@ == self@.leagues[self@.index_by_name(
                key@,
            )]),
            !self@.has_league_named(key@) ==> (r matches Err(e) && e
                == DraftGuildError::LeagueNotFoundError),
    {
        match self.find_by_name(key.as_str()) {
            Some(i) => Ok(&self.leagues[i]),
            None => Err(DraftGuildError::LeagueNotFoundError),
        }
    }

    /// The first league with the given id, if one is in this guild.
    pub fn league_by_id(&self, id: u64) -> (r: Result<&League, DraftGuildError>)
        ensures
            self@.has_league_with_id(id) ==> (r matches Ok(l) && l@ == self@.leagues[self@.index_by_id(
                id,
            )]),
            !self@.has_league_with_id(id) ==> (r matches Err(e) && e
                == DraftGuildError::LeagueNotFoundError),
    {
        match self.find_by_id(id) {
            Some(i) => Ok(&self.leagues[i]),
            None => Err(DraftGuildError::LeagueNotFoundError),
        }
    }

    /// Removes and returns the league with the given name, if any.
    pub fn delete_league(&mut self, key: String) -> (r: Result<League, DraftGuildError>)
        ensures
            !old(self)@.has_league_named(key@) ==> (r matches Err(e) && e
                == DraftGuildError::LeagueNotFoundError && final(self)@ == old(self)@),
            old(self)@.has_league_named(key@) ==> (r matches Ok(l) && ({
                let i = old(self)@.index_by_name(key@);
                &&& l@ == old(self)@.leagues[i]
                &&& final(self)@ == (GuildView { leagues: old(self)@.leagues.remove(i), ..old(
                    self,
                )@ })
            })),
            old(self)@.wf() ==> final(self)@.wf(),
    {
        let ghost g = self@;
        match self.find_by_name(key.as_str()) {
            None => Err(DraftGuildError::LeagueNotFoundError),
            Some(i) => {
                let l = self.leagues.remove(i);
                proof {
                    assert(self@.leagues =~= g.leagues.remove(i as int));
                    assert(self@ =~= (GuildView { leagues: g.leagues.remove(i as int), ..g }));
                    if g.wf() {
                        lemma_remove_keeps_distinct_names(g.leagues, i as int);
                    }
                }
                Ok(l)
            },
        }
    }

    /// Removes and returns the first league with the given id, if any.
    pub fn delete_league_by_id(&mut self, id: u64) -> (r: Result<League, DraftGuildError>)
        ensures
            !old(self)@.has_league_with_id(id) ==> (r matches Err(e) && e
                == DraftGuildError::LeagueNotFoundError && final(self)@ == old(self)@),
            old(self)@.has_league_with_id(id) ==> (r matches Ok(l) && ({
                let i = old(self)@.index_by_id(id);
                &&& l@ == old(self)@.leagues[i]
                &&& final(self)@ == (GuildView { leagues: old(self)@.leagues.remove(i), ..old(
                    self,
                )@ })
            })),
            old(self)@.wf() ==> final(self)@.wf(),
    {
        let ghost g = self@;
        match self.find_by_id(id) {
            None => Err(DraftGuildError::LeagueNotFoundError),
            Some(i) => {
                let l = self.leagues.remove(i);
                proof {
                    assert(self@.leagues =~= g.leagues.remove(i as int));
                    assert(self@ =~= (GuildView { leagues: g.leagues.remove(i as int), ..g }));
                    if g.wf() {
                        lemma_remove_keeps_distinct_names(g.leagues, i as int);
                    }
                }
                Ok(l)
            },
        }
    }

    /// Removes and returns the league with the given name, together with its
    /// position, so that a caller can mutate the league and return it to its
    /// place with [`DraftGuild::put_league`].
    pub fn take_league(&mut self, key: String) -> (r: Result<(usize, League), DraftGuildError>)
        ensures
            !old(self)@.has_league_named(key@) ==> (r matches Err(e) && e
                == DraftGuildError::LeagueNotFoundError && final(self)@ == old(self)@),
            old(self)@.has_league_named(key@) ==> (r matches Ok(taken) && ({
                let i = old(self)@.index_by_name(key@);
                &&& taken.0 == i
                &&& taken.1@ == old(self)@.leagues[i]
                &&& final(self)@ == (GuildView { leagues: old(self)@.leagues.remove(i), ..old(
                    self,
                )@ })
            })),
            old(self)@.wf() ==> final(self)@.wf(),
    {
        let ghost g = self@;
        match self.find_by_name(key.as_str()) {
            None => Err(DraftGuildError::LeagueNotFoundError),
            Some(i) => {
                let l = self.leagues.remove(i);
                proof {
                    assert(self@.leagues =~= g.leagues.remove(i as int));
                    assert(self@ =~= (GuildView { leagues: g.leagues.remove(i as int), ..g }));
                    if g.wf() {
                        lemma_remove_keeps_distinct_names(g.leagues, i as int);
                    }
                }
                Ok((i, l))
            },
        }
    }

    /// Puts a league into the guild at the given position, shifting later
    /// leagues back — the counterpart of [`DraftGuild::take_league`], which
    /// restores the original order when the league goes back where it was
    /// taken from. Refuses a name already in use and a position beyond the
    /// end; nothing changes on failure.
    pub fn put_league(&mut self, pos: usize, league: League) -> (r: Result<(), DraftGuildError>)
        ensures
            old(self)@.has_league_named(league@.name) ==> (r matches Err(e) && e
                == DraftGuildError::LeagueNameAlreadyInUseError && final(self)@ == old(self)@),
            !old(self)@.has_league_named(league@.name) && pos > old(self)@.leagues.len() ==> (
            r matches Err(e) && e == DraftGuildError::LeagueNotFoundError && final(self)@ == old(
                self,
            )@),
            !old(self)@.has_league_named(league@.name) && pos <= old(self)@.leagues.len() ==> r
                is Ok && final(self)@ == (GuildView {
                leagues: old(self)@.leagues.insert(pos as int, league@),
                ..old(self)@
            }),
            old(self)@.wf() ==> final(self)@.wf(),
    {
        let ghost g = self@;
        let ghost lv = league@;
        if self.find_by_name(league.name().as_str()).is_some() {
            return Err(DraftGuildError::LeagueNameAlreadyInUseError);
        }
        if pos > self.leagues.len() {
            return Err(DraftGuildError::LeagueNotFoundError);
        }
        self.leagues.insert(pos, league);
        proof {
            assert(self@.leagues =~= g.leagues.insert(pos as int, lv));
            assert(self@ =~= (GuildView { leagues: g.leagues.insert(pos as int, lv), ..g }));
            if g.wf() {
                lemma_index_by_name(g, lv.name);
                lemma_insert_keeps_distinct_names(g.leagues, pos as int, lv);
            }
        }
        Ok(())
    }

    /// Removes all leagues and returns them in insertion order.
    pub fn clear_leagues(&mut self) -> (r: Vec<League>)
        ensures
            r@.map_values(|l: League| l@) == old(self)@.leagues,
            final(self)@ == (GuildView { leagues: Seq::<LeagueView>::empty(), ..old(self)@ }),
    {
        let ghost g = self@;
        let r = self.leagues.split_off(0);
        proof {
            assert(r@.map_values(|l: League| l@) =~= g.leagues);
            assert(self@.leagues =~= Seq::<LeagueView>::empty());
            assert(self@ =~= (GuildView { leagues: Seq::<LeagueView>::empty(), ..g }));
        }
        r
    }
}

/// Inserting a league whose name nobody has keeps the names pairwise
/// distinct.
proof fn lemma_insert_keeps_distinct_names(s: Seq<LeagueView>, i: int, l: LeagueView)
    requires
        0 <= i <= s.len(),
        forall|a: int, b: int|
            0 <= a < b < s.len() ==> (#[trigger] s[a]).name != (#[trigger] s[b]).name,
        forall|a: int| 0 <= a < s.len() ==> (#[trigger] s[a]).name != l.name,
    ensures
        forall|a: int, b: int|
            0 <= a < b < s.insert(i, l).len() ==> (#[trigger] s.insert(i, l)[a]).name != (
            #[trigger] s.insert(i, l)[b]).name,
{
    let t = s.insert(i, l);
    s.insert_ensures(i, l);
    assert forall|a: int, b: int| 0 <= a < b < t.len() implies (#[trigger] t[a]).name != (
    #[trigger] t[b]).name by {
        if a != i && b != i {
            let a0 = if a < i {
                a
            } else {
                a - 1
            };
            let b0 = if b < i {
                b
            } else {
                b - 1
            };
            assert(t[a] == s[a0]);
            assert(t[b] == s[b0]);
        }
    }
}

/// Removing one league keeps the remaining names pairwise distinct.
proof fn lemma_remove_keeps_distinct_names(s: Seq<LeagueView>, i: int)
    requires
        0 <= i < s.len(),
        forall|a: int, b: int|
            0 <= a < b < s.len() ==> (#[trigger] s[a]).name != (#[trigger] s[b]).name,
    ensures
        forall|a: int, b: int|
            0 <= a < b < s.remove(i).len() ==> (#[trigger] s.remove(i)[a]).name != (
            #[trigger] s.remove(i)[b]).name,
{
    let t = s.remove(i);
    assert forall|a: int, b: int| 0 <= a < b < t.len() implies (#[trigger] t[a]).name != (
    #[trigger] t[b]).name by {
        let a0 = if a < i {
            a
        } else {
            a + 1
        };
        let b0 = if b < i {
            b
        } else {
            b + 1
        };
        assert(t[a] == s[a0]);
        assert(t[b] == s[b0]);
    }
}

} // verus!
