//! The scoreboard: players with live scores in rank order, and the timed
//! celebration of a declared winner.

use vstd::prelude::*;
use crate::id_set::{id_set_contents, IdSet};
use crate::ranking::{
    added, has_id, ids_of, incremented, index_of, lemma_added, lemma_removed, lemma_rescored,
    lemma_zeroed, place, ranked, removed, rescored, score_of, unique_ids, with_score, zeroed,
    EntryView,
};
use crate::text::{format_line, line_text};

verus! {

/// How long a winner is celebrated, in nanoseconds of real time.
pub const CELEBRATION_NANOS: u64 = 2_500_000_000;

/// Whether the game is waiting for a winner or celebrating one.
#[derive(Clone, Copy, Debug, PartialEq, Eq, Structural)]
pub enum WinState {
    Detecting,
    Displaying,
}

/// A player with this id is already on the scoreboard.
#[derive(Clone, Copy, Debug, PartialEq, Eq, Structural)]
pub struct DuplicateIdError {
    pub id: usize,
}

struct ScoreboardEntry {
    score: i32,
    id: usize,
    name: String,
    color: bevy::color::Color,
}

impl ScoreboardEntry {
    spec fn model(&self) -> EntryView {
        EntryView { id: self.id, name: self.name@, color: self.color, score: self.score as int }
    }
}

spec fn models(v: Seq<ScoreboardEntry>) -> Seq<EntryView> {
    v.map_values(|e: ScoreboardEntry| e.model())
}

/// The entry for a player who has just joined.
pub open spec fn joining(id: usize, name: Seq<char>, color: bevy::color::Color) -> EntryView {
    EntryView { id, name, color, score: 0 }
}

/// Players with their scores in rank order, and the celebration of a winner.
pub struct Scoreboard {
    entries: Vec<ScoreboardEntry>,
    player_ids: IdSet,
    winner_entity: Option<bevy::ecs::entity::Entity>,
    win_state: WinState,
    winner_elapsed: u64,
}

impl View for Scoreboard {
    type V = Seq<EntryView>;

    /// The entries in rank order.
    closed spec fn view(&self) -> Seq<EntryView> {
        models(self.entries@)
    }
}

impl Scoreboard {
    /// The entries are ranked with unique ids, the id set matches them, and the
    /// celebration holds a winner exactly while it is displayed.
    pub closed spec fn wf(&self) -> bool {
        &&& ranked(self@)
        &&& unique_ids(self@)
        &&& id_set_contents(self.player_ids) == ids_of(self@)
        &&& self.win_state == WinState::Detecting ==> self.winner_entity is None
            && self.winner_elapsed == 0
        &&& self.win_state == WinState::Displaying ==> self.winner_entity is Some
            && self.winner_elapsed < CELEBRATION_NANOS
    }

    /// The celebration's state.
    pub closed spec fn state(&self) -> WinState {
        self.win_state
    }

    /// The winner being celebrated.
    pub closed spec fn winner(&self) -> Option<bevy::ecs::entity::Entity> {
        self.winner_entity
    }

    /// Nanoseconds that the current celebration has run.
    pub closed spec fn elapsed(&self) -> nat {
        self.winner_elapsed as nat
    }

    /// Both scoreboards are at the same point of the celebration.
    pub open spec fn same_celebration(&self, other: &Scoreboard) -> bool {
        &&& self.state() == other.state()
        &&& self.winner() == other.winner()
        &&& self.elapsed() == other.elapsed()
    }

    /// An empty scoreboard waiting for a winner.
    pub fn new() -> (r: Scoreboard)
        ensures
            r.wf(),
            r@ == Seq::<EntryView>::empty(),
            r.state() == WinState::Detecting,
            r.winner() is None,
            r.elapsed() == 0,
    {
        let r = Scoreboard {
            entries: Vec::new(),
            player_ids: IdSet::new(),
            winner_entity: None,
            win_state: WinState::Detecting,
            winner_elapsed: 0,
        };
        proof {
            assert(r@ =~= Seq::<EntryView>::empty());
            assert(ids_of(r@) =~= Set::<usize>::empty());
        }
        r
    }

    /// Inserts `x`, which stood at index `k` before, where the stable
    /// descending sort puts it among the other entries.
    fn settle(entries: &mut Vec<ScoreboardEntry>, x: ScoreboardEntry, k: usize)
        ensures
            models(final(entries)@) == place(models(old(entries)@), x.model(), k as int),
    {
        let ghost rest = models(entries@);
        let mut p: usize = 0;
        while p < entries.len() && (entries[p].score > x.score || (entries[p].score == x.score
            && p < k))
            invariant
                p <= entries.len(),
                models(entries@) == rest,
                crate::ranking::settle_pos(rest, x.score as int, k as int, 0)
                    == crate::ranking::settle_pos(rest, x.score as int, k as int, p as int),
            decreases entries.len() - p,
        {
            p = p + 1;
        }
        let ghost xm = x.model();
        entries.insert(p, x);
        proof {
            assert(models(entries@) =~= rest.insert(p as int, xm));
        }
    }

    /// The index of the player with `id`, if there is one.
    fn find(&self, id: usize) -> (r: Option<usize>)
        requires
            self.wf(),
        ensures
            r is Some <==> has_id(self@, id),
            r is Some ==> r->0 == index_of(self@, id) && r->0 < self@.len(),
    {
        let mut i: usize = 0;
        while i < self.entries.len()
            invariant
                i <= self.entries.len(),
                self.wf(),
                forall|j: int| 0 <= j < i ==> self@[j].id != id,
            decreases self.entries.len() - i,
        {
            if self.entries[i].id == id {
                proof {
                    assert(self@[i as int].id == id);
                    assert(has_id(self@, id));
                }
                return Some(i);
            }
            i = i + 1;
        }
        None
    }

    /// Gives the player at index `k` a new score and ranks the entries anew.
    fn rescore(&mut self, k: usize, score: i32)
        requires
            old(self).wf(),
            k < old(self)@.len(),
        ensures
            final(self).wf(),
            final(self).same_celebration(&*old(self)),
            final(self)@ == rescored(old(self)@, old(self)@[k as int].id, score as int),
    {
        let ghost s = self@;
        let ghost id = s[k as int].id;
        proof {
            assert(has_id(s, id));
            assert(index_of(s, id) == k) by {
                let j = index_of(s, id);
                assert(s[j].id == id);
            }
        }
        let mut e = self.entries.remove(k);
        e.score = score;
        proof {
            assert(models(self.entries@) =~= s.remove(k as int));
            assert(e.model() == with_score(s[k as int], score as int));
        }
        Self::settle(&mut self.entries, e, k);
        proof {
            lemma_rescored(s, id, score as int);
        }
    }

    /// Adds a player with score zero and ranks the entries anew; a known id is
    /// reported and leaves the scoreboard unchanged.
    pub fn add_player(&mut self, id: usize, name: String, color: bevy::color::Color) -> (r: Result<
        (),
        DuplicateIdError,
    >)
        requires
            old(self).wf(),
        ensures
            final(self).wf(),
            final(self).same_celebration(&*old(self)),
            final(self)@ == added(old(self)@, joining(id, name@, color)),
            has_id(old(self)@, id) ==> r == Err::<(), DuplicateIdError>(DuplicateIdError { id }),
            !has_id(old(self)@, id) ==> r is Ok,
    {
        let ghost s = self@;
        let ghost e = joining(id, name@, color);
        if self.player_ids.contains(id) {
            return Err(DuplicateIdError { id });
        }
        self.player_ids.insert(id);
        let k = self.entries.len();
        let entry = ScoreboardEntry { score: 0, id, name, color };
        proof {
            assert(entry.model() == with_score(e, 0));
        }
        Self::settle(&mut self.entries, entry, k);
        proof {
            lemma_added(s, e);
        }
        Ok(())
    }

    /// Takes out the player with `id`; an unknown id changes nothing.
    pub fn remove_player(&mut self, id: usize)
        requires
            old(self).wf(),
        ensures
            final(self).wf(),
            final(self).same_celebration(&*old(self)),
            final(self)@ == removed(old(self)@, id),
    {
        let ghost s = self@;
        let found = self.find(id);
        self.player_ids.remove(id);
        match found {
            Some(k) => {
                self.entries.remove(k);
                proof {
                    assert(models(self.entries@) =~= s.remove(k as int));
                }
            },
            None => {},
        }
        proof {
            lemma_removed(s, id);
        }
    }

    /// Adds `amount` to the score of the player with `player_id` and ranks the
    /// entries anew; an unknown id changes nothing.
    pub fn increment(&mut self, player_id: usize, amount: i32)
        requires
            old(self).wf(),
            i32::MIN <= score_of(old(self)@, player_id) + amount <= i32::MAX,
        ensures
            final(self).wf(),
            final(self).same_celebration(&*old(self)),
            final(self)@ == incremented(old(self)@, player_id, amount as int),
    {
        match self.find(player_id) {
            Some(k) => {
                let score = self.entries[k].score + amount;
                self.rescore(k, score);
            },
            None => {},
        }
    }

    /// The score of the player with `player_id`; zero for an unknown id.
    pub fn get_score(&self, player_id: usize) -> (r: i32)
        requires
            self.wf(),
        ensures
            r as int == score_of(self@, player_id),
    {
        match self.find(player_id) {
            Some(k) => self.entries[k].score,
            None => 0,
        }
    }

    /// The highest score on the board; zero when it is empty.
    pub fn high_score(&self) -> (r: i32)
        requires
            self.wf(),
        ensures
            self@.len() == 0 ==> r == 0,
            self@.len() > 0 ==> exists|i: int| 0 <= i < self@.len() && self@[i].score == r,
            forall|i: int| 0 <= i < self@.len() ==> self@[i].score <= r,
    {
        if self.entries.len() == 0 {
            0
        } else {
            proof {
                assert(self@[0].score == self.entries@[0].score);
            }
            self.entries[0].score
        }
    }

    /// Sets the score of the player with `player_id` and ranks the entries
    /// anew; an unknown id changes nothing.
    pub fn set_score(&mut self, player_id: usize, score: i32)
        requires
            old(self).wf(),
        ensures
            final(self).wf(),
            final(self).same_celebration(&*old(self)),
            final(self)@ == rescored(old(self)@, player_id, score as int),
    {
        match self.find(player_id) {
            Some(k) => {
                self.rescore(k, score);
            },
            None => {},
        }
    }

    /// Sets every score to zero, keeping the players and their order.
    pub fn reset_scores(&mut self)
        requires
            old(self).wf(),
        ensures
            final(self).wf(),
            final(self).same_celebration(&*old(self)),
            final(self)@ == zeroed(old(self)@),
    {
        let ghost s = self@;
        let n = self.entries.len();
        let mut i: usize = 0;
        while i < n
            invariant
                i <= n,
                n == s.len(),
                self.entries@.len() == n,
                forall|j: int| 0 <= j < i ==> self@[j] == with_score(s[j], 0),
                forall|j: int| i <= j < n ==> self@[j] == s[j],
                self.player_ids == old(self).player_ids,
                self.winner_entity == old(self).winner_entity,
                self.win_state == old(self).win_state,
                self.winner_elapsed == old(self).winner_elapsed,
            decreases n - i,
        {
            let ghost before = self@;
            let mut e = self.entries.remove(i);
            e.score = 0;
            self.entries.insert(i, e);
            proof {
                assert(self@ =~= before.update(i as int, with_score(s[i as int], 0)));
            }
            i = i + 1;
        }
        proof {
            lemma_zeroed(s);
            assert(self@ =~= zeroed(s));
        }
    }

    /// Removes every player, so that any id can join again.
    pub fn clear(&mut self)
        requires
            old(self).wf(),
        ensures
            final(self).wf(),
            final(self).same_celebration(&*old(self)),
            final(self)@ == Seq::<EntryView>::empty(),
    {
        self.entries.clear();
        self.player_ids.clear();
        proof {
            assert(self@ =~= Seq::<EntryView>::empty());
            assert(ids_of(self@) =~= Set::<usize>::empty());
        }
    }

    /// One `(text, color)` line per player in rank order, the text being
    /// `"{score} - {name}"`.
    pub fn rendered_lines(&self) -> (r: Vec<(String, bevy::color::Color)>)
        ensures
            r@.len() == self@.len(),
            forall|i: int|
                0 <= i < self@.len() ==> (#[trigger] r@[i]).0@ == line_text(
                    self@[i].score,
                    self@[i].name,
                ) && r@[i].1 == self@[i].color,
    {
        let mut r: Vec<(String, bevy::color::Color)> = Vec::new();
        let mut i: usize = 0;
        while i < self.entries.len()
            invariant
                i <= self.entries.len(),
                r@.len() == i,
                forall|j: int|
                    0 <= j < i ==> (#[trigger] r@[j]).0@ == line_text(self@[j].score, self@[j].name)
                        && r@[j].1 == self@[j].color,
            decreases self.entries.len() - i,
        {
            let e = &self.entries[i];
            let text = format_line(e.score, &e.name);
            r.push((text, e.color));
            i = i + 1;
        }
        r
    }

    /// Declares a winner: a scoreboard waiting for one starts celebrating it
    /// from zero; one that is already celebrating ignores the declaration.
    pub fn show_winner_screen(&mut self, winner_entity: bevy::ecs::entity::Entity)
        requires
            old(self).wf(),
        ensures
            final(self).wf(),
            final(self)@ == old(self)@,
            old(self).state() == WinState::Detecting ==> final(self).state()
                == WinState::Displaying && final(self).winner() == Some(winner_entity)
                && final(self).elapsed() == 0,
            old(self).state() == WinState::Displaying ==> final(self).same_celebration(
                &*old(self),
            ),
    {
        if self.win_state == WinState::Detecting {
            self.winner_entity = Some(winner_entity);
            self.win_state = WinState::Displaying;
            self.winner_elapsed = 0;
        }
    }

    /// Advances a running celebration by `delta_nanos` of real time. Once it
    /// has run for `CELEBRATION_NANOS` it ends: the winner is cleared, every
    /// score goes back to zero, and the result is true. Without a celebration
    /// nothing changes.
    pub fn tick(&mut self, delta_nanos: u64) -> (finished: bool)
        requires
            old(self).wf(),
        ensures
            final(self).wf(),
            old(self).state() == WinState::Detecting ==> !finished && final(self)@ == old(self)@
                && final(self).same_celebration(&*old(self)),
            old(self).state() == WinState::Displaying && old(self).elapsed() + delta_nanos
                >= CELEBRATION_NANOS ==> finished && final(self).state() == WinState::Detecting
                && final(self).winner() is None && final(self).elapsed() == 0 && final(self)@
                == zeroed(old(self)@),
            old(self).state() == WinState::Displaying && old(self).elapsed() + delta_nanos
                < CELEBRATION_NANOS ==> !finished && final(self).state() == WinState::Displaying
                && final(self).winner() == old(self).winner() && final(self).elapsed() == old(
                self,
            ).elapsed() + delta_nanos && final(self)@ == old(self)@,
    {
        if self.win_state == WinState::Detecting {
            return false;
        }
        if delta_nanos >= CELEBRATION_NANOS - self.winner_elapsed {
            self.reset_scores();
            self.winner_entity = None;
            self.win_state = WinState::Detecting;
            self.winner_elapsed = 0;
            true
        } else {
            self.winner_elapsed = self.winner_elapsed + delta_nanos;
            false
        }
    }

    /// Whether a winner is being celebrated.
    pub fn win_state(&self) -> (r: WinState)
        ensures
            r == self.state(),
    {
        self.win_state
    }

    /// The winner being celebrated, if any.
    pub fn winner_entity(&self) -> (r: Option<bevy::ecs::entity::Entity>)
        ensures
            r == self.winner(),
    {
        self.winner_entity
    }

    /// Nanoseconds that the current celebration has run.
    pub fn celebration_elapsed(&self) -> (r: u64)
        ensures
            r as nat == self.elapsed(),
    {
        self.winner_elapsed
    }
}

impl Default for Scoreboard {
    /// An empty scoreboard waiting for a winner.
    fn default() -> (r: Scoreboard)
        ensures
            r.wf(),
            r@ == Seq::<EntryView>::empty(),
            r.state() == WinState::Detecting,
            r.winner() is None,
            r.elapsed() == 0,
    {
        Scoreboard::new()
    }
}

/// Every well-formed scoreboard lists its players in descending order of
/// score, each id once.
pub proof fn lemma_always_ranked(b: &Scoreboard)
    requires
        b.wf(),
    ensures
        ranked(b@),
        unique_ids(b@),
{
}

} // verus!
