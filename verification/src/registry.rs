//! The session registry: the single shared structure that tracks every
//! running game instance per `(channel, player)` key, coordinates solo and
//! group play, and expires stale instances.
//!
//! Every public operation first sweeps expired instances, then validates the
//! request against the current game and group state, and only then mutates a
//! game instance.  The caller is expected to hold exclusive access to the
//! registry for the duration of one operation; the registry itself is a plain
//! owned structure.

use vstd::prelude::*;

use crate::wordle::{graded_row, Wordle, GUESSES};
use crate::words::{contains_word, is_valid_shape, upper_seq, uppercase_ascii, valid_word, Words};

verus! {

broadcast use vstd::seq::group_seq_axioms;

/// Seconds of inactivity after which a game instance expires: solo players
/// have this long to finish, groups this long to gather and then this long
/// again to play.
pub const GAME_TIME: u64 = 300;

/// One registered game: its key, its state, and the time of its last
/// activity, used for expiry.
pub struct GameEntry {
    /// The channel the game was started on.
    pub channel: u64,
    /// The player the game is keyed under: the solo player, or the group's
    /// initiator.
    pub player: u64,
    /// The game state itself.
    pub wordle: Wordle,
    /// Time of the last activity on this game, in seconds.
    pub last_activity: u64,
}

/// Whether an instance last active at `last_activity` is expired at `now`.
pub open spec fn is_expired(last_activity: u64, now: u64) -> bool {
    now >= last_activity + GAME_TIME
}

/// The entries of `s` that are not expired at `now`, in order.
pub open spec fn live_games(s: Seq<GameEntry>, now: u64) -> Seq<GameEntry>
    decreases s.len(),
{
    if s.len() == 0 {
        Seq::empty()
    } else {
        let rest = live_games(s.drop_last(), now);
        if is_expired(s.last().last_activity, now) {
            rest
        } else {
            rest.push(s.last())
        }
    }
}

/// Whether two entries are keyed alike.
pub open spec fn same_key(a: GameEntry, b: GameEntry) -> bool {
    a.channel == b.channel && a.player == b.player
}

/// Whether `e` is keyed by `(channel, player)`.
pub open spec fn has_key(e: GameEntry, channel: u64, player: u64) -> bool {
    e.channel == channel && e.player == player
}

/// Whether some entry of `s` is keyed by `(channel, player)`.
pub open spec fn some_key(s: Seq<GameEntry>, channel: u64, player: u64) -> bool {
    exists|i: int| 0 <= i < s.len() && has_key(#[trigger] s[i], channel, player)
}

/// Whether some entry of `s` lives on `channel`.
pub open spec fn some_channel(s: Seq<GameEntry>, channel: u64) -> bool {
    exists|i: int| 0 <= i < s.len() && (#[trigger] s[i]).channel == channel
}

/// Whether the elements of `s` are pairwise distinct.
pub open spec fn distinct_players(s: Seq<u64>) -> bool {
    forall|i: int, j: int| 0 <= i < j < s.len() ==> s[i] != s[j]
}

/// Stable reason codes for rejected requests; the dispatcher maps each to
/// display text.
#[derive(Clone, Copy, Debug, PartialEq, Eq, Structural)]
pub enum RejectReason {
    /// A group is forming or playing, so nothing else may start.
    GroupActive,
    /// A group needs at least two players.
    WrongPlayersNumber,
    /// Solo games are running, so a group may not start.
    SoloActive,
    /// No group is forming, so there is nothing to join.
    NoGroupForming,
    /// The forming group's roster is already full.
    RosterFull,
    /// The request was made on a channel other than the group's.
    WrongChannel,
    /// The guess or concession was made on a channel other than the group's.
    GuessWrongChannel,
    /// The player already joined the forming group.
    AlreadyJoined,
    /// The player is not a member of the playing group.
    NotInGroup,
    /// The group is still gathering this many more players.
    WaitingForPlayers { remaining: usize },
    /// The guess does not consist of exactly the required letters.
    MalformedGuess,
    /// The guess is not in the word list.
    NotInWordList,
    /// No game is in progress under the resolved key.
    NoGame,
}

/// Outcome of a start request.
#[derive(Clone, Copy, Debug, PartialEq, Eq, Structural)]
pub enum StartOutcome {
    /// A solo game was created and play begins at once.
    Started,
    /// A group game was created and waits for the roster to fill.
    GroupForming,
    Rejected(RejectReason),
}

/// Outcome of a join request.
#[derive(Clone, Copy, Debug, PartialEq, Eq, Structural)]
pub enum JoinOutcome {
    /// The player joined; this many more players are still awaited.
    Joined { remaining: usize },
    /// The player joined and the roster is now full: play begins.
    Started,
    Rejected(RejectReason),
}

/// Outcome of a guess submission.
#[derive(Debug, PartialEq, Eq)]
pub enum GuessOutcome {
    /// The guess was graded and recorded; the game goes on.
    Continue,
    /// The guess was the hidden word; the game is over and removed.
    Won,
    /// The guess spent the last of the budget; the game is removed and the
    /// hidden word revealed.
    Exhausted { target: String },
    Rejected(RejectReason),
}

/// Outcome of a concession.
#[derive(Debug, PartialEq, Eq)]
pub enum GiveUpOutcome {
    /// The game is removed and the hidden word revealed.
    Conceded { target: String },
    Rejected(RejectReason),
}

/// The registry: every running game, plus the group-coordination state.
pub struct ServerMap {
    /// All running games, keyed by `(channel, player)`; keys are unique.
    pub games: Vec<GameEntry>,
    /// `1` while only solo games may run; the required number of players
    /// while a group game is forming or playing.
    pub max_people_playing: usize,
    /// The players that joined the forming or playing group, in join order,
    /// the initiator first; empty while no group is forming.
    pub joined_people: Vec<u64>,
    /// The lexicon shared by all games.
    pub words: Words,
}

impl ServerMap {
    /// Keys are pairwise unique.
    pub open spec fn keys_unique(&self) -> bool {
        forall|i: int, j: int|
            0 <= i < j < self.games@.len() ==> !same_key(
                #[trigger] self.games@[i],
                #[trigger] self.games@[j],
            )
    }

    /// At most one entry holds any given broadcast reference.
    pub open spec fn refs_unique(&self) -> bool {
        forall|i: int, j: int|
            0 <= i < j < self.games@.len() && (#[trigger] self.games@[i]).wordle.last_message_id
                is Some ==> self.games@[i].wordle.last_message_id != (
            #[trigger] self.games@[j]).wordle.last_message_id
    }

    /// Every registered game is well formed and still has budget left: a game
    /// whose budget is spent is removed by the operation that spent it.
    pub open spec fn entries_wf(&self) -> bool {
        forall|i: int|
            0 <= i < self.games@.len() ==> (#[trigger] self.games@[i]).wordle.wf()
                && self.games@[i].wordle.guesses < GUESSES
    }

    /// The group-coordination state agrees with the game map: while a group
    /// is forming or playing there is exactly one game, keyed by the group's
    /// initiator, and the roster holds between one player and the configured
    /// capacity; while no group is forming the roster is empty and any number
    /// of solo games may run.
    pub open spec fn group_wf(&self) -> bool {
        &&& self.max_people_playing >= 1
        &&& if self.max_people_playing > 1 {
            &&& self.games@.len() == 1
            &&& 1 <= self.joined_people@.len() <= self.max_people_playing
            &&& self.games@[0].player == self.joined_people@[0]
            &&& distinct_players(self.joined_people@)
        } else {
            self.joined_people@.len() == 0
        }
    }

    /// Registry well-formedness; established by `new` and preserved by every
    /// operation.
    pub open spec fn wf(&self) -> bool {
        &&& self.words.wf()
        &&& self.keys_unique()
        &&& self.refs_unique()
        &&& self.entries_wf()
        &&& self.group_wf()
    }

    /// The game map after the expiry sweep at `now`.
    pub open spec fn swept_games(&self, now: u64) -> Seq<GameEntry> {
        live_games(self.games@, now)
    }

    /// Whether the sweep at `now` removes a forming or playing group's game,
    /// which clears the group-coordination state.
    pub open spec fn sweep_clears_group(&self, now: u64) -> bool {
        self.max_people_playing > 1 && live_games(self.games@, now).len() == 0
    }

    /// The group capacity after the expiry sweep at `now`.
    pub open spec fn swept_max(&self, now: u64) -> usize {
        if self.sweep_clears_group(now) {
            1
        } else {
            self.max_people_playing
        }
    }

    /// The group roster after the expiry sweep at `now`.
    pub open spec fn swept_joined(&self, now: u64) -> Seq<u64> {
        if self.sweep_clears_group(now) {
            Seq::empty()
        } else {
            self.joined_people@
        }
    }

    pub fn new(words: Words) -> (r: ServerMap)
        requires
            words.wf(),
        ensures
            r.wf(),
            r.games@.len() == 0,
            r.max_people_playing == 1,
            r.joined_people@.len() == 0,
            r.words == words,
    {
        ServerMap { games: Vec::new(), max_people_playing: 1, joined_people: Vec::new(), words }
    }

    /// Removes every game that has seen no activity for `GAME_TIME` seconds,
    /// and clears the group-coordination state when the removed game was the
    /// group's.  Every other operation runs this first.
    pub fn sweep_expired(&mut self, now: u64)
        requires
            old(self).wf(),
        ensures
            final(self).wf(),
            final(self).games@ == old(self).swept_games(now),
            final(self).max_people_playing == old(self).swept_max(now),
            final(self).joined_people@ == old(self).swept_joined(now),
            final(self).words == old(self).words,
    {
        let ghost orig = self.games@;
        let mut idx: usize = 0;
        let ghost mut processed: int = 0;
        while idx < self.games.len()
            invariant
                0 <= processed <= orig.len(),
                idx == live_games(orig.take(processed), now).len(),
                self.games@ == live_games(orig.take(processed), now) + orig.skip(processed),
                self.max_people_playing == old(self).max_people_playing,
                self.joined_people == old(self).joined_people,
                self.words == old(self).words,
            decreases orig.len() - processed,
        {
            proof {
                assert(orig.take(processed + 1).drop_last() =~= orig.take(processed));
                assert(orig.take(processed + 1).last() == orig[processed]);
                assert(self.games@[idx as int] == orig[processed]);
            }
            let expired = {
                let e = &self.games[idx];
                now >= GAME_TIME && e.last_activity <= now - GAME_TIME
            };
            if expired {
                self.games.remove(idx);
                proof {
                    assert(self.games@ =~= live_games(orig.take(processed + 1), now) + orig.skip(
                        processed + 1,
                    ));
                }
            } else {
                idx += 1;
                proof {
                    assert(live_games(orig.take(processed + 1), now) =~= live_games(
                        orig.take(processed),
                        now,
                    ).push(orig[processed]));
                    assert(self.games@ =~= live_games(orig.take(processed + 1), now) + orig.skip(
                        processed + 1,
                    ));
                }
            }
            proof {
                processed = processed + 1;
            }
        }
        proof {
            assert(orig.skip(processed).len() == 0);
            assert(orig.take(processed) =~= orig);
            assert(self.games@ =~= live_games(orig, now));
        }
        if self.max_people_playing > 1 && self.games.is_empty() {
            self.max_people_playing = 1;
            self.joined_people = Vec::new();
        }
        proof {
            lemma_live_preserves_wf(*old(self), self.games@, now);
        }
    }
}

/// After a sweep, the registry invariants still hold: the live entries are a
/// subsequence of what was swept, so uniqueness and per-entry facts carry
/// over, and the group-coordination state was cleared exactly when the
/// group's game was removed.
proof fn lemma_live_preserves_wf(m0: ServerMap, live: Seq<GameEntry>, now: u64)
    requires
        m0.wf(),
        live == live_games(m0.games@, now),
    ensures
        forall|i: int|
            0 <= i < live.len() ==> (#[trigger] live[i]).wordle.wf() && live[i].wordle.guesses
                < GUESSES,
        forall|i: int, j: int|
            0 <= i < j < live.len() ==> !same_key(#[trigger] live[i], #[trigger] live[j]),
        forall|i: int, j: int|
            0 <= i < j < live.len() && (#[trigger] live[i]).wordle.last_message_id is Some
                ==> live[i].wordle.last_message_id != (#[trigger] live[j]).wordle.last_message_id,
        live.len() <= m0.games@.len(),
        live.len() > 0 ==> m0.games@.contains(live[0]),
{
    let s = m0.games@;
    lemma_live_games_sub(s, now);
    lemma_live_games_pairs(s, now);
    assert forall|i: int| 0 <= i < live.len() implies (#[trigger] live[i]).wordle.wf()
        && live[i].wordle.guesses < GUESSES by {
        assert(s.contains(live[i]));
        let a = choose|a: int| 0 <= a < s.len() && s[a] == live[i];
        assert(s[a].wordle.wf());
    }
    assert forall|i: int, j: int| 0 <= i < j < live.len() implies !same_key(
        #[trigger] live[i],
        #[trigger] live[j],
    ) by {
        let (a, b) = choose|a: int, b: int|
            0 <= a < b < s.len() && s[a] == live[i] && s[b] == live[j];
        assert(!same_key(s[a], s[b]));
    }
    assert forall|i: int, j: int|
        0 <= i < j < live.len() && (#[trigger] live[i]).wordle.last_message_id
            is Some implies live[i].wordle.last_message_id != (
    #[trigger] live[j]).wordle.last_message_id by {
        let (a, b) = choose|a: int, b: int|
            0 <= a < b < s.len() && s[a] == live[i] && s[b] == live[j];
        assert(s[a].wordle.last_message_id is Some ==> s[a].wordle.last_message_id
            != s[b].wordle.last_message_id);
    }
}

/// The operation did nothing beyond its opening expiry sweep: `m1` is `m0`
/// after the sweep at `now`.
pub open spec fn only_swept(m0: ServerMap, m1: ServerMap, now: u64) -> bool {
    &&& m1.games@ == m0.swept_games(now)
    &&& m1.max_people_playing == m0.swept_max(now)
    &&& m1.joined_people@ == m0.swept_joined(now)
}

/// A freshly created game: keyed by `(channel, player)`, no guesses yet,
/// last active `now`, its hidden word drawn from the lexicon `words`.
pub open spec fn fresh_entry(e: GameEntry, channel: u64, player: u64, now: u64, words: Words) -> bool {
    &&& has_key(e, channel, player)
    &&& e.wordle.guesses == 0
    &&& e.wordle.fields@.len() == 0
    &&& e.wordle.last_message_id is None
    &&& e.last_activity == now
    &&& valid_word(e.wordle.word@)
    &&& contains_word(words.words@, e.wordle.word@)
}

impl ServerMap {
    /// Whether any game lives on `channel`.
    pub fn check_channel(&self, channel: u64) -> (r: bool)
        ensures
            r == some_channel(self.games@, channel),
    {
        let mut i: usize = 0;
        while i < self.games.len()
            invariant
                i <= self.games@.len(),
                forall|t: int| 0 <= t < i ==> (#[trigger] self.games@[t]).channel != channel,
            decreases self.games@.len() - i,
        {
            if self.games[i].channel == channel {
                return true;
            }
            i += 1;
        }
        false
    }

    /// Whether `player` is on the group roster.
    fn roster_contains(&self, player: u64) -> (r: bool)
        ensures
            r == self.joined_people@.contains(player),
    {
        let mut i: usize = 0;
        while i < self.joined_people.len()
            invariant
                i <= self.joined_people@.len(),
                forall|t: int| 0 <= t < i ==> self.joined_people@[t] != player,
            decreases self.joined_people@.len() - i,
        {
            if self.joined_people[i] == player {
                return true;
            }
            i += 1;
        }
        false
    }

    /// Position of the game keyed by `(channel, player)`, if any.
    fn find_game(&self, channel: u64, player: u64) -> (r: Option<usize>)
        ensures
            match r {
                Some(i) => i < self.games@.len() && has_key(self.games@[i as int], channel, player),
                None => !some_key(self.games@, channel, player),
            },
    {
        let mut i: usize = 0;
        while i < self.games.len()
            invariant
                i <= self.games@.len(),
                forall|t: int| 0 <= t < i ==> !has_key(#[trigger] self.games@[t], channel, player),
            decreases self.games@.len() - i,
        {
            if self.games[i].channel == channel && self.games[i].player == player {
                return Some(i);
            }
            i += 1;
        }
        None
    }

    /// Resets the group-coordination state: no group forming, empty roster.
    fn clean_joined_and_max_playing(&mut self)
        ensures
            final(self).games == old(self).games,
            final(self).words == old(self).words,
            final(self).max_people_playing == 1,
            final(self).joined_people@.len() == 0,
    {
        self.joined_people.clear();
        self.max_people_playing = 1;
    }

    /// The players a result of a game keyed under `starter` concerns: the
    /// whole roster during group play, otherwise the starter alone.
    pub fn get_players(&self, starter: u64) -> (r: Vec<u64>)
        ensures
            self.max_people_playing > 1 ==> r@ == self.joined_people@,
            self.max_people_playing <= 1 ==> r@ == seq![starter],
    {
        let mut out: Vec<u64> = Vec::new();
        if self.max_people_playing > 1 {
            let mut i: usize = 0;
            while i < self.joined_people.len()
                invariant
                    i <= self.joined_people@.len(),
                    out@ == self.joined_people@.take(i as int),
                decreases self.joined_people@.len() - i,
            {
                out.push(self.joined_people[i]);
                i += 1;
                proof {
                    assert(out@ =~= self.joined_people@.take(i as int));
                }
            }
            proof {
                assert(out@ =~= self.joined_people@);
            }
        } else {
            out.push(starter);
            proof {
                assert(out@ =~= seq![starter]);
            }
        }
        out
    }

    /// A hidden word for a new game, drawn from the lexicon.
    fn pick_target(&self) -> (r: String)
        requires
            self.words.wf(),
        ensures
            valid_word(r@),
            contains_word(self.words.words@, r@),
    {
        let w = self.words.generate_word();
        w.word.clone()
    }

    /// Starts a solo game for `player` on `channel`: rejected while a group
    /// is forming or playing; otherwise a fresh game replaces any game the
    /// same player already had on the same channel.
    pub fn start_solo(&mut self, channel: u64, player: u64, now: u64) -> (r: StartOutcome)
        requires
            old(self).wf(),
        ensures
            final(self).wf(),
            final(self).words == old(self).words,
            old(self).swept_max(now) > 1 ==> r == StartOutcome::Rejected(RejectReason::GroupActive)
                && only_swept(*old(self), *final(self), now),
            old(self).swept_max(now) == 1 ==> ({
                let m1g = old(self).swept_games(now);
                let e = final(self).games@.last();
                &&& r == StartOutcome::Started
                &&& final(self).max_people_playing == 1
                &&& final(self).joined_people@.len() == 0
                &&& final(self).games@.len() >= 1
                &&& fresh_entry(e, channel, player, now, old(self).words)
                &&& (!some_key(m1g, channel, player) ==> final(self).games@ == m1g.push(e))
                &&& (forall|i: int|
                    0 <= i < m1g.len() && has_key(#[trigger] m1g[i], channel, player)
                        ==> final(self).games@ == m1g.remove(i).push(e))
            }),
    {
        self.sweep_expired(now);
        if self.max_people_playing > 1 {
            return StartOutcome::Rejected(RejectReason::GroupActive);
        }
        let ghost m1g = self.games@;
        let target = self.pick_target();
        let wordle = Wordle::new(target);
        match self.find_game(channel, player) {
            Some(i) => {
                self.games.remove(i);
                proof {
                    m1g.remove_ensures(i as int);
                    assert forall|k: int|
                        0 <= k < self.games@.len() implies !has_key(
                        #[trigger] self.games@[k],
                        channel,
                        player,
                    ) by {
                        if k < i {
                            assert(self.games@[k] == m1g[k]);
                            assert(!same_key(m1g[k], m1g[i as int]));
                        } else {
                            assert(self.games@[k] == m1g[k + 1]);
                            assert(!same_key(m1g[i as int], m1g[k + 1]));
                        }
                    }
                    lemma_entry_pairs_remove(m1g, i as int);
                }
            },
            None => {},
        }
        let entry = GameEntry { channel, player, wordle, last_activity: now };
        self.games.push(entry);
        proof {
            let m2 = self.games@.drop_last();
            assert forall|a: int, b: int| 0 <= a < b < self.games@.len() implies !same_key(
                #[trigger] self.games@[a],
                #[trigger] self.games@[b],
            ) by {
                if b < self.games@.len() - 1 {
                    assert(self.games@[a] == m2[a] && self.games@[b] == m2[b]);
                } else {
                    assert(self.games@[b] == entry);
                    assert(!has_key(m2[a], channel, player));
                }
            }
        }
        StartOutcome::Started
    }

    /// Starts a group game of `size` players, initiated by `player` on
    /// `channel`: rejected for a size fit for solo play, while another group
    /// is forming or playing, or while any solo game runs; otherwise the
    /// group's game is created under the initiator's key and the roster opens
    /// with the initiator alone.
    pub fn start_group(&mut self, channel: u64, player: u64, size: usize, now: u64) -> (r:
        StartOutcome)
        requires
            old(self).wf(),
        ensures
            final(self).wf(),
            final(self).words == old(self).words,
            size <= 1 ==> r == StartOutcome::Rejected(RejectReason::WrongPlayersNumber)
                && only_swept(*old(self), *final(self), now),
            size > 1 && old(self).swept_max(now) > 1 ==> r == StartOutcome::Rejected(
                RejectReason::GroupActive,
            ) && only_swept(*old(self), *final(self), now),
            size > 1 && old(self).swept_max(now) == 1 && old(self).swept_games(now).len() > 0 ==> r
                == StartOutcome::Rejected(RejectReason::SoloActive) && only_swept(
                *old(self),
                *final(self),
                now,
            ),
            size > 1 && old(self).swept_max(now) == 1 && old(self).swept_games(now).len() == 0 ==> ({
                let e = final(self).games@[0];
                &&& r == StartOutcome::GroupForming
                &&& final(self).max_people_playing == size
                &&& final(self).joined_people@ == seq![player]
                &&& final(self).games@.len() == 1
                &&& fresh_entry(e, channel, player, now, old(self).words)
            }),
    {
        self.sweep_expired(now);
        if size <= 1 {
            return StartOutcome::Rejected(RejectReason::WrongPlayersNumber);
        }
        if self.max_people_playing > 1 {
            return StartOutcome::Rejected(RejectReason::GroupActive);
        }
        if !self.games.is_empty() {
            return StartOutcome::Rejected(RejectReason::SoloActive);
        }
        let target = self.pick_target();
        let wordle = Wordle::new(target);
        let entry = GameEntry { channel, player, wordle, last_activity: now };
        self.games.push(entry);
        self.max_people_playing = size;
        self.joined_people.push(player);
        proof {
            assert(self.joined_people@ =~= seq![player]);
        }
        StartOutcome::GroupForming
    }
}

/// `e2` is `e1` with its last activity refreshed to `now`.
pub open spec fn same_but_time(e1: GameEntry, e2: GameEntry, now: u64) -> bool {
    &&& e2.channel == e1.channel
    &&& e2.player == e1.player
    &&& e2.wordle == e1.wordle
    &&& e2.last_activity == now
}

impl ServerMap {
    /// Refreshes the last activity of every registered game to `now`,
    /// restarting their expiry windows.
    fn change_time(&mut self, now: u64)
        ensures
            final(self).games@.len() == old(self).games@.len(),
            forall|k: int|
                0 <= k < old(self).games@.len() ==> same_but_time(
                    #[trigger] old(self).games@[k],
                    final(self).games@[k],
                    now,
                ),
            final(self).max_people_playing == old(self).max_people_playing,
            final(self).joined_people == old(self).joined_people,
            final(self).words == old(self).words,
    {
        let n = self.games.len();
        let mut i: usize = 0;
        while i < n
            invariant
                i <= n,
                n == self.games@.len(),
                n == old(self).games@.len(),
                forall|k: int|
                    0 <= k < i ==> same_but_time(
                        #[trigger] old(self).games@[k],
                        self.games@[k],
                        now,
                    ),
                forall|k: int| i <= k < n ==> #[trigger] self.games@[k] == old(self).games@[k],
                self.max_people_playing == old(self).max_people_playing,
                self.joined_people == old(self).joined_people,
                self.words == old(self).words,
            decreases n - i,
        {
            let e = &mut self.games[i];
            e.last_activity = now;
            i += 1;
        }
    }

    /// Joins `player` to the forming group on `channel`: rejected while no
    /// group is forming, when the roster is already full, on the wrong
    /// channel, or when the player already joined.  The join that fills the
    /// roster restarts the group game's expiry window and begins play.
    pub fn join_group(&mut self, channel: u64, player: u64, now: u64) -> (r: JoinOutcome)
        requires
            old(self).wf(),
        ensures
            final(self).wf(),
            final(self).words == old(self).words,
            ({
                let m1g = old(self).swept_games(now);
                let m1max = old(self).swept_max(now);
                let m1j = old(self).swept_joined(now);
                let c_none = m1max == 1;
                let c_full = m1j.len() == m1max;
                let c_chan = !some_channel(m1g, channel);
                let c_joined = m1j.contains(player);
                &&& c_none ==> r == JoinOutcome::Rejected(RejectReason::NoGroupForming)
                    && only_swept(*old(self), *final(self), now)
                &&& !c_none && c_full ==> r == JoinOutcome::Rejected(RejectReason::RosterFull)
                    && only_swept(*old(self), *final(self), now)
                &&& !c_none && !c_full && c_chan ==> r == JoinOutcome::Rejected(
                    RejectReason::WrongChannel,
                ) && only_swept(*old(self), *final(self), now)
                &&& !c_none && !c_full && !c_chan && c_joined ==> r == JoinOutcome::Rejected(
                    RejectReason::AlreadyJoined,
                ) && only_swept(*old(self), *final(self), now)
                &&& !c_none && !c_full && !c_chan && !c_joined && m1j.len() + 1 < m1max ==> ({
                    &&& r == JoinOutcome::Joined { remaining: (m1max - m1j.len() - 1) as usize }
                    &&& final(self).games@ == m1g
                    &&& final(self).max_people_playing == m1max
                    &&& final(self).joined_people@ == m1j.push(player)
                })
                &&& !c_none && !c_full && !c_chan && !c_joined && m1j.len() + 1 == m1max ==> ({
                    &&& r == JoinOutcome::Started
                    &&& final(self).max_people_playing == m1max
                    &&& final(self).joined_people@ == m1j.push(player)
                    &&& final(self).games@.len() == m1g.len()
                    &&& (forall|k: int|
                        0 <= k < m1g.len() ==> same_but_time(
                            #[trigger] m1g[k],
                            final(self).games@[k],
                            now,
                        ))
                })
            }),
    {
        self.sweep_expired(now);
        if self.max_people_playing == 1 {
            return JoinOutcome::Rejected(RejectReason::NoGroupForming);
        }
        if self.joined_people.len() == self.max_people_playing {
            return JoinOutcome::Rejected(RejectReason::RosterFull);
        }
        if !self.check_channel(channel) {
            return JoinOutcome::Rejected(RejectReason::WrongChannel);
        }
        if self.roster_contains(player) {
            return JoinOutcome::Rejected(RejectReason::AlreadyJoined);
        }
        self.joined_people.push(player);
        if self.joined_people.len() != self.max_people_playing {
            let remaining = self.max_people_playing - self.joined_people.len();
            return JoinOutcome::Joined { remaining };
        }
        self.change_time(now);
        JoinOutcome::Started
    }
}

/// `e2` is `e1` after one accepted guess `g` at time `now`: the count is up
/// one, the graded row for `g` is appended to the history, the expiry window
/// restarts, and everything else is untouched.
pub open spec fn recorded(e1: GameEntry, e2: GameEntry, g: Seq<char>, now: u64) -> bool {
    &&& e2.channel == e1.channel
    &&& e2.player == e1.player
    &&& e2.last_activity == now
    &&& e2.wordle.word == e1.wordle.word
    &&& e2.wordle.guesses == e1.wordle.guesses + 1
    &&& e2.wordle.last_message_id == e1.wordle.last_message_id
    &&& e2.wordle.history() == e1.wordle.history().push(graded_row(e1.wordle.word@, g))
}

impl ServerMap {
    /// Submits a guess by `player` on `channel`.  During group play the guess
    /// is validated against the roster and recorded on the group's shared
    /// game, keyed by the initiator; checks run in a fixed order and the
    /// first failing one decides the rejection.  An accepted guess is graded
    /// and recorded, and then either wins the game, spends the last of its
    /// budget (both remove the game and clear the group state), or leaves the
    /// game to continue.
    pub fn submit_guess(&mut self, channel: u64, player: u64, raw_guess: &str, now: u64) -> (r:
        GuessOutcome)
        requires
            old(self).wf(),
        ensures
            final(self).wf(),
            final(self).words == old(self).words,
            ({
                let m1g = old(self).swept_games(now);
                let m1max = old(self).swept_max(now);
                let m1j = old(self).swept_joined(now);
                let author = if m1max > 1 {
                    m1j[0]
                } else {
                    player
                };
                let g = upper_seq(raw_guess@);
                let c_wait = m1max > 1 && m1j.len() != m1max;
                let c_chan = m1max > 1 && !some_channel(m1g, channel);
                let c_member = m1max > 1 && !m1j.contains(player);
                let c_shape = !valid_word(g);
                let c_list = !contains_word(old(self).words.words@, g);
                let c_nogame = !some_key(m1g, channel, author);
                &&& c_wait ==> r == GuessOutcome::Rejected(
                    RejectReason::WaitingForPlayers { remaining: (m1max - m1j.len()) as usize },
                ) && only_swept(*old(self), *final(self), now)
                &&& !c_wait && c_chan ==> r == GuessOutcome::Rejected(
                    RejectReason::GuessWrongChannel,
                ) && only_swept(*old(self), *final(self), now)
                &&& !c_wait && !c_chan && c_member ==> r == GuessOutcome::Rejected(
                    RejectReason::NotInGroup,
                ) && only_swept(*old(self), *final(self), now)
                &&& !c_wait && !c_chan && !c_member && c_shape ==> r == GuessOutcome::Rejected(
                    RejectReason::MalformedGuess,
                ) && only_swept(*old(self), *final(self), now)
                &&& !c_wait && !c_chan && !c_member && !c_shape && c_list ==> r
                    == GuessOutcome::Rejected(RejectReason::NotInWordList) && only_swept(
                    *old(self),
                    *final(self),
                    now,
                )
                &&& !c_wait && !c_chan && !c_member && !c_shape && !c_list && c_nogame ==> r
                    == GuessOutcome::Rejected(RejectReason::NoGame) && only_swept(
                    *old(self),
                    *final(self),
                    now,
                )
                &&& !c_wait && !c_chan && !c_member && !c_shape && !c_list && !c_nogame
                    ==> (forall|i: int|
                    0 <= i < m1g.len() && has_key(#[trigger] m1g[i], channel, author) ==> ({
                        let e = m1g[i];
                        let won = (g == e.wordle.word@);
                        &&& won ==> r == GuessOutcome::Won && final(self).games@ == m1g.remove(i)
                            && final(self).max_people_playing == 1 && final(self).joined_people@.len() == 0
                        &&& !won && e.wordle.guesses + 1 == GUESSES ==> ((r matches
                        GuessOutcome::Exhausted { target } && target@ == e.wordle.word@) && final(self).games@ == m1g.remove(i) && final(self).max_people_playing == 1 && final(self).joined_people@.len() == 0)
                        &&& !won && e.wordle.guesses + 1 < GUESSES ==> ({
                            &&& r == GuessOutcome::Continue
                            &&& final(self).games@.len() == m1g.len()
                            &&& (forall|k: int|
                                0 <= k < m1g.len() && k != i ==> final(self).games@[k] == #[trigger] m1g[k])
                            &&& recorded(e, final(self).games@[i], g, now)
                            &&& final(self).max_people_playing == m1max
                            &&& final(self).joined_people@ == m1j
                        })
                    }))
            }),
    {
        self.sweep_expired(now);
        let mut author = player;
        if self.max_people_playing > 1 {
            if self.joined_people.len() != self.max_people_playing {
                let remaining = self.max_people_playing - self.joined_people.len();
                return GuessOutcome::Rejected(RejectReason::WaitingForPlayers { remaining });
            }
            if !self.check_channel(channel) {
                return GuessOutcome::Rejected(RejectReason::GuessWrongChannel);
            }
            if !self.roster_contains(player) {
                return GuessOutcome::Rejected(RejectReason::NotInGroup);
            }
            author = self.joined_people[0];
        }
        let guess = uppercase_ascii(raw_guess);
        if !is_valid_shape(&guess) {
            return GuessOutcome::Rejected(RejectReason::MalformedGuess);
        }
        if !self.words.holds_word(&guess) {
            return GuessOutcome::Rejected(RejectReason::NotInWordList);
        }
        let idx = match self.find_game(channel, author) {
            None => {
                return GuessOutcome::Rejected(RejectReason::NoGame);
            },
            Some(i) => i,
        };
        let ghost m1 = *self;
        let ghost i = idx as int;
        proof {
            assert forall|j: int|
                0 <= j < m1.games@.len() && has_key(#[trigger] m1.games@[j], channel, author)
                    implies j == i by {
                if j < i {
                    assert(!same_key(m1.games@[j], m1.games@[i]));
                } else if j > i {
                    assert(!same_key(m1.games@[i], m1.games@[j]));
                }
            }
        }
        let won = self.games[idx].wordle.is_won(&guess);
        {
            let e = &mut self.games[idx];
            e.wordle.guesses = e.wordle.guesses + 1;
            e.wordle.add_fields(guess);
            e.last_activity = now;
        }
        if won {
            self.games.remove(idx);
            self.clean_joined_and_max_playing();
            proof {
                assert(self.games@ =~= m1.games@.remove(i));
                lemma_entry_pairs_remove(m1.games@, i);
            }
            return GuessOutcome::Won;
        }
        let exhausted = self.games[idx].wordle.is_exhausted();
        if exhausted {
            let removed = self.games.remove(idx);
            self.clean_joined_and_max_playing();
            proof {
                assert(self.games@ =~= m1.games@.remove(i));
                lemma_entry_pairs_remove(m1.games@, i);
            }
            return GuessOutcome::Exhausted { target: removed.wordle.word };
        }
        proof {
            assert forall|a: int, b: int| 0 <= a < b < self.games@.len() implies !same_key(
                #[trigger] self.games@[a],
                #[trigger] self.games@[b],
            ) by {
                assert(!same_key(m1.games@[a], m1.games@[b]));
                assert(same_key(self.games@[a], m1.games@[a]));
                assert(same_key(self.games@[b], m1.games@[b]));
            }
            assert forall|a: int, b: int|
                0 <= a < b < self.games@.len() && (#[trigger] self.games@[a]).wordle.last_message_id
                    is Some implies self.games@[a].wordle.last_message_id != (
            #[trigger] self.games@[b]).wordle.last_message_id by {
                assert(self.games@[a].wordle.last_message_id
                    == m1.games@[a].wordle.last_message_id);
                assert(self.games@[b].wordle.last_message_id
                    == m1.games@[b].wordle.last_message_id);
            }
            assert forall|a: int| 0 <= a < self.games@.len() implies (
            #[trigger] self.games@[a]).wordle.wf() && self.games@[a].wordle.guesses < GUESSES by {
                if a != i {
                    assert(self.games@[a] == m1.games@[a]);
                } else {
                    let e1 = m1.games@[i];
                    let e2 = self.games@[i];
                    assert(e2.wordle.history().len() == e1.wordle.history().len() + 1);
                    assert forall|k: int| 0 <= k < e2.wordle.fields@.len() implies (
                    #[trigger] e2.wordle.fields@[k])@.len() == crate::wordle::DEFAULT_SIZE by {
                        if k < e1.wordle.fields@.len() {
                            assert(e2.wordle.history()[k] == e1.wordle.history()[k]);
                            assert(e2.wordle.fields@[k]@ == e1.wordle.fields@[k]@);
                        } else {
                            assert(e2.wordle.history()[k] == graded_row(
                                e1.wordle.word@,
                                upper_seq(raw_guess@),
                            ));
                        }
                    }
                }
            }
        }
        GuessOutcome::Continue
    }

    /// Concedes the game of `player` on `channel`: during group play any
    /// roster member may concede the group's shared game, on the group's
    /// channel only.  The game is removed, the group state cleared, and the
    /// hidden word revealed.
    pub fn give_up(&mut self, channel: u64, player: u64, now: u64) -> (r: GiveUpOutcome)
        requires
            old(self).wf(),
        ensures
            final(self).wf(),
            final(self).words == old(self).words,
            ({
                let m1g = old(self).swept_games(now);
                let m1max = old(self).swept_max(now);
                let m1j = old(self).swept_joined(now);
                let author = if m1max > 1 {
                    m1j[0]
                } else {
                    player
                };
                let c_chan = m1max > 1 && !some_channel(m1g, channel);
                let c_member = m1max > 1 && !m1j.contains(player);
                let c_nogame = !some_key(m1g, channel, author);
                &&& c_chan ==> r == GiveUpOutcome::Rejected(RejectReason::GuessWrongChannel)
                    && only_swept(*old(self), *final(self), now)
                &&& !c_chan && c_member ==> r == GiveUpOutcome::Rejected(RejectReason::NotInGroup)
                    && only_swept(*old(self), *final(self), now)
                &&& !c_chan && !c_member && c_nogame ==> r == GiveUpOutcome::Rejected(
                    RejectReason::NoGame,
                ) && only_swept(*old(self), *final(self), now)
                &&& !c_chan && !c_member && !c_nogame ==> (forall|i: int|
                    0 <= i < m1g.len() && has_key(#[trigger] m1g[i], channel, author) ==> ((
                    r matches GiveUpOutcome::Conceded { target } && target@
                        == m1g[i].wordle.word@) && final(self).games@ == m1g.remove(i) && final(self).max_people_playing == 1 && final(self).joined_people@.len() == 0))
            }),
    {
        self.sweep_expired(now);
        let mut author = player;
        if self.max_people_playing > 1 {
            if !self.check_channel(channel) {
                return GiveUpOutcome::Rejected(RejectReason::GuessWrongChannel);
            }
            if !self.roster_contains(player) {
                return GiveUpOutcome::Rejected(RejectReason::NotInGroup);
            }
            author = self.joined_people[0];
        }
        let idx = match self.find_game(channel, author) {
            None => {
                return GiveUpOutcome::Rejected(RejectReason::NoGame);
            },
            Some(i) => i,
        };
        let ghost m1 = *self;
        let ghost i = idx as int;
        proof {
            assert forall|j: int|
                0 <= j < m1.games@.len() && has_key(#[trigger] m1.games@[j], channel, author)
                    implies j == i by {
                if j < i {
                    assert(!same_key(m1.games@[j], m1.games@[i]));
                } else if j > i {
                    assert(!same_key(m1.games@[i], m1.games@[j]));
                }
            }
        }
        let removed = self.games.remove(idx);
        self.clean_joined_and_max_playing();
        proof {
            lemma_entry_pairs_remove(m1.games@, i);
        }
        GiveUpOutcome::Conceded { target: removed.wordle.word }
    }
}

/// Whether some entry of `s` holds the broadcast reference `message_id`.
pub open spec fn some_ref(s: Seq<GameEntry>, message_id: u64) -> bool {
    exists|i: int|
        0 <= i < s.len() && (#[trigger] s[i]).wordle.last_message_id == Some(message_id)
}

/// `e` with its broadcast reference replaced by `r`.
pub open spec fn with_ref(e: GameEntry, r: Option<u64>) -> GameEntry {
    GameEntry {
        channel: e.channel,
        player: e.player,
        last_activity: e.last_activity,
        wordle: Wordle {
            word: e.wordle.word,
            guesses: e.wordle.guesses,
            fields: e.wordle.fields,
            last_message_id: r,
        },
    }
}

impl ServerMap {
    /// Position of the game holding the broadcast reference `message_id`, if
    /// any.
    fn find_by_ref(&self, message_id: u64) -> (r: Option<usize>)
        ensures
            match r {
                Some(i) => i < self.games@.len() && self.games@[i as int].wordle.last_message_id
                    == Some(message_id),
                None => !some_ref(self.games@, message_id),
            },
    {
        let mut i: usize = 0;
        while i < self.games.len()
            invariant
                i <= self.games@.len(),
                forall|t: int|
                    0 <= t < i ==> (#[trigger] self.games@[t]).wordle.last_message_id != Some(
                        message_id,
                    ),
            decreases self.games@.len() - i,
        {
            let found = match self.games[i].wordle.last_message_id {
                Some(m) => m == message_id,
                None => false,
            };
            if found {
                return Some(i);
            }
            i += 1;
        }
        None
    }

    /// Records that `message_id` now displays the state of the game keyed by
    /// `(channel, player)`: that game takes the reference, and any other game
    /// that held the same reference loses it, so a reference never points at
    /// two games.  Without a game under that key nothing changes.
    pub fn set_broadcast_ref(&mut self, channel: u64, player: u64, message_id: u64)
        requires
            old(self).wf(),
        ensures
            final(self).wf(),
            final(self).words == old(self).words,
            final(self).max_people_playing == old(self).max_people_playing,
            final(self).joined_people == old(self).joined_people,
            !some_key(old(self).games@, channel, player) ==> final(self).games == old(self).games,
            some_key(old(self).games@, channel, player) ==> ({
                &&& final(self).games@.len() == old(self).games@.len()
                &&& (forall|i: int|
                    0 <= i < old(self).games@.len() && has_key(
                        #[trigger] old(self).games@[i],
                        channel,
                        player,
                    ) ==> final(self).games@[i] == with_ref(old(self).games@[i], Some(message_id))
                        && (forall|k: int|
                        0 <= k < old(self).games@.len() && k != i ==> final(self).games@[k] == (
                        if (#[trigger] old(self).games@[k]).wordle.last_message_id == Some(
                            message_id,
                        ) {
                            with_ref(old(self).games@[k], None)
                        } else {
                            old(self).games@[k]
                        })))
            }),
    {
        let idx = match self.find_game(channel, player) {
            None => {
                return;
            },
            Some(i) => i,
        };
        let ghost m1 = *self;
        let ghost i = idx as int;
        let n = self.games.len();
        let mut k: usize = 0;
        while k < n
            invariant
                k <= n,
                n == self.games@.len(),
                n == m1.games@.len(),
                i == idx,
                0 <= i < n,
                has_key(m1.games@[i], channel, player),
                forall|t: int|
                    k <= t < n ==> #[trigger] self.games@[t] == m1.games@[t],
                forall|t: int|
                    0 <= t < k ==> #[trigger] self.games@[t] == (if t == i {
                        with_ref(m1.games@[t], Some(message_id))
                    } else if m1.games@[t].wordle.last_message_id == Some(message_id) {
                        with_ref(m1.games@[t], None)
                    } else {
                        m1.games@[t]
                    }),
                self.max_people_playing == m1.max_people_playing,
                self.joined_people == m1.joined_people,
                self.words == m1.words,
            decreases n - k,
        {
            if k == idx {
                let e = &mut self.games[k];
                e.wordle.last_message_id = Some(message_id);
            } else {
                let clear = match self.games[k].wordle.last_message_id {
                    Some(m) => m == message_id,
                    None => false,
                };
                if clear {
                    let e = &mut self.games[k];
                    e.wordle.last_message_id = None;
                }
            }
            k += 1;
        }
        proof {
            assert forall|j: int|
                0 <= j < m1.games@.len() && has_key(#[trigger] m1.games@[j], channel, player)
                    implies j == i by {
                if j < i {
                    assert(!same_key(m1.games@[j], m1.games@[i]));
                } else if j > i {
                    assert(!same_key(m1.games@[i], m1.games@[j]));
                }
            }
            assert forall|a: int, b: int| 0 <= a < b < self.games@.len() implies !same_key(
                #[trigger] self.games@[a],
                #[trigger] self.games@[b],
            ) by {
                assert(!same_key(m1.games@[a], m1.games@[b]));
            }
            assert forall|a: int, b: int|
                0 <= a < b < self.games@.len() && (#[trigger] self.games@[a]).wordle.last_message_id
                    is Some implies self.games@[a].wordle.last_message_id != (
            #[trigger] self.games@[b]).wordle.last_message_id by {
                if a != i && b != i {
                    assert(m1.games@[a].wordle.last_message_id is Some
                        ==> m1.games@[a].wordle.last_message_id
                        != m1.games@[b].wordle.last_message_id);
                }
            }
            assert forall|a: int| 0 <= a < self.games@.len() implies (
            #[trigger] self.games@[a]).wordle.wf() && self.games@[a].wordle.guesses < GUESSES by {
                assert(m1.games@[a].wordle.wf());
                assert(self.games@[a].wordle.word == m1.games@[a].wordle.word);
                assert(self.games@[a].wordle.guesses == m1.games@[a].wordle.guesses);
                assert(self.games@[a].wordle.fields == m1.games@[a].wordle.fields);
            }
        }
    }

    /// Resolves a surrender signal attached to the displayed state
    /// `message_id`, raised by `user`: the game holding that reference is
    /// conceded and removed, exactly as a spoken concession would do, and the
    /// returned entry carries its hidden word.  The signal is ignored when no
    /// game holds the reference, when a group is playing and the user is not
    /// on its roster, or when a solo game belongs to another player.
    pub fn resolve_by_broadcast_ref(&mut self, message_id: u64, user: u64, now: u64) -> (r: Option<
        GameEntry,
    >)
        requires
            old(self).wf(),
        ensures
            final(self).wf(),
            final(self).words == old(self).words,
            ({
                let m1g = old(self).swept_games(now);
                let m1max = old(self).swept_max(now);
                let m1j = old(self).swept_joined(now);
                let single = m1max == 1;
                let c_out = !single && !m1j.contains(user);
                &&& c_out ==> r is None && only_swept(*old(self), *final(self), now)
                &&& !c_out && !some_ref(m1g, message_id) ==> r is None && only_swept(
                    *old(self),
                    *final(self),
                    now,
                )
                &&& !c_out && some_ref(m1g, message_id) ==> (forall|i: int|
                    0 <= i < m1g.len() && (#[trigger] m1g[i]).wordle.last_message_id == Some(
                        message_id,
                    ) ==> ({
                        &&& (single && m1g[i].player != user) ==> r is None && only_swept(
                            *old(self),
                            *final(self),
                            now,
                        )
                        &&& (!single || m1g[i].player == user) ==> r == Some(m1g[i])
                            && final(self).games@ == m1g.remove(i)
                            && final(self).max_people_playing == 1
                            && final(self).joined_people@.len() == 0
                    }))
            }),
    {
        self.sweep_expired(now);
        let single = self.max_people_playing == 1;
        if !single && !self.roster_contains(user) {
            return None;
        }
        let idx = match self.find_by_ref(message_id) {
            None => {
                return None;
            },
            Some(i) => i,
        };
        let ghost m1 = *self;
        let ghost i = idx as int;
        proof {
            assert forall|j: int|
                0 <= j < m1.games@.len() && (#[trigger] m1.games@[j]).wordle.last_message_id
                    == Some(message_id) implies j == i by {
                if j < i {
                    assert(m1.games@[j].wordle.last_message_id
                        != m1.games@[i].wordle.last_message_id);
                } else if j > i {
                    assert(m1.games@[i].wordle.last_message_id
                        != m1.games@[j].wordle.last_message_id);
                }
            }
        }
        if single && self.games[idx].player != user {
            return None;
        }
        let removed = self.games.remove(idx);
        self.clean_joined_and_max_playing();
        proof {
            lemma_entry_pairs_remove(m1.games@, i);
        }
        Some(removed)
    }
}

/// Removing one entry keeps every pairwise and per-entry registry fact of the
/// remaining entries.
proof fn lemma_entry_pairs_remove(s: Seq<GameEntry>, i: int)
    requires
        0 <= i < s.len(),
        forall|a: int, b: int| 0 <= a < b < s.len() ==> !same_key(#[trigger] s[a], #[trigger] s[b]),
        forall|a: int, b: int|
            0 <= a < b < s.len() && (#[trigger] s[a]).wordle.last_message_id is Some ==> s[a].wordle.last_message_id
                != (#[trigger] s[b]).wordle.last_message_id,
        forall|a: int|
            0 <= a < s.len() ==> (#[trigger] s[a]).wordle.wf() && s[a].wordle.guesses < GUESSES,
    ensures
        forall|a: int, b: int|
            0 <= a < b < s.remove(i).len() ==> !same_key(
                #[trigger] s.remove(i)[a],
                #[trigger] s.remove(i)[b],
            ),
        forall|a: int, b: int|
            0 <= a < b < s.remove(i).len() && (#[trigger] s.remove(i)[a]).wordle.last_message_id
                is Some ==> s.remove(i)[a].wordle.last_message_id != (
            #[trigger] s.remove(i)[b]).wordle.last_message_id,
        forall|a: int|
            0 <= a < s.remove(i).len() ==> (#[trigger] s.remove(i)[a]).wordle.wf() && s.remove(
                i,
            )[a].wordle.guesses < GUESSES,
{
    s.remove_ensures(i);
    assert forall|a: int| 0 <= a < s.remove(i).len() implies (#[trigger] s.remove(i)[a]).wordle.wf()
        && s.remove(i)[a].wordle.guesses < GUESSES by {
        if a < i {
            assert(s.remove(i)[a] == s[a]);
        } else {
            assert(s.remove(i)[a] == s[a + 1]);
        }
    }
    assert forall|a: int, b: int| 0 <= a < b < s.remove(i).len() implies !same_key(
        #[trigger] s.remove(i)[a],
        #[trigger] s.remove(i)[b],
    ) by {
        let a2 = if a < i { a } else { a + 1 };
        let b2 = if b < i { b } else { b + 1 };
        assert(s.remove(i)[a] == s[a2] && s.remove(i)[b] == s[b2]);
        assert(!same_key(s[a2], s[b2]));
    }
    assert forall|a: int, b: int|
        0 <= a < b < s.remove(i).len() && (#[trigger] s.remove(i)[a]).wordle.last_message_id
            is Some implies s.remove(i)[a].wordle.last_message_id != (
    #[trigger] s.remove(i)[b]).wordle.last_message_id by {
        let a2 = if a < i { a } else { a + 1 };
        let b2 = if b < i { b } else { b + 1 };
        assert(s.remove(i)[a] == s[a2] && s.remove(i)[b] == s[b2]);
    }
}

/// Every live entry is an entry of the sequence it was swept from.
pub proof fn lemma_live_games_sub(s: Seq<GameEntry>, now: u64)
    ensures
        live_games(s, now).len() <= s.len(),
        forall|i: int|
            0 <= i < live_games(s, now).len() ==> s.contains(#[trigger] live_games(s, now)[i]),
    decreases s.len(),
{
    if s.len() > 0 {
        lemma_live_games_sub(s.drop_last(), now);
        assert forall|i: int| 0 <= i < live_games(s, now).len() implies s.contains(
            #[trigger] live_games(s, now)[i],
        ) by {
            let l = live_games(s, now);
            let rest = live_games(s.drop_last(), now);
            if i < rest.len() {
                let j = choose|j: int| 0 <= j < s.drop_last().len() && s.drop_last()[j] == rest[i];
                assert(s[j] == l[i]);
            } else {
                assert(s[s.len() - 1] == l[i]);
            }
        }
    }
}

/// Any two distinct positions of the live sequence come from two distinct
/// positions of the sequence it was swept from, in the same order.
pub proof fn lemma_live_games_pairs(s: Seq<GameEntry>, now: u64)
    ensures
        forall|i: int, j: int|
            0 <= i < j < live_games(s, now).len() ==> exists|a: int, b: int|
                0 <= a < b < s.len() && s[a] == #[trigger] live_games(s, now)[i] && s[b]
                    == #[trigger] live_games(s, now)[j],
    decreases s.len(),
{
    if s.len() > 0 {
        lemma_live_games_pairs(s.drop_last(), now);
        lemma_live_games_sub(s.drop_last(), now);
        let l = live_games(s, now);
        let rest = live_games(s.drop_last(), now);
        assert forall|i: int, j: int| 0 <= i < j < l.len() implies exists|a: int, b: int|
            0 <= a < b < s.len() && s[a] == #[trigger] l[i] && s[b] == #[trigger] l[j] by {
            if j < rest.len() {
                let (a, b) = choose|a: int, b: int|
                    0 <= a < b < s.drop_last().len() && s.drop_last()[a] == rest[i]
                        && s.drop_last()[b] == rest[j];
                assert(s[a] == l[i] && s[b] == l[j]);
            } else {
                // j is the kept last element of s
                let a = choose|a: int|
                    0 <= a < s.drop_last().len() && s.drop_last()[a] == rest[i];
                let b = s.len() - 1;
                assert(s[a] == l[i] && s[b] == l[j]);
            }
        }
    }
}


/// A sweep leaves only entries that are themselves live, so a second sweep
/// finds nothing to remove.
proof fn lemma_live_games_idempotent(s: Seq<GameEntry>, now: u64)
    ensures
        live_games(live_games(s, now), now) == live_games(s, now),
    decreases s.len(),
{
    if s.len() > 0 {
        lemma_live_games_idempotent(s.drop_last(), now);
        if !is_expired(s.last().last_activity, now) {
            let rest = live_games(s.drop_last(), now);
            let t = rest.push(s.last());
            assert(t.drop_last() =~= rest);
        }
    }
}

/// Key uniqueness: the registry never holds two games under the same
/// `(channel, player)` key.  Every operation preserves well-formedness, so
/// this holds after any sequence of operations.
pub proof fn lemma_key_uniqueness(m: ServerMap, i: int, j: int)
    requires
        m.wf(),
        0 <= i < m.games@.len(),
        0 <= j < m.games@.len(),
        i != j,
    ensures
        !same_key(m.games@[i], m.games@[j]),
{
    if i < j {
        assert(!same_key(m.games@[i], m.games@[j]));
    } else {
        assert(!same_key(m.games@[j], m.games@[i]));
    }
}

/// Group exclusivity: while a group is forming or playing the registry holds
/// at most one game, and two or more games can only be solo games.
pub proof fn lemma_group_exclusivity(m: ServerMap)
    requires
        m.wf(),
    ensures
        m.max_people_playing > 1 ==> m.games@.len() <= 1,
        m.games@.len() >= 2 ==> m.max_people_playing == 1,
{
}

/// Guess budget: every registered game still has budget left, with exactly
/// one graded row per spent guess; the operation that spends the last guess
/// removes the game, revealing the hidden word unless it was won.
pub proof fn lemma_guess_budget(m: ServerMap, i: int)
    requires
        m.wf(),
        0 <= i < m.games@.len(),
    ensures
        m.games@[i].wordle.guesses < GUESSES,
        m.games@[i].wordle.fields@.len() == m.games@[i].wordle.guesses,
{
}

/// Guess count monotonicity: recording an accepted guess only ever raises
/// the count.
pub proof fn lemma_guess_count_monotonic(e1: GameEntry, e2: GameEntry, g: Seq<char>, now: u64)
    requires
        recorded(e1, e2, g, now),
    ensures
        e1.wordle.guesses < e2.wordle.guesses,
{
}

/// Expiry idempotence: sweeping twice in succession, with no intervening
/// activity, leaves exactly the state one sweep leaves.
pub proof fn lemma_sweep_idempotent(m0: ServerMap, m1: ServerMap, m2: ServerMap, now: u64)
    requires
        only_swept(m0, m1, now),
        only_swept(m1, m2, now),
    ensures
        m2.games@ == m1.games@,
        m2.max_people_playing == m1.max_people_playing,
        m2.joined_people@ == m1.joined_people@,
{
    lemma_live_games_idempotent(m0.games@, now);
}

} // verus!
