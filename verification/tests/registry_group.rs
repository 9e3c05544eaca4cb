use wordle_bot::registry::{
    GiveUpOutcome, GuessOutcome, JoinOutcome, RejectReason, ServerMap, StartOutcome, GAME_TIME,
};
use wordle_bot::words::{Word, Words};

const CH: u64 = 10;
const OTHER_CH: u64 = 11;
const P1: u64 = 101;
const P2: u64 = 102;
const P3: u64 = 103;
const OUTSIDER: u64 = 999;

fn group_map(words: &[&str]) -> ServerMap {
    let mut list = Vec::new();
    for w in words {
        list.push(Word { word: String::from(*w) });
    }
    ServerMap::new(Words::new(list))
}

#[test]
fn scenario_group_gathering() {
    let mut m = group_map(&["CRANE", "BRAIN"]);
    assert_eq!(m.start_group(CH, P1, 3, 0), StartOutcome::GroupForming);
    assert_eq!(m.max_people_playing, 3);
    assert_eq!(m.joined_people, vec![P1]);
    assert_eq!(m.join_group(CH, P2, 0), JoinOutcome::Joined { remaining: 1 });
    assert_eq!(
        m.join_group(CH, P2, 0),
        JoinOutcome::Rejected(RejectReason::AlreadyJoined)
    );
    assert_eq!(m.join_group(CH, P3, 0), JoinOutcome::Started);
    assert_eq!(m.joined_people, vec![P1, P2, P3]);
    // A member's guess is recorded against the initiator's shared game.
    let target = m.games[0].wordle.word.clone();
    let wrong = if target == "CRANE" { "BRAIN" } else { "CRANE" };
    assert_eq!(m.submit_guess(CH, P2, wrong, 0), GuessOutcome::Continue);
    assert_eq!(m.games.len(), 1);
    assert_eq!(m.games[0].player, P1);
    assert_eq!(m.games[0].wordle.guesses, 1);
}

#[test]
fn group_start_rejections() {
    let mut m = group_map(&["CRANE"]);
    assert_eq!(
        m.start_group(CH, P1, 1, 0),
        StartOutcome::Rejected(RejectReason::WrongPlayersNumber)
    );
    assert_eq!(m.start_solo(CH, P2, 0), StartOutcome::Started);
    assert_eq!(
        m.start_group(CH, P1, 2, 0),
        StartOutcome::Rejected(RejectReason::SoloActive)
    );
    assert_eq!(m.give_up(CH, P2, 0), GiveUpOutcome::Conceded { target: String::from("CRANE") });
    assert_eq!(m.start_group(CH, P1, 2, 0), StartOutcome::GroupForming);
    assert_eq!(
        m.start_group(CH, P3, 2, 0),
        StartOutcome::Rejected(RejectReason::GroupActive)
    );
    assert_eq!(
        m.start_solo(CH, P3, 0),
        StartOutcome::Rejected(RejectReason::GroupActive)
    );
}

#[test]
fn join_rejections() {
    let mut m = group_map(&["CRANE"]);
    assert_eq!(
        m.join_group(CH, P2, 0),
        JoinOutcome::Rejected(RejectReason::NoGroupForming)
    );
    assert_eq!(m.start_group(CH, P1, 2, 0), StartOutcome::GroupForming);
    assert_eq!(
        m.join_group(OTHER_CH, P2, 0),
        JoinOutcome::Rejected(RejectReason::WrongChannel)
    );
    assert_eq!(m.join_group(CH, P2, 0), JoinOutcome::Started);
    assert_eq!(
        m.join_group(CH, P3, 0),
        JoinOutcome::Rejected(RejectReason::RosterFull)
    );
}

#[test]
fn guesses_wait_for_a_full_roster() {
    let mut m = group_map(&["CRANE"]);
    assert_eq!(m.start_group(CH, P1, 3, 0), StartOutcome::GroupForming);
    assert_eq!(
        m.submit_guess(CH, P1, "crane", 0),
        GuessOutcome::Rejected(RejectReason::WaitingForPlayers { remaining: 2 })
    );
    assert_eq!(m.join_group(CH, P2, 0), JoinOutcome::Joined { remaining: 1 });
    assert_eq!(
        m.submit_guess(CH, P2, "crane", 0),
        GuessOutcome::Rejected(RejectReason::WaitingForPlayers { remaining: 1 })
    );
}

#[test]
fn group_guess_channel_and_membership_checks() {
    let mut m = group_map(&["CRANE"]);
    assert_eq!(m.start_group(CH, P1, 2, 0), StartOutcome::GroupForming);
    assert_eq!(m.join_group(CH, P2, 0), JoinOutcome::Started);
    assert_eq!(
        m.submit_guess(OTHER_CH, P2, "crane", 0),
        GuessOutcome::Rejected(RejectReason::GuessWrongChannel)
    );
    assert_eq!(
        m.submit_guess(CH, OUTSIDER, "crane", 0),
        GuessOutcome::Rejected(RejectReason::NotInGroup)
    );
    assert_eq!(m.submit_guess(CH, P2, "crane", 0), GuessOutcome::Won);
    // The win ends group play: the coordination state is cleared.
    assert!(m.games.is_empty());
    assert_eq!(m.max_people_playing, 1);
    assert!(m.joined_people.is_empty());
}

#[test]
fn any_member_may_concede_the_shared_game() {
    let mut m = group_map(&["CRANE"]);
    assert_eq!(m.start_group(CH, P1, 2, 0), StartOutcome::GroupForming);
    assert_eq!(m.join_group(CH, P2, 0), JoinOutcome::Started);
    assert_eq!(
        m.give_up(OTHER_CH, P2, 0),
        GiveUpOutcome::Rejected(RejectReason::GuessWrongChannel)
    );
    assert_eq!(
        m.give_up(CH, OUTSIDER, 0),
        GiveUpOutcome::Rejected(RejectReason::NotInGroup)
    );
    assert_eq!(m.give_up(CH, P2, 0), GiveUpOutcome::Conceded { target: String::from("CRANE") });
    assert!(m.games.is_empty());
    assert_eq!(m.max_people_playing, 1);
    assert!(m.joined_people.is_empty());
}

#[test]
fn filling_the_roster_restarts_the_expiry_window() {
    let mut m = group_map(&["CRANE"]);
    assert_eq!(m.start_group(CH, P1, 2, 0), StartOutcome::GroupForming);
    // The gathering almost timed out, but the filling join resets the clock.
    assert_eq!(m.join_group(CH, P2, GAME_TIME - 1), JoinOutcome::Started);
    assert_eq!(m.games[0].last_activity, GAME_TIME - 1);
    m.sweep_expired(GAME_TIME + 100);
    assert_eq!(m.games.len(), 1);
}

#[test]
fn an_expired_group_game_clears_the_coordination_state() {
    let mut m = group_map(&["CRANE"]);
    assert_eq!(m.start_group(CH, P1, 3, 0), StartOutcome::GroupForming);
    assert_eq!(m.join_group(CH, P2, 0), JoinOutcome::Joined { remaining: 1 });
    m.sweep_expired(GAME_TIME);
    assert!(m.games.is_empty());
    assert_eq!(m.max_people_playing, 1);
    assert!(m.joined_people.is_empty());
    // The channel is free again.
    assert_eq!(m.start_solo(CH, P3, GAME_TIME), StartOutcome::Started);
}

#[test]
fn get_players_names_the_roster_in_group_mode() {
    let mut m = group_map(&["CRANE"]);
    assert_eq!(m.start_group(CH, P1, 2, 0), StartOutcome::GroupForming);
    assert_eq!(m.join_group(CH, P2, 0), JoinOutcome::Started);
    assert_eq!(m.get_players(P1), vec![P1, P2]);
}
