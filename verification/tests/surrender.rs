use wordle_bot::config::Config;
use wordle_bot::registry::{JoinOutcome, ServerMap, StartOutcome};
use wordle_bot::words::{Word, Words};

const CH: u64 = 10;
const P1: u64 = 101;
const P2: u64 = 102;
const OUTSIDER: u64 = 999;
const MSG: u64 = 5000;

fn map(words: &[&str]) -> ServerMap {
    let mut list = Vec::new();
    for w in words {
        list.push(Word { word: String::from(*w) });
    }
    ServerMap::new(Words::new(list))
}

#[test]
fn surrender_signal_concedes_the_solo_game() {
    let mut m = map(&["CRANE"]);
    assert_eq!(m.start_solo(CH, P1, 0), StartOutcome::Started);
    m.set_broadcast_ref(CH, P1, MSG);
    assert_eq!(m.games[0].wordle.last_message_id, Some(MSG));
    let removed = m.resolve_by_broadcast_ref(MSG, P1, 1).expect("the owner's signal resolves");
    assert_eq!(removed.channel, CH);
    assert_eq!(removed.player, P1);
    assert_eq!(removed.wordle.word, "CRANE");
    assert!(m.games.is_empty());
}

#[test]
fn anothers_signal_on_a_solo_game_is_ignored() {
    let mut m = map(&["CRANE"]);
    assert_eq!(m.start_solo(CH, P1, 0), StartOutcome::Started);
    m.set_broadcast_ref(CH, P1, MSG);
    assert!(m.resolve_by_broadcast_ref(MSG, OUTSIDER, 1).is_none());
    assert_eq!(m.games.len(), 1);
}

#[test]
fn a_signal_on_an_unknown_reference_is_ignored() {
    let mut m = map(&["CRANE"]);
    assert_eq!(m.start_solo(CH, P1, 0), StartOutcome::Started);
    m.set_broadcast_ref(CH, P1, MSG);
    assert!(m.resolve_by_broadcast_ref(MSG + 1, P1, 1).is_none());
    assert_eq!(m.games.len(), 1);
}

#[test]
fn only_the_latest_display_carries_the_reference() {
    let mut m = map(&["CRANE"]);
    assert_eq!(m.start_solo(CH, P1, 0), StartOutcome::Started);
    m.set_broadcast_ref(CH, P1, MSG);
    m.set_broadcast_ref(CH, P1, MSG + 1);
    assert!(m.resolve_by_broadcast_ref(MSG, P1, 1).is_none());
    let removed = m.resolve_by_broadcast_ref(MSG + 1, P1, 1).expect("the latest display resolves");
    assert_eq!(removed.player, P1);
}

#[test]
fn a_reference_moves_to_the_game_that_claims_it() {
    let mut m = map(&["CRANE"]);
    assert_eq!(m.start_solo(CH, P1, 0), StartOutcome::Started);
    assert_eq!(m.start_solo(CH, P2, 0), StartOutcome::Started);
    m.set_broadcast_ref(CH, P1, MSG);
    m.set_broadcast_ref(CH, P2, MSG);
    let p1_entry = m.games.iter().find(|e| e.player == P1).expect("still registered");
    assert_eq!(p1_entry.wordle.last_message_id, None);
    let removed = m.resolve_by_broadcast_ref(MSG, P2, 1).expect("the claiming game resolves");
    assert_eq!(removed.player, P2);
}

#[test]
fn group_members_may_signal_and_outsiders_may_not() {
    let mut m = map(&["CRANE"]);
    assert_eq!(m.start_group(CH, P1, 2, 0), StartOutcome::GroupForming);
    assert_eq!(m.join_group(CH, P2, 0), JoinOutcome::Started);
    m.set_broadcast_ref(CH, P1, MSG);
    assert!(m.resolve_by_broadcast_ref(MSG, OUTSIDER, 1).is_none());
    assert_eq!(m.games.len(), 1);
    let removed = m.resolve_by_broadcast_ref(MSG, P2, 1).expect("a member's signal resolves");
    assert_eq!(removed.player, P1);
    assert!(m.games.is_empty());
    assert_eq!(m.max_people_playing, 1);
    assert!(m.joined_people.is_empty());
}

#[test]
fn config_keeps_token_and_prefix() {
    let c = Config::new(String::from("bot-token"), String::from("!"));
    assert_eq!(c.token(), "bot-token");
    assert_eq!(c.prefix(), "!");
}
