use drftr::draft_types::DraftType;
use drftr::item::DraftItem;
use drftr::item::Draftable;
use drftr::league::League;
use drftr::league::LeagueError;
use drftr::player::ActivePlayer;

struct Pokemon {
    name: String,
}

impl DraftItem for Pokemon {
    fn name(&self) -> &str {
        self.name.as_str()
    }
}

fn item(name: &str) -> Draftable {
    Draftable::new(name.to_string())
}

#[test]
fn trade_works() {
    let users = vec![69420u64, 42069u64];
    let mut league = League::new(&users, 69420, "Creenis".to_string(), None, DraftType::Snake, 3);
    league.add_to_player_picks(69420, item("Pikachu")).expect("this oughta work");
    league.add_to_player_picks(42069, item("Eldegoss")).expect("this oughta work");
    let (p1picks, p2picks) =
        league.trade(69420, "Pikachu", 42069, "Eldegoss").expect("this oughta work");
    assert_eq!(p1picks[0].name(), "Eldegoss");
    assert_eq!(p2picks[0].name(), "Pikachu");
}

#[test]
fn league_lock_picks_deletes_picked_items_from_queue_and_locks_available_picks() {
    let users = vec![69420u64, 42069u64];
    let mut league = League::new(&users, 69420, "Creenis".to_string(), None, DraftType::Snake, 3);
    league.add_to_player_queue(69420, item("Pikachu")).expect("this is fine");
    league.add_to_player_queue(69420, item("Quaxly")).expect("this is fine");
    league.add_to_player_queue(42069, item("Pikachu")).expect("this is fine");
    league.add_to_player_queue(42069, item("Raichu")).expect("this is fine");
    league.advance();
    league.advance();
    league.advance();
    league.activate();
    league.lock(item("Pikachu")).expect("this is fine");
    let p1picks = league.player_picks(69420).expect("this is fine");
    assert_eq!(p1picks[0].name(), "Pikachu");
    assert_eq!(p1picks[1].name(), "Quaxly");
    let p2picks = league.player_picks(42069).expect("this is fine");
    assert_eq!(p2picks[0].name(), "Raichu");
}

#[test]
fn lock_picks_returns_correct_pick_data() {
    let users = vec![69420u64, 42069u64];
    let mut league = League::new(&users, 69420, "Creenis".to_string(), None, DraftType::Snake, 3);
    league.add_to_player_queue(69420, item("Pikachu")).expect("this is fine");
    league.add_to_player_queue(69420, item("Quaxly")).expect("this is fine");
    league.add_to_player_queue(42069, item("Pikachu")).expect("this is fine");
    league.add_to_player_queue(42069, item("Raichu")).expect("this is fine");
    league.advance();
    league.advance();
    league.advance();
    league.activate();
    let picks = league.lock(item("Pikachu")).expect("this is fine");
    let (u1, pokemon1) = &picks[0];
    let (u2, pokemon2) = &picks[1];
    let (u3, pokemon3) = &picks[2];
    assert_eq!(u1, u2);
    assert_ne!(u1, u3);
    assert_eq!(pokemon1.to_owned(), "Pikachu".to_string());
    assert_eq!(pokemon2.to_owned(), "Quaxly".to_string());
    assert_eq!(pokemon3.to_owned(), "Raichu".to_string());
}

#[test]
#[should_panic]
fn no_waivers_in_active_draft() {
    let users = vec![69420u64];
    let mut league = League::new(&users, 69420, "Cheenis".to_string(), None, DraftType::Snake, 255);
    league.activate();
    league.waiver(69420, "pikachu", item("Pikachu")).expect("no waivers in active drafts");
}

#[test]
fn draftable_in_use_error() {
    let users = vec![69420u64];
    let mut league = League::new(&users, 69420, "Creenis".to_string(), None, DraftType::Snake, 5);
    league.add_to_player_picks(69420, item("Pikachu")).expect("this is fine");
    league.add_to_player_picks(69420, item("Quaxly")).expect("this is fine");
    match league.waiver(69420, "Pikachu", item("Pikachu")) {
        Err(LeagueError::DraftableInUseError) => {}
        _ => panic!("wronge"),
    }
}

#[test]
fn draftable_not_found_error() {
    let users = vec![69420u64];
    let mut league = League::new(&users, 69420, "Creenis".to_string(), None, DraftType::Snake, 5);
    league.add_to_player_picks(69420, item("Pikachu")).expect("this is fine");
    league.add_to_player_picks(69420, item("Quaxly")).expect("this is fine");
    match league.waiver(69420, "Raichu", item("Amoonguss")) {
        Err(LeagueError::DraftableNotFoundError) => {}
        _ => panic!("wronge"),
    }
}

#[test]
fn returns_next_player() {
    let users = vec![69420u64, 42069u64];
    let mut league = League::new(&users, 69420, "Creenis".to_string(), None, DraftType::Snake, 3);
    let player = league.advance().unwrap();
    assert_eq!(player, 42069);
    assert_eq!(league.player_count(), 2);
}

#[test]
#[should_panic]
fn final_pick_returns_none() {
    let users = vec![69420u64, 42069u64];
    let mut league = League::new(&users, 69420, "Creenis".to_string(), None, DraftType::Snake, 1);
    let _player1 = league.advance();
    let _player2 = league.advance().unwrap();
}

#[test]
fn delete_from_queue_deletes() {
    let mut player = ActivePlayer::new(69420);
    player.add_to_queue(item("Pikachu"));
    assert_eq!(player.queue().len(), 1);
    let removed = player.delete_from_queue("Pikachu").unwrap();
    let removed = removed.name();
    assert_eq!(removed, "Pikachu");
    assert_eq!(player.queue().len(), 0);
}

#[test]
#[should_panic]
fn try_delete_item_not_in_queue() {
    let mut player = ActivePlayer::new(69420);
    let _removed = player.delete_from_queue("Pikachu").unwrap();
}

#[test]
fn gets_first_in_queue() {
    let mut player = ActivePlayer::new(69420);
    player.add_to_queue(item("Pikachu"));
    player.add_to_queue(item("Quaxly"));
    let pikachu = player.first_in_queue().unwrap();
    assert_eq!(pikachu.name(), "Pikachu");
}

#[test]
fn two_participant_snake_draft_completes_after_final_pick() {
    // two participants, one item each: the final pick is numbered 1
    let users = vec![11u64, 22u64];
    let mut league = League::new(&users, 1, "pair".to_string(), None, DraftType::Snake, 1);
    league.activate();
    assert_eq!(league.advance(), Some(22));
    assert_eq!(league.advance(), None);
    assert!(!league.active());
    assert_eq!(league.advance(), None);
}

#[test]
fn linear_advance_visits_seats_in_circle() {
    let users = vec![10u64, 20u64, 30u64];
    let mut league = League::new(&users, 2, "circle".to_string(), None, DraftType::Linear, 2);
    assert_eq!(league.advance(), Some(20));
    assert_eq!(league.advance(), Some(30));
    assert_eq!(league.advance(), Some(10));
    assert_eq!(league.advance(), Some(20));
    assert_eq!(league.advance(), Some(30));
    assert_eq!(league.advance(), None);
}

#[test]
fn snake_advance_gives_boundary_seats_double_turns() {
    let users = vec![10u64, 20u64, 30u64];
    let mut league = League::new(&users, 3, "snake".to_string(), None, DraftType::Snake, 2);
    assert_eq!(league.advance(), Some(20));
    assert_eq!(league.advance(), Some(30));
    assert_eq!(league.advance(), Some(30));
    assert_eq!(league.advance(), Some(20));
    assert_eq!(league.advance(), Some(10));
    assert_eq!(league.advance(), None);
}

#[test]
fn lock_removes_name_from_every_queue() {
    let users = vec![1u64, 2u64];
    let mut league = League::new(&users, 4, "pool".to_string(), None, DraftType::Linear, 2);
    league.add_to_player_queue(2, item("Pikachu")).expect("queued");
    league.activate();
    let records = league.lock(item("Pikachu")).expect("locked");
    assert_eq!(records.len(), 1);
    assert_eq!(records[0], (1u64, "Pikachu".to_string()));
    // the other participant's queue lost its only entry
    match league.player_queue(2) {
        Err(LeagueError::PlayerQueueEmptyError) => {}
        _ => panic!("the queued copy should be gone"),
    }
}

#[test]
fn cascading_lock_returns_both_picks_and_pops_the_queue() {
    let users = vec![1u64, 2u64];
    let mut league = League::new(&users, 5, "cascade".to_string(), None, DraftType::Linear, 2);
    league.add_to_player_queue(2, item("Beldum")).expect("queued");
    league.activate();
    let records = league.lock(item("Arceus")).expect("locked");
    assert_eq!(records.len(), 2);
    assert_eq!(records[0], (1u64, "Arceus".to_string()));
    assert_eq!(records[1], (2u64, "Beldum".to_string()));
    match league.player_queue(2) {
        Err(LeagueError::PlayerQueueEmptyError) => {}
        _ => panic!("the auto-picked item should have left the queue"),
    }
}

#[test]
fn lock_fails_on_inactive_league() {
    let users = vec![1u64];
    let mut league = League::new(&users, 6, "idle".to_string(), None, DraftType::Linear, 1);
    match league.lock(item("Pikachu")) {
        Err(LeagueError::LeagueInactiveError) => {}
        _ => panic!("an inactive league must refuse picks"),
    }
}

#[test]
fn trade_is_all_or_nothing() {
    let users = vec![1u64, 2u64];
    let mut league = League::new(&users, 7, "swap".to_string(), None, DraftType::Linear, 2);
    league.add_to_player_picks(1, item("Pikachu")).expect("added");
    league.add_to_player_picks(2, item("Eldegoss")).expect("added");
    match league.trade(1, "Pikachu", 2, "Raichu") {
        Err(LeagueError::DraftableNotFoundError) => {}
        _ => panic!("trading an absent item must fail"),
    }
    let p1picks = league.player_picks(1).expect("still there");
    assert_eq!(p1picks.len(), 1);
    assert_eq!(p1picks[0].name(), "Pikachu");
}

#[test]
fn trade_fails_for_unknown_participant() {
    let users = vec![1u64];
    let mut league = League::new(&users, 8, "solo".to_string(), None, DraftType::Linear, 1);
    league.add_to_player_picks(1, item("Pikachu")).expect("added");
    match league.trade(1, "Pikachu", 99, "Eldegoss") {
        Err(LeagueError::PlayerNotFoundError) => {}
        _ => panic!("an unknown id must fail"),
    }
    assert_eq!(league.player_picks(1).expect("kept")[0].name(), "Pikachu");
}

#[test]
fn trade_fails_while_active() {
    let users = vec![1u64, 2u64];
    let mut league = League::new(&users, 9, "busy".to_string(), None, DraftType::Linear, 1);
    league.activate();
    match league.trade(1, "a", 2, "b") {
        Err(LeagueError::LeagueActiveError) => {}
        _ => panic!("no trades during the draft"),
    }
}

#[test]
fn waiver_swaps_a_pick_for_a_pool_item() {
    let users = vec![1u64];
    let mut league = League::new(&users, 10, "waive".to_string(), None, DraftType::Linear, 2);
    league.add_to_player_picks(1, item("Pikachu")).expect("added");
    let picks = league.waiver(1, "Pikachu", item("Eldegoss")).expect("waived");
    assert_eq!(picks.len(), 1);
    assert_eq!(picks[0].name(), "Eldegoss");
}

#[test]
fn waiver_in_use_even_when_another_participant_holds_the_item() {
    let users = vec![1u64, 2u64];
    let mut league = League::new(&users, 11, "held".to_string(), None, DraftType::Linear, 2);
    league.add_to_player_picks(1, item("Pikachu")).expect("added");
    league.add_to_player_picks(2, item("Eldegoss")).expect("added");
    match league.waiver(1, "Pikachu", item("Eldegoss")) {
        Err(LeagueError::DraftableInUseError) => {}
        _ => panic!("the incoming item is already locked in elsewhere"),
    }
    assert_eq!(league.player_picks(1).expect("kept")[0].name(), "Pikachu");
}

#[test]
fn waiver_fails_for_unknown_participant() {
    let users = vec![1u64];
    let mut league = League::new(&users, 12, "ghost".to_string(), None, DraftType::Linear, 1);
    match league.waiver(99, "Pikachu", item("Eldegoss")) {
        Err(LeagueError::PlayerNotFoundError) => {}
        _ => panic!("an unknown id must fail"),
    }
}

#[test]
fn current_player_reports_inactive_league() {
    let users = vec![1u64];
    let mut league = League::new(&users, 13, "turn".to_string(), None, DraftType::Linear, 1);
    match league.current_player() {
        Err(LeagueError::LeagueInactiveError) => {}
        _ => panic!("no current turn while inactive"),
    }
    league.activate();
    assert_eq!(league.current_player().expect("on the clock").id(), 1);
}

#[test]
fn player_picks_signals_empty_and_unknown() {
    let users = vec![1u64];
    let league = League::new(&users, 14, "query".to_string(), None, DraftType::Linear, 1);
    match league.player_picks(1) {
        Err(LeagueError::PlayerPicksEmptyError) => {}
        _ => panic!("no picks yet"),
    }
    match league.player_picks(99) {
        Err(LeagueError::PlayerNotFoundError) => {}
        _ => panic!("unknown id"),
    }
}

#[test]
fn player_queue_signals_empty_and_unknown() {
    let users = vec![1u64];
    let league = League::new(&users, 15, "queue".to_string(), None, DraftType::Linear, 1);
    match league.player_queue(1) {
        Err(LeagueError::PlayerQueueEmptyError) => {}
        _ => panic!("queue starts empty"),
    }
    match league.player_queue(99) {
        Err(LeagueError::PlayerNotFoundError) => {}
        _ => panic!("unknown id"),
    }
}

#[test]
fn all_picks_collects_everyone_in_seat_order() {
    let users = vec![1u64, 2u64];
    let mut league = League::new(&users, 16, "union".to_string(), None, DraftType::Linear, 2);
    match league.all_picks() {
        Err(LeagueError::NoPicksError) => {}
        _ => panic!("nothing locked in yet"),
    }
    league.add_to_player_picks(1, item("Pikachu")).expect("added");
    league.add_to_player_picks(2, item("Eldegoss")).expect("added");
    league.add_to_player_picks(1, item("Quaxly")).expect("added");
    let all = league.all_picks().expect("three picks");
    let names: Vec<&str> = all.iter().map(|d| d.name()).collect();
    assert_eq!(names, vec!["Pikachu", "Quaxly", "Eldegoss"]);
}

#[test]
fn clear_player_queue_returns_everything_in_order() {
    let users = vec![1u64];
    let mut league = League::new(&users, 17, "clear".to_string(), None, DraftType::Linear, 2);
    match league.clear_player_queue(1) {
        Err(LeagueError::PlayerQueueEmptyError) => {}
        _ => panic!("nothing to clear"),
    }
    league.add_to_player_queue(1, item("Pikachu")).expect("queued");
    league.add_to_player_queue(1, item("Quaxly")).expect("queued");
    let cleared = league.clear_player_queue(1).expect("cleared");
    assert_eq!(cleared.len(), 2);
    assert_eq!(cleared[0].name(), "Pikachu");
    assert_eq!(cleared[1].name(), "Quaxly");
    match league.player_queue(1) {
        Err(LeagueError::PlayerQueueEmptyError) => {}
        _ => panic!("the queue should be empty now"),
    }
}

#[test]
fn add_to_player_picks_refuses_a_name_in_use() {
    let users = vec![1u64, 2u64];
    let mut league = League::new(&users, 18, "direct".to_string(), None, DraftType::Linear, 2);
    league.add_to_player_picks(1, item("Pikachu")).expect("added");
    match league.add_to_player_picks(2, item("Pikachu")) {
        Err(LeagueError::DraftableInUseError) => {}
        _ => panic!("the name is taken"),
    }
    match league.add_to_player_picks(99, item("Quaxly")) {
        Err(LeagueError::PlayerNotFoundError) => {}
        _ => panic!("unknown id"),
    }
}

#[test]
fn delete_from_player_queue_removes_one_entry() {
    let users = vec![1u64];
    let mut league = League::new(&users, 19, "prune".to_string(), None, DraftType::Linear, 2);
    league.add_to_player_queue(1, item("Quaxly")).expect("queued");
    league.add_to_player_queue(1, item("Pikachu")).expect("queued");
    let removed = league.delete_from_player_queue(1, "Quaxly").expect("removed");
    assert_eq!(removed.name(), "Quaxly");
    let queue = league.player_queue(1).expect("one left");
    assert_eq!(queue.len(), 1);
    assert_eq!(queue[0].name(), "Pikachu");
    match league.delete_from_player_queue(1, "Quaxly") {
        Err(LeagueError::DraftableNotFoundError) => {}
        _ => panic!("already removed"),
    }
    assert_eq!(league.player_queue(1).expect("unchanged").len(), 1);
}

#[test]
fn from_item_carries_the_name_over() {
    let pokemon = Pokemon { name: "Pikachu".to_string() };
    let drafted = Draftable::from_item(&pokemon);
    assert_eq!(drafted.name(), "Pikachu");
}
