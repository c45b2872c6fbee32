use drftr::draft_types::DraftType;
use drftr::league::League;
use drftr::registry::DraftGuild;
use drftr::registry::DraftGuildError;

fn sample_league(id: u64, name: &str) -> League {
    let users = vec![69420u64, 42069u64];
    League::new(&users, id, name.to_string(), None, DraftType::Snake, 3)
}

#[test]
#[should_panic]
fn add_league_with_same_name_errors() {
    let mut guild = DraftGuild::new(69420, 69420);
    let league1 = sample_league(69420, "League1");
    let league2 = sample_league(69420, "League1");
    guild.add_league(league1).expect("The first league with a given name should insert correctly");
    guild
        .add_league(league2)
        .expect("The second league with the same name should return an error and not insert.");
}

#[test]
#[should_panic]
fn empty_league_hash_returns_none() {
    let guild = DraftGuild::new(69420, 69420);
    guild.league_by_name("key".to_string()).expect("There's nothing in here!");
}

#[test]
fn get_league_finds_correct_league() {
    let mut guild = DraftGuild::new(69420, 69420);
    let league = sample_league(69420, "Creenis");
    guild.add_league(league).expect("goodbye");
    let got_league = guild
        .league_by_name("Creenis".to_string())
        .expect("You had better not ever see this message");
    assert_eq!("Creenis".to_string(), *got_league.name());
}

#[test]
fn finds_league_by_id() {
    let mut guild = DraftGuild::new(1, 1);
    guild.add_league(sample_league(100, "first")).expect("added");
    guild.add_league(sample_league(200, "second")).expect("added");
    let got = guild.league_by_id(200).expect("present");
    assert_eq!(*got.name(), "second".to_string());
    match guild.league_by_id(300) {
        Err(DraftGuildError::LeagueNotFoundError) => {}
        _ => panic!("no league has that id"),
    }
}

#[test]
fn deletes_league_by_name_and_id() {
    let mut guild = DraftGuild::new(2, 2);
    guild.add_league(sample_league(100, "first")).expect("added");
    guild.add_league(sample_league(200, "second")).expect("added");
    let gone = guild.delete_league("first".to_string()).expect("removed");
    assert_eq!(*gone.name(), "first".to_string());
    match guild.delete_league("first".to_string()) {
        Err(DraftGuildError::LeagueNotFoundError) => {}
        _ => panic!("already removed"),
    }
    let gone = guild.delete_league_by_id(200).expect("removed");
    assert_eq!(gone.id(), 200);
    match guild.delete_league_by_id(200) {
        Err(DraftGuildError::LeagueNotFoundError) => {}
        _ => panic!("already removed"),
    }
}

#[test]
fn take_league_allows_mutation_and_put_league_restores_order() {
    let mut guild = DraftGuild::new(4, 4);
    guild.add_league(sample_league(100, "first")).expect("added");
    guild.add_league(sample_league(200, "second")).expect("added");
    guild.add_league(sample_league(300, "third")).expect("added");
    let (pos, mut league) = guild.take_league("second".to_string()).expect("taken");
    assert_eq!(pos, 1);
    assert_eq!(league.advance(), Some(42069));
    league.activate();
    guild.put_league(pos, league).expect("returned");
    let got = guild.league_by_name("second".to_string()).expect("back in place");
    assert!(got.active());
    let all = guild.clear_leagues();
    assert_eq!(*all[0].name(), "first".to_string());
    assert_eq!(*all[1].name(), "second".to_string());
    assert_eq!(*all[2].name(), "third".to_string());
}

#[test]
fn take_league_fails_for_unknown_name() {
    let mut guild = DraftGuild::new(5, 5);
    match guild.take_league("missing".to_string()) {
        Err(DraftGuildError::LeagueNotFoundError) => {}
        _ => panic!("nothing to take"),
    }
}

#[test]
fn put_league_refuses_duplicates_and_bad_positions() {
    let mut guild = DraftGuild::new(6, 6);
    guild.add_league(sample_league(100, "first")).expect("added");
    match guild.put_league(0, sample_league(200, "first")) {
        Err(DraftGuildError::LeagueNameAlreadyInUseError) => {}
        _ => panic!("the name is taken"),
    }
    match guild.put_league(2, sample_league(200, "second")) {
        Err(DraftGuildError::LeagueNotFoundError) => {}
        _ => panic!("the position is past the end"),
    }
    guild.put_league(0, sample_league(200, "second")).expect("placed in front");
    let all = guild.clear_leagues();
    assert_eq!(*all[0].name(), "second".to_string());
    assert_eq!(*all[1].name(), "first".to_string());
}

#[test]
fn clear_leagues_returns_all_in_insertion_order() {
    let mut guild = DraftGuild::new(3, 3);
    guild.add_league(sample_league(100, "first")).expect("added");
    guild.add_league(sample_league(200, "second")).expect("added");
    let cleared = guild.clear_leagues();
    assert_eq!(cleared.len(), 2);
    assert_eq!(*cleared[0].name(), "first".to_string());
    assert_eq!(*cleared[1].name(), "second".to_string());
    match guild.league_by_name("first".to_string()) {
        Err(DraftGuildError::LeagueNotFoundError) => {}
        _ => panic!("the guild should be empty"),
    }
}
