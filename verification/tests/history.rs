use the_last_signal::calendar::date_of_day;
use the_last_signal::game::{Game, Outcome};
use the_last_signal::profile::{daily_day, Profile, DAILY_BASE, MAX_RUNS};
use the_last_signal::save::{accept_loaded, retired_name};

#[test]
fn history_is_bounded() {
    let mut p = Profile::default();
    let mut g = Game::new(1);
    g.hp = 0;
    g.outcome = Outcome::Dead;
    for _ in 0..MAX_RUNS + 5 {
        p.record(&g, "2026-01-01");
    }
    assert_eq!(p.runs.len(), MAX_RUNS);
}

#[test]
fn unfinished_runs_are_not_recorded() {
    let mut p = Profile::default();
    let mut g = Game::new(DAILY_BASE + 7);
    assert!(p.record(&g, "2026-09-22").is_none(), "unfinished runs are not recorded");
    g.hp = 0;
    g.outcome = Outcome::Dead;
    let run = p.record(&g, "2026-09-22").unwrap();
    assert_eq!(run.daily, Some(7));
    assert!(!run.won);
    assert_eq!(run.rank, "Lost Signal");
    assert_eq!(p.wins(), 0);
    assert_eq!(p.runs.len(), 1);
    assert_eq!(
        run.line(),
        format!("2026-09-22  Lost Signal       0 turns  seed {}  daily", DAILY_BASE + 7)
    );
}

#[test]
fn daily_days() {
    assert_eq!(daily_day(DAILY_BASE + 20_000), Some(20_000));
    assert_eq!(daily_day(42), None);
    assert_eq!(daily_day(DAILY_BASE + 1_000_000), Some(1_000_000));
    assert_eq!(daily_day(DAILY_BASE - 1), None);
}

#[test]
fn a_finished_run_cannot_be_loaded() {
    let mut g = Game::new(3);
    g.hp = 0;
    g.outcome = Outcome::Dead;
    assert!(accept_loaded(4, g).unwrap_err().contains("over"));
}

#[test]
fn save_versions_are_checked() {
    assert!(accept_loaded(3, Game::new(3)).unwrap_err().contains("three-floor"));
    assert_eq!(accept_loaded(5, Game::new(3)).unwrap_err(), "Unsupported save version");
    let mut bad = Game::new(3);
    bad.tiles.clear();
    assert_eq!(accept_loaded(4, bad).unwrap_err(), "Invalid map dimensions");
    let ok = accept_loaded(4, Game::new(3)).unwrap();
    assert_eq!(ok.seed, 3);
}

#[test]
fn a_used_save_gets_a_new_name() {
    assert_eq!(retired_name("expedition.save.json"), "expedition.save.json.loaded");
}

#[test]
fn calendar_dates() {
    assert_eq!(date_of_day(0), "1970-01-01");
    assert_eq!(date_of_day(951_782_400 / 86_400), "2000-02-29");
    assert_eq!(date_of_day(1_790_000_000 / 86_400), "2026-09-21");
    assert_eq!(date_of_day(365), "1971-01-01");
    assert_eq!(date_of_day(146_097), "2370-01-01");
    assert_eq!(date_of_day(10_957), "2000-01-01");
    assert_eq!(date_of_day(11_016 + 306), "2000-12-31");
    assert_eq!(date_of_day(3_000_000), "10183-09-21");
}

#[test]
fn a_save_belongs_to_the_run_with_its_seed() {
    let text = r#"{"version":4,"game":{"seed":3,"hp":24}}"#;
    assert!(the_last_signal::save::is_same_run(text, 3));
    assert!(!the_last_signal::save::is_same_run(text, 4));
    assert!(!the_last_signal::save::is_same_run("not json", 3));
    assert!(!the_last_signal::save::is_same_run(r#"{"game":{}}"#, 3));
}
