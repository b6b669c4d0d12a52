use langgen::calculatedrandom::CalculatedRandom;
use langgen::config::{Vocabulary, TARGET_SCALE};
use langgen::configcmd::ConfigCmd;
use langgen::dbcmd::DatabaseCmd;
use langgen::error::LangErr;
use langgen::gencmd::GenerateCmd;
use langgen::rangen::{calculated_random, real_random, RandomEngine};
use langgen::realrandom::RealRandom;
use langgen::syllables::{
    db_syllable_occurrences_as_count, db_syllable_occurrences_as_percentage, is_syllable_pos_valid,
    parse_syllable_positions, romanize, split_colon_pair, split_into_syllables, syllables_by_occurrence_desc, syllables_sorted_by_occurrence,
    SyllablePosition,
};

fn strings(items: &[&str]) -> Vec<String> {
    items.iter().map(|s| s.to_string()).collect()
}

fn vocabulary(entries: &[(&str, Option<SyllablePosition>, f64)], database: &[&str]) -> Vocabulary {
    Vocabulary {
        syllables: entries.iter().map(|e| e.0.to_string()).collect(),
        positions: entries.iter().map(|e| e.1).collect(),
        romanization: entries.iter().map(|_| None).collect(),
        wanted: entries.iter().map(|e| (e.2 * TARGET_SCALE as f64) as u32).collect(),
        database: strings(database),
    }
}

fn any_vocabulary(names: &[&str]) -> Vocabulary {
    let entries: Vec<(&str, Option<SyllablePosition>, f64)> =
        names.iter().map(|n| (*n, Some(SyllablePosition::Any), 1.0 / names.len() as f64)).collect();
    vocabulary(&entries, &[])
}

#[test]
fn test_acc() {
    let entries = [
        ("ka", Some(SyllablePosition::Any), 0.3),
        ("to", Some(SyllablePosition::Any), 0.2),
        ("ri", Some(SyllablePosition::NotStart), 0.2),
        ("mu", Some(SyllablePosition::NotEnd), 0.2),
        ("sen", Some(SyllablePosition::End), 0.1),
    ];
    let mut cfg = vocabulary(&entries, &[]);
    println!("Syllables: {:?}\n\n", cfg.syllables);
    for i in 0..200u64 {
        let mut engine = CalculatedRandom::with_config(&cfg, i).unwrap();
        let words = engine.create_words(2, 6, 10, &cfg).unwrap();
        assert_eq!(words.len(), 10);
        cfg.append_database(&words);

        let counts = db_syllable_occurrences_as_count(&cfg).unwrap();
        let shares = db_syllable_occurrences_as_percentage(&counts).unwrap();
        let mut offby = 0f64;
        for (k, share) in shares.iter().enumerate() {
            let real = *share as f64 / TARGET_SCALE as f64;
            let wanted = cfg.wanted[k] as f64 / TARGET_SCALE as f64;
            offby += (wanted - real).abs();
        }
        println!("Off by {:.1}", offby);
    }
    println!("\n---\n");
    println!("syllable;wanted;real");
    let counts = db_syllable_occurrences_as_count(&cfg).unwrap();
    let shares = db_syllable_occurrences_as_percentage(&counts).unwrap();
    for (k, syllable) in cfg.syllables.iter().enumerate() {
        println!("{};{};{}", syllable, cfg.wanted[k], shares[k]);
    }
    assert_eq!(cfg.database.len(), 2000);
}

#[test]
fn start_rule_only_first_slot() {
    let cfg = vocabulary(&[("ka", Some(SyllablePosition::Start), 1.0)], &[]);
    let got: Vec<bool> = (0..5).map(|p| is_syllable_pos_valid("ka", p, 5, &cfg)).collect();
    assert_eq!(got, vec![true, false, false, false, false]);
}

#[test]
fn rule_table_for_every_rule() {
    let rules = [
        SyllablePosition::Start,
        SyllablePosition::NotStart,
        SyllablePosition::End,
        SyllablePosition::NotEnd,
        SyllablePosition::Middle,
        SyllablePosition::NotMiddle,
        SyllablePosition::Any,
    ];
    let expected: [[bool; 3]; 7] = [
        [true, false, false],
        [false, true, true],
        [false, false, true],
        [true, true, false],
        [false, true, false],
        [true, false, true],
        [true, true, true],
    ];
    for (rule, want) in rules.iter().zip(expected.iter()) {
        let cfg = vocabulary(&[("x", Some(*rule), 1.0)], &[]);
        for pos in 0..3 {
            assert_eq!(is_syllable_pos_valid("x", pos, 3, &cfg), want[pos], "{:?} at {}", rule, pos);
        }
    }
}

#[test]
fn single_slot_word_is_first_and_last() {
    let expected = [
        (SyllablePosition::Start, true),
        (SyllablePosition::NotStart, false),
        (SyllablePosition::End, true),
        (SyllablePosition::NotEnd, false),
        (SyllablePosition::Middle, false),
        (SyllablePosition::NotMiddle, true),
        (SyllablePosition::Any, true),
    ];
    for (rule, want) in expected.iter() {
        let cfg = vocabulary(&[("x", Some(*rule), 1.0)], &[]);
        assert_eq!(is_syllable_pos_valid("x", 0, 1, &cfg), *want);
    }
}

#[test]
fn syllable_without_rule_is_never_valid() {
    let cfg = vocabulary(&[("ka", None, 1.0)], &[]);
    assert!(!is_syllable_pos_valid("ka", 0, 1, &cfg));
    assert!(!is_syllable_pos_valid("zz", 0, 1, &cfg));
}

#[test]
fn longest_match_wins() {
    let cfg = any_vocabulary(&["ka", "a", "kat"]);
    assert_eq!(split_into_syllables("kata", &cfg).unwrap(), strings(&["kat", "a"]));
    let cfg = any_vocabulary(&["ka", "a", "kat", "ta"]);
    assert_eq!(split_into_syllables("kata", &cfg).unwrap(), strings(&["kat", "a"]));
}

#[test]
fn empty_word_splits_to_nothing() {
    let cfg = any_vocabulary(&["ka"]);
    assert_eq!(split_into_syllables("", &cfg).unwrap(), Vec::<String>::new());
}

#[test]
fn unknown_piece_is_reported() {
    let cfg = any_vocabulary(&["ka", "to"]);
    assert_eq!(split_into_syllables("kaxo", &cfg), Err(LangErr::InvalidSyllable("xo".to_string())));
    let cfg = any_vocabulary(&["kat", "tok"]);
    assert_eq!(split_into_syllables("katx", &cfg), Err(LangErr::InvalidSyllable("x".to_string())));
}

#[test]
fn longer_syllable_after_shorter_one() {
    let cfg = any_vocabulary(&["a", "kat"]);
    assert_eq!(split_into_syllables("akat", &cfg).unwrap(), strings(&["a", "kat"]));
}

#[test]
fn multibyte_syllables_split_by_character() {
    let cfg = any_vocabulary(&["ča", "ř", "ží"]);
    assert_eq!(split_into_syllables("čažířča", &cfg).unwrap(), strings(&["ča", "ží", "ř", "ča"]));
}

#[test]
fn join_then_split_round_trip() {
    let cfg = any_vocabulary(&["ka", "to", "ri", "sen"]);
    let syls = strings(&["sen", "ka", "ri", "to", "ka"]);
    assert_eq!(split_into_syllables(&syls.concat(), &cfg).unwrap(), syls);
}

#[test]
fn romanize_joins_display_forms() {
    let mut cfg = any_vocabulary(&["ča", "ř"]);
    cfg.romanization = vec![Some("cha".to_string()), Some("rzh".to_string())];
    assert_eq!(romanize("čařča", &cfg).unwrap(), "charzhcha");
    cfg.romanization[1] = None;
    assert_eq!(romanize("čař", &cfg), Err(LangErr::InvalidSyllable("ř".to_string())));
}

#[test]
fn romanize_many_words() {
    let mut cfg = any_vocabulary(&["ka", "to"]);
    cfg.romanization = vec![Some("K".to_string()), Some("T".to_string())];
    assert_eq!(GenerateCmd::romanize(&strings(&["kato", "toka"]), &cfg).unwrap(), strings(&["KT", "TK"]));
    assert_eq!(GenerateCmd::romanize(&strings(&["ka", "kx"]), &cfg), Err(LangErr::InvalidSyllable("kx".to_string())));
}

#[test]
fn counts_fill_in_zero() {
    let mut cfg = any_vocabulary(&["ka", "to", "ri"]);
    cfg.database = strings(&["kato", "kaka"]);
    assert_eq!(db_syllable_occurrences_as_count(&cfg).unwrap(), vec![3, 1, 0]);
}

#[test]
fn counts_fail_on_bad_word() {
    let mut cfg = any_vocabulary(&["ka", "to"]);
    cfg.database = strings(&["kato", "kaq"]);
    assert_eq!(db_syllable_occurrences_as_count(&cfg), Err(LangErr::InvalidSyllable("q".to_string())));
}

#[test]
fn percentages_of_counts() {
    assert_eq!(db_syllable_occurrences_as_percentage(&vec![3, 1, 0]).unwrap(), vec![750_000, 250_000, 0]);
    assert_eq!(db_syllable_occurrences_as_percentage(&vec![1, 2]).unwrap(), vec![333_333, 666_666]);
}

#[test]
fn percentages_of_empty_database_are_undefined() {
    assert_eq!(db_syllable_occurrences_as_percentage(&vec![0, 0, 0]), Err(LangErr::EmptyDatabase));
    assert_eq!(db_syllable_occurrences_as_percentage(&vec![]), Err(LangErr::EmptyDatabase));
}

#[test]
fn sorted_by_value_largest_first() {
    let names = strings(&["a", "b", "c", "d"]);
    let values = vec![5, 9, 5, 1];
    assert_eq!(syllables_sorted_by_occurrence(&names, &values), strings(&["b", "a", "c", "d"]));
    assert_eq!(
        syllables_by_occurrence_desc(&names, &values),
        vec![("b".to_string(), 9), ("a".to_string(), 5), ("c".to_string(), 5), ("d".to_string(), 1)]
    );
}

#[test]
fn rule_names_in_any_case() {
    assert_eq!(SyllablePosition::from_name("START"), Ok(SyllablePosition::Start));
    assert_eq!(SyllablePosition::from_name("NotMiddle"), Ok(SyllablePosition::NotMiddle));
    assert_eq!(SyllablePosition::from_name("any"), Ok(SyllablePosition::Any));
    assert_eq!(SyllablePosition::from_name("Sideways"), Err(LangErr::UnknownPosition("Sideways".to_string())));
}

#[test]
fn adaptive_engine_prefers_syllable_under_target() {
    let entries = [("a", Some(SyllablePosition::Any), 0.7), ("b", Some(SyllablePosition::Any), 0.3)];
    let cfg = vocabulary(&entries, &["b", "bb"]);
    let mut engine = CalculatedRandom::with_config(&cfg, 7).unwrap();
    assert_eq!((engine.count_of(0), engine.count_of(1), engine.total()), (0, 3, 3));
    let mut picked_a = 0;
    let mut picked_b = 0;
    for _ in 0..1000 {
        match engine.pull_syllable(0, 1, &cfg).unwrap().as_str() {
            "a" => picked_a += 1,
            _ => picked_b += 1,
        }
    }
    assert!(picked_a > picked_b, "a {} b {}", picked_a, picked_b);
    assert_eq!(engine.total(), 1003);
}

#[test]
fn adaptive_engine_first_pick_is_best_score() {
    let entries = [("a", Some(SyllablePosition::Any), 0.5), ("b", Some(SyllablePosition::Any), 0.5)];
    let cfg = vocabulary(&entries, &["bb"]);
    let mut engine = CalculatedRandom::with_config(&cfg, 1).unwrap();
    assert_eq!(engine.candidate_pool(0, 1, &cfg), vec![0]);
    assert_eq!(engine.pull_syllable(0, 1, &cfg).unwrap(), "a");
    assert_eq!(engine.count_of(0), 1);
}

#[test]
fn adaptive_engine_pool_skips_forbidden() {
    let entries = [("a", Some(SyllablePosition::End), 0.5), ("b", Some(SyllablePosition::Any), 0.5)];
    let cfg = vocabulary(&entries, &["bb"]);
    let engine = CalculatedRandom::with_config(&cfg, 1).unwrap();
    assert_eq!(engine.candidate_pool(0, 2, &cfg), vec![1]);
}

#[test]
fn adaptive_engine_is_deterministic() {
    let entries = [
        ("ka", Some(SyllablePosition::Any), 0.2),
        ("to", Some(SyllablePosition::Any), 0.2),
        ("ri", Some(SyllablePosition::Any), 0.2),
        ("mu", Some(SyllablePosition::Any), 0.1),
        ("sen", Some(SyllablePosition::Any), 0.1),
        ("la", Some(SyllablePosition::Any), 0.1),
        ("po", Some(SyllablePosition::Any), 0.1),
    ];
    let cfg = vocabulary(&entries, &["kato"]);
    let mut first = calculated_random(&cfg, 42).unwrap();
    let mut second = calculated_random(&cfg, 42).unwrap();
    let a = first.create_words(2, 4, 10, &cfg).unwrap();
    let b = second.create_words(2, 4, 10, &cfg).unwrap();
    assert_eq!(a.len(), 10);
    assert_eq!(a, b);
}

#[test]
fn no_syllable_for_second_slot_fails() {
    let entries = [("ka", Some(SyllablePosition::Start), 0.5), ("na", Some(SyllablePosition::Start), 0.5)];
    let cfg = vocabulary(&entries, &[]);
    let mut adaptive = CalculatedRandom::with_config(&cfg, 3).unwrap();
    assert_eq!(adaptive.create_words(2, 2, 1, &cfg), Err(LangErr::NoValidCandidate));
    let mut uniform = RealRandom::with_config(&cfg, 3);
    assert_eq!(uniform.create_words(2, 2, 1, &cfg), Err(LangErr::NoValidCandidate));
}

#[test]
fn pull_fails_without_change_state() {
    let entries = [("ka", Some(SyllablePosition::Start), 0.5)];
    let cfg = vocabulary(&entries, &["ka"]);
    let mut engine = CalculatedRandom::with_config(&cfg, 3).unwrap();
    assert_eq!(engine.pull_syllable(1, 2, &cfg), Err(LangErr::NoValidCandidate));
    assert_eq!((engine.count_of(0), engine.total()), (1, 1));
}

#[test]
fn adaptive_engine_fails_on_bad_database() {
    let cfg = vocabulary(&[("ka", Some(SyllablePosition::Any), 1.0)], &["kaz"]);
    assert!(matches!(calculated_random(&cfg, 0), Err(LangErr::InvalidSyllable(s)) if s == "z"));
}

#[test]
fn uniform_engine_respects_rules() {
    let entries = [
        ("ka", Some(SyllablePosition::Start), 0.5),
        ("ri", Some(SyllablePosition::Middle), 0.5),
        ("sen", Some(SyllablePosition::End), 0.5),
    ];
    let cfg = vocabulary(&entries, &[]);
    let mut engine = real_random(&cfg, 9);
    let words = engine.create_words(3, 3, 20, &cfg).unwrap();
    assert_eq!(words.len(), 20);
    for w in words {
        assert_eq!(w, "karisen");
    }
}

#[test]
fn engine_enum_dispatches() {
    let cfg = any_vocabulary(&["ka", "to"]);
    let mut engine = RandomEngine::Real(real_random(&cfg, 5));
    let words = engine.create_words(1, 3, 4, &cfg).unwrap();
    assert_eq!(words.len(), 4);
    for w in words {
        let n = split_into_syllables(&w, &cfg).unwrap().len();
        assert!((1..=3).contains(&n));
    }
}

#[test]
fn database_add_and_delete() {
    let mut cfg = any_vocabulary(&["ka"]);
    let cmd = DatabaseCmd::new();
    assert_eq!(cmd.add(&strings(&["ka", "kaka", "ka"]), &mut cfg), 3);
    assert_eq!(DatabaseCmd::add_message(3), "Words were added to the database");
    assert_eq!(DatabaseCmd::add_message(1), "Word was added to the database");
    assert!(cfg.delete_from_database("ka"));
    assert_eq!(cfg.database, strings(&["kaka", "ka"]));
    assert!(!cfg.delete_from_database("to"));
    assert_eq!(cmd.del(&strings(&["ka", "zz"]), &mut cfg), 1);
    assert_eq!(cfg.database, strings(&["kaka"]));
    assert_eq!(DatabaseCmd::del_message(1, 2), "Some words could not be found and deleted from the database");
    assert_eq!(DatabaseCmd::del_message(0, 2), "Words were not found in the database");
    assert_eq!(DatabaseCmd::del_message(2, 2), "Words were deleted from the database");
}

#[test]
fn command_names_and_bounds() {
    assert_eq!(ConfigCmd::new().subcommand(), "config");
    assert_eq!(DatabaseCmd::new().subcommand(), "db");
    assert_eq!(GenerateCmd::new().subcommand(), "gen");
    assert_eq!(GenerateCmd::calc_min_max(Some(3), 1, 4), (3, 3));
    assert_eq!(GenerateCmd::calc_min_max(None, 1, 4), (1, 4));
}

#[test]
fn config_listings() {
    let entries = [("ka", Some(SyllablePosition::Any), 0.25), ("to", Some(SyllablePosition::Any), 0.75)];
    let cfg = vocabulary(&entries, &["kato", "to"]);
    let cmd = ConfigCmd::new();
    assert_eq!(cmd.wanted_shares(&cfg), vec![("to".to_string(), 750_000), ("ka".to_string(), 250_000)]);
    assert_eq!(cmd.real_shares(&cfg).unwrap(), vec![("to".to_string(), 666_666), ("ka".to_string(), 333_333)]);
    let empty = vocabulary(&entries, &[]);
    assert_eq!(cmd.real_shares(&empty), Err(LangErr::EmptyDatabase));
}

#[test]
fn config_lines_split_at_colons() {
    assert_eq!(split_colon_pair("ka:Start"), Some(("ka".to_string(), "Start".to_string())));
    assert_eq!(split_colon_pair("ka:0.5:extra"), Some(("ka".to_string(), "0.5".to_string())));
    assert_eq!(split_colon_pair("ča:"), Some(("ča".to_string(), "".to_string())));
    assert_eq!(split_colon_pair("nocolon"), None);
}

#[test]
fn position_table_parses() {
    let lines = strings(&["ka:Start", "ri:notmiddle", "sen:END"]);
    assert_eq!(
        parse_syllable_positions(&lines).unwrap(),
        vec![
            ("ka".to_string(), SyllablePosition::Start),
            ("ri".to_string(), SyllablePosition::NotMiddle),
            ("sen".to_string(), SyllablePosition::End)
        ]
    );
    assert_eq!(
        parse_syllable_positions(&strings(&["ka:Start", "ri:upward"])),
        Err(LangErr::UnknownPosition("upward".to_string()))
    );
    assert_eq!(parse_syllable_positions(&strings(&["ka"])), Err(LangErr::UnknownPosition("ka".to_string())));
}

#[test]
fn engine_choice_follows_flag() {
    let cfg = any_vocabulary(&["ka", "to"]);
    assert!(matches!(GenerateCmd::choose_rangen(true, &cfg, 1), Ok(RandomEngine::Real(_))));
    assert!(matches!(GenerateCmd::choose_rangen(false, &cfg, 1), Ok(RandomEngine::Calculated(_))));
    let bad = vocabulary(&[("ka", Some(SyllablePosition::Any), 1.0)], &["kaz"]);
    assert!(matches!(GenerateCmd::choose_rangen(false, &bad, 1), Err(LangErr::InvalidSyllable(_))));
    assert!(matches!(GenerateCmd::choose_rangen(true, &bad, 1), Ok(RandomEngine::Real(_))));
}

#[test]
fn uniform_pull_succeeds_when_every_syllable_fits() {
    let cfg = any_vocabulary(&["ka", "to", "ri"]);
    let mut engine = RealRandom::with_config(&cfg, 11);
    for _ in 0..50 {
        let s = engine.pull_syllable(1, 3, &cfg).unwrap();
        assert!(cfg.syllables.contains(&s));
    }
}

#[test]
fn zero_words_always_succeed() {
    let entries = [("ka", Some(SyllablePosition::Start), 0.5)];
    let cfg = vocabulary(&entries, &[]);
    assert_eq!(RealRandom::with_config(&cfg, 1).create_words(2, 2, 0, &cfg), Ok(vec![]));
    let mut adaptive = CalculatedRandom::with_config(&cfg, 1).unwrap();
    assert_eq!(adaptive.create_words(2, 2, 0, &cfg), Ok(vec![]));
    assert_eq!(adaptive.total(), 0);
}

#[test]
fn adaptive_words_count_their_syllables() {
    let cfg = any_vocabulary(&["ka", "to"]);
    let mut engine = CalculatedRandom::with_config(&cfg, 4).unwrap();
    let words = engine.create_words(2, 3, 5, &cfg).unwrap();
    let pieces: Vec<String> = words.iter().flat_map(|w| split_into_syllables(w, &cfg).unwrap()).collect();
    assert_eq!(engine.total() as usize, pieces.len());
    assert_eq!(engine.count_of(0) as usize, pieces.iter().filter(|p| p.as_str() == "ka").count());
    assert_eq!(engine.count_of(1) as usize, pieces.iter().filter(|p| p.as_str() == "to").count());
}

#[test]
fn under_target_syllable_is_pulled() {
    let entries = [("a", Some(SyllablePosition::Any), 0.8), ("b", Some(SyllablePosition::Any), 0.2)];
    let cfg = vocabulary(&entries, &["bb", "b", "ab"]);
    let mut engine = CalculatedRandom::with_config(&cfg, 2).unwrap();
    assert_eq!(engine.pull_syllable(0, 2, &cfg).unwrap(), "a");
}

#[test]
fn romanize_reports_first_failing_word() {
    let mut cfg = any_vocabulary(&["ka", "to"]);
    cfg.romanization = vec![Some("K".to_string()), Some("T".to_string())];
    assert_eq!(
        GenerateCmd::romanize(&strings(&["ka", "kq", "tz"]), &cfg),
        Err(LangErr::InvalidSyllable("kq".to_string()))
    );
}

#[test]
fn delete_removes_in_turn() {
    let mut cfg = any_vocabulary(&["ka"]);
    cfg.database = strings(&["ka", "kaka", "ka", "ka"]);
    assert_eq!(DatabaseCmd::new().del(&strings(&["ka", "ka", "zz", "kaka"]), &mut cfg), 3);
    assert_eq!(cfg.database, strings(&["ka"]));
}
