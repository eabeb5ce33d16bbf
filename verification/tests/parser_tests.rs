use quake_log_parser::parser::Parser;
use quake_log_parser::records::MatchRecord;

fn lines(v: &[&str]) -> Vec<String> {
    v.iter().map(|s| s.to_string()).collect()
}

fn score_of(rec: &MatchRecord, name: &str) -> Option<i128> {
    rec.kills.iter().find(|p| p.0 == name).map(|p| p.1)
}

fn means_of(rec: &MatchRecord, token: &str) -> Option<u64> {
    rec.kills_by_means.iter().find(|p| p.0 == token).map(|p| p.1)
}

fn records_equal(a: &MatchRecord, b: &MatchRecord) -> bool {
    a.total_kills == b.total_kills
        && a.players == b.players
        && a.kills == b.kills
        && a.kills_by_means == b.kills_by_means
        && a.ranking.len() == b.ranking.len()
        && a.ranking.iter().zip(b.ranking.iter()).all(|(x, y)| {
            x.player == y.player && x.kills == y.kills && x.position == y.position
        })
}

#[test]
fn empty_log_yields_empty_mapping() {
    let out = Parser::parse(&lines(&[]));
    assert!(out.is_empty());
}

#[test]
fn log_without_init_game_yields_empty_mapping() {
    let out = Parser::parse(&lines(&[
        " 20:34 ClientUserinfoChanged: 2 n\\Isgalamido\\t\\0",
        " 22:06 Kill: 2 3 7: Isgalamido killed Mocinha by MOD_ROCKET_SPLASH",
        " 1:47 ShutdownGame:",
        " 1:47 ------------------------------------------------------------",
    ]));
    assert!(out.is_empty());
}

#[test]
fn kill_before_init_game_contributes_nothing() {
    let out = Parser::parse(&lines(&[
        "Kill: 3 2 6: B killed A by MOD_ROCKET",
        "InitGame:",
        "ShutdownGame:",
    ]));
    assert_eq!(out.len(), 1);
    assert_eq!(out[0].0, "game_0");
    assert_eq!(out[0].1.total_kills, 0);
    assert!(out[0].1.kills.is_empty());
}

#[test]
fn concrete_scenario_two_kills() {
    let out = Parser::parse(&lines(&[
        "InitGame:",
        "ClientUserinfoChanged: 2 n\\A\\t\\0",
        "ClientUserinfoChanged: 3 n\\B\\t\\0",
        "Kill: 3 2 6: B killed A by MOD_ROCKET",
        "Kill: 1022 3 22: <world> killed B by MOD_TRIGGER_HURT",
        "ShutdownGame:",
    ]));
    assert_eq!(out.len(), 1);
    assert_eq!(out[0].0, "game_0");
    let rec = &out[0].1;
    assert_eq!(rec.total_kills, 2);
    assert_eq!(rec.kills.len(), 2);
    assert_eq!(score_of(rec, "A"), Some(0));
    assert_eq!(score_of(rec, "B"), Some(0));
    assert_eq!(means_of(rec, "MOD_ROCKET"), Some(1));
    assert_eq!(means_of(rec, "MOD_TRIGGER_HURT"), Some(1));
    assert_eq!(rec.ranking.len(), 2);
    assert!(rec.ranking.iter().any(|r| r.player == "A" && r.kills == 0));
    assert!(rec.ranking.iter().any(|r| r.player == "B" && r.kills == 0));
    let mut positions: Vec<u64> = rec.ranking.iter().map(|r| r.position).collect();
    positions.sort();
    assert_eq!(positions, vec![1, 2]);
}

#[test]
fn sample_fragment_parses_the_same_twice() {
    let input = lines(&[
        "  0:00 InitGame: \\capturelimit\\8\\g_maxGameClients\\0\\timelimit\\15",
        " 20:34 ClientUserinfoChanged: 2 n\\Isgalamido\\t\\0\\model\\uriel/zael",
        " 20:38 ClientUserinfoChanged: 3 n\\Mocinha\\t\\0\\model\\sarge",
        " 20:40 ClientUserinfoChanged: 4 n\\Zeh\\t\\0\\model\\sarge/default",
        " 20:42 ClientUserinfoChanged: 5 n\\Dono da Bola\\t\\0\\model\\sarge",
        " 22:06 Kill: 2 3 7: Isgalamido killed Mocinha by MOD_ROCKET_SPLASH",
        " 22:40 Kill: 1022 2 22: <world> killed Isgalamido by MOD_TRIGGER_HURT",
        " 23:06 Kill: 4 5 6: Zeh killed Dono da Bola by MOD_ROCKET",
        " 1:47 ShutdownGame:",
    ]);
    let a = Parser::parse(&input);
    let b = Parser::parse(&input);
    assert_eq!(a.len(), b.len());
    for (x, y) in a.iter().zip(b.iter()) {
        assert_eq!(x.0, y.0);
        assert!(records_equal(&x.1, &y.1));
    }
    let rec = &a[0].1;
    assert_eq!(rec.total_kills, 3);
    assert_eq!(rec.players.len(), 4);
    assert_eq!(score_of(rec, "Isgalamido"), Some(0));
    assert_eq!(score_of(rec, "Mocinha"), Some(0));
    assert_eq!(score_of(rec, "Zeh"), Some(1));
    assert_eq!(score_of(rec, "Dono da Bola"), Some(0));
}

#[test]
fn one_match_per_init_game_in_creation_order() {
    let out = Parser::parse(&lines(&[
        "InitGame:",
        "ShutdownGame:",
        "InitGame:",
        "ShutdownGame:",
        "InitGame:",
    ]));
    assert_eq!(out.len(), 3);
    assert_eq!(out[0].0, "game_0");
    assert_eq!(out[1].0, "game_1");
    assert_eq!(out[2].0, "game_2");
}

#[test]
fn multi_digit_game_ids() {
    let mut v: Vec<String> = Vec::new();
    for _ in 0..12 {
        v.push("InitGame:".to_string());
    }
    let out = Parser::parse(&v);
    assert_eq!(out.len(), 12);
    assert_eq!(out[9].0, "game_9");
    assert_eq!(out[10].0, "game_10");
    assert_eq!(out[11].0, "game_11");
}

#[test]
fn total_kills_counts_every_kill_line_of_the_match() {
    let out = Parser::parse(&lines(&[
        "InitGame:",
        "Kill: 2 3 7: A killed B by MOD_ROCKET",
        "Kill: 3 2 7: B killed A by MOD_ROCKET",
        "Kill: 1022 2 22: <world> killed A by MOD_TRIGGER_HURT",
        "Kill: 2 2 19: A killed A by MOD_FALLING",
        "InitGame:",
        "Kill: 2 3 7: A killed B by MOD_ROCKET",
    ]));
    assert_eq!(out.len(), 2);
    assert_eq!(out[0].1.total_kills, 4);
    assert_eq!(out[1].1.total_kills, 1);
}

#[test]
fn world_kill_decrements_victim() {
    let out = Parser::parse(&lines(&[
        "InitGame:",
        "ClientUserinfoChanged: 2 n\\A\\t\\0",
        "Kill: 1022 2 22: <world> killed A by MOD_TRIGGER_HURT",
    ]));
    let rec = &out[0].1;
    assert_eq!(rec.total_kills, 1);
    assert_eq!(score_of(rec, "A"), Some(-1));
}

#[test]
fn world_kill_seeds_unseen_victim_then_decrements() {
    let out = Parser::parse(&lines(&[
        "InitGame:",
        "Kill: 1022 2 22: <world> killed Ghost by MOD_FALLING",
    ]));
    let rec = &out[0].1;
    assert_eq!(score_of(rec, "Ghost"), Some(-1));
    assert!(rec.players.is_empty());
}

#[test]
fn self_kill_changes_no_score_but_counts() {
    let out = Parser::parse(&lines(&[
        "InitGame:",
        "ClientUserinfoChanged: 2 n\\A\\t\\0",
        "Kill: 2 2 19: A killed A by MOD_FALLING",
    ]));
    let rec = &out[0].1;
    assert_eq!(rec.total_kills, 1);
    assert_eq!(score_of(rec, "A"), Some(0));
    assert_eq!(means_of(rec, "MOD_FALLING"), Some(1));
}

#[test]
fn killer_is_credited_and_seeded_if_unseen() {
    let out = Parser::parse(&lines(&[
        "InitGame:",
        "Kill: 2 3 7: A killed B by MOD_RAILGUN",
        "Kill: 2 3 7: A killed B by MOD_RAILGUN",
    ]));
    let rec = &out[0].1;
    assert_eq!(score_of(rec, "A"), Some(2));
    assert_eq!(score_of(rec, "B"), None);
    assert_eq!(means_of(rec, "MOD_RAILGUN"), Some(2));
}

#[test]
fn rejoin_keeps_existing_score() {
    let out = Parser::parse(&lines(&[
        "InitGame:",
        "ClientUserinfoChanged: 2 n\\A\\t\\0",
        "Kill: 2 3 7: A killed B by MOD_ROCKET",
        "ClientUserinfoChanged: 2 n\\A\\t\\0",
    ]));
    let rec = &out[0].1;
    assert_eq!(score_of(rec, "A"), Some(1));
    assert_eq!(rec.players.len(), 1);
    assert_eq!(rec.players[0], "A");
}

#[test]
fn every_joined_player_has_a_kills_entry() {
    let out = Parser::parse(&lines(&[
        "InitGame:",
        "ClientUserinfoChanged: 2 n\\A\\t\\0",
        "ClientUserinfoChanged: 3 n\\B\\t\\0",
        "ShutdownGame:",
    ]));
    let rec = &out[0].1;
    for p in rec.players.iter() {
        assert!(rec.kills.iter().any(|kv| kv.0 == *p));
    }
    assert_eq!(score_of(rec, "A"), Some(0));
    assert_eq!(score_of(rec, "B"), Some(0));
}

#[test]
fn ranking_is_sorted_descending_with_contiguous_positions() {
    let out = Parser::parse(&lines(&[
        "InitGame:",
        "ClientUserinfoChanged: 2 n\\A\\t\\0",
        "ClientUserinfoChanged: 3 n\\B\\t\\0",
        "ClientUserinfoChanged: 4 n\\C\\t\\0",
        "Kill: 3 2 7: B killed A by MOD_ROCKET",
        "Kill: 3 4 7: B killed C by MOD_ROCKET",
        "Kill: 4 2 7: C killed A by MOD_ROCKET",
        "ShutdownGame:",
    ]));
    let rec = &out[0].1;
    let ranking = &rec.ranking;
    assert_eq!(ranking.len(), 3);
    for (i, row) in ranking.iter().enumerate() {
        assert_eq!(row.position, (i as u64) + 1);
    }
    for w in ranking.windows(2) {
        assert!(w[0].kills >= w[1].kills);
    }
    assert_eq!(ranking[0].player, "B");
    assert_eq!(ranking[0].kills, 2);
}

#[test]
fn separator_bar_closes_a_match_without_shutdown() {
    let out = Parser::parse(&lines(&[
        " 0:00 InitGame: \\sv_floodProtect\\1",
        "ClientUserinfoChanged: 2 n\\A\\t\\0",
        "Kill: 2 3 7: A killed B by MOD_ROCKET",
        "20:37 ------------------------------------------------------------",
    ]));
    let rec = &out[0].1;
    assert_eq!(rec.ranking.len(), 1);
    assert_eq!(rec.ranking[0].player, "A");
    assert_eq!(rec.ranking[0].kills, 1);
    assert_eq!(rec.ranking[0].position, 1);
}

#[test]
fn second_separator_does_not_recompute_ranking() {
    let out = Parser::parse(&lines(&[
        "InitGame:",
        "Kill: 2 3 7: A killed B by MOD_ROCKET",
        "------------------------------------------------------------",
        "Kill: 2 3 7: A killed B by MOD_ROCKET",
        "------------------------------------------------------------",
    ]));
    let rec = &out[0].1;
    // the ranking still shows the state at the first separator
    assert_eq!(rec.ranking.len(), 1);
    assert_eq!(rec.ranking[0].kills, 1);
    assert_eq!(rec.total_kills, 2);
}

#[test]
fn shutdown_replaces_a_prior_ranking() {
    let out = Parser::parse(&lines(&[
        "InitGame:",
        "Kill: 2 3 7: A killed B by MOD_ROCKET",
        "ShutdownGame:",
        "Kill: 2 3 7: A killed B by MOD_ROCKET",
        "ShutdownGame:",
    ]));
    let rec = &out[0].1;
    assert_eq!(rec.ranking.len(), 1);
    assert_eq!(rec.ranking[0].kills, 2);
}

#[test]
fn unclassified_lines_are_ignored() {
    let out = Parser::parse(&lines(&[
        "InitGame:",
        " 20:34 ClientBegin: 2",
        " 20:40 Item: 2 weapon_rocketlauncher",
        " 20:54 ClientDisconnect: 3",
        "ShutdownGame:",
    ]));
    assert_eq!(out.len(), 1);
    assert_eq!(out[0].1.total_kills, 0);
    assert!(out[0].1.players.is_empty());
}

#[test]
fn malformed_kill_line_is_skipped_and_counted() {
    let mut p = Parser::new();
    p.parse_line("InitGame:");
    p.parse_line("Kill: truncated");
    assert_eq!(p.skipped_lines, 1);
    assert_eq!(p.matches.len(), 1);
    assert_eq!(p.matches[0].1.total_kills, 0);
}

#[test]
fn malformed_join_line_is_skipped_and_counted() {
    let mut p = Parser::new();
    p.parse_line("InitGame:");
    p.parse_line("ClientUserinfoChanged: 2 no backslash here");
    assert_eq!(p.skipped_lines, 1);
    assert!(p.matches[0].1.players.is_empty());
}

#[test]
fn parse_session_counts_skipped_lines() {
    let p = Parser::parse_session(&lines(&[
        "InitGame:",
        "Kill: truncated",
        "ClientUserinfoChanged: 2 no backslash here",
        "Kill: 2 3 7: A killed B by MOD_ROCKET",
    ]));
    assert_eq!(p.skipped_lines, 2);
    assert_eq!(p.matches.len(), 1);
    assert_eq!(p.matches[0].1.total_kills, 1);
}

#[test]
fn clean_log_skips_nothing() {
    let p = Parser::parse_session(&lines(&[
        "InitGame:",
        "ClientUserinfoChanged: 2 n\\A\\t\\0",
        "Kill: 2 3 7: A killed B by MOD_ROCKET",
        "ShutdownGame:",
    ]));
    assert_eq!(p.skipped_lines, 0);
}

#[test]
fn join_name_is_second_backslash_field() {
    let out = Parser::parse(&lines(&[
        "InitGame:",
        "ClientUserinfoChanged: 2 n\\Dono da Bola\\t\\0\\model\\sarge",
    ]));
    let rec = &out[0].1;
    assert_eq!(rec.players.len(), 1);
    assert_eq!(rec.players[0], "Dono da Bola");
}

#[test]
fn kill_fields_are_trimmed() {
    let out = Parser::parse(&lines(&[
        "InitGame:",
        "Kill: 2 3 7: Zeh killed Dono da Bola by MOD_ROCKET",
    ]));
    let rec = &out[0].1;
    assert_eq!(score_of(rec, "Zeh"), Some(1));
    assert_eq!(means_of(rec, "MOD_ROCKET"), Some(1));
}

#[test]
fn kills_are_attributed_to_the_current_match() {
    let out = Parser::parse(&lines(&[
        "InitGame:",
        "Kill: 2 3 7: A killed B by MOD_ROCKET",
        "InitGame:",
        "Kill: 3 2 7: B killed A by MOD_ROCKET",
        "Kill: 3 2 7: B killed A by MOD_ROCKET",
    ]));
    assert_eq!(out.len(), 2);
    assert_eq!(score_of(&out[0].1, "A"), Some(1));
    assert_eq!(score_of(&out[0].1, "B"), None);
    assert_eq!(score_of(&out[1].1, "B"), Some(2));
    assert_eq!(out[1].1.total_kills, 2);
}

#[test]
fn tied_scores_keep_insertion_order() {
    let out = Parser::parse(&lines(&[
        "InitGame:",
        "ClientUserinfoChanged: 2 n\\A\\t\\0",
        "ClientUserinfoChanged: 3 n\\B\\t\\0",
        "ShutdownGame:",
    ]));
    let rec = &out[0].1;
    assert_eq!(rec.ranking.len(), 2);
    assert_eq!(rec.ranking[0].player, "A");
    assert_eq!(rec.ranking[0].position, 1);
    assert_eq!(rec.ranking[1].player, "B");
    assert_eq!(rec.ranking[1].position, 2);
}
