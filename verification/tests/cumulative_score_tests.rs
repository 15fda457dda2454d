use farkle::cumulative_score::CumulativeScore;

#[test]
fn no_winner_until_the_limit_is_reached() {
    let players = vec!["ada".to_string(), "grace".to_string()];
    let mut score = CumulativeScore::new(players, 1000);
    assert!(score.has_winner().is_none());

    score.update_user_score("ada", 400);
    assert!(score.has_winner().is_none());

    score.update_user_score("ada", 600);
    let winner = score.has_winner().expect("ada reached the limit");
    assert_eq!(winner, "ada");
}

#[test]
fn scores_accumulate_per_player() {
    let players = vec!["ada".to_string(), "grace".to_string()];
    let mut score = CumulativeScore::new(players, 500);
    score.update_user_score("grace", 250);
    assert!(score.has_winner().is_none());
    score.update_user_score("grace", 250);
    assert_eq!(score.has_winner().expect("grace won"), "grace");
}

#[test]
fn duplicate_names_share_one_entry() {
    let players = vec!["ada".to_string(), "ada".to_string()];
    let mut score = CumulativeScore::new(players, 300);
    score.update_user_score("ada", 200);
    assert!(score.has_winner().is_none());
    // both updates credit the same single entry
    score.update_user_score("ada", 100);
    assert_eq!(score.has_winner().expect("ada reached the limit"), "ada");
}
