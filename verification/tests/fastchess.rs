use spsa_tui::fastchess::{
    fastchess_args, match_step, parse_score, parse_score_checked, MatchConfig, MatchStep,
    ScoreError, StatKey,
};

#[test]
fn test_parse_score() {
    let output = r#"
Finished game 997 (ferrischess vs ferrischess_same): 1-0 {White mates}
--------------------------------------------------
Results of ferrischess vs ferrischess_same (1+0.01, 1t, 96MB, 8moves_v3.pgn):
Elo: 7.99 +/- 17.86, nElo: 9.65 +/- 21.53
LOS: 81.01 %, DrawRatio: 36.40 %, PairsRatio: 1.06
Games: 1000, Wins: 377, Losses: 354, Draws: 269, Points: 511.5 (51.15 %)
Ptnml(0-2): [55, 99, 182, 96, 68], WL/DD Ratio: 3.92
--------------------------------------------------
Finished match
Total Time: 00:06:14 (hours:minutes:seconds)
"#;

    let score = parse_score(output).unwrap();
    assert_eq!(score, (377, 269, 354));
}

#[test]
fn parse_score_needs_results_header() {
    let output = "Games: 10, Wins: 3, Losses: 4, Draws: 3\n";
    assert!(matches!(parse_score(output), Err(ScoreError::MissingResultsHeader)));
}

#[test]
fn parse_score_needs_stats_line() {
    let output = "Results of a vs b:\nElo: 0.0\n";
    assert!(matches!(parse_score(output), Err(ScoreError::MissingStatsLine)));
}

#[test]
fn parse_score_reads_crlf_lines_and_signs() {
    let output = "Results of a vs b\r\nGames: 3,Wins:+2 ,Draws: 0,\tLosses: -1\r\n";
    assert_eq!(parse_score(output).unwrap(), (2, 0, -1));
}

#[test]
fn parse_score_takes_first_stats_line_and_last_field() {
    let output = "Games: 1, Wins: 1, Draws: 2, Losses: 3, Wins: 9\nResults of x\nGames: 5, Wins: 0, Draws: 0, Losses: 5\n";
    assert_eq!(parse_score(output).unwrap(), (9, 2, 3));
}

#[test]
fn parse_score_checked_reports_invalid_value() {
    let output = "Results of x\nGames: 1, Wins: abc, Draws: 1, Losses: 0\n";
    match parse_score_checked(output) {
        Err(ScoreError::InvalidValue(StatKey::Wins, text)) => {
            assert_eq!(text.iter().collect::<String>(), "abc");
        }
        other => panic!("unexpected {:?}", other),
    }
}

#[test]
fn parse_score_checked_reports_missing_field() {
    let output = "Results of x\nGames: 1, Wins: 1, Losses: 0\n";
    assert!(matches!(
        parse_score_checked(output),
        Err(ScoreError::MissingField(StatKey::Draws))
    ));
}

#[test]
fn parse_score_checked_reports_overflow_as_invalid() {
    let output = "Results of x\nGames: 1, Wins: 99999999999999999999, Draws: 1, Losses: 0\n";
    assert!(matches!(
        parse_score_checked(output),
        Err(ScoreError::InvalidValue(StatKey::Wins, _))
    ));
}

#[test]
fn fastchess_args_lays_out_the_match() {
    let config = MatchConfig {
        engine: "./engine".to_string(),
        tc: "10+0.1".to_string(),
        book: "book.pgn".to_string(),
        games: 17,
        concurrency: 8,
    };
    let plus = vec![("a".to_string(), 5isize), ("b".to_string(), -12isize)];
    let minus = vec![("a".to_string(), 3isize)];
    let args = fastchess_args(&config, &plus, &minus);
    let expected = vec![
        "-engine", "cmd=./engine", "name=plus", "option.Hash=64", "option.a=5", "option.b=-12",
        "-engine", "cmd=./engine", "name=minus", "option.Hash=64", "option.a=3",
        "-each", "tc=10+0.1", "-rounds", "8", "-repeat", "-srand", "1234",
        "-openings", "file=book.pgn", "format=pgn", "order=random",
        "-concurrency", "8", "-recover", "-ratinginterval", "0",
    ];
    assert_eq!(args, expected);
}

#[test]
fn match_steps() {
    assert_eq!(match_step(false, true), MatchStep::Cancel);
    assert_eq!(match_step(true, true), MatchStep::Finished);
    assert_eq!(match_step(true, false), MatchStep::Wait);
}

#[test]
fn score_reads_only_header_and_first_stats_line() {
    let a = "Results of a vs b\nGames: 4, Wins: 1, Draws: 2, Losses: 1\nGames: 9, Wins: 9, Draws: 0, Losses: 0\n";
    let b = "noise\nGames: 4, Wins: 1, Draws: 2, Losses: 1\nmore noise\nResults of c vs d\n";
    assert_eq!(parse_score(a).unwrap(), parse_score(b).unwrap());
    assert_eq!(parse_score(a).unwrap(), (1, 2, 1));
}
