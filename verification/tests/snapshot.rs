use goal_tictactoe::snapshot::{latest_iteration, parse_decimal, strategy_iteration};

#[test]
fn strategy_iteration_reads_the_number() {
    assert_eq!(strategy_iteration("strategy_12.bincode"), Some(12));
    assert_eq!(strategy_iteration("strategy_0.bincode"), Some(0));
    assert_eq!(strategy_iteration("strategy_007.bincode"), Some(7));
    assert_eq!(strategy_iteration("out/subgame_1_2/strategy_1999.bincode"), Some(1999));
}

#[test]
fn strategy_iteration_ignores_other_files() {
    assert_eq!(strategy_iteration("debug_12.bincode"), None);
    assert_eq!(strategy_iteration("strategy_.bincode"), None);
    assert_eq!(strategy_iteration("strategy_12.bincode.bak"), None);
    assert_eq!(strategy_iteration("strategy_12xbincode"), None);
    assert_eq!(strategy_iteration("strategy_1a.bincode"), None);
    assert_eq!(strategy_iteration("best_response_3.bincode"), None);
    assert_eq!(strategy_iteration(""), None);
}

#[test]
fn strategy_iteration_too_large_for_the_machine() {
    assert_eq!(strategy_iteration("strategy_99999999999999999999999999.bincode"), None);
}

#[test]
fn parse_decimal_values_and_limits() {
    assert_eq!(parse_decimal("0"), Some(0));
    assert_eq!(parse_decimal("42"), Some(42));
    assert_eq!(parse_decimal("0042"), Some(42));
    assert_eq!(parse_decimal(""), None);
    assert_eq!(parse_decimal("4 2"), None);
    assert_eq!(parse_decimal("+42"), None);
    assert_eq!(parse_decimal("-1"), None);
    assert_eq!(parse_decimal("٣"), None);
    let max = usize::MAX.to_string();
    assert_eq!(parse_decimal(&max), Some(usize::MAX));
    let mut over = max.clone();
    over.push('0');
    assert_eq!(parse_decimal(&over), None);
    let next = format!("{}", usize::MAX as u128 + 1);
    assert_eq!(parse_decimal(&next), None);
}

#[test]
fn latest_iteration_picks_the_maximum() {
    let names: Vec<String> = ["debug_9.bincode", "strategy_3.bincode", "strategy_19.bincode", "strategy_7.bincode", "debug_19.bincode"]
        .iter()
        .map(|s| s.to_string())
        .collect();
    assert_eq!(latest_iteration(&names), Some(19));
}

#[test]
fn latest_iteration_without_snapshots() {
    let names: Vec<String> = vec!["debug_9.bincode".to_string(), "notes.txt".to_string()];
    assert_eq!(latest_iteration(&names), None);
    assert_eq!(latest_iteration(&Vec::new()), None);
}

#[test]
fn latest_iteration_zero_counts() {
    let names: Vec<String> = vec!["strategy_0.bincode".to_string()];
    assert_eq!(latest_iteration(&names), Some(0));
}
