use gridpath::springs::Row;

fn row(springs: &str, pattern: &[usize]) -> Row {
    let springs = springs
        .chars()
        .map(|c| match c {
            '#' => Some(true),
            '.' => Some(false),
            '?' => None,
            _ => panic!("not a spring"),
        })
        .collect();
    Row { springs, pattern: pattern.to_vec() }
}

#[test]
fn empty_states_have_the_row_shape() {
    let r = row("???", &[2, 1]);
    let states = r.empty_states();
    assert_eq!(states.len(), 3);
    assert_eq!(states[0], vec![0, 0, 0]);
    assert_eq!(states[1], vec![0, 0]);
    assert_eq!(states[2], vec![0]);
}

#[test]
fn broken_states_shift_each_segment() {
    let r = row("??", &[2]);
    let states = vec![vec![5, 7, 9], vec![3]];
    assert_eq!(r.broken_states(&states), vec![vec![0, 5, 7], vec![0]]);
}

#[test]
fn normal_states_carry_completed_runs() {
    let r = row("??", &[2]);
    let states = vec![vec![5, 7, 9], vec![3]];
    assert_eq!(r.normal_states(&states), vec![vec![5, 0, 0], vec![12]]);
}

#[test]
fn unknown_states_sum_both_outcomes() {
    let r = row("??", &[2]);
    let states = vec![vec![5, 7, 9], vec![3]];
    assert_eq!(r.unknown_states(&states), vec![vec![5, 5, 7], vec![12]]);
}

#[test]
fn arrangement_counts_match_known_rows() {
    assert_eq!(row("???.###", &[1, 1, 3]).solve(), 1);
    assert_eq!(row(".??..??...?##.", &[1, 1, 3]).solve(), 4);
    assert_eq!(row("?#?#?#?#?#?#?#?", &[1, 3, 1, 6]).solve(), 1);
    assert_eq!(row("????.#...#...", &[4, 1, 1]).solve(), 1);
    assert_eq!(row("????.######..#####.", &[1, 6, 5]).solve(), 4);
    assert_eq!(row("?###????????", &[3, 2, 1]).solve(), 10);
}
