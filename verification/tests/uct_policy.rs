use remote_colonies::mcts::figures::{decimal, thousands_separate};
use remote_colonies::mcts::node::{add_capped, sub_capped, MoveInfo};
use remote_colonies::mcts::tree_policy::{ln_approx, sqrt_floor, UCTPolicy, LN_2, SCORE_UNIT};

fn tried(visits: u64, sum_evaluations: i64) -> MoveInfo<char> {
    MoveInfo { mov: 'm', child: None, visits, sum_evaluations }
}

#[test]
fn square_roots_are_rounded_down() {
    for (x, root) in [(0, 0), (1, 1), (2, 1), (3, 1), (4, 2), (24, 4), (25, 5), (26, 5), (1_000_000, 1000)]
    {
        assert_eq!(sqrt_floor(x), root);
    }
    assert_eq!(sqrt_floor(u64::MAX), 0xFFFF_FFFF);
    assert_eq!(sqrt_floor(0xFFFF_FFFE_0000_0001), 0xFFFF_FFFF);
    assert_eq!(sqrt_floor(0xFFFF_FFFE_0000_0000), 0xFFFF_FFFE);
}

#[test]
fn logarithm_is_right_at_powers_of_two() {
    assert_eq!(ln_approx(0), 0);
    assert_eq!(ln_approx(1), 0);
    assert_eq!(ln_approx(2), LN_2);
    assert_eq!(ln_approx(4), 2 * LN_2);
    assert_eq!(ln_approx(1024), 10 * LN_2);
    assert_eq!(ln_approx(1 << 63), 63 * LN_2);
}

#[test]
fn logarithm_is_a_straight_line_between_powers_of_two() {
    assert_eq!(ln_approx(3), LN_2 + LN_2 / 2);
    assert_eq!(ln_approx(6), 2 * LN_2 + LN_2 / 2);
    assert_eq!(ln_approx(5), 2 * LN_2 + LN_2 / 4);
    assert_eq!(ln_approx(u64::MAX), 63 * LN_2 + LN_2 - 1);
}

#[test]
fn logarithm_stays_close_to_the_real_one() {
    for n in [1u64, 2, 3, 5, 10, 100, 1000, 12_345, 1_000_000, 1 << 40] {
        let exact = (n as f64).ln();
        let ours = ln_approx(n) as f64 / SCORE_UNIT as f64;
        assert!((exact - ours).abs() < 0.07, "ln {n}: {exact} against {ours}");
    }
}

#[test]
fn score_is_mean_plus_bonus() {
    let policy = UCTPolicy::new(5_000);
    assert_eq!(policy.exploration_constant(), 5_000);
    // mean 3, bonus 0.5 * sqrt(ln(4) / 2) = 0.5 * sqrt(0.6931)
    let bonus = 5_000 * sqrt_floor(2 * LN_2 * SCORE_UNIT / 2) as i128 / SCORE_UNIT as i128;
    assert_eq!(bonus, 4_162);
    assert_eq!(policy.score(4, 6, 2), 30_000 + 4_162);
    assert_eq!(policy.score(4, -6, 2), -30_000 + 4_162);
    // a mean is rounded towards zero
    assert_eq!(policy.score(1, 1, 3), 3_333);
    assert_eq!(policy.score(1, -1, 3), -3_333);
}

#[test]
fn score_without_exploration_is_the_mean() {
    let policy = UCTPolicy::new(0);
    assert_eq!(policy.score(1_000, 50, 4), 125_000);
    assert_eq!(policy.score(u64::MAX, i64::MAX, 1), i64::MAX as i128 * 10_000);
    assert_eq!(policy.score(u64::MAX, i64::MIN, 1), i64::MIN as i128 * 10_000);
}

#[test]
fn score_of_extreme_counts_does_not_overflow() {
    let policy = UCTPolicy::new(u64::MAX);
    let bonus = u64::MAX as i128 * sqrt_floor(ln_approx(u64::MAX) * SCORE_UNIT) as i128 / 10_000;
    assert_eq!(policy.score(u64::MAX, 0, 1), bonus);
    assert_eq!(policy.score(u64::MAX, 0, u64::MAX), 0);
}

#[test]
fn untried_moves_come_first() {
    let policy = UCTPolicy::new(5_000);
    assert_eq!(policy.choose_child(&vec![tried(0, 0), tried(0, 0)]), 0);
    assert_eq!(policy.choose_child(&vec![tried(3, 1_000), tried(0, 0), tried(0, 0)]), 1);
    assert_eq!(policy.choose_child(&vec![tried(3, 1_000), tried(1, -5), tried(0, -100)]), 2);
}

#[test]
fn best_score_wins_and_the_first_of_equals() {
    let policy = UCTPolicy::new(5_000);
    assert_eq!(policy.choose_child(&vec![tried(2, 2), tried(2, 6), tried(2, 4)]), 1);
    assert_eq!(policy.choose_child(&vec![tried(2, 6), tried(2, 6)]), 0);
    assert_eq!(policy.choose_child(&vec![tried(5, -50)]), 0);
}

#[test]
fn little_tried_moves_get_a_bonus() {
    // equal means; the move tried less often scores higher
    let policy = UCTPolicy::new(10_000);
    assert_eq!(policy.choose_child(&vec![tried(100, 100), tried(4, 4)]), 1);
    // without exploration the first of the equal means wins
    let greedy = UCTPolicy::new(0);
    assert_eq!(greedy.choose_child(&vec![tried(100, 100), tried(4, 4)]), 0);
}

#[test]
fn visits_of_all_moves_make_the_parent_visits() {
    assert_eq!(UCTPolicy::count_visits::<char>(&vec![]), 0);
    assert_eq!(UCTPolicy::count_visits(&vec![tried(3, 0), tried(4, 0)]), 7);
    assert_eq!(UCTPolicy::count_visits(&vec![tried(u64::MAX, 0), tried(4, 0)]), u64::MAX);
}

#[test]
fn sums_stop_at_the_ends() {
    assert_eq!(add_capped(1, 2), 3);
    assert_eq!(add_capped(i64::MAX, 1), i64::MAX);
    assert_eq!(add_capped(i64::MIN, -1), i64::MIN);
    assert_eq!(sub_capped(1, 2), -1);
    assert_eq!(sub_capped(i64::MIN, 1), i64::MIN);
    assert_eq!(sub_capped(i64::MAX, -1), i64::MAX);
    assert_eq!(sub_capped(0, i64::MIN), i64::MAX);
}

#[test]
fn move_info_hands_out_what_it_holds() {
    let info = tried(7, -3);
    assert_eq!(*info.get_move(), 'm');
    assert_eq!(info.visits(), 7);
    assert_eq!(info.sum_rewards(), -3);
}

#[test]
fn thousands_are_set_apart_by_commas() {
    let text = |x: usize| thousands_separate(x).into_iter().collect::<String>();
    assert_eq!(text(0), "0");
    assert_eq!(text(7), "7");
    assert_eq!(text(999), "999");
    assert_eq!(text(1_000), "1,000");
    assert_eq!(text(12_345), "12,345");
    assert_eq!(text(123_456), "123,456");
    assert_eq!(text(1_234_567), "1,234,567");
    assert_eq!(text(1_000_000_000), "1,000,000,000");
    assert_eq!(decimal(9_050).into_iter().collect::<String>(), "9050");
    for x in [0usize, 9, 10, 99, 100, 1_001, 65_536, 4_294_967_295] {
        assert_eq!(decimal(x).into_iter().collect::<String>(), format!("{x}"));
        assert_eq!(text(x).replace(',', ""), format!("{x}"));
    }
}
