use cgt::dyadic_rational_number::DyadicRationalNumber;
use cgt::short::partizan::game_storage::{Game, GameStorage, Moves};
use cgt::short::partizan::named_games::Comparison;
use cgt::short::partizan::number_up_star::Nus;
use cgt::short::partizan::thermograph::Thermographs;
use cgt::numeric::rational::Rational;

fn sample_games(games: &mut GameStorage) -> Vec<Game> {
    let zero = games.construct_integer(0);
    let one = games.construct_integer(1);
    let minus_two = games.construct_integer(-2);
    let star = games.construct_nimber(1);
    let half = games.construct_rational(DyadicRationalNumber::rational(1, 2).unwrap());
    let up = games.construct_up();
    let switch = games.construct_switch(one, minus_two);
    let mixed = games.construct_from_moves(Moves {
        left: vec![half, star],
        right: vec![minus_two, up],
    });
    vec![zero, one, minus_two, star, half, up, switch, mixed]
}

#[test]
fn negating_twice_gives_the_game_back() {
    let mut games = GameStorage::new();
    for g in sample_games(&mut games) {
        let negative = games.negate(g);
        assert_eq!(games.negate(negative), g);
    }
}

#[test]
fn adding_zero_changes_nothing() {
    let mut games = GameStorage::new();
    let zero = games.construct_integer(0);
    for g in sample_games(&mut games) {
        assert_eq!(games.construct_sum(g, zero), g);
        assert_eq!(games.construct_sum(zero, g), g);
    }
}

#[test]
fn a_game_and_its_negative_add_up_to_zero() {
    let mut games = GameStorage::new();
    let zero = games.construct_integer(0);
    for g in sample_games(&mut games) {
        let negative = games.negate(g);
        assert_eq!(games.construct_sum(g, negative), zero);
        assert_eq!(games.construct_sum(negative, g), zero);
    }
}

#[test]
fn sums_do_not_depend_on_the_order() {
    let mut games = GameStorage::new();
    let sample = sample_games(&mut games);
    for a in sample.iter() {
        for b in sample.iter() {
            let forth = games.construct_sum(*a, *b);
            let back = games.construct_sum(*b, *a);
            assert_eq!(forth, back);
        }
    }
}

#[test]
fn integers_add_as_integers() {
    let mut games = GameStorage::new();
    let three = games.construct_integer(3);
    let minus_five = games.construct_integer(-5);
    let minus_two = games.construct_integer(-2);
    assert_eq!(games.construct_sum(three, minus_five), minus_two);
    assert_eq!(games.print_game_to_str(&minus_two), "-2");
}

#[test]
fn nimbers_are_built_from_the_smaller_ones() {
    let mut games = GameStorage::new();
    let zero = games.construct_integer(0);
    assert_eq!(games.construct_nimber(0), zero);
    let star = games.construct_nimber(1);
    assert_eq!(games.left_options(star), vec![zero]);
    assert_eq!(games.right_options(star), vec![zero]);
    assert_eq!(games.print_game_to_str(&star), "*");
    let star_three = games.construct_nimber(3);
    assert_eq!(games.left_options(star_three).len(), 3);
    assert_eq!(games.print_game_to_str(&star_three), "*3");
    let star_two = games.construct_nimber(2);
    assert_eq!(games.construct_sum(star, star_two), star_three);
    assert_eq!(games.construct_sum(star_three, star_three), zero);
}

#[test]
fn numbers_are_built_from_their_neighbours() {
    let mut games = GameStorage::new();
    let zero = games.construct_integer(0);
    let one = games.construct_integer(1);
    let half = games.construct_rational(DyadicRationalNumber::rational(1, 2).unwrap());
    assert_eq!(games.left_options(half), vec![zero]);
    assert_eq!(games.right_options(half), vec![one]);
    assert_eq!(games.print_game_to_str(&half), "1/2");
    assert_eq!(games.construct_sum(half, half), one);
    let number = games.construct_rational(DyadicRationalNumber::rational(-3, 4).unwrap());
    assert_eq!(games.print_game_to_str(&number), "-3/4");
    let whole = games.construct_rational(DyadicRationalNumber::from_integer(7));
    assert_eq!(games.construct_integer(7), whole);
}

#[test]
fn switch_of_equal_numbers_is_a_number_and_a_star() {
    let mut games = GameStorage::new();
    let one = games.construct_integer(1);
    let g = games.construct_switch(one, one);
    assert_eq!(games.print_game_to_str(&g), "1*");
    let minus_one = games.construct_integer(-1);
    let switch = games.construct_switch(one, minus_one);
    assert_eq!(games.print_game_to_str(&switch), "{1|-1}");
}

#[test]
fn up_is_positive_and_confused_with_star() {
    let mut games = GameStorage::new();
    let zero = games.construct_integer(0);
    let star = games.construct_nimber(1);
    let up = games.construct_up();
    assert_eq!(games.left_options(up), vec![zero]);
    assert_eq!(games.right_options(up), vec![star]);
    assert_eq!(games.compare(zero, up), Comparison::Less);
    assert_eq!(games.compare(up, zero), Comparison::Greater);
    assert_eq!(games.compare(up, star), Comparison::Confused);
    assert_eq!(games.compare(star, zero), Comparison::Confused);
    assert_eq!(games.compare(up, up), Comparison::Equal);
    let double = games.construct_multiple(up, zero, 2);
    assert_eq!(games.compare(star, double), Comparison::Less);
}

#[test]
fn number_up_star_adds_its_parts() {
    let mut games = GameStorage::new();
    let one_star = games.construct_number_up_star(Nus {
        number: DyadicRationalNumber::from_integer(1),
        up_multiple: 0,
        nimber: 1,
    });
    assert_eq!(games.print_game_to_str(&one_star), "1*");
    let up = games.construct_up();
    let only_up = games.construct_number_up_star(Nus {
        number: DyadicRationalNumber::from_integer(0),
        up_multiple: 1,
        nimber: 0,
    });
    assert_eq!(only_up, up);
    let down = games.negate(up);
    let double_down_star = games.construct_number_up_star(Nus {
        number: DyadicRationalNumber::from_integer(0),
        up_multiple: -2,
        nimber: 1,
    });
    let star = games.construct_nimber(1);
    let double_down = games.construct_sum(down, down);
    assert_eq!(games.construct_sum(double_down, star), double_down_star);
    let two = games.construct_integer(2);
    let plain = games.construct_number_up_star(Nus {
        number: DyadicRationalNumber::from_integer(2),
        up_multiple: 0,
        nimber: 0,
    });
    assert_eq!(plain, two);
}

#[test]
fn comparing_numbers_follows_their_values() {
    let mut games = GameStorage::new();
    let half = games.construct_rational(DyadicRationalNumber::rational(1, 2).unwrap());
    let one = games.construct_integer(1);
    let minus_one = games.construct_integer(-1);
    assert_eq!(games.compare(half, one), Comparison::Less);
    assert_eq!(games.compare(half, minus_one), Comparison::Greater);
    assert!(games.leq(minus_one, half));
    assert!(!games.leq(one, half));
}

#[test]
fn a_sum_is_no_hotter_than_its_hotter_term() {
    let mut games = GameStorage::new();
    let sample = sample_games(&mut games);
    let mut sums = Vec::new();
    for a in sample.iter() {
        for b in sample.iter() {
            sums.push((*a, *b, games.construct_sum(*a, *b)));
        }
    }
    let mut thermographs = Thermographs::new();
    for (a, b, sum) in sums {
        let of_a = thermographs.temperature(&games, &a).unwrap();
        let of_b = thermographs.temperature(&games, &b).unwrap();
        let of_sum = thermographs.temperature(&games, &sum).unwrap();
        let highest = if of_a.lt(&of_b) { of_b } else { of_a };
        assert!(of_sum.le(&highest));
    }
}

#[test]
fn temperatures_of_named_games() {
    let mut games = GameStorage::new();
    let three = games.construct_integer(3);
    let quarter = games.construct_rational(DyadicRationalNumber::rational(1, 4).unwrap());
    let star = games.construct_nimber(1);
    let up = games.construct_up();
    let one = games.construct_integer(1);
    let minus_one = games.construct_integer(-1);
    let switch = games.construct_switch(one, minus_one);
    let mut thermographs = Thermographs::new();
    assert_eq!(
        thermographs.temperature(&games, &three),
        Some(Rational::from_integer(-1))
    );
    assert_eq!(
        thermographs.temperature(&games, &quarter),
        Some(Rational::new(-1, 4))
    );
    assert_eq!(
        thermographs.temperature(&games, &star),
        Some(Rational::from_integer(0))
    );
    assert_eq!(
        thermographs.temperature(&games, &up),
        Some(Rational::from_integer(0))
    );
    assert_eq!(
        thermographs.temperature(&games, &switch),
        Some(Rational::from_integer(1))
    );
}

#[test]
fn dyadic_fractions_are_shortened() {
    let mut games = GameStorage::new();
    let half = games.construct_rational(DyadicRationalNumber::rational(1, 2).unwrap());
    assert_eq!(games.construct_dyadic(1, 1), half);
    assert_eq!(games.construct_dyadic(4, 3), half);
    let minus_three = games.construct_integer(-3);
    assert_eq!(games.construct_dyadic(-12, 2), minus_three);
    let g = games.construct_dyadic(-5, 3);
    assert_eq!(games.print_game_to_str(&g), "-5/8");
}
