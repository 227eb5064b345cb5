use cgt::domineering::{arr_to_bits, bits_to_arr, Position, PositionError};
use cgt::numeric::rational::Rational;
use cgt::short::partizan::thermograph::Thermographs;
use cgt::short::partizan::transposition_table::{PositionMap, TranspositionTable};

#[test]
fn domineering_bits_to_arr_works() {
    assert_eq!(
        bits_to_arr(0b1011001),
        [
            true, false, false, true, true, false, true, false, false, false, false, false, false,
            false, false, false, false, false, false, false, false, false, false, false, false,
            false, false, false, false, false, false, false, false, false, false, false, false,
            false, false, false, false, false, false, false, false, false, false, false, false,
            false, false, false, false, false, false, false, false, false, false, false, false,
            false, false, false
        ]
    );
}

#[test]
fn domineering_bits_to_arr_to_bits_roundtrip() {
    let inp = 3874328;
    assert_eq!(inp, arr_to_bits(&bits_to_arr(inp)),);
}

#[test]
fn domineering_parse_grid() {
    let width = 3;
    let height = 3;
    assert_eq!(
        Position::parse("..#|.#.|##.").unwrap(),
        Position::from_arr(
            width,
            height,
            &[false, false, true, false, true, false, true, true, false]
        )
        .unwrap()
    );
}

#[test]
fn domineering_set_works() {
    let mut grid = Position::parse(".#.|##.").unwrap();
    grid.set(2, 1, true);
    grid.set(0, 0, true);
    grid.set(1, 0, false);
    assert_eq!(&grid.to_string(), "#..|###",);
}

#[test]
fn parse_display_roundtrip() {
    let inp = "...|#.#|##.|###";
    assert_eq!(&Position::parse(inp).unwrap().to_string(), inp,);
}

fn test_grid_canonical_form(grid: Position, canonical_form: &str) {
    let mut cache = TranspositionTable::new();
    let game_id = grid.canonical_form(&mut cache);
    assert_eq!(
        &cache.game_backend().print_game_to_str(&game_id),
        canonical_form
    );
}

#[test]
fn finds_canonical_form_of_one() {
    test_grid_canonical_form(Position::empty(1, 2).unwrap(), "1");
}

#[test]
fn finds_canonical_form_of_minus_one() {
    test_grid_canonical_form(Position::empty(2, 1).unwrap(), "-1");
}

#[test]
fn finds_canonical_form_of_two_by_two() {
    test_grid_canonical_form(Position::empty(2, 2).unwrap(), "{1|-1}");
}

#[test]
fn finds_canonical_form_of_two_by_two_with_noise() {
    test_grid_canonical_form(Position::parse("..#|..#|##.").unwrap(), "{1|-1}");
}

#[test]
fn finds_canonical_form_of_minus_two() {
    test_grid_canonical_form(Position::empty(4, 1).unwrap(), "-2");
}

#[test]
fn finds_canonical_form_of_l_shape() {
    test_grid_canonical_form(Position::parse(".#|..").unwrap(), "*");
}

#[test]
fn finds_canonical_form_of_long_l_shape() {
    test_grid_canonical_form(Position::parse(".##|.##|...").unwrap(), "0");
}

#[test]
fn finds_canonical_form_of_weird_l_shape() {
    test_grid_canonical_form(Position::parse("..#|..#|...").unwrap(), "{1/2|-2}");
}

#[test]
fn finds_canonical_form_of_three_by_three() {
    test_grid_canonical_form(Position::empty(3, 3).unwrap(), "{1|-1}");
}

#[test]
fn finds_canonical_form_of_num_nim_sum() {
    test_grid_canonical_form(Position::parse(".#.#|.#..").unwrap(), "1*");
}

#[test]
fn domineering_rotation_works() {
    let position = Position::parse(
        "##..|\
	 ....|\
	 #..#",
    )
    .unwrap()
    .rotate();

    assert_eq!(
        &position.to_string(),
        "#.#|\
	 ..#|\
	 ...|\
	 #.."
    );

    let position = position.rotate();
    assert_eq!(
        &position.to_string(),
        "#..#|\
	 ....|\
	 ..##"
    );
}

#[test]
fn domineering_flip_works() {
    let position = Position::parse(
        "##..|\
	 ....|\
	 #..#",
    )
    .unwrap();

    assert_eq!(
        &position.vertical_flip().to_string(),
        "..##|\
	 ....|\
	 #..#",
    );

    assert_eq!(
        &position.horizontal_flip().to_string(),
        "#..#|\
	 ....|\
	 ##..",
    );
}

#[test]
fn four_by_four_with_corner_taken() {
    test_grid_canonical_form(
        Position::parse("#...|....|....|....").unwrap(),
        "{1*|-1*}",
    );
}

#[test]
fn finds_temperature_of_four_by_four_grid() {
    let mut cache = TranspositionTable::new();
    let grid = Position::parse("#...|....|....|....").unwrap();
    let game_id = grid.canonical_form(&mut cache);
    let mut thermographs = Thermographs::new();
    let temp = thermographs
        .temperature(cache.game_backend(), &game_id)
        .unwrap();
    assert_eq!(
        &cache.game_backend().print_game_to_str(&game_id),
        "{1*|-1*}"
    );
    assert_eq!(temp, Rational::from_integer(1));
}

fn assert_temperature(grid: Position, expected_temperature: Rational) {
    let mut cache = TranspositionTable::new();
    let game = grid.canonical_form(&mut cache);
    let mut thermographs = Thermographs::new();
    let temperature = thermographs.temperature(cache.game_backend(), &game);
    assert_eq!(temperature, Some(expected_temperature));
}

#[test]
fn temperature_without_game_works() {
    assert_temperature(Position::empty(0, 0).unwrap(), Rational::from_integer(-1));
    assert_temperature(
        Position::parse("#...|....|....|....").unwrap(),
        Rational::from_integer(1),
    );
}

#[test]
fn temperature_of_weird_l_shape_is_five_quarters() {
    assert_temperature(
        Position::parse("..#|..#|...").unwrap(),
        Rational::new(5, 4),
    );
}

#[test]
fn temperature_of_a_half_is_minus_a_half() {
    // Left leaves nothing to play for; Right leaves room for one upright domino.
    let grid = Position::parse("..|.#|.#").unwrap();
    test_grid_canonical_form(grid, "1/2");
    assert_temperature(grid, Rational::new(-1, 2));
}

#[test]
fn temperature_of_star_is_zero() {
    assert_temperature(Position::parse(".#|..").unwrap(), Rational::from_integer(0));
}

#[test]
fn temperature_of_two_by_two_is_one() {
    assert_temperature(Position::empty(2, 2).unwrap(), Rational::from_integer(1));
}

#[test]
fn sum_of_l_shape_and_pair() {
    let mut cache = TranspositionTable::new();
    let position = Position::parse("..#|.#.|##.").unwrap();
    assert_eq!(
        position.decompositions(),
        vec![
            Position::parse("..|.#").unwrap(),
            Position::parse(".|.").unwrap(),
        ]
    );
    let l_shape = Position::parse("..|.#").unwrap().canonical_form(&mut cache);
    let pair = Position::parse(".|.").unwrap().canonical_form(&mut cache);
    assert_eq!(&cache.game_backend().print_game_to_str(&l_shape), "*");
    assert_eq!(&cache.game_backend().print_game_to_str(&pair), "1");
    let game = position.canonical_form(&mut cache);
    assert_eq!(game, cache.construct_sum(l_shape, pair));
    assert_eq!(&cache.game_backend().print_game_to_str(&game), "1*");
    let mut thermographs = Thermographs::new();
    let temperature = thermographs.temperature(cache.game_backend(), &game);
    assert_eq!(temperature, Some(Rational::from_integer(0)));
}

#[test]
fn latex_works() {
    let position = Position::parse("##..|....|#...|..##").unwrap();
    let latex = position.to_latex();
    assert_eq!(
        &latex,
        r#"\begin{tikzpicture}[scale=1] \fill[fill=gray] (0,0) rectangle (1,1); \fill[fill=gray] (1,0) rectangle (2,1); \fill[fill=gray] (0,2) rectangle (1,3); \fill[fill=gray] (2,3) rectangle (3,4); \fill[fill=gray] (3,3) rectangle (4,4); \draw[step=1cm,black] (0,0) grid (4, 4); \end{tikzpicture}"#
    );
}

#[test]
fn too_large_grid_is_refused() {
    assert_eq!(Position::empty(10, 10), Err(PositionError::TooLarge));
    assert_eq!(Position::filled(9, 8), Err(PositionError::TooLarge));
    assert_eq!(Position::from_number(65, 1, 0), Err(PositionError::TooLarge));
    assert!(Position::empty(8, 8).is_ok());
}

#[test]
fn parse_tells_errors_apart() {
    assert_eq!(Position::parse("..|."), Err(PositionError::CouldNotParse));
    assert_eq!(Position::parse("..|..."), Err(PositionError::CouldNotParse));
    assert_eq!(Position::parse(".x"), Err(PositionError::CouldNotParse));
    assert_eq!(Position::parse(""), Err(PositionError::CouldNotParse));
    assert_eq!(Position::parse("|"), Err(PositionError::CouldNotParse));
    let wide = ".".repeat(65);
    assert_eq!(Position::parse(&wide), Err(PositionError::TooLarge));
    let full = ".".repeat(64);
    assert!(Position::parse(&full).is_ok());
}

#[test]
fn empty_and_filled_display() {
    assert_eq!(&Position::empty(2, 3).unwrap().to_string(), "..|..|..");
    assert_eq!(&Position::filled(3, 2).unwrap().to_string(), "###|###");
    assert_eq!(
        &Position::from_number(3, 2, 0b101110).unwrap().to_string(),
        ".##|#.#"
    );
}

#[test]
fn move_top_left_strips_filled_edges() {
    let position = Position::parse("###|.#.|##.").unwrap();
    assert_eq!(&position.move_top_left().to_string(), ".#.|##.");
    let full = Position::filled(3, 3).unwrap().move_top_left();
    assert_eq!((full.width(), full.height()), (0, 0));
}

#[test]
fn move_top_left_is_idempotent() {
    for id in 0..512u64 {
        let once = Position::from_number(3, 3, id).unwrap().move_top_left();
        assert_eq!(once.move_top_left(), once);
    }
}

#[test]
fn parse_of_display_gives_the_grid_back() {
    for id in 0..4096u64 {
        let grid = Position::from_number(4, 3, id).unwrap();
        assert_eq!(Position::parse(&grid.to_string()), Ok(grid));
    }
}

#[test]
fn left_and_right_moves_of_example() {
    let position = Position::parse("..#|.#.|##.").unwrap();
    assert_eq!(
        position.left_moves(),
        vec![
            Position::parse("..|.#").unwrap(),
            Position::parse(".#|#.|#.").unwrap(),
        ]
    );
    assert_eq!(
        position.right_moves(),
        vec![Position::parse(".#.|##.").unwrap(),]
    );
}

#[test]
fn flips_keep_the_value_and_a_quarter_turn_negates_it() {
    let mut cache = TranspositionTable::new();
    for id in 0..512u64 {
        let grid = Position::from_number(3, 3, id).unwrap();
        let value = grid.canonical_form(&mut cache);
        let flipped = grid.vertical_flip().canonical_form(&mut cache);
        let mirrored = grid.horizontal_flip().canonical_form(&mut cache);
        assert_eq!(value, flipped);
        assert_eq!(value, mirrored);
        let turned = grid.rotate().canonical_form(&mut cache);
        let negative = cache.negate(value);
        assert_eq!(turned, negative);
        let turned_twice = grid.rotate().rotate().canonical_form(&mut cache);
        assert_eq!(turned_twice, value);
    }
}

#[test]
fn free_places_counts_empty_tiles() {
    assert_eq!(Position::parse("..#|.#.|##.").unwrap().free_places(), 5);
    assert_eq!(Position::empty(8, 8).unwrap().free_places(), 64);
}

#[test]
fn position_map_keeps_one_value_for_a_position() {
    let mut map = PositionMap::<Position>::new();
    let pair = Position::parse("..").unwrap();
    let square = Position::parse("..|..").unwrap();
    assert_eq!(map.get(&pair), None);
    map.insert(pair, 3);
    map.insert(square, 5);
    assert_eq!(map.get(&pair), Some(3));
    assert_eq!(map.get(&square), Some(5));
    map.insert(pair, 3);
    assert_eq!(map.len(), 2);
    assert_eq!(map.get(&pair), Some(3));
}

#[test]
fn table_remembers_the_forms_of_positions() {
    let mut cache = TranspositionTable::new();
    let square = Position::parse("..|..").unwrap();
    assert_eq!(cache.grids_get(&square), None);
    let form = square.canonical_form(&mut cache);
    assert_eq!(cache.grids_get(&square), Some(form));
    let known = cache.grids_saved();
    assert_eq!(square.canonical_form(&mut cache), form);
    assert_eq!(cache.grids_saved(), known);
}

#[test]
fn bench_domineering() {
    let width: u64 = 5;
    let height: u64 = 4;

    let mut tt = TranspositionTable::new();
    for i in 0..(width * height) {
        let domineering = Position::from_number(width as u8, height as u8, i).unwrap();
        let _ = domineering.canonical_form(&mut tt);
    }
}

#[test]
fn parts_have_their_forms_as_positions_of_their_own() {
    let mut cache = TranspositionTable::new();
    for id in 0..512u64 {
        let position = Position::from_number(3, 3, id).unwrap().move_top_left();
        let whole = position.canonical_form(&mut cache);
        let mut sum = cache.construct_integer(0);
        for part in position.decompositions() {
            assert_eq!(part.decompositions(), vec![part]);
            assert_eq!(part.move_top_left(), part);
            let form = part.canonical_form(&mut cache);
            sum = cache.construct_sum(form, sum);
        }
        assert_eq!(whole, sum);
    }
}
