use cgt::domineering::Position;
use cgt::numeric::rational::Rational;
use cgt::report::{by_temperature, is_alike, max_grid_width, table, without_rotations, Entry, EntryError};
use cgt::search::{
    digits, end_of_search, examine, higher_of, highest_temperature, id_at_step, zero_padded,
    Outcome, SearchError, SearchRecord,
};
use cgt::short::partizan::thermograph::Thermographs;
use cgt::short::partizan::transposition_table::TranspositionTable;

fn survey(width: u8, height: u8, threshold: Option<Rational>, with_parts: bool) -> Vec<SearchRecord> {
    let mut cache = TranspositionTable::new();
    let mut thermographs = Thermographs::new();
    let end = end_of_search(width, height, None).unwrap();
    let mut records = Vec::new();
    for step in 0..(end as u64) {
        let id = id_at_step(end, step);
        let position = Position::from_number(width, height, id).unwrap();
        if let Outcome::Found(record, _) =
            examine(&mut cache, &mut thermographs, &position, with_parts, &threshold)
        {
            records.push(record);
        }
    }
    records
}

#[test]
fn search_ends_at_the_number_of_positions() {
    assert_eq!(end_of_search(2, 2, None), Ok(16));
    assert_eq!(end_of_search(2, 2, Some(7)), Ok(7));
    assert_eq!(end_of_search(2, 2, Some(16)), Ok(16));
    assert_eq!(
        end_of_search(2, 2, Some(17)),
        Err(SearchError::LastIdTooLarge { last: 15 })
    );
    assert_eq!(end_of_search(8, 8, None), Ok(1u128 << 64));
    assert_eq!(end_of_search(9, 8, None), Err(SearchError::GridTooLarge));
    assert_eq!(end_of_search(0, 5, None), Ok(1));
}

#[test]
fn search_goes_down_from_the_last_number() {
    assert_eq!(id_at_step(16, 0), 15);
    assert_eq!(id_at_step(16, 15), 0);
    assert_eq!(id_at_step(1u128 << 64, 0), u64::MAX);
}

#[test]
fn two_by_two_search_records_the_hot_positions() {
    let records = survey(2, 2, Some(Rational::from_integer(0)), true);
    let grids: Vec<String> = records.iter().map(|r| r.grid.clone()).collect();
    assert!(grids.contains(&"..|..".to_string()));
    assert!(!grids.contains(&".#|..".to_string()));
    for record in records.iter() {
        let temperature = Rational::parse(&record.temperature).unwrap();
        assert!(Rational::from_integer(0).lt(&temperature));
    }
    let whole = records.iter().find(|r| r.grid == "..|..").unwrap();
    assert_eq!(whole.canonical_form, "{1|-1}");
    assert_eq!(whole.temperature, "1");
}

#[test]
fn search_without_threshold_records_every_position_in_one_part() {
    let records = survey(2, 2, None, false);
    let grids: Vec<String> = records.iter().map(|r| r.grid.clone()).collect();
    assert!(grids.contains(&".#|..".to_string()));
    assert!(grids.contains(&"..|..".to_string()));
    let star = records.iter().find(|r| r.grid == ".#|..").unwrap();
    assert_eq!(star.canonical_form, "*");
    assert_eq!(star.temperature, "0");
    for record in records.iter() {
        if record.grid.is_empty() {
            // The grid without a free tile: nothing is left of it.
            assert_eq!(record.canonical_form, "0");
            assert_eq!(record.temperature, "-1");
        } else {
            let position = Position::parse(&record.grid).unwrap();
            assert_eq!(position.decompositions().len(), 1);
        }
    }
    assert!(grids.contains(&String::new()));
}

#[test]
fn positions_in_parts_are_left_out_unless_asked_for() {
    let mut cache = TranspositionTable::new();
    let mut thermographs = Thermographs::new();
    let position = Position::parse(".#|#.").unwrap();
    assert_eq!(
        examine(&mut cache, &mut thermographs, &position, false, &None),
        Outcome::Parts
    );
    let found = examine(&mut cache, &mut thermographs, &position, true, &None);
    assert_eq!(
        found,
        Outcome::Found(
            SearchRecord {
                grid: ".#|#.".to_string(),
                temperature: "-1".to_string(),
                canonical_form: "0".to_string(),
            },
            Rational::from_integer(-1)
        )
    );
    let cold = examine(
        &mut cache,
        &mut thermographs,
        &position,
        true,
        &Some(Rational::from_integer(-1)),
    );
    assert_eq!(cold, Outcome::Cold);
}

#[test]
fn highest_temperature_is_kept() {
    let one = Rational::from_integer(1);
    let half = Rational::new(1, 2);
    assert_eq!(higher_of(Rational::NegativeInfinity, half), half);
    assert_eq!(higher_of(half, one), one);
    assert_eq!(higher_of(one, half), one);
    assert_eq!(highest_temperature(0, &None, &one), "<= -1");
    assert_eq!(highest_temperature(0, &Some(half), &one), "<= 1/2");
    assert_eq!(highest_temperature(3, &Some(half), &one), "1");
}

#[test]
fn numbers_are_padded_with_zeros() {
    assert_eq!(zero_padded(7, 1000), "0007");
    assert_eq!(zero_padded(1000, 1000), "1000");
    assert_eq!(zero_padded(0, 9), "0");
    assert_eq!(zero_padded(42, 99999), "00042");
    assert_eq!(digits(0), 1);
    assert_eq!(digits(12345), 5);
    assert_eq!(digits(u128::MAX), 39);
}

fn entry(grid: &str, temperature: &str) -> Entry {
    Entry::new(&SearchRecord {
        grid: grid.to_string(),
        temperature: temperature.to_string(),
        canonical_form: String::new(),
    })
    .unwrap()
}

#[test]
fn entries_are_read_from_records() {
    let e = entry("..|.#", "3/4");
    assert_eq!(e.temperature, Rational::new(3, 4));
    assert_eq!(e.grid, Position::parse("..|.#").unwrap());
    let bad_temperature = Entry::new(&SearchRecord {
        grid: "..|.#".to_string(),
        temperature: "warm".to_string(),
        canonical_form: String::new(),
    });
    assert_eq!(bad_temperature.err(), Some(EntryError::InvalidTemperature));
    let bad_grid = Entry::new(&SearchRecord {
        grid: "..|.".to_string(),
        temperature: "1".to_string(),
        canonical_form: String::new(),
    });
    assert_eq!(bad_grid.err(), Some(EntryError::InvalidGrid));
}

#[test]
fn turned_and_mirrored_pictures_are_alike() {
    let l_shape = Position::parse("#.|..").unwrap();
    assert!(is_alike(&l_shape, &Position::parse(".#|..").unwrap()));
    assert!(is_alike(&l_shape, &Position::parse("..|#.").unwrap()));
    assert!(is_alike(&l_shape, &Position::parse("..|.#").unwrap()));
    assert!(!is_alike(&l_shape, &Position::parse("##|..").unwrap()));
    let bar = Position::parse("...").unwrap();
    assert!(is_alike(&bar, &Position::parse(".|.|.").unwrap()));
    assert!(is_alike(&bar, &bar));
    let odd = Position::parse("#..|...").unwrap();
    assert!(!is_alike(&odd, &odd));
}

#[test]
fn table_leaves_out_turned_pictures_and_sorts_by_temperature() {
    let entries = vec![
        entry("#.|..", "0"),
        entry("..|..", "1"),
        entry(".#|..", "0"),
        entry("..", "-1"),
        entry(".|.", "-1"),
        entry("...|...", "1/2"),
    ];
    let kept = without_rotations(&entries);
    let grids: Vec<String> = kept.iter().map(|e| e.grid.to_string()).collect();
    assert_eq!(grids, vec!["#.|..", "..|..", "..", "...|..."]);
    let sorted = by_temperature(&kept);
    let grids: Vec<String> = sorted.iter().map(|e| e.grid.to_string()).collect();
    assert_eq!(grids, vec!["..|..", "...|...", "#.|..", ".."]);
    assert_eq!(max_grid_width(&sorted), Some(3));
    assert_eq!(max_grid_width(&Vec::new()), None);
}

#[test]
fn sorting_keeps_the_order_of_equal_temperatures() {
    let entries = vec![
        entry("..", "1"),
        entry("...", "2"),
        entry("....", "1"),
        entry(".....", "2"),
    ];
    let sorted = by_temperature(&entries);
    let grids: Vec<String> = sorted.iter().map(|e| e.grid.to_string()).collect();
    assert_eq!(grids, vec!["...", ".....", "..", "...."]);
}

#[test]
fn table_is_written_row_by_row() {
    let entries = vec![entry(".", "0"), entry("#", "1/2"), entry("..", "-1")];
    let text = table(&entries, "0.4", "0.8cm", 2);
    let picture = |grid: &str| Position::parse(grid).unwrap().to_latex_scaled("0.4");
    let expected = format!(
        "{{\n%% Auto generated by `cgt-cli`\n%% Make sure to include preamble from README.md\n\
         \\begin{{longtabu}}{{m{{0.8cm}} m{{1cm}}|m{{0.8cm}} m{{1cm}}}} \n\\hline \
         Position & Temp. & Position & Temp. \\\\ \\hline \\endhead\n\
         {} & $0$ & {} & $1/2$ \\\\\n{} & $-1$ \\\\\n\\end{{longtabu}}\n}}\n",
        picture("."),
        picture("#"),
        picture("..")
    );
    assert_eq!(text, expected);
    assert_eq!(
        picture("#"),
        "\\begin{tikzpicture}[scale=0.4] \\fill[fill=gray] (0,0) rectangle (1,1); \
         \\draw[step=1cm,black] (0,0) grid (1, 1); \\end{tikzpicture}"
    );
}
