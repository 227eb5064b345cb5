use cgt::grid::small_bit_grid::{arr_to_bits, bits_to_arr, SmallBitGrid};

#[test]
fn small_bit_grid_set_works() {
    let mut grid = SmallBitGrid::parse(".#.|##.").unwrap();
    grid.set(2, 1, true);
    grid.set(0, 0, true);
    grid.set(1, 0, false);
    assert_eq!(&grid.to_string(), "#..|###",);
}

#[test]
fn small_bit_grid_bits_to_arr_works() {
    assert_eq!(
        bits_to_arr(0b1011001),
        [
            true, false, false, true, true, false, true, false, false, false, false, false, false,
            false, false, false, false, false, false, false, false, false, false, false, false,
            false, false, false, false, false, false, false, false, false, false, false, false,
            false, false, false, false, false, false, false, false, false, false, false, false,
            false, false, false, false, false, false, false, false, false, false, false, false,
            false, false, false
        ]
    );
}

#[test]
fn small_bit_grid_bits_to_arr_to_bits_roundtrip() {
    let inp = 3874328;
    assert_eq!(inp, arr_to_bits(&bits_to_arr(inp)),);
}

#[test]
fn small_bit_grid_parse_grid() {
    let width = 3;
    let height = 3;
    assert_eq!(
        SmallBitGrid::parse("..#|.#.|##.").unwrap(),
        SmallBitGrid::from_arr(
            width,
            height,
            &[false, false, true, false, true, false, true, true, false]
        )
        .unwrap()
    );
}

#[test]
fn small_bit_grid_rotation_works() {
    let position = SmallBitGrid::parse(
        "##..|\
	 ....|\
	 #..#",
    )
    .unwrap()
    .rotate();

    assert_eq!(
        &position.to_string(),
        "#.#|\
	 ..#|\
	 ...|\
	 #.."
    );

    let position = position.rotate();
    assert_eq!(
        &position.to_string(),
        "#..#|\
	 ....|\
	 ..##"
    );
}

#[test]
fn small_bit_grid_flip_works() {
    let position = SmallBitGrid::parse(
        "##..|\
	 ....|\
	 #..#",
    )
    .unwrap();

    assert_eq!(
        &position.vertical_flip().to_string(),
        "..##|\
	 ....|\
	 #..#",
    );

    assert_eq!(
        &position.horizontal_flip().to_string(),
        "#..#|\
	 ....|\
	 ##..",
    );
}

#[test]
fn small_bit_grid_limits_and_shapes() {
    assert!(SmallBitGrid::empty(8, 8).is_some());
    assert!(SmallBitGrid::empty(9, 8).is_none());
    assert!(SmallBitGrid::filled(65, 1).is_none());
    assert!(SmallBitGrid::from_number(13, 5, 1).is_none());
    assert_eq!(&SmallBitGrid::empty(2, 3).unwrap().to_string(), "..|..|..");
    assert_eq!(&SmallBitGrid::filled(3, 2).unwrap().to_string(), "###|###");
    assert_eq!(
        &SmallBitGrid::from_number(3, 2, 0b101110).unwrap().to_string(),
        ".##|#.#"
    );
    let zero = SmallBitGrid::zero_size();
    assert_eq!((zero.width(), zero.height()), (0, 0));
    assert_eq!(&zero.to_string(), "");
}

#[test]
fn small_bit_grid_parse_rejects_what_is_no_rectangle() {
    assert!(SmallBitGrid::parse("..|.").is_none());
    assert!(SmallBitGrid::parse(".|..").is_none());
    assert!(SmallBitGrid::parse("..|..|").is_none());
    assert!(SmallBitGrid::parse("a").is_none());
    assert!(SmallBitGrid::parse("").is_none());
    assert!(SmallBitGrid::parse(&"#".repeat(65)).is_none());
}

#[test]
fn small_bit_grid_flip_keeps_bits_beyond_the_grid() {
    let filled = SmallBitGrid::filled(2, 2).unwrap();
    assert_eq!(filled.vertical_flip(), filled);
    assert_eq!(filled.horizontal_flip(), filled);
    assert_ne!(filled.rotate(), filled);
    assert_eq!(filled.rotate(), SmallBitGrid::parse("##|##").unwrap());
}

#[test]
fn small_bit_grid_get_reads_what_set_wrote() {
    let mut grid = SmallBitGrid::empty(7, 9).unwrap();
    grid.set(6, 8, true);
    grid.set(0, 0, true);
    assert!(grid.get(6, 8));
    assert!(grid.get(0, 0));
    assert!(!grid.get(5, 8));
    assert_eq!(grid.free_places(), 61);
}
