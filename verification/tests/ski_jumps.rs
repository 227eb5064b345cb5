use cgt::drawing::{Label, Stroke};
use cgt::grid::vec_grid::VecGrid;
use cgt::short::partizan::games::ski_jumps::{SkiJumps, Skier, Tile};
use cgt::short::partizan::transposition_table::TranspositionTable;

fn test_canonical_form(input: &str, output: &str) {
    let mut tt = TranspositionTable::new();
    let pos = SkiJumps::parse(input).expect("Could not parse the game");
    let cf = pos.canonical_form(&mut tt);
    assert_eq!(tt.game_backend().print_game_to_str(&cf), output)
}

#[test]
fn winning_ways_examples() {
    // I couldn't find other implementations so we're comparing against positions in winning ways
    test_canonical_form("...L....|..R.....|........", "2");
    test_canonical_form("........|...l....|.......R|........|......L.", "-1");
    test_canonical_form(".L...|.R...|.....", "5/2");
    test_canonical_form("...R.|...L.|.....", "-5/2");
    test_canonical_form("L....|....R|.....", "1/2");
}

#[test]
fn ski_jumps_parse_and_display() {
    let text = ".L...|.R..r|l....";
    let pos = SkiJumps::parse(text).unwrap();
    assert_eq!(&pos.to_string(), text);
    assert_eq!((pos.width(), pos.height()), (5, 3));
    assert_eq!(pos.get(1, 0), Tile::Left(Skier::Jumper));
    assert_eq!(pos.get(1, 1), Tile::Right(Skier::Jumper));
    assert_eq!(pos.get(4, 1), Tile::Right(Skier::Slipper));
    assert_eq!(pos.get(0, 2), Tile::Left(Skier::Slipper));
    assert_eq!(pos.get(0, 0), Tile::Empty);
    assert!(SkiJumps::parse(".L|.").is_none());
    assert!(SkiJumps::parse(".X").is_none());
    assert!(SkiJumps::parse("").is_none());
    assert!(SkiJumps::parse(&".".repeat(256)).is_none());
    assert!(SkiJumps::parse(&".".repeat(255)).is_some());
}

#[test]
fn ski_jumps_new_from_grid() {
    let mut grid = VecGrid::new(3, 2, Tile::Empty);
    grid.set(0, 0, Tile::Left(Skier::Jumper));
    grid.set(0, 1, Tile::Right(Skier::Slipper));
    let pos = SkiJumps::new(grid);
    assert_eq!(&pos.to_string(), "L..|r..");
    assert!(pos.jump_available());
}

#[test]
fn ski_jumps_jump_available() {
    assert!(SkiJumps::parse("L....|....R").unwrap().jump_available());
    assert!(SkiJumps::parse("....R|L....").unwrap().jump_available());
    assert!(SkiJumps::parse("l...R|L...r").unwrap().jump_available());
    assert!(!SkiJumps::parse("l....|....R").unwrap().jump_available());
    assert!(!SkiJumps::parse("L....|....L").unwrap().jump_available());
    assert!(!SkiJumps::parse("....R|L....|.....").unwrap().jump_available() == false);
    assert!(!SkiJumps::parse("L...R").unwrap().jump_available());
    assert!(!SkiJumps::parse(".....|L....|.....|....R").unwrap().jump_available());
}

fn texts(moves: Vec<SkiJumps>) -> Vec<String> {
    moves.iter().map(|m| m.to_string()).collect()
}

#[test]
fn ski_jumps_left_moves() {
    let pos = SkiJumps::parse(".L.r|.R..").unwrap();
    assert_eq!(
        texts(pos.left_moves()),
        vec!["..Lr|.R..".to_string(), "...r|.r..".to_string()]
    );
    let pos = SkiJumps::parse("..L|...|...").unwrap();
    assert_eq!(texts(pos.left_moves()), vec!["...|...|...".to_string()]);
    let pos = SkiJumps::parse("L..|R..|l..").unwrap();
    assert_eq!(
        texts(pos.left_moves()),
        vec![
            ".L.|R..|l..".to_string(),
            "..L|R..|l..".to_string(),
            "...|R..|l..".to_string(),
            "...|r..|L..".to_string(),
            "L..|R..|.l.".to_string(),
            "L..|R..|..l".to_string(),
            "L..|R..|...".to_string(),
        ]
    );
}

#[test]
fn ski_jumps_right_moves() {
    let pos = SkiJumps::parse("l.R.|..L.").unwrap();
    assert_eq!(
        texts(pos.right_moves()),
        vec!["lR..|..L.".to_string(), "l...|..l.".to_string()]
    );
    let pos = SkiJumps::parse("r..|...").unwrap();
    assert_eq!(texts(pos.right_moves()), vec!["...|...".to_string()]);
}

#[test]
fn ski_jumps_reductions() {
    assert_eq!(
        SkiJumps::parse("...L....|........|..R.....")
            .unwrap()
            .reductions(),
        Some(2)
    );
    assert_eq!(
        SkiJumps::parse("...L....|..R.....|........")
            .unwrap()
            .reductions(),
        None
    );
    assert_eq!(
        SkiJumps::parse(".L...|.R...|.....").unwrap().reductions(),
        None
    );
    assert_eq!(SkiJumps::parse("...|...").unwrap().reductions(), Some(0));
    assert_eq!(SkiJumps::parse("l..|..r").unwrap().reductions(), Some(0));
}

#[test]
fn picture_has_a_letter_for_every_skier_and_the_lines_of_the_grid() {
    let position = SkiJumps::parse("L..|.r.").unwrap();
    let picture = position.picture();
    assert_eq!(picture.width, 3 * 48 + 4);
    assert_eq!(picture.height, 3 * 48 + 4);
    assert_eq!(
        picture.labels,
        vec![
            Label { x: 26, y: 30, text: 'L' },
            Label { x: 74, y: 78, text: 'r' },
        ]
    );
    assert_eq!(picture.strokes.len(), 3 + 4);
    assert_eq!(
        picture.strokes[1],
        Stroke { x1: 0, y1: 50, x2: 148, y2: 50, width: 4 }
    );
    assert_eq!(
        picture.strokes[3],
        Stroke { x1: 2, y1: 0, x2: 2, y2: 100, width: 4 }
    );
    assert_eq!(
        picture.strokes[6],
        Stroke { x1: 146, y1: 0, x2: 146, y2: 100, width: 4 }
    );
}

#[test]
fn svg_holds_the_letters_and_the_lines() {
    let position = SkiJumps::parse("L.").unwrap();
    assert_eq!(
        position.to_svg(),
        "<svg xmlns=\"http://www.w3.org/2000/svg\" width=\"100\" height=\"100\">\
         <text text-anchor=\"middle\" x=\"26\" y=\"30\">L</text>\
         <g stroke=\"black\">\
         <line x1=\"0\" y1=\"2\" x2=\"100\" y2=\"2\" stroke-width=\"4\"/>\
         <line x1=\"0\" y1=\"50\" x2=\"100\" y2=\"50\" stroke-width=\"4\"/>\
         <line x1=\"2\" y1=\"0\" x2=\"2\" y2=\"52\" stroke-width=\"4\"/>\
         <line x1=\"50\" y1=\"0\" x2=\"50\" y2=\"52\" stroke-width=\"4\"/>\
         <line x1=\"98\" y1=\"0\" x2=\"98\" y2=\"52\" stroke-width=\"4\"/>\
         </g></svg>"
    );
}

#[test]
fn moves_come_in_the_order_of_the_tiles_slides_before_the_jump() {
    let position = SkiJumps::parse("L|R|.").unwrap();
    let moves: Vec<String> = position.left_moves().iter().map(|m| m.to_string()).collect();
    assert_eq!(moves, vec![".|R|.", ".|r|L"]);
    let row = SkiJumps::parse("L..|R..").unwrap();
    let moves: Vec<String> = row.left_moves().iter().map(|m| m.to_string()).collect();
    assert_eq!(moves, vec![".L.|R..", "..L|R..", "...|R..", "...|r.."]);
}
