use cgt::numeric::nimber::Nimber;
use cgt::short::impartial::games::quicksort::Quicksort;

#[test]
fn mex_of_nothing_is_zero() {
    assert_eq!(Nimber::mex(vec![]), Nimber(0));
}

#[test]
fn mex_is_the_least_missing_value() {
    assert_eq!(Nimber::mex(vec![Nimber(0), Nimber(1), Nimber(3)]), Nimber(2));
    assert_eq!(Nimber::mex(vec![Nimber(1), Nimber(2)]), Nimber(0));
    assert_eq!(Nimber::mex(vec![Nimber(2), Nimber(0), Nimber(1), Nimber(0)]), Nimber(3));
}

#[test]
fn nimbers_add_without_carry() {
    assert_eq!(Nimber(5).add(&Nimber(3)), Nimber(6));
    assert_eq!(Nimber(7).add(&Nimber(7)), Nimber(0));
    assert_eq!(Nimber(0).add(&Nimber(9)), Nimber(9));
}

#[test]
fn nimbers_print_with_a_star() {
    assert_eq!(Nimber(0).to_string(), "0");
    assert_eq!(Nimber(1).to_string(), "*");
    assert_eq!(Nimber(4).to_string(), "*4");
}

#[test]
fn sorted_sequence_has_no_moves() {
    let position = Quicksort(vec![1, 2, 3, 4]);
    assert!(position.moves().is_empty());
    assert_eq!(position.game(), Nimber(0));
}

#[test]
fn quicksort_moves_sort_around_each_pivot_once() {
    let position = Quicksort(vec![3, 1, 2]);
    assert_eq!(
        position.moves(),
        vec![Quicksort(vec![1, 2, 3]), Quicksort(vec![1, 3, 2])]
    );
    let swapped = Quicksort(vec![2, 1]);
    assert_eq!(swapped.moves(), vec![Quicksort(vec![1, 2])]);
}

#[test]
fn quicksort_pivot_drops_its_equals() {
    let position = Quicksort(vec![2, 1, 2]);
    assert_eq!(
        position.moves(),
        vec![Quicksort(vec![1, 2]), Quicksort(vec![1, 2, 2])]
    );
    assert_eq!(Quicksort(vec![1, 2, 2]).moves(), vec![Quicksort(vec![1, 2])]);
    assert_eq!(position.game(), Nimber(2));
}

#[test]
fn quicksort_values() {
    assert_eq!(Quicksort(vec![]).game(), Nimber(0));
    assert_eq!(Quicksort(vec![2, 1]).game(), Nimber(1));
    assert_eq!(Quicksort(vec![1, 3, 2]).game(), Nimber(1));
    assert_eq!(Quicksort(vec![3, 1, 2]).game(), Nimber(2));
    assert_eq!(Quicksort(vec![3, 2, 1]).game(), Nimber(2));
}

#[test]
fn quicksort_prints_its_numbers() {
    assert_eq!(Quicksort(vec![3, 1, 2]).to_string(), "312");
    assert_eq!(Quicksort(vec![10, 2]).to_string(), "102");
}
