use shut_the_box::dice::get_die_vals;
use shut_the_box::dice::get_roll_counts;
use shut_the_box::dice::get_roll_probabilities;
use shut_the_box::dice::get_roll_probs;
use shut_the_box::dice::RollProbs;

fn lines(table: &RollProbs) -> Vec<(u16, u128)> {
    assert_eq!(table.rolls.len(), table.chances.len());
    table.rolls.iter().map(|roll| (*roll, table.chances[roll])).collect()
}

#[test]
fn two_dice_table() {
    let table = get_roll_probs(&vec![1, 2, 3, 4, 5, 6], 2, 0);
    assert_eq!(table.total, 36);
    assert_eq!(
        lines(&table),
        vec![
            (2, 1),
            (3, 2),
            (4, 3),
            (5, 4),
            (6, 5),
            (7, 6),
            (8, 5),
            (9, 4),
            (10, 3),
            (11, 2),
            (12, 1)
        ]
    );
    assert_eq!(table.chances.get(&7), Some(&6));
    assert_eq!(table.chances.get(&1), None);
    assert_eq!(table.chances.get(&13), None);
    assert_eq!(table.rolls, vec![2, 3, 4, 5, 6, 7, 8, 9, 10, 11, 12]);
}

#[test]
fn one_die_table_is_even() {
    let table = get_roll_probs(&vec![1, 2, 3, 4, 5, 6], 1, 0);
    assert_eq!(table.total, 6);
    assert_eq!(lines(&table), vec![(1, 1), (2, 1), (3, 1), (4, 1), (5, 1), (6, 1)]);
}

#[test]
fn faces_that_stand_twice_count_twice() {
    let table = get_roll_probs(&vec![1, 1, 2], 1, 0);
    assert_eq!(table.total, 3);
    assert_eq!(lines(&table), vec![(1, 2), (2, 1)]);
    let table = get_roll_probs(&vec![1, 1, 2], 2, 0);
    assert_eq!(table.total, 9);
    assert_eq!(lines(&table), vec![(2, 4), (3, 4), (4, 1)]);
}

#[test]
fn counts_add_up_to_total() {
    for (faces, count) in [
        (vec![1u16, 2, 3, 4, 5, 6], 3u16),
        (vec![0, 5, 5, 9], 4),
        (vec![7], 5),
        (vec![2, 4], 1),
    ] {
        let table = get_roll_probs(&faces, count, 0);
        let sum: u128 = table.chances.values().sum();
        assert_eq!(sum, table.total);
        assert_eq!(table.total, (faces.len() as u128).pow(count as u32));
        let chance: f64 =
            table.chances.values().map(|count| *count as f64 / table.total as f64).sum();
        assert!((chance - 1.0).abs() < 1e-9);
    }
}

#[test]
fn roll_counts_list_every_way() {
    assert_eq!(get_roll_counts(&vec![1, 2], 2, 0), vec![2, 3, 3, 4]);
    assert_eq!(get_roll_counts(&vec![1, 2], 0, 5), vec![5]);
    assert_eq!(get_roll_counts(&vec![3], 2, 10), vec![16]);
    assert_eq!(get_roll_counts(&vec![], 2, 0), Vec::<u16>::new());
}

#[test]
fn table_of_listed_sums() {
    let table = get_roll_probabilities(&vec![4, 2, 4, 4, 9]);
    assert_eq!(table.total, 5);
    assert_eq!(lines(&table), vec![(2, 1), (4, 3), (9, 1)]);
    let table = get_roll_probabilities(&vec![]);
    assert_eq!(table.total, 0);
    assert_eq!(lines(&table), vec![]);
    let table = get_roll_probabilities(&vec![65535, 0]);
    assert_eq!(lines(&table), vec![(0, 1), (65535, 1)]);
}

#[test]
fn die_vals_from_range_or_list() {
    assert_eq!(get_die_vals(1, 6, vec![]), vec![1, 2, 3, 4, 5, 6]);
    assert_eq!(get_die_vals(1, 6, vec![2, 2, 8]), vec![2, 2, 8]);
    assert_eq!(get_die_vals(3, 2, vec![]), Vec::<u16>::new());
}
