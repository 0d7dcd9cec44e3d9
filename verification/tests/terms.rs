use phinetwork::phinetwork::{formula, PhiTerm};
use phinetwork::terms::{term_combinations, term_positions};

#[test]
fn two_inputs_give_three_terms() {
    let terms = term_positions(2, 2);
    assert_eq!(terms.len(), 3);
    assert_eq!(terms[2], vec![0, 1]);
}

#[test]
fn three_inputs_give_seven_terms() {
    let terms = term_positions(3, 3);
    assert_eq!(terms.len(), 7);
    assert_eq!(terms[6], vec![0, 1, 2]);
}

#[test]
fn four_inputs_give_fifteen_terms() {
    let terms = term_positions(4, 4);
    assert_eq!(terms.len(), 15);
    assert_eq!(terms[14], vec![0, 1, 2, 3]);
}

#[test]
fn combinations_come_in_lexicographic_order() {
    assert_eq!(
        term_combinations(4, 2),
        vec![
            vec![0, 1],
            vec![0, 2],
            vec![0, 3],
            vec![1, 2],
            vec![1, 3],
            vec![2, 3]
        ]
    );
    assert_eq!(term_combinations(3, 0), vec![Vec::<usize>::new()]);
    assert!(term_combinations(2, 3).is_empty());
}

#[test]
fn degrees_are_capped_by_the_input_count() {
    assert_eq!(term_positions(2, 5).len(), 3);
    assert_eq!(
        term_positions(3, 1),
        vec![vec![0], vec![1], vec![2]]
    );
    assert!(term_positions(0, 2).is_empty());
    assert_eq!(term_combinations(5, 3).len(), 10);
}

#[test]
fn formula_joins_term_names() {
    let terms: Vec<PhiTerm> = term_positions(2, 2)
        .into_iter()
        .map(|input_indices| PhiTerm { input_indices })
        .collect();
    assert_eq!(formula(&terms), "phi(a) + phi(b) + phi(ab)");
    assert_eq!(formula(&Vec::new()), "");
}
