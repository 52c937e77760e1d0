use latin_squares::cycles::generate_cycle_structures;

const CYCLE_STRUCTURES: [&[&[usize]]; 12] = [
    &[&[0]],
    &[&[1]],
    &[&[2]],
    &[&[3]],
    &[&[2, 2], &[4]],
    &[&[2, 3], &[5]],
    &[&[2, 2, 2], &[2, 4], &[3, 3], &[6]],
    &[&[2, 2, 3], &[2, 5], &[3, 4], &[7]],
    &[
        &[2, 2, 2, 2],
        &[2, 2, 4],
        &[2, 3, 3],
        &[2, 6],
        &[3, 5],
        &[4, 4],
        &[8],
    ],
    &[
        &[2, 2, 2, 3],
        &[2, 2, 5],
        &[2, 3, 4],
        &[2, 7],
        &[3, 3, 3],
        &[3, 6],
        &[4, 5],
        &[9],
    ],
    &[
        &[2, 2, 2, 2, 2],
        &[2, 2, 2, 4],
        &[2, 2, 3, 3],
        &[2, 2, 6],
        &[2, 3, 5],
        &[2, 4, 4],
        &[2, 8],
        &[3, 3, 4],
        &[3, 7],
        &[4, 6],
        &[5, 5],
        &[10],
    ],
    &[
        &[2, 2, 2, 2, 3],
        &[2, 2, 2, 5],
        &[2, 2, 3, 4],
        &[2, 2, 7],
        &[2, 3, 3, 3],
        &[2, 3, 6],
        &[2, 4, 5],
        &[2, 9],
        &[3, 3, 5],
        &[3, 4, 4],
        &[3, 8],
        &[4, 7],
        &[5, 6],
        &[11],
    ],
];

const MAIN_CLASS_CYCLE_STRUCTURES: [&[&[usize]]; 11] = [
    &[&[0]],
    &[&[1]],
    &[&[2]],
    &[&[3]],
    &[&[2, 2], &[4]],
    &[&[2, 3], &[5]],
    &[&[2, 2, 2], &[2, 4], &[3, 3], &[6]],
    &[&[2, 2, 3], &[2, 5], &[3, 4], &[7]],
    &[
        &[2, 2, 2, 2],
        &[2, 2, 4],
        &[2, 3, 3],
        &[2, 6],
        &[3, 5],
        &[4, 4],
        &[8],
    ],
    &[
        &[2, 2, 2, 3],
        &[2, 2, 5],
        &[2, 3, 4],
        &[2, 7],
        &[3, 3, 3],
        &[3, 6],
        &[4, 5],
        &[9],
    ],
    &[
        &[2, 2, 2, 2, 2],
        &[2, 2, 2, 4],
        &[2, 2, 3, 3],
        &[2, 2, 6],
        &[2, 3, 5],
        &[2, 4, 4],
        &[2, 8],
        &[3, 3, 4],
        &[3, 7],
        &[4, 6],
        &[5, 5],
        &[10],
    ],
];

fn check_small_structures() {
    assert_eq!(generate_cycle_structures(3), vec![vec![3]]);
    assert_eq!(generate_cycle_structures(4), vec![vec![2, 2], vec![4]]);
    assert_eq!(generate_cycle_structures(5), vec![vec![2, 3], vec![5]]);
    assert_eq!(
        generate_cycle_structures(6),
        vec![vec![2, 2, 2], vec![2, 4], vec![3, 3], vec![6]]
    );
    assert_eq!(
        generate_cycle_structures(7),
        vec![vec![2, 2, 3], vec![2, 5], vec![3, 4], vec![7]]
    );
    assert_eq!(
        generate_cycle_structures(8),
        vec![
            vec![2, 2, 2, 2],
            vec![2, 2, 4],
            vec![2, 3, 3],
            vec![2, 6],
            vec![3, 5],
            vec![4, 4],
            vec![8]
        ]
    );
}

#[test]
fn cycles_cycle_structures() {
    check_small_structures();
}

#[test]
fn cycles_check_table() {
    for i in 0..CYCLE_STRUCTURES.len() {
        assert_eq!(generate_cycle_structures(i), CYCLE_STRUCTURES[i]);
    }
}

#[test]
fn main_class_generator_cycle_structures() {
    check_small_structures();
}

#[test]
fn main_class_generator_check_table() {
    for i in 0..MAIN_CLASS_CYCLE_STRUCTURES.len() {
        assert_eq!(generate_cycle_structures(i), MAIN_CLASS_CYCLE_STRUCTURES[i]);
    }
}

#[test]
fn cycle_structures_parts_sum_to_n() {
    for n in 2..12 {
        for c in generate_cycle_structures(n) {
            assert_eq!(c.iter().sum::<usize>(), n);
            assert!(c.iter().all(|&k| k >= 2));
        }
    }
}
