use itertools::Itertools;
use rupert_gui::choices::{count_choices, index_choices, MAX_CHOICES};

fn digits(mut k: usize, m: usize, n: usize) -> Vec<usize> {
    let mut out = vec![0; n];
    for i in (0..n).rev() {
        out[i] = k % m;
        k /= m;
    }
    out
}

#[test]
fn three_vertices_on_three_edges_give_twenty_seven_choices() {
    let table = index_choices(3, 3).unwrap();
    assert_eq!(table.len(), 27);
    assert_eq!(table[0], vec![0, 0, 0]);
    assert_eq!(table[1], vec![0, 0, 1]);
    assert_eq!(table[2], vec![0, 0, 2]);
    assert_eq!(table[3], vec![0, 1, 0]);
    assert_eq!(table[5], vec![0, 1, 2]);
    assert_eq!(table[9], vec![1, 0, 0]);
    assert_eq!(table[26], vec![2, 2, 2]);
}

#[test]
fn four_vertices_on_three_edges_give_sixty_four_choices() {
    let table = index_choices(4, 3).unwrap();
    assert_eq!(table.len(), 64);
    assert_eq!(table[63], vec![3, 3, 3]);
    assert_eq!(table[27], vec![1, 2, 3]);
}

#[test]
fn the_choice_at_a_position_spells_the_position() {
    for (m, n) in [(2usize, 5usize), (3, 3), (4, 3), (5, 2), (7, 1), (1, 4)] {
        let table = index_choices(m, n).unwrap();
        assert_eq!(table.len(), m.pow(n as u32));
        for (k, choice) in table.iter().enumerate() {
            assert_eq!(choice, &digits(k, m, n), "m {m} n {n} k {k}");
        }
    }
}

#[test]
fn every_component_is_a_vertex_index() {
    let table = index_choices(4, 3).unwrap();
    for choice in &table {
        assert_eq!(choice.len(), 3);
        for &j in choice {
            assert!(j < 4);
        }
    }
}

#[test]
fn no_choice_occurs_twice_and_none_is_missing() {
    let table = index_choices(4, 3).unwrap();
    assert!(table.iter().all_unique());
    for a in 0..4 {
        for b in 0..4 {
            for c in 0..4 {
                let choice = vec![a, b, c];
                let k = (a * 4 + b) * 4 + c;
                assert_eq!(table[k], choice);
            }
        }
    }
}

#[test]
fn the_choices_are_in_lexicographic_order() {
    let table = index_choices(3, 3).unwrap();
    for k in 1..table.len() {
        assert!(table[k - 1] < table[k]);
    }
}

#[test]
fn no_edges_give_the_one_empty_choice() {
    let empty: Vec<usize> = Vec::new();
    assert_eq!(index_choices(3, 0), Some(vec![empty.clone()]));
    assert_eq!(index_choices(0, 0), Some(vec![empty]));
    assert_eq!(count_choices(3, 0), Some(1));
    assert_eq!(count_choices(0, 0), Some(1));
}

#[test]
fn no_vertices_give_no_choice() {
    assert_eq!(index_choices(0, 3), Some(Vec::new()));
    assert_eq!(count_choices(0, 3), Some(0));
}

#[test]
fn one_vertex_gives_one_choice() {
    assert_eq!(index_choices(1, 3), Some(vec![vec![0, 0, 0]]));
    assert_eq!(count_choices(1, 3), Some(1));
}

#[test]
fn count_is_the_power() {
    assert_eq!(count_choices(3, 3), Some(27));
    assert_eq!(count_choices(4, 3), Some(64));
    assert_eq!(count_choices(5, 3), Some(125));
    assert_eq!(count_choices(10, 6), Some(1_000_000));
    assert_eq!(count_choices(2, 20), Some(1 << 20));
    assert_eq!(count_choices(1024, 2), Some(1 << 20));
    assert_eq!(count_choices(1, MAX_CHOICES), Some(1));
    assert_eq!(count_choices(0, MAX_CHOICES), Some(0));
}

#[test]
fn count_stops_at_the_limit() {
    assert_eq!(MAX_CHOICES, 1 << 20);
    assert_eq!(count_choices(2, 21), None);
    assert_eq!(count_choices(1025, 2), None);
    assert_eq!(count_choices(102, 3), None);
    assert_eq!(count_choices(101, 3), Some(1_030_301));
    assert_eq!(count_choices(usize::MAX, 2), None);
    assert_eq!(count_choices(usize::MAX, usize::MAX), None);
    assert_eq!(count_choices(1, MAX_CHOICES + 1), None);
    assert_eq!(count_choices(0, MAX_CHOICES + 1), None);
}

#[test]
fn no_table_beyond_the_limit() {
    assert_eq!(index_choices(2, 21), None);
    assert_eq!(index_choices(102, 3), None);
    assert_eq!(index_choices(1, MAX_CHOICES + 1), None);
    assert_eq!(index_choices(usize::MAX, 3), None);
}

#[test]
fn the_table_is_the_same_every_time() {
    assert_eq!(index_choices(4, 3), index_choices(4, 3));
}
