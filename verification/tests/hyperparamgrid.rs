use serenade::hyperparameter::choices::{convert_string_to_vec_i32, parse_whole_number};
use serenade::hyperparameter::hyperparamgrid::HyperParamGrid;

fn value_of(combination: &Vec<(String, usize)>, name: &str) -> Option<usize> {
    combination.iter().find(|(key, _)| key == name).map(|(_, value)| *value)
}

fn five_by_five_by_five() -> HyperParamGrid {
    let mut param_grid = Vec::new();
    param_grid.push(("sample_size".to_string(), vec![500, 750, 1000, 2500, 5000]));
    param_grid.push(("k".to_string(), vec![50, 100, 500, 1000, 1500]));
    param_grid.push(("last_items_in_session".to_string(), vec![1, 2, 3, 5, 10]));
    HyperParamGrid { param_grid }
}

#[test]
fn should_get_expected_results() {
    let mut param_grid = Vec::new();
    param_grid.push(("sample_size".to_string(), vec![1000]));
    param_grid.push(("k".to_string(), vec![500]));
    param_grid.push(("last_items_in_session".to_string(), vec![10]));

    let hyper_parametergrid = HyperParamGrid { param_grid };
    let random_parameter_values = hyper_parametergrid.get_all_combinations();
    assert_eq!(1, random_parameter_values.len());
    let hyperparameters = random_parameter_values[0].clone();
    assert_eq!(1000, value_of(&hyperparameters, "sample_size").unwrap().clone());
    assert_eq!(500, value_of(&hyperparameters, "k").unwrap().clone());
    assert_eq!(
        10,
        value_of(&hyperparameters, "last_items_in_session")
            .unwrap()
            .clone()
    );
}

#[test]
fn should_determine_qty_combinations() {
    let hyper_parametergrid = five_by_five_by_five();
    assert_eq!(5 * 5 * 5, hyper_parametergrid.get_qty_combinations());
}

#[test]
fn should_get_all_combinations() {
    let hyper_parametergrid = five_by_five_by_five();
    let combinations = hyper_parametergrid.get_all_combinations();
    assert_eq!(5 * 5 * 5, combinations.len());
    assert_eq!(3, combinations.get(0).unwrap().len());
}

#[test]
fn should_get_n_random_combinations() {
    let hyper_parametergrid = five_by_five_by_five();
    let combinations = hyper_parametergrid.get_n_random_combinations(100000000);
    assert_eq!(5 * 5 * 5, combinations.len());

    let n_random_combinations = hyper_parametergrid.get_n_random_combinations(10);
    assert_eq!(10, n_random_combinations.len());
}

#[test]
fn combinations_follow_the_grid_order_last_list_fastest() {
    let mut param_grid = Vec::new();
    param_grid.push(("a".to_string(), vec![1, 2]));
    param_grid.push(("b".to_string(), vec![10, 20, 30]));
    let grid = HyperParamGrid { param_grid };
    let all = grid.get_all_combinations();
    let values: Vec<(usize, usize)> = all.iter().map(|c| (c[0].1, c[1].1)).collect();
    assert_eq!(vec![(1, 10), (1, 20), (1, 30), (2, 10), (2, 20), (2, 30)], values);
    for combination in all.iter() {
        assert_eq!("a", combination[0].0);
        assert_eq!("b", combination[1].0);
    }
}

#[test]
fn cartesian_product_of_no_list_or_of_an_empty_list_is_empty() {
    let none: Vec<Vec<usize>> = Vec::new();
    assert_eq!(0, HyperParamGrid::cartesian_product(&none).len());
    let with_empty = vec![vec![1, 2], vec![], vec![3]];
    assert_eq!(0, HyperParamGrid::cartesian_product(&with_empty).len());
    let single = vec![vec![4, 5, 6]];
    assert_eq!(vec![vec![4], vec![5], vec![6]], HyperParamGrid::cartesian_product(&single));
}

#[test]
fn quantity_restarts_after_an_empty_list() {
    let mut param_grid = Vec::new();
    param_grid.push(("a".to_string(), vec![]));
    param_grid.push(("b".to_string(), vec![10, 20, 30]));
    let grid = HyperParamGrid { param_grid };
    assert_eq!(3, grid.get_qty_combinations());
    assert_eq!(0, grid.get_all_combinations().len());
    let empty = HyperParamGrid { param_grid: Vec::new() };
    assert_eq!(0, empty.get_qty_combinations());
}

#[test]
fn random_combinations_are_distinct_combinations_of_the_grid() {
    let grid = five_by_five_by_five();
    let all = grid.get_all_combinations();
    let picked = grid.get_n_random_combinations(40);
    assert_eq!(40, picked.len());
    for (i, combination) in picked.iter().enumerate() {
        assert!(all.contains(combination));
        for other in picked.iter().skip(i + 1) {
            assert_ne!(combination, other);
        }
    }
}

#[test]
fn random_combinations_come_in_a_shuffled_order() {
    let grid = five_by_five_by_five();
    let all = grid.get_all_combinations();
    let mut moved = false;
    for _ in 0..8 {
        if grid.get_n_random_combinations(125) != all {
            moved = true;
        }
    }
    assert!(moved);
}

#[test]
fn choices_are_whole_numbers_between_commas() {
    assert_eq!(Some(vec![100, 500, 1000]), convert_string_to_vec_i32(b"[100, 500, 1000]"));
    assert_eq!(Some(vec![1, -2, 3]), convert_string_to_vec_i32(b" 1,-2 ,\t+3\n"));
    assert_eq!(Some(vec![12]), convert_string_to_vec_i32(b"[1 2]"));
    assert_eq!(Some(vec![i32::MAX, i32::MIN]), convert_string_to_vec_i32(b"2147483647,-2147483648"));
    assert_eq!(None, convert_string_to_vec_i32(b"2147483648"));
    assert_eq!(None, convert_string_to_vec_i32(b"-2147483649"));
    assert_eq!(None, convert_string_to_vec_i32(b"[]"));
    assert_eq!(None, convert_string_to_vec_i32(b""));
    assert_eq!(None, convert_string_to_vec_i32(b"1,,2"));
    assert_eq!(None, convert_string_to_vec_i32(b"1,2,"));
    assert_eq!(None, convert_string_to_vec_i32(b"1,x"));
    assert_eq!(None, convert_string_to_vec_i32(b"1.5"));
    assert_eq!(Some(-7), parse_whole_number(b"-7"));
    assert_eq!(None, parse_whole_number(b"-"));
    assert_eq!(None, parse_whole_number(b"--7"));
}
