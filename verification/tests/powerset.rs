use rpn_logic::powerset;

fn subsets(set: Vec<i32>) -> Vec<Vec<i32>> {
    match powerset(set) {
        Ok(v) => v,
        Err(_) => panic!("Error: Set with duplicate numbers"),
    }
}

#[test]
fn set_of_positive_numbers_test() {
    assert_eq!(
        vec![
            vec![],
            vec![1],
            vec![1, 2],
            vec![1, 2, 3],
            vec![1, 3],
            vec![2],
            vec![2, 3],
            vec![3],
        ],
        subsets(vec![1, 2, 3])
    );
    assert_eq!(
        vec![
            vec![],
            vec![1],
            vec![1, 2],
            vec![1, 2, 3],
            vec![1, 2, 3, 4],
            vec![1, 2, 4],
            vec![1, 3],
            vec![1, 3, 4],
            vec![1, 4],
            vec![2],
            vec![2, 3],
            vec![2, 3, 4],
            vec![2, 4],
            vec![3],
            vec![3, 4],
            vec![4],
        ],
        subsets(vec![1, 2, 3, 4])
    );
    assert_eq!(
        vec![vec![], vec![1000], vec![1000, 2000], vec![2000]],
        subsets(vec![1000, 2000])
    );
}

#[test]
fn set_of_negative_numbers_test() {
    assert_eq!(
        vec![vec![], vec![-1], vec![-1, -2], vec![-2]],
        subsets(vec![-1, -2])
    );
    assert_eq!(
        vec![vec![], vec![-1000], vec![-1000, -2000], vec![-2000]],
        subsets(vec![-1000, -2000])
    );
}

#[test]
fn set_of_mixed_numbers_test() {
    assert_eq!(
        vec![vec![], vec![1], vec![1, -1], vec![-1]],
        subsets(vec![1, -1])
    );
    assert_eq!(
        vec![
            vec![],
            vec![1],
            vec![1, -2],
            vec![1, -2, 3],
            vec![1, 3],
            vec![-2],
            vec![-2, 3],
            vec![3],
        ],
        subsets(vec![1, -2, 3])
    );
}

#[test]
fn empty_set_test() {
    let expec: Vec<Vec<i32>> = vec![vec![]];
    assert_eq!(expec, subsets(vec![]));
}

#[test]
fn set_of_one_element_test() {
    assert_eq!(vec![vec![], vec![0]], subsets(vec![0]));
    assert_eq!(vec![vec![], vec![1]], subsets(vec![1]));
}

#[test]
#[should_panic(expected = "Error: Set with duplicate numbers")]
fn set_with_one_duplicate_element_test() {
    subsets(vec![1, 1, 3]);
}

#[test]
#[should_panic(expected = "Error: Set with duplicate numbers")]
fn set_with_more_then_one_duplicate_element_test() {
    subsets(vec![1, 1, 3, 3]);
}
