use dlx::knapsack::{knapsack_dp, knapsack_naive, Item};

fn items() -> Vec<Item> {
    vec![
        Item { value: 1, volume: 1 },
        Item { value: 60, volume: 10 },
        Item { value: 100, volume: 20 },
        Item { value: 120, volume: 30 },
    ]
}

#[test]
fn knapsack_dp_best_value() {
    let (chosen, value) = knapsack_dp(50, &items());
    assert_eq!(220, value);
    assert_eq!(vec![2, 3], chosen);
}

#[test]
fn knapsack_dp_never_takes_the_first_item() {
    let (chosen, value) = knapsack_dp(1, &items());
    assert_eq!(0, value);
    assert!(chosen.is_empty());
}

#[test]
fn knapsack_dp_small_volume() {
    let (chosen, value) = knapsack_dp(25, &items());
    assert_eq!(100, value);
    assert_eq!(vec![2], chosen);
}

#[test]
fn knapsack_naive_takes_nothing() {
    assert_eq!((vec![], 0), knapsack_naive(50, &items()));
    assert_eq!((vec![], 0), knapsack_naive(0, &items()));
}
