use samply_mcp::binary64::Binary64;
use samply_mcp::order::listing_order;

fn number(value: f64) -> Binary64 {
    Binary64 {
        bits: value.to_bits(),
    }
}

#[test]
fn largest_key_comes_first() {
    assert_eq!(listing_order(&vec![3, 9, 5]), vec![1, 2, 0]);
}

#[test]
fn equal_keys_stay_in_order() {
    assert_eq!(listing_order(&vec![5, 7, 5, 7, 5]), vec![1, 3, 0, 2, 4]);
}

#[test]
fn nothing_is_listed_of_nothing() {
    assert_eq!(listing_order(&vec![]), Vec::<usize>::new());
}

#[test]
fn listings_agree_with_a_stable_sort() {
    let keys: Vec<u64> = vec![4, 1, 4, 9, 0, 9, 2, 4, 7, 1];
    let mut sorted: Vec<usize> = (0..keys.len()).collect();
    sorted.sort_by(|a, b| keys[*b].cmp(&keys[*a]));
    assert_eq!(listing_order(&keys), sorted);
}

#[test]
fn numbers_are_ordered_as_floats_are() {
    let values = vec![
        f64::NEG_INFINITY,
        -1.5e300,
        -2.0,
        -1.0,
        -f64::MIN_POSITIVE,
        -0.0,
        0.0,
        5e-324,
        1.0,
        1.0000000000000002,
        99.5,
        f64::MAX,
        f64::INFINITY,
        f64::NAN,
        -f64::NAN,
    ];
    for a in &values {
        for b in &values {
            assert_eq!(number(*a).reaches(number(*b)), a >= b);
            if !a.is_nan() && !b.is_nan() {
                assert_eq!(number(*a).order_key() < number(*b).order_key(), a < b);
            }
        }
        assert_eq!(number(*a).is_nan(), a.is_nan());
    }
}

#[test]
fn both_zeros_are_at_the_same_place() {
    assert_eq!(number(0.0).order_key(), number(-0.0).order_key());
    assert_eq!(number(0.0).order_key(), 0x8000_0000_0000_0000);
    assert_eq!(number(-1.0).order_key(), 0x8000_0000_0000_0000 - 0x3FF0_0000_0000_0000);
}
