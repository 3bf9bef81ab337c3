use rateio::math::round_price;
use rateio::sequence::SequenceList;
use rateio::types::{Delivery, Load};

fn delivery(danfe: &str, key: &str, to: &str, quantity: u16, price: i64, cubicage: u64) -> Delivery {
    Delivery {
        danfe: vec![danfe.to_string()],
        key: vec![key.to_string()],
        to: to.to_string(),
        quantity,
        price,
        cubicage,
    }
}

fn load_of(deliveries: Vec<Delivery>, total_price: i64) -> Load {
    Load { deliveries, license_plate: "abc1234".to_string(), total_price, total_cubicage: 0 }
}

fn prices(load: &Load) -> Vec<i64> {
    load.deliveries.iter().map(|d| d.price).collect()
}

#[test]
fn round_price_rounds_half_away_from_zero() {
    assert_eq!(round_price(1005, 10), 101);
    assert_eq!(round_price(1004, 10), 100);
    assert_eq!(round_price(1006, 10), 101);
    assert_eq!(round_price(-1005, 10), -101);
    assert_eq!(round_price(-1004, 10), -100);
    assert_eq!(round_price(0, 7), 0);
    assert_eq!(round_price(1, 2), 1);
    assert_eq!(round_price(-1, 2), -1);
    assert_eq!(round_price(1, 3), 0);
    assert_eq!(round_price(2, 3), 1);
}

#[test]
fn round_price_is_stable_under_rounding_again() {
    for numerator in [-1005i128, -7, 0, 3, 1005, 99999] {
        let once = round_price(numerator, 10);
        assert_eq!(round_price(once, 1), once);
    }
}

#[test]
fn round_price_at_the_ends_of_the_range() {
    assert_eq!(round_price(i128::MIN, 1), i128::MIN);
    assert_eq!(round_price(i128::MAX, 1), i128::MAX);
    assert_eq!(round_price(i128::MIN, 2), -(1i128 << 126));
    assert_eq!(round_price(i128::MAX, u64::MAX), 9223372036854775808);
}

#[test]
fn total_cubicage_is_the_sum_of_the_volumes() {
    let mut load = load_of(
        vec![
            delivery("1", "k1", "a", 1, 0, 360),
            delivery("2", "k2", "b", 1, 0, 840),
            delivery("3", "k3", "c", 1, 0, 1080),
        ],
        10000,
    );
    load.calculate_total_cubicage();
    assert_eq!(load.total_cubicage, 2280);

    let mut empty = load_of(vec![], 10000);
    empty.total_cubicage = 5;
    empty.calculate_total_cubicage();
    assert_eq!(empty.total_cubicage, 0);
}

#[test]
fn three_deliveries_share_one_hundred() {
    let mut load = load_of(
        vec![
            delivery("1", "k1", "a", 1, 0, 360),
            delivery("2", "k2", "b", 1, 0, 840),
            delivery("3", "k3", "c", 1, 0, 1080),
        ],
        10000,
    );
    load.calculate_total_cubicage();
    load.calculate_price_for_each_delivery();
    assert_eq!(prices(&load), vec![1579, 3684, 4737]);
    assert_eq!(prices(&load).iter().sum::<i64>(), 10000);
}

#[test]
fn first_delivery_takes_the_remainder() {
    let mut load = load_of(
        vec![
            delivery("1", "k1", "a", 1, 0, 1),
            delivery("2", "k2", "b", 1, 0, 1),
            delivery("3", "k3", "c", 1, 0, 1),
        ],
        100,
    );
    load.calculate_total_cubicage();
    load.calculate_price_for_each_delivery();
    assert_eq!(prices(&load), vec![34, 33, 33]);
}

#[test]
fn first_delivery_can_go_below_zero() {
    let mut load = load_of(
        vec![
            delivery("1", "k1", "a", 1, 0, 0),
            delivery("2", "k2", "b", 1, 0, 1),
            delivery("3", "k3", "c", 1, 0, 1),
        ],
        1,
    );
    load.calculate_total_cubicage();
    load.calculate_price_for_each_delivery();
    assert_eq!(prices(&load), vec![-1, 1, 1]);
    assert_eq!(prices(&load).iter().sum::<i64>(), 1);
}

#[test]
fn negative_total_price_is_shared_symmetrically() {
    let mut load = load_of(
        vec![delivery("1", "k1", "a", 1, 0, 1), delivery("2", "k2", "b", 1, 0, 1)],
        -101,
    );
    load.calculate_total_cubicage();
    load.calculate_price_for_each_delivery();
    assert_eq!(prices(&load), vec![-50, -51]);
}

#[test]
fn load_without_volume_keeps_its_prices() {
    let mut load = load_of(
        vec![delivery("1", "k1", "a", 1, 0, 0), delivery("2", "k2", "b", 1, 0, 0)],
        10000,
    );
    load.calculate_total_cubicage();
    load.calculate_price_for_each_delivery();
    assert_eq!(load.total_cubicage, 0);
    assert_eq!(prices(&load), vec![0, 0]);

    let mut priced = load_of(vec![delivery("1", "k1", "a", 1, 7, 0)], 10000);
    priced.calculate_total_cubicage();
    priced.calculate_price_for_each_delivery();
    assert_eq!(prices(&priced), vec![7]);
}

#[test]
fn huge_values_do_not_overflow() {
    let mut load = load_of(
        vec![
            delivery("1", "k1", "a", 1, 0, u64::MAX / 2),
            delivery("2", "k2", "b", 1, 0, u64::MAX / 2),
        ],
        i64::MAX,
    );
    load.calculate_total_cubicage();
    load.calculate_price_for_each_delivery();
    assert_eq!(prices(&load).iter().map(|p| *p as i128).sum::<i128>(), i64::MAX as i128);

    let mut lowest = load_of(vec![delivery("1", "k1", "a", 1, 0, u64::MAX)], i64::MIN);
    lowest.calculate_total_cubicage();
    lowest.calculate_price_for_each_delivery();
    assert_eq!(prices(&lowest), vec![i64::MIN]);
}

#[test]
fn same_client_is_merged() {
    let mut load = load_of(
        vec![delivery("11", "k1", "X", 1, 1000, 5), delivery("22", "k2", "X", 2, 2000, 7)],
        3000,
    );
    load.concat_bonus();
    assert_eq!(load.deliveries.len(), 1);
    let merged = &load.deliveries[0];
    assert_eq!(merged.to, "X");
    assert_eq!(merged.price, 3000);
    assert_eq!(merged.quantity, 3);
    assert_eq!(merged.cubicage, 12);
    assert_eq!(merged.danfe, vec!["11".to_string(), "22".to_string()]);
    assert_eq!(merged.key, vec!["k1".to_string(), "k2".to_string()]);
}

#[test]
fn merge_keeps_first_seen_order() {
    let mut load = load_of(
        vec![
            delivery("1", "k1", "b", 1, 10, 1),
            delivery("2", "k2", "a", 2, 20, 2),
            delivery("3", "k3", "b", 3, 30, 3),
            delivery("4", "k4", "c", 4, 40, 4),
            delivery("5", "k5", "a", 5, 50, 5),
            delivery("6", "k6", "b", 6, 60, 6),
        ],
        210,
    );
    load.concat_bonus();
    let names: Vec<&str> = load.deliveries.iter().map(|d| d.to.as_str()).collect();
    assert_eq!(names, vec!["b", "a", "c"]);
    assert_eq!(prices(&load), vec![100, 70, 40]);
    assert_eq!(load.deliveries[0].quantity, 10);
    assert_eq!(load.deliveries[0].cubicage, 10);
    assert_eq!(load.deliveries[0].danfe, vec!["1", "3", "6"]);
    assert_eq!(load.deliveries[1].key, vec!["k2", "k5"]);
    assert_eq!(load.license_plate, "abc1234");
    assert_eq!(load.total_price, 210);
}

#[test]
fn merging_twice_changes_nothing() {
    let mut load = load_of(
        vec![
            delivery("1", "k1", "b", 1, 10, 1),
            delivery("2", "k2", "a", 2, 20, 2),
            delivery("3", "k3", "b", 3, 30, 3),
        ],
        60,
    );
    load.concat_bonus();
    let once: Vec<(String, i64, u16, u64, Vec<String>, Vec<String>)> = load
        .deliveries
        .iter()
        .map(|d| (d.to.clone(), d.price, d.quantity, d.cubicage, d.danfe.clone(), d.key.clone()))
        .collect();
    load.concat_bonus();
    let twice: Vec<(String, i64, u16, u64, Vec<String>, Vec<String>)> = load
        .deliveries
        .iter()
        .map(|d| (d.to.clone(), d.price, d.quantity, d.cubicage, d.danfe.clone(), d.key.clone()))
        .collect();
    assert_eq!(once, twice);
}

#[test]
fn merge_that_does_not_fit_is_refused() {
    let mut load = load_of(
        vec![delivery("1", "k1", "a", 40000, 10, 1), delivery("2", "k2", "a", 40000, 20, 2)],
        30,
    );
    assert!(!load.try_concat_bonus());
    assert_eq!(load.deliveries.len(), 2);
    assert_eq!(load.deliveries[0].quantity, 40000);

    let mut fine = load_of(
        vec![delivery("1", "k1", "a", 40000, 10, 1), delivery("2", "k2", "b", 40000, 20, 2)],
        30,
    );
    assert!(fine.try_concat_bonus());
    assert_eq!(fine.deliveries.len(), 2);
}

#[test]
fn update_allocates_then_merges() {
    let mut load = load_of(
        vec![
            delivery("1", "k1", "a", 1, 0, 1),
            delivery("2", "k2", "b", 1, 0, 1),
            delivery("3", "k3", "a", 1, 0, 1),
        ],
        100,
    );
    load.update_load_delivery_data();
    assert_eq!(load.total_cubicage, 3);
    assert_eq!(load.deliveries.len(), 2);
    assert_eq!(prices(&load), vec![67, 33]);
    assert_eq!(load.deliveries[0].cubicage, 2);
    assert_eq!(load.deliveries[0].quantity, 2);
}

#[test]
fn try_update_refuses_what_does_not_fit() {
    let mut load = load_of(
        vec![delivery("1", "k1", "a", 1, 0, u64::MAX), delivery("2", "k2", "b", 1, 0, 1)],
        100,
    );
    assert!(!load.volume_fits());
    assert!(!load.try_update_load_delivery_data());
    assert_eq!(load.total_cubicage, 0);
    assert_eq!(prices(&load), vec![0, 0]);

    let mut many = load_of(
        vec![delivery("1", "k1", "a", 65535, 0, 1), delivery("2", "k2", "a", 1, 0, 1)],
        100,
    );
    assert!(many.volume_fits());
    assert!(!many.try_update_load_delivery_data());
    assert_eq!(many.deliveries.len(), 2);
    assert_eq!(prices(&many), vec![0, 0]);

    let mut fine = load_of(
        vec![delivery("1", "k1", "a", 65534, 0, 1), delivery("2", "k2", "a", 1, 0, 1)],
        100,
    );
    assert!(fine.try_update_load_delivery_data());
    assert_eq!(fine.deliveries.len(), 1);
    assert_eq!(fine.deliveries[0].quantity, 65535);
    assert_eq!(prices(&fine), vec![100]);
}

#[test]
fn sequence_list_orders_by_key() {
    let mut list = SequenceList::new();
    assert_eq!(list.len(), 0);
    assert_eq!(list.loads(), Vec::<u32>::new());
    list.insert(50, 1);
    list.insert(30, 2);
    list.insert(90, 3);
    list.insert(40, 4);
    list.insert(10, 5);
    list.insert(100, 6);
    assert_eq!(list.len(), 6);
    assert_eq!(list.loads(), vec![5, 2, 4, 1, 3, 6]);
}

#[test]
fn sequence_list_puts_equal_keys_in_order_of_arrival() {
    let mut list = SequenceList::new();
    list.insert(7, 1);
    list.insert(7, 2);
    list.insert(3, 3);
    list.insert(7, 4);
    list.insert(9, 5);
    list.insert(3, 6);
    assert_eq!(list.loads(), vec![3, 6, 1, 2, 4, 5]);
}
