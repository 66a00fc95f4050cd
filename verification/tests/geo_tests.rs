use map_service::{distance, distance_t, travel_time_ms, u64_parse, Kmh, TransportKind};

#[test]
fn speed_constants() {
    assert_eq!(TransportKind::Foot.get_speed().0, 5);
    assert_eq!(TransportKind::Car.get_speed().0, 50);
    assert!(TransportKind::Foot.is_foot());
    assert!(!TransportKind::Foot.is_car());
    assert!(TransportKind::Car.is_car());
    assert!(!TransportKind::Car.is_foot());
}

#[test]
fn travel_time_exact_values() {
    // 5 km/h is 5/36 cm per ms: 100 cm takes 720 ms.
    assert_eq!(travel_time_ms(100, Kmh(5)), 720);
    assert_eq!(travel_time_ms(200, Kmh(5)), 1440);
    assert_eq!(travel_time_ms(452, Kmh(5)), 3254);
    // 50 km/h: 452 cm takes 325.44 ms, rounded down.
    assert_eq!(travel_time_ms(452, Kmh(50)), 325);
    assert_eq!(travel_time_ms(0, Kmh(5)), 0);
    // Rounding to the nearest millisecond: 7 cm at 50 km/h is 5.04 ms.
    assert_eq!(travel_time_ms(7, Kmh(50)), 5);
}

#[test]
fn distance_zero_for_equal_points() {
    assert_eq!(distance(0, 0, 0, 0), 0);
    assert_eq!(distance(123_456_789, -987_654_321, 123_456_789, -987_654_321), 0);
}

#[test]
fn distance_one_hundredth_degree_latitude() {
    // 0.01 degrees of latitude is about 1.112 km on a 6371.302 km sphere.
    let d = distance(0, 0, 100_000, 0);
    assert!(d > 111_000 && d < 111_400, "got {}", d);
}

#[test]
fn distance_longitude_shrinks_with_latitude() {
    // 0.01 degrees of longitude at the equator vs at 60 degrees north:
    // the second is about half the first.
    let eq = distance(0, 0, 0, 100_000);
    let north = distance(600_000_000, 0, 600_000_000, 100_000);
    assert!(eq > 111_000 && eq < 111_400, "got {}", eq);
    assert!(north > 54_000 && north < 57_500, "got {}", north);
}

#[test]
fn distance_is_symmetric() {
    let a = (425_000_000i64, -785_000_000i64);
    let b = (426_000_000i64, -784_000_000i64);
    assert_eq!(distance(a.0, a.1, b.0, b.1), distance(b.0, b.1, a.0, a.1));
}

#[test]
fn distance_t_converts_at_speed() {
    let cm = distance(0, 0, 100_000, 0);
    let expect_foot = travel_time_ms(cm, Kmh(5));
    let expect_car = travel_time_ms(cm, Kmh(50));
    assert_eq!(distance_t(0, 0, 100_000, 0, Kmh(5)), expect_foot);
    assert_eq!(distance_t(0, 0, 100_000, 0, Kmh(50)), expect_car);
    assert!(expect_car < expect_foot);
}

#[test]
fn parse_decimal_digits() {
    assert_eq!(u64_parse(b"0"), 0);
    assert_eq!(u64_parse(b"12345"), 12345);
    assert_eq!(u64_parse(b"0042"), 42);
    assert_eq!(u64_parse(b"18446744073709551615"), u64::MAX);
}
