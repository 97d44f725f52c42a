use osm_graph::tick::Tick;
use rand::{SeedableRng, XorShiftRng};

#[test]
fn time_parsing() {
    assert_eq!(Tick::parse("2.3"), Some(Tick(23)));
    assert_eq!(Tick::parse("02.3"), Some(Tick(23)));
    assert_eq!(Tick::parse("00:00:02.3"), Some(Tick(23)));

    assert_eq!(Tick::parse("00:02:03.5"), Some(Tick(35 + 1200)));
    assert_eq!(Tick::parse("01:02:03.5"), Some(Tick(35 + 1200 + 36000)));
}

#[test]
fn parse_whole_seconds_and_minutes() {
    assert_eq!(Tick::parse("5"), Some(Tick(50)));
    assert_eq!(Tick::parse("1:05"), Some(Tick(650)));
    assert_eq!(Tick::parse("+7"), Some(Tick(70)));
}

#[test]
fn parse_rejects_other_shapes() {
    assert_eq!(Tick::parse(""), None);
    assert_eq!(Tick::parse("a"), None);
    assert_eq!(Tick::parse("1:2:3:4"), None);
    assert_eq!(Tick::parse("1.2.3"), None);
    assert_eq!(Tick::parse("-1"), None);
    assert_eq!(Tick::parse("+"), None);
    assert_eq!(Tick::parse("200000:00:00"), None);
}

#[test]
fn parts_and_names() {
    let t = Tick(36000 + 1200 + 35);
    assert_eq!(t.get_parts(), (1, 2, 3, 5));
    assert_eq!(t.as_filename(), "01h02m03.5s");
    assert_eq!(t.as_clock_string(), "01:02:03.5");
    assert_eq!(Tick(0).as_clock_string(), "00:00:00.0");
    assert_eq!(Tick(100 * 36000).as_filename(), "100h00m00.0s");
}

#[test]
fn constructors_and_arithmetic() {
    assert_eq!(Tick::zero(), Tick(0));
    assert_eq!(Tick::from_minutes(2), Tick(1200));
    assert_eq!(Tick::from_seconds(3), Tick(30));
    assert_eq!(Tick(4).next(), Tick(5));
    assert!(Tick(1200).is_multiple_of(Tick(600)));
    assert!(!Tick(1201).is_multiple_of(Tick(600)));
    let mut t = Tick(10);
    t.add_assign(Tick(5));
    assert_eq!(t, Tick(15));
    assert_eq!(Tick(15).sub(Tick(5)), Tick(10));
}

#[test]
fn uniform_stays_in_range() {
    let mut rng = XorShiftRng::from_seed([7u8; 16]);
    assert_eq!(Tick::uniform(Tick(5), Tick(6), &mut rng), Tick(5));
    let mut seen_other = false;
    for _ in 0..100 {
        let t = Tick::uniform(Tick(10), Tick(1000), &mut rng);
        assert!(Tick(10) <= t && t < Tick(1000));
        if t != Tick(10) {
            seen_other = true;
        }
    }
    assert!(seen_other);
}
