use adsb_radar::airports::{lines, nearest, read_airport, split, Reach, TAG_KM};
use adsb_radar::double::Double;

fn num(x: f64) -> Double {
    Double::from_bits(x.to_bits())
}

fn reach(gap: f64, dst: f64) -> Reach {
    Reach { lat_gap_km: num(gap), dst_km: num(dst) }
}

#[test]
fn airport_lines_have_four_fields() {
    let a = read_airport("ORD|Chicago O'Hare|41.9786|-87.9048").unwrap();
    assert_eq!((a.code.as_str(), a.name.as_str()), ("ORD", "Chicago O'Hare"));
    assert_eq!((a.lat.as_str(), a.lon.as_str()), ("41.9786", "-87.9048"));
    assert_eq!(read_airport("a|b|c|d|e|").unwrap().lon, "d");
    assert_eq!(read_airport("|||").unwrap().code, "");
    assert!(read_airport("a|b|c").is_none());
    assert!(read_airport("").is_none());
}

#[test]
fn texts_split_as_std_splits_them() {
    for s in ["", "|", "a", "a|b", "|a||b|", "é|✈"] {
        let std: Vec<String> = s.split('|').map(String::from).collect();
        assert_eq!(split(s, '|'), std);
    }
    for s in ["", "\n", "a", "a\nb", "a\r\nb\r\n", "\r\n\r", "a\n\nb\n", "a\rb\n"] {
        let std: Vec<String> = s.lines().map(String::from).collect();
        assert_eq!(lines(s), std);
    }
}

#[test]
fn nearest_within_the_limit() {
    let max = num(10.0);
    assert_eq!(nearest(&Vec::new(), &max), None);
    assert_eq!(nearest(&vec![reach(1.0, 10.1)], &max), None);
    assert_eq!(nearest(&vec![reach(1.0, 10.0)], &max), Some(0));
    assert_eq!(nearest(&vec![reach(10.1, 3.0), reach(10.0, 4.0)], &max), Some(1));
    let v = vec![reach(0.0, 5.0), reach(0.0, 3.0), reach(0.0, 3.0), reach(0.0, 4.0)];
    assert_eq!(nearest(&v, &max), Some(1));
    assert_eq!(nearest(&vec![reach(0.0, f64::NAN), reach(0.0, 9.0)], &max), Some(1));
    assert_eq!(Double::from_bits(TAG_KM), max);
}
