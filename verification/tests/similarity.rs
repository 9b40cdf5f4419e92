use wd::fixed::SCALE;
use wd::recency::{weight, FLOOR, HORIZON};
use wd::similarity::{closeness_of, combine, dist, normalized};

#[test]
fn test_weight_function() {
    assert!(weight(0) > weight(1));
    assert!(weight(1) > weight(2));
    assert!(weight(10) > weight(100));
}

#[test]
fn weight_values() {
    assert_eq!(weight(0), 1_000_000_000_000_000_000);
    assert_eq!(weight(1), 951_016_267_519_258_175);
    assert_eq!(weight(2), 907_576_568_547_998_049);
    assert_eq!(weight(10), 802_677_140_369_713_942);
    assert_eq!(weight(39), 800_000_001_359_307_123);
    assert_eq!(weight(40), 800_000_000_824_461_447);
    assert_eq!(weight(81), FLOOR + 1);
    assert_eq!(weight(82), FLOOR);
    assert_eq!(weight(100), FLOOR);
    assert_eq!(weight(usize::MAX), FLOOR);
}

#[test]
fn weight_follows_the_logistic_curve() {
    for index in 0..200usize {
        let curve = 1.2 - 0.4 / (1.0 + (index as f64 / -2.0).exp());
        let fixed = weight(index) as f64 / SCALE as f64;
        assert!((curve - fixed).abs() < 1e-15);
    }
}

#[test]
fn weight_falls_strictly_near_the_front() {
    let horizon = HORIZON as usize;
    for index in 0..horizon {
        assert!(weight(index) > weight(index + 1));
    }
    for index in horizon..200usize {
        assert_eq!(weight(index), FLOOR);
    }
}

#[test]
fn test_dist_function() {
    let path = "/home/user/documents/project";

    // Exact match
    assert_eq!(dist(path, "/home/user/documents/project"), SCALE);

    // Partial match
    assert!(dist(path, "project") > SCALE / 2);

    // Case insensitive basename match
    assert!(dist(path, "PROJECT") > SCALE / 2);
}

#[test]
fn dist_values() {
    let path = "/home/user/documents/project";
    assert_eq!(dist(path, "project"), SCALE);
    assert_eq!(dist(path, "PROJECT"), 900_000_000_000_000_000);
    assert!(dist(path, "PROJECT") < dist(path, "project"));
    // one substitution in seven characters, against the last component
    assert_eq!(dist(path, "projact"), 857_142_857_142_857_142);
    // with case ignored the match is exact, and counts nine tenths
    assert_eq!(dist(path, "Project"), 900_000_000_000_000_000);
}

#[test]
fn dist_ignores_case_beyond_ascii() {
    // neither the whole path nor the last component as it stands has a
    // character in common with the query; in lower case the two are equal
    assert_eq!(dist("/A/ÉCOLE", "école"), 900_000_000_000_000_000);
    assert_eq!(dist("/a/école", "ÉCOLE"), 900_000_000_000_000_000);
    assert_eq!(dist("/a/école", "école"), SCALE);
}

#[test]
fn dist_without_last_component() {
    assert_eq!(dist("/", "/"), SCALE);
    assert_eq!(dist("/", "a"), 0);
    assert_eq!(dist("/a/..", "a"), 200_000_000_000_000_000);
}

#[test]
fn normalized_values() {
    assert_eq!(normalized("", ""), SCALE);
    assert_eq!(normalized("sunglasses", "sunglasses"), SCALE);
    assert_eq!(normalized("", "flower"), 0);
    assert_eq!(normalized("tree", ""), 0);
    assert_eq!(normalized("ab", "bca"), 333_333_333_333_333_333);
    assert_eq!(normalized("levenshtein", "löwenbräu"), 272_727_272_727_272_727);
    // a transposition of neighbours is one edit
    assert_eq!(normalized("abcd", "abdc"), 750_000_000_000_000_000);
}

#[test]
fn closeness_of_values() {
    assert_eq!(closeness_of(0, 0), SCALE);
    assert_eq!(closeness_of(4, 0), SCALE);
    assert_eq!(closeness_of(4, 1), 750_000_000_000_000_000);
    assert_eq!(closeness_of(3, 2), 333_333_333_333_333_333);
    assert_eq!(closeness_of(3, 3), 0);
    assert_eq!(closeness_of(3, 7), 0);
    assert_eq!(closeness_of(usize::MAX, 0), SCALE);
    assert_eq!(closeness_of(usize::MAX, 1), SCALE - 1);
}

#[test]
fn combine_values() {
    assert_eq!(combine(100, 200, 0), 200);
    assert_eq!(combine(300, 200, 0), 300);
    assert_eq!(combine(100, 200, 1_000), 900);
    assert_eq!(combine(0, 0, 19), 17);
    assert_eq!(combine(SCALE, 0, SCALE), SCALE);
    assert_eq!(combine(0, 0, u64::MAX), 16_602_069_666_338_596_453);
}
