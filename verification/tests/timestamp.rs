use concat::timestamp::{civil_from_unix, timestamp_filename, CivilTime};

fn fields(t: CivilTime) -> (i64, i64, i64, i64, i64, i64) {
    (t.year, t.month, t.day, t.hour, t.minute, t.second)
}

#[test]
fn epoch() {
    assert_eq!(fields(civil_from_unix(0)), (1970, 1, 1, 0, 0, 0));
    assert_eq!(timestamp_filename(0), "19700101000000.txt".to_string());
}

#[test]
fn known_moments() {
    assert_eq!(fields(civil_from_unix(951_782_400)), (2000, 2, 29, 0, 0, 0));
    assert_eq!(fields(civil_from_unix(1_709_251_199)), (2024, 2, 29, 23, 59, 59));
    assert_eq!(fields(civil_from_unix(1_700_000_000)), (2023, 11, 14, 22, 13, 20));
    assert_eq!(fields(civil_from_unix(4_107_542_400)), (2100, 3, 1, 0, 0, 0));
    assert_eq!(fields(civil_from_unix(-1)), (1969, 12, 31, 23, 59, 59));
    assert_eq!(fields(civil_from_unix(-62_167_219_200)), (0, 1, 1, 0, 0, 0));
}

#[test]
fn file_names() {
    assert_eq!(timestamp_filename(1_700_000_000), "20231114221320.txt".to_string());
    assert_eq!(timestamp_filename(951_868_799), "20000229235959.txt".to_string());
    assert_eq!(timestamp_filename(u64::MAX), "19691231235959.txt".to_string());
    assert_eq!(timestamp_filename((-62_167_219_201i64) as u64), "-0011231235959.txt".to_string());
    assert_eq!(timestamp_filename(253_402_300_800), "100000101000000.txt".to_string());
}

#[test]
fn neighbouring_seconds_have_neighbouring_times() {
    let a = fields(civil_from_unix(1_719_791_999));
    let b = fields(civil_from_unix(1_719_792_000));
    assert_eq!(a, (2024, 6, 30, 23, 59, 59));
    assert_eq!(b, (2024, 7, 1, 0, 0, 0));
    assert_ne!(a, b);
}

#[test]
fn far_dates_keep_their_sign_and_width() {
    assert_eq!(fields(civil_from_unix(i64::MIN)).1 >= 1, true);
    assert_eq!(fields(civil_from_unix(i64::MAX)).1 <= 12, true);
    assert_eq!(timestamp_filename(1), "19700101000001.txt".to_string());
}

#[test]
fn later_seconds_give_later_names() {
    let moments: [u64; 6] = [0, 1, 59, 86_399, 951_782_400, 253_402_300_799];
    for pair in moments.windows(2) {
        let earlier = timestamp_filename(pair[0]);
        let later = timestamp_filename(pair[1]);
        assert!(earlier.as_bytes() < later.as_bytes(), "{} !< {}", earlier, later);
    }
    assert_eq!(timestamp_filename(253_402_300_799), "99991231235959.txt");
}
