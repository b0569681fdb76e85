use leapsecs::{days_in_years, Gregorian, MJD};

#[test]
fn date_test() {
    for &(date, mjd) in &[
        (Gregorian(-1, 12, 31), -678942),
        (Gregorian(0, 1, 1), -678941),
        (Gregorian(0, 12, 31), -678576),
        (Gregorian(1, 1, 1), -678575),
        (Gregorian(1858, 11, 16), -1),
        (Gregorian(1858, 11, 17), 0),
        (Gregorian(1900, 1, 1), 15020),
        (Gregorian(1970, 1, 1), 40587),
        (Gregorian(2001, 1, 1), 5 * 146097 - 678575),
        (Gregorian(2020, 2, 2), 58881),
    ] {
        let mjd = MJD::from(mjd);
        assert_eq!(date, Gregorian::from(mjd));
        assert_eq!(mjd, date.mjd());
    }
    assert_eq!(146097, days_in_years(400));
}

#[test]
fn date_leap_days() {
    assert_eq!(Gregorian(2000, 2, 29).mjd().0 + 1, Gregorian(2000, 3, 1).mjd().0);
    assert_eq!(Gregorian(1900, 2, 28).mjd().0 + 1, Gregorian(1900, 3, 1).mjd().0);
    assert_eq!(Gregorian::from(Gregorian(2024, 2, 29).mjd()), Gregorian(2024, 2, 29));
    assert_eq!(Gregorian::from(MJD(i32::MAX)).mjd(), MJD(i32::MAX));
    assert_eq!(Gregorian::from(MJD(i32::MIN)).mjd(), MJD(i32::MIN));
}

#[test]
fn date_fields() {
    let d = Gregorian(1972, 7, 1);
    assert_eq!((d.year(), d.month(), d.day()), (1972, 7, 1));
}

#[test]
fn date_unix_time() {
    assert_eq!(MJD::from_unix_time(0), Some(MJD(40587)));
    assert_eq!(MJD::from_unix_time(86399), Some(MJD(40587)));
    assert_eq!(MJD::from_unix_time(86400), Some(MJD(40588)));
    assert_eq!(MJD::from_unix_time(u64::MAX), None);
    let today = MJD::today().unwrap();
    assert!(today.0 > Gregorian(2020, 1, 1).mjd().0);
}

#[test]
fn date_conversion_is_inverse_of_mjd() {
    let mut n: i64 = -1_000_000;
    while n <= 3_000_000 {
        let mjd = MJD(n as i32);
        let date = Gregorian::from(mjd);
        assert!((1..=12).contains(&date.month()), "{:?}", date);
        assert!((1..=31).contains(&date.day()), "{:?}", date);
        assert_eq!(date.mjd(), mjd);
        n += 997;
    }
}
