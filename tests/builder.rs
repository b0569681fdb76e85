use leapsecs::{Error, Gregorian, Leap, LeapSecBuilder, LeapSecs, MJD};

// 2020-01-01
fn today() -> MJD {
    MJD(58849)
}

#[test]
fn builder_gap_bounds() {
    for gap in [0, 1000, -1, -999, i32::MIN, i32::MAX] {
        let mut b = LeapSecs::builder();
        assert!(matches!(b.push_gap(gap, Leap::Pos), Err(Error::Gap(..))), "gap {}", gap);
    }
    for gap in [1, 999] {
        let mut b = LeapSecBuilder::new();
        assert!(b.push_gap(gap, Leap::Pos).is_ok());
    }
}

#[test]
fn builder_epoch_comes_first() {
    let mut b = LeapSecs::builder();
    b.push_gap(6, Leap::Pos).unwrap();
    b.push_gap(700, Leap::Exp).unwrap();
    let list = b.finish(today()).unwrap();
    let first = list.get(0);
    assert_eq!(first.sign(), Leap::Zero);
    assert_eq!(first.gap(), 0);
    assert_eq!(first.dtai().unwrap(), 10);
    assert_eq!(first.date(), Gregorian(1972, 1, 1));
}

#[test]
fn builder_dtai_moves_by_one() {
    let list = LeapSecs::from_text("6+6+6-6-6-6+700?", today()).unwrap();
    let dtai: Vec<i16> = (0..list.len() - 1).map(|i| list.get(i).dtai().unwrap()).collect();
    assert_eq!(dtai, vec![10, 11, 12, 11, 10, 9, 10]);
}

#[test]
fn builder_folds_filler() {
    let mut b = LeapSecs::builder();
    b.push_gap(96, Leap::Zero).unwrap();
    b.push_gap(96, Leap::Zero).unwrap();
    b.push_gap(7, Leap::Neg).unwrap();
    b.push_gap(600, Leap::Exp).unwrap();
    let list = b.finish(today()).unwrap();
    assert_eq!(list.len(), 3);
    assert_eq!(list.get(1).gap(), 199);
    assert_eq!(list.get(1).date(), Gregorian(1988, 8, 1));
    assert_eq!(list.to_text(), "199-600?");
}

#[test]
fn builder_filler_beyond_limit_is_rejected() {
    let mut b = LeapSecs::builder();
    b.push_gap(999, Leap::Zero).unwrap();
    assert!(matches!(b.push_gap(1, Leap::Pos), Err(Error::Gap(..))));
}

#[test]
fn builder_finish_errors() {
    assert!(matches!(LeapSecBuilder::new().finish(today()), Err(Error::Empty)));
    let mut b = LeapSecs::builder();
    b.push_gap(6, Leap::Pos).unwrap();
    assert!(matches!(b.finish(today()), Err(Error::Truncated)));
    let mut b = LeapSecs::builder();
    b.push_gap(6, Leap::Pos).unwrap();
    b.push_gap(5, Leap::Zero).unwrap();
    assert!(matches!(b.finish(today()), Err(Error::Truncated)));
}

#[test]
fn builder_push_date_and_exp() {
    let mut b = LeapSecs::builder();
    b.push_date(Gregorian(1972, 1, 1), 10).unwrap();
    b.push_date(Gregorian(1972, 7, 1), 11).unwrap();
    b.push_date(Gregorian(1973, 1, 1), 12).unwrap();
    b.push_exp(Gregorian(2030, 6, 28)).unwrap();
    let list = b.finish(today()).unwrap();
    assert_eq!(list.to_text(), "6+6+689?");
    assert_eq!(list.expires(), Gregorian(2030, 6, 28).mjd());
}

#[test]
fn builder_push_date_errors() {
    let mut b = LeapSecs::builder();
    assert!(matches!(b.push_date(Gregorian(1972, 1, 1), 11), Err(Error::FalseStart(_, 11))));
    assert!(matches!(b.push_date(Gregorian(1972, 2, 1), 10), Err(Error::FalseStart(..))));
    assert!(matches!(b.push_date(Gregorian(1972, 1, 2), 10), Err(Error::MonthDay(_, 1))));
    b.push_date(Gregorian(1972, 1, 1), 10).unwrap();
    assert!(matches!(b.push_date(Gregorian(1972, 7, 1), 12), Err(Error::WrongLeap(_, 10, _, 12))));
    assert!(matches!(b.push_date(Gregorian(1972, 7, 1), 10), Err(Error::WrongLeap(..))));
    assert!(matches!(b.push_exp(Gregorian(2030, 6, 27)), Err(Error::MonthDay(_, 28))));
    assert!(matches!(LeapSecs::builder().push_exp(Gregorian(2030, 6, 28)), Err(Error::Empty)));
    b.push_exp(Gregorian(2030, 6, 28)).unwrap();
    assert!(matches!(b.push_date(Gregorian(2031, 1, 1), 11), Err(Error::LeapAfterExp(..))));
    assert!(matches!(b.push_gap(6, Leap::Pos), Err(Error::LeapAfterExp(..))));
}

#[test]
fn builder_month_overflow_is_rejected() {
    let mut b = LeapSecs::builder();
    for _ in 0..65 {
        b.push_gap(999, Leap::Pos).unwrap();
    }
    b.push_gap(600, Leap::Pos).unwrap();
    assert!(matches!(b.push_gap(1, Leap::Pos), Err(Error::FromInt)));
}

#[test]
fn builder_default_is_empty() {
    let b: LeapSecBuilder = Default::default();
    assert!(matches!(b.finish(today()), Err(Error::Empty)));
}
