use leapsecs::{Error, LeapSecs, MJD};

// 2020-01-01
fn today() -> MJD {
    MJD(58849)
}

#[test]
fn txt_test() {
    let text = "6+6+12+12+12+12+12+12+12+18+12+12+24+30+24+\
                12+18+12+12+18+18+18+84+36+42+36+18+59?";
    let parsed = LeapSecs::from_text(text, today()).unwrap();
    let output = parsed.to_text();
    assert_eq!(text, output);
    let input = "9+9-99+99-999+999?";
    let parsed = LeapSecs::from_text(&input, today()).unwrap();
    let output = parsed.to_text();
    assert_eq!(input, output);
}

#[test]
fn txt_leading_zero_is_rejected() {
    assert!(matches!(LeapSecs::from_text("0+", today()), Err(Error::FromStr("[1-9]", '0'))));
}

#[test]
fn txt_sign_without_digits_is_rejected() {
    assert!(matches!(LeapSecs::from_text("6++", today()), Err(Error::FromStr("[1-9]", '+'))));
}

#[test]
fn txt_bad_character_after_digit_is_rejected() {
    assert!(matches!(LeapSecs::from_text("12x", today()), Err(Error::FromStr("[0-9?+-]", 'x'))));
}

#[test]
fn txt_fourth_digit_is_rejected() {
    assert!(matches!(LeapSecs::from_text("1000?", today()), Err(Error::FromStr("[?+-]", '0'))));
}

#[test]
fn txt_unfinished_token_is_truncated() {
    assert!(matches!(LeapSecs::from_text("6+12", today()), Err(Error::Truncated)));
}

#[test]
fn txt_missing_expiry_is_truncated() {
    assert!(matches!(LeapSecs::from_text("6+12-", today()), Err(Error::Truncated)));
}

#[test]
fn txt_empty_text_is_empty() {
    assert!(matches!(LeapSecs::from_text("", today()), Err(Error::Empty)));
}

#[test]
fn txt_leap_after_expiry_is_rejected() {
    assert!(matches!(LeapSecs::from_text("600?6+", today()), Err(Error::LeapAfterExp(..))));
}

#[test]
fn txt_expired_list_is_rejected() {
    // expires 1972-07-28
    assert!(matches!(LeapSecs::from_text("6?", today()), Err(Error::Expired(_))));
}

#[test]
fn txt_entries_follow_the_text() {
    let list = LeapSecs::from_text("6+12-999?", today()).unwrap();
    assert_eq!(list.len(), 4);
    assert!(!list.is_empty());
    let gaps: Vec<u16> = list.iter().map(|e| e.gap()).collect();
    assert_eq!(gaps, vec![0, 6, 12, 999]);
    assert_eq!(list.get(1).date(), leapsecs::Gregorian(1972, 7, 1));
    assert_eq!(list.get(2).date(), leapsecs::Gregorian(1973, 7, 1));
    assert_eq!(list.get(3).date(), leapsecs::Gregorian(2056, 10, 28));
    assert_eq!(list.get(1).dtai().unwrap(), 11);
    assert_eq!(list.get(2).dtai().unwrap(), 10);
    assert!(matches!(list.get(3).dtai(), Err(Error::Expired(_))));
    assert_eq!(list.expires(), list.get(3).mjd());
}
