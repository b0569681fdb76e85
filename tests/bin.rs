use leapsecs::{Error, Leap, LeapSecs, MJD};

// 2020-01-01
fn today() -> MJD {
    MJD(58849)
}

// 1858-11-17
fn long_ago() -> MJD {
    MJD(0)
}

fn encode(list: &LeapSecs) -> Vec<u8> {
    let mut out = Vec::new();
    let n = list.write_bytes(&mut out);
    assert_eq!(n, out.len());
    out
}

#[test]
fn bin_test() {
    let binary: &[u8] = b"\x00\x11\x11\x11\x12\x11\x34\x31\
                          \x21\x12\x22\x9D\x56\x52\x7F";
    let parsed = LeapSecs::from_bytes(binary, today()).unwrap();
    let written: Vec<u8> = encode(&parsed);
    assert_eq!(binary, &written[..]);
}

#[test]
fn bin_decodes_to_known_text() {
    let binary: &[u8] = &[
        0x00, 0x11, 0x11, 0x11, 0x12, 0x11, 0x34, 0x31, 0x21, 0x12, 0x22, 0x9D, 0x56, 0x52, 0x87,
        0xFA,
    ];
    let parsed = LeapSecs::from_bytes(binary, today()).unwrap();
    assert_eq!(
        parsed.to_text(),
        "6+6+12+12+12+12+12+12+12+18+12+12+24+30+24+12+18+12+12+18+18+18+84+36+42+36+18+59?"
    );
    assert_eq!(encode(&parsed), binary);
}

#[test]
fn bin_empty_input_is_empty() {
    assert!(matches!(LeapSecs::from_bytes(&[], today()), Err(Error::Empty)));
}

#[test]
fn bin_without_expiry_is_truncated() {
    assert!(matches!(LeapSecs::from_bytes(&[0x11, 0x12], today()), Err(Error::Truncated)));
}

#[test]
fn bin_expired_list_is_rejected() {
    let binary: &[u8] = &[0x00, 0xF7];
    // 1972-01 + 6 + 6 + 8 months: 1973-09-28
    let expiry = LeapSecs::from_bytes(binary, MJD(0)).unwrap().expires();
    assert_eq!(expiry, leapsecs::Gregorian(1973, 9, 28).mjd());
    assert!(matches!(LeapSecs::from_bytes(binary, expiry), Err(Error::Expired(_))));
    assert!(LeapSecs::from_bytes(binary, MJD(expiry.0 - 1)).is_ok());
}

#[test]
fn bin_gap_too_long_is_rejected() {
    // eleven chunks of 96 months of filler, then a positive leap
    let mut binary = vec![0x8F; 11];
    binary.push(0x10);
    assert!(matches!(LeapSecs::from_bytes(&binary, today()), Err(Error::Gap(..))));
}

#[test]
fn bin_leap_after_expiry_is_rejected() {
    assert!(matches!(LeapSecs::from_bytes(&[0xF0, 0x11], today()), Err(Error::LeapAfterExp(..))));
}

#[test]
fn bin_round_trip_of_long_and_odd_gaps() {
    let text = "96+192-999+17+5-100+11+95-97+12+13?";
    let list = LeapSecs::from_text(text, today()).unwrap();
    let bytes = encode(&list);
    let again = LeapSecs::from_bytes(&bytes, today()).unwrap();
    assert_eq!(again.to_text(), text);
    assert_eq!(encode(&again), bytes);
}

#[test]
fn bin_five_month_expiry_drops_last_nibble() {
    // one short code (6+) and an expiry five months on: 3 nibbles, so the
    // expiry's low nibble is left out
    let list = LeapSecs::from_text("6+5?", long_ago()).unwrap();
    assert_eq!(encode(&list), vec![0x0F]);
    let again = LeapSecs::from_bytes(&[0x0F], long_ago()).unwrap();
    assert_eq!(again.to_text(), "6+5?");
}

#[test]
fn bin_odd_nibbles_widen_last_short_code() {
    // 6+ is short, 7? is a full byte: 3 nibbles, so 6+ is written in full
    let list = LeapSecs::from_text("6+7?", long_ago()).unwrap();
    assert_eq!(encode(&list), vec![0x90, 0xF6]);
}

#[test]
fn bin_codes_of_each_kind() {
    // 12- is a coarse negative code (A1), 18+ a short one (2), 16? a fine
    // expiry (FF); five nibbles, so 18+ is written in full (92)
    let list = LeapSecs::from_text("12-18+16?", long_ago()).unwrap();
    assert_eq!(encode(&list), vec![0xA1, 0x92, 0xFF]);
    let again = LeapSecs::from_bytes(&[0xA1, 0x92, 0xFF], long_ago()).unwrap();
    assert_eq!(again.get(1).sign(), Leap::Neg);
    assert_eq!(again.get(2).sign(), Leap::Pos);
    assert_eq!(again.get(3).sign(), Leap::Exp);
}

#[test]
fn bin_for_each_byte_hands_out_the_encoding() {
    let list = LeapSecs::from_text("12-18+16?", long_ago()).unwrap();
    let seen = std::cell::RefCell::new(Vec::new());
    let n = list.for_each_byte(|b| -> Result<(), ()> {
        seen.borrow_mut().push(b);
        Ok(())
    });
    assert_eq!(n, Ok(3));
    assert_eq!(seen.into_inner(), vec![0xA1, 0x92, 0xFF]);
    let stopped = list.for_each_byte(|b| if b == 0x92 { Err(b) } else { Ok(()) });
    assert_eq!(stopped, Err(0x92));
}

#[test]
fn bin_non_canonical_input_reencodes_consistently() {
    // short codes written in full, and a 12-month gap as two 6-month codes
    // with filler: not what the encoder writes, but a valid list
    let binary: &[u8] = &[0x90, 0x90, 0x80, 0x00, 0xF6];
    let parsed = LeapSecs::from_bytes(binary, long_ago()).unwrap();
    assert_eq!(parsed.to_text(), "6+6+12+6+7?");
    assert_eq!(encode(&parsed), vec![0x00, 0x10, 0xF6]);
    let out1 = encode(&parsed);
    assert_ne!(&out1[..], binary);
    let reparsed = LeapSecs::from_text(&parsed.to_text(), long_ago()).unwrap();
    assert_eq!(encode(&reparsed), out1);
    let again = LeapSecs::from_bytes(&out1, long_ago()).unwrap();
    assert_eq!(encode(&again), out1);
}

#[test]
fn bin_decoding_the_encoding_gives_the_same_list() {
    for text in ["6+5?", "999-1+96-97?", "12+12+12+12+12+12+12+1?", "9+9-99+99-999+999?"] {
        let list = LeapSecs::from_text(text, long_ago()).unwrap();
        let again = LeapSecs::from_bytes(&encode(&list), long_ago()).unwrap();
        assert_eq!(again, list, "{}", text);
    }
    let a = LeapSecs::from_text("6+5?", long_ago()).unwrap();
    let b = LeapSecs::from_text("6+6?", long_ago()).unwrap();
    assert_ne!(a, b);
}
