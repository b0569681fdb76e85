use leapsecs::{Error, LeapSecs, MJD};

// 1858-11-17, so that no generated list has expired
fn long_ago() -> MJD {
    MJD(0)
}

fn encode(list: &LeapSecs) -> Vec<u8> {
    let mut out = Vec::new();
    list.write_bytes(&mut out);
    out
}

// decoded bytes are not in canonical form in general, so compare the
// encodings of the decoded list and of its text read back
fn fuzz_bin(data: &[u8]) {
    let parse1 = match LeapSecs::from_bytes(data, long_ago()) {
        Ok(parsed) => parsed,
        Err(Error::Empty) => return,
        Err(Error::Expired(_)) => return,
        Err(Error::FromInt) => return,
        Err(Error::Gap(..)) => return,
        Err(Error::LeapAfterExp(..)) => return,
        Err(Error::Truncated) => return,
        Err(err) => panic!("\ninput {:?}\nerror {:?}\n", data, err),
    };
    let out1 = encode(&parse1);
    let text = parse1.to_text();
    let parse2 = LeapSecs::from_text(&text, long_ago()).unwrap();
    let out2 = encode(&parse2);
    assert_eq!(out1, out2);
    assert_eq!(parse1, parse2);
    let parse3 = LeapSecs::from_bytes(&out1, long_ago()).unwrap();
    assert_eq!(parse3, parse1);
}

fn fuzz_txt(data: &[u8]) {
    if data.len() < 1 {
        return;
    }
    let mut input = String::new();
    for &byte in &data[1..] {
        let sign = if byte < 128 { "-" } else { "+" };
        input.push_str(&format!("{}{}", byte % 128 + 1, sign));
    }
    input.push_str(&format!("{}?", data[0] as u16 + 1));
    let parsed = match LeapSecs::from_text(&input, long_ago()) {
        Ok(parsed) => parsed,
        Err(Error::Expired(_)) => return,
        Err(Error::FromInt) => return,
        Err(e) => panic!("{}\n{:?}", input, e),
    };
    let output = parsed.to_text();
    assert_eq!(input, output);
}

struct Bytes(u64);

impl Bytes {
    fn next(&mut self) -> u8 {
        self.0 ^= self.0 << 13;
        self.0 ^= self.0 >> 7;
        self.0 ^= self.0 << 17;
        (self.0 >> 32) as u8
    }

    fn take(&mut self, n: usize) -> Vec<u8> {
        (0..n).map(|_| self.next()).collect()
    }
}

#[test]
fn fuzz_bin_generated_inputs() {
    let mut gen = Bytes(0x9E37_79B9_7F4A_7C15);
    for len in 0..40 {
        for _ in 0..200 {
            let mut data = gen.take(len);
            fuzz_bin(&data);
            // most random inputs never reach an expiry code: end one in
            if let Some(last) = data.last_mut() {
                *last = 0xF0 | (*last & 0x0F);
                fuzz_bin(&data);
            }
        }
    }
}

#[test]
fn fuzz_txt_generated_inputs() {
    let mut gen = Bytes(0x0123_4567_89AB_CDEF);
    for len in 0..40 {
        for _ in 0..100 {
            fuzz_txt(&gen.take(len));
        }
    }
}
