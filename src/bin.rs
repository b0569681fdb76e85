//! Compact binary notation for the leap second list.
//!
//! Each entry after the epoch becomes one or more codes of one byte: the
//! high nibble holds flags, the low nibble a magnitude `m` that stands for
//! `m + 1` units of six months, or of one month when the month flag is set.
//! The two sign flags select filler (neither), a negative leap second, a
//! positive one, or the expiry date (both). Long gaps are split into filler
//! codes that the builder folds back together.
//!
//! A positive leap second with a coarse magnitude below 8 is written as a
//! single nibble. Nibbles are packed two to a byte, high nibble first. An
//! odd count is evened out by writing the last single-nibble code in full,
//! or, when the list ends with an expiry five months on, by leaving out
//! that code's low nibble, which the decoder supplies.
use vstd::prelude::*;

use crate::{
    dtai_after_entry, entry_mjd, epoch, finish_spec, finished, fits_i16, lemma_wf_at, list_result,
    push_gap_spec, well_formed, Entry, Error, Leap, LeapSecs, MJD,
};

verus! {

/// The code occupies a whole byte.
pub const WIDE: u8 = 0x80;

/// The magnitude counts months rather than six-month units.
pub const MONTH: u8 = 0x40;

/// Sign flag: negative (with [`POS`]: expiry).
pub const NEG: u8 = 0x20;

/// Sign flag: positive (with [`NEG`]: expiry).
pub const POS: u8 = 0x10;

/// The longest gap that one code can hold, in months.
pub const MAX_CHUNK: u16 = 96;

/// The low nibble that the decoder supplies when the input ends after the
/// high nibble of a code.
pub const DEFAULT_LOW: u8 = 4;

/// The integer values of a sequence of bytes.
pub open spec fn ints(s: Seq<u8>) -> Seq<int> {
    s.map_values(|b: u8| b as int)
}

/// The flags of the code that ends an entry of the given kind.
pub open spec fn sign_flags(sign: Leap) -> int {
    match sign {
        Leap::Zero => 0x80,
        Leap::Neg => 0xA0,
        Leap::Pos => 0x90,
        Leap::Exp => 0xB0,
    }
}

/// The codes for a gap of `gap` months that ends in an entry whose final
/// code carries `flags`: whole chunks of 96 months of filler while more
/// than 96 remain, then one coarse code when six-month units fit exactly,
/// else one fine code when at most 16 months remain, else coarse filler
/// for the whole years and one fine code for the remaining months.
pub open spec fn gap_codes(gap: int, flags: int) -> Seq<int>
    decreases gap,
{
    if gap > 96 {
        seq![0x8F] + gap_codes(gap - 96, flags)
    } else if gap % 6 == 0 {
        seq![flags + gap / 6 - 1]
    } else if gap <= 16 {
        seq![flags + 0x40 + gap - 1]
    } else {
        seq![0x80 + (gap / 12) * 2 - 1, flags + 0x40 + gap % 12 - 1]
    }
}

/// The codes of one entry; the epoch has none.
pub open spec fn entry_codes(e: Entry) -> Seq<int> {
    if e.sign == Leap::Zero {
        seq![]
    } else {
        gap_codes(e.gap, sign_flags(e.sign))
    }
}

/// The codes of a list of entries, in order.
pub open spec fn list_codes(s: Seq<Entry>) -> Seq<int>
    decreases s.len(),
{
    if s.len() == 0 {
        seq![]
    } else {
        list_codes(s.drop_last()) + entry_codes(s.last())
    }
}

/// A code that may be written as a single nibble.
pub open spec fn is_short(c: int) -> bool {
    0x90 <= c < 0x98
}

/// The nibbles of one code; `widen` forces a short code to be written in full.
pub open spec fn code_nibbles(c: int, widen: bool) -> Seq<int> {
    if is_short(c) && !widen {
        seq![c - 0x90]
    } else {
        seq![c / 16, c % 16]
    }
}

/// The nibbles of a sequence of codes, with the code at index `widen`
/// (if any) written in full.
pub open spec fn nibbles(codes: Seq<int>, widen: int) -> Seq<int>
    decreases codes.len(),
{
    if codes.len() == 0 {
        seq![]
    } else {
        nibbles(codes.drop_last(), widen) + code_nibbles(codes.last(), codes.len() - 1 == widen)
    }
}

/// The index of the last short code, or -1 if there is none.
pub open spec fn last_short(codes: Seq<int>) -> int
    decreases codes.len(),
{
    if codes.len() == 0 {
        -1
    } else if is_short(codes.last()) {
        codes.len() - 1
    } else {
        last_short(codes.drop_last())
    }
}

/// The nibbles that are written for a sequence of codes.
pub open spec fn packed_nibbles(codes: Seq<int>) -> Seq<int> {
    let ns = nibbles(codes, -1);
    if ns.len() % 2 == 0 {
        ns
    } else if codes.len() > 0 && codes.last() == 0xF4 {
        ns.drop_last()
    } else {
        nibbles(codes, last_short(codes))
    }
}

/// Nibbles packed two to a byte, high nibble first.
pub open spec fn bytes_of(ns: Seq<int>) -> Seq<u8> {
    Seq::new((ns.len() / 2) as nat, |i: int| (ns[2 * i] * 16 + ns[2 * i + 1]) as u8)
}

/// The binary notation of a list.
pub open spec fn encode(s: Seq<Entry>) -> Seq<u8> {
    bytes_of(packed_nibbles(list_codes(s)))
}

/// The nibbles of a byte sequence, high nibble first.
pub open spec fn byte_nibbles(b: Seq<u8>) -> Seq<int> {
    Seq::new(2 * b.len(), |i: int| if i % 2 == 0 { b[i / 2] / 16 } else { b[i / 2] % 16 } as int)
}

/// The codes read from nibbles, where `pending` is the high nibble of a
/// code whose low nibble comes next. A nibble below 8 is a positive leap
/// second of that coarse magnitude.
pub open spec fn expand(pending: Option<int>, ns: Seq<int>) -> Seq<int>
    decreases ns.len(),
{
    if ns.len() == 0 {
        match pending {
            Some(h) => seq![h * 16 + DEFAULT_LOW],
            None => seq![],
        }
    } else {
        match pending {
            Some(h) => seq![h * 16 + ns[0]] + expand(None, ns.drop_first()),
            None => if ns[0] < 8 {
                seq![0x10 + ns[0]] + expand(None, ns.drop_first())
            } else {
                expand(Some(ns[0]), ns.drop_first())
            },
        }
    }
}

/// The gap in months that a code stands for.
pub open spec fn code_gap(c: int) -> int {
    (c % 16 + 1) * (if (c / 64) % 2 == 1 { 1int } else { 6int })
}

/// The kind of entry that a code stands for.
pub open spec fn code_sign(c: int) -> Leap {
    let f = (c / 16) % 4;
    if f == 0 {
        Leap::Zero
    } else if f == 1 {
        Leap::Pos
    } else if f == 2 {
        Leap::Neg
    } else {
        Leap::Exp
    }
}

/// The builder's result after pushing the gap and sign of each code in turn.
pub open spec fn push_codes(s: Seq<Entry>, codes: Seq<int>) -> Result<Seq<Entry>, Error>
    decreases codes.len(),
{
    if codes.len() == 0 {
        Ok(s)
    } else {
        match push_gap_spec(s, code_gap(codes[0]), code_sign(codes[0])) {
            Ok(t) => push_codes(t, codes.drop_first()),
            Err(e) => Err(e),
        }
    }
}

/// The list that a byte sequence decodes to, on the given current date.
pub open spec fn decode(b: Seq<u8>, today: int) -> Result<Seq<Entry>, Error> {
    match push_codes(Seq::empty(), expand(None, byte_nibbles(b))) {
        Ok(s) => finish_spec(s, today),
        Err(e) => Err(e),
    }
}

fn flags_of(sign: Leap) -> (r: u8)
    ensures
        r == sign_flags(sign),
{
    match sign {
        Leap::Zero => WIDE,
        Leap::Neg => WIDE + NEG,
        Leap::Pos => WIDE + POS,
        Leap::Exp => WIDE + NEG + POS,
    }
}

fn push_gap_codes(codes: &mut Vec<u8>, gap: u16, flags: u8)
    requires
        1 <= gap <= 999,
        flags == 0x90 || flags == 0xA0 || flags == 0xB0,
    ensures
        ints(final(codes)@) == ints(old(codes)@) + gap_codes(gap as int, flags as int),
{
    let mut g = gap;
    while g > MAX_CHUNK
        invariant
            1 <= g <= 999,
            ints(codes@) + gap_codes(g as int, flags as int) == ints(old(codes)@) + gap_codes(
                gap as int,
                flags as int,
            ),
        decreases g,
    {
        let ghost before = ints(codes@);
        codes.push(WIDE + 15);
        g = g - MAX_CHUNK;
        assert(ints(codes@) =~= before.push(0x8F));
        assert(before + gap_codes(g as int + 96, flags as int) =~= ints(codes@) + gap_codes(
            g as int,
            flags as int,
        ));
    }
    let ghost before = ints(codes@);
    if g % 6 == 0 {
        codes.push(flags + ((g / 6) as u8 - 1));
        assert(ints(codes@) =~= before + gap_codes(g as int, flags as int));
    } else if g <= 16 {
        codes.push(flags + MONTH + (g as u8 - 1));
        assert(ints(codes@) =~= before + gap_codes(g as int, flags as int));
    } else {
        codes.push(WIDE + ((g / 12) as u8 * 2 - 1));
        codes.push(flags + MONTH + ((g % 12) as u8 - 1));
        assert(ints(codes@) =~= before + gap_codes(g as int, flags as int));
    }
}

fn is_short_code(c: u8) -> (r: bool)
    ensures
        r == is_short(c as int),
{
    WIDE + POS <= c && c < WIDE + POS + 8
}

fn nibble_vec(codes: &Vec<u8>, widen: Option<usize>) -> (r: Vec<u8>)
    ensures
        ints(r@) == nibbles(
            ints(codes@),
            match widen {
                Some(k) => k as int,
                None => -1,
            },
        ),
        forall|i: int| 0 <= i < r@.len() ==> #[trigger] r@[i] < 16,
{
    let ghost w: int = match widen {
        Some(k) => k as int,
        None => -1,
    };
    let ghost cs = ints(codes@);
    let mut r: Vec<u8> = Vec::new();
    let mut k: usize = 0;
    while k < codes.len()
        invariant
            k <= codes@.len(),
            cs == ints(codes@),
            w == match widen {
                Some(j) => j as int,
                None => -1,
            },
            ints(r@) == nibbles(cs.take(k as int), w),
            forall|i: int| 0 <= i < r@.len() ==> #[trigger] r@[i] < 16,
        decreases codes@.len() - k,
    {
        let c = codes[k];
        let ghost before = ints(r@);
        let widened = match widen {
            Some(j) => j == k,
            None => false,
        };
        assert(widened == (k == w));
        assert(cs[k as int] == c as int);
        if is_short_code(c) && !widened {
            r.push(c - (WIDE + POS));
            assert(ints(r@) =~= before + seq![c as int - 0x90]);
        } else {
            r.push(c / 16);
            r.push(c % 16);
            assert(ints(r@) =~= before + seq![c as int / 16, c as int % 16]);
        }
        assert(cs.take(k + 1).drop_last() =~= cs.take(k as int));
        assert(ints(r@) =~= before + code_nibbles(cs[k as int], k == w));
        k = k + 1;
    }
    assert(cs.take(k as int) =~= cs);
    r
}

fn last_short_index(codes: &Vec<u8>) -> (r: Option<usize>)
    ensures
        last_short(ints(codes@)) == match r {
            Some(k) => k as int,
            None => -1,
        },
{
    let ghost cs = ints(codes@);
    let mut r: Option<usize> = None;
    let mut k: usize = 0;
    while k < codes.len()
        invariant
            k <= codes@.len(),
            cs == ints(codes@),
            last_short(cs.take(k as int)) == match r {
                Some(j) => j as int,
                None => -1,
            },
        decreases codes@.len() - k,
    {
        let c = codes[k];
        if is_short_code(c) {
            r = Some(k);
        }
        assert(cs.take(k + 1).drop_last() =~= cs.take(k as int));
        k = k + 1;
    }
    assert(cs.take(k as int) =~= cs);
    r
}

impl LeapSecs {
    fn codes(&self) -> (r: Vec<u8>)
        ensures
            ints(r@) == list_codes(self@),
    {
        let n = self.len();
        let mut codes: Vec<u8> = Vec::new();
        let mut i: usize = 0;
        while i < n
            invariant
                n == self@.len(),
                crate::finished(self@),
                i <= n,
                ints(codes@) == list_codes(self@.take(i as int)),
            decreases n - i,
        {
            let e = self.get(i);
            proof {
                crate::lemma_wf_at(self@, i as int);
            }
            assert(self@.take(i + 1).drop_last() =~= self@.take(i as int));
            if e.sign() != Leap::Zero {
                push_gap_codes(&mut codes, e.gap(), flags_of(e.sign()));
            }
            i = i + 1;
        }
        assert(self@.take(n as int) =~= self@);
        codes
    }

    /// Append the binary notation of the list to `out`, and return the
    /// number of bytes written.
    pub fn write_bytes(&self, out: &mut Vec<u8>) -> (r: usize)
        ensures
            final(out)@ == old(out)@ + encode(self@),
            r == encode(self@).len(),
    {
        let codes = self.codes();
        let ghost cs = ints(codes@);
        let mut ns = nibble_vec(&codes, None);
        if ns.len() % 2 == 1 {
            let n = codes.len();
            if n > 0 && codes[n - 1] == WIDE + MONTH + NEG + POS + DEFAULT_LOW {
                ns.pop();
                assert(ints(ns@) =~= nibbles(cs, -1).drop_last());
            } else {
                ns = nibble_vec(&codes, last_short_index(&codes));
            }
        }
        assert(ints(ns@) == packed_nibbles(cs));
        let ghost start = out@;
        let len = ns.len();
        let half = len / 2;
        let mut j: usize = 0;
        while j < half
            invariant
                len == ns@.len(),
                half == len / 2,
                j <= half,
                forall|i: int| 0 <= i < ns@.len() ==> #[trigger] ns@[i] < 16,
                out@ == start + bytes_of(ints(ns@)).take(j as int),
            decreases half - j,
        {
            assert(2 * (j as int) + 1 < ns@.len()) by (nonlinear_arith)
                requires
                    j < half,
                    half == len / 2,
                    len == ns@.len(),
            ;
            assert(ns@[2 * j as int] < 16 && ns@[2 * j + 1] < 16);
            let hi = ns[2 * j];
            let lo = ns[2 * j + 1];
            assert(hi < 16 && lo < 16);
            let byte = hi * 16 + lo;
            out.push(byte);
            assert(bytes_of(ints(ns@)).take(j + 1) =~= bytes_of(ints(ns@)).take(j as int).push(byte));
            j = j + 1;
        }
        assert(bytes_of(ints(ns@)).take(half as int) =~= bytes_of(ints(ns@)));
        half
    }

    /// Hand each byte of the binary notation of the list to `emit`, in
    /// order, stopping at the first error; returns the number of bytes.
    pub fn for_each_byte<F, E>(&self, emit: F) -> (r: Result<usize, E>) where
        F: Fn(u8) -> Result<(), E>,

        requires
            forall|b: u8| call_requires(emit, (b,)),
        ensures
            r matches Ok(n) ==> n == encode(self@).len() && forall|i: int|
                0 <= i < n ==> call_ensures(emit, (#[trigger] encode(self@)[i],), Ok::<(), E>(())),
            r matches Err(e) ==> exists|i: int|
                0 <= i < encode(self@).len() && call_ensures(
                    emit,
                    (#[trigger] encode(self@)[i],),
                    Err::<(), E>(e),
                ),
    {
        let mut bytes: Vec<u8> = Vec::new();
        let n = self.write_bytes(&mut bytes);
        assert(bytes@ =~= encode(self@));
        let mut i: usize = 0;
        while i < n
            invariant
                n == bytes@.len(),
                i <= n,
                forall|b: u8| call_requires(emit, (b,)),
                bytes@ == encode(self@),
                forall|j: int| 0 <= j < i ==> call_ensures(emit, (#[trigger] bytes@[j],), Ok::<(), E>(())),
            decreases n - i,
        {
            let b = bytes[i];
            let res = emit(b);
            assert(call_ensures(emit, (b,), res));
            match res {
                Ok(u) => {
                    assert(u == ());
                    assert(res == Ok::<(), E>(()));
                },
                Err(e) => return Err(e),
            }
            i = i + 1;
        }
        Ok(n)
    }

    /// Read a list from its binary notation, checking that it has not
    /// expired by `today`.
    pub fn from_bytes(bytes: &[u8], today: MJD) -> (r: Result<LeapSecs, Error>)
        ensures
            list_result(r) == decode(bytes@, today.0 as int),
    {
        let ghost all = byte_nibbles(bytes@);
        let mut list = LeapSecs::builder();
        let mut pending: Option<u8> = None;
        let mut i: usize = 0;
        assert(all.skip(0) =~= all);
        while i < bytes.len()
            invariant
                list.wf(),
                i <= bytes@.len(),
                all == byte_nibbles(bytes@),
                pending matches Some(h) ==> 8 <= h < 16,
                push_codes(list@, expand(opt_nibble(pending), all.skip(2 * i))) == push_codes(
                    Seq::empty(),
                    expand(None, all),
                ),
            decreases bytes@.len() - i,
        {
            let byte = bytes[i];
            assert(all.skip(2 * i)[0] == byte / 16);
            pending = match feed(&mut list, pending, byte / 16, Ghost(all.skip(2 * i))) {
                Ok(p) => p,
                Err(e) => return Err(e),
            };
            assert(all.skip(2 * i).drop_first()[0] == byte % 16);
            assert(all.skip(2 * i).drop_first().drop_first() =~= all.skip(2 * (i + 1)));
            pending = match feed(&mut list, pending, byte % 16, Ghost(all.skip(2 * i).drop_first())) {
                Ok(p) => p,
                Err(e) => return Err(e),
            };
            i = i + 1;
        }
        assert(all.skip(2 * i) =~= Seq::<int>::empty());
        if let Some(h) = pending {
            let code = h * 16 + DEFAULT_LOW;
            assert(expand(opt_nibble(pending), Seq::empty()) == seq![code as int]);
            assert(seq![code as int].drop_first() =~= Seq::<int>::empty());
            match list.push_gap(code_gap_of(code), code_sign_of(code)) {
                Ok(()) => {},
                Err(e) => return Err(e),
            }
        }
        assert(push_codes(list@, Seq::empty()) == Ok::<Seq<Entry>, Error>(list@));
        list.finish(today)
    }
}

/// The pending nibble as an integer.
pub open spec fn opt_nibble(p: Option<u8>) -> Option<int> {
    match p {
        Some(h) => Some(h as int),
        None => None,
    }
}

fn code_gap_of(code: u8) -> (r: i32)
    ensures
        r == code_gap(code as int),
{
    let units = (code % 16) as i32 + 1;
    if (code / 64) % 2 == 1 {
        units
    } else {
        units * 6
    }
}

fn code_sign_of(code: u8) -> (r: Leap)
    ensures
        r == code_sign(code as int),
{
    let f = (code / 16) % 4;
    if f == 0 {
        Leap::Zero
    } else if f == 1 {
        Leap::Pos
    } else if f == 2 {
        Leap::Neg
    } else {
        Leap::Exp
    }
}

/// Take in one nibble `n`, the first of `rest`, pushing the code that it
/// completes; returns the new pending nibble.
fn feed(list: &mut crate::LeapSecBuilder, pending: Option<u8>, n: u8, Ghost(rest): Ghost<Seq<int>>) -> (r: Result<Option<u8>, Error>)
    requires
        old(list).wf(),
        n < 16,
        rest.len() > 0,
        rest[0] == n,
        pending matches Some(h) ==> 8 <= h < 16,
    ensures
        final(list).wf(),
        match r {
            Ok(p) => {
                &&& p matches Some(h) ==> 8 <= h < 16
                &&& push_codes(final(list)@, expand(opt_nibble(p), rest.drop_first()))
                    == push_codes(old(list)@, expand(opt_nibble(pending), rest))
            },
            Err(e) => push_codes(old(list)@, expand(opt_nibble(pending), rest)) == Err::<
                Seq<Entry>,
                Error,
            >(e),
        },
{
    let code = match pending {
        Some(h) => h * 16 + n,
        None => {
            if n < 8 {
                POS + n
            } else {
                return Ok(Some(n));
            }
        },
    };
    let ghost tail = expand(None, rest.drop_first());
    assert(expand(opt_nibble(pending), rest) == seq![code as int] + tail);
    assert((seq![code as int] + tail).drop_first() =~= tail);
    match list.push_gap(code_gap_of(code), code_sign_of(code)) {
        Ok(()) => Ok(None),
        Err(e) => Err(e),
    }
}

/// The builder's entries while a gap of `acc` months of filler has been
/// read after the entries `b`.
pub open spec fn with_filler(b: Seq<Entry>, acc: int) -> Seq<Entry> {
    if acc == 0 {
        b
    } else {
        b.push(Entry { gap: acc, sign: Leap::Zero, month: b.last().month + acc, dtai: b.last().dtai })
    }
}

proof fn lemma_push_one(b: Seq<Entry>, c: int, rest: Seq<int>)
    ensures
        push_codes(b, seq![c] + rest) == match push_gap_spec(b, code_gap(c), code_sign(c)) {
            Ok(t) => push_codes(t, rest),
            Err(e) => Err(e),
        },
{
    assert((seq![c] + rest)[0] == c);
    assert((seq![c] + rest).drop_first() =~= rest);
}

/// The state before a code is pushed for an entry `e` that follows `b`.
pub open spec fn entry_follows(b: Seq<Entry>, e: Entry) -> bool {
    &&& well_formed(b)
    &&& b.len() >= 1
    &&& b.last().sign != Leap::Exp
    &&& (b.len() > 1 ==> b.last().sign != Leap::Zero)
    &&& e.sign != Leap::Zero
    &&& 1 <= e.gap <= 999
    &&& e.month == b.last().month + e.gap
    &&& e.month <= u16::MAX
    &&& e.dtai == dtai_after_entry(b.last(), e.sign)
    &&& fits_i16(e.dtai)
}

proof fn lemma_push_filler(b: Seq<Entry>, acc: int, chunk: int, e: Entry)
    requires
        entry_follows(b, e),
        acc >= 0,
        chunk >= 1,
        acc + chunk < e.gap,
    ensures
        push_gap_spec(with_filler(b, acc), chunk, Leap::Zero) == Ok::<Seq<Entry>, Error>(
            with_filler(b, acc + chunk),
        ),
{
    lemma_wf_at(b, b.len() - 1);
    if acc == 0 {
        assert(with_filler(b, acc) == b);
    } else {
        let f = with_filler(b, acc);
        assert(f.last().sign == Leap::Zero && f.last().month != 0);
        assert(f.drop_last() =~= b);
    }
}

proof fn lemma_push_final(b: Seq<Entry>, acc: int, g: int, e: Entry)
    requires
        entry_follows(b, e),
        acc >= 0,
        g >= 1,
        acc + g == e.gap,
    ensures
        push_gap_spec(with_filler(b, acc), g, e.sign) == Ok::<Seq<Entry>, Error>(b.push(e)),
{
    lemma_wf_at(b, b.len() - 1);
    if acc == 0 {
        assert(with_filler(b, acc) == b);
    } else {
        let f = with_filler(b, acc);
        assert(f.last().sign == Leap::Zero && f.last().month != 0);
        assert(f.drop_last() =~= b);
    }
}

proof fn lemma_coarse(f: int, m: int)
    requires
        f == 0x80 || f == 0x90 || f == 0xA0 || f == 0xB0,
        0 <= m < 16,
    ensures
        code_gap(f + m) == (m + 1) * 6,
        code_sign(f + m) == code_sign(f),
        code_gap(f + 0x40 + m) == m + 1,
        code_sign(f + 0x40 + m) == code_sign(f),
{
    assert((f + m) % 16 == m && (f + m) / 16 == f / 16);
    assert((f + 0x40 + m) % 16 == m && (f + 0x40 + m) / 16 == f / 16 + 4);
    assert((f + m) / 64 == 2 && (f + 0x40 + m) / 64 == 3);
}

proof fn lemma_flags(sign: Leap)
    requires
        sign != Leap::Zero,
    ensures
        code_sign(sign_flags(sign)) == sign,
        sign_flags(sign) == 0x90 || sign_flags(sign) == 0xA0 || sign_flags(sign) == 0xB0,
{
}

/// The codes of a gap take the builder from `b` (with `acc` months of
/// filler read) to `b` followed by the entry.
proof fn lemma_push_gap_codes(b: Seq<Entry>, acc: int, g: int, e: Entry, rest: Seq<int>)
    requires
        entry_follows(b, e),
        acc >= 0,
        g >= 1,
        acc + g == e.gap,
    ensures
        push_codes(with_filler(b, acc), gap_codes(g, sign_flags(e.sign)) + rest) == push_codes(
            b.push(e),
            rest,
        ),
    decreases g,
{
    let f = sign_flags(e.sign);
    lemma_flags(e.sign);
    if g > 96 {
        assert(gap_codes(g, f) + rest =~= seq![0x8F] + (gap_codes(g - 96, f) + rest));
        lemma_push_one(with_filler(b, acc), 0x8F, gap_codes(g - 96, f) + rest);
        lemma_coarse(0x80, 15);
        lemma_push_filler(b, acc, 96, e);
        lemma_push_gap_codes(b, acc + 96, g - 96, e, rest);
    } else if g % 6 == 0 {
        assert(gap_codes(g, f) + rest =~= seq![f + (g / 6 - 1)] + rest);
        lemma_push_one(with_filler(b, acc), f + (g / 6 - 1), rest);
        lemma_coarse(f, g / 6 - 1);
        lemma_push_final(b, acc, g, e);
    } else if g <= 16 {
        assert(gap_codes(g, f) + rest =~= seq![f + 0x40 + (g - 1)] + rest);
        lemma_push_one(with_filler(b, acc), f + 0x40 + (g - 1), rest);
        lemma_coarse(f, g - 1);
        lemma_push_final(b, acc, g, e);
    } else {
        let y = g / 12;
        let r = g % 12;
        let c1 = 0x80 + (y * 2 - 1);
        let c2 = f + 0x40 + (r - 1);
        assert(1 <= y <= 7 && 1 <= r <= 11);
        assert(gap_codes(g, f) + rest =~= seq![c1] + (seq![c2] + rest));
        lemma_push_one(with_filler(b, acc), c1, seq![c2] + rest);
        lemma_coarse(0x80, y * 2 - 1);
        lemma_push_filler(b, acc, y * 12, e);
        lemma_push_one(with_filler(b, acc + y * 12), c2, rest);
        lemma_coarse(f, r - 1);
        lemma_push_final(b, acc + y * 12, r, e);
    }
}

/// Pushing the codes of the first `k` entries of a finished list, from a
/// builder holding the epoch, leaves the builder holding those entries.
proof fn lemma_push_prefix(s: Seq<Entry>, k: int, rest: Seq<int>)
    requires
        finished(s),
        1 <= k <= s.len(),
    ensures
        push_codes(seq![epoch()], list_codes(s.take(k)) + rest) == push_codes(s.take(k), rest),
    decreases k,
{
    lemma_wf_at(s, 0);
    if k == 1 {
        assert(s.take(1) =~= seq![epoch()]);
        assert(s.take(1).drop_last() =~= Seq::<Entry>::empty());
        assert(list_codes(Seq::<Entry>::empty()) == Seq::<int>::empty());
        assert(entry_codes(epoch()) == Seq::<int>::empty());
        assert(list_codes(s.take(1)) + rest =~= rest);
    } else {
        let t = s.take(k - 1);
        let e = s[k - 1];
        lemma_wf_at(s, k - 1);
        lemma_wf_at(s, k - 2);
        assert(s.take(k).drop_last() =~= t);
        assert(list_codes(s.take(k)) + rest =~= list_codes(t) + (entry_codes(e) + rest));
        lemma_push_prefix(s, k - 1, entry_codes(e) + rest);
        assert(t.last() == s[k - 2]);
        crate::lemma_well_formed_take(s, k - 1);
        assert(entry_follows(t, e));
        assert(with_filler(t, 0) == t);
        lemma_push_gap_codes(t, 0, e.gap, e, rest);
        assert(t.push(e) =~= s.take(k));
    }
}

/// A code as the decoder reads it back: a short code comes back without
/// its wide flag.
pub open spec fn canon(c: int, widen: bool) -> int {
    if is_short(c) && !widen {
        c - 0x80
    } else {
        c
    }
}

pub open spec fn canon_seq(codes: Seq<int>, widen: int) -> Seq<int> {
    Seq::new(codes.len(), |i: int| canon(codes[i], i == widen))
}

pub open spec fn wide_codes(codes: Seq<int>) -> bool {
    forall|i: int| 0 <= i < codes.len() ==> 0x80 <= #[trigger] codes[i] < 0x100
}

proof fn lemma_nibbles_front(codes: Seq<int>, w: int)
    requires
        codes.len() > 0,
    ensures
        nibbles(codes, w) == code_nibbles(codes[0], w == 0) + nibbles(codes.drop_first(), w - 1),
    decreases codes.len(),
{
    if codes.len() == 1 {
        assert(codes.drop_last() =~= Seq::<int>::empty());
        assert(codes.drop_first() =~= Seq::<int>::empty());
        assert(nibbles(Seq::<int>::empty(), w) == Seq::<int>::empty());
        assert(nibbles(Seq::<int>::empty(), w - 1) == Seq::<int>::empty());
        assert(codes.last() == codes[0]);
        assert(nibbles(codes, w) == nibbles(codes.drop_last(), w) + code_nibbles(codes[0], w == 0));
        assert(nibbles(codes, w) =~= code_nibbles(codes[0], w == 0) + nibbles(
            codes.drop_first(),
            w - 1,
        ));
    } else {
        let d = codes.drop_last();
        let t = codes.drop_first();
        lemma_nibbles_front(d, w);
        assert(d[0] == codes[0]);
        assert(d.drop_first() =~= t.drop_last());
        assert(t.last() == codes.last());
        assert(nibbles(t, w - 1) == nibbles(t.drop_last(), w - 1) + code_nibbles(
            t.last(),
            t.len() - 1 == w - 1,
        ));
        assert(nibbles(codes, w) == nibbles(d, w) + code_nibbles(
            codes.last(),
            codes.len() - 1 == w,
        ));
        assert(nibbles(codes, w) =~= code_nibbles(codes[0], w == 0) + nibbles(
            codes.drop_first(),
            w - 1,
        ));
    }
}

/// Reading back the nibbles of wide codes gives the codes as the decoder
/// sees them.
proof fn lemma_expand_nibbles(codes: Seq<int>, w: int, tail: Seq<int>)
    requires
        wide_codes(codes),
    ensures
        expand(None, nibbles(codes, w) + tail) == canon_seq(codes, w) + expand(None, tail),
    decreases codes.len(),
{
    if codes.len() == 0 {
        assert(nibbles(codes, w) + tail =~= tail);
        assert(canon_seq(codes, w) + expand(None, tail) =~= expand(None, tail));
    } else {
        let c = codes[0];
        let d = codes.drop_first();
        lemma_nibbles_front(codes, w);
        assert(wide_codes(d)) by {
            assert forall|i: int| 0 <= i < d.len() implies 0x80 <= #[trigger] d[i] < 0x100 by {
                assert(d[i] == codes[i + 1]);
            }
        }
        lemma_expand_nibbles(d, w - 1, tail);
        let later = nibbles(d, w - 1) + tail;
        assert(nibbles(codes, w) + tail =~= code_nibbles(c, w == 0) + later);
        if is_short(c) && w != 0 {
            let ns = seq![c - 0x90] + later;
            assert(ns[0] == c - 0x90);
            assert(ns.drop_first() =~= later);
            assert(expand(None, ns) == seq![0x10 + (c - 0x90)] + expand(None, later));
        } else {
            let ns = seq![c / 16, c % 16] + later;
            assert(ns[0] == c / 16 && c / 16 >= 8);
            assert(ns.drop_first() =~= seq![c % 16] + later);
            assert((seq![c % 16] + later)[0] == c % 16);
            assert((seq![c % 16] + later).drop_first() =~= later);
            assert(expand(Some(c / 16), ns.drop_first()) == seq![(c / 16) * 16 + c % 16] + expand(
                None,
                later,
            ));
            assert((c / 16) * 16 + c % 16 == c);
        }
        assert(canon_seq(codes, w) =~= seq![canon(c, w == 0)] + canon_seq(d, w - 1));
        assert(canon_seq(codes, w) + expand(None, tail) =~= seq![canon(c, w == 0)] + (
        canon_seq(d, w - 1) + expand(None, tail)));
    }
}

proof fn lemma_push_canon(b: Seq<Entry>, codes: Seq<int>, w: int)
    requires
        wide_codes(codes),
    ensures
        push_codes(b, canon_seq(codes, w)) == push_codes(b, codes),
    decreases codes.len(),
{
    if codes.len() > 0 {
        let c = codes[0];
        let k = canon(c, w == 0);
        assert(code_gap(k) == code_gap(c) && code_sign(k) == code_sign(c)) by {
            if is_short(c) && w != 0 {
                assert((c - 0x80) % 16 == c % 16);
                assert((c - 0x80) / 16 == c / 16 - 8);
                assert((c - 0x80) / 64 == 0 && c / 64 == 2);
            }
        }
        let d = codes.drop_first();
        assert(wide_codes(d)) by {
            assert forall|i: int| 0 <= i < d.len() implies 0x80 <= #[trigger] d[i] < 0x100 by {
                assert(d[i] == codes[i + 1]);
            }
        }
        assert(canon_seq(codes, w).drop_first() =~= canon_seq(d, w - 1));
        assert(canon_seq(codes, w)[0] == k);
        let next = push_gap_spec(b, code_gap(c), code_sign(c));
        if next is Ok {
            lemma_push_canon(next->Ok_0, d, w - 1);
        }
    }
}

proof fn lemma_gap_codes_wide(g: int, f: int)
    requires
        1 <= g <= 999,
        f == 0x90 || f == 0xA0 || f == 0xB0,
    ensures
        wide_codes(gap_codes(g, f)),
        gap_codes(g, f).len() > 0,
    decreases g,
{
    if g > 96 {
        lemma_gap_codes_wide(g - 96, f);
        let t = gap_codes(g - 96, f);
        assert(gap_codes(g, f) =~= seq![0x8F] + t);
        assert forall|i: int| 0 <= i < gap_codes(g, f).len() implies 0x80 <= #[trigger] gap_codes(
            g,
            f,
        )[i] < 0x100 by {
            if i > 0 {
                assert(gap_codes(g, f)[i] == t[i - 1]);
            }
        }
    }
}

proof fn lemma_list_codes_wide(s: Seq<Entry>, k: int)
    requires
        finished(s),
        0 <= k <= s.len(),
    ensures
        wide_codes(list_codes(s.take(k))),
    decreases k,
{
    if k > 0 {
        lemma_list_codes_wide(s, k - 1);
        lemma_wf_at(s, k - 1);
        assert(s.take(k).drop_last() =~= s.take(k - 1));
        let e = s[k - 1];
        if e.sign != Leap::Zero {
            lemma_flags(e.sign);
            lemma_gap_codes_wide(e.gap, sign_flags(e.sign));
        }
        let a = list_codes(s.take(k - 1));
        let x = entry_codes(e);
        assert(list_codes(s.take(k)) == a + x);
        assert forall|i: int| 0 <= i < a.len() + x.len() implies 0x80 <= #[trigger] (a + x)[i]
            < 0x100 by {
            if i < a.len() {
                assert((a + x)[i] == a[i]);
            } else {
                assert((a + x)[i] == x[i - a.len()]);
            }
        }
    }
}

pub open spec fn count_short(codes: Seq<int>) -> int
    decreases codes.len(),
{
    if codes.len() == 0 {
        0
    } else {
        count_short(codes.drop_last()) + if is_short(codes.last()) { 1int } else { 0int }
    }
}

proof fn lemma_nibbles_shape(codes: Seq<int>, w: int)
    requires
        wide_codes(codes),
    ensures
        nibbles(codes, w).len() == 2 * codes.len() - count_short(codes) + (if 0 <= w < codes.len()
            && is_short(codes[w]) { 1int } else { 0int }),
        forall|i: int| 0 <= i < nibbles(codes, w).len() ==> 0 <= #[trigger] nibbles(codes, w)[i] < 16,
        last_short(codes) == -1 ==> count_short(codes) == 0,
        last_short(codes) != -1 ==> 0 <= last_short(codes) < codes.len() && is_short(
            codes[last_short(codes)],
        ),
    decreases codes.len(),
{
    if codes.len() > 0 {
        let d = codes.drop_last();
        assert(wide_codes(d)) by {
            assert forall|i: int| 0 <= i < d.len() implies 0x80 <= #[trigger] d[i] < 0x100 by {
                assert(d[i] == codes[i]);
            }
        }
        lemma_nibbles_shape(d, w);
        let c = codes.last();
        assert(c == codes[codes.len() - 1]);
        let a = nibbles(d, w);
        let x = code_nibbles(c, codes.len() - 1 == w);
        assert(nibbles(codes, w) == a + x);
        assert forall|i: int| 0 <= i < (a + x).len() implies 0 <= #[trigger] (a + x)[i] < 16 by {
            if i < a.len() {
                assert((a + x)[i] == a[i]);
            } else {
                assert((a + x)[i] == x[i - a.len()]);
            }
        }
        if 0 <= w < d.len() {
            assert(codes[w] == d[w]);
        }
        if last_short(codes) != -1 && !is_short(c) {
            assert(codes[last_short(codes)] == d[last_short(codes)]);
        }
    }
}

proof fn lemma_bytes_nibbles(ns: Seq<int>)
    requires
        ns.len() % 2 == 0,
        forall|i: int| 0 <= i < ns.len() ==> 0 <= #[trigger] ns[i] < 16,
    ensures
        byte_nibbles(bytes_of(ns)) == ns,
{
    let b = bytes_of(ns);
    assert forall|i: int| 0 <= i < ns.len() implies #[trigger] byte_nibbles(b)[i] == ns[i] by {
        let j = i / 2;
        let hi = ns[2 * j];
        let lo = ns[2 * j + 1];
        assert(0 <= hi < 16 && 0 <= lo < 16);
        assert(b[j] == hi * 16 + lo);
        assert((hi * 16 + lo) / 16 == hi && (hi * 16 + lo) % 16 == lo);
    }
    assert(byte_nibbles(b) =~= ns);
}

/// Decoding the binary notation of a finished list gives back the same
/// list, on any current date before its expiry.
#[verifier::spinoff_prover]
#[verifier::rlimit(40)]
pub proof fn binary_round_trip(s: Seq<Entry>, today: int)
    requires
        finished(s),
        entry_mjd(s.last()) > today,
    ensures
        decode(encode(s), today) == Ok::<Seq<Entry>, Error>(s),
{
    let n = s.len() as int;
    let cs = list_codes(s);
    assert(s.take(n) =~= s);
    lemma_list_codes_wide(s, n);
    lemma_wf_at(s, n - 1);
    lemma_wf_at(s, n - 2);
    let e = s[n - 1];
    assert(s.drop_last() =~= s.take(n - 1));
    lemma_flags(e.sign);
    lemma_gap_codes_wide(e.gap, sign_flags(e.sign));
    lemma_list_codes_wide(s, n - 1);
    assert(cs == list_codes(s.take(n - 1)) + gap_codes(e.gap, sign_flags(e.sign)));
    assert(cs.len() > 0);
    assert(cs.last() == gap_codes(e.gap, sign_flags(e.sign)).last());
    // the nibbles that are written read back as the codes
    let ns = nibbles(cs, -1);
    lemma_nibbles_shape(cs, -1);
    let pn = packed_nibbles(cs);
    let mut w: int = -1;
    if ns.len() % 2 == 0 {
        lemma_expand_nibbles(cs, -1, Seq::empty());
        assert(ns + Seq::<int>::empty() =~= ns);
    } else if cs.last() == 0xF4 {
        let d = cs.drop_last();
        assert(wide_codes(d)) by {
            assert forall|i: int| 0 <= i < d.len() implies 0x80 <= #[trigger] d[i] < 0x100 by {
                assert(d[i] == cs[i]);
            }
        }
        assert(ns == nibbles(d, -1) + seq![15int, 4int]);
        assert(pn =~= nibbles(d, -1) + seq![15int]);
        lemma_expand_nibbles(d, -1, seq![15int]);
        assert(seq![15int].drop_first() =~= Seq::<int>::empty());
        assert(expand(Some(15int), Seq::<int>::empty()) == seq![0xF4int]);
        assert(expand(None, seq![15int]) == expand(Some(15int), seq![15int].drop_first()));
        assert(canon_seq(d, -1) + seq![0xF4int] =~= canon_seq(cs, -1));
    } else {
        w = last_short(cs);
        lemma_nibbles_shape(cs, w);
        lemma_expand_nibbles(cs, w, Seq::empty());
        assert(pn + Seq::<int>::empty() =~= pn);
    }
    assert(expand(None, pn) == canon_seq(cs, w) + expand(None, Seq::empty())) by {
        if ns.len() % 2 == 0 {
            assert(pn == ns);
        }
    }
    assert(expand(None, pn) =~= canon_seq(cs, w));
    assert(pn.len() % 2 == 0);
    assert(forall|i: int| 0 <= i < pn.len() ==> 0 <= #[trigger] pn[i] < 16) by {
        if ns.len() % 2 != 0 && cs.last() == 0xF4 {
            assert forall|i: int| 0 <= i < pn.len() implies 0 <= #[trigger] pn[i] < 16 by {
                assert(pn[i] == ns[i]);
            }
        }
    }
    lemma_bytes_nibbles(pn);
    // the codes take the builder to the list
    lemma_push_canon(Seq::empty(), cs, w);
    lemma_push_canon(seq![epoch()], cs, w);
    lemma_push_prefix(s, n, Seq::empty());
    assert(cs + Seq::<int>::empty() =~= cs);
    assert(push_codes(s, Seq::empty()) == Ok::<Seq<Entry>, Error>(s));
    assert(push_gap_spec(Seq::empty(), code_gap(cs[0]), code_sign(cs[0])) == push_gap_spec(
        seq![epoch()],
        code_gap(cs[0]),
        code_sign(cs[0]),
    ));
    assert(push_codes(Seq::empty(), cs) == push_codes(seq![epoch()], cs));
}

proof fn lemma_push_codes_wf(b: Seq<Entry>, codes: Seq<int>)
    requires
        well_formed(b),
    ensures
        push_codes(b, codes) matches Ok(t) ==> well_formed(t),
    decreases codes.len(),
{
    if codes.len() > 0 {
        let next = push_gap_spec(b, code_gap(codes[0]), code_sign(codes[0]));
        crate::lemma_push_gap_wf(b, code_gap(codes[0]), code_sign(codes[0]));
        if next is Ok {
            lemma_push_codes_wf(next->Ok_0, codes.drop_first());
        }
    }
}

/// Whatever bytes decode to a list, that list is finished and still valid
/// on the date it was decoded.
pub proof fn decoded_is_finished(b: Seq<u8>, today: int)
    requires
        decode(b, today) is Ok,
    ensures
        finished(decode(b, today)->Ok_0),
        entry_mjd(decode(b, today)->Ok_0.last()) > today,
{
    lemma_push_codes_wf(Seq::empty(), expand(None, byte_nibbles(b)));
    let s = decode(b, today)->Ok_0;
    lemma_wf_at(s, 0);
}

/// For any bytes that decode to a list: its text notation reads back as
/// the same list, so the bytes written for the list read back from text
/// are those written for the decoded list, and encoding the decoded list
/// again and decoding it is idempotent.
pub proof fn binary_text_consistent(b: Seq<u8>, today: int)
    requires
        decode(b, today) is Ok,
    ensures
        crate::txt::parse_text(crate::txt::list_text(decode(b, today)->Ok_0), today) == decode(
            b,
            today,
        ),
        decode(encode(decode(b, today)->Ok_0), today) == decode(b, today),
        encode(crate::txt::parse_text(crate::txt::list_text(decode(b, today)->Ok_0), today)->Ok_0)
            == encode(decode(encode(decode(b, today)->Ok_0), today)->Ok_0),
{
    let s = decode(b, today)->Ok_0;
    decoded_is_finished(b, today);
    crate::txt::text_round_trip(s, today);
    binary_round_trip(s, today);
}

} // verus!

