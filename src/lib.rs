//! The list of UTC leap seconds.
//!
//! A [`LeapSecs`] list is built by a [`LeapSecBuilder`], which checks every
//! entry as it is pushed, and is converted to and from a compact text
//! notation ([`txt`]) and a compact binary notation ([`bin`]).
use vstd::prelude::*;
use vstd::std_specs::iter::IteratorSpec;

pub mod bin;
pub mod date;
pub mod txt;

pub use date::{days_in_years, gregorian_of, mjd_of, spec_days_in_years, Gregorian, MJD};

verus! {

/// What kind of change an entry of the list marks.
#[derive(Copy, Clone, Debug, PartialEq, Eq, Structural)]
pub enum Leap {
    /// The starting point of the list; in the builder, also filler that
    /// lengthens the gap before the next entry.
    Zero,
    /// A negative leap second.
    Neg,
    /// A positive leap second.
    Pos,
    /// The expiry date of the list.
    Exp,
}

/// Why a list could not be built or read.
#[derive(Debug)]
pub enum Error {
    /// Nothing was pushed before the list was finished.
    Empty,
    /// The list's expiry date is not after the current date.
    Expired(Gregorian),
    /// The first entry is not 1972-01-01 with DTAI 10.
    FalseStart(Gregorian, i16),
    /// A month index or a DTAI value does not fit its representation.
    FromInt,
    /// Syntax error in the compact text notation: what was expected, and
    /// the character that was found.
    FromStr(&'static str, char),
    /// A gap outside 1 to 999 months: the previous date, the gap, and the
    /// date that the gap leads to.
    Gap(Gregorian, i64, Gregorian),
    /// Nothing may follow the expiry date.
    LeapAfterExp(Gregorian, Gregorian),
    /// A date is not on the required day of the month.
    MonthDay(Gregorian, i32),
    /// The list does not end with an expiry date.
    Truncated,
    /// A change of DTAI that is not exactly one second.
    WrongLeap(Gregorian, i16, Gregorian, i16),
}

/// One entry of a list, as a mathematical value.
pub struct Entry {
    /// Months since the previous entry.
    pub gap: int,
    pub sign: Leap,
    /// Months since 1972-01.
    pub month: int,
    /// DTAI from this entry on; none for the expiry date.
    pub dtai: Option<int>,
}

/// The day of the month on which a list expires.
pub const EXPIRES_DATE: i32 = 28;

/// The fixed first entry: 1972-01-01, DTAI 10.
pub open spec fn epoch() -> Entry {
    Entry { gap: 0, sign: Leap::Zero, month: 0, dtai: Some(10) }
}

/// The date on the given day of the month that lies `month` months after 1972-01.
pub open spec fn spec_date_of(month: int, day: int) -> Gregorian {
    Gregorian((1972 + month / 12) as i32, (month % 12 + 1) as i32, day as i32)
}

/// Months since 1972-01 of a date's month.
pub open spec fn spec_month_of(date: Gregorian) -> int {
    (date.0 - 1972) * 12 + (date.1 - 1)
}

/// The date of an entry: the first of its month, or the 28th for an expiry date.
pub open spec fn entry_date(e: Entry) -> Gregorian {
    spec_date_of(e.month, if e.sign == Leap::Exp { EXPIRES_DATE as int } else { 1 })
}

/// The day number of an entry's date.
pub open spec fn entry_mjd(e: Entry) -> int {
    entry_date(e).spec_mjd()
}

/// DTAI after a change of the given kind, from DTAI `d` before it.
pub open spec fn dtai_after(d: int, sign: Leap) -> Option<int> {
    match sign {
        Leap::Zero => Some(d),
        Leap::Neg => Some(d - 1),
        Leap::Pos => Some(d + 1),
        Leap::Exp => None,
    }
}

/// DTAI after a change of the given kind that follows entry `e`.
pub open spec fn dtai_after_entry(e: Entry, sign: Leap) -> Option<int> {
    match e.dtai {
        Some(d) => dtai_after(d, sign),
        None => None,
    }
}

/// A DTAI value, if any, fits an `i16`.
pub open spec fn fits_i16(d: Option<int>) -> bool {
    match d {
        Some(v) => i16::MIN <= v <= i16::MAX,
        None => true,
    }
}

/// The entries that a builder holds are well formed: the epoch first, each
/// later entry `gap` months after the one before, DTAI moving by one second
/// at each leap, and an expiry date or a filler entry only at the end.
pub open spec fn well_formed(s: Seq<Entry>) -> bool {
    s.len() > 0 ==> {
        &&& s[0] == epoch()
        &&& forall|i: int|
            1 <= i < s.len() ==> {
                &&& 1 <= #[trigger] s[i].gap <= 999
                &&& s[i].month == s[i - 1].month + s[i].gap
                &&& 1 <= s[i].month <= u16::MAX
                &&& s[i].dtai == dtai_after_entry(s[i - 1], s[i].sign)
                &&& (s[i].dtai is Some) == (s[i].sign != Leap::Exp)
                &&& fits_i16(s[i].dtai)
                &&& (s[i].sign == Leap::Exp || s[i].sign == Leap::Zero) ==> i == s.len() - 1
            }
    }
}

/// A finished list: well formed, with the expiry date last.
pub open spec fn finished(s: Seq<Entry>) -> bool {
    &&& well_formed(s)
    &&& s.len() >= 2
    &&& s.last().sign == Leap::Exp
}

/// Append an entry `gap` months after `last`, the last entry of `s`, at
/// month `month`; a filler entry at the end is folded into the new entry.
pub open spec fn append_spec(
    s: Seq<Entry>,
    last: Entry,
    gap: int,
    sign: Leap,
    month: int,
    dtai: Option<int>,
) -> Result<Seq<Entry>, Error> {
    if last.sign == Leap::Exp {
        Err(Error::LeapAfterExp(entry_date(last), spec_date_of(month, 1)))
    } else {
        let folding = last.sign == Leap::Zero && last.month != 0;
        let gap = if folding { gap + last.gap } else { gap };
        let base = if folding { s.drop_last() } else { s };
        if !(1 <= gap <= 999) {
            Err(Error::Gap(entry_date(last), gap as i64, spec_date_of(month, 1)))
        } else if !(0 <= month <= u16::MAX) || !fits_i16(dtai) {
            Err(Error::FromInt)
        } else {
            Ok(base.push(Entry { gap, sign, month, dtai }))
        }
    }
}

/// The result of [`LeapSecBuilder::push_gap`].
pub open spec fn push_gap_spec(s: Seq<Entry>, gap: int, sign: Leap) -> Result<Seq<Entry>, Error> {
    let s0 = seeded(s);
    let last = s0.last();
    append_spec(s0, last, gap, sign, last.month + gap, dtai_after_entry(last, sign))
}

/// The result of [`LeapSecBuilder::push_exp`].
pub open spec fn push_exp_spec(s: Seq<Entry>, date: Gregorian) -> Result<Seq<Entry>, Error> {
    let month = spec_month_of(date);
    if date.2 != EXPIRES_DATE {
        Err(Error::MonthDay(date, EXPIRES_DATE))
    } else if s.len() == 0 {
        Err(Error::Empty)
    } else {
        append_spec(s, s.last(), month - s.last().month, Leap::Exp, month, None)
    }
}

/// The result of [`LeapSecBuilder::push_date`].
pub open spec fn push_date_spec(s: Seq<Entry>, date: Gregorian, dtai: i16) -> Result<
    Seq<Entry>,
    Error,
> {
    let month = spec_month_of(date);
    if date.2 != 1 {
        Err(Error::MonthDay(date, 1))
    } else if s.len() == 0 {
        if month == 0 && dtai == 10 {
            Ok(seq![epoch()])
        } else {
            Err(Error::FalseStart(date, dtai))
        }
    } else {
        let last = s.last();
        if last.sign == Leap::Exp {
            Err(Error::LeapAfterExp(entry_date(last), spec_date_of(month, 1)))
        } else {
            let delta = dtai - last.dtai->0;
            if delta == -1 || delta == 1 {
                let sign = if delta == -1 { Leap::Neg } else { Leap::Pos };
                append_spec(s, last, month - last.month, sign, month, Some(dtai as int))
            } else {
                Err(Error::WrongLeap(entry_date(last), last.dtai->0 as i16, date, dtai))
            }
        }
    }
}

/// The result of [`LeapSecBuilder::finish`] on the given current date.
pub open spec fn finish_spec(s: Seq<Entry>, today: int) -> Result<Seq<Entry>, Error> {
    if s.len() == 0 {
        Err(Error::Empty)
    } else if s.last().sign != Leap::Exp {
        Err(Error::Truncated)
    } else if entry_mjd(s.last()) <= today {
        Err(Error::Expired(entry_date(s.last())))
    } else {
        Ok(s)
    }
}

/// An entry of a [`LeapSecs`] list.
#[derive(Copy, Clone, Debug, PartialEq, Eq, Structural)]
pub struct LeapSec {
    gap: u16,
    sign: Leap,
    month: u16,
    dtai: Option<i16>,
}

impl View for LeapSec {
    type V = Entry;

    closed spec fn view(&self) -> Entry {
        Entry {
            gap: self.gap as int,
            sign: self.sign,
            month: self.month as int,
            dtai: match self.dtai {
                Some(d) => Some(d as int),
                None => None,
            },
        }
    }
}

fn date_of(month: i64, day: i32) -> (r: Gregorian)
    requires
        -0x1000_0000_0000_0000 <= month <= 0x1000_0000_0000_0000,
    ensures
        r == spec_date_of(month as int, day as int),
{
    let year = month.checked_div_euclid(12).unwrap();
    let month = month.checked_rem_euclid(12).unwrap();
    Gregorian((1972 + year) as i32, (month + 1) as i32, day)
}

fn month_of(date: Gregorian, day: i32) -> (r: Result<i64, Error>)
    ensures
        date.2 == day ==> r == Ok::<i64, Error>(spec_month_of(date) as i64),
        date.2 != day ==> r == Err::<i64, Error>(Error::MonthDay(date, day)),
{
    if date.2 == day {
        Ok((date.0 as i64 - 1972) * 12 + (date.1 as i64 - 1))
    } else {
        Err(Error::MonthDay(date, day))
    }
}

impl LeapSec {
    /// The date that follows the leap second, from which [`LeapSec::dtai`]
    /// holds; for the expiry date, the 28th of its month.
    pub fn date(self) -> (r: Gregorian)
        ensures
            r == entry_date(self@),
    {
        let day = if self.sign == Leap::Exp { EXPIRES_DATE } else { 1 };
        date_of(self.month as i64, day)
    }

    /// DTAI after this leap second; the expiry date has none.
    pub fn dtai(self) -> (r: Result<i16, Error>)
        ensures
            self@.dtai is Some ==> (r matches Ok(d) && d == self@.dtai->0),
            self@.dtai is None ==> r == Err::<i16, Error>(Error::Expired(entry_date(self@))),
    {
        match self.dtai {
            Some(d) => Ok(d),
            None => Err(Error::Expired(self.date())),
        }
    }

    /// Months since the previous entry.
    pub fn gap(self) -> (r: u16)
        ensures
            r == self@.gap,
    {
        self.gap
    }

    /// The [`MJD`] of [`LeapSec::date`].
    pub fn mjd(self) -> (r: MJD)
        ensures
            r.0 == entry_mjd(self@),
    {
        proof {
            lemma_entry_mjd_range(self@);
        }
        self.date().mjd()
    }

    /// What kind of entry this is.
    pub fn sign(self) -> (r: Leap)
        ensures
            r == self@.sign,
    {
        self.sign
    }

    fn start() -> (r: LeapSec)
        ensures
            r@ == epoch(),
    {
        LeapSec { gap: 0, sign: Leap::Zero, month: 0, dtai: Some(10) }
    }
}

proof fn lemma_entry_mjd_range(e: Entry)
    requires
        0 <= e.month <= u16::MAX,
    ensures
        0 <= entry_mjd(e) <= i32::MAX,
{
    let d = entry_date(e);
    assert(1972 <= d.0 <= 1972 + 5462);
    assert(1 <= d.1 <= 12);
    let y = d.0 as int;
    assert(0 <= spec_days_in_years(y) <= 4_000_000) by (nonlinear_arith)
        requires 1970 <= y <= 7500;
    assert(0 <= spec_days_in_years(y - 1) <= 4_000_000) by (nonlinear_arith)
        requires 1970 <= y <= 7500;
}

/// The view of a sequence of entries.
pub open spec fn entries(v: Seq<LeapSec>) -> Seq<Entry> {
    v.map_values(|e: LeapSec| e@)
}

/// A `Result` whose success is a list, viewed as its entries.
pub open spec fn list_result(r: Result<LeapSecs, Error>) -> Result<Seq<Entry>, Error> {
    match r {
        Ok(l) => Ok(l@),
        Err(e) => Err(e),
    }
}

/// A push returned what `spec` says, and left the builder at `before` on failure.
pub open spec fn applied(
    r: Result<(), Error>,
    before: Seq<Entry>,
    after: Seq<Entry>,
    spec: Result<Seq<Entry>, Error>,
) -> bool {
    match spec {
        Ok(s) => r is Ok && after == s,
        Err(e) => r == Err::<(), Error>(e) && after == before,
    }
}

/// A builder's entries after the epoch has been put in place.
pub open spec fn seeded(s: Seq<Entry>) -> Seq<Entry> {
    if s.len() == 0 { seq![epoch()] } else { s }
}

/// An optional DTAI value as an integer.
pub open spec fn opt_int(d: Option<i32>) -> Option<int> {
    match d {
        Some(v) => Some(v as int),
        None => None,
    }
}

/// A finished list of leap seconds: the epoch, the leap seconds in order,
/// and the expiry date.
#[derive(Debug, Eq)]
pub struct LeapSecs(Vec<LeapSec>);

impl PartialEq for LeapSecs {
    fn eq(&self, other: &LeapSecs) -> (r: bool) {
        let n = self.0.len();
        if n != other.0.len() {
            assert(self@.len() != other@.len());
            return false;
        }
        let mut i: usize = 0;
        while i < n
            invariant
                n == self.0@.len() == other.0@.len(),
                i <= n,
                forall|j: int| 0 <= j < i ==> self.0@[j] == other.0@[j],
            decreases n - i,
        {
            if self.0[i] != other.0[i] {
                assert(self@[i as int] != other@[i as int]);
                return false;
            }
            i = i + 1;
        }
        assert(self.0@ =~= other.0@);
        true
    }
}

impl vstd::std_specs::cmp::PartialEqSpecImpl for LeapSecs {
    open spec fn obeys_eq_spec() -> bool {
        true
    }

    open spec fn eq_spec(&self, other: &LeapSecs) -> bool {
        self@ == other@
    }
}

impl View for LeapSecs {
    type V = Seq<Entry>;

    closed spec fn view(&self) -> Seq<Entry> {
        entries(self.0@)
    }
}

impl LeapSecs {
    #[verifier::type_invariant]
    closed spec fn inv(&self) -> bool {
        finished(self@)
    }

    /// A new, empty builder.
    pub fn builder() -> (r: LeapSecBuilder)
        ensures
            r@ == Seq::<Entry>::empty(),
    {
        LeapSecBuilder::new()
    }

    /// The expiry date of the list.
    pub fn expires(&self) -> (r: MJD)
        ensures
            r.0 == entry_mjd(self@.last()),
    {
        proof {
            use_type_invariant(self);
        }
        self.0[self.0.len() - 1].mjd()
    }

    /// Whether the list has no entries; a finished list always has some.
    pub fn is_empty(&self) -> (r: bool)
        ensures
            r == (self@.len() == 0),
            !r,
    {
        proof {
            use_type_invariant(self);
        }
        self.0.len() == 0
    }

    /// The number of entries.
    pub fn len(&self) -> (r: usize)
        ensures
            r == self@.len(),
            finished(self@),
    {
        proof {
            use_type_invariant(self);
        }
        self.0.len()
    }

    /// The entry at index `i`.
    pub fn get(&self, i: usize) -> (r: LeapSec)
        requires
            i < self@.len(),
        ensures
            r@ == self@[i as int],
    {
        self.0[i]
    }

    /// The entries, in order.
    pub fn iter(&self) -> (r: std::slice::Iter<'_, LeapSec>)
        ensures
            entries(r.remaining().unref()) == self@,
    {
        broadcast use vstd::std_specs::slice::axiom_spec_slice_iter;

        let r = self.0.as_slice().iter();
        assert(r.remaining().unref() =~= self.0@);
        r
    }
}

/// Builds a [`LeapSecs`] list, checking each entry as it is pushed.
#[derive(Clone, Debug)]
pub struct LeapSecBuilder(Vec<LeapSec>);

impl View for LeapSecBuilder {
    type V = Seq<Entry>;

    closed spec fn view(&self) -> Seq<Entry> {
        entries(self.0@)
    }
}

/// What a well-formed sequence says of its entry at `i`.
pub(crate) proof fn lemma_wf_at(s: Seq<Entry>, i: int)
    requires
        well_formed(s),
        0 <= i < s.len(),
    ensures
        (s[i].dtai is Some) == (s[i].sign != Leap::Exp),
        0 <= s[i].month <= u16::MAX,
        fits_i16(s[i].dtai),
        i == 0 ==> s[i] == epoch(),
        i > 0 ==> {
            &&& 1 <= s[i].gap <= 999
            &&& 1 <= s[i].month
            &&& s[i].month == s[i - 1].month + s[i].gap
            &&& s[i].dtai == dtai_after_entry(s[i - 1], s[i].sign)
            &&& (s[i].sign == Leap::Exp || s[i].sign == Leap::Zero) ==> i == s.len() - 1
        },
{
    if i > 0 {
        assert(1 <= s[i].gap);
    }
}

/// A prefix of well-formed entries is well formed.
pub(crate) proof fn lemma_well_formed_take(s: Seq<Entry>, k: int)
    requires
        well_formed(s),
        1 <= k <= s.len(),
    ensures
        well_formed(s.take(k)),
{
    let t = s.take(k);
    lemma_wf_at(s, 0);
    assert(t[0] == s[0]);
    assert forall|i: int| 1 <= i < t.len() implies {
        &&& 1 <= #[trigger] t[i].gap <= 999
        &&& t[i].month == t[i - 1].month + t[i].gap
        &&& 1 <= t[i].month <= u16::MAX
        &&& t[i].dtai == dtai_after_entry(t[i - 1], t[i].sign)
        &&& (t[i].dtai is Some) == (t[i].sign != Leap::Exp)
        &&& fits_i16(t[i].dtai)
        &&& (t[i].sign == Leap::Exp || t[i].sign == Leap::Zero) ==> i == t.len() - 1
    } by {
        assert(t[i] == s[i] && t[i - 1] == s[i - 1]);
        lemma_wf_at(s, i);
    }
}

proof fn lemma_well_formed_drop_last(s: Seq<Entry>)
    requires
        well_formed(s),
        s.len() > 1,
    ensures
        well_formed(s.drop_last()),
{
    let t = s.drop_last();
    assert forall|i: int|
        1 <= i < t.len() && (t[i].sign == Leap::Exp || t[i].sign == Leap::Zero) implies i == t.len() - 1 by {
        assert(t[i] == s[i]);
        lemma_wf_at(s, i);
    }
}

impl Default for LeapSecBuilder {
    fn default() -> (r: LeapSecBuilder)
        ensures
            r@ == Seq::<Entry>::empty(),
            r.wf(),
    {
        LeapSecBuilder::new()
    }
}

impl LeapSecBuilder {
    /// The builder's entries are well formed; every operation keeps them so.
    pub open spec fn wf(&self) -> bool {
        well_formed(self@)
    }

    /// A new, empty builder.
    pub fn new() -> (r: LeapSecBuilder)
        ensures
            r@ == Seq::<Entry>::empty(),
            r.wf(),
    {
        let r = LeapSecBuilder(Vec::new());
        assert(r@ =~= Seq::<Entry>::empty());
        r
    }

    /// Check that the list ends with an expiry date after `today`, and
    /// return it.
    pub fn finish(self, today: MJD) -> (r: Result<LeapSecs, Error>)
        requires
            self.wf(),
        ensures
            list_result(r) == finish_spec(self@, today.0 as int),
            r matches Ok(l) ==> finished(l@),
    {
        let last = match self.last() {
            Ok(last) => last,
            Err(e) => return Err(e),
        };
        if last.sign != Leap::Exp {
            Err(Error::Truncated)
        } else if last.mjd().0 <= today.0 {
            Err(Error::Expired(last.date()))
        } else {
            Ok(LeapSecs(self.0))
        }
    }

    fn last(&self) -> (r: Result<LeapSec, Error>)
        ensures
            self@.len() == 0 ==> r == Err::<LeapSec, Error>(Error::Empty),
            self@.len() > 0 ==> (r matches Ok(l) && l@ == self@.last()),
    {
        let n = self.0.len();
        if n == 0 {
            Err(Error::Empty)
        } else {
            Ok(self.0[n - 1])
        }
    }

    fn push_start(&mut self)
        requires
            old(self)@.len() == 0,
        ensures
            final(self)@ == seq![epoch()],
            final(self).wf(),
    {
        let start = LeapSec::start();
        self.0.push(start);
        assert(self@ =~= seq![epoch()]);
    }

    fn push_leap_sec(
        &mut self,
        last: LeapSec,
        gap: i64,
        sign: Leap,
        month: i64,
        dtai: Option<i32>,
    ) -> (r: Result<(), Error>)
        requires
            old(self).wf(),
            old(self)@.len() > 0,
            last@ == old(self)@.last(),
            month == last@.month + gap,
            -0x100_0000_0000 <= gap <= 0x100_0000_0000,
            opt_int(dtai) == dtai_after_entry(last@, sign),
        ensures
            final(self).wf(),
            applied(
                r,
                old(self)@,
                final(self)@,
                append_spec(old(self)@, last@, gap as int, sign, month as int, opt_int(dtai)),
            ),
    {
        proof {
            lemma_wf_at(self@, self@.len() - 1);
        }
        if last.sign == Leap::Exp {
            return Err(Error::LeapAfterExp(last.date(), date_of(month, 1)));
        }
        let folding = last.sign == Leap::Zero && last.month != 0;
        let gap = if folding {
            gap + last.gap as i64
        } else {
            gap
        };
        if !(1 <= gap && gap <= 999) {
            return Err(Error::Gap(last.date(), gap, date_of(month, 1)));
        }
        if !(0 <= month && month <= u16::MAX as i64) {
            return Err(Error::FromInt);
        }
        let dtai = match dtai {
            Some(d) => {
                if !(i16::MIN as i32 <= d && d <= i16::MAX as i32) {
                    return Err(Error::FromInt);
                }
                Some(d as i16)
            },
            None => None,
        };
        let ghost before = self@;
        if folding {
            proof {
                lemma_well_formed_drop_last(before);
            }
            self.0.pop();
            assert(self@ =~= before.drop_last());
        }
        let ghost base = self@;
        let entry = LeapSec { gap: gap as u16, sign, month: month as u16, dtai };
        proof {
            lemma_well_formed_push(before, base, folding, entry@);
        }
        self.0.push(entry);
        assert(self@ =~= base.push(entry@));
        Ok(())
    }

    /// Add an entry `gap` months after the last one. The epoch is put in
    /// place first if the builder is empty. A [`Leap::Zero`] entry is
    /// filler: its gap is added to that of the entry pushed after it.
    pub fn push_gap(&mut self, gap: i32, sign: Leap) -> (r: Result<(), Error>)
        requires
            old(self).wf(),
        ensures
            final(self).wf(),
            applied(r, seeded(old(self)@), final(self)@, push_gap_spec(old(self)@, gap as int, sign)),
    {
        if self.0.len() == 0 {
            self.push_start();
        }
        let last = self.0[self.0.len() - 1];
        proof {
            lemma_wf_at(self@, self@.len() - 1);
        }
        let month = last.month as i64 + gap as i64;
        let dtai = match last.dtai {
            Some(d) => match sign {
                Leap::Zero => Some(d as i32),
                Leap::Neg => Some(d as i32 - 1),
                Leap::Pos => Some(d as i32 + 1),
                Leap::Exp => None,
            },
            None => None,
        };
        self.push_leap_sec(last, gap as i64, sign, month, dtai)
    }

    /// Add the expiry date, which must be the 28th of a month.
    pub fn push_exp(&mut self, date: Gregorian) -> (r: Result<(), Error>)
        requires
            old(self).wf(),
        ensures
            final(self).wf(),
            applied(r, old(self)@, final(self)@, push_exp_spec(old(self)@, date)),
    {
        let month = match month_of(date, EXPIRES_DATE) {
            Ok(m) => m,
            Err(e) => return Err(e),
        };
        let last = match self.last() {
            Ok(last) => last,
            Err(e) => return Err(e),
        };
        let gap = month - last.month as i64;
        self.push_leap_sec(last, gap, Leap::Exp, month, None)
    }

    /// Add a leap second on the first of a month, after which DTAI is
    /// `dtai`; its sign is the change from the previous entry's DTAI. The
    /// first call must give the epoch, 1972-01-01 with DTAI 10.
    pub fn push_date(&mut self, date: Gregorian, dtai: i16) -> (r: Result<(), Error>)
        requires
            old(self).wf(),
        ensures
            final(self).wf(),
            applied(r, old(self)@, final(self)@, push_date_spec(old(self)@, date, dtai)),
    {
        let month = match month_of(date, 1) {
            Ok(m) => m,
            Err(e) => return Err(e),
        };
        if self.0.len() == 0 {
            if month == 0 && dtai == 10 {
                self.push_start();
                return Ok(());
            } else {
                return Err(Error::FalseStart(date, dtai));
            }
        }
        let last = self.0[self.0.len() - 1];
        proof {
            lemma_wf_at(self@, self@.len() - 1);
        }
        if last.sign == Leap::Exp {
            return Err(Error::LeapAfterExp(last.date(), date_of(month, 1)));
        }
        let ldtai = last.dtai.unwrap();
        let delta = dtai as i32 - ldtai as i32;
        let sign = if delta == -1 {
            Leap::Neg
        } else if delta == 1 {
            Leap::Pos
        } else {
            return Err(Error::WrongLeap(last.date(), ldtai, date, dtai));
        };
        self.push_leap_sec(last, month - last.month as i64, sign, month, Some(dtai as i32))
    }
}

proof fn lemma_well_formed_push(before: Seq<Entry>, base: Seq<Entry>, folding: bool, e: Entry)
    requires
        well_formed(before),
        before.len() > 0,
        before.last().sign != Leap::Exp,
        folding == (before.last().sign == Leap::Zero && before.last().month != 0),
        folding ==> before.len() > 1 && base == before.drop_last(),
        !folding ==> base == before,
        1 <= e.gap <= 999,
        1 <= e.month <= u16::MAX,
        e.month == before.last().month + e.gap - (if folding { before.last().gap } else { 0 }),
        e.dtai == dtai_after_entry(before.last(), e.sign),
        (e.dtai is Some) == (e.sign != Leap::Exp),
        fits_i16(e.dtai),
    ensures
        well_formed(base.push(e)),
{
    let t = base.push(e);
    let n = before.len();
    if folding {
        assert(before[n - 1].month == before[n - 2].month + before[n - 1].gap);
        assert(before[n - 1].dtai == dtai_after_entry(before[n - 2], Leap::Zero));
    } else {
        lemma_wf_at(before, n - 1);
    }
    assert forall|i: int| 1 <= i < t.len() implies {
        &&& 1 <= #[trigger] t[i].gap <= 999
        &&& t[i].month == t[i - 1].month + t[i].gap
        &&& 1 <= t[i].month <= u16::MAX
        &&& t[i].dtai == dtai_after_entry(t[i - 1], t[i].sign)
        &&& (t[i].dtai is Some) == (t[i].sign != Leap::Exp)
        &&& fits_i16(t[i].dtai)
        &&& (t[i].sign == Leap::Exp || t[i].sign == Leap::Zero) ==> i == t.len() - 1
    } by {
        if i < t.len() - 1 {
            assert(t[i] == before[i]);
            assert(t[i - 1] == before[i - 1]);
            lemma_wf_at(before, i);
        } else {
            lemma_wf_at(base, base.len() - 1);
        }
    }
    assert(t[0] == before[0]);
}

/// A push onto well-formed entries leaves them well formed.
pub(crate) proof fn lemma_push_gap_wf(s: Seq<Entry>, gap: int, sign: Leap)
    requires
        well_formed(s),
    ensures
        push_gap_spec(s, gap, sign) matches Ok(t) ==> well_formed(t),
{
    let s0 = seeded(s);
    assert(well_formed(s0)) by {
        if s.len() == 0 {
            assert(s0 == seq![epoch()]);
        }
    }
    let last = s0.last();
    lemma_wf_at(s0, s0.len() - 1);
    if push_gap_spec(s, gap, sign) is Ok {
        let folding = last.sign == Leap::Zero && last.month != 0;
        let g = if folding { gap + last.gap } else { gap };
        let base = if folding { s0.drop_last() } else { s0 };
        if folding {
            assert(s0.len() > 1);
            lemma_wf_at(s0, s0.len() - 2);
        }
        let e = Entry {
            gap: g,
            sign,
            month: last.month + gap,
            dtai: dtai_after_entry(last, sign),
        };
        lemma_well_formed_push(s0, base, folding, e);
    }
}

/// The first entry of every finished list is the epoch: month 0 (1972-01),
/// no leap, DTAI 10.
pub proof fn epoch_first(s: Seq<Entry>)
    requires
        finished(s),
    ensures
        s[0].month == 0,
        s[0].sign == Leap::Zero,
        s[0].dtai == Some(10int),
{
    lemma_wf_at(s, 0);
}

/// In a finished list each entry after the epoch moves DTAI by exactly one
/// second from the entry before: down for a negative leap second, up for a
/// positive one; the expiry date has no DTAI.
pub proof fn dtai_steps(s: Seq<Entry>, i: int)
    requires
        finished(s),
        1 <= i < s.len(),
    ensures
        s[i - 1].dtai is Some,
        s[i].sign != Leap::Zero,
        s[i].sign == Leap::Neg ==> s[i].dtai == Some(s[i - 1].dtai->0 - 1),
        s[i].sign == Leap::Pos ==> s[i].dtai == Some(s[i - 1].dtai->0 + 1),
        s[i].sign == Leap::Exp ==> s[i].dtai is None && i == s.len() - 1,
{
    lemma_wf_at(s, i);
    lemma_wf_at(s, i - 1);
    lemma_wf_at(s, s.len() - 1);
}

/// A gap of zero, a negative gap, or a gap of 1000 months or more fails
/// with `Gap` when pushed onto a new builder, or onto any builder whose
/// last entry is neither filler nor the expiry date.
pub proof fn gap_out_of_range(s: Seq<Entry>, gap: int, sign: Leap)
    requires
        well_formed(s),
        s.len() > 0 ==> s.last().sign != Leap::Exp && (s.last().sign == Leap::Zero
            ==> s.last().month == 0),
        gap <= 0 || gap >= 1000,
    ensures
        push_gap_spec(s, gap, sign) matches Err(Error::Gap(..)),
{
}

} // verus!

