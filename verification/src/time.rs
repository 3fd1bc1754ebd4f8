//! A fixed-point elapsed time: a non-negative count of microsecond ticks,
//! with parsing from `M:SS.CC`-style text, saturating addition, and the
//! canonical fixed-width text rendering.

use vstd::prelude::*;
use vstd::string::StringExecFns;

use crate::num_text::all_digits;
use crate::num_text::chars_of;
use crate::num_text::dec_rep;
use crate::num_text::digit_char;
use crate::num_text::is_digit_char;
use crate::num_text::is_uint_text;
use crate::num_text::lemma_dec_rep_digits;
use crate::num_text::lemma_uint_val_bound;
use crate::num_text::pad2;
use crate::num_text::parse_u64_checked;
use crate::num_text::parse_u64_sat;
use crate::num_text::pow10;
use crate::num_text::push_dec;
use crate::num_text::push_digit;
use crate::num_text::push_pad2;
use crate::num_text::sat_add;
use crate::num_text::sat_add_spec;
use crate::num_text::string_from_chars;
use crate::num_text::subvec;
use crate::num_text::uint_val;

verus! {

/// Ticks (microseconds) in one second.
pub const TICKS_PER_SECOND: u64 = 1_000_000;

/// Ticks in one minute.
pub const TICKS_PER_MINUTE: u64 = 60_000_000;

/// An elapsed time, counted in microsecond ticks.
///
/// Values outside the representable range saturate at `u64::MAX` ticks:
/// addition and parsing never wrap and never fail on overflow.
#[derive(Debug, Clone, Copy, PartialEq, Eq, Structural, PartialOrd, Ord, Hash)]
pub struct Time {
    ticks: u64,
}

impl View for Time {
    type V = u64;

    closed spec fn view(&self) -> u64 {
        self.ticks
    }
}

impl Time {
    /// The time `0.0 s`.
    pub fn zero() -> (t: Time)
        ensures
            t@ == 0,
    {
        Time { ticks: 0 }
    }

    /// The time holding exactly `ticks` microseconds.
    pub fn from_micros(ticks: u64) -> (t: Time)
        ensures
            t@ == ticks,
    {
        Time { ticks }
    }

    /// The tick count this time holds.
    pub fn ticks(&self) -> (r: u64)
        ensures
            r == self@,
    {
        self.ticks
    }

    /// The whole number of elapsed minutes.
    pub fn minute(&self) -> (m: u64)
        ensures
            m == self@ / TICKS_PER_MINUTE,
    {
        self.ticks / TICKS_PER_MINUTE
    }

    /// The ticks elapsed within the current minute.
    pub fn second_ticks(&self) -> (s: u64)
        ensures
            s == self@ % TICKS_PER_MINUTE,
    {
        self.ticks % TICKS_PER_MINUTE
    }

    /// The sum of two times, saturating at the largest representable value.
    pub fn add(self, rhs: Time) -> (t: Time)
        ensures
            t@ == sat_add_spec(self@ as nat, rhs@ as nat),
    {
        Time { ticks: sat_add(self.ticks, rhs.ticks) }
    }

    /// Adds `rhs` to this time in place, saturating.
    pub fn add_assign(&mut self, rhs: Time)
        ensures
            final(self)@ == sat_add_spec(old(self)@ as nat, rhs@ as nat),
    {
        self.ticks = sat_add(self.ticks, rhs.ticks);
    }

    /// True when this time is strictly earlier than `other`.
    pub fn lt(&self, other: &Time) -> (r: bool)
        ensures
            r == (self@ < other@),
    {
        self.ticks < other.ticks
    }
}

impl Default for Time {
    /// The default time is zero.
    fn default() -> (t: Time)
        ensures
            t@ == 0,
    {
        Time { ticks: 0 }
    }
}

// ------------------------------------------------------------------
// Rendering
// ------------------------------------------------------------------

/// The sub-minute part of `t` in centiseconds, rounded half up: the value
/// behind the two decimal places of the seconds field.
pub open spec fn raw_centis(t: u64) -> int {
    (t % TICKS_PER_MINUTE + 5000) / 10000
}

/// The minute count displayed for `t`: the elapsed minutes, plus one when
/// the seconds field rounds up to a full minute (the carry correction).
pub open spec fn shown_minutes(t: u64) -> int {
    if raw_centis(t) == 6000 {
        (t as int) / (TICKS_PER_MINUTE as int) + 1
    } else {
        (t as int) / (TICKS_PER_MINUTE as int)
    }
}

/// The centiseconds displayed for `t`: zero under the carry correction.
pub open spec fn shown_centis(t: u64) -> int {
    if raw_centis(t) == 6000 {
        0
    } else {
        raw_centis(t)
    }
}

/// The minute field: right-justified in width two, growing for one hundred
/// minutes and more.
pub open spec fn min_field(m: nat) -> Seq<char> {
    if m < 10 {
        seq![' ', digit_char(m)]
    } else {
        dec_rep(m)
    }
}

/// The five-character seconds field with a space-padded whole part, used
/// when no minutes are shown.
pub open spec fn sec_field_blank(cs: nat) -> Seq<char> {
    (if cs / 100 < 10 {
        seq![' ', digit_char(cs / 100)]
    } else {
        pad2(cs / 100)
    }) + seq!['.'] + pad2(cs % 100)
}

/// The five-character seconds field with a zero-padded whole part, used
/// when minutes are shown.
pub open spec fn sec_field_padded(cs: nat) -> Seq<char> {
    pad2(cs / 100) + seq!['.'] + pad2(cs % 100)
}

/// The canonical fixed-width rendering of a tick count: two blanks and a
/// colon before a space-padded seconds field when no minute is shown, else
/// the minute field, a colon, and a zero-padded seconds field.
pub open spec fn render_spec(t: u64) -> Seq<char> {
    let m = shown_minutes(t) as nat;
    let cs = shown_centis(t) as nat;
    if m == 0 {
        seq![' ', ' ', ':'] + sec_field_blank(cs)
    } else {
        min_field(m) + seq![':'] + sec_field_padded(cs)
    }
}

impl Time {
    /// The canonical text of this time, e.g. `"  : 3.21"` or `"65:43.21"`.
    ///
    /// Seconds are shown with exactly two decimals, rounded half up; when
    /// they would round to `60.00`, the minute count is incremented instead
    /// and the seconds show as `00.00`.
    pub fn render(&self) -> (r: String)
        ensures
            r@ == render_spec(self@),
    {
        proof {
            reveal_strlit("  :");
            reveal_strlit(" ");
            reveal_strlit(":");
            reveal_strlit(".");
        }
        let t = self.ticks;
        let m = t / TICKS_PER_MINUTE;
        let st = t % TICKS_PER_MINUTE;
        let c0 = (st + 5000) / 10000;
        let m2: u64;
        let cs: u64;
        if c0 == 6000 {
            assert(m <= u64::MAX / TICKS_PER_MINUTE);
            m2 = m + 1;
            cs = 0;
        } else {
            m2 = m;
            cs = c0;
        }
        let mut out = String::new();
        if m2 == 0 {
            out.append("  :");
            let w = cs / 100;
            if w < 10 {
                out.append(" ");
                push_digit(&mut out, w);
            } else {
                push_pad2(&mut out, w);
            }
            out.append(".");
            push_pad2(&mut out, cs % 100);
        } else {
            if m2 < 10 {
                out.append(" ");
                push_digit(&mut out, m2);
            } else {
                push_dec(&mut out, m2);
            }
            out.append(":");
            push_pad2(&mut out, cs / 100);
            out.append(".");
            push_pad2(&mut out, cs % 100);
        }
        proof {
            assert(out@ =~= render_spec(self@));
        }
        out
    }
}

/// The rendering of any tick count is at least eight characters and has the
/// `M:SS.CC` shape: a colon six places from the end, a dot three from the
/// end, digits around the dot, and before the colon a minute field of width
/// at least two holding only spaces and digits.
pub proof fn lemma_render_shape(t: u64)
    ensures
        render_spec(t).len() >= 8,
        render_spec(t)[render_spec(t).len() - 6] == ':',
        render_spec(t)[render_spec(t).len() - 3] == '.',
        is_digit_char(render_spec(t)[render_spec(t).len() - 5]) || render_spec(t)[render_spec(
            t,
        ).len() - 5] == ' ',
        is_digit_char(render_spec(t)[render_spec(t).len() - 4]),
        is_digit_char(render_spec(t)[render_spec(t).len() - 2]),
        is_digit_char(render_spec(t)[render_spec(t).len() - 1]),
        forall|i: int|
            0 <= i < render_spec(t).len() - 6 ==> (render_spec(t)[i] == ' ' || is_digit_char(
                render_spec(t)[i],
            )),
{
    let m = shown_minutes(t) as nat;
    if m >= 10 {
        lemma_dec_rep_digits(m);
    }
}

// ------------------------------------------------------------------
// Parsing
// ------------------------------------------------------------------

/// How often `c` occurs in `s`.
pub open spec fn count_ch(s: Seq<char>, c: char) -> nat
    decreases s.len(),
{
    if s.len() == 0 {
        0
    } else {
        count_ch(s.drop_last(), c) + if s.last() == c {
            1nat
        } else {
            0nat
        }
    }
}

/// The index of the first occurrence of `c` in `s`, or the length of `s`
/// when there is none.
pub open spec fn first_ch(s: Seq<char>, c: char) -> int
    decreases s.len(),
{
    if s.len() == 0 {
        0
    } else if s[0] == c {
        0
    } else {
        1 + first_ch(s.drop_first(), c)
    }
}

/// A prefix never holds more occurrences than the whole.
pub proof fn lemma_count_ch_mono(s: Seq<char>, c: char, k: int)
    requires
        0 <= k <= s.len(),
    ensures
        count_ch(s.take(k), c) <= count_ch(s, c),
    decreases s.len(),
{
    if k == s.len() {
        assert(s.take(k) =~= s);
    } else if s.len() > 0 {
        assert(s.take(k) =~= s.drop_last().take(k));
        lemma_count_ch_mono(s.drop_last(), c, k);
    }
}

/// The first occurrence of `c` is at `i` when nothing before `i` is `c`,
/// and either `s[i]` is `c` or `i` is the length of `s`.
pub proof fn lemma_first_ch_at(s: Seq<char>, c: char, i: int)
    requires
        0 <= i <= s.len(),
        forall|j: int| 0 <= j < i ==> s[j] != c,
        i < s.len() ==> s[i] == c,
    ensures
        first_ch(s, c) == i,
    decreases i,
{
    if s.len() > 0 && i > 0 {
        assert forall|j: int| 0 <= j < i - 1 implies s.drop_first()[j] != c by {
            assert(s[j + 1] != c);
        }
        lemma_first_ch_at(s.drop_first(), c, i - 1);
    }
}

/// The minutes field of a reading: what stands before the first colon, or
/// the literal digit zero when there is no colon.
pub open spec fn minutes_part(s: Seq<char>) -> Seq<char> {
    if count_ch(s, ':') == 0 {
        seq!['0']
    } else {
        s.take(first_ch(s, ':'))
    }
}

/// The seconds field of a reading: what stands after the first colon, or
/// the whole text when there is no colon.
pub open spec fn seconds_part(s: Seq<char>) -> Seq<char> {
    if count_ch(s, ':') == 0 {
        s
    } else {
        s.skip(first_ch(s, ':') + 1)
    }
}

/// A well-formed minutes field: a non-empty run of digits whose value fits
/// a `u64`.
pub open spec fn minutes_ok(m: Seq<char>) -> bool {
    is_uint_text(m) && uint_val(m) <= u64::MAX
}

/// A well-formed seconds field: digits with at most one dot among them and
/// at least one digit.
pub open spec fn is_seconds_text(s: Seq<char>) -> bool {
    &&& count_ch(s, '.') <= 1
    &&& s.len() > count_ch(s, '.')
    &&& forall|i: int| 0 <= i < s.len() ==> (is_digit_char(#[trigger] s[i]) || s[i] == '.')
}

/// The fractional digits padded or truncated to exactly six: the digits
/// behind the microsecond count.
pub open spec fn frac6(f: Seq<char>) -> Seq<char> {
    if f.len() >= 6 {
        f.take(6)
    } else {
        f + Seq::new((6 - f.len()) as nat, |i: int| '0')
    }
}

/// The whole-seconds digits of a seconds field: what stands before the dot.
pub open spec fn seconds_whole(s: Seq<char>) -> Seq<char> {
    s.take(first_ch(s, '.'))
}

/// The fractional digits of a seconds field: what stands after the dot.
pub open spec fn seconds_frac(s: Seq<char>) -> Seq<char> {
    if first_ch(s, '.') < s.len() {
        s.skip(first_ch(s, '.') + 1)
    } else {
        Seq::empty()
    }
}

/// The tick value of a seconds field: whole seconds in ticks plus the first
/// six fractional digits, further digits truncated.
pub open spec fn seconds_ticks(s: Seq<char>) -> int {
    uint_val(seconds_whole(s)) * (TICKS_PER_SECOND as int) + uint_val(frac6(seconds_frac(s)))
}

/// The tick count a reading denotes, saturating at `u64::MAX`.
pub open spec fn parsed_ticks(mp: Seq<char>, sp: Seq<char>) -> int {
    let exact = uint_val(mp) * (TICKS_PER_MINUTE as int) + seconds_ticks(sp);
    if exact > u64::MAX {
        u64::MAX as int
    } else {
        exact
    }
}

/// Why a reading failed to parse.
#[derive(Debug)]
pub enum ParseError {
    /// The text holds more than one colon; the payload is the whole text.
    TooManyParts(String),
    /// The minutes field is not a digit run that fits a `u64`; the payload
    /// is that field.
    InvalidMinutes(String),
    /// The seconds field is not a decimal seconds count; the payload is
    /// that field.
    InvalidSeconds(String),
}

/// `m` minutes as ticks, saturating at `u64::MAX`.
fn sat_mul_minute(m: u64) -> (r: u64)
    ensures
        (m as int) * (TICKS_PER_MINUTE as int) > u64::MAX ==> r == u64::MAX,
        (m as int) * (TICKS_PER_MINUTE as int) <= u64::MAX ==> r == (m as int) * (
        TICKS_PER_MINUTE as int),
{
    if m > u64::MAX / TICKS_PER_MINUTE {
        proof {
            assert((m as int) * (TICKS_PER_MINUTE as int) > u64::MAX) by (nonlinear_arith)
                requires
                    m as int > (u64::MAX as int) / (TICKS_PER_MINUTE as int),
            ;
        }
        u64::MAX
    } else {
        proof {
            assert((m as int) * (TICKS_PER_MINUTE as int) <= u64::MAX) by (nonlinear_arith)
                requires
                    m as int <= (u64::MAX as int) / (TICKS_PER_MINUTE as int),
            ;
        }
        m * TICKS_PER_MINUTE
    }
}

/// `w` whole seconds as ticks, saturating at `u64::MAX`.
fn sat_mul_second(w: u64) -> (r: u64)
    ensures
        (w as int) * (TICKS_PER_SECOND as int) > u64::MAX ==> r == u64::MAX,
        (w as int) * (TICKS_PER_SECOND as int) <= u64::MAX ==> r == (w as int) * (
        TICKS_PER_SECOND as int),
{
    if w > u64::MAX / TICKS_PER_SECOND {
        proof {
            assert((w as int) * (TICKS_PER_SECOND as int) > u64::MAX) by (nonlinear_arith)
                requires
                    w as int > (u64::MAX as int) / (TICKS_PER_SECOND as int),
            ;
        }
        u64::MAX
    } else {
        proof {
            assert((w as int) * (TICKS_PER_SECOND as int) <= u64::MAX) by (nonlinear_arith)
                requires
                    w as int <= (u64::MAX as int) / (TICKS_PER_SECOND as int),
            ;
        }
        w * TICKS_PER_SECOND
    }
}

/// Parses a seconds field: its saturated tick value, or nothing when the
/// field is not a well-formed seconds text.
#[verifier::loop_isolation(false)]
fn parse_seconds(v: &Vec<char>) -> (r: Option<u64>)
    ensures
        match r {
            Some(x) => {
                &&& is_seconds_text(v@)
                &&& seconds_ticks(v@) > u64::MAX ==> x == u64::MAX
                &&& seconds_ticks(v@) <= u64::MAX ==> x == seconds_ticks(v@)
            },
            None => !is_seconds_text(v@),
        },
{
    let n = v.len();
    let mut i: usize = 0;
    let mut ndot: usize = 0;
    let mut firstd: usize = n;
    while i < n
        invariant
            i <= n,
            n == v@.len(),
            ndot <= 1,
            ndot == count_ch(v@.take(i as int), '.'),
            forall|j: int| 0 <= j < i ==> (is_digit_char(#[trigger] v@[j]) || v@[j] == '.'),
            ndot == 0 ==> firstd == n && (forall|j: int| 0 <= j < i ==> v@[j] != '.'),
            ndot >= 1 ==> firstd < i && v@[firstd as int] == '.' && (forall|j: int|
                0 <= j < firstd ==> v@[j] != '.'),
            ndot == 1 ==> forall|j: int| firstd < j < i ==> v@[j] != '.',
        decreases n - i,
    {
        let c = v[i];
        proof {
            assert(v@.take(i as int + 1).drop_last() =~= v@.take(i as int));
            assert(v@.take(i as int + 1).last() == v@[i as int]);
        }
        if c == '.' {
            if ndot == 0 {
                firstd = i;
            } else {
                proof {
                    lemma_count_ch_mono(v@, '.', i as int + 1);
                }
                return None;
            }
            ndot += 1;
        } else {
            let u = c as u32;
            if u < 48 || u > 57 {
                proof {
                    assert(!(is_digit_char(v@[i as int]) || v@[i as int] == '.'));
                }
                return None;
            }
        }
        i += 1;
    }
    proof {
        assert(v@.take(n as int) =~= v@);
    }
    if n == ndot {
        return None;
    }
    // The whole-seconds digits stand before the dot.
    let whole_v = subvec(v, 0, firstd);
    proof {
        lemma_first_ch_at(v@, '.', firstd as int);
        assert(whole_v@ =~= seconds_whole(v@));
        assert(all_digits(whole_v@));
    }
    let w_sat = parse_u64_sat(&whole_v);
    // The fractional digits: at most six of them, zero-padded to six.
    let start: usize = if ndot == 0 {
        n
    } else {
        firstd + 1
    };
    let end: usize = if n - start > 6 {
        start + 6
    } else {
        n
    };
    let mut fv = subvec(v, start, end);
    let ghost sf = seconds_frac(v@);
    proof {
        if ndot == 0 {
            assert(sf =~= Seq::<char>::empty());
            assert(fv@ =~= frac6(sf).take(fv@.len() as int));
        } else {
            assert(sf =~= v@.skip(firstd as int + 1));
            if sf.len() >= 6 {
                assert(fv@ =~= frac6(sf));
                assert(fv@ =~= frac6(sf).take(fv@.len() as int));
            } else {
                assert(fv@ =~= sf);
                assert(fv@ =~= frac6(sf).take(fv@.len() as int));
            }
        }
        assert(frac6(sf).len() == 6);
        assert forall|j: int| 0 <= j < frac6(sf).len() implies is_digit_char(frac6(sf)[j]) by {
            if j < sf.len() && j < 6 {
                assert(ndot == 1);
                assert(frac6(sf)[j] == sf[j]);
                assert(sf[j] == v@[start as int + j]);
                assert(is_digit_char(v@[start as int + j]) || v@[start as int + j] == '.');
                assert(start as int + j > firstd as int);
                assert(v@[start as int + j] != '.');
            } else {
                assert(frac6(sf)[j] == '0');
            }
        }
        assert(all_digits(frac6(sf)));
    }
    while fv.len() < 6
        invariant
            sf.len() <= fv@.len() || fv@.len() == 6,
            fv@.len() <= 6,
            fv@ == frac6(sf).take(fv@.len() as int),
        decreases 6 - fv@.len(),
    {
        proof {
            assert(frac6(sf)[fv@.len() as int] == '0');
        }
        fv.push('0');
        proof {
            assert(fv@ =~= frac6(sf).take(fv@.len() as int));
        }
    }
    proof {
        assert(fv@ =~= frac6(sf));
        lemma_uint_val_bound(frac6(sf));
        assert(pow10(0) == 1);
        assert(pow10(1) == 10);
        assert(pow10(2) == 100);
        assert(pow10(3) == 1000);
        assert(pow10(4) == 10000);
        assert(pow10(5) == 100000);
        assert(pow10(6) == 1000000);
    }
    let f = parse_u64_sat(&fv);
    let wt = sat_mul_second(w_sat);
    let total = sat_add(wt, f);
    proof {
        let wv = uint_val(seconds_whole(v@)) as int;
        let fval = uint_val(frac6(sf)) as int;
        assert(seconds_ticks(v@) == wv * (TICKS_PER_SECOND as int) + fval);
        assert(fval < 1000000);
        assert(f == fval);
        if wv > u64::MAX {
            assert(wv * (TICKS_PER_SECOND as int) >= wv) by (nonlinear_arith)
                requires
                    wv >= 0,
            ;
            assert(w_sat == u64::MAX);
            assert((u64::MAX as int) * (TICKS_PER_SECOND as int) > u64::MAX);
            assert(wt == u64::MAX);
            assert(total == u64::MAX);
            assert(seconds_ticks(v@) > u64::MAX);
        } else {
            assert(w_sat == wv);
            if wv * (TICKS_PER_SECOND as int) > u64::MAX {
                assert(wt == u64::MAX);
                assert(total == u64::MAX);
            } else {
                assert(wt == wv * (TICKS_PER_SECOND as int));
            }
        }
    }
    Some(total)
}

impl Time {
    /// Parses a reading such as `"1:23.45"` or `"43.21"`: an optional
    /// minutes field before a colon, then a seconds field of digits with an
    /// optional dot.
    ///
    /// More than one colon, a minutes field that is not a `u64` digit run,
    /// or a malformed seconds field is refused, naming the offending text.
    /// A value beyond the representable range saturates at `u64::MAX`
    /// ticks. Seconds of sixty or more are taken as given, not normalized.
    pub fn parse(s: &str) -> (r: Result<Time, ParseError>)
        ensures
            match r {
                Ok(t) => {
                    &&& count_ch(s@, ':') <= 1
                    &&& minutes_ok(minutes_part(s@))
                    &&& is_seconds_text(seconds_part(s@))
                    &&& t@ == parsed_ticks(minutes_part(s@), seconds_part(s@))
                },
                Err(ParseError::TooManyParts(txt)) => count_ch(s@, ':') >= 2 && txt@ == s@,
                Err(ParseError::InvalidMinutes(txt)) => {
                    &&& count_ch(s@, ':') <= 1
                    &&& !minutes_ok(minutes_part(s@))
                    &&& txt@ == minutes_part(s@)
                },
                Err(ParseError::InvalidSeconds(txt)) => {
                    &&& count_ch(s@, ':') <= 1
                    &&& minutes_ok(minutes_part(s@))
                    &&& !is_seconds_text(seconds_part(s@))
                    &&& txt@ == seconds_part(s@)
                },
            },
    {
        let cs = chars_of(s);
        let n = cs.len();
        let mut i: usize = 0;
        let mut ncolon: usize = 0;
        let mut firstc: usize = n;
        #[verifier::loop_isolation(false)]
        while i < n
            invariant
                i <= n,
                n == cs@.len(),
                ncolon <= i,
                ncolon == count_ch(cs@.take(i as int), ':'),
                ncolon == 0 ==> firstc == n && (forall|j: int| 0 <= j < i ==> cs@[j] != ':'),
                ncolon >= 1 ==> firstc < i && cs@[firstc as int] == ':' && (forall|j: int|
                    0 <= j < firstc ==> cs@[j] != ':'),
            decreases n - i,
        {
            proof {
                assert(cs@.take(i as int + 1).drop_last() =~= cs@.take(i as int));
                assert(cs@.take(i as int + 1).last() == cs@[i as int]);
            }
            if cs[i] == ':' {
                if ncolon == 0 {
                    firstc = i;
                }
                ncolon += 1;
            }
            i += 1;
        }
        proof {
            assert(cs@.take(n as int) =~= cs@);
        }
        if ncolon >= 2 {
            return Err(ParseError::TooManyParts(s.to_owned()));
        }
        let min_v: Vec<char>;
        let sec_v: Vec<char>;
        if ncolon == 0 {
            let mut mv: Vec<char> = Vec::new();
            mv.push('0');
            min_v = mv;
            sec_v = subvec(&cs, 0, n);
            proof {
                assert(min_v@ =~= minutes_part(cs@));
                assert(sec_v@ =~= seconds_part(cs@));
            }
        } else {
            proof {
                lemma_first_ch_at(cs@, ':', firstc as int);
            }
            min_v = subvec(&cs, 0, firstc);
            sec_v = subvec(&cs, firstc + 1, n);
            proof {
                assert(min_v@ =~= minutes_part(cs@));
                assert(sec_v@ =~= seconds_part(cs@));
            }
        }
        let m = match parse_u64_checked(&min_v) {
            Some(m) => m,
            None => {
                return Err(ParseError::InvalidMinutes(string_from_chars(&min_v)));
            },
        };
        let secv = match parse_seconds(&sec_v) {
            Some(x) => x,
            None => {
                return Err(ParseError::InvalidSeconds(string_from_chars(&sec_v)));
            },
        };
        let mticks = sat_mul_minute(m);
        let total = sat_add(mticks, secv);
        proof {
            let mv = uint_val(min_v@) as int;
            let sv = seconds_ticks(sec_v@);
            assert(mv * (TICKS_PER_MINUTE as int) >= 0) by (nonlinear_arith)
                requires
                    mv >= 0,
            ;
            assert(sv >= 0);
        }
        Ok(Time { ticks: total })
    }
}

/// Saturating tick addition is commutative.
pub proof fn lemma_add_commutative(a: nat, b: nat)
    ensures
        sat_add_spec(a, b) == sat_add_spec(b, a),
{
}

/// Saturating tick addition is associative.
pub proof fn lemma_add_associative(a: nat, b: nat, c: nat)
    ensures
        sat_add_spec(sat_add_spec(a, b), c) == sat_add_spec(a, sat_add_spec(b, c)),
{
}

} // verus!
