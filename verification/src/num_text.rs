//! Decimal text: digit characters, decimal representations of integers,
//! numeric values of digit strings, and saturating `u64` arithmetic used to
//! keep tick counts inside the representable range.

use vstd::prelude::*;
use vstd::string::StringExecFns;

verus! {

/// True of the ten ASCII digit characters.
pub open spec fn is_digit_char(c: char) -> bool {
    48 <= c as u32 && c as u32 <= 57
}

/// The numeric value of an ASCII digit character.
pub open spec fn digit_val(c: char) -> nat {
    (c as u32 - 48) as nat
}

/// The digit character for a value below ten.
pub open spec fn digit_char(d: nat) -> char {
    if d == 0 {
        '0'
    } else if d == 1 {
        '1'
    } else if d == 2 {
        '2'
    } else if d == 3 {
        '3'
    } else if d == 4 {
        '4'
    } else if d == 5 {
        '5'
    } else if d == 6 {
        '6'
    } else if d == 7 {
        '7'
    } else if d == 8 {
        '8'
    } else {
        '9'
    }
}

/// The decimal representation of `n`, most significant digit first, with no
/// leading zeros (`0` is rendered as the single digit `0`).
pub open spec fn dec_rep(n: nat) -> Seq<char>
    decreases n,
{
    if n < 10 {
        seq![digit_char(n)]
    } else {
        dec_rep(n / 10).push(digit_char(n % 10))
    }
}

/// True of a sequence all of whose characters are ASCII digits.
pub open spec fn all_digits(s: Seq<char>) -> bool {
    forall|i: int| 0 <= i < s.len() ==> is_digit_char(s[i])
}

/// True of a non-empty sequence of ASCII digits.
pub open spec fn is_uint_text(s: Seq<char>) -> bool {
    s.len() > 0 && all_digits(s)
}

/// The numeric value of a sequence of ASCII digits read in base ten.
pub open spec fn uint_val(s: Seq<char>) -> nat
    decreases s.len(),
{
    if s.len() == 0 {
        0
    } else {
        uint_val(s.drop_last()) * 10 + digit_val(s.last())
    }
}

/// Two zero-padded digits for a value below one hundred.
pub open spec fn pad2(n: nat) -> Seq<char> {
    seq![digit_char(n / 10), digit_char(n % 10)]
}

/// The digit character for `d`, which must be below ten.
pub fn digit_char_of(d: u64) -> (c: char)
    requires
        d < 10,
    ensures
        c == digit_char(d as nat),
{
    match d {
        0 => '0',
        1 => '1',
        2 => '2',
        3 => '3',
        4 => '4',
        5 => '5',
        6 => '6',
        7 => '7',
        8 => '8',
        _ => '9',
    }
}

/// The decimal digits of `n`, most significant first.
pub fn u64_to_dec(n: u64) -> (r: Vec<char>)
    ensures
        r@ == dec_rep(n as nat),
    decreases n,
{
    if n < 10 {
        let mut v: Vec<char> = Vec::new();
        v.push(digit_char_of(n));
        assert(v@ =~= dec_rep(n as nat));
        v
    } else {
        let mut v = u64_to_dec(n / 10);
        v.push(digit_char_of(n % 10));
        assert(v@ =~= dec_rep(n as nat));
        v
    }
}

/// The sum of two tick counts, saturating at the largest representable value.
pub open spec fn sat_add_spec(a: nat, b: nat) -> nat {
    if a + b > u64::MAX {
        u64::MAX as nat
    } else {
        a + b
    }
}

/// Saturating addition on `u64`.
pub fn sat_add(a: u64, b: u64) -> (r: u64)
    ensures
        r == sat_add_spec(a as nat, b as nat),
{
    if a > u64::MAX - b {
        u64::MAX
    } else {
        a + b
    }
}

/// Ten raised to `e`.
pub open spec fn pow10(e: nat) -> nat
    decreases e,
{
    if e == 0 {
        1
    } else {
        10 * pow10((e - 1) as nat)
    }
}

/// A decimal representation never has more digits than its value allows:
/// the value of `s` lies below ten to the length of `s`.
pub proof fn lemma_uint_val_bound(s: Seq<char>)
    requires
        all_digits(s),
    ensures
        uint_val(s) < pow10(s.len()),
    decreases s.len(),
{
    if s.len() > 0 {
        assert(all_digits(s.drop_last())) by {
            assert(forall|i: int|
                0 <= i < s.len() - 1 ==> s.drop_last()[i] == s[i] && is_digit_char(s[i]));
        }
        lemma_uint_val_bound(s.drop_last());
        assert(digit_val(s.last()) <= 9);
        let p = pow10((s.len() - 1) as nat);
        assert(uint_val(s.drop_last()) * 10 + 9 < 10 * p) by (nonlinear_arith)
            requires
                uint_val(s.drop_last()) < p,
        ;
    }
}

/// The decimal representation of `n` holds only digits; it has at least one,
/// and at least two when `n` is ten or more.
pub proof fn lemma_dec_rep_digits(n: nat)
    ensures
        all_digits(dec_rep(n)),
        dec_rep(n).len() >= 1,
        n >= 10 ==> dec_rep(n).len() >= 2,
    decreases n,
{
    if n >= 10 {
        lemma_dec_rep_digits(n / 10);
        assert forall|i: int| 0 <= i < dec_rep(n).len() implies is_digit_char(
            dec_rep(n)[i],
        ) by {
            if i < dec_rep(n / 10).len() {
                assert(dec_rep(n)[i] == dec_rep(n / 10)[i]);
            }
        }
    }
}

/// A one-character prefix step: the value of `s.take(k + 1)` extends that of
/// `s.take(k)` by the digit at `k`.
pub proof fn lemma_uint_val_step(s: Seq<char>, k: int)
    requires
        0 <= k < s.len(),
    ensures
        uint_val(s.take(k + 1)) == uint_val(s.take(k)) * 10 + digit_val(s[k]),
{
    assert(s.take(k + 1).drop_last() =~= s.take(k));
    assert(s.take(k + 1).last() == s[k]);
}

/// The value of a prefix never exceeds the value of the whole.
pub proof fn lemma_uint_val_prefix(s: Seq<char>, k: int)
    requires
        0 <= k <= s.len(),
    ensures
        uint_val(s.take(k)) <= uint_val(s),
    decreases s.len(),
{
    if k == s.len() {
        assert(s.take(k) =~= s);
    } else if s.len() > 0 {
        assert(s.take(k) =~= s.drop_last().take(k));
        lemma_uint_val_prefix(s.drop_last(), k);
        assert(uint_val(s.drop_last()) * 10 + digit_val(s.last()) >= uint_val(s.drop_last()));
    }
}

/// Parses a non-empty run of ASCII digits as a `u64`, refusing any other
/// text and any value too large for a `u64`.
pub fn parse_u64_checked(v: &Vec<char>) -> (r: Option<u64>)
    ensures
        match r {
            Some(x) => is_uint_text(v@) && uint_val(v@) <= u64::MAX && x == uint_val(v@),
            None => !(is_uint_text(v@) && uint_val(v@) <= u64::MAX),
        },
{
    if v.len() == 0 {
        return None;
    }
    let mut val: u64 = 0;
    let mut i: usize = 0;
    #[verifier::loop_isolation(false)]
    while i < v.len()
        invariant
            i <= v@.len(),
            all_digits(v@.take(i as int)),
            val == uint_val(v@.take(i as int)),
        decreases v@.len() - i,
    {
        let c = v[i];
        let u = c as u32;
        if u < 48 || u > 57 {
            return None;
        }
        let d = (u - 48) as u64;
        proof {
            lemma_uint_val_step(v@, i as int);
        }
        if val > (u64::MAX - d) / 10 {
            proof {
                lemma_uint_val_prefix(v@, i as int + 1);
            }
            return None;
        }
        val = val * 10 + d;
        proof {
            assert(v@.take(i as int + 1) =~= v@.take(i as int).push(c));
            assert(all_digits(v@.take(i as int + 1)));
        }
        i += 1;
    }
    proof {
        assert(v@.take(v@.len() as int) =~= v@);
    }
    Some(val)
}

/// Parses a run of ASCII digits as a `u64`, saturating at `u64::MAX`.
pub fn parse_u64_sat(v: &Vec<char>) -> (r: u64)
    requires
        all_digits(v@),
    ensures
        uint_val(v@) > u64::MAX ==> r == u64::MAX,
        uint_val(v@) <= u64::MAX ==> r == uint_val(v@),
{
    let mut val: u64 = 0;
    let mut i: usize = 0;
    #[verifier::loop_isolation(false)]
    while i < v.len()
        invariant
            i <= v@.len(),
            uint_val(v@.take(i as int)) > u64::MAX ==> val == u64::MAX,
            uint_val(v@.take(i as int)) <= u64::MAX ==> val == uint_val(v@.take(i as int)),
        decreases v@.len() - i,
    {
        let c = v[i];
        let u = c as u32;
        let d = (u - 48) as u64;
        proof {
            lemma_uint_val_step(v@, i as int);
        }
        if val > (u64::MAX - d) / 10 {
            val = u64::MAX;
        } else {
            val = val * 10 + d;
        }
        i += 1;
    }
    proof {
        assert(v@.take(v@.len() as int) =~= v@);
    }
    val
}

/// The characters `v[a..b]`, copied out in order.
pub fn subvec(v: &Vec<char>, a: usize, b: usize) -> (r: Vec<char>)
    requires
        a <= b <= v@.len(),
    ensures
        r@ == v@.subrange(a as int, b as int),
{
    let mut r: Vec<char> = Vec::new();
    let mut i: usize = a;
    #[verifier::loop_isolation(false)]
    while i < b
        invariant
            a <= i <= b,
            r@ == v@.subrange(a as int, i as int),
        decreases b - i,
    {
        r.push(v[i]);
        proof {
            assert(v@.subrange(a as int, i as int + 1) =~= v@.subrange(a as int, i as int).push(
                v@[i as int],
            ));
        }
        i += 1;
    }
    r
}

/// Relies on `Iterator::collect` for `String`: the collected string holds
/// exactly the given characters, in order.
#[verifier::external_body]
pub fn string_from_chars(v: &Vec<char>) -> (r: String)
    ensures
        r@ == v@,
{
    v.iter().collect()
}

/// Appends the digit character of `d` to `s`.
pub fn push_digit(s: &mut String, d: u64)
    requires
        d < 10,
    ensures
        final (s)@ == old(s)@ + seq![digit_char(d as nat)],
{
    proof {
        reveal_strlit("0");
        reveal_strlit("1");
        reveal_strlit("2");
        reveal_strlit("3");
        reveal_strlit("4");
        reveal_strlit("5");
        reveal_strlit("6");
        reveal_strlit("7");
        reveal_strlit("8");
        reveal_strlit("9");
    }
    match d {
        0 => s.append("0"),
        1 => s.append("1"),
        2 => s.append("2"),
        3 => s.append("3"),
        4 => s.append("4"),
        5 => s.append("5"),
        6 => s.append("6"),
        7 => s.append("7"),
        8 => s.append("8"),
        _ => s.append("9"),
    }
    proof {
        assert(s@ =~= old(s)@ + seq![digit_char(d as nat)]);
    }
}

/// Appends the decimal digits of `n` to `s`.
pub fn push_dec(s: &mut String, n: u64)
    ensures
        final (s)@ == old(s)@ + dec_rep(n as nat),
    decreases n,
{
    if n < 10 {
        push_digit(s, n);
    } else {
        push_dec(s, n / 10);
        push_digit(s, n % 10);
        proof {
            assert(s@ =~= old(s)@ + dec_rep(n as nat));
        }
    }
}

/// Appends the two zero-padded digits of `n` to `s`.
pub fn push_pad2(s: &mut String, n: u64)
    requires
        n < 100,
    ensures
        final (s)@ == old(s)@ + pad2(n as nat),
{
    push_digit(s, n / 10);
    push_digit(s, n % 10);
    proof {
        assert(s@ =~= old(s)@ + pad2(n as nat));
    }
}

/// The characters of `s`, in order.
pub fn chars_of(s: &str) -> (r: Vec<char>)
    ensures
        r@ == s@,
{
    broadcast use vstd::string::axiom_spec_iter;

    let mut v: Vec<char> = Vec::new();
    for c in it: s.chars()
        invariant
            it.seq() == s@,
            v@ == it.history(),
    {
        v.push(c);
    }
    proof {
        assert(v@ =~= s@);
    }
    v
}

} // verus!
