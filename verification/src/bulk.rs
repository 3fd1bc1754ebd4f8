//! Planning a frame sequence: the times of the frames spanning an interval
//! at a fixed frame step, the digit width of the frame file names, and the
//! zero-padded name of each frame.

use vstd::prelude::*;

use vstd::arithmetic::div_mod::lemma_fundamental_div_mod_converse;

use crate::num_text::dec_rep;
use crate::num_text::lemma_dec_rep_digits;
use crate::num_text::pow10;
use crate::num_text::string_from_chars;
use crate::num_text::u64_to_dec;
use crate::time::Time;

verus! {

/// How many frames span `limit` ticks at `step` ticks per frame: the
/// quotient rounded up.
pub open spec fn frame_count(limit: nat, step: nat) -> nat
    recommends
        step > 0,
{
    ((limit + step - 1) as int / step as int) as nat
}

/// The times of the frames spanning `limit` at `step` ticks per frame:
/// `0, step, 2 * step, …`, strictly below `limit`. There are exactly
/// `frame_count` of them — the frame count is the tick count divided by the
/// step, rounded up.
pub fn frame_times(limit: Time, step: Time) -> (r: Vec<Time>)
    requires
        step@ >= 1,
        limit@ + step@ <= u64::MAX,
    ensures
        r@.len() == frame_count(limit@ as nat, step@ as nat),
        forall|i: int| 0 <= i < r@.len() ==> (#[trigger] r@[i])@ == i * step@,
        forall|i: int| 0 <= i < r@.len() ==> (#[trigger] r@[i])@ < limit@,
{
    let mut r: Vec<Time> = Vec::new();
    let mut t = Time::zero();
    proof {
        assert((r@.len() as int) * (step@ as int) == 0) by (nonlinear_arith)
            requires
                r@.len() == 0,
        ;
    }
    #[verifier::loop_isolation(false)]
    while t.lt(&limit)
        invariant
            (r@.len() as int) * (step@ as int) == t@ as int,
            t@ <= limit@ + step@,
            r@.len() >= 1 ==> (r@.len() - 1) * (step@ as int) < limit@ as int,
            forall|i: int| 0 <= i < r@.len() ==> (#[trigger] r@[i])@ == i * (step@ as int),
        decreases limit@ + step@ - t@,
    {
        r.push(t);
        proof {
            let n = r@.len() as int;
            assert((n - 1) * (step@ as int) + step@ == n * (step@ as int)) by (nonlinear_arith);
        }
        t = t.add(step);
        proof {
            assert(t@ as int == (r@.len() as int) * (step@ as int));
        }
    }
    proof {
        let n = r@.len() as int;
        let st = step@ as int;
        let li = limit@ as int;
        assert(n * st >= li);
        if n >= 1 {
            assert((n - 1) * st < li);
            assert((n - 1) * st == n * st - st) by (nonlinear_arith);
            let rem = li + st - 1 - n * st;
            assert(0 <= rem < st);
            lemma_fundamental_div_mod_converse(li + st - 1, st, n, rem);
            assert(n == (li + st - 1) / st);
            assert forall|i: int| 0 <= i < n implies (#[trigger] r@[i])@ < limit@ by {
                assert(i * st <= (n - 1) * st) by (nonlinear_arith)
                    requires
                        i <= n - 1,
                        st >= 0,
                ;
            }
        } else {
            assert(li == 0);
            lemma_fundamental_div_mod_converse(li + st - 1, st, 0, st - 1);
            assert((li + st - 1) / st == 0);
        }
    }
    r
}

/// The digit width of the frame file names for `frames` frames: the number
/// of decimal digits of the frame count, that is, one more than the floored
/// base-ten logarithm of the count.
pub fn file_digit_width(frames: u64) -> (w: usize)
    requires
        frames >= 1,
    ensures
        w == dec_rep(frames as nat).len(),
        1 <= w <= 20,
        pow10((w - 1) as nat) <= frames < pow10(w as nat),
    decreases frames,
{
    proof {
        lemma_dec_width_pow10(frames as nat);
    }
    if frames < 10 {
        1
    } else {
        let rest = file_digit_width(frames / 10);
        proof {
            assert(dec_rep(frames as nat).len() == dec_rep(frames as nat / 10).len() + 1);
        }
        rest + 1
    }
}

/// The decimal width of `n` brackets it between two powers of ten, and a
/// `u64` value has at most twenty digits.
proof fn lemma_dec_width_pow10(n: nat)
    ensures
        n >= 1 ==> pow10((dec_rep(n).len() - 1) as nat) <= n,
        n < pow10(dec_rep(n).len()),
        n <= u64::MAX ==> dec_rep(n).len() <= 20,
    decreases n,
{
    lemma_dec_rep_digits(n);
    if n < 10 {
        assert(pow10(0) == 1);
        assert(pow10(1) == 10);
    } else {
        lemma_dec_width_pow10(n / 10);
        let l = dec_rep(n / 10).len();
        assert(dec_rep(n).len() == l + 1);
        assert(pow10(l) == 10 * pow10((l - 1) as nat));
        assert(pow10((l + 1) as nat) == 10 * pow10(l));
        assert(n < pow10((l + 1) as nat) && pow10(l) <= n) by (nonlinear_arith)
            requires
                pow10((l - 1) as nat) <= n / 10 < pow10(l),
                pow10(l) == 10 * pow10((l - 1) as nat),
                pow10((l + 1) as nat) == 10 * pow10(l),
                n >= 10,
        ;
    }
    if n <= u64::MAX && dec_rep(n).len() > 20 {
        let l1 = (dec_rep(n).len() - 1) as nat;
        lemma_pow10_ge(20, l1);
        lemma_pow10_20();
        assert(pow10(20) <= pow10(l1) <= n);
        assert(false);
    }
}

/// Powers of ten grow with the exponent.
proof fn lemma_pow10_ge(a: nat, b: nat)
    requires
        a <= b,
    ensures
        pow10(a) <= pow10(b),
    decreases b,
{
    if a < b {
        lemma_pow10_ge(a, (b - 1) as nat);
        assert(pow10((b - 1) as nat) <= 10 * pow10((b - 1) as nat)) by (nonlinear_arith)
            requires
                pow10((b - 1) as nat) >= 0,
        ;
    }
}

/// Ten to the twentieth exceeds any `u64`.
proof fn lemma_pow10_20()
    ensures
        pow10(20) > u64::MAX as nat,
{
    assert(pow10(0) == 1);
    assert(pow10(1) == 10);
    assert(pow10(2) == 100);
    assert(pow10(3) == 1000);
    assert(pow10(4) == 10000);
    assert(pow10(5) == 100000);
    assert(pow10(6) == 1000000);
    assert(pow10(7) == 10000000);
    assert(pow10(8) == 100000000);
    assert(pow10(9) == 1000000000);
    assert(pow10(10) == 10000000000);
    assert(pow10(11) == 100000000000);
    assert(pow10(12) == 1000000000000);
    assert(pow10(13) == 10000000000000);
    assert(pow10(14) == 100000000000000);
    assert(pow10(15) == 1000000000000000);
    assert(pow10(16) == 10000000000000000);
    assert(pow10(17) == 100000000000000000);
    assert(pow10(18) == 1000000000000000000);
    assert(pow10(19) == 10000000000000000000);
    assert(pow10(20) == 100000000000000000000);
}

/// The zero-padded decimal digits of a frame index: the digits of `idx`,
/// preceded by as many zeros as `width` asks beyond them.
pub open spec fn padded_index(idx: nat, width: nat) -> Seq<char> {
    let d = dec_rep(idx);
    if d.len() >= width {
        d
    } else {
        Seq::new((width - d.len()) as nat, |i: int| '0') + d
    }
}

/// The file-name stem of frame `idx`: its index, zero-padded to `width`
/// digits.
pub fn frame_index_text(idx: u64, width: usize) -> (r: String)
    ensures
        r@ == padded_index(idx as nat, width as nat),
{
    let digits = u64_to_dec(idx);
    let mut v: Vec<char> = Vec::new();
    let mut pad: usize = 0;
    #[verifier::loop_isolation(false)]
    while pad + digits.len() < width
        invariant
            v@ =~= Seq::new(pad as nat, |i: int| '0'),
            pad + digits@.len() <= width || pad == 0,
        decreases width - pad,
    {
        v.push('0');
        pad += 1;
        proof {
            assert(v@ =~= Seq::new(pad as nat, |i: int| '0'));
        }
    }
    let mut i: usize = 0;
    #[verifier::loop_isolation(false)]
    while i < digits.len()
        invariant
            i <= digits@.len(),
            v@ == Seq::new(pad as nat, |j: int| '0') + digits@.take(i as int),
        decreases digits@.len() - i,
    {
        v.push(digits[i]);
        proof {
            assert(v@ =~= Seq::new(pad as nat, |j: int| '0') + digits@.take(i as int + 1));
        }
        i += 1;
    }
    proof {
        assert(digits@.take(digits@.len() as int) =~= digits@);
        assert(v@ =~= padded_index(idx as nat, width as nat));
    }
    string_from_chars(&v)
}

} // verus!
