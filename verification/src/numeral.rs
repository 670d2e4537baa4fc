//! Numeric literals of the formula language: a run of digits and dots that reads as a
//! finite `f64`.
//!
//! Rust reads such a run as a number when it has at least one digit and at most one dot,
//! and the reading is rounded to the nearest `f64`. It overflows to infinity exactly when
//! its integer part reaches `FLOAT_LIMIT` = 2^1024 - 2^970, the midpoint between
//! `f64::MAX` and 2^1024 (ties round to the even neighbour, which is infinity).

use vstd::prelude::*;
use vstd::arithmetic::power2::{pow2, lemma2_to64, lemma_pow2_adds};

verus! {

/// Decimal digits of 2^1024 - 2^970 (proved by `lemma_limit_value`).
pub const FLOAT_LIMIT: &'static str = "179769313486231580793728971405303415079934132710037826936173778980444968292764750946649017977587207096330286416692887910946555547851940402630657488671505820681908902000708383676273854845817711531764475730270069855571366959622842914819860834936475292719074168444365510704342711559699508093042880177904174497792";

pub open spec fn is_digit(c: char) -> bool {
    '0' <= c && c <= '9'
}

pub open spec fn all_digits(s: Seq<char>) -> bool {
    forall|i: int| 0 <= i < s.len() ==> #[trigger] is_digit(s[i])
}

pub open spec fn digit_value(c: char) -> nat {
    ((c as u32) - ('0' as u32)) as nat
}

/// The value of a string of decimal digits.
pub open spec fn decimal_value(s: Seq<char>) -> nat
    decreases s.len(),
{
    if s.len() == 0 {
        0
    } else {
        decimal_value(s.drop_last()) * 10 + digit_value(s.last())
    }
}

pub open spec fn pow10(n: nat) -> nat
    decreases n,
{
    if n == 0 {
        1
    } else {
        10 * pow10((n - 1) as nat)
    }
}

/// Number of `'.'` characters in `s`.
pub open spec fn dot_count(s: Seq<char>) -> nat
    decreases s.len(),
{
    if s.len() == 0 {
        0
    } else {
        dot_count(s.drop_last()) + if s.last() == '.' {
            1nat
        } else {
            0nat
        }
    }
}

/// Length of the leading run of characters that are not `'.'`.
pub open spec fn integer_digits(s: Seq<char>) -> nat
    decreases s.len(),
{
    if s.len() == 0 || s[0] == '.' {
        0
    } else {
        1 + integer_digits(s.drop_first())
    }
}

/// A run of digits and dots that Rust reads as a finite `f64`.
pub open spec fn finite_numeral(s: Seq<char>) -> bool {
    &&& dot_count(s) <= 1
    &&& exists|i: int| 0 <= i < s.len() && #[trigger] is_digit(s[i])
    &&& decimal_value(s.take(integer_digits(s) as int)) < decimal_value(FLOAT_LIMIT@)
}

pub proof fn lemma_limit_digits()
    ensures
        FLOAT_LIMIT@.len() == 309,
        all_digits(FLOAT_LIMIT@),
        FLOAT_LIMIT@[0] == '1',
{
    reveal_strlit(
        "179769313486231580793728971405303415079934132710037826936173778980444968292764750946649017977587207096330286416692887910946555547851940402630657488671505820681908902000708383676273854845817711531764475730270069855571366959622842914819860834936475292719074168444365510704342711559699508093042880177904174497792",
    );
}

/// The value of a prefix of a digit string, read left to right.
pub open spec fn horner(s: Seq<char>, k: nat) -> nat
    decreases k,
{
    if k == 0 {
        0
    } else {
        horner(s, (k - 1) as nat) * 10 + digit_value(s[k - 1])
    }
}

pub proof fn lemma_horner(s: Seq<char>, k: nat)
    requires
        k <= s.len(),
    ensures
        horner(s, k) == decimal_value(s.take(k as int)),
    decreases k,
{
    if k > 0 {
        lemma_horner(s, (k - 1) as nat);
        assert(s.take(k as int).drop_last() =~= s.take(k - 1));
    }
}

spec fn limit_number() -> int {
    179769313486231580793728971405303415079934132710037826936173778980444968292764750946649017977587207096330286416692887910946555547851940402630657488671505820681908902000708383676273854845817711531764475730270069855571366959622842914819860834936475292719074168444365510704342711559699508093042880177904174497792int
}

#[verifier::rlimit(100)]
proof fn lemma_limit_horner()
    ensures
        horner(FLOAT_LIMIT@, 309) == limit_number(),
{
    reveal_strlit(
        "179769313486231580793728971405303415079934132710037826936173778980444968292764750946649017977587207096330286416692887910946555547851940402630657488671505820681908902000708383676273854845817711531764475730270069855571366959622842914819860834936475292719074168444365510704342711559699508093042880177904174497792",
    );
    reveal_with_fuel(horner, 78);
    assert(horner(FLOAT_LIMIT@, 77) == 17976931348623158079372897140530341507993413271003782693617377898044496829276int);
    assert(horner(FLOAT_LIMIT@, 154) == 1797693134862315807937289714053034150799341327100378269361737789804449682927647509466490179775872070963302864166928879109465555478519404026306574886715058int);
    assert(horner(FLOAT_LIMIT@, 231) == 179769313486231580793728971405303415079934132710037826936173778980444968292764750946649017977587207096330286416692887910946555547851940402630657488671505820681908902000708383676273854845817711531764475730270069855571366959622842914int);
    assert(horner(FLOAT_LIMIT@, 309) == 179769313486231580793728971405303415079934132710037826936173778980444968292764750946649017977587207096330286416692887910946555547851940402630657488671505820681908902000708383676273854845817711531764475730270069855571366959622842914819860834936475292719074168444365510704342711559699508093042880177904174497792int);
}

proof fn lemma_limit_digits_value()
    ensures
        decimal_value(FLOAT_LIMIT@) == limit_number(),
{
    lemma_limit_digits();
    lemma_limit_horner();
    lemma_horner(FLOAT_LIMIT@, 309);
    assert(FLOAT_LIMIT@.take(309) =~= FLOAT_LIMIT@);
}

proof fn lemma_limit_power()
    ensures
        pow2(1024) - pow2(970) == limit_number(),
{
    lemma2_to64();
    lemma_pow2_adds(64, 64);
    assert(pow2(128) == 340282366920938463463374607431768211456nat);
    lemma_pow2_adds(128, 128);
    assert(pow2(256) == 115792089237316195423570985008687907853269984665640564039457584007913129639936nat);
    lemma_pow2_adds(256, 256);
    assert(pow2(512) == 13407807929942597099574024998205846127479365820592393377723561443721764030073546976801874298166903427690031858186486050853753882811946569946433649006084096nat);
    lemma_pow2_adds(512, 512);
    assert(pow2(1024) == 179769313486231590772930519078902473361797697894230657273430081157732675805500963132708477322407536021120113879871393357658789768814416622492847430639474124377767893424865485276302219601246094119453082952085005768838150682342462881473913110540827237163350510684586298239947245938479716304835356329624224137216nat);
    lemma_pow2_adds(512, 256);
    assert(pow2(768) == 1552518092300708935148979488462502555256886017116696611139052038026050952686376886330878408828646477950487730697131073206171580044114814391444287275041181139204454976020849905550265285631598444825262999193716468750892846853816057856nat);
    lemma_pow2_adds(768, 128);
    assert(pow2(896) == 528294531135665246352339784916516606518847326036121522127960709026673902556724859474417255887657187894674394993257128678882347559502685537250538978462939576908386683999005084168731517676426441053024232908211188404148028292751561738838396898767036476489538580897737998336nat);
    lemma_pow2_adds(896, 64);
    assert(pow2(960) == 9745314011399999080353382387875188310876226857595007526867906457212948690766426102465615065882010259225304916231408668183459169865203094046577987296312653419531277699956473029870789655490053648352799593479218378873685597925394874945746363615468965612827738803104277547081828589991914110976nat);
    lemma_pow2_adds(960, 10);
    assert(pow2(970) == 9979201547673599058281863565184192830337256302177287707512736212186059459344820328924789827463178505446712234220962476219862189941967968303695858991424157101600028364755428382587688607221814935913266783722719619966654052275604351944444276342240220787535604534378780208211792476151720049639424nat);
}

/// `FLOAT_LIMIT` spells the integer 2^1024 - 2^970.
pub proof fn lemma_limit_value()
    ensures
        decimal_value(FLOAT_LIMIT@) == pow2(1024) - pow2(970),
{
    lemma_limit_digits_value();
    lemma_limit_power();
}

pub proof fn lemma_pow10_positive(n: nat)
    ensures
        pow10(n) >= 1,
    decreases n,
{
    if n > 0 {
        lemma_pow10_positive((n - 1) as nat);
    }
}

pub proof fn lemma_pow10_monotone(a: nat, b: nat)
    requires
        a <= b,
    ensures
        pow10(a) <= pow10(b),
    decreases b,
{
    if a < b {
        lemma_pow10_monotone(a, (b - 1) as nat);
        lemma_pow10_positive((b - 1) as nat);
    }
}

pub proof fn lemma_value_concat(a: Seq<char>, b: Seq<char>)
    ensures
        decimal_value(a + b) == decimal_value(a) * pow10(b.len()) + decimal_value(b),
    decreases b.len(),
{
    if b.len() == 0 {
        assert(a + b =~= a);
        assert(pow10(0) == 1);
        assert(decimal_value(b) == 0);
        assert(decimal_value(a) * 1 == decimal_value(a));
    } else {
        assert((a + b).drop_last() =~= a + b.drop_last());
        assert((a + b).last() == b.last());
        lemma_value_concat(a, b.drop_last());
        let x = decimal_value(a);
        let p = pow10((b.len() - 1) as nat);
        let y = decimal_value(b.drop_last());
        let d = digit_value(b.last());
        assert(decimal_value(a + b) == decimal_value(a + b.drop_last()) * 10 + d);
        assert(decimal_value(b) == y * 10 + d);
        assert(pow10(b.len()) == 10 * p);
        assert(decimal_value(a + b.drop_last()) == x * p + y);
        assert((x * p + y) * 10 + d == x * (10 * p) + (y * 10 + d)) by (nonlinear_arith);
        assert(decimal_value(a + b) == x * (10 * p) + (y * 10 + d));
        assert(x * pow10(b.len()) == x * (10 * p));
    }
}

pub proof fn lemma_value_bound(s: Seq<char>)
    requires
        all_digits(s),
    ensures
        decimal_value(s) < pow10(s.len()),
    decreases s.len(),
{
    if s.len() > 0 {
        assert(all_digits(s.drop_last()));
        assert(is_digit(s[s.len() - 1]));
        lemma_value_bound(s.drop_last());
        let v = decimal_value(s.drop_last());
        let p = pow10((s.len() - 1) as nat);
        let d = digit_value(s.last());
        assert(v * 10 + d < 10 * p) by (nonlinear_arith)
            requires
                v < p,
                d <= 9,
        ;
    }
}

pub proof fn lemma_value_leading(s: Seq<char>)
    requires
        all_digits(s),
        s.len() > 0,
        s[0] != '0',
    ensures
        decimal_value(s) >= pow10((s.len() - 1) as nat),
{
    let head = s.take(1);
    let rest = s.skip(1);
    assert(s =~= head + rest);
    lemma_value_concat(head, rest);
    assert(head.drop_last() =~= Seq::<char>::empty());
    assert(head.last() == s[0]);
    assert(decimal_value(head.drop_last()) == 0);
    assert(decimal_value(head) == digit_value(s[0]));
    assert(is_digit(s[0]));
    let p = pow10(rest.len());
    let d = decimal_value(head);
    assert(d * p >= p) by (nonlinear_arith)
        requires
            d >= 1,
    ;
}

pub proof fn lemma_value_zeros(z: Seq<char>)
    requires
        forall|i: int| 0 <= i < z.len() ==> z[i] == '0',
    ensures
        decimal_value(z) == 0,
    decreases z.len(),
{
    if z.len() > 0 {
        lemma_value_zeros(z.drop_last());
    }
}

/// Of two digit strings of one length, the one that is smaller at the first place where
/// they differ has the smaller value.
pub proof fn lemma_value_order(a: Seq<char>, b: Seq<char>, d: int)
    requires
        all_digits(a),
        all_digits(b),
        a.len() == b.len(),
        0 <= d < a.len(),
        a.take(d) == b.take(d),
        digit_value(a[d]) < digit_value(b[d]),
    ensures
        decimal_value(a) < decimal_value(b),
{
    let r = (a.len() - d - 1) as nat;
    assert(a =~= a.take(d + 1) + a.skip(d + 1));
    assert(b =~= b.take(d + 1) + b.skip(d + 1));
    lemma_value_concat(a.take(d + 1), a.skip(d + 1));
    lemma_value_concat(b.take(d + 1), b.skip(d + 1));
    assert(a.take(d + 1).drop_last() =~= a.take(d));
    assert(b.take(d + 1).drop_last() =~= b.take(d));
    assert(all_digits(a.skip(d + 1)));
    lemma_value_bound(a.skip(d + 1));
    let p = pow10(r);
    let va = decimal_value(a.take(d + 1));
    let vb = decimal_value(b.take(d + 1));
    let ta = decimal_value(a.skip(d + 1));
    let tb = decimal_value(b.skip(d + 1));
    assert(va + 1 <= vb);
    assert(va * p + ta < vb * p + tb) by (nonlinear_arith)
        requires
            va + 1 <= vb,
            ta < p,
    ;
}

pub proof fn lemma_dot_count_step(s: Seq<char>, k: int)
    requires
        0 <= k < s.len(),
    ensures
        dot_count(s.take(k + 1)) == dot_count(s.take(k)) + if s[k] == '.' {
            1nat
        } else {
            0nat
        },
{
    assert(s.take(k + 1).drop_last() =~= s.take(k));
}

pub proof fn lemma_integer_digits(s: Seq<char>, k: int)
    requires
        0 <= k <= s.len(),
        forall|j: int| 0 <= j < k ==> s[j] != '.',
        k == s.len() || s[k] == '.',
    ensures
        integer_digits(s) == k,
    decreases k,
{
    if k > 0 {
        lemma_integer_digits(s.drop_first(), k - 1);
    }
}

/// Whether the run `chars[start..end]` of digits and dots reads as a finite `f64`.
pub fn finite_numeral_at(chars: &Vec<char>, start: usize, end: usize) -> (r: bool)
    requires
        start <= end <= chars.len(),
        forall|i: int| start <= i < end ==> is_digit(chars@[i]) || chars@[i] == '.',
    ensures
        r == finite_numeral(chars@.subrange(start as int, end as int)),
{
    let ghost s = chars@.subrange(start as int, end as int);
    let mut dots: usize = 0;
    let mut digits: usize = 0;
    let mut integer_end: usize = end;
    let mut k: usize = start;
    while k < end
        invariant
            start <= k <= end <= chars.len(),
            s == chars@.subrange(start as int, end as int),
            forall|i: int| start <= i < end ==> is_digit(chars@[i]) || chars@[i] == '.',
            dots as nat == dot_count(s.take(k - start)),
            dots <= k - start,
            digits <= k - start,
            (digits > 0) == (exists|i: int| 0 <= i < k - start && #[trigger] is_digit(s[i])),
            integer_end == end || (start <= integer_end < k && chars@[integer_end as int] == '.'),
            forall|j: int| start <= j < k && j < integer_end ==> chars@[j] != '.',
        decreases end - k,
    {
        proof {
            lemma_dot_count_step(s, k - start);
        }
        if chars[k] == '.' {
            dots = dots + 1;
            if integer_end == end {
                integer_end = k;
            }
        } else {
            digits = digits + 1;
            assert(is_digit(s[k - start]));
        }
        k = k + 1;
    }
    proof {
        assert(s.take(end - start) =~= s);
        lemma_integer_digits(s, integer_end - start);
    }
    if dots > 1 || digits == 0 {
        return false;
    }
    let ghost int_part = s.take(integer_end - start);
    assert(int_part =~= chars@.subrange(start as int, integer_end as int));
    let mut z: usize = start;
    while z < integer_end && chars[z] == '0'
        invariant
            start <= z <= integer_end <= end <= chars.len(),
            forall|j: int| start <= j < z ==> chars@[j] == '0',
        decreases integer_end - z,
    {
        z = z + 1;
    }
    let ghost sig = chars@.subrange(z as int, integer_end as int);
    proof {
        let zeros = chars@.subrange(start as int, z as int);
        assert(int_part =~= zeros + sig);
        lemma_value_concat(zeros, sig);
        lemma_value_zeros(zeros);
        assert(decimal_value(zeros + sig) == 0 * pow10(sig.len()) + decimal_value(sig));
        assert(0 * pow10(sig.len()) == 0);
        assert(decimal_value(int_part) == decimal_value(sig));
        assert(all_digits(sig));
        lemma_limit_digits();
        lemma_value_bound(FLOAT_LIMIT@);
        lemma_value_leading(FLOAT_LIMIT@);
    }
    let m = integer_end - z;
    if m < 309 {
        proof {
            lemma_value_bound(sig);
            lemma_pow10_monotone(m as nat, 308);
            assert(decimal_value(sig) < decimal_value(FLOAT_LIMIT@));
            assert(decimal_value(int_part) < decimal_value(FLOAT_LIMIT@));
            assert(integer_digits(s) == integer_end - start);
            assert(dot_count(s) <= 1);
            assert(exists|i: int| 0 <= i < s.len() && #[trigger] is_digit(s[i]));
        }
        return true;
    }
    if m > 309 {
        proof {
            lemma_value_leading(sig);
            lemma_pow10_monotone(309, (m - 1) as nat);
        }
        return false;
    }
    assert(finite_numeral(s) == (decimal_value(sig) < decimal_value(FLOAT_LIMIT@)));
    let limit = crate::text::chars_of(FLOAT_LIMIT);
    let mut i: usize = 0;
    while i < 309
        invariant
            m == 309,
            limit@ == FLOAT_LIMIT@,
            FLOAT_LIMIT@.len() == 309,
            all_digits(FLOAT_LIMIT@),
            z + m == integer_end <= chars.len(),
            sig == chars@.subrange(z as int, integer_end as int),
            all_digits(sig),
            i <= 309,
            sig.take(i as int) == FLOAT_LIMIT@.take(i as int),
            s == chars@.subrange(start as int, end as int),
            finite_numeral(s) == (decimal_value(sig) < decimal_value(FLOAT_LIMIT@)),
        decreases 309 - i,
    {
        let c = chars[z + i];
        let l = limit[i];
        assert(c == sig[i as int]);
        if c != l {
            proof {
                assert(is_digit(sig[i as int]));
                assert(is_digit(FLOAT_LIMIT@[i as int]));
                if (c as u32) < (l as u32) {
                    lemma_value_order(sig, FLOAT_LIMIT@, i as int);
                } else {
                    lemma_value_order(FLOAT_LIMIT@, sig, i as int);
                }
            }
            return (c as u32) < (l as u32);
        }
        proof {
            assert(sig.take(i + 1) =~= FLOAT_LIMIT@.take(i + 1));
        }
        i = i + 1;
    }
    proof {
        assert(sig =~= sig.take(309));
        assert(FLOAT_LIMIT@ =~= FLOAT_LIMIT@.take(309));
    }
    false
}

} // verus!
