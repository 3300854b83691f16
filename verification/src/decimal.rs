use vstd::prelude::*;

verus! {

/// Largest scale a decimal may carry (the same bound rust_decimal enforces).
pub const MAX_SCALE: u32 = 28;

/// A financial decimal: the represented quantity is
/// `(-1)^neg * mantissa / 10^scale`.
///
/// Leaf hashing never reads this representation directly; it reads the
/// canonical minimal-digit text produced by `to_canon_bytes`, so two values
/// equal in magnitude always hash identically whatever their scale.
#[derive(Clone, Copy, Debug, PartialEq, Eq, Structural)]
pub struct Dec {
    pub neg: bool,
    pub mantissa: u128,
    pub scale: u32,
}

/// 10 raised to `n`.
pub open spec fn pow10(n: nat) -> nat
    decreases n,
{
    if n == 0 {
        1
    } else {
        10 * pow10((n - 1) as nat)
    }
}

/// The decimal digits of `n`, most significant first, as ASCII bytes.
pub open spec fn digits(n: nat) -> Seq<u8>
    decreases n,
{
    if n < 10 {
        seq![(48 + n) as u8]
    } else {
        digits(n / 10) + seq![(48 + n % 10) as u8]
    }
}

/// The lowest `w` decimal digits of `n`, zero padded, as ASCII bytes.
pub open spec fn fixed_digits(n: nat, w: nat) -> Seq<u8>
    decreases w,
{
    if w == 0 {
        Seq::empty()
    } else {
        fixed_digits(n / 10, (w - 1) as nat) + seq![(48 + n % 10) as u8]
    }
}

/// Normal form of a mantissa/scale pair: trailing zero digits are stripped
/// while the scale lasts, so a zero mantissa always normalizes to scale 0.
pub open spec fn norm(m: nat, s: nat) -> (nat, nat)
    decreases s,
{
    if s > 0 && m % 10 == 0 {
        norm(m / 10, (s - 1) as nat)
    } else {
        (m, s)
    }
}

/// A pair is in normal form when no trailing zero digit can be stripped.
pub open spec fn is_normal(m: nat, s: nat) -> bool {
    s == 0 || m % 10 != 0
}

/// The canonical minimal-digit text of a decimal, as ASCII bytes:
/// optional minus sign (never on zero), the integer digits, and, when a
/// fractional part remains after normalization, a dot and exactly the
/// remaining fractional digits.
pub open spec fn canon(d: Dec) -> Seq<u8> {
    let (m, s) = norm(d.mantissa as nat, d.scale as nat);
    let sign: Seq<u8> = if d.neg && m != 0 {
        seq![45u8]
    } else {
        Seq::empty()
    };
    if s == 0 {
        sign + digits(m)
    } else {
        sign + digits(m / pow10(s)) + seq![46u8] + fixed_digits(m, s)
    }
}

/// Two decimals denote the same quantity: the cross products of mantissas
/// and scale powers agree, and the signs agree unless the quantity is zero.
pub open spec fn eq_value(a: Dec, b: Dec) -> bool {
    &&& a.mantissa * pow10(b.scale as nat) == b.mantissa * pow10(a.scale as nat)
    &&& (a.neg == b.neg || a.mantissa == 0)
}

impl Dec {
    /// Representation bound shared with the snapshot codec.
    pub open spec fn valid(self) -> bool {
        self.scale <= MAX_SCALE
    }

    /// Whether the denoted quantity is zero.
    pub open spec fn is_zero_spec(self) -> bool {
        self.mantissa == 0
    }

    pub fn new(neg: bool, mantissa: u128, scale: u32) -> (r: Dec)
        requires
            scale <= MAX_SCALE,
        ensures
            r == (Dec { neg, mantissa, scale }),
            r.valid(),
    {
        Dec { neg, mantissa, scale }
    }

    pub fn zero() -> (r: Dec)
        ensures
            r == (Dec { neg: false, mantissa: 0u128, scale: 0u32 }),
            r.valid(),
            r.is_zero_spec(),
    {
        Dec { neg: false, mantissa: 0, scale: 0 }
    }

    pub fn is_zero(&self) -> (r: bool)
        ensures
            r == self.is_zero_spec(),
    {
        self.mantissa == 0
    }

    /// Tests the representation bound.
    pub fn check_valid(&self) -> (r: bool)
        ensures
            r == self.valid(),
    {
        self.scale <= MAX_SCALE
    }

    /// Renders the canonical minimal-digit text of this decimal.
    pub fn to_canon_bytes(&self) -> (r: Vec<u8>)
        requires
            self.valid(),
        ensures
            r@ == canon(*self),
    {
        let mut m: u128 = self.mantissa;
        let mut s: u32 = self.scale;
        while s > 0 && m % 10 == 0
            invariant
                s <= self.scale,
                norm(m as nat, s as nat) == norm(self.mantissa as nat, self.scale as nat),
            decreases s,
        {
            m = m / 10;
            s = s - 1;
        }
        proof {
            assert(norm(m as nat, s as nat) == (m as nat, s as nat));
        }
        let mut out: Vec<u8> = Vec::new();
        if self.neg && m != 0 {
            out.push(45);
        }
        if s == 0 {
            push_digits(m, &mut out);
        } else {
            let p = pow10_exec(s);
            push_digits(m / p, &mut out);
            out.push(46);
            push_fixed(m, s, &mut out);
        }
        proof {
            assert(out@ =~= canon(*self));
        }
        out
    }
}

/// Computes `10^n`.
pub fn pow10_exec(n: u32) -> (r: u128)
    requires
        n <= MAX_SCALE,
    ensures
        r == pow10(n as nat),
        r >= 1,
{
    proof {
        lemma_pow10_bound(n as nat);
    }
    let mut i: u32 = 0;
    let mut p: u128 = 1;
    while i < n
        invariant
            i <= n,
            n <= MAX_SCALE,
            p == pow10(i as nat),
        decreases n - i,
    {
        proof {
            lemma_pow10_mono((i + 1) as nat, MAX_SCALE as nat);
            lemma_pow10_bound(MAX_SCALE as nat);
        }
        p = p * 10;
        i = i + 1;
    }
    proof {
        lemma_pow10_pos(n as nat);
    }
    p
}

/// Appends the decimal digits of `n`, most significant first.
fn push_digits(n: u128, out: &mut Vec<u8>)
    ensures
        final(out)@ == old(out)@ + digits(n as nat),
    decreases n,
{
    if n >= 10 {
        push_digits(n / 10, out);
    }
    let d: u8 = (n % 10) as u8 + 48;
    out.push(d);
    proof {
        assert(out@ =~= old(out)@ + digits(n as nat));
    }
}

/// Appends exactly `w` low-order decimal digits of `n`, zero padded.
fn push_fixed(n: u128, w: u32, out: &mut Vec<u8>)
    ensures
        final(out)@ == old(out)@ + fixed_digits(n as nat, w as nat),
    decreases w,
{
    if w > 0 {
        push_fixed(n / 10, w - 1, out);
        let d: u8 = (n % 10) as u8 + 48;
        out.push(d);
    }
    proof {
        assert(out@ =~= old(out)@ + fixed_digits(n as nat, w as nat));
    }
}

pub proof fn lemma_pow10_pos(n: nat)
    ensures
        pow10(n) >= 1,
    decreases n,
{
    if n > 0 {
        lemma_pow10_pos((n - 1) as nat);
    }
}

pub proof fn lemma_pow10_mono(a: nat, b: nat)
    requires
        a <= b,
    ensures
        pow10(a) <= pow10(b),
    decreases b,
{
    if a < b {
        lemma_pow10_mono(a, (b - 1) as nat);
        lemma_pow10_pos((b - 1) as nat);
    }
}

pub proof fn lemma_pow10_adds(a: nat, b: nat)
    ensures
        pow10(a + b) == pow10(a) * pow10(b),
    decreases a,
{
    if a == 0 {
        assert(pow10(0) == 1);
        assert(pow10(0 + b) == 1 * pow10(b)) by (nonlinear_arith);
    } else {
        lemma_pow10_adds((a - 1) as nat, b);
        assert((a + b - 1) as nat == (a - 1) as nat + b);
        assert(pow10(a + b) == 10 * pow10((a + b - 1) as nat));
        assert(pow10(a) == 10 * pow10((a - 1) as nat));
        assert(10 * (pow10((a - 1) as nat) * pow10(b)) == (10 * pow10((a - 1) as nat)) * pow10(b))
            by (nonlinear_arith);
    }
}

/// 10^28 written out, to bound exec arithmetic.
#[verifier::rlimit(100)]
#[verifier::spinoff_prover]
pub proof fn lemma_pow10_bound(n: nat)
    requires
        n <= 28,
    ensures
        pow10(n) <= 10000000000000000000000000000,
    decreases n,
{
    lemma_pow10_mono(n, 28);
    reveal_with_fuel(pow10, 29);
    assert(pow10(28) == 10000000000000000000000000000);
}

/// Normalization strips a power of ten: the original mantissa is the normal
/// mantissa times the stripped power, the scale only shrinks, and the result
/// is in normal form. A zero mantissa normalizes to zero at scale zero.
pub proof fn lemma_norm_props(m: nat, s: nat)
    ensures
        ({
            let (m2, s2) = norm(m, s);
            &&& s2 <= s
            &&& m == m2 * pow10((s - s2) as nat)
            &&& is_normal(m2, s2)
            &&& (m == 0 ==> m2 == 0 && s2 == 0)
            &&& (m != 0 ==> m2 != 0)
        }),
    decreases s,
{
    if s > 0 && m % 10 == 0 {
        lemma_norm_props(m / 10, (s - 1) as nat);
        let (m2, s2) = norm(m / 10, (s - 1) as nat);
        assert(m == (m / 10) * 10) by (nonlinear_arith)
            requires
                m % 10 == 0,
        ;
        lemma_pow10_adds((s - 1 - s2) as nat, 1);
        assert(pow10(0) == 1);
        assert(pow10(1) == 10);
        assert(m2 * (pow10((s - 1 - s2) as nat) * 10) == (m2 * pow10((s - 1 - s2) as nat)) * 10)
            by (nonlinear_arith);
        assert((s - s2) as nat == (s - 1 - s2) as nat + 1);
        if m / 10 != 0 {
            assert(m != 0);
        }
        if m != 0 {
            assert(m / 10 != 0) by (nonlinear_arith)
                requires
                    m % 10 == 0,
                    m != 0,
            ;
        }
    } else {
        assert(pow10(0) == 1);
        assert(m == m * pow10(0));
    }
}

/// Normal forms are unique for a given quantity: if two normal pairs denote
/// the same value, they are the same pair.
pub proof fn lemma_norm_unique(m1: nat, s1: nat, m2: nat, s2: nat)
    requires
        is_normal(m1, s1),
        is_normal(m2, s2),
        m1 * pow10(s2) == m2 * pow10(s1),
    ensures
        m1 == m2,
        s1 == s2,
    decreases s1 + s2,
{
    lemma_pow10_pos(s1);
    lemma_pow10_pos(s2);
    if s1 <= s2 {
        lemma_norm_unique_le(m1, s1, m2, s2);
    } else {
        lemma_norm_unique_le(m2, s2, m1, s1);
    }
}

/// Uniqueness with the scales ordered: the larger scale cannot be strictly
/// larger, since the other mantissa would then carry a trailing zero digit.
proof fn lemma_norm_unique_le(m1: nat, s1: nat, m2: nat, s2: nat)
    requires
        is_normal(m1, s1),
        is_normal(m2, s2),
        m1 * pow10(s2) == m2 * pow10(s1),
        s1 <= s2,
    ensures
        m1 == m2,
        s1 == s2,
{
    lemma_pow10_pos(s1);
    lemma_pow10_pos(s2);
    if s1 == s2 {
        assert(m1 == m2) by (nonlinear_arith)
            requires
                m1 * pow10(s2) == m2 * pow10(s1),
                s1 == s2,
                pow10(s1) >= 1,
        ;
    } else {
        lemma_norm_unique_lt(m1, s1, m2, s2);
    }
}

/// With a strictly larger second scale the shared requires are contradictory:
/// the second mantissa would be a nonzero multiple of ten, or zero at a
/// nonzero scale, neither of which is a normal form.
proof fn lemma_norm_unique_lt(m1: nat, s1: nat, m2: nat, s2: nat)
    requires
        is_normal(m1, s1),
        is_normal(m2, s2),
        m1 * pow10(s2) == m2 * pow10(s1),
        s1 < s2,
    ensures
        m1 == m2,
        s1 == s2,
{
    lemma_pow10_pos(s1);
    lemma_pow10_pos(s2);
    lemma_pow10_adds(s1, (s2 - s1) as nat);
    // m1 * (pow10(s1) * pow10(s2 - s1)) == m2 * pow10(s1), cancel pow10(s1)
    assert((m1 * pow10((s2 - s1) as nat)) * pow10(s1) == m1 * (pow10(s1) * pow10(
        (s2 - s1) as nat,
    ))) by (nonlinear_arith);
    assert(m1 * pow10((s2 - s1) as nat) == m2) by (nonlinear_arith)
        requires
            (m1 * pow10((s2 - s1) as nat)) * pow10(s1) == m2 * pow10(s1),
            pow10(s1) >= 1,
    ;
    if m1 == 0 {
        // then m2 == 0, but a normal pair with zero mantissa has scale 0
        assert(m2 == 0) by (nonlinear_arith)
            requires
                m1 * pow10((s2 - s1) as nat) == m2,
                m1 == 0,
        ;
        assert(s2 == 0);
    } else {
        lemma_pow10_adds((s2 - s1 - 1) as nat, 1);
        let k = m1 * pow10((s2 - s1 - 1) as nat);
        assert(m2 == k * 10) by (nonlinear_arith)
            requires
                m1 * (pow10((s2 - s1 - 1) as nat) * 10) == m2,
                k == m1 * pow10((s2 - s1 - 1) as nat),
        ;
        assert(m2 % 10 == 0) by (nonlinear_arith)
            requires
                m2 == k * 10,
        ;
        lemma_pow10_pos((s2 - s1 - 1) as nat);
        assert(m2 != 0) by (nonlinear_arith)
            requires
                m2 == m1 * pow10((s2 - s1) as nat),
                m1 != 0,
                pow10((s2 - s1) as nat) >= 1,
        ;
    }
}

/// Decimals that denote the same quantity are zero together.
pub proof fn lemma_eq_value_zero(a: Dec, b: Dec)
    requires
        eq_value(a, b),
    ensures
        a.is_zero_spec() == b.is_zero_spec(),
{
    lemma_pow10_pos(a.scale as nat);
    lemma_pow10_pos(b.scale as nat);
    assert(a.mantissa == 0 ==> b.mantissa == 0) by (nonlinear_arith)
        requires
            a.mantissa * pow10(b.scale as nat) == b.mantissa * pow10(a.scale as nat),
            pow10(a.scale as nat) >= 1,
    ;
    assert(b.mantissa == 0 ==> a.mantissa == 0) by (nonlinear_arith)
        requires
            a.mantissa * pow10(b.scale as nat) == b.mantissa * pow10(a.scale as nat),
            pow10(b.scale as nat) >= 1,
    ;
}

/// Scale determinism: decimals that denote the same quantity have the same
/// canonical text, whatever scales they were written at.
pub proof fn lemma_canon_eq_value(a: Dec, b: Dec)
    requires
        eq_value(a, b),
    ensures
        canon(a) == canon(b),
{
    let am = a.mantissa as nat;
    let asc = a.scale as nat;
    let bm = b.mantissa as nat;
    let bsc = b.scale as nat;
    lemma_norm_props(am, asc);
    lemma_norm_props(bm, bsc);
    let (am2, as2) = norm(am, asc);
    let (bm2, bs2) = norm(bm, bsc);
    // cross products of the normal forms agree
    lemma_pow10_adds((asc - as2) as nat, bsc);
    lemma_pow10_adds((bsc - bs2) as nat, asc);
    assert((am2 * pow10((asc - as2) as nat)) * pow10(bsc) == am2 * (pow10((asc - as2) as nat)
        * pow10(bsc))) by (nonlinear_arith);
    assert((bm2 * pow10((bsc - bs2) as nat)) * pow10(asc) == bm2 * (pow10((bsc - bs2) as nat)
        * pow10(asc))) by (nonlinear_arith);
    // both exponents rewrite to a common factor pow10(t) times the other normal scale
    let t = (asc - as2 + bsc - bs2) as nat;
    lemma_pow10_adds(t, bs2);
    lemma_pow10_adds(t, as2);
    assert((asc - as2) as nat + bsc == t + bs2);
    assert((bsc - bs2) as nat + asc == t + as2);
    assert(am2 * (pow10(t) * pow10(bs2)) == (am2 * pow10(bs2)) * pow10(t)) by (nonlinear_arith);
    assert(bm2 * (pow10(t) * pow10(as2)) == (bm2 * pow10(as2)) * pow10(t)) by (nonlinear_arith);
    lemma_pow10_pos(t);
    assert(am2 * pow10(bs2) == bm2 * pow10(as2)) by (nonlinear_arith)
        requires
            (am2 * pow10(bs2)) * pow10(t) == (bm2 * pow10(as2)) * pow10(t),
            pow10(t) >= 1,
    ;
    lemma_norm_unique(am2, as2, bm2, bs2);
}

} // verus!
