use vstd::prelude::*;

verus! {

/// ASCII digit classification used by every text field parser in the crate.
pub open spec fn is_digit(b: u8) -> bool {
    0x30 <= b && b <= 0x39
}

pub open spec fn digit_val(b: u8) -> int {
    b - 0x30
}

pub open spec fn all_digits(s: Seq<u8>) -> bool {
    forall|i: int| 0 <= i < s.len() ==> is_digit(#[trigger] s[i])
}

/// The number denoted by a run of ASCII digits, most significant first.
pub open spec fn num_val(s: Seq<u8>) -> int
    decreases s.len(),
{
    if s.len() == 0 {
        0
    } else {
        num_val(s.drop_last()) * 10 + digit_val(s.last())
    }
}

pub open spec fn pow10(n: nat) -> nat
    decreases n,
{
    if n == 0 {
        1
    } else {
        10 * pow10((n - 1) as nat)
    }
}

pub proof fn lemma_num_val_push(s: Seq<u8>, b: u8)
    ensures
        num_val(s.push(b)) == num_val(s) * 10 + digit_val(b),
{
    assert(s.push(b).drop_last() =~= s);
    assert(s.push(b).last() == b);
}

pub proof fn lemma_num_val_bound(s: Seq<u8>)
    requires
        all_digits(s),
    ensures
        0 <= num_val(s) < pow10(s.len()),
    decreases s.len(),
{
    if s.len() > 0 {
        assert(all_digits(s.drop_last()));
        lemma_num_val_bound(s.drop_last());
        assert(is_digit(s.last()));
    }
}

pub proof fn lemma_pow10_mono(a: nat, b: nat)
    requires
        a <= b,
    ensures
        pow10(a) <= pow10(b),
    decreases b,
{
    if a < b {
        lemma_pow10_mono(a, (b - 1) as nat);
        assert(pow10(b) == 10 * pow10((b - 1) as nat));
    }
}

/// A longer digit run never denotes a smaller number.
pub proof fn lemma_num_val_prefix_le(s: Seq<u8>, k: int)
    requires
        all_digits(s),
        0 <= k <= s.len(),
    ensures
        num_val(s) >= num_val(s.subrange(0, k)),
    decreases s.len() - k,
{
    if k < s.len() {
        lemma_num_val_push(s.subrange(0, k), s[k]);
        assert(s.subrange(0, k).push(s[k]) =~= s.subrange(0, k + 1));
        lemma_num_val_bound(s.subrange(0, k));
        assert(is_digit(s[k]));
        assert(num_val(s.subrange(0, k)) * 10 >= num_val(s.subrange(0, k))) by (nonlinear_arith)
            requires
                num_val(s.subrange(0, k)) >= 0,
        ;
        lemma_num_val_prefix_le(s, k + 1);
    } else {
        assert(s.subrange(0, k) =~= s);
    }
}

/// Parses a fixed run of ASCII digits as an unsigned number.
/// Empty input or any non-digit byte gives `None`.
pub fn parse_digits_u32(s: &[u8]) -> (r: Option<u32>)
    requires
        s@.len() <= 9,
    ensures
        match r {
            Some(v) => s@.len() > 0 && all_digits(s@) && v == num_val(s@),
            None => s@.len() == 0 || !all_digits(s@),
        },
{
    if s.len() == 0 {
        return None;
    }
    let mut acc: u32 = 0;
    let mut i: usize = 0;
    while i < s.len()
        invariant
            0 <= i <= s@.len(),
            s@.len() <= 9,
            all_digits(s@.subrange(0, i as int)),
            acc == num_val(s@.subrange(0, i as int)),
            acc < pow10(i as nat),
        decreases s@.len() - i,
    {
        let b = s[i];
        if b < 0x30 || b > 0x39 {
            assert(!is_digit(s@[i as int]));
            return None;
        }
        proof {
            lemma_num_val_push(s@.subrange(0, i as int), b);
            lemma_num_val_bound(s@.subrange(0, i as int).push(b));
            reveal_with_fuel(pow10, 10);
            assert(pow10(9) == 1000000000);
            lemma_pow10_mono((i + 1) as nat, 9);
        }
        assert(s@.subrange(0, i as int).push(b) =~= s@.subrange(0, i + 1));
        acc = acc * 10 + (b - 0x30) as u32;
        i = i + 1;
    }
    assert(s@.subrange(0, i as int) =~= s@);
    Some(acc)
}

/// Index of the first `.` in `s`, or `s.len()` if there is none.
pub open spec fn dot_pos(s: Seq<u8>) -> int
    decreases s.len(),
{
    if s.len() == 0 {
        0
    } else if s[0] == 0x2e {
        0
    } else {
        1 + dot_pos(s.drop_first())
    }
}

pub proof fn lemma_dot_pos(s: Seq<u8>)
    ensures
        0 <= dot_pos(s) <= s.len(),
        forall|i: int| 0 <= i < dot_pos(s) ==> #[trigger] s[i] != 0x2e,
        dot_pos(s) < s.len() ==> s[dot_pos(s)] == 0x2e,
    decreases s.len(),
{
    if s.len() > 0 && s[0] != 0x2e {
        lemma_dot_pos(s.drop_first());
        assert forall|i: int| 0 <= i < dot_pos(s) implies #[trigger] s[i] != 0x2e by {
            if i > 0 {
                assert(s.drop_first()[i - 1] == s[i]);
            }
        }
        assert(dot_pos(s) < s.len() ==> s.drop_first()[dot_pos(s) - 1] == s[dot_pos(s)]);
    }
}

proof fn lemma_dot_pos_unique(s: Seq<u8>, d: int)
    requires
        0 <= d <= s.len(),
        forall|i: int| 0 <= i < d ==> #[trigger] s[i] != 0x2e,
        d < s.len() ==> s[d] == 0x2e,
    ensures
        dot_pos(s) == d,
{
    lemma_dot_pos(s);
    if dot_pos(s) < d {
        assert(s[dot_pos(s)] == 0x2e);
    } else if d < dot_pos(s) {
        assert(s[d] != 0x2e);
    }
}

/// The integer digits of a decimal literal, before any `.`.
pub open spec fn int_part(s: Seq<u8>) -> Seq<u8> {
    s.subrange(0, dot_pos(s))
}

/// The digits after the `.`, empty when there is no `.`.
pub open spec fn frac_part(s: Seq<u8>) -> Seq<u8> {
    if dot_pos(s) < s.len() {
        s.subrange(dot_pos(s) + 1, s.len() as int)
    } else {
        Seq::empty()
    }
}

/// How many fraction digits actually carry value at scale `frac`.
pub open spec fn used_frac(s: Seq<u8>, frac: nat) -> nat {
    if frac_part(s).len() <= frac {
        frac_part(s).len()
    } else {
        frac
    }
}

/// The significant digits of the literal at scale `frac`: integer digits
/// followed by the fraction digits that carry value.
pub open spec fn sig_digits(s: Seq<u8>, frac: nat) -> Seq<u8> {
    int_part(s) + frac_part(s).subrange(0, used_frac(s, frac) as int)
}

/// A plain decimal literal that a field parser accepts: optional integer
/// digits, an optional single `.`, optional fraction digits, at least one
/// digit overall, and no precision past `frac` places other than zeros.
pub open spec fn valid_decimal(s: Seq<u8>, frac: nat) -> bool {
    &&& all_digits(int_part(s))
    &&& all_digits(frac_part(s))
    &&& int_part(s).len() + frac_part(s).len() > 0
    &&& forall|i: int|
        frac <= i < frac_part(s).len() ==> #[trigger] frac_part(s)[i] == 0x30
}

/// The value of a decimal literal scaled by `10^frac`.
pub open spec fn decimal_val(s: Seq<u8>, frac: nat) -> int {
    num_val(sig_digits(s, frac)) * pow10((frac - used_frac(s, frac)) as nat)
}

/// What a tick field parser yields on a byte sequence: the scaled value of a
/// well-formed decimal that fits in a `u64`, and nothing otherwise.
pub open spec fn scaled_of(s: Seq<u8>, frac: nat) -> Option<u64> {
    if valid_decimal(s, frac) && decimal_val(s, frac) <= u64::MAX {
        Some(decimal_val(s, frac) as u64)
    } else {
        None
    }
}

/// If a prefix of the significant digits already exceeds `u64::MAX`, the
/// whole scaled value does too.
proof fn lemma_prefix_overflow(s: Seq<u8>, frac: nat, k: int)
    requires
        valid_decimal(s, frac),
        0 <= k <= sig_digits(s, frac).len(),
        num_val(sig_digits(s, frac).subrange(0, k)) > u64::MAX,
    ensures
        decimal_val(s, frac) > u64::MAX,
{
    let sig = sig_digits(s, frac);
    assert(all_digits(sig)) by {
        assert(forall|i: int|
            0 <= i < int_part(s).len() ==> sig[i] == #[trigger] int_part(s)[i]);
        assert(forall|i: int|
            int_part(s).len() <= i < sig.len() ==> #[trigger] sig[i] == frac_part(s)[i - int_part(
                s,
            ).len()]);
    }
    lemma_num_val_prefix_le(sig, k);
    let v = num_val(sig);
    lemma_pow10_mono(0, (frac - used_frac(s, frac)) as nat);
    assert(v * pow10((frac - used_frac(s, frac)) as nat) >= v) by (nonlinear_arith)
        requires
            v > 0,
            pow10((frac - used_frac(s, frac)) as nat) >= 1,
    ;
}

/// Parses a decimal text field into an integer scaled by `10^frac`,
/// rejecting malformed text and values that do not fit.
pub fn parse_scaled(s: &[u8], frac: u32) -> (r: Option<u64>)
    requires
        frac <= 9,
    ensures
        r == scaled_of(s@, frac as nat),
{
    // find the dot, if any
    let mut d: usize = 0;
    while d < s.len() && s[d] != 0x2e
        invariant
            0 <= d <= s@.len(),
            forall|i: int| 0 <= i < d ==> #[trigger] s@[i] != 0x2e,
        decreases s@.len() - d,
    {
        d = d + 1;
    }
    proof {
        lemma_dot_pos_unique(s@, d as int);
    }
    let ghost ip = int_part(s@);
    let ghost fp = frac_part(s@);
    assert(ip =~= s@.subrange(0, d as int));

    // integer digits, accumulated as significant digits
    let mut acc: u64 = 0;
    let mut i: usize = 0;
    while i < d
        invariant
            0 <= i <= d <= s@.len(),
            ip =~= s@.subrange(0, d as int),
            frac <= 9,
            dot_pos(s@) == d,
            all_digits(ip.subrange(0, i as int)),
            acc == num_val(ip.subrange(0, i as int)),
        decreases d - i,
    {
        let b = s[i];
        if b < 0x30 || b > 0x39 {
            assert(!is_digit(ip[i as int]));
            return None;
        }
        proof {
            lemma_num_val_push(ip.subrange(0, i as int), b);
        }
        assert(ip.subrange(0, i as int).push(b) =~= ip.subrange(0, i + 1));
        let m = acc.checked_mul(10);
        let a2 = match m {
            Some(m10) => m10.checked_add((b - 0x30) as u64),
            None => None,
        };
        match a2 {
            Some(v) => {
                acc = v;
            },
            None => {
                proof {
                    if valid_decimal(s@, frac as nat) {
                        assert(sig_digits(s@, frac as nat).subrange(0, i + 1) =~= ip.subrange(
                            0,
                            i + 1,
                        ));
                        lemma_prefix_overflow(s@, frac as nat, i + 1);
                    }
                }
                return None;
            },
        }
        i = i + 1;
    }
    assert(ip.subrange(0, d as int) =~= ip);

    // fraction digits: the first `frac` of them extend the significant
    // digits; anything past that must be `0`
    let fstart = if d < s.len() {
        d + 1
    } else {
        d
    };
    assert(fp =~= s@.subrange(fstart as int, s@.len() as int));
    let n = s.len() - fstart;
    let mut j: usize = 0;
    while j < n
        invariant
            0 <= j <= n,
            fstart + n == s@.len(),
            s@.len() <= usize::MAX,
            0 <= fstart <= s@.len(),
            fp =~= s@.subrange(fstart as int, s@.len() as int),
            ip == int_part(s@),
            fp == frac_part(s@),
            all_digits(ip),
            frac <= 9,
            all_digits(fp.subrange(0, j as int)),
            forall|i: int| frac <= i < j ==> #[trigger] fp[i] == 0x30,
            j <= frac ==> acc == num_val(ip + fp.subrange(0, j as int)),
            j > frac ==> acc == num_val(ip + fp.subrange(0, frac as int)),
        decreases n - j,
    {
        let b = s[fstart + j];
        assert(fp[j as int] == s@[fstart + j]);
        if b < 0x30 || b > 0x39 {
            assert(!is_digit(fp[j as int]));
            return None;
        }
        if (j as u64) < frac as u64 {
            proof {
                lemma_num_val_push(ip + fp.subrange(0, j as int), b);
            }
            assert((ip + fp.subrange(0, j as int)).push(b) =~= ip + fp.subrange(0, j + 1));
            let m = acc.checked_mul(10);
            let a2 = match m {
                Some(m10) => m10.checked_add((b - 0x30) as u64),
                None => None,
            };
            match a2 {
                Some(v) => {
                    acc = v;
                },
                None => {
                    proof {
                        if valid_decimal(s@, frac as nat) {
                            assert(used_frac(s@, frac as nat) >= j + 1);
                            assert(sig_digits(s@, frac as nat).subrange(0, ip.len() + j + 1) =~= ip
                                + fp.subrange(0, j + 1));
                            lemma_prefix_overflow(s@, frac as nat, ip.len() + j + 1);
                        }
                    }
                    return None;
                },
            }
        } else {
            if b != 0x30 {
                return None;
            }
        }
        j = j + 1;
    }
    assert(fp.subrange(0, j as int) =~= fp);
    if d == 0 && n == 0 {
        // no digits at all
        return None;
    }
    assert(valid_decimal(s@, frac as nat));

    // pad to the full scale
    let used: u32 = if n < frac as usize {
        n as u32
    } else {
        frac
    };
    proof {
        if fp.len() <= frac {
            assert(fp.subrange(0, used as int) =~= fp);
        }
        assert(acc == num_val(sig_digits(s@, frac as nat)));
    }
    let scale = pow10_u64(frac - used);
    match acc.checked_mul(scale) {
        Some(v) => {
            assert(v == decimal_val(s@, frac as nat));
            Some(v)
        },
        None => {
            assert(decimal_val(s@, frac as nat) > u64::MAX);
            None
        },
    }
}

/// `10^n` as a machine word, for the scale factors a field parser uses.
pub fn pow10_u64(n: u32) -> (r: u64)
    requires
        n <= 9,
    ensures
        r == pow10(n as nat),
{
    let mut r: u64 = 1;
    let mut k: u32 = 0;
    proof {
        reveal_with_fuel(pow10, 10);
            assert(pow10(9) == 1000000000);
    }
    while k < n
        invariant
            0 <= k <= n <= 9,
            r == pow10(k as nat),
            pow10(9) == 1000000000,
        decreases n - k,
    {
        proof {
            lemma_pow10_mono((k + 1) as nat, 9);
        }
        r = r * 10;
        k = k + 1;
    }
    r
}

} // verus!
