//! Unsigned numbers inside mangled names: decimal length prefixes and
//! ordinals, and the base-62 numbers used by disambiguators and
//! back-references.  All values are parsed with overflow checking; a value
//! that does not fit in `usize` is a structural error, never a wraparound.

use vstd::prelude::*;
use crate::chars::{base62_val, check_base62_digit, check_digit, digit_val, is_base62_digit,
    is_digit};

verus! {

/// Value of a digit string in the given base, most significant digit first.
pub open spec fn val_of(ds: Seq<u8>, base: nat) -> nat
    decreases ds.len(),
{
    if ds.len() == 0 {
        0
    } else {
        val_of(ds.drop_last(), base) * base + digit_val(ds.last())
    }
}

pub open spec fn pow_nat(base: nat, e: nat) -> nat
    decreases e,
{
    if e == 0 {
        1
    } else {
        base * pow_nat(base, (e - 1) as nat)
    }
}

/// End of the maximal run of decimal digits starting at `pos`.
pub open spec fn digit_run_end(s: Seq<u8>, pos: int) -> int
    decreases s.len() - pos,
{
    if 0 <= pos < s.len() && is_digit(s[pos]) {
        digit_run_end(s, pos + 1)
    } else {
        pos
    }
}

/// End of the maximal run of base-62 digits starting at `pos`.
pub open spec fn base62_run_end(s: Seq<u8>, pos: int) -> int
    decreases s.len() - pos,
{
    if 0 <= pos < s.len() && is_base62_digit(s[pos]) {
        base62_run_end(s, pos + 1)
    } else {
        pos
    }
}

/// Decimal number token: a non-empty digit run without a superfluous leading
/// zero, whose value fits in `usize`.  Returns the value and the position
/// after the last digit.
pub open spec fn spec_parse_dec(s: Seq<u8>, pos: int) -> Option<(nat, int)> {
    let e = digit_run_end(s, pos);
    if e == pos {
        None
    } else if s[pos] == 48 && e > pos + 1 {
        None
    } else {
        let v = val_of(s.subrange(pos, e), 10);
        if v > usize::MAX {
            None
        } else {
            Some((v, e))
        }
    }
}

/// Base-62 number token: a possibly empty run of base-62 digits closed by a
/// `_` terminator, whose value fits in `usize`.  Returns the value and the
/// position after the terminator.
pub open spec fn spec_parse_base62(s: Seq<u8>, pos: int) -> Option<(nat, int)> {
    let e = base62_run_end(s, pos);
    if 0 <= e < s.len() && s[e] == 95 {
        let v = val_of(s.subrange(pos, e), 62);
        if v > usize::MAX {
            None
        } else {
            Some((v, e + 1))
        }
    } else {
        None
    }
}

/// Decimal digits of `n`, most significant first, without leading zeros.
pub open spec fn dec_bytes(n: nat) -> Seq<u8>
    decreases n,
{
    if n < 10 {
        seq![(48 + n) as u8]
    } else {
        dec_bytes(n / 10).push((48 + n % 10) as u8)
    }
}

pub proof fn lemma_val_of_append(a: Seq<u8>, b: Seq<u8>, base: nat)
    ensures
        val_of(a + b, base) == val_of(a, base) * pow_nat(base, b.len()) + val_of(b, base),
    decreases b.len(),
{
    if b.len() == 0 {
        assert(a + b =~= a);
        assert(pow_nat(base, 0) == 1);
    } else {
        let bl = b.drop_last();
        let p = pow_nat(base, (b.len() - 1) as nat);
        lemma_val_of_append(a, bl, base);
        lemma_pow_succ(base, (b.len() - 1) as nat);
        assert((a + b).drop_last() =~= a + bl);
        assert((a + b).last() == b.last());
        assert(val_of(a + b, base) == val_of(a + bl, base) * base + digit_val(b.last()));
        assert((val_of(a, base) * p + val_of(bl, base)) * base + digit_val(b.last()) == val_of(
            a,
            base,
        ) * (p * base) + (val_of(bl, base) * base + digit_val(b.last()))) by (nonlinear_arith);
        assert(pow_nat(base, b.len()) == p * base);
        assert(val_of(b, base) == val_of(bl, base) * base + digit_val(b.last()));
    }
}

pub proof fn lemma_pow_succ(base: nat, e: nat)
    ensures
        pow_nat(base, e + 1) == pow_nat(base, e) * base,
{
    assert(pow_nat(base, e + 1) == base * pow_nat(base, e));
    assert(base * pow_nat(base, e) == pow_nat(base, e) * base) by (nonlinear_arith);
}

pub proof fn lemma_pow_pos(base: nat, e: nat)
    requires
        base >= 1,
    ensures
        pow_nat(base, e) >= 1,
    decreases e,
{
    if e > 0 {
        lemma_pow_pos(base, (e - 1) as nat);
        assert(base * pow_nat(base, (e - 1) as nat) >= 1) by (nonlinear_arith)
            requires
                base >= 1,
                pow_nat(base, (e - 1) as nat) >= 1,
        ;
    }
}

/// A digit string is worth at least as much as any of its prefixes.
pub proof fn lemma_val_of_prefix(a: Seq<u8>, b: Seq<u8>, base: nat)
    requires
        base >= 1,
    ensures
        val_of(a + b, base) >= val_of(a, base),
{
    lemma_val_of_append(a, b, base);
    lemma_pow_pos(base, b.len());
    assert(val_of(a, base) * pow_nat(base, b.len()) >= val_of(a, base)) by (nonlinear_arith)
        requires
            pow_nat(base, b.len()) >= 1,
    ;
}

/// If everything in `[pos, e)` is a digit and `e` sits at the end of the
/// input or at a non-digit, then `e` is the end of the digit run at `pos`.
pub proof fn lemma_digit_run_end_exact(s: Seq<u8>, pos: int, e: int)
    requires
        0 <= pos <= e <= s.len(),
        forall|i: int| pos <= i < e ==> is_digit(#[trigger] s[i]),
        e == s.len() || !is_digit(s[e]),
    ensures
        digit_run_end(s, pos) == e,
    decreases e - pos,
{
    if pos < e {
        lemma_digit_run_end_exact(s, pos + 1, e);
    }
}

/// Base-62 digits of `n`, most significant first; zero is the empty run.
pub open spec fn base62_bytes(n: nat) -> Seq<u8>
    decreases n,
{
    if n == 0 {
        Seq::empty()
    } else {
        base62_bytes(n / 62).push(base62_digit((n % 62) as nat))
    }
}

/// The byte of one base-62 digit value.
pub open spec fn base62_digit(d: nat) -> u8 {
    if d < 10 {
        (48 + d) as u8
    } else if d < 36 {
        (97 + (d - 10)) as u8
    } else {
        (65 + (d - 36)) as u8
    }
}

/// The base-62 digits of a number are base-62 digits worth their value.
pub proof fn lemma_base62_bytes_digits(n: nat)
    ensures
        forall|i: int| 0 <= i < base62_bytes(n).len() ==> is_base62_digit(
            #[trigger] base62_bytes(n)[i],
        ),
        val_of(base62_bytes(n), 62) == n,
    decreases n,
{
    if n == 0 {
    } else {
        lemma_base62_bytes_digits(n / 62);
        let d = base62_bytes(n);
        let h = base62_bytes(n / 62);
        let last = base62_digit((n % 62) as nat);
        assert(d == h.push(last));
        assert(is_base62_digit(last) && digit_val(last) == n % 62) by {
            assert(n % 62 < 62);
        }
        assert(forall|i: int| 0 <= i < h.len() ==> d[i] == h[i]);
        assert(d[h.len() as int] == last);
        assert(d.drop_last() =~= h);
        assert(d.last() == last);
        assert(val_of(d, 62) == (n / 62) * 62 + n % 62);
        assert((n / 62) * 62 + n % 62 == n);
    }
}

/// The decimal digits of a number are digits, and only `0` starts with `0`.
pub proof fn lemma_dec_bytes_digits(n: nat)
    ensures
        dec_bytes(n).len() >= 1,
        forall|i: int| 0 <= i < dec_bytes(n).len() ==> is_digit(#[trigger] dec_bytes(n)[i]),
        dec_bytes(n)[0] == 48 ==> n == 0,
        n == 0 ==> dec_bytes(n).len() == 1,
    decreases n,
{
    if n < 10 {
    } else {
        lemma_dec_bytes_digits(n / 10);
        let d = dec_bytes(n);
        let h = dec_bytes(n / 10);
        assert(d == h.push((48 + n % 10) as u8));
        assert(forall|i: int| 0 <= i < h.len() ==> d[i] == h[i]);
        assert(d[h.len() as int] == (48 + n % 10) as u8);
        assert(is_digit((48 + n % 10) as u8));
        assert(d[0] == h[0]);
    }
}

/// Printing a number and reading the digits back is the identity.
pub proof fn lemma_val_of_dec_bytes(n: nat)
    ensures
        val_of(dec_bytes(n), 10) == n,
    decreases n,
{
    if n < 10 {
        assert(dec_bytes(n) == seq![(48 + n) as u8]);
        assert(dec_bytes(n).drop_last() =~= Seq::<u8>::empty());
        assert(val_of(Seq::<u8>::empty(), 10) == 0);
        assert(digit_val((48 + n) as u8) == n);
        assert(val_of(dec_bytes(n), 10) == n);
    } else {
        lemma_val_of_dec_bytes(n / 10);
        let d = dec_bytes(n);
        let h = dec_bytes(n / 10);
        assert(d == h.push((48 + n % 10) as u8));
        assert(d.drop_last() =~= h);
        assert(d.last() == (48 + n % 10) as u8);
        assert(digit_val((48 + n % 10) as u8) == n % 10);
        assert(val_of(d, 10) == (n / 10) * 10 + n % 10);
        assert((n / 10) * 10 + n % 10 == n);
        assert(val_of(dec_bytes(n), 10) == n);
    }
}

/// Parse a decimal number token at `pos`, exactly as `spec_parse_dec` says.
pub fn parse_dec(s: &[u8], pos: usize) -> (r: Option<(usize, usize)>)
    requires
        pos <= s@.len(),
    ensures
        match r {
            Some(t) => spec_parse_dec(s@, pos as int) == Some((t.0 as nat, t.1 as int)) && pos
                < t.1 <= s@.len(),
            None => spec_parse_dec(s@, pos as int) is None,
        },
{
    let n = s.len();
    let mut e = pos;
    while e < n && check_digit(s[e])
        invariant
            pos <= e <= n,
            n == s@.len(),
            forall|i: int| pos <= i < e ==> is_digit(#[trigger] s@[i]),
        decreases n - e,
    {
        e = e + 1;
    }
    proof {
        lemma_digit_run_end_exact(s@, pos as int, e as int);
    }
    if e == pos {
        return None;
    }
    if s[pos] == 48 && e > pos + 1 {
        return None;
    }
    let mut i = pos;
    let mut acc: usize = 0;
    while i < e
        invariant
            pos <= i <= e <= n,
            n == s@.len(),
            forall|j: int| pos <= j < e ==> is_digit(#[trigger] s@[j]),
            acc as nat == val_of(s@.subrange(pos as int, i as int), 10),
            digit_run_end(s@, pos as int) == e as int,
            pos < e,
            !(s@[pos as int] == 48 && e > pos + 1),
        decreases e - i,
    {
        let d = s[i] - 48;
        if acc > (usize::MAX - d as usize) / 10 {
            proof {
                let taken = s@.subrange(pos as int, (i + 1) as int);
                assert(taken.drop_last() =~= s@.subrange(pos as int, i as int));
                assert(val_of(taken, 10) == acc * 10 + d);
                assert(acc * 10 + d > usize::MAX);
                let rest = s@.subrange((i + 1) as int, e as int);
                assert(taken + rest =~= s@.subrange(pos as int, e as int));
                lemma_val_of_prefix(taken, rest, 10);
            }
            return None;
        }
        acc = acc * 10 + d as usize;
        i = i + 1;
        proof {
            let taken = s@.subrange(pos as int, i as int);
            assert(taken.drop_last() =~= s@.subrange(pos as int, (i - 1) as int));
        }
    }
    Some((acc, e))
}

/// Parse a base-62 number token (digits closed by `_`) at `pos`, exactly as
/// `spec_parse_base62` says.
pub fn parse_base62(s: &[u8], pos: usize) -> (r: Option<(usize, usize)>)
    requires
        pos <= s@.len(),
    ensures
        match r {
            Some(t) => spec_parse_base62(s@, pos as int) == Some((t.0 as nat, t.1 as int)) && pos
                < t.1 <= s@.len(),
            None => spec_parse_base62(s@, pos as int) is None,
        },
{
    let n = s.len();
    let mut e = pos;
    while e < n && check_base62_digit(s[e])
        invariant
            pos <= e <= n,
            n == s@.len(),
            forall|i: int| pos <= i < e ==> is_base62_digit(#[trigger] s@[i]),
        decreases n - e,
    {
        e = e + 1;
    }
    proof {
        lemma_base62_run_end_exact(s@, pos as int, e as int);
    }
    if e == n || s[e] != 95 {
        return None;
    }
    let mut i = pos;
    let mut acc: usize = 0;
    while i < e
        invariant
            pos <= i <= e < n,
            n == s@.len(),
            forall|j: int| pos <= j < e ==> is_base62_digit(#[trigger] s@[j]),
            acc as nat == val_of(s@.subrange(pos as int, i as int), 62),
            base62_run_end(s@, pos as int) == e as int,
            s@[e as int] == 95,
        decreases e - i,
    {
        let d = base62_val(s[i]);
        if acc > (usize::MAX - d as usize) / 62 {
            proof {
                let taken = s@.subrange(pos as int, (i + 1) as int);
                assert(taken.drop_last() =~= s@.subrange(pos as int, i as int));
                assert(val_of(taken, 62) == acc * 62 + d);
                assert(acc * 62 + d > usize::MAX);
                let rest = s@.subrange((i + 1) as int, e as int);
                assert(taken + rest =~= s@.subrange(pos as int, e as int));
                lemma_val_of_prefix(taken, rest, 62);
            }
            return None;
        }
        acc = acc * 62 + d as usize;
        i = i + 1;
        proof {
            let taken = s@.subrange(pos as int, i as int);
            assert(taken.drop_last() =~= s@.subrange(pos as int, (i - 1) as int));
        }
    }
    Some((acc, e + 1))
}

pub proof fn lemma_base62_run_end_exact(s: Seq<u8>, pos: int, e: int)
    requires
        0 <= pos <= e <= s.len(),
        forall|i: int| pos <= i < e ==> is_base62_digit(#[trigger] s[i]),
        e == s.len() || !is_base62_digit(s[e]),
    ensures
        base62_run_end(s, pos) == e,
    decreases e - pos,
{
    if pos < e {
        lemma_base62_run_end_exact(s, pos + 1, e);
    }
}

} // verus!
