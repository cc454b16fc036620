//! Decimal numerals as they appear in version strings and repository
//! suites: the grammar `[+-]? (digits [. digits*] | . digits)`, the exact
//! numeric order on them, and truncation toward zero.  Working on the
//! digit strings themselves keeps the comparison exact for numerals of any
//! length.
//!
//! The grammar deliberately covers plain decimal numerals only.  Exponent
//! forms and the special float spellings are not numerals here: a version
//! written that way refuses the table load, and a suite written that way
//! weighs zero.  Distro version and suite texts never use those forms,
//! and keeping the model decimal keeps every comparison exact.

use vstd::prelude::*;
use crate::strutil::{lex_lt_from, lemma_char_cast_inj, run_end, lemma_run_end, lemma_run_end_unique, lemma_lex_from_eq};
use vstd::string::StrSliceExecFns;
use vstd::string::StringExecFns;

verus! {

pub open spec fn is_digit(c: char) -> bool {
    0x30 <= (c as u32) && (c as u32) <= 0x39
}

pub fn is_digit_exec(c: char) -> (r: bool)
    ensures
        r == is_digit(c),
{
    let u = c as u32;
    0x30 <= u && u <= 0x39
}

pub open spec fn digit_val(c: char) -> int {
    (c as u32) - 0x30
}

pub open spec fn all_digits(s: Seq<char>) -> bool {
    forall|i: int| 0 <= i < s.len() ==> is_digit(#[trigger] s[i])
}

/// The value of a digit string read in base ten; the empty string reads
/// as zero.
pub open spec fn digits_val(s: Seq<char>) -> int
    decreases s.len(),
{
    if s.len() == 0 {
        0
    } else {
        digits_val(s.drop_last()) * 10 + digit_val(s.last())
    }
}

pub open spec fn pow10(n: nat) -> int
    decreases n,
{
    if n == 0 {
        1
    } else {
        10 * pow10((n - 1) as nat)
    }
}

pub proof fn lemma_pow10_pos(n: nat)
    ensures
        pow10(n) >= 1,
    decreases n,
{
    if n > 0 {
        lemma_pow10_pos((n - 1) as nat);
    }
}

pub proof fn lemma_pow10_mono(m: nat, n: nat)
    requires
        m <= n,
    ensures
        pow10(m) <= pow10(n),
    decreases n,
{
    if m < n {
        lemma_pow10_mono(m, (n - 1) as nat);
        lemma_pow10_pos((n - 1) as nat);
    }
}

pub proof fn lemma_pow10_add(m: nat, n: nat)
    ensures
        pow10(m + n) == pow10(m) * pow10(n),
    decreases n,
{
    if n == 0 {
        assert(pow10(m) * 1 == pow10(m)) by (nonlinear_arith);
    } else {
        lemma_pow10_add(m, (n - 1) as nat);
        assert(pow10((m + n - 1) as nat) == pow10(m) * pow10((n - 1) as nat));
        assert(10 * (pow10(m) * pow10((n - 1) as nat)) == pow10(m) * (10 * pow10(
            (n - 1) as nat,
        ))) by (nonlinear_arith);
    }
}

pub proof fn lemma_digits_val_single(c: char)
    ensures
        digits_val(seq![c]) == digit_val(c),
{
    let s = seq![c];
    assert(s.drop_last() =~= Seq::<char>::empty());
    assert(digits_val(Seq::<char>::empty()) == 0);
    assert(digits_val(s.drop_last()) == 0);
    assert(s.last() == c);
    assert(digits_val(s) == digits_val(s.drop_last()) * 10 + digit_val(s.last()));
}

/// Reading a concatenation: the left part is shifted by the length of the
/// right part.
pub proof fn lemma_digits_val_concat(a: Seq<char>, b: Seq<char>)
    ensures
        digits_val(a + b) == digits_val(a) * pow10(b.len()) + digits_val(b),
    decreases b.len(),
{
    if b.len() == 0 {
        assert(a + b =~= a);
        assert(digits_val(a) * 1 == digits_val(a)) by (nonlinear_arith);
    } else {
        lemma_digits_val_concat(a, b.drop_last());
        assert((a + b).drop_last() =~= a + b.drop_last());
        assert((a + b).last() == b.last());
        let va = digits_val(a);
        let p = pow10((b.len() - 1) as nat);
        assert((va * p) * 10 == va * (10 * p)) by (nonlinear_arith);
    }
}

pub proof fn lemma_digits_val_bound(s: Seq<char>)
    requires
        all_digits(s),
    ensures
        0 <= digits_val(s) < pow10(s.len()),
    decreases s.len(),
{
    if s.len() > 0 {
        assert(all_digits(s.drop_last())) by {
            assert(forall|i: int|
                0 <= i < s.len() - 1 ==> s.drop_last()[i] == #[trigger] s[i]);
        }
        lemma_digits_val_bound(s.drop_last());
        assert(is_digit(s[s.len() - 1]));
        let v = digits_val(s.drop_last());
        assert(v * 10 <= (pow10((s.len() - 1) as nat) - 1) * 10) by (nonlinear_arith)
            requires
                v <= pow10((s.len() - 1) as nat) - 1,
        ;
        assert(v * 10 >= 0) by (nonlinear_arith)
            requires
                v >= 0,
        ;
    }
}

/// A string of zero digits reads as zero, and conversely for digit
/// strings.
pub proof fn lemma_digits_val_zero(s: Seq<char>)
    requires
        all_digits(s),
    ensures
        (digits_val(s) == 0) <==> (forall|j: int| 0 <= j < s.len() ==> s[j] == '0'),
    decreases s.len(),
{
    if s.len() > 0 {
        assert(all_digits(s.drop_last())) by {
            assert(forall|i: int|
                0 <= i < s.len() - 1 ==> s.drop_last()[i] == #[trigger] s[i]);
        }
        lemma_digits_val_zero(s.drop_last());
        lemma_digits_val_bound(s.drop_last());
        let v = digits_val(s.drop_last());
        let d = digit_val(s.last());
        assert(is_digit(s[s.len() - 1]));
        if digits_val(s) == 0 {
            assert(v * 10 + d == 0);
            assert(v == 0 && d == 0) by (nonlinear_arith)
                requires
                    v >= 0,
                    0 <= d <= 9,
                    v * 10 + d == 0,
            ;
            lemma_char_cast_inj(s.last(), '0');
            assert forall|j: int| 0 <= j < s.len() implies s[j] == '0' by {
                if j < s.len() - 1 {
                    assert(s.drop_last()[j] == s[j]);
                }
            }
        }
        if forall|j: int| 0 <= j < s.len() ==> s[j] == '0' {
            assert forall|j: int| 0 <= j < s.len() - 1 implies s.drop_last()[j] == '0' by {
                assert(s.drop_last()[j] == s[j]);
            }
            assert(s.last() == '0');
            assert(v == 0);
            assert(digit_val('0') == 0);
        }
    }
}

/// Stripping leading zeros keeps the value; what remains starts with a
/// nonzero digit or is empty.
pub open spec fn strip0(s: Seq<char>) -> Seq<char>
    decreases s.len(),
{
    if s.len() > 0 && s[0] == '0' {
        strip0(s.drop_first())
    } else {
        s
    }
}

pub proof fn lemma_strip0(s: Seq<char>)
    requires
        all_digits(s),
    ensures
        digits_val(strip0(s)) == digits_val(s),
        all_digits(strip0(s)),
        strip0(s).len() <= s.len(),
        strip0(s).len() > 0 ==> strip0(s)[0] != '0',
        strip0(s) == s.skip((s.len() - strip0(s).len()) as int),
        forall|i: int| 0 <= i < s.len() - strip0(s).len() ==> s[i] == '0',
    decreases s.len(),
{
    if s.len() > 0 && s[0] == '0' {
        assert(all_digits(s.drop_first())) by {
            assert(forall|i: int|
                0 <= i < s.len() - 1 ==> s.drop_first()[i] == #[trigger] s[i + 1]);
        }
        lemma_strip0(s.drop_first());
        assert(forall|i: int|
            1 <= i < s.len() - strip0(s).len() ==> #[trigger] s[i] == s.drop_first()[i - 1]);
        assert(s =~= seq!['0'] + s.drop_first());
        lemma_digits_val_concat(seq!['0'], s.drop_first());
        lemma_digits_val_single('0');
        assert(s.drop_first().skip((s.len() - 1 - strip0(s).len()) as int) =~= s.skip(
            (s.len() - strip0(s).len()) as int,
        ));
    } else {
        assert(strip0(s) =~= s.skip(0));
    }
}

/// Among digit strings without leading zeros, a shorter one reads smaller.
pub proof fn lemma_digits_val_len(a: Seq<char>, b: Seq<char>)
    requires
        all_digits(a),
        all_digits(b),
        a.len() < b.len(),
        b.len() > 0,
        b[0] != '0',
    ensures
        digits_val(a) < digits_val(b),
{
    lemma_digits_val_bound(a);
    lemma_pow10_mono(a.len(), (b.len() - 1) as nat);
    assert(b =~= seq![b[0]] + b.drop_first());
    assert(all_digits(b.drop_first())) by {
        assert(forall|i: int|
            0 <= i < b.len() - 1 ==> b.drop_first()[i] == #[trigger] b[i + 1]);
    }
    lemma_digits_val_concat(seq![b[0]], b.drop_first());
    lemma_digits_val_bound(b.drop_first());
    lemma_digits_val_single(b[0]);
    assert(digit_val(b[0]) >= 1) by {
        if (b[0] as u32) == 0x30 {
            lemma_char_cast_inj(b[0], '0');
        }
    }
    let p = pow10((b.len() - 1) as nat);
    assert(digit_val(b[0]) * p >= p) by (nonlinear_arith)
        requires
            digit_val(b[0]) >= 1,
            p >= 0,
    ;
    lemma_pow10_pos((b.len() - 1) as nat);
}

/// For digit strings of one length, the lexicographic order is the
/// numeric order.
pub proof fn lemma_digits_lex_val(a: Seq<char>, b: Seq<char>, i: int)
    requires
        all_digits(a),
        all_digits(b),
        a.len() == b.len(),
        0 <= i <= a.len(),
        lex_lt_from(a, b, i),
    ensures
        digits_val(a.skip(i)) < digits_val(b.skip(i)),
    decreases a.len() - i,
{
    assert(i < a.len());
    let n = a.len() as int;
    let p = pow10((n - i - 1) as nat);
    assert(a.skip(i) =~= seq![a[i]] + a.skip(i + 1));
    assert(b.skip(i) =~= seq![b[i]] + b.skip(i + 1));
    assert(all_digits(a.skip(i + 1)) && all_digits(b.skip(i + 1))) by {
        assert(forall|j: int|
            0 <= j < n - i - 1 ==> a.skip(i + 1)[j] == #[trigger] a[j + i + 1]);
        assert(forall|j: int|
            0 <= j < n - i - 1 ==> b.skip(i + 1)[j] == #[trigger] b[j + i + 1]);
    }
    lemma_digits_val_concat(seq![a[i]], a.skip(i + 1));
    lemma_digits_val_concat(seq![b[i]], b.skip(i + 1));
    lemma_digits_val_single(a[i]);
    lemma_digits_val_single(b[i]);
    lemma_digits_val_bound(a.skip(i + 1));
    lemma_digits_val_bound(b.skip(i + 1));
    if (a[i] as u32) < (b[i] as u32) {
        let da = digit_val(a[i]);
        let db = digit_val(b[i]);
        assert(da * p + (p - 1) < db * p) by (nonlinear_arith)
            requires
                da < db,
                p >= 1,
        ;
        assert(db * p >= 0) by (nonlinear_arith)
            requires
                db >= 0,
                p >= 1,
        ;
        lemma_pow10_pos((n - i - 1) as nat);
    } else {
        assert((a[i] as u32) == (b[i] as u32));
        lemma_char_cast_inj(a[i], b[i]);
        lemma_digits_lex_val(a, b, i + 1);
    }
}

/// The decimal grammar accepted here: an optional sign, then either an
/// integer part with an optional fraction, or a bare fraction.  Exponents
/// and the special float names are not numerals and are rejected.
pub open spec fn dec_parse_mag(r: Seq<char>) -> Option<(Seq<char>, Seq<char>)> {
    let d1 = run_end(r, 0, |c: char| is_digit(c));
    if r.len() == 0 {
        None
    } else if d1 == r.len() {
        Some((r, Seq::empty()))
    } else if d1 > 0 && r[d1] == '.' && run_end(r, d1 + 1, |c: char| is_digit(c)) == r.len() {
        Some((r.take(d1), r.subrange(d1 + 1, r.len() as int)))
    } else if d1 == 0 && r[0] == '.' && r.len() >= 2 && run_end(r, 1, |c: char| is_digit(c))
        == r.len() {
        Some((Seq::empty(), r.skip(1)))
    } else {
        None
    }
}

/// Sign, integer digits and fraction digits of a decimal numeral.
pub open spec fn dec_parse(s: Seq<char>) -> Option<(bool, Seq<char>, Seq<char>)> {
    let signed = s.len() > 0 && (s[0] == '-' || s[0] == '+');
    let neg = s.len() > 0 && s[0] == '-';
    let r = if signed {
        s.drop_first()
    } else {
        s
    };
    match dec_parse_mag(r) {
        None => None,
        Some(p) => Some((neg, p.0, p.1)),
    }
}

/// The fraction padded with zeros to `k` digits.
pub open spec fn pad0(fp: Seq<char>, k: nat) -> Seq<char> {
    fp + Seq::new((k - fp.len()) as nat, |i: int| '0')
}

/// The magnitude of a numeral scaled by `10^k`: the value of the integer
/// digits followed by the padded fraction digits.
pub open spec fn mag(ip: Seq<char>, fp: Seq<char>, k: nat) -> int {
    digits_val(ip + pad0(fp, k))
}

pub open spec fn scaled(d: (bool, Seq<char>, Seq<char>), k: nat) -> int {
    if d.0 {
        -mag(d.1, d.2, k)
    } else {
        mag(d.1, d.2, k)
    }
}

pub open spec fn nmax(a: nat, b: nat) -> nat {
    if a >= b {
        a
    } else {
        b
    }
}

/// The numeric order on parsed numerals: both are scaled to a common power
/// of ten and the resulting integers compared.
pub open spec fn dec_le(a: (bool, Seq<char>, Seq<char>), b: (bool, Seq<char>, Seq<char>)) -> bool {
    let k = nmax(a.2.len(), b.2.len());
    scaled(a, k) <= scaled(b, k)
}

pub proof fn lemma_pad0(fp: Seq<char>, k: nat)
    requires
        all_digits(fp),
        fp.len() <= k,
    ensures
        all_digits(pad0(fp, k)),
        pad0(fp, k).len() == k,
        digits_val(pad0(fp, k)) == digits_val(fp) * pow10((k - fp.len()) as nat),
        0 <= digits_val(pad0(fp, k)) < pow10(k),
{
    let z = Seq::new((k - fp.len()) as nat, |i: int| '0');
    assert(all_digits(z)) by {
        assert(forall|i: int| 0 <= i < z.len() ==> #[trigger] z[i] == '0');
    }
    assert(all_digits(pad0(fp, k))) by {
        assert(forall|i: int|
            0 <= i < fp.len() ==> #[trigger] pad0(fp, k)[i] == fp[i]);
        assert(forall|i: int|
            fp.len() <= i < k ==> #[trigger] pad0(fp, k)[i] == z[i - fp.len()]);
    }
    lemma_digits_val_zero(z);
    lemma_digits_val_concat(fp, z);
    lemma_digits_val_bound(pad0(fp, k));
}

/// Splitting the scaled magnitude at the decimal point.
pub proof fn lemma_mag_parts(ip: Seq<char>, fp: Seq<char>, k: nat)
    requires
        all_digits(ip),
        all_digits(fp),
        fp.len() <= k,
    ensures
        mag(ip, fp, k) == digits_val(ip) * pow10(k) + digits_val(pad0(fp, k)),
        0 <= digits_val(pad0(fp, k)) < pow10(k),
        mag(ip, fp, k) >= 0,
{
    lemma_pad0(fp, k);
    lemma_digits_val_concat(ip, pad0(fp, k));
    lemma_digits_val_bound(ip);
    let vi = digits_val(ip);
    let p = pow10(k);
    assert(vi * p >= 0) by (nonlinear_arith)
        requires
            vi >= 0,
            p >= 1,
    ;
    lemma_pow10_pos(k);
}

/// A smaller integer part forces a smaller magnitude, whatever the
/// fractions are.
pub proof fn lemma_mag_lt(
    aip: Seq<char>,
    afp: Seq<char>,
    bip: Seq<char>,
    bfp: Seq<char>,
    k: nat,
)
    requires
        all_digits(aip),
        all_digits(afp),
        all_digits(bip),
        all_digits(bfp),
        afp.len() <= k,
        bfp.len() <= k,
        digits_val(aip) < digits_val(bip),
    ensures
        mag(aip, afp, k) < mag(bip, bfp, k),
{
    lemma_mag_parts(aip, afp, k);
    lemma_mag_parts(bip, bfp, k);
    let va = digits_val(aip);
    let vb = digits_val(bip);
    let p = pow10(k);
    lemma_pow10_pos(k);
    assert(va * p + (p - 1) < vb * p) by (nonlinear_arith)
        requires
            va < vb,
            p >= 1,
    ;
}

/// Raising the common scale multiplies the scaled value by a power of ten.
pub proof fn lemma_scaled_rescale(d: (bool, Seq<char>, Seq<char>), k: nat, k2: nat)
    requires
        all_digits(d.1),
        all_digits(d.2),
        d.2.len() <= k <= k2,
    ensures
        scaled(d, k2) == scaled(d, k) * pow10((k2 - k) as nat),
{
    let z = Seq::new((k2 - k) as nat, |i: int| '0');
    assert(all_digits(z)) by {
        assert(forall|i: int| 0 <= i < z.len() ==> #[trigger] z[i] == '0');
    }
    lemma_digits_val_zero(z);
    assert(d.1 + pad0(d.2, k2) =~= (d.1 + pad0(d.2, k)) + z);
    lemma_digits_val_concat(d.1 + pad0(d.2, k), z);
    let m = mag(d.1, d.2, k);
    let p = pow10((k2 - k) as nat);
    assert(-(m * p) == (-m) * p) by (nonlinear_arith);
}

/// The order can be read off at any common scale.
pub proof fn lemma_dec_le_at(a: (bool, Seq<char>, Seq<char>), b: (bool, Seq<char>, Seq<char>), kk: nat)
    requires
        all_digits(a.1),
        all_digits(a.2),
        all_digits(b.1),
        all_digits(b.2),
        a.2.len() <= kk,
        b.2.len() <= kk,
    ensures
        dec_le(a, b) == (scaled(a, kk) <= scaled(b, kk)),
{
    let k = nmax(a.2.len(), b.2.len());
    lemma_scaled_rescale(a, k, kk);
    lemma_scaled_rescale(b, k, kk);
    let p = pow10((kk - k) as nat);
    lemma_pow10_pos((kk - k) as nat);
    let sa = scaled(a, k);
    let sb = scaled(b, k);
    assert((sa <= sb) == (sa * p <= sb * p)) by (nonlinear_arith)
        requires
            p >= 1,
    ;
}

pub proof fn lemma_dec_le_total(a: (bool, Seq<char>, Seq<char>), b: (bool, Seq<char>, Seq<char>))
    ensures
        dec_le(a, b) || dec_le(b, a),
{
    assert(nmax(a.2.len(), b.2.len()) == nmax(b.2.len(), a.2.len()));
}

pub proof fn lemma_dec_le_trans(
    a: (bool, Seq<char>, Seq<char>),
    b: (bool, Seq<char>, Seq<char>),
    c: (bool, Seq<char>, Seq<char>),
)
    requires
        all_digits(a.1),
        all_digits(a.2),
        all_digits(b.1),
        all_digits(b.2),
        all_digits(c.1),
        all_digits(c.2),
        dec_le(a, b),
        dec_le(b, c),
    ensures
        dec_le(a, c),
{
    let kk = nmax(nmax(a.2.len(), b.2.len()), c.2.len());
    lemma_dec_le_at(a, b, kk);
    lemma_dec_le_at(b, c, kk);
    lemma_dec_le_at(a, c, kk);
}

/// A parsed decimal numeral: the sign and the two digit strings.
pub struct Dec {
    pub neg: bool,
    pub ip: String,
    pub fp: String,
}

impl View for Dec {
    type V = (bool, Seq<char>, Seq<char>);

    open spec fn view(&self) -> (bool, Seq<char>, Seq<char>) {
        (self.neg, self.ip@, self.fp@)
    }
}

/// End of the run of decimal digits starting at `from`.
pub fn run_digits(s: &str, from: usize) -> (r: usize)
    requires
        from <= s@.len(),
    ensures
        r == run_end(s@, from as int, |c: char| is_digit(c)),
        from <= r <= s@.len(),
{
    let n = s.unicode_len();
    let mut i = from;
    while i < n && is_digit_exec(s.get_char(i))
        invariant
            from <= i <= n,
            n == s@.len(),
            forall|j: int| from <= j < i ==> is_digit(#[trigger] s@[j]),
        decreases n - i,
    {
        i = i + 1;
    }
    proof {
        lemma_run_end_unique(s@, from as int, |c: char| is_digit(c), i as int);
    }
    i
}

pub fn dec_parse_exec(s: &str) -> (r: Option<Dec>)
    ensures
        match r {
            Some(d) => dec_parse(s@) == Some(d@) && all_digits(d.ip@) && all_digits(d.fp@),
            None => dec_parse(s@) is None,
        },
{
    let n = s.unicode_len();
    if n == 0 {
        return None;
    }
    let c0 = s.get_char(0);
    let signed = c0 == '-' || c0 == '+';
    let neg = c0 == '-';
    let start: usize = if signed {
        1
    } else {
        0
    };
    let rest = s.substring_char(start, n);
    proof {
        if signed {
            assert(rest@ =~= s@.drop_first());
        } else {
            assert(rest@ =~= s@);
        }
    }
    let rn = rest.unicode_len();
    if rn == 0 {
        return None;
    }
    let d1 = run_digits(rest, 0);
    proof {
        lemma_run_end(rest@, 0, |c: char| is_digit(c));
    }
    if d1 == rn {
        let d = Dec { neg, ip: String::from_str(rest), fp: String::new() };
        return Some(d);
    }
    if d1 > 0 && rest.get_char(d1) == '.' {
        let d2 = run_digits(rest, d1 + 1);
        proof {
            lemma_run_end(rest@, d1 + 1, |c: char| is_digit(c));
        }
        if d2 == rn {
            let d = Dec {
                neg,
                ip: String::from_str(rest.substring_char(0, d1)),
                fp: String::from_str(rest.substring_char(d1 + 1, rn)),
            };
            proof {
                assert(d.ip@ =~= rest@.take(d1 as int));
                assert(d.fp@ =~= rest@.subrange(d1 + 1, rest@.len() as int));
            }
            return Some(d);
        }
        return None;
    }
    if d1 == 0 && rest.get_char(0) == '.' && rn >= 2 {
        let d2 = run_digits(rest, 1);
        proof {
            lemma_run_end(rest@, 1, |c: char| is_digit(c));
        }
        if d2 == rn {
            let d = Dec {
                neg,
                ip: String::new(),
                fp: String::from_str(rest.substring_char(1, rn)),
            };
            proof {
                assert(d.fp@ =~= rest@.skip(1));
            }
            return Some(d);
        }
        return None;
    }
    None
}

/// Whether every character of the slice is the digit zero.
fn all_zero(s: &str) -> (r: bool)
    ensures
        r == (forall|j: int| 0 <= j < s@.len() ==> s@[j] == '0'),
{
    let n = s.unicode_len();
    let mut i: usize = 0;
    while i < n
        invariant
            i <= n,
            n == s@.len(),
            forall|j: int| 0 <= j < i ==> s@[j] == '0',
        decreases n - i,
    {
        if s.get_char(i) != '0' {
            return false;
        }
        i = i + 1;
    }
    true
}

pub enum Cmp3 {
    Less,
    Equal,
    Greater,
}

/// Compares two digit strings as if both were padded with zeros on the
/// right to their common length.
fn cmp_padded(a: &str, b: &str) -> (r: Cmp3)
    requires
        all_digits(a@),
        all_digits(b@),
    ensures
        ({
            let k = nmax(a@.len(), b@.len());
            &&& (r is Less) == (digits_val(pad0(a@, k)) < digits_val(pad0(b@, k)))
            &&& (r is Equal) == (digits_val(pad0(a@, k)) == digits_val(pad0(b@, k)))
            &&& (r is Greater) == (digits_val(pad0(a@, k)) > digits_val(pad0(b@, k)))
        }),
{
    let na = a.unicode_len();
    let nb = b.unicode_len();
    let kmax = if na >= nb {
        na
    } else {
        nb
    };
    let ghost k = nmax(a@.len(), b@.len());
    let ghost pa = pad0(a@, k);
    let ghost pb = pad0(b@, k);
    proof {
        lemma_pad0(a@, k);
        lemma_pad0(b@, k);
        assert(forall|l: int| 0 <= l < na ==> pa[l] == #[trigger] a@[l]);
        assert(forall|l: int| na <= l < k ==> #[trigger] pa[l] == '0');
        assert(forall|l: int| 0 <= l < nb ==> pb[l] == #[trigger] b@[l]);
        assert(forall|l: int| nb <= l < k ==> #[trigger] pb[l] == '0');
    }
    let mut j: usize = 0;
    while j < kmax
        invariant
            j <= kmax,
            kmax == k,
            k == nmax(a@.len(), b@.len()),
            na == a@.len(),
            nb == b@.len(),
            pa == pad0(a@, k),
            pb == pad0(b@, k),
            all_digits(pa),
            all_digits(pb),
            pa.len() == k,
            pb.len() == k,
            forall|l: int| 0 <= l < na ==> pa[l] == #[trigger] a@[l],
            forall|l: int| na <= l < k ==> #[trigger] pa[l] == '0',
            forall|l: int| 0 <= l < nb ==> pb[l] == #[trigger] b@[l],
            forall|l: int| nb <= l < k ==> #[trigger] pb[l] == '0',
            forall|l: int| 0 <= l < j ==> pa[l] == #[trigger] pb[l],
        decreases kmax - j,
    {
        let da = if j < na {
            a.get_char(j)
        } else {
            '0'
        };
        let db = if j < nb {
            b.get_char(j)
        } else {
            '0'
        };
        if da != db {
            proof {
                assert(pa[j as int] == da && pb[j as int] == db);
                lemma_lex_from_eq(pa, pb, 0, j as int);
                lemma_lex_from_eq(pb, pa, 0, j as int);
                if (da as u32) == (db as u32) {
                    lemma_char_cast_inj(da, db);
                }
                assert(pa.skip(0) =~= pa);
                assert(pb.skip(0) =~= pb);
            }
            if (da as u32) < (db as u32) {
                proof {
                    assert(lex_lt_from(pa, pb, j as int));
                    lemma_digits_lex_val(pa, pb, 0);
                }
                return Cmp3::Less;
            } else {
                proof {
                    assert(lex_lt_from(pb, pa, j as int));
                    lemma_digits_lex_val(pb, pa, 0);
                }
                return Cmp3::Greater;
            }
        }
        j = j + 1;
    }
    proof {
        assert(pa =~= pb);
    }
    Cmp3::Equal
}

/// Compares two digit strings numerically, ignoring leading zeros.
fn cmp_int_digits(a: &str, b: &str) -> (r: Cmp3)
    requires
        all_digits(a@),
        all_digits(b@),
    ensures
        (r is Less) == (digits_val(a@) < digits_val(b@)),
        (r is Equal) == (digits_val(a@) == digits_val(b@)),
        (r is Greater) == (digits_val(a@) > digits_val(b@)),
{
    let na = a.unicode_len();
    let nb = b.unicode_len();
    let mut za: usize = 0;
    while za < na && a.get_char(za) == '0'
        invariant
            za <= na,
            na == a@.len(),
            forall|j: int| 0 <= j < za ==> a@[j] == '0',
        decreases na - za,
    {
        za = za + 1;
    }
    let mut zb: usize = 0;
    while zb < nb && b.get_char(zb) == '0'
        invariant
            zb <= nb,
            nb == b@.len(),
            forall|j: int| 0 <= j < zb ==> b@[j] == '0',
        decreases nb - zb,
    {
        zb = zb + 1;
    }
    let ghost ca = a@.skip(za as int);
    let ghost cb = b@.skip(zb as int);
    proof {
        lemma_strip0(a@);
        lemma_strip0(b@);
        assert(strip0(a@) =~= ca) by {
            let sl = strip0(a@).len() as int;
            if a@.len() - sl < za {
                assert(strip0(a@)[0] == a@[a@.len() - sl]);
            }
            if za < a@.len() - sl {
                assert(a@[za as int] == '0');
            }
        }
        assert(strip0(b@) =~= cb) by {
            let sl = strip0(b@).len() as int;
            if b@.len() - sl < zb {
                assert(strip0(b@)[0] == b@[b@.len() - sl]);
            }
            if zb < b@.len() - sl {
                assert(b@[zb as int] == '0');
            }
        }
        assert(all_digits(ca) && all_digits(cb)) by {
            assert(forall|l: int| 0 <= l < ca.len() ==> ca[l] == #[trigger] a@[l + za]);
            assert(forall|l: int| 0 <= l < cb.len() ==> cb[l] == #[trigger] b@[l + zb]);
        }
        assert(digits_val(ca) == digits_val(a@));
        assert(digits_val(cb) == digits_val(b@));
    }
    let la = na - za;
    let lb = nb - zb;
    if la < lb {
        proof {
            lemma_digits_val_len(ca, cb);
        }
        return Cmp3::Less;
    }
    if lb < la {
        proof {
            lemma_digits_val_len(cb, ca);
        }
        return Cmp3::Greater;
    }
    let mut j: usize = 0;
    while j < la
        invariant
            j <= la,
            la == lb,
            za + la == na,
            zb + lb == nb,
            na == a@.len(),
            nb == b@.len(),
            ca == a@.skip(za as int),
            cb == b@.skip(zb as int),
            all_digits(ca),
            all_digits(cb),
            digits_val(ca) == digits_val(a@),
            digits_val(cb) == digits_val(b@),
            forall|l: int| 0 <= l < j ==> ca[l] == #[trigger] cb[l],
        decreases la - j,
    {
        let da = a.get_char(za + j);
        let db = b.get_char(zb + j);
        proof {
            assert(ca[j as int] == da && cb[j as int] == db);
        }
        if da != db {
            proof {
                lemma_lex_from_eq(ca, cb, 0, j as int);
                lemma_lex_from_eq(cb, ca, 0, j as int);
                if (da as u32) == (db as u32) {
                    lemma_char_cast_inj(da, db);
                }
                assert(ca.skip(0) =~= ca);
                assert(cb.skip(0) =~= cb);
            }
            if (da as u32) < (db as u32) {
                proof {
                    assert(lex_lt_from(ca, cb, j as int));
                    lemma_digits_lex_val(ca, cb, 0);
                }
                return Cmp3::Less;
            } else {
                proof {
                    assert(lex_lt_from(cb, ca, j as int));
                    lemma_digits_lex_val(cb, ca, 0);
                }
                return Cmp3::Greater;
            }
        }
        j = j + 1;
    }
    proof {
        assert(ca =~= cb);
    }
    Cmp3::Equal
}

/// The integer digits decide first; with those equal, the first differing
/// zero-padded fraction digit decides.
fn cmp_mag(a: &Dec, b: &Dec) -> (r: Cmp3)
    requires
        all_digits(a.ip@),
        all_digits(a.fp@),
        all_digits(b.ip@),
        all_digits(b.fp@),
    ensures
        ({
            let k = nmax(a.fp@.len(), b.fp@.len());
            &&& (r is Less) == (mag(a.ip@, a.fp@, k) < mag(b.ip@, b.fp@, k))
            &&& (r is Equal) == (mag(a.ip@, a.fp@, k) == mag(b.ip@, b.fp@, k))
            &&& (r is Greater) == (mag(a.ip@, a.fp@, k) > mag(b.ip@, b.fp@, k))
        }),
{
    let ghost k = nmax(a.fp@.len(), b.fp@.len());
    proof {
        lemma_mag_parts(a.ip@, a.fp@, k);
        lemma_mag_parts(b.ip@, b.fp@, k);
    }
    let ci = cmp_int_digits(a.ip.as_str(), b.ip.as_str());
    match ci {
        Cmp3::Less => {
            proof {
                lemma_mag_lt(a.ip@, a.fp@, b.ip@, b.fp@, k);
            }
            Cmp3::Less
        },
        Cmp3::Greater => {
            proof {
                lemma_mag_lt(b.ip@, b.fp@, a.ip@, a.fp@, k);
            }
            Cmp3::Greater
        },
        Cmp3::Equal => {
            let r = cmp_padded(a.fp.as_str(), b.fp.as_str());
            proof {
                assert(nmax(a.fp@.len(), b.fp@.len()) == k);
            }
            r
        },
    }
}

/// The numeric order, decided on the digit strings.
pub fn dec_le_exec(a: &Dec, b: &Dec) -> (r: bool)
    requires
        all_digits(a.ip@),
        all_digits(a.fp@),
        all_digits(b.ip@),
        all_digits(b.fp@),
    ensures
        r == dec_le(a@, b@),
{
    let ghost k = nmax(a.fp@.len(), b.fp@.len());
    proof {
        lemma_mag_parts(a.ip@, a.fp@, k);
        lemma_mag_parts(b.ip@, b.fp@, k);
        lemma_pad0(a.fp@, k);
        lemma_pad0(b.fp@, k);
        lemma_pow10_pos(k);
        lemma_digits_val_bound(a.ip@);
        lemma_digits_val_bound(b.ip@);
        lemma_digits_val_bound(a.fp@);
        lemma_digits_val_bound(b.fp@);
    }
    if a.neg && !b.neg {
        // a nonpositive value never exceeds a nonnegative one
        return true;
    }
    if !a.neg && b.neg {
        // only zero is both at most and at least zero
        let za = all_zero(a.ip.as_str()) && all_zero(a.fp.as_str());
        let zb = all_zero(b.ip.as_str()) && all_zero(b.fp.as_str());
        proof {
            lemma_digits_val_zero(a.ip@);
            lemma_digits_val_zero(a.fp@);
            lemma_digits_val_zero(b.ip@);
            lemma_digits_val_zero(b.fp@);
            let va = digits_val(a.ip@);
            let wa = digits_val(a.fp@);
            let vb = digits_val(b.ip@);
            let wb = digits_val(b.fp@);
            let p = pow10(k);
            let qa = pow10((k - a.fp@.len()) as nat);
            let qb = pow10((k - b.fp@.len()) as nat);
            lemma_pow10_pos((k - a.fp@.len()) as nat);
            lemma_pow10_pos((k - b.fp@.len()) as nat);
            assert((va * p + wa * qa == 0) == (va == 0 && wa == 0)) by (nonlinear_arith)
                requires
                    va >= 0,
                    wa >= 0,
                    p >= 1,
                    qa >= 1,
            ;
            assert((vb * p + wb * qb == 0) == (vb == 0 && wb == 0)) by (nonlinear_arith)
                requires
                    vb >= 0,
                    wb >= 0,
                    p >= 1,
                    qb >= 1,
            ;
        }
        return za && zb;
    }
    let cmp = cmp_mag(a, b);
    if a.neg {
        // both negative: the larger magnitude is the smaller value
        match cmp {
            Cmp3::Less => false,
            Cmp3::Equal => true,
            Cmp3::Greater => true,
        }
    } else {
        match cmp {
            Cmp3::Less => true,
            Cmp3::Equal => true,
            Cmp3::Greater => false,
        }
    }
}

/// Appending digits never shrinks the value read.
pub proof fn lemma_digits_val_mono(s: Seq<char>, from: int, i: int, to: int)
    requires
        0 <= from <= i <= to <= s.len(),
        all_digits(s.subrange(from, to)),
    ensures
        digits_val(s.subrange(from, i)) <= digits_val(s.subrange(from, to)),
    decreases to - i,
{
    if i < to {
        assert(s.subrange(from, i + 1).drop_last() =~= s.subrange(from, i));
        assert(all_digits(s.subrange(from, i))) by {
            assert(forall|l: int|
                0 <= l < i - from ==> s.subrange(from, i)[l] == #[trigger] s.subrange(
                    from,
                    to,
                )[l]);
        }
        lemma_digits_val_bound(s.subrange(from, i));
        assert(s.subrange(from, to)[i - from] == s[i]);
        assert(is_digit(s[i]));
        let v = digits_val(s.subrange(from, i));
        let d = digit_val(s.subrange(from, i + 1).last());
        assert(v <= v * 10 + d) by (nonlinear_arith)
            requires
                v >= 0,
                d >= 0,
        ;
        lemma_digits_val_mono(s, from, i + 1, to);
    } else {
        assert(s.subrange(from, i) =~= s.subrange(from, to));
    }
}

/// The value of the digit run `s[from..to]`, exactly when it fits; a run
/// too long to fit reports so.
pub fn digits_to_u128(s: &str, from: usize, to: usize) -> (r: Option<u128>)
    requires
        from <= to <= s@.len(),
        all_digits(s@.subrange(from as int, to as int)),
    ensures
        match r {
            Some(v) => v as int == digits_val(s@.subrange(from as int, to as int)),
            None => digits_val(s@.subrange(from as int, to as int)) > u64::MAX as int,
        },
{
    let mut acc: u128 = 0;
    let mut i = from;
    while i < to
        invariant
            from <= i <= to <= s@.len(),
            all_digits(s@.subrange(from as int, to as int)),
            acc as int == digits_val(s@.subrange(from as int, i as int)),
        decreases to - i,
    {
        let c = s.get_char(i);
        proof {
            assert(s@.subrange(from as int, to as int)[i - from] == s@[i as int]);
            assert(is_digit(s@[i as int]));
        }
        let d = (c as u32) - 0x30;
        if acc > (u128::MAX - 9) / 10 {
            proof {
                lemma_digits_val_mono(s@, from as int, i as int, to as int);
            }
            return None;
        }
        proof {
            assert(s@.subrange(from as int, (i + 1) as int).drop_last() =~= s@.subrange(
                from as int,
                i as int,
            ));
            assert(s@.subrange(from as int, (i + 1) as int).last() == s@[i as int]);
        }
        acc = acc * 10 + (d as u128);
        i = i + 1;
    }
    proof {
        assert(s@.subrange(from as int, i as int) =~= s@.subrange(from as int, to as int));
    }
    Some(acc)
}

/// The numeral truncated toward zero, saturating at the 64-bit signed
/// bounds; text outside the grammar reads as zero.
pub open spec fn trunc_decimal(s: Seq<char>) -> int {
    match dec_parse(s) {
        None => 0,
        Some(d) => {
            let v = if d.0 {
                -digits_val(d.1)
            } else {
                digits_val(d.1)
            };
            if v > i64::MAX as int {
                i64::MAX as int
            } else if v < i64::MIN as int {
                i64::MIN as int
            } else {
                v
            }
        },
    }
}

pub fn trunc_decimal_exec(s: &str) -> (r: i64)
    ensures
        r as int == trunc_decimal(s@),
{
    let parsed = dec_parse_exec(s);
    match parsed {
        None => 0,
        Some(d) => {
            let n = d.ip.as_str().unicode_len();
            proof {
                assert(d.ip@.subrange(0, n as int) =~= d.ip@);
            }
            let v = digits_to_u128(d.ip.as_str(), 0, n);
            match v {
                None => if d.neg {
                    i64::MIN
                } else {
                    i64::MAX
                },
                Some(v) => {
                    if d.neg {
                        if v >= 9223372036854775808u128 {
                            i64::MIN
                        } else {
                            -(v as i64)
                        }
                    } else {
                        if v > i64::MAX as u128 {
                            i64::MAX
                        } else {
                            v as i64
                        }
                    }
                },
            }
        },
    }
}

/// A parse that succeeds yields digit strings for both parts.
pub proof fn lemma_dec_parse_digits(s: Seq<char>)
    requires
        dec_parse(s) is Some,
    ensures
        all_digits(dec_parse(s).unwrap().1),
        all_digits(dec_parse(s).unwrap().2),
{
    let signed = s.len() > 0 && (s[0] == '-' || s[0] == '+');
    let r = if signed {
        s.drop_first()
    } else {
        s
    };
    let d1 = run_end(r, 0, |c: char| is_digit(c));
    lemma_run_end(r, 0, |c: char| is_digit(c));
    if d1 == r.len() {
        assert(all_digits(r));
        assert(all_digits(Seq::<char>::empty()));
    } else if d1 > 0 && r[d1] == '.' && run_end(r, d1 + 1, |c: char| is_digit(c)) == r.len() {
        lemma_run_end(r, d1 + 1, |c: char| is_digit(c));
        assert(all_digits(r.take(d1))) by {
            assert(forall|l: int| 0 <= l < d1 ==> r.take(d1)[l] == #[trigger] r[l]);
        }
        assert(all_digits(r.subrange(d1 + 1, r.len() as int))) by {
            assert(forall|l: int|
                0 <= l < r.len() - d1 - 1 ==> r.subrange(d1 + 1, r.len() as int)[l]
                    == #[trigger] r[l + d1 + 1]);
        }
    } else {
        lemma_run_end(r, 1, |c: char| is_digit(c));
        assert(all_digits(Seq::<char>::empty()));
        assert(all_digits(r.skip(1))) by {
            assert(forall|l: int|
                0 <= l < r.len() - 1 ==> r.skip(1)[l] == #[trigger] r[l + 1]);
        }
    }
}

} // verus!
