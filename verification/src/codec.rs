//! Numeric codec: bidirectional mapping between the two arbitrary-precision
//! numeric domain types and their wire string representations.
//!
//! Decimals travel as canonical base-10 literals (`"6371.0"`); large integers
//! travel as lower-case scientific notation (`"5.972e24"`). Both types hold
//! their base-10 digits as plain values, so every statement about them is a
//! statement about digit sequences.

use vstd::prelude::*;

use crate::error::ApiError;

verus! {

// ---------------------------------------------------------------------------
// Digits and digit characters
// ---------------------------------------------------------------------------

/// The value of a decimal digit character; 10 marks a non-digit.
pub open spec fn digit_of_char(c: char) -> u8 {
    match c {
        '0' => 0u8,
        '1' => 1u8,
        '2' => 2u8,
        '3' => 3u8,
        '4' => 4u8,
        '5' => 5u8,
        '6' => 6u8,
        '7' => 7u8,
        '8' => 8u8,
        '9' => 9u8,
        _ => 10u8,
    }
}

pub open spec fn is_digit_char(c: char) -> bool {
    digit_of_char(c) != 10
}

/// The character for a decimal digit value below ten.
pub open spec fn char_of_digit(d: u8) -> char {
    match d {
        0u8 => '0',
        1u8 => '1',
        2u8 => '2',
        3u8 => '3',
        4u8 => '4',
        5u8 => '5',
        6u8 => '6',
        7u8 => '7',
        8u8 => '8',
        _ => '9',
    }
}

/// Every entry is a decimal digit value.
pub open spec fn seq_digits(s: Seq<u8>) -> bool {
    forall|i: int| 0 <= i < s.len() ==> s[i] < 10
}

/// Every entry is zero.
pub open spec fn all_zero(s: Seq<u8>) -> bool {
    forall|i: int| 0 <= i < s.len() ==> s[i] == 0
}

pub open spec fn digit_chars(s: Seq<u8>) -> Seq<char> {
    s.map_values(|d: u8| char_of_digit(d))
}

pub(crate) proof fn lemma_digit_char_inverse(d: u8)
    requires
        d < 10,
    ensures
        digit_of_char(char_of_digit(d)) == d,
        is_digit_char(char_of_digit(d)),
        char_of_digit(d) != '-',
        char_of_digit(d) != '+',
        char_of_digit(d) != '.',
{
}

proof fn lemma_char_digit_inverse(c: char)
    requires
        is_digit_char(c),
    ensures
        char_of_digit(digit_of_char(c)) == c,
{
}

// ---------------------------------------------------------------------------
// The decimal type
// ---------------------------------------------------------------------------

/// Mathematical shape of a decimal: a sign and the digits on either side of
/// the point. An empty fractional part means the literal has no point.
#[verifier::ext_equal]
pub struct DecModel {
    pub neg: bool,
    pub int_digits: Seq<u8>,
    pub frac_digits: Seq<u8>,
}

/// An unbounded-precision decimal, stored as its canonical base-10 digits.
#[derive(Debug)]
pub struct CustomBigDecimal {
    pub neg: bool,
    pub int_digits: Vec<u8>,
    pub frac_digits: Vec<u8>,
}

impl View for CustomBigDecimal {
    type V = DecModel;

    open spec fn view(&self) -> DecModel {
        DecModel { neg: self.neg, int_digits: self.int_digits@, frac_digits: self.frac_digits@ }
    }
}

pub open spec fn dec_is_zero(m: DecModel) -> bool {
    all_zero(m.int_digits) && all_zero(m.frac_digits)
}

/// Canonical internal form: digits in range, at least one integer digit, no
/// superfluous leading zero, and zero is never negative.
pub open spec fn dec_wf(m: DecModel) -> bool {
    &&& seq_digits(m.int_digits)
    &&& seq_digits(m.frac_digits)
    &&& m.int_digits.len() >= 1
    &&& m.int_digits.len() > 1 ==> m.int_digits[0] != 0
    &&& m.neg ==> !dec_is_zero(m)
}

/// The canonical wire rendering of a decimal.
pub open spec fn spec_encode_dec(m: DecModel) -> Seq<char> {
    (if m.neg {
        seq!['-']
    } else {
        Seq::<char>::empty()
    }) + digit_chars(m.int_digits) + (if m.frac_digits.len() > 0 {
        seq!['.'] + digit_chars(m.frac_digits)
    } else {
        Seq::<char>::empty()
    })
}

// ---------------------------------------------------------------------------
// The decimal grammar: sign? digit+ ('.' digit+)?
// ---------------------------------------------------------------------------

/// Length of the maximal run of digit characters at the front.
pub open spec fn digit_prefix_len(s: Seq<char>) -> int
    decreases s.len(),
{
    if s.len() == 0 || !is_digit_char(s[0]) {
        0
    } else {
        1 + digit_prefix_len(s.skip(1))
    }
}

pub open spec fn sign_len(s: Seq<char>) -> int {
    if s.len() > 0 && (s[0] == '-' || s[0] == '+') {
        1
    } else {
        0
    }
}

/// The literal without its sign character.
pub open spec fn body_of(s: Seq<char>) -> Seq<char> {
    s.skip(sign_len(s))
}

/// Whether a string is a syntactically valid base-10 decimal literal:
/// an optional sign, at least one integer digit, and optionally a point
/// followed by at least one fractional digit. No exponent marker.
pub open spec fn dec_str_valid(s: Seq<char>) -> bool {
    let t = body_of(s);
    let k = digit_prefix_len(t);
    k >= 1 && (k == t.len() || (k + 2 <= t.len() && t[k] == '.' && digit_prefix_len(t.skip(k + 1))
        == t.len() - (k + 1)))
}

/// The integer digits as written, leading zeros included.
pub open spec fn raw_int_digits(s: Seq<char>) -> Seq<u8> {
    let t = body_of(s);
    t.take(digit_prefix_len(t)).map_values(|c: char| digit_of_char(c))
}

/// The fractional digits as written; empty when the literal has no point.
pub open spec fn raw_frac_digits(s: Seq<char>) -> Seq<u8> {
    let t = body_of(s);
    let k = digit_prefix_len(t);
    if k == t.len() {
        Seq::<u8>::empty()
    } else {
        t.skip(k + 1).map_values(|c: char| digit_of_char(c))
    }
}

/// Remove leading zeros, keeping at least one digit.
pub open spec fn strip_zeros(s: Seq<u8>) -> Seq<u8>
    decreases s.len(),
{
    if s.len() <= 1 {
        s
    } else if s[0] == 0 {
        strip_zeros(s.skip(1))
    } else {
        s
    }
}

/// The decimal a valid literal denotes: leading integer zeros dropped, the
/// fractional digits kept as written, and a `-` sign dropped on zero.
pub open spec fn spec_decode_dec(s: Seq<char>) -> DecModel {
    let ints = strip_zeros(raw_int_digits(s));
    let fracs = raw_frac_digits(s);
    DecModel {
        neg: s.len() > 0 && s[0] == '-' && !(all_zero(ints) && all_zero(fracs)),
        int_digits: ints,
        frac_digits: fracs,
    }
}

/// A valid literal that is already in canonical form: no plus sign, no
/// superfluous leading zero, and no minus sign on zero.
pub open spec fn dec_str_canonical(s: Seq<char>) -> bool {
    &&& dec_str_valid(s)
    &&& s[0] != '+'
    &&& raw_int_digits(s).len() > 1 ==> raw_int_digits(s)[0] != 0
    &&& s[0] == '-' ==> !(all_zero(raw_int_digits(s)) && all_zero(raw_frac_digits(s)))
}

// ---------------------------------------------------------------------------
// Helper lemmas
// ---------------------------------------------------------------------------

proof fn lemma_digit_prefix_char(s: Seq<char>, k: int)
    requires
        0 <= k <= s.len(),
        forall|j: int| 0 <= j < k ==> is_digit_char(s[j]),
        k < s.len() ==> !is_digit_char(s[k]),
    ensures
        digit_prefix_len(s) == k,
    decreases s.len(),
{
    if s.len() == 0 {
    } else if k == 0 {
    } else {
        assert(is_digit_char(s[0]));
        assert forall|j: int| 0 <= j < k - 1 implies is_digit_char(s.skip(1)[j]) by {
            assert(s.skip(1)[j] == s[j + 1]);
        }
        if k - 1 < s.skip(1).len() {
            assert(s.skip(1)[k - 1] == s[k]);
        }
        lemma_digit_prefix_char(s.skip(1), k - 1);
    }
}

proof fn lemma_strip_zeros_skip(s: Seq<u8>, j: int)
    requires
        0 <= j < s.len(),
        forall|i: int| 0 <= i < j ==> s[i] == 0,
        j == s.len() - 1 || s[j] != 0,
    ensures
        strip_zeros(s) == s.skip(j),
    decreases j,
{
    if j == 0 {
        assert(s.skip(0) =~= s);
        if s.len() > 1 && s[0] == 0 {
            // then j == s.len() - 1 is false and s[0] != 0 is false: contradiction
            assert(false);
        }
    } else {
        assert(s[0] == 0);
        assert(s.len() > 1);
        assert forall|i: int| 0 <= i < j - 1 implies s.skip(1)[i] == 0 by {
            assert(s.skip(1)[i] == s[i + 1]);
        }
        assert(s.skip(1)[j - 1] == s[j]);
        lemma_strip_zeros_skip(s.skip(1), j - 1);
        assert(s.skip(1).skip(j - 1) =~= s.skip(j));
    }
}

proof fn lemma_strip_zeros_wf(s: Seq<u8>)
    requires
        s.len() >= 1,
    ensures
        strip_zeros(s).len() >= 1,
        strip_zeros(s).len() > 1 ==> strip_zeros(s)[0] != 0,
        seq_digits(s) ==> seq_digits(strip_zeros(s)),
        all_zero(strip_zeros(s)) == all_zero(s),
    decreases s.len(),
{
    if s.len() <= 1 {
    } else if s[0] == 0 {
        lemma_strip_zeros_wf(s.skip(1));
        assert forall|i: int| 0 <= i < s.skip(1).len() implies s.skip(1)[i] == s[i + 1] by {}
        if all_zero(s.skip(1)) {
            assert forall|i: int| 0 <= i < s.len() implies s[i] == 0 by {
                if i > 0 {
                    assert(s.skip(1)[i - 1] == 0);
                }
            }
        }
        if seq_digits(s) {
            assert forall|i: int| 0 <= i < s.skip(1).len() implies s.skip(1)[i] < 10 by {}
        }
    } else {
        assert(!all_zero(s));
    }
}

proof fn lemma_strip_zeros_noop(s: Seq<u8>)
    requires
        s.len() >= 1,
        s.len() > 1 ==> s[0] != 0,
    ensures
        strip_zeros(s) == s,
{
}

/// The number a digit run denotes, most significant digit first.
pub open spec fn digits_val(ds: Seq<u8>) -> int
    decreases ds.len(),
{
    if ds.len() == 0 {
        0
    } else {
        digits_val(ds.drop_last()) * 10 + ds.last()
    }
}

pub proof fn lemma_digits_val_nonneg(ds: Seq<u8>)
    ensures
        digits_val(ds) >= 0,
    decreases ds.len(),
{
    if ds.len() > 0 {
        lemma_digits_val_nonneg(ds.drop_last());
    }
}

/// A digit run denotes at least as much as any of its prefixes.
pub proof fn lemma_digits_val_prefix_mono(ds: Seq<u8>, i: int, j: int)
    requires
        0 <= i <= j <= ds.len(),
    ensures
        digits_val(ds.take(i)) <= digits_val(ds.take(j)),
    decreases j - i,
{
    if i < j {
        lemma_digits_val_prefix_mono(ds, i, j - 1);
        assert(ds.take(j).drop_last() =~= ds.take(j - 1));
        assert(ds.take(j).last() == ds[j - 1]);
        lemma_digits_val_nonneg(ds.take(j - 1));
    }
}

proof fn lemma_digit_prefix_props(s: Seq<char>)
    ensures
        0 <= digit_prefix_len(s) <= s.len(),
        forall|j: int| 0 <= j < digit_prefix_len(s) ==> is_digit_char(s[j]),
        digit_prefix_len(s) < s.len() ==> !is_digit_char(s[digit_prefix_len(s)]),
    decreases s.len(),
{
    if s.len() == 0 || !is_digit_char(s[0]) {
    } else {
        lemma_digit_prefix_props(s.skip(1));
        assert forall|j: int| 0 <= j < digit_prefix_len(s) implies is_digit_char(s[j]) by {
            if j > 0 {
                assert(s.skip(1)[j - 1] == s[j]);
            }
        }
        if digit_prefix_len(s) < s.len() {
            assert(s.skip(1)[digit_prefix_len(s) - 1] == s[digit_prefix_len(s)]);
        }
    }
}

// ---------------------------------------------------------------------------
// Round-trip laws
// ---------------------------------------------------------------------------

/// Encoding a well-formed decimal yields a canonical literal, and decoding
/// that literal yields the identical decimal.
pub proof fn lemma_dec_encode_then_decode(m: DecModel)
    requires
        dec_wf(m),
    ensures
        dec_str_valid(spec_encode_dec(m)),
        dec_str_canonical(spec_encode_dec(m)),
        spec_decode_dec(spec_encode_dec(m)) == m,
{
    let s = spec_encode_dec(m);
    let sign = if m.neg {
        seq!['-']
    } else {
        Seq::<char>::empty()
    };
    let ichars = digit_chars(m.int_digits);
    let tail = if m.frac_digits.len() > 0 {
        seq!['.'] + digit_chars(m.frac_digits)
    } else {
        Seq::<char>::empty()
    };
    let k = m.int_digits.len() as int;
    assert(s == sign + ichars + tail);
    lemma_digit_char_inverse(m.int_digits[0]);
    if m.neg {
        assert(s[0] == '-');
    } else {
        assert(s[0] == ichars[0]);
        assert(ichars[0] == char_of_digit(m.int_digits[0]));
    }
    assert(sign_len(s) == sign.len());
    let t = body_of(s);
    assert(t =~= ichars + tail);
    assert forall|j: int| 0 <= j < k implies is_digit_char(t[j]) by {
        assert(t[j] == ichars[j]);
        lemma_digit_char_inverse(m.int_digits[j]);
    }
    if m.frac_digits.len() > 0 {
        assert(t[k] == '.');
    }
    lemma_digit_prefix_char(t, k);
    assert forall|j: int| 0 <= j < k implies t.take(k).map_values(|c: char| digit_of_char(c))[j]
        == m.int_digits[j] by {
        assert(t[j] == char_of_digit(m.int_digits[j]));
        lemma_digit_char_inverse(m.int_digits[j]);
    }
    assert(raw_int_digits(s) =~= m.int_digits);
    lemma_strip_zeros_noop(m.int_digits);
    if m.frac_digits.len() > 0 {
        let u = t.skip(k + 1);
        assert(u =~= digit_chars(m.frac_digits));
        assert forall|j: int| 0 <= j < u.len() implies is_digit_char(u[j]) by {
            lemma_digit_char_inverse(m.frac_digits[j]);
        }
        lemma_digit_prefix_char(u, u.len() as int);
        assert forall|j: int| 0 <= j < u.len() implies u.map_values(|c: char| digit_of_char(c))[j]
            == m.frac_digits[j] by {
            lemma_digit_char_inverse(m.frac_digits[j]);
        }
        assert(raw_frac_digits(s) =~= m.frac_digits);
    } else {
        assert(k == t.len());
        assert(raw_frac_digits(s) =~= m.frac_digits);
    }
    assert(dec_str_valid(s));
    assert(spec_decode_dec(s) =~= m);
}

/// Decoding a canonical decimal literal and encoding the result returns the
/// identical string.
pub proof fn lemma_dec_decode_then_encode(s: Seq<char>)
    requires
        dec_str_canonical(s),
    ensures
        spec_encode_dec(spec_decode_dec(s)) == s,
{
    let t = body_of(s);
    let k = digit_prefix_len(t);
    lemma_digit_prefix_props(t);
    let ri = raw_int_digits(s);
    let rf = raw_frac_digits(s);
    lemma_strip_zeros_noop(ri);
    let m = spec_decode_dec(s);
    assert(m.int_digits == ri && m.frac_digits == rf);
    assert forall|j: int| 0 <= j < k implies digit_chars(ri)[j] == t[j] by {
        assert(ri[j] == digit_of_char(t.take(k)[j]));
        lemma_char_digit_inverse(t[j]);
    }
    assert(digit_chars(ri) =~= t.take(k));
    let sign = if m.neg {
        seq!['-']
    } else {
        Seq::<char>::empty()
    };
    if sign_len(s) == 1 {
        assert(s[0] == '-');
        assert(m.neg);
        assert(sign =~= s.take(1));
    } else {
        assert(!(s[0] == '-'));
        assert(!m.neg);
        assert(sign =~= s.take(0));
    }
    assert(sign =~= s.take(sign_len(s)));
    if k == t.len() {
        assert(rf =~= Seq::<u8>::empty());
        assert(spec_encode_dec(m) == sign + digit_chars(ri) + Seq::<char>::empty());
        assert(spec_encode_dec(m) =~= s.take(sign_len(s)) + t);
        assert(s.take(sign_len(s)) + s.skip(sign_len(s)) =~= s);
    } else {
        assert(t[k] == '.');
        let u = t.skip(k + 1);
        lemma_digit_prefix_props(u);
        assert(digit_prefix_len(u) == u.len());
        assert(rf == u.map_values(|c: char| digit_of_char(c)));
        assert forall|j: int| 0 <= j < u.len() implies digit_chars(rf)[j] == u[j] by {
            assert(rf[j] == digit_of_char(u[j]));
            assert(is_digit_char(u[j]));
            lemma_char_digit_inverse(u[j]);
        }
        assert(digit_chars(rf) =~= u);
        assert(rf.len() == t.len() - (k + 1));
        assert(rf.len() > 0);
        assert(spec_encode_dec(m) == sign + digit_chars(ri) + (seq!['.'] + digit_chars(rf)));
        assert(t.take(k) + (seq!['.'] + u) =~= t);
        assert(spec_encode_dec(m) =~= s.take(sign_len(s)) + t);
        assert(s.take(sign_len(s)) + s.skip(sign_len(s)) =~= s);
    }
    assert(spec_encode_dec(m) =~= s);
}

// ---------------------------------------------------------------------------
// Executable scanning
// ---------------------------------------------------------------------------

/// The value of a digit character; 10 for anything else.
fn digit_val(c: char) -> (r: u8)
    ensures
        r == digit_of_char(c),
{
    match c {
        '0' => 0u8,
        '1' => 1u8,
        '2' => 2u8,
        '3' => 3u8,
        '4' => 4u8,
        '5' => 5u8,
        '6' => 6u8,
        '7' => 7u8,
        '8' => 8u8,
        '9' => 9u8,
        _ => 10u8,
    }
}

/// Collect the run of digit characters starting at `from`; returns the digit
/// values and the index of the first non-digit (or the end).
pub(crate) fn scan_digits(value: &str, n: usize, from: usize) -> (r: (Vec<u8>, usize))
    requires
        n == value@.len(),
        from <= n,
    ensures
        from <= r.1 <= n,
        r.0@.len() == r.1 - from,
        forall|j: int| from <= j < r.1 ==> is_digit_char(value@[j]),
        forall|j: int| 0 <= j < r.0@.len() ==> r.0@[j] == digit_of_char(value@[from + j]),
        seq_digits(r.0@),
        r.1 < n ==> !is_digit_char(value@[r.1 as int]),
{
    let mut ds: Vec<u8> = Vec::new();
    let mut i: usize = from;
    while i < n && digit_val(value.get_char(i)) < 10
        invariant
            from <= i <= n,
            n == value@.len(),
            ds@.len() == i - from,
            forall|j: int| from <= j < i ==> is_digit_char(value@[j]),
            forall|j: int| 0 <= j < ds@.len() ==> ds@[j] == digit_of_char(value@[from + j]),
        decreases n - i,
    {
        let c = value.get_char(i);
        let d = digit_val(c);
        ds.push(d);
        i += 1;
    }
    assert forall|j: int| 0 <= j < ds@.len() implies ds@[j] < 10 by {
        assert(is_digit_char(value@[from + j]));
    }
    (ds, i)
}

fn all_zero_exec(v: &Vec<u8>) -> (b: bool)
    ensures
        b == all_zero(v@),
{
    let mut i: usize = 0;
    while i < v.len()
        invariant
            0 <= i <= v@.len(),
            forall|j: int| 0 <= j < i ==> v@[j] == 0,
        decreases v@.len() - i,
    {
        if v[i] != 0 {
            return false;
        }
        i += 1;
    }
    true
}

/// Copy a digit run.
fn clone_digits(v: &Vec<u8>) -> (r: Vec<u8>)
    ensures
        r@ == v@,
{
    let mut out: Vec<u8> = Vec::new();
    let mut i: usize = 0;
    while i < v.len()
        invariant
            0 <= i <= v@.len(),
            out@ == v@.take(i as int),
        decreases v@.len() - i,
    {
        let d = v[i];
        out.push(d);
        proof {
            assert(out@ =~= v@.take(i + 1));
        }
        i += 1;
    }
    proof {
        assert(out@ =~= v@);
    }
    out
}

/// Copy a digit run without its leading zeros, keeping at least one digit.
fn strip_zeros_exec(v: &Vec<u8>) -> (r: Vec<u8>)
    requires
        v@.len() >= 1,
    ensures
        r@ == strip_zeros(v@),
{
    let last = v.len() - 1;
    let mut sidx: usize = 0;
    while sidx < last && v[sidx] == 0
        invariant
            last == v@.len() - 1,
            0 <= sidx < v@.len(),
            forall|i: int| 0 <= i < sidx ==> v@[i] == 0,
        decreases v@.len() - sidx,
    {
        sidx += 1;
    }
    proof {
        lemma_strip_zeros_skip(v@, sidx as int);
    }
    let mut out: Vec<u8> = Vec::new();
    let mut j: usize = sidx;
    while j < v.len()
        invariant
            sidx <= j <= v@.len(),
            out@ == v@.subrange(sidx as int, j as int),
        decreases v@.len() - j,
    {
        let d = v[j];
        out.push(d);
        proof {
            assert(out@ =~= v@.subrange(sidx as int, j + 1));
        }
        j += 1;
    }
    proof {
        assert(out@ =~= v@.skip(sidx as int));
    }
    out
}

/// Normalize scanned digits into a well-formed decimal: strip leading integer
/// zeros and drop the sign on zero.
fn normalize_dec(minus: bool, int_raw: Vec<u8>, frac: Vec<u8>) -> (d: CustomBigDecimal)
    requires
        int_raw@.len() >= 1,
        seq_digits(int_raw@),
        seq_digits(frac@),
    ensures
        d@.int_digits == strip_zeros(int_raw@),
        d@.frac_digits == frac@,
        d@.neg == (minus && !(all_zero(strip_zeros(int_raw@)) && all_zero(frac@))),
        dec_wf(d@),
{
    let ints = strip_zeros_exec(&int_raw);
    proof {
        lemma_strip_zeros_wf(int_raw@);
    }
    let zero = if all_zero_exec(&ints) {
        all_zero_exec(&frac)
    } else {
        false
    };
    let neg = minus && !zero;
    let d = CustomBigDecimal { neg, int_digits: ints, frac_digits: frac };
    proof {
        assert(dec_wf(d@));
    }
    d
}

// ---------------------------------------------------------------------------
// The public decimal codec
// ---------------------------------------------------------------------------

impl CustomBigDecimal {
    /// Decode a wire string. Accepts exactly the base-10 decimal literals
    /// (optional sign, optional fractional part, no exponent marker);
    /// anything else fails with `InvalidNumericLiteral`. A canonical literal
    /// decodes to the decimal that encodes back to it.
    pub fn parse(value: &str) -> (r: Result<CustomBigDecimal, ApiError>)
        ensures
            match r {
                Ok(d) => dec_str_valid(value@) && dec_wf(d@) && d@ == spec_decode_dec(value@)
                    && (dec_str_canonical(value@) ==> spec_encode_dec(d@) == value@),
                Err(e) => !dec_str_valid(value@) && e == ApiError::InvalidNumericLiteral,
            },
    {
        proof {
            if dec_str_canonical(value@) {
                lemma_dec_decode_then_encode(value@);
            }
        }
        let ghost s = value@;
        let n = value.unicode_len();
        let mut start: usize = 0;
        let mut minus = false;
        if n > 0 {
            let c0 = value.get_char(0);
            if c0 == '-' {
                minus = true;
                start = 1;
            } else if c0 == '+' {
                start = 1;
            }
        }
        proof {
            assert(sign_len(s) == start as int);
            assert(minus == (s.len() > 0 && s[0] == '-'));
        }
        let ghost t = body_of(s);
        let (int_raw, int_end) = scan_digits(value, n, start);
        proof {
            assert forall|j: int| 0 <= j < int_end - start implies is_digit_char(t[j]) by {
                assert(t[j] == s[start + j]);
            }
            if int_end - start < t.len() {
                assert(t[int_end - start] == s[int_end as int]);
            }
            lemma_digit_prefix_char(t, int_end - start);
        }
        let ghost k = int_end - start;
        if int_end == start {
            return Err(ApiError::InvalidNumericLiteral);
        }
        proof {
            assert forall|j: int| 0 <= j < int_raw@.len() implies int_raw@[j] == digit_of_char(
                t[j],
            ) by {
                assert(t[j] == s[start + j]);
            }
            assert(int_raw@ =~= t.take(k).map_values(|c: char| digit_of_char(c)));
            assert(int_raw@ == raw_int_digits(s));
        }
        if int_end == n {
            let d = normalize_dec(minus, int_raw, Vec::new());
            proof {
                assert(raw_frac_digits(s) =~= Seq::<u8>::empty());
                assert(d@ =~= spec_decode_dec(s));
            }
            return Ok(d);
        }
        let c = value.get_char(int_end);
        if c != '.' {
            proof {
                assert(t[k] == s[int_end as int]);
            }
            return Err(ApiError::InvalidNumericLiteral);
        }
        let (frac_raw, frac_end) = scan_digits(value, n, int_end + 1);
        proof {
            let u = t.skip(k + 1);
            assert(u =~= s.skip(int_end + 1));
            assert forall|j: int| 0 <= j < frac_end - (int_end + 1) implies is_digit_char(
                u[j],
            ) by {
                assert(u[j] == s[int_end + 1 + j]);
            }
            if frac_end - (int_end + 1) < u.len() {
                assert(u[frac_end - (int_end + 1)] == s[frac_end as int]);
            }
            lemma_digit_prefix_char(u, frac_end - (int_end + 1));
            assert(t[k] == s[int_end as int]);
        }
        if frac_end == int_end + 1 {
            return Err(ApiError::InvalidNumericLiteral);
        }
        if frac_end < n {
            return Err(ApiError::InvalidNumericLiteral);
        }
        proof {
            let u = t.skip(k + 1);
            assert forall|j: int| 0 <= j < frac_raw@.len() implies frac_raw@[j] == digit_of_char(
                u[j],
            ) by {
                assert(u[j] == s[int_end + 1 + j]);
            }
            assert(frac_raw@ =~= u.map_values(|c: char| digit_of_char(c)));
            assert(frac_raw@ == raw_frac_digits(s));
        }
        let d = normalize_dec(minus, int_raw, frac_raw);
        proof {
            assert(d@ =~= spec_decode_dec(s));
        }
        Ok(d)
    }

    /// A structural copy.
    pub fn duplicate(&self) -> (r: CustomBigDecimal)
        ensures
            r@ == self@,
    {
        let r = CustomBigDecimal {
            neg: self.neg,
            int_digits: clone_digits(&self.int_digits),
            frac_digits: clone_digits(&self.frac_digits),
        };
        proof {
            assert(r@ =~= self@);
        }
        r
    }

    /// Encode to the canonical wire form (no scientific notation). The
    /// result is a canonical literal that decodes back to this decimal.
    pub fn to_value(&self) -> (r: String)
        requires
            dec_wf(self@),
        ensures
            r@ == spec_encode_dec(self@),
            dec_str_canonical(r@),
            spec_decode_dec(r@) == self@,
    {
        proof {
            lemma_dec_encode_then_decode(self@);
        }
        let mut out = String::new();
        if self.neg {
            out.append("-");
        }
        proof {
            reveal_strlit("-");
            assert(out@ =~= (if self@.neg {
                seq!['-']
            } else {
                Seq::<char>::empty()
            }));
        }
        push_digits(&mut out, &self.int_digits);
        if self.frac_digits.len() > 0 {
            out.append(".");
            proof {
                reveal_strlit(".");
            }
            push_digits(&mut out, &self.frac_digits);
        }
        proof {
            assert(out@ =~= spec_encode_dec(self@));
        }
        out
    }
}

/// The string holding one digit character.
fn digit_str(d: u8) -> (r: &'static str)
    requires
        d < 10,
    ensures
        r@ == seq![char_of_digit(d)],
{
    if d == 0 {
        proof {
            reveal_strlit("0");
            assert("0"@ =~= seq![char_of_digit(0u8)]);
        }
        return "0";
    }
    if d == 1 {
        proof {
            reveal_strlit("1");
            assert("1"@ =~= seq![char_of_digit(1u8)]);
        }
        return "1";
    }
    if d == 2 {
        proof {
            reveal_strlit("2");
            assert("2"@ =~= seq![char_of_digit(2u8)]);
        }
        return "2";
    }
    if d == 3 {
        proof {
            reveal_strlit("3");
            assert("3"@ =~= seq![char_of_digit(3u8)]);
        }
        return "3";
    }
    if d == 4 {
        proof {
            reveal_strlit("4");
            assert("4"@ =~= seq![char_of_digit(4u8)]);
        }
        return "4";
    }
    if d == 5 {
        proof {
            reveal_strlit("5");
            assert("5"@ =~= seq![char_of_digit(5u8)]);
        }
        return "5";
    }
    if d == 6 {
        proof {
            reveal_strlit("6");
            assert("6"@ =~= seq![char_of_digit(6u8)]);
        }
        return "6";
    }
    if d == 7 {
        proof {
            reveal_strlit("7");
            assert("7"@ =~= seq![char_of_digit(7u8)]);
        }
        return "7";
    }
    if d == 8 {
        proof {
            reveal_strlit("8");
            assert("8"@ =~= seq![char_of_digit(8u8)]);
        }
        return "8";
    }
    proof {
        reveal_strlit("9");
        assert("9"@ =~= seq![char_of_digit(9u8)]);
    }
    "9"
}

/// Append the characters of a digit run.
fn push_digits(out: &mut String, ds: &Vec<u8>)
    requires
        seq_digits(ds@),
    ensures
        final(out)@ == old(out)@ + digit_chars(ds@),
{
    let mut i: usize = 0;
    while i < ds.len()
        invariant
            0 <= i <= ds@.len(),
            seq_digits(ds@),
            out@ == old(out)@ + digit_chars(ds@.take(i as int)),
        decreases ds@.len() - i,
    {
        let d = ds[i];
        out.append(digit_str(d));
        proof {
            assert(out@ =~= old(out)@ + digit_chars(ds@.take(i + 1)));
        }
        i += 1;
    }
    proof {
        assert(ds@.take(ds@.len() as int) =~= ds@);
    }
}

// ---------------------------------------------------------------------------
// The integer type
// ---------------------------------------------------------------------------

/// Mathematical shape of an integer: a sign and its base-10 digits.
#[verifier::ext_equal]
pub struct IntModel {
    pub neg: bool,
    pub digits: Seq<u8>,
}

/// A signed unbounded integer, stored as its canonical base-10 digits.
#[derive(Debug)]
pub struct CustomBigInt {
    pub neg: bool,
    pub digits: Vec<u8>,
}

impl View for CustomBigInt {
    type V = IntModel;

    open spec fn view(&self) -> IntModel {
        IntModel { neg: self.neg, digits: self.digits@ }
    }
}

pub open spec fn int_wf(m: IntModel) -> bool {
    &&& seq_digits(m.digits)
    &&& m.digits.len() >= 1
    &&& m.digits.len() > 1 ==> m.digits[0] != 0
    &&& m.neg ==> !all_zero(m.digits)
}

/// Remove trailing zeros, keeping at least one digit.
pub open spec fn strip_trailing_zeros(s: Seq<u8>) -> Seq<u8>
    decreases s.len(),
{
    if s.len() <= 1 {
        s
    } else if s.last() == 0 {
        strip_trailing_zeros(s.drop_last())
    } else {
        s
    }
}

/// The base-10 digits of a non-negative number, empty for zero.
pub open spec fn nat_digits(n: int) -> Seq<u8>
    decreases n,
{
    if n <= 0 {
        Seq::<u8>::empty()
    } else {
        nat_digits(n / 10).push((n % 10) as u8)
    }
}

/// A number's decimal digits denote it.
pub proof fn lemma_nat_digits_val(n: int)
    requires
        n >= 0,
    ensures
        digits_val(nat_digits(n)) == n,
        seq_digits(nat_digits(n)),
    decreases n,
{
    if n > 0 {
        lemma_nat_digits_val(n / 10);
        let s = nat_digits(n / 10);
        assert(nat_digits(n).drop_last() =~= s);
        assert(nat_digits(n).last() == (n % 10) as u8);
        assert forall|i: int| 0 <= i < nat_digits(n).len() implies nat_digits(n)[i] < 10 by {
            if i < s.len() {
                assert(nat_digits(n)[i] == s[i]);
            }
        }
    }
}

/// The digits of an exponent: `0` itself renders as one digit.
pub open spec fn exp_digits(e: int) -> Seq<u8> {
    if e <= 0 {
        seq![0u8]
    } else {
        nat_digits(e)
    }
}

/// Lower-case scientific notation: one leading digit, the remaining
/// significant digits after a point, and a non-negative power of ten equal to
/// the digit count less one. Zero renders as `0e0`.
pub open spec fn spec_encode_int(m: IntModel) -> Seq<char> {
    if all_zero(m.digits) {
        seq!['0', 'e', '0']
    } else {
        let core = strip_trailing_zeros(m.digits);
        (if m.neg {
            seq!['-']
        } else {
            Seq::<char>::empty()
        }) + seq![char_of_digit(core[0])] + (if core.len() > 1 {
            seq!['.'] + digit_chars(core.skip(1))
        } else {
            Seq::<char>::empty()
        }) + seq!['e'] + digit_chars(exp_digits(m.digits.len() - 1))
    }
}

proof fn lemma_strip_trailing_take(s: Seq<u8>, e: int)
    requires
        1 <= e <= s.len(),
        s[e - 1] != 0,
        forall|j: int| e <= j < s.len() ==> s[j] == 0,
    ensures
        strip_trailing_zeros(s) == s.take(e),
    decreases s.len(),
{
    if e == s.len() {
        if s.len() <= 1 {
            assert(s.take(e) =~= s);
        } else {
            assert(s.last() == s[e - 1]);
            assert(s.take(e) =~= s);
        }
    } else {
        assert(s.last() == 0);
        assert(s.len() > 1);
        let d = s.drop_last();
        assert forall|j: int| e <= j < d.len() implies d[j] == 0 by {
            assert(d[j] == s[j]);
        }
        assert(d[e - 1] == s[e - 1]);
        lemma_strip_trailing_take(d, e);
        assert(d.take(e) =~= s.take(e));
    }
}

/// Append the decimal rendering of a non-negative number (nothing for zero).
fn push_nat_digits(out: &mut String, n: usize)
    ensures
        final(out)@ == old(out)@ + digit_chars(nat_digits(n as int)),
    decreases n,
{
    if n > 0 {
        push_nat_digits(out, n / 10);
        let d = (n % 10) as u8;
        out.append(digit_str(d));
        proof {
            assert(out@ =~= old(out)@ + digit_chars(nat_digits(n as int)));
        }
    } else {
        proof {
            assert(old(out)@ + digit_chars(nat_digits(0)) =~= old(out)@);
        }
    }
}

/// Append the decimal rendering of an exponent (`0` renders as `0`).
pub(crate) fn push_exp_digits(out: &mut String, e: usize)
    ensures
        final(out)@ == old(out)@ + digit_chars(exp_digits(e as int)),
{
    if e == 0 {
        out.append(digit_str(0));
        proof {
            assert(out@ =~= old(out)@ + digit_chars(exp_digits(0)));
        }
    } else {
        push_nat_digits(out, e);
    }
}

impl CustomBigInt {
    /// Integers never arrive as raw wire literals: they are built from
    /// mantissa/exponent pairs before they reach the library. Decoding one is
    /// a caller contract violation and fails explicitly rather than silently
    /// returning a default.
    pub fn parse(_value: &str) -> (r: Result<CustomBigInt, ApiError>)
        ensures
            r == Err::<CustomBigInt, ApiError>(ApiError::UnsupportedOperation),
    {
        Err(ApiError::UnsupportedOperation)
    }

    /// A structural copy.
    pub fn duplicate(&self) -> (r: CustomBigInt)
        ensures
            r@ == self@,
    {
        let r = CustomBigInt { neg: self.neg, digits: clone_digits(&self.digits) };
        proof {
            assert(r@ =~= self@);
        }
        r
    }

    /// Encode to lower-case scientific notation, e.g. `5.972e24`.
    pub fn to_value(&self) -> (r: String)
        requires
            int_wf(self@),
        ensures
            r@ == spec_encode_int(self@),
    {
        if all_zero_exec(&self.digits) {
            let z = String::from_str("0e0");
            proof {
                reveal_strlit("0e0");
                assert(z@ =~= seq!['0', 'e', '0']);
            }
            return z;
        }
        // index one past the last significant digit
        let mut end: usize = self.digits.len();
        while end > 0 && self.digits[end - 1] == 0
            invariant
                0 <= end <= self.digits@.len(),
                forall|j: int| end <= j < self.digits@.len() ==> self.digits@[j] == 0,
            decreases end,
        {
            end -= 1;
        }
        proof {
            if end == 0 {
                assert(all_zero(self.digits@));
            }
            lemma_strip_trailing_take(self.digits@, end as int);
        }
        let ghost core = strip_trailing_zeros(self.digits@);
        let mut out = String::new();
        if self.neg {
            out.append("-");
        }
        proof {
            reveal_strlit("-");
        }
        let d0 = self.digits[0];
        out.append(digit_str(d0));
        if end > 1 {
            out.append(".");
            proof {
                reveal_strlit(".");
            }
            let ghost mid = out@;
            let mut i: usize = 1;
            while i < end
                invariant
                    1 <= i <= end,
                    end <= self.digits@.len(),
                    seq_digits(self.digits@),
                    core == strip_trailing_zeros(self.digits@),
                    core == self.digits@.take(end as int),
                    out@ == mid + digit_chars(core.skip(1).take(i - 1)),
                decreases end - i,
            {
                let d = self.digits[i];
                out.append(digit_str(d));
                proof {
                    assert(core.skip(1)[i - 1] == self.digits@[i as int]);
                    assert(digit_chars(core.skip(1).take(i as int)) =~= digit_chars(
                        core.skip(1).take(i - 1),
                    ).push(char_of_digit(self.digits@[i as int])));
                    assert(out@ =~= mid + digit_chars(core.skip(1).take(i as int)));
                }
                i += 1;
            }
            proof {
                assert(core.skip(1).take(end - 1) =~= core.skip(1));
            }
        }
        out.append("e");
        proof {
            reveal_strlit("e");
        }
        let exp = self.digits.len() - 1;
        push_exp_digits(&mut out, exp);
        proof {
            assert(out@ =~= spec_encode_int(self@));
        }
        out
    }
}

// ---------------------------------------------------------------------------
// Mass construction
// ---------------------------------------------------------------------------

pub open spec fn zero_digits(n: int) -> Seq<u8> {
    Seq::<u8>::new(n as nat, |i: int| 0u8)
}

/// The digits of `mantissa * 10^e`, before normalization: the point moves `e`
/// places to the right; fractional digits past the shift are truncated.
pub open spec fn shifted_digits(m: DecModel, e: int) -> Seq<u8> {
    if e >= m.frac_digits.len() {
        m.int_digits + m.frac_digits + zero_digits(e - m.frac_digits.len())
    } else {
        m.int_digits + m.frac_digits.take(e)
    }
}

/// The integer `mantissa * 10^e` materializes as.
pub open spec fn spec_mass(m: DecModel, e: int) -> IntModel {
    let ds = strip_zeros(shifted_digits(m, e));
    IntModel { neg: m.neg && !all_zero(ds), digits: ds }
}

pub open spec fn pow10(n: nat) -> int
    decreases n,
{
    if n == 0 {
        1
    } else {
        10 * pow10((n - 1) as nat)
    }
}

/// The number an integer denotes.
pub open spec fn int_value(m: IntModel) -> int {
    if m.neg {
        -digits_val(m.digits)
    } else {
        digits_val(m.digits)
    }
}

/// The number a decimal denotes, scaled up by ten to the power of its
/// fractional length.
pub open spec fn dec_unscaled(m: DecModel) -> int {
    if m.neg {
        -digits_val(m.int_digits + m.frac_digits)
    } else {
        digits_val(m.int_digits + m.frac_digits)
    }
}

proof fn lemma_pow10_pos(n: nat)
    ensures
        pow10(n) >= 1,
    decreases n,
{
    if n > 0 {
        lemma_pow10_pos((n - 1) as nat);
    }
}

proof fn lemma_digits_val_zero(s: Seq<u8>)
    requires
        all_zero(s),
    ensures
        digits_val(s) == 0,
    decreases s.len(),
{
    if s.len() > 0 {
        assert forall|i: int| 0 <= i < s.drop_last().len() implies s.drop_last()[i] == 0 by {
            assert(s.drop_last()[i] == s[i]);
        }
        lemma_digits_val_zero(s.drop_last());
    }
}

proof fn lemma_digits_val_append_zeros(s: Seq<u8>, k: nat)
    ensures
        digits_val(s + zero_digits(k as int)) == digits_val(s) * pow10(k),
    decreases k,
{
    if k == 0 {
        assert(s + zero_digits(0) =~= s);
    } else {
        let t = s + zero_digits(k as int);
        assert(t.len() == s.len() + k);
        assert(t.drop_last() =~= s + zero_digits(k - 1));
        assert(t.last() == 0);
        lemma_digits_val_append_zeros(s, (k - 1) as nat);
        assert(digits_val(t) == digits_val(s) * pow10((k - 1) as nat) * 10);
        assert(digits_val(s) * pow10((k - 1) as nat) * 10 == digits_val(s) * (10 * pow10(
            (k - 1) as nat,
        ))) by (nonlinear_arith);
    }
}

proof fn lemma_digits_val_cons_zero(s: Seq<u8>)
    requires
        s.len() >= 1,
        s[0] == 0,
    ensures
        digits_val(s) == digits_val(s.skip(1)),
    decreases s.len(),
{
    if s.len() == 1 {
        assert(s.skip(1) =~= Seq::<u8>::empty());
        assert(s.drop_last() =~= Seq::<u8>::empty());
    } else {
        let d = s.drop_last();
        assert(d[0] == s[0]);
        lemma_digits_val_cons_zero(d);
        assert(s.skip(1).drop_last() =~= d.skip(1));
        assert(s.skip(1).last() == s.last());
    }
}

proof fn lemma_digits_val_strip(s: Seq<u8>)
    ensures
        digits_val(strip_zeros(s)) == digits_val(s),
    decreases s.len(),
{
    if s.len() <= 1 {
    } else if s[0] == 0 {
        lemma_digits_val_cons_zero(s);
        lemma_digits_val_strip(s.skip(1));
    }
}

/// Materialize a client-supplied mass as `mantissa * 10^exponent`, an
/// arbitrary-precision integer, so precision is not lost for astronomically
/// large values. When the exponent covers the fractional digits the result
/// is that product exactly; fractional digits beyond the exponent truncate.
pub fn mass_from_parts(mantissa: &CustomBigDecimal, exponent: u8) -> (r: CustomBigInt)
    requires
        dec_wf(mantissa@),
    ensures
        r@ == spec_mass(mantissa@, exponent as int),
        int_wf(r@),
        exponent as int >= mantissa@.frac_digits.len() ==> int_value(r@) == dec_unscaled(mantissa@)
            * pow10((exponent - mantissa@.frac_digits.len()) as nat),
{
    let e = exponent as usize;
    let flen = mantissa.frac_digits.len();
    let mut raw: Vec<u8> = Vec::new();
    let mut i: usize = 0;
    while i < mantissa.int_digits.len()
        invariant
            0 <= i <= mantissa.int_digits@.len(),
            raw@ == mantissa.int_digits@.take(i as int),
        decreases mantissa.int_digits@.len() - i,
    {
        let d = mantissa.int_digits[i];
        raw.push(d);
        proof {
            assert(raw@ =~= mantissa.int_digits@.take(i + 1));
        }
        i += 1;
    }
    proof {
        assert(raw@ =~= mantissa.int_digits@);
    }
    let fcount = if e < flen {
        e
    } else {
        flen
    };
    let mut j: usize = 0;
    while j < fcount
        invariant
            0 <= j <= fcount,
            fcount <= mantissa.frac_digits@.len(),
            raw@ == mantissa.int_digits@ + mantissa.frac_digits@.take(j as int),
        decreases fcount - j,
    {
        let d = mantissa.frac_digits[j];
        raw.push(d);
        proof {
            assert(raw@ =~= mantissa.int_digits@ + mantissa.frac_digits@.take(j + 1));
        }
        j += 1;
    }
    if e >= flen {
        proof {
            assert(mantissa.frac_digits@.take(flen as int) =~= mantissa.frac_digits@);
        }
        let zcount = e - flen;
        let mut z: usize = 0;
        while z < zcount
            invariant
                0 <= z <= zcount,
                raw@ == mantissa.int_digits@ + mantissa.frac_digits@ + zero_digits(z as int),
            decreases zcount - z,
        {
            raw.push(0);
            proof {
                assert(raw@ =~= mantissa.int_digits@ + mantissa.frac_digits@ + zero_digits(
                    z + 1,
                ));
            }
            z += 1;
        }
    }
    proof {
        assert(raw@ =~= shifted_digits(mantissa@, exponent as int));
        lemma_strip_zeros_wf(raw@);
    }
    let ds = strip_zeros_exec(&raw);
    let zero = all_zero_exec(&ds);
    let r = CustomBigInt { neg: mantissa.neg && !zero, digits: ds };
    proof {
        assert(r@ =~= spec_mass(mantissa@, exponent as int));
        let m = mantissa@;
        if exponent as int >= m.frac_digits.len() {
            let k = (exponent - m.frac_digits.len()) as nat;
            let base = m.int_digits + m.frac_digits;
            let shifted = shifted_digits(m, exponent as int);
            assert(shifted =~= base + zero_digits(k as int));
            lemma_digits_val_append_zeros(base, k);
            lemma_digits_val_strip(shifted);
            assert(digits_val(r@.digits) == digits_val(base) * pow10(k));
            lemma_pow10_pos(k);
            if m.neg {
                if zero {
                    lemma_digits_val_zero(r@.digits);
                    assert(digits_val(base) * pow10(k) == 0);
                    assert(digits_val(base) == 0) by (nonlinear_arith)
                        requires
                            digits_val(base) * pow10(k) == 0,
                            pow10(k) >= 1,
                    ;
                } else {
                    assert(-(digits_val(base) * pow10(k)) == (-digits_val(base)) * pow10(
                        k,
                    )) by (nonlinear_arith);
                }
            }
        }
    }
    r
}

} // verus!
