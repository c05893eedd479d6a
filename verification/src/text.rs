//! Character and string helpers shared by the parser, the codec and the
//! report builders: ASCII lowercasing, conversion between `&str` and
//! `Vec<char>`, and decimal rendering of vote counts.

use vstd::prelude::*;
use vstd::std_specs::iter::IteratorSpec;

verus! {

broadcast use vstd::string::group_string_axioms;

/// ASCII lowercasing of one character: `'A'..='Z'` map to `'a'..='z'`,
/// everything else is unchanged.
pub open spec fn spec_lower_char(c: char) -> char {
    if 65 <= c as u32 && c as u32 <= 90 {
        ((c as u32 + 32) as u8) as char
    } else {
        c
    }
}

/// ASCII lowercasing of a character sequence.
pub open spec fn spec_lower(s: Seq<char>) -> Seq<char> {
    s.map_values(|c: char| spec_lower_char(c))
}

/// Lowercasing a character twice is the same as lowercasing it once.
pub proof fn lemma_lower_char_idempotent(c: char)
    ensures
        spec_lower_char(spec_lower_char(c)) == spec_lower_char(c),
{
}

pub fn lower_char(c: char) -> (r: char)
    ensures
        r == spec_lower_char(c),
{
    let u = c as u32;
    if 65 <= u && u <= 90 {
        ((u + 32) as u8) as char
    } else {
        c
    }
}

/// Lowercasing a sequence twice is the same as lowercasing it once.
pub proof fn lemma_lower_idempotent(s: Seq<char>)
    ensures
        spec_lower(spec_lower(s)) == spec_lower(s),
{
    assert(spec_lower(spec_lower(s)) =~= spec_lower(s));
}

/// The canonical forms of a list of terms.
pub open spec fn spec_lower_all(ts: Seq<Seq<char>>) -> Seq<Seq<char>> {
    ts.map_values(|t: Seq<char>| spec_lower(t))
}

/// Two sequences that agree up to ASCII case.
pub open spec fn same_modulo_case(a: Seq<char>, b: Seq<char>) -> bool {
    a.len() == b.len() && forall|i: int|
        0 <= i < a.len() ==> spec_lower_char(a[i]) == spec_lower_char(b[i])
}

/// Lowercasing does not distinguish sequences that differ only in ASCII case.
pub proof fn lemma_lower_case_insensitive(a: Seq<char>, b: Seq<char>)
    requires
        same_modulo_case(a, b),
    ensures
        spec_lower(a) == spec_lower(b),
{
    assert(spec_lower(a) =~= spec_lower(b));
}

/// Relies on `String::push`: appends one character to the string.
#[verifier::external_body]
pub fn push_char(s: &mut String, c: char) -> (r: ())
    ensures
        final(s)@ == old(s)@.push(c),
{
    s.push(c)
}

/// The characters of a string slice, as a vector.
pub fn chars_of(s: &str) -> (r: Vec<char>)
    ensures
        r@ == s@,
{
    let mut out: Vec<char> = Vec::new();
    let mut it = s.chars();
    loop
        invariant
            it.obeys_prophetic_iter_laws(),
            it.decrease() is Some,
            out@ + it.remaining() == s@,
        ensures
            out@ == s@,
        decreases it.decrease()->0,
    {
        match it.next() {
            Some(c) => {
                out.push(c);
            },
            None => {
                assert(it.remaining().len() == 0);
                assert(out@ =~= s@);
                break;
            },
        }
    }
    out
}

/// The characters of `v` between `from` and `to`, as a `String`.
pub fn string_of_range(v: &Vec<char>, from: usize, to: usize) -> (r: String)
    requires
        from <= to <= v@.len(),
    ensures
        r@ == v@.subrange(from as int, to as int),
{
    let mut out = String::new();
    let mut i: usize = from;
    while i < to
        invariant
            from <= i <= to <= v@.len(),
            out@ == v@.subrange(from as int, i as int),
        decreases to - i,
    {
        push_char(&mut out, v[i]);
        assert(v@.subrange(from as int, i + 1) =~= v@.subrange(from as int, i as int).push(
            v@[i as int],
        ));
        i = i + 1;
    }
    out
}

/// Addition on `i64`, clamped at the ends of the range.
pub open spec fn spec_sat_add(a: int, b: int) -> int {
    if a + b > i64::MAX {
        i64::MAX as int
    } else if a + b < i64::MIN {
        i64::MIN as int
    } else {
        a + b
    }
}

pub fn sat_add(a: i64, b: i64) -> (r: i64)
    ensures
        r as int == spec_sat_add(a as int, b as int),
{
    if b >= 0 {
        if a > i64::MAX - b {
            i64::MAX
        } else {
            a + b
        }
    } else {
        if a < i64::MIN - b {
            i64::MIN
        } else {
            a + b
        }
    }
}

pub open spec fn spec_is_digit(c: char) -> bool {
    48 <= c as u32 <= 57
}

pub open spec fn spec_digit_char(d: nat) -> char
    recommends
        d < 10,
{
    ((48 + d) as u8) as char
}

pub open spec fn spec_digit_val(c: char) -> nat
    recommends
        spec_is_digit(c),
{
    (c as u32 - 48) as nat
}

/// The decimal rendering of a natural number, most significant digit first,
/// with no leading zeros (`0` is rendered as `"0"`).
pub open spec fn spec_nat_digits(n: nat) -> Seq<char>
    decreases n,
{
    if n < 10 {
        seq![spec_digit_char(n)]
    } else {
        spec_nat_digits(n / 10).push(spec_digit_char(n % 10))
    }
}

/// The decimal rendering of an integer: a `-` sign, then the magnitude.
pub open spec fn spec_int_digits(v: int) -> Seq<char> {
    if v < 0 {
        seq!['-'] + spec_nat_digits((-v) as nat)
    } else {
        spec_nat_digits(v as nat)
    }
}

/// Every character of a decimal rendering is a digit, and the rendering of a
/// positive number does not start with `'0'`.
pub proof fn lemma_nat_digits_shape(n: nat)
    ensures
        spec_nat_digits(n).len() >= 1,
        forall|i: int|
            0 <= i < spec_nat_digits(n).len() ==> spec_is_digit(#[trigger] spec_nat_digits(n)[i]),
        n > 0 ==> spec_nat_digits(n)[0] != '0',
        spec_nat_digits(n)[0] == '0' ==> n == 0,
    decreases n,
{
    if n >= 10 {
        lemma_nat_digits_shape(n / 10);
    }
}

fn digit_char(d: u64) -> (r: char)
    requires
        d < 10,
    ensures
        r == spec_digit_char(d as nat),
{
    ((48 + d as u32) as u8) as char
}

/// The decimal rendering of a `u64`.
pub fn u64_to_string(n: u64) -> (r: String)
    ensures
        r@ == spec_nat_digits(n as nat),
    decreases n,
{
    if n < 10 {
        let mut s = String::new();
        push_char(&mut s, digit_char(n));
        assert(s@ =~= spec_nat_digits(n as nat));
        s
    } else {
        let mut s = u64_to_string(n / 10);
        push_char(&mut s, digit_char(n % 10));
        s
    }
}

/// The decimal rendering of an `i64`, with a `-` sign for negative values.
pub fn i64_to_string(v: i64) -> (r: String)
    ensures
        r@ == spec_int_digits(v as int),
{
    if v < 0 {
        let magnitude: u64 = ((-(v + 1)) as u64) + 1;
        let mut s = String::new();
        push_char(&mut s, '-');
        let digits = u64_to_string(magnitude);
        s.append(digits.as_str());
        assert(s@ =~= spec_int_digits(v as int));
        s
    } else {
        u64_to_string(v as u64)
    }
}

/// The first position at or after `i` that does not hold a decimal digit.
pub open spec fn spec_digits_end(s: Seq<char>, i: int) -> int
    decreases s.len() - i, when 0 <= i <= s.len()
{
    if i < s.len() && spec_is_digit(s[i]) {
        spec_digits_end(s, i + 1)
    } else {
        i
    }
}

pub proof fn lemma_digits_end_bounds(s: Seq<char>, i: int)
    requires
        0 <= i <= s.len(),
    ensures
        i <= spec_digits_end(s, i) <= s.len(),
        forall|k: int| i <= k < spec_digits_end(s, i) ==> spec_is_digit(#[trigger] s[k]),
        spec_digits_end(s, i) == s.len() || !spec_is_digit(s[spec_digits_end(s, i)]),
    decreases s.len() - i,
{
    if i < s.len() && spec_is_digit(s[i]) {
        lemma_digits_end_bounds(s, i + 1);
    }
}

pub proof fn lemma_digits_end_of_run(s: Seq<char>, i: int, j: int)
    requires
        0 <= i <= j <= s.len(),
        forall|k: int| i <= k < j ==> spec_is_digit(#[trigger] s[k]),
        j == s.len() || !spec_is_digit(s[j]),
    ensures
        spec_digits_end(s, i) == j,
    decreases j - i,
{
    if i < j {
        lemma_digits_end_of_run(s, i + 1, j);
    }
}

/// The value of the digit run `s[i..j]`, read as a decimal number.
pub open spec fn spec_digits_val(s: Seq<char>, i: int, j: int) -> nat
    decreases j - i, when i <= j
{
    if i >= j {
        0
    } else {
        spec_digits_val(s, i, j - 1) * 10 + spec_digit_val(s[j - 1])
    }
}

/// Reading a decimal number at position `i`: the longest digit run, rejected
/// when it is empty, has a leading zero, or exceeds `u64::MAX`.  On success
/// the value and the position after the run.
pub open spec fn spec_parse_nat(s: Seq<char>, i: int) -> Option<(nat, int)>
    recommends
        0 <= i <= s.len(),
{
    let j = spec_digits_end(s, i);
    if j == i {
        None
    } else if s[i] == '0' && j > i + 1 {
        None
    } else if spec_digits_val(s, i, j) > u64::MAX {
        None
    } else {
        Some((spec_digits_val(s, i, j), j))
    }
}

fn char_digit_val(c: char) -> (r: u64)
    requires
        spec_is_digit(c),
    ensures
        r as nat == spec_digit_val(c),
        r < 10,
{
    (c as u32 - 48) as u64
}

fn is_digit(c: char) -> (r: bool)
    ensures
        r == spec_is_digit(c),
{
    let u = c as u32;
    48 <= u && u <= 57
}

/// Reads a decimal number at position `i` of `v`, as `spec_parse_nat` says.
pub fn parse_nat(v: &Vec<char>, i: usize) -> (r: Option<(u64, usize)>)
    requires
        i <= v@.len(),
    ensures
        match r {
            Some(p) => {
                &&& spec_parse_nat(v@, i as int) == Some((p.0 as nat, p.1 as int))
                &&& i < p.1 <= v@.len()
            },
            None => spec_parse_nat(v@, i as int) is None,
        },
{
    proof {
        lemma_digits_end_bounds(v@, i as int);
    }
    let ghost end = spec_digits_end(v@, i as int);
    let mut j: usize = i;
    while j < v.len() && is_digit(v[j])
        invariant
            i <= j <= v@.len(),
            spec_digits_end(v@, i as int) == end,
            i <= end <= v@.len(),
            j <= end,
            forall|k: int| i <= k < j ==> spec_is_digit(#[trigger] v@[k]),
        decreases v@.len() - j,
    {
        proof {
            lemma_digits_end_bounds(v@, i as int);
        }
        j = j + 1;
    }
    proof {
        lemma_digits_end_of_run(v@, i as int, j as int);
    }
    if j == i {
        return None;
    }
    if v[i] == '0' && j > i + 1 {
        return None;
    }
    let mut acc: u64 = 0;
    let mut overflow: bool = false;
    let mut k: usize = i;
    while k < j
        invariant
            i <= k <= j <= v@.len(),
            forall|t: int| i <= t < j ==> spec_is_digit(#[trigger] v@[t]),
            overflow == (spec_digits_val(v@, i as int, k as int) > u64::MAX),
            !overflow ==> acc as nat == spec_digits_val(v@, i as int, k as int),
        decreases j - k,
    {
        let d = char_digit_val(v[k]);
        if overflow {
            proof {
                let old_val = spec_digits_val(v@, i as int, k as int);
                assert(spec_digits_val(v@, i as int, k + 1) == old_val * 10 + spec_digit_val(
                    v@[k as int],
                ));
            }
        } else {
            match acc.checked_mul(10) {
                Some(m) => match m.checked_add(d) {
                    Some(n) => {
                        acc = n;
                    },
                    None => {
                        overflow = true;
                    },
                },
                None => {
                    overflow = true;
                },
            }
        }
        k = k + 1;
    }
    if overflow {
        None
    } else {
        Some((acc, j))
    }
}

/// Parsing the decimal rendering of `n` gives `n` back, whatever follows it,
/// as long as what follows does not begin with another digit.
pub proof fn lemma_digits_val_of_rendering(n: nat, s: Seq<char>, i: int)
    requires
        0 <= i,
        i + spec_nat_digits(n).len() <= s.len(),
        s.subrange(i, i + spec_nat_digits(n).len() as int) == spec_nat_digits(n),
    ensures
        spec_digits_val(s, i, i + spec_nat_digits(n).len() as int) == n,
    decreases n,
{
    let ds = spec_nat_digits(n);
    let l = ds.len() as int;
    if n < 10 {
        assert(s[i] == ds[0]);
        assert(spec_digits_val(s, i, i + 1) == spec_digits_val(s, i, i) * 10 + spec_digit_val(
            s[i],
        ));
        assert(spec_digit_val(spec_digit_char(n)) == n);
    } else {
        let ds0 = spec_nat_digits(n / 10);
        let l0 = ds0.len() as int;
        assert(s.subrange(i, i + l0) =~= ds0) by {
            assert(forall|t: int|
                0 <= t < l0 ==> s.subrange(i, i + l)[t] == ds[t] && ds[t] == ds0[t]);
        }
        lemma_digits_val_of_rendering(n / 10, s, i);
        assert(s[i + l - 1] == ds[l - 1]);
        assert(spec_digit_val(spec_digit_char(n % 10)) == n % 10);
        assert(spec_digits_val(s, i, i + l) == spec_digits_val(s, i, i + l - 1) * 10
            + spec_digit_val(s[i + l - 1]));
        assert(n / 10 * 10 + n % 10 == n) by {
            vstd::arithmetic::div_mod::lemma_fundamental_div_mod(n as int, 10);
        }
    }
}

pub proof fn lemma_parse_nat_of_rendering(n: nat, s: Seq<char>, i: int)
    requires
        0 <= i,
        n <= u64::MAX,
        i + spec_nat_digits(n).len() <= s.len(),
        s.subrange(i, i + spec_nat_digits(n).len() as int) == spec_nat_digits(n),
        i + spec_nat_digits(n).len() == s.len() || !spec_is_digit(
            s[i + spec_nat_digits(n).len()],
        ),
    ensures
        spec_parse_nat(s, i) == Some((n, i + spec_nat_digits(n).len() as int)),
{
    let ds = spec_nat_digits(n);
    let l = ds.len() as int;
    lemma_nat_digits_shape(n);
    assert(forall|k: int| i <= k < i + l ==> spec_is_digit(#[trigger] s[k])) by {
        assert(forall|k: int| i <= k < i + l ==> s[k] == ds[k - i]);
    }
    lemma_digits_end_of_run(s, i, i + l);
    lemma_digits_val_of_rendering(n, s, i);
    assert(s[i] == ds[0]);
    if n > 0 {
        assert(s[i] != '0');
    } else {
        assert(l == 1);
    }
}

} // verus!
