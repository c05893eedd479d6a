//! The message grammar.  One line of chat text is scanned left to right and
//! turned into an ordered list of karma changes; the scan never fails, it
//! skips one character wherever no alternative matches.  At every position
//! the alternatives are tried in priority order: a `[term]` notice change, a
//! `(term)` silent change, an implicit word change, and finally the one-char
//! skip.  A change only counts when its `++` or `--` modifier is followed by
//! a word boundary, checked by lookahead.

use vstd::prelude::*;

use crate::karma::{KarmaAmount, KarmaChange, KarmaChangeView, KarmaStyle};
use crate::text::{chars_of, push_char, string_of_range};

verus! {

broadcast use vstd::string::group_string_axioms;

/// What `char::is_alphanumeric` returns: a fact of the character alone.
pub uninterp spec fn spec_alphanumeric(c: char) -> bool;

/// What `char::is_whitespace` returns: a fact of the character alone.
pub uninterp spec fn spec_whitespace(c: char) -> bool;

/// Relies on `char::is_alphanumeric`: whether the character is Unicode
/// alphanumeric; the result depends on the character alone.
#[verifier::external_body]
fn char_is_alphanumeric(c: char) -> (r: bool)
    ensures
        r == spec_alphanumeric(c),
{
    c.is_alphanumeric()
}

/// Relies on `char::is_whitespace`: whether the character is Unicode
/// whitespace; the result depends on the character alone.
#[verifier::external_body]
fn char_is_whitespace(c: char) -> (r: bool)
    ensures
        r == spec_whitespace(c),
{
    c.is_whitespace()
}

pub open spec fn spec_is_implicit_char(c: char) -> bool {
    spec_alphanumeric(c) || c == '_'
}

/// A character that may make up an implicit term: alphanumeric or `_`.
pub fn is_implicit_char(c: char) -> (r: bool)
    ensures
        r == spec_is_implicit_char(c),
{
    char_is_alphanumeric(c) || c == '_'
}

pub open spec fn spec_is_notice_char(c: char) -> bool {
    c == '[' || c == ']'
}

/// A bracket character, which ends the term of a notice change.
pub fn is_notice_char(c: char) -> (r: bool)
    ensures
        r == spec_is_notice_char(c),
{
    c == '[' || c == ']'
}

pub open spec fn spec_is_silent_char(c: char) -> bool {
    c == '(' || c == ')'
}

/// A parenthesis character, which ends the term of a silent change.
pub fn is_silent_char(c: char) -> (r: bool)
    ensures
        r == spec_is_silent_char(c),
{
    c == '(' || c == ')'
}

pub open spec fn spec_is_boundary_char(c: char) -> bool {
    spec_whitespace(c) || c == ',' || c == '.' || c == ';' || c == ':' || c == ')'
}

/// A word boundary at position `j`: end of input, whitespace, or closing
/// punctuation.  Checked by lookahead only; nothing is consumed.
pub open spec fn spec_word_boundary(s: Seq<char>, j: int) -> bool {
    j >= s.len() || spec_is_boundary_char(s[j])
}

fn word_boundary(v: &Vec<char>, j: usize) -> (r: bool)
    ensures
        r == spec_word_boundary(v@, j as int),
{
    if j >= v.len() {
        true
    } else {
        let c = v[j];
        char_is_whitespace(c) || c == ',' || c == '.' || c == ';' || c == ':' || c == ')'
    }
}

/// The modifier at position `i`: `++` is one vote up, `--` one vote down,
/// either only when followed by a word boundary.  Two characters long.
pub open spec fn spec_modifier(s: Seq<char>, i: int) -> Option<KarmaAmount> {
    if i + 2 <= s.len() && s[i] == '+' && s[i + 1] == '+' && spec_word_boundary(s, i + 2) {
        Some(KarmaAmount { up: 1, down: 0 })
    } else if i + 2 <= s.len() && s[i] == '-' && s[i + 1] == '-' && spec_word_boundary(s, i + 2) {
        Some(KarmaAmount { up: 0, down: 1 })
    } else {
        None
    }
}

fn modifier(v: &Vec<char>, i: usize) -> (r: Option<KarmaAmount>)
    requires
        i <= v@.len(),
    ensures
        r == spec_modifier(v@, i as int),
{
    if i < v.len() && i + 1 < v.len() && v[i] == '+' && v[i + 1] == '+' && word_boundary(
        v,
        i + 2,
    ) {
        Some(KarmaAmount { up: 1, down: 0 })
    } else if i < v.len() && i + 1 < v.len() && v[i] == '-' && v[i + 1] == '-' && word_boundary(
        v,
        i + 2,
    ) {
        Some(KarmaAmount { up: 0, down: 1 })
    } else {
        None
    }
}

/// How many characters from `i` on are neither `open` nor `close`.
pub open spec fn spec_till_bracket(s: Seq<char>, i: int, open: char, close: char) -> nat
    decreases s.len() - i, when 0 <= i <= s.len()
{
    if i < s.len() && s[i] != open && s[i] != close {
        (1 + spec_till_bracket(s, i + 1, open, close)) as nat
    } else {
        0
    }
}

fn till_bracket(v: &Vec<char>, i: usize, open: char, close: char) -> (r: usize)
    requires
        i <= v@.len(),
    ensures
        r == i + spec_till_bracket(v@, i as int, open, close),
        i <= r <= v@.len(),
{
    let mut j: usize = i;
    while j < v.len() && v[j] != open && v[j] != close
        invariant
            i <= j <= v@.len(),
            spec_till_bracket(v@, i as int, open, close) == j - i + spec_till_bracket(
                v@,
                j as int,
                open,
                close,
            ),
        decreases v@.len() - j,
    {
        j = j + 1;
    }
    j
}

/// An explicit change at `i`: `open`, a term of characters that are neither
/// bracket, `close`, and a modifier.  On success: the term (verbatim), the
/// votes, and the number of characters consumed.
pub open spec fn spec_bracket_change(s: Seq<char>, i: int, open: char, close: char) -> Option<
    (Seq<char>, KarmaAmount, nat),
> {
    if i < s.len() && s[i] == open {
        let t = spec_till_bracket(s, i + 1, open, close);
        let j = i + 1 + t;
        if j < s.len() && s[j] == close {
            match spec_modifier(s, j + 1) {
                Some(votes) => Some((s.subrange(i + 1, j), votes, (t + 4) as nat)),
                None => None,
            }
        } else {
            None
        }
    } else {
        None
    }
}

fn bracket_change(v: &Vec<char>, i: usize, open: char, close: char) -> (r: Option<
    (String, KarmaAmount, usize),
>)
    requires
        i <= v@.len(),
    ensures
        match r {
            Some(p) => {
                &&& spec_bracket_change(v@, i as int, open, close) == Some(
                    (p.0@, p.1, p.2 as nat),
                )
                &&& 1 <= p.2
                &&& i + p.2 <= v@.len()
            },
            None => spec_bracket_change(v@, i as int, open, close) is None,
        },
{
    if i < v.len() && v[i] == open {
        let j = till_bracket(v, i + 1, open, close);
        if j < v.len() && v[j] == close {
            match modifier(v, j + 1) {
                Some(votes) => {
                    let term = string_of_range(v, i + 1, j);
                    Some((term, votes, j + 3 - i))
                },
                None => None,
            }
        } else {
            None
        }
    } else {
        None
    }
}

/// The longest implicit run at `i`: implicit characters, each optionally
/// preceded by a `-` that is kept in the term.  Returns the term and the
/// number of characters consumed.
pub open spec fn spec_implicit_chars(s: Seq<char>, i: int) -> (Seq<char>, nat)
    decreases s.len() - i, when 0 <= i <= s.len()
{
    if i < s.len() && s[i] == '-' {
        if i + 1 < s.len() && spec_is_implicit_char(s[i + 1]) {
            let (t, n) = spec_implicit_chars(s, i + 2);
            (seq!['-', s[i + 1]] + t, (2 + n) as nat)
        } else {
            (Seq::empty(), 0)
        }
    } else if i < s.len() && spec_is_implicit_char(s[i]) {
        let (t, n) = spec_implicit_chars(s, i + 1);
        (seq![s[i]] + t, (1 + n) as nat)
    } else {
        (Seq::empty(), 0)
    }
}

proof fn lemma_implicit_chars_bounds(s: Seq<char>, i: int)
    requires
        0 <= i <= s.len(),
    ensures
        i + spec_implicit_chars(s, i).1 <= s.len(),
    decreases s.len() - i,
{
    if i < s.len() && s[i] == '-' {
        if i + 1 < s.len() && spec_is_implicit_char(s[i + 1]) {
            lemma_implicit_chars_bounds(s, i + 2);
        }
    } else if i < s.len() && spec_is_implicit_char(s[i]) {
        lemma_implicit_chars_bounds(s, i + 1);
    }
}

fn implicit_chars(v: &Vec<char>, i: usize) -> (r: (String, usize))
    requires
        i <= v@.len(),
    ensures
        r.0@ == spec_implicit_chars(v@, i as int).0,
        r.1 == spec_implicit_chars(v@, i as int).1,
        i + r.1 <= v@.len(),
{
    let mut out = String::new();
    let mut cur: usize = i;
    loop
        invariant
            i <= cur <= v@.len(),
            spec_implicit_chars(v@, i as int).0 == out@ + spec_implicit_chars(v@, cur as int).0,
            spec_implicit_chars(v@, i as int).1 == cur - i + spec_implicit_chars(
                v@,
                cur as int,
            ).1,
        ensures
            spec_implicit_chars(v@, cur as int).0 == Seq::<char>::empty(),
            spec_implicit_chars(v@, cur as int).1 == 0,
        decreases v@.len() - cur,
    {
        if cur < v.len() && v[cur] == '-' {
            if cur + 1 < v.len() && is_implicit_char(v[cur + 1]) {
                push_char(&mut out, '-');
                push_char(&mut out, v[cur + 1]);
                proof {
                    let tail = spec_implicit_chars(v@, cur + 2).0;
                    assert(out@ + (seq!['-', v@[cur + 1]] + tail) =~= (out@ + seq![
                        '-',
                        v@[cur + 1],
                    ]) + tail);
                }
                cur = cur + 2;
            } else {
                break;
            }
        } else if cur < v.len() && is_implicit_char(v[cur]) {
            push_char(&mut out, v[cur]);
            proof {
                let tail = spec_implicit_chars(v@, cur + 1).0;
                assert(out@ + (seq![v@[cur as int]] + tail) =~= (out@ + seq![
                    v@[cur as int],
                ]) + tail);
            }
            cur = cur + 1;
        } else {
            break;
        }
    }
    assert(spec_implicit_chars(v@, cur as int).0 =~= Seq::<char>::empty());
    assert(out@ + Seq::<char>::empty() =~= out@);
    (out, cur - i)
}

/// An implicit change at `i`: a non-empty implicit run, then a modifier.
pub open spec fn spec_implicit_change(s: Seq<char>, i: int) -> Option<
    (Seq<char>, KarmaAmount, nat),
> {
    let (term, n) = spec_implicit_chars(s, i);
    if term.len() > 0 {
        match spec_modifier(s, i + n) {
            Some(votes) => Some((term, votes, (n + 2) as nat)),
            None => None,
        }
    } else {
        None
    }
}

fn implicit_karma_change(v: &Vec<char>, i: usize) -> (r: Option<(String, KarmaAmount, usize)>)
    requires
        i <= v@.len(),
    ensures
        match r {
            Some(p) => {
                &&& spec_implicit_change(v@, i as int) == Some((p.0@, p.1, p.2 as nat))
                &&& 1 <= p.2
                &&& i + p.2 <= v@.len()
            },
            None => spec_implicit_change(v@, i as int) is None,
        },
{
    let (term, n) = implicit_chars(v, i);
    if term.as_str().is_empty() {
        return None;
    }
    let limit = v.len();
    assert(i + n <= limit);
    match modifier(v, i + n) {
        Some(votes) => Some((term, votes, n + 2)),
        None => None,
    }
}

/// One step of the scan at position `i`: the matched change, if any, and how
/// many characters the step consumed (at least one).
pub open spec fn spec_element(s: Seq<char>, i: int) -> (Option<KarmaChangeView>, nat) {
    match spec_bracket_change(s, i, '[', ']') {
        Some((term, votes, n)) => (
            Some(KarmaChangeView { term, votes, style: KarmaStyle::Notify }),
            n,
        ),
        None => match spec_bracket_change(s, i, '(', ')') {
            Some((term, votes, n)) => (
                Some(KarmaChangeView { term, votes, style: KarmaStyle::Silent }),
                n,
            ),
            None => match spec_implicit_change(s, i) {
                Some((term, votes, n)) => (
                    Some(KarmaChangeView { term, votes, style: KarmaStyle::Implicit }),
                    n,
                ),
                None => (None, 1),
            },
        },
    }
}

fn element(v: &Vec<char>, i: usize) -> (r: (Option<KarmaChange>, usize))
    requires
        i < v@.len(),
    ensures
        spec_element(v@, i as int) == (
            match r.0 {
                Some(ref c) => Some(c@),
                None => None::<KarmaChangeView>,
            },
            r.1 as nat,
        ),
        1 <= r.1,
        i + r.1 <= v@.len(),
{
    match bracket_change(v, i, '[', ']') {
        Some((term, votes, n)) => (
            Some(KarmaChange { term, votes, style: KarmaStyle::Notify }),
            n,
        ),
        None => match bracket_change(v, i, '(', ')') {
            Some((term, votes, n)) => (
                Some(KarmaChange { term, votes, style: KarmaStyle::Silent }),
                n,
            ),
            None => match implicit_karma_change(v, i) {
                Some((term, votes, n)) => (
                    Some(KarmaChange { term, votes, style: KarmaStyle::Implicit }),
                    n,
                ),
                None => (None, 1),
            },
        },
    }
}

/// The changes extracted from the whole line, scanning from position `i`.
pub open spec fn spec_parse_line(s: Seq<char>, i: int) -> Seq<KarmaChangeView>
    decreases s.len() - i, when 0 <= i
{
    if i >= s.len() {
        Seq::empty()
    } else {
        let (o, n) = spec_element(s, i);
        let rest = spec_parse_line(s, i + n);
        match o {
            Some(c) => seq![c] + rest,
            None => rest,
        }
    }
}

/// Scans one line of text and returns every karma change in it, in order.
/// Never fails: unrecognized characters are skipped one at a time.
pub fn line(input: &str) -> (r: Vec<KarmaChange>)
    ensures
        r@.map_values(|c: KarmaChange| c@) == spec_parse_line(input@, 0),
{
    let v = chars_of(input);
    let mut out: Vec<KarmaChange> = Vec::new();
    let mut i: usize = 0;
    while i < v.len()
        invariant
            i <= v@.len(),
            v@ == input@,
            spec_parse_line(input@, 0) == out@.map_values(|c: KarmaChange| c@) + spec_parse_line(
                input@,
                i as int,
            ),
        decreases v@.len() - i,
    {
        let ghost prev = out@.map_values(|c: KarmaChange| c@);
        let (o, n) = element(&v, i);
        match o {
            Some(c) => {
                out.push(c);
                proof {
                    let rest = spec_parse_line(input@, i + n);
                    assert(out@.map_values(|c: KarmaChange| c@) =~= prev.push(out@.last()@));
                    assert(prev + (seq![out@.last()@] + rest) =~= (prev.push(out@.last()@))
                        + rest);
                }
            },
            None => {},
        }
        i = i + n;
    }
    assert(spec_parse_line(input@, v@.len() as int) =~= Seq::<KarmaChangeView>::empty());
    assert(out@.map_values(|c: KarmaChange| c@) + Seq::<KarmaChangeView>::empty()
        =~= out@.map_values(|c: KarmaChange| c@));
    out
}

} // verus!
