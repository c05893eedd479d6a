//! The stored form of a karma record, and its reader.  A record is rendered
//! as one line of text: every variable-length piece is length-prefixed, so
//! arbitrary terms and timestamps survive the trip; the reader accepts
//! exactly the renderings that the writer produces and rejects everything
//! else.  Decoding what was encoded gives the record back, field for field.
//! A stored value in any other shape reads as no record at all, which the
//! record model treats the same as a missing key.

use vstd::prelude::*;

use crate::karma::{canonicalize_term, Aliases, AliasesView, Karma, KarmaAmount, KarmaView};
use crate::text::{
    chars_of, push_char, spec_is_digit, spec_lower, spec_nat_digits, spec_parse_nat,
    string_of_range, u64_to_string, lemma_parse_nat_of_rendering, lemma_nat_digits_shape,
    parse_nat,
};

verus! {

broadcast use vstd::string::group_string_axioms;

/// A length-prefixed string: the character count, a colon, the characters.
pub open spec fn spec_enc_str(s: Seq<char>) -> Seq<char> {
    spec_nat_digits(s.len()) + seq![':'] + s
}

/// An optional string: `N`, or `S` followed by the string.
pub open spec fn spec_enc_opt_str(o: Option<Seq<char>>) -> Seq<char> {
    match o {
        None => seq!['N'],
        Some(s) => seq!['S'] + spec_enc_str(s),
    }
}

/// A vote counter: its decimal digits and a closing semicolon.
pub open spec fn spec_enc_count(n: nat) -> Seq<char> {
    spec_nat_digits(n) + seq![';']
}

/// A list of strings, one length-prefixed entry after the other.
pub open spec fn spec_enc_list(l: Seq<Seq<char>>) -> Seq<char>
    decreases l.len(),
{
    if l.len() == 0 {
        Seq::empty()
    } else {
        spec_enc_str(l[0]) + spec_enc_list(l.drop_first())
    }
}

/// Alias state: `N` for none, `T` and the main term for a satellite, `F`,
/// the satellite count and the satellites for a main record.
pub open spec fn spec_enc_aliases(a: Option<AliasesView>) -> Seq<char> {
    match a {
        None => seq!['N'],
        Some(AliasesView::To(t)) => seq!['T'] + spec_enc_str(t),
        Some(AliasesView::FromOther(l)) => seq!['F'] + spec_enc_count(l.len()) + spec_enc_list(l),
    }
}

/// The stored rendering of a whole record, field after field in a fixed
/// order.
pub open spec fn spec_encode_karma(k: KarmaView) -> Seq<char> {
    spec_enc_str(k.term) + spec_enc_str(k.original_term) + spec_enc_count(k.votes.up as nat)
        + spec_enc_count(k.votes.down as nat) + spec_enc_opt_str(k.first_vote)
        + spec_enc_opt_str(k.last_vote) + spec_enc_aliases(k.aliases)
}

fn enc_str_onto(out: &mut String, s: &String)
    ensures
        final(out)@ == old(out)@ + spec_enc_str(s@),
        s@.len() <= u64::MAX,
{
    let cs = chars_of(s.as_str());
    let len64: u64 = cs.len() as u64;
    let digits = u64_to_string(len64);
    out.append(digits.as_str());
    push_char(out, ':');
    out.append(s.as_str());
    assert(final(out)@ =~= old(out)@ + spec_enc_str(s@));
}

fn enc_opt_str_onto(out: &mut String, o: &Option<String>)
    ensures
        final(out)@ == old(out)@ + spec_enc_opt_str(
            match o {
                Some(s) => Some(s@),
                None => None,
            },
        ),
        match o {
            Some(s) => s@.len() <= u64::MAX,
            None => true,
        },
{
    match o {
        None => {
            push_char(out, 'N');
            assert(final(out)@ =~= old(out)@ + spec_enc_opt_str(None));
        },
        Some(s) => {
            push_char(out, 'S');
            enc_str_onto(out, s);
            assert(final(out)@ =~= old(out)@ + spec_enc_opt_str(Some(s@)));
        },
    }
}

fn enc_count_onto(out: &mut String, n: u64)
    ensures
        final(out)@ == old(out)@ + spec_enc_count(n as nat),
{
    let digits = u64_to_string(n);
    out.append(digits.as_str());
    push_char(out, ';');
    assert(final(out)@ =~= old(out)@ + spec_enc_count(n as nat));
}

proof fn lemma_enc_list_snoc(l: Seq<Seq<char>>, x: Seq<char>)
    ensures
        spec_enc_list(l.push(x)) == spec_enc_list(l) + spec_enc_str(x),
    decreases l.len(),
{
    if l.len() == 0 {
        assert(l.push(x).drop_first() =~= Seq::<Seq<char>>::empty());
        assert(spec_enc_list(Seq::<Seq<char>>::empty()) == Seq::<char>::empty());
        assert(l.push(x)[0] == x);
        assert(spec_enc_list(l.push(x)) == spec_enc_str(x) + Seq::<char>::empty());
        assert(spec_enc_list(l) == Seq::<char>::empty());
        assert(spec_enc_list(l.push(x)) =~= spec_enc_list(l) + spec_enc_str(x));
    } else {
        assert(l.push(x).drop_first() =~= l.drop_first().push(x));
        lemma_enc_list_snoc(l.drop_first(), x);
        assert(l.push(x)[0] == l[0]);
        assert(spec_enc_list(l.push(x)) == spec_enc_str(l[0]) + (spec_enc_list(l.drop_first())
            + spec_enc_str(x)));
        assert(spec_enc_list(l) == spec_enc_str(l[0]) + spec_enc_list(l.drop_first()));
        assert(spec_enc_list(l.push(x)) =~= spec_enc_list(l) + spec_enc_str(x));
    }
}

fn enc_list_onto(out: &mut String, l: &Vec<String>)
    ensures
        final(out)@ == old(out)@ + spec_enc_list(l.deep_view()),
        forall|i: int| 0 <= i < l@.len() ==> #[trigger] l.deep_view()[i].len() <= u64::MAX,
{
    let mut i: usize = 0;
    while i < l.len()
        invariant
            i <= l@.len(),
            out@ == old(out)@ + spec_enc_list(l.deep_view().take(i as int)),
            forall|t: int| 0 <= t < i ==> #[trigger] l.deep_view()[t].len() <= u64::MAX,
        decreases l@.len() - i,
    {
        enc_str_onto(out, &l[i]);
        proof {
            assert(l.deep_view().take(i + 1) =~= l.deep_view().take(i as int).push(
                l.deep_view()[i as int],
            ));
            lemma_enc_list_snoc(l.deep_view().take(i as int), l.deep_view()[i as int]);
        }
        i = i + 1;
    }
    assert(l.deep_view().take(l.deep_view().len() as int) =~= l.deep_view());
}

/// Renders a record for storage, as `spec_encode_karma` says.
pub fn encode_karma(k: &Karma) -> (r: String)
    requires
        k@.wf(),
    ensures
        r@ == spec_encode_karma(k@),
        k@.bounded(),
{
    let mut out = String::new();
    enc_str_onto(&mut out, &k.term);
    enc_str_onto(&mut out, &k.original_term);
    enc_count_onto(&mut out, k.votes.up as u64);
    enc_count_onto(&mut out, k.votes.down as u64);
    enc_opt_str_onto(&mut out, &k.first_vote);
    enc_opt_str_onto(&mut out, &k.last_vote);
    match &k.aliases {
        None => {
            push_char(&mut out, 'N');
        },
        Some(Aliases::To(t)) => {
            push_char(&mut out, 'T');
            enc_str_onto(&mut out, t);
        },
        Some(Aliases::FromOther(l)) => {
            push_char(&mut out, 'F');
            enc_count_onto(&mut out, l.len() as u64);
            enc_list_onto(&mut out, l);
        },
    }
    assert(out@ =~= spec_encode_karma(k@));
    out
}

/// Reading a length-prefixed string at `i`: the length, a colon, that many
/// characters.
pub open spec fn spec_dec_str(s: Seq<char>, i: int) -> Option<(Seq<char>, int)> {
    match spec_parse_nat(s, i) {
        None => None,
        Some((n, j)) => if j < s.len() && s[j] == ':' && j + 1 + n <= s.len() {
            Some((s.subrange(j + 1, j + 1 + n as int), j + 1 + n as int))
        } else {
            None
        },
    }
}

/// Reading a counter at `i`: a number closed by a semicolon.
pub open spec fn spec_dec_count(s: Seq<char>, i: int) -> Option<(nat, int)> {
    match spec_parse_nat(s, i) {
        None => None,
        Some((n, j)) => if j < s.len() && s[j] == ';' {
            Some((n, j + 1))
        } else {
            None
        },
    }
}

/// Reading an optional string at `i`.
pub open spec fn spec_dec_opt_str(s: Seq<char>, i: int) -> Option<(Option<Seq<char>>, int)> {
    if i < s.len() && s[i] == 'N' {
        Some((None, i + 1))
    } else if i < s.len() && s[i] == 'S' {
        match spec_dec_str(s, i + 1) {
            None => None,
            Some((x, j)) => Some((Some(x), j)),
        }
    } else {
        None
    }
}

/// Reading `cnt` length-prefixed strings, one after the other.
pub open spec fn spec_dec_list(s: Seq<char>, i: int, cnt: nat) -> Option<(Seq<Seq<char>>, int)>
    decreases cnt,
{
    if cnt == 0 {
        Some((Seq::empty(), i))
    } else {
        match spec_dec_str(s, i) {
            None => None,
            Some((x, j)) => match spec_dec_list(s, j, (cnt - 1) as nat) {
                None => None,
                Some((l, e)) => Some((seq![x] + l, e)),
            },
        }
    }
}

/// Reading the alias state at `i`.
pub open spec fn spec_dec_aliases(s: Seq<char>, i: int) -> Option<(Option<AliasesView>, int)> {
    if i < s.len() && s[i] == 'N' {
        Some((None, i + 1))
    } else if i < s.len() && s[i] == 'T' {
        match spec_dec_str(s, i + 1) {
            None => None,
            Some((t, j)) => Some((Some(AliasesView::To(t)), j)),
        }
    } else if i < s.len() && s[i] == 'F' {
        match spec_dec_count(s, i + 1) {
            None => None,
            Some((cnt, j)) => match spec_dec_list(s, j, cnt) {
                None => None,
                Some((l, e)) => Some((Some(AliasesView::FromOther(l)), e)),
            },
        }
    } else {
        None
    }
}

/// Reading back a whole record.  The rendering must be consumed exactly, the
/// counters must fit the vote type, and the stored term must already be
/// canonical; anything else is rejected.
pub open spec fn spec_decode_karma(s: Seq<char>) -> Option<KarmaView> {
    match spec_dec_str(s, 0) {
        None => None,
        Some((term, i1)) => match spec_dec_str(s, i1) {
            None => None,
            Some((orig, i2)) => match spec_dec_count(s, i2) {
                None => None,
                Some((up, i3)) => match spec_dec_count(s, i3) {
                    None => None,
                    Some((down, i4)) => match spec_dec_opt_str(s, i4) {
                        None => None,
                        Some((first, i5)) => match spec_dec_opt_str(s, i5) {
                            None => None,
                            Some((last, i6)) => match spec_dec_aliases(s, i6) {
                                None => None,
                                Some((aliases, i7)) => if i7 == s.len() && up <= i64::MAX as nat
                                    && down <= i64::MAX as nat && term == spec_lower(term) {
                                    Some(
                                        KarmaView {
                                            term,
                                            original_term: orig,
                                            votes: KarmaAmount {
                                                up: up as i64,
                                                down: down as i64,
                                            },
                                            first_vote: first,
                                            last_vote: last,
                                            aliases,
                                        },
                                    )
                                } else {
                                    None
                                },
                            },
                        },
                    },
                },
            },
        },
    }
}

/// A record that decodes at all decodes to a well-formed record.
pub proof fn lemma_decode_wf(s: Seq<char>)
    ensures
        spec_decode_karma(s) is Some ==> spec_decode_karma(s)->Some_0.wf(),
{
}

proof fn lemma_piece_chars(s: Seq<char>, i: int, p: Seq<char>)
    requires
        0 <= i,
        i + p.len() <= s.len(),
        s.subrange(i, i + p.len() as int) == p,
    ensures
        forall|j: int| i <= j < i + p.len() ==> #[trigger] s[j] == p[j - i],
{
    assert forall|j: int| i <= j < i + p.len() implies #[trigger] s[j] == p[j - i] by {
        assert(s[j] == s.subrange(i, i + p.len() as int)[j - i]);
    }
}

proof fn lemma_dec_str_of_enc(x: Seq<char>, s: Seq<char>, i: int)
    requires
        0 <= i,
        x.len() <= u64::MAX,
        i + spec_enc_str(x).len() <= s.len(),
        s.subrange(i, i + spec_enc_str(x).len() as int) == spec_enc_str(x),
    ensures
        spec_dec_str(s, i) == Some((x, i + spec_enc_str(x).len() as int)),
{
    let d = spec_nat_digits(x.len());
    let dl = d.len() as int;
    let el = spec_enc_str(x).len() as int;
    lemma_nat_digits_shape(x.len());
    assert(el == dl + 1 + x.len());
    lemma_piece_chars(s, i, spec_enc_str(x));
    assert(s.subrange(i, i + dl) =~= d);
    assert(s[i + dl] == ':');
    assert(!spec_is_digit(':'));
    lemma_parse_nat_of_rendering(x.len(), s, i);
    let j = i + dl;
    assert(s.subrange(j + 1, j + 1 + x.len() as int) =~= x);
}

proof fn lemma_dec_count_of_enc(n: nat, s: Seq<char>, i: int)
    requires
        0 <= i,
        n <= u64::MAX,
        i + spec_enc_count(n).len() <= s.len(),
        s.subrange(i, i + spec_enc_count(n).len() as int) == spec_enc_count(n),
    ensures
        spec_dec_count(s, i) == Some((n, i + spec_enc_count(n).len() as int)),
{
    let d = spec_nat_digits(n);
    let dl = d.len() as int;
    let el = spec_enc_count(n).len() as int;
    lemma_nat_digits_shape(n);
    assert(el == dl + 1);
    lemma_piece_chars(s, i, spec_enc_count(n));
    assert(s.subrange(i, i + dl) =~= d);
    assert(s[i + dl] == ';');
    assert(!spec_is_digit(';'));
    lemma_parse_nat_of_rendering(n, s, i);
}

proof fn lemma_dec_opt_str_of_enc(o: Option<Seq<char>>, s: Seq<char>, i: int)
    requires
        0 <= i,
        (match o {
            Some(x) => x.len() <= u64::MAX,
            None => true,
        }),
        i + spec_enc_opt_str(o).len() <= s.len(),
        s.subrange(i, i + spec_enc_opt_str(o).len() as int) == spec_enc_opt_str(o),
    ensures
        spec_dec_opt_str(s, i) == Some((o, i + spec_enc_opt_str(o).len() as int)),
{
    let el = spec_enc_opt_str(o).len() as int;
    lemma_piece_chars(s, i, spec_enc_opt_str(o));
    match o {
        None => {
            assert(s[i] == 'N');
        },
        Some(x) => {
            assert(s[i] == 'S');
            assert(s.subrange(i + 1, i + 1 + spec_enc_str(x).len() as int) =~= spec_enc_str(x));
            lemma_dec_str_of_enc(x, s, i + 1);
        },
    }
}

proof fn lemma_dec_list_of_enc(l: Seq<Seq<char>>, s: Seq<char>, i: int)
    requires
        0 <= i,
        forall|t: int| 0 <= t < l.len() ==> #[trigger] l[t].len() <= u64::MAX,
        i + spec_enc_list(l).len() <= s.len(),
        s.subrange(i, i + spec_enc_list(l).len() as int) == spec_enc_list(l),
    ensures
        spec_dec_list(s, i, l.len()) == Some((l, i + spec_enc_list(l).len() as int)),
    decreases l.len(),
{
    let el = spec_enc_list(l).len() as int;
    if l.len() == 0 {
        assert(spec_dec_list(s, i, 0) == Some((Seq::<Seq<char>>::empty(), i)));
        assert(l =~= Seq::<Seq<char>>::empty());
    } else {
        let head = spec_enc_str(l[0]);
        let hl = head.len() as int;
        let tail = spec_enc_list(l.drop_first());
        assert(spec_enc_list(l) == head + tail);
        lemma_piece_chars(s, i, spec_enc_list(l));
        assert(s.subrange(i, i + hl) =~= head);
        lemma_dec_str_of_enc(l[0], s, i);
        assert(s.subrange(i + hl, i + hl + tail.len() as int) =~= tail);
        lemma_dec_list_of_enc(l.drop_first(), s, i + hl);
        assert(seq![l[0]] + l.drop_first() =~= l);
    }
}

proof fn lemma_dec_aliases_of_enc(a: Option<AliasesView>, s: Seq<char>, i: int)
    requires
        0 <= i,
        (match a {
            Some(AliasesView::To(t)) => t.len() <= u64::MAX,
            Some(AliasesView::FromOther(l)) => l.len() <= u64::MAX && (forall|t: int|
                0 <= t < l.len() ==> #[trigger] l[t].len() <= u64::MAX),
            None => true,
        }),
        i + spec_enc_aliases(a).len() <= s.len(),
        s.subrange(i, i + spec_enc_aliases(a).len() as int) == spec_enc_aliases(a),
    ensures
        spec_dec_aliases(s, i) == Some((a, i + spec_enc_aliases(a).len() as int)),
{
    let el = spec_enc_aliases(a).len() as int;
    lemma_piece_chars(s, i, spec_enc_aliases(a));
    match a {
        None => {
            assert(s[i] == 'N');
        },
        Some(AliasesView::To(t)) => {
            assert(s[i] == 'T');
            assert(s.subrange(i + 1, i + 1 + spec_enc_str(t).len() as int) =~= spec_enc_str(t));
            lemma_dec_str_of_enc(t, s, i + 1);
        },
        Some(AliasesView::FromOther(l)) => {
            assert(s[i] == 'F');
            let c = spec_enc_count(l.len());
            let cl = c.len() as int;
            assert(s.subrange(i + 1, i + 1 + cl) =~= c);
            lemma_dec_count_of_enc(l.len(), s, i + 1);
            let body = spec_enc_list(l);
            assert(s.subrange(i + 1 + cl, i + 1 + cl + body.len() as int) =~= body);
            lemma_dec_list_of_enc(l, s, i + 1 + cl);
        },
    }
}

/// Round trip: decoding the rendering of a well-formed record gives the
/// record back, field for field, alias state included.
pub proof fn lemma_codec_round_trip(k: KarmaView)
    requires
        k.wf(),
        k.bounded(),
    ensures
        spec_decode_karma(spec_encode_karma(k)) == Some(k),
{
    let s = spec_encode_karma(k);
    let p1 = spec_enc_str(k.term);
    let p2 = spec_enc_str(k.original_term);
    let p3 = spec_enc_count(k.votes.up as nat);
    let p4 = spec_enc_count(k.votes.down as nat);
    let p5 = spec_enc_opt_str(k.first_vote);
    let p6 = spec_enc_opt_str(k.last_vote);
    let p7 = spec_enc_aliases(k.aliases);
    let o1 = 0int;
    let o2 = o1 + p1.len() as int;
    let o3 = o2 + p2.len() as int;
    let o4 = o3 + p3.len() as int;
    let o5 = o4 + p4.len() as int;
    let o6 = o5 + p5.len() as int;
    let o7 = o6 + p6.len() as int;
    let o8 = o7 + p7.len() as int;
    assert(s == p1 + p2 + p3 + p4 + p5 + p6 + p7);
    assert(s.len() == o8);
    assert(s.subrange(o1, o2) =~= p1);
    assert(s.subrange(o2, o3) =~= p2);
    assert(s.subrange(o3, o4) =~= p3);
    assert(s.subrange(o4, o5) =~= p4);
    assert(s.subrange(o5, o6) =~= p5);
    assert(s.subrange(o6, o7) =~= p6);
    assert(s.subrange(o7, o8) =~= p7);
    lemma_dec_str_of_enc(k.term, s, o1);
    lemma_dec_str_of_enc(k.original_term, s, o2);
    lemma_dec_count_of_enc(k.votes.up as nat, s, o3);
    lemma_dec_count_of_enc(k.votes.down as nat, s, o4);
    lemma_dec_opt_str_of_enc(k.first_vote, s, o5);
    lemma_dec_opt_str_of_enc(k.last_vote, s, o6);
    lemma_dec_aliases_of_enc(k.aliases, s, o7);
}

fn dec_str(v: &Vec<char>, i: usize) -> (r: Option<(String, usize)>)
    requires
        i <= v@.len(),
    ensures
        match r {
            Some(p) => {
                &&& spec_dec_str(v@, i as int) == Some((p.0@, p.1 as int))
                &&& i < p.1 <= v@.len()
            },
            None => spec_dec_str(v@, i as int) is None,
        },
{
    match parse_nat(v, i) {
        None => None,
        Some((n, j)) => {
            if j < v.len() && v[j] == ':' {
                let room: usize = v.len() - (j + 1);
                if n <= room as u64 {
                    let end: usize = j + 1 + (n as usize);
                    let content = string_of_range(v, j + 1, end);
                    Some((content, end))
                } else {
                    None
                }
            } else {
                None
            }
        },
    }
}

fn dec_count(v: &Vec<char>, i: usize) -> (r: Option<(u64, usize)>)
    requires
        i <= v@.len(),
    ensures
        match r {
            Some(p) => {
                &&& spec_dec_count(v@, i as int) == Some((p.0 as nat, p.1 as int))
                &&& i < p.1 <= v@.len()
            },
            None => spec_dec_count(v@, i as int) is None,
        },
{
    match parse_nat(v, i) {
        None => None,
        Some((n, j)) => {
            if j < v.len() && v[j] == ';' {
                Some((n, j + 1))
            } else {
                None
            }
        },
    }
}

fn dec_opt_str(v: &Vec<char>, i: usize) -> (r: Option<(Option<String>, usize)>)
    requires
        i <= v@.len(),
    ensures
        match r {
            Some(p) => {
                &&& spec_dec_opt_str(v@, i as int) == Some(
                    (
                        match p.0 {
                            Some(ref x) => Some(x@),
                            None => None,
                        },
                        p.1 as int,
                    ),
                )
                &&& i < p.1 <= v@.len()
            },
            None => spec_dec_opt_str(v@, i as int) is None,
        },
{
    if i < v.len() && v[i] == 'N' {
        Some((None, i + 1))
    } else if i < v.len() && v[i] == 'S' {
        match dec_str(v, i + 1) {
            None => None,
            Some((x, j)) => Some((Some(x), j)),
        }
    } else {
        None
    }
}

fn dec_list(v: &Vec<char>, i: usize, cnt: u64) -> (r: Option<(Vec<String>, usize)>)
    requires
        i <= v@.len(),
    ensures
        match r {
            Some(p) => {
                &&& spec_dec_list(v@, i as int, cnt as nat) == Some((p.0.deep_view(), p.1 as int))
                &&& i <= p.1 <= v@.len()
            },
            None => spec_dec_list(v@, i as int, cnt as nat) is None,
        },
{
    let mut out: Vec<String> = Vec::new();
    let mut cur: usize = i;
    let mut k: u64 = 0;
    while k < cnt
        invariant
            i <= cur <= v@.len(),
            k <= cnt,
            spec_dec_list(v@, i as int, cnt as nat) == (match spec_dec_list(
                v@,
                cur as int,
                (cnt - k) as nat,
            ) {
                None => None::<(Seq<Seq<char>>, int)>,
                Some((l, e)) => Some((out.deep_view() + l, e)),
            }),
        decreases cnt - k,
    {
        match dec_str(v, cur) {
            None => {
                return None;
            },
            Some((x, j)) => {
                let ghost old_out = out.deep_view();
                out.push(x);
                proof {
                    assert(out.deep_view() =~= old_out.push(x@));
                    if let Some((l, e)) = spec_dec_list(v@, j as int, (cnt - k - 1) as nat) {
                        assert(old_out + (seq![x@] + l) =~= old_out.push(x@) + l);
                    }
                }
                cur = j;
                k = k + 1;
            },
        }
    }
    proof {
        assert(spec_dec_list(v@, cur as int, 0) == Some((Seq::<Seq<char>>::empty(), cur as int)));
        assert(out.deep_view() + Seq::<Seq<char>>::empty() =~= out.deep_view());
    }
    Some((out, cur))
}

fn dec_aliases(v: &Vec<char>, i: usize) -> (r: Option<(Option<Aliases>, usize)>)
    requires
        i <= v@.len(),
    ensures
        match r {
            Some(p) => {
                &&& spec_dec_aliases(v@, i as int) == Some(
                    (
                        match p.0 {
                            Some(ref a) => Some(a@),
                            None => None,
                        },
                        p.1 as int,
                    ),
                )
                &&& i <= p.1 <= v@.len()
            },
            None => spec_dec_aliases(v@, i as int) is None,
        },
{
    if i < v.len() && v[i] == 'N' {
        Some((None, i + 1))
    } else if i < v.len() && v[i] == 'T' {
        match dec_str(v, i + 1) {
            None => None,
            Some((t, j)) => Some((Some(Aliases::To(t)), j)),
        }
    } else if i < v.len() && v[i] == 'F' {
        match dec_count(v, i + 1) {
            None => None,
            Some((cnt, j)) => match dec_list(v, j, cnt) {
                None => None,
                Some((l, e)) => Some((Some(Aliases::FromOther(l)), e)),
            },
        }
    } else {
        None
    }
}

/// Reads a stored rendering back into a record, as `spec_decode_karma` says.
pub fn decode_karma(s: &str) -> (r: Option<Karma>)
    ensures
        match r {
            Some(k) => spec_decode_karma(s@) == Some(k@) && k@.wf(),
            None => spec_decode_karma(s@) is None,
        },
{
    let v = chars_of(s);
    let term;
    let i1;
    match dec_str(&v, 0) {
        None => {
            return None;
        },
        Some(p) => {
            term = p.0;
            i1 = p.1;
        },
    }
    let orig;
    let i2;
    match dec_str(&v, i1) {
        None => {
            return None;
        },
        Some(p) => {
            orig = p.0;
            i2 = p.1;
        },
    }
    let up;
    let i3;
    match dec_count(&v, i2) {
        None => {
            return None;
        },
        Some(p) => {
            up = p.0;
            i3 = p.1;
        },
    }
    let down;
    let i4;
    match dec_count(&v, i3) {
        None => {
            return None;
        },
        Some(p) => {
            down = p.0;
            i4 = p.1;
        },
    }
    let first;
    let i5;
    match dec_opt_str(&v, i4) {
        None => {
            return None;
        },
        Some(p) => {
            first = p.0;
            i5 = p.1;
        },
    }
    let last;
    let i6;
    match dec_opt_str(&v, i5) {
        None => {
            return None;
        },
        Some(p) => {
            last = p.0;
            i6 = p.1;
        },
    }
    let aliases;
    let i7;
    match dec_aliases(&v, i6) {
        None => {
            return None;
        },
        Some(p) => {
            aliases = p.0;
            i7 = p.1;
        },
    }
    if i7 != v.len() {
        return None;
    }
    if up > i64::MAX as u64 || down > i64::MAX as u64 {
        return None;
    }
    let canon = canonicalize_term(term.as_str());
    if !(term == canon) {
        return None;
    }
    Some(
        Karma {
            term,
            original_term: orig,
            votes: KarmaAmount { up: up as i64, down: down as i64 },
            first_vote: first,
            last_vote: last,
            aliases,
        },
    )
}

} // verus!
