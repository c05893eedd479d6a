//! The karma data model: vote amounts, change styles, parsed changes,
//! canonical terms, and the persisted karma record with its alias state.

use vstd::prelude::*;

use crate::text::{
    chars_of, lower_char, push_char, sat_add, spec_lower, spec_sat_add,
};

verus! {

broadcast use vstd::string::group_string_axioms;

/// The canonical form of a term: its ASCII-lowercased text.  Canonical terms
/// are the storage keys; display text keeps the casing the user typed.
pub fn canonicalize_term(term: &str) -> (r: String)
    ensures
        r@ == spec_lower(term@),
{
    let cs = chars_of(term);
    let mut out = String::new();
    let mut i: usize = 0;
    while i < cs.len()
        invariant
            i <= cs@.len(),
            cs@ == term@,
            out@ == spec_lower(cs@.take(i as int)),
        decreases cs@.len() - i,
    {
        push_char(&mut out, lower_char(cs[i]));
        assert(spec_lower(cs@.take(i + 1)) =~= spec_lower(cs@.take(i as int)).push(
            crate::text::spec_lower_char(cs@[i as int]),
        ));
        i = i + 1;
    }
    assert(cs@.take(cs@.len() as int) =~= cs@);
    out
}

/// An up/down vote pair.  Well-formed amounts have both counters at or above
/// zero; the balance is `up - down`.
#[derive(Debug, Clone, Copy, PartialEq, Eq, Structural)]
pub struct KarmaAmount {
    pub up: i64,
    pub down: i64,
}

impl Default for KarmaAmount {
    fn default() -> (r: Self)
        ensures
            r.up == 0 && r.down == 0,
    {
        KarmaAmount { up: 0, down: 0 }
    }
}

impl KarmaAmount {
    pub open spec fn wf(self) -> bool {
        0 <= self.up && 0 <= self.down
    }

    pub open spec fn spec_total(self) -> int {
        self.up - self.down
    }

    /// The signed balance of the two counters.
    pub fn total(&self) -> (r: i64)
        requires
            self.wf(),
        ensures
            r == self.spec_total(),
    {
        self.up - self.down
    }

    pub open spec fn spec_plus(self, rhs: KarmaAmount) -> KarmaAmount {
        KarmaAmount {
            up: spec_sat_add(self.up as int, rhs.up as int) as i64,
            down: spec_sat_add(self.down as int, rhs.down as int) as i64,
        }
    }

    /// Component-wise addition, clamped at the ends of the `i64` range.
    pub fn plus(self, rhs: KarmaAmount) -> (r: KarmaAmount)
        ensures
            r == self.spec_plus(rhs),
            self.wf() && rhs.wf() ==> r.wf(),
    {
        KarmaAmount { up: sat_add(self.up, rhs.up), down: sat_add(self.down, rhs.down) }
    }
}

/// How explicitly the user asked for feedback on a change, in increasing
/// order of explicitness: a bare `term++` is implicit, `(term)++` is silent,
/// `[term]++` asks for a reply.
#[derive(Debug, Clone, Copy, PartialEq, Eq, Structural)]
pub enum KarmaStyle {
    Implicit,
    Silent,
    Notify,
}

impl KarmaStyle {
    pub open spec fn spec_level(self) -> int {
        match self {
            KarmaStyle::Implicit => 0,
            KarmaStyle::Silent => 1,
            KarmaStyle::Notify => 2,
        }
    }

    pub open spec fn spec_most_explicit(a: KarmaStyle, b: KarmaStyle) -> KarmaStyle {
        if b.spec_level() > a.spec_level() {
            b
        } else {
            a
        }
    }

    /// The more explicit of two styles: their supremum in the
    /// `Implicit < Silent < Notify` order.
    pub fn most_explicit(a: KarmaStyle, b: KarmaStyle) -> (r: KarmaStyle)
        ensures
            r == KarmaStyle::spec_most_explicit(a, b),
    {
        let al: u8 = match a {
            KarmaStyle::Implicit => 0,
            KarmaStyle::Silent => 1,
            KarmaStyle::Notify => 2,
        };
        let bl: u8 = match b {
            KarmaStyle::Implicit => 0,
            KarmaStyle::Silent => 1,
            KarmaStyle::Notify => 2,
        };
        if bl > al {
            b
        } else {
            a
        }
    }
}

/// Combining styles is commutative, idempotent and associative, and always
/// returns one of its arguments, never below either in explicitness: it is
/// the supremum under the style order.
pub proof fn lemma_most_explicit_properties(a: KarmaStyle, b: KarmaStyle, c: KarmaStyle)
    ensures
        KarmaStyle::spec_most_explicit(a, b) == KarmaStyle::spec_most_explicit(b, a),
        KarmaStyle::spec_most_explicit(a, a) == a,
        KarmaStyle::spec_most_explicit(KarmaStyle::spec_most_explicit(a, b), c)
            == KarmaStyle::spec_most_explicit(a, KarmaStyle::spec_most_explicit(b, c)),
        KarmaStyle::spec_most_explicit(a, b) == a || KarmaStyle::spec_most_explicit(a, b) == b,
        KarmaStyle::spec_most_explicit(a, b).spec_level() >= a.spec_level(),
        KarmaStyle::spec_most_explicit(a, b).spec_level() >= b.spec_level(),
{
}

/// One karma change extracted from a message: the term as the user typed it
/// (not yet canonicalized), the votes it carries, and its style.
#[derive(Debug, Clone, PartialEq)]
pub struct KarmaChange {
    pub term: String,
    pub votes: KarmaAmount,
    pub style: KarmaStyle,
}

pub struct KarmaChangeView {
    pub term: Seq<char>,
    pub votes: KarmaAmount,
    pub style: KarmaStyle,
}

impl View for KarmaChange {
    type V = KarmaChangeView;

    open spec fn view(&self) -> KarmaChangeView {
        KarmaChangeView { term: self.term@, votes: self.votes, style: self.style }
    }
}

impl KarmaChange {
    /// A change for `term`, stored verbatim; canonicalization happens only
    /// when the change is looked up against storage.
    pub fn new(term: &str, votes: KarmaAmount, style: KarmaStyle) -> (r: KarmaChange)
        ensures
            r@.term == term@,
            r@.votes == votes,
            r@.style == style,
    {
        KarmaChange { term: term.to_owned(), votes, style }
    }
}

/// The alias state of a record: a satellite points `To` its group's main
/// term; the main term owns the list of satellites aliased `FromOther` terms.
#[derive(Debug, Clone, PartialEq)]
pub enum Aliases {
    To(String),
    FromOther(Vec<String>),
}

pub enum AliasesView {
    To(Seq<char>),
    FromOther(Seq<Seq<char>>),
}

impl View for Aliases {
    type V = AliasesView;

    open spec fn view(&self) -> AliasesView {
        match self {
            Aliases::To(t) => AliasesView::To(t@),
            Aliases::FromOther(l) => AliasesView::FromOther(l.deep_view()),
        }
    }
}

/// The persisted unit: one record per canonical term.
#[derive(Debug, Clone, PartialEq)]
pub struct Karma {
    /// The canonical (ASCII-lowercased) term; the storage key.
    pub term: String,
    /// The casing last used to display the term; not part of the key.
    pub original_term: String,
    pub votes: KarmaAmount,
    pub first_vote: Option<String>,
    pub last_vote: Option<String>,
    pub aliases: Option<Aliases>,
}

pub struct KarmaView {
    pub term: Seq<char>,
    pub original_term: Seq<char>,
    pub votes: KarmaAmount,
    pub first_vote: Option<Seq<char>>,
    pub last_vote: Option<Seq<char>>,
    pub aliases: Option<AliasesView>,
}

impl View for Karma {
    type V = KarmaView;

    open spec fn view(&self) -> KarmaView {
        KarmaView {
            term: self.term@,
            original_term: self.original_term@,
            votes: self.votes,
            first_vote: match self.first_vote {
                Some(ref s) => Some(s@),
                None => None,
            },
            last_vote: match self.last_vote {
                Some(ref s) => Some(s@),
                None => None,
            },
            aliases: match self.aliases {
                Some(ref a) => Some(a@),
                None => None,
            },
        }
    }
}

impl KarmaView {
    /// The record invariant: the key is canonical and both vote counters are
    /// at or above zero.
    pub open spec fn wf(self) -> bool {
        &&& self.term == spec_lower(self.term)
        &&& self.votes.wf()
    }

    /// Every piece of text in the record fits a machine-sized length.  True
    /// of every record a program can hold; stated for the codec lemmas.
    pub open spec fn bounded(self) -> bool {
        &&& self.term.len() <= u64::MAX
        &&& self.original_term.len() <= u64::MAX
        &&& (match self.first_vote {
            Some(s) => s.len() <= u64::MAX,
            None => true,
        })
        &&& (match self.last_vote {
            Some(s) => s.len() <= u64::MAX,
            None => true,
        })
        &&& (match self.aliases {
            Some(AliasesView::To(t)) => t.len() <= u64::MAX,
            Some(AliasesView::FromOther(l)) => l.len() <= u64::MAX && (forall|i: int|
                0 <= i < l.len() ==> #[trigger] l[i].len() <= u64::MAX),
            None => true,
        })
    }
}

/// Relies on `chrono::Local::now` (rendered with
/// `chrono::DateTime::to_rfc3339`): the current local time as an RFC 3339
/// timestamp.  Nothing is assumed of the result, which depends on the clock.
#[verifier::external_body]
pub(crate) fn now_timestamp() -> String {
    chrono::Local::now().to_rfc3339()
}

impl Karma {
    /// A fresh record for `term`: no votes, no aliases, both timestamps set
    /// to the moment of creation.
    pub fn new(term: &str) -> (r: Karma)
        ensures
            r@.term == spec_lower(term@),
            r@.original_term == term@,
            r@.votes == (KarmaAmount { up: 0, down: 0 }),
            r@.first_vote is Some,
            r@.last_vote == r@.first_vote,
            r@.aliases is None,
            r@.wf(),
    {
        let now = now_timestamp();
        proof {
            crate::text::lemma_lower_idempotent(term@);
        }
        Karma {
            term: canonicalize_term(term),
            original_term: term.to_owned(),
            votes: KarmaAmount { up: 0, down: 0 },
            first_vote: Some(now.clone()),
            last_vote: Some(now),
            aliases: None,
        }
    }

    /// Applies a vote delta to the record and stamps the time of the vote.
    pub fn vote(&mut self, karma: &KarmaAmount)
        ensures
            final(self)@.term == old(self)@.term,
            final(self)@.original_term == old(self)@.original_term,
            final(self)@.votes == old(self).votes.spec_plus(*karma),
            final(self)@.first_vote == old(self)@.first_vote,
            final(self)@.last_vote is Some,
            final(self)@.aliases == old(self)@.aliases,
            old(self)@.wf() && karma.wf() ==> final(self)@.wf(),
    {
        self.last_vote = Some(now_timestamp());
        self.votes = self.votes.plus(*karma);
    }
}

/// The storage key of a term: a fixed prefix, then the canonical term.
pub open spec fn spec_store_key(term: Seq<char>) -> Seq<char> {
    "dazeus_karma."@ + spec_lower(term)
}

pub fn store_key(term: &str) -> (r: String)
    ensures
        r@ == spec_store_key(term@),
{
    let mut out = String::from_str("dazeus_karma.");
    let canonical = canonicalize_term(term);
    out.append(canonical.as_str());
    out
}

} // verus!
