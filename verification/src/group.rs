//! Karma groups: fetching and saving records against a store, the alias
//! resolver that walks the alias graph into a full group, and the group's
//! derived vote totals and reports.

use vstd::prelude::*;

use crate::codec::{decode_karma, encode_karma, spec_decode_karma, spec_encode_karma};
use crate::error::KarmaError;
use crate::karma::{
    canonicalize_term, store_key, Aliases, AliasesView, Karma, KarmaAmount, KarmaView,
    spec_store_key,
};
use crate::store::MemStore;
use crate::text::{spec_lower, spec_lower_all, u64_to_string, i64_to_string};

verus! {

broadcast use vstd::string::group_string_axioms;

/// What looking a term up in a store yields: the record under the term's
/// storage key, decoded, with its display text set to the term as the caller
/// spelled it.  Nothing when the key is absent or its payload malformed; a
/// payload whose own term disagrees with the key it sits under counts as
/// malformed.
pub open spec fn spec_fetch(
    store: Map<Seq<char>, Seq<char>>,
    term: Seq<char>,
) -> Option<KarmaView> {
    let key = spec_store_key(term);
    if store.dom().contains(key) {
        match spec_decode_karma(store[key]) {
            Some(k) => if k.term == spec_lower(term) {
                Some(KarmaView { original_term: term, ..k })
            } else {
                None
            },
            None => None,
        }
    } else {
        None
    }
}

/// Looks a term's record up, as `spec_fetch` says.
pub fn fetch_karma(store: &MemStore, term: &str) -> (r: Option<Karma>)
    requires
        store.wf(),
    ensures
        match r {
            Some(k) => spec_fetch(store@, term@) == Some(k@) && k@.wf(),
            None => spec_fetch(store@, term@) is None,
        },
{
    let key = store_key(term);
    match store.get(&key) {
        None => None,
        Some(payload) => match decode_karma(payload.as_str()) {
            None => None,
            Some(mut k) => {
                let canon = canonicalize_term(term);
                if k.term.eq(&canon) {
                    k.original_term = term.to_owned();
                    Some(k)
                } else {
                    None
                }
            },
        },
    }
}

/// Looks a term's record up, synthesizing a fresh record when the key is
/// absent or its payload malformed.
pub fn fetch_or_create(store: &MemStore, term: &str) -> (r: Karma)
    requires
        store.wf(),
    ensures
        r@.wf(),
        r@.original_term == term@,
        r@.term == spec_lower(term@),
        match spec_fetch(store@, term@) {
            Some(k) => r@ == k,
            None => {
                &&& r@.votes == (KarmaAmount { up: 0, down: 0 })
                &&& r@.aliases is None
                &&& r@.first_vote is Some
                &&& r@.last_vote == r@.first_vote
            },
        },
{
    match fetch_karma(store, term) {
        Some(k) => {
            proof {
                let fetched = spec_fetch(store@, term@)->Some_0;
                assert(fetched.term == spec_lower(fetched.term));
            }
            k
        },
        None => Karma::new(term),
    }
}

/// Writes a record under its term's storage key.
pub fn save_karma(store: &mut MemStore, k: &Karma)
    requires
        old(store).wf(),
        k@.wf(),
    ensures
        final(store).wf(),
        final(store)@ == old(store)@.insert(spec_store_key(k@.term), spec_encode_karma(k@)),
        final(store).spec_size() <= old(store).spec_size() + 1,
        k@.bounded(),
{
    let key = store_key(k.term.as_str());
    let payload = encode_karma(k);
    store.set(key, payload);
}

/// The canonical alias targets of a record: where the walk goes next from
/// it — the `To` term, or every `FromOther` element.
pub open spec fn spec_record_targets(k: KarmaView) -> Seq<Seq<char>> {
    match k.aliases {
        None => Seq::empty(),
        Some(AliasesView::To(t)) => seq![spec_lower(t)],
        Some(AliasesView::FromOther(l)) => spec_lower_all(l),
    }
}

/// The canonical alias targets of the record a term fetches; none when the
/// term has no record.
pub open spec fn spec_fetch_targets(store: Map<Seq<char>, Seq<char>>, term: Seq<char>) -> Seq<
    Seq<char>,
> {
    match spec_fetch(store, term) {
        Some(k) => spec_record_targets(k),
        None => Seq::empty(),
    }
}

/// A walkable chain of terms: every term on it has a record in the store,
/// and each next term is an alias target of the one before it.
pub open spec fn spec_alias_path(store: Map<Seq<char>, Seq<char>>, path: Seq<Seq<char>>) -> bool {
    &&& path.len() >= 1
    &&& forall|i: int| 0 <= i < path.len() ==> spec_fetch(store, #[trigger] path[i]) is Some
    &&& forall|i: int|
        0 <= i < path.len() - 1 ==> spec_fetch_targets(store, path[i]).contains(
            #[trigger] path[i + 1],
        )
}

/// `to` can be reached from `from` by following alias links through
/// fetchable records.
pub open spec fn spec_reachable(
    store: Map<Seq<char>, Seq<char>>,
    from: Seq<char>,
    to: Seq<char>,
) -> bool {
    exists|path: Seq<Seq<char>>|
        spec_alias_path(store, path) && path[0] == from && path.last() == to
}

pub proof fn lemma_reachable_self(store: Map<Seq<char>, Seq<char>>, t: Seq<char>)
    requires
        spec_fetch(store, t) is Some,
    ensures
        spec_reachable(store, t, t),
{
    let path: Seq<Seq<char>> = seq![t];
    assert(spec_alias_path(store, path));
    assert(path[0] == t && path.last() == t);
}

pub proof fn lemma_reachable_step(
    store: Map<Seq<char>, Seq<char>>,
    from: Seq<char>,
    mid: Seq<char>,
    to: Seq<char>,
)
    requires
        spec_reachable(store, from, mid),
        spec_fetch_targets(store, mid).contains(to),
        spec_fetch(store, to) is Some,
    ensures
        spec_reachable(store, from, to),
{
    let path = choose|path: Seq<Seq<char>>|
        spec_alias_path(store, path) && path[0] == from && path.last() == mid;
    let ext = path.push(to);
    assert(ext[0] == from);
    assert(ext.last() == to);
    assert(spec_alias_path(store, ext)) by {
        assert(forall|i: int| 0 <= i < path.len() ==> #[trigger] ext[i] == path[i]);
        assert(ext[ext.len() - 1] == to);
        assert forall|i: int| 0 <= i < ext.len() - 1 implies spec_fetch_targets(
            store,
            ext[i],
        ).contains(#[trigger] ext[i + 1]) by {
            if i < path.len() - 1 {
                assert(ext[i] == path[i] && ext[i + 1] == path[i + 1]);
            } else {
                assert(ext[i] == path.last() && ext[i + 1] == to);
            }
        }
    }
}

/// A term stands alone: it has no record, or its record's fetchable alias
/// targets all point back at the term itself, so its group is a singleton.
pub open spec fn spec_lone(store: Map<Seq<char>, Seq<char>>, term: Seq<char>) -> bool {
    ||| spec_fetch(store, spec_lower(term)) is None
    ||| (forall|x: Seq<char>|
        #[trigger] spec_fetch_targets(store, spec_lower(term)).contains(x) && spec_fetch(
            store,
            x,
        ) is Some ==> x == spec_lower(term))
}

/// Along an alias path out of a lone term, every step stays at that term.
proof fn lemma_lone_path(
    store: Map<Seq<char>, Seq<char>>,
    s: Seq<char>,
    path: Seq<Seq<char>>,
    n: int,
)
    requires
        spec_fetch(store, s) is Some,
        forall|x: Seq<char>|
            #[trigger] spec_fetch_targets(store, s).contains(x) && spec_fetch(store, x) is Some
                ==> x == s,
        spec_alias_path(store, path),
        path[0] == s,
        0 <= n < path.len(),
    ensures
        path[n] == s,
    decreases n,
{
    if n > 0 {
        lemma_lone_path(store, s, path, n - 1);
        let j = n - 1;
        assert(spec_fetch_targets(store, path[j]).contains(path[j + 1]));
        assert(spec_fetch(store, path[n]) is Some);
    }
}

/// An alias group, derived on demand: every record of the group, keyed by
/// canonical term, and the group's main term.
#[derive(Debug, Clone, PartialEq)]
pub struct KarmaGroup {
    pub karmas: Vec<Karma>,
    pub main: String,
}

/// The canonical terms of a list of records.
pub open spec fn spec_terms(ks: Seq<Karma>) -> Seq<Seq<char>> {
    ks.map_values(|k: Karma| k@.term)
}

/// The vote total of a list of records: the component-wise sum of all their
/// amounts, clamped at the ends of the `i64` range.
pub open spec fn spec_votes_sum(ks: Seq<Karma>) -> KarmaAmount
    decreases ks.len(),
{
    if ks.len() == 0 {
        KarmaAmount { up: 0, down: 0 }
    } else {
        spec_votes_sum(ks.drop_last()).spec_plus(ks.last()@.votes)
    }
}

impl KarmaGroup {
    /// Group well-formedness: at least one member, all members well-formed,
    /// no term twice, and the main term one of the members'.
    pub open spec fn wf(self) -> bool {
        &&& self.karmas@.len() >= 1
        &&& forall|i: int| 0 <= i < self.karmas@.len() ==> (#[trigger] self.karmas@[i])@.wf()
        &&& forall|i: int, j: int|
            0 <= i < j < self.karmas@.len() ==> (#[trigger] self.karmas@[i])@.term
                != (#[trigger] self.karmas@[j])@.term
        &&& exists|i: int|
            0 <= i < self.karmas@.len() && (#[trigger] self.karmas@[i])@.term == self.main@
    }

    /// Whether some member has the given canonical term.
    pub open spec fn spec_contains_term(self, term: Seq<char>) -> bool {
        exists|i: int| 0 <= i < self.karmas@.len() && (#[trigger] self.karmas@[i])@.term == term
    }

    /// A fresh singleton group for a term.
    pub fn new(term: &str) -> (r: KarmaGroup)
        ensures
            r.wf(),
            r.karmas@.len() == 1,
            r.karmas@[0]@.term == spec_lower(term@),
            r.karmas@[0]@.original_term == term@,
            r.karmas@[0]@.votes == (KarmaAmount { up: 0, down: 0 }),
            r.karmas@[0]@.aliases is None,
            r.main@ == spec_lower(term@),
    {
        let karma = Karma::new(term);
        let main = canonicalize_term(term);
        let mut karmas = Vec::new();
        karmas.push(karma);
        KarmaGroup { karmas, main }
    }

    /// The member with the given canonical term, if any.
    pub fn find_term(&self, term: &String) -> (r: Option<usize>)
        ensures
            match r {
                Some(i) => i < self.karmas@.len() && self.karmas@[i as int]@.term == term@,
                None => !self.spec_contains_term(term@),
            },
    {
        let mut i: usize = 0;
        while i < self.karmas.len()
            invariant
                i <= self.karmas@.len(),
                forall|t: int| 0 <= t < i ==> (#[trigger] self.karmas@[t])@.term != term@,
            decreases self.karmas@.len() - i,
        {
            if self.karmas[i].term.eq(term) {
                return Some(i);
            }
            i = i + 1;
        }
        proof {
            if self.spec_contains_term(term@) {
                let t = choose|t: int|
                    0 <= t < self.karmas@.len() && (#[trigger] self.karmas@[t])@.term == term@;
                assert(false);
            }
        }
        None
    }

    /// The group report: the main term, the sign of the combined balance,
    /// and the combined counters.
    pub open spec fn spec_report(self) -> Seq<char> {
        let votes = spec_votes_sum(self.karmas@);
        let tail = " (+"@ + crate::text::spec_nat_digits(votes.up as nat) + ", -"@
            + crate::text::spec_nat_digits(votes.down as nat) + ")"@;
        if votes.spec_total() == 0 {
            self.main@ + " has neutral karma"@ + tail
        } else {
            self.main@ + " has a karma of "@ + crate::text::spec_int_digits(votes.spec_total())
                + tail
        }
    }

    /// Renders the group report, as `spec_report` says.
    pub fn report(&self) -> (r: String)
        requires
            self.wf(),
        ensures
            r@ == self.spec_report(),
    {
        let votes = self.votes();
        let mut out = self.main.clone();
        let total = votes.total();
        if total == 0 {
            out.append(" has neutral karma");
        } else {
            out.append(" has a karma of ");
            let digits = i64_to_string(total);
            out.append(digits.as_str());
        }
        out.append(" (+");
        let up = u64_to_string(votes.up as u64);
        out.append(up.as_str());
        out.append(", -");
        let down = u64_to_string(votes.down as u64);
        out.append(down.as_str());
        out.append(")");
        assert(out@ =~= self.spec_report());
        out
    }

    /// The group's combined votes, as `spec_votes_sum` says.
    pub fn votes(&self) -> (r: KarmaAmount)
        ensures
            r == spec_votes_sum(self.karmas@),
            (forall|i: int|
                0 <= i < self.karmas@.len() ==> (#[trigger] self.karmas@[i])@.wf()) ==> r.wf(),
    {
        let mut total = KarmaAmount { up: 0, down: 0 };
        let mut i: usize = 0;
        while i < self.karmas.len()
            invariant
                i <= self.karmas@.len(),
                total == spec_votes_sum(self.karmas@.take(i as int)),
                (forall|t: int|
                    0 <= t < i ==> (#[trigger] self.karmas@[t])@.wf()) ==> total.wf(),
            decreases self.karmas@.len() - i,
        {
            total = total.plus(self.karmas[i].votes);
            proof {
                assert(self.karmas@.take(i + 1).drop_last() =~= self.karmas@.take(i as int));
            }
            i = i + 1;
        }
        proof {
            assert(self.karmas@.take(self.karmas@.len() as int) =~= self.karmas@);
        }
        total
    }

    /// How the group hangs together: a singleton is "not linked", otherwise
    /// the satellite terms are listed, quoted and comma-separated, with the
    /// main term they redirect to.
    pub open spec fn spec_describe_structure(self) -> Seq<char> {
        if self.karmas@.len() <= 1 {
            self.main@ + " is not linked"@
        } else {
            let others = spec_terms(self.karmas@).filter(|t: Seq<char>| t != self.main@);
            let verb = if others.len() == 1 {
                " redirects to "@
            } else {
                " redirect to "@
            };
            spec_quoted_join(others) + verb + self.main@
        }
    }

    /// Renders the group structure, as `spec_describe_structure` says.
    pub fn describe_structure(&self) -> (r: String)
        ensures
            r@ == self.spec_describe_structure(),
    {
        if self.karmas.len() <= 1 {
            let mut out = self.main.clone();
            out.append(" is not linked");
            assert(out@ =~= self.spec_describe_structure());
            return out;
        }
        let mut others: Vec<&String> = Vec::new();
        let mut i: usize = 0;
        while i < self.karmas.len()
            invariant
                i <= self.karmas@.len(),
                others.deep_view() == spec_terms(self.karmas@.take(i as int)).filter(
                    |t: Seq<char>| t != self.main@,
                ),
            decreases self.karmas@.len() - i,
        {
            let ghost pre = others.deep_view();
            if !self.karmas[i].term.eq(&self.main) {
                others.push(&self.karmas[i].term);
                proof {
                    assert(others.deep_view() =~= pre.push(self.karmas@[i as int]@.term));
                }
            }
            proof {
                let f = |t: Seq<char>| t != self.main@;
                let prefix = spec_terms(self.karmas@.take(i as int));
                assert(spec_terms(self.karmas@.take(i + 1)).drop_last() =~= prefix);
                assert(spec_terms(self.karmas@.take(i + 1)).last() == self.karmas@[
                    i as int
                ]@.term);
                reveal(Seq::filter);
            }
            i = i + 1;
        }
        proof {
            assert(self.karmas@.take(self.karmas@.len() as int) =~= self.karmas@);
        }
        let mut out = String::new();
        let mut j: usize = 0;
        let ghost all = others.deep_view();
        while j < others.len()
            invariant
                j <= others@.len(),
                all == others.deep_view(),
                out@ == spec_quoted_join(all.take(j as int)),
            decreases others@.len() - j,
        {
            if j > 0 {
                out.append(", '");
            } else {
                out.append("'");
            }
            out.append(others[j].as_str());
            out.append("'");
            proof {
                lemma_quoted_join_snoc(all.take(j as int), all[j as int]);
                assert(all.take(j + 1) =~= all.take(j as int).push(all[j as int]));
                assert(out@ =~= spec_quoted_join(all.take(j + 1)));
            }
            j = j + 1;
        }
        proof {
            assert(all.take(all.len() as int) =~= all);
        }
        if others.len() == 1 {
            out.append(" redirects to ");
        } else {
            out.append(" redirect to ");
        }
        out.append(self.main.as_str());
        assert(out@ =~= self.spec_describe_structure());
        out
    }
}

/// Terms quoted and joined with commas: `'a', 'b', 'c'`.
pub open spec fn spec_quoted_join(ts: Seq<Seq<char>>) -> Seq<char>
    decreases ts.len(),
{
    if ts.len() == 0 {
        Seq::empty()
    } else {
        "'"@ + ts[0] + "'"@ + spec_comma_quoted(ts.drop_first())
    }
}

pub open spec fn spec_comma_quoted(ts: Seq<Seq<char>>) -> Seq<char>
    decreases ts.len(),
{
    if ts.len() == 0 {
        Seq::empty()
    } else {
        ", '"@ + ts[0] + "'"@ + spec_comma_quoted(ts.drop_first())
    }
}

proof fn lemma_comma_quoted_snoc(ts: Seq<Seq<char>>, x: Seq<char>)
    ensures
        spec_comma_quoted(ts.push(x)) == spec_comma_quoted(ts) + ", '"@ + x + "'"@,
    decreases ts.len(),
{
    if ts.len() == 0 {
        assert(ts.push(x).drop_first() =~= Seq::<Seq<char>>::empty());
        assert(spec_comma_quoted(Seq::<Seq<char>>::empty()) == Seq::<char>::empty());
        assert(ts.push(x)[0] == x);
        assert(spec_comma_quoted(ts.push(x)) == ", '"@ + x + "'"@ + Seq::<char>::empty());
        assert(spec_comma_quoted(ts) == Seq::<char>::empty());
        assert(spec_comma_quoted(ts.push(x)) =~= spec_comma_quoted(ts) + ", '"@ + x + "'"@);
    } else {
        assert(ts.push(x).drop_first() =~= ts.drop_first().push(x));
        lemma_comma_quoted_snoc(ts.drop_first(), x);
        assert(ts.push(x)[0] == ts[0]);
        assert(spec_comma_quoted(ts.push(x)) == ", '"@ + ts[0] + "'"@ + (spec_comma_quoted(
            ts.drop_first(),
        ) + ", '"@ + x + "'"@));
        assert(spec_comma_quoted(ts) == ", '"@ + ts[0] + "'"@ + spec_comma_quoted(
            ts.drop_first(),
        ));
        assert(spec_comma_quoted(ts.push(x)) =~= spec_comma_quoted(ts) + ", '"@ + x + "'"@);
    }
}

pub(crate) proof fn lemma_quoted_join_snoc(ts: Seq<Seq<char>>, x: Seq<char>)
    ensures
        ts.len() == 0 ==> spec_quoted_join(ts.push(x)) == "'"@ + x + "'"@,
        ts.len() > 0 ==> spec_quoted_join(ts.push(x)) == spec_quoted_join(ts) + ", '"@ + x
            + "'"@,
{
    if ts.len() == 0 {
        assert(ts.push(x).drop_first() =~= Seq::<Seq<char>>::empty());
        assert(spec_comma_quoted(Seq::<Seq<char>>::empty()) == Seq::<char>::empty());
        assert(ts.push(x)[0] == x);
        assert(spec_quoted_join(ts.push(x)) == "'"@ + x + "'"@ + Seq::<char>::empty());
        assert(spec_quoted_join(ts.push(x)) =~= "'"@ + x + "'"@);
    } else {
        assert(ts.push(x).drop_first() =~= ts.drop_first().push(x));
        lemma_comma_quoted_snoc(ts.drop_first(), x);
        assert(ts.push(x)[0] == ts[0]);
        assert(spec_quoted_join(ts.push(x)) == "'"@ + ts[0] + "'"@ + (spec_comma_quoted(
            ts.drop_first(),
        ) + ", '"@ + x + "'"@));
        assert(spec_quoted_join(ts) == "'"@ + ts[0] + "'"@ + spec_comma_quoted(
            ts.drop_first(),
        ));
        assert(spec_quoted_join(ts.push(x)) =~= spec_quoted_join(ts) + ", '"@ + x + "'"@);
    }
}

/// A term is its own group's designated main: it has no record, its record
/// itself owns the `FromOther` satellite list, or nothing in its alias
/// closure owns one (so the walk falls back to the term itself).
pub open spec fn spec_own_main(store: Map<Seq<char>, Seq<char>>, term: Seq<char>) -> bool {
    ||| spec_fetch(store, spec_lower(term)) is None
    ||| spec_fetch(store, spec_lower(term))->Some_0.aliases matches Some(
        AliasesView::FromOther(_),
    )
    ||| (forall|x: Seq<char>|
        #[trigger] spec_reachable(store, spec_lower(term), x) ==> !(spec_fetch(
            store,
            x,
        )->Some_0.aliases matches Some(AliasesView::FromOther(_))))
}

/// The alias-graph walk, one fetch at a time.  The caller repeatedly asks
/// for the next term to look up and hands back what the store said; the
/// walk tracks visited records, queued alias targets and the main
/// candidate, and never visits a term twice.
pub struct GroupResolver {
    karmas: Vec<Karma>,
    pending: Vec<String>,
    main: Option<String>,
    extra_main_seen: bool,
}

impl GroupResolver {
    pub closed spec fn spec_karmas(self) -> Seq<Karma> {
        self.karmas@
    }

    pub closed spec fn spec_pending(self) -> Seq<String> {
        self.pending@
    }

    pub closed spec fn spec_pending_len(self) -> nat {
        self.pending@.len()
    }

    /// The queued terms, as character sequences.
    pub closed spec fn spec_pending_terms(self) -> Seq<Seq<char>> {
        self.pending@.map_values(|s: String| s@)
    }

    pub closed spec fn spec_main(self) -> Option<Seq<char>> {
        match self.main {
            Some(ref m) => Some(m@),
            None => None,
        }
    }

    /// Whether the walk has met a second `FromOther` record after a main
    /// candidate was already set — the two-mains data corruption.
    pub closed spec fn spec_extra_main_seen(self) -> bool {
        self.extra_main_seen
    }

    /// All queued terms are canonical.
    pub closed spec fn spec_pending_is_canonical(self) -> bool {
        forall|i: int|
            0 <= i < self.pending@.len() ==> (#[trigger] self.pending@[i])@ == spec_lower(
                self.pending@[i]@,
            )
    }

    /// Walk well-formedness: visited records are well-formed and pairwise
    /// distinct by term, queued terms are canonical; the main candidate, if
    /// set, is the first visited record that owns a `FromOther` list, and
    /// no visited record owns one before a candidate is set.
    pub closed spec fn wf(self) -> bool {
        &&& self.spec_pending_is_canonical()
        &&& forall|i: int| 0 <= i < self.karmas@.len() ==> (#[trigger] self.karmas@[i])@.wf()
        &&& forall|i: int, j: int|
            0 <= i < j < self.karmas@.len() ==> (#[trigger] self.karmas@[i])@.term
                != (#[trigger] self.karmas@[j])@.term
        &&& (match self.main {
            Some(ref m) => exists|i: int|
                0 <= i < self.karmas@.len() && (#[trigger] self.karmas@[i])@.term == m@ && (
                self.karmas@[i]@.aliases matches Some(AliasesView::FromOther(_))) && (forall|
                    j: int,
                |
                    0 <= j < i ==> !((#[trigger] self.karmas@[j])@.aliases matches Some(
                        AliasesView::FromOther(_),
                    ))),
            None => forall|i: int|
                0 <= i < self.karmas@.len() ==> !((#[trigger] self.karmas@[i])@.aliases
                    matches Some(AliasesView::FromOther(_))),
        })
    }

    /// Whether some visited record has the given canonical term.
    pub open spec fn spec_visited(self, term: Seq<char>) -> bool {
        exists|i: int|
            0 <= i < self.spec_karmas().len() && (#[trigger] self.spec_karmas()[i])@.term == term
    }

    /// A walk about to start from a term.
    pub fn new(term: &str) -> (r: GroupResolver)
        ensures
            r.wf(),
            r.spec_karmas() == Seq::<Karma>::empty(),
            r.spec_pending_len() == 1,
            r.spec_pending()[0]@ == spec_lower(term@),
            r.spec_pending_terms() == seq![spec_lower(term@)],
            r.spec_main() is None,
            !r.spec_extra_main_seen(),
    {
        let mut pending = Vec::new();
        pending.push(canonicalize_term(term));
        proof {
            crate::text::lemma_lower_idempotent(term@);
        }
        let r = GroupResolver { karmas: Vec::new(), pending, main: None, extra_main_seen: false };
        proof {
            assert(r.spec_pending_terms() =~= seq![spec_lower(term@)]);
        }
        r
    }

    pub fn has_records(&self) -> (r: bool)
        ensures
            r == (self.spec_karmas().len() > 0),
    {
        self.karmas.len() > 0
    }

    /// Whether the walk met more than one `FromOther` record: the two-mains
    /// corruption of spec'd alias data, kept for the driver to report.
    pub fn found_extra_main(&self) -> (r: bool)
        ensures
            r == self.spec_extra_main_seen(),
    {
        self.extra_main_seen
    }

    /// Whether the walk visited several records but none owned a satellite
    /// list: the no-main corruption, kept for the driver to report.
    pub fn missing_main(&self) -> (r: bool)
        ensures
            r == (self.spec_main() is None && self.spec_karmas().len() > 1),
    {
        self.main.is_none() && self.karmas.len() > 1
    }

    fn visited(&self, term: &String) -> (r: bool)
        ensures
            r == self.spec_visited(term@),
    {
        let mut i: usize = 0;
        while i < self.karmas.len()
            invariant
                i <= self.karmas@.len(),
                forall|t: int| 0 <= t < i ==> (#[trigger] self.karmas@[t])@.term != term@,
            decreases self.karmas@.len() - i,
        {
            if self.karmas[i].term.eq(term) {
                return true;
            }
            i = i + 1;
        }
        proof {
            if self.spec_visited(term@) {
                let t = choose|t: int|
                    0 <= t < self.karmas@.len() && (#[trigger] self.karmas@[t])@.term == term@;
                assert(false);
            }
        }
        false
    }

    /// The next term to look up: queued terms are popped until one appears
    /// that has not been visited.  `None` once the queue is exhausted.  A
    /// queued term never vanishes: it is either still queued afterwards,
    /// already visited, or the term handed out.
    pub fn next_term(&mut self) -> (r: Option<String>)
        requires
            old(self).wf(),
        ensures
            final(self).wf(),
            final(self).spec_karmas() == old(self).spec_karmas(),
            final(self).spec_main() == old(self).spec_main(),
            final(self).spec_extra_main_seen() == old(self).spec_extra_main_seen(),
            forall|x: Seq<char>|
                #[trigger] final(self).spec_pending_terms().contains(x) ==> old(self).spec_pending_terms().contains(x),
            match r {
                Some(t) => {
                    &&& t@ == spec_lower(t@)
                    &&& !final(self).spec_visited(t@)
                    &&& final(self).spec_pending_len() < old(self).spec_pending_len()
                    &&& old(self).spec_pending_terms().contains(t@)
                    &&& (forall|x: Seq<char>|
                        #[trigger] old(self).spec_pending_terms().contains(x) ==> final(self).spec_pending_terms().contains(x) || final(self).spec_visited(x) || x
                            == t@)
                    &&& (old(self).spec_karmas().len() == 0 ==> old(self).spec_pending_len() > 0
                        && t@ == old(self).spec_pending().last()@)
                },
                None => {
                    &&& final(self).spec_pending_len() == 0
                    &&& (forall|x: Seq<char>|
                        #[trigger] old(self).spec_pending_terms().contains(x) ==> final(self).spec_visited(x))
                    &&& (old(self).spec_karmas().len() == 0 ==> old(self).spec_pending_len()
                        == 0)
                },
            },
    {
        proof {
            assert(self.pending@ =~= old(self).pending@.take(self.pending@.len() as int));
        }
        loop
            invariant
                self.wf(),
                self.karmas@ == old(self).karmas@,
                self.main == old(self).main,
                self.extra_main_seen == old(self).extra_main_seen,
                self.pending@.len() <= old(self).pending@.len(),
                self.pending@ == old(self).pending@.take(self.pending@.len() as int),
                forall|i: int|
                    self.pending@.len() <= i < old(self).pending@.len() ==> old(self).spec_visited((#[trigger] old(self).pending@[i])@),
            decreases self.pending@.len(),
        {
            let ghost cur = self.pending@.len() as int;
            let popped = self.pending.pop();
            match popped {
                None => {
                    proof {
                        assert(cur == 0);
                        assert forall|x: Seq<char>| #[trigger]
                            old(self).spec_pending_terms().contains(x) implies self.spec_visited(
                            x,
                        ) by {
                            let i = choose|i: int|
                                0 <= i < old(self).spec_pending_terms().len() && old(self).spec_pending_terms()[i] == x;
                            assert(old(self).spec_visited(old(self).pending@[i]@));
                        }
                    }
                    return None;
                },
                Some(t) => {
                    proof {
                        assert(old(self).pending@.take(cur).last() == old(self).pending@[cur
                            - 1]);
                        assert(t == old(self).pending@[cur - 1]);
                        assert(self.pending@ =~= old(self).pending@.take(cur - 1));
                    }
                    if !self.visited(&t) {
                        proof {
                            assert(old(self).spec_pending_terms()[cur - 1] == t@);
                            assert(old(self).spec_pending_terms().contains(t@));
                            assert forall|x: Seq<char>| #[trigger]
                                old(self).spec_pending_terms().contains(
                                x,
                            ) implies self.spec_pending_terms().contains(x) || self.spec_visited(
                                x,
                            ) || x == t@ by {
                                let i = choose|i: int|
                                    0 <= i < old(self).spec_pending_terms().len() && old(self).spec_pending_terms()[i] == x;
                                if i < cur - 1 {
                                    assert(self.pending@[i] == old(self).pending@[i]);
                                    assert(self.spec_pending_terms()[i] == x);
                                    assert(self.spec_pending_terms().contains(x));
                                } else if i >= cur {
                                    assert(old(self).spec_visited(old(self).pending@[i]@));
                                }
                            }
                            assert forall|x: Seq<char>| #[trigger]
                                self.spec_pending_terms().contains(x) implies old(self).spec_pending_terms().contains(x) by {
                                let i = choose|i: int|
                                    0 <= i < self.spec_pending_terms().len()
                                        && self.spec_pending_terms()[i] == x;
                                assert(old(self).spec_pending_terms()[i] == x);
                            }
                            if old(self).karmas@.len() == 0 {
                                if cur < old(self).pending@.len() {
                                    assert(old(self).spec_visited(old(self).pending@[cur]@));
                                }
                                assert(cur == old(self).pending@.len());
                            }
                        }
                        return Some(t);
                    }
                },
            }
        }
    }

    /// Takes in the record fetched for a term: its alias targets are queued
    /// for the walk, it becomes the main candidate when it owns a
    /// `FromOther` list and no candidate is set yet, and it is marked
    /// visited.
    pub fn absorb(&mut self, karma: Karma)
        requires
            old(self).wf(),
            karma@.wf(),
            !old(self).spec_visited(karma@.term),
        ensures
            final(self).wf(),
            final(self).spec_karmas() == old(self).spec_karmas().push(karma),
            final(self).spec_pending_terms() == old(self).spec_pending_terms()
                + spec_record_targets(karma@),
            final(self).spec_extra_main_seen() == (old(self).spec_extra_main_seen() || (old(
                self,
            ).spec_main() is Some && karma@.aliases matches Some(AliasesView::FromOther(_)))),
            final(self).spec_main() == (match old(self).spec_main() {
                Some(m) => Some(m),
                None => if karma@.aliases matches Some(AliasesView::FromOther(_)) {
                    Some(karma@.term)
                } else {
                    None
                },
            }),
    {
        match &karma.aliases {
            None => {
                proof {
                    assert(self.spec_pending_terms() =~= old(self).spec_pending_terms()
                        + spec_record_targets(karma@));
                }
            },
            Some(Aliases::To(alias_to)) => {
                let target = canonicalize_term(alias_to.as_str());
                proof {
                    crate::text::lemma_lower_idempotent(alias_to@);
                }
                self.pending.push(target);
                proof {
                    assert(self.spec_pending_terms() =~= old(self).spec_pending_terms()
                        + spec_record_targets(karma@));
                }
            },
            Some(Aliases::FromOther(list)) => {
                let mut i: usize = 0;
                while i < list.len()
                    invariant
                        i <= list@.len(),
                        self.spec_pending_is_canonical(),
                        self.karmas@ == old(self).karmas@,
                        self.main == old(self).main,
                        self.extra_main_seen == old(self).extra_main_seen,
                        self.spec_pending_terms() == old(self).spec_pending_terms()
                            + spec_lower_all(list.deep_view()).take(i as int),
                    decreases list@.len() - i,
                {
                    let target = canonicalize_term(list[i].as_str());
                    proof {
                        crate::text::lemma_lower_idempotent(list@[i as int]@);
                    }
                    let ghost prev = self.spec_pending_terms();
                    self.pending.push(target);
                    proof {
                        assert(self.spec_pending_terms() =~= prev.push(target@));
                        assert(spec_lower_all(list.deep_view()).take(i + 1) =~= spec_lower_all(
                            list.deep_view(),
                        ).take(i as int).push(target@));
                        assert(prev.push(target@) =~= old(self).spec_pending_terms()
                            + spec_lower_all(list.deep_view()).take(i + 1));
                    }
                    i = i + 1;
                }
                proof {
                    assert(spec_lower_all(list.deep_view()).take(list@.len() as int)
                        =~= spec_record_targets(karma@));
                }
                if self.main.is_none() {
                    self.main = Some(karma.term.clone());
                } else {
                    self.extra_main_seen = true;
                }
            },
        }
        self.karmas.push(karma);
        proof {
            let pre = old(self).karmas@;
            assert(forall|i: int| 0 <= i < pre.len() ==> #[trigger] self.karmas@[i] == pre[i]);
            assert(self.karmas@[self.karmas@.len() - 1] == karma);
            assert forall|i: int| 0 <= i < pre.len() implies (#[trigger] self.karmas@[i])@.term
                != karma@.term by {
                if pre[i]@.term == karma@.term {
                    assert(old(self).spec_visited(karma@.term));
                }
            }
            if let Some(ref m) = old(self).main {
                let w = choose|i: int|
                    0 <= i < pre.len() && (#[trigger] pre[i])@.term == m@ && (pre[i]@.aliases
                        matches Some(AliasesView::FromOther(_))) && (forall|j: int|
                        0 <= j < i ==> !((#[trigger] pre[j])@.aliases matches Some(
                            AliasesView::FromOther(_),
                        )));
                assert(self.karmas@[w]@.term == m@);
                assert(forall|j: int|
                    0 <= j < w ==> !((#[trigger] self.karmas@[j])@.aliases matches Some(
                        AliasesView::FromOther(_),
                    )));
            }
        }
    }

    /// Closes the walk into a group.  When no visited record owned a
    /// `FromOther` list the start term itself is taken as the main.
    pub fn finish(self, start: &str) -> (r: KarmaGroup)
        requires
            self.wf(),
            self.spec_karmas().len() >= 1,
            self.spec_karmas()[0]@.term == spec_lower(start@),
        ensures
            r.wf(),
            r.karmas@ == self.spec_karmas(),
            match self.spec_main() {
                Some(m) => r.main@ == m && (exists|i: int|
                    0 <= i < r.karmas@.len() && (#[trigger] r.karmas@[i])@.term == m && (
                    r.karmas@[i]@.aliases matches Some(AliasesView::FromOther(_))) && (forall|
                        j: int,
                    |
                        0 <= j < i ==> !((#[trigger] r.karmas@[j])@.aliases matches Some(
                            AliasesView::FromOther(_),
                        )))),
                None => r.main@ == spec_lower(start@) && (forall|i: int|
                    0 <= i < r.karmas@.len() ==> !((#[trigger] r.karmas@[i])@.aliases
                        matches Some(AliasesView::FromOther(_)))),
            },
    {
        let main = match self.main {
            Some(m) => m,
            None => canonicalize_term(start),
        };
        KarmaGroup { karmas: self.karmas, main }
    }
}

pub(crate) proof fn lemma_store_key_injective(a: Seq<char>, b: Seq<char>)
    requires
        spec_store_key(a) == spec_store_key(b),
    ensures
        spec_lower(a) == spec_lower(b),
{
    let p = "dazeus_karma."@;
    let la = spec_lower(a);
    let lb = spec_lower(b);
    assert((p + la).len() == (p + lb).len());
    assert forall|t: int| 0 <= t < la.len() implies la[t] == lb[t] by {
        assert((p + la)[p.len() + t] == la[t]);
        assert((p + lb)[p.len() + t] == lb[t]);
    }
    assert(la =~= lb);
}

/// Distinct canonical terms occupy distinct store keys, so a walk can never
/// visit more records than the store holds.
proof fn lemma_visited_bound(ks: Seq<Karma>, store: Map<Seq<char>, Seq<char>>)
    requires
        store.dom().finite(),
        forall|i: int| 0 <= i < ks.len() ==> (#[trigger] ks[i])@.wf(),
        forall|i: int, j: int|
            0 <= i < j < ks.len() ==> (#[trigger] ks[i])@.term != (#[trigger] ks[j])@.term,
        forall|i: int|
            0 <= i < ks.len() ==> store.dom().contains(spec_store_key((#[trigger] ks[i])@.term)),
    ensures
        ks.len() <= store.dom().len(),
{
    let keys = Seq::new(ks.len(), |i: int| spec_store_key(ks[i]@.term));
    assert forall|i: int, j: int|
        0 <= i < keys.len() && 0 <= j < keys.len() && i != j implies keys[i] != keys[j] by {
        if keys[i] == keys[j] {
            lemma_store_key_injective(ks[i]@.term, ks[j]@.term);
            assert(ks[i]@.term == ks[j]@.term);
        }
    }
    assert(keys.no_duplicates());
    keys.unique_seq_to_set();
    assert forall|x: Seq<char>| keys.to_set().contains(x) implies store.dom().contains(x) by {
        let i = choose|i: int| 0 <= i < keys.len() && keys[i] == x;
        assert(store.dom().contains(spec_store_key(ks[i]@.term)));
    }
    assert(keys.to_set().subset_of(store.dom()));
    vstd::set_lib::lemma_len_subset(keys.to_set(), store.dom());
}

/// One absorbing step of the walk keeps its invariants: the record taken
/// in is reachable, its queued targets stay covered, and every queued
/// fetchable term stays reachable.
proof fn lemma_resolve_step(
    store: Map<Seq<char>, Seq<char>>,
    start: Seq<char>,
    pre: GroupResolver,
    mid: GroupResolver,
    post: GroupResolver,
    t: Seq<char>,
    k: Karma,
)
    requires
        spec_fetch(store, t) == Some(k@),
        k@.term == t,
        // what next_term guaranteed, from pre to mid
        mid.spec_karmas() == pre.spec_karmas(),
        pre.spec_pending_terms().contains(t),
        forall|x: Seq<char>|
            #[trigger] mid.spec_pending_terms().contains(x) ==> pre.spec_pending_terms()
                .contains(x),
        forall|x: Seq<char>|
            #[trigger] pre.spec_pending_terms().contains(x) ==> mid.spec_pending_terms()
                .contains(x) || mid.spec_visited(x) || x == t,
        // what absorb guaranteed, from mid to post
        post.spec_karmas() == mid.spec_karmas().push(k),
        post.spec_pending_terms() == mid.spec_pending_terms() + spec_record_targets(k@),
        // the invariants as they held before the step
        forall|i: int|
            0 <= i < pre.spec_karmas().len() ==> spec_reachable(
                store,
                start,
                (#[trigger] pre.spec_karmas()[i])@.term,
            ),
        forall|x: Seq<char>|
            #[trigger] pre.spec_pending_terms().contains(x) && spec_fetch(store, x) is Some
                ==> spec_reachable(store, start, x),
        forall|i: int, x: Seq<char>|
            0 <= i < pre.spec_karmas().len() && #[trigger] spec_fetch_targets(
                store,
                pre.spec_karmas()[i]@.term,
            ).contains(x) ==> pre.spec_visited(x) || pre.spec_pending_terms().contains(x)
                || spec_fetch(store, x) is None,
    ensures
        forall|i: int|
            0 <= i < post.spec_karmas().len() ==> spec_reachable(
                store,
                start,
                (#[trigger] post.spec_karmas()[i])@.term,
            ),
        forall|x: Seq<char>|
            #[trigger] post.spec_pending_terms().contains(x) && spec_fetch(store, x) is Some
                ==> spec_reachable(store, start, x),
        forall|i: int, x: Seq<char>|
            0 <= i < post.spec_karmas().len() && #[trigger] spec_fetch_targets(
                store,
                post.spec_karmas()[i]@.term,
            ).contains(x) ==> post.spec_visited(x) || post.spec_pending_terms().contains(x)
                || spec_fetch(store, x) is None,
{
    let n = pre.spec_karmas().len() as int;
    assert(spec_reachable(store, start, t));
    assert(post.spec_karmas()[n] == k);
    assert(forall|i: int| 0 <= i < n ==> #[trigger] post.spec_karmas()[i] == pre.spec_karmas()[i]);
    assert(post.spec_visited(t)) by {
        assert(post.spec_karmas()[n]@.term == t);
    }
    // members stay reachable; the new one is the term just fetched
    assert forall|i: int| 0 <= i < post.spec_karmas().len() implies spec_reachable(
        store,
        start,
        (#[trigger] post.spec_karmas()[i])@.term,
    ) by {
        if i < n {
            assert(spec_reachable(store, start, pre.spec_karmas()[i]@.term));
        } else {
            assert(post.spec_karmas()[i]@.term == t);
        }
    }
    // queued fetchable terms stay reachable: old ones by inheritance, the
    // new ones are targets of the record just taken in
    assert forall|x: Seq<char>|
        #[trigger] post.spec_pending_terms().contains(x) && spec_fetch(store, x)
            is Some implies spec_reachable(store, start, x) by {
        let pi = choose|pi: int|
            0 <= pi < post.spec_pending_terms().len() && post.spec_pending_terms()[pi] == x;
        if pi < mid.spec_pending_terms().len() {
            assert(mid.spec_pending_terms()[pi] == x);
            assert(mid.spec_pending_terms().contains(x));
            assert(pre.spec_pending_terms().contains(x));
        } else {
            let off = pi - mid.spec_pending_terms().len();
            assert(spec_record_targets(k@)[off] == x);
            assert(spec_record_targets(k@).contains(x));
            assert(spec_fetch_targets(store, t).contains(x));
            lemma_reachable_step(store, start, t, x);
        }
    }
    // coverage: targets of old members were covered before and stay so;
    // targets of the new member sit at the end of the queue
    assert forall|i: int, x: Seq<char>|
        0 <= i < post.spec_karmas().len() && #[trigger] spec_fetch_targets(
            store,
            post.spec_karmas()[i]@.term,
        ).contains(x) implies post.spec_visited(x) || post.spec_pending_terms().contains(x)
        || spec_fetch(store, x) is None by {
        if i < n {
            assert(spec_fetch_targets(store, pre.spec_karmas()[i]@.term).contains(x));
            assert(pre.spec_visited(x) || pre.spec_pending_terms().contains(x) || spec_fetch(
                store,
                x,
            ) is None);
            if pre.spec_visited(x) {
                let w = choose|w: int|
                    0 <= w < pre.spec_karmas().len() && (#[trigger] pre.spec_karmas()[w])@.term
                        == x;
                assert(post.spec_karmas()[w]@.term == x);
                assert(post.spec_visited(x));
            } else if pre.spec_pending_terms().contains(x) {
                if mid.spec_pending_terms().contains(x) {
                    let mi = choose|mi: int|
                        0 <= mi < mid.spec_pending_terms().len()
                            && mid.spec_pending_terms()[mi] == x;
                    assert(post.spec_pending_terms()[mi] == x);
                    assert(post.spec_pending_terms().contains(x));
                } else if mid.spec_visited(x) {
                    let w = choose|w: int|
                        0 <= w < mid.spec_karmas().len() && (#[trigger] mid.spec_karmas()[w])@
                            .term == x;
                    assert(post.spec_karmas()[w]@.term == x);
                    assert(post.spec_visited(x));
                } else {
                    assert(x == t);
                    assert(post.spec_visited(x));
                }
            }
        } else {
            assert(post.spec_karmas()[i]@.term == t);
            assert(spec_fetch_targets(store, t).contains(x));
            assert(spec_record_targets(k@).contains(x));
            let off = choose|off: int|
                0 <= off < spec_record_targets(k@).len() && spec_record_targets(k@)[off] == x;
            assert(post.spec_pending_terms()[mid.spec_pending_terms().len() + off] == x);
            assert(post.spec_pending_terms().contains(x));
        }
    }
}

/// What a successful resolution from `term` guarantees: the first record of
/// the group is the one fetched for the canonical start term; every record
/// is exactly what the store holds for its term; every record is reachable
/// from the start term along alias links, and every fetchable alias target
/// of a record is itself in the group — the group is the alias closure of
/// the start term.  The main is the first record in visit order that owns a
/// `FromOther` list, or the start term itself when none does.
pub open spec fn spec_resolved(
    store: Map<Seq<char>, Seq<char>>,
    term: Seq<char>,
    g: KarmaGroup,
) -> bool {
    &&& g.karmas@.len() >= 1
    &&& spec_fetch(store, spec_lower(term)) == Some(g.karmas@[0]@)
    &&& g.karmas@[0]@.term == spec_lower(term)
    &&& forall|i: int|
        0 <= i < g.karmas@.len() ==> spec_fetch(store, (#[trigger] g.karmas@[i])@.term) == Some(
            g.karmas@[i]@,
        )
    &&& forall|i: int|
        0 <= i < g.karmas@.len() ==> spec_reachable(
            store,
            spec_lower(term),
            (#[trigger] g.karmas@[i])@.term,
        )
    &&& forall|i: int, x: Seq<char>|
        0 <= i < g.karmas@.len() && #[trigger] spec_fetch_targets(
            store,
            g.karmas@[i]@.term,
        ).contains(x) && spec_fetch(store, x) is Some ==> g.spec_contains_term(x)
    &&& ((exists|i: int|
        0 <= i < g.karmas@.len() && (#[trigger] g.karmas@[i])@.aliases matches Some(
            AliasesView::FromOther(_),
        )) ==> (exists|i: int|
        0 <= i < g.karmas@.len() && (#[trigger] g.karmas@[i])@.term == g.main@ && (
        g.karmas@[i]@.aliases matches Some(AliasesView::FromOther(_))) && (forall|j: int|
            0 <= j < i ==> !((#[trigger] g.karmas@[j])@.aliases matches Some(
                AliasesView::FromOther(_),
            )))))
    &&& (!(exists|i: int|
        0 <= i < g.karmas@.len() && (#[trigger] g.karmas@[i])@.aliases matches Some(
            AliasesView::FromOther(_),
        )) ==> g.main@ == spec_lower(term))
}

/// A resolved group is a singleton exactly when its start term stands
/// alone: no fetchable alias target of the start record leads anywhere
/// else.
pub proof fn lemma_resolved_singleton(
    store: Map<Seq<char>, Seq<char>>,
    term: Seq<char>,
    g: KarmaGroup,
)
    requires
        g.wf(),
        spec_resolved(store, term, g),
    ensures
        (g.karmas@.len() == 1) <==> spec_lone(store, term),
{
    let s = spec_lower(term);
    assert(g.karmas@[0]@.term == s);
    if g.karmas@.len() == 1 {
        assert forall|x: Seq<char>|
            #[trigger] spec_fetch_targets(store, s).contains(x) && spec_fetch(store, x)
                is Some implies x == s by {
            assert(spec_fetch_targets(store, g.karmas@[0]@.term).contains(x));
            assert(g.spec_contains_term(x));
            let w = choose|w: int|
                0 <= w < g.karmas@.len() && (#[trigger] g.karmas@[w])@.term == x;
            assert(w == 0);
        }
        assert(spec_lone(store, term));
    }
    if spec_lone(store, term) {
        assert(spec_fetch(store, s) is Some);
        assert forall|i: int| 0 <= i < g.karmas@.len() implies (#[trigger] g.karmas@[i])@.term
            == s by {
            assert(spec_reachable(store, s, g.karmas@[i]@.term));
            let path = choose|path: Seq<Seq<char>>|
                spec_alias_path(store, path) && path[0] == s && path.last() == g.karmas@[i]@
                    .term;
            lemma_lone_path(store, s, path, path.len() - 1);
        }
        if g.karmas@.len() > 1 {
            assert(g.karmas@[0]@.term == s && g.karmas@[1]@.term == s);
            assert(false);
        }
    }
}

/// Every node of an alias path out of a resolved group's start term is a
/// member of the group: the group is closed under its own alias links.
proof fn lemma_resolved_path_members(
    store: Map<Seq<char>, Seq<char>>,
    term: Seq<char>,
    g: KarmaGroup,
    path: Seq<Seq<char>>,
    n: int,
)
    requires
        g.wf(),
        spec_resolved(store, term, g),
        spec_alias_path(store, path),
        path[0] == spec_lower(term),
        0 <= n < path.len(),
    ensures
        g.spec_contains_term(path[n]),
    decreases n,
{
    if n == 0 {
        assert(g.karmas@[0]@.term == spec_lower(term));
    } else {
        lemma_resolved_path_members(store, term, g, path, n - 1);
        let w = choose|w: int|
            0 <= w < g.karmas@.len() && (#[trigger] g.karmas@[w])@.term == path[n - 1];
        let j = n - 1;
        assert(spec_fetch_targets(store, path[j]).contains(path[j + 1]));
        assert(spec_fetch_targets(store, g.karmas@[w]@.term).contains(path[n]));
        assert(spec_fetch(store, path[n]) is Some);
    }
}

/// Everything reachable from a resolved group's start term is a member.
pub proof fn lemma_resolved_complete(
    store: Map<Seq<char>, Seq<char>>,
    term: Seq<char>,
    g: KarmaGroup,
)
    requires
        g.wf(),
        spec_resolved(store, term, g),
    ensures
        forall|x: Seq<char>|
            #[trigger] spec_reachable(store, spec_lower(term), x) ==> g.spec_contains_term(x),
{
    assert forall|x: Seq<char>| #[trigger]
        spec_reachable(store, spec_lower(term), x) implies g.spec_contains_term(x) by {
        let path = choose|path: Seq<Seq<char>>|
            spec_alias_path(store, path) && path[0] == spec_lower(term) && path.last() == x;
        lemma_resolved_path_members(store, term, g, path, path.len() - 1);
    }
}

/// A resolved group's main is the start term itself exactly when the start
/// term is its own group's designated main.
pub proof fn lemma_resolved_own_main(
    store: Map<Seq<char>, Seq<char>>,
    term: Seq<char>,
    g: KarmaGroup,
)
    requires
        g.wf(),
        spec_resolved(store, term, g),
    ensures
        (g.main@ == spec_lower(term)) <==> spec_own_main(store, term),
{
    let s = spec_lower(term);
    let start = g.karmas@[0]@;
    assert(start.term == s);
    assert(spec_fetch(store, s) == Some(start));
    if exists|i: int|
        0 <= i < g.karmas@.len() && (#[trigger] g.karmas@[i])@.aliases matches Some(
            AliasesView::FromOther(_),
        ) {
        let w = choose|i: int|
            0 <= i < g.karmas@.len() && (#[trigger] g.karmas@[i])@.term == g.main@ && (
            g.karmas@[i]@.aliases matches Some(AliasesView::FromOther(_))) && (forall|j: int|
                0 <= j < i ==> !((#[trigger] g.karmas@[j])@.aliases matches Some(
                    AliasesView::FromOther(_),
                )));
        if g.main@ == s {
            // the first FromOther member carries the start term, so it is
            // the start record itself
            assert(w == 0) by {
                if w > 0 {
                    assert(g.karmas@[0]@.term != g.karmas@[w]@.term);
                }
            }
            assert(start.aliases matches Some(AliasesView::FromOther(_)));
            assert(spec_own_main(store, term));
        }
        if spec_own_main(store, term) {
            if start.aliases matches Some(AliasesView::FromOther(_)) {
                assert(w == 0) by {
                    if w > 0 {
                        assert(!((#[trigger] g.karmas@[0])@.aliases matches Some(
                            AliasesView::FromOther(_),
                        )));
                    }
                }
                assert(g.main@ == s);
            } else {
                // no reachable record owns a list, yet some member does —
                // but members are reachable: contradiction
                let i = choose|i: int|
                    0 <= i < g.karmas@.len() && (#[trigger] g.karmas@[i])@.aliases matches Some(
                        AliasesView::FromOther(_),
                    );
                assert(spec_reachable(store, s, g.karmas@[i]@.term));
                assert(spec_fetch(store, g.karmas@[i]@.term) == Some(g.karmas@[i]@));
                assert(false);
            }
        }
    } else {
        assert(g.main@ == s);
        lemma_resolved_complete(store, term, g);
        assert forall|x: Seq<char>| #[trigger]
            spec_reachable(store, s, x) implies !(spec_fetch(store, x)->Some_0.aliases
            matches Some(AliasesView::FromOther(_))) by {
            assert(g.spec_contains_term(x));
            let w = choose|w: int|
                0 <= w < g.karmas@.len() && (#[trigger] g.karmas@[w])@.term == x;
            assert(spec_fetch(store, x) == Some(g.karmas@[w]@));
        }
        assert(spec_own_main(store, term));
    }
}

/// What `resolve_or_new` hands back is bigger than a singleton exactly
/// when the term does not stand alone.
pub proof fn lemma_or_new_lone(store: Map<Seq<char>, Seq<char>>, term: Seq<char>, g: KarmaGroup)
    requires
        g.wf(),
        spec_fetch(store, spec_lower(term)) is Some ==> spec_resolved(store, term, g),
        spec_fetch(store, spec_lower(term)) is None ==> g.karmas@.len() == 1,
    ensures
        (g.karmas@.len() > 1) <==> !spec_lone(store, term),
{
    if spec_fetch(store, spec_lower(term)) is Some {
        lemma_resolved_singleton(store, term, g);
    } else {
        assert(spec_lone(store, term));
    }
}

impl KarmaGroup {
    /// Walks the alias graph from a term and builds its group.  The walk
    /// starts at the canonical start term, whose record must be present —
    /// its absence is the error case; records reached through alias links
    /// that are missing or malformed are silently dropped.  Every visited
    /// record joins the group; the main is the first record met that owns a
    /// `FromOther` list, or the start term when none does.
    pub fn resolve(store: &MemStore, term: &str) -> (r: Result<KarmaGroup, KarmaError>)
        requires
            store.wf(),
        ensures
            match r {
                Ok(g) => g.wf() && spec_resolved(store@, term@, g),
                Err(_) => spec_fetch(store@, spec_lower(term@)) is None,
            },
    {
        let mut rsv = GroupResolver::new(term);
        proof {
            store.lemma_size();
            assert forall|x: Seq<char>|
                #[trigger] rsv.spec_pending_terms().contains(x) && spec_fetch(store@, x)
                    is Some implies spec_reachable(store@, spec_lower(term@), x) by {
                assert(x == spec_lower(term@));
                lemma_reachable_self(store@, x);
            }
        }
        loop
            invariant
                store.wf(),
                store@.dom().finite(),
                rsv.wf(),
                rsv.spec_karmas().len() == 0 ==> rsv.spec_pending_len() == 1
                    && rsv.spec_pending()[0]@ == spec_lower(term@),
                rsv.spec_karmas().len() >= 1 ==> rsv.spec_karmas()[0]@.term == spec_lower(term@)
                    && spec_fetch(store@, spec_lower(term@)) == Some(rsv.spec_karmas()[0]@),
                forall|i: int|
                    0 <= i < rsv.spec_karmas().len() ==> spec_fetch(
                        store@,
                        (#[trigger] rsv.spec_karmas()[i])@.term,
                    ) == Some(rsv.spec_karmas()[i]@),
                forall|i: int|
                    0 <= i < rsv.spec_karmas().len() ==> spec_reachable(
                        store@,
                        spec_lower(term@),
                        (#[trigger] rsv.spec_karmas()[i])@.term,
                    ),
                forall|x: Seq<char>|
                    #[trigger] rsv.spec_pending_terms().contains(x) && spec_fetch(store@, x)
                        is Some ==> spec_reachable(store@, spec_lower(term@), x),
                forall|i: int, x: Seq<char>|
                    0 <= i < rsv.spec_karmas().len() && #[trigger] spec_fetch_targets(
                        store@,
                        rsv.spec_karmas()[i]@.term,
                    ).contains(x) ==> rsv.spec_visited(x) || rsv.spec_pending_terms().contains(
                        x,
                    ) || spec_fetch(store@, x) is None,
                rsv.spec_karmas().len() <= store@.dom().len(),
            ensures
                rsv.wf(),
                rsv.spec_karmas().len() >= 1,
                rsv.spec_karmas()[0]@.term == spec_lower(term@),
                spec_fetch(store@, spec_lower(term@)) == Some(rsv.spec_karmas()[0]@),
                forall|i: int|
                    0 <= i < rsv.spec_karmas().len() ==> spec_fetch(
                        store@,
                        (#[trigger] rsv.spec_karmas()[i])@.term,
                    ) == Some(rsv.spec_karmas()[i]@),
                forall|i: int|
                    0 <= i < rsv.spec_karmas().len() ==> spec_reachable(
                        store@,
                        spec_lower(term@),
                        (#[trigger] rsv.spec_karmas()[i])@.term,
                    ),
                forall|i: int, x: Seq<char>|
                    0 <= i < rsv.spec_karmas().len() && #[trigger] spec_fetch_targets(
                        store@,
                        rsv.spec_karmas()[i]@.term,
                    ).contains(x) && spec_fetch(store@, x) is Some ==> rsv.spec_visited(x),
            decreases store@.dom().len() - rsv.spec_karmas().len(), rsv.spec_pending_len(),
        {
            let ghost pre = rsv;
            match rsv.next_term() {
                None => {
                    proof {
                        assert forall|i: int, x: Seq<char>|
                            0 <= i < rsv.spec_karmas().len() && #[trigger] spec_fetch_targets(
                                store@,
                                rsv.spec_karmas()[i]@.term,
                            ).contains(x) && spec_fetch(store@, x) is Some implies rsv
                            .spec_visited(x) by {
                            assert(pre.spec_visited(x) || pre.spec_pending_terms().contains(x)
                                || spec_fetch(store@, x) is None);
                        }
                    }
                    break ;
                },
                Some(t) => {
                    let ghost mid = rsv;
                    match fetch_karma(store, t.as_str()) {
                        Some(k) => {
                            proof {
                                assert(k@.term == spec_lower(t@));
                                assert(spec_lower(t@) == t@);
                            }
                            rsv.absorb(k);
                            proof {
                                lemma_visited_bound(rsv.spec_karmas(), store@);
                                lemma_resolve_step(
                                    store@,
                                    spec_lower(term@),
                                    pre,
                                    mid,
                                    rsv,
                                    t@,
                                    k,
                                );
                            }
                        },
                        None => {
                            if !rsv.has_records() {
                                proof {
                                    assert(t@ == spec_lower(term@));
                                }
                                return Err(KarmaError::new("karma term not found"));
                            }
                            proof {
                                assert forall|i: int, x: Seq<char>|
                                    0 <= i < rsv.spec_karmas().len()
                                        && #[trigger] spec_fetch_targets(
                                        store@,
                                        rsv.spec_karmas()[i]@.term,
                                    ).contains(x) implies rsv.spec_visited(x)
                                    || rsv.spec_pending_terms().contains(x) || spec_fetch(
                                    store@,
                                    x,
                                ) is None by {
                                    assert(pre.spec_visited(x)
                                        || pre.spec_pending_terms().contains(x) || spec_fetch(
                                        store@,
                                        x,
                                    ) is None);
                                    if pre.spec_pending_terms().contains(x) {
                                        assert(rsv.spec_pending_terms().contains(x)
                                            || rsv.spec_visited(x) || x == t@);
                                    }
                                }
                            }
                        },
                    }
                },
            }
        }
        let g = rsv.finish(term);
        proof {
            if exists|i: int|
                0 <= i < g.karmas@.len() && (#[trigger] g.karmas@[i])@.aliases matches Some(
                    AliasesView::FromOther(_),
                ) {
                assert(rsv.spec_main() is Some);
            }
            assert forall|i: int, x: Seq<char>|
                0 <= i < g.karmas@.len() && #[trigger] spec_fetch_targets(
                    store@,
                    g.karmas@[i]@.term,
                ).contains(x) && spec_fetch(store@, x) is Some implies g.spec_contains_term(
                x,
            ) by {
                assert(rsv.spec_visited(x));
            }
        }
        Ok(g)
    }

    /// Walks the alias graph from a term, falling back to a fresh singleton
    /// group when the term has no record at all.
    pub fn resolve_or_new(store: &MemStore, term: &str) -> (g: KarmaGroup)
        requires
            store.wf(),
        ensures
            g.wf(),
            spec_fetch(store@, spec_lower(term@)) is Some ==> spec_resolved(store@, term@, g),
            spec_fetch(store@, spec_lower(term@)) is None ==> {
                &&& g.karmas@.len() == 1
                &&& g.karmas@[0]@.term == spec_lower(term@)
                &&& g.karmas@[0]@.votes == (KarmaAmount { up: 0, down: 0 })
                &&& g.karmas@[0]@.aliases is None
                &&& g.main@ == spec_lower(term@)
            },
    {
        match Self::resolve(store, term) {
            Ok(g) => g,
            Err(_) => KarmaGroup::new(term),
        }
    }
}

} // verus!
