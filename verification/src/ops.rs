//! Structural edits to the alias graph: linking terms under a main term and
//! splitting a group back into independent records.  Both are best-effort
//! sequences of individual saves, never transactions.

use vstd::prelude::*;

use crate::codec::{lemma_codec_round_trip, spec_encode_karma};
use crate::group::{
    fetch_or_create, lemma_or_new_lone, lemma_resolved_own_main, lemma_store_key_injective,
    save_karma, spec_fetch, spec_fetch_targets, spec_lone, spec_own_main, spec_reachable,
    spec_resolved, KarmaGroup,
};
use crate::karma::{
    canonicalize_term, spec_store_key, Aliases, AliasesView, Karma, KarmaAmount, KarmaView,
};
use crate::store::MemStore;
use crate::text::{spec_lower, spec_lower_all};

verus! {

broadcast use vstd::string::group_string_axioms;

/// The outcome of an unlink request.
#[derive(Debug, Clone, PartialEq)]
pub enum UnlinkOutcome {
    /// The term stands alone: there was nothing to split.  Carries the
    /// term's canonical form.
    NotLinked(String),
    /// The group was split; every member named here is now a singleton.
    Unlinked(Vec<String>),
}

/// The records of a group with every alias link removed: same terms, same
/// display text, same votes and timestamps, no alias state.
pub open spec fn spec_unlinked(before: Seq<Karma>, after: Seq<Karma>) -> bool {
    &&& after.len() == before.len()
    &&& forall|i: int|
        0 <= i < before.len() ==> (#[trigger] after[i])@ == (KarmaView {
            aliases: None,
            ..before[i]@
        })
}

/// Clears the alias state of every record of a group, leaving each member's
/// votes and history untouched.  The group's records are returned ready to
/// be persisted; nothing is written here.
pub fn plan_unlink(group: &KarmaGroup) -> (r: Option<Vec<Karma>>)
    ensures
        match r {
            Some(v) => group.karmas@.len() > 1 && spec_unlinked(group.karmas@, v@),
            None => group.karmas@.len() <= 1,
        },
{
    if group.karmas.len() <= 1 {
        return None;
    }
    let mut out: Vec<Karma> = Vec::new();
    let mut i: usize = 0;
    while i < group.karmas.len()
        invariant
            i <= group.karmas@.len(),
            out@.len() == i,
            forall|t: int|
                0 <= t < i ==> (#[trigger] out@[t])@ == (KarmaView {
                    aliases: None,
                    ..group.karmas@[t]@
                }),
        decreases group.karmas@.len() - i,
    {
        let k = &group.karmas[i];
        let cleared = Karma {
            term: k.term.clone(),
            original_term: k.original_term.clone(),
            votes: k.votes,
            first_vote: match &k.first_vote {
                Some(s) => Some(s.clone()),
                None => None,
            },
            last_vote: match &k.last_vote {
                Some(s) => Some(s.clone()),
                None => None,
            },
            aliases: None,
        };
        out.push(cleared);
        i = i + 1;
    }
    Some(out)
}

/// What the store looks like after the first `i` members of an unlinked
/// group have been written back: each member's key is rebound, in order, to
/// the rendering of its record in `m` with the alias state cleared.
pub open spec fn spec_unlink_writes(
    m: Map<Seq<char>, Seq<char>>,
    terms: Seq<Seq<char>>,
    i: int,
) -> Map<Seq<char>, Seq<char>>
    decreases i,
{
    if i <= 0 {
        m
    } else {
        let kv = KarmaView { aliases: None, ..spec_fetch(m, terms[i - 1])->Some_0 };
        spec_unlink_writes(m, terms, i - 1).insert(
            spec_store_key(terms[i - 1]),
            spec_encode_karma(kv),
        )
    }
}

/// Whether `key` is the storage key of one of the first `n` terms.
pub open spec fn spec_key_among(terms: Seq<Seq<char>>, n: int, key: Seq<char>) -> bool {
    exists|t: int| 0 <= t < n && key == spec_store_key(#[trigger] terms[t])
}

/// Unlinking leaves every member of the group a singleton: after the
/// writes, each member's term fetches a record equal to what it held
/// before except that its alias state is gone — votes, display text and
/// timestamps untouched — and no other key of the store changes.
#[verifier::rlimit(100)]
pub proof fn lemma_unlink_writes(m: Map<Seq<char>, Seq<char>>, terms: Seq<Seq<char>>, n: int)
    requires
        0 <= n <= terms.len(),
        forall|t: int| 0 <= t < terms.len() ==> #[trigger] terms[t] == spec_lower(terms[t]),
        forall|i: int, j: int| 0 <= i < j < terms.len() ==> terms[i] != terms[j],
        forall|t: int| 0 <= t < terms.len() ==> #[trigger] spec_fetch(m, terms[t]) is Some,
        forall|t: int|
            0 <= t < terms.len() ==> (KarmaView {
                aliases: None,
                ..(#[trigger] spec_fetch(m, terms[t]))->Some_0
            }).bounded(),
    ensures
        forall|t: int|
            0 <= t < n ==> spec_fetch(spec_unlink_writes(m, terms, n), #[trigger] terms[t])
                == Some(KarmaView { aliases: None, ..spec_fetch(m, terms[t])->Some_0 }),
        forall|key: Seq<char>|
            #![trigger spec_unlink_writes(m, terms, n).dom().contains(key)]
            !spec_key_among(terms, n, key) ==> ((spec_unlink_writes(m, terms, n).dom().contains(
                key,
            ) <==> m.dom().contains(key)) && (m.dom().contains(key) ==> spec_unlink_writes(
                m,
                terms,
                n,
            )[key] == m[key])),
    decreases n,
{
    if n > 0 {
        lemma_unlink_writes(m, terms, n - 1);
        let prev = spec_unlink_writes(m, terms, n - 1);
        let fetched = spec_fetch(m, terms[n - 1])->Some_0;
        let kv = KarmaView { aliases: None, ..fetched };
        let key = spec_store_key(terms[n - 1]);
        let w = spec_unlink_writes(m, terms, n);
        assert(w == prev.insert(key, spec_encode_karma(kv)));
        assert(fetched.wf()) by {
            crate::codec::lemma_decode_wf(m[spec_store_key(terms[n - 1])]);
        }
        assert(kv.wf());
        lemma_codec_round_trip(kv);
        assert(kv.term == terms[n - 1]);
        assert(kv.original_term == terms[n - 1]);
        assert(spec_fetch(w, terms[n - 1]) == Some(kv));
        assert forall|t: int| 0 <= t < n - 1 implies spec_fetch(w, #[trigger] terms[t]) == Some(
            KarmaView { aliases: None, ..spec_fetch(m, terms[t])->Some_0 },
        ) by {
            assert(spec_store_key(terms[t]) != key) by {
                if spec_store_key(terms[t]) == key {
                    lemma_store_key_injective(terms[t], terms[n - 1]);
                }
            }
            assert(spec_fetch(w, terms[t]) == spec_fetch(prev, terms[t]));
        }
        assert forall|k2: Seq<char>| !spec_key_among(terms, n, k2) implies ((#[trigger] w.dom()
            .contains(k2) <==> m.dom().contains(k2)) && (m.dom().contains(k2) ==> w[k2]
            == m[k2])) by {
            if k2 == key {
                assert(0 <= n - 1 < n && k2 == spec_store_key(terms[n - 1]));
                assert(spec_key_among(terms, n, k2));
            }
            assert(k2 != key);
            if spec_key_among(terms, n - 1, k2) {
                let t = choose|t: int| 0 <= t < n - 1 && k2 == spec_store_key(#[trigger] terms[t]);
                assert(0 <= t < n && k2 == spec_store_key(terms[t]));
                assert(spec_key_among(terms, n, k2));
            }
            assert(!spec_key_among(terms, n - 1, k2));
            assert(prev.dom().contains(k2) <==> m.dom().contains(k2));
            assert(m.dom().contains(k2) ==> prev[k2] == m[k2]);
            assert(w.dom().contains(k2) <==> prev.dom().contains(k2));
            assert(prev.dom().contains(k2) ==> w[k2] == prev[k2]);
        }
    }
}

/// The outcome of a link request.
#[derive(Debug, Clone, PartialEq)]
pub enum LinkOutcome {
    /// Some of the named terms already belong to a group of more than one
    /// member; nothing was changed.  Carries those terms as given.
    AlreadyLinked(Vec<String>),
    /// The link went through; carries how many terms the main term now
    /// redirects.
    Linked(usize),
}

/// The votes a term's record holds in a store, counting a missing record as
/// no votes.
pub open spec fn spec_base_votes(m: Map<Seq<char>, Seq<char>>, term: Seq<char>) -> KarmaAmount {
    match spec_fetch(m, term) {
        Some(k) => k.votes,
        None => KarmaAmount { up: 0, down: 0 },
    }
}

/// The satellite list a term's record owns in a store; empty when the
/// record is missing or is no main.
pub open spec fn spec_from_other_list(m: Map<Seq<char>, Seq<char>>, term: Seq<char>) -> Seq<
    Seq<char>,
> {
    match spec_fetch(m, term) {
        Some(k) => match k.aliases {
            Some(AliasesView::FromOther(l)) => l,
            _ => Seq::empty(),
        },
        None => Seq::empty(),
    }
}

/// What the store looks like after the first `i` of a list of records have
/// been saved, in order.
pub open spec fn spec_saves(m: Map<Seq<char>, Seq<char>>, recs: Seq<Karma>, i: int) -> Map<
    Seq<char>,
    Seq<char>,
>
    decreases i,
{
    if i <= 0 {
        m
    } else {
        spec_saves(m, recs, i - 1).insert(
            spec_store_key(recs[i - 1]@.term),
            spec_encode_karma(recs[i - 1]@),
        )
    }
}

/// Whether `key` is the storage key of one of the first `n` saved records.
pub open spec fn spec_saved_key_among(recs: Seq<Karma>, n: int, key: Seq<char>) -> bool {
    exists|t: int| 0 <= t < n && key == spec_store_key((#[trigger] recs[t])@.term)
}

/// Keys that none of the saved records occupies are left as they were.
pub(crate) proof fn lemma_saves_untouched(m: Map<Seq<char>, Seq<char>>, recs: Seq<Karma>, n: int)
    requires
        0 <= n <= recs.len(),
    ensures
        forall|key: Seq<char>|
            #![trigger spec_saves(m, recs, n).dom().contains(key)]
            !spec_saved_key_among(recs, n, key) ==> ((spec_saves(m, recs, n).dom().contains(key)
                <==> m.dom().contains(key)) && (m.dom().contains(key) ==> spec_saves(
                m,
                recs,
                n,
            )[key] == m[key])),
    decreases n,
{
    if n > 0 {
        lemma_saves_untouched(m, recs, n - 1);
        let prev = spec_saves(m, recs, n - 1);
        let w = spec_saves(m, recs, n);
        let key = spec_store_key(recs[n - 1]@.term);
        assert forall|k2: Seq<char>| !spec_saved_key_among(recs, n, k2) implies ((#[trigger] w
            .dom().contains(k2) <==> m.dom().contains(k2)) && (m.dom().contains(k2) ==> w[k2]
            == m[k2])) by {
            if k2 == key {
                assert(0 <= n - 1 < n && k2 == spec_store_key(recs[n - 1]@.term));
                assert(spec_saved_key_among(recs, n, k2));
            }
            if spec_saved_key_among(recs, n - 1, k2) {
                let t = choose|t: int|
                    0 <= t < n - 1 && k2 == spec_store_key((#[trigger] recs[t])@.term);
                assert(0 <= t < n && k2 == spec_store_key(recs[t]@.term));
                assert(spec_saved_key_among(recs, n, k2));
            }
            assert(!spec_saved_key_among(recs, n - 1, k2));
            assert(prev.dom().contains(k2) <==> m.dom().contains(k2));
            assert(m.dom().contains(k2) ==> prev[k2] == m[k2]);
        }
    }
}

/// After a run of saves with pairwise distinct terms, each saved term
/// fetches its saved record back.
pub(crate) proof fn lemma_saves_fetch(m: Map<Seq<char>, Seq<char>>, recs: Seq<Karma>, n: int)
    requires
        0 <= n <= recs.len(),
        forall|t: int| 0 <= t < recs.len() ==> (#[trigger] recs[t])@.wf(),
        forall|t: int| 0 <= t < recs.len() ==> (#[trigger] recs[t])@.bounded(),
        forall|i: int, j: int|
            0 <= i < j < recs.len() ==> (#[trigger] recs[i])@.term != (#[trigger] recs[j])@.term,
    ensures
        forall|t: int|
            0 <= t < n ==> spec_fetch(spec_saves(m, recs, n), (#[trigger] recs[t])@.term)
                == Some(KarmaView { original_term: recs[t]@.term, ..recs[t]@ }),
    decreases n,
{
    if n > 0 {
        lemma_saves_fetch(m, recs, n - 1);
        let prev = spec_saves(m, recs, n - 1);
        let w = spec_saves(m, recs, n);
        let last = recs[n - 1]@;
        let key = spec_store_key(last.term);
        assert(w == prev.insert(key, spec_encode_karma(last)));
        lemma_codec_round_trip(last);
        crate::text::lemma_lower_idempotent(last.term);
        assert(spec_fetch(w, last.term) == Some(KarmaView { original_term: last.term, ..last }));
        assert forall|t: int| 0 <= t < n - 1 implies spec_fetch(w, (#[trigger] recs[t])@.term)
            == Some(KarmaView { original_term: recs[t]@.term, ..recs[t]@ }) by {
            assert(spec_store_key(recs[t]@.term) != key) by {
                if spec_store_key(recs[t]@.term) == key {
                    lemma_store_key_injective(recs[t]@.term, last.term);
                }
            }
            assert(spec_fetch(w, recs[t]@.term) == spec_fetch(prev, recs[t]@.term));
        }
    }
}

/// A run of saves reads only the first `n` records: any two lists that
/// agree there produce the same store.
pub(crate) proof fn lemma_saves_prefix(m: Map<Seq<char>, Seq<char>>, a: Seq<Karma>, b: Seq<Karma>, n: int)
    requires
        0 <= n <= a.len(),
        n <= b.len(),
        forall|t: int| 0 <= t < n ==> #[trigger] a[t] == b[t],
    ensures
        spec_saves(m, a, n) == spec_saves(m, b, n),
    decreases n,
{
    if n > 0 {
        lemma_saves_prefix(m, a, b, n - 1);
    }
}

/// Splits the group that `term` belongs to.  Every member reverts to an
/// independent record with its own accumulated votes; a term that stands
/// alone is left as it is.
pub fn unlink_term(store: &mut MemStore, term: &str) -> (r: UnlinkOutcome)
    requires
        old(store).wf(),
    ensures
        final(store).wf(),
        match r {
            UnlinkOutcome::NotLinked(t) => {
                &&& spec_lone(old(store)@, term@)
                &&& t@ == spec_lower(term@)
                &&& final(store)@ == old(store)@
            },
            UnlinkOutcome::Unlinked(ts) => {
                &&& !spec_lone(old(store)@, term@)
                &&& ts@.len() > 1
                &&& ts.deep_view()[0] == spec_lower(term@)
                &&& (forall|t: int|
                    0 <= t < ts@.len() ==> spec_reachable(
                        old(store)@,
                        spec_lower(term@),
                        #[trigger] ts.deep_view()[t],
                    ))
                &&& (forall|t: int, x: Seq<char>|
                    0 <= t < ts@.len() && #[trigger] spec_fetch_targets(
                        old(store)@,
                        ts.deep_view()[t],
                    ).contains(x) && spec_fetch(old(store)@, x) is Some
                        ==> ts.deep_view().contains(x))
                &&& (forall|i: int, j: int|
                    0 <= i < j < ts@.len() ==> ts.deep_view()[i] != ts.deep_view()[j])
                &&& (forall|t: int|
                    0 <= t < ts@.len() ==> #[trigger] ts.deep_view()[t] == spec_lower(
                        ts.deep_view()[t],
                    ))
                &&& (forall|t: int|
                    0 <= t < ts@.len() ==> #[trigger] spec_fetch(old(store)@, ts.deep_view()[t])
                        is Some)
                &&& (forall|t: int|
                    0 <= t < ts@.len() ==> (KarmaView {
                        aliases: None,
                        ..(#[trigger] spec_fetch(old(store)@, ts.deep_view()[t]))->Some_0
                    }).bounded())
                &&& final(store)@ == spec_unlink_writes(
                    old(store)@,
                    ts.deep_view(),
                    ts@.len() as int,
                )
            },
        },
{
    let group = KarmaGroup::resolve_or_new(store, term);
    match plan_unlink(&group) {
        None => {
            proof {
                lemma_or_new_lone(store@, term@, group);
                crate::text::lemma_lower_idempotent(term@);
            }
            let t = canonicalize_term(group.karmas[0].term.as_str());
            proof {
                if spec_fetch(store@, spec_lower(term@)) is None {
                    assert(group.karmas@[0]@.term == spec_lower(term@));
                }
                crate::text::lemma_lower_idempotent(group.karmas@[0]@.term);
            }
            UnlinkOutcome::NotLinked(t)
        },
        Some(cleared) => {
            proof {
                if spec_fetch(store@, spec_lower(term@)) is None {
                    assert(group.karmas@.len() == 1);
                }
                lemma_or_new_lone(store@, term@, group);
            }
            let ghost m0 = store@;
            let ghost res = group;
            let ghost before = group.karmas@;
            let ghost gterms = before.map_values(|k: Karma| k@.term);
            let mut ts: Vec<String> = Vec::new();
            let mut i: usize = 0;
            while i < cleared.len()
                invariant
                    store.wf(),
                    i <= cleared@.len(),
                    ts@.len() == i,
                    cleared@.len() == before.len(),
                    cleared@.len() > 1,
                    gterms == before.map_values(|k: Karma| k@.term),
                    spec_unlinked(before, cleared@),
                    forall|a: int| 0 <= a < before.len() ==> (#[trigger] before[a])@.wf(),
                    forall|a: int, b: int|
                        0 <= a < b < before.len() ==> (#[trigger] before[a])@.term
                            != (#[trigger] before[b])@.term,
                    forall|a: int|
                        0 <= a < before.len() ==> spec_fetch(
                            m0,
                            (#[trigger] before[a])@.term,
                        ) == Some(before[a]@),
                    res.karmas@ == before,
                    res.wf() && spec_resolved(m0, term@, res),
                    !spec_lone(m0, term@),
                    forall|t: int| 0 <= t < i ==> #[trigger] ts.deep_view()[t] == gterms[t],
                    forall|t: int|
                        0 <= t < i ==> (KarmaView {
                            aliases: None,
                            ..(#[trigger] before[t])@
                        }).bounded(),
                    store@ == spec_unlink_writes(m0, gterms, i as int),
                decreases cleared@.len() - i,
            {
                let k = &cleared[i];
                let t = k.term.clone();
                proof {
                    assert(cleared@[i as int]@ == (KarmaView {
                        aliases: None,
                        ..before[i as int]@
                    }));
                    assert(spec_fetch(m0, before[i as int]@.term) == Some(
                        before[i as int]@,
                    ));
                }
                save_karma(store, k);
                let ghost tsv = ts.deep_view();
                ts.push(t);
                proof {
                    let kv = cleared@[i as int]@;
                    assert(kv.term == gterms[i as int]);
                    assert(spec_fetch(m0, gterms[i as int])->Some_0 == before[
                        i as int
                    ]@);
                    assert(store@ == spec_unlink_writes(m0, gterms, i + 1));
                    assert(forall|t2: int|
                        0 <= t2 < i ==> #[trigger] ts.deep_view()[t2] == tsv[t2]);
                    assert(ts.deep_view()[i as int] == t@);
                    assert(t@ == gterms[i as int]);
                }
                i = i + 1;
            }
            proof {
                assert(ts.deep_view() =~= gterms);
                assert(ts.deep_view()[0] == before[0]@.term);
                assert forall|t: int| 0 <= t < ts@.len() implies spec_reachable(
                    m0,
                    spec_lower(term@),
                    #[trigger] ts.deep_view()[t],
                ) by {
                    assert(ts.deep_view()[t] == res.karmas@[t]@.term);
                }
                assert forall|t: int, x: Seq<char>|
                    0 <= t < ts@.len() && #[trigger] spec_fetch_targets(
                        m0,
                        ts.deep_view()[t],
                    ).contains(x) && spec_fetch(m0, x) is Some implies ts.deep_view().contains(
                    x,
                ) by {
                    assert(spec_fetch_targets(m0, res.karmas@[t]@.term).contains(x));
                    assert(res.spec_contains_term(x));
                    let w = choose|w: int|
                        0 <= w < res.karmas@.len() && (#[trigger] res.karmas@[w])@.term == x;
                    assert(ts.deep_view()[w] == x);
                }
            }
            UnlinkOutcome::Unlinked(ts)
        },
    }
}

/// The terms of a list that do not stand alone — those already linked into
/// a group of more than one member.
pub open spec fn spec_already_linked(
    m: Map<Seq<char>, Seq<char>>,
    ts: Seq<Seq<char>>,
) -> Seq<Seq<char>> {
    ts.filter(|t: Seq<char>| !spec_lone(m, t))
}

/// Some term of the list is already linked exactly when the filtered list
/// is non-empty.
proof fn lemma_already_linked_nonempty(m: Map<Seq<char>, Seq<char>>, ts: Seq<Seq<char>>)
    ensures
        (spec_already_linked(m, ts).len() > 0) <==> (exists|i: int|
            0 <= i < ts.len() && !spec_lone(m, #[trigger] ts[i])),
    decreases ts.len(),
{
    reveal(Seq::filter);
    if ts.len() > 0 {
        lemma_already_linked_nonempty(m, ts.drop_last());
        assert(forall|i: int|
            0 <= i < ts.drop_last().len() ==> #[trigger] ts.drop_last()[i] == ts[i]);
        if !spec_lone(m, ts.last()) {
            assert(!spec_lone(m, ts[ts.len() - 1]));
            assert(spec_already_linked(m, ts).len() > 0);
        } else {
            assert(spec_already_linked(m, ts) == spec_already_linked(m, ts.drop_last()));
            if exists|i: int| 0 <= i < ts.len() && !spec_lone(m, #[trigger] ts[i]) {
                let i = choose|i: int| 0 <= i < ts.len() && !spec_lone(m, #[trigger] ts[i]);
                assert(i < ts.len() - 1);
                assert(!spec_lone(m, ts.drop_last()[i]));
            }
            if exists|i: int|
                0 <= i < ts.drop_last().len() && !spec_lone(m, #[trigger] ts.drop_last()[i]) {
                let i = choose|i: int|
                    0 <= i < ts.drop_last().len() && !spec_lone(m, #[trigger] ts.drop_last()[i]);
                assert(!spec_lone(m, ts[i]));
            }
        }
    }
}

/// What a completed link guarantees of the store, relative to the store as
/// it stood before the writes: the main record carries the grown satellite
/// list with its votes untouched, each linked term (when the terms were
/// distinct and none was the main itself) redirects to the main with its
/// votes preserved, and every other key is unchanged.
pub open spec fn spec_linked(
    m0: Map<Seq<char>, Seq<char>>,
    m1: Map<Seq<char>, Seq<char>>,
    rawterms: Seq<Seq<char>>,
    main: Seq<char>,
    n: int,
) -> bool {
    let mc = spec_lower(main);
    let lterms = spec_lower_all(rawterms);
    let old_list = spec_from_other_list(m0, main);
    &&& n == old_list.len() + rawterms.len()
    &&& (spec_fetch(m1, mc) matches Some(k) && k.aliases == Some(
        AliasesView::FromOther(old_list + lterms),
    ) && k.votes == spec_base_votes(m0, main))
    &&& ((lterms.no_duplicates() && (forall|t: int|
        0 <= t < lterms.len() ==> lterms[t] != mc)) ==> (forall|t: int|
        0 <= t < lterms.len() ==> (#[trigger] spec_fetch(m1, lterms[t]) matches Some(k)
            && k.aliases == Some(AliasesView::To(mc)) && k.votes == spec_base_votes(
            m0,
            rawterms[t],
        ))))
    &&& (forall|key: Seq<char>|
        #![trigger m1.dom().contains(key)]
        (key != spec_store_key(mc) && !(exists|t: int|
            0 <= t < lterms.len() && key == spec_store_key(#[trigger] lterms[t]))) ==> ((
        m1.dom().contains(key) <==> m0.dom().contains(key)) && (m0.dom().contains(key)
            ==> m1[key] == m0[key])))
}

/// Links `terms` into the group of `main`: each term's record is made a
/// satellite pointing at the canonical main term, and the main record takes
/// them into its satellite list.  The whole request is refused when any of
/// the named terms — main included — already belongs to a group of more
/// than one member, unless the only such term is the main itself standing
/// as its group's designated main, which may absorb further satellites; a
/// main that is a satellite of another group may not.  The refusal leaves
/// the store untouched.  Saves are applied one by one, not as a
/// transaction.
pub fn link_terms(store: &mut MemStore, terms: &Vec<String>, main: &str) -> (r: LinkOutcome)
    requires
        old(store).wf(),
    ensures
        final(store).wf(),
        match r {
            LinkOutcome::AlreadyLinked(ls) => {
                &&& ((exists|i: int|
                    0 <= i < terms@.len() && !spec_lone(
                        old(store)@,
                        #[trigger] terms.deep_view()[i],
                    )) || (!spec_lone(old(store)@, main@) && !spec_own_main(
                    old(store)@,
                    main@,
                )))
                &&& ls.deep_view() == (if !spec_lone(old(store)@, main@) {
                    seq![main@]
                } else {
                    Seq::<Seq<char>>::empty()
                }) + spec_already_linked(old(store)@, terms.deep_view())
                &&& final(store)@ == old(store)@
            },
            LinkOutcome::Linked(n) => {
                &&& (forall|i: int|
                    0 <= i < terms@.len() ==> spec_lone(
                        old(store)@,
                        #[trigger] terms.deep_view()[i],
                    ))
                &&& (spec_lone(old(store)@, main@) || spec_own_main(old(store)@, main@))
                &&& spec_linked(old(store)@, final(store)@, terms.deep_view(), main@, n as int)
            },
        },
{
    // Check phase: nothing is written while any rejection is still possible.
    let ghost s0 = store@;
    let main_group = KarmaGroup::resolve_or_new(store, main);
    proof {
        crate::group::lemma_or_new_lone(s0, main@, main_group);
        if spec_fetch(s0, spec_lower(main@)) is Some {
            lemma_resolved_own_main(s0, main@, main_group);
        }
    }
    let mc_check = canonicalize_term(main);
    let main_is_own = main_group.main.eq(&mc_check);
    proof {
        assert(main_is_own == spec_own_main(s0, main@));
    }
    let mut already_linked: Vec<String> = Vec::new();
    let main_is_linked = main_group.karmas.len() > 1;
    if main_is_linked {
        already_linked.push(main.to_owned());
    }
    let ghost base: Seq<Seq<char>> = if main_is_linked {
        seq![main@]
    } else {
        Seq::<Seq<char>>::empty()
    };
    proof {
        reveal(Seq::filter);
        assert(already_linked.deep_view() =~= base + spec_already_linked(
            s0,
            terms.deep_view().take(0),
        ));
    }
    let mut ci: usize = 0;
    while ci < terms.len()
        invariant
            store.wf(),
            store@ == s0,
            ci <= terms@.len(),
            main_is_linked == !spec_lone(s0, main@),
            main_is_own == spec_own_main(s0, main@),
            base == (if main_is_linked {
                seq![main@]
            } else {
                Seq::<Seq<char>>::empty()
            }),
            already_linked.deep_view() == base + spec_already_linked(
                s0,
                terms.deep_view().take(ci as int),
            ),
        decreases terms@.len() - ci,
    {
        let g = KarmaGroup::resolve_or_new(store, &terms[ci]);
        proof {
            crate::group::lemma_or_new_lone(s0, terms.deep_view()[ci as int], g);
        }
        let ghost pre = already_linked.deep_view();
        if g.karmas.len() > 1 {
            already_linked.push(terms[ci].clone());
            proof {
                assert(already_linked.deep_view() =~= pre.push(terms.deep_view()[ci as int]));
            }
        }
        proof {
            reveal(Seq::filter);
            assert(terms.deep_view().take(ci + 1).drop_last() =~= terms.deep_view().take(
                ci as int,
            ));
            assert(terms.deep_view().take(ci + 1).last() == terms.deep_view()[ci as int]);
            assert(already_linked.deep_view() =~= base + spec_already_linked(
                s0,
                terms.deep_view().take(ci + 1),
            ));
        }
        ci = ci + 1;
    }
    proof {
        assert(terms.deep_view().take(terms.deep_view().len() as int) =~= terms.deep_view());
        lemma_already_linked_nonempty(s0, terms.deep_view());
    }
    let reject = if main_is_linked && main_is_own {
        already_linked.len() > 1
    } else {
        already_linked.len() > 0
    };
    if reject {
        return LinkOutcome::AlreadyLinked(already_linked);
    }
    let count = apply_link(store, terms, main);
    LinkOutcome::Linked(count)
}

/// The write half of a link: satellites first, the main record last.
#[verifier::rlimit(100)]
fn apply_link(store: &mut MemStore, terms: &Vec<String>, main: &str) -> (count: usize)
    requires
        old(store).wf(),
    ensures
        final(store).wf(),
        spec_linked(old(store)@, final(store)@, terms.deep_view(), main@, count as int),
{
    let ghost m0 = store@;
    let ghost lterms = spec_lower_all(terms.deep_view());
    let ghost cond = lterms.no_duplicates() && (forall|t: int|
        0 <= t < lterms.len() ==> lterms[t] != spec_lower(main@));
    let mc = canonicalize_term(main);
    let main_base = fetch_or_create(store, main);
    let Karma {
        term: mterm,
        original_term: morig,
        votes: mvotes,
        first_vote: mfirst,
        last_vote: mlast,
        aliases: maliases,
    } = main_base;
    let mut from_other: Vec<String> = match maliases {
        Some(Aliases::FromOther(l)) => l,
        _ => Vec::new(),
    };
    let ghost old_list = spec_from_other_list(m0, main@);
    proof {
        assert(from_other.deep_view() =~= old_list);
    }
    let ghost base_len = from_other@.len();
    let ghost mut recs: Seq<Karma> = Seq::empty();
    let mut i: usize = 0;
    while i < terms.len()
        invariant
            store.wf(),
            i <= terms@.len(),
            mc@ == spec_lower(main@),
            mterm@ == spec_lower(main@),
            lterms == terms.deep_view().map_values(|t: Seq<char>| spec_lower(t)),
            cond == (lterms.no_duplicates() && (forall|t: int|
                0 <= t < lterms.len() ==> lterms[t] != spec_lower(main@))),
            recs.len() == i,
            from_other@.len() == base_len + i,
            from_other.deep_view() =~= old_list + lterms.take(i as int),
            forall|t: int| 0 <= t < i ==> (#[trigger] recs[t])@.wf(),
            forall|t: int| 0 <= t < i ==> (#[trigger] recs[t])@.bounded(),
            forall|t: int| 0 <= t < i ==> (#[trigger] recs[t])@.term == lterms[t],
            forall|t: int|
                0 <= t < i ==> (#[trigger] recs[t])@.aliases == Some(
                    AliasesView::To(mc@),
                ),
            cond ==> forall|t: int|
                0 <= t < i ==> (#[trigger] recs[t])@.votes == spec_base_votes(
                    m0,
                    terms.deep_view()[t],
                ),
            store@ == spec_saves(m0, recs, i as int),
        decreases terms@.len() - i,
    {
        proof {
            if cond {
                crate::text::lemma_lower_idempotent(terms.deep_view()[i as int]);
                let k = spec_store_key(terms.deep_view()[i as int]);
                assert(k == spec_store_key(lterms[i as int]));
                lemma_saves_untouched(m0, recs, i as int);
                if spec_saved_key_among(recs, i as int, k) {
                    let t = choose|t: int|
                        0 <= t < i && k == spec_store_key((#[trigger] recs[t])@.term);
                    lemma_store_key_injective(terms.deep_view()[i as int], recs[t]@.term);
                    crate::text::lemma_lower_idempotent(terms.deep_view()[t]);
                    assert(lterms[i as int] == lterms[t]);
                    assert(false);
                }
                assert(spec_saves(m0, recs, i as int).dom().contains(k) <==> m0.dom().contains(
                    k,
                ));
                assert(m0.dom().contains(k) ==> spec_saves(m0, recs, i as int)[k] == m0[k]);
                assert(spec_fetch(store@, terms.deep_view()[i as int]) == spec_fetch(
                    m0,
                    terms.deep_view()[i as int],
                ));
            }
        }
        let fetched = fetch_or_create(store, terms[i].as_str());
        let sat = Karma {
            term: fetched.term,
            original_term: fetched.original_term,
            votes: fetched.votes,
            first_vote: fetched.first_vote,
            last_vote: fetched.last_vote,
            aliases: Some(Aliases::To(mc.clone())),
        };
        save_karma(store, &sat);
        let ghost prev_fo = from_other.deep_view();
        let ghost prev_recs = recs;
        from_other.push(sat.term.clone());
        proof {
            recs = recs.push(sat);
            lemma_saves_prefix(m0, prev_recs, recs, i as int);
            assert(recs[i as int] == sat);
            assert(store@ == spec_saves(m0, recs, i + 1));
            assert(sat@.term == lterms[i as int]);
            assert(from_other.deep_view() =~= prev_fo.push(sat.term@));
            assert(from_other.deep_view() =~= old_list + lterms.take(i + 1));
        }
        i = i + 1;
    }
    let count = from_other.len();
    let main_final = Karma {
        term: mterm,
        original_term: morig,
        votes: mvotes,
        first_vote: mfirst,
        last_vote: mlast,
        aliases: Some(Aliases::FromOther(from_other)),
    };
    save_karma(store, &main_final);
    proof {
        assert(lterms.take(terms@.len() as int) =~= lterms);
        assert(terms.deep_view().len() == terms@.len());
        lemma_link_post(
            m0,
            recs,
            terms.deep_view(),
            lterms,
            main@,
            main_final@,
            store@,
            count as int,
        );
        lemma_link_assemble(m0, store@, terms.deep_view(), lterms, main@, count as int);
    }
    count
}

/// What the link writes amount to: after the satellite saves and the final
/// main save, the main term fetches the rewritten main record, each
/// satellite term (when the terms were distinct and none was the main)
/// fetches a record pointing at the main with its votes preserved, and no
/// other key changes.
#[verifier::rlimit(100)]
proof fn lemma_link_post(
    m0: Map<Seq<char>, Seq<char>>,
    recs: Seq<Karma>,
    rawterms: Seq<Seq<char>>,
    lterms: Seq<Seq<char>>,
    mainv: Seq<char>,
    mfinal: KarmaView,
    w: Map<Seq<char>, Seq<char>>,
    n: int,
)
    requires
        lterms == spec_lower_all(rawterms),
        n == spec_from_other_list(m0, mainv).len() + rawterms.len(),
        mfinal.aliases == Some(
            AliasesView::FromOther(spec_from_other_list(m0, mainv) + spec_lower_all(rawterms)),
        ),
        mfinal.votes == spec_base_votes(m0, mainv),
        recs.len() == rawterms.len(),
        forall|t: int| 0 <= t < recs.len() ==> (#[trigger] recs[t])@.wf(),
        forall|t: int| 0 <= t < recs.len() ==> (#[trigger] recs[t])@.bounded(),
        forall|t: int| 0 <= t < recs.len() ==> (#[trigger] recs[t])@.term == lterms[t],
        forall|t: int|
            0 <= t < recs.len() ==> (#[trigger] recs[t])@.aliases == Some(
                AliasesView::To(spec_lower(mainv)),
            ),
        (lterms.no_duplicates() && (forall|t: int|
            0 <= t < lterms.len() ==> lterms[t] != spec_lower(mainv))) ==> (forall|t: int|
            0 <= t < recs.len() ==> (#[trigger] recs[t])@.votes == spec_base_votes(
                m0,
                rawterms[t],
            )),
        mfinal.wf(),
        mfinal.bounded(),
        mfinal.term == spec_lower(mainv),
        w == spec_saves(m0, recs, recs.len() as int).insert(
            spec_store_key(mfinal.term),
            spec_encode_karma(mfinal),
        ),
    ensures
        spec_fetch(w, spec_lower(mainv)) == Some(
            KarmaView { original_term: spec_lower(mainv), ..mfinal },
        ),
        (lterms.no_duplicates() && (forall|t: int|
            0 <= t < lterms.len() ==> lterms[t] != spec_lower(mainv))) ==> (forall|t: int|
            0 <= t < lterms.len() ==> (#[trigger] spec_fetch(w, lterms[t]) matches Some(k)
                && k.aliases == Some(AliasesView::To(spec_lower(mainv))) && k.votes
                == spec_base_votes(m0, rawterms[t]))),
        forall|key: Seq<char>|
            #![trigger w.dom().contains(key)]
            (key != spec_store_key(spec_lower(mainv)) && !(exists|t: int|
                0 <= t < lterms.len() && key == spec_store_key(#[trigger] lterms[t]))) ==> ((
            w.dom().contains(key) <==> m0.dom().contains(key)) && (m0.dom().contains(key)
                ==> w[key] == m0[key])),
{
    let cond = lterms.no_duplicates() && (forall|t: int|
        0 <= t < lterms.len() ==> lterms[t] != spec_lower(mainv));
    lemma_codec_round_trip(mfinal);
    crate::text::lemma_lower_idempotent(mainv);
    assert(spec_fetch(w, spec_lower(mainv)) == Some(
        KarmaView { original_term: spec_lower(mainv), ..mfinal },
    ));
    if cond {
        lemma_saves_fetch(m0, recs, recs.len() as int);
        assert forall|t: int| 0 <= t < lterms.len() implies (#[trigger] spec_fetch(w, lterms[t])
            matches Some(k) && k.aliases == Some(AliasesView::To(spec_lower(mainv))) && k.votes
            == spec_base_votes(m0, rawterms[t])) by {
            assert(spec_store_key(lterms[t]) != spec_store_key(mfinal.term)) by {
                if spec_store_key(lterms[t]) == spec_store_key(mfinal.term) {
                    lemma_store_key_injective(lterms[t], mfinal.term);
                    crate::text::lemma_lower_idempotent(rawterms[t]);
                }
            }
            assert(spec_fetch(w, lterms[t]) == spec_fetch(
                spec_saves(m0, recs, recs.len() as int),
                lterms[t],
            ));
            assert(spec_fetch(spec_saves(m0, recs, recs.len() as int), recs[t]@.term) == Some(
                KarmaView { original_term: recs[t]@.term, ..recs[t]@ },
            ));
        }
    }
    lemma_saves_untouched(m0, recs, recs.len() as int);
    assert forall|key: Seq<char>|
        (key != spec_store_key(spec_lower(mainv)) && !(exists|t: int|
            0 <= t < lterms.len() && key == spec_store_key(#[trigger] lterms[t]))) implies ((
    #[trigger] w.dom().contains(key) <==> m0.dom().contains(key)) && (m0.dom().contains(key)
        ==> w[key] == m0[key])) by {
        if spec_saved_key_among(recs, recs.len() as int, key) {
            let t = choose|t: int|
                0 <= t < recs.len() && key == spec_store_key((#[trigger] recs[t])@.term);
            assert(0 <= t < lterms.len() && key == spec_store_key(lterms[t]));
        }
        assert(!spec_saved_key_among(recs, recs.len() as int, key));
        let prev = spec_saves(m0, recs, recs.len() as int);
        assert(prev.dom().contains(key) <==> m0.dom().contains(key));
        assert(m0.dom().contains(key) ==> prev[key] == m0[key]);
    }
}

proof fn lemma_link_assemble(
    m0: Map<Seq<char>, Seq<char>>,
    w: Map<Seq<char>, Seq<char>>,
    rawterms: Seq<Seq<char>>,
    lterms: Seq<Seq<char>>,
    mainv: Seq<char>,
    n: int,
)
    requires
        lterms == spec_lower_all(rawterms),
        n == spec_from_other_list(m0, mainv).len() + rawterms.len(),
        spec_fetch(w, spec_lower(mainv)) matches Some(k) && k.aliases == Some(
            AliasesView::FromOther(spec_from_other_list(m0, mainv) + lterms),
        ) && k.votes == spec_base_votes(m0, mainv),
        (lterms.no_duplicates() && (forall|t: int|
            0 <= t < lterms.len() ==> lterms[t] != spec_lower(mainv))) ==> (forall|t: int|
            0 <= t < lterms.len() ==> (#[trigger] spec_fetch(w, lterms[t]) matches Some(k)
                && k.aliases == Some(AliasesView::To(spec_lower(mainv))) && k.votes
                == spec_base_votes(m0, rawterms[t]))),
        forall|key: Seq<char>|
            #![trigger w.dom().contains(key)]
            (key != spec_store_key(spec_lower(mainv)) && !(exists|t: int|
                0 <= t < lterms.len() && key == spec_store_key(#[trigger] lterms[t]))) ==> ((
            w.dom().contains(key) <==> m0.dom().contains(key)) && (m0.dom().contains(key)
                ==> w[key] == m0[key])),
    ensures
        spec_linked(m0, w, rawterms, mainv, n),
{
}

} // verus!