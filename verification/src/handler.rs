//! Message-level processing: collapsing the changes of one message into one
//! net change per term, applying them to the store, merging them per alias
//! group, and the texts of the replies the commands give.

use vstd::prelude::*;

use crate::group::{fetch_or_create, save_karma, spec_fetch, spec_votes_sum, KarmaGroup};
use crate::ops::spec_base_votes;
use crate::karma::{canonicalize_term, Karma, KarmaAmount, KarmaChange, KarmaChangeView,
    KarmaStyle, KarmaView, spec_store_key};
use crate::store::MemStore;
use crate::text::spec_lower;
use vstd::assert_multisets_equal;
use vstd::multiset::Multiset;

verus! {

broadcast use vstd::string::group_string_axioms;

/// The views of a list of changes.
pub open spec fn spec_views(cs: Seq<KarmaChange>) -> Seq<KarmaChangeView> {
    cs.map_values(|c: KarmaChange| c@)
}

/// The first position in `acc` holding `term`, or -1.
pub open spec fn spec_find_term(acc: Seq<KarmaChangeView>, term: Seq<char>) -> int
    decreases acc.len(),
{
    if acc.len() == 0 {
        -1
    } else if acc[0].term == term {
        0
    } else {
        let r = spec_find_term(acc.drop_first(), term);
        if r == -1 {
            -1
        } else {
            1 + r
        }
    }
}

proof fn lemma_find_term_props(acc: Seq<KarmaChangeView>, term: Seq<char>)
    ensures
        spec_find_term(acc, term) == -1 <==> (forall|t: int|
            0 <= t < acc.len() ==> (#[trigger] acc[t]).term != term),
        spec_find_term(acc, term) != -1 ==> 0 <= spec_find_term(acc, term) < acc.len()
            && acc[spec_find_term(acc, term)].term == term,
        spec_find_term(acc, term) != -1 ==> (forall|t: int|
            0 <= t < spec_find_term(acc, term) ==> (#[trigger] acc[t]).term != term),
    decreases acc.len(),
{
    if acc.len() > 0 {
        lemma_find_term_props(acc.drop_first(), term);
        assert(forall|t: int|
            0 <= t < acc.drop_first().len() ==> #[trigger] acc.drop_first()[t] == acc[t + 1]);
        if acc[0].term != term {
            let r = spec_find_term(acc.drop_first(), term);
            if r == -1 {
                assert forall|t: int| 0 <= t < acc.len() implies (#[trigger] acc[t]).term
                    != term by {
                    if t > 0 {
                        assert(acc.drop_first()[t - 1] == acc[t]);
                    }
                }
            } else {
                assert(acc.drop_first()[r] == acc[r + 1]);
                assert(acc[r + 1].term == term);
                assert forall|t: int| 0 <= t < 1 + r implies (#[trigger] acc[t]).term != term by {
                    if t > 0 {
                        assert(acc.drop_first()[t - 1] == acc[t]);
                        assert(acc.drop_first()[t - 1].term != term);
                    }
                }
            }
        }
    }
}

/// Folding one change into an aggregate: a new term is appended; a known
/// term has the votes added and the style raised to the more explicit one.
pub open spec fn spec_agg_insert(
    acc: Seq<KarmaChangeView>,
    c: KarmaChangeView,
) -> Seq<KarmaChangeView> {
    let i = spec_find_term(acc, c.term);
    if i == -1 {
        acc.push(c)
    } else {
        acc.update(
            i,
            KarmaChangeView {
                term: acc[i].term,
                votes: acc[i].votes.spec_plus(c.votes),
                style: KarmaStyle::spec_most_explicit(acc[i].style, c.style),
            },
        )
    }
}

/// The net changes of a message: one entry per distinct canonical term, in
/// order of first occurrence, with votes summed and the most explicit style
/// kept.
pub open spec fn spec_aggregate(cs: Seq<KarmaChangeView>) -> Seq<KarmaChangeView>
    decreases cs.len(),
{
    if cs.len() == 0 {
        Seq::empty()
    } else {
        let c = cs.last();
        spec_agg_insert(
            spec_aggregate(cs.drop_last()),
            KarmaChangeView { term: spec_lower(c.term), votes: c.votes, style: c.style },
        )
    }
}

/// Aggregated changes carry distinct canonical terms, and well-formed vote
/// amounts whenever the message's changes carried them.
pub proof fn lemma_aggregate_wf(cs: Seq<KarmaChangeView>)
    ensures
        forall|i: int, j: int|
            0 <= i < j < spec_aggregate(cs).len() ==> (#[trigger] spec_aggregate(cs)[i]).term
                != (#[trigger] spec_aggregate(cs)[j]).term,
        forall|i: int|
            0 <= i < spec_aggregate(cs).len() ==> (#[trigger] spec_aggregate(cs)[i]).term
                == spec_lower(spec_aggregate(cs)[i].term),
        (forall|i: int| 0 <= i < cs.len() ==> (#[trigger] cs[i]).votes.wf()) ==> (forall|i: int|
            0 <= i < spec_aggregate(cs).len() ==> (#[trigger] spec_aggregate(cs)[i]).votes.wf()),
    decreases cs.len(),
{
    if cs.len() > 0 {
        lemma_aggregate_wf(cs.drop_last());
        assert(forall|i: int|
            0 <= i < cs.drop_last().len() ==> #[trigger] cs.drop_last()[i] == cs[i]);
        let acc = spec_aggregate(cs.drop_last());
        let c = cs.last();
        let cc = KarmaChangeView { term: spec_lower(c.term), votes: c.votes, style: c.style };
        lemma_find_term_props(acc, cc.term);
        crate::text::lemma_lower_idempotent(c.term);
    }
}

fn find_change(acc: &Vec<KarmaChange>, term: &String) -> (r: Option<usize>)
    ensures
        match r {
            Some(i) => 0 <= i < acc@.len() && spec_find_term(spec_views(acc@), term@) == i,
            None => spec_find_term(spec_views(acc@), term@) == -1,
        },
{
    let mut i: usize = 0;
    while i < acc.len()
        invariant
            i <= acc@.len(),
            forall|t: int| 0 <= t < i ==> (#[trigger] acc@[t])@.term != term@,
        decreases acc@.len() - i,
    {
        if acc[i].term.eq(term) {
            proof {
                lemma_find_term_props(spec_views(acc@), term@);
                let f = spec_find_term(spec_views(acc@), term@);
                assert(spec_views(acc@)[i as int].term == term@);
                assert(f != -1);
                if f < i {
                    assert(acc@[f]@.term != term@);
                    assert(spec_views(acc@)[f].term == acc@[f]@.term);
                }
                if f > i {
                    assert(spec_views(acc@)[i as int].term != term@);
                }
            }
            return Some(i);
        }
        i = i + 1;
    }
    proof {
        lemma_find_term_props(spec_views(acc@), term@);
        let f = spec_find_term(spec_views(acc@), term@);
        if f != -1 {
            assert(spec_views(acc@)[f].term == term@);
            assert(acc@[f]@.term == term@);
        }
    }
    None
}

/// Collapses the changes of one message into one net change per distinct
/// canonical term, as `spec_aggregate` says: first-occurrence order, votes
/// summed, the most explicit style kept.
pub fn aggregate(changes: &Vec<KarmaChange>) -> (r: Vec<KarmaChange>)
    ensures
        spec_views(r@) == spec_aggregate(spec_views(changes@)),
{
    let mut out: Vec<KarmaChange> = Vec::new();
    let mut i: usize = 0;
    while i < changes.len()
        invariant
            i <= changes@.len(),
            spec_views(out@) == spec_aggregate(spec_views(changes@.take(i as int))),
        decreases changes@.len() - i,
    {
        let c = &changes[i];
        let canon = canonicalize_term(c.term.as_str());
        let ghost pre = spec_views(out@);
        let ghost cc = KarmaChangeView {
            term: spec_lower(changes@[i as int]@.term),
            votes: changes@[i as int]@.votes,
            style: changes@[i as int]@.style,
        };
        match find_change(&out, &canon) {
            Some(idx) => {
                let t2 = out[idx].term.clone();
                let v2 = out[idx].votes;
                let s2 = out[idx].style;
                out[idx] = KarmaChange {
                    term: t2,
                    votes: v2.plus(c.votes),
                    style: KarmaStyle::most_explicit(s2, c.style),
                };
                proof {
                    assert(spec_views(out@) =~= spec_agg_insert(pre, cc));
                }
            },
            None => {
                out.push(KarmaChange { term: canon, votes: c.votes, style: c.style });
                proof {
                    assert(spec_views(out@) =~= spec_agg_insert(pre, cc));
                }
            },
        }
        proof {
            assert(spec_views(changes@.take(i + 1)).drop_last() =~= spec_views(
                changes@.take(i as int),
            ));
            assert(spec_views(changes@.take(i + 1)).last() == changes@[i as int]@);
        }
        i = i + 1;
    }
    proof {
        assert(changes@.take(changes@.len() as int) =~= changes@);
    }
    out
}

/// One alias group touched by a message: the group, the signed karma the
/// message added to it as a whole, and the most explicit style any of its
/// terms was voted with.
pub struct GroupChange {
    pub group: KarmaGroup,
    pub increase: i64,
    pub style: KarmaStyle,
}

/// The signed balance of a whole group.
pub open spec fn spec_group_total(g: KarmaGroup) -> int {
    spec_votes_sum(g.karmas@).spec_total()
}

/// The entry a change of `term` lands in during the per-group merge: the
/// first returned entry whose group holds the term.
pub open spec fn spec_assigned(r: Seq<GroupChange>, term: Seq<char>, i: int) -> bool {
    &&& 0 <= i < r.len()
    &&& r[i].group.spec_contains_term(term)
    &&& forall|j: int| 0 <= j < i ==> !(#[trigger] r[j]).group.spec_contains_term(term)
}

/// Every one of the first `n` aggregated changes lands in some entry.
pub open spec fn spec_change_landed(
    agg: Seq<KarmaChangeView>,
    r: Seq<GroupChange>,
    t: int,
) -> bool {
    exists|g: int| spec_assigned(r, agg[t].term, g)
}

/// Entry `g` exists because one of the first `n` aggregated changes opened
/// it: some change is assigned to it.
pub open spec fn spec_entry_sourced(
    agg: Seq<KarmaChangeView>,
    r: Seq<GroupChange>,
    g: int,
    n: int,
) -> bool {
    exists|t: int| 0 <= t < n && spec_assigned(r, agg[t].term, g)
}

/// The accumulated signed increase of entry `i` after the first `n`
/// aggregated changes: the saturating sum of the net totals of the changes
/// assigned to it.
pub open spec fn spec_entry_increase(
    agg: Seq<KarmaChangeView>,
    r: Seq<GroupChange>,
    i: int,
    n: int,
) -> int
    decreases n,
{
    if n <= 0 {
        0
    } else {
        let p = spec_entry_increase(agg, r, i, n - 1);
        if spec_assigned(r, agg[n - 1].term, i) {
            crate::text::spec_sat_add(p, agg[n - 1].votes.spec_total())
        } else {
            p
        }
    }
}

/// The merged style of entry `i` after the first `n` aggregated changes:
/// the most explicit style among the changes assigned to it.
pub open spec fn spec_entry_style(
    agg: Seq<KarmaChangeView>,
    r: Seq<GroupChange>,
    i: int,
    n: int,
) -> KarmaStyle
    decreases n,
{
    if n <= 0 {
        KarmaStyle::Implicit
    } else {
        let p = spec_entry_style(agg, r, i, n - 1);
        if spec_assigned(r, agg[n - 1].term, i) {
            KarmaStyle::spec_most_explicit(p, agg[n - 1].style)
        } else {
            p
        }
    }
}

/// Assignment reads only the groups: two entry lists with the same groups
/// assign every change alike, so the folds agree.
proof fn lemma_entry_folds_stable(
    agg: Seq<KarmaChangeView>,
    r1: Seq<GroupChange>,
    r2: Seq<GroupChange>,
    i: int,
    n: int,
)
    requires
        0 <= i < r1.len(),
        r1.len() <= r2.len(),
        forall|j: int| 0 <= j < r1.len() ==> (#[trigger] r1[j]).group == r2[j].group,
    ensures
        spec_entry_increase(agg, r1, i, n) == spec_entry_increase(agg, r2, i, n),
        spec_entry_style(agg, r1, i, n) == spec_entry_style(agg, r2, i, n),
    decreases n,
{
    if n > 0 {
        lemma_entry_folds_stable(agg, r1, r2, i, n - 1);
        assert(spec_assigned(r1, agg[n - 1].term, i) == spec_assigned(r2, agg[n - 1].term, i))
            by {
            if spec_assigned(r1, agg[n - 1].term, i) {
                assert(r2[i].group == r1[i].group);
                assert(forall|j: int|
                    0 <= j < i ==> (#[trigger] r2[j]).group == r1[j].group);
                assert(spec_assigned(r2, agg[n - 1].term, i));
            }
            if spec_assigned(r2, agg[n - 1].term, i) {
                assert(r1[i].group == r2[i].group);
                assert(forall|j: int|
                    0 <= j < i ==> (#[trigger] r1[j]).group == r2[j].group);
                assert(spec_assigned(r1, agg[n - 1].term, i));
            }
        }
    }
}

/// An entry none of the first `n` changes is assigned to accumulates
/// nothing.
proof fn lemma_entry_folds_unassigned(
    agg: Seq<KarmaChangeView>,
    r: Seq<GroupChange>,
    i: int,
    n: int,
)
    requires
        forall|t: int| 0 <= t < n ==> !spec_assigned(r, (#[trigger] agg[t]).term, i),
    ensures
        spec_entry_increase(agg, r, i, n) == 0,
        spec_entry_style(agg, r, i, n) == KarmaStyle::Implicit,
    decreases n,
{
    if n > 0 {
        lemma_entry_folds_unassigned(agg, r, i, n - 1);
    }
}

/// Merging one change into its first matching entry advances every entry's
/// folds by one change.
proof fn lemma_merge_step(
    agg: Seq<KarmaChangeView>,
    pre: Seq<GroupChange>,
    post: Seq<GroupChange>,
    i: int,
    gi: int,
)
    requires
        0 <= i < agg.len(),
        0 <= gi < pre.len(),
        post.len() == pre.len(),
        forall|x: int| 0 <= x < pre.len() ==> (#[trigger] post[x]).group == pre[x].group,
        forall|x: int| 0 <= x < pre.len() && x != gi ==> #[trigger] post[x] == pre[x],
        spec_assigned(post, agg[i].term, gi),
        post[gi].increase as int == crate::text::spec_sat_add(
            pre[gi].increase as int,
            agg[i].votes.spec_total(),
        ),
        post[gi].style == KarmaStyle::spec_most_explicit(pre[gi].style, agg[i].style),
        forall|g: int|
            #![trigger pre[g]]
            0 <= g < pre.len() ==> pre[g].increase as int == spec_entry_increase(agg, pre, g, i),
        forall|g: int|
            #![trigger pre[g]]
            0 <= g < pre.len() ==> pre[g].style == spec_entry_style(agg, pre, g, i),
        forall|t: int| 0 <= t < i ==> #[trigger] spec_change_landed(agg, pre, t),
        forall|g: int| 0 <= g < pre.len() ==> #[trigger] spec_entry_sourced(agg, pre, g, i),
    ensures
        forall|g: int|
            #![trigger post[g]]
            0 <= g < post.len() ==> post[g].increase as int == spec_entry_increase(
                agg,
                post,
                g,
                i + 1,
            ),
        forall|g: int|
            #![trigger post[g]]
            0 <= g < post.len() ==> post[g].style == spec_entry_style(agg, post, g, i + 1),
        forall|t: int| 0 <= t < i + 1 ==> #[trigger] spec_change_landed(agg, post, t),
        forall|g: int| 0 <= g < post.len() ==> #[trigger] spec_entry_sourced(agg, post, g, i + 1),
{
    assert forall|g: int|
        0 <= g < post.len() implies (#[trigger] post[g]).increase as int == spec_entry_increase(
        agg,
        post,
        g,
        i + 1,
    ) && post[g].style == spec_entry_style(agg, post, g, i + 1) by {
        lemma_entry_folds_stable(agg, pre, post, g, i);
        if g != gi {
            assert(!spec_assigned(post, agg[i].term, g)) by {
                if spec_assigned(post, agg[i].term, g) {
                    if g < gi {
                        assert(!post[g].group.spec_contains_term(agg[i].term));
                    } else {
                        assert(!(#[trigger] post[gi]).group.spec_contains_term(agg[i].term));
                    }
                }
            }
        }
    }
    assert forall|t: int| 0 <= t < i + 1 implies #[trigger] spec_change_landed(
        agg,
        post,
        t,
    ) by {
        if t < i {
            assert(spec_change_landed(agg, pre, t));
            let g = choose|g: int| spec_assigned(pre, agg[t].term, g);
            assert(spec_assigned(post, agg[t].term, g));
        } else {
            assert(spec_assigned(post, agg[t].term, gi));
        }
    }
    assert forall|g: int| 0 <= g < post.len() implies #[trigger] spec_entry_sourced(
        agg,
        post,
        g,
        i + 1,
    ) by {
        assert(spec_entry_sourced(agg, pre, g, i));
        let t = choose|t: int| 0 <= t < i && spec_assigned(pre, agg[t].term, g);
        assert(spec_assigned(post, agg[t].term, g));
    }
}

/// Opening a new entry for an unmatched change: the new entry holds exactly
/// that change's total and style, and the older entries are unaffected.
proof fn lemma_push_step(
    agg: Seq<KarmaChangeView>,
    pre: Seq<GroupChange>,
    post: Seq<GroupChange>,
    i: int,
)
    requires
        0 <= i < agg.len(),
        agg[i].votes.wf(),
        post == pre.push(post[pre.len() as int]),
        post.len() == pre.len() + 1,
        post[pre.len() as int].group.spec_contains_term(agg[i].term),
        forall|t: int|
            0 <= t < pre.len() ==> !(#[trigger] pre[t]).group.spec_contains_term(agg[i].term),
        post[pre.len() as int].increase as int == agg[i].votes.spec_total(),
        post[pre.len() as int].style == agg[i].style,
        forall|t: int| 0 <= t < i ==> #[trigger] spec_change_landed(agg, pre, t),
        forall|g: int| 0 <= g < pre.len() ==> #[trigger] spec_entry_sourced(agg, pre, g, i),
        forall|g: int|
            #![trigger pre[g]]
            0 <= g < pre.len() ==> pre[g].increase as int == spec_entry_increase(agg, pre, g, i),
        forall|g: int|
            #![trigger pre[g]]
            0 <= g < pre.len() ==> pre[g].style == spec_entry_style(agg, pre, g, i),
    ensures
        spec_assigned(post, agg[i].term, pre.len() as int),
        forall|g: int|
            #![trigger post[g]]
            0 <= g < post.len() ==> post[g].increase as int == spec_entry_increase(
                agg,
                post,
                g,
                i + 1,
            ),
        forall|g: int|
            #![trigger post[g]]
            0 <= g < post.len() ==> post[g].style == spec_entry_style(agg, post, g, i + 1),
        forall|t: int| 0 <= t < i + 1 ==> #[trigger] spec_change_landed(agg, post, t),
        forall|g: int| 0 <= g < post.len() ==> #[trigger] spec_entry_sourced(agg, post, g, i + 1),
{
    let m = pre.len() as int;
    assert(forall|x: int| 0 <= x < m ==> #[trigger] post[x] == pre[x]);
    assert(spec_assigned(post, agg[i].term, m));
    assert forall|t: int| 0 <= t < i implies !spec_assigned(
        post,
        (#[trigger] agg[t]).term,
        m,
    ) by {
        assert(spec_change_landed(agg, pre, t));
        let g = choose|g: int| spec_assigned(pre, agg[t].term, g);
        assert(0 <= g < m);
        assert(post[g].group.spec_contains_term(agg[t].term));
        if spec_assigned(post, agg[t].term, m) {
            assert(!(#[trigger] post[g]).group.spec_contains_term(agg[t].term));
        }
    }
    lemma_entry_folds_unassigned(agg, post, m, i);
    assert(crate::text::spec_sat_add(0, agg[i].votes.spec_total()) == agg[i].votes.spec_total());
    assert(post[m].increase as int == spec_entry_increase(agg, post, m, i + 1));
    assert(post[m].style == spec_entry_style(agg, post, m, i + 1));
    assert forall|g: int|
        0 <= g < m implies (#[trigger] post[g]).increase as int == spec_entry_increase(
        agg,
        post,
        g,
        i + 1,
    ) && post[g].style == spec_entry_style(agg, post, g, i + 1) by {
        lemma_entry_folds_stable(agg, pre, post, g, i);
        assert(!spec_assigned(post, agg[i].term, g)) by {
            if spec_assigned(post, agg[i].term, g) {
                assert(post[g].group.spec_contains_term(agg[i].term));
                assert(pre[g].group.spec_contains_term(agg[i].term));
            }
        }
    }
    assert forall|t: int| 0 <= t < i + 1 implies #[trigger] spec_change_landed(
        agg,
        post,
        t,
    ) by {
        if t < i {
            assert(spec_change_landed(agg, pre, t));
            let g = choose|g: int| spec_assigned(pre, agg[t].term, g);
            assert(spec_assigned(post, agg[t].term, g));
        } else {
            assert(spec_assigned(post, agg[t].term, m));
        }
    }
    assert forall|g: int| 0 <= g < post.len() implies #[trigger] spec_entry_sourced(
        agg,
        post,
        g,
        i + 1,
    ) by {
        if g < m {
            assert(spec_entry_sourced(agg, pre, g, i));
            let t = choose|t: int| 0 <= t < i && spec_assigned(pre, agg[t].term, g);
            assert(spec_assigned(post, agg[t].term, g));
        } else {
            assert(spec_assigned(post, agg[i].term, g));
        }
    }
}

/// Applies the changes of one message to the store: the changes are
/// collapsed to one net change per term, and each term's record is fetched
/// or created, voted on, and saved.  Afterwards every touched term's record
/// holds its old votes plus the net change, its alias state kept, and no
/// other key of the store changes.  The touched terms are handed back
/// merged per alias group, each with the message's net effect on that group
/// and the most explicit style it was voted with.
#[verifier::rlimit(100)]
pub fn register_votes(store: &mut MemStore, changes: &Vec<KarmaChange>) -> (r: Vec<GroupChange>)
    requires
        old(store).wf(),
        forall|i: int| 0 <= i < changes@.len() ==> (#[trigger] changes@[i])@.votes.wf(),
    ensures
        final(store).wf(),
        forall|i: int| 0 <= i < r@.len() ==> (#[trigger] r@[i]).group.wf(),
        ({
            let agg = spec_aggregate(spec_views(changes@));
            &&& (forall|t: int| 0 <= t < agg.len() ==> #[trigger] spec_change_landed(agg, r@, t))
            &&& (forall|g: int|
                0 <= g < r@.len() ==> #[trigger] spec_entry_sourced(
                    agg,
                    r@,
                    g,
                    agg.len() as int,
                ))
            &&& (forall|g: int|
                #![trigger r@[g]]
                0 <= g < r@.len() ==> r@[g].increase as int == spec_entry_increase(
                    agg,
                    r@,
                    g,
                    agg.len() as int,
                ))
            &&& (forall|g: int|
                #![trigger r@[g]]
                0 <= g < r@.len() ==> r@[g].style == spec_entry_style(
                    agg,
                    r@,
                    g,
                    agg.len() as int,
                ))
            &&& (forall|t: int|
                0 <= t < agg.len() ==> ((#[trigger] spec_fetch(final(store)@, agg[t].term))
                    matches Some(k) && k.votes == spec_base_votes(
                    old(store)@,
                    agg[t].term,
                ).spec_plus(agg[t].votes) && k.aliases == (match spec_fetch(
                    old(store)@,
                    agg[t].term,
                ) {
                    Some(b) => b.aliases,
                    None => None,
                })))
            &&& (forall|key: Seq<char>|
                #![trigger final(store)@.dom().contains(key)]
                !(exists|t: int|
                    0 <= t < agg.len() && key == spec_store_key((#[trigger] agg[t]).term))
                    ==> ((final(store)@.dom().contains(key) <==> old(store)@.dom().contains(key))
                    && (old(store)@.dom().contains(key) ==> final(store)@[key] == old(
                    store,
                )@[key])))
        }),
{
    let ghost m0 = store@;
    let agg = aggregate(changes);
    let ghost aggv = spec_aggregate(spec_views(changes@));
    proof {
        lemma_aggregate_wf(spec_views(changes@));
        assert(forall|i: int|
            0 <= i < changes@.len() ==> (#[trigger] spec_views(changes@)[i]).votes.wf());
    }
    let ghost mut recs: Seq<Karma> = Seq::empty();
    let mut out: Vec<GroupChange> = Vec::new();
    let mut i: usize = 0;
    while i < agg.len()
        invariant
            store.wf(),
            i <= agg@.len(),
            spec_views(agg@) == aggv,
            forall|a: int, b: int|
                0 <= a < b < aggv.len() ==> (#[trigger] aggv[a]).term != (#[trigger] aggv[b]).term,
            forall|t: int|
                0 <= t < aggv.len() ==> (#[trigger] aggv[t]).term == spec_lower(aggv[t].term),
            forall|t: int| 0 <= t < aggv.len() ==> (#[trigger] aggv[t]).votes.wf(),
            recs.len() == i,
            forall|t: int| 0 <= t < i ==> (#[trigger] recs[t])@.wf(),
            forall|t: int| 0 <= t < i ==> (#[trigger] recs[t])@.bounded(),
            forall|t: int| 0 <= t < i ==> (#[trigger] recs[t])@.term == aggv[t].term,
            forall|t: int|
                0 <= t < i ==> (#[trigger] recs[t])@.votes == spec_base_votes(
                    m0,
                    aggv[t].term,
                ).spec_plus(aggv[t].votes),
            forall|t: int|
                0 <= t < i ==> (#[trigger] recs[t])@.aliases == (match spec_fetch(
                    m0,
                    aggv[t].term,
                ) {
                    Some(b) => b.aliases,
                    None => None,
                }),
            store@ == crate::ops::spec_saves(m0, recs, i as int),
            forall|t: int| 0 <= t < out@.len() ==> (#[trigger] out@[t]).group.wf(),
            forall|t: int| 0 <= t < i ==> #[trigger] spec_change_landed(aggv, out@, t),
            forall|g: int|
                0 <= g < out@.len() ==> #[trigger] spec_entry_sourced(aggv, out@, g, i as int),
            forall|g: int|
                #![trigger out@[g]]
                0 <= g < out@.len() ==> out@[g].increase as int == spec_entry_increase(
                    aggv,
                    out@,
                    g,
                    i as int,
                ),
            forall|g: int|
                #![trigger out@[g]]
                0 <= g < out@.len() ==> out@[g].style == spec_entry_style(
                    aggv,
                    out@,
                    g,
                    i as int,
                ),
        decreases agg@.len() - i,
    {
        proof {
            assert(aggv[i as int] == agg@[i as int]@);
            crate::ops::lemma_saves_untouched(m0, recs, i as int);
            let k = spec_store_key(aggv[i as int].term);
            if crate::ops::spec_saved_key_among(recs, i as int, k) {
                let t = choose|t: int|
                    0 <= t < i && k == spec_store_key((#[trigger] recs[t])@.term);
                crate::group::lemma_store_key_injective(aggv[i as int].term, recs[t]@.term);
                assert(aggv[i as int].term == aggv[t].term);
                assert(false);
            }
            assert(store@.dom().contains(k) <==> m0.dom().contains(k));
            assert(m0.dom().contains(k) ==> store@[k] == m0[k]);
            assert(spec_fetch(store@, aggv[i as int].term) == spec_fetch(
                m0,
                aggv[i as int].term,
            ));
        }
        let mut karma = fetch_or_create(store, agg[i].term.as_str());
        karma.vote(&agg[i].votes);
        save_karma(store, &karma);
        proof {
            let ghost prev_recs = recs;
            recs = recs.push(karma);
            crate::ops::lemma_saves_prefix(m0, prev_recs, recs, i as int);
            assert(recs[i as int] == karma);
            assert(store@ == crate::ops::spec_saves(m0, recs, i + 1));
        }
        let inc = agg[i].votes.total();
        proof {
            assert(karma@.term == aggv[i as int].term);
        }
        let mut found: Option<usize> = None;
        let mut j: usize = 0;
        while j < out.len()
            invariant_except_break
                found is None,
            invariant
                j <= out@.len(),
                forall|t: int| 0 <= t < out@.len() ==> (#[trigger] out@[t]).group.wf(),
                forall|t: int|
                    0 <= t < j ==> !(#[trigger] out@[t]).group.spec_contains_term(karma@.term),
            ensures
                match found {
                    Some(g) => {
                        &&& g < out@.len()
                        &&& out@[g as int].group.spec_contains_term(karma@.term)
                        &&& forall|t: int|
                            0 <= t < g ==> !(#[trigger] out@[t]).group.spec_contains_term(
                                karma@.term,
                            )
                    },
                    None => forall|t: int|
                        0 <= t < out@.len() ==> !(#[trigger] out@[t]).group.spec_contains_term(
                            karma@.term,
                        ),
                },
            decreases out@.len() - j,
        {
            match out[j].group.find_term(&karma.term) {
                Some(_) => {
                    found = Some(j);
                    break ;
                },
                None => {},
            }
            j = j + 1;
        }
        match found {
            Some(gi) => {
                let ghost pre_out = out@;
                let old_inc = out[gi].increase;
                let old_style = out[gi].style;
                out[gi].increase = crate::text::sat_add(old_inc, inc);
                out[gi].style = KarmaStyle::most_explicit(old_style, agg[i].style);
                proof {
                    assert(forall|x: int|
                        0 <= x < out@.len() ==> (#[trigger] out@[x]).group == pre_out[x].group);
                    assert(forall|x: int|
                        0 <= x < out@.len() && x != gi ==> #[trigger] out@[x] == pre_out[x]);
                    assert(spec_assigned(out@, aggv[i as int].term, gi as int));
                    lemma_merge_step(aggv, pre_out, out@, i as int, gi as int);
                }
            },
            None => {
                let group = KarmaGroup::resolve_or_new(store, karma.term.as_str());
                proof {
                    crate::text::lemma_lower_idempotent(karma@.term);
                    assert(group.spec_contains_term(karma@.term));
                }
                let ghost pre_out = out@;
                out.push(GroupChange { group, increase: inc, style: agg[i].style });
                proof {
                    assert(out@ == pre_out.push(out@[pre_out.len() as int]));
                    lemma_push_step(aggv, pre_out, out@, i as int);
                }
            },
        }
        i = i + 1;
    }
    proof {
        lemma_votes_post(m0, recs, aggv, store@);
        assert(aggv.len() == agg@.len());
        assert(forall|t: int|
            0 <= t < aggv.len() ==> #[trigger] spec_change_landed(aggv, out@, t));
        assert(forall|g: int|
            0 <= g < out@.len() ==> #[trigger] spec_entry_sourced(
                aggv,
                out@,
                g,
                aggv.len() as int,
            ));
        assert(forall|g: int|
            #![trigger out@[g]]
            0 <= g < out@.len() ==> out@[g].increase as int == spec_entry_increase(
                aggv,
                out@,
                g,
                aggv.len() as int,
            ));
        assert(forall|g: int|
            #![trigger out@[g]]
            0 <= g < out@.len() ==> out@[g].style == spec_entry_style(
                aggv,
                out@,
                g,
                aggv.len() as int,
            ));
    }
    out
}

/// What the vote saves amount to: each touched term fetches its voted
/// record back, and every other key is unchanged.
#[verifier::rlimit(100)]
proof fn lemma_votes_post(
    m0: Map<Seq<char>, Seq<char>>,
    recs: Seq<Karma>,
    aggv: Seq<KarmaChangeView>,
    w: Map<Seq<char>, Seq<char>>,
)
    requires
        recs.len() == aggv.len(),
        forall|a: int, b: int|
            0 <= a < b < aggv.len() ==> (#[trigger] aggv[a]).term != (#[trigger] aggv[b]).term,
        forall|t: int| 0 <= t < recs.len() ==> (#[trigger] recs[t])@.wf(),
        forall|t: int| 0 <= t < recs.len() ==> (#[trigger] recs[t])@.bounded(),
        forall|t: int| 0 <= t < recs.len() ==> (#[trigger] recs[t])@.term == aggv[t].term,
        forall|t: int|
            0 <= t < recs.len() ==> (#[trigger] recs[t])@.votes == spec_base_votes(
                m0,
                aggv[t].term,
            ).spec_plus(aggv[t].votes),
        forall|t: int|
            0 <= t < recs.len() ==> (#[trigger] recs[t])@.aliases == (match spec_fetch(
                m0,
                aggv[t].term,
            ) {
                Some(b) => b.aliases,
                None => None,
            }),
        w == crate::ops::spec_saves(m0, recs, recs.len() as int),
    ensures
        forall|t: int|
            0 <= t < aggv.len() ==> ((#[trigger] spec_fetch(w, aggv[t].term)) matches Some(k)
                && k.votes == spec_base_votes(m0, aggv[t].term).spec_plus(aggv[t].votes)
                && k.aliases == (match spec_fetch(m0, aggv[t].term) {
                Some(b) => b.aliases,
                None => None,
            })),
        forall|key: Seq<char>|
            #![trigger w.dom().contains(key)]
            !(exists|t: int|
                0 <= t < aggv.len() && key == spec_store_key((#[trigger] aggv[t]).term)) ==> ((
            w.dom().contains(key) <==> m0.dom().contains(key)) && (m0.dom().contains(key)
                ==> w[key] == m0[key])),
{
    crate::ops::lemma_saves_fetch(m0, recs, recs.len() as int);
    assert forall|t: int| 0 <= t < aggv.len() implies ((#[trigger] spec_fetch(w, aggv[t].term))
        matches Some(k) && k.votes == spec_base_votes(m0, aggv[t].term).spec_plus(aggv[t].votes)
        && k.aliases == (match spec_fetch(m0, aggv[t].term) {
        Some(b) => b.aliases,
        None => None,
    })) by {
        assert(spec_fetch(crate::ops::spec_saves(m0, recs, recs.len() as int), recs[t]@.term)
            == Some(KarmaView { original_term: recs[t]@.term, ..recs[t]@ }));
    }
    crate::ops::lemma_saves_untouched(m0, recs, recs.len() as int);
    assert forall|key: Seq<char>|
        !(exists|t: int|
            0 <= t < aggv.len() && key == spec_store_key((#[trigger] aggv[t]).term)) implies ((
    #[trigger] w.dom().contains(key) <==> m0.dom().contains(key)) && (m0.dom().contains(key)
        ==> w[key] == m0[key])) by {
        if crate::ops::spec_saved_key_among(recs, recs.len() as int, key) {
            let t = choose|t: int|
                0 <= t < recs.len() && key == spec_store_key((#[trigger] recs[t])@.term);
            assert(0 <= t < aggv.len() && key == spec_store_key(aggv[t].term));
        }
        assert(!crate::ops::spec_saved_key_among(recs, recs.len() as int, key));
    }
}

/// The up-count of a whole group.
pub open spec fn spec_group_up(g: KarmaGroup) -> int {
    spec_votes_sum(g.karmas@).up as int
}

/// The greatest group balance in a non-empty list of groups.
pub open spec fn spec_max_total(gs: Seq<KarmaGroup>) -> int
    recommends
        gs.len() >= 1,
    decreases gs.len(),
{
    if gs.len() <= 1 {
        spec_group_total(gs[0])
    } else {
        let rest = spec_max_total(gs.drop_last());
        let last = spec_group_total(gs.last());
        if last > rest {
            last
        } else {
            rest
        }
    }
}

/// The groups whose balance equals `m`, in their given order.
pub open spec fn spec_tied(gs: Seq<KarmaGroup>, m: int) -> Seq<KarmaGroup> {
    gs.filter(|g: KarmaGroup| spec_group_total(g) == m)
}

proof fn lemma_max_attained(gs: Seq<KarmaGroup>)
    requires
        gs.len() >= 1,
    ensures
        exists|i: int| 0 <= i < gs.len() && spec_group_total(#[trigger] gs[i]) == spec_max_total(
            gs,
        ),
        forall|i: int|
            0 <= i < gs.len() ==> spec_group_total(#[trigger] gs[i]) <= spec_max_total(gs),
    decreases gs.len(),
{
    if gs.len() == 1 {
        assert(spec_group_total(gs[0]) == spec_max_total(gs));
    } else {
        lemma_max_attained(gs.drop_last());
        assert(forall|i: int|
            0 <= i < gs.drop_last().len() ==> #[trigger] gs.drop_last()[i] == gs[i]);
        if spec_group_total(gs.last()) > spec_max_total(gs.drop_last()) {
            assert(spec_group_total(gs[gs.len() - 1]) == spec_max_total(gs));
        } else {
            let w = choose|i: int|
                0 <= i < gs.drop_last().len() && spec_group_total(#[trigger] gs.drop_last()[i])
                    == spec_max_total(gs.drop_last());
            assert(spec_group_total(gs[w]) == spec_max_total(gs));
        }
        assert forall|i: int| 0 <= i < gs.len() implies spec_group_total(#[trigger] gs[i])
            <= spec_max_total(gs) by {
            if i < gs.len() - 1 {
                assert(gs.drop_last()[i] == gs[i]);
                assert(spec_group_total(gs.drop_last()[i]) <= spec_max_total(gs.drop_last()));
            }
        }
    }
}

/// The winners of a karma fight: every group whose balance is the greatest
/// among the given groups — ties all report — ordered by ascending
/// up-votes.  An empty list has no winners.
pub fn find_highest_karma(karmas: Vec<KarmaGroup>) -> (r: Vec<KarmaGroup>)
    requires
        forall|i: int| 0 <= i < karmas@.len() ==> (#[trigger] karmas@[i]).wf(),
    ensures
        karmas@.len() == 0 ==> r@.len() == 0,
        karmas@.len() >= 1 ==> r@.len() >= 1,
        karmas@.len() >= 1 ==> r@.to_multiset() == spec_tied(
            karmas@,
            spec_max_total(karmas@),
        ).to_multiset(),
        forall|i: int| 0 <= i < r@.len() ==> (#[trigger] r@[i]).wf(),
        forall|i: int|
            0 <= i < r@.len() ==> spec_group_total(#[trigger] r@[i]) == spec_max_total(karmas@),
        forall|i: int, j: int|
            0 <= i < j < r@.len() ==> spec_group_up(#[trigger] r@[i]) <= spec_group_up(
                #[trigger] r@[j],
            ),
{
    if karmas.len() == 0 {
        return Vec::new();
    }
    let ghost orig = karmas@;
    let mut m: i64 = karmas[0].votes().total();
    let mut i: usize = 1;
    while i < karmas.len()
        invariant
            1 <= i <= orig.len(),
            karmas@ == orig,
            forall|t: int| 0 <= t < orig.len() ==> (#[trigger] orig[t]).wf(),
            m == spec_max_total(orig.take(i as int)),
        decreases orig.len() - i,
    {
        let t = karmas[i].votes().total();
        if t > m {
            m = t;
        }
        proof {
            assert(orig.take(i + 1).drop_last() =~= orig.take(i as int));
            assert(orig.take(i + 1).last() == orig[i as int]);
        }
        i = i + 1;
    }
    proof {
        assert(orig.take(orig.len() as int) =~= orig);
    }
    let ghost top = spec_max_total(orig);
    proof {
        lemma_max_attained(orig);
    }
    let ghost wit = choose|i: int|
        0 <= i < orig.len() && spec_group_total(#[trigger] orig[i]) == top;
    let mut work: Vec<KarmaGroup> = Vec::new();
    let mut rest = karmas;
    let ghost mut k: int = 0;
    while rest.len() > 0
        invariant
            0 <= k <= orig.len(),
            forall|t: int| 0 <= t < orig.len() ==> (#[trigger] orig[t]).wf(),
            0 <= wit < orig.len() && spec_group_total(orig[wit]) == top,
            rest@ == orig.skip(k),
            work@ == spec_tied(orig.take(k), top),
            forall|t: int| 0 <= t < work@.len() ==> (#[trigger] work@[t]).wf(),
            forall|t: int|
                0 <= t < work@.len() ==> spec_group_total(#[trigger] work@[t]) == top,
            k > wit ==> work@.len() >= 1,
            m == top,
        decreases rest@.len(),
    {
        let g = rest.remove(0);
        proof {
            assert(orig.skip(k).len() > 0);
            assert(orig.skip(k)[0] == orig[k]);
            assert(g == orig[k]);
            assert(orig.skip(k).drop_first() =~= orig.skip(k + 1));
            assert(orig.take(k + 1).drop_last() =~= orig.take(k));
            assert(orig.take(k + 1).last() == orig[k]);
            reveal(Seq::filter);
        }
        let total = g.votes().total();
        if total == m {
            work.push(g);
        }
        proof {
            k = k + 1;
        }
    }
    proof {
        assert(orig.take(orig.len() as int) =~= orig);
        assert(work@ == spec_tied(orig, top));
        assert(work@.len() >= 1);
    }
    let ghost tied = work@;
    let ghost tied_len = work@.len();
    let mut out: Vec<KarmaGroup> = Vec::new();
    proof {
        out@.to_multiset_ensures();
        tied.to_multiset_ensures();
        assert_multisets_equal!(out@.to_multiset().add(tied.to_multiset()), tied.to_multiset(), g => {
            assert(!out@.contains(g));
        });
    }
    while work.len() > 0
        invariant
            forall|t: int| 0 <= t < work@.len() ==> (#[trigger] work@[t]).wf(),
            forall|t: int| 0 <= t < out@.len() ==> (#[trigger] out@[t]).wf(),
            forall|t: int|
                0 <= t < work@.len() ==> spec_group_total(#[trigger] work@[t]) == top,
            forall|t: int| 0 <= t < out@.len() ==> spec_group_total(#[trigger] out@[t]) == top,
            out@.to_multiset().add(work@.to_multiset()) == tied.to_multiset(),
            forall|a: int, b: int|
                0 <= a < b < out@.len() ==> spec_group_up(#[trigger] out@[a]) <= spec_group_up(
                    #[trigger] out@[b],
                ),
            forall|a: int, b: int|
                0 <= a < out@.len() && 0 <= b < work@.len() ==> spec_group_up(
                    #[trigger] out@[a],
                ) <= spec_group_up(#[trigger] work@[b]),
            out@.len() + work@.len() == tied_len,
            tied_len == tied.len() >= 1,
        decreases work@.len(),
    {
        let mut mi: usize = 0;
        let mut mu: i64 = work[0].votes().up;
        let mut j: usize = 1;
        while j < work.len()
            invariant
                1 <= j <= work@.len(),
                mi < work@.len(),
                forall|t: int| 0 <= t < work@.len() ==> (#[trigger] work@[t]).wf(),
                mu == spec_group_up(work@[mi as int]),
                forall|t: int| 0 <= t < j ==> mu <= spec_group_up(#[trigger] work@[t]),
            decreases work@.len() - j,
        {
            let u = work[j].votes().up;
            if u < mu {
                mi = j;
                mu = u;
            }
            j = j + 1;
        }
        let ghost pre_work = work@;
        let ghost pre_out = out@;
        let g = work.remove(mi);
        out.push(g);
        proof {
            pre_work.to_multiset_ensures();
            pre_out.to_multiset_ensures();
            assert(work@ == pre_work.remove(mi as int));
            assert(work@.to_multiset() == pre_work.to_multiset().remove(pre_work[mi as int]));
            assert(out@ == pre_out.push(pre_work[mi as int]));
            assert(out@.to_multiset() =~= pre_out.to_multiset().insert(pre_work[mi as int]));
            assert(pre_work.contains(pre_work[mi as int]));
            assert(pre_work.to_multiset().count(pre_work[mi as int]) > 0);
            assert_multisets_equal!(out@.to_multiset().add(work@.to_multiset()), tied.to_multiset());
            assert(forall|t: int|
                0 <= t < work@.len() ==> #[trigger] work@[t] == (if t < mi {
                    pre_work[t]
                } else {
                    pre_work[t + 1]
                }));
        }
    }
    proof {
        work@.to_multiset_ensures();
        tied.to_multiset_ensures();
        out@.to_multiset_ensures();
        assert_multisets_equal!(out@.to_multiset(), tied.to_multiset(), g => {
            assert(!work@.contains(g));
            assert(work@.to_multiset().count(g) == 0);
        });
        assert(out@.len() >= 1);
    }
    out
}

/// Whether any of the groups already holds the given canonical term; used
/// to fetch each group only once when several fight terms share a group.
pub fn any_group_contains(groups: &Vec<KarmaGroup>, term: &String) -> (r: bool)
    ensures
        r == exists|i: int|
            0 <= i < groups@.len() && (#[trigger] groups@[i]).spec_contains_term(term@),
{
    let mut i: usize = 0;
    while i < groups.len()
        invariant
            i <= groups@.len(),
            forall|t: int| 0 <= t < i ==> !(#[trigger] groups@[t]).spec_contains_term(term@),
        decreases groups@.len() - i,
    {
        match groups[i].find_term(term) {
            Some(_) => {
                return true;
            },
            None => {},
        }
        i = i + 1;
    }
    false
}

/// The main terms of a list of groups.
pub open spec fn spec_mains(gs: Seq<KarmaGroup>) -> Seq<Seq<char>> {
    gs.map_values(|g: KarmaGroup| g.main@)
}

/// Terms joined with commas: `a, b, c`.
pub open spec fn spec_comma_join(ts: Seq<Seq<char>>) -> Seq<char>
    decreases ts.len(),
{
    if ts.len() == 0 {
        Seq::empty()
    } else {
        ts[0] + spec_comma_rest(ts.drop_first())
    }
}

pub open spec fn spec_comma_rest(ts: Seq<Seq<char>>) -> Seq<char>
    decreases ts.len(),
{
    if ts.len() == 0 {
        Seq::empty()
    } else {
        ", "@ + ts[0] + spec_comma_rest(ts.drop_first())
    }
}

proof fn lemma_comma_rest_snoc(ts: Seq<Seq<char>>, x: Seq<char>)
    ensures
        spec_comma_rest(ts.push(x)) == spec_comma_rest(ts) + ", "@ + x,
    decreases ts.len(),
{
    if ts.len() == 0 {
        assert(ts.push(x).drop_first() =~= Seq::<Seq<char>>::empty());
        assert(spec_comma_rest(Seq::<Seq<char>>::empty()) == Seq::<char>::empty());
        assert(ts.push(x)[0] == x);
        assert(spec_comma_rest(ts.push(x)) == ", "@ + x + Seq::<char>::empty());
        assert(spec_comma_rest(ts) == Seq::<char>::empty());
        assert(spec_comma_rest(ts.push(x)) =~= spec_comma_rest(ts) + ", "@ + x);
    } else {
        assert(ts.push(x).drop_first() =~= ts.drop_first().push(x));
        lemma_comma_rest_snoc(ts.drop_first(), x);
        assert(ts.push(x)[0] == ts[0]);
        assert(spec_comma_rest(ts.push(x)) == ", "@ + ts[0] + (spec_comma_rest(ts.drop_first())
            + ", "@ + x));
        assert(spec_comma_rest(ts) == ", "@ + ts[0] + spec_comma_rest(ts.drop_first()));
        assert(spec_comma_rest(ts.push(x)) =~= spec_comma_rest(ts) + ", "@ + x);
    }
}

proof fn lemma_comma_join_snoc(ts: Seq<Seq<char>>, x: Seq<char>)
    ensures
        ts.len() == 0 ==> spec_comma_join(ts.push(x)) == x,
        ts.len() > 0 ==> spec_comma_join(ts.push(x)) == spec_comma_join(ts) + ", "@ + x,
{
    if ts.len() == 0 {
        assert(ts.push(x).drop_first() =~= Seq::<Seq<char>>::empty());
        assert(spec_comma_rest(Seq::<Seq<char>>::empty()) == Seq::<char>::empty());
        assert(ts.push(x)[0] == x);
        assert(spec_comma_join(ts.push(x)) == x + Seq::<char>::empty());
        assert(spec_comma_join(ts.push(x)) =~= x);
    } else {
        assert(ts.push(x).drop_first() =~= ts.drop_first().push(x));
        lemma_comma_rest_snoc(ts.drop_first(), x);
        assert(ts.push(x)[0] == ts[0]);
        assert(spec_comma_join(ts.push(x)) == ts[0] + (spec_comma_rest(ts.drop_first()) + ", "@
            + x));
        assert(spec_comma_join(ts) == ts[0] + spec_comma_rest(ts.drop_first()));
        assert(spec_comma_join(ts.push(x)) =~= spec_comma_join(ts) + ", "@ + x);
    }
}

/// How one group shows in a fight: its main term, marked with `(+)` when
/// other terms stand behind it.
pub open spec fn spec_group_display(g: KarmaGroup) -> Seq<char> {
    if g.karmas@.len() > 1 {
        g.main@ + " (+)"@
    } else {
        g.main@
    }
}

/// How a vote amount shows: the balance, then both counters.
pub open spec fn spec_votes_display(a: KarmaAmount) -> Seq<char> {
    crate::text::spec_int_digits(a.spec_total()) + " (+"@ + crate::text::spec_nat_digits(
        a.up as nat,
    ) + ", -"@ + crate::text::spec_nat_digits(a.down as nat) + ")"@
}

/// The karma fight outcome text: a single winner wins with its votes;
/// several tied winners are named together with the shared balance.
pub open spec fn spec_fight_reply(gs: Seq<KarmaGroup>) -> Seq<char>
    recommends
        gs.len() >= 1,
{
    if gs.len() == 1 {
        spec_group_display(gs[0]) + " wins with "@ + spec_votes_display(
            spec_votes_sum(gs[0].karmas@),
        )
    } else {
        spec_comma_join(spec_mains(gs)) + " all have the same karma: "@
            + crate::text::spec_int_digits(spec_group_total(gs[0]))
    }
}

/// Renders the fight outcome, as `spec_fight_reply` says.
pub fn fight_reply(groups: &Vec<KarmaGroup>) -> (r: String)
    requires
        groups@.len() >= 1,
        forall|i: int| 0 <= i < groups@.len() ==> (#[trigger] groups@[i]).wf(),
    ensures
        r@ == spec_fight_reply(groups@),
{
    if groups.len() == 1 {
        let g = &groups[0];
        let mut out = g.main.clone();
        if g.karmas.len() > 1 {
            out.append(" (+)");
        }
        out.append(" wins with ");
        let votes = g.votes();
        let total = crate::text::i64_to_string(votes.total());
        out.append(total.as_str());
        out.append(" (+");
        let up = crate::text::u64_to_string(votes.up as u64);
        out.append(up.as_str());
        out.append(", -");
        let down = crate::text::u64_to_string(votes.down as u64);
        out.append(down.as_str());
        out.append(")");
        assert(out@ =~= spec_fight_reply(groups@));
        out
    } else {
        let mut out = String::new();
        let mut i: usize = 0;
        while i < groups.len()
            invariant
                i <= groups@.len(),
                out@ == spec_comma_join(spec_mains(groups@).take(i as int)),
            decreases groups@.len() - i,
        {
            if i > 0 {
                out.append(", ");
            }
            out.append(groups[i].main.as_str());
            proof {
                lemma_comma_join_snoc(
                    spec_mains(groups@).take(i as int),
                    spec_mains(groups@)[i as int],
                );
                assert(spec_mains(groups@).take(i + 1) =~= spec_mains(groups@).take(
                    i as int,
                ).push(spec_mains(groups@)[i as int]));
                assert(out@ =~= spec_comma_join(spec_mains(groups@).take(i + 1)));
            }
            i = i + 1;
        }
        proof {
            assert(spec_mains(groups@).take(spec_mains(groups@).len() as int) =~= spec_mains(
                groups@,
            ));
        }
        out.append(" all have the same karma: ");
        let total = crate::text::i64_to_string(groups[0].votes().total());
        out.append(total.as_str());
        assert(out@ =~= spec_fight_reply(groups@));
        out
    }
}

/// What a karmalink command asks for, read off its arguments.
#[derive(Debug, Clone, PartialEq)]
pub enum LinkCommand {
    /// One argument: describe the structure of that term's group.
    Stat(String),
    /// The syntax does not fit: answer with the usage line.
    Usage,
    /// Terms to link and the main term to link them into, split around the
    /// literal `into`.
    Link(Vec<String>, String),
}

/// Reads a karmalink command: one argument asks for the group's structure;
/// otherwise the arguments must name at least one term, the word `into`,
/// and a main term, in that order.
pub fn parse_link_command(args: &Vec<String>) -> (r: LinkCommand)
    requires
        args@.len() >= 1,
    ensures
        match r {
            LinkCommand::Stat(t) => args@.len() == 1 && t@ == args.deep_view()[0],
            LinkCommand::Usage => args@.len() >= 2 && (args@.len() == 2 || args.deep_view()[
                args@.len() - 2
            ] != "into"@),
            LinkCommand::Link(ts, main) => {
                &&& args@.len() >= 3
                &&& args.deep_view()[args@.len() - 2] == "into"@
                &&& ts.deep_view() == args.deep_view().take(args@.len() - 2)
                &&& main@ == args.deep_view()[args@.len() - 1]
            },
        },
{
    if args.len() == 1 {
        return LinkCommand::Stat(args[0].clone());
    }
    let into = String::from_str("into");
    if args.len() == 2 || !args[args.len() - 2].eq(&into) {
        return LinkCommand::Usage;
    }
    let mut terms: Vec<String> = Vec::new();
    let mut i: usize = 0;
    while i < args.len() - 2
        invariant
            args@.len() >= 3,
            i <= args@.len() - 2,
            terms.deep_view() == args.deep_view().take(i as int),
        decreases args@.len() - 2 - i,
    {
        let ghost pre = terms.deep_view();
        terms.push(args[i].clone());
        proof {
            assert(terms.deep_view() =~= pre.push(args.deep_view()[i as int]));
            assert(args.deep_view().take(i + 1) =~= args.deep_view().take(i as int).push(
                args.deep_view()[i as int],
            ));
        }
        i = i + 1;
    }
    let main = args[args.len() - 1].clone();
    LinkCommand::Link(terms, main)
}

/// The reply to an unlink request: either the lone term was not linked, or
/// the freed terms are listed.
pub open spec fn spec_unlink_reply(outcome: crate::ops::UnlinkOutcome) -> Seq<char> {
    match outcome {
        crate::ops::UnlinkOutcome::NotLinked(t) => t@ + " is not linked"@,
        crate::ops::UnlinkOutcome::Unlinked(ts) => "Ack, unlinked "@
            + crate::group::spec_quoted_join(ts.deep_view()),
    }
}

pub fn unlink_reply(outcome: &crate::ops::UnlinkOutcome) -> (r: String)
    ensures
        r@ == spec_unlink_reply(*outcome),
{
    match outcome {
        crate::ops::UnlinkOutcome::NotLinked(t) => {
            let mut out = t.clone();
            out.append(" is not linked");
            assert(out@ =~= spec_unlink_reply(*outcome));
            out
        },
        crate::ops::UnlinkOutcome::Unlinked(ts) => {
            let mut out = String::from_str("Ack, unlinked ");
            let ghost base = out@;
            let mut i: usize = 0;
            while i < ts.len()
                invariant
                    i <= ts@.len(),
                    base == "Ack, unlinked "@,
                    out@ == base + crate::group::spec_quoted_join(ts.deep_view().take(i as int)),
                decreases ts@.len() - i,
            {
                if i > 0 {
                    out.append(", '");
                } else {
                    out.append("'");
                }
                out.append(ts[i].as_str());
                out.append("'");
                proof {
                    crate::group::lemma_quoted_join_snoc(
                        ts.deep_view().take(i as int),
                        ts.deep_view()[i as int],
                    );
                    assert(ts.deep_view().take(i + 1) =~= ts.deep_view().take(i as int).push(
                        ts.deep_view()[i as int],
                    ));
                    assert(out@ =~= base + crate::group::spec_quoted_join(
                        ts.deep_view().take(i + 1),
                    ));
                }
                i = i + 1;
            }
            proof {
                assert(ts.deep_view().take(ts.deep_view().len() as int) =~= ts.deep_view());
            }
            assert(out@ =~= spec_unlink_reply(*outcome));
            out
        },
    }
}

/// The refusal a link request earns when terms are already linked: the
/// terms, quoted, and the advice to split first.
pub open spec fn spec_already_linked_reply(ls: Seq<Seq<char>>, highlight: Seq<char>) -> Seq<
    char,
> {
    crate::group::spec_quoted_join(ls) + " are already linked. Split first using "@ + highlight
        + "karmaunlink X"@
}

pub fn already_linked_reply(ls: &Vec<String>, highlight: &str) -> (r: String)
    ensures
        r@ == spec_already_linked_reply(ls.deep_view(), highlight@),
{
    let mut out = String::new();
    let mut i: usize = 0;
    while i < ls.len()
        invariant
            i <= ls@.len(),
            out@ == crate::group::spec_quoted_join(ls.deep_view().take(i as int)),
        decreases ls@.len() - i,
    {
        if i > 0 {
            out.append(", '");
        } else {
            out.append("'");
        }
        out.append(ls[i].as_str());
        out.append("'");
        proof {
            crate::group::lemma_quoted_join_snoc(
                ls.deep_view().take(i as int),
                ls.deep_view()[i as int],
            );
            assert(ls.deep_view().take(i + 1) =~= ls.deep_view().take(i as int).push(
                ls.deep_view()[i as int],
            ));
            assert(out@ =~= crate::group::spec_quoted_join(ls.deep_view().take(i + 1)));
        }
        i = i + 1;
    }
    proof {
        assert(ls.deep_view().take(ls.deep_view().len() as int) =~= ls.deep_view());
    }
    out.append(" are already linked. Split first using ");
    out.append(highlight);
    out.append("karmaunlink X");
    assert(out@ =~= spec_already_linked_reply(ls.deep_view(), highlight@));
    out
}

/// The usage line of the karmalink command.
pub fn link_usage_reply(highlight: &str) -> (r: String)
    ensures
        r@ == "Usage: "@ + highlight@ + "karmalink X Y into Z"@,
{
    let mut out = String::from_str("Usage: ");
    out.append(highlight);
    out.append("karmalink X Y into Z");
    assert(out@ =~= "Usage: "@ + highlight@ + "karmalink X Y into Z"@);
    out
}

/// The acknowledgement of a completed link.
pub fn linked_reply(count: usize, main_term: &str) -> (r: String)
    ensures
        r@ == "Linked "@ + crate::text::spec_nat_digits(count as nat)
            + " terms together into "@ + main_term@,
{
    let mut out = String::from_str("Linked ");
    let digits = crate::text::u64_to_string(count as u64);
    out.append(digits.as_str());
    out.append(" terms together into ");
    out.append(main_term);
    assert(out@ =~= "Linked "@ + crate::text::spec_nat_digits(count as nat)
        + " terms together into "@ + main_term@);
    out
}

/// The reply one group change earns: who changed whose karma, in which
/// direction, and where the total now stands.
pub open spec fn spec_vote_reply(nick: Seq<char>, gc: GroupChange) -> Seq<char> {
    let total = spec_group_total(gc.group);
    if gc.increase > 0 {
        nick + " increased the karma of "@ + gc.group.main@ + " to "@
            + crate::text::spec_int_digits(total)
    } else if gc.increase < 0 {
        nick + " decreased the karma of "@ + gc.group.main@ + " to "@
            + crate::text::spec_int_digits(total)
    } else {
        nick + " touched the karma of "@ + gc.group.main@ + " and its value remains "@
            + crate::text::spec_int_digits(total)
    }
}

fn vote_reply(nick: &str, gc: &GroupChange) -> (r: String)
    requires
        gc.group.wf(),
    ensures
        r@ == spec_vote_reply(nick@, *gc),
{
    let mut out = String::from_str(nick);
    if gc.increase > 0 {
        out.append(" increased the karma of ");
    } else if gc.increase < 0 {
        out.append(" decreased the karma of ");
    } else {
        out.append(" touched the karma of ");
    }
    out.append(gc.group.main.as_str());
    if gc.increase > 0 || gc.increase < 0 {
        out.append(" to ");
    } else {
        out.append(" and its value remains ");
    }
    let total = gc.group.votes().total();
    let digits = crate::text::i64_to_string(total);
    out.append(digits.as_str());
    assert(out@ =~= spec_vote_reply(nick@, *gc));
    out
}

/// The replies a message earns: one per touched group whose merged style
/// asked for a reply; silent and implicit changes stay quiet.
pub open spec fn spec_notify_replies(nick: Seq<char>, gcs: Seq<GroupChange>) -> Seq<Seq<char>>
    decreases gcs.len(),
{
    if gcs.len() == 0 {
        Seq::empty()
    } else {
        let pre = spec_notify_replies(nick, gcs.drop_last());
        if gcs.last().style == KarmaStyle::Notify {
            pre.push(spec_vote_reply(nick, gcs.last()))
        } else {
            pre
        }
    }
}

pub fn notify_replies(nick: &str, gcs: &Vec<GroupChange>) -> (r: Vec<String>)
    requires
        forall|i: int| 0 <= i < gcs@.len() ==> (#[trigger] gcs@[i]).group.wf(),
    ensures
        r.deep_view() == spec_notify_replies(nick@, gcs@),
{
    let mut out: Vec<String> = Vec::new();
    let mut i: usize = 0;
    while i < gcs.len()
        invariant
            i <= gcs@.len(),
            forall|t: int| 0 <= t < gcs@.len() ==> (#[trigger] gcs@[t]).group.wf(),
            out.deep_view() == spec_notify_replies(nick@, gcs@.take(i as int)),
        decreases gcs@.len() - i,
    {
        let ghost pre = out.deep_view();
        match gcs[i].style {
            KarmaStyle::Notify => {
                let reply = vote_reply(nick, &gcs[i]);
                out.push(reply);
                proof {
                    assert(out.deep_view() =~= pre.push(spec_vote_reply(
                        nick@,
                        gcs@[i as int],
                    )));
                }
            },
            _ => {},
        }
        proof {
            assert(gcs@.take(i + 1).drop_last() =~= gcs@.take(i as int));
            assert(gcs@.take(i + 1).last() == gcs@[i as int]);
        }
        i = i + 1;
    }
    proof {
        assert(gcs@.take(gcs@.len() as int) =~= gcs@);
    }
    out
}

} // verus!
