//! An in-memory model of the scoped key-value store that karma records are
//! persisted in: opaque string values under string keys, synchronous get and
//! set, no transactions.  The store a deployment talks to lives elsewhere;
//! this one gives the record, resolver and group operations a concrete store
//! to be verified and exercised against.

use vstd::prelude::*;

verus! {

broadcast use vstd::string::group_string_axioms;

/// The mathematical contents of a sequence of key/value entries: later
/// entries win, though a well-formed store never repeats a key.
pub open spec fn entries_map(s: Seq<(String, String)>) -> Map<Seq<char>, Seq<char>>
    decreases s.len(),
{
    if s.len() == 0 {
        Map::empty()
    } else {
        entries_map(s.drop_last()).insert(s.last().0@, s.last().1@)
    }
}

/// No key occurs twice.
pub open spec fn entries_unique(s: Seq<(String, String)>) -> bool {
    forall|i: int, j: int| 0 <= i < j < s.len() ==> (#[trigger] s[i]).0@ != (#[trigger] s[j]).0@
}

/// Some entry of `s` has key `k`.
pub open spec fn has_key(s: Seq<(String, String)>, k: Seq<char>) -> bool {
    exists|i: int| 0 <= i < s.len() && (#[trigger] s[i]).0@ == k
}

proof fn lemma_entries_map_dom(s: Seq<(String, String)>)
    ensures
        forall|k: Seq<char>| #[trigger] entries_map(s).dom().contains(k) <==> has_key(s, k),
    decreases s.len(),
{
    if s.len() > 0 {
        lemma_entries_map_dom(s.drop_last());
        assert forall|k: Seq<char>| #[trigger]
            entries_map(s).dom().contains(k) <==> has_key(s, k) by {
            let last = s.last();
            assert(entries_map(s) == entries_map(s.drop_last()).insert(last.0@, last.1@));
            if entries_map(s).dom().contains(k) {
                if k == last.0@ {
                    assert(s[s.len() - 1].0@ == k);
                    assert(has_key(s, k));
                } else {
                    assert(entries_map(s.drop_last()).dom().contains(k));
                    assert(has_key(s.drop_last(), k));
                    let i = choose|i: int|
                        0 <= i < s.drop_last().len() && (#[trigger] s.drop_last()[i]).0@ == k;
                    assert(s.drop_last()[i] == s[i]);
                    assert(has_key(s, k));
                }
            }
            if has_key(s, k) {
                let i = choose|i: int| 0 <= i < s.len() && (#[trigger] s[i]).0@ == k;
                if i < s.len() - 1 {
                    assert(s.drop_last()[i].0@ == k);
                    assert(has_key(s.drop_last(), k));
                    assert(entries_map(s.drop_last()).dom().contains(k));
                }
                assert(entries_map(s).dom().contains(k));
            }
        }
    } else {
        assert forall|k: Seq<char>| #[trigger]
            entries_map(s).dom().contains(k) <==> has_key(s, k) by {
            assert(!entries_map(s).dom().contains(k));
            if has_key(s, k) {
                let i = choose|i: int| 0 <= i < s.len() && (#[trigger] s[i]).0@ == k;
                assert(false);
            }
        }
    }
}

proof fn lemma_entries_map_get(s: Seq<(String, String)>, i: int)
    requires
        entries_unique(s),
        0 <= i < s.len(),
    ensures
        entries_map(s).dom().contains(s[i].0@),
        entries_map(s)[s[i].0@] == s[i].1@,
    decreases s.len(),
{
    if i == s.len() - 1 {
    } else {
        assert(s[i].0@ != s.last().0@);
        assert(s.drop_last()[i] == s[i]);
        lemma_entries_map_get(s.drop_last(), i);
    }
}

proof fn lemma_entries_map_finite(s: Seq<(String, String)>)
    ensures
        entries_map(s).dom().finite(),
        entries_map(s).dom().len() <= s.len(),
    decreases s.len(),
{
    if s.len() > 0 {
        lemma_entries_map_finite(s.drop_last());
    }
}

/// The in-memory store.
pub struct MemStore {
    entries: Vec<(String, String)>,
}

impl View for MemStore {
    type V = Map<Seq<char>, Seq<char>>;

    closed spec fn view(&self) -> Map<Seq<char>, Seq<char>> {
        entries_map(self.entries@)
    }
}

impl MemStore {
    /// Store well-formedness: no key occurs twice.
    pub closed spec fn wf(self) -> bool {
        entries_unique(self.entries@)
    }

    /// How many entries the store holds; the size of its contents.
    pub closed spec fn spec_size(self) -> nat {
        self.entries@.len()
    }

    /// The contents never hold more keys than the store has entries.
    pub proof fn lemma_size(self)
        ensures
            self@.dom().finite(),
            self@.dom().len() <= self.spec_size(),
    {
        lemma_entries_map_finite(self.entries@);
    }

    /// An empty store.
    pub fn new() -> (r: MemStore)
        ensures
            r.wf(),
            r@ == Map::<Seq<char>, Seq<char>>::empty(),
            r.spec_size() == 0,
    {
        MemStore { entries: Vec::new() }
    }

    pub fn size(&self) -> (r: usize)
        ensures
            r == self.spec_size(),
    {
        self.entries.len()
    }

    /// Looks a key up, as the contents map says.
    pub fn get(&self, key: &String) -> (r: Option<&String>)
        requires
            self.wf(),
        ensures
            match r {
                Some(v) => self@.dom().contains(key@) && v@ == self@[key@],
                None => !self@.dom().contains(key@),
            },
    {
        let mut i: usize = 0;
        while i < self.entries.len()
            invariant
                i <= self.entries@.len(),
                self.wf(),
                forall|t: int| 0 <= t < i ==> (#[trigger] self.entries@[t]).0@ != key@,
            decreases self.entries@.len() - i,
        {
            let e = &self.entries[i];
            if e.0.eq(key) {
                proof {
                    lemma_entries_map_get(self.entries@, i as int);
                }
                return Some(&e.1);
            }
            i = i + 1;
        }
        proof {
            lemma_entries_map_dom(self.entries@);
            if has_key(self.entries@, key@) {
                let t = choose|t: int|
                    0 <= t < self.entries@.len() && (#[trigger] self.entries@[t]).0@ == key@;
                assert(false);
            }
        }
        None
    }

    /// Binds a key to a value, replacing what the key was bound to before.
    pub fn set(&mut self, key: String, value: String)
        requires
            old(self).wf(),
        ensures
            final(self).wf(),
            final(self)@ == old(self)@.insert(key@, value@),
            final(self).spec_size() <= old(self).spec_size() + 1,
    {
        let ghost pre = self.entries@;
        let mut i: usize = 0;
        while i < self.entries.len()
            invariant
                i <= self.entries@.len(),
                self.entries@ == pre,
                pre == old(self).entries@,
                entries_unique(pre),
                forall|t: int| 0 <= t < i ==> (#[trigger] self.entries@[t]).0@ != key@,
            decreases self.entries@.len() - i,
        {
            let e = &self.entries[i];
            if e.0.eq(&key) {
                self.entries[i] = (key, value);
                proof {
                    lemma_set_replace(pre, self.entries@, i as int);
                }
                return ;
            }
            i = i + 1;
        }
        self.entries.push((key, value));
        proof {
            assert(self.entries@.drop_last() =~= pre);
        }
    }
}

proof fn lemma_set_replace(pre: Seq<(String, String)>, post: Seq<(String, String)>, i: int)
    requires
        entries_unique(pre),
        0 <= i < pre.len(),
        post.len() == pre.len(),
        post[i].0@ == pre[i].0@,
        forall|t: int| 0 <= t < pre.len() && t != i ==> post[t] == pre[t],
    ensures
        entries_unique(post),
        entries_map(post) == entries_map(pre).insert(post[i].0@, post[i].1@),
    decreases pre.len(),
{
    assert forall|a: int, b: int| 0 <= a < b < post.len() implies (#[trigger] post[a]).0@
        != (#[trigger] post[b]).0@ by {
        assert(pre[a].0@ != pre[b].0@);
    }
    if i == pre.len() - 1 {
        assert(post.drop_last() =~= pre.drop_last());
        assert(entries_map(post) == entries_map(pre.drop_last()).insert(post[i].0@, post[i].1@));
        assert(entries_map(pre) == entries_map(pre.drop_last()).insert(pre[i].0@, pre[i].1@));
        assert(entries_map(pre).insert(post[i].0@, post[i].1@) =~= entries_map(
            pre.drop_last(),
        ).insert(post[i].0@, post[i].1@));
    } else {
        assert(forall|t: int|
            0 <= t < pre.drop_last().len() && t != i ==> #[trigger] post.drop_last()[t]
                == pre.drop_last()[t]);
        assert(post.drop_last()[i] == post[i]);
        assert(pre.drop_last()[i] == pre[i]);
        lemma_set_replace(pre.drop_last(), post.drop_last(), i);
        assert(post.last() == pre.last());
        assert(entries_map(post) == entries_map(pre.drop_last()).insert(
            post[i].0@,
            post[i].1@,
        ).insert(pre.last().0@, pre.last().1@));
        assert(pre.last().0@ != post[i].0@);
        assert(entries_map(pre.drop_last()).insert(post[i].0@, post[i].1@).insert(
            pre.last().0@,
            pre.last().1@,
        ) =~= entries_map(pre.drop_last()).insert(pre.last().0@, pre.last().1@).insert(
            post[i].0@,
            post[i].1@,
        ));
    }
}

} // verus!
