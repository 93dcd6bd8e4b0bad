//! The bookmark store: a mapping from short names to directory paths,
//! held as a vector of pairs strictly sorted by name, and viewed in
//! contracts as a `Map` from character sequences to character sequences.

use vstd::prelude::*;
use crate::text::{lex_lt, lemma_lex_asym, lemma_lex_connected, lemma_lex_trans, str_lt, str_eq};

verus! {

/// The pair of character sequences a `(String, String)` entry denotes.
pub open spec fn entry_view(p: (String, String)) -> (Seq<char>, Seq<char>) {
    (p.0@, p.1@)
}

/// The character-sequence pairs a vector of string pairs denotes.
pub open spec fn pairs_view(s: Seq<(String, String)>) -> Seq<(Seq<char>, Seq<char>)> {
    s.map_values(|p: (String, String)| entry_view(p))
}

/// The mapping denoted by a sequence of (name, path) pairs, later
/// entries overriding earlier ones with the same name.
pub open spec fn map_of_pairs(s: Seq<(Seq<char>, Seq<char>)>) -> Map<Seq<char>, Seq<char>>
    decreases s.len(),
{
    if s.len() == 0 {
        Map::empty()
    } else {
        map_of_pairs(s.drop_last()).insert(s.last().0, s.last().1)
    }
}

/// Names strictly ascend in lexicographic order.
pub open spec fn sorted_keys(s: Seq<(Seq<char>, Seq<char>)>) -> bool {
    forall|i: int, j: int| 0 <= i < j < s.len() ==> lex_lt(#[trigger] s[i].0, #[trigger] s[j].0)
}

/// No two entries share a name.
pub open spec fn distinct_keys(s: Seq<(Seq<char>, Seq<char>)>) -> bool {
    forall|i: int, j: int| 0 <= i < j < s.len() ==> (#[trigger] s[i].0) != (#[trigger] s[j].0)
}

pub proof fn lemma_sorted_distinct(s: Seq<(Seq<char>, Seq<char>)>)
    requires
        sorted_keys(s),
    ensures
        distinct_keys(s),
{
    assert forall|i: int, j: int| 0 <= i < j < s.len() implies (#[trigger] s[i].0) != (#[trigger] s[j].0) by {
        lemma_lex_asym(s[i].0, s[j].0);
    }
}

/// A name is in the denoted mapping exactly when some entry carries it.
pub proof fn lemma_map_contains_key(s: Seq<(Seq<char>, Seq<char>)>, k: Seq<char>)
    ensures
        map_of_pairs(s).dom().contains(k) <==> (exists|i: int| 0 <= i < s.len() && (#[trigger] s[i]).0 == k),
    decreases s.len(),
{
    if s.len() > 0 {
        let d = s.drop_last();
        lemma_map_contains_key(d, k);
        assert(forall|i: int| 0 <= i < d.len() ==> #[trigger] d[i] == s[i]);
        if s.last().0 == k {
            assert(s[s.len() - 1].0 == k);
        } else {
            if exists|i: int| 0 <= i < s.len() && (#[trigger] s[i]).0 == k {
                let i = choose|i: int| 0 <= i < s.len() && (#[trigger] s[i]).0 == k;
                assert(i < s.len() - 1);
                assert(d[i].0 == k);
            }
        }
    }
}

/// With distinct names, each entry's path is the mapping's value at its name.
pub proof fn lemma_map_index(s: Seq<(Seq<char>, Seq<char>)>, i: int)
    requires
        distinct_keys(s),
        0 <= i < s.len(),
    ensures
        map_of_pairs(s).dom().contains(s[i].0),
        map_of_pairs(s)[s[i].0] == s[i].1,
    decreases s.len(),
{
    if i < s.len() - 1 {
        let d = s.drop_last();
        assert(forall|j: int| 0 <= j < d.len() ==> #[trigger] d[j] == s[j]);
        lemma_map_index(d, i);
        assert(s.last().0 != s[i].0);
    }
}

/// Inserting an entry with a fresh name at any position inserts it in the mapping.
pub proof fn lemma_map_insert_fresh(s: Seq<(Seq<char>, Seq<char>)>, i: int, k: Seq<char>, v: Seq<char>)
    requires
        0 <= i <= s.len(),
        forall|j: int| 0 <= j < s.len() ==> (#[trigger] s[j]).0 != k,
    ensures
        map_of_pairs(s.insert(i, (k, v))) == map_of_pairs(s).insert(k, v),
    decreases s.len(),
{
    let t = s.insert(i, (k, v));
    if i == s.len() {
        assert(t.drop_last() =~= s);
        assert(t.last() == (k, v));
    } else {
        let d = s.drop_last();
        assert(forall|j: int| 0 <= j < d.len() ==> #[trigger] d[j] == s[j]);
        assert(t.last() == s.last());
        assert(t.drop_last() =~= d.insert(i, (k, v)));
        lemma_map_insert_fresh(d, i, k, v);
        let m = map_of_pairs(d);
        assert(s[s.len() - 1].0 != k);
        assert(m.insert(k, v).insert(s.last().0, s.last().1) =~= m.insert(s.last().0, s.last().1).insert(k, v));
    }
}

/// Replacing the path of the entry at `i` updates the mapping at its name.
pub proof fn lemma_map_update_value(s: Seq<(Seq<char>, Seq<char>)>, i: int, v: Seq<char>)
    requires
        distinct_keys(s),
        0 <= i < s.len(),
    ensures
        map_of_pairs(s.update(i, (s[i].0, v))) == map_of_pairs(s).insert(s[i].0, v),
    decreases s.len(),
{
    let k = s[i].0;
    let t = s.update(i, (k, v));
    if i == s.len() - 1 {
        assert(t.drop_last() =~= s.drop_last());
        assert(t.last() == (k, v));
        let m = map_of_pairs(s.drop_last());
        assert(m.insert(k, s.last().1).insert(k, v) =~= m.insert(k, v));
    } else {
        let d = s.drop_last();
        assert(forall|j: int| 0 <= j < d.len() ==> #[trigger] d[j] == s[j]);
        assert(t.last() == s.last());
        assert(t.drop_last() =~= d.update(i, (k, v)));
        lemma_map_update_value(d, i, v);
        let m = map_of_pairs(d);
        assert(s.last().0 != k);
        assert(m.insert(k, v).insert(s.last().0, s.last().1) =~= m.insert(s.last().0, s.last().1).insert(k, v));
    }
}

/// Removing the entry at `i` removes its name from the mapping.
pub proof fn lemma_map_remove_at(s: Seq<(Seq<char>, Seq<char>)>, i: int)
    requires
        distinct_keys(s),
        0 <= i < s.len(),
    ensures
        map_of_pairs(s.remove(i)) == map_of_pairs(s).remove(s[i].0),
    decreases s.len(),
{
    let k = s[i].0;
    let t = s.remove(i);
    if i == s.len() - 1 {
        assert(t =~= s.drop_last());
        let m = map_of_pairs(s.drop_last());
        lemma_map_contains_key(s.drop_last(), k);
        assert(forall|j: int| 0 <= j < s.len() - 1 ==> #[trigger] s.drop_last()[j] == s[j]);
        assert(!m.dom().contains(k));
        assert(m.insert(k, s.last().1).remove(k) =~= m);
    } else {
        let d = s.drop_last();
        assert(forall|j: int| 0 <= j < d.len() ==> #[trigger] d[j] == s[j]);
        assert(t.len() == s.len() - 1);
        assert(t.last() == s.last());
        assert(t.drop_last() =~= d.remove(i));
        lemma_map_remove_at(d, i);
        let m = map_of_pairs(d);
        assert(s.last().0 != k);
        assert(m.remove(k).insert(s.last().0, s.last().1) =~= m.insert(s.last().0, s.last().1).remove(k));
    }
}

/// The in-memory bookmark store.
pub struct Store {
    entries: Vec<(String, String)>,
}

impl View for Store {
    type V = Map<Seq<char>, Seq<char>>;

    open spec fn view(&self) -> Map<Seq<char>, Seq<char>> {
        map_of_pairs(self.entries_view())
    }
}

impl Store {
    /// The (name, path) pairs held, in listing order.
    pub closed spec fn entries_view(&self) -> Seq<(Seq<char>, Seq<char>)> {
        pairs_view(self.entries@)
    }

    /// Well-formedness: names strictly ascend, so each name occurs once.
    pub open spec fn wf(&self) -> bool {
        sorted_keys(self.entries_view())
    }

    /// An empty store.
    pub fn new() -> (r: Store)
        ensures
            r.wf(),
            r.entries_view() == Seq::<(Seq<char>, Seq<char>)>::empty(),
            r@ == Map::<Seq<char>, Seq<char>>::empty(),
    {
        let r = Store { entries: Vec::new() };
        proof {
            assert(r.entries_view() =~= Seq::<(Seq<char>, Seq<char>)>::empty());
        }
        r
    }

    /// How many bookmarks are held.
    pub fn len(&self) -> (n: usize)
        ensures
            n == self.entries_view().len(),
    {
        self.entries.len()
    }

    /// The entry at position `i` in listing order.
    pub fn entry_at(&self, i: usize) -> (r: (&String, &String))
        requires
            i < self.entries_view().len(),
        ensures
            r.0@ == self.entries_view()[i as int].0,
            r.1@ == self.entries_view()[i as int].1,
    {
        (&self.entries[i].0, &self.entries[i].1)
    }

    /// The position where `name` stands or would be inserted: entries
    /// before it sort strictly below `name`, and the entry at it (if any)
    /// does not.
    fn find_pos(&self, name: &str) -> (p: usize)
        requires
            self.wf(),
        ensures
            p <= self.entries_view().len(),
            forall|j: int| 0 <= j < p ==> lex_lt(#[trigger] self.entries_view()[j].0, name@),
            p < self.entries_view().len() ==> !lex_lt(self.entries_view()[p as int].0, name@),
    {
        let mut p: usize = 0;
        loop
            invariant
                p <= self.entries_view().len(),
                self.entries_view().len() == self.entries@.len(),
                forall|j: int| 0 <= j < p ==> lex_lt(#[trigger] self.entries_view()[j].0, name@),
            ensures
                p <= self.entries_view().len(),
                forall|j: int| 0 <= j < p ==> lex_lt(#[trigger] self.entries_view()[j].0, name@),
                p == self.entries_view().len() || !lex_lt(self.entries_view()[p as int].0, name@),
            decreases self.entries@.len() - p,
        {
            if p == self.entries.len() {
                break;
            }
            if !str_lt(self.entries[p].0.as_str(), name) {
                break;
            }
            assert(self.entries_view()[p as int].0 == self.entries@[p as int].0@);
            p = p + 1;
        }
        p
    }

    /// Sets or overwrites the path bookmarked under `name`.  The size
    /// grows by one for a fresh name and is unchanged when `name` was
    /// already bookmarked.
    pub fn insert(&mut self, name: String, path: String)
        requires
            old(self).wf(),
        ensures
            final(self).wf(),
            final(self)@ == old(self)@.insert(name@, path@),
            old(self)@.dom().contains(name@) ==> final(self).entries_view().len() == old(self).entries_view().len(),
            !old(self)@.dom().contains(name@) ==> final(self).entries_view().len() == old(self).entries_view().len() + 1,
    {
        let ghost sv = self.entries_view();
        proof {
            lemma_sorted_distinct(sv);
            lemma_map_contains_key(sv, name@);
        }
        let p = self.find_pos(name.as_str());
        let found = p < self.entries.len() && str_eq(self.entries[p].0.as_str(), name.as_str());
        if found {
            proof {
                assert(sv[p as int].0 == name@);
                lemma_map_update_value(sv, p as int, path@);
            }
            self.entries.remove(p);
            self.entries.insert(p, (name, path));
            proof {
                assert(self.entries@ =~= old(self).entries@.update(p as int, (name, path)));
                assert(self.entries_view() =~= sv.update(p as int, (name@, path@)));
                assert forall|i: int, j: int| 0 <= i < j < self.entries_view().len()
                    implies lex_lt(#[trigger] self.entries_view()[i].0, #[trigger] self.entries_view()[j].0) by {
                    assert(self.entries_view()[i].0 == sv[i].0);
                    assert(self.entries_view()[j].0 == sv[j].0);
                }
            }
        } else {
            proof {
                // `name` is fresh: entries before `p` sort below it, and the
                // one at `p` (if any) sorts strictly above it.
                if p < sv.len() {
                    assert(sv[p as int].0 != name@);
                    lemma_lex_connected(sv[p as int].0, name@);
                }
                assert forall|j: int| 0 <= j < sv.len() implies (#[trigger] sv[j]).0 != name@ by {
                    if j < p {
                        lemma_lex_asym(sv[j].0, name@);
                    } else {
                        if j > p {
                            assert(lex_lt(sv[p as int].0, sv[j].0));
                            lemma_lex_trans(name@, sv[p as int].0, sv[j].0);
                        }
                        lemma_lex_asym(name@, sv[j].0);
                    }
                }
                lemma_map_insert_fresh(sv, p as int, name@, path@);
            }
            let ghost kq = name@;
            let ghost vq = path@;
            self.entries.insert(p, (name, path));
            proof {
                assert(self.entries_view() =~= sv.insert(p as int, (kq, vq)));
                let t = self.entries_view();
                assert forall|i: int, j: int| 0 <= i < j < t.len()
                    implies lex_lt(#[trigger] t[i].0, #[trigger] t[j].0) by {
                    if j < p {
                        assert(t[i] == sv[i] && t[j] == sv[j]);
                        lemma_lex_trans(sv[i].0, sv[j].0, kq);
                    } else if i < p && j == p {
                        assert(t[i] == sv[i]);
                    } else if i < p && j > p {
                        assert(t[i] == sv[i] && t[j] == sv[j - 1]);
                        if j - 1 > i {
                        } else {
                            assert(j - 1 == i && i == p - 1 ==> false);
                        }
                        if i <= j - 2 {
                            assert(lex_lt(sv[i].0, sv[j - 1].0));
                        } else {
                            assert(i == j - 1);
                            assert(i < p && p <= j - 1 ==> false);
                        }
                    } else if i == p {
                        assert(t[j] == sv[j - 1]);
                        if j - 1 >= p {
                            if j - 1 == p {
                                assert(t[j].0 == sv[p as int].0);
                            } else {
                                assert(lex_lt(sv[p as int].0, sv[j - 1].0));
                                lemma_lex_trans(kq, sv[p as int].0, sv[j - 1].0);
                            }
                        }
                    } else {
                        assert(t[i] == sv[i - 1] && t[j] == sv[j - 1]);
                    }
                }
            }
        }
    }

    /// Removes the bookmark under `name` if present, reporting whether a
    /// removal occurred.  On a miss the store is left unchanged.
    pub fn remove(&mut self, name: &str) -> (found: bool)
        requires
            old(self).wf(),
        ensures
            final(self).wf(),
            found == old(self)@.dom().contains(name@),
            final(self)@ == old(self)@.remove(name@),
            !found ==> *final(self) == *old(self),
    {
        let ghost sv = self.entries_view();
        proof {
            lemma_sorted_distinct(sv);
            lemma_map_contains_key(sv, name@);
        }
        let p = self.find_pos(name);
        let found = p < self.entries.len() && str_eq(self.entries[p].0.as_str(), name);
        if found {
            proof {
                assert(sv[p as int].0 == name@);
                lemma_map_remove_at(sv, p as int);
            }
            self.entries.remove(p);
            proof {
                assert(self.entries_view() =~= sv.remove(p as int));
                let t = self.entries_view();
                assert forall|i: int, j: int| 0 <= i < j < t.len()
                    implies lex_lt(#[trigger] t[i].0, #[trigger] t[j].0) by {
                    let i0: int = if i < p { i } else { i + 1 };
                    let j0: int = if j < p { j } else { j + 1 };
                    assert(t[i] == sv[i0]);
                    assert(t[j] == sv[j0]);
                }
            }
            true
        } else {
            proof {
                // `name` is bookmarked nowhere: entries before `p` sort
                // below it, the rest strictly above.
                if p < sv.len() {
                    assert(sv[p as int].0 != name@);
                    lemma_lex_connected(sv[p as int].0, name@);
                }
                assert forall|j: int| 0 <= j < sv.len() implies (#[trigger] sv[j]).0 != name@ by {
                    if j < p {
                        lemma_lex_asym(sv[j].0, name@);
                    } else {
                        if j > p {
                            assert(lex_lt(sv[p as int].0, sv[j].0));
                            lemma_lex_trans(name@, sv[p as int].0, sv[j].0);
                        }
                        lemma_lex_asym(name@, sv[j].0);
                    }
                }
                assert(!old(self)@.dom().contains(name@));
                assert(old(self)@.remove(name@) =~= old(self)@);
            }
            false
        }
    }

    /// The path bookmarked under `name`, if any.
    pub fn lookup(&self, name: &str) -> (r: Option<String>)
        requires
            self.wf(),
        ensures
            match r {
                Some(p) => self@.dom().contains(name@) && p@ == self@[name@],
                None => !self@.dom().contains(name@),
            },
    {
        let ghost sv = self.entries_view();
        proof {
            lemma_sorted_distinct(sv);
            lemma_map_contains_key(sv, name@);
        }
        let p = self.find_pos(name);
        if p < self.entries.len() && str_eq(self.entries[p].0.as_str(), name) {
            proof {
                assert(sv[p as int].0 == name@);
                lemma_map_index(sv, p as int);
            }
            Some(self.entries[p].1.clone())
        } else {
            proof {
                if p < sv.len() {
                    assert(sv[p as int].0 != name@);
                    lemma_lex_connected(sv[p as int].0, name@);
                }
                assert forall|j: int| 0 <= j < sv.len() implies (#[trigger] sv[j]).0 != name@ by {
                    if j < p {
                        lemma_lex_asym(sv[j].0, name@);
                    } else {
                        if j > p {
                            assert(lex_lt(sv[p as int].0, sv[j].0));
                            lemma_lex_trans(name@, sv[p as int].0, sv[j].0);
                        }
                        lemma_lex_asym(name@, sv[j].0);
                    }
                }
            }
            None
        }
    }

    /// All bookmarks, in ascending name order.
    pub fn list(&self) -> (r: Vec<(String, String)>)
        ensures
            pairs_view(r@) == self.entries_view(),
    {
        let mut r: Vec<(String, String)> = Vec::new();
        let mut i: usize = 0;
        while i < self.entries.len()
            invariant
                i <= self.entries@.len(),
                pairs_view(r@) =~= self.entries_view().take(i as int),
            decreases self.entries@.len() - i,
        {
            let k = self.entries[i].0.clone();
            let v = self.entries[i].1.clone();
            let ghost r0 = r@;
            r.push((k, v));
            proof {
                assert(pairs_view(r0).len() == r0.len());
                assert(r0.len() == i as int);
                assert(r@ == r0.push((k, v)));
                assert forall|j: int| 0 <= j < i + 1 implies #[trigger] pairs_view(r@)[j]
                    == self.entries_view().take(i + 1)[j] by {
                    if j < i {
                        assert(r@[j] == r0.push((k, v))[j]);
                        assert(r@[j] == r0[j]);
                        assert(pairs_view(r0)[j] == self.entries_view().take(i as int)[j]);
                    } else {
                        assert(r@[j] == (k, v));
                        assert(self.entries_view()[j] == entry_view(self.entries@[j]));
                    }
                }
                assert(pairs_view(r@) =~= self.entries_view().take(i + 1));
            }
            i = i + 1;
        }
        proof {
            assert(self.entries_view().take(self.entries@.len() as int) =~= self.entries_view());
        }
        r
    }

    /// The store holding the given pairs, inserted in order with later
    /// pairs overriding earlier ones of the same name.
    pub fn from_pairs(pairs: Vec<(String, String)>) -> (r: Store)
        ensures
            r.wf(),
            r@ == map_of_pairs(pairs_view(pairs@)),
    {
        let ghost pv = pairs_view(pairs@);
        let mut r = Store::new();
        let mut i: usize = 0;
        while i < pairs.len()
            invariant
                i <= pairs@.len(),
                pv == pairs_view(pairs@),
                r.wf(),
                r@ == map_of_pairs(pv.take(i as int)),
            decreases pairs@.len() - i,
        {
            let k = pairs[i].0.clone();
            let v = pairs[i].1.clone();
            proof {
                let t = pv.take(i + 1);
                assert(t.drop_last() =~= pv.take(i as int));
                assert(t.last() == (k@, v@));
            }
            r.insert(k, v);
            i = i + 1;
        }
        proof {
            assert(pv.take(pairs@.len() as int) =~= pv);
        }
        r
    }
}

/// Listing is a pure function of the store: any two results of `list`
/// on the same unmodified store denote the same sequence of pairs.
pub proof fn lemma_list_idempotent(st: Store, r1: Seq<(String, String)>, r2: Seq<(String, String)>)
    requires
        pairs_view(r1) == st.entries_view(),
        pairs_view(r2) == st.entries_view(),
    ensures
        pairs_view(r1) == pairs_view(r2),
{
}

} // verus!
