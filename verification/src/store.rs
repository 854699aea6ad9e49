//! The ordered store: a mapping from paths to leaves kept as a vector sorted
//! in strictly ascending path order.  The order is what makes prefix range
//! queries possible without a full scan: all paths sharing a prefix stand in
//! one contiguous run.

use vstd::prelude::*;

use crate::leaf::Leaf;
use crate::leaf::LeafView;
use crate::leaf::leaf_text;
use crate::path::SchemaPath;
use crate::path::StepView;
use crate::path::is_prefix;
use crate::path::lemma_path_lt_trans;
use crate::path::lemma_path_lt_trichotomy;
use crate::path::lemma_prefix_le;
use crate::path::lemma_prefix_window;
use crate::path::parse_path;
use crate::path::path_cmp;
use crate::path::path_has_prefix;
use crate::path::path_le;
use crate::path::path_lt;
use crate::path::path_text;
use crate::path::split_slash_path;

verus! {

/// The view of a vector of (path, leaf) pairs.
pub open spec fn pairs_view(s: Seq<(SchemaPath, Leaf)>) -> Seq<(Seq<StepView>, LeafView)> {
    s.map_values(|e: (SchemaPath, Leaf)| (e.0@, e.1@))
}

/// Entries stand in strictly ascending path order.
pub open spec fn sorted_entries(s: Seq<(Seq<StepView>, LeafView)>) -> bool {
    forall|i: int, j: int|
        0 <= i < j < s.len() ==> path_lt(#[trigger] s[i].0, #[trigger] s[j].0)
}

/// No two entries share a path.
pub open spec fn distinct_keys(s: Seq<(Seq<StepView>, LeafView)>) -> bool {
    forall|i: int, j: int| 0 <= i < j < s.len() ==> (#[trigger] s[i].0) != (#[trigger] s[j].0)
}

/// The mapping that a sequence of entries holds; a later entry for the same
/// path wins.
pub open spec fn seq_to_map(s: Seq<(Seq<StepView>, LeafView)>) -> Map<Seq<StepView>, LeafView>
    decreases s.len(),
{
    if s.len() == 0 {
        Map::empty()
    } else {
        seq_to_map(s.drop_last()).insert(s.last().0, s.last().1)
    }
}

pub proof fn lemma_sorted_distinct(s: Seq<(Seq<StepView>, LeafView)>)
    requires
        sorted_entries(s),
    ensures
        distinct_keys(s),
{
    assert forall|i: int, j: int| 0 <= i < j < s.len() implies (#[trigger] s[i].0) != (
    #[trigger] s[j].0) by {
        lemma_path_lt_trichotomy(s[i].0, s[j].0);
    }
}

/// With distinct paths, the mapping holds exactly the entries: every entry's
/// path maps to its leaf, and nothing else is in the domain.
pub proof fn lemma_map_of_entries(s: Seq<(Seq<StepView>, LeafView)>)
    requires
        distinct_keys(s),
    ensures
        forall|p: Seq<StepView>|
            #[trigger] seq_to_map(s).contains_key(p) ==> exists|i: int|
                0 <= i < s.len() && (#[trigger] s[i]).0 == p,
        forall|i: int|
            0 <= i < s.len() ==> seq_to_map(s).contains_key((#[trigger] s[i]).0) && seq_to_map(
                s,
            )[s[i].0] == s[i].1,
    decreases s.len(),
{
    if s.len() > 0 {
        let s0 = s.drop_last();
        let k = s.last().0;
        let v = s.last().1;
        assert(forall|i: int| 0 <= i < s0.len() ==> (#[trigger] s0[i]) == s[i]);
        assert(distinct_keys(s0));
        lemma_map_of_entries(s0);
        let m = seq_to_map(s);
        assert(m == seq_to_map(s0).insert(k, v));
        assert forall|p: Seq<StepView>| #[trigger] m.contains_key(p) implies exists|i: int|
            0 <= i < s.len() && (#[trigger] s[i]).0 == p by {
            if p == k {
                assert(s[s.len() - 1].0 == p);
            } else {
                assert(seq_to_map(s0).contains_key(p));
                let i = choose|i: int| 0 <= i < s0.len() && (#[trigger] s0[i]).0 == p;
                assert(s[i].0 == p);
            }
        }
        assert forall|i: int| 0 <= i < s.len() implies m.contains_key((#[trigger] s[i]).0)
            && m[s[i].0] == s[i].1 by {
            if i == s.len() - 1 {
            } else {
                assert(s0[i] == s[i]);
                assert(s[i].0 != k);
            }
        }
    }
}

/// The entries whose paths carry `p` as a prefix, in stored order.
pub open spec fn subtree_of(s: Seq<(Seq<StepView>, LeafView)>, p: Seq<StepView>) -> Seq<
    (Seq<StepView>, LeafView),
>
    decreases s.len(),
{
    if s.len() == 0 {
        Seq::empty()
    } else if is_prefix(p, s[0].0) {
        seq![s[0]] + subtree_of(s.skip(1), p)
    } else {
        subtree_of(s.skip(1), p)
    }
}

pub proof fn lemma_subtree_push(s: Seq<(Seq<StepView>, LeafView)>, p: Seq<StepView>, e: (
    Seq<StepView>,
    LeafView,
))
    ensures
        subtree_of(s.push(e), p) == if is_prefix(p, e.0) {
            subtree_of(s, p).push(e)
        } else {
            subtree_of(s, p)
        },
    decreases s.len(),
{
    if s.len() == 0 {
        assert(s.push(e)[0] == e);
        assert(s.push(e).skip(1) =~= s);
        if is_prefix(p, e.0) {
            assert(seq![e] + subtree_of(s, p) =~= subtree_of(s, p).push(e));
        }
    } else {
        assert(s.push(e)[0] == s[0]);
        assert(s.push(e).skip(1) =~= s.skip(1).push(e));
        lemma_subtree_push(s.skip(1), p, e);
        if is_prefix(p, s[0].0) {
            if is_prefix(p, e.0) {
                assert(seq![s[0]] + subtree_of(s.skip(1), p).push(e) =~= (seq![s[0]] + subtree_of(
                    s.skip(1),
                    p,
                )).push(e));
            }
        }
    }
}

/// A run of entries none of which carries the prefix adds nothing.
pub proof fn lemma_subtree_stops(s: Seq<(Seq<StepView>, LeafView)>, p: Seq<StepView>, n: int)
    requires
        0 <= n <= s.len(),
        forall|j: int| n <= j < s.len() ==> !is_prefix(p, (#[trigger] s[j]).0),
    ensures
        subtree_of(s, p) == subtree_of(s.take(n), p),
    decreases s.len() - n,
{
    if n < s.len() {
        lemma_subtree_stops(s, p, n + 1);
        assert(s.take(n + 1).drop_last() =~= s.take(n));
        assert(s.take(n + 1) =~= s.take(n).push(s[n]));
        lemma_subtree_push(s.take(n), p, s[n]);
    } else {
        assert(s.take(n) =~= s);
    }
}

/// The ordered store of (path, leaf) pairs.
pub struct LeafPaths(pub Vec<(SchemaPath, Leaf)>);

impl LeafPaths {
    /// The stored entries, in stored order.
    pub open spec fn entries(self) -> Seq<(Seq<StepView>, LeafView)> {
        pairs_view(self.0@)
    }

    /// The store is well formed: entries ascend strictly in path order.
    pub open spec fn wf(self) -> bool {
        sorted_entries(self.entries())
    }

    /// The mapping the store holds.
    pub open spec fn as_map(self) -> Map<Seq<StepView>, LeafView> {
        seq_to_map(self.entries())
    }

    /// An empty store.
    pub fn new() -> (r: Self)
        ensures
            r.wf(),
            r.entries() =~= Seq::<(Seq<StepView>, LeafView)>::empty(),
            r.as_map() =~= Map::<Seq<StepView>, LeafView>::empty(),
    {
        LeafPaths(Vec::new())
    }

    /// The least position whose path sorts at or above the given one; all
    /// earlier entries sort strictly below it.
    fn lower_bound(&self, path: &SchemaPath) -> (r: usize)
        requires
            self.wf(),
        ensures
            r <= self.0.len(),
            self.entries().len() == self.0.len(),
            forall|j: int| 0 <= j < r ==> path_lt((#[trigger] self.entries()[j]).0, path@),
            forall|j: int|
                r <= j < self.entries().len() ==> path_le(path@, (#[trigger] self.entries()[j]).0),
    {
        let mut lo: usize = 0;
        let mut hi: usize = self.0.len();
        while lo < hi
            invariant
                lo <= hi <= self.0.len(),
                self.wf(),
                self.entries().len() == self.0.len(),
                forall|j: int| 0 <= j < lo ==> path_lt((#[trigger] self.entries()[j]).0, path@),
                forall|j: int|
                    hi <= j < self.entries().len() ==> path_le(
                        path@,
                        (#[trigger] self.entries()[j]).0,
                    ),
            decreases hi - lo,
        {
            let mid = lo + (hi - lo) / 2;
            let c = path_cmp(&self.0[mid].0, path);
            proof {
                assert(self.entries()[mid as int].0 == self.0@[mid as int].0@);
            }
            if c < 0 {
                proof {
                    assert forall|j: int| 0 <= j < mid + 1 implies path_lt(
                        (#[trigger] self.entries()[j]).0,
                        path@,
                    ) by {
                        if j < mid {
                            assert(path_lt(self.entries()[j].0, self.entries()[mid as int].0));
                            lemma_path_lt_trans(
                                self.entries()[j].0,
                                self.entries()[mid as int].0,
                                path@,
                            );
                        }
                    }
                }
                lo = mid + 1;
            } else {
                proof {
                    assert forall|j: int| mid <= j < self.entries().len() implies path_le(
                        path@,
                        (#[trigger] self.entries()[j]).0,
                    ) by {
                        if j > mid {
                            assert(path_lt(self.entries()[mid as int].0, self.entries()[j].0));
                            if path_lt(path@, self.entries()[mid as int].0) {
                                lemma_path_lt_trans(
                                    path@,
                                    self.entries()[mid as int].0,
                                    self.entries()[j].0,
                                );
                            }
                        }
                    }
                }
                hi = mid;
            }
        }
        lo
    }

    /// Inserts a leaf at a path; an entry already at that path is replaced
    /// and its former leaf handed back.
    pub fn insert(&mut self, path: SchemaPath, leaf: Leaf) -> (r: Option<Leaf>)
        requires
            old(self).wf(),
        ensures
            final(self).wf(),
            final(self).as_map() == old(self).as_map().insert(path@, leaf@),
            r is Some <==> old(self).as_map().contains_key(path@),
            r matches Some(l) ==> l@ == old(self).as_map()[path@],
    {
        let ghost olde = old(self).entries();
        let ghost p = path@;
        proof {
            lemma_sorted_distinct(olde);
            lemma_map_of_entries(olde);
        }
        let lb = self.lower_bound(&path);
        if lb < self.0.len() && path_cmp(&self.0[lb].0, &path) == 0 {
            let prev = self.0.remove(lb);
            self.0.insert(lb, (path, leaf));
            proof {
                let newe = self.entries();
                assert(newe =~= olde.update(lb as int, (p, leaf@)));
                assert(olde[lb as int].0 == p);
                assert forall|i: int, j: int| 0 <= i < j < newe.len() implies path_lt(
                    (#[trigger] newe[i]).0,
                    (#[trigger] newe[j]).0,
                ) by {
                    assert(path_lt(olde[i].0, olde[j].0));
                }
                lemma_sorted_distinct(newe);
                lemma_map_of_entries(newe);
                assert forall|q: Seq<StepView>| #[trigger]
                    seq_to_map(newe).contains_key(q)
                        == old(self).as_map().insert(p, leaf@).contains_key(q) by {
                    if seq_to_map(newe).contains_key(q) {
                        let i = choose|i: int| 0 <= i < newe.len() && (#[trigger] newe[i]).0 == q;
                        if i == lb as int {
                            assert(q == p);
                        } else {
                            assert(olde[i].0 == q);
                            assert(seq_to_map(olde).contains_key(olde[i].0));
                        }
                        assert(old(self).as_map().insert(p, leaf@).contains_key(q));
                    }
                    if old(self).as_map().insert(p, leaf@).contains_key(q) {
                        if q == p {
                            assert(newe[lb as int].0 == q);
                            assert(seq_to_map(newe).contains_key(newe[lb as int].0));
                        } else {
                            assert(seq_to_map(olde).contains_key(q));
                            let i = choose|i: int|
                                0 <= i < olde.len() && (#[trigger] olde[i]).0 == q;
                            assert(i != lb as int);
                            assert(newe[i].0 == q);
                            assert(seq_to_map(newe).contains_key(newe[i].0));
                        }
                    }
                }
                assert forall|q: Seq<StepView>| #[trigger]
                    seq_to_map(newe).contains_key(q) implies seq_to_map(newe)[q] == old(
                    self,
                ).as_map().insert(p, leaf@)[q] by {
                    let i = choose|i: int| 0 <= i < newe.len() && (#[trigger] newe[i]).0 == q;
                    assert(seq_to_map(newe)[q] == newe[i].1);
                    if q == p {
                        assert(i == lb as int) by {
                            if i != lb as int {
                                assert(olde[i].0 == q);
                                assert(olde[lb as int].0 == p);
                                assert(distinct_keys(olde));
                            }
                        }
                    } else {
                        assert(olde[i] == newe[i]);
                    }
                }
                assert(final(self).as_map() =~= old(self).as_map().insert(p, leaf@));
                assert(old(self).as_map().contains_key(p));
                assert(prev.1@ == olde[lb as int].1);
                assert(old(self).as_map()[p] == olde[lb as int].1);
            }
            Some(prev.1)
        } else {
            let ghost lbi = lb as int;
            proof {
                assert forall|j: int| lbi <= j < olde.len() implies path_lt(
                    p,
                    (#[trigger] olde[j]).0,
                ) by {
                    lemma_path_lt_trichotomy(p, olde[j].0);
                    if p == olde[j].0 {
                        if j == lbi {
                            assert(false);
                        } else {
                            assert(path_lt(olde[lbi].0, olde[j].0));
                            assert(path_le(p, olde[lbi].0));
                            if path_lt(p, olde[lbi].0) {
                            } else {
                                assert(p == olde[lbi].0);
                                assert(false);
                            }
                        }
                    }
                }
                assert(!old(self).as_map().contains_key(p)) by {
                    if old(self).as_map().contains_key(p) {
                        let i = choose|i: int| 0 <= i < olde.len() && (#[trigger] olde[i]).0 == p;
                        if i < lbi {
                            assert(path_lt(olde[i].0, p));
                            lemma_path_lt_trichotomy(olde[i].0, p);
                        } else {
                            lemma_path_lt_trichotomy(olde[i].0, p);
                        }
                    }
                }
            }
            self.0.insert(lb, (path, leaf));
            proof {
                let newe = self.entries();
                assert(newe =~= olde.insert(lbi, (p, leaf@)));
                assert(newe[lbi] == (p, leaf@));
                assert(forall|i: int| 0 <= i < lbi ==> (#[trigger] newe[i]) == olde[i]);
                assert(forall|i: int|
                    lbi < i < newe.len() ==> (#[trigger] newe[i]) == olde[i - 1]);
                assert forall|i: int, j: int| 0 <= i < j < newe.len() implies path_lt(
                    (#[trigger] newe[i]).0,
                    (#[trigger] newe[j]).0,
                ) by {
                    if i == lbi {
                        assert(path_lt(p, olde[j - 1].0));
                    } else if j == lbi {
                        assert(path_lt(olde[i].0, p));
                    } else if i < lbi && j > lbi {
                        assert(path_lt(olde[i].0, p));
                        assert(path_lt(p, olde[j - 1].0));
                        lemma_path_lt_trans(olde[i].0, p, olde[j - 1].0);
                    }
                }
                lemma_sorted_distinct(newe);
                lemma_map_of_entries(newe);
                assert forall|q: Seq<StepView>| #[trigger]
                    seq_to_map(newe).contains_key(q)
                        == old(self).as_map().insert(p, leaf@).contains_key(q) by {
                    if seq_to_map(newe).contains_key(q) {
                        let i = choose|i: int| 0 <= i < newe.len() && (#[trigger] newe[i]).0 == q;
                        if i == lbi {
                            assert(q == p);
                        } else if i < lbi {
                            assert(olde[i].0 == q);
                            assert(seq_to_map(olde).contains_key(olde[i].0));
                        } else {
                            assert(olde[i - 1].0 == q);
                            assert(seq_to_map(olde).contains_key(olde[i - 1].0));
                        }
                        assert(old(self).as_map().insert(p, leaf@).contains_key(q));
                    }
                    if old(self).as_map().insert(p, leaf@).contains_key(q) {
                        if q == p {
                            assert(newe[lbi].0 == q);
                            assert(seq_to_map(newe).contains_key(newe[lbi].0));
                        } else {
                            assert(seq_to_map(olde).contains_key(q));
                            let i = choose|i: int|
                                0 <= i < olde.len() && (#[trigger] olde[i]).0 == q;
                            if i < lbi {
                                assert(newe[i].0 == q);
                                assert(seq_to_map(newe).contains_key(newe[i].0));
                            } else {
                                assert(newe[i + 1].0 == q);
                                assert(seq_to_map(newe).contains_key(newe[i + 1].0));
                            }
                        }
                    }
                }
                assert forall|q: Seq<StepView>| #[trigger]
                    seq_to_map(newe).contains_key(q) implies seq_to_map(newe)[q] == old(
                    self,
                ).as_map().insert(p, leaf@)[q] by {
                    let i = choose|i: int| 0 <= i < newe.len() && (#[trigger] newe[i]).0 == q;
                    assert(seq_to_map(newe)[q] == newe[i].1);
                    if q == p {
                        assert(i == lbi) by {
                            if i < lbi {
                                assert(path_lt(olde[i].0, p));
                                lemma_path_lt_trichotomy(olde[i].0, p);
                            } else if i > lbi {
                                assert(path_lt(p, olde[i - 1].0));
                                lemma_path_lt_trichotomy(p, olde[i - 1].0);
                            }
                        }
                    } else {
                        if i < lbi {
                            assert(olde[i] == newe[i]);
                        } else {
                            assert(i > lbi);
                            assert(olde[i - 1] == newe[i]);
                        }
                    }
                }
                assert(final(self).as_map() =~= old(self).as_map().insert(p, leaf@));
            }
            None
        }
    }

    /// The stored leaf at an exact path, if any.
    pub fn get_leaf(&self, path: &SchemaPath) -> (r: Option<Leaf>)
        requires
            self.wf(),
        ensures
            r is Some <==> self.as_map().contains_key(path@),
            r matches Some(l) ==> l@ == self.as_map()[path@],
    {
        proof {
            lemma_sorted_distinct(self.entries());
            lemma_map_of_entries(self.entries());
        }
        let lb = self.lower_bound(path);
        if lb < self.0.len() && path_cmp(&self.0[lb].0, path) == 0 {
            proof {
                assert(self.entries()[lb as int].0 == path@);
            }
            Some(self.0[lb].1.clone())
        } else {
            proof {
                let e = self.entries();
                let p = path@;
                assert(!self.as_map().contains_key(p)) by {
                    if self.as_map().contains_key(p) {
                        let i = choose|i: int| 0 <= i < e.len() && (#[trigger] e[i]).0 == p;
                        if i < lb as int {
                            lemma_path_lt_trichotomy(e[i].0, p);
                        } else if i == lb as int {
                            assert(false);
                        } else {
                            assert(path_lt(e[lb as int].0, e[i].0));
                            assert(path_le(p, e[lb as int].0));
                            lemma_path_lt_trichotomy(p, e[lb as int].0);
                            if p == e[lb as int].0 {
                                assert(false);
                            } else {
                                lemma_path_lt_trans(p, e[lb as int].0, e[i].0);
                                lemma_path_lt_trichotomy(p, e[i].0);
                            }
                        }
                    }
                }
            }
            None
        }
    }

    /// The display text of the leaf stored at a path text, or nothing.
    pub fn get(&self, path: String) -> (r: Option<String>)
        requires
            self.wf(),
        ensures
            r is Some <==> self.as_map().contains_key(parse_path(path@)),
            r matches Some(t) ==> t@ == leaf_text(self.as_map()[parse_path(path@)]),
    {
        let sp = SchemaPath(split_slash_path(path.as_str()));
        match self.get_leaf(&sp) {
            Some(l) => Some(l.to_string()),
            None => None,
        }
    }

    /// Stores a text as a string leaf at a path text, replacing silently.
    pub fn add(&mut self, path: String, leaf: String)
        requires
            old(self).wf(),
        ensures
            final(self).wf(),
            final(self).as_map() == old(self).as_map().insert(
                parse_path(path@),
                LeafView::Str(leaf@),
            ),
    {
        let sp = SchemaPath(split_slash_path(path.as_str()));
        self.insert(sp, Leaf::String(leaf));
    }

    /// Removes the entry at a path text; absence is not an error.
    pub fn delete(&mut self, path: String)
        requires
            old(self).wf(),
        ensures
            final(self).wf(),
            final(self).as_map() == old(self).as_map().remove(parse_path(path@)),
    {
        let ghost olde = old(self).entries();
        let ghost p = parse_path(path@);
        proof {
            lemma_sorted_distinct(olde);
            lemma_map_of_entries(olde);
        }
        let sp = SchemaPath(split_slash_path(path.as_str()));
        let lb = self.lower_bound(&sp);
        if lb < self.0.len() && path_cmp(&self.0[lb].0, &sp) == 0 {
            let ghost lbi = lb as int;
            self.0.remove(lb);
            proof {
                let newe = self.entries();
                assert(newe =~= olde.remove(lbi));
                assert(olde[lbi].0 == p);
                assert(forall|i: int| 0 <= i < lbi ==> (#[trigger] newe[i]) == olde[i]);
                assert(forall|i: int|
                    lbi <= i < newe.len() ==> (#[trigger] newe[i]) == olde[i + 1]);
                assert forall|i: int, j: int| 0 <= i < j < newe.len() implies path_lt(
                    (#[trigger] newe[i]).0,
                    (#[trigger] newe[j]).0,
                ) by {}
                lemma_sorted_distinct(newe);
                lemma_map_of_entries(newe);
                assert forall|q: Seq<StepView>| #[trigger]
                    seq_to_map(newe).contains_key(q) == old(self).as_map().remove(p).contains_key(
                    q,
                ) by {
                    if seq_to_map(newe).contains_key(q) {
                        let i = choose|i: int| 0 <= i < newe.len() && (#[trigger] newe[i]).0 == q;
                        if i < lbi {
                            assert(olde[i].0 == q);
                            assert(seq_to_map(olde).contains_key(olde[i].0));
                            assert(q != p) by {
                                assert(path_lt(olde[i].0, olde[lbi].0));
                                lemma_path_lt_trichotomy(olde[i].0, olde[lbi].0);
                            }
                        } else {
                            assert(olde[i + 1].0 == q);
                            assert(seq_to_map(olde).contains_key(olde[i + 1].0));
                            assert(q != p) by {
                                assert(path_lt(olde[lbi].0, olde[i + 1].0));
                                lemma_path_lt_trichotomy(olde[lbi].0, olde[i + 1].0);
                            }
                        }
                        assert(old(self).as_map().remove(p).contains_key(q));
                    }
                    if old(self).as_map().remove(p).contains_key(q) {
                        assert(seq_to_map(olde).contains_key(q));
                        let i = choose|i: int| 0 <= i < olde.len() && (#[trigger] olde[i]).0 == q;
                        assert(i != lbi);
                        if i < lbi {
                            assert(newe[i].0 == q);
                            assert(seq_to_map(newe).contains_key(newe[i].0));
                        } else {
                            assert(newe[i - 1].0 == q);
                            assert(seq_to_map(newe).contains_key(newe[i - 1].0));
                        }
                    }
                }
                assert forall|q: Seq<StepView>| #[trigger]
                    seq_to_map(newe).contains_key(q) implies seq_to_map(newe)[q] == old(
                    self,
                ).as_map().remove(p)[q] by {
                    let i = choose|i: int| 0 <= i < newe.len() && (#[trigger] newe[i]).0 == q;
                    assert(seq_to_map(newe)[q] == newe[i].1);
                    if i < lbi {
                        assert(olde[i] == newe[i]);
                    } else {
                        assert(olde[i + 1] == newe[i]);
                    }
                }
                assert(final(self).as_map() =~= old(self).as_map().remove(p));
            }
        } else {
            proof {
                let e = self.entries();
                assert(!self.as_map().contains_key(p)) by {
                    if self.as_map().contains_key(p) {
                        let i = choose|i: int| 0 <= i < e.len() && (#[trigger] e[i]).0 == p;
                        if i < lb as int {
                            lemma_path_lt_trichotomy(e[i].0, p);
                        } else if i == lb as int {
                            assert(false);
                        } else {
                            assert(path_lt(e[lb as int].0, e[i].0));
                            lemma_path_lt_trichotomy(p, e[lb as int].0);
                            if p == e[lb as int].0 {
                                assert(false);
                            } else {
                                lemma_path_lt_trans(p, e[lb as int].0, e[i].0);
                                lemma_path_lt_trichotomy(p, e[i].0);
                            }
                        }
                    }
                }
                assert(final(self).as_map() =~= old(self).as_map().remove(p));
            }
        }
    }

    /// The display texts of all stored paths, in ascending path order.
    pub fn listpaths(&self) -> (r: Vec<String>)
        requires
            self.wf(),
        ensures
            r@.len() == self.entries().len(),
            forall|i: int|
                0 <= i < r@.len() ==> (#[trigger] r@[i])@ == path_text(self.entries()[i].0),
    {
        let mut out: Vec<String> = Vec::new();
        let mut i: usize = 0;
        while i < self.0.len()
            invariant
                i <= self.0.len(),
                self.entries().len() == self.0.len(),
                out@.len() == i,
                forall|j: int|
                    0 <= j < i ==> (#[trigger] out@[j])@ == path_text(self.entries()[j].0),
            decreases self.0.len() - i,
        {
            let t = self.0[i].0.to_string();
            out.push(t);
            proof {
                assert(self.entries()[i as int].0 == self.0@[i as int].0@);
            }
            i += 1;
        }
        out
    }

    /// All entries whose path carries the given path as a prefix, with their
    /// leaves, in ascending path order.  A positioned scan: entries before the
    /// prefix run are skipped by the lower bound, and the scan stops at the
    /// first entry past the run.
    pub fn subtree_paths(&self, path: SchemaPath) -> (r: Vec<(SchemaPath, Leaf)>)
        requires
            self.wf(),
        ensures
            pairs_view(r@) == subtree_of(self.entries(), path@),
    {
        let ghost e = self.entries();
        let ghost p = path@;
        let mut out: Vec<(SchemaPath, Leaf)> = Vec::new();
        let lb = self.lower_bound(&path);
        let mut i: usize = lb;
        proof {
            assert forall|j: int| 0 <= j < lb as int implies !is_prefix(
                p,
                (#[trigger] e[j]).0,
            ) by {
                if is_prefix(p, e[j].0) {
                    lemma_prefix_le(p, e[j].0);
                    lemma_path_lt_trichotomy(e[j].0, p);
                }
            }
            lemma_subtree_stops(e.take(lb as int), p, 0);
            assert(e.take(lb as int).take(0) =~= Seq::<(Seq<StepView>, LeafView)>::empty());
            assert(pairs_view(out@) =~= subtree_of(e.take(lb as int), p));
        }
        while i < self.0.len()
            invariant
                lb as int <= i as int <= self.0.len(),
                self.wf(),
                e == self.entries(),
                p == path@,
                e.len() == self.0.len(),
                forall|j: int| lb as int <= j < e.len() ==> path_le(p, (#[trigger] e[j]).0),
                pairs_view(out@) == subtree_of(e.take(i as int), p),
                forall|j: int| i as int <= j < e.len() ==> path_le(p, (#[trigger] e[j]).0),
            ensures
                pairs_view(out@) == subtree_of(e.take(i as int), p),
                i as int == e.len() || !is_prefix(p, e[i as int].0),
                i <= self.0.len(),
                forall|j: int| i as int <= j < e.len() ==> path_le(p, (#[trigger] e[j]).0),
            decreases self.0.len() - i,
        {
            proof {
                assert(e[i as int] == (self.0@[i as int].0@, self.0@[i as int].1@));
            }
            if !path_has_prefix(&path, &self.0[i].0) {
                break ;
            }
            let entry_path = self.0[i].0.clone();
            let entry_leaf = self.0[i].1.clone();
            out.push((entry_path, entry_leaf));
            proof {
                assert(e.take(i as int + 1) =~= e.take(i as int).push(e[i as int]));
                lemma_subtree_push(e.take(i as int), p, e[i as int]);
                assert(pairs_view(out@) =~= subtree_of(e.take(i as int), p).push(e[i as int]));
            }
            i += 1;
        }
        proof {
            assert forall|j: int| i as int <= j < e.len() implies !is_prefix(
                p,
                (#[trigger] e[j]).0,
            ) by {
                if is_prefix(p, e[j].0) {
                    if j == i as int {
                        assert(false);
                    } else {
                        assert(path_le(p, e[i as int].0));
                        lemma_prefix_window(p, e[i as int].0, e[j].0);
                        assert(path_lt(e[i as int].0, e[j].0));
                        lemma_path_lt_trichotomy(e[i as int].0, e[j].0);
                        assert(false);
                    }
                }
            }
            lemma_subtree_stops(e, p, i as int);
            assert(e.take(e.len() as int) =~= e);
        }
        out
    }
}

} // verus!
