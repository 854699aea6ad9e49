//! The round-trip law: a document flattened below a base path folds back, in
//! ascending path order, into a collector that reads as the same document
//! wrapped in its base path chain.

use vstd::prelude::*;

use crate::json::JsonView;
use crate::json::json_wf;
use crate::json::num_canon;
use crate::json::obj_map;
use crate::leaf::LeafView;
use crate::path::StepView;
use crate::path::is_prefix;
use crate::path::steps_view;
use crate::store::LeafPaths;
use crate::store::distinct_keys;
use crate::store::lemma_map_of_entries;
use crate::store::lemma_sorted_distinct;
use crate::store::subtree_of;
use crate::tree::CollectorView;
use crate::tree::coll_wf;
use crate::tree::fold_inserts;
use crate::tree::lemma_obj_map_of;
use crate::tree::lemma_obj_wf_child;
use crate::tree::lemma_sparse_wf_child;
use crate::tree::lemma_fold_inserts_wf;
use crate::tree::lemma_steps_view_in_range;
use crate::tree::matches_collector;
use crate::tree::steps_in_range;
use crate::tree::assoc_set;
use crate::tree::find_key;
use crate::tree::find_pos;
use crate::tree::insert_at;
use crate::tree::leaf_collector;
use crate::tree::lemma_find_pos;
use crate::tree::sparse_set;
use crate::tree::flatten_arr;
use crate::tree::flatten_into;
use crate::tree::flatten_obj;
use crate::tree::lemma_find_key;

verus! {

broadcast use vstd::seq::axiom_seq_index_decreases;

/// The leaf of a document at a relative path, if one stands there.
pub open spec fn doc_at(d: JsonView, rel: Seq<StepView>) -> Option<LeafView>
    decreases d,
{
    if rel.len() == 0 {
        match d {
            JsonView::Null => Some(LeafView::Null),
            JsonView::Bool(b) => Some(LeafView::Bool(b)),
            JsonView::Num(t) => Some(LeafView::Num(t)),
            JsonView::Str(t) => Some(LeafView::Str(t)),
            _ => None,
        }
    } else {
        match d {
            JsonView::Arr(s) => match rel[0] {
                StepView::Index(n) => if 0 <= n < s.len() {
                    doc_at(s[n], rel.skip(1))
                } else {
                    None
                },
                _ => None,
            },
            JsonView::Obj(s) => match rel[0] {
                StepView::Key(k) => {
                    let i = find_key(s, k);
                    if 0 <= i < s.len() {
                        doc_at(s[i].1, rel.skip(1))
                    } else {
                        None
                    }
                },
                _ => None,
            },
            _ => None,
        }
    }
}

/// The leaf a flattened document contributes at a full path: the path must
/// carry the base as a prefix and name a leaf of the document below it.
pub open spec fn leaf_at(base: Seq<StepView>, d: JsonView, p: Seq<StepView>) -> Option<LeafView> {
    if is_prefix(base, p) {
        doc_at(d, p.skip(base.len() as int))
    } else {
        None
    }
}

/// The leaf the elements of an array from position `i` on contribute.
pub open spec fn leaf_at_arr(
    base: Seq<StepView>,
    s: Seq<JsonView>,
    i: int,
    p: Seq<StepView>,
) -> Option<LeafView>
    decreases s.len() - i,
{
    if i < 0 || i >= s.len() {
        None
    } else {
        match leaf_at(base.push(StepView::Index(i)), s[i], p) {
            Some(l) => Some(l),
            None => leaf_at_arr(base, s, i + 1, p),
        }
    }
}

/// The leaf the members of an object from position `i` on contribute.
pub open spec fn leaf_at_obj(
    base: Seq<StepView>,
    s: Seq<(Seq<char>, JsonView)>,
    i: int,
    p: Seq<StepView>,
) -> Option<LeafView>
    decreases s.len() - i,
{
    if i < 0 || i >= s.len() {
        None
    } else {
        match leaf_at(base.push(StepView::Key(s[i].0)), s[i].1, p) {
            Some(l) => Some(l),
            None => leaf_at_obj(base, s, i + 1, p),
        }
    }
}

/// A contributed path always carries the base as a strict extension.
proof fn lemma_leaf_at_prefix(base: Seq<StepView>, d: JsonView, p: Seq<StepView>)
    requires
        leaf_at(base, d, p) is Some,
    ensures
        is_prefix(base, p),
        d is Arr || d is Obj ==> p.len() > base.len(),
{
    if d is Arr || d is Obj {
        if p.len() == base.len() {
            assert(p.skip(base.len() as int).len() == 0);
        }
    }
}

/// What flattening writes: exactly the document's leaves below the base, a
/// later write for the same path winning, and everything else untouched.
pub proof fn lemma_flatten_char(
    m: Map<Seq<StepView>, LeafView>,
    base: Seq<StepView>,
    d: JsonView,
    p: Seq<StepView>,
)
    requires
        json_wf(d),
    ensures
        flatten_into(m, base, d).contains_key(p) == (m.contains_key(p) || leaf_at(base, d, p)
            is Some),
        leaf_at(base, d, p) matches Some(l) ==> flatten_into(m, base, d)[p] == l,
        leaf_at(base, d, p) is None && m.contains_key(p) ==> flatten_into(m, base, d)[p] == m[p],
    decreases d, 0int,
{
    let e = p.skip(base.len() as int);
    match d {
        JsonView::Arr(s) => {
            assert(d->Arr_0 == s);
            assert(forall|x: int| 0 <= x < s.len() ==> json_wf(#[trigger] s[x]));
            lemma_flatten_arr_char(m, base, s, 0, p);
            lemma_leaf_at_arr_form(base, s, 0, p, d);
            if leaf_at(base, d, p) is Some {
                lemma_leaf_at_prefix(base, d, p);
                match e[0] {
                    StepView::Index(n) => {
                        assert(0 <= n < s.len());
                        assert(p[base.len() as int] == e[0]);
                        assert(exists|x: int|
                            0 <= x < s.len() && p.len() > base.len() && p[base.len() as int]
                                == StepView::Index(x));
                    },
                    _ => {},
                }
            }
        },
        JsonView::Obj(s) => {
            assert(d->Obj_0 == s);
            assert(forall|x: int, y: int|
                0 <= x < y < s.len() ==> (#[trigger] s[x]).0 != (#[trigger] s[y]).0);
            assert(forall|x: int| 0 <= x < s.len() ==> json_wf((#[trigger] s[x]).1));
            lemma_flatten_obj_char(m, base, s, 0, p);
            lemma_leaf_at_obj_form(base, s, 0, p, d);
            if leaf_at(base, d, p) is Some {
                lemma_leaf_at_prefix(base, d, p);
                match e[0] {
                    StepView::Key(k) => {
                        lemma_find_key(s, k);
                        let fk = find_key(s, k);
                        assert(0 <= fk < s.len() && s[fk].0 == k);
                        assert(p[base.len() as int] == e[0]);
                        assert(exists|x: int|
                            0 <= x < s.len() && p.len() > base.len() && p[base.len() as int]
                                == StepView::Key((#[trigger] s[x]).0));
                    },
                    _ => {},
                }
            }
        },
        _ => {
            // a scalar writes exactly one entry, at the base itself
            if p == base {
                assert(is_prefix(base, p));
                assert(e.len() == 0);
            } else {
                if is_prefix(base, p) && e.len() == 0 {
                    assert(p =~= base);
                }
            }
        },
    }
}

/// The array elements' contributions agree with reading the array itself.
proof fn lemma_leaf_at_arr_form(
    base: Seq<StepView>,
    s: Seq<JsonView>,
    i: int,
    p: Seq<StepView>,
    d: JsonView,
)
    requires
        d == JsonView::Arr(s),
        0 <= i <= s.len(),
    ensures
        (leaf_at_arr(base, s, i, p) is Some) == (leaf_at(base, d, p) is Some && exists|n: int|
            i <= n < s.len() && p.len() > base.len() && p[base.len() as int] == StepView::Index(n)),
        leaf_at_arr(base, s, i, p) is Some ==> leaf_at_arr(base, s, i, p) == leaf_at(base, d, p),
    decreases s.len() - i,
{
    if i < s.len() {
        lemma_leaf_at_arr_form(base, s, i + 1, p, d);
        let child = base.push(StepView::Index(i));
        // relate a contribution through element i to a read of the array
        if leaf_at(child, s[i], p) is Some {
            assert(is_prefix(child, p));
            assert(is_prefix(base, p)) by {
                assert(forall|j: int| 0 <= j < base.len() ==> p[j] == child[j] && child[j]
                    == base[j]);
            }
            assert(p.len() > base.len());
            assert(p[base.len() as int] == StepView::Index(i));
            let e = p.skip(base.len() as int);
            assert(e[0] == StepView::Index(i));
            assert(e.skip(1) =~= p.skip(child.len() as int));
            assert(doc_at(d, e) == doc_at(s[i], p.skip(child.len() as int)));
            assert(leaf_at(base, d, p) == leaf_at(child, s[i], p));
        } else {
            if is_prefix(base, p) && p.len() > base.len() && p[base.len() as int]
                == StepView::Index(i) {
                let e = p.skip(base.len() as int);
                assert(e[0] == StepView::Index(i));
                assert(is_prefix(child, p)) by {
                    assert(forall|j: int| 0 <= j < base.len() ==> p[j] == base[j] && child[j]
                        == base[j]);
                    assert(child[base.len() as int] == StepView::Index(i));
                }
                assert(e.skip(1) =~= p.skip(child.len() as int));
                assert(doc_at(d, e) == doc_at(s[i], p.skip(child.len() as int)));
                assert(leaf_at(base, d, p) is None);
            }
        }
    }
}

/// The object members' contributions agree with reading the object itself.
proof fn lemma_leaf_at_obj_form(
    base: Seq<StepView>,
    s: Seq<(Seq<char>, JsonView)>,
    i: int,
    p: Seq<StepView>,
    d: JsonView,
)
    requires
        d == JsonView::Obj(s),
        0 <= i <= s.len(),
        forall|x: int, y: int| 0 <= x < y < s.len() ==> (#[trigger] s[x]).0 != (#[trigger] s[y]).0,
    ensures
        (leaf_at_obj(base, s, i, p) is Some) == (leaf_at(base, d, p) is Some && exists|n: int|
            i <= n < s.len() && p.len() > base.len() && p[base.len() as int] == StepView::Key(
                (#[trigger] s[n]).0,
            )),
        leaf_at_obj(base, s, i, p) is Some ==> leaf_at_obj(base, s, i, p) == leaf_at(base, d, p),
    decreases s.len() - i,
{
    lemma_find_key(s, arbitrary());
    if i < s.len() {
        lemma_leaf_at_obj_form(base, s, i + 1, p, d);
        let child = base.push(StepView::Key(s[i].0));
        if leaf_at(child, s[i].1, p) is Some {
            assert(is_prefix(child, p));
            assert(is_prefix(base, p)) by {
                assert(forall|j: int| 0 <= j < base.len() ==> p[j] == child[j] && child[j]
                    == base[j]);
            }
            assert(p.len() > base.len());
            assert(p[base.len() as int] == StepView::Key(s[i].0));
            let e = p.skip(base.len() as int);
            assert(e[0] == StepView::Key(s[i].0));
            let fk = find_key(s, s[i].0);
            lemma_find_key(s, s[i].0);
            assert(fk == i) by {
                if fk < 0 {
                } else if fk < i {
                    assert(s[fk].0 != s[i].0);
                } else if fk > i {
                    assert(s[i].0 != s[fk].0);
                }
            }
            assert(e.skip(1) =~= p.skip(child.len() as int));
            assert(doc_at(d, e) == doc_at(s[i].1, p.skip(child.len() as int)));
            assert(leaf_at(base, d, p) == leaf_at(child, s[i].1, p));
        } else {
            if is_prefix(base, p) && p.len() > base.len() && p[base.len() as int] == StepView::Key(
                s[i].0,
            ) {
                let e = p.skip(base.len() as int);
                assert(e[0] == StepView::Key(s[i].0));
                assert(is_prefix(child, p)) by {
                    assert(forall|j: int| 0 <= j < base.len() ==> p[j] == base[j] && child[j]
                        == base[j]);
                    assert(child[base.len() as int] == StepView::Key(s[i].0));
                }
                let fk = find_key(s, s[i].0);
                lemma_find_key(s, s[i].0);
                assert(fk == i) by {
                    if fk < 0 {
                    } else if fk < i {
                        assert(s[fk].0 != s[i].0);
                    } else if fk > i {
                        assert(s[i].0 != s[fk].0);
                    }
                }
                assert(e.skip(1) =~= p.skip(child.len() as int));
                assert(doc_at(d, e) == doc_at(s[i].1, p.skip(child.len() as int)));
                assert(leaf_at(base, d, p) is None);
            }
            // a contribution from a later member names a later key
            if leaf_at_obj(base, s, i + 1, p) is Some {
            }
        }
    }
}

proof fn lemma_flatten_arr_char(
    m: Map<Seq<StepView>, LeafView>,
    base: Seq<StepView>,
    s: Seq<JsonView>,
    i: int,
    p: Seq<StepView>,
)
    requires
        forall|x: int| 0 <= x < s.len() ==> json_wf(#[trigger] s[x]),
    ensures
        flatten_arr(m, base, s, i).contains_key(p) == (m.contains_key(p) || leaf_at_arr(
            base,
            s,
            i,
            p,
        ) is Some),
        leaf_at_arr(base, s, i, p) matches Some(l) ==> flatten_arr(m, base, s, i)[p] == l,
        leaf_at_arr(base, s, i, p) is None && m.contains_key(p) ==> flatten_arr(m, base, s, i)[p]
            == m[p],
    decreases s, s.len() - i,
{
    if 0 <= i < s.len() {
        let child = base.push(StepView::Index(i));
        let m2 = flatten_into(m, child, s[i]);
        lemma_flatten_char(m, child, s[i], p);
        lemma_flatten_arr_char(m2, base, s, i + 1, p);
        // an element's paths name its own index, so contributions of
        // different elements never collide
        if leaf_at(child, s[i], p) is Some && leaf_at_arr(base, s, i + 1, p) is Some {
            assert(p[base.len() as int] == StepView::Index(i)) by {
                assert(is_prefix(child, p));
            }
            lemma_leaf_at_arr_later(base, s, i + 1, p);
            assert(false);
        }
    }
}

/// A contribution from elements at or past `i` names an index at or past `i`.
proof fn lemma_leaf_at_arr_later(base: Seq<StepView>, s: Seq<JsonView>, i: int, p: Seq<StepView>)
    requires
        leaf_at_arr(base, s, i, p) is Some,
    ensures
        p.len() > base.len(),
        exists|n: int| i <= n < s.len() && p[base.len() as int] == StepView::Index(n),
    decreases s.len() - i,
{
    let child = base.push(StepView::Index(i));
    if leaf_at(child, s[i], p) is Some {
        assert(is_prefix(child, p));
        assert(p[base.len() as int] == StepView::Index(i));
    } else {
        lemma_leaf_at_arr_later(base, s, i + 1, p);
        let n = choose|n: int| i + 1 <= n < s.len() && p[base.len() as int] == StepView::Index(n);
        assert(i <= n < s.len() && p[base.len() as int] == StepView::Index(n));
    }
}

/// A contribution from members at or past `i` names one of their keys.
proof fn lemma_leaf_at_obj_later(
    base: Seq<StepView>,
    s: Seq<(Seq<char>, JsonView)>,
    i: int,
    p: Seq<StepView>,
)
    requires
        leaf_at_obj(base, s, i, p) is Some,
    ensures
        p.len() > base.len(),
        exists|n: int| i <= n < s.len() && p[base.len() as int] == StepView::Key((#[trigger] s[n]).0),
    decreases s.len() - i,
{
    let child = base.push(StepView::Key(s[i].0));
    if leaf_at(child, s[i].1, p) is Some {
        assert(is_prefix(child, p));
        assert(p[base.len() as int] == StepView::Key(s[i].0));
    } else {
        lemma_leaf_at_obj_later(base, s, i + 1, p);
        let n = choose|n: int|
            i + 1 <= n < s.len() && p[base.len() as int] == StepView::Key((#[trigger] s[n]).0);
        assert(i <= n < s.len() && p[base.len() as int] == StepView::Key(s[n].0));
    }
}

proof fn lemma_flatten_obj_char(
    m: Map<Seq<StepView>, LeafView>,
    base: Seq<StepView>,
    s: Seq<(Seq<char>, JsonView)>,
    i: int,
    p: Seq<StepView>,
)
    requires
        forall|x: int, y: int| 0 <= x < y < s.len() ==> (#[trigger] s[x]).0 != (#[trigger] s[y]).0,
        forall|x: int| 0 <= x < s.len() ==> json_wf((#[trigger] s[x]).1),
    ensures
        flatten_obj(m, base, s, i).contains_key(p) == (m.contains_key(p) || leaf_at_obj(
            base,
            s,
            i,
            p,
        ) is Some),
        leaf_at_obj(base, s, i, p) matches Some(l) ==> flatten_obj(m, base, s, i)[p] == l,
        leaf_at_obj(base, s, i, p) is None && m.contains_key(p) ==> flatten_obj(m, base, s, i)[p]
            == m[p],
    decreases s, s.len() - i,
{
    if 0 <= i < s.len() {
        let child = base.push(StepView::Key(s[i].0));
        let m2 = flatten_into(m, child, s[i].1);
        lemma_flatten_char(m, child, s[i].1, p);
        lemma_flatten_obj_char(m2, base, s, i + 1, p);
        if leaf_at(child, s[i].1, p) is Some && leaf_at_obj(base, s, i + 1, p) is Some {
            // keys are distinct, so contributions of different members never
            // collide
            assert(p[base.len() as int] == StepView::Key(s[i].0)) by {
                assert(is_prefix(child, p));
            }
            lemma_leaf_at_obj_later(base, s, i + 1, p);
            let n = choose|n: int|
                i + 1 <= n < s.len() && p[base.len() as int] == StepView::Key((#[trigger] s[n]).0);
            assert(s[i].0 == s[n].0);
            assert(false);
        }
    }
}

// ---------------------------------------------------------------------------
// What a collector under construction holds: a mapping from the remaining
// path suffixes to their leaves.
// ---------------------------------------------------------------------------

/// The sub-mapping reached through one leading step.
pub open spec fn descend(m: Map<Seq<StepView>, LeafView>, st: StepView) -> Map<
    Seq<StepView>,
    LeafView,
> {
    Map::new(
        |rest: Seq<StepView>| m.contains_key(seq![st] + rest),
        |rest: Seq<StepView>| m[seq![st] + rest],
    )
}

/// An index stands among sorted sparse entries.
pub open spec fn sparse_has(fs: Seq<(int, CollectorView)>, n: int) -> bool {
    find_pos(fs, n) < fs.len() && fs[find_pos(fs, n)].0 == n
}

/// Some path of the mapping leads off with the given step.
pub open spec fn inhabited(m: Map<Seq<StepView>, LeafView>, st: StepView) -> bool {
    exists|p: Seq<StepView>| #[trigger] m.contains_key(p) && p.len() >= 1 && p[0] == st
}

/// The collector holds exactly the given mapping of path suffixes to leaves:
/// a scalar holds one leaf at the spent path, an object one sub-mapping per
/// leading key, a sparse array one per leading index, and `Empty` nothing.
pub open spec fn represents(c: CollectorView, m: Map<Seq<StepView>, LeafView>) -> bool
    decreases c,
{
    match c {
        CollectorView::Empty => forall|p: Seq<StepView>| !(#[trigger] m.contains_key(p)),
        CollectorView::Sparse(fs) => {
            &&& exists|p: Seq<StepView>| #[trigger] m.contains_key(p)
            &&& forall|p: Seq<StepView>|
                #[trigger] m.contains_key(p) ==> p.len() >= 1 && p[0] is Index
            &&& forall|i: int, j: int|
                0 <= i < j < fs.len() ==> (#[trigger] fs[i]).0 < (#[trigger] fs[j]).0
            &&& forall|p: Seq<StepView>| #[trigger] m.contains_key(p) ==> sparse_has(fs, p[0]->Index_0)
            &&& forall|i: int|
                0 <= i < fs.len() ==> inhabited(m, StepView::Index((#[trigger] fs[i]).0))
            &&& forall|i: int|
                0 <= i < fs.len() ==> represents(
                    (#[trigger] fs[i]).1,
                    descend(m, StepView::Index(fs[i].0)),
                )
        },
        CollectorView::Obj(fs) => {
            &&& exists|p: Seq<StepView>| #[trigger] m.contains_key(p)
            &&& forall|p: Seq<StepView>| #[trigger] m.contains_key(p) ==> p.len() >= 1 && p[0] is Key
            &&& forall|i: int, j: int|
                0 <= i < j < fs.len() ==> (#[trigger] fs[i]).0 != (#[trigger] fs[j]).0
            &&& forall|p: Seq<StepView>| #[trigger] m.contains_key(p) ==> find_key(fs, p[0]->Key_0) >= 0
            &&& forall|i: int|
                0 <= i < fs.len() ==> inhabited(m, StepView::Key((#[trigger] fs[i]).0))
            &&& forall|i: int|
                0 <= i < fs.len() ==> represents(
                    (#[trigger] fs[i]).1,
                    descend(m, StepView::Key(fs[i].0)),
                )
        },
        _ => {
            &&& m.contains_key(Seq::<StepView>::empty())
            &&& leaf_collector(m[Seq::<StepView>::empty()]) == c
            &&& forall|p: Seq<StepView>|
                #[trigger] m.contains_key(p) ==> p == Seq::<StepView>::empty()
        },
    }
}

/// Steps of one kind: two keys, or two indices.
pub open spec fn same_kind(a: StepView, b: StepView) -> bool {
    (a is Key && b is Key) || (a is Index && b is Index)
}

/// Two leaf paths of one coherent tree: equal, or parting at a position where
/// both carry steps of one kind (two members of one object, or two elements
/// of one array).
pub open spec fn compat(p: Seq<StepView>, q: Seq<StepView>) -> bool {
    p == q || exists|j: int|
        0 <= j < p.len() && j < q.len() && (forall|x: int| 0 <= x < j ==> p[x] == q[x]) && (
        #[trigger] p[j]) != q[j] && same_kind(p[j], q[j])
}

// ---------------------------------------------------------------------------
// Small facts about the association updates.
// ---------------------------------------------------------------------------

/// With distinct keys, the found position is the only one carrying the key.
proof fn lemma_find_key_unique<V>(s: Seq<(Seq<char>, V)>, k: Seq<char>, i: int)
    requires
        forall|x: int, y: int| 0 <= x < y < s.len() ==> (#[trigger] s[x]).0 != (#[trigger] s[y]).0,
        0 <= i < s.len(),
        s[i].0 == k,
    ensures
        find_key(s, k) == i,
{
    lemma_find_key(s, k);
    let fk = find_key(s, k);
    if fk < 0 {
        assert(s[i].0 != k);
    } else if fk < i {
        assert(s[fk].0 != s[i].0);
    } else if fk > i {
        assert(s[i].0 != s[fk].0);
    }
}

/// In a sorted sparse sequence the lower bound finds a present index.
proof fn lemma_sparse_member(fs: Seq<(int, CollectorView)>, n: int, i: int)
    requires
        forall|x: int, y: int| 0 <= x < y < fs.len() ==> (#[trigger] fs[x]).0 < (#[trigger] fs[y]).0,
        0 <= i < fs.len(),
        fs[i].0 == n,
    ensures
        find_pos(fs, n) == i,
        sparse_has(fs, n),
{
    lemma_find_pos(fs, n);
    let pos = find_pos(fs, n);
    if pos < i {
        assert(fs[pos].0 < fs[i].0);
        assert(fs[pos].0 >= n);
    } else if pos > i {
        assert(fs[i].0 < n);
    }
}

/// What setting a key does to an object's members.
proof fn lemma_assoc_set_props(fs: Seq<(Seq<char>, CollectorView)>, k: Seq<char>, v: CollectorView)
    requires
        forall|x: int, y: int| 0 <= x < y < fs.len() ==> (#[trigger] fs[x]).0 != (#[trigger] fs[y]).0,
    ensures
        ({
            let out = assoc_set(fs, k, v);
            &&& forall|x: int, y: int|
                0 <= x < y < out.len() ==> (#[trigger] out[x]).0 != (#[trigger] out[y]).0
            &&& find_key(out, k) >= 0 && out[find_key(out, k)] == (k, v)
            &&& forall|j: int|
                0 <= j < out.len() ==> (#[trigger] out[j]).0 == k || (find_key(fs, out[j].0) >= 0
                    && fs[find_key(fs, out[j].0)] == out[j])
            &&& forall|k2: Seq<char>|
                k2 != k ==> (#[trigger] find_key(out, k2) >= 0 <==> find_key(fs, k2) >= 0)
            &&& forall|k2: Seq<char>|
                k2 != k && find_key(fs, k2) >= 0 ==> (#[trigger] out[find_key(out, k2)])
                    == fs[find_key(fs, k2)]
        }),
{
    lemma_find_key(fs, k);
    let idx = find_key(fs, k);
    let out = assoc_set(fs, k, v);
    if idx >= 0 {
        assert(out == fs.update(idx, (k, v)));
        assert(forall|j: int| 0 <= j < out.len() && j != idx ==> (#[trigger] out[j]) == fs[j]);
        assert(out[idx] == (k, v));
        assert forall|x: int, y: int| 0 <= x < y < out.len() implies (#[trigger] out[x]).0 != (
        #[trigger] out[y]).0 by {
            assert(fs[x].0 != fs[y].0);
        }
        lemma_find_key_unique(out, k, idx);
        assert forall|j: int| 0 <= j < out.len() implies (#[trigger] out[j]).0 == k || (find_key(
            fs,
            out[j].0,
        ) >= 0 && fs[find_key(fs, out[j].0)] == out[j]) by {
            if j != idx {
                lemma_find_key_unique(fs, out[j].0, j);
            }
        }
        assert forall|k2: Seq<char>| k2 != k implies (#[trigger] find_key(out, k2) >= 0
            <==> find_key(fs, k2) >= 0) by {
            lemma_find_key(out, k2);
            lemma_find_key(fs, k2);
            if find_key(out, k2) >= 0 {
                assert(out[find_key(out, k2)].0 == k2);
                assert(find_key(out, k2) != idx);
                lemma_find_key_unique(fs, k2, find_key(out, k2));
            }
            if find_key(fs, k2) >= 0 {
                assert(fs[find_key(fs, k2)].0 == k2);
                assert(find_key(fs, k2) != idx);
                lemma_find_key_unique(out, k2, find_key(fs, k2));
            }
        }
        assert forall|k2: Seq<char>| k2 != k && find_key(fs, k2) >= 0 implies (#[trigger] out[
        find_key(out, k2)]) == fs[find_key(fs, k2)] by {
            lemma_find_key(fs, k2);
            assert(find_key(fs, k2) != idx);
            lemma_find_key_unique(out, k2, find_key(fs, k2));
        }
    } else {
        assert(out == fs.push((k, v)));
        lemma_find_key(fs, k);
        assert(forall|j: int| 0 <= j < fs.len() ==> (#[trigger] out[j]) == fs[j]);
        assert(out[out.len() - 1] == (k, v));
        assert forall|x: int, y: int| 0 <= x < y < out.len() implies (#[trigger] out[x]).0 != (
        #[trigger] out[y]).0 by {
            if y == out.len() - 1 {
                assert(fs[x].0 != k);
            } else {
                assert(fs[x].0 != fs[y].0);
            }
        }
        lemma_find_key_unique(out, k, out.len() - 1);
        assert forall|j: int| 0 <= j < out.len() implies (#[trigger] out[j]).0 == k || (find_key(
            fs,
            out[j].0,
        ) >= 0 && fs[find_key(fs, out[j].0)] == out[j]) by {
            if j != out.len() - 1 {
                lemma_find_key_unique(fs, out[j].0, j);
            }
        }
        assert forall|k2: Seq<char>| k2 != k implies (#[trigger] find_key(out, k2) >= 0
            <==> find_key(fs, k2) >= 0) by {
            lemma_find_key(out, k2);
            lemma_find_key(fs, k2);
            if find_key(out, k2) >= 0 {
                assert(out[find_key(out, k2)].0 == k2);
                assert(find_key(out, k2) != out.len() - 1);
                lemma_find_key_unique(fs, k2, find_key(out, k2));
            }
            if find_key(fs, k2) >= 0 {
                assert(fs[find_key(fs, k2)].0 == k2);
                lemma_find_key_unique(out, k2, find_key(fs, k2));
            }
        }
        assert forall|k2: Seq<char>| k2 != k && find_key(fs, k2) >= 0 implies (#[trigger] out[
        find_key(out, k2)]) == fs[find_key(fs, k2)] by {
            lemma_find_key(fs, k2);
            lemma_find_key_unique(out, k2, find_key(fs, k2));
        }
    }
}

/// What setting an index does to a sorted sparse sequence.
proof fn lemma_sparse_set_props(fs: Seq<(int, CollectorView)>, n: int, v: CollectorView)
    requires
        forall|x: int, y: int| 0 <= x < y < fs.len() ==> (#[trigger] fs[x]).0 < (#[trigger] fs[y]).0,
    ensures
        ({
            let out = sparse_set(fs, n, v);
            &&& forall|x: int, y: int|
                0 <= x < y < out.len() ==> (#[trigger] out[x]).0 < (#[trigger] out[y]).0
            &&& sparse_has(out, n) && out[find_pos(out, n)] == (n, v)
            &&& forall|j: int|
                0 <= j < out.len() ==> (#[trigger] out[j]).0 == n || (sparse_has(fs, out[j].0)
                    && fs[find_pos(fs, out[j].0)] == out[j])
            &&& forall|n2: int| n2 != n ==> (#[trigger] sparse_has(out, n2) <==> sparse_has(fs, n2))
            &&& forall|n2: int|
                n2 != n && sparse_has(fs, n2) ==> (#[trigger] out[find_pos(out, n2)])
                    == fs[find_pos(fs, n2)]
        }),
{
    lemma_find_pos(fs, n);
    let pos = find_pos(fs, n);
    let out = sparse_set(fs, n, v);
    if pos < fs.len() && fs[pos].0 == n {
        assert(out == fs.update(pos, (n, v)));
        assert(forall|j: int| 0 <= j < out.len() && j != pos ==> (#[trigger] out[j]) == fs[j]);
        assert(out[pos] == (n, v));
        assert forall|x: int, y: int| 0 <= x < y < out.len() implies (#[trigger] out[x]).0 < (
        #[trigger] out[y]).0 by {
            assert(fs[x].0 < fs[y].0);
        }
        lemma_sparse_member(out, n, pos);
        assert forall|j: int| 0 <= j < out.len() implies (#[trigger] out[j]).0 == n || (sparse_has(
            fs,
            out[j].0,
        ) && fs[find_pos(fs, out[j].0)] == out[j]) by {
            if j != pos {
                lemma_sparse_member(fs, out[j].0, j);
            }
        }
        assert forall|n2: int| n2 != n implies (#[trigger] sparse_has(out, n2) <==> sparse_has(
            fs,
            n2,
        )) by {
            lemma_find_pos(out, n2);
            lemma_find_pos(fs, n2);
            if sparse_has(out, n2) {
                assert(out[find_pos(out, n2)].0 == n2);
                assert(find_pos(out, n2) != pos);
                lemma_sparse_member(fs, n2, find_pos(out, n2));
            }
            if sparse_has(fs, n2) {
                assert(fs[find_pos(fs, n2)].0 == n2);
                assert(find_pos(fs, n2) != pos);
                lemma_sparse_member(out, n2, find_pos(fs, n2));
            }
        }
        assert forall|n2: int| n2 != n && sparse_has(fs, n2) implies (#[trigger] out[find_pos(
            out,
            n2,
        )]) == fs[find_pos(fs, n2)] by {
            lemma_find_pos(fs, n2);
            assert(fs[find_pos(fs, n2)].0 == n2);
            assert(find_pos(fs, n2) != pos);
            lemma_sparse_member(out, n2, find_pos(fs, n2));
        }
    } else {
        assert(out == fs.insert(pos, (n, v)));
        assert(forall|j: int| 0 <= j < pos ==> (#[trigger] out[j]) == fs[j]);
        assert(out[pos] == (n, v));
        assert(forall|j: int| pos < j < out.len() ==> (#[trigger] out[j]) == fs[j - 1]);
        assert forall|x: int, y: int| 0 <= x < y < out.len() implies (#[trigger] out[x]).0 < (
        #[trigger] out[y]).0 by {
            if y == pos {
                assert(out[x].0 == fs[x].0 && fs[x].0 < n);
            } else if x == pos {
                assert(out[y].0 == fs[y - 1].0);
                assert(fs[y - 1].0 >= n && fs[y - 1].0 != n);
            } else if x < pos && y > pos {
                assert(out[x].0 == fs[x].0 && out[y].0 == fs[y - 1].0);
                if x == y - 1 {
                    assert(fs[x].0 < n);
                    assert(fs[y - 1].0 >= n);
                } else {
                    assert(fs[x].0 < fs[y - 1].0);
                }
            }
        }
        lemma_sparse_member(out, n, pos);
        assert forall|j: int| 0 <= j < out.len() implies (#[trigger] out[j]).0 == n || (sparse_has(
            fs,
            out[j].0,
        ) && fs[find_pos(fs, out[j].0)] == out[j]) by {
            if j < pos {
                lemma_sparse_member(fs, out[j].0, j);
            } else if j > pos {
                lemma_sparse_member(fs, out[j].0, j - 1);
            }
        }
        assert forall|n2: int| n2 != n implies (#[trigger] sparse_has(out, n2) <==> sparse_has(
            fs,
            n2,
        )) by {
            lemma_find_pos(out, n2);
            lemma_find_pos(fs, n2);
            if sparse_has(out, n2) {
                let j = find_pos(out, n2);
                assert(out[j].0 == n2);
                assert(j != pos);
                if j < pos {
                    lemma_sparse_member(fs, n2, j);
                } else {
                    lemma_sparse_member(fs, n2, j - 1);
                }
            }
            if sparse_has(fs, n2) {
                let j = find_pos(fs, n2);
                assert(fs[j].0 == n2);
                if j < pos {
                    lemma_sparse_member(out, n2, j);
                } else {
                    lemma_sparse_member(out, n2, j + 1);
                }
            }
        }
        assert forall|n2: int| n2 != n && sparse_has(fs, n2) implies (#[trigger] out[find_pos(
            out,
            n2,
        )]) == fs[find_pos(fs, n2)] by {
            lemma_find_pos(fs, n2);
            let j = find_pos(fs, n2);
            assert(fs[j].0 == n2);
            if j < pos {
                lemma_sparse_member(out, n2, j);
            } else {
                lemma_sparse_member(out, n2, j + 1);
            }
        }
    }
}

/// Descending after an insertion through the same leading step: the inserted
/// suffix lands in the sub-mapping.
proof fn lemma_descend_insert_same(
    m: Map<Seq<StepView>, LeafView>,
    st: StepView,
    suf: Seq<StepView>,
    leaf: LeafView,
)
    ensures
        descend(m.insert(seq![st] + suf, leaf), st) == descend(m, st).insert(suf, leaf),
{
    let lhs = descend(m.insert(seq![st] + suf, leaf), st);
    let rhs = descend(m, st).insert(suf, leaf);
    assert forall|rest: Seq<StepView>| #[trigger] lhs.contains_key(rest) == rhs.contains_key(
        rest,
    ) by {
        if seq![st] + rest == seq![st] + suf {
            assert((seq![st] + rest).skip(1) =~= rest);
            assert((seq![st] + suf).skip(1) =~= suf);
            assert(rest == suf);
        }
    }
    assert forall|rest: Seq<StepView>| #[trigger] lhs.contains_key(rest) implies lhs[rest]
        == rhs[rest] by {
        if seq![st] + rest == seq![st] + suf {
            assert((seq![st] + rest).skip(1) =~= rest);
            assert((seq![st] + suf).skip(1) =~= suf);
            assert(rest == suf);
        }
    }
    assert(lhs =~= rhs);
}

/// Descending after an insertion through a different leading step: the
/// sub-mapping is untouched.
proof fn lemma_descend_insert_other(
    m: Map<Seq<StepView>, LeafView>,
    st: StepView,
    p: Seq<StepView>,
    leaf: LeafView,
)
    requires
        p.len() >= 1,
        p[0] != st,
    ensures
        descend(m.insert(p, leaf), st) == descend(m, st),
{
    let lhs = descend(m.insert(p, leaf), st);
    let rhs = descend(m, st);
    assert forall|rest: Seq<StepView>|
        #[trigger] lhs.contains_key(rest) == rhs.contains_key(rest) by {
        assert((seq![st] + rest)[0] == st);
    }
    assert forall|rest: Seq<StepView>| #[trigger] lhs.contains_key(rest) implies lhs[rest]
        == rhs[rest] by {
        assert((seq![st] + rest)[0] == st);
    }
    assert(lhs =~= rhs);
}

/// Paths sharing a head and compatible stay compatible one step down.
proof fn lemma_compat_tail(p: Seq<StepView>, q: Seq<StepView>)
    requires
        compat(p, q),
        p.len() >= 2,
        q.len() >= 1,
        p[0] == q[0],
    ensures
        q.len() >= 2,
        compat(p.skip(1), q.skip(1)),
{
    if p == q {
        assert(p.skip(1) == q.skip(1));
    } else {
        let j = choose|j: int|
            0 <= j < p.len() && j < q.len() && (forall|x: int| 0 <= x < j ==> p[x] == q[x]) && (
            #[trigger] p[j]) != q[j] && same_kind(p[j], q[j]);
        assert(j >= 1);
        let p1 = p.skip(1);
        let q1 = q.skip(1);
        assert(p1[j - 1] == p[j] && q1[j - 1] == q[j]);
        assert(forall|x: int| 0 <= x < j - 1 ==> (#[trigger] p1[x]) == p[x + 1] && q1[x] == q[x + 1]);
        assert(0 <= j - 1 < p1.len() && j - 1 < q1.len() && (forall|x: int|
            0 <= x < j - 1 ==> p1[x] == q1[x]) && (p1[j - 1]) != q1[j - 1] && same_kind(
            p1[j - 1],
            q1[j - 1],
        ));
        assert(compat(p1, q1));
    }
}

/// Compatible non-empty paths lead off with steps of one kind.
proof fn lemma_compat_head(p: Seq<StepView>, q: Seq<StepView>)
    requires
        compat(p, q),
        p.len() >= 1,
        q.len() >= 1,
    ensures
        same_kind(p[0], q[0]),
{
    if p != q {
        let j = choose|j: int|
            0 <= j < p.len() && j < q.len() && (forall|x: int| 0 <= x < j ==> p[x] == q[x]) && (
            #[trigger] p[j]) != q[j] && same_kind(p[j], q[j]);
        if j > 0 {
            assert(p[0] == q[0]);
        }
    }
}

/// Inserting one compatible (path, leaf) pair into a collector succeeds and
/// extends exactly the mapping the collector holds.
pub proof fn lemma_insert_represents(
    c: CollectorView,
    m: Map<Seq<StepView>, LeafView>,
    path: Seq<StepView>,
    i: int,
    leaf: LeafView,
)
    requires
        represents(c, m),
        0 <= i < path.len(),
        forall|q: Seq<StepView>| #[trigger] m.contains_key(q) ==> compat(path.skip(i), q),
    ensures
        insert_at(c, path, i, leaf) is Some,
        represents(insert_at(c, path, i, leaf)->Some_0, m.insert(path.skip(i), leaf)),
    decreases path.len() - i,
{
    let psuf = path.skip(i);
    let m2 = m.insert(psuf, leaf);
    assert(psuf.len() == path.len() - i);
    assert(psuf[0] == path[i]);
    assert(psuf =~= seq![path[i]] + path.skip(i + 1));
    let lc = leaf_collector(leaf);
    assert(lc is Null || lc is Bool || lc is Num || lc is Str);
    match path[i] {
        StepView::Key(k) => {
            // here the collector can only be an object or still unknown
            let fs: Seq<(Seq<char>, CollectorView)> = match c {
                CollectorView::Obj(f) => f,
                _ => Seq::empty(),
            };
            match c {
                CollectorView::Obj(f) => {
                    assert(fs == f);
                },
                CollectorView::Empty => {},
                CollectorView::Sparse(f) => {
                    let q = choose|q: Seq<StepView>| #[trigger] m.contains_key(q);
                    assert(q.len() >= 1 && q[0] is Index);
                    lemma_compat_head(psuf, q);
                    assert(false);
                },
                _ => {
                    let q = Seq::<StepView>::empty();
                    assert(m.contains_key(q));
                    assert(compat(psuf, q));
                    assert(psuf != q);
                    let j = choose|j: int|
                        0 <= j < psuf.len() && j < q.len() && (forall|x: int|
                            0 <= x < j ==> psuf[x] == q[x]) && (#[trigger] psuf[j]) != q[j]
                            && same_kind(psuf[j], q[j]);
                    assert(false);
                },
            }
            assert(forall|x: int, y: int|
                0 <= x < y < fs.len() ==> (#[trigger] fs[x]).0 != (#[trigger] fs[y]).0);
            assert(forall|q: Seq<StepView>|
                #[trigger] m.contains_key(q) ==> q.len() >= 1 && q[0] is Key && find_key(
                    fs,
                    q[0]->Key_0,
                ) >= 0);
            assert(forall|x: int|
                0 <= x < fs.len() ==> inhabited(m, StepView::Key((#[trigger] fs[x]).0)));
            assert(forall|x: int|
                0 <= x < fs.len() ==> represents(
                    (#[trigger] fs[x]).1,
                    descend(m, StepView::Key(fs[x].0)),
                ));
            lemma_find_key(fs, k);
            let idx = find_key(fs, k);
            let nc: CollectorView = if i == path.len() - 1 {
                // the path is spent: the leaf itself lands at this key, and
                // nothing deeper can stand in the mapping
                assert forall|rest: Seq<StepView>| #[trigger]
                    descend(m, path[i]).contains_key(rest) implies rest
                    == Seq::<StepView>::empty() by {
                    let q = seq![path[i]] + rest;
                    assert(m.contains_key(q));
                    assert(compat(psuf, q));
                    assert(q[0] == path[i]);
                    if q == psuf {
                        assert(q.skip(1) =~= rest);
                        assert(psuf.skip(1) =~= Seq::<StepView>::empty());
                    } else {
                        let j = choose|j: int|
                            0 <= j < psuf.len() && j < q.len() && (forall|x: int|
                                0 <= x < j ==> psuf[x] == q[x]) && (#[trigger] psuf[j]) != q[j]
                                && same_kind(psuf[j], q[j]);
                        assert(j == 0);
                        assert(false);
                    }
                }
                assert(psuf =~= seq![path[i]] + Seq::<StepView>::empty());
                lemma_descend_insert_same(m, path[i], Seq::empty(), leaf);
                let sub2 = descend(m2, path[i]);
                assert(sub2 == descend(m, path[i]).insert(Seq::empty(), leaf));
                assert(sub2.contains_key(Seq::<StepView>::empty()));
                assert(sub2[Seq::<StepView>::empty()] == leaf);
                assert(forall|rest: Seq<StepView>|
                    #[trigger] sub2.contains_key(rest) ==> rest == Seq::<StepView>::empty());
                assert(represents(lc, sub2));
                lc
            } else {
                let child: CollectorView = if idx >= 0 {
                    fs[idx].1
                } else {
                    CollectorView::Empty
                };
                let msub = descend(m, path[i]);
                if idx >= 0 {
                    assert(fs[idx].0 == k);
                    assert(represents(fs[idx].1, descend(m, StepView::Key(fs[idx].0))));
                    assert(represents(child, msub));
                } else {
                    assert forall|rest: Seq<StepView>| !(#[trigger] msub.contains_key(rest)) by {
                        if msub.contains_key(rest) {
                            let q = seq![path[i]] + rest;
                            assert(m.contains_key(q));
                            assert(q[0] == path[i]);
                            assert(find_key(fs, k) >= 0);
                        }
                    }
                    assert(represents(child, msub));
                }
                assert forall|q2: Seq<StepView>| #[trigger] msub.contains_key(q2) implies compat(
                    path.skip(i + 1),
                    q2,
                ) by {
                    let q = seq![path[i]] + q2;
                    assert(m.contains_key(q));
                    assert(compat(psuf, q));
                    assert(q[0] == path[i]);
                    lemma_compat_tail(psuf, q);
                    assert(psuf.skip(1) =~= path.skip(i + 1));
                    assert(q.skip(1) =~= q2);
                }
                lemma_insert_represents(child, msub, path, i + 1, leaf);
                lemma_descend_insert_same(m, path[i], path.skip(i + 1), leaf);
                let ncx = insert_at(child, path, i + 1, leaf)->Some_0;
                assert(descend(m2, path[i]) == msub.insert(path.skip(i + 1), leaf));
                assert(represents(ncx, descend(m2, path[i])));
                ncx
            };
            lemma_assoc_set_props(fs, k, nc);
            let out = assoc_set(fs, k, nc);
            assert(insert_at(c, path, i, leaf) == Some(CollectorView::Obj(out)));
            assert(m2.contains_key(psuf));
            assert(forall|q: Seq<StepView>|
                #[trigger] m2.contains_key(q) ==> q.len() >= 1 && q[0] is Key);
            assert forall|q: Seq<StepView>| #[trigger] m2.contains_key(q) implies find_key(
                out,
                q[0]->Key_0,
            ) >= 0 by {
                if q == psuf {
                    assert(q[0]->Key_0 == k);
                } else {
                    assert(m.contains_key(q));
                    if q[0]->Key_0 != k {
                        assert(find_key(fs, q[0]->Key_0) >= 0);
                    }
                }
            }
            assert forall|x: int| 0 <= x < out.len() implies inhabited(
                m2,
                StepView::Key((#[trigger] out[x]).0),
            ) by {
                if out[x].0 == k {
                    assert(m2.contains_key(psuf) && psuf.len() >= 1 && psuf[0] == StepView::Key(k));
                } else {
                    assert(find_key(fs, out[x].0) >= 0 && fs[find_key(fs, out[x].0)] == out[x]);
                    assert(inhabited(m, StepView::Key(out[x].0)));
                    let q = choose|q: Seq<StepView>|
                        #[trigger] m.contains_key(q) && q.len() >= 1 && q[0] == StepView::Key(
                            out[x].0,
                        );
                    assert(m2.contains_key(q));
                }
            }
            assert forall|x: int| 0 <= x < out.len() implies represents(
                (#[trigger] out[x]).1,
                descend(m2, StepView::Key(out[x].0)),
            ) by {
                if out[x].0 == k {
                    lemma_find_key_unique(out, k, x);
                    assert(out[x] == (k, nc));
                } else {
                    assert(find_key(fs, out[x].0) >= 0 && fs[find_key(fs, out[x].0)] == out[x]);
                    lemma_descend_insert_other(m, StepView::Key(out[x].0), psuf, leaf);
                    let fi = find_key(fs, out[x].0);
                    assert(represents(fs[fi].1, descend(m, StepView::Key(fs[fi].0))));
                }
            }
            assert(represents(CollectorView::Obj(out), m2));
        },
        StepView::Index(n) => {
            let fs: Seq<(int, CollectorView)> = match c {
                CollectorView::Sparse(f) => f,
                _ => Seq::empty(),
            };
            match c {
                CollectorView::Sparse(f) => {
                    assert(fs == f);
                },
                CollectorView::Empty => {},
                CollectorView::Obj(f) => {
                    let q = choose|q: Seq<StepView>| #[trigger] m.contains_key(q);
                    assert(q.len() >= 1 && q[0] is Key);
                    lemma_compat_head(psuf, q);
                    assert(false);
                },
                _ => {
                    let q = Seq::<StepView>::empty();
                    assert(m.contains_key(q));
                    assert(compat(psuf, q));
                    assert(psuf != q);
                    let j = choose|j: int|
                        0 <= j < psuf.len() && j < q.len() && (forall|x: int|
                            0 <= x < j ==> psuf[x] == q[x]) && (#[trigger] psuf[j]) != q[j]
                            && same_kind(psuf[j], q[j]);
                    assert(false);
                },
            }
            assert(forall|x: int, y: int|
                0 <= x < y < fs.len() ==> (#[trigger] fs[x]).0 < (#[trigger] fs[y]).0);
            assert(forall|q: Seq<StepView>|
                #[trigger] m.contains_key(q) ==> q.len() >= 1 && q[0] is Index && sparse_has(
                    fs,
                    q[0]->Index_0,
                ));
            assert(forall|x: int|
                0 <= x < fs.len() ==> inhabited(m, StepView::Index((#[trigger] fs[x]).0)));
            assert(forall|x: int|
                0 <= x < fs.len() ==> represents(
                    (#[trigger] fs[x]).1,
                    descend(m, StepView::Index(fs[x].0)),
                ));
            lemma_find_pos(fs, n);
            let pos = find_pos(fs, n);
            let hit = pos < fs.len() && fs[pos].0 == n;
            let nc: CollectorView = if i == path.len() - 1 {
                assert forall|rest: Seq<StepView>| #[trigger]
                    descend(m, path[i]).contains_key(rest) implies rest
                    == Seq::<StepView>::empty() by {
                    let q = seq![path[i]] + rest;
                    assert(m.contains_key(q));
                    assert(compat(psuf, q));
                    assert(q[0] == path[i]);
                    if q == psuf {
                        assert(q.skip(1) =~= rest);
                        assert(psuf.skip(1) =~= Seq::<StepView>::empty());
                    } else {
                        let j = choose|j: int|
                            0 <= j < psuf.len() && j < q.len() && (forall|x: int|
                                0 <= x < j ==> psuf[x] == q[x]) && (#[trigger] psuf[j]) != q[j]
                                && same_kind(psuf[j], q[j]);
                        assert(j == 0);
                        assert(false);
                    }
                }
                assert(psuf =~= seq![path[i]] + Seq::<StepView>::empty());
                lemma_descend_insert_same(m, path[i], Seq::empty(), leaf);
                let sub2 = descend(m2, path[i]);
                assert(sub2 == descend(m, path[i]).insert(Seq::empty(), leaf));
                assert(sub2.contains_key(Seq::<StepView>::empty()));
                assert(sub2[Seq::<StepView>::empty()] == leaf);
                assert(forall|rest: Seq<StepView>|
                    #[trigger] sub2.contains_key(rest) ==> rest == Seq::<StepView>::empty());
                assert(represents(lc, sub2));
                lc
            } else {
                let child: CollectorView = if hit {
                    fs[pos].1
                } else {
                    CollectorView::Empty
                };
                let msub = descend(m, path[i]);
                if hit {
                    assert(fs[pos].0 == n);
                    assert(represents(fs[pos].1, descend(m, StepView::Index(fs[pos].0))));
                    assert(represents(child, msub));
                } else {
                    assert forall|rest: Seq<StepView>| !(#[trigger] msub.contains_key(rest)) by {
                        if msub.contains_key(rest) {
                            let q = seq![path[i]] + rest;
                            assert(m.contains_key(q));
                            assert(q[0] == path[i]);
                            assert(sparse_has(fs, n));
                        }
                    }
                    assert(represents(child, msub));
                }
                assert forall|q2: Seq<StepView>| #[trigger] msub.contains_key(q2) implies compat(
                    path.skip(i + 1),
                    q2,
                ) by {
                    let q = seq![path[i]] + q2;
                    assert(m.contains_key(q));
                    assert(compat(psuf, q));
                    assert(q[0] == path[i]);
                    lemma_compat_tail(psuf, q);
                    assert(psuf.skip(1) =~= path.skip(i + 1));
                    assert(q.skip(1) =~= q2);
                }
                lemma_insert_represents(child, msub, path, i + 1, leaf);
                lemma_descend_insert_same(m, path[i], path.skip(i + 1), leaf);
                let ncx = insert_at(child, path, i + 1, leaf)->Some_0;
                assert(descend(m2, path[i]) == msub.insert(path.skip(i + 1), leaf));
                assert(represents(ncx, descend(m2, path[i])));
                ncx
            };
            lemma_sparse_set_props(fs, n, nc);
            let out = sparse_set(fs, n, nc);
            assert(insert_at(c, path, i, leaf) == Some(CollectorView::Sparse(out)));
            assert(m2.contains_key(psuf));
            assert(forall|q: Seq<StepView>|
                #[trigger] m2.contains_key(q) ==> q.len() >= 1 && q[0] is Index);
            assert forall|q: Seq<StepView>| #[trigger] m2.contains_key(q) implies sparse_has(
                out,
                q[0]->Index_0,
            ) by {
                if q == psuf {
                    assert(q[0]->Index_0 == n);
                } else {
                    assert(m.contains_key(q));
                    if q[0]->Index_0 != n {
                        assert(sparse_has(fs, q[0]->Index_0));
                    }
                }
            }
            assert forall|x: int| 0 <= x < out.len() implies inhabited(
                m2,
                StepView::Index((#[trigger] out[x]).0),
            ) by {
                if out[x].0 == n {
                    assert(m2.contains_key(psuf) && psuf.len() >= 1 && psuf[0] == StepView::Index(
                        n,
                    ));
                } else {
                    assert(sparse_has(fs, out[x].0) && fs[find_pos(fs, out[x].0)] == out[x]);
                    assert(inhabited(m, StepView::Index(out[x].0)));
                    let q = choose|q: Seq<StepView>|
                        #[trigger] m.contains_key(q) && q.len() >= 1 && q[0] == StepView::Index(
                            out[x].0,
                        );
                    assert(m2.contains_key(q));
                }
            }
            assert forall|x: int| 0 <= x < out.len() implies represents(
                (#[trigger] out[x]).1,
                descend(m2, StepView::Index(out[x].0)),
            ) by {
                if out[x].0 == n {
                    lemma_sparse_member(out, n, x);
                    assert(out[x] == (n, nc));
                } else {
                    assert(sparse_has(fs, out[x].0) && fs[find_pos(fs, out[x].0)] == out[x]);
                    lemma_descend_insert_other(m, StepView::Index(out[x].0), psuf, leaf);
                    let fi = find_pos(fs, out[x].0);
                    assert(represents(fs[fi].1, descend(m, StepView::Index(fs[fi].0))));
                }
            }
            assert(represents(CollectorView::Sparse(out), m2));
        },
    }
}

// ---------------------------------------------------------------------------
// Folding a whole stream of compatible entries.
// ---------------------------------------------------------------------------

/// The mapping a sequence of entries inserts, first to last.
pub open spec fn insert_entries(
    m: Map<Seq<StepView>, LeafView>,
    entries: Seq<(Seq<StepView>, LeafView)>,
) -> Map<Seq<StepView>, LeafView>
    decreases entries.len(),
{
    if entries.len() == 0 {
        m
    } else {
        insert_entries(m.insert(entries[0].0, entries[0].1), entries.skip(1))
    }
}

pub proof fn lemma_fold_represents(
    c: CollectorView,
    m: Map<Seq<StepView>, LeafView>,
    entries: Seq<(Seq<StepView>, LeafView)>,
)
    requires
        represents(c, m),
        forall|j: int| 0 <= j < entries.len() ==> (#[trigger] entries[j]).0.len() >= 1,
        forall|j: int, q: Seq<StepView>|
            0 <= j < entries.len() && #[trigger] m.contains_key(q) ==> compat(
                (#[trigger] entries[j]).0,
                q,
            ),
        forall|j: int, x: int|
            0 <= j < entries.len() && 0 <= x < entries.len() && j != x ==> compat(
                (#[trigger] entries[j]).0,
                (#[trigger] entries[x]).0,
            ),
    ensures
        fold_inserts(c, entries) is Some,
        represents(fold_inserts(c, entries)->Some_0, insert_entries(m, entries)),
    decreases entries.len(),
{
    if entries.len() > 0 {
        let e0 = entries[0];
        assert(e0.0.skip(0) =~= e0.0);
        lemma_insert_represents(c, m, e0.0, 0, e0.1);
        let c1 = insert_at(c, e0.0, 0, e0.1)->Some_0;
        let m1 = m.insert(e0.0, e0.1);
        let rest = entries.skip(1);
        assert(forall|j: int| 0 <= j < rest.len() ==> (#[trigger] rest[j]) == entries[j + 1]);
        assert forall|j: int, q: Seq<StepView>|
            0 <= j < rest.len() && #[trigger] m1.contains_key(q) implies compat(
            (#[trigger] rest[j]).0,
            q,
        ) by {
            if q == e0.0 {
                assert(compat(entries[j + 1].0, entries[0].0));
            } else {
                assert(m.contains_key(q));
            }
        }
        lemma_fold_represents(c1, m1, rest);
    }
}

/// With distinct paths, inserting the entries first to last yields the same
/// mapping as the store's own fold.
proof fn lemma_insert_entries_props(
    m: Map<Seq<StepView>, LeafView>,
    entries: Seq<(Seq<StepView>, LeafView)>,
)
    requires
        distinct_keys(entries),
    ensures
        forall|p: Seq<StepView>|
            #[trigger] insert_entries(m, entries).contains_key(p) ==> m.contains_key(p) || exists|
                i: int,
            | 0 <= i < entries.len() && (#[trigger] entries[i]).0 == p,
        forall|i: int|
            0 <= i < entries.len() ==> insert_entries(m, entries).contains_key(
                (#[trigger] entries[i]).0,
            ) && insert_entries(m, entries)[entries[i].0] == entries[i].1,
        forall|p: Seq<StepView>|
            #[trigger] m.contains_key(p) ==> insert_entries(m, entries).contains_key(p),
        forall|p: Seq<StepView>|
            #[trigger] m.contains_key(p) && !(exists|i: int|
                0 <= i < entries.len() && (#[trigger] entries[i]).0 == p) ==> insert_entries(
                m,
                entries,
            )[p] == m[p],
    decreases entries.len(),
{
    if entries.len() > 0 {
        let e0 = entries[0];
        let m1 = m.insert(e0.0, e0.1);
        let rest = entries.skip(1);
        assert(forall|j: int| 0 <= j < rest.len() ==> (#[trigger] rest[j]) == entries[j + 1]);
        assert(distinct_keys(rest));
        lemma_insert_entries_props(m1, rest);
        let out = insert_entries(m, entries);
        assert forall|p: Seq<StepView>| #[trigger] out.contains_key(p) implies m.contains_key(p)
            || exists|i: int| 0 <= i < entries.len() && (#[trigger] entries[i]).0 == p by {
            if !m.contains_key(p) {
                if p == e0.0 {
                    assert(entries[0].0 == p);
                } else {
                    assert(!m1.contains_key(p));
                    assert(insert_entries(m1, rest).contains_key(p));
                    assert(exists|i: int| 0 <= i < rest.len() && (#[trigger] rest[i]).0 == p);
                    let i = choose|i: int| 0 <= i < rest.len() && (#[trigger] rest[i]).0 == p;
                    assert(entries[i + 1].0 == p);
                }
            }
        }
        assert forall|p: Seq<StepView>| #[trigger] m.contains_key(p) implies out.contains_key(
            p,
        ) by {
            assert(m1.contains_key(p));
            assert(insert_entries(m1, rest).contains_key(p));
        }
        assert forall|p: Seq<StepView>|
            #[trigger] m.contains_key(p) && !(exists|i: int|
                0 <= i < entries.len() && (#[trigger] entries[i]).0 == p) implies out[p]
            == m[p] by {
            assert(p != e0.0) by {
                if p == e0.0 {
                    assert(entries[0].0 == p);
                }
            }
            assert(m1.contains_key(p) && m1[p] == m[p]);
            assert(!(exists|i: int| 0 <= i < rest.len() && (#[trigger] rest[i]).0 == p)) by {
                if exists|i: int| 0 <= i < rest.len() && (#[trigger] rest[i]).0 == p {
                    let i = choose|i: int| 0 <= i < rest.len() && (#[trigger] rest[i]).0 == p;
                    assert(entries[i + 1].0 == p);
                }
            }
            assert(insert_entries(m1, rest)[p] == m1[p]);
        }
        assert forall|i: int| 0 <= i < entries.len() implies out.contains_key(
            (#[trigger] entries[i]).0,
        ) && out[entries[i].0] == entries[i].1 by {
            if i == 0 {
                assert(m1.contains_key(e0.0) && m1[e0.0] == e0.1);
                assert(!(exists|x: int| 0 <= x < rest.len() && (#[trigger] rest[x]).0 == e0.0)) by {
                    if exists|x: int| 0 <= x < rest.len() && (#[trigger] rest[x]).0 == e0.0 {
                        let x = choose|x: int|
                            0 <= x < rest.len() && (#[trigger] rest[x]).0 == e0.0;
                        assert(entries[x + 1].0 == entries[0].0);
                    }
                }
            } else {
                assert(rest[i - 1] == entries[i]);
            }
        }
    }
}

// ---------------------------------------------------------------------------
// Reading the folded collector back as the wrapped document.
// ---------------------------------------------------------------------------

/// The document a base path chain wraps around a subtree's content: each key
/// step one single-member object, each index step one single-element array.
pub open spec fn wrapped_json(base: Seq<StepView>, d: JsonView) -> JsonView
    decreases base.len(),
{
    if base.len() == 0 {
        d
    } else {
        match base[0] {
            StepView::Key(k) => JsonView::Obj(seq![(k, wrapped_json(base.skip(1), d))]),
            StepView::Index(_) => JsonView::Arr(seq![wrapped_json(base.skip(1), d)]),
        }
    }
}

/// No arrays or objects without members anywhere in the document.  An empty
/// container leaves no entry behind when flattened, so it cannot be read
/// back.
pub open spec fn no_empty_containers(d: JsonView) -> bool
    decreases d,
{
    match d {
        JsonView::Arr(s) => s.len() > 0 && (forall|i: int|
            0 <= i < s.len() ==> no_empty_containers(#[trigger] s[i])),
        JsonView::Obj(s) => s.len() > 0 && (forall|i: int|
            0 <= i < s.len() ==> no_empty_containers((#[trigger] s[i]).1)),
        _ => true,
    }
}

/// Such a document holds at least one leaf.
proof fn lemma_doc_inhabited(d: JsonView)
    ensures
        no_empty_containers(d) ==> exists|rel: Seq<StepView>| #[trigger] doc_at(d, rel) is Some,
    decreases d,
{
    if no_empty_containers(d) {
        match d {
            JsonView::Arr(s) => {
                assert(d->Arr_0 == s);
                lemma_doc_inhabited(s[0]);
                let rel = choose|rel: Seq<StepView>| #[trigger] doc_at(s[0], rel) is Some;
                let w = seq![StepView::Index(0)] + rel;
                assert(w[0] == StepView::Index(0));
                assert(w.skip(1) =~= rel);
                assert(doc_at(d, w) is Some);
            },
            JsonView::Obj(s) => {
                assert(d->Obj_0 == s);
                lemma_doc_inhabited(s[0].1);
                let rel = choose|rel: Seq<StepView>| #[trigger] doc_at(s[0].1, rel) is Some;
                let w = seq![StepView::Key(s[0].0)] + rel;
                assert(w[0] == StepView::Key(s[0].0));
                assert(w.skip(1) =~= rel);
                assert(find_key(s, s[0].0) == 0);
                assert(doc_at(d, w) is Some);
            },
            _ => {
                assert(doc_at(d, Seq::<StepView>::empty()) is Some);
            },
        }
    }
}

/// Two distinct leaf paths of one document part with steps of one kind.
proof fn lemma_doc_compat(d: JsonView, r1: Seq<StepView>, r2: Seq<StepView>)
    requires
        doc_at(d, r1) is Some,
        doc_at(d, r2) is Some,
        r1 != r2,
    ensures
        compat(r1, r2),
    decreases d,
{
    if r1.len() == 0 {
        if r2.len() == 0 {
            assert(r1 =~= r2);
        }
        assert(r2.len() > 0);
        assert(doc_at(d, r2) is None);
    } else if r2.len() == 0 {
        assert(doc_at(d, r1) is None);
    } else {
        match d {
            JsonView::Arr(s) => {
                match (r1[0], r2[0]) {
                    (StepView::Index(n1), StepView::Index(n2)) => {
                        if n1 != n2 {
                            assert(compat(r1, r2)) by {
                                assert(0 <= 0 < r1.len() && 0 < r2.len() && (forall|x: int|
                                    0 <= x < 0 ==> r1[x] == r2[x]) && r1[0] != r2[0] && same_kind(
                                    r1[0],
                                    r2[0],
                                ));
                            }
                        } else {
                            assert(r1.skip(1) != r2.skip(1)) by {
                                if r1.skip(1) == r2.skip(1) {
                                    assert(r1.skip(1).len() == r2.skip(1).len());
                                    assert(r1.len() == r2.len());
                                    assert forall|x: int| 0 <= x < r1.len() implies r1[x]
                                        == r2[x] by {
                                        if x >= 1 {
                                            assert(r1[x] == r1.skip(1)[x - 1]);
                                            assert(r2[x] == r2.skip(1)[x - 1]);
                                        }
                                    }
                                    assert(r1 =~= r2);
                                }
                            }
                            lemma_doc_compat(s[n1], r1.skip(1), r2.skip(1));
                            lemma_compat_lift(r1, r2);
                        }
                    },
                    _ => {
                        assert(false);
                    },
                }
            },
            JsonView::Obj(s) => {
                match (r1[0], r2[0]) {
                    (StepView::Key(k1), StepView::Key(k2)) => {
                        if k1 != k2 {
                            assert(compat(r1, r2)) by {
                                assert(0 <= 0 < r1.len() && 0 < r2.len() && (forall|x: int|
                                    0 <= x < 0 ==> r1[x] == r2[x]) && r1[0] != r2[0] && same_kind(
                                    r1[0],
                                    r2[0],
                                ));
                            }
                        } else {
                            let fk = find_key(s, k1);
                            assert(0 <= fk < s.len());
                            assert(r1.skip(1) != r2.skip(1)) by {
                                if r1.skip(1) == r2.skip(1) {
                                    assert(r1.skip(1).len() == r2.skip(1).len());
                                    assert(r1.len() == r2.len());
                                    assert forall|x: int| 0 <= x < r1.len() implies r1[x]
                                        == r2[x] by {
                                        if x >= 1 {
                                            assert(r1[x] == r1.skip(1)[x - 1]);
                                            assert(r2[x] == r2.skip(1)[x - 1]);
                                        }
                                    }
                                    assert(r1 =~= r2);
                                }
                            }
                            lemma_doc_compat(s[fk].1, r1.skip(1), r2.skip(1));
                            lemma_compat_lift(r1, r2);
                        }
                    },
                    _ => {
                        assert(false);
                    },
                }
            },
            _ => {
                assert(false);
            },
        }
    }
}

/// Compatibility one step down lifts back over an equal head.
proof fn lemma_compat_lift(p: Seq<StepView>, q: Seq<StepView>)
    requires
        p.len() >= 1,
        q.len() >= 1,
        p[0] == q[0],
        compat(p.skip(1), q.skip(1)),
        p != q,
    ensures
        compat(p, q),
{
    let p1 = p.skip(1);
    let q1 = q.skip(1);
    if p1 == q1 {
        assert(forall|x: int|
            1 <= x < p.len() ==> (#[trigger] p[x]) == p1[x - 1] && q[x] == q1[x - 1]);
        assert(p =~= q);
    } else {
        let j = choose|j: int|
            0 <= j < p1.len() && j < q1.len() && (forall|x: int| 0 <= x < j ==> p1[x] == q1[x]) && (
            #[trigger] p1[j]) != q1[j] && same_kind(p1[j], q1[j]);
        assert(p[j + 1] == p1[j] && q[j + 1] == q1[j]);
        assert(forall|x: int| 1 <= x < j + 1 ==> (#[trigger] p[x]) == p1[x - 1] && q[x] == q1[x
            - 1]);
        assert(0 <= j + 1 < p.len() && j + 1 < q.len() && (forall|x: int|
            0 <= x < j + 1 ==> p[x] == q[x]) && (p[j + 1]) != q[j + 1] && same_kind(
            p[j + 1],
            q[j + 1],
        ));
        assert(compat(p, q));
    }
}

/// Sorted indices covering exactly 0 to `len` are the identity.
proof fn lemma_sorted_ids(fs: Seq<(int, CollectorView)>, len: int, x: int)
    requires
        forall|a: int, b: int| 0 <= a < b < fs.len() ==> (#[trigger] fs[a]).0 < (#[trigger] fs[b]).0,
        forall|a: int| 0 <= a < fs.len() ==> 0 <= (#[trigger] fs[a]).0 < len,
        forall|n: int| 0 <= n < len ==> #[trigger] sparse_has(fs, n),
        0 <= x < fs.len(),
        fs.len() <= len,
    ensures
        fs[x].0 == x,
    decreases x,
{
    if x == 0 {
        if fs[0].0 > 0 {
            assert(sparse_has(fs, 0));
            lemma_find_pos(fs, 0);
            let j = find_pos(fs, 0);
            assert(fs[j].0 == 0);
            if j > 0 {
                assert(fs[0].0 < fs[j].0);
            }
        }
    } else {
        lemma_sorted_ids(fs, len, x - 1);
        assert(fs[x - 1].0 == x - 1);
        assert(fs[x].0 > x - 1);
        if fs[x].0 > x {
            assert(x < len);
            assert(sparse_has(fs, x));
            lemma_find_pos(fs, x);
            let j = find_pos(fs, x);
            assert(fs[j].0 == x);
            if j <= x - 1 {
                if j < x - 1 {
                    assert(fs[j].0 < fs[x - 1].0);
                }
            } else {
                assert(j >= x);
                if j > x {
                    assert(fs[x].0 < fs[j].0);
                }
            }
        }
    }
}

/// Flattening a document into an empty mapping.
pub open spec fn flat0(base: Seq<StepView>, d: JsonView) -> Map<Seq<StepView>, LeafView> {
    flatten_into(Map::empty(), base, d)
}

proof fn lemma_flat0_nonempty(base: Seq<StepView>, d: JsonView)
    requires
        json_wf(d),
        no_empty_containers(d),
    ensures
        exists|p: Seq<StepView>| #[trigger] flat0(base, d).contains_key(p),
{
    lemma_doc_inhabited(d);
    let rel = choose|rel: Seq<StepView>| #[trigger] doc_at(d, rel) is Some;
    let p = base + rel;
    assert(is_prefix(base, p)) by {
        assert(forall|j: int| 0 <= j < base.len() ==> p[j] == base[j]);
    }
    assert(p.skip(base.len() as int) =~= rel);
    lemma_flatten_char(Map::empty(), base, d, p);
    assert(flat0(base, d).contains_key(p));
}

/// Peeling one base step off the flattened mapping.
proof fn lemma_descend_peel(base: Seq<StepView>, d: JsonView)
    requires
        json_wf(d),
        base.len() >= 1,
    ensures
        descend(flat0(base, d), base[0]) == flat0(base.skip(1), d),
{
    let lhs = descend(flat0(base, d), base[0]);
    let rhs = flat0(base.skip(1), d);
    let b1 = base.skip(1);
    assert forall|rest: Seq<StepView>|
        #[trigger] lhs.contains_key(rest) == rhs.contains_key(rest) by {
        let p = seq![base[0]] + rest;
        lemma_flatten_char(Map::empty(), base, d, p);
        lemma_flatten_char(Map::empty(), b1, d, rest);
        lemma_peel_leaf_at(base, d, rest);
    }
    assert forall|rest: Seq<StepView>| #[trigger] lhs.contains_key(rest) implies lhs[rest]
        == rhs[rest] by {
        let p = seq![base[0]] + rest;
        lemma_flatten_char(Map::empty(), base, d, p);
        lemma_flatten_char(Map::empty(), b1, d, rest);
        lemma_peel_leaf_at(base, d, rest);
    }
    assert(lhs =~= rhs);
}

/// A leaf below the full base, reached through the base's first step, is a
/// leaf below the shortened base.
proof fn lemma_peel_leaf_at(base: Seq<StepView>, d: JsonView, rest: Seq<StepView>)
    requires
        base.len() >= 1,
    ensures
        leaf_at(base, d, seq![base[0]] + rest) == leaf_at(base.skip(1), d, rest),
{
    let p = seq![base[0]] + rest;
    let b1 = base.skip(1);
    assert(p[0] == base[0]);
    assert(forall|j: int| 1 <= j < p.len() ==> (#[trigger] p[j]) == rest[j - 1]);
    assert(forall|j: int| 0 <= j < b1.len() ==> (#[trigger] b1[j]) == base[j + 1]);
    if is_prefix(base, p) {
        assert(is_prefix(b1, rest)) by {
            assert(forall|j: int| 0 <= j < b1.len() ==> rest[j] == #[trigger] b1[j]);
        }
        assert(p.skip(base.len() as int) =~= rest.skip(b1.len() as int));
    } else {
        assert(!is_prefix(b1, rest)) by {
            if is_prefix(b1, rest) {
                assert(forall|j: int| 0 <= j < base.len() ==> p[j] == #[trigger] base[j]) by {
                    assert(forall|j: int|
                        1 <= j < base.len() ==> p[j] == rest[j - 1] && rest[j - 1] == b1[j - 1]
                            && b1[j - 1] == base[j]);
                }
                assert(is_prefix(base, p));
            }
        }
    }
}

/// Descending into one array element of a flattened document.
proof fn lemma_descend_arr(s: Seq<JsonView>, n: int)
    requires
        forall|x: int| 0 <= x < s.len() ==> json_wf(#[trigger] s[x]),
        0 <= n < s.len(),
    ensures
        descend(flat0(Seq::empty(), JsonView::Arr(s)), StepView::Index(n)) == flat0(
            Seq::empty(),
            s[n],
        ),
{
    let d = JsonView::Arr(s);
    assert(json_wf(d));
    let lhs = descend(flat0(Seq::empty(), d), StepView::Index(n));
    let rhs = flat0(Seq::empty(), s[n]);
    let e: Seq<StepView> = Seq::empty();
    assert forall|rest: Seq<StepView>|
        #[trigger] lhs.contains_key(rest) == rhs.contains_key(rest) by {
        let p = seq![StepView::Index(n)] + rest;
        lemma_flatten_char(Map::empty(), e, d, p);
        lemma_flatten_char(Map::empty(), e, s[n], rest);
        assert(p.skip(0) =~= p);
        assert(rest.skip(0) =~= rest);
        assert(p[0] == StepView::Index(n));
        assert(p.skip(1) =~= rest);
        assert(doc_at(d, p) == doc_at(s[n], rest));
    }
    assert forall|rest: Seq<StepView>| #[trigger] lhs.contains_key(rest) implies lhs[rest]
        == rhs[rest] by {
        let p = seq![StepView::Index(n)] + rest;
        lemma_flatten_char(Map::empty(), e, d, p);
        lemma_flatten_char(Map::empty(), e, s[n], rest);
        assert(p.skip(0) =~= p);
        assert(rest.skip(0) =~= rest);
        assert(p[0] == StepView::Index(n));
        assert(p.skip(1) =~= rest);
        assert(doc_at(d, p) == doc_at(s[n], rest));
    }
    assert(lhs =~= rhs);
}

/// Descending into one object member of a flattened document.
proof fn lemma_descend_obj(s: Seq<(Seq<char>, JsonView)>, n: int)
    requires
        forall|x: int, y: int| 0 <= x < y < s.len() ==> (#[trigger] s[x]).0 != (#[trigger] s[y]).0,
        forall|x: int| 0 <= x < s.len() ==> json_wf((#[trigger] s[x]).1),
        0 <= n < s.len(),
    ensures
        descend(flat0(Seq::empty(), JsonView::Obj(s)), StepView::Key(s[n].0)) == flat0(
            Seq::empty(),
            s[n].1,
        ),
{
    let d = JsonView::Obj(s);
    assert(json_wf(d));
    let lhs = descend(flat0(Seq::empty(), d), StepView::Key(s[n].0));
    let rhs = flat0(Seq::empty(), s[n].1);
    let e: Seq<StepView> = Seq::empty();
    lemma_find_key_unique(s, s[n].0, n);
    assert forall|rest: Seq<StepView>|
        #[trigger] lhs.contains_key(rest) == rhs.contains_key(rest) by {
        let p = seq![StepView::Key(s[n].0)] + rest;
        lemma_flatten_char(Map::empty(), e, d, p);
        lemma_flatten_char(Map::empty(), e, s[n].1, rest);
        assert(p.skip(0) =~= p);
        assert(rest.skip(0) =~= rest);
        assert(p[0] == StepView::Key(s[n].0));
        assert(p.skip(1) =~= rest);
        assert(doc_at(d, p) == doc_at(s[n].1, rest));
    }
    assert forall|rest: Seq<StepView>| #[trigger] lhs.contains_key(rest) implies lhs[rest]
        == rhs[rest] by {
        let p = seq![StepView::Key(s[n].0)] + rest;
        lemma_flatten_char(Map::empty(), e, d, p);
        lemma_flatten_char(Map::empty(), e, s[n].1, rest);
        assert(p.skip(0) =~= p);
        assert(rest.skip(0) =~= rest);
        assert(p[0] == StepView::Key(s[n].0));
        assert(p.skip(1) =~= rest);
        assert(doc_at(d, p) == doc_at(s[n].1, rest));
    }
    assert(lhs =~= rhs);
}

/// Strictly ascending non-negative indices grow at least as fast as their
/// positions.
proof fn lemma_sorted_lb(fs: Seq<(int, CollectorView)>, x: int)
    requires
        forall|a: int, b: int| 0 <= a < b < fs.len() ==> (#[trigger] fs[a]).0 < (#[trigger] fs[b]).0,
        forall|a: int| 0 <= a < fs.len() ==> (#[trigger] fs[a]).0 >= 0,
        0 <= x < fs.len(),
    ensures
        fs[x].0 >= x,
    decreases x,
{
    if x > 0 {
        lemma_sorted_lb(fs, x - 1);
        assert(fs[x - 1].0 < fs[x].0);
    }
}

/// A collector that holds exactly a flattened document reads back as that
/// document wrapped in its base path chain.
pub proof fn lemma_represents_matches(c: CollectorView, base: Seq<StepView>, d: JsonView)
    requires
        represents(c, flat0(base, d)),
        coll_wf(c),
        json_wf(d),
        no_empty_containers(d),
    ensures
        matches_collector(wrapped_json(base, d), c),
    decreases base.len(), d,
{
    let m = flat0(base, d);
    lemma_flat0_nonempty(base, d);
    if base.len() >= 1 {
        // every stored path leads off with the base's first step
        assert forall|p: Seq<StepView>| #[trigger] m.contains_key(p) implies p.len() >= 1 && p[0]
            == base[0] by {
            lemma_flatten_char(Map::empty(), base, d, p);
            assert(is_prefix(base, p));
            assert(p.len() >= base.len());
        }
        let q0 = choose|q: Seq<StepView>| #[trigger] m.contains_key(q);
        lemma_descend_peel(base, d);
        match base[0] {
            StepView::Key(k) => {
                match c {
                    CollectorView::Obj(fs) => {
                        assert(find_key(fs, k) >= 0) by {
                            assert(q0[0]->Key_0 == k);
                        }
                        lemma_find_key(fs, k);
                        assert(fs.len() >= 1);
                        assert forall|x: int| 0 <= x < fs.len() implies (#[trigger] fs[x]).0
                            == k by {
                            assert(inhabited(m, StepView::Key(fs[x].0)));
                            let q = choose|q: Seq<StepView>|
                                #[trigger] m.contains_key(q) && q.len() >= 1 && q[0]
                                    == StepView::Key(fs[x].0);
                            assert(q[0] == StepView::Key(k));
                        }
                        assert(fs.len() == 1) by {
                            if fs.len() >= 2 {
                                assert(fs[0].0 != fs[1].0);
                            }
                        }
                        assert(represents(fs[0].1, descend(m, StepView::Key(fs[0].0))));
                        assert(fs[0].0 == k);
                        assert(descend(m, StepView::Key(k)) == flat0(base.skip(1), d));
                        lemma_obj_wf_child(fs, 0);
                        lemma_represents_matches(fs[0].1, base.skip(1), d);
                        let w1 = wrapped_json(base.skip(1), d);
                        let w = wrapped_json(base, d);
                        assert(w == JsonView::Obj(seq![(k, w1)]));
                        let ps = seq![(k, w1)];
                        assert(ps.last() == (k, w1));
                        assert(ps.drop_last() =~= Seq::<(Seq<char>, JsonView)>::empty());
                        assert(obj_map(ps.drop_last()) =~= Map::<Seq<char>, JsonView>::empty());
                        assert(obj_map(ps) == obj_map(ps.drop_last()).insert(k, w1));
                        assert(obj_map(ps) =~= Map::<Seq<char>, JsonView>::empty().insert(k, w1));
                        assert forall|k2: Seq<char>| #[trigger]
                            obj_map(ps).contains_key(k2) implies exists|x: int|
                            0 <= x < fs.len() && (#[trigger] fs[x]).0 == k2 by {
                            assert(k2 == k);
                            assert(fs[0].0 == k2);
                        }
                        assert(obj_map(ps).contains_key(fs[0].0));
                        assert(obj_map(ps)[fs[0].0] == w1);
                        assert(matches_collector(w, c));
                    },
                    CollectorView::Empty => {
                        assert(false);
                    },
                    CollectorView::Sparse(fs) => {
                        assert(q0[0] is Index && q0[0] is Key);
                        assert(false);
                    },
                    _ => {
                        assert(m.contains_key(Seq::<StepView>::empty()));
                        assert(false);
                    },
                }
            },
            StepView::Index(n) => {
                match c {
                    CollectorView::Sparse(fs) => {
                        assert(sparse_has(fs, n)) by {
                            assert(q0[0]->Index_0 == n);
                        }
                        lemma_find_pos(fs, n);
                        assert(fs.len() >= 1);
                        assert forall|x: int| 0 <= x < fs.len() implies (#[trigger] fs[x]).0
                            == n by {
                            assert(inhabited(m, StepView::Index(fs[x].0)));
                            let q = choose|q: Seq<StepView>|
                                #[trigger] m.contains_key(q) && q.len() >= 1 && q[0]
                                    == StepView::Index(fs[x].0);
                            assert(q[0] == StepView::Index(n));
                        }
                        assert(fs.len() == 1) by {
                            if fs.len() >= 2 {
                                assert(fs[0].0 < fs[1].0);
                            }
                        }
                        assert(represents(fs[0].1, descend(m, StepView::Index(fs[0].0))));
                        assert(fs[0].0 == n);
                        assert(descend(m, StepView::Index(n)) == flat0(base.skip(1), d));
                        lemma_sparse_wf_child(fs, 0);
                        lemma_represents_matches(fs[0].1, base.skip(1), d);
                        let w1 = wrapped_json(base.skip(1), d);
                        let w = wrapped_json(base, d);
                        assert(w == JsonView::Arr(seq![w1]));
                        assert(w->Arr_0.len() == 1 && fs.len() == 1);
                        assert(w->Arr_0[0] == w1);
                        assert(matches_collector(w, c));
                    },
                    CollectorView::Empty => {
                        assert(false);
                    },
                    CollectorView::Obj(fs) => {
                        assert(q0[0] is Key && q0[0] is Index);
                        assert(false);
                    },
                    _ => {
                        assert(m.contains_key(Seq::<StepView>::empty()));
                        assert(false);
                    },
                }
            },
        }
    } else {
        assert(base =~= Seq::<StepView>::empty());
        match d {
            JsonView::Arr(s) => {
                assert(d->Arr_0 == s);
                assert(s.len() > 0);
                assert(forall|x: int| 0 <= x < s.len() ==> json_wf(#[trigger] s[x]));
                assert(forall|x: int| 0 <= x < s.len() ==> no_empty_containers(#[trigger] s[x]));
                assert forall|p: Seq<StepView>| #[trigger] m.contains_key(p) implies p.len() >= 1
                    && (p[0] is Index) && 0 <= p[0]->Index_0 < s.len() by {
                    lemma_flatten_char(Map::empty(), base, d, p);
                    assert(p.skip(0) =~= p);
                    assert(doc_at(d, p) is Some);
                }
                match c {
                    CollectorView::Sparse(fs) => {
                        assert forall|x: int| 0 <= x < fs.len() implies 0 <= (#[trigger] fs[x]).0
                            < s.len() by {
                            assert(inhabited(m, StepView::Index(fs[x].0)));
                            let q = choose|q: Seq<StepView>|
                                #[trigger] m.contains_key(q) && q.len() >= 1 && q[0]
                                    == StepView::Index(fs[x].0);
                        }
                        assert forall|n: int| 0 <= n < s.len() implies #[trigger] sparse_has(
                            fs,
                            n,
                        ) by {
                            lemma_doc_inhabited(s[n]);
                            let rel = choose|rel: Seq<StepView>| #[trigger] doc_at(s[n], rel)
                                is Some;
                            let p = seq![StepView::Index(n)] + rel;
                            assert(p[0] == StepView::Index(n));
                            assert(p.skip(1) =~= rel);
                            assert(doc_at(d, p) == doc_at(s[n], rel));
                            lemma_flatten_char(Map::empty(), base, d, p);
                            assert(p.skip(0) =~= p);
                            assert(m.contains_key(p));
                            assert(p[0]->Index_0 == n);
                        }
                        assert(fs.len() <= s.len()) by {
                            if fs.len() > s.len() {
                                lemma_sorted_lb(fs, s.len() as int);
                            }
                        }
                        assert forall|x: int| 0 <= x < fs.len() implies (#[trigger] fs[x]).0
                            == x by {
                            lemma_sorted_ids(fs, s.len() as int, x);
                        }
                        assert(fs.len() == s.len()) by {
                            if fs.len() < s.len() {
                                let n = fs.len() as int;
                                assert(sparse_has(fs, n));
                                lemma_find_pos(fs, n);
                                assert(fs[find_pos(fs, n)].0 == n);
                                assert(fs[find_pos(fs, n)].0 == find_pos(fs, n));
                            }
                        }
                        assert forall|x: int| 0 <= x < fs.len() implies matches_collector(
                            s[x],
                            (#[trigger] fs[x]).1,
                        ) by {
                            assert(represents(fs[x].1, descend(m, StepView::Index(fs[x].0))));
                            lemma_descend_arr(s, x);
                            assert(descend(m, StepView::Index(x)) == flat0(Seq::empty(), s[x]));
                            lemma_sparse_wf_child(fs, x);
                            lemma_represents_matches(fs[x].1, Seq::empty(), s[x]);
                            assert(wrapped_json(Seq::empty(), s[x]) == s[x]);
                        }
                        assert(wrapped_json(base, d) == d);
                        assert(matches_collector(d, c));
                    },
                    CollectorView::Empty => {
                        let q = choose|q: Seq<StepView>| #[trigger] m.contains_key(q);
                        assert(false);
                    },
                    CollectorView::Obj(fs) => {
                        let q = choose|q: Seq<StepView>| #[trigger] m.contains_key(q);
                        assert(q[0] is Key && q[0] is Index);
                        assert(false);
                    },
                    _ => {
                        assert(m.contains_key(Seq::<StepView>::empty()));
                        assert(false);
                    },
                }
            },
            JsonView::Obj(s) => {
                assert(d->Obj_0 == s);
                assert(s.len() > 0);
                assert(forall|x: int, y: int|
                    0 <= x < y < s.len() ==> (#[trigger] s[x]).0 != (#[trigger] s[y]).0);
                assert(forall|x: int| 0 <= x < s.len() ==> json_wf((#[trigger] s[x]).1));
                assert(forall|x: int|
                    0 <= x < s.len() ==> no_empty_containers((#[trigger] s[x]).1));
                assert forall|p: Seq<StepView>| #[trigger] m.contains_key(p) implies p.len() >= 1
                    && (p[0] is Key) && find_key(s, p[0]->Key_0) >= 0 by {
                    lemma_flatten_char(Map::empty(), base, d, p);
                    assert(p.skip(0) =~= p);
                    assert(doc_at(d, p) is Some);
                }
                match c {
                    CollectorView::Obj(fs) => {
                        lemma_obj_map_of(s);
                        assert forall|x: int| 0 <= x < fs.len() implies find_key(
                            s,
                            (#[trigger] fs[x]).0,
                        ) >= 0 by {
                            assert(inhabited(m, StepView::Key(fs[x].0)));
                            let q = choose|q: Seq<StepView>|
                                #[trigger] m.contains_key(q) && q.len() >= 1 && q[0]
                                    == StepView::Key(fs[x].0);
                            assert(q[0]->Key_0 == fs[x].0);
                        }
                        assert forall|x: int| 0 <= x < s.len() implies find_key(
                            fs,
                            (#[trigger] s[x]).0,
                        ) >= 0 by {
                            lemma_doc_inhabited(s[x].1);
                            let rel = choose|rel: Seq<StepView>| #[trigger] doc_at(s[x].1, rel)
                                is Some;
                            let p = seq![StepView::Key(s[x].0)] + rel;
                            assert(p[0] == StepView::Key(s[x].0));
                            assert(p.skip(1) =~= rel);
                            lemma_find_key_unique(s, s[x].0, x);
                            assert(doc_at(d, p) == doc_at(s[x].1, rel));
                            lemma_flatten_char(Map::empty(), base, d, p);
                            assert(p.skip(0) =~= p);
                            assert(m.contains_key(p));
                            assert(p[0]->Key_0 == s[x].0);
                        }
                        assert forall|x: int| 0 <= x < fs.len() implies obj_map(s).contains_key(
                            (#[trigger] fs[x]).0,
                        ) && matches_collector(obj_map(s)[fs[x].0], fs[x].1) by {
                            lemma_find_key(s, fs[x].0);
                            let dk = find_key(s, fs[x].0);
                            assert(s[dk].0 == fs[x].0);
                            assert(obj_map(s).contains_key(s[dk].0) && obj_map(s)[s[dk].0]
                                == s[dk].1);
                            assert(represents(fs[x].1, descend(m, StepView::Key(fs[x].0))));
                            lemma_descend_obj(s, dk);
                            assert(descend(m, StepView::Key(s[dk].0)) == flat0(
                                Seq::empty(),
                                s[dk].1,
                            ));
                            lemma_obj_wf_child(fs, x);
                            lemma_represents_matches(fs[x].1, Seq::empty(), s[dk].1);
                            assert(wrapped_json(Seq::empty(), s[dk].1) == s[dk].1);
                        }
                        assert forall|k2: Seq<char>| #[trigger]
                            obj_map(s).contains_key(k2) implies exists|x: int|
                            0 <= x < fs.len() && (#[trigger] fs[x]).0 == k2 by {
                            let x = choose|x: int| 0 <= x < s.len() && (#[trigger] s[x]).0 == k2;
                            assert(find_key(fs, s[x].0) >= 0);
                            lemma_find_key(fs, k2);
                            let fx = find_key(fs, k2);
                            assert(fs[fx].0 == k2);
                        }
                        assert(wrapped_json(base, d) == d);
                        assert(matches_collector(d, c));
                    },
                    CollectorView::Empty => {
                        let q = choose|q: Seq<StepView>| #[trigger] m.contains_key(q);
                        assert(false);
                    },
                    CollectorView::Sparse(fs) => {
                        let q = choose|q: Seq<StepView>| #[trigger] m.contains_key(q);
                        assert(q[0] is Index && q[0] is Key);
                        assert(false);
                    },
                    _ => {
                        assert(m.contains_key(Seq::<StepView>::empty()));
                        assert(false);
                    },
                }
            },
            _ => {
                // a scalar document: one leaf at the spent path
                assert forall|p: Seq<StepView>| #[trigger] m.contains_key(p) implies p
                    == Seq::<StepView>::empty() by {
                    lemma_flatten_char(Map::empty(), base, d, p);
                    assert(p.skip(0) =~= p);
                    if p.len() > 0 {
                        assert(doc_at(d, p) is None);
                    } else {
                        assert(p =~= Seq::<StepView>::empty());
                    }
                }
                lemma_flatten_char(Map::empty(), base, d, Seq::empty());
                assert(Seq::<StepView>::empty().skip(0) =~= Seq::<StepView>::empty());
                match c {
                    CollectorView::Empty => {
                        let q = choose|q: Seq<StepView>| #[trigger] m.contains_key(q);
                        assert(false);
                    },
                    CollectorView::Sparse(fs) => {
                        let q = choose|q: Seq<StepView>| #[trigger] m.contains_key(q);
                        assert(q.len() >= 1);
                        assert(false);
                    },
                    CollectorView::Obj(fs) => {
                        let q = choose|q: Seq<StepView>| #[trigger] m.contains_key(q);
                        assert(q.len() >= 1);
                        assert(false);
                    },
                    _ => {
                        assert(leaf_collector(m[Seq::<StepView>::empty()]) == c);
                        assert(wrapped_json(base, d) == d);
                        match d {
                            JsonView::Num(t) => {
                                assert(num_canon(t) == Some(t));
                                assert(matches_collector(d, c));
                            },
                            _ => {
                                assert(matches_collector(d, c));
                            },
                        }
                    },
                }
            },
        }
    }
}

/// A subtree query below a prefix of everything returns everything.
proof fn lemma_subtree_all(s: Seq<(Seq<StepView>, LeafView)>, p: Seq<StepView>)
    requires
        forall|j: int| 0 <= j < s.len() ==> is_prefix(p, (#[trigger] s[j]).0),
    ensures
        subtree_of(s, p) == s,
    decreases s.len(),
{
    if s.len() > 0 {
        assert(forall|j: int| 0 <= j < s.skip(1).len() ==> (#[trigger] s.skip(1)[j]) == s[j + 1]);
        lemma_subtree_all(s.skip(1), p);
        assert(is_prefix(p, s[0].0));
        assert(seq![s[0]] + s.skip(1) =~= s);
    }
}

/// Two distinct leaf paths of one flattened document are compatible.
proof fn lemma_full_paths_compat(
    base: Seq<StepView>,
    d: JsonView,
    p: Seq<StepView>,
    q: Seq<StepView>,
)
    requires
        leaf_at(base, d, p) is Some,
        leaf_at(base, d, q) is Some,
        p != q,
    ensures
        compat(p, q),
{
    let b = base.len() as int;
    let r1 = p.skip(b);
    let r2 = q.skip(b);
    assert(is_prefix(base, p) && is_prefix(base, q));
    assert(forall|x: int| b <= x < p.len() ==> (#[trigger] p[x]) == r1[x - b]);
    assert(forall|x: int| b <= x < q.len() ==> (#[trigger] q[x]) == r2[x - b]);
    assert(r1 != r2) by {
        if r1 == r2 {
            assert(p.len() == q.len());
            assert forall|x: int| 0 <= x < p.len() implies p[x] == q[x] by {
                if x < b {
                    assert(p[x] == base[x] && q[x] == base[x]);
                } else {
                    assert(p[x] == r1[x - b] && q[x] == r2[x - b]);
                }
            }
            assert(p =~= q);
        }
    }
    lemma_doc_compat(d, r1, r2);
    if r1 == r2 {
    } else {
        let j = choose|j: int|
            0 <= j < r1.len() && j < r2.len() && (forall|x: int| 0 <= x < j ==> r1[x] == r2[x]) && (
            #[trigger] r1[j]) != r2[j] && same_kind(r1[j], r2[j]);
        assert(p[b + j] == r1[j] && q[b + j] == r2[j]);
        assert forall|x: int| 0 <= x < b + j implies p[x] == q[x] by {
            if x < b {
                assert(p[x] == base[x] && q[x] == base[x]);
            } else {
                assert(p[x] == r1[x - b] && q[x] == r2[x - b]);
            }
        }
        assert(0 <= b + j < p.len() && b + j < q.len() && (forall|x: int|
            0 <= x < b + j ==> p[x] == q[x]) && (p[b + j]) != q[b + j] && same_kind(
            p[b + j],
            q[b + j],
        ));
        assert(compat(p, q));
    }
}

/// The round trip: a document flattened below a base path into an empty
/// store folds back, entry by entry in ascending path order, into one
/// well-formed collector that reads as the document wrapped in its base path
/// chain — arrays in index order, objects as their mappings.  Documents
/// holding an empty array or object are left out: flattening stores no entry
/// for a childless container, so nothing of it can be read back.
pub proof fn lemma_round_trip(s: LeafPaths, base: Seq<StepView>, d: JsonView)
    requires
        s.wf(),
        base.len() >= 1,
        json_wf(d),
        no_empty_containers(d),
        s.as_map() == flatten_into(Map::empty(), base, d),
    ensures
        fold_inserts(CollectorView::Empty, subtree_of(s.entries(), base)) is Some,
        coll_wf(fold_inserts(CollectorView::Empty, subtree_of(s.entries(), base))->Some_0),
        matches_collector(
            wrapped_json(base, d),
            fold_inserts(CollectorView::Empty, subtree_of(s.entries(), base))->Some_0,
        ),
{
    let entries = s.entries();
    lemma_sorted_distinct(entries);
    lemma_map_of_entries(entries);
    // each stored path names a leaf of the flattened document
    assert forall|j: int| 0 <= j < entries.len() implies leaf_at(
        base,
        d,
        (#[trigger] entries[j]).0,
    ) is Some && is_prefix(base, entries[j].0) by {
        assert(s.as_map().contains_key(entries[j].0));
        lemma_flatten_char(Map::empty(), base, d, entries[j].0);
    }
    lemma_subtree_all(entries, base);
    assert(forall|j: int| 0 <= j < entries.len() ==> (#[trigger] entries[j]).0.len() >= 1);
    assert forall|j: int, x: int|
        0 <= j < entries.len() && 0 <= x < entries.len() && j != x implies compat(
        (#[trigger] entries[j]).0,
        (#[trigger] entries[x]).0,
    ) by {
        assert(entries[j].0 != entries[x].0) by {
            if j < x {
                assert(distinct_keys(entries));
            } else {
                assert(distinct_keys(entries));
            }
        }
        lemma_full_paths_compat(base, d, entries[j].0, entries[x].0);
    }
    let empty_map = Map::<Seq<StepView>, LeafView>::empty();
    assert(represents(CollectorView::Empty, empty_map));
    lemma_fold_represents(CollectorView::Empty, empty_map, entries);
    lemma_insert_entries_props(empty_map, entries);
    assert(insert_entries(empty_map, entries) =~= s.as_map()) by {
        assert forall|p: Seq<StepView>| #[trigger]
            insert_entries(empty_map, entries).contains_key(p) == s.as_map().contains_key(p) by {
            if insert_entries(empty_map, entries).contains_key(p) {
                let i = choose|i: int| 0 <= i < entries.len() && (#[trigger] entries[i]).0 == p;
                assert(s.as_map().contains_key(entries[i].0));
            }
            if s.as_map().contains_key(p) {
                let i = choose|i: int| 0 <= i < entries.len() && (#[trigger] entries[i]).0 == p;
                assert(insert_entries(empty_map, entries).contains_key(entries[i].0));
            }
        }
        assert forall|p: Seq<StepView>| #[trigger]
            insert_entries(empty_map, entries).contains_key(p) implies insert_entries(
            empty_map,
            entries,
        )[p] == s.as_map()[p] by {
            let i = choose|i: int| 0 <= i < entries.len() && (#[trigger] entries[i]).0 == p;
            assert(insert_entries(empty_map, entries)[entries[i].0] == entries[i].1);
            assert(s.as_map()[entries[i].0] == entries[i].1);
        }
    }
    let folded = fold_inserts(CollectorView::Empty, entries)->Some_0;
    assert(represents(folded, s.as_map()));
    assert(represents(folded, flat0(base, d)));
    assert forall|j: int| 0 <= j < entries.len() implies steps_in_range(
        (#[trigger] entries[j]).0,
    ) by {
        assert(entries[j] == (s.0@[j as int].0@, s.0@[j as int].1@));
        assert(s.0@[j as int].0@ == steps_view(s.0@[j as int].0.0@));
        lemma_steps_view_in_range(s.0@[j as int].0.0@);
    }
    assert(coll_wf(CollectorView::Empty));
    lemma_fold_inserts_wf(CollectorView::Empty, entries);
    lemma_represents_matches(folded, base, d);
}

} // verus!
