//! Laws of the store, stated over the same spec functions that the
//! operations' contracts use.

use vstd::prelude::*;

use crate::json::JsonView;
use crate::leaf::LeafView;
use crate::leaf::leaf_text;
use crate::path::StepView;
use crate::path::is_prefix;
use crate::path::parse_path;
use crate::path::path_lt;
use crate::store::LeafPaths;
use crate::store::lemma_map_of_entries;
use crate::store::lemma_sorted_distinct;
use crate::tree::flatten_arr;
use crate::tree::flatten_into;
use crate::tree::flatten_obj;

verus! {

/// After `add(p, v)` the store holds the string leaf `v` at the path `p`
/// names, and `get(p)` hands back exactly `v`: a string leaf displays as its
/// own text.
pub proof fn lemma_add_then_get(m: Map<Seq<StepView>, LeafView>, p: Seq<char>, v: Seq<char>)
    ensures
        m.insert(parse_path(p), LeafView::Str(v)).contains_key(parse_path(p)),
        leaf_text(m.insert(parse_path(p), LeafView::Str(v))[parse_path(p)]) == v,
{
}

/// After `delete(p)` nothing is stored at the path `p` names, whether or not
/// anything was stored there before.
pub proof fn lemma_delete_then_get(m: Map<Seq<StepView>, LeafView>, p: Seq<char>)
    ensures
        !m.remove(parse_path(p)).contains_key(parse_path(p)),
{
}

/// The entries a well-formed store enumerates — what `listpaths` displays —
/// are exactly the paths holding live values: each stored path appears, each
/// exactly once, in strictly ascending path order, and nothing else appears.
pub proof fn lemma_listpaths_exact(s: LeafPaths)
    requires
        s.wf(),
    ensures
        forall|i: int, j: int|
            0 <= i < j < s.entries().len() ==> path_lt(
                (#[trigger] s.entries()[i]).0,
                (#[trigger] s.entries()[j]).0,
            ),
        forall|i: int, j: int|
            0 <= i < j < s.entries().len() ==> (#[trigger] s.entries()[i]).0 != (
            #[trigger] s.entries()[j]).0,
        forall|i: int|
            0 <= i < s.entries().len() ==> s.as_map().contains_key((#[trigger] s.entries()[i]).0)
                && s.as_map()[s.entries()[i].0] == s.entries()[i].1,
        forall|p: Seq<StepView>|
            #[trigger] s.as_map().contains_key(p) ==> exists|i: int|
                0 <= i < s.entries().len() && (#[trigger] s.entries()[i]).0 == p,
{
    lemma_sorted_distinct(s.entries());
    lemma_map_of_entries(s.entries());
}

/// One path is a prefix of anything its own extensions prefix.
pub proof fn lemma_prefix_trans(a: Seq<StepView>, b: Seq<StepView>, c: Seq<StepView>)
    requires
        is_prefix(a, b),
        is_prefix(b, c),
    ensures
        is_prefix(a, c),
{
}

/// Flattening a document below a base path touches no path that does not
/// carry the base as a prefix: outside the base's subtree the mapping is left
/// exactly as it was.
pub proof fn lemma_flatten_outside(
    m: Map<Seq<StepView>, LeafView>,
    base: Seq<StepView>,
    v: JsonView,
    p: Seq<StepView>,
)
    requires
        !is_prefix(base, p),
    ensures
        flatten_into(m, base, v).contains_key(p) == m.contains_key(p),
        m.contains_key(p) ==> flatten_into(m, base, v)[p] == m[p],
    decreases v, 0int,
{
    match v {
        JsonView::Arr(s) => {
            lemma_flatten_arr_outside(m, base, s, 0, p);
        },
        JsonView::Obj(s) => {
            lemma_flatten_obj_outside(m, base, s, 0, p);
        },
        _ => {
            assert(p != base) by {
                if p == base {
                    assert(is_prefix(base, p));
                }
            }
        },
    }
}

proof fn lemma_flatten_arr_outside(
    m: Map<Seq<StepView>, LeafView>,
    base: Seq<StepView>,
    s: Seq<JsonView>,
    i: int,
    p: Seq<StepView>,
)
    requires
        !is_prefix(base, p),
    ensures
        flatten_arr(m, base, s, i).contains_key(p) == m.contains_key(p),
        m.contains_key(p) ==> flatten_arr(m, base, s, i)[p] == m[p],
    decreases s, s.len() - i,
{
    if 0 <= i < s.len() {
        let child = base.push(StepView::Index(i));
        assert(!is_prefix(child, p)) by {
            if is_prefix(child, p) {
                assert(is_prefix(base, child)) by {
                    assert(forall|j: int| 0 <= j < base.len() ==> child[j] == base[j]);
                }
                lemma_prefix_trans(base, child, p);
            }
        }
        lemma_flatten_outside(m, child, s[i], p);
        lemma_flatten_arr_outside(flatten_into(m, child, s[i]), base, s, i + 1, p);
    }
}

proof fn lemma_flatten_obj_outside(
    m: Map<Seq<StepView>, LeafView>,
    base: Seq<StepView>,
    s: Seq<(Seq<char>, JsonView)>,
    i: int,
    p: Seq<StepView>,
)
    requires
        !is_prefix(base, p),
    ensures
        flatten_obj(m, base, s, i).contains_key(p) == m.contains_key(p),
        m.contains_key(p) ==> flatten_obj(m, base, s, i)[p] == m[p],
    decreases s, s.len() - i,
{
    if 0 <= i < s.len() {
        let child = base.push(StepView::Key(s[i].0));
        assert(!is_prefix(child, p)) by {
            if is_prefix(child, p) {
                assert(is_prefix(base, child)) by {
                    assert(forall|j: int| 0 <= j < base.len() ==> child[j] == base[j]);
                }
                lemma_prefix_trans(base, child, p);
            }
        }
        lemma_flatten_outside(m, child, s[i].1, p);
        lemma_flatten_obj_outside(flatten_into(m, child, s[i].1), base, s, i + 1, p);
    }
}

/// Subtree isolation: a document flattened below one base path leaves every
/// path below an unrelated query path exactly as it was, so a subtree query
/// under one root never sees what was added under another.
pub proof fn lemma_subtree_isolation(
    m: Map<Seq<StepView>, LeafView>,
    base: Seq<StepView>,
    v: JsonView,
    q: Seq<StepView>,
    k: Seq<StepView>,
)
    requires
        !is_prefix(q, base),
        !is_prefix(base, q),
        is_prefix(q, k),
    ensures
        flatten_into(m, base, v).contains_key(k) == m.contains_key(k),
        m.contains_key(k) ==> flatten_into(m, base, v)[k] == m[k],
{
    assert(!is_prefix(base, k)) by {
        if is_prefix(base, k) {
            if base.len() <= q.len() {
                assert(is_prefix(base, q)) by {
                    assert(forall|j: int| 0 <= j < base.len() ==> q[j] == k[j] && k[j] == base[j]);
                }
            } else {
                assert(is_prefix(q, base)) by {
                    assert(forall|j: int| 0 <= j < q.len() ==> base[j] == k[j] && k[j] == q[j]);
                }
            }
        }
    }
    lemma_flatten_outside(m, base, v, k);
}

} // verus!
