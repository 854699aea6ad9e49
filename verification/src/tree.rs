//! The tree reconstructor.  A sorted stream of (path, leaf) pairs folds into
//! one `Collector`: an intermediate tree value that can still be of unknown
//! shape (`Empty`), an object, or a sparse array keyed directly by index.

use vstd::prelude::*;

use crate::json::DingString;
use crate::json::JsonValue;
use crate::json::JsonView;
use crate::json::error_text;
use crate::json::json_model;
use crate::json::models_of;
use crate::json::num_canon;
use crate::json::obj_map;
use crate::json::pair_models_of;
use crate::json::value_array;
use crate::json::value_bool;
use crate::json::value_null;
use crate::json::value_number;
use crate::json::value_object;
use crate::json::value_string;
use crate::json::json_doc;
use crate::json::json_err_text;
use crate::json::json_value_of;
use crate::json::json_view;
use crate::json::json_wf;
use crate::json::parse_json_text;
use crate::leaf::Leaf;
use crate::leaf::LeafView;
use crate::path::SchemaPath;
use crate::path::is_prefix;
use crate::path::Step;
use crate::path::StepView;
use crate::path::parse_path;
use crate::path::path_text;
use crate::path::steps_to_string;
use crate::path::split_slash_path;
use crate::path::steps_view;
use crate::store::LeafPaths;
use crate::store::pairs_view;
use crate::store::subtree_of;

verus! {

broadcast use vstd::seq::axiom_seq_index_decreases, vstd::std_specs::vec::group_vec_axioms;

/// The intermediate value a subtree is rebuilt into.  A sparse array is kept
/// as (index, value) pairs in ascending index order, because reconstructed
/// indices may have gaps.
#[derive(Debug, PartialEq, Eq)]
pub enum Collector {
    Empty,
    Null,
    Bool(bool),
    Number(String),
    String(String),
    Sparse(Vec<(usize, Collector)>),
    Object(Vec<(String, Collector)>),
}

/// The mathematical value of a `Collector`.
pub enum CollectorView {
    Empty,
    Null,
    Bool(bool),
    Num(Seq<char>),
    Str(Seq<char>),
    Sparse(Seq<(int, CollectorView)>),
    Obj(Seq<(Seq<char>, CollectorView)>),
}

/// The views of a sparse array's entries.
pub open spec fn sparse_fields_view(s: Seq<(usize, Collector)>) -> Seq<(int, CollectorView)>
    decreases s,
{
    Seq::new(
        s.len(),
        |i: int|
            if 0 <= i < s.len() {
                (s[i].0 as int, coll_view(s[i].1))
            } else {
                (0, CollectorView::Empty)
            },
    )
}

/// The views of an object's members.
pub open spec fn obj_fields_view(s: Seq<(String, Collector)>) -> Seq<(Seq<char>, CollectorView)>
    decreases s,
{
    Seq::new(
        s.len(),
        |i: int|
            if 0 <= i < s.len() {
                (s[i].0@, coll_view(s[i].1))
            } else {
                (Seq::empty(), CollectorView::Empty)
            },
    )
}

/// The view of a collector.
pub open spec fn coll_view(c: Collector) -> CollectorView
    decreases c,
{
    match c {
        Collector::Empty => CollectorView::Empty,
        Collector::Null => CollectorView::Null,
        Collector::Bool(b) => CollectorView::Bool(b),
        Collector::Number(s) => CollectorView::Num(s@),
        Collector::String(s) => CollectorView::Str(s@),
        Collector::Sparse(v) => CollectorView::Sparse(sparse_fields_view(v@)),
        Collector::Object(v) => CollectorView::Obj(obj_fields_view(v@)),
    }
}

impl View for Collector {
    type V = CollectorView;

    open spec fn view(&self) -> CollectorView {
        coll_view(*self)
    }
}

/// A collector is well formed: sparse indices ascend strictly and fit the
/// machine, object keys are distinct.
pub open spec fn coll_wf(c: CollectorView) -> bool
    decreases c,
{
    match c {
        CollectorView::Sparse(s) => (forall|i: int, j: int|
            0 <= i < j < s.len() ==> (#[trigger] s[i]).0 < (#[trigger] s[j]).0) && (forall|i: int|
            0 <= i < s.len() ==> 0 <= (#[trigger] s[i]).0 <= usize::MAX as int) && (forall|i: int|
            0 <= i < s.len() ==> coll_wf(#[trigger] s[i].1)),
        CollectorView::Obj(s) => (forall|i: int, j: int|
            0 <= i < j < s.len() ==> (#[trigger] s[i]).0 != (#[trigger] s[j]).0) && (forall|i: int|
            0 <= i < s.len() ==> coll_wf(#[trigger] s[i].1)),
        _ => true,
    }
}

/// The collector a single leaf becomes.
pub open spec fn leaf_collector(l: LeafView) -> CollectorView {
    match l {
        LeafView::Str(s) => CollectorView::Str(s),
        LeafView::Num(s) => CollectorView::Num(s),
        LeafView::Bool(b) => CollectorView::Bool(b),
        LeafView::Null => CollectorView::Null,
    }
}

impl Collector {
    /// The collector a single leaf becomes.
    pub fn from_leaf(l: &Leaf) -> (r: Collector)
        ensures
            r@ == leaf_collector(l@),
    {
        match l {
            Leaf::String(s) => Collector::String(s.clone()),
            Leaf::Number(s) => Collector::Number(s.clone()),
            Leaf::Boolean(b) => Collector::Bool(*b),
            Leaf::Null => Collector::Null,
        }
    }
}

// ---------------------------------------------------------------------------
// The insertion semantics: what one (path, leaf) pair does to a collector.
// ---------------------------------------------------------------------------

/// The position of a key among an association sequence's pairs, or -1.
pub open spec fn find_key<V>(s: Seq<(Seq<char>, V)>, k: Seq<char>) -> int
    decreases s.len(),
{
    if s.len() == 0 {
        -1
    } else if s[0].0 == k {
        0
    } else {
        let r = find_key(s.skip(1), k);
        if r < 0 {
            -1
        } else {
            r + 1
        }
    }
}

pub proof fn lemma_find_key<V>(s: Seq<(Seq<char>, V)>, k: Seq<char>)
    ensures
        find_key(s, k) >= 0 ==> 0 <= find_key(s, k) < s.len() && s[find_key(s, k)].0 == k
            && forall|j: int| 0 <= j < find_key(s, k) ==> (#[trigger] s[j]).0 != k,
        find_key(s, k) < 0 ==> forall|j: int| 0 <= j < s.len() ==> (#[trigger] s[j]).0 != k,
    decreases s.len(),
{
    if s.len() > 0 && s[0].0 != k {
        lemma_find_key(s.skip(1), k);
        assert(forall|j: int| 1 <= j < s.len() ==> (#[trigger] s[j]) == s.skip(1)[j - 1]);
    }
}

/// The position an index keeps or takes among sparse entries: the first spot
/// holding an index at or above it.
pub open spec fn find_pos<V>(s: Seq<(int, V)>, n: int) -> int
    decreases s.len(),
{
    if s.len() == 0 {
        0
    } else if s[0].0 >= n {
        0
    } else {
        1 + find_pos(s.skip(1), n)
    }
}

pub proof fn lemma_find_pos<V>(s: Seq<(int, V)>, n: int)
    ensures
        0 <= find_pos(s, n) <= s.len(),
        forall|j: int| 0 <= j < find_pos(s, n) ==> (#[trigger] s[j]).0 < n,
        find_pos(s, n) < s.len() ==> s[find_pos(s, n)].0 >= n,
    decreases s.len(),
{
    if s.len() > 0 && s[0].0 < n {
        lemma_find_pos(s.skip(1), n);
        assert(forall|j: int| 1 <= j < s.len() ==> (#[trigger] s[j]) == s.skip(1)[j - 1]);
    }
}

/// Sets a key to a value among object members: replaces in place, or appends.
pub open spec fn assoc_set(
    s: Seq<(Seq<char>, CollectorView)>,
    k: Seq<char>,
    v: CollectorView,
) -> Seq<(Seq<char>, CollectorView)> {
    let idx = find_key(s, k);
    if idx >= 0 {
        s.update(idx, (k, v))
    } else {
        s.push((k, v))
    }
}

/// Sets an index to a value among sparse entries: replaces in place, or
/// inserts at its ordered position.
pub open spec fn sparse_set(s: Seq<(int, CollectorView)>, n: int, v: CollectorView) -> Seq<
    (int, CollectorView),
> {
    let pos = find_pos(s, n);
    if pos < s.len() && s[pos].0 == n {
        s.update(pos, (n, v))
    } else {
        s.insert(pos, (n, v))
    }
}

/// What inserting a leaf at the path steps from position `i` on does to a
/// collector: the updated collector, or nothing on a shape conflict (a key
/// step arriving at an array, an index step at an object, or a path running
/// through a scalar).
pub open spec fn insert_at(
    c: CollectorView,
    path: Seq<StepView>,
    i: int,
    leaf: LeafView,
) -> Option<CollectorView>
    decreases path.len() - i,
{
    if i < 0 || i >= path.len() {
        None
    } else {
        match path[i] {
            StepView::Key(k) => {
                let fields: Option<Seq<(Seq<char>, CollectorView)>> = match c {
                    CollectorView::Obj(fs) => Some(fs),
                    CollectorView::Empty => Some(Seq::empty()),
                    _ => None,
                };
                match fields {
                    None => None,
                    Some(fs) => {
                        if i == path.len() - 1 {
                            Some(CollectorView::Obj(assoc_set(fs, k, leaf_collector(leaf))))
                        } else {
                            let idx = find_key(fs, k);
                            let child = if idx >= 0 {
                                fs[idx].1
                            } else {
                                CollectorView::Empty
                            };
                            match insert_at(child, path, i + 1, leaf) {
                                None => None,
                                Some(nc) => Some(CollectorView::Obj(assoc_set(fs, k, nc))),
                            }
                        }
                    },
                }
            },
            StepView::Index(n) => {
                let fields: Option<Seq<(int, CollectorView)>> = match c {
                    CollectorView::Sparse(fs) => Some(fs),
                    CollectorView::Empty => Some(Seq::empty()),
                    _ => None,
                };
                match fields {
                    None => None,
                    Some(fs) => {
                        if i == path.len() - 1 {
                            Some(CollectorView::Sparse(sparse_set(fs, n, leaf_collector(leaf))))
                        } else {
                            let pos = find_pos(fs, n);
                            let child = if pos < fs.len() && fs[pos].0 == n {
                                fs[pos].1
                            } else {
                                CollectorView::Empty
                            };
                            match insert_at(child, path, i + 1, leaf) {
                                None => None,
                                Some(nc) => Some(CollectorView::Sparse(sparse_set(fs, n, nc))),
                            }
                        }
                    },
                }
            },
        }
    }
}

/// The text of a shape-conflict diagnostic: it names the offending path.
pub open spec fn conflict_text(p: Seq<StepView>) -> Seq<char> {
    "path shape conflicts with the collected tree: "@ + path_text(p)
}

/// The diagnostic for a shape conflict, naming the offending path.
fn conflict_error(path: &Vec<Step>) -> (r: DingString)
    ensures
        r.0@ == conflict_text(steps_view(path@)),
{
    let mut out = String::from_str("path shape conflicts with the collected tree: ");
    let t = steps_to_string(path);
    out.append(t.as_str());
    DingString(out)
}

/// Inserts a leaf below a collector taken by value, following the path steps
/// from position `i` on.
fn insert_into(c: Collector, path: &Vec<Step>, i: usize, value: &Leaf) -> (r: Result<
    Collector,
    DingString,
>)
    requires
        i <= path.len(),
    ensures
        insert_at(c@, steps_view(path@), i as int, value@) matches Some(nc) ==> r is Ok
            && r->Ok_0@ == nc,
        insert_at(c@, steps_view(path@), i as int, value@) is None ==> (r matches Err(e) && e.0@
            == conflict_text(steps_view(path@))),
    decreases path.len() - i,
{
    let ghost pv = steps_view(path@);
    let ghost cv = c@;
    if i >= path.len() {
        return Err(conflict_error(path));
    }
    proof {
        assert(pv[i as int] == path@[i as int]@);
    }
    let last = i == path.len() - 1;
    match &path[i] {
        Step::Key(k) => {
            let mut fields: Vec<(String, Collector)> = match c {
                Collector::Object(fs) => fs,
                Collector::Empty => Vec::new(),
                _ => {
                    return Err(conflict_error(path));
                },
            };
            let ghost fsv = obj_fields_view(fields@);
            proof {
                if cv is Empty {
                    assert(fsv =~= Seq::<(Seq<char>, CollectorView)>::empty());
                }
                lemma_find_key(fsv, k@);
            }
            // find the member with this key, if any
            let mut idx: usize = 0;
            let mut found: bool = false;
            while idx < fields.len() && !found
                invariant
                    idx <= fields.len(),
                    fsv == obj_fields_view(fields@),
                    fsv.len() == fields.len(),
                    found ==> idx < fields.len() && fsv[idx as int].0 == k@,
                    forall|j: int| 0 <= j < idx ==> (#[trigger] fsv[j]).0 != k@,
                decreases fields.len() - idx + if found {
                    0int
                } else {
                    1int
                },
            {
                if fields[idx].0 == *k {
                    found = true;
                } else {
                    idx += 1;
                }
            }
            proof {
                if found {
                    assert(find_key(fsv, k@) == idx as int) by {
                        if find_key(fsv, k@) < 0 {
                            assert(fsv[idx as int].0 != k@);
                        } else if find_key(fsv, k@) < idx as int {
                            assert(false);
                        } else if find_key(fsv, k@) > idx as int {
                            assert(fsv[idx as int].0 != k@);
                        }
                    }
                } else {
                    assert(find_key(fsv, k@) < 0) by {
                        if find_key(fsv, k@) >= 0 {
                            assert(fsv[find_key(fsv, k@)].0 == k@);
                        }
                    }
                }
            }
            if last {
                let nc = Collector::from_leaf(value);
                if found {
                    fields.remove(idx);
                    fields.insert(idx, (k.clone(), nc));
                    proof {
                        assert(obj_fields_view(fields@) =~= assoc_set(
                            fsv,
                            k@,
                            leaf_collector(value@),
                        ));
                    }
                } else {
                    fields.push((k.clone(), nc));
                    proof {
                        assert(obj_fields_view(fields@) =~= assoc_set(
                            fsv,
                            k@,
                            leaf_collector(value@),
                        ));
                    }
                }
                Ok(Collector::Object(fields))
            } else {
                let child: Collector = if found {
                    let pair = fields.remove(idx);
                    pair.1
                } else {
                    Collector::Empty
                };
                match insert_into(child, path, i + 1, value) {
                    Err(e) => Err(e),
                    Ok(nc) => {
                        if found {
                            fields.insert(idx, (k.clone(), nc));
                            proof {
                                assert(obj_fields_view(fields@) =~= assoc_set(fsv, k@, nc@));
                            }
                        } else {
                            fields.push((k.clone(), nc));
                            proof {
                                assert(obj_fields_view(fields@) =~= assoc_set(fsv, k@, nc@));
                            }
                        }
                        Ok(Collector::Object(fields))
                    },
                }
            }
        },
        Step::Index(n) => {
            let mut fields: Vec<(usize, Collector)> = match c {
                Collector::Sparse(fs) => fs,
                Collector::Empty => Vec::new(),
                _ => {
                    return Err(conflict_error(path));
                },
            };
            let ghost fsv = sparse_fields_view(fields@);
            proof {
                if cv is Empty {
                    assert(fsv =~= Seq::<(int, CollectorView)>::empty());
                }
                lemma_find_pos(fsv, *n as int);
            }
            // find the ordered position of this index
            let mut pos: usize = 0;
            let mut here: bool = false;
            while pos < fields.len() && !here
                invariant
                    pos <= fields.len(),
                    fsv == sparse_fields_view(fields@),
                    fsv.len() == fields.len(),
                    here ==> pos < fields.len() && fsv[pos as int].0 >= *n as int,
                    forall|j: int| 0 <= j < pos ==> (#[trigger] fsv[j]).0 < *n as int,
                decreases fields.len() - pos + if here {
                    0int
                } else {
                    1int
                },
            {
                if fields[pos].0 >= *n {
                    here = true;
                } else {
                    pos += 1;
                }
            }
            proof {
                assert(find_pos(fsv, *n as int) == pos as int) by {
                    let fp = find_pos(fsv, *n as int);
                    if fp < pos as int {
                        assert(fsv[fp].0 < *n as int);
                        assert(fsv[fp].0 >= *n as int);
                    } else if fp > pos as int {
                        assert(fsv[pos as int].0 < *n as int);
                        if here {
                            assert(fsv[pos as int].0 >= *n as int);
                        } else {
                            assert(pos == fields.len());
                        }
                    }
                }
            }
            let matched = here && fields[pos].0 == *n;
            if last {
                let nc = Collector::from_leaf(value);
                if matched {
                    fields.remove(pos);
                    fields.insert(pos, (*n, nc));
                    proof {
                        assert(sparse_fields_view(fields@) =~= sparse_set(
                            fsv,
                            *n as int,
                            leaf_collector(value@),
                        ));
                    }
                } else {
                    fields.insert(pos, (*n, nc));
                    proof {
                        assert(sparse_fields_view(fields@) =~= sparse_set(
                            fsv,
                            *n as int,
                            leaf_collector(value@),
                        ));
                    }
                }
                Ok(Collector::Sparse(fields))
            } else {
                let child: Collector = if matched {
                    let pair = fields.remove(pos);
                    pair.1
                } else {
                    Collector::Empty
                };
                match insert_into(child, path, i + 1, value) {
                    Err(e) => Err(e),
                    Ok(nc) => {
                        fields.insert(pos, (*n, nc));
                        proof {
                            assert(sparse_fields_view(fields@) =~= sparse_set(fsv, *n as int, nc@));
                        }
                        Ok(Collector::Sparse(fields))
                    },
                }
            }
        },
    }
}

// ---------------------------------------------------------------------------
// Folding a stream of entries into one collector.
// ---------------------------------------------------------------------------

/// What folding a sequence of (path, leaf) entries into a collector yields:
/// the collector after all insertions, or nothing on the first shape
/// conflict.
pub open spec fn fold_inserts(
    c: CollectorView,
    entries: Seq<(Seq<StepView>, LeafView)>,
) -> Option<CollectorView>
    decreases entries.len(),
{
    if entries.len() == 0 {
        Some(c)
    } else {
        match insert_at(c, entries[0].0, 0, entries[0].1) {
            None => None,
            Some(nc) => fold_inserts(nc, entries.skip(1)),
        }
    }
}

/// A subtree query returns a selection of the entries, so ranges carry over.
proof fn lemma_subtree_range(s: Seq<(Seq<StepView>, LeafView)>, p: Seq<StepView>)
    requires
        forall|j: int| 0 <= j < s.len() ==> steps_in_range((#[trigger] s[j]).0),
    ensures
        forall|j: int|
            0 <= j < subtree_of(s, p).len() ==> steps_in_range((#[trigger] subtree_of(s, p)[j]).0),
    decreases s.len(),
{
    if s.len() > 0 {
        assert(forall|j: int| 0 <= j < s.skip(1).len() ==> (#[trigger] s.skip(1)[j]) == s[j + 1]);
        lemma_subtree_range(s.skip(1), p);
        if is_prefix(p, s[0].0) {
            let sub = subtree_of(s, p);
            assert(sub == seq![s[0]] + subtree_of(s.skip(1), p));
            assert(forall|j: int|
                1 <= j < sub.len() ==> (#[trigger] sub[j]) == subtree_of(s.skip(1), p)[j - 1]);
            assert(sub[0] == s[0]);
        }
    }
}

impl LeafPaths {
    /// Inserts one leaf into a collector under construction, walking the path
    /// steps and creating intermediate nodes as they become known.  A shape
    /// conflict is reported, never papered over.
    pub fn traverse_tree(path: &Vec<Step>, value: &Leaf, rcp: &mut Collector) -> (r: Result<
        (),
        DingString,
    >)
        ensures
            insert_at(old(rcp)@, steps_view(path@), 0, value@) matches Some(nc) ==> r is Ok
                && final(rcp)@ == nc,
            insert_at(old(rcp)@, steps_view(path@), 0, value@) is None ==> (r matches Err(e)
                && e.0@ == conflict_text(steps_view(path@))),
    {
        let mut cur = Collector::Empty;
        core::mem::swap(rcp, &mut cur);
        match insert_into(cur, path, 0, value) {
            Ok(nc) => {
                *rcp = nc;
                Ok(())
            },
            Err(e) => Err(e),
        }
    }

    /// Rebuilds the whole subtree below a path text: the entries under that
    /// path fold, in ascending path order, into one collector starting from
    /// `Empty`.  A path with nothing below it yields `Empty`; stored entries
    /// implying conflicting shapes at one spot yield the conflict error.
    #[verifier::loop_isolation(false)]
    pub fn gettree(&self, path: String) -> (r: Result<Collector, DingString>)
        requires
            self.wf(),
        ensures
            fold_inserts(CollectorView::Empty, subtree_of(self.entries(), parse_path(path@)))
                matches Some(cv) ==> r is Ok && r->Ok_0@ == cv,
            fold_inserts(CollectorView::Empty, subtree_of(self.entries(), parse_path(path@)))
                is None ==> (r matches Err(e) && exists|j: int|
                0 <= j < subtree_of(self.entries(), parse_path(path@)).len() && e.0@
                    == conflict_text(
                    (#[trigger] subtree_of(self.entries(), parse_path(path@))[j]).0,
                )),
            r matches Ok(c) ==> coll_wf(c@),
    {
        let sp = SchemaPath(split_slash_path(path.as_str()));
        let subtree = self.subtree_paths(sp);
        let ghost sub = subtree_of(self.entries(), parse_path(path@));
        let mut obj = Collector::Empty;
        let mut i: usize = 0;
        proof {
            assert(sub.skip(0) =~= sub);
        }
        while i < subtree.len()
            invariant
                i <= subtree.len(),
                pairs_view(subtree@) == sub,
                sub.len() == subtree.len(),
                fold_inserts(CollectorView::Empty, sub) == fold_inserts(obj@, sub.skip(i as int)),
            decreases subtree.len() - i,
        {
            let ghost obj0 = obj@;
            proof {
                assert(sub[i as int] == (subtree@[i as int].0@, subtree@[i as int].1@));
                assert(sub.skip(i as int)[0] == sub[i as int]);
                assert(sub.skip(i as int).skip(1) =~= sub.skip(i as int + 1));
                assert(steps_view(subtree@[i as int].0.0@) == sub[i as int].0);
            }
            match Self::traverse_tree(&subtree[i].0.0, &subtree[i].1, &mut obj) {
                Ok(_) => {},
                Err(e) => {
                    proof {
                        assert(insert_at(obj0, sub[i as int].0, 0, sub[i as int].1) is None);
                        assert(fold_inserts(obj0, sub.skip(i as int)) is None);
                        assert(e.0@ == conflict_text(sub[i as int].0));
                    }
                    return Err(e);
                },
            }
            i += 1;
        }
        proof {
            assert(sub.skip(sub.len() as int) =~= Seq::<(Seq<StepView>, LeafView)>::empty());
            assert forall|j: int| 0 <= j < self.entries().len() implies steps_in_range(
                (#[trigger] self.entries()[j]).0,
            ) by {
                assert(self.entries()[j] == (self.0@[j].0@, self.0@[j].1@));
                lemma_steps_view_in_range(self.0@[j].0.0@);
            }
            lemma_subtree_range(self.entries(), parse_path(path@));
            assert(coll_wf(CollectorView::Empty));
            lemma_fold_inserts_wf(CollectorView::Empty, sub);
        }
        Ok(obj)
    }
}

// ---------------------------------------------------------------------------
// Flattening: walking a document into (path, leaf) insertions.
// ---------------------------------------------------------------------------

/// What flattening a document under a base path does to a mapping: scalars
/// land at the base path itself, arrays under it extended by each index,
/// objects under it extended by each key.  Non-leaf nodes are never stored.
pub open spec fn flatten_into(
    m: Map<Seq<StepView>, LeafView>,
    base: Seq<StepView>,
    v: JsonView,
) -> Map<Seq<StepView>, LeafView>
    decreases v, 0int,
{
    match v {
        JsonView::Null => m.insert(base, LeafView::Null),
        JsonView::Bool(b) => m.insert(base, LeafView::Bool(b)),
        JsonView::Num(t) => m.insert(base, LeafView::Num(t)),
        JsonView::Str(t) => m.insert(base, LeafView::Str(t)),
        JsonView::Arr(s) => flatten_arr(m, base, s, 0),
        JsonView::Obj(s) => flatten_obj(m, base, s, 0),
    }
}

pub open spec fn flatten_arr(
    m: Map<Seq<StepView>, LeafView>,
    base: Seq<StepView>,
    s: Seq<JsonView>,
    i: int,
) -> Map<Seq<StepView>, LeafView>
    decreases s, s.len() - i,
{
    if i < 0 || i >= s.len() {
        m
    } else {
        flatten_arr(flatten_into(m, base.push(StepView::Index(i)), s[i]), base, s, i + 1)
    }
}

pub open spec fn flatten_obj(
    m: Map<Seq<StepView>, LeafView>,
    base: Seq<StepView>,
    s: Seq<(Seq<char>, JsonView)>,
    i: int,
) -> Map<Seq<StepView>, LeafView>
    decreases s, s.len() - i,
{
    if i < 0 || i >= s.len() {
        m
    } else {
        flatten_obj(flatten_into(m, base.push(StepView::Key(s[i].0)), s[i].1), base, s, i + 1)
    }
}

impl LeafPaths {
    /// Walks a document below a base path, inserting one entry per leaf.
    #[verifier::loop_isolation(false)]
    fn add_at_path(&mut self, base: SchemaPath, v: &JsonValue)
        requires
            old(self).wf(),
        ensures
            final(self).wf(),
            final(self).as_map() == flatten_into(old(self).as_map(), base@, v@),
        decreases *v,
    {
        match v {
            JsonValue::Null => {
                self.insert(base, Leaf::Null);
            },
            JsonValue::Bool(b) => {
                self.insert(base, Leaf::Boolean(*b));
            },
            JsonValue::Number(s) => {
                self.insert(base, Leaf::Number(s.clone()));
            },
            JsonValue::String(s) => {
                self.insert(base, Leaf::String(s.clone()));
            },
            JsonValue::Array(a) => {
                let ghost m0 = self.as_map();
                let ghost sv = v@->Arr_0;
                let mut i: usize = 0;
                while i < a.len()
                    invariant
                        i <= a.len(),
                        self.wf(),
                        sv == json_view(*v)->Arr_0,
                        v@ is Arr,
                        sv.len() == a.len(),
                        flatten_arr(m0, base@, sv, 0) == flatten_arr(
                            self.as_map(),
                            base@,
                            sv,
                            i as int,
                        ),
                    decreases a.len() - i,
                {
                    proof {
                        assert(sv[i as int] == json_view(a@[i as int]));
                        assert(a@[i as int]@ == json_view(a@[i as int]));
                    }
                    let child_path = base.append(Step::Index(i));
                    self.add_at_path(child_path, &a[i]);
                    i += 1;
                }
            },
            JsonValue::Object(o) => {
                let ghost m0 = self.as_map();
                let ghost sv = v@->Obj_0;
                let mut i: usize = 0;
                while i < o.len()
                    invariant
                        i <= o.len(),
                        self.wf(),
                        sv == json_view(*v)->Obj_0,
                        v@ is Obj,
                        sv.len() == o.len(),
                        flatten_obj(m0, base@, sv, 0) == flatten_obj(
                            self.as_map(),
                            base@,
                            sv,
                            i as int,
                        ),
                    decreases o.len() - i,
                {
                    proof {
                        assert(sv[i as int] == (o@[i as int].0@, json_view(o@[i as int].1)));
                        assert(o@[i as int].1@ == json_view(o@[i as int].1));
                    }
                    let child_path = base.append(Step::Key(o[i].0.clone()));
                    self.add_at_path(child_path, &o[i].1);
                    i += 1;
                }
            },
        }
    }

    /// Reads a JSON document from text and flattens it below a base path
    /// text.  On malformed text the error is handed back and the store is
    /// left exactly as it was: no partial flattening is committed.
    pub fn addtree(&mut self, path: String, json: String) -> (r: Result<(), DingString>)
        requires
            old(self).wf(),
        ensures
            final(self).wf(),
            r is Ok <==> json_doc(json@) is Some,
            r is Ok ==> final(self).as_map() == flatten_into(
                old(self).as_map(),
                parse_path(path@),
                json_doc(json@)->Some_0,
            ),
            r is Ok ==> json_wf(json_doc(json@)->Some_0),
            r matches Err(e) ==> e.0@ == json_err_text(json@),
            r is Err ==> *final(self) == *old(self),
    {
        match parse_json_text(json.as_str()) {
            Err(e) => Err(DingString(error_text(&e))),
            Ok(v) => {
                let doc = json_value_of(&v);
                let sp = SchemaPath(split_slash_path(path.as_str()));
                self.add_at_path(sp, &doc);
                Ok(())
            },
        }
    }
}

// ---------------------------------------------------------------------------
// Well-formedness is kept through insertion.
// ---------------------------------------------------------------------------

/// Index steps of a path fit the machine.
pub open spec fn steps_in_range(path: Seq<StepView>) -> bool {
    forall|j: int|
        0 <= j < path.len() ==> ((#[trigger] path[j]) matches StepView::Index(n) ==> 0 <= n
            <= usize::MAX as int)
}

pub proof fn lemma_steps_view_in_range(s: Seq<Step>)
    ensures
        steps_in_range(steps_view(s)),
{
    assert forall|j: int| 0 <= j < s.len() implies ((#[trigger] steps_view(s)[j])
        matches StepView::Index(n) ==> 0 <= n <= usize::MAX as int) by {
        assert(steps_view(s)[j] == s[j]@);
    }
}

pub proof fn lemma_insert_at_wf(c: CollectorView, path: Seq<StepView>, i: int, leaf: LeafView)
    requires
        coll_wf(c),
        steps_in_range(path),
        insert_at(c, path, i, leaf) is Some,
    ensures
        coll_wf(insert_at(c, path, i, leaf)->Some_0),
    decreases path.len() - i,
{
    match path[i] {
        StepView::Key(k) => {
            let fs: Seq<(Seq<char>, CollectorView)> = match c {
                CollectorView::Obj(fs) => fs,
                _ => Seq::empty(),
            };
            assert(coll_wf(CollectorView::Obj(fs)));
            lemma_find_key(fs, k);
            let idx = find_key(fs, k);
            let nc: CollectorView = if i == path.len() - 1 {
                leaf_collector(leaf)
            } else {
                let child = if idx >= 0 {
                    fs[idx].1
                } else {
                    CollectorView::Empty
                };
                assert(coll_wf(child));
                lemma_insert_at_wf(child, path, i + 1, leaf);
                insert_at(child, path, i + 1, leaf)->Some_0
            };
            assert(coll_wf(nc));
            let out = assoc_set(fs, k, nc);
            assert forall|x: int, y: int| 0 <= x < y < out.len() implies (#[trigger] out[x]).0 != (
            #[trigger] out[y]).0 by {
                if idx >= 0 {
                } else {
                    if y == out.len() - 1 {
                        assert(out[x] == fs[x]);
                        assert(out[y].0 == k);
                    }
                }
            }
            assert(forall|x: int| 0 <= x < out.len() ==> coll_wf((#[trigger] out[x]).1));
            assert(coll_wf(CollectorView::Obj(out)));
        },
        StepView::Index(n) => {
            let fs: Seq<(int, CollectorView)> = match c {
                CollectorView::Sparse(fs) => fs,
                _ => Seq::empty(),
            };
            assert(coll_wf(CollectorView::Sparse(fs)));
            lemma_find_pos(fs, n);
            let pos = find_pos(fs, n);
            let hit = pos < fs.len() && fs[pos].0 == n;
            let nc: CollectorView = if i == path.len() - 1 {
                leaf_collector(leaf)
            } else {
                let child = if hit {
                    fs[pos].1
                } else {
                    CollectorView::Empty
                };
                assert(coll_wf(child));
                lemma_insert_at_wf(child, path, i + 1, leaf);
                insert_at(child, path, i + 1, leaf)->Some_0
            };
            assert(coll_wf(nc));
            let out = sparse_set(fs, n, nc);
            assert(path[i] matches StepView::Index(m) && m == n);
            assert(0 <= n <= usize::MAX as int);
            if hit {
                assert forall|x: int, y: int| 0 <= x < y < out.len() implies (#[trigger] out[x]).0
                    < (#[trigger] out[y]).0 by {}
                assert(forall|x: int|
                    0 <= x < out.len() ==> 0 <= (#[trigger] out[x]).0 <= usize::MAX as int);
                assert(forall|x: int| 0 <= x < out.len() ==> coll_wf((#[trigger] out[x]).1));
            } else {
                assert(out == fs.insert(pos, (n, nc)));
                assert(forall|x: int| 0 <= x < pos ==> (#[trigger] out[x]) == fs[x]);
                assert(out[pos] == (n, nc));
                assert(forall|x: int| pos < x < out.len() ==> (#[trigger] out[x]) == fs[x - 1]);
                assert forall|x: int, y: int| 0 <= x < y < out.len() implies (#[trigger] out[x]).0
                    < (#[trigger] out[y]).0 by {
                    if y == pos {
                        assert(out[x].0 == fs[x].0 && fs[x].0 < n);
                    } else if x == pos {
                        assert(out[y].0 == fs[y - 1].0);
                        assert(fs[y - 1].0 >= n && fs[y - 1].0 != n);
                    } else if x < pos && y > pos {
                        assert(out[x].0 == fs[x].0 && out[y].0 == fs[y - 1].0);
                        if x == y - 1 {
                            assert(fs[x].0 < n);
                            assert(fs[y - 1].0 >= n);
                        }
                    }
                }
                assert(forall|x: int|
                    0 <= x < out.len() ==> 0 <= (#[trigger] out[x]).0 <= usize::MAX as int);
                assert(forall|x: int| 0 <= x < out.len() ==> coll_wf((#[trigger] out[x]).1));
            }
            assert(coll_wf(CollectorView::Sparse(out)));
        },
    }
}

pub proof fn lemma_fold_inserts_wf(c: CollectorView, entries: Seq<(Seq<StepView>, LeafView)>)
    requires
        coll_wf(c),
        forall|j: int| 0 <= j < entries.len() ==> steps_in_range((#[trigger] entries[j]).0),
        fold_inserts(c, entries) is Some,
    ensures
        coll_wf(fold_inserts(c, entries)->Some_0),
    decreases entries.len(),
{
    if entries.len() > 0 {
        lemma_insert_at_wf(c, entries[0].0, 0, entries[0].1);
        let nc = insert_at(c, entries[0].0, 0, entries[0].1)->Some_0;
        assert(forall|j: int|
            0 <= j < entries.skip(1).len() ==> (#[trigger] entries.skip(1)[j]) == entries[j + 1]);
        lemma_fold_inserts_wf(nc, entries.skip(1));
    }
}

// ---------------------------------------------------------------------------
// Conversion to a serde_json value.
// ---------------------------------------------------------------------------

/// All number texts below a collector re-read as JSON numbers.
pub open spec fn coll_nums_ok(c: CollectorView) -> bool
    decreases c,
{
    match c {
        CollectorView::Num(t) => num_canon(t) is Some,
        CollectorView::Sparse(s) => forall|i: int|
            0 <= i < s.len() ==> coll_nums_ok(#[trigger] s[i].1),
        CollectorView::Obj(s) => forall|i: int|
            0 <= i < s.len() ==> coll_nums_ok(#[trigger] s[i].1),
        _ => true,
    }
}

/// How a document relates to the collector it was converted from: `Empty` and
/// `Null` both read as null, a sparse array reads as its values in stored
/// order with the index gaps dropped, an object reads as the mapping its
/// members hold.
pub open spec fn matches_collector(j: JsonView, c: CollectorView) -> bool
    decreases c,
{
    match c {
        CollectorView::Empty => j == JsonView::Null,
        CollectorView::Null => j == JsonView::Null,
        CollectorView::Bool(b) => j == JsonView::Bool(b),
        CollectorView::Num(t) => num_canon(t) is Some && j == JsonView::Num(num_canon(t)->Some_0),
        CollectorView::Str(t) => j == JsonView::Str(t),
        CollectorView::Sparse(s) => j is Arr && j->Arr_0.len() == s.len() && (forall|i: int|
            0 <= i < s.len() ==> matches_collector(j->Arr_0[i], (#[trigger] s[i]).1)),
        CollectorView::Obj(s) => j is Obj && (forall|k: Seq<char>|
            #[trigger] obj_map(j->Obj_0).contains_key(k) ==> exists|i: int|
                0 <= i < s.len() && (#[trigger] s[i]).0 == k) && (forall|i: int|
            0 <= i < s.len() ==> obj_map(j->Obj_0).contains_key((#[trigger] s[i]).0)) && (forall|
            i: int,
        |
            0 <= i < s.len() ==> matches_collector(
                obj_map(j->Obj_0)[(#[trigger] s[i]).0],
                s[i].1,
            )),
    }
}

/// With distinct keys, the mapping of object members holds exactly them.
pub proof fn lemma_obj_map_of(s: Seq<(Seq<char>, JsonView)>)
    requires
        forall|i: int, j: int| 0 <= i < j < s.len() ==> (#[trigger] s[i]).0 != (#[trigger] s[j]).0,
    ensures
        forall|k: Seq<char>|
            #[trigger] obj_map(s).contains_key(k) ==> exists|i: int|
                0 <= i < s.len() && (#[trigger] s[i]).0 == k,
        forall|i: int|
            0 <= i < s.len() ==> obj_map(s).contains_key((#[trigger] s[i]).0) && obj_map(
                s,
            )[s[i].0] == s[i].1,
    decreases s.len(),
{
    if s.len() > 0 {
        let s0 = s.drop_last();
        assert(forall|i: int| 0 <= i < s0.len() ==> (#[trigger] s0[i]) == s[i]);
        lemma_obj_map_of(s0);
        assert forall|k: Seq<char>| #[trigger] obj_map(s).contains_key(k) implies exists|i: int|
            0 <= i < s.len() && (#[trigger] s[i]).0 == k by {
            if k == s.last().0 {
                assert(s[s.len() - 1].0 == k);
            } else {
                assert(obj_map(s0).contains_key(k));
                let i = choose|i: int| 0 <= i < s0.len() && (#[trigger] s0[i]).0 == k;
                assert(s[i].0 == k);
            }
        }
        assert forall|i: int| 0 <= i < s.len() implies obj_map(s).contains_key((#[trigger] s[i]).0)
            && obj_map(s)[s[i].0] == s[i].1 by {
            if i < s.len() - 1 {
                assert(s0[i] == s[i]);
                assert(s[i].0 != s.last().0);
            }
        }
    }
}

/// A well-formed sparse array's entries are well formed.
pub proof fn lemma_sparse_wf_child(s: Seq<(int, CollectorView)>, i: int)
    requires
        coll_wf(CollectorView::Sparse(s)),
        0 <= i < s.len(),
    ensures
        coll_wf(s[i].1),
{
    let c = CollectorView::Sparse(s);
    assert(c->Sparse_0 == s);
    assert(forall|x: int| 0 <= x < s.len() ==> coll_wf(#[trigger] s[x].1));
}

/// A well-formed object's members are well formed.
pub proof fn lemma_obj_wf_child(s: Seq<(Seq<char>, CollectorView)>, i: int)
    requires
        coll_wf(CollectorView::Obj(s)),
        0 <= i < s.len(),
    ensures
        coll_wf(s[i].1),
{
    let c = CollectorView::Obj(s);
    assert(c->Obj_0 == s);
    assert(forall|x: int| 0 <= x < s.len() ==> coll_wf((#[trigger] s[x]).1));
}

proof fn lemma_sparse_nums(s: Seq<(int, CollectorView)>, i: int)
    requires
        0 <= i < s.len(),
        !coll_nums_ok(s[i].1),
    ensures
        !coll_nums_ok(CollectorView::Sparse(s)),
{
    let c = CollectorView::Sparse(s);
    assert(c->Sparse_0 == s);
}

proof fn lemma_obj_nums(s: Seq<(Seq<char>, CollectorView)>, i: int)
    requires
        0 <= i < s.len(),
        !coll_nums_ok(s[i].1),
    ensures
        !coll_nums_ok(CollectorView::Obj(s)),
{
    let c = CollectorView::Obj(s);
    assert(c->Obj_0 == s);
}

/// The assembled clauses of an object's conversion, in one small step.
proof fn lemma_obj_matches(j: JsonView, fsv: Seq<(Seq<char>, CollectorView)>)
    requires
        j is Obj,
        forall|k: Seq<char>|
            #[trigger] obj_map(j->Obj_0).contains_key(k) ==> exists|i: int|
                0 <= i < fsv.len() && (#[trigger] fsv[i]).0 == k,
        forall|i: int|
            0 <= i < fsv.len() ==> obj_map(j->Obj_0).contains_key((#[trigger] fsv[i]).0),
        forall|i: int|
            0 <= i < fsv.len() ==> matches_collector(
                obj_map(j->Obj_0)[(#[trigger] fsv[i]).0],
                fsv[i].1,
            ),
    ensures
        matches_collector(j, CollectorView::Obj(fsv)),
{
    let c = CollectorView::Obj(fsv);
    assert(c->Obj_0 == fsv);
}

/// A well-formed object's keys are distinct.
proof fn lemma_obj_wf_keys(s: Seq<(Seq<char>, CollectorView)>, x: int, y: int)
    requires
        coll_wf(CollectorView::Obj(s)),
        0 <= x < y < s.len(),
    ensures
        s[x].0 != s[y].0,
{
    let c = CollectorView::Obj(s);
    assert(c->Obj_0 == s);
    assert(forall|a: int, b: int|
        0 <= a < b < s.len() ==> (#[trigger] s[a]).0 != (#[trigger] s[b]).0);
}

impl Collector {
    /// Converts the collector to a serde_json value: `Empty` and `Null` to
    /// null, a sparse array to an array of its values in ascending index
    /// order without gap padding, an object to the mapping of its members.
    /// Fails exactly when some number text does not re-read as a JSON number.
    #[verifier::loop_isolation(false)]
    #[verifier::rlimit(50)]
    pub fn to_json(&self) -> (r: Result<serde_json::Value, DingString>)
        ensures
            r is Ok <==> coll_nums_ok(self@),
            coll_wf(self@) ==> (r matches Ok(v) ==> matches_collector(json_model(v), self@)),
        decreases *self,
    {
        match self {
            Collector::Empty => Ok(value_null()),
            Collector::Null => Ok(value_null()),
            Collector::Bool(b) => Ok(value_bool(*b)),
            Collector::Number(t) => match value_number(t.as_str()) {
                Some(v) => Ok(v),
                None => Err(
                    DingString(String::from_str("number text is not a valid JSON number")),
                ),
            },
            Collector::String(t) => Ok(value_string(t.as_str())),
            Collector::Sparse(fields) => {
                let ghost fsv = sparse_fields_view(fields@);
                let mut items: Vec<serde_json::Value> = Vec::new();
                let mut i: usize = 0;
                while i < fields.len()
                    invariant
                        i <= fields.len(),
                        items@.len() == i,
                        coll_wf(self@) ==> forall|j: int|
                            0 <= j < i ==> matches_collector(
                                json_model(#[trigger] items@[j]),
                                fsv[j].1,
                            ),
                        forall|j: int| 0 <= j < i ==> coll_nums_ok((#[trigger] fsv[j]).1),
                    decreases fields.len() - i,
                {
                    proof {
                        assert(self@ == CollectorView::Sparse(fsv));
                        assert(fsv[i as int] == (fields@[i as int].0 as int, fields@[i as int].1@));
                        if coll_wf(self@) {
                            lemma_sparse_wf_child(fsv, i as int);
                        }
                    }
                    match fields[i].1.to_json() {
                        Ok(v) => {
                            items.push(v);
                        },
                        Err(e) => {
                            proof {
                                assert(!coll_nums_ok(fsv[i as int].1));
                                lemma_sparse_nums(fsv, i as int);
                                assert(!coll_nums_ok(self@));
                            }
                            return Err(e);
                        },
                    }
                    i += 1;
                }
                let out = value_array(items);
                proof {
                    assert(self@ == CollectorView::Sparse(fsv));
                    assert(coll_nums_ok(CollectorView::Sparse(fsv)));
                    assert(coll_nums_ok(self@));
                    if coll_wf(self@) {
                        assert(models_of(items@).len() == fsv.len());
                        assert forall|j: int| 0 <= j < fsv.len() implies matches_collector(
                            json_model(out)->Arr_0[j],
                            (#[trigger] fsv[j]).1,
                        ) by {
                            assert(json_model(out)->Arr_0[j] == json_model(items@[j]));
                        }
                    }
                }
                Ok(out)
            },
            Collector::Object(fields) => {
                let ghost fsv = obj_fields_view(fields@);
                let mut pairs: Vec<(String, serde_json::Value)> = Vec::new();
                let mut i: usize = 0;
                while i < fields.len()
                    invariant
                        i <= fields.len(),
                        pairs@.len() == i,
                        forall|j: int| 0 <= j < i ==> (#[trigger] pairs@[j]).0@ == fsv[j].0,
                        coll_wf(self@) ==> forall|j: int|
                            0 <= j < i ==> matches_collector(
                                json_model((#[trigger] pairs@[j]).1),
                                fsv[j].1,
                            ),
                        forall|j: int| 0 <= j < i ==> coll_nums_ok((#[trigger] fsv[j]).1),
                    decreases fields.len() - i,
                {
                    proof {
                        assert(self@ == CollectorView::Obj(fsv));
                        assert(fsv[i as int] == (fields@[i as int].0@, fields@[i as int].1@));
                        if coll_wf(self@) {
                            lemma_obj_wf_child(fsv, i as int);
                        }
                    }
                    match fields[i].1.to_json() {
                        Ok(v) => {
                            pairs.push((fields[i].0.clone(), v));
                        },
                        Err(e) => {
                            proof {
                                assert(!coll_nums_ok(fsv[i as int].1));
                                lemma_obj_nums(fsv, i as int);
                                assert(!coll_nums_ok(self@));
                            }
                            return Err(e);
                        },
                    }
                    i += 1;
                }
                let out = value_object(pairs);
                proof {
                    assert(self@ == CollectorView::Obj(fsv));
                    assert(coll_nums_ok(CollectorView::Obj(fsv)));
                    assert(coll_nums_ok(self@));
                    if coll_wf(self@) {
                        let pmv = pair_models_of(pairs@);
                        assert(forall|j: int|
                            0 <= j < pmv.len() ==> (#[trigger] pmv[j]) == (
                                pairs@[j].0@,
                                json_model(pairs@[j].1),
                            ));
                        assert(pmv.len() == fsv.len());
                        assert(forall|j: int| 0 <= j < pmv.len() ==> (#[trigger] pmv[j]).0 == fsv[j].0);
                        assert forall|x: int, y: int| 0 <= x < y < pmv.len() implies (
                        #[trigger] pmv[x]).0 != (#[trigger] pmv[y]).0 by {
                            lemma_obj_wf_keys(fsv, x, y);
                        }
                        lemma_obj_map_of(pmv);
                        let ps = json_model(out)->Obj_0;
                        assert(obj_map(ps) == obj_map(pmv));
                        assert forall|k: Seq<char>| #[trigger]
                            obj_map(ps).contains_key(k) implies exists|i2: int|
                            0 <= i2 < fsv.len() && (#[trigger] fsv[i2]).0 == k by {
                            let j = choose|j: int| 0 <= j < pmv.len() && (#[trigger] pmv[j]).0 == k;
                            assert(fsv[j].0 == k);
                        }
                        assert forall|i2: int| 0 <= i2 < fsv.len() implies obj_map(
                            ps,
                        ).contains_key((#[trigger] fsv[i2]).0) && matches_collector(
                            obj_map(ps)[fsv[i2].0],
                            fsv[i2].1,
                        ) by {
                            assert(obj_map(pmv).contains_key(pmv[i2].0) && obj_map(pmv)[pmv[i2].0]
                                == pmv[i2].1);
                        }
                        lemma_obj_matches(json_model(out), fsv);
                        assert(matches_collector(json_model(out), self@));
                    }
                }
                Ok(out)
            },
        }
    }
}

} // verus!
