use vstd::prelude::*;
use crate::coordinator::strictly_under;
use crate::graph::{
    child_at, contains_id, counted, counted_flags, descendants_of, descendants_or_self, edge,
    is_path,
    lemma_counted_unique, reaches,
};
use crate::label::{
    bytes_le, label_bytes, label_le, label_le_exec, lemma_bytes_le_reflexive, lemma_bytes_le_total,
    lemma_bytes_le_transitive, placeholder, placeholder_label,
};
use crate::node::{NodeId, NodeRecord};

verus! {

/// The children of one object, in display order.
pub struct ChildList {
    pub parent: NodeId,
    pub children: Vec<NodeId>,
}

/// The label shown for one object.
pub struct NodeLabel {
    pub node: NodeId,
    pub label: String,
}

/// Read-only view of the scene tree for one frame: the top-level objects,
/// the children of each object that has some, and the label of each object.
pub struct HierarchySnapshot {
    pub roots: Vec<NodeId>,
    pub children: Vec<ChildList>,
    pub labels: Vec<NodeLabel>,
}

/// The label of a record: its name, else `Entity <index>`.
pub open spec fn record_label(r: NodeRecord) -> Seq<char> {
    match r.label {
        Some(s) => s@,
        None => placeholder_label(r.id.index),
    }
}

/// The label of each record, by place.
pub open spec fn record_labels(rs: Seq<NodeRecord>) -> Seq<Seq<char>> {
    rs.map_values(|r: NodeRecord| record_label(r))
}

/// The characters of each string.
pub open spec fn string_views(v: Seq<String>) -> Seq<Seq<char>> {
    v.map_values(|s: String| s@)
}

/// Entry `i` sorts before entry `j`: by label, then by place.
pub open spec fn ranks_before(ls: Seq<Seq<char>>, i: int, j: int) -> bool {
    label_le(ls[i], ls[j]) && (!label_le(ls[j], ls[i]) || i < j)
}

/// The places in `g` are in display order.
pub open spec fn sorted_by(ls: Seq<Seq<char>>, g: Seq<usize>) -> bool {
    forall|a: int, b: int|
        0 <= a < b < g.len() ==> ranks_before(ls, #[trigger] g[a] as int, #[trigger] g[b] as int)
}

/// Record `i` takes part, carries `x` and names `parent` as its parent.
pub open spec fn member_at(rs: Seq<NodeRecord>, i: int, x: NodeId, parent: Option<NodeId>) -> bool {
    counted(rs, i, false) && rs[i].id == x && rs[i].parent == parent
}

/// `x` takes part and its parent is `parent` (none for a top-level object).
pub open spec fn is_child(rs: Seq<NodeRecord>, x: NodeId, parent: Option<NodeId>) -> bool {
    exists|i: int| #[trigger] member_at(rs, i, x, parent)
}

/// Some record that takes part carries `x`.
pub open spec fn is_listed(rs: Seq<NodeRecord>, x: NodeId) -> bool {
    exists|i: int| #[trigger] counted(rs, i, false) && rs[i].id == x
}

/// Some record that takes part names `p` as its parent.
pub open spec fn has_kids(rs: Seq<NodeRecord>, p: NodeId) -> bool {
    exists|i: int| #[trigger] child_at(rs, i, false, p)
}

/// The place of the record that carries `x`.
pub open spec fn index_of(rs: Seq<NodeRecord>, x: NodeId) -> int {
    choose|i: int| #[trigger] counted(rs, i, false) && rs[i].id == x
}

/// `x` may stand under a parent. With a scope, every object but the scope
/// root may (the root stands only as the root); without one, every object
/// that lies on no cycle of the parent data may.
pub open spec fn kept(rs: Seq<NodeRecord>, scope: Option<NodeId>, x: NodeId) -> bool {
    match scope {
        Some(s) => x != s,
        None => !strictly_under(rs, false, x, x),
    }
}

/// `out` lists each object whose parent is `parent` and that is kept under
/// `scope`, once, ordered by label, and between equal labels in the order in
/// which the store lists them.
pub open spec fn ordered_group(
    rs: Seq<NodeRecord>,
    out: Seq<NodeId>,
    parent: Option<NodeId>,
    scope: Option<NodeId>,
) -> bool {
    &&& forall|x: NodeId| out.contains(x) <==> (is_child(rs, x, parent) && kept(rs, scope, x))
    &&& forall|a: int, b: int|
        0 <= a < b < out.len() ==> ranks_before(
            record_labels(rs),
            index_of(rs, #[trigger] out[a]),
            index_of(rs, #[trigger] out[b]),
        )
}

/// `x` lies under the scope root, or no scope is set.
pub open spec fn in_scope(rs: Seq<NodeRecord>, scope: Option<NodeId>, x: NodeId) -> bool {
    match scope {
        None => true,
        Some(s) => reaches(rs, false, s, x),
    }
}

/// Some record that takes part names `p` as its parent and carries an object
/// that is kept under `scope`.
pub open spec fn has_kept_kids(rs: Seq<NodeRecord>, scope: Option<NodeId>, p: NodeId) -> bool {
    exists|i: int| #[trigger] child_at(rs, i, false, p) && kept(rs, scope, rs[i].id)
}

impl HierarchySnapshot {
    /// Each object has at most one children entry and one label entry.
    pub open spec fn wf(&self) -> bool {
        &&& forall|a: int, b: int|
            0 <= a < b < self.children.len() ==> (#[trigger] self.children[a]).parent
                != (#[trigger] self.children[b]).parent
        &&& forall|a: int, b: int|
            0 <= a < b < self.labels.len() ==> (#[trigger] self.labels[a]).node
                != (#[trigger] self.labels[b]).node
    }

    /// The children of `p`, if it has an entry.
    pub open spec fn kids(&self, p: NodeId) -> Option<Seq<NodeId>> {
        if exists|k: int| 0 <= k < self.children.len() && #[trigger] self.children[k].parent == p {
            let k = choose|k: int| 0 <= k < self.children.len() && #[trigger] self.children[k].parent == p;
            Some(self.children[k].children@)
        } else {
            None
        }
    }

    /// The children list of `p` holds `x`.
    pub open spec fn holds_child(&self, p: NodeId, x: NodeId) -> bool {
        self.kids(p).is_some() && self.kids(p).unwrap().contains(x)
    }

    /// `path` follows children lists from each node to the next.
    pub open spec fn is_kids_path(&self, path: Seq<NodeId>) -> bool {
        &&& path.len() >= 1
        &&& forall|k: int| 0 <= k < path.len() - 1 ==> self.holds_child(#[trigger] path[k], path[k + 1])
    }

    /// No path through the children lists comes back to where it started.
    pub open spec fn acyclic(&self) -> bool {
        forall|path: Seq<NodeId>| #[trigger] self.is_kids_path(path) && path.len() >= 2 ==> path[0] != path.last()
    }

    /// No id stands twice in the roots and the children lists taken together.
    pub open spec fn no_repeats(&self) -> bool {
        &&& self.roots@.no_duplicates()
        &&& forall|p: NodeId| #[trigger] self.kids(p).is_some() ==> self.kids(p).unwrap().no_duplicates()
        &&& forall|p: NodeId, x: NodeId| self.roots@.contains(x) ==> !#[trigger] self.holds_child(p, x)
        &&& forall|p: NodeId, q: NodeId, x: NodeId|
            #[trigger] self.holds_child(p, x) && #[trigger] self.holds_child(q, x) ==> p == q
    }

    /// The label of `x`, if it has one.
    pub open spec fn label(&self, x: NodeId) -> Option<Seq<char>> {
        if exists|k: int| 0 <= k < self.labels.len() && #[trigger] self.labels[k].node == x {
            let k = choose|k: int| 0 <= k < self.labels.len() && #[trigger] self.labels[k].node == x;
            Some(self.labels[k].label@)
        } else {
            None
        }
    }
}

/// `snap` is the snapshot of `rs` under `scope`. Without a scope its roots are
/// the objects without a parent (none of which lies on a cycle, so the
/// filter of `ordered_group` keeps them all), and every parent keeps a
/// children list of its children that lie on no cycle of the parent data,
/// whether the parent is shown, hidden or missing. With a scope the root is
/// the scope root alone, and only objects under it keep their children lists
/// (which leave the root out) and labels. No children list is empty.
pub open spec fn snapshot_of(rs: Seq<NodeRecord>, scope: Option<NodeId>, snap: HierarchySnapshot) -> bool {
    &&& snap.wf()
    &&& match scope {
        None => ordered_group(rs, snap.roots@, None, None),
        Some(s) => snap.roots@ == seq![s],
    }
    &&& forall|p: NodeId|
        (#[trigger] snap.kids(p)).is_some() <==> (in_scope(rs, scope, p) && has_kept_kids(rs, scope, p))
    &&& forall|p: NodeId|
        (#[trigger] snap.kids(p)).is_some() ==> ordered_group(rs, snap.kids(p).unwrap(), Some(p), scope)
    &&& forall|x: NodeId|
        #[trigger] snap.label(x) == if is_listed(rs, x) && in_scope(rs, scope, x) {
            Some(record_label(rs[index_of(rs, x)]))
        } else {
            None
        }
}

pub proof fn lemma_ranks_before_transitive(ls: Seq<Seq<char>>, a: int, b: int, c: int)
    requires
        ranks_before(ls, a, b),
        ranks_before(ls, b, c),
    ensures
        ranks_before(ls, a, c),
{
    let (x, y, z) = (
        label_bytes(ls[a]),
        label_bytes(ls[b]),
        label_bytes(ls[c]),
    );
    lemma_bytes_le_transitive(x, y, z);
    if bytes_le(z, x) {
        lemma_bytes_le_transitive(z, x, y);
        lemma_bytes_le_transitive(y, z, x);
    }
}

pub proof fn lemma_ranks_before_irreflexive(ls: Seq<Seq<char>>, a: int)
    ensures
        !ranks_before(ls, a, a),
{
    lemma_bytes_le_reflexive(label_bytes(ls[a]));
}

proof fn lemma_insert_ranked(ls: Seq<Seq<char>>, g: Seq<usize>, k: int, i: usize)
    requires
        sorted_by(ls, g),
        0 <= k <= g.len(),
        forall|m: int| 0 <= m < k ==> label_le(ls[#[trigger] g[m] as int], ls[i as int]),
        forall|m: int| 0 <= m < g.len() ==> #[trigger] g[m] < i,
        k == g.len() || !label_le(ls[g[k] as int], ls[i as int]),
    ensures
        sorted_by(ls, g.insert(k, i)),
{
    let n = g.insert(k, i);
    assert forall|a: int, b: int| 0 <= a < b < n.len() implies ranks_before(
        ls,
        #[trigger] n[a] as int,
        #[trigger] n[b] as int,
    ) by {
        if b < k {
            assert(n[a] == g[a] && n[b] == g[b]);
        } else if a < k && b == k {
            assert(n[a] == g[a] && g[a] < i);
        } else if a < k {
            assert(n[a] == g[a] && n[b] == g[b - 1]);
        } else if a == k {
            let (x, y) = (label_bytes(ls[i as int]), label_bytes(ls[g[k] as int]));
            lemma_bytes_le_total(x, y);
            assert(ranks_before(ls, i as int, g[k] as int));
            if b > k + 1 {
                assert(n[b] == g[b - 1]);
                assert(ranks_before(ls, g[k] as int, g[b - 1] as int));
                lemma_ranks_before_transitive(ls, i as int, g[k] as int, g[b - 1] as int);
            }
        } else {
            assert(n[a] == g[a - 1] && n[b] == g[b - 1]);
        }
    }
}

/// Inserts place `i` into `g` after every entry whose label sorts no later.
fn insert_ranked(g: &mut Vec<usize>, i: usize, labels: &Vec<String>)
    requires
        i < labels.len(),
        sorted_by(string_views(labels@), old(g)@),
        forall|m: int| 0 <= m < old(g).len() ==> #[trigger] old(g)[m] < i,
    ensures
        sorted_by(string_views(labels@), final(g)@),
        forall|m: int| 0 <= m < final(g).len() ==> #[trigger] final(g)[m] <= i,
        forall|m: usize| final(g)@.contains(m) <==> (old(g)@.contains(m) || m == i),
{
    let ghost ls = string_views(labels@);
    let mut k: usize = 0;
    while k < g.len() && label_le_exec(&labels[g[k]], &labels[i])
        invariant
            ls == string_views(labels@),
            g@ == old(g)@,
            i < labels.len(),
            k <= g.len(),
            forall|m: int| 0 <= m < g.len() ==> #[trigger] g[m] < i,
            forall|m: int| 0 <= m < k ==> label_le(ls[#[trigger] g[m] as int], ls[i as int]),
        decreases g.len() - k,
    {
        k = k + 1;
    }
    proof {
        lemma_insert_ranked(ls, g@, k as int, i);
    }
    let ghost before = g@;
    g.insert(k, i);
    proof {
        lemma_insert_contains(before, k as int, i);
    }
}

/// Inserting `i` adds exactly `i` to what a list holds.
proof fn lemma_insert_contains(before: Seq<usize>, k: int, i: usize)
    requires
        0 <= k <= before.len(),
    ensures
        forall|m: usize| before.insert(k, i).contains(m) <==> (before.contains(m) || m == i),
{
    let after = before.insert(k, i);
    assert forall|m: usize| after.contains(m) <==> (before.contains(m) || m == i) by {
        if after.contains(m) {
            let j = choose|j: int| 0 <= j < after.len() && after[j] == m;
            if j < k {
                assert(before[j] == m);
            } else if j > k {
                assert(before[j - 1] == m);
            }
        }
        if before.contains(m) {
            let j = choose|j: int| 0 <= j < before.len() && before[j] == m;
            if j < k {
                assert(after[j] == m);
            } else {
                assert(after[j + 1] == m);
            }
        }
        if m == i {
            assert(after[k] == i);
        }
    }
}

/// The label of a record, as the snapshot shows it.
fn record_label_exec(r: &NodeRecord) -> (s: String)
    ensures
        s@ == record_label(*r),
{
    match &r.label {
        Some(l) => l.clone(),
        None => placeholder(r.id.index),
    }
}

/// The label of every record.
fn all_labels(rs: &Vec<NodeRecord>) -> (r: Vec<String>)
    ensures
        string_views(r@) == record_labels(rs@),
{
    let mut r: Vec<String> = Vec::new();
    let mut i: usize = 0;
    while i < rs.len()
        invariant
            i <= rs.len(),
            r.len() == i,
            forall|k: int| 0 <= k < i ==> (#[trigger] r@[k])@ == record_label(rs@[k]),
        decreases rs.len() - i,
    {
        let s = record_label_exec(&rs[i]);
        r.push(s);
        i = i + 1;
    }
    assert(string_views(r@) =~= record_labels(rs@));
    r
}

/// The places of the records that take part, name `parent` as their parent
/// and carry an object kept under `scope`, in display order.
fn ranked_group(
    rs: &Vec<NodeRecord>,
    flags: &Vec<bool>,
    keep: &Vec<bool>,
    labels: &Vec<String>,
    parent: Option<NodeId>,
    scope: Option<NodeId>,
) -> (g: Vec<usize>)
    requires
        flags.len() == rs.len(),
        forall|i: int| 0 <= i < rs.len() ==> flags[i] == counted(rs@, i, false),
        keep.len() == rs.len(),
        forall|i: int| 0 <= i < rs.len() && flags[i] ==> keep[i] == kept(rs@, scope, rs@[i].id),
        string_views(labels@) == record_labels(rs@),
    ensures
        sorted_by(record_labels(rs@), g@),
        forall|m: int| 0 <= m < g.len() ==> #[trigger] g[m] < rs.len(),
        forall|m: usize|
            g@.contains(m) <==> (m < rs.len() && counted(rs@, m as int, false) && rs@[m as int].parent
                == parent && kept(rs@, scope, rs@[m as int].id)),
{
    assert(labels.len() == rs.len()) by {
        assert(string_views(labels@).len() == labels@.len());
        assert(record_labels(rs@).len() == rs@.len());
    }
    let mut g: Vec<usize> = Vec::new();
    let mut i: usize = 0;
    while i < rs.len()
        invariant
            flags.len() == rs.len(),
            labels.len() == rs.len(),
            forall|i: int| 0 <= i < rs.len() ==> flags[i] == counted(rs@, i, false),
            keep.len() == rs.len(),
            forall|i: int| 0 <= i < rs.len() && flags[i] ==> keep[i] == kept(rs@, scope, rs@[i].id),
            string_views(labels@) == record_labels(rs@),
            i <= rs.len(),
            sorted_by(record_labels(rs@), g@),
            forall|m: int| 0 <= m < g.len() ==> #[trigger] g[m] < i,
            forall|m: usize|
                g@.contains(m) <==> (m < i && counted(rs@, m as int, false) && rs@[m as int].parent
                    == parent && kept(rs@, scope, rs@[m as int].id)),
        decreases rs.len() - i,
    {
        if flags[i] && keep[i] && rs[i].parent == parent {
            insert_ranked(&mut g, i, labels);
        }
        i = i + 1;
    }
    g
}

/// The ids of the records at the places `ps`.
fn ids_at(rs: &Vec<NodeRecord>, ps: &Vec<usize>) -> (r: Vec<NodeId>)
    requires
        forall|m: int| 0 <= m < ps.len() ==> #[trigger] ps[m] < rs.len(),
    ensures
        r@ == ps@.map_values(|p: usize| rs@[p as int].id),
{
    let mut r: Vec<NodeId> = Vec::new();
    let mut k: usize = 0;
    while k < ps.len()
        invariant
            k <= ps.len(),
            forall|m: int| 0 <= m < ps.len() ==> #[trigger] ps[m] < rs.len(),
            r@ == ps@.subrange(0, k as int).map_values(|p: usize| rs@[p as int].id),
        decreases ps.len() - k,
    {
        r.push(rs[ps[k]].id);
        k = k + 1;
        assert(r@ =~= ps@.subrange(0, k as int).map_values(|p: usize| rs@[p as int].id));
    }
    assert(ps@.subrange(0, k as int) =~= ps@);
    r
}

/// Places in display order give ids in display order.
proof fn lemma_ids_ordered(rs: Seq<NodeRecord>, ps: Seq<usize>, parent: Option<NodeId>, scope: Option<NodeId>)
    requires
        rs.len() <= usize::MAX,
        sorted_by(record_labels(rs), ps),
        forall|m: int| 0 <= m < ps.len() ==> #[trigger] ps[m] < rs.len(),
        forall|m: usize|
            ps.contains(m) <==> (m < rs.len() && counted(rs, m as int, false) && rs[m as int].parent
                == parent && kept(rs, scope, rs[m as int].id)),
    ensures
        ordered_group(rs, ps.map_values(|p: usize| rs[p as int].id), parent, scope),
{
    let out = ps.map_values(|p: usize| rs[p as int].id);
    assert forall|m: int| 0 <= m < ps.len() implies index_of(rs, #[trigger] out[m]) == ps[m] as int
        && member_at(rs, ps[m] as int, out[m], parent) && kept(rs, scope, out[m]) by {
        assert(ps.contains(ps[m]));
        let j = index_of(rs, out[m]);
        assert(counted(rs, ps[m] as int, false) && rs[ps[m] as int].id == out[m]);
        lemma_counted_unique(rs, j, ps[m] as int, false);
    }
    assert forall|x: NodeId| out.contains(x) <==> (is_child(rs, x, parent) && kept(rs, scope, x)) by {
        if out.contains(x) {
            let m = choose|m: int| 0 <= m < out.len() && out[m] == x;
            assert(member_at(rs, ps[m] as int, x, parent));
        }
        if is_child(rs, x, parent) && kept(rs, scope, x) {
            let i = choose|i: int| #[trigger] member_at(rs, i, x, parent);
            let iu = i as usize;
            assert(iu as int == i);
            assert(iu < rs.len() && counted(rs, iu as int, false) && rs[iu as int].parent == parent
                && kept(rs, scope, rs[iu as int].id));
            assert(ps.contains(iu));
            let m = choose|m: int| 0 <= m < ps.len() && ps[m] == iu;
            assert(out[m] == x);
        }
    }
    assert forall|a: int, b: int| 0 <= a < b < out.len() implies ranks_before(
        record_labels(rs),
        index_of(rs, #[trigger] out[a]),
        index_of(rs, #[trigger] out[b]),
    ) by {
        assert(index_of(rs, out[a]) == ps[a] as int);
        assert(index_of(rs, out[b]) == ps[b] as int);
    }
}

/// The objects that some record that takes part names as its parent, each once.
fn distinct_parents(rs: &Vec<NodeRecord>, flags: &Vec<bool>) -> (r: Vec<NodeId>)
    requires
        flags.len() == rs.len(),
        forall|i: int| 0 <= i < rs.len() ==> flags[i] == counted(rs@, i, false),
    ensures
        r@.no_duplicates(),
        forall|p: NodeId| r@.contains(p) <==> has_kids(rs@, p),
{
    let mut r: Vec<NodeId> = Vec::new();
    let mut i: usize = 0;
    while i < rs.len()
        invariant
            flags.len() == rs.len(),
            forall|i: int| 0 <= i < rs.len() ==> flags[i] == counted(rs@, i, false),
            i <= rs.len(),
            r@.no_duplicates(),
            forall|p: NodeId| r@.contains(p) ==> has_kids(rs@, p),
            forall|j: int, p: NodeId| 0 <= j < i && #[trigger] child_at(rs@, j, false, p) ==> r@.contains(p),
        decreases rs.len() - i,
    {
        if flags[i] {
            match rs[i].parent {
                Some(p) => {
                    if !contains_id(&r, p) {
                        let ghost before = r@;
                        r.push(p);
                        proof {
                            assert(child_at(rs@, i as int, false, p));
                            assert(r@[r@.len() - 1] == p);
                            assert forall|x: NodeId| before.contains(x) implies r@.contains(x) by {
                                let k = choose|k: int| 0 <= k < before.len() && before[k] == x;
                                assert(r@[k] == x);
                            }
                            assert forall|x: NodeId| r@.contains(x) implies has_kids(rs@, x) by {
                                let k = choose|k: int| 0 <= k < r@.len() && r@[k] == x;
                                if k < before.len() {
                                    assert(before[k] == x);
                                }
                            }
                            assert forall|a: int, b: int| 0 <= a < b < r@.len() implies r@[a] != r@[b] by {
                                if b == r@.len() - 1 {
                                    assert(before.contains(r@[a]));
                                } else {
                                    assert(before[a] == r@[a] && before[b] == r@[b]);
                                }
                            }
                        }
                    }
                },
                None => {},
            }
        }
        i = i + 1;
    }
    proof {
        assert forall|p: NodeId| has_kids(rs@, p) implies r@.contains(p) by {
            let j = choose|j: int| #[trigger] child_at(rs@, j, false, p);
        }
    }
    r
}

/// Whether `x` lies under the scope root; `reach` holds what does.
fn within(scope: Option<NodeId>, reach: &Vec<NodeId>, x: NodeId, Ghost(rs): Ghost<Seq<NodeRecord>>) -> (r: bool)
    requires
        scope.is_some() ==> forall|y: NodeId| reach@.contains(y) <==> reaches(rs, false, scope.unwrap(), y),
    ensures
        r == in_scope(rs, scope, x),
{
    match scope {
        None => true,
        Some(_) => contains_id(reach, x),
    }
}

/// An object lies strictly under itself exactly when it lies under its
/// own parent; an object without a parent never does.
proof fn lemma_on_cycle(rs: Seq<NodeRecord>, i: int)
    requires
        counted(rs, i, false),
    ensures
        rs[i].parent.is_none() ==> !strictly_under(rs, false, rs[i].id, rs[i].id),
        rs[i].parent.is_some() ==> (strictly_under(rs, false, rs[i].id, rs[i].id) <==> reaches(
            rs,
            false,
            rs[i].id,
            rs[i].parent.unwrap(),
        )),
{
    let x = rs[i].id;
    if strictly_under(rs, false, x, x) {
        let path = choose|path: Seq<NodeId>|
            #[trigger] is_path(rs, false, path) && path.len() >= 2 && path[0] == x && path.last() == x;
        let n = path.len();
        assert(edge(rs, false, path[n - 2], path[n - 1]));
        let e = choose|e: int| #[trigger] child_at(rs, e, false, path[n - 2]) && rs[e].id == x;
        lemma_counted_unique(rs, e, i, false);
        let prefix = path.subrange(0, n - 1);
        assert forall|k: int| 0 <= k < prefix.len() - 1 implies edge(rs, false, #[trigger] prefix[k], prefix[k + 1]) by {
            assert(prefix[k] == path[k] && prefix[k + 1] == path[k + 1]);
        }
        assert(is_path(rs, false, prefix));
        assert(prefix.last() == path[n - 2]);
    }
    if rs[i].parent.is_some() && reaches(rs, false, x, rs[i].parent.unwrap()) {
        let p = rs[i].parent.unwrap();
        let path = choose|path: Seq<NodeId>| #[trigger] is_path(rs, false, path) && path[0] == x && path.last() == p;
        let longer = path.push(x);
        assert(child_at(rs, i, false, p));
        assert(edge(rs, false, p, x));
        assert forall|k: int| 0 <= k < longer.len() - 1 implies edge(rs, false, #[trigger] longer[k], longer[k + 1]) by {
            if k < path.len() - 1 {
                assert(longer[k] == path[k] && longer[k + 1] == path[k + 1]);
            }
        }
        assert(is_path(rs, false, longer));
    }
}

/// For each record that takes part, whether its object is kept under `scope`.
fn kept_flags(records: &Vec<NodeRecord>, flags: &Vec<bool>, scope: Option<NodeId>) -> (r: Vec<bool>)
    requires
        flags.len() == records.len(),
        forall|i: int| 0 <= i < records.len() ==> flags[i] == counted(records@, i, false),
    ensures
        r.len() == records.len(),
        forall|i: int| 0 <= i < records.len() && flags[i] ==> r[i] == kept(records@, scope, records@[i].id),
{
    let mut r: Vec<bool> = Vec::new();
    let mut i: usize = 0;
    while i < records.len()
        invariant
            flags.len() == records.len(),
            forall|i: int| 0 <= i < records.len() ==> flags[i] == counted(records@, i, false),
            i <= records.len(),
            r.len() == i,
            forall|k: int| 0 <= k < i && flags[k] ==> r[k] == kept(records@, scope, records@[k].id),
        decreases records.len() - i,
    {
        let x = records[i].id;
        let b = match scope {
            Some(s) => x != s,
            None => {
                if !flags[i] {
                    false
                } else {
                    proof {
                        lemma_on_cycle(records@, i as int);
                    }
                    match records[i].parent {
                        None => true,
                        Some(p) => {
                            let under = descendants_or_self(records, false, x);
                            !contains_id(&under, p)
                        },
                    }
                }
            },
        };
        r.push(b);
        i = i + 1;
    }
    r
}

/// Builds the snapshot of the objects that `records` lists.
///
/// Hidden records are left out, and a record whose id an earlier one already
/// carries is read no further. Without `scope` the roots are the objects
/// without a parent, and each parent lists its children that lie on no cycle
/// of the parent data. With it the root is `scope` alone, and only objects
/// under it (found by a walk that stops at objects met before, so that a
/// cycle in the parent data ends it) keep children lists, which never list
/// the scope root. The parent data may hold cycles: the snapshot holds none,
/// and no id stands in it twice. Roots and children are
/// ordered by label, equal labels in the order of `records`.
pub fn build_hierarchy_snapshot(records: &Vec<NodeRecord>, scope: Option<NodeId>) -> (snap: HierarchySnapshot)
    ensures
        snapshot_of(records@, scope, snap),
        snap.no_repeats(),
        snap.acyclic(),
{
    let ghost rs = records@;
    let flags = counted_flags(records, false);
    let labels = all_labels(records);
    let keep = kept_flags(records, &flags, scope);
    let roots: Vec<NodeId> = match scope {
        Some(s) => {
            let mut v: Vec<NodeId> = Vec::new();
            v.push(s);
            v
        },
        None => {
            let g = ranked_group(records, &flags, &keep, &labels, None, None);
            proof {
                lemma_ids_ordered(rs, g@, None, None);
            }
            ids_at(records, &g)
        },
    };
    let reach: Vec<NodeId> = match scope {
        Some(s) => descendants_or_self(records, false, s),
        None => Vec::new(),
    };
    let parents = distinct_parents(records, &flags);
    let mut children: Vec<ChildList> = Vec::new();
    let mut k: usize = 0;
    while k < parents.len()
        invariant
            rs == records@,
            flags.len() == rs.len(),
            forall|i: int| 0 <= i < rs.len() ==> flags[i] == counted(rs, i, false),
            string_views(labels@) == record_labels(rs),
            scope.is_some() ==> forall|y: NodeId| reach@.contains(y) <==> reaches(rs, false, scope.unwrap(), y),
            keep.len() == rs.len(),
            forall|i: int| 0 <= i < rs.len() && flags[i] ==> keep[i] == kept(rs, scope, rs[i].id),
            parents@.no_duplicates(),
            forall|p: NodeId| parents@.contains(p) <==> has_kids(rs, p),
            k <= parents.len(),
            forall|a: int, b: int|
                0 <= a < b < children.len() ==> (#[trigger] children@[a]).parent
                    != (#[trigger] children@[b]).parent,
            forall|a: int|
                0 <= a < children.len() ==> parents@.subrange(0, k as int).contains(
                    (#[trigger] children@[a]).parent,
                ),
            forall|a: int|
                0 <= a < children.len() ==> {
                    let c = #[trigger] children@[a];
                    has_kept_kids(rs, scope, c.parent) && in_scope(rs, scope, c.parent) && ordered_group(
                        rs,
                        c.children@,
                        Some(c.parent),
                        scope,
                    )
                },
            forall|j: int|
                0 <= j < k && in_scope(rs, scope, #[trigger] parents@[j]) && has_kept_kids(rs, scope, parents@[j])
                    ==> exists|a: int| 0 <= a < children.len() && (#[trigger] children@[a]).parent == parents@[j],
        decreases parents.len() - k,
    {
        let p = parents[k];
        let ghost start = children@;
        proof {
            assert(parents@.contains(p));
        }
        if within(scope, &reach, p, Ghost(rs)) {
            let g = ranked_group(records, &flags, &keep, &labels, Some(p), scope);
            proof {
                lemma_ids_ordered(rs, g@, Some(p), scope);
            }
            let ids = ids_at(records, &g);
            proof {
                if has_kept_kids(rs, scope, p) {
                    let i = choose|i: int| #[trigger] child_at(rs, i, false, p) && kept(rs, scope, rs[i].id);
                    assert(g@.contains(i as usize));
                }
                if ids.len() > 0 {
                    assert(g@.contains(g@[0]));
                    assert(child_at(rs, g@[0] as int, false, p));
                }
            }
            if ids.len() > 0 {
                let ghost before = children@;
                children.push(ChildList { parent: p, children: ids });
                proof {
                    assert forall|a: int| 0 <= a < before.len() implies (#[trigger] before[a]).parent != p by {
                        assert(children@[a] == before[a]);
                        let m = choose|m: int| 0 <= m < k && parents@.subrange(0, k as int)[m] == before[a].parent;
                        assert(parents@[m] == before[a].parent);
                    }
                }
            }
        }
        proof {
            assert forall|a: int| 0 <= a < children.len() implies parents@.subrange(0, k + 1).contains(
                (#[trigger] children@[a]).parent,
            ) by {
                if children@[a].parent == p {
                    assert(parents@.subrange(0, k + 1)[k as int] == p);
                } else {
                    let m = choose|m: int| 0 <= m < k && parents@.subrange(0, k as int)[m] == children@[a].parent;
                    assert(parents@.subrange(0, k + 1)[m] == children@[a].parent);
                }
            }
            assert forall|j: int|
                0 <= j < k + 1 && in_scope(rs, scope, #[trigger] parents@[j]) && has_kept_kids(rs, scope, parents@[j])
                implies exists|a: int| 0 <= a < children.len() && (#[trigger] children@[a]).parent == parents@[j] by {
                if j == k {
                    assert(children@[children.len() - 1].parent == p);
                } else {
                    let a = choose|a: int| 0 <= a < start.len() && (#[trigger] start[a]).parent == parents@[j];
                    assert(children@[a] == start[a]);
                }
            }
        }
        k = k + 1;
    }
    assert(labels.len() == rs.len()) by {
        assert(string_views(labels@).len() == labels@.len());
        assert(record_labels(rs).len() == rs.len());
    }
    let mut names: Vec<NodeLabel> = Vec::new();
    let ghost mut src: Seq<int> = Seq::empty();
    let mut i: usize = 0;
    while i < records.len()
        invariant
            rs == records@,
            flags.len() == rs.len(),
            forall|i: int| 0 <= i < rs.len() ==> flags[i] == counted(rs, i, false),
            string_views(labels@) == record_labels(rs),
            labels.len() == rs.len(),
            scope.is_some() ==> forall|y: NodeId| reach@.contains(y) <==> reaches(rs, false, scope.unwrap(), y),
            i <= rs.len(),
            src.len() == names.len(),
            forall|a: int, b: int| 0 <= a < b < src.len() ==> #[trigger] src[a] < #[trigger] src[b],
            forall|a: int|
                0 <= a < src.len() ==> {
                    let j = #[trigger] src[a];
                    &&& 0 <= j < i
                    &&& counted(rs, j, false)
                    &&& names@[a].node == rs[j].id
                    &&& names@[a].label@ == record_label(rs[j])
                    &&& in_scope(rs, scope, rs[j].id)
                },
            forall|j: int|
                0 <= j < i && #[trigger] counted(rs, j, false) && in_scope(rs, scope, rs[j].id) ==> exists|a: int|
                    0 <= a < src.len() && src[a] == j,
        decreases rs.len() - i,
    {
        let ghost src0 = src;
        if flags[i] && within(scope, &reach, records[i].id, Ghost(rs)) {
            let label = labels[i].clone();
            proof {
                assert(string_views(labels@)[i as int] == labels@[i as int]@);
                assert(record_labels(rs)[i as int] == record_label(rs[i as int]));
            }
            names.push(NodeLabel { node: records[i].id, label });
            proof {
                src = src.push(i as int);
            }
        }
        proof {
            assert forall|j: int|
                0 <= j < i + 1 && #[trigger] counted(rs, j, false) && in_scope(rs, scope, rs[j].id) implies exists|a: int|
                    0 <= a < src.len() && src[a] == j by {
                if j == i {
                    assert(src[src.len() - 1] == j);
                } else {
                    let a = choose|a: int| 0 <= a < src0.len() && src0[a] == j;
                    assert(src[a] == src0[a]);
                }
            }
        }
        i = i + 1;
    }
    let snap = HierarchySnapshot { roots, children, labels: names };
    proof {
        assert forall|a: int, b: int| 0 <= a < b < snap.labels.len() implies (#[trigger] snap.labels[a]).node
            != (#[trigger] snap.labels[b]).node by {
            let (x, y) = (src[a], src[b]);
            if rs[x].id == rs[y].id {
                lemma_counted_unique(rs, x, y, false);
            }
        }
        assert forall|p: NodeId|
            (#[trigger] snap.kids(p)).is_some() <==> (in_scope(rs, scope, p) && has_kept_kids(rs, scope, p)) by {
            if exists|k: int| 0 <= k < snap.children.len() && #[trigger] snap.children[k].parent == p {
                let k = choose|k: int| 0 <= k < snap.children.len() && #[trigger] snap.children[k].parent == p;
                assert(children@[k].parent == p);
            }
            if in_scope(rs, scope, p) && has_kept_kids(rs, scope, p) {
                let i = choose|i: int| #[trigger] child_at(rs, i, false, p) && scope != Some(rs[i].id);
                assert(has_kids(rs, p));
                assert(parents@.contains(p));
                let j = choose|j: int| 0 <= j < parents@.len() && parents@[j] == p;
                assert(in_scope(rs, scope, parents@[j]) && has_kept_kids(rs, scope, parents@[j]));
                let a = choose|a: int| 0 <= a < children.len() && (#[trigger] children@[a]).parent == parents@[j];
                assert(snap.children[a].parent == p);
            }
        }
        assert forall|p: NodeId| (#[trigger] snap.kids(p)).is_some() implies ordered_group(rs, snap.kids(p).unwrap(), Some(p), scope) by {
            let k = choose|k: int| 0 <= k < snap.children.len() && #[trigger] snap.children[k].parent == p;
            assert(children@[k].parent == p);
        }
        assert forall|x: NodeId|
            #[trigger] snap.label(x) == if is_listed(rs, x) && in_scope(rs, scope, x) {
                Some(record_label(rs[index_of(rs, x)]))
            } else {
                None
            } by {
            if exists|k: int| 0 <= k < snap.labels.len() && #[trigger] snap.labels[k].node == x {
                let k = choose|k: int| 0 <= k < snap.labels.len() && #[trigger] snap.labels[k].node == x;
                let j = src[k];
                assert(counted(rs, j, false) && rs[j].id == x);
                assert(is_listed(rs, x));
                let m = index_of(rs, x);
                lemma_counted_unique(rs, j, m, false);
            } else if is_listed(rs, x) && in_scope(rs, scope, x) {
                let j = index_of(rs, x);
                let a = choose|a: int| 0 <= a < src.len() && src[a] == j;
                assert(snap.labels[a].node == x);
            }
        }
        lemma_snapshot_no_repeats(rs, scope, snap);
        lemma_snapshot_acyclic(rs, scope, snap);
    }
    snap
}

impl HierarchySnapshot {
    /// The children of `p`, when it has an entry.
    pub fn children_of(&self, p: NodeId) -> (r: Option<&Vec<NodeId>>)
        requires
            self.wf(),
        ensures
            r.is_some() == self.kids(p).is_some(),
            r.is_some() ==> r.unwrap()@ == self.kids(p).unwrap(),
    {
        let mut k: usize = 0;
        while k < self.children.len()
            invariant
                self.wf(),
                k <= self.children.len(),
                forall|m: int| 0 <= m < k ==> (#[trigger] self.children@[m]).parent != p,
            decreases self.children.len() - k,
        {
            if self.children[k].parent == p {
                proof {
                    let c = choose|c: int| 0 <= c < self.children.len() && #[trigger] self.children[c].parent == p;
                    if c < k {
                        assert(self.children@[c].parent != p);
                    } else if c > k {
                        assert(self.children[k as int].parent != self.children[c].parent);
                    }
                }
                return Some(&self.children[k].children);
            }
            k = k + 1;
        }
        None
    }

    /// The label of `x`, when it has one.
    pub fn label_of(&self, x: NodeId) -> (r: Option<&String>)
        requires
            self.wf(),
        ensures
            r.is_some() == self.label(x).is_some(),
            r.is_some() ==> r.unwrap()@ == self.label(x).unwrap(),
    {
        let mut k: usize = 0;
        while k < self.labels.len()
            invariant
                self.wf(),
                k <= self.labels.len(),
                forall|m: int| 0 <= m < k ==> (#[trigger] self.labels@[m]).node != x,
            decreases self.labels.len() - k,
        {
            if self.labels[k].node == x {
                proof {
                    let c = choose|c: int| 0 <= c < self.labels.len() && #[trigger] self.labels[c].node == x;
                    if c < k {
                        assert(self.labels@[c].node != x);
                    } else if c > k {
                        assert(self.labels[k as int].node != self.labels[c].node);
                    }
                }
                return Some(&self.labels[k].label);
            }
            k = k + 1;
        }
        None
    }
}

/// The label that the snapshot of `rs` shows for `x`.
pub open spec fn node_label(rs: Seq<NodeRecord>, x: NodeId) -> Seq<char> {
    record_label(rs[index_of(rs, x)])
}

/// `x` sorts before `y`: by label, then by place in `rs`.
pub open spec fn id_before(rs: Seq<NodeRecord>, x: NodeId, y: NodeId) -> bool {
    ranks_before(record_labels(rs), index_of(rs, x), index_of(rs, y))
}

/// The labels of `l` never decrease.
pub open spec fn in_label_order(rs: Seq<NodeRecord>, l: Seq<NodeId>) -> bool {
    forall|a: int, b: int|
        0 <= a < b < l.len() ==> label_le(node_label(rs, #[trigger] l[a]), node_label(rs, #[trigger] l[b]))
}

/// `x` stands in the snapshot exactly once: among the roots and in no
/// children list, or in exactly one children list and not among the roots.
pub open spec fn listed_once(snap: HierarchySnapshot, x: NodeId) -> bool {
    if snap.roots@.contains(x) {
        forall|p: NodeId| !#[trigger] snap.holds_child(p, x)
    } else {
        exists|p: NodeId| #[trigger] snap.holds_child(p, x) && forall|q: NodeId| #[trigger] snap.holds_child(q, x) ==> q == p
    }
}

proof fn lemma_group_member(
    rs: Seq<NodeRecord>,
    l: Seq<NodeId>,
    parent: Option<NodeId>,
    scope: Option<NodeId>,
    a: int,
)
    requires
        ordered_group(rs, l, parent, scope),
        0 <= a < l.len(),
    ensures
        counted(rs, index_of(rs, l[a]), false),
        rs[index_of(rs, l[a])].id == l[a],
        rs[index_of(rs, l[a])].parent == parent,
        record_labels(rs)[index_of(rs, l[a])] == node_label(rs, l[a]),
{
    assert(l.contains(l[a]));
    let i = choose|i: int| #[trigger] member_at(rs, i, l[a], parent);
    assert(counted(rs, i, false) && rs[i].id == l[a]);
    let j = index_of(rs, l[a]);
    lemma_counted_unique(rs, i, j, false);
}

proof fn lemma_group_shape(rs: Seq<NodeRecord>, l: Seq<NodeId>, parent: Option<NodeId>, scope: Option<NodeId>)
    requires
        ordered_group(rs, l, parent, scope),
    ensures
        in_label_order(rs, l),
        l.no_duplicates(),
{
    assert forall|a: int, b: int| 0 <= a < b < l.len() implies label_le(
        node_label(rs, #[trigger] l[a]),
        node_label(rs, #[trigger] l[b]),
    ) && l[a] != l[b] by {
        lemma_group_member(rs, l, parent, scope, a);
        lemma_group_member(rs, l, parent, scope, b);
        lemma_ranks_before_irreflexive(record_labels(rs), index_of(rs, l[a]));
    }
}

/// What standing in the children list of `p` tells of `x`: the record that
/// carries it names `p` as its parent, `x` is kept, and `p` lies under the
/// scope root, if any.
proof fn lemma_kid(rs: Seq<NodeRecord>, scope: Option<NodeId>, snap: HierarchySnapshot, p: NodeId, x: NodeId)
    requires
        snapshot_of(rs, scope, snap),
        snap.holds_child(p, x),
    ensures
        counted(rs, index_of(rs, x), false),
        rs[index_of(rs, x)].id == x,
        rs[index_of(rs, x)].parent == Some(p),
        kept(rs, scope, x),
        in_scope(rs, scope, p),
{
    let l = snap.kids(p).unwrap();
    let a = choose|a: int| 0 <= a < l.len() && l[a] == x;
    lemma_group_member(rs, l, Some(p), scope, a);
}

/// The node before the last on a path of two or more nodes.
proof fn lemma_last_step(rs: Seq<NodeRecord>, a: NodeId, x: NodeId) -> (p: NodeId)
    requires
        reaches(rs, false, a, x),
        a != x,
    ensures
        reaches(rs, false, a, p),
        edge(rs, false, p, x),
{
    let path = choose|path: Seq<NodeId>| #[trigger] is_path(rs, false, path) && path[0] == a && path.last() == x;
    let n = path.len();
    assert(n >= 2);
    let prefix = path.subrange(0, n - 1);
    assert forall|k: int| 0 <= k < prefix.len() - 1 implies edge(rs, false, #[trigger] prefix[k], prefix[k + 1]) by {
        assert(prefix[k] == path[k] && prefix[k + 1] == path[k + 1]);
    }
    assert(is_path(rs, false, prefix));
    assert(edge(rs, false, path[n - 2], path[n - 1]));
    path[n - 2]
}

/// No id stands twice in the snapshot, whatever the parent data.
pub proof fn lemma_snapshot_no_repeats(rs: Seq<NodeRecord>, scope: Option<NodeId>, snap: HierarchySnapshot)
    requires
        snapshot_of(rs, scope, snap),
    ensures
        snap.no_repeats(),
        in_label_order(rs, snap.roots@),
        forall|p: NodeId| #[trigger] snap.kids(p).is_some() ==> in_label_order(rs, snap.kids(p).unwrap()),
{
    match scope {
        None => lemma_group_shape(rs, snap.roots@, None, None),
        Some(s) => {},
    }
    assert forall|p: NodeId| #[trigger] snap.kids(p).is_some() implies in_label_order(rs, snap.kids(p).unwrap())
        && snap.kids(p).unwrap().no_duplicates() by {
        lemma_group_shape(rs, snap.kids(p).unwrap(), Some(p), scope);
    }
    assert forall|p: NodeId, x: NodeId| snap.roots@.contains(x) implies !#[trigger] snap.holds_child(p, x) by {
        if snap.holds_child(p, x) {
            lemma_kid(rs, scope, snap, p, x);
            if scope.is_none() {
                let i = choose|i: int| #[trigger] member_at(rs, i, x, None);
                lemma_counted_unique(rs, i, index_of(rs, x), false);
            } else {
                assert(snap.roots@[0] == scope.unwrap());
            }
        }
    }
    assert forall|p: NodeId, q: NodeId, x: NodeId|
        #[trigger] snap.holds_child(p, x) && #[trigger] snap.holds_child(q, x) implies p == q by {
        lemma_kid(rs, scope, snap, p, x);
        lemma_kid(rs, scope, snap, q, x);
    }
}

/// Walking the parent data back from a node on a cycle of the children lists
/// stays on that cycle.
proof fn lemma_back_on_cycle(
    rs: Seq<NodeRecord>,
    scope: Option<NodeId>,
    snap: HierarchySnapshot,
    cycle: Seq<NodeId>,
    q: Seq<NodeId>,
    m: int,
    i: int,
)
    requires
        snapshot_of(rs, scope, snap),
        snap.is_kids_path(cycle),
        cycle.len() >= 2,
        cycle[0] == cycle.last(),
        is_path(rs, false, q),
        0 <= m < q.len(),
        1 <= i < cycle.len(),
        q[m] == cycle[i],
    ensures
        exists|j: int| 1 <= j < cycle.len() && q[0] == #[trigger] cycle[j],
    decreases m,
{
    if m == 0 {
        assert(q[0] == cycle[i]);
    } else {
        assert(edge(rs, false, q[m - 1], q[m]));
        let e = choose|e: int| #[trigger] child_at(rs, e, false, q[m - 1]) && rs[e].id == q[m];
        assert(snap.holds_child(cycle[i - 1], cycle[i]));
        lemma_kid(rs, scope, snap, cycle[i - 1], cycle[i]);
        lemma_counted_unique(rs, e, index_of(rs, cycle[i]), false);
        if i - 1 >= 1 {
            lemma_back_on_cycle(rs, scope, snap, cycle, q, m - 1, i - 1);
        } else {
            lemma_back_on_cycle(rs, scope, snap, cycle, q, m - 1, cycle.len() - 1);
        }
    }
}

/// No path through the children lists returns to where it started, whatever
/// the parent data: a node is never its own ancestor in the snapshot.
pub proof fn lemma_snapshot_acyclic(rs: Seq<NodeRecord>, scope: Option<NodeId>, snap: HierarchySnapshot)
    requires
        snapshot_of(rs, scope, snap),
    ensures
        snap.acyclic(),
{
    assert forall|cycle: Seq<NodeId>| #[trigger] snap.is_kids_path(cycle) && cycle.len() >= 2
        implies cycle[0] != cycle.last() by {
        if cycle[0] == cycle.last() {
            let n = cycle.len() as int;
            assert(snap.holds_child(cycle[0], cycle[1]));
            lemma_kid(rs, scope, snap, cycle[0], cycle[1]);
            match scope {
                Some(s) => {
                    let q = choose|q: Seq<NodeId>| #[trigger] is_path(rs, false, q) && q[0] == s && q.last() == cycle[0];
                    lemma_back_on_cycle(rs, scope, snap, cycle, q, q.len() - 1, n - 1);
                    let j = choose|j: int| 1 <= j < cycle.len() && q[0] == #[trigger] cycle[j];
                    assert(snap.holds_child(cycle[j - 1], cycle[j]));
                    lemma_kid(rs, scope, snap, cycle[j - 1], cycle[j]);
                },
                None => {
                    // The cycle read from `cycle[1]` round to itself is a
                    // cycle of the parent data, so `cycle[1]` is not kept.
                    let round = cycle.subrange(1, n).push(cycle[1]);
                    assert forall|k: int| 0 <= k < round.len() - 1 implies edge(
                        rs,
                        false,
                        #[trigger] round[k],
                        round[k + 1],
                    ) by {
                        let (a, b) = if k < n - 2 {
                            (cycle[k + 1], cycle[k + 2])
                        } else {
                            (cycle[0], cycle[1])
                        };
                        assert(round[k] == a && round[k + 1] == b);
                        if k < n - 2 {
                            assert(snap.holds_child(cycle[k + 1], cycle[k + 2]));
                        }
                        assert(snap.holds_child(a, b));
                        lemma_kid(rs, scope, snap, a, b);
                        assert(child_at(rs, index_of(rs, b), false, a));
                    }
                    assert(is_path(rs, false, round));
                    assert(round[0] == cycle[1] && round.last() == cycle[1]);
                    assert(strictly_under(rs, false, cycle[1], cycle[1]));
                },
            }
        }
    }
}

/// Shape of a snapshot, for every input. The roots and each children list are
/// in label order and no id stands twice. Every object the snapshot is meant
/// to show stands exactly once: with a scope, the scope root and every
/// object under it; without one, every object that takes part and lies on no
/// cycle of the parent data.
pub proof fn lemma_snapshot_shape(rs: Seq<NodeRecord>, scope: Option<NodeId>, snap: HierarchySnapshot)
    requires
        snapshot_of(rs, scope, snap),
    ensures
        in_label_order(rs, snap.roots@),
        forall|p: NodeId| #[trigger] snap.kids(p).is_some() ==> in_label_order(rs, snap.kids(p).unwrap()),
        snap.no_repeats(),
        scope.is_none() ==> forall|x: NodeId|
            is_listed(rs, x) && !strictly_under(rs, false, x, x) ==> #[trigger] listed_once(snap, x),
        scope.is_some() ==> forall|x: NodeId|
            reaches(rs, false, scope.unwrap(), x) ==> #[trigger] listed_once(snap, x),
{
    lemma_snapshot_no_repeats(rs, scope, snap);
    match scope {
        None => {
            assert forall|x: NodeId| is_listed(rs, x) && !strictly_under(rs, false, x, x) implies #[trigger] listed_once(snap, x) by {
                let i = index_of(rs, x);
                match rs[i].parent {
                    None => {
                        assert(member_at(rs, i, x, None));
                        assert(snap.roots@.contains(x));
                    },
                    Some(p) => {
                        assert(member_at(rs, i, x, Some(p)));
                        assert(child_at(rs, i, false, p));
                        assert(has_kept_kids(rs, scope, p));
                        assert(snap.kids(p).is_some());
                        assert(snap.holds_child(p, x));
                        if snap.roots@.contains(x) {
                            let k = choose|k: int| #[trigger] member_at(rs, k, x, None);
                            lemma_counted_unique(rs, i, k, false);
                        }
                    },
                }
            }
        },
        Some(s) => {
            assert forall|x: NodeId| reaches(rs, false, s, x) implies #[trigger] listed_once(snap, x) by {
                if x == s {
                    assert(snap.roots@[0] == x);
                    assert(snap.roots@.contains(x));
                } else {
                    let p = lemma_last_step(rs, s, x);
                    let i = choose|i: int| #[trigger] child_at(rs, i, false, p) && rs[i].id == x;
                    assert(member_at(rs, i, x, Some(p)));
                    assert(in_scope(rs, scope, p));
                    assert(has_kept_kids(rs, scope, p));
                    assert(snap.kids(p).is_some());
                    assert(snap.holds_child(p, x));
                    if snap.roots@.contains(x) {
                        assert(snap.roots@[0] == x);
                    }
                }
            }
        },
    }
}

/// Two lists that hold the same ids, each strictly in label-then-place order,
/// are the same list.
proof fn lemma_ordered_unique(rs: Seq<NodeRecord>, l1: Seq<NodeId>, l2: Seq<NodeId>)
    requires
        forall|x: NodeId| l1.contains(x) <==> l2.contains(x),
        forall|a: int, b: int| 0 <= a < b < l1.len() ==> id_before(rs, #[trigger] l1[a], #[trigger] l1[b]),
        forall|a: int, b: int| 0 <= a < b < l2.len() ==> id_before(rs, #[trigger] l2[a], #[trigger] l2[b]),
    ensures
        l1 == l2,
    decreases l1.len(),
{
    let ls = record_labels(rs);
    if l1.len() == 0 {
        if l2.len() > 0 {
            assert(l2.contains(l2[0]));
        }
        assert(l1 =~= l2);
    } else {
        assert(l1.contains(l1[0]));
        assert(l2.len() > 0);
        assert(l2.contains(l2[0]));
        let m = choose|m: int| 0 <= m < l2.len() && l2[m] == l1[0];
        let k = choose|k: int| 0 <= k < l1.len() && l1[k] == l2[0];
        if m > 0 {
            assert(id_before(rs, l2[0], l2[m]));
            if k > 0 {
                assert(id_before(rs, l1[0], l1[k]));
                lemma_ranks_before_transitive(ls, index_of(rs, l1[0]), index_of(rs, l2[0]), index_of(rs, l1[0]));
            }
            lemma_ranks_before_irreflexive(ls, index_of(rs, l1[0]));
        }
        assert(l1[0] == l2[0]);
        let (t1, t2) = (l1.drop_first(), l2.drop_first());
        assert forall|x: NodeId| t1.contains(x) <==> t2.contains(x) by {
            if t1.contains(x) {
                let a = choose|a: int| 0 <= a < t1.len() && t1[a] == x;
                assert(l1[a + 1] == x);
                assert(id_before(rs, l1[0], l1[a + 1]));
                lemma_ranks_before_irreflexive(ls, index_of(rs, x));
                assert(l2.contains(x));
                let b = choose|b: int| 0 <= b < l2.len() && l2[b] == x;
                assert(b != 0);
                assert(t2[b - 1] == x);
            }
            if t2.contains(x) {
                let b = choose|b: int| 0 <= b < t2.len() && t2[b] == x;
                assert(l2[b + 1] == x);
                assert(id_before(rs, l2[0], l2[b + 1]));
                lemma_ranks_before_irreflexive(ls, index_of(rs, x));
                assert(l1.contains(x));
                let a = choose|a: int| 0 <= a < l1.len() && l1[a] == x;
                assert(a != 0);
                assert(t1[a - 1] == x);
            }
        }
        assert forall|a: int, b: int| 0 <= a < b < t1.len() implies id_before(rs, #[trigger] t1[a], #[trigger] t1[b]) by {
            assert(t1[a] == l1[a + 1] && t1[b] == l1[b + 1]);
        }
        assert forall|a: int, b: int| 0 <= a < b < t2.len() implies id_before(rs, #[trigger] t2[a], #[trigger] t2[b]) by {
            assert(t2[a] == l2[a + 1] && t2[b] == l2[b + 1]);
        }
        lemma_ordered_unique(rs, t1, t2);
        assert(l1 =~= seq![l1[0]] + t1);
        assert(l2 =~= seq![l2[0]] + t2);
    }
}

/// Rebuilding: two snapshots of the same records under the same scope have the
/// same roots, the same children lists and the same labels.
pub proof fn lemma_snapshot_deterministic(
    rs: Seq<NodeRecord>,
    scope: Option<NodeId>,
    a: HierarchySnapshot,
    b: HierarchySnapshot,
)
    requires
        snapshot_of(rs, scope, a),
        snapshot_of(rs, scope, b),
    ensures
        a.roots@ == b.roots@,
        forall|p: NodeId| #[trigger] a.kids(p) == b.kids(p),
        forall|x: NodeId| #[trigger] a.label(x) == b.label(x),
{
    if scope.is_none() {
        lemma_ordered_unique(rs, a.roots@, b.roots@);
    }
    assert forall|p: NodeId| #[trigger] a.kids(p) == b.kids(p) by {
        if a.kids(p).is_some() {
            assert(b.kids(p).is_some());
            lemma_ordered_unique(rs, a.kids(p).unwrap(), b.kids(p).unwrap());
        } else {
            assert(b.kids(p).is_none());
        }
    }
    assert forall|x: NodeId| #[trigger] a.label(x) == b.label(x) by {
        assert(a.label(x) == b.label(x));
    }
}

} // verus!
