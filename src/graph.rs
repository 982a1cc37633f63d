use vstd::prelude::*;
use vstd::set_lib::lemma_len_subset;
use vstd::seq_lib::seq_to_set_is_finite;
use crate::node::{NodeId, NodeRecord};

verus! {

/// Record `i` takes part in the hierarchy: it passes the visibility filter
/// (hidden records pass only when `with_hidden`), and no earlier record that
/// passes it carries the same id. A repeated id is thus read once, at its
/// first appearance.
pub open spec fn counted(rs: Seq<NodeRecord>, i: int, with_hidden: bool) -> bool {
    &&& 0 <= i < rs.len()
    &&& with_hidden || !rs[i].hidden
    &&& forall|j: int|
        0 <= j < i && (with_hidden || !(#[trigger] rs[j]).hidden) ==> rs[j].id != rs[i].id
}

/// Record `i` takes part and names `p` as its parent.
pub open spec fn child_at(rs: Seq<NodeRecord>, i: int, with_hidden: bool, p: NodeId) -> bool {
    counted(rs, i, with_hidden) && rs[i].parent == Some(p)
}

/// `c` is a child of `p` in the parent data.
pub open spec fn edge(rs: Seq<NodeRecord>, with_hidden: bool, p: NodeId, c: NodeId) -> bool {
    exists|i: int| #[trigger] child_at(rs, i, with_hidden, p) && rs[i].id == c
}

/// `path` goes from parent to child at each step.
pub open spec fn is_path(rs: Seq<NodeRecord>, with_hidden: bool, path: Seq<NodeId>) -> bool {
    &&& path.len() >= 1
    &&& forall|k: int|
        0 <= k < path.len() - 1 ==> edge(rs, with_hidden, #[trigger] path[k], path[k + 1])
}

/// `b` is `a` or one of its descendants.
pub open spec fn reaches(rs: Seq<NodeRecord>, with_hidden: bool, a: NodeId, b: NodeId) -> bool {
    exists|path: Seq<NodeId>|
        #[trigger] is_path(rs, with_hidden, path) && path[0] == a && path.last() == b
}

/// Two records that take part carry different ids.
pub proof fn lemma_counted_unique(rs: Seq<NodeRecord>, i: int, j: int, with_hidden: bool)
    requires
        counted(rs, i, with_hidden),
        counted(rs, j, with_hidden),
        rs[i].id == rs[j].id,
    ensures
        i == j,
{
    if i < j {
        assert(rs[i].id != rs[j].id);
    } else if j < i {
        assert(rs[j].id != rs[i].id);
    }
}

proof fn lemma_reaches_self(rs: Seq<NodeRecord>, with_hidden: bool, a: NodeId)
    ensures
        reaches(rs, with_hidden, a, a),
{
    let path = seq![a];
    assert(is_path(rs, with_hidden, path));
}

proof fn lemma_reaches_step(rs: Seq<NodeRecord>, with_hidden: bool, a: NodeId, b: NodeId, c: NodeId)
    requires
        reaches(rs, with_hidden, a, b),
        edge(rs, with_hidden, b, c),
    ensures
        reaches(rs, with_hidden, a, c),
{
    let path = choose|path: Seq<NodeId>|
        #[trigger] is_path(rs, with_hidden, path) && path[0] == a && path.last() == b;
    let longer = path.push(c);
    assert forall|k: int| 0 <= k < longer.len() - 1 implies edge(
        rs,
        with_hidden,
        #[trigger] longer[k],
        longer[k + 1],
    ) by {
        if k < path.len() - 1 {
            assert(longer[k] == path[k] && longer[k + 1] == path[k + 1]);
        }
    }
    assert(is_path(rs, with_hidden, longer));
}

/// A set that holds `path[0]` and the children of each of its members holds
/// `path[k]`.
proof fn lemma_closed_holds_path(
    rs: Seq<NodeRecord>,
    with_hidden: bool,
    s: Seq<NodeId>,
    path: Seq<NodeId>,
    k: int,
)
    requires
        is_path(rs, with_hidden, path),
        0 <= k < path.len(),
        s.contains(path[0]),
        forall|x: NodeId, c: NodeId| s.contains(x) && #[trigger] edge(rs, with_hidden, x, c) ==> s.contains(c),
    ensures
        s.contains(path[k]),
    decreases k,
{
    if k > 0 {
        lemma_closed_holds_path(rs, with_hidden, s, path, k - 1);
        assert(edge(rs, with_hidden, path[k - 1], path[k]));
    }
}

/// A set that holds `a` and the children of each of its members holds every
/// descendant of `a`.
proof fn lemma_closed_holds_reachable(
    rs: Seq<NodeRecord>,
    with_hidden: bool,
    s: Seq<NodeId>,
    a: NodeId,
    b: NodeId,
)
    requires
        s.contains(a),
        forall|x: NodeId, c: NodeId| s.contains(x) && #[trigger] edge(rs, with_hidden, x, c) ==> s.contains(c),
        reaches(rs, with_hidden, a, b),
    ensures
        s.contains(b),
{
    let path = choose|path: Seq<NodeId>|
        #[trigger] is_path(rs, with_hidden, path) && path[0] == a && path.last() == b;
    lemma_closed_holds_path(rs, with_hidden, s, path, path.len() - 1);
}

/// For each record, whether it takes part in the hierarchy.
pub fn counted_flags(rs: &Vec<NodeRecord>, with_hidden: bool) -> (r: Vec<bool>)
    ensures
        r.len() == rs.len(),
        forall|i: int| 0 <= i < rs.len() ==> r[i] == counted(rs@, i, with_hidden),
{
    let mut r: Vec<bool> = Vec::new();
    let mut i: usize = 0;
    while i < rs.len()
        invariant
            i <= rs.len(),
            r.len() == i,
            forall|k: int| 0 <= k < i ==> r[k] == counted(rs@, k, with_hidden),
        decreases rs.len() - i,
    {
        let mut ok = with_hidden || !rs[i].hidden;
        let mut j: usize = 0;
        while j < i && ok
            invariant
                j <= i < rs.len(),
                ok ==> (with_hidden || !rs@[i as int].hidden),
                ok ==> forall|m: int|
                    0 <= m < j && (with_hidden || !(#[trigger] rs@[m]).hidden) ==> rs@[m].id != rs@[i as int].id,
                !ok ==> !counted(rs@, i as int, with_hidden),
            decreases i - j,
        {
            if (with_hidden || !rs[j].hidden) && rs[j].id == rs[i].id {
                ok = false;
            }
            j = j + 1;
        }
        r.push(ok);
        i = i + 1;
    }
    r
}

/// Whether `v` holds `x`.
pub fn contains_id(v: &Vec<NodeId>, x: NodeId) -> (r: bool)
    ensures
        r == v@.contains(x),
{
    let mut i: usize = 0;
    while i < v.len()
        invariant
            i <= v.len(),
            forall|k: int| 0 <= k < i ==> v@[k] != x,
        decreases v.len() - i,
    {
        if v[i] == x {
            return true;
        }
        i = i + 1;
    }
    false
}

/// `x` is one of `starts` or lies under one of them.
pub open spec fn from_starts(rs: Seq<NodeRecord>, with_hidden: bool, starts: Seq<NodeId>, x: NodeId) -> bool {
    exists|y: NodeId| starts.contains(y) && #[trigger] reaches(rs, with_hidden, y, x)
}

/// The ids that a record can carry, and the starts.
spec fn id_universe(rs: Seq<NodeRecord>, starts: Seq<NodeId>) -> Seq<NodeId> {
    starts + rs.map_values(|r: NodeRecord| r.id)
}

/// Appending a node not yet met keeps the list free of repeats and within
/// the ids that can occur.
proof fn lemma_push_fresh(s: Seq<NodeId>, c: NodeId, u: Seq<NodeId>)
    requires
        s.no_duplicates(),
        !s.contains(c),
        forall|x: NodeId| s.contains(x) ==> u.contains(x),
        u.contains(c),
    ensures
        s.push(c).no_duplicates(),
        forall|x: NodeId| s.push(c).contains(x) <==> (s.contains(x) || x == c),
        forall|x: NodeId| s.push(c).contains(x) ==> u.contains(x),
        s.push(c).len() <= u.len(),
{
    let t = s.push(c);
    assert forall|x: NodeId| t.contains(x) <==> (s.contains(x) || x == c) by {
        if t.contains(x) {
            let k = choose|k: int| 0 <= k < t.len() && t[k] == x;
            if k < s.len() {
                assert(s[k] == x);
            }
        }
        if s.contains(x) {
            let k = choose|k: int| 0 <= k < s.len() && s[k] == x;
            assert(t[k] == x);
        }
        if x == c {
            assert(t[t.len() - 1] == c);
        }
    }
    assert forall|a: int, b: int| 0 <= a < b < t.len() implies t[a] != t[b] by {
        if b == t.len() - 1 {
            assert(s.contains(t[a]));
        } else {
            assert(s[a] == t[a] && s[b] == t[b]);
        }
    }
    assert(t.to_set().subset_of(u.to_set()));
    seq_to_set_is_finite(u);
    lemma_len_subset(t.to_set(), u.to_set());
    t.unique_seq_to_set();
    u.lemma_cardinality_of_set();
}

/// The starts and all of their descendants, each once. A walk that keeps the
/// nodes already met, so that cycles in the parent data end it.
pub fn descendants_of(rs: &Vec<NodeRecord>, with_hidden: bool, starts: &Vec<NodeId>) -> (r: Vec<NodeId>)
    ensures
        r@.no_duplicates(),
        forall|x: NodeId| r@.contains(x) <==> from_starts(rs@, with_hidden, starts@, x),
{
    let flags = counted_flags(rs, with_hidden);
    let ghost u = id_universe(rs@, starts@);
    let mut seen: Vec<NodeId> = Vec::new();
    let mut k: usize = 0;
    while k < starts.len()
        invariant
            u == id_universe(rs@, starts@),
            k <= starts.len(),
            seen@.no_duplicates(),
            seen.len() <= u.len(),
            forall|x: NodeId| seen@.contains(x) ==> u.contains(x),
            forall|x: NodeId| seen@.contains(x) ==> from_starts(rs@, with_hidden, starts@, x),
            forall|j: int| 0 <= j < k ==> seen@.contains(#[trigger] starts@[j]),
        decreases starts.len() - k,
    {
        let y = starts[k];
        if !contains_id(&seen, y) {
            proof {
                assert(u[k as int] == y);
                assert(starts@.contains(y));
                lemma_reaches_self(rs@, with_hidden, y);
                lemma_push_fresh(seen@, y, u);
                assert forall|x: NodeId| seen@.push(y).contains(x) implies from_starts(
                    rs@,
                    with_hidden,
                    starts@,
                    x,
                ) by {
                    if x == y {
                        assert(starts@.contains(y) && reaches(rs@, with_hidden, y, y));
                    } else {
                        assert(seen@.contains(x));
                    }
                }
            }
            seen.push(y);
        }
        k = k + 1;
    }
    let mut next: usize = 0;
    while next < seen.len()
        invariant
            flags.len() == rs.len(),
            forall|i: int| 0 <= i < rs.len() ==> flags[i] == counted(rs@, i, with_hidden),
            u == id_universe(rs@, starts@),
            seen@.no_duplicates(),
            forall|j: int| 0 <= j < starts.len() ==> seen@.contains(#[trigger] starts@[j]),
            next <= seen.len() <= u.len(),
            forall|x: NodeId| seen@.contains(x) ==> u.contains(x),
            forall|x: NodeId| seen@.contains(x) ==> from_starts(rs@, with_hidden, starts@, x),
            forall|k: int, i: int|
                0 <= k < next && #[trigger] child_at(rs@, i, with_hidden, seen@[k])
                    ==> seen@.contains(rs@[i].id),
        decreases u.len() - next,
    {
        let cur = seen[next];
        let mut i: usize = 0;
        while i < rs.len()
            invariant
                flags.len() == rs.len(),
                forall|i: int| 0 <= i < rs.len() ==> flags[i] == counted(rs@, i, with_hidden),
                u == id_universe(rs@, starts@),
                seen@.no_duplicates(),
                forall|j: int| 0 <= j < starts.len() ==> seen@.contains(#[trigger] starts@[j]),
                next < seen.len() <= u.len(),
                cur == seen@[next as int],
                i <= rs.len(),
                forall|x: NodeId| seen@.contains(x) ==> u.contains(x),
                forall|x: NodeId| seen@.contains(x) ==> from_starts(rs@, with_hidden, starts@, x),
                forall|k: int, j: int|
                    0 <= k < next && #[trigger] child_at(rs@, j, with_hidden, seen@[k])
                        ==> seen@.contains(rs@[j].id),
                forall|j: int|
                    0 <= j < i && #[trigger] child_at(rs@, j, with_hidden, cur)
                        ==> seen@.contains(rs@[j].id),
            decreases rs.len() - i,
        {
            if flags[i] && rs[i].parent == Some(cur) {
                let c = rs[i].id;
                if !contains_id(&seen, c) {
                    proof {
                        assert(seen@[next as int] == cur);
                        assert(seen@.contains(cur));
                        assert(child_at(rs@, i as int, with_hidden, cur));
                        assert(edge(rs@, with_hidden, cur, c));
                        let y = choose|y: NodeId| starts@.contains(y) && #[trigger] reaches(rs@, with_hidden, y, cur);
                        lemma_reaches_step(rs@, with_hidden, y, cur, c);
                        assert(u[starts.len() + i] == c);
                        lemma_push_fresh(seen@, c, u);
                        assert forall|x: NodeId| seen@.push(c).contains(x) implies from_starts(
                            rs@,
                            with_hidden,
                            starts@,
                            x,
                        ) by {
                            if x == c {
                                assert(starts@.contains(y) && reaches(rs@, with_hidden, y, c));
                            } else {
                                assert(seen@.contains(x));
                            }
                        }
                    }
                    seen.push(c);
                }
            }
            i = i + 1;
        }
        next = next + 1;
    }
    proof {
        assert forall|x: NodeId, c: NodeId| seen@.contains(x) && #[trigger] edge(rs@, with_hidden, x, c)
            implies seen@.contains(c) by {
            let k = choose|k: int| 0 <= k < seen@.len() && seen@[k] == x;
            let i = choose|i: int| #[trigger] child_at(rs@, i, with_hidden, x) && rs@[i].id == c;
            assert(child_at(rs@, i, with_hidden, seen@[k]));
        }
        assert forall|x: NodeId| from_starts(rs@, with_hidden, starts@, x) implies seen@.contains(x) by {
            let y = choose|y: NodeId| starts@.contains(y) && #[trigger] reaches(rs@, with_hidden, y, x);
            let j = choose|j: int| 0 <= j < starts@.len() && starts@[j] == y;
            assert(seen@.contains(starts@[j]));
            lemma_closed_holds_reachable(rs@, with_hidden, seen@, y, x);
        }
    }
    seen
}

/// `root` and all of its descendants, each once.
pub fn descendants_or_self(rs: &Vec<NodeRecord>, with_hidden: bool, root: NodeId) -> (r: Vec<NodeId>)
    ensures
        r@.no_duplicates(),
        forall|x: NodeId| r@.contains(x) <==> reaches(rs@, with_hidden, root, x),
{
    let mut starts: Vec<NodeId> = Vec::new();
    starts.push(root);
    let r = descendants_of(rs, with_hidden, &starts);
    proof {
        assert(starts@[0] == root);
        assert(starts@.contains(root));
        assert forall|x: NodeId| r@.contains(x) <==> reaches(rs@, with_hidden, root, x) by {
            if r@.contains(x) {
                let y = choose|y: NodeId| starts@.contains(y) && #[trigger] reaches(rs@, with_hidden, y, x);
                let j = choose|j: int| 0 <= j < starts@.len() && starts@[j] == y;
            }
        }
    }
    r
}

} // verus!
