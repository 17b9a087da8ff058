//! A directed multigraph over opaque identifiers.
//!
//! The store keeps the set of vertices in first-insertion order and, for
//! each vertex, the ordered sequence of its outgoing neighbors.  Parallel
//! edges are kept: inserting the same (source, target) pair twice records
//! two edges.

use vstd::prelude::*;
use vstd::std_specs::cmp::PartialEqSpec;

verus! {

/// Equality on `Id` decides logical equality: the executable `==` returns
/// `true` exactly on equal values.  This holds of plain identifier types
/// such as the fixed-size integers, whose equality is by value.
pub open spec fn value_eq<Id: PartialEq>() -> bool {
    &&& Id::obeys_eq_spec()
    &&& forall|a: Id, b: Id| #[trigger] a.eq_spec(&b) <==> a == b
}

/// The vertex list after one edge insertion: the source is appended if it
/// is new, then the target is appended if it is still new.
pub open spec fn verts_after<Id>(vs: Seq<Id>, source: Id, target: Id) -> Seq<Id> {
    let with_source = if vs.contains(source) {
        vs
    } else {
        vs.push(source)
    };
    if with_source.contains(target) {
        with_source
    } else {
        with_source.push(target)
    }
}

/// In a duplicate-free sequence, `index_of` names the one position of a
/// contained element.
proof fn lemma_index_of_unique<Id>(vs: Seq<Id>, v: Id)
    requires
        vs.no_duplicates(),
        vs.contains(v),
    ensures
        0 <= vs.index_of(v) < vs.len(),
        vs[vs.index_of(v)] == v,
        forall|j: int| 0 <= j < vs.len() && vs[j] == v ==> j == vs.index_of(v),
{
    let i = vs.index_of(v);
    assert(0 <= i < vs.len() && vs[i] == v);
}

/// Appending a fresh element keeps the sequence duplicate-free and leaves
/// the position of every present element unchanged.
proof fn lemma_push_keeps_index<Id>(vs: Seq<Id>, x: Id)
    requires
        vs.no_duplicates(),
        !vs.contains(x),
    ensures
        vs.push(x).no_duplicates(),
        vs.push(x).index_of(x) == vs.len(),
        forall|v: Id| #[trigger] vs.push(x).contains(v) <==> vs.contains(v) || v == x,
        forall|v: Id|
            vs.contains(v) ==> #[trigger] vs.push(x).index_of(v) == vs.index_of(v),
{
    let ps = vs.push(x);
    assert forall|i: int, j: int|
        0 <= i < ps.len() && 0 <= j < ps.len() && i != j implies ps[i] != ps[j] by {
        if i < vs.len() && j < vs.len() {
        } else if i == vs.len() {
            assert(ps[j] == vs[j]);
            assert(vs.contains(vs[j]));
        } else {
            assert(ps[i] == vs[i]);
            assert(vs.contains(vs[i]));
        }
    }
    assert forall|v: Id| #[trigger] ps.contains(v) implies vs.contains(v) || v == x by {
        let k = choose|k: int| 0 <= k < ps.len() && ps[k] == v;
        if k < vs.len() {
            assert(vs[k] == v);
            assert(vs.contains(v));
        }
    }
    assert forall|v: Id| vs.contains(v) || v == x implies ps.contains(v) by {
        if vs.contains(v) {
            let i = vs.index_of(v);
            assert(0 <= i < vs.len() && vs[i] == v);
            assert(ps[i] == v);
        } else {
            assert(ps[vs.len() as int] == v);
        }
    }
    assert(ps[vs.len() as int] == x);
    lemma_index_of_unique(ps, x);
    assert forall|v: Id| vs.contains(v) implies #[trigger] ps.index_of(v) == vs.index_of(v) by {
        lemma_index_of_unique(vs, v);
        let i = vs.index_of(v);
        assert(ps[i] == v);
        lemma_index_of_unique(ps, v);
    }
}

/// The vertex list after a whole history of edge insertions, oldest
/// call first, starting from the vertex list `vs`.
pub open spec fn verts_after_calls<Id>(vs: Seq<Id>, calls: Seq<(Id, Id)>) -> Seq<Id>
    decreases calls.len(),
{
    if calls.len() == 0 {
        vs
    } else {
        verts_after(verts_after_calls(vs, calls.drop_last()), calls.last().0, calls.last().1)
    }
}

/// The outgoing neighbors of `v` after a history of edge insertions,
/// starting from the neighbor list `n0`.
pub open spec fn nbrs_after_calls<Id>(n0: Seq<Id>, calls: Seq<(Id, Id)>, v: Id) -> Seq<Id>
    decreases calls.len(),
{
    if calls.len() == 0 {
        n0
    } else {
        let prev = nbrs_after_calls(n0, calls.drop_last(), v);
        if calls.last().0 == v {
            prev.push(calls.last().1)
        } else {
            prev
        }
    }
}

/// The identifiers that appear in a history of edge insertions, as a
/// source or as a target.
pub open spec fn endpoints<Id>(calls: Seq<(Id, Id)>) -> Set<Id> {
    Set::new(|x: Id| exists|k: int| 0 <= k < calls.len() && (calls[k].0 == x || calls[k].1 == x))
}

/// The number of calls in a history whose source is `v`.
pub open spec fn count_from<Id>(calls: Seq<(Id, Id)>, v: Id) -> nat
    decreases calls.len(),
{
    if calls.len() == 0 {
        0
    } else {
        count_from(calls.drop_last(), v) + if calls.last().0 == v {
            1nat
        } else {
            0nat
        }
    }
}

/// One insertion only appends to the vertex list: what was there stays,
/// at its position, and nothing is added twice.
proof fn lemma_verts_after_extends<Id>(vs: Seq<Id>, s: Id, t: Id)
    requires
        vs.no_duplicates(),
    ensures
        verts_after(vs, s, t).no_duplicates(),
        verts_after(vs, s, t).len() >= vs.len(),
        forall|i: int| 0 <= i < vs.len() ==> #[trigger] verts_after(vs, s, t)[i] == vs[i],
        verts_after(vs, s, t).to_set() =~= vs.to_set().insert(s).insert(t),
{
    let vs1 = if vs.contains(s) {
        vs
    } else {
        vs.push(s)
    };
    if !vs.contains(s) {
        lemma_push_keeps_index(vs, s);
    }
    assert(vs1.contains(s));
    if !vs1.contains(t) {
        lemma_push_keeps_index(vs1, t);
    }
    let out = verts_after(vs, s, t);
    assert(out.contains(s) && out.contains(t));
    assert forall|x: Id| out.to_set().contains(x) implies vs.to_set().insert(s).insert(
        t,
    ).contains(x) by {
        assert(out.contains(x));
        if x != s && x != t {
            let k = choose|k: int| 0 <= k < out.len() && out[k] == x;
            assert(k < vs.len());
            assert(vs.contains(x));
        }
    }
    assert forall|x: Id| vs.to_set().insert(s).insert(t).contains(x) implies out.to_set().contains(
        x,
    ) by {
        if vs.contains(x) {
            let k = choose|k: int| 0 <= k < vs.len() && vs[k] == x;
            assert(out[k] == x);
        }
        assert(out.contains(x));
    }
}

/// The vertex list built from a history is duplicate-free, keeps every
/// starting vertex at its position, and holds exactly the starting
/// vertices and the endpoints of the history.
proof fn lemma_verts_after_calls_props<Id>(vs: Seq<Id>, calls: Seq<(Id, Id)>)
    requires
        vs.no_duplicates(),
    ensures
        verts_after_calls(vs, calls).no_duplicates(),
        verts_after_calls(vs, calls).len() >= vs.len(),
        forall|i: int| 0 <= i < vs.len() ==> #[trigger] verts_after_calls(vs, calls)[i] == vs[i],
        verts_after_calls(vs, calls).to_set() =~= vs.to_set().union(endpoints(calls)),
    decreases calls.len(),
{
    if calls.len() == 0 {
        assert(verts_after_calls(vs, calls).to_set() =~= vs.to_set().union(endpoints(calls)));
    } else {
        let head = calls.drop_last();
        let s = calls.last().0;
        let t = calls.last().1;
        lemma_verts_after_calls_props(vs, head);
        let mid = verts_after_calls(vs, head);
        lemma_verts_after_extends(mid, s, t);
        assert forall|x: Id| endpoints(calls).contains(x) implies endpoints(head).contains(x) || x
            == s || x == t by {
            let k = choose|k: int|
                0 <= k < calls.len() && (calls[k].0 == x || calls[k].1 == x);
            if k < head.len() {
                assert(head[k] == calls[k]);
                assert(endpoints(head).contains(x));
            }
        }
        assert forall|x: Id| endpoints(head).contains(x) implies endpoints(calls).contains(x) by {
            let k = choose|k: int| 0 <= k < head.len() && (head[k].0 == x || head[k].1 == x);
            assert(calls[k] == head[k]);
        }
        assert(endpoints(calls).contains(s) && endpoints(calls).contains(t)) by {
            assert(calls[calls.len() - 1].0 == s && calls[calls.len() - 1].1 == t);
        }
        assert(verts_after_calls(vs, calls).to_set() =~= vs.to_set().union(endpoints(calls)));
    }
}

/// After any history of `insert_edge` calls on an initially empty store,
/// the number of vertices equals the number of distinct identifiers that
/// appeared as a source or a target of a call.
pub proof fn lemma_vertex_count<Id>(calls: Seq<(Id, Id)>)
    ensures
        verts_after_calls(Seq::<Id>::empty(), calls).no_duplicates(),
        verts_after_calls(Seq::<Id>::empty(), calls).to_set() == endpoints(calls),
        verts_after_calls(Seq::<Id>::empty(), calls).len() == endpoints(calls).len(),
{
    lemma_verts_after_calls_props(Seq::<Id>::empty(), calls);
    assert(verts_after_calls(Seq::<Id>::empty(), calls).to_set() =~= endpoints(calls));
    verts_after_calls(Seq::<Id>::empty(), calls).unique_seq_to_set();
}

/// After any history of `insert_edge` calls on an initially empty store,
/// the neighbor list of `v` has one entry for each call whose source was
/// `v`, duplicates counted.
pub proof fn lemma_neighbor_count<Id>(calls: Seq<(Id, Id)>, v: Id)
    ensures
        nbrs_after_calls(Seq::<Id>::empty(), calls, v).len() == count_from(calls, v),
    decreases calls.len(),
{
    if calls.len() > 0 {
        lemma_neighbor_count(calls.drop_last(), v);
    }
}

/// For any non-empty history on an initially empty store, the first
/// vertex is the first identifier inserted: the source of the first
/// call.
pub proof fn lemma_first_vertex<Id>(calls: Seq<(Id, Id)>)
    requires
        calls.len() > 0,
    ensures
        verts_after_calls(Seq::<Id>::empty(), calls).len() > 0,
        verts_after_calls(Seq::<Id>::empty(), calls)[0] == calls[0].0,
    decreases calls.len(),
{
    let empty = Seq::<Id>::empty();
    if calls.len() == 1 {
        let none = Seq::<(Id, Id)>::empty();
        assert(calls.drop_last() =~= none);
        assert(verts_after_calls(empty, none) == empty);
        assert(calls.last() == calls[0]);
        assert(verts_after_calls(empty, calls) == verts_after(empty, calls[0].0, calls[0].1));
        assert(!empty.contains(calls[0].0));
        assert(empty.push(calls[0].0)[0] == calls[0].0);
    } else {
        let head = calls.drop_last();
        lemma_first_vertex(head);
        assert(head[0] == calls[0]);
        let mid = verts_after_calls(empty, head);
        lemma_verts_after_calls_props(empty, head);
        lemma_verts_after_extends(mid, calls.last().0, calls.last().1);
        assert(verts_after_calls(empty, calls)[0] == mid[0]);
    }
}

/// Inserting the same edge twice lengthens the source's neighbor list by
/// two, not one: parallel edges are kept, insertion is not idempotent.
pub proof fn lemma_parallel_edges_counted<Id>(calls: Seq<(Id, Id)>, x: Id, y: Id)
    ensures
        nbrs_after_calls(Seq::<Id>::empty(), calls.push((x, y)).push((x, y)), x).len()
            == nbrs_after_calls(Seq::<Id>::empty(), calls, x).len() + 2,
{
    let empty = Seq::<Id>::empty();
    let once = calls.push((x, y));
    let twice = once.push((x, y));
    assert(twice.drop_last() =~= once);
    assert(once.drop_last() =~= calls);
    assert(twice.last() == (x, y) && once.last() == (x, y));
    assert(nbrs_after_calls(empty, twice, x) == nbrs_after_calls(empty, once, x).push(y));
    assert(nbrs_after_calls(empty, once, x) == nbrs_after_calls(empty, calls, x).push(y));
}

/// `g` is the store that a history of edge insertions yields, starting
/// from the empty store.
pub open spec fn built_from<Id: Copy + PartialEq>(g: GraphStore<Id>, calls: Seq<(Id, Id)>) -> bool {
    &&& g.verts_seq() == verts_after_calls(Seq::<Id>::empty(), calls)
    &&& forall|v: Id| #[trigger] g.adj_of(v) == nbrs_after_calls(Seq::<Id>::empty(), calls, v)
}

/// A store built from a history, then touched by one more insertion, is
/// the store built from the history extended by that insertion.
pub proof fn lemma_built_from_snoc<Id: Copy + PartialEq>(
    pre: GraphStore<Id>,
    post: GraphStore<Id>,
    calls: Seq<(Id, Id)>,
    s: Id,
    t: Id,
)
    requires
        built_from(pre, calls),
        post.verts_seq() == verts_after(pre.verts_seq(), s, t),
        post.adj_of(s) == pre.adj_of(s).push(t),
        forall|v: Id| v != s ==> post.adj_of(v) == pre.adj_of(v),
    ensures
        built_from(post, calls.push((s, t))),
{
    let empty = Seq::<Id>::empty();
    let cs = calls.push((s, t));
    assert(cs.drop_last() =~= calls);
    assert(cs.last() == (s, t));
    assert(verts_after_calls(empty, cs) == verts_after(verts_after_calls(empty, calls), s, t));
    assert forall|v: Id| #[trigger] post.adj_of(v) == nbrs_after_calls(empty, cs, v) by {
        assert(nbrs_after_calls(empty, cs, v) == (if s == v {
            nbrs_after_calls(empty, calls, v).push(t)
        } else {
            nbrs_after_calls(empty, calls, v)
        }));
        assert(pre.adj_of(v) == nbrs_after_calls(empty, calls, v));
    }
}

/// The counting laws, read off a store built from a history: the vertex
/// count is the number of distinct endpoints, each neighbor list is as
/// long as the number of insertions out of its vertex, and the first
/// vertex is the first call's source.
pub proof fn lemma_built_store_counts<Id: Copy + PartialEq>(
    g: GraphStore<Id>,
    calls: Seq<(Id, Id)>,
    v: Id,
)
    requires
        built_from(g, calls),
    ensures
        g.verts_seq().len() == endpoints(calls).len(),
        g.adj_of(v).len() == count_from(calls, v),
        calls.len() > 0 ==> g.verts_seq()[0] == calls[0].0,
{
    lemma_vertex_count::<Id>(calls);
    lemma_neighbor_count(calls, v);
    if calls.len() > 0 {
        lemma_first_vertex(calls);
    }
}

/// A duplicate-free sequence whose members all occur in another
/// duplicate-free sequence is no longer than it.
proof fn lemma_distinct_members_bound<Id>(sub: Seq<Id>, sup: Seq<Id>)
    requires
        sub.no_duplicates(),
        sup.no_duplicates(),
        forall|k: int| 0 <= k < sub.len() ==> sup.contains(#[trigger] sub[k]),
    ensures
        sub.len() <= sup.len(),
{
    broadcast use vstd::seq_lib::seq_to_set_is_finite;

    sub.unique_seq_to_set();
    sup.unique_seq_to_set();
    assert forall|x: Id| sub.to_set().contains(x) implies sup.to_set().contains(x) by {
        assert(sub.contains(x));
        let k = choose|k: int| 0 <= k < sub.len() && sub[k] == x;
        assert(sup.contains(sub[k]));
    }
    vstd::set_lib::lemma_len_subset(sub.to_set(), sup.to_set());
}

/// A directed multigraph over identifiers of type `Id`.
///
/// Vertices are the distinct identifiers that ever appeared as an endpoint
/// of an inserted edge, kept in first-insertion order (the source of an
/// edge is recorded before its target).
pub struct GraphStore<Id> {
    verts: Vec<Id>,
    adj: Vec<Vec<Id>>,
}

impl<Id: Copy + PartialEq> GraphStore<Id> {
    /// The vertices, in first-insertion order.
    pub closed spec fn verts_seq(&self) -> Seq<Id> {
        self.verts@
    }

    /// The outgoing neighbors of `v`, in insertion order, with parallel
    /// edges kept; empty if `v` is not a vertex.
    pub closed spec fn adj_of(&self, v: Id) -> Seq<Id> {
        if self.verts@.contains(v) {
            self.adj@[self.verts@.index_of(v)]@
        } else {
            Seq::empty()
        }
    }

    /// Internal consistency: the vertex list has no duplicates, every
    /// vertex has an adjacency row, and every recorded neighbor is itself
    /// a vertex.
    pub closed spec fn wf(&self) -> bool {
        &&& self.adj@.len() == self.verts@.len()
        &&& self.verts@.no_duplicates()
        &&& forall|i: int, j: int|
            0 <= i < self.adj@.len() && 0 <= j < self.adj@[i]@.len()
                ==> self.verts@.contains(#[trigger] self.adj@[i]@[j])
    }

    /// Both endpoints of every recorded edge are members of the vertex set.
    pub proof fn lemma_edge_endpoints_are_vertices(&self, v: Id, w: Id)
        requires
            self.wf(),
            self.adj_of(v).contains(w),
        ensures
            self.verts_seq().contains(v),
            self.verts_seq().contains(w),
    {
        assert(self.verts@.contains(v));
        let i = self.verts@.index_of(v);
        let j = choose|j: int| 0 <= j < self.adj@[i]@.len() && self.adj@[i]@[j] == w;
        assert(self.verts@.contains(self.adj@[i]@[j]));
    }

    /// Returns an empty store: no vertices, no edges.
    pub fn new() -> (g: GraphStore<Id>)
        ensures
            g.wf(),
            g.verts_seq() == Seq::<Id>::empty(),
            forall|v: Id| g.adj_of(v) == Seq::<Id>::empty(),
    {
        let g = GraphStore { verts: Vec::new(), adj: Vec::new() };
        proof {
            assert(forall|v: Id| !g.verts@.contains(v));
        }
        g
    }

    /// The position of `*id` in the vertex list, if it is a vertex.
    fn find_vertex(&self, id: &Id) -> (r: Option<usize>)
        requires
            value_eq::<Id>(),
        ensures
            match r {
                Some(i) => i < self.verts_seq().len() && self.verts_seq()[i as int] == *id,
                None => !self.verts_seq().contains(*id),
            },
    {
        let mut i: usize = 0;
        while i < self.verts.len()
            invariant
                i <= self.verts@.len(),
                value_eq::<Id>(),
                forall|k: int| 0 <= k < i ==> self.verts@[k] != *id,
            decreases self.verts@.len() - i,
        {
            if self.verts[i] == *id {
                return Some(i);
            }
            i = i + 1;
        }
        None
    }

    /// True exactly when `*id` is a member of the vertex set.
    pub fn contains_vertex(&self, id: &Id) -> (r: bool)
        requires
            value_eq::<Id>(),
        ensures
            r == self.verts_seq().contains(*id),
    {
        match self.find_vertex(id) {
            Some(i) => {
                proof {
                    assert(self.verts_seq()[i as int] == *id);
                }
                true
            },
            None => false,
        }
    }

    /// The number of distinct vertices (not the edge count).
    pub fn number_of_vertices(&self) -> (n: usize)
        ensures
            n == self.verts_seq().len(),
    {
        self.verts.len()
    }

    /// All vertices, in first-insertion order.
    pub fn vertices(&self) -> (r: &Vec<Id>)
        ensures
            r@ == self.verts_seq(),
    {
        &self.verts
    }

    /// The outgoing neighbors of `*id`, in insertion order and with
    /// parallel edges kept; empty if `*id` is not a vertex or has no
    /// outgoing edges.
    pub fn neighbors(&self, id: &Id) -> (r: Vec<Id>)
        requires
            self.wf(),
            value_eq::<Id>(),
        ensures
            r@ == self.adj_of(*id),
    {
        match self.find_vertex(id) {
            Some(i) => {
                proof {
                    assert(self.verts@.contains(*id));
                    lemma_index_of_unique(self.verts@, *id);
                    assert(self.verts@.index_of(*id) == i as int);
                }
                let mut out: Vec<Id> = Vec::new();
                let row = &self.adj[i];
                let ghost expected = self.adj@[i as int]@;
                let mut j: usize = 0;
                while j < row.len()
                    invariant
                        j <= row@.len(),
                        row@ == expected,
                        out@ == expected.take(j as int),
                    decreases row@.len() - j,
                {
                    out.push(row[j]);
                    proof {
                        assert(out@ =~= expected.take(j as int + 1));
                    }
                    j = j + 1;
                }
                proof {
                    assert(out@ =~= expected);
                }
                out
            },
            None => {
                Vec::new()
            },
        }
    }

    /// Records one directed edge from `source` to `target`.
    ///
    /// Endpoints that are not yet vertices are added, source first, then
    /// target; `target` is appended to the outgoing neighbors of
    /// `source`, so that repeating a call records a second, parallel
    /// edge.  Self-loops are permitted.
    pub fn insert_edge(&mut self, source: Id, target: Id)
        requires
            old(self).wf(),
            value_eq::<Id>(),
        ensures
            final(self).wf(),
            final(self).verts_seq() == verts_after(old(self).verts_seq(), source, target),
            final(self).adj_of(source) == old(self).adj_of(source).push(target),
            forall|v: Id| v != source ==> final(self).adj_of(v) == old(self).adj_of(v),
    {
        let ghost g0 = *self;
        let src_idx: usize = match self.find_vertex(&source) {
            Some(i) => i,
            None => {
                self.verts.push(source);
                self.adj.push(Vec::new());
                self.verts.len() - 1
            },
        };
        let ghost g1 = *self;
        proof {
            if g0.verts@.contains(source) {
                lemma_index_of_unique(g0.verts@, source);
            } else {
                lemma_push_keeps_index(g0.verts@, source);
            }
            assert(g1.wf());
            assert(0 <= src_idx < g1.verts@.len());
            assert(g1.verts@[src_idx as int] == source);
            lemma_index_of_unique(g1.verts@, source);
            assert(g1.verts@.index_of(source) == src_idx);
            assert forall|v: Id| true implies #[trigger] g1.adj_of(v) == g0.adj_of(v) by {
                if g0.verts@.contains(v) {
                    if !g0.verts@.contains(source) {
                        lemma_push_keeps_index(g0.verts@, source);
                    }
                    lemma_index_of_unique(g0.verts@, v);
                } else if g1.verts@.contains(v) {
                    assert(v == source && !g0.verts@.contains(source));
                    assert(g1.verts@.index_of(v) == src_idx);
                    assert(g1.adj@[src_idx as int]@ =~= Seq::<Id>::empty());
                }
            }
        }
        match self.find_vertex(&target) {
            Some(_) => {},
            None => {
                self.verts.push(target);
                self.adj.push(Vec::new());
            },
        }
        let ghost g2 = *self;
        proof {
            if !g1.verts@.contains(target) {
                lemma_push_keeps_index(g1.verts@, target);
            }
            assert(g2.wf());
            assert(g2.verts@[src_idx as int] == source);
            lemma_index_of_unique(g2.verts@, source);
            assert(g2.verts@.index_of(source) == src_idx);
            assert(g2.verts@.contains(target));
            assert(g2.verts@ == verts_after(g0.verts@, source, target));
            assert forall|v: Id| true implies #[trigger] g2.adj_of(v) == g1.adj_of(v) by {
                if g1.verts@.contains(v) {
                    lemma_index_of_unique(g1.verts@, v);
                } else if g2.verts@.contains(v) {
                    assert(v == target && !g1.verts@.contains(target));
                    assert(g2.verts@.index_of(v) == g1.verts@.len());
                    assert(g2.adj@[g1.verts@.len() as int]@ =~= Seq::<Id>::empty());
                }
            }
        }
        let mut row = self.adj.remove(src_idx);
        row.push(target);
        self.adj.insert(src_idx, row);
        proof {
            assert(self.verts@ == g2.verts@);
            assert(self.adj@ =~= g2.adj@.update(src_idx as int, row));
            assert(row@ == g2.adj@[src_idx as int]@.push(target));
            assert(self.wf()) by {
                assert forall|i: int, j: int|
                    0 <= i < self.adj@.len() && 0 <= j < self.adj@[i]@.len()
                        implies self.verts@.contains(#[trigger] self.adj@[i]@[j]) by {
                    if i == src_idx as int {
                        if j < g2.adj@[src_idx as int]@.len() {
                            assert(self.adj@[i]@[j] == g2.adj@[i]@[j]);
                        } else {
                            assert(self.adj@[i]@[j] == target);
                        }
                    }
                }
            }
            assert(self.adj_of(source) == g2.adj_of(source).push(target));
            assert forall|v: Id| v != source implies #[trigger] self.adj_of(v) == g2.adj_of(v) by {
                if g2.verts@.contains(v) {
                    lemma_index_of_unique(g2.verts@, v);
                    assert(g2.verts@.index_of(v) != src_idx as int);
                }
            }
            assert(g2.adj_of(source) == g0.adj_of(source));
        }
    }

    /// `p` is a directed walk of at least one edge: it starts at `a`,
    /// ends at `b`, and each step follows a recorded edge.
    pub open spec fn is_walk(&self, p: Seq<Id>, a: Id, b: Id) -> bool {
        &&& p.len() >= 2
        &&& p.first() == a
        &&& p.last() == b
        &&& forall|i: int|
            0 <= i < p.len() - 1 ==> self.adj_of(#[trigger] p[i]).contains(p[i + 1])
    }

    /// `b` can be reached from `a` by a directed walk of one or more
    /// edges.  A vertex does not reach itself unless it lies on a cycle.
    pub open spec fn reaches(&self, a: Id, b: Id) -> bool {
        exists|p: Seq<Id>| self.is_walk(p, a, b)
    }

    /// A single recorded edge is a walk.
    pub proof fn lemma_edge_is_walk(&self, a: Id, w: Id)
        requires
            self.adj_of(a).contains(w),
        ensures
            self.reaches(a, w),
    {
        let p = seq![a, w];
        assert(p[0] == a && p[1] == w);
        assert(self.is_walk(p, a, w));
    }

    /// A walk extended by one recorded edge is a walk.
    pub proof fn lemma_reaches_step(&self, a: Id, v: Id, w: Id)
        requires
            self.reaches(a, v),
            self.adj_of(v).contains(w),
        ensures
            self.reaches(a, w),
    {
        let p = choose|p: Seq<Id>| self.is_walk(p, a, v);
        let q = p.push(w);
        assert(q[0] == p[0]);
        assert(q.last() == w);
        assert forall|i: int|
            0 <= i < q.len() - 1 implies self.adj_of(#[trigger] q[i]).contains(q[i + 1]) by {
            if i < p.len() - 1 {
                assert(q[i] == p[i]);
                assert(q[i + 1] == p[i + 1]);
            } else {
                assert(q[i] == p[p.len() - 1]);
                assert(q[i + 1] == w);
            }
        }
        assert(self.is_walk(q, a, w));
    }

    /// Every walk out of `a` ends inside a set that contains all of
    /// `a`'s neighbors and is closed under following edges.
    proof fn lemma_walk_lands_in_closed(&self, a: Id, vset: Seq<Id>, p: Seq<Id>)
        requires
            self.is_walk(p, a, p.last()),
            forall|w: Id| self.adj_of(a).contains(w) ==> vset.contains(w),
            forall|v: Id, w: Id|
                vset.contains(v) && #[trigger] self.adj_of(v).contains(w) ==> vset.contains(w),
        ensures
            vset.contains(p.last()),
        decreases p.len(),
    {
        if p.len() == 2 {
            assert(self.adj_of(p[0]).contains(p[1]));
        } else {
            let q = p.drop_last();
            assert forall|i: int|
                0 <= i < q.len() - 1 implies self.adj_of(#[trigger] q[i]).contains(q[i + 1]) by {
                assert(q[i] == p[i]);
                assert(q[i + 1] == p[i + 1]);
            }
            assert(q.first() == p.first());
            assert(self.is_walk(q, a, q.last()));
            self.lemma_walk_lands_in_closed(a, vset, q);
            assert(self.adj_of(p[p.len() - 2]).contains(p[p.len() - 1]));
            assert(q.last() == p[p.len() - 2]);
        }
    }

    /// Linear membership scan used for the visited list.
    fn id_list_contains(list: &Vec<Id>, x: &Id) -> (r: bool)
        requires
            value_eq::<Id>(),
        ensures
            r == list@.contains(*x),
    {
        let mut i: usize = 0;
        while i < list.len()
            invariant
                i <= list@.len(),
                value_eq::<Id>(),
                forall|k: int| 0 <= k < i ==> list@[k] != *x,
            decreases list@.len() - i,
        {
            if list[i] == *x {
                return true;
            }
            i = i + 1;
        }
        proof {
            if list@.contains(*x) {
                let k = choose|k: int| 0 <= k < list@.len() && list@[k] == *x;
                assert(false);
            }
        }
        false
    }

    /// True exactly when a directed path of one or more edges leads from
    /// `*source` to `*target`.  The search visits every vertex at most
    /// once, so it terminates on cyclic graphs and on parallel edges; a
    /// source that is not a vertex reaches nothing.
    #[verifier::loop_isolation(false)]
    pub fn path_exists_between(&self, source: &Id, target: &Id) -> (r: bool)
        requires
            self.wf(),
            value_eq::<Id>(),
        ensures
            r == self.reaches(*source, *target),
    {
        let mut stack: Vec<Id> = self.neighbors(source);
        let mut visited: Vec<Id> = Vec::new();
        proof {
            assert forall|k: int|
                0 <= k < stack@.len() implies self.verts_seq().contains(#[trigger] stack@[k])
                && self.reaches(*source, stack@[k]) by {
                assert(self.adj_of(*source).contains(stack@[k]));
                self.lemma_edge_endpoints_are_vertices(*source, stack@[k]);
                self.lemma_edge_is_walk(*source, stack@[k]);
            }
        }
        while stack.len() > 0
            invariant
                visited@.no_duplicates(),
                visited@.len() <= self.verts_seq().len(),
                forall|k: int|
                    0 <= k < visited@.len() ==> self.verts_seq().contains(#[trigger] visited@[k]),
                forall|k: int|
                    0 <= k < stack@.len() ==> self.verts_seq().contains(#[trigger] stack@[k]),
                forall|k: int|
                    0 <= k < stack@.len() ==> self.reaches(*source, #[trigger] stack@[k]),
                forall|k: int|
                    0 <= k < visited@.len() ==> self.reaches(*source, #[trigger] visited@[k]),
                forall|w: Id|
                    self.adj_of(*source).contains(w) ==> visited@.contains(w)
                        || stack@.contains(w),
                forall|v: Id, w: Id|
                    visited@.contains(v) && #[trigger] self.adj_of(v).contains(w)
                        ==> visited@.contains(w) || stack@.contains(w),
                !visited@.contains(*target),
            decreases self.verts_seq().len() - visited@.len(), stack@.len(),
        {
            let ghost pre = stack@;
            let v = stack.pop().unwrap();
            proof {
                assert(pre =~= stack@.push(v));
                assert(pre[pre.len() - 1] == v);
                assert(pre.contains(v));
                assert forall|x: Id| pre.contains(x) implies stack@.contains(x) || x == v by {
                    let k = choose|k: int| 0 <= k < pre.len() && pre[k] == x;
                    if k < stack@.len() {
                        assert(stack@[k] == x);
                    }
                }
            }
            if v == *target {
                proof {
                    assert(self.reaches(*source, v));
                }
                return true;
            }
            if !Self::id_list_contains(&visited, &v) {
                let ghost seen0 = visited@;
                visited.push(v);
                proof {
                    lemma_push_keeps_index(seen0, v);
                    lemma_distinct_members_bound(visited@, self.verts_seq());
                }
                match self.find_vertex(&v) {
                    Some(idx) => {
                        proof {
                            lemma_index_of_unique(self.verts_seq(), v);
                            assert(self.verts_seq().index_of(v) == idx as int);
                            assert(self.adj@[idx as int]@ == self.adj_of(v));
                        }
                        let ghost base = stack@;
                        let row = &self.adj[idx];
                        let mut j: usize = 0;
                        while j < row.len()
                            invariant
                                j <= row@.len(),
                                stack@ == base + row@.take(j as int),
                            decreases row@.len() - j,
                        {
                            stack.push(row[j]);
                            proof {
                                assert(stack@ =~= base + row@.take(j as int + 1));
                            }
                            j = j + 1;
                        }
                        proof {
                            assert(row@.take(row@.len() as int) =~= row@);
                            assert(stack@ == base + self.adj_of(v));
                            assert forall|k: int|
                                0 <= k < stack@.len() implies self.verts_seq().contains(
                                #[trigger] stack@[k]) && self.reaches(*source, stack@[k]) by {
                                if k < base.len() {
                                    assert(stack@[k] == base[k]);
                                } else {
                                    let w = stack@[k];
                                    assert(self.adj_of(v).contains(w));
                                    self.lemma_edge_endpoints_are_vertices(v, w);
                                    self.lemma_reaches_step(*source, v, w);
                                }
                            }
                            assert forall|u: Id, w: Id|
                                visited@.contains(u) && #[trigger] self.adj_of(u).contains(w)
                                    implies visited@.contains(w) || stack@.contains(w) by {
                                if u == v {
                                    let k = choose|k: int|
                                        0 <= k < self.adj_of(v).len() && self.adj_of(v)[k] == w;
                                    assert(stack@[base.len() + k] == w);
                                    assert(stack@.contains(w));
                                } else {
                                    assert(seen0.contains(u));
                                    if !seen0.contains(w) && !base.contains(w) {
                                        assert(pre.contains(w));
                                        assert(w == v);
                                        assert(visited@.contains(w));
                                    } else if base.contains(w) {
                                        let k = choose|k: int|
                                            0 <= k < base.len() && base[k] == w;
                                        assert(stack@[k] == w);
                                        assert(stack@.contains(w));
                                    }
                                }
                            }
                            assert forall|w: Id|
                                self.adj_of(*source).contains(w) implies visited@.contains(w)
                                    || stack@.contains(w) by {
                                if !seen0.contains(w) && !base.contains(w) {
                                    assert(pre.contains(w));
                                    assert(w == v);
                                } else if base.contains(w) {
                                    let k = choose|k: int| 0 <= k < base.len() && base[k] == w;
                                    assert(stack@[k] == w);
                                }
                            }
                        }
                    },
                    None => {
                        proof {
                            assert(self.verts_seq().contains(v));
                            assert(false);
                        }
                    },
                }
            }
        }
        proof {
            if self.reaches(*source, *target) {
                let p = choose|p: Seq<Id>| self.is_walk(p, *source, *target);
                assert(p.last() == *target);
                assert(self.is_walk(p, *source, p.last()));
                self.lemma_walk_lands_in_closed(*source, visited@, p);
                assert(false);
            }
        }
        false
    }
}

} // verus!
