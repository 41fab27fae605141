//! The arena proper: nodes, the identifier table, and the structural
//! operations on the tree.
//!
//! Identifiers are indices into a table whose length only grows, so an
//! identifier is issued once and never reused: deleting a node empties its
//! slot but keeps it.  A slot that holds a node is called *live*.

use vstd::prelude::*;

use crate::arena_types::HasId;
use crate::arena_types::NodeRef;
use crate::arena_types::ResultUidList;
use crate::arena_types::WeakNodeRef;
use std::sync::Arc;

verus! {

/// One node of the tree: its own identifier, the identifier of its parent
/// (if any), the ordered identifiers of its children, and the user payload.
#[derive(Debug)]
pub struct Node<T> {
    pub id: usize,
    pub parent: Option<usize>,
    pub children: Vec<usize>,
    pub payload: T,
}

impl<T> HasId for Node<T> {
    /// A node's identifier is its `id` field.
    open spec fn id_spec(&self) -> usize {
        self.id
    }

    fn get_id(&self) -> (r: usize)
        ensures
            r == self.id,
    {
        self.id
    }
}

/// The arena: a growable table from identifier to node.  The identifiers
/// issued so far are `0 .. next_uid()`.
#[derive(Debug)]
pub struct Arena<T> {
    table: Vec<Option<Arc<Node<T>>>>,
}

impl<T> Arena<T> {
    /// The identifier the next insertion will receive; every identifier ever
    /// issued by this arena is below it.
    pub closed spec fn next_uid(self) -> int {
        self.table@.len() as int
    }

    /// True when `id` names a node that is present in the table.
    pub closed spec fn live(self, id: usize) -> bool {
        id < self.table@.len() && self.table@[id as int] is Some
    }

    /// The shared handle stored under a live `id`.
    pub closed spec fn node_ref_at(self, id: usize) -> Arc<Node<T>> {
        self.table@[id as int].unwrap()
    }

    /// The node stored under a live `id`.
    pub closed spec fn node_at(self, id: usize) -> Node<T> {
        *self.node_ref_at(id)
    }

    /// The recorded parent of `id`.
    pub open spec fn parent_of(self, id: usize) -> Option<usize> {
        self.node_at(id).parent
    }

    /// The recorded children of `id`, in insertion order.
    pub open spec fn children_of(self, id: usize) -> Seq<usize> {
        self.node_at(id).children@
    }

    /// The payload stored under `id`.
    pub open spec fn payload_of(self, id: usize) -> T {
        self.node_at(id).payload
    }

    /// Well-formedness of the table as a forest:
    /// - a node is stored under its own identifier;
    /// - a parent link names an older, live node whose child list holds the
    ///   node;
    /// - a child is a younger, live node whose parent link names the node
    ///   back;
    /// - no child is listed twice.
    ///
    /// Parent links pointing at older nodes make every parent chain strictly
    /// decreasing, so the forest is acyclic.
    pub open spec fn wf(self) -> bool {
        &&& (forall|i: usize| #[trigger] self.live(i) ==> self.node_at(i).id == i)
        &&& (forall|i: usize|
            self.live(i) && (#[trigger] self.parent_of(i)) is Some ==> {
                let p = self.parent_of(i).unwrap();
                &&& p < i
                &&& self.live(p)
                &&& self.children_of(p).contains(i)
            })
        &&& (forall|i: usize, j: int|
            self.live(i) && 0 <= j < self.children_of(i).len() ==> {
                let c = #[trigger] self.children_of(i)[j];
                &&& i < c
                &&& self.live(c)
                &&& self.parent_of(c) == Some(i)
            })
        &&& (forall|i: usize| self.live(i) ==> (#[trigger] self.children_of(i)).no_duplicates())
    }

    /// True when following parent links upward from `d` reaches `a`; in a
    /// well-formed arena this says that `d` lies in the subtree rooted at
    /// `a`.  Parent links of a well-formed arena point at smaller
    /// identifiers, so the recursion is bounded by `d` itself.
    pub open spec fn is_descendant_of(self, d: usize, a: usize) -> bool
        decreases d,
    {
        if !self.live(d) {
            false
        } else if d == a {
            true
        } else {
            match self.parent_of(d) {
                Some(p) => p < d && self.is_descendant_of(p, a),
                None => false,
            }
        }
    }

    /// The visit order of a depth-first walk started at `id` with `fuel`
    /// unfoldings left: the node itself, then the subtrees of its children,
    /// later children first.
    spec fn dfs_rec(self, id: usize, fuel: nat) -> Seq<usize>
        decreases fuel, 0int,
    {
        if fuel == 0 {
            seq![id]
        } else {
            seq![id] + self.dfs_list(self.children_of(id), (fuel - 1) as nat)
        }
    }

    /// The walk of a whole stack of roots, topmost (last) first.
    spec fn dfs_list(self, ids: Seq<usize>, fuel: nat) -> Seq<usize>
        decreases fuel, ids.len(),
    {
        if ids.len() == 0 {
            Seq::empty()
        } else {
            self.dfs_rec(ids.last(), fuel) + self.dfs_list(ids.drop_last(), fuel)
        }
    }

    /// Fuel that always suffices for a walk from `id`: children carry larger
    /// identifiers, so a walk from `id` unfolds at most `next_uid - id`
    /// times on any branch.
    spec fn fuel_for(self, id: usize) -> nat {
        if id < self.next_uid() {
            (self.next_uid() - id) as nat
        } else {
            0
        }
    }

    /// The depth-first visit order from `id`: the node first, then the
    /// subtrees of its children; children are pushed onto a stack in list
    /// order and popped back first, so later children come earlier.
    pub closed spec fn dfs(self, id: usize) -> Seq<usize> {
        self.dfs_rec(id, self.fuel_for(id))
    }

    /// The remaining walk of a whole stack, topmost first.
    spec fn dfs_stack(self, ids: Seq<usize>) -> Seq<usize> {
        self.dfs_list(ids, self.next_uid() as nat)
    }

    /// The walks of a stack of roots, topmost (last) first, concatenated;
    /// `lemma_dfs_unfold` and `lemma_dfs_forest_unfold` characterize `dfs`
    /// through it.
    pub closed spec fn dfs_forest(self, ids: Seq<usize>) -> Seq<usize> {
        self.dfs_list(ids, self.next_uid() as nat)
    }

    /// The normative walk order, stated for callers: a walk visits the
    /// root, then the subtrees of its children, later children first.
    pub proof fn lemma_dfs_unfold(self, id: usize)
        requires
            self.wf(),
            self.live(id),
        ensures
            self.dfs(id) == seq![id] + self.dfs_forest(self.children_of(id)),
    {
        let n = self.next_uid() as nat;
        self.lemma_dfs_list_fuel(self.children_of(id), id, (self.fuel_for(id) - 1) as nat, n);
    }

    /// How the walk of a stack of roots unrolls, stated for callers.
    pub proof fn lemma_dfs_forest_unfold(self, ids: Seq<usize>)
        requires
            self.wf(),
            forall|j: int| 0 <= j < ids.len() ==> self.live(#[trigger] ids[j]),
        ensures
            ids.len() == 0 ==> self.dfs_forest(ids) == Seq::<usize>::empty(),
            ids.len() > 0 ==> self.dfs_forest(ids) == self.dfs(ids.last()) + self.dfs_forest(
                ids.drop_last(),
            ),
    {
        if ids.len() > 0 {
            assert(ids[ids.len() - 1] == ids.last());
            let n = self.next_uid() as nat;
            self.lemma_dfs_rec_fuel(ids.last(), n, self.fuel_for(ids.last()));
        }
    }

    /// The walk does not depend on the fuel once the fuel covers the
    /// identifier range above `id`.
    proof fn lemma_dfs_rec_fuel(self, id: usize, f1: nat, f2: nat)
        requires
            self.wf(),
            self.live(id),
            f1 >= self.next_uid() - id,
            f2 >= self.next_uid() - id,
        ensures
            self.dfs_rec(id, f1) == self.dfs_rec(id, f2),
        decreases f1 + f2, 0int,
    {
        assert(id < self.next_uid());
        self.lemma_dfs_list_fuel(self.children_of(id), id, (f1 - 1) as nat, (f2 - 1) as nat);
    }

    /// The same, for every stack whose members are live and above `floor`.
    proof fn lemma_dfs_list_fuel(self, ids: Seq<usize>, floor: usize, f1: nat, f2: nat)
        requires
            self.wf(),
            forall|j: int| 0 <= j < ids.len() ==> self.live(#[trigger] ids[j]) && floor < ids[j],
            f1 >= self.next_uid() - floor - 1,
            f2 >= self.next_uid() - floor - 1,
        ensures
            self.dfs_list(ids, f1) == self.dfs_list(ids, f2),
        decreases f1 + f2, ids.len(),
    {
        if ids.len() > 0 {
            assert(ids[ids.len() - 1] == ids.last());
            self.lemma_dfs_rec_fuel(ids.last(), f1, f2);
            self.lemma_dfs_list_fuel(ids.drop_last(), floor, f1, f2);
        }
    }

    /// A descendant carries an identifier no smaller than its ancestor's,
    /// and both ends of the relation are live.
    proof fn lemma_desc_bounds(self, d: usize, a: usize)
        requires
            self.is_descendant_of(d, a),
        ensures
            a <= d,
            self.live(d),
            self.live(a),
        decreases d,
    {
        if d != a {
            self.lemma_desc_bounds(self.parent_of(d).unwrap(), a);
        }
    }

    /// Being a descendant is transitive.
    proof fn lemma_desc_trans(self, d: usize, m: usize, a: usize)
        requires
            self.is_descendant_of(d, m),
            self.is_descendant_of(m, a),
        ensures
            self.is_descendant_of(d, a),
        decreases d,
    {
        if d != m {
            self.lemma_desc_trans(self.parent_of(d).unwrap(), m, a);
        }
    }

    /// Two ancestors of one node lie on one parent chain: one of them is an
    /// ancestor of the other.
    proof fn lemma_desc_linear(self, d: usize, a: usize, b: usize)
        requires
            self.is_descendant_of(d, a),
            self.is_descendant_of(d, b),
        ensures
            self.is_descendant_of(a, b) || self.is_descendant_of(b, a),
        decreases d,
    {
        if d != a && d != b {
            self.lemma_desc_linear(self.parent_of(d).unwrap(), a, b);
        }
    }

    /// Two distinct children of one node have no common descendant.
    proof fn lemma_siblings_independent(self, p: usize, c1: usize, c2: usize)
        requires
            self.wf(),
            self.live(c1),
            self.live(c2),
            c1 != c2,
            self.parent_of(c1) == Some(p),
            self.parent_of(c2) == Some(p),
        ensures
            !self.is_descendant_of(c1, c2),
            !self.is_descendant_of(c2, c1),
    {
        if self.is_descendant_of(c1, c2) {
            assert(self.is_descendant_of(p, c2));
            self.lemma_desc_bounds(p, c2);
            assert(p < c2);
        }
        if self.is_descendant_of(c2, c1) {
            assert(self.is_descendant_of(p, c1));
            self.lemma_desc_bounds(p, c1);
            assert(p < c1);
        }
    }

    /// A strict descendant of `a` descends through exactly some child of
    /// `a`; this returns one such child.
    proof fn lemma_desc_via_child(self, d: usize, a: usize) -> (c: usize)
        requires
            self.wf(),
            self.is_descendant_of(d, a),
            d != a,
        ensures
            self.children_of(a).contains(c),
            self.is_descendant_of(d, c),
        decreases d,
    {
        let p = self.parent_of(d).unwrap();
        if p == a {
            assert(self.is_descendant_of(d, d)) by {
                self.lemma_desc_bounds(d, a);
            }
            d
        } else {
            self.lemma_desc_via_child(p, a)
        }
    }

    /// Every identifier a bounded walk reports is a live descendant of its
    /// root, and the root comes first.
    proof fn lemma_dfs_rec_members(self, id: usize, fuel: nat)
        requires
            self.wf(),
            self.live(id),
            fuel >= self.next_uid() - id,
        ensures
            self.dfs_rec(id, fuel).len() >= 1,
            self.dfs_rec(id, fuel)[0] == id,
            forall|k: int|
                0 <= k < self.dfs_rec(id, fuel).len() ==> {
                    let d = #[trigger] self.dfs_rec(id, fuel)[k];
                    self.live(d) && self.is_descendant_of(d, id)
                },
        decreases fuel, 0int,
    {
        let ch = self.children_of(id);
        let rest = self.dfs_list(ch, (fuel - 1) as nat);
        self.lemma_dfs_list_members(ch, id, (fuel - 1) as nat);
        assert(self.is_descendant_of(id, id));
        assert forall|k: int| 0 <= k < self.dfs_rec(id, fuel).len() implies {
            let d = #[trigger] self.dfs_rec(id, fuel)[k];
            self.live(d) && self.is_descendant_of(d, id)
        } by {
            if k > 0 {
                let d = self.dfs_rec(id, fuel)[k];
                assert(d == rest[k - 1]);
                let j = choose|j: int|
                    0 <= j < ch.len() && self.is_descendant_of(rest[k - 1], ch[j]);
                assert(self.parent_of(ch[j]) == Some(id));
                assert(self.is_descendant_of(ch[j], id));
                self.lemma_desc_bounds(d, ch[j]);
                self.lemma_desc_trans(d, ch[j], id);
            }
        }
    }

    /// Every identifier in the walk of a stack is a descendant of some
    /// member of the stack.
    proof fn lemma_dfs_list_members(self, ids: Seq<usize>, floor: usize, fuel: nat)
        requires
            self.wf(),
            forall|j: int| 0 <= j < ids.len() ==> self.live(#[trigger] ids[j]) && floor < ids[j],
            fuel >= self.next_uid() - floor - 1,
        ensures
            forall|k: int|
                0 <= k < self.dfs_list(ids, fuel).len() ==> exists|j: int|
                    0 <= j < ids.len() && self.is_descendant_of(
                        #[trigger] self.dfs_list(ids, fuel)[k],
                        ids[j],
                    ),
        decreases fuel, ids.len(),
    {
        if ids.len() > 0 {
            assert(ids[ids.len() - 1] == ids.last());
            let head = self.dfs_rec(ids.last(), fuel);
            let tail = self.dfs_list(ids.drop_last(), fuel);
            self.lemma_dfs_rec_members(ids.last(), fuel);
            self.lemma_dfs_list_members(ids.drop_last(), floor, fuel);
            assert forall|k: int| 0 <= k < self.dfs_list(ids, fuel).len() implies exists|j: int|
                0 <= j < ids.len() && self.is_descendant_of(
                    #[trigger] self.dfs_list(ids, fuel)[k],
                    ids[j],
                ) by {
                let d = self.dfs_list(ids, fuel)[k];
                if k < head.len() {
                    assert(d == head[k]);
                    assert(self.is_descendant_of(d, ids[ids.len() - 1]));
                } else {
                    assert(d == tail[k - head.len()]);
                    let j = choose|j: int|
                        0 <= j < ids.drop_last().len() && self.is_descendant_of(
                            tail[k - head.len()],
                            ids.drop_last()[j],
                        );
                    assert(ids.drop_last()[j] == ids[j]);
                    assert(self.is_descendant_of(d, ids[j]));
                }
            }
        }
    }

    /// Every live descendant of the root appears in the bounded walk.
    proof fn lemma_dfs_rec_complete(self, id: usize, fuel: nat, d: usize)
        requires
            self.wf(),
            self.live(id),
            fuel >= self.next_uid() - id,
            self.is_descendant_of(d, id),
        ensures
            self.dfs_rec(id, fuel).contains(d),
        decreases fuel, 0int,
    {
        self.lemma_dfs_rec_members(id, fuel);
        if d == id {
            assert(self.dfs_rec(id, fuel)[0] == d);
        } else {
            let c = self.lemma_desc_via_child(d, id);
            let ch = self.children_of(id);
            let j = choose|j: int| 0 <= j < ch.len() && ch[j] == c;
            self.lemma_dfs_list_complete(ch, id, (fuel - 1) as nat, j, d);
            let rest = self.dfs_list(ch, (fuel - 1) as nat);
            let k = choose|k: int| 0 <= k < rest.len() && rest[k] == d;
            assert(self.dfs_rec(id, fuel)[k + 1] == d);
        }
    }

    /// Every descendant of a stack member appears in the walk of the stack.
    proof fn lemma_dfs_list_complete(self, ids: Seq<usize>, floor: usize, fuel: nat, j: int, d: usize)
        requires
            self.wf(),
            forall|x: int| 0 <= x < ids.len() ==> self.live(#[trigger] ids[x]) && floor < ids[x],
            fuel >= self.next_uid() - floor - 1,
            0 <= j < ids.len(),
            self.is_descendant_of(d, ids[j]),
        ensures
            self.dfs_list(ids, fuel).contains(d),
        decreases fuel, ids.len(),
    {
        assert(ids[ids.len() - 1] == ids.last());
        let head = self.dfs_rec(ids.last(), fuel);
        let tail = self.dfs_list(ids.drop_last(), fuel);
        if j == ids.len() - 1 {
            self.lemma_dfs_rec_complete(ids.last(), fuel, d);
            let k = choose|k: int| 0 <= k < head.len() && head[k] == d;
            assert(self.dfs_list(ids, fuel)[k] == d);
        } else {
            assert(ids.drop_last()[j] == ids[j]);
            self.lemma_dfs_list_complete(ids.drop_last(), floor, fuel, j, d);
            let k = choose|k: int| 0 <= k < tail.len() && tail[k] == d;
            assert(self.dfs_list(ids, fuel)[head.len() + k] == d);
        }
    }

    /// A bounded walk never reports an identifier twice: subtrees of
    /// distinct children are disjoint, and the root is below them all.
    proof fn lemma_dfs_rec_nodup(self, id: usize, fuel: nat)
        requires
            self.wf(),
            self.live(id),
            fuel >= self.next_uid() - id,
        ensures
            self.dfs_rec(id, fuel).no_duplicates(),
        decreases fuel, 0int,
    {
        let ch = self.children_of(id);
        let rest = self.dfs_list(ch, (fuel - 1) as nat);
        assert forall|x: int, y: int|
            0 <= x < ch.len() && 0 <= y < ch.len() && x != y implies !self.is_descendant_of(
            ch[x],
            ch[y],
        ) by {
            self.lemma_siblings_independent(id, ch[x], ch[y]);
        }
        self.lemma_dfs_list_nodup(ch, id, (fuel - 1) as nat);
        self.lemma_dfs_list_members(ch, id, (fuel - 1) as nat);
        assert forall|a: int, b: int| 0 <= a < 1 && 0 <= b < rest.len() implies seq![id][a]
            != rest[b] by {
            let j = choose|j: int| 0 <= j < ch.len() && self.is_descendant_of(rest[b], ch[j]);
            self.lemma_desc_bounds(rest[b], ch[j]);
        }
        vstd::seq_lib::lemma_no_dup_in_concat(seq![id], rest);
        assert(self.dfs_rec(id, fuel) == seq![id] + rest);
    }

    /// The walk of a stack of pairwise independent roots has no duplicates.
    proof fn lemma_dfs_list_nodup(self, ids: Seq<usize>, floor: usize, fuel: nat)
        requires
            self.wf(),
            forall|x: int| 0 <= x < ids.len() ==> self.live(#[trigger] ids[x]) && floor < ids[x],
            fuel >= self.next_uid() - floor - 1,
            ids.no_duplicates(),
            forall|x: int, y: int|
                0 <= x < ids.len() && 0 <= y < ids.len() && x != y ==> !self.is_descendant_of(
                    #[trigger] ids[x],
                    #[trigger] ids[y],
                ),
        ensures
            self.dfs_list(ids, fuel).no_duplicates(),
        decreases fuel, ids.len(),
    {
        if ids.len() > 0 {
            assert(ids[ids.len() - 1] == ids.last());
            let head = self.dfs_rec(ids.last(), fuel);
            let tail = self.dfs_list(ids.drop_last(), fuel);
            self.lemma_dfs_rec_nodup(ids.last(), fuel);
            self.lemma_dfs_rec_members(ids.last(), fuel);
            self.lemma_dfs_list_nodup(ids.drop_last(), floor, fuel);
            self.lemma_dfs_list_members(ids.drop_last(), floor, fuel);
            assert forall|a: int, b: int|
                0 <= a < head.len() && 0 <= b < tail.len() implies head[a] != tail[b] by {
                if head[a] == tail[b] {
                    let d = head[a];
                    assert(self.is_descendant_of(d, ids.last()));
                    let j = choose|j: int|
                        0 <= j < ids.drop_last().len() && self.is_descendant_of(
                            tail[b],
                            ids.drop_last()[j],
                        );
                    assert(ids.drop_last()[j] == ids[j]);
                    assert(ids[j] != ids.last());
                    self.lemma_desc_linear(d, ids.last(), ids[j]);
                }
            }
            vstd::seq_lib::lemma_no_dup_in_concat(head, tail);
        }
    }

    /// A depth-first walk from a live root reports every identifier of the
    /// root's subtree exactly once: the walk has no duplicates, starts with
    /// the root, and contains an identifier exactly when it is a live
    /// descendant of the root.
    pub proof fn lemma_dfs_complete(self, root: usize)
        requires
            self.wf(),
            self.live(root),
        ensures
            self.dfs(root).no_duplicates(),
            self.dfs(root).len() >= 1,
            self.dfs(root)[0] == root,
            forall|d: usize| #[trigger]
                self.dfs(root).contains(d) ==> self.is_descendant_of(d, root),
            forall|d: usize| #[trigger]
                self.is_descendant_of(d, root) ==> self.dfs(root).contains(d),
    {
        let fuel = self.fuel_for(root);
        self.lemma_dfs_rec_nodup(root, fuel);
        self.lemma_dfs_rec_members(root, fuel);
        assert forall|d: usize| #[trigger]
            self.dfs(root).contains(d) implies self.is_descendant_of(d, root) by {
            let k = choose|k: int| 0 <= k < self.dfs(root).len() && self.dfs(root)[k] == d;
            assert(self.dfs(root)[k] == d);
        }
        assert forall|d: usize| #[trigger]
            self.is_descendant_of(d, root) implies self.dfs(root).contains(d) by {
            self.lemma_dfs_rec_complete(root, fuel, d);
        }
    }

    /// Walking a concatenated stack walks the later part first.
    proof fn lemma_dfs_list_concat(self, a: Seq<usize>, b: Seq<usize>, fuel: nat)
        ensures
            self.dfs_list(a + b, fuel) == self.dfs_list(b, fuel) + self.dfs_list(a, fuel),
        decreases b.len(),
    {
        if b.len() == 0 {
            assert(a + b =~= a);
            assert(self.dfs_list(b, fuel) + self.dfs_list(a, fuel) =~= self.dfs_list(a, fuel));
        } else {
            assert((a + b).last() == b.last());
            assert((a + b).drop_last() =~= a + b.drop_last());
            self.lemma_dfs_list_concat(a, b.drop_last(), fuel);
            assert(self.dfs_rec(b.last(), fuel) + (self.dfs_list(b.drop_last(), fuel)
                + self.dfs_list(a, fuel)) =~= (self.dfs_rec(b.last(), fuel) + self.dfs_list(
                b.drop_last(),
                fuel,
            )) + self.dfs_list(a, fuel));
        }
    }

    /// Creates an empty arena; the first identifier issued will be 0.
    pub fn new() -> (arena: Self)
        ensures
            arena.wf(),
            arena.next_uid() == 0,
            forall|d: usize| !arena.live(d),
    {
        Arena { table: Vec::new() }
    }

    /// True exactly when `node_id` names a live node.
    pub fn node_exists(&self, node_id: usize) -> (r: bool)
        ensures
            r == self.live(node_id),
    {
        node_id < self.table.len() && self.table[node_id].is_some()
    }

    /// The recorded parent of `node_id`; `None` where `node_id` is not live
    /// or has no parent, with no distinction between the two causes.
    pub fn get_parent_of(&self, node_id: usize) -> (r: Option<usize>)
        ensures
            r == (if self.live(node_id) {
                self.parent_of(node_id)
            } else {
                None::<usize>
            }),
    {
        if !self.node_exists(node_id) {
            return None;
        }
        match &self.table[node_id] {
            Some(node) => node.parent,
            None => None,
        }
    }

    /// The children of `node_id` in insertion order; `None` where `node_id`
    /// is not live, `Some` of an empty list where it is live and childless.
    pub fn get_children_of(&self, node_id: usize) -> (r: ResultUidList)
        ensures
            match r {
                Some(ids) => self.live(node_id) && ids@ == self.children_of(node_id),
                None => !self.live(node_id),
            },
    {
        if !self.node_exists(node_id) {
            return None;
        }
        match &self.table[node_id] {
            Some(node) => Some(copy_ids(&node.children)),
            None => None,
        }
    }

    /// True only when `node_id` is live, records a parent, and that parent
    /// is itself still live.
    pub fn has_parent(&self, node_id: usize) -> (r: bool)
        ensures
            r == (self.live(node_id) && self.parent_of(node_id) is Some
                && self.live(self.parent_of(node_id).unwrap())),
    {
        if self.node_exists(node_id) {
            let parent_id_opt = self.get_parent_of(node_id);
            if parent_id_opt.is_some() {
                return self.node_exists(parent_id_opt.unwrap());
            }
        }
        false
    }

    /// Walks the subtree rooted at `node_id` depth first with an explicit
    /// stack (never recursion, so deep trees cannot exhaust the call stack)
    /// and reports the visited identifiers in visit order; `None` where
    /// `node_id` is not live.  Popping from a stack visits later children
    /// first, and that order is part of the contract: the result is exactly
    /// `dfs(node_id)`.
    pub fn tree_walk_dfs(&self, node_id: usize) -> (r: ResultUidList)
        requires
            self.wf(),
        ensures
            match r {
                Some(ids) => self.live(node_id) && ids@ == self.dfs(node_id),
                None => !self.live(node_id),
            },
    {
        if !self.node_exists(node_id) {
            return None;
        }
        let mut collected_nodes: Vec<usize> = Vec::new();
        let mut stack: Vec<usize> = Vec::new();
        stack.push(node_id);
        proof {
            assert(seq![node_id].len() == 1);
            assert(seq![node_id].last() == node_id);
            assert(seq![node_id].drop_last() =~= Seq::<usize>::empty());
            assert(self.dfs_list(seq![node_id], self.next_uid() as nat) == self.dfs_rec(
                node_id,
                self.next_uid() as nat,
            ) + self.dfs_list(Seq::<usize>::empty(), self.next_uid() as nat));
            assert(self.dfs_stack(seq![node_id]) =~= self.dfs_rec(
                node_id,
                self.next_uid() as nat,
            ) + Seq::<usize>::empty());
            assert(self.dfs_stack(seq![node_id]) =~= self.dfs_rec(node_id, self.next_uid() as nat));
            self.lemma_dfs_rec_fuel(node_id, self.next_uid() as nat, self.fuel_for(node_id));
            assert(collected_nodes@ + self.dfs_stack(stack@) =~= self.dfs(node_id));
        }
        while stack.len() > 0
            invariant
                self.wf(),
                self.live(node_id),
                forall|j: int| 0 <= j < stack@.len() ==> self.live(#[trigger] stack@[j]),
                collected_nodes@ + self.dfs_stack(stack@) == self.dfs(node_id),
            decreases self.dfs_stack(stack@).len(),
        {
            let ghost prev_stack = stack@;
            let ghost prev_collected = collected_nodes@;
            let popped = stack.pop().unwrap();
            collected_nodes.push(popped);
            proof {
                assert(prev_stack.last() == popped);
                assert(stack@ =~= prev_stack.drop_last());
            }
            match &self.table[popped] {
                Some(node) => {
                    let mut kids = copy_ids(&node.children);
                    stack.append(&mut kids);
                    proof {
                        let n = self.next_uid() as nat;
                        assert(node.children@ =~= self.children_of(popped));
                        assert(self.dfs_stack(prev_stack) == self.dfs_rec(popped, n)
                            + self.dfs_stack(prev_stack.drop_last()));
                        self.lemma_dfs_list_fuel(
                            self.children_of(popped),
                            popped,
                            (n - 1) as nat,
                            n,
                        );
                        assert(self.dfs_rec(popped, n) == seq![popped] + self.dfs_stack(
                            self.children_of(popped),
                        ));
                        self.lemma_dfs_list_concat(
                            prev_stack.drop_last(),
                            self.children_of(popped),
                            n,
                        );
                        assert(stack@ =~= prev_stack.drop_last() + self.children_of(popped));
                        assert(collected_nodes@ + self.dfs_stack(stack@) =~= prev_collected + (
                        seq![popped] + self.dfs_stack(self.children_of(popped))
                            + self.dfs_stack(prev_stack.drop_last())));
                        assert(prev_collected + (seq![popped] + self.dfs_stack(
                            self.children_of(popped),
                        ) + self.dfs_stack(prev_stack.drop_last())) =~= prev_collected + (
                        self.dfs_rec(popped, n) + self.dfs_stack(prev_stack.drop_last())));
                        assert(prev_collected + (self.dfs_rec(popped, n) + self.dfs_stack(
                            prev_stack.drop_last(),
                        )) =~= prev_collected + self.dfs_stack(prev_stack));
                    }
                }
                None => {
                    proof {
                        assert(self.live(popped));
                        assert(false);
                    }
                }
            }
        }
        proof {
            assert(collected_nodes@ + self.dfs_stack(stack@) =~= collected_nodes@);
            assert(self.dfs(node_id).len() > 0);
        }
        match collected_nodes.len() {
            0 => None,
            _ => Some(collected_nodes),
        }
    }

    /// Deletes the node named by `node_id` together with every node of its
    /// subtree, as one unit: first the subtree is computed by a depth-first
    /// walk, then `node_id` is removed from its parent's children, then
    /// every walked identifier is removed from the table.  Returns the
    /// removed identifiers in walk order; `None` where `node_id` is not
    /// live.  Partial deletion of a subtree is not supported.
    pub fn delete_node(&mut self, node_id: usize) -> (r: ResultUidList) where
        T: Clone,

        requires
            old(self).wf(),
        ensures
            final(self).wf(),
            final(self).next_uid() == old(self).next_uid(),
            match r {
                Some(ids) => {
                    &&& old(self).live(node_id)
                    &&& ids@ == old(self).dfs(node_id)
                    &&& forall|d: usize| #[trigger]
                        final(self).live(d) ==> old(self).live(d) && !ids@.contains(d)
                    &&& forall|d: usize|
                        old(self).live(d) && !ids@.contains(d) ==> #[trigger] final(self).live(d)
                    &&& forall|d: usize|
                        final(self).live(d) && old(self).parent_of(node_id) != Some(d)
                            ==> final(self).node_at(d) == old(self).node_at(d)
                    &&& (old(self).parent_of(node_id) matches Some(p) ==> {
                        &&& final(self).live(p)
                        &&& final(self).children_of(p) == old(self).children_of(p).filter(
                            |c: usize| c != node_id,
                        )
                        &&& final(self).parent_of(p) == old(self).parent_of(p)
                        &&& cloned::<T>(old(self).payload_of(p), final(self).payload_of(p))
                        &&& final(self).node_at(p).id == old(self).node_at(p).id
                    })
                },
                None => !old(self).live(node_id) && *final(self) == *old(self),
            },
    {
        if !self.node_exists(node_id) {
            return None;
        }
        let deletion_list = self.tree_walk_dfs(node_id).unwrap();
        proof {
            old(self).lemma_dfs_complete(node_id);
            assert forall|k: int| 0 <= k < deletion_list@.len() implies old(self).live(
                #[trigger] deletion_list@[k],
            ) by {
                assert(deletion_list@.contains(deletion_list@[k]));
                assert(old(self).is_descendant_of(deletion_list@[k], node_id));
            }
        }
        let ghost po = old(self).parent_of(node_id);

        // Unlink the doomed root from its parent's child list.
        if self.has_parent(node_id) {
            let parent_id = self.get_parent_of(node_id).unwrap();
            let slot = &mut self.table[parent_id];
            let taken = slot.take();
            match taken {
                Some(parent_arc) => {
                    let parent_node = Node {
                        id: parent_arc.id,
                        parent: parent_arc.parent,
                        children: remove_id(&parent_arc.children, node_id),
                        payload: parent_arc.payload.clone(),
                    };
                    self.table[parent_id] = Some(Arc::new(parent_node));
                }
                None => {
                    self.table[parent_id] = None;
                }
            }
        }
        let ghost mid = *self;
        proof {
            assert forall|d: usize| #[trigger] mid.live(d) == old(self).live(d) by {}
            assert forall|d: usize|
                mid.live(d) && po != Some(d) implies #[trigger] mid.node_at(d) == old(
                self,
            ).node_at(d) by {}
            if po is Some {
                let p = po.unwrap();
                assert(mid.children_of(p) == old(self).children_of(p).filter(
                    |c: usize| c != node_id,
                ));
                assert(mid.parent_of(p) == old(self).parent_of(p));
                assert(cloned::<T>(old(self).payload_of(p), mid.payload_of(p)));
                assert(mid.node_at(p).id == old(self).node_at(p).id);
            }
        }

        // Remove the whole subtree from the table.
        let mut i: usize = 0;
        proof {
            assert(deletion_list@.subrange(0, 0) =~= Seq::<usize>::empty());
        }
        while i < deletion_list.len()
            invariant
                i <= deletion_list.len(),
                forall|k: int|
                    0 <= k < deletion_list@.len() ==> old(self).live(#[trigger] deletion_list@[k]),
                self.next_uid() == mid.next_uid(),
                old(self).next_uid() == mid.next_uid(),
                forall|d: usize| #[trigger]
                    self.live(d) ==> mid.live(d) && !deletion_list@.subrange(
                        0,
                        i as int,
                    ).contains(d),
                forall|d: usize|
                    mid.live(d) && !deletion_list@.subrange(0, i as int).contains(d)
                        ==> #[trigger] self.live(d),
                forall|d: usize| #[trigger]
                    self.live(d) ==> self.node_at(d) == mid.node_at(d),
            decreases deletion_list.len() - i,
        {
            let ghost prev = *self;
            let uid = deletion_list[i];
            assert(uid < self.table.len()) by {
                assert(old(self).live(uid));
            }
            self.table[uid] = None;
            i = i + 1;
            proof {
                assert(deletion_list@.subrange(0, i as int) =~= deletion_list@.subrange(
                    0,
                    i - 1,
                ).push(uid));
                assert forall|d: usize| #[trigger] self.live(d) implies mid.live(d)
                    && !deletion_list@.subrange(0, i as int).contains(d) by {
                    assert(d != uid);
                    assert(prev.live(d));
                    if deletion_list@.subrange(0, i as int).contains(d) {
                        let k = choose|k: int|
                            0 <= k < i && deletion_list@.subrange(0, i as int)[k] == d;
                        assert(deletion_list@.subrange(0, i - 1)[k] == d);
                    }
                }
                assert forall|d: usize|
                    mid.live(d) && !deletion_list@.subrange(0, i as int).contains(d) implies #[trigger]
                    self.live(d) by {
                    assert(!deletion_list@.subrange(0, i - 1).contains(d)) by {
                        if deletion_list@.subrange(0, i - 1).contains(d) {
                            let k = choose|k: int|
                                0 <= k < i - 1 && #[trigger] deletion_list@.subrange(0, i - 1)[k]
                                    == d;
                            assert(deletion_list@.subrange(0, i as int)[k] == d);
                        }
                    }
                    assert(d != uid) by {
                        assert(deletion_list@.subrange(0, i as int)[i - 1] == uid);
                    }
                    assert(prev.live(d));
                }
                assert forall|d: usize| #[trigger] self.live(d) implies self.node_at(d)
                    == mid.node_at(d) by {
                    assert(d != uid);
                    assert(prev.live(d));
                    assert(self.node_at(d) == prev.node_at(d));
                }
            }
        }
        proof {
            assert(deletion_list@.subrange(0, deletion_list@.len() as int) =~= deletion_list@);
            self.lemma_delete_preserves_wf(*old(self), mid, node_id, deletion_list@);
            if po is Some {
                let p = po.unwrap();
                assert(!deletion_list@.contains(p)) by {
                    if old(self).is_descendant_of(p, node_id) {
                        old(self).lemma_desc_bounds(p, node_id);
                    }
                }
                assert(self.live(p));
                assert(self.node_at(p) == mid.node_at(p));
            }
            assert forall|d: usize| #[trigger] self.live(d) implies old(self).live(d)
                && !deletion_list@.contains(d) by {}
            assert forall|d: usize|
                old(self).live(d) && !deletion_list@.contains(d) implies #[trigger] self.live(
                d,
            ) by {}
            assert forall|d: usize|
                self.live(d) && po != Some(d) implies self.node_at(d) == old(self).node_at(
                d,
            ) by {
                assert(mid.node_at(d) == old(self).node_at(d));
            }
        }
        Some(deletion_list)
    }

    /// After a subtree deletion the table is again a well-formed forest.
    proof fn lemma_delete_preserves_wf(self, o: Self, mid: Self, root: usize, s: Seq<usize>)
        requires
            o.wf(),
            o.live(root),
            s == o.dfs(root),
            self.next_uid() == o.next_uid(),
            mid.next_uid() == o.next_uid(),
            forall|d: usize| #[trigger] mid.live(d) <==> o.live(d),
            forall|d: usize|
                mid.live(d) && o.parent_of(root) != Some(d) ==> #[trigger] mid.node_at(d)
                    == o.node_at(d),
            o.parent_of(root) matches Some(p) ==> {
                &&& mid.children_of(p) == o.children_of(p).filter(|c: usize| c != root)
                &&& mid.parent_of(p) == o.parent_of(p)
                &&& mid.node_at(p).id == o.node_at(p).id
            },
            forall|d: usize| #[trigger] self.live(d) ==> mid.live(d) && !s.contains(d),
            forall|d: usize| mid.live(d) && !s.contains(d) ==> #[trigger] self.live(d),
            forall|d: usize| #[trigger] self.live(d) ==> self.node_at(d) == mid.node_at(d),
        ensures
            self.wf(),
    {
        o.lemma_dfs_complete(root);
        let po = o.parent_of(root);
        assert(s.contains(root)) by {
            assert(o.is_descendant_of(root, root));
        }
        if po is Some {
            let p = po.unwrap();
            lemma_filter_members(o.children_of(p), |c: usize| c != root);
            assert(!s.contains(p)) by {
                if o.is_descendant_of(p, root) {
                    o.lemma_desc_bounds(p, root);
                }
            }
        }
        assert forall|i: usize| #[trigger] self.live(i) implies self.node_at(i).id == i by {
            if po == Some(i) {
            } else {
                assert(mid.node_at(i) == o.node_at(i));
            }
        }
        assert forall|i: usize|
            self.live(i) && (#[trigger] self.parent_of(i)) is Some implies {
                let q = self.parent_of(i).unwrap();
                &&& q < i
                &&& self.live(q)
                &&& self.children_of(q).contains(i)
            } by {
            let q = self.parent_of(i).unwrap();
            assert(self.parent_of(i) == o.parent_of(i)) by {
                if po == Some(i) {
                } else {
                    assert(mid.node_at(i) == o.node_at(i));
                }
            }
            assert(q < i && o.live(q));
            assert(i != root) by {
                assert(s.contains(root));
            }
            assert(!s.contains(q)) by {
                if o.is_descendant_of(q, root) {
                    assert(o.is_descendant_of(i, root));
                    assert(s.contains(i));
                }
            }
            assert(self.live(q));
            assert(o.children_of(q).contains(i));
            let j = choose|j: int| 0 <= j < o.children_of(q).len() && o.children_of(q)[j] == i;
            if po == Some(q) {
                assert(mid.children_of(q) == o.children_of(q).filter(|c: usize| c != root));
                o.children_of(q).lemma_filter_contains(|c: usize| c != root, j);
                assert(self.children_of(q).contains(i));
            } else {
                assert(mid.node_at(q) == o.node_at(q));
                assert(self.children_of(q)[j] == i);
            }
        }
        assert forall|i: usize, j: int|
            self.live(i) && 0 <= j < self.children_of(i).len() implies {
                let c = #[trigger] self.children_of(i)[j];
                &&& i < c
                &&& self.live(c)
                &&& self.parent_of(c) == Some(i)
            } by {
            let c = self.children_of(i)[j];
            assert(o.live(i) && !s.contains(i));
            assert(o.children_of(i).contains(c) && c != root) by {
                if po == Some(i) {
                    assert(self.children_of(i) == o.children_of(i).filter(|c: usize| c != root));
                    lemma_filter_members(o.children_of(i), |c: usize| c != root);
                    o.children_of(i).lemma_filter_pred(|c: usize| c != root, j);
                } else {
                    assert(mid.node_at(i) == o.node_at(i));
                    assert(self.children_of(i)[j] == o.children_of(i)[j]);
                }
            }
            let k = choose|k: int| 0 <= k < o.children_of(i).len() && o.children_of(i)[k] == c;
            assert(i < c && o.live(c) && o.parent_of(c) == Some(i));
            assert(!s.contains(c)) by {
                if o.is_descendant_of(c, root) {
                    assert(o.is_descendant_of(i, root));
                    assert(s.contains(i));
                }
            }
            assert(self.live(c));
            assert(self.parent_of(c) == o.parent_of(c)) by {
                if po == Some(c) {
                } else {
                    assert(mid.node_at(c) == o.node_at(c));
                }
            }
        }
        assert forall|i: usize| self.live(i) implies (#[trigger] self.children_of(
            i,
        )).no_duplicates() by {
            assert(o.live(i));
            assert(o.children_of(i).no_duplicates());
            assert(self.node_at(i) == mid.node_at(i));
            if po == Some(i) {
                assert(mid.children_of(i) == o.children_of(i).filter(|c: usize| c != root));
                lemma_filter_members(o.children_of(i), |c: usize| c != root);
                assert(o.children_of(i).filter(|c: usize| c != root).no_duplicates());
            } else {
                assert(mid.node_at(i) == o.node_at(i));
            }
        }
    }

    /// A shared handle to the node named by `node_id`; `None` where it is
    /// not live.  The handle keeps the node's storage alive and readable
    /// even after the node is deleted from the table; navigational
    /// operations stop finding the node by identifier then.
    pub fn get_node_arc(&self, node_id: usize) -> (r: Option<NodeRef<T>>)
        ensures
            match r {
                Some(node_ref) => self.live(node_id) && node_ref == self.node_ref_at(node_id),
                None => !self.live(node_id),
            },
    {
        if !self.node_exists(node_id) {
            return None;
        }
        match &self.table[node_id] {
            Some(node_ref) => Some(node_ref.clone()),
            None => None,
        }
    }

    /// A non-owning handle to the node named by `node_id`; `None` where it
    /// is not live.  The handle must be upgraded before use; upgrading
    /// fails once neither the table nor any shared handle keeps the node
    /// alive.
    pub fn get_node_arc_weak(&self, node_id: usize) -> (r: Option<WeakNodeRef<T>>)
        ensures
            r is Some <==> self.live(node_id),
    {
        if !self.node_exists(node_id) {
            return None;
        }
        match &self.table[node_id] {
            Some(node_ref) => Some(WeakNodeRef::new_from(node_ref)),
            None => None,
        }
    }

    /// Scans the whole live set once, in ascending identifier order, and
    /// reports the identifiers whose payload the predicate accepts; `None`
    /// where nothing matched.  The predicate sees each payload by
    /// reference, never a node's lock or storage.
    pub fn filter_all_nodes_by<F: Fn(usize, &T) -> bool>(&self, filter_fn: &F) -> (r:
        ResultUidList)
        requires
            forall|id: usize, t: &T| call_requires(*filter_fn, (id, t)),
        ensures
            match r {
                Some(ids) => {
                    &&& ids@.len() > 0
                    &&& forall|a: int, b: int| 0 <= a < b < ids@.len() ==> ids@[a] < ids@[b]
                    &&& forall|k: int|
                        0 <= k < ids@.len() ==> self.live(#[trigger] ids@[k]) && call_ensures(
                            *filter_fn,
                            (ids@[k], &self.payload_of(ids@[k])),
                            true,
                        )
                    &&& forall|d: usize|
                        self.live(d) && !ids@.contains(d) ==> call_ensures(
                            *filter_fn,
                            (d, &self.payload_of(d)),
                            false,
                        )
                },
                None => forall|d: usize| #[trigger]
                    self.live(d) ==> call_ensures(*filter_fn, (d, &self.payload_of(d)), false),
            },
    {
        let mut matching: Vec<usize> = Vec::new();
        let mut i: usize = 0;
        while i < self.table.len()
            invariant
                i <= self.table@.len(),
                forall|id: usize, t: &T| call_requires(*filter_fn, (id, t)),
                forall|a: int, b: int| 0 <= a < b < matching@.len() ==> matching@[a] < matching@[b],
                forall|k: int| 0 <= k < matching@.len() ==> (#[trigger] matching@[k]) < i,
                forall|k: int|
                    0 <= k < matching@.len() ==> self.live(#[trigger] matching@[k]) && call_ensures(
                        *filter_fn,
                        (matching@[k], &self.payload_of(matching@[k])),
                        true,
                    ),
                forall|d: usize|
                    d < i && self.live(d) && !matching@.contains(d) ==> call_ensures(
                        *filter_fn,
                        (d, &self.payload_of(d)),
                        false,
                    ),
            decreases self.table@.len() - i,
        {
            let ghost prev = matching@;
            match &self.table[i] {
                Some(node_ref) => {
                    proof {
                        assert((*node_ref) == self.node_ref_at(i));
                    }
                    if filter_fn(i, &node_ref.payload) {
                        matching.push(i);
                        proof {
                            assert(matching@[prev.len() as int] == i);
                            assert(matching@.contains(i));
                        }
                    } else {
                        proof {
                            assert(call_ensures(*filter_fn, (i, &self.payload_of(i)), false));
                        }
                    }
                }
                None => {}
            }
            proof {
                assert forall|d: usize|
                    d < i + 1 && self.live(d) && !matching@.contains(d) implies call_ensures(
                    *filter_fn,
                    (d, &self.payload_of(d)),
                    false,
                ) by {
                    if prev.contains(d) {
                        let k = choose|k: int| 0 <= k < prev.len() && prev[k] == d;
                        assert(matching@[k] == d);
                    }
                }
            }
            i = i + 1;
        }
        if matching.len() == 0 {
            None
        } else {
            Some(matching)
        }
    }

    /// Walks the subtree rooted at `node_id` exactly as `tree_walk_dfs`
    /// does and, on the way, hands each visited identifier and a reference
    /// to its payload to `visitor`, in visit order.  The reported list is
    /// the same one `tree_walk_dfs` reports on an unmodified tree: both are
    /// `dfs(node_id)`.
    pub fn tree_walk_visit<F: Fn(usize, &T)>(&self, node_id: usize, visitor: &F) -> (r:
        ResultUidList)
        requires
            self.wf(),
            forall|id: usize, t: &T| call_requires(*visitor, (id, t)),
        ensures
            match r {
                Some(ids) => {
                    &&& self.live(node_id)
                    &&& ids@ == self.dfs(node_id)
                    &&& forall|k: int|
                        0 <= k < ids@.len() ==> call_ensures(
                            *visitor,
                            (#[trigger] ids@[k], &self.payload_of(ids@[k])),
                            (),
                        )
                },
                None => !self.live(node_id),
            },
    {
        let r = self.tree_walk_dfs(node_id);
        match &r {
            Some(ids) => {
                proof {
                    self.lemma_dfs_complete(node_id);
                    assert forall|k: int| 0 <= k < ids@.len() implies self.live(
                        #[trigger] ids@[k],
                    ) by {
                        assert(ids@.contains(ids@[k]));
                        assert(self.is_descendant_of(ids@[k], node_id));
                    }
                }
                let mut i: usize = 0;
                while i < ids.len()
                    invariant
                        self.wf(),
                        forall|id: usize, t: &T| call_requires(*visitor, (id, t)),
                        i <= ids@.len(),
                        forall|k: int| 0 <= k < ids@.len() ==> self.live(#[trigger] ids@[k]),
                        forall|k: int|
                            0 <= k < i ==> call_ensures(
                                *visitor,
                                (#[trigger] ids@[k], &self.payload_of(ids@[k])),
                                (),
                            ),
                    decreases ids@.len() - i,
                {
                    let uid = ids[i];
                    match &self.table[uid] {
                        Some(node_ref) => {
                            proof {
                                assert((*node_ref) == self.node_ref_at(uid));
                            }
                            visitor(uid, &node_ref.payload);
                        }
                        None => {
                            proof {
                                assert(false);
                            }
                        }
                    }
                    i = i + 1;
                }
            }
            None => {}
        }
        r
    }

    /// For every live node that records a parent, the parent is live and
    /// its child list holds the node exactly once: the list contains it and
    /// contains nothing twice.
    pub proof fn lemma_parent_child_symmetry(self, id: usize, p: usize)
        requires
            self.wf(),
            self.live(id),
            self.parent_of(id) == Some(p),
        ensures
            self.live(p),
            p < id,
            self.children_of(p).contains(id),
            self.children_of(p).no_duplicates(),
    {
        assert(self.parent_of(id) is Some);
    }

    /// The identifier the next insertion will take: one above every
    /// identifier issued so far.
    fn generate_uid(&self) -> (id: usize)
        ensures
            id == self.next_uid(),
    {
        self.table.len()
    }

    /// Inserts a new node with the given payload under a fresh identifier
    /// and, where a parent is given, appends the fresh identifier to that
    /// parent's children.  The parent must be live: callers that cannot
    /// guarantee that must check with `node_exists` first.
    pub fn add_new_node(&mut self, data: T, parent_id_opt: Option<usize>) -> (id: usize) where
        T: Clone,

        requires
            old(self).wf(),
            parent_id_opt is Some ==> old(self).live(parent_id_opt.unwrap()),
        ensures
            final(self).wf(),
            id == old(self).next_uid(),
            final(self).next_uid() == old(self).next_uid() + 1,
            final(self).live(id),
            final(self).node_at(id).id == id,
            final(self).parent_of(id) == parent_id_opt,
            final(self).children_of(id).len() == 0,
            final(self).payload_of(id) == data,
            forall|d: usize| old(self).live(d) ==> final(self).live(d),
            forall|d: usize| final(self).live(d) ==> d == id || old(self).live(d),
            forall|d: usize|
                old(self).live(d) && parent_id_opt != Some(d)
                    ==> final(self).node_at(d) == old(self).node_at(d),
            parent_id_opt matches Some(p) ==> {
                &&& final(self).children_of(p) == old(self).children_of(p).push(id)
                &&& final(self).parent_of(p) == old(self).parent_of(p)
                &&& cloned::<T>(old(self).payload_of(p), final(self).payload_of(p))
                &&& final(self).node_at(p).id == old(self).node_at(p).id
            },
    {
        let new_node_id = self.generate_uid();
        let node = Node {
            id: new_node_id,
            parent: parent_id_opt,
            children: Vec::new(),
            payload: data,
        };
        self.table.push(Some(Arc::new(node)));
        if let Some(parent_id) = parent_id_opt {
            let slot = &mut self.table[parent_id];
            let taken = slot.take();
            match taken {
                Some(parent_arc) => {
                    let mut new_children = copy_ids(&parent_arc.children);
                    new_children.push(new_node_id);
                    let parent_node = Node {
                        id: parent_arc.id,
                        parent: parent_arc.parent,
                        children: new_children,
                        payload: parent_arc.payload.clone(),
                    };
                    self.table[parent_id] = Some(Arc::new(parent_node));
                }
                None => {
                    self.table[parent_id] = None;
                }
            }
        }
        proof {
            self.lemma_add_preserves_wf(*old(self), new_node_id, parent_id_opt);
        }
        new_node_id
    }

    /// After an insertion the table is again a well-formed forest.
    proof fn lemma_add_preserves_wf(self, o: Self, id: usize, parent_id_opt: Option<usize>)
        requires
            o.wf(),
            parent_id_opt is Some ==> o.live(parent_id_opt.unwrap()),
            id == o.next_uid(),
            self.next_uid() == o.next_uid() + 1,
            self.live(id),
            self.node_at(id).id == id,
            self.parent_of(id) == parent_id_opt,
            self.children_of(id).len() == 0,
            forall|d: usize| o.live(d) ==> self.live(d),
            forall|d: usize| self.live(d) ==> d == id || o.live(d),
            forall|d: usize|
                o.live(d) && parent_id_opt != Some(d) ==> self.node_at(d) == o.node_at(d),
            parent_id_opt matches Some(p) ==> {
                &&& self.children_of(p) == o.children_of(p).push(id)
                &&& self.parent_of(p) == o.parent_of(p)
                &&& self.node_at(p).id == o.node_at(p).id
            },
        ensures
            self.wf(),
    {
        assert forall|i: usize| #[trigger] self.live(i) implies self.node_at(i).id == i by {
            if i != id {
                assert(o.live(i));
            }
        }
        assert forall|i: usize|
            self.live(i) && (#[trigger] self.parent_of(i)) is Some implies {
                let p = self.parent_of(i).unwrap();
                &&& p < i
                &&& self.live(p)
                &&& self.children_of(p).contains(i)
            } by {
            let p = self.parent_of(i).unwrap();
            if i == id {
                let op = parent_id_opt.unwrap();
                assert(p == op);
                assert(self.children_of(p) == o.children_of(p).push(id));
                assert(self.children_of(p)[self.children_of(p).len() - 1] == id);
                assert(self.children_of(p).contains(i));
            } else {
                assert(o.live(i));
                assert(o.parent_of(i) == self.parent_of(i));
                assert(o.children_of(p).contains(i));
                let j = choose|j: int| 0 <= j < o.children_of(p).len() && o.children_of(p)[j] == i;
                if parent_id_opt == Some(p) {
                    assert(self.children_of(p)[j] == i);
                } else {
                    assert(self.node_at(p) == o.node_at(p));
                    assert(self.children_of(p)[j] == i);
                }
                assert(self.children_of(p).contains(i));
            }
        }
        assert forall|i: usize, j: int|
            self.live(i) && 0 <= j < self.children_of(i).len() implies {
                let c = #[trigger] self.children_of(i)[j];
                &&& i < c
                &&& self.live(c)
                &&& self.parent_of(c) == Some(i)
            } by {
            let c = self.children_of(i)[j];
            if i == id {
                // the fresh node has no children
            } else {
                assert(o.live(i));
                if parent_id_opt == Some(i) {
                    assert(self.children_of(i) == o.children_of(i).push(id));
                    if j < o.children_of(i).len() {
                        assert(c == o.children_of(i)[j]);
                        assert(o.live(c) && i < c && o.parent_of(c) == Some(i));
                        assert(c != id);
                        assert(parent_id_opt != Some(c)) by {
                            assert(i < c);
                        }
                        assert(self.node_at(c) == o.node_at(c));
                    } else {
                        assert(c == id);
                        assert(self.parent_of(c) == Some(i));
                        assert(i < id) by {
                            assert(o.live(i));
                        }
                    }
                } else {
                    assert(self.node_at(i) == o.node_at(i));
                    assert(c == o.children_of(i)[j]);
                    assert(o.live(c) && i < c && o.parent_of(c) == Some(i));
                    assert(c != id);
                    if parent_id_opt == Some(c) {
                        assert(self.parent_of(c) == o.parent_of(c));
                    } else {
                        assert(self.node_at(c) == o.node_at(c));
                    }
                }
            }
        }
        assert forall|i: usize| self.live(i) implies (#[trigger] self.children_of(
            i,
        )).no_duplicates() by {
            if i == id {
                assert(self.children_of(i) =~= Seq::<usize>::empty());
            } else if parent_id_opt == Some(i) {
                assert(o.live(i));
                let s = o.children_of(i);
                assert(self.children_of(i) == s.push(id));
                assert forall|a: int, b: int|
                    0 <= a < b < s.push(id).len() implies s.push(id)[a] != s.push(id)[b] by {
                    if b < s.len() {
                        assert(s.no_duplicates());
                    } else {
                        assert(s.push(id)[b] == id);
                        assert(s.push(id)[a] == s[a]);
                        assert(o.live(s[a]));
                        assert(s[a] < o.next_uid());
                    }
                }
            } else {
                assert(o.live(i));
                assert(self.node_at(i) == o.node_at(i));
                assert(o.children_of(i).no_duplicates());
            }
        }
    }
}

/// What `Seq::filter` keeps comes from the original sequence, and filtering
/// keeps a duplicate-free sequence duplicate free.
proof fn lemma_filter_members(s: Seq<usize>, pred: spec_fn(usize) -> bool)
    ensures
        forall|k: int| 0 <= k < s.filter(pred).len() ==> s.contains(#[trigger] s.filter(pred)[k]),
        s.no_duplicates() ==> s.filter(pred).no_duplicates(),
    decreases s.len(),
{
    reveal(Seq::filter);
    if s.len() > 0 {
        let sub = s.drop_last().filter(pred);
        lemma_filter_members(s.drop_last(), pred);
        assert forall|k: int|
            0 <= k < s.filter(pred).len() implies s.contains(#[trigger] s.filter(pred)[k]) by {
            if k < sub.len() {
                assert(s.drop_last().contains(sub[k]));
                let j = choose|j: int| 0 <= j < s.drop_last().len() && s.drop_last()[j] == sub[k];
                assert(s[j] == sub[k]);
            } else {
                assert(s.filter(pred)[k] == s.last());
                assert(s[s.len() - 1] == s.last());
            }
        }
        if s.no_duplicates() {
            assert(s.drop_last().no_duplicates());
            if pred(s.last()) {
                assert(s.filter(pred) == sub.push(s.last()));
                assert forall|a: int, b: int|
                    0 <= a < b < sub.push(s.last()).len() implies sub.push(s.last())[a] != sub.push(
                    s.last(),
                )[b] by {
                    if b == sub.len() {
                        assert(sub.push(s.last())[a] == sub[a]);
                        if sub[a] == s.last() {
                            assert(s.drop_last().contains(sub[a]));
                            let j = choose|j: int|
                                0 <= j < s.drop_last().len() && s.drop_last()[j] == sub[a];
                            assert(s[j] == s[s.len() - 1]);
                        }
                    }
                }
            }
        }
    }
}

/// A copy of `v` with every occurrence of `x` removed, order kept.
fn remove_id(v: &Vec<usize>, x: usize) -> (r: Vec<usize>)
    ensures
        r@ == v@.filter(|c: usize| c != x),
{
    let mut r: Vec<usize> = Vec::new();
    let mut i: usize = 0;
    proof {
        reveal(Seq::filter);
        assert(v@.subrange(0, 0) =~= Seq::<usize>::empty());
    }
    while i < v.len()
        invariant
            i <= v.len(),
            r@ == v@.subrange(0, i as int).filter(|c: usize| c != x),
        decreases v.len() - i,
    {
        let keep = v[i] != x;
        if keep {
            r.push(v[i]);
        }
        proof {
            reveal(Seq::filter);
            let pred = |c: usize| c != x;
            let sub1 = v@.subrange(0, i + 1);
            assert(sub1.drop_last() =~= v@.subrange(0, i as int));
            assert(sub1.last() == v@[i as int]);
        }
        i = i + 1;
    }
    proof {
        assert(v@.subrange(0, v@.len() as int) =~= v@);
    }
    r
}

/// An element-wise copy of a list of identifiers.
fn copy_ids(v: &Vec<usize>) -> (r: Vec<usize>)
    ensures
        r@ == v@,
{
    let mut r: Vec<usize> = Vec::new();
    let mut i: usize = 0;
    while i < v.len()
        invariant
            i <= v.len(),
            r@ == v@.subrange(0, i as int),
        decreases v.len() - i,
    {
        r.push(v[i]);
        proof {
            assert(r@ =~= v@.subrange(0, i + 1 as int));
        }
        i = i + 1;
    }
    proof {
        assert(r@ =~= v@);
    }
    r
}

} // verus!
