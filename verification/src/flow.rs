//! The dataflow graph and its incremental recomputation machinery.
//!
//! A [`Flow`] holds the nodes (wiring and view kinds), one output relation per
//! node, and the dirty set of positions whose output may be stale.  External
//! changes enter through [`Flow::change`], recomputation is driven by
//! [`Flow::recalculate`] and [`Flow::tick`], and [`Flow::quiesce`] brings the
//! whole graph to a fixpoint.  [`Flow::changes_from`] diffs two graph
//! versions by durable node id.

use vstd::prelude::*;

use crate::value::SpecValue;
use crate::relation::Change;
use crate::relation::Relation;
use crate::view::ViewKind;
use crate::view::view_wf;
use crate::view::eval_view;
use crate::view::spec_eval;
use crate::view::ups_rels;
use crate::view::Select;
use crate::view::Table;
use crate::view::spec_select;
use crate::value::Value;
use crate::value::tuple_model;
use crate::value::tuples_model;
use crate::value::tuple_eq;
use crate::value::clone_tuple;

verus! {

/// One vertex of the graph: a durable id, a view, and the positions it reads
/// (`upstream`) and notifies (`downstream`).
#[derive(Debug)]
pub struct Node {
    pub id: String,
    pub view: ViewKind,
    pub upstream: Vec<usize>,
    pub downstream: Vec<usize>,
}

/// Changes keyed by durable node id, as they travel between graph versions
/// and over the wire.
pub type Changes = Vec<(String, Change)>;

/// A typed failure of a consumer-facing mutation request.
#[derive(Debug, PartialEq, Eq)]
pub enum Error {
    /// The change names an id that no node carries.
    UnknownView(String),
    /// The change targets a node whose view is not a table.
    NotATable(String),
}

/// The dataflow graph: nodes addressed by position, one output relation per
/// node, and the set of positions whose output may be stale.
#[derive(Debug)]
pub struct Flow {
    pub nodes: Vec<Node>,
    pub outputs: Vec<Relation>,
    pub dirty: Vec<usize>,
}

impl Flow {
    /// The number of nodes.
    pub open spec fn len(self) -> int {
        self.nodes@.len() as int
    }

    /// Whether node `i` is a table.
    pub open spec fn is_table(self, i: int) -> bool {
        self.nodes@[i].view is Table
    }

    /// The position of the node carrying `id`, if any.
    pub open spec fn spec_find(self, id: Seq<char>) -> Option<int> {
        if exists|i: int| 0 <= i < self.len() && (#[trigger] self.nodes@[i]).id@ == id {
            Some(choose|i: int| 0 <= i < self.len() && (#[trigger] self.nodes@[i]).id@ == id)
        } else {
            None
        }
    }

    /// The graph's structural invariant: outputs are one to one with nodes,
    /// every edge stays in range, `downstream` is the exact transpose of
    /// `upstream`, ids are unique, views and outputs are well formed, and the
    /// dirty set stays in range.
    pub open spec fn wf(self) -> bool {
        &&& self.outputs@.len() == self.nodes@.len()
        &&& forall|i: int, k: int| 0 <= i < self.len()
            && 0 <= k < self.nodes@[i].upstream@.len()
            ==> ((#[trigger] self.nodes@[i].upstream@[k]) as int) < self.len()
        &&& forall|i: int, k: int| 0 <= i < self.len()
            && 0 <= k < self.nodes@[i].downstream@.len()
            ==> ((#[trigger] self.nodes@[i].downstream@[k]) as int) < self.len()
        &&& forall|i: usize, j: usize| i < self.len() && j < self.len()
            ==> ((#[trigger] self.nodes@[j as int].upstream@.contains(i))
                <==> (#[trigger] self.nodes@[i as int].downstream@.contains(j)))
        &&& forall|i: int| 0 <= i < self.len() ==> view_wf((#[trigger] self.nodes@[i]).view)
        &&& forall|i: int, j: int| 0 <= i < j < self.len()
            ==> (#[trigger] self.nodes@[i]).id@ != (#[trigger] self.nodes@[j]).id@
        &&& forall|i: int| 0 <= i < self.len() ==> (#[trigger] self.outputs@[i]).wf()
        &&& forall|k: int| 0 <= k < self.dirty@.len()
            ==> ((#[trigger] self.dirty@[k]) as int) < self.len()
    }

    /// What evaluating node `i` would return against the current outputs.
    pub open spec fn spec_eval_at(self, i: int) -> Option<Set<Seq<SpecValue>>> {
        spec_eval(self.nodes@[i].view, ups_rels(self.outputs@, self.nodes@[i].upstream@))
    }

    /// Whether node `i`'s output is current: its view declines to update, or
    /// evaluates to exactly the stored output.
    pub open spec fn node_current(self, i: int) -> bool {
        match self.spec_eval_at(i) {
            Option::None => true,
            Option::Some(s) => self.outputs@[i].to_set() == s,
        }
    }

    /// Whether every node outside the dirty set is current: the meaning of
    /// the dirty set.
    pub open spec fn clean_current(self) -> bool {
        forall|i: int| 0 <= i < self.len() && !self.dirty@.contains(i as usize)
            ==> #[trigger] self.node_current(i)
    }

    /// Whether a failure is the right one: the first change whose id does not
    /// resolve yields `UnknownView`, the first resolving to a non-table view
    /// yields `NotATable`, each carrying the offending id.
    pub open spec fn change_error_ok(self, cs: Seq<(String, Change)>, e: Error) -> bool {
        exists|k: int| 0 <= k < cs.len()
            && (forall|j: int| 0 <= j < k ==> self.spec_find((#[trigger] cs[j]).0@) is Some
                && self.is_table(self.spec_find(cs[j].0@)->Some_0))
            && match e {
                Error::UnknownView(s) => s@ == (#[trigger] cs[k]).0@
                    && self.spec_find(cs[k].0@) is None,
                Error::NotATable(s) => s@ == (#[trigger] cs[k]).0@
                    && self.spec_find(cs[k].0@) is Some
                    && !self.is_table(self.spec_find(cs[k].0@)->Some_0),
            }
    }

    /// Whether table `i` carries no selector at all: its extension changes
    /// only through externally supplied changes, never through ticks.
    pub open spec fn plain_table(self, i: int) -> bool {
        match self.nodes@[i].view {
            ViewKind::Table(t) => t.insert is None && t.remove is None,
            _ => false,
        }
    }

    /// Full quiescence: nothing is dirty, every node's output is exactly its
    /// view evaluated over its upstream outputs, and one more tick would
    /// change no table.
    pub open spec fn quiescent(self) -> bool {
        &&& self.dirty@.len() == 0
        &&& forall|i: int| 0 <= i < self.len() ==> #[trigger] self.node_current(i)
        &&& forall|i: int| 0 <= i < self.len() && self.is_table(i)
            ==> #[trigger] self.table_stable(i)
    }

    /// The observable state: each node's output set, keyed by durable id.
    pub open spec fn obs_map(self) -> Map<Seq<char>, Set<Seq<SpecValue>>> {
        Map::new(
            |id: Seq<char>| self.spec_find(id) is Some,
            |id: Seq<char>| self.outputs@[self.spec_find(id)->Some_0].to_set(),
        )
    }

    /// An empty graph.
    pub fn new() -> (r: Flow)
        ensures
            r.wf(),
            r.len() == 0,
            r.dirty@.len() == 0,
            r.clean_current(),
    {
        Flow { nodes: Vec::new(), outputs: Vec::new(), dirty: Vec::new() }
    }

    /// The position of the node carrying `id`, if any.
    pub fn get_ix(&self, id: &String) -> (r: Option<usize>)
        requires
            self.wf(),
        ensures
            (r is Some) == (self.spec_find(id@) is Some),
            r matches Some(ix) ==> self.spec_find(id@) == Some(ix as int),
            r matches Some(ix) ==> ix < self.len() && self.nodes@[ix as int].id@ == id@,
            (r is None) ==> forall|i: int| 0 <= i < self.len()
                ==> (#[trigger] self.nodes@[i]).id@ != id@,
    {
        let n: usize = self.nodes.len();
        let mut i: usize = 0;
        while i < n
            invariant
                self.wf(),
                n == self.nodes@.len(),
                0 <= i <= n,
                forall|j: int| 0 <= j < i ==> (#[trigger] self.nodes@[j]).id@ != id@,
            decreases n - i,
        {
            if self.nodes[i].id.eq(id) {
                proof {
                    assert(self.spec_find(id@) matches Some(k) && k == i as int);
                }
                return Some(i);
            }
            i = i + 1;
        }
        None
    }

    /// The output relation of the node carrying `id`.
    pub fn get_output(&self, id: &String) -> (r: &Relation)
        requires
            self.wf(),
            self.spec_find(id@) is Some,
        ensures
            *r == self.outputs@[self.spec_find(id@)->Some_0],
    {
        let ix = self.get_ix(id).unwrap();
        &self.outputs[ix]
    }

    /// A mutable borrow of the output relation of the node carrying `id`:
    /// afterwards the outputs hold whatever the caller left behind the
    /// borrow, all else unchanged.
    pub fn get_output_mut(&mut self, id: &String) -> (r: &mut Relation)
        requires
            old(self).wf(),
            old(self).spec_find(id@) is Some,
        ensures
            *r == old(self).outputs@[old(self).spec_find(id@)->Some_0],
            final(self).nodes == old(self).nodes,
            final(self).dirty == old(self).dirty,
            final(self).outputs@ == old(self).outputs@.update(
                old(self).spec_find(id@)->Some_0, *final(r)),
    {
        let ix = self.get_ix(id).unwrap();
        &mut self.outputs[ix]
    }

    /// Replaces the output relation of the node carrying `id`.
    pub fn set_output(&mut self, id: &String, output: Relation)
        requires
            old(self).wf(),
            old(self).spec_find(id@) is Some,
            output.wf(),
        ensures
            final(self).wf(),
            final(self).nodes == old(self).nodes,
            final(self).dirty == old(self).dirty,
            final(self).outputs@ == old(self).outputs@.update(old(self).spec_find(id@)->Some_0, output),
    {
        let ix = self.get_ix(id).unwrap();
        self.outputs[ix] = output;
        proof {
            assert(self.outputs@ =~= old(self).outputs@.update(old(self).spec_find(id@)->Some_0, output));
        }
    }

    /// The full dump: one all-asserting change per node, in node order.
    pub fn as_changes(&self) -> (r: Changes)
        requires
            self.wf(),
        ensures
            r@.len() == self.len(),
            forall|i: int| 0 <= i < r@.len() ==> (#[trigger] r@[i]).0@ == self.nodes@[i].id@,
            forall|i: int| 0 <= i < r@.len() ==> (#[trigger] r@[i]).1.ins_set() == self.outputs@[i].to_set(),
            forall|i: int| 0 <= i < r@.len() ==> (#[trigger] r@[i]).1.rem_set() == Set::<Seq<SpecValue>>::empty(),
    {
        let mut out: Changes = Vec::new();
        let n: usize = self.nodes.len();
        let mut i: usize = 0;
        while i < n
            invariant
                self.wf(),
                n == self.nodes@.len(),
                0 <= i <= n,
                out@.len() == i,
                forall|j: int| 0 <= j < i ==> (#[trigger] out@[j]).0@ == self.nodes@[j].id@,
                forall|j: int| 0 <= j < i ==> (#[trigger] out@[j]).1.ins_set() == self.outputs@[j].to_set(),
                forall|j: int| 0 <= j < i ==> (#[trigger] out@[j]).1.rem_set() == Set::<Seq<SpecValue>>::empty(),
            decreases n - i,
        {
            let id = self.nodes[i].id.clone();
            let c = self.outputs[i].as_insert();
            out.push((id, c));
            i = i + 1;
        }
        out
    }
    /// Each node's output set, in node order.
    pub open spec fn out_sets(self) -> Seq<Set<Seq<SpecValue>>> {
        Seq::new(self.outputs@.len(), |i: int| self.outputs@[i].to_set())
    }

    /// The output sets after applying the first `k` changes in order, each to
    /// the node its id resolves to.
    pub open spec fn apply_changes_upto(self, cs: Seq<(String, Change)>, k: int) -> Seq<Set<Seq<SpecValue>>>
        decreases k,
    {
        if k <= 0 {
            self.out_sets()
        } else {
            let prev = self.apply_changes_upto(cs, k - 1);
            match self.spec_find(cs[k - 1].0@) {
                Option::Some(i) => prev.update(
                    i,
                    prev[i].difference(cs[k - 1].1.rem_set()).union(cs[k - 1].1.ins_set()),
                ),
                Option::None => prev,
            }
        }
    }

    /// Whether every change targets an existing table node.
    pub open spec fn change_targets_ok(self, cs: Seq<(String, Change)>) -> bool {
        forall|k: int| 0 <= k < cs.len() ==> {
            &&& self.spec_find((#[trigger] cs[k]).0@) is Some
            &&& self.is_table(self.spec_find(cs[k].0@)->Some_0)
        }
    }

    /// Whether every change's asserted tuples match its target's arity.
    pub open spec fn change_arities_ok(self, cs: Seq<(String, Change)>) -> bool {
        forall|k: int| 0 <= k < cs.len() ==> match self.spec_find((#[trigger] cs[k]).0@) {
            Option::Some(i) => cs[k].1.ins_arity_ok(self.outputs@[i].fields as nat),
            Option::None => true,
        }
    }

    /// Applies externally supplied changes to the named table nodes, in
    /// order, and marks each target's downstream dirty.  Fails, changing
    /// nothing, when an id is unknown or names a non-table view.
    pub fn change(&mut self, changes: Changes) -> (r: Result<(), Error>)
        requires
            old(self).wf(),
            old(self).change_arities_ok(changes@),
        ensures
            (r is Ok) == old(self).change_targets_ok(changes@),
            r is Err ==> *final(self) == *old(self),
            r matches Err(e) ==> old(self).change_error_ok(changes@, e),
            final(self).nodes == old(self).nodes,
            final(self).wf(),
            r is Ok ==> final(self).out_sets()
                == old(self).apply_changes_upto(changes@, changes@.len() as int),
            forall|u: int| 0 <= u < final(self).len()
                ==> (#[trigger] final(self).outputs@[u]).fields == old(self).outputs@[u].fields,
            forall|u: int| 0 <= u < final(self).len() && !old(self).is_table(u)
                ==> (#[trigger] final(self).outputs@[u]) == old(self).outputs@[u],
            forall|d: int| 0 <= d < old(self).dirty@.len()
                ==> final(self).dirty@.contains(#[trigger] old(self).dirty@[d]),
            forall|u: int| 0 <= u < final(self).len()
                && (#[trigger] final(self).outputs@[u]) != old(self).outputs@[u]
                ==> forall|d: int| 0 <= d < final(self).nodes@[u].downstream@.len()
                    ==> final(self).dirty@.contains(#[trigger] final(self).nodes@[u].downstream@[d]),
            r is Ok ==> forall|k: int| 0 <= k < changes@.len()
                ==> forall|d: int| #![trigger final(self).nodes@[
                        old(self).spec_find(changes@[k].0@)->Some_0].downstream@[d]]
                    0 <= d < final(self).nodes@[
                        old(self).spec_find((#[trigger] changes@[k]).0@)->Some_0].downstream@.len()
                    ==> final(self).dirty@.contains(final(self).nodes@[
                        old(self).spec_find(changes@[k].0@)->Some_0].downstream@[d]),
            changes@.len() == 0 ==> *final(self) == *old(self),
    {
        let n: usize = changes.len();
        let mut k: usize = 0;
        while k < n
            invariant
                *self == *old(self),
                self.wf(),
                self.change_arities_ok(changes@),
                n == changes@.len(),
                0 <= k <= n,
                forall|j: int| 0 <= j < k ==> self.spec_find((#[trigger] changes@[j]).0@) is Some
                    && self.is_table(self.spec_find(changes@[j].0@)->Some_0),
            decreases n - k,
        {
            match self.get_ix(&changes[k].0) {
                Option::None => {
                    return Err(Error::UnknownView(changes[k].0.clone()));
                }
                Option::Some(ix) => {
                    match &self.nodes[ix].view {
                        ViewKind::Table(_) => {}
                        _ => {
                            return Err(Error::NotATable(changes[k].0.clone()));
                        }
                    }
                }
            }
            k = k + 1;
        }
        let mut k: usize = 0;
        while k < n
            invariant
                self.wf(),
                self.nodes == old(self).nodes,
                old(self).wf(),
                old(self).change_arities_ok(changes@),
                n == changes@.len(),
                0 <= k <= n,
                forall|j: int| 0 <= j < n ==> old(self).spec_find((#[trigger] changes@[j]).0@) is Some
                    && old(self).is_table(old(self).spec_find(changes@[j].0@)->Some_0),
                self.out_sets() == old(self).apply_changes_upto(changes@, k as int),
                forall|u: int| 0 <= u < self.len()
                    ==> (#[trigger] self.outputs@[u]).fields == old(self).outputs@[u].fields,
                forall|u: int| 0 <= u < self.len() && !old(self).is_table(u)
                    ==> (#[trigger] self.outputs@[u]) == old(self).outputs@[u],
                forall|d: int| 0 <= d < old(self).dirty@.len()
                    ==> self.dirty@.contains(#[trigger] old(self).dirty@[d]),
                forall|u: int| 0 <= u < self.len()
                    && (#[trigger] self.outputs@[u]) != old(self).outputs@[u]
                    ==> forall|d: int| 0 <= d < self.nodes@[u].downstream@.len()
                        ==> self.dirty@.contains(#[trigger] self.nodes@[u].downstream@[d]),
                forall|j: int| 0 <= j < k
                    ==> forall|d: int| #![trigger self.nodes@[
                            old(self).spec_find(changes@[j].0@)->Some_0].downstream@[d]]
                        0 <= d < self.nodes@[
                            old(self).spec_find((#[trigger] changes@[j]).0@)->Some_0].downstream@.len()
                        ==> self.dirty@.contains(self.nodes@[
                            old(self).spec_find(changes@[j].0@)->Some_0].downstream@[d]),
                changes@.len() == 0 ==> *self == *old(self),
            decreases n - k,
        {
            let ghost s0 = *self;
            let ix = self.get_ix(&changes[k].0).unwrap();
            proof {
                assert(old(self).spec_find(changes@[k as int].0@) == self.spec_find(changes@[k as int].0@));
                assert(self.outputs@[ix as int].fields == old(self).outputs@[ix as int].fields);
            }
            self.outputs[ix].change(&changes[k].1);
            let nd: usize = self.nodes[ix].downstream.len();
            let mut d: usize = 0;
            while d < nd
                invariant
                    self.nodes == s0.nodes,
                    self.outputs@ == s0.outputs@.update(ix as int, self.outputs@[ix as int]),
                    self.outputs@.len() == s0.outputs@.len(),
                    self.outputs@[ix as int].to_set() == s0.outputs@[ix as int].to_set()
                        .difference(changes@[k as int].1.rem_set())
                        .union(changes@[k as int].1.ins_set()),
                    self.outputs@[ix as int].fields == s0.outputs@[ix as int].fields,
                    self.wf(),
                    (ix as int) < self.len(),
                    nd == self.nodes@[ix as int].downstream@.len(),
                    0 <= d <= nd,
                    forall|e: int| 0 <= e < s0.dirty@.len()
                        ==> self.dirty@.contains(#[trigger] s0.dirty@[e]),
                    forall|e: int| 0 <= e < d
                        ==> self.dirty@.contains(#[trigger] self.nodes@[ix as int].downstream@[e]),
                decreases nd - d,
            {
                let t = self.nodes[ix].downstream[d];
                let ghost dirty0 = self.dirty@;
                mark_dirty(&mut self.dirty, t);
                proof {
                    assert forall|e: int| 0 <= e < s0.dirty@.len()
                        implies self.dirty@.contains(#[trigger] s0.dirty@[e]) by {
                        assert(dirty0.contains(s0.dirty@[e]));
                    }
                    assert forall|e: int| 0 <= e < d + 1
                        implies self.dirty@.contains(#[trigger] self.nodes@[ix as int].downstream@[e]) by {
                        if e < d {
                            assert(dirty0.contains(self.nodes@[ix as int].downstream@[e]));
                        }
                    }
                }
                d = d + 1;
            }
            proof {
                assert(self.out_sets() =~= s0.out_sets().update(
                    ix as int,
                    s0.out_sets()[ix as int].difference(changes@[k as int].1.rem_set())
                        .union(changes@[k as int].1.ins_set()),
                ));
                assert(self.out_sets() =~= old(self).apply_changes_upto(changes@, k as int + 1));
                assert forall|u: int| 0 <= u < self.len()
                    && (#[trigger] self.outputs@[u]) != old(self).outputs@[u]
                    implies forall|e: int| 0 <= e < self.nodes@[u].downstream@.len()
                        ==> self.dirty@.contains(#[trigger] self.nodes@[u].downstream@[e]) by {
                    if u != ix as int {
                        assert(self.outputs@[u] == s0.outputs@[u]);
                        assert forall|e: int| 0 <= e < self.nodes@[u].downstream@.len()
                            implies self.dirty@.contains(#[trigger] self.nodes@[u].downstream@[e]) by {
                            assert(s0.dirty@.contains(self.nodes@[u].downstream@[e]));
                            let w = choose|w: int| 0 <= w < s0.dirty@.len()
                                && s0.dirty@[w] == self.nodes@[u].downstream@[e];
                        }
                    }
                }
                assert forall|j: int| 0 <= j < k + 1
                    implies forall|e: int| #![trigger self.nodes@[
                            old(self).spec_find(changes@[j].0@)->Some_0].downstream@[e]]
                        0 <= e < self.nodes@[
                            old(self).spec_find((#[trigger] changes@[j]).0@)->Some_0].downstream@.len()
                        ==> self.dirty@.contains(self.nodes@[
                            old(self).spec_find(changes@[j].0@)->Some_0].downstream@[e]) by {
                    let tj = old(self).spec_find(changes@[j].0@)->Some_0;
                    if j < k {
                        assert forall|e: int| 0 <= e < self.nodes@[tj].downstream@.len()
                            implies self.dirty@.contains(#[trigger] self.nodes@[tj].downstream@[e]) by {
                            assert(s0.dirty@.contains(self.nodes@[tj].downstream@[e]));
                            let w = choose|w: int| 0 <= w < s0.dirty@.len()
                                && s0.dirty@[w] == self.nodes@[tj].downstream@[e];
                        }
                    } else {
                        assert(tj == ix as int);
                    }
                }
            }
            k = k + 1;
        }
        Ok(())
    }

    /// Drives every non-table node's output to a fixpoint of its upstream
    /// outputs: drains the dirty set, re-evaluating each popped node, and on a
    /// real change replaces the output and marks the node's downstream dirty.
    /// Returns whether the dirty set was fully drained (always, in practice:
    /// the iteration budget is inexhaustible, but the engine has no cycle
    /// limit and leaves termination to view authors); when it was, every node
    /// is current.  Only nodes reachable from the initially dirty set along
    /// downstream edges are ever rewritten, and a call with nothing dirty
    /// changes nothing.
    pub fn recalculate(&mut self) -> (r: bool)
        requires
            old(self).wf(),
            old(self).clean_current(),
        ensures
            final(self).wf(),
            final(self).nodes == old(self).nodes,
            final(self).clean_current(),
            r == (final(self).dirty@.len() == 0),
            r ==> forall|i: int| 0 <= i < final(self).len()
                ==> #[trigger] final(self).node_current(i),
            forall|i: int| 0 <= i < final(self).len() && old(self).is_table(i)
                ==> (#[trigger] final(self).outputs@[i]) == old(self).outputs@[i],
            forall|i: int| 0 <= i < final(self).len()
                && (#[trigger] final(self).outputs@[i]) != old(self).outputs@[i]
                ==> spec_reachable(old(self).nodes@, old(self).dirty@, i),
            old(self).dirty@.len() == 0 ==> *final(self) == *old(self),
    {
        if self.dirty.len() == 0 {
            proof {
                assert forall|i: int| 0 <= i < self.len()
                    implies #[trigger] self.node_current(i) by {
                    assert(!self.dirty@.contains(i as usize));
                }
            }
            return true;
        }
        proof {
            assert forall|kk: int| 0 <= kk < self.dirty@.len()
                implies spec_reachable(old(self).nodes@, old(self).dirty@,
                    (#[trigger] self.dirty@[kk]) as int) by {
                lemma_reach_src(old(self).nodes@, old(self).dirty@, self.dirty@[kk] as int);
            }
        }
        let mut fuel: u64 = u64::MAX;
        while self.dirty.len() > 0 && fuel > 0
            invariant
                self.wf(),
                self.nodes == old(self).nodes,
                self.clean_current(),
                forall|i: int| 0 <= i < self.len() && old(self).is_table(i)
                    ==> (#[trigger] self.outputs@[i]) == old(self).outputs@[i],
                forall|i: int| 0 <= i < self.len()
                    && (#[trigger] self.outputs@[i]) != old(self).outputs@[i]
                    ==> spec_reachable(old(self).nodes@, old(self).dirty@, i),
                forall|kk: int| 0 <= kk < self.dirty@.len()
                    ==> spec_reachable(old(self).nodes@, old(self).dirty@,
                        (#[trigger] self.dirty@[kk]) as int),
            decreases fuel,
        {
            fuel = fuel - 1;
            let ghost s0 = *self;
            let nlen: usize = self.nodes.len();
            let ix: usize = self.dirty[self.dirty.len() - 1];
            self.dirty.pop();
            let ghost dpop = s0.dirty@.subrange(0, s0.dirty@.len() - 1);
            proof {
                assert(self.dirty@ == dpop);
                assert forall|x: usize| x != ix && s0.dirty@.contains(x)
                    implies dpop.contains(x) by {
                    let w = choose|w: int| 0 <= w < s0.dirty@.len() && s0.dirty@[w] == x;
                    assert(dpop[w] == x);
                }
            }
            let new_output = eval_view(&self.nodes[ix].view, &self.outputs, &self.nodes[ix].upstream);
            match new_output {
                Option::None => {
                    proof {
                        assert forall|j: int| 0 <= j < self.len() && !self.dirty@.contains(j as usize)
                            implies #[trigger] self.node_current(j) by {
                            if j != ix as int {
                                assert(!s0.dirty@.contains(j as usize)) by {
                                    if s0.dirty@.contains(j as usize) {
                                        let w = choose|w: int| 0 <= w < s0.dirty@.len()
                                            && s0.dirty@[w] == j as usize;
                                        assert(s0.dirty@[s0.dirty@.len() - 1] == ix);
                                        assert((j as usize) as int == j);
                                        assert(s0.dirty@[w] != ix);
                                        assert(w != s0.dirty@.len() - 1);
                                        assert(w < s0.dirty@.len() - 1);
                                        assert(dpop[w] == j as usize);
                                        assert(dpop.contains(j as usize));
                                    }
                                }
                                assert(s0.node_current(j));
                            } else {
                                assert(self.spec_eval_at(j) is None);
                            }
                        }
                        assert forall|kk: int| 0 <= kk < self.dirty@.len()
                            implies spec_reachable(old(self).nodes@, old(self).dirty@,
                                (#[trigger] self.dirty@[kk]) as int) by {
                            assert(self.dirty@[kk] == s0.dirty@[kk]);
                        }
                    }
                }
                Option::Some(new_rel) => {
                    let change = new_rel.change_from(&self.outputs[ix]);
                    if !change.is_empty() {
                        let nd: usize = self.nodes[ix].downstream.len();
                        let mut d: usize = 0;
                        while d < nd
                            invariant
                                self.nodes == s0.nodes,
                                self.outputs == s0.outputs,
                                s0.wf(),
                                self.wf(),
                                (ix as int) < self.len(),
                                nd == self.nodes@[ix as int].downstream@.len(),
                                0 <= d <= nd,
                                dpop == s0.dirty@.subrange(0, s0.dirty@.len() - 1),
                                forall|e: int| 0 <= e < d
                                    ==> self.dirty@.contains(#[trigger] self.nodes@[ix as int].downstream@[e]),
                                forall|x: usize| dpop.contains(x) ==> #[trigger] self.dirty@.contains(x),
                                forall|x: usize| #[trigger] self.dirty@.contains(x)
                                    ==> dpop.contains(x)
                                        || self.nodes@[ix as int].downstream@.contains(x),
                            decreases nd - d,
                        {
                            let t = self.nodes[ix].downstream[d];
                            let ghost dirty0 = self.dirty@;
                            mark_dirty(&mut self.dirty, t);
                            proof {
                                assert forall|e: int| 0 <= e < d + 1
                                    implies self.dirty@.contains(#[trigger] self.nodes@[ix as int].downstream@[e]) by {
                                    if e < d {
                                        assert(dirty0.contains(self.nodes@[ix as int].downstream@[e]));
                                    }
                                }
                                assert forall|x: usize| dpop.contains(x)
                                    implies #[trigger] self.dirty@.contains(x) by {
                                    assert(dirty0.contains(x));
                                }
                                assert forall|x: usize| #[trigger] self.dirty@.contains(x)
                                    implies dpop.contains(x)
                                        || self.nodes@[ix as int].downstream@.contains(x) by {
                                    if x != t {
                                        assert(dirty0.contains(x));
                                    } else {
                                        assert(self.nodes@[ix as int].downstream@[d as int] == x);
                                        assert(self.nodes@[ix as int].downstream@.contains(x));
                                    }
                                }
                            }
                            d = d + 1;
                        }
                        let ghost s1 = *self;
                        self.outputs[ix] = new_rel;
                        proof {
                            assert(self.outputs@ =~= s1.outputs@.update(ix as int, new_rel));
                            assert forall|i: int| 0 <= i < self.len()
                                implies (#[trigger] self.outputs@[i]).wf() by {
                                if i != ix as int {
                                    assert(self.outputs@[i] == s0.outputs@[i]);
                                }
                            }
                            assert(self.wf());
                            let down = s0.nodes@[ix as int].downstream@;
                            assert forall|j: int| 0 <= j < self.len() && !self.dirty@.contains(j as usize)
                                implies #[trigger] self.node_current(j) by {
                                assert(!down.contains(j as usize)) by {
                                    if down.contains(j as usize) {
                                        let e = choose|e: int| 0 <= e < down.len() && down[e] == j as usize;
                                        assert(self.dirty@.contains(down[e]));
                                    }
                                }
                                assert(!s0.nodes@[j].upstream@.contains(ix));
                                let up = s0.nodes@[j].upstream@;
                                assert forall|k2: int| 0 <= k2 < up.len()
                                    implies (#[trigger] up[k2]) != ix by {
                                    if up[k2] == ix {
                                        assert(up.contains(ix));
                                    }
                                }
                                assert(ups_rels(self.outputs@, self.nodes@[j].upstream@)
                                    =~= ups_rels(s0.outputs@, s0.nodes@[j].upstream@));
                                if j != ix as int {
                                    assert(!dpop.contains(j as usize));
                                    assert(!s0.dirty@.contains(j as usize));
                                    assert(s0.node_current(j));
                                    assert(self.outputs@[j] == s0.outputs@[j]);
                                } else {
                                    assert(self.spec_eval_at(j) == Some(new_rel.to_set()));
                                    assert(self.outputs@[j].to_set() == new_rel.to_set());
                                }
                            }
                            assert forall|i: int| 0 <= i < self.len() && old(self).is_table(i)
                                implies (#[trigger] self.outputs@[i]) == old(self).outputs@[i] by {
                                if i == ix as int {
                                    assert(s0.spec_eval_at(i) is Some);
                                    assert(!s0.is_table(i));
                                } else {
                                    assert(self.outputs@[i] == s0.outputs@[i]);
                                }
                            }
                            assert(spec_reachable(old(self).nodes@, old(self).dirty@, ix as int)) by {
                                assert(s0.dirty@[s0.dirty@.len() - 1] == ix);
                            }
                            assert forall|i: int| 0 <= i < self.len()
                                && (#[trigger] self.outputs@[i]) != old(self).outputs@[i]
                                implies spec_reachable(old(self).nodes@, old(self).dirty@, i) by {
                                if i != ix as int {
                                    assert(self.outputs@[i] == s0.outputs@[i]);
                                }
                            }
                            assert forall|kk: int| 0 <= kk < self.dirty@.len()
                                implies spec_reachable(old(self).nodes@, old(self).dirty@,
                                    (#[trigger] self.dirty@[kk]) as int) by {
                                let x = self.dirty@[kk];
                                assert(self.dirty@.contains(x));
                                if dpop.contains(x) {
                                    let w = choose|w: int| 0 <= w < dpop.len() && dpop[w] == x;
                                    assert(s0.dirty@[w] == x);
                                } else {
                                    assert(s0.nodes@[ix as int].downstream@.contains(x));
                                    lemma_reach_step(old(self).nodes@, old(self).dirty@,
                                        ix as int, x as int);
                                }
                            }
                        }
                    } else {
                        proof {
                            assert(new_rel.to_set() == self.outputs@[ix as int].to_set());
                            assert forall|j: int| 0 <= j < self.len() && !self.dirty@.contains(j as usize)
                                implies #[trigger] self.node_current(j) by {
                                if j != ix as int {
                                    assert(!s0.dirty@.contains(j as usize)) by {
                                        if s0.dirty@.contains(j as usize) {
                                            let w = choose|w: int| 0 <= w < s0.dirty@.len()
                                                && s0.dirty@[w] == j as usize;
                                            assert(s0.dirty@[s0.dirty@.len() - 1] == ix);
                                            assert((j as usize) as int == j);
                                            assert(s0.dirty@[w] != ix);
                                            assert(w != s0.dirty@.len() - 1);
                                            assert(w < s0.dirty@.len() - 1);
                                            assert(dpop[w] == j as usize);
                                            assert(dpop.contains(j as usize));
                                        }
                                    }
                                    assert(s0.node_current(j));
                                } else {
                                    assert(self.spec_eval_at(j) == Some(new_rel.to_set()));
                                }
                            }
                            assert forall|kk: int| 0 <= kk < self.dirty@.len()
                                implies spec_reachable(old(self).nodes@, old(self).dirty@,
                                    (#[trigger] self.dirty@[kk]) as int) by {
                                assert(self.dirty@[kk] == s0.dirty@[kk]);
                            }
                        }
                    }
                }
            }
        }
        proof {
            if self.dirty@.len() == 0 {
                assert forall|i: int| 0 <= i < self.len()
                    implies #[trigger] self.node_current(i) by {
                    assert(!self.dirty@.contains(i as usize));
                }
            }
        }
        self.dirty.len() == 0
    }
    /// Marks the downstream of every table dirty, so that a following
    /// recalculation re-evaluates everything a table feeds.  Together with
    /// [`Flow::change`], [`Flow::recalculate`] and [`Flow::tick`] this lets a
    /// driver that interposes work between rounds (such as a schema
    /// recompilation) run the same loop as [`Flow::quiesce`].
    pub fn mark_table_downstream(&mut self)
        requires
            old(self).wf(),
        ensures
            final(self).wf(),
            final(self).nodes == old(self).nodes,
            final(self).outputs == old(self).outputs,
            forall|x: usize| old(self).dirty@.contains(x) ==> #[trigger] final(self).dirty@.contains(x),
            forall|u: int, d: int| 0 <= u < final(self).len() && final(self).is_table(u)
                && 0 <= d < final(self).nodes@[u].downstream@.len()
                ==> final(self).dirty@.contains(#[trigger] final(self).nodes@[u].downstream@[d]),
    {
        let n: usize = self.nodes.len();
        let mut i: usize = 0;
        while i < n
            invariant
                self.wf(),
                self.nodes == old(self).nodes,
                self.outputs == old(self).outputs,
                n == self.nodes@.len(),
                0 <= i <= n,
                forall|x: usize| old(self).dirty@.contains(x) ==> #[trigger] self.dirty@.contains(x),
                forall|u: int, d: int| 0 <= u < i && self.is_table(u)
                    && 0 <= d < self.nodes@[u].downstream@.len()
                    ==> self.dirty@.contains(#[trigger] self.nodes@[u].downstream@[d]),
            decreases n - i,
        {
            let mut is_tab = false;
            match &self.nodes[i].view {
                ViewKind::Table(_) => {
                    is_tab = true;
                }
                _ => {}
            }
            if is_tab {
                let ghost s0 = *self;
                let nd: usize = self.nodes[i].downstream.len();
                let mut d: usize = 0;
                while d < nd
                    invariant
                        self.wf(),
                        self.nodes == s0.nodes,
                        self.outputs == s0.outputs,
                        (i as int) < self.len(),
                        nd == self.nodes@[i as int].downstream@.len(),
                        0 <= d <= nd,
                        forall|x: usize| s0.dirty@.contains(x) ==> #[trigger] self.dirty@.contains(x),
                        forall|e: int| 0 <= e < d
                            ==> self.dirty@.contains(#[trigger] self.nodes@[i as int].downstream@[e]),
                    decreases nd - d,
                {
                    let t = self.nodes[i].downstream[d];
                    let ghost dirty0 = self.dirty@;
                    mark_dirty(&mut self.dirty, t);
                    proof {
                        assert forall|x: usize| s0.dirty@.contains(x)
                            implies #[trigger] self.dirty@.contains(x) by {
                            assert(dirty0.contains(x));
                        }
                        assert forall|e: int| 0 <= e < d + 1
                            implies self.dirty@.contains(#[trigger] self.nodes@[i as int].downstream@[e]) by {
                            if e < d {
                                assert(dirty0.contains(self.nodes@[i as int].downstream@[e]));
                            }
                        }
                    }
                    d = d + 1;
                }
            }
            i = i + 1;
        }
    }

    /// Brings externally supplied changes to a full fixpoint across table
    /// mutation and view recomputation: applies the changes, then alternates
    /// recalculation and ticks until a tick changes nothing.  On success the
    /// returned flag reports whether full quiescence was reached; it is false
    /// only if the practically inexhaustible iteration budget ran out, since
    /// the engine has no cycle limit and leaves termination to view authors.
    pub fn quiesce(&mut self, changes: Changes) -> (r: Result<bool, Error>)
        requires
            old(self).wf(),
            old(self).clean_current(),
            old(self).change_arities_ok(changes@),
        ensures
            final(self).wf(),
            final(self).nodes == old(self).nodes,
            (r is Ok) == old(self).change_targets_ok(changes@),
            r is Err ==> *final(self) == *old(self),
            r matches Err(e) ==> old(self).change_error_ok(changes@, e),
            r is Ok ==> final(self).clean_current(),
            r matches Ok(q) ==> (q ==> final(self).quiescent()),
            r is Ok ==> forall|i: int| 0 <= i < final(self).len()
                && old(self).plain_table(i)
                ==> (#[trigger] final(self).outputs@[i]).to_set()
                    == old(self).apply_changes_upto(changes@, changes@.len() as int)[i],
            old(self).quiescent() && changes@.len() == 0
                ==> (r matches Ok(q) && q
                    && final(self).outputs@ == old(self).outputs@
                    && final(self).dirty@ == old(self).dirty@),
    {
        let ghost pre = *self;
        let nlen0: usize = self.nodes.len();
        match self.change(changes) {
            Result::Err(e) => {
                return Err(e);
            }
            Result::Ok(()) => {}
        }
        proof {
            assert forall|j: int| 0 <= j < self.len() && !self.dirty@.contains(j as usize)
                implies #[trigger] self.node_current(j) by {
                assert((j as usize) as int == j);
                assert(!pre.dirty@.contains(j as usize)) by {
                    if pre.dirty@.contains(j as usize) {
                        let w = choose|w: int| 0 <= w < pre.dirty@.len()
                            && pre.dirty@[w] == j as usize;
                        assert(self.dirty@.contains(pre.dirty@[w]));
                    }
                }
                assert(pre.node_current(j));
                let up = self.nodes@[j].upstream@;
                assert forall|k2: int| 0 <= k2 < up.len()
                    implies self.outputs@[(#[trigger] up[k2]) as int]
                        == pre.outputs@[up[k2] as int] by {
                    if self.outputs@[up[k2] as int] != pre.outputs@[up[k2] as int] {
                        assert(up.contains(up[k2]));
                        assert(self.nodes@[up[k2] as int].downstream@.contains(j as usize));
                        let w = choose|w: int| 0 <= w < self.nodes@[up[k2] as int].downstream@.len()
                            && self.nodes@[up[k2] as int].downstream@[w] == j as usize;
                        assert(self.dirty@.contains(self.nodes@[up[k2] as int].downstream@[w]));
                    }
                }
                assert(ups_rels(self.outputs@, self.nodes@[j].upstream@)
                    =~= ups_rels(pre.outputs@, pre.nodes@[j].upstream@));
                if self.outputs@[j] != pre.outputs@[j] {
                    assert(self.is_table(j));
                    assert(self.spec_eval_at(j) is None);
                }
            }
            assert forall|i: int| 0 <= i < self.len() && old(self).plain_table(i)
                implies (#[trigger] self.outputs@[i]).to_set()
                    == old(self).apply_changes_upto(changes@, changes@.len() as int)[i] by {
                assert(self.out_sets()[i] == self.outputs@[i].to_set());
            }
        }
        let mut fuel: u64 = u64::MAX;
        let mut quiet = false;
        while !quiet && fuel > 0
            invariant
                self.wf(),
                self.nodes == old(self).nodes,
                nlen0 as int == self.len(),
                self.clean_current(),
                quiet ==> self.dirty@.len() == 0
                    && (forall|i: int| 0 <= i < self.len() ==> #[trigger] self.node_current(i))
                    && (forall|i: int| 0 <= i < self.len() && self.is_table(i)
                        ==> #[trigger] self.table_stable(i)),
                forall|i: int| 0 <= i < self.len() && old(self).plain_table(i)
                    ==> (#[trigger] self.outputs@[i]).to_set()
                        == old(self).apply_changes_upto(changes@, changes@.len() as int)[i],
                old(self).quiescent() && changes@.len() == 0
                    ==> (self.outputs@ == old(self).outputs@
                        && self.dirty@ == old(self).dirty@
                        && (quiet || fuel == u64::MAX)),
            decreases fuel,
        {
            let ghost head = *self;
            let ghost fuel0 = fuel;
            fuel = fuel - 1;
            let drained = self.recalculate();
            let ghost s1 = *self;
            let changed = self.tick();
            let ghost s2 = *self;
            if !changed {
                if drained {
                    quiet = true;
                    proof {
                        assert(self.outputs@ =~= s1.outputs@);
                        assert(s1.dirty@.len() == 0);
                        assert forall|i: int| 0 <= i < self.len()
                            implies #[trigger] self.node_current(i) by {
                            assert(s1.node_current(i));
                        }
                        assert forall|i: int| 0 <= i < self.len() && self.is_table(i)
                            implies #[trigger] self.table_stable(i) by {
                            assert(self.outputs@[i].to_set() == s1.tick_result(i));
                            assert(self.tick_result(i) == s1.tick_result(i));
                        }
                    }
                } else {
                    proof {
                        assert(self.outputs@ =~= s1.outputs@);
                        assert forall|j: int| 0 <= j < self.len() && !self.dirty@.contains(j as usize)
                            implies #[trigger] self.node_current(j) by {
                            assert(!s1.dirty@.contains(j as usize));
                            assert(s1.node_current(j));
                        }
                    }
                }
            } else {
                self.mark_table_downstream();
                proof {
                    assert forall|j: int| 0 <= j < self.len() && !self.dirty@.contains(j as usize)
                        implies #[trigger] self.node_current(j) by {
                        assert((j as usize) as int == j);
                        assert(!s2.dirty@.contains(j as usize));
                        assert(!s1.dirty@.contains(j as usize));
                        assert(s1.node_current(j));
                        let up = self.nodes@[j].upstream@;
                        assert forall|k2: int| 0 <= k2 < up.len()
                            implies self.outputs@[(#[trigger] up[k2]) as int]
                                == s1.outputs@[up[k2] as int] by {
                            if s1.is_table(up[k2] as int) {
                                assert(up.contains(up[k2]));
                                assert(self.nodes@[up[k2] as int].downstream@.contains(j as usize));
                                let w = choose|w: int| 0 <= w < self.nodes@[up[k2] as int].downstream@.len()
                                    && self.nodes@[up[k2] as int].downstream@[w] == j as usize;
                                assert(self.dirty@.contains(self.nodes@[up[k2] as int].downstream@[w]));
                            } else {
                                assert(self.outputs@[up[k2] as int] == s2.outputs@[up[k2] as int]);
                            }
                        }
                        assert(ups_rels(self.outputs@, self.nodes@[j].upstream@)
                            =~= ups_rels(s1.outputs@, s1.nodes@[j].upstream@));
                        if self.outputs@[j] != s1.outputs@[j] {
                            assert(s1.is_table(j));
                            assert(self.spec_eval_at(j) is None);
                        }
                    }
                }
            }
            proof {
                assert forall|i: int| 0 <= i < self.len() && old(self).plain_table(i)
                    implies (#[trigger] self.outputs@[i]).to_set()
                        == old(self).apply_changes_upto(changes@, changes@.len() as int)[i] by {
                    assert(head.is_table(i));
                    assert(s1.outputs@[i] == head.outputs@[i]);
                    assert(s1.plain_table(i));
                    assert(s1.tick_ins(i) =~= Set::<Seq<SpecValue>>::empty());
                    assert(s1.tick_rem(i) =~= Set::<Seq<SpecValue>>::empty());
                    assert(s1.tick_result(i) =~= s1.outputs@[i].to_set());
                    assert(s2.outputs@[i].to_set() == s1.tick_result(i));
                    assert(self.outputs@[i] == s2.outputs@[i]);
                }
                if old(self).quiescent() && changes@.len() == 0 {
                    assert(head.outputs@ == old(self).outputs@);
                    assert(head.dirty@ == old(self).dirty@);
                    assert(head.dirty@.len() == 0);
                    assert(s1 == head);
                    assert(!changed) by {
                        if changed {
                            let u = choose|u: int| 0 <= u < s2.len() && s1.is_table(u)
                                && (#[trigger] s2.outputs@[u]).to_set() != s1.outputs@[u].to_set();
                            assert(old(self).table_stable(u));
                            assert(s1.table_stable(u));
                            assert(s2.outputs@[u].to_set() == s1.tick_result(u));
                        }
                    }
                    assert(self.outputs@ == s2.outputs@ && s2.outputs@ == s1.outputs@);
                    assert(self.dirty@ == s1.dirty@);
                    assert(drained);
                    assert(quiet);
                }
            }
        }
        proof {
            if old(self).quiescent() && changes@.len() == 0 {
                assert(quiet);
            }
        }
        Ok(quiet)
    }

    /// The change list that transforms the old snapshot into this one,
    /// matched by durable id: a structural diff for ids present in both at
    /// the same arity, a full retraction then a full assertion when the arity
    /// changed, a full assertion for new ids, and a full retraction for ids
    /// only the old snapshot carries.  Applying the result to the old
    /// snapshot's observable map reproduces this snapshot's observable state
    /// exactly; observably equal snapshots diff to all-empty changes.
    pub fn changes_from(&self, old_self: Flow) -> (r: Changes)
        requires
            self.wf(),
            old_self.wf(),
        ensures
            diff_restores(*self, old_self, r@),
            changes_models(r@) == spec_diff_entries(*self, old_self, self.len())
                + spec_diff_tail(*self, old_self, old_self.len()),
            observably_equal(*self, old_self) ==> forall|k: int| 0 <= k < r@.len()
                ==> (#[trigger] r@[k]).1.spec_is_empty(),
    {
        let ghost base = old_self.obs_map();
        let mut out: Changes = Vec::new();
        let n: usize = self.nodes.len();
        let mut i: usize = 0;
        while i < n
            invariant
                self.wf(),
                old_self.wf(),
                n == self.nodes@.len(),
                0 <= i <= n,
                base == old_self.obs_map(),
                forall|id: Seq<char>|
                    #[trigger] apply_changes_map(base, out@, out@.len() as int).dom().contains(id)
                    <==> (base.dom().contains(id)
                        || exists|p: int| 0 <= p < i && (#[trigger] self.nodes@[p]).id@ == id),
                forall|p: int| 0 <= p < i
                    ==> apply_changes_map(base, out@, out@.len() as int)[
                        (#[trigger] self.nodes@[p]).id@] == self.outputs@[p].to_set(),
                forall|id: Seq<char>| #[trigger] base.dom().contains(id)
                    && (forall|p: int| 0 <= p < i ==> (#[trigger] self.nodes@[p]).id@ != id)
                    ==> apply_changes_map(base, out@, out@.len() as int)[id] == base[id],
                observably_equal(*self, old_self) ==> forall|k: int| 0 <= k < out@.len()
                    ==> (#[trigger] out@[k]).1.spec_is_empty(),
                changes_models(out@) == spec_diff_entries(*self, old_self, i as int),
            decreases n - i,
        {
            let ghost m0 = apply_changes_map(base, out@, out@.len() as int);
            let ghost idm = self.nodes@[i as int].id@;
            proof {
                assert forall|p: int| 0 <= p < i
                    implies (#[trigger] self.nodes@[p]).id@ != idm by {
                    assert(self.nodes@[p].id@ != self.nodes@[i as int].id@);
                }
            }
            let id = self.nodes[i].id.clone();
            match old_self.get_ix(&id) {
                Option::Some(oix) => {
                    proof {
                        assert(base.dom().contains(idm));
                        assert(base[idm] == old_self.outputs@[oix as int].to_set());
                        assert(m0[idm] == base[idm]);
                    }
                    if self.outputs[i].fields == old_self.outputs[oix].fields {
                        let c = self.outputs[i].change_from(&old_self.outputs[oix]);
                        let ghost out0 = out@;
                        let ghost ec = c;
                        out.push((id, c));
                        proof {
                            lemma_apply_prefix(base, out0, out@, out0.len() as int);
                            let news = self.outputs@[i as int].to_set();
                            let olds = old_self.outputs@[oix as int].to_set();
                            assert(changes_models(out@) =~= changes_models(out0)
                                .push((idm, ec.ins_set(), ec.rem_set())));
                            assert((idm, ec.ins_set(), ec.rem_set())
                                == (idm, news.difference(olds), olds.difference(news)));
                            assert(changes_models(out@)
                                =~= spec_diff_entries(*self, old_self, i as int + 1));
                            assert(apply_changes_map(base, out@, out@.len() as int)
                                == m0.insert(idm, m0[idm].difference(ec.rem_set()).union(ec.ins_set())));
                            assert(olds.difference(olds.difference(news)).union(news.difference(olds))
                                =~= news);
                            if observably_equal(*self, old_self) {
                                lemma_find_self(old_self, oix as int);
                                assert(old_self.spec_find(idm) == Some(oix as int));
                                assert(news == olds);
                            }
                        }
                    } else {
                        let c1 = old_self.outputs[oix].as_remove();
                        let ghost out0 = out@;
                        let ghost ec1 = c1;
                        out.push((id.clone(), c1));
                        proof {
                            lemma_apply_prefix(base, out0, out@, out0.len() as int);
                            let olds = old_self.outputs@[oix as int].to_set();
                            assert(m0[idm].difference(ec1.rem_set()).union(ec1.ins_set())
                                =~= Set::<Seq<SpecValue>>::empty());
                            assert(ec1.ins_set() =~= Set::<Seq<SpecValue>>::empty());
                            assert(changes_models(out@) =~= changes_models(out0)
                                .push((idm, Set::empty(), olds)));
                        }
                        let ghost m1 = apply_changes_map(base, out@, out@.len() as int);
                        let c2 = self.outputs[i].as_insert();
                        let ghost out1 = out@;
                        let ghost ec2 = c2;
                        out.push((id, c2));
                        proof {
                            lemma_apply_prefix(base, out1, out@, out1.len() as int);
                            assert(m1.dom().contains(idm));
                            assert(m1[idm] =~= Set::<Seq<SpecValue>>::empty());
                            assert(m1[idm].difference(ec2.rem_set()).union(ec2.ins_set())
                                =~= self.outputs@[i as int].to_set());
                            assert(ec2.rem_set() =~= Set::<Seq<SpecValue>>::empty());
                            assert(changes_models(out@) =~= changes_models(out1)
                                .push((idm, self.outputs@[i as int].to_set(), Set::empty())));
                            assert(changes_models(out@)
                                =~= spec_diff_entries(*self, old_self, i as int + 1));
                            if observably_equal(*self, old_self) {
                                lemma_find_self(old_self, oix as int);
                                assert(self.outputs@[i as int].fields
                                    == old_self.outputs@[oix as int].fields);
                            }
                        }
                    }
                }
                Option::None => {
                    proof {
                        assert(old_self.spec_find(idm) is None);
                        assert(!base.dom().contains(idm));
                        assert(!m0.dom().contains(idm));
                    }
                    let c = self.outputs[i].as_insert();
                    let ghost out0 = out@;
                    let ghost ec = c;
                    out.push((id, c));
                    proof {
                        lemma_apply_prefix(base, out0, out@, out0.len() as int);
                        assert(Set::<Seq<SpecValue>>::empty().difference(ec.rem_set())
                            .union(ec.ins_set()) =~= self.outputs@[i as int].to_set());
                        assert(ec.rem_set() =~= Set::<Seq<SpecValue>>::empty());
                        assert(changes_models(out@) =~= changes_models(out0)
                            .push((idm, self.outputs@[i as int].to_set(), Set::empty())));
                        assert(changes_models(out@)
                            =~= spec_diff_entries(*self, old_self, i as int + 1));
                        if observably_equal(*self, old_self) {
                            assert(old_self.spec_find(self.nodes@[i as int].id@) is Some);
                        }
                    }
                }
            }
            proof {
                let m2 = apply_changes_map(base, out@, out@.len() as int);
                assert forall|id2: Seq<char>| #[trigger] m2.dom().contains(id2)
                    implies (base.dom().contains(id2)
                        || exists|p: int| 0 <= p < i + 1 && (#[trigger] self.nodes@[p]).id@ == id2) by {
                    if id2 == idm {
                        assert(self.nodes@[i as int].id@ == id2);
                    } else {
                        assert(m0.dom().contains(id2));
                    }
                }
                assert forall|id2: Seq<char>|
                    (base.dom().contains(id2)
                        || exists|p: int| 0 <= p < i + 1 && (#[trigger] self.nodes@[p]).id@ == id2)
                    implies #[trigger] m2.dom().contains(id2) by {
                    if id2 != idm {
                        assert(m0.dom().contains(id2));
                    }
                }
            }
            i = i + 1;
        }
        proof {
            assert(changes_models(out@)
                =~= spec_diff_entries(*self, old_self, n as int)
                    + spec_diff_tail(*self, old_self, 0));
        }
        let no: usize = old_self.nodes.len();
        let mut q: usize = 0;
        while q < no
            invariant
                self.wf(),
                old_self.wf(),
                n == self.nodes@.len(),
                no == old_self.nodes@.len(),
                0 <= q <= no,
                base == old_self.obs_map(),
                forall|p: int| 0 <= p < n
                    ==> apply_changes_map(base, out@, out@.len() as int).dom().contains(
                        (#[trigger] self.nodes@[p]).id@),
                forall|p: int| 0 <= p < n
                    ==> apply_changes_map(base, out@, out@.len() as int)[
                        (#[trigger] self.nodes@[p]).id@] == self.outputs@[p].to_set(),
                forall|q2: int| 0 <= q2 < q
                    && self.spec_find((#[trigger] old_self.nodes@[q2]).id@) is None
                    ==> apply_changes_map(base, out@, out@.len() as int).dom().contains(
                            old_self.nodes@[q2].id@)
                        && apply_changes_map(base, out@, out@.len() as int)[
                            old_self.nodes@[q2].id@] == Set::<Seq<SpecValue>>::empty(),
                forall|q2: int| q <= q2 < no
                    && self.spec_find((#[trigger] old_self.nodes@[q2]).id@) is None
                    ==> apply_changes_map(base, out@, out@.len() as int).dom().contains(
                            old_self.nodes@[q2].id@)
                        && apply_changes_map(base, out@, out@.len() as int)[
                            old_self.nodes@[q2].id@] == base[old_self.nodes@[q2].id@],
                observably_equal(*self, old_self) ==> forall|k: int| 0 <= k < out@.len()
                    ==> (#[trigger] out@[k]).1.spec_is_empty(),
                changes_models(out@) == spec_diff_entries(*self, old_self, n as int)
                    + spec_diff_tail(*self, old_self, q as int),
            decreases no - q,
        {
            let ghost m0 = apply_changes_map(base, out@, out@.len() as int);
            let ghost idm = old_self.nodes@[q as int].id@;
            match self.get_ix(&old_self.nodes[q].id) {
                Option::Some(_) => {}
                Option::None => {
                    proof {
                        assert(self.spec_find(idm) is None);
                        lemma_find_self(old_self, q as int);
                        assert(base.dom().contains(idm));
                        assert(base[idm] == old_self.outputs@[q as int].to_set());
                        assert(m0[idm] == base[idm]);
                        assert forall|q2: int| 0 <= q2 < no && q2 != q as int
                            implies (#[trigger] old_self.nodes@[q2]).id@ != idm by {
                            if q2 < q as int {
                                assert(old_self.nodes@[q2].id@ != old_self.nodes@[q as int].id@);
                            } else {
                                assert(old_self.nodes@[q as int].id@ != old_self.nodes@[q2].id@);
                            }
                        }
                        assert forall|p: int| 0 <= p < n
                            implies (#[trigger] self.nodes@[p]).id@ != idm by {
                            if self.nodes@[p].id@ == idm {
                                assert(self.spec_find(idm) is Some);
                            }
                        }
                    }
                    let id = old_self.nodes[q].id.clone();
                    let c = old_self.outputs[q].as_remove();
                    let ghost out0 = out@;
                    let ghost ec = c;
                    out.push((id, c));
                    proof {
                        lemma_apply_prefix(base, out0, out@, out0.len() as int);
                        assert(m0[idm].difference(ec.rem_set()).union(ec.ins_set())
                            =~= Set::<Seq<SpecValue>>::empty());
                        assert(ec.ins_set() =~= Set::<Seq<SpecValue>>::empty());
                        assert(changes_models(out@) =~= changes_models(out0)
                            .push((idm, Set::empty(), old_self.outputs@[q as int].to_set())));
                        assert(changes_models(out@)
                            =~= (spec_diff_entries(*self, old_self, n as int)
                                + spec_diff_tail(*self, old_self, q as int + 1)));
                    }
                }
            }
            q = q + 1;
        }
        proof {
            assert forall|i2: int| 0 <= i2 < old_self.len()
                && self.spec_find((#[trigger] old_self.nodes@[i2]).id@) is None
                implies apply_changes_map(base, out@, out@.len() as int).dom().contains(
                        old_self.nodes@[i2].id@)
                    && apply_changes_map(base, out@, out@.len() as int)[
                        old_self.nodes@[i2].id@] == Set::<Seq<SpecValue>>::empty() by {}
        }
        out
    }

    /// A snapshot of the observable state: the same ids and output relations
    /// under inert table views, suitable as the old side of a later diff.
    pub fn snapshot(&self) -> (r: Flow)
        requires
            self.wf(),
        ensures
            r.wf(),
            r.len() == self.len(),
            forall|i: int| 0 <= i < r.len()
                ==> (#[trigger] r.nodes@[i]).id@ == self.nodes@[i].id@,
            forall|i: int| 0 <= i < r.len()
                ==> (#[trigger] r.outputs@[i]).to_set() == self.outputs@[i].to_set(),
            forall|i: int| 0 <= i < r.len()
                ==> (#[trigger] r.outputs@[i]).fields == self.outputs@[i].fields,
            forall|id: Seq<char>| #[trigger] r.spec_find(id) == self.spec_find(id),
            r.obs_map() == self.obs_map(),
    {
        let mut nodes: Vec<Node> = Vec::new();
        let mut outputs: Vec<Relation> = Vec::new();
        let n: usize = self.nodes.len();
        let mut i: usize = 0;
        while i < n
            invariant
                self.wf(),
                n == self.nodes@.len(),
                0 <= i <= n,
                nodes@.len() == i,
                outputs@.len() == i,
                forall|j: int| 0 <= j < i ==> (#[trigger] nodes@[j]).id@ == self.nodes@[j].id@,
                forall|j: int| 0 <= j < i ==> (#[trigger] nodes@[j]).view is Table,
                forall|j: int| 0 <= j < i ==> (#[trigger] nodes@[j]).upstream@.len() == 0,
                forall|j: int| 0 <= j < i ==> (#[trigger] nodes@[j]).downstream@.len() == 0,
                forall|j: int| 0 <= j < i
                    ==> (#[trigger] outputs@[j]).to_set() == self.outputs@[j].to_set(),
                forall|j: int| 0 <= j < i
                    ==> (#[trigger] outputs@[j]).fields == self.outputs@[j].fields,
                forall|j: int| 0 <= j < i ==> (#[trigger] outputs@[j]).wf(),
            decreases n - i,
        {
            nodes.push(Node {
                id: self.nodes[i].id.clone(),
                view: ViewKind::Table(Table { insert: None, remove: None }),
                upstream: Vec::new(),
                downstream: Vec::new(),
            });
            outputs.push(self.outputs[i].duplicate());
            i = i + 1;
        }
        let r = Flow { nodes, outputs, dirty: Vec::new() };
        proof {
            assert(r.wf());
            assert forall|id: Seq<char>| #[trigger] r.spec_find(id) == self.spec_find(id) by {
                if self.spec_find(id) is Some {
                    let k = self.spec_find(id)->Some_0;
                    assert(r.nodes@[k].id@ == id);
                    assert(r.spec_find(id) is Some);
                    let k2 = r.spec_find(id)->Some_0;
                    assert(self.nodes@[k2].id@ == id);
                    lemma_find_self(*self, k);
                    lemma_find_self(*self, k2);
                } else {
                    if r.spec_find(id) is Some {
                        let k2 = r.spec_find(id)->Some_0;
                        assert(self.nodes@[k2].id@ == id);
                    }
                }
            }
            assert forall|id: Seq<char>| r.obs_map().dom().contains(id)
                implies self.obs_map().dom().contains(id)
                    && r.obs_map()[id] == self.obs_map()[id] by {
                assert(r.spec_find(id) == self.spec_find(id));
            }
            assert(r.obs_map() =~= self.obs_map());
        }
        r
    }

    /// The raw selection of one table selector against the current outputs:
    /// empty when the selector is absent or its slot is out of range.
    pub open spec fn spec_selector(self, i: int, sel: Option<(usize, Select)>) -> Set<Seq<SpecValue>> {
        match sel {
            Option::Some(slot_sel) => if (slot_sel.0 as int) < self.nodes@[i].upstream@.len()
                && (self.nodes@[i].upstream@[slot_sel.0 as int] as int) < self.outputs@.len() {
                spec_select(
                    self.outputs@[self.nodes@[i].upstream@[slot_sel.0 as int] as int].to_set(),
                    slot_sel.1.columns@,
                )
            } else {
                Set::empty()
            },
            Option::None => Set::empty(),
        }
    }

    /// What a table's insert selector produces, before conflict resolution.
    pub open spec fn tick_ins_raw(self, i: int) -> Set<Seq<SpecValue>> {
        match self.nodes@[i].view {
            ViewKind::Table(t) => self.spec_selector(i, t.insert),
            _ => Set::empty(),
        }
    }

    /// What a table's remove selector produces, before conflict resolution.
    pub open spec fn tick_rem_raw(self, i: int) -> Set<Seq<SpecValue>> {
        match self.nodes@[i].view {
            ViewKind::Table(t) => self.spec_selector(i, t.remove),
            _ => Set::empty(),
        }
    }

    /// The inserts a tick applies to table `i`: the selected tuples minus the
    /// conflicting ones (asserted and retracted in the same tick), kept only
    /// at the table's arity.
    pub open spec fn tick_ins(self, i: int) -> Set<Seq<SpecValue>> {
        self.tick_ins_raw(i).difference(self.tick_rem_raw(i)).filter(
            |t: Seq<SpecValue>| t.len() == self.outputs@[i].fields,
        )
    }

    /// The removes a tick applies to table `i`: the selected tuples minus the
    /// conflicting ones.
    pub open spec fn tick_rem(self, i: int) -> Set<Seq<SpecValue>> {
        self.tick_rem_raw(i).difference(self.tick_ins_raw(i))
    }

    /// What one tick leaves in table `i`.
    pub open spec fn tick_result(self, i: int) -> Set<Seq<SpecValue>> {
        self.outputs@[i].to_set().difference(self.tick_rem(i)).union(self.tick_ins(i))
    }

    /// Whether one tick would leave table `i` unchanged.
    pub open spec fn table_stable(self, i: int) -> bool {
        self.tick_result(i) == self.outputs@[i].to_set()
    }

    /// One table-mutation pass: for every table, applies the selector-derived
    /// inserts and removes (all selections read the pre-tick outputs), with
    /// tuples asserted and retracted in the same tick cancelling to a no-op.
    /// Reports whether any tuple's membership actually changed.  The dirty
    /// set is not consulted or modified.
    pub fn tick(&mut self) -> (r: bool)
        requires
            old(self).wf(),
        ensures
            final(self).wf(),
            final(self).nodes == old(self).nodes,
            final(self).dirty == old(self).dirty,
            forall|u: int| 0 <= u < final(self).len() && !old(self).is_table(u)
                ==> (#[trigger] final(self).outputs@[u]) == old(self).outputs@[u],
            forall|u: int| 0 <= u < final(self).len() && old(self).is_table(u)
                ==> (#[trigger] final(self).outputs@[u]).to_set() == old(self).tick_result(u),
            forall|u: int| 0 <= u < final(self).len()
                ==> (#[trigger] final(self).outputs@[u]).fields == old(self).outputs@[u].fields,
            r == exists|u: int| 0 <= u < final(self).len() && old(self).is_table(u)
                && (#[trigger] final(self).outputs@[u]).to_set() != old(self).outputs@[u].to_set(),
            !r ==> final(self).outputs@ == old(self).outputs@,
    {
        let n: usize = self.nodes.len();
        let mut sels: Vec<(Vec<Vec<Value>>, Vec<Vec<Value>>)> = Vec::new();
        let mut i: usize = 0;
        while i < n
            invariant
                *self == *old(self),
                self.wf(),
                n == self.nodes@.len(),
                0 <= i <= n,
                sels@.len() == i,
                forall|u: int| 0 <= u < i && self.is_table(u)
                    ==> tuples_model((#[trigger] sels@[u]).0).to_set() == self.tick_ins(u),
                forall|u: int| 0 <= u < i && self.is_table(u)
                    ==> tuples_model((#[trigger] sels@[u]).1).to_set() == self.tick_rem(u),
                forall|u: int, j: int| 0 <= u < i
                    && 0 <= j < tuples_model(sels@[u].0).len()
                    ==> (#[trigger] tuples_model(sels@[u].0)[j]).len() == self.outputs@[u].fields,
            decreases n - i,
        {
            let mut ins_raw: Vec<Vec<Value>> = Vec::new();
            let mut rem_raw: Vec<Vec<Value>> = Vec::new();
            let mut is_tab = false;
            match &self.nodes[i].view {
                ViewKind::Table(t) => {
                    is_tab = true;
                    match &t.insert {
                        Option::Some(slot_sel) => {
                            if slot_sel.0 < self.nodes[i].upstream.len() {
                                let u: usize = self.nodes[i].upstream[slot_sel.0];
                                ins_raw = slot_sel.1.select(&self.outputs[u]);
                            }
                        }
                        Option::None => {}
                    }
                    match &t.remove {
                        Option::Some(slot_sel) => {
                            if slot_sel.0 < self.nodes[i].upstream.len() {
                                let u: usize = self.nodes[i].upstream[slot_sel.0];
                                rem_raw = slot_sel.1.select(&self.outputs[u]);
                            }
                        }
                        Option::None => {}
                    }
                }
                _ => {}
            }
            proof {
                if is_tab {
                    assert(tuples_model(ins_raw).to_set() == self.tick_ins_raw(i as int));
                    assert(tuples_model(rem_raw).to_set() == self.tick_rem_raw(i as int));
                }
            }
            let fields: usize = self.outputs[i].fields;
            let mut ins: Vec<Vec<Value>> = Vec::new();
            let ni: usize = ins_raw.len();
            let mut k: usize = 0;
            while k < ni
                invariant
                    ni == ins_raw@.len(),
                    0 <= k <= ni,
                    tuples_model(ins).to_set() == tuples_model(ins_raw).take(k as int).to_set()
                        .difference(tuples_model(rem_raw).to_set())
                        .filter(|t: Seq<SpecValue>| t.len() == fields),
                    forall|j: int| 0 <= j < tuples_model(ins).len()
                        ==> (#[trigger] tuples_model(ins)[j]).len() == fields,
                decreases ni - k,
            {
                let ghost pre = tuples_model(ins);
                let ghost im = tuples_model(ins_raw);
                let keep_len = ins_raw[k].len() == fields;
                let in_rem = vec_tuples_contains(&rem_raw, &ins_raw[k]);
                if keep_len && !in_rem {
                    let t = clone_tuple(&ins_raw[k]);
                    ins.push(t);
                    proof {
                        assert(tuples_model(ins) =~= pre.push(im[k as int]));
                        crate::relation::lemma_push_to_set(pre, im[k as int]);
                    }
                }
                proof {
                    crate::relation::lemma_take_to_set(im, k as int);
                    assert(tuples_model(ins).to_set() =~= im.take(k as int + 1).to_set()
                        .difference(tuples_model(rem_raw).to_set())
                        .filter(|t: Seq<SpecValue>| t.len() == fields));
                }
                k = k + 1;
            }
            let mut rem: Vec<Vec<Value>> = Vec::new();
            let nr: usize = rem_raw.len();
            let mut k: usize = 0;
            while k < nr
                invariant
                    nr == rem_raw@.len(),
                    0 <= k <= nr,
                    tuples_model(rem).to_set() == tuples_model(rem_raw).take(k as int).to_set()
                        .difference(tuples_model(ins_raw).to_set()),
                decreases nr - k,
            {
                let ghost pre = tuples_model(rem);
                let ghost rm = tuples_model(rem_raw);
                let in_ins = vec_tuples_contains(&ins_raw, &rem_raw[k]);
                if !in_ins {
                    let t = clone_tuple(&rem_raw[k]);
                    rem.push(t);
                    proof {
                        assert(tuples_model(rem) =~= pre.push(rm[k as int]));
                        crate::relation::lemma_push_to_set(pre, rm[k as int]);
                    }
                }
                proof {
                    crate::relation::lemma_take_to_set(rm, k as int);
                    assert(tuples_model(rem).to_set() =~= rm.take(k as int + 1).to_set()
                        .difference(tuples_model(ins_raw).to_set()));
                }
                k = k + 1;
            }
            proof {
                let im = tuples_model(ins_raw);
                let rm = tuples_model(rem_raw);
                assert(im.take(ni as int) =~= im);
                assert(rm.take(nr as int) =~= rm);
                if is_tab {
                    assert(tuples_model(ins).to_set() =~= self.tick_ins(i as int));
                    assert(tuples_model(rem).to_set() =~= self.tick_rem(i as int));
                }
            }
            sels.push((ins, rem));
            i = i + 1;
        }
        let mut changed = false;
        let mut i: usize = 0;
        while i < n
            invariant
                self.nodes == old(self).nodes,
                self.dirty == old(self).dirty,
                self.wf(),
                old(self).wf(),
                n == self.nodes@.len(),
                0 <= i <= n,
                sels@.len() == n,
                forall|u: int| 0 <= u < n && old(self).is_table(u)
                    ==> tuples_model((#[trigger] sels@[u]).0).to_set() == old(self).tick_ins(u),
                forall|u: int| 0 <= u < n && old(self).is_table(u)
                    ==> tuples_model((#[trigger] sels@[u]).1).to_set() == old(self).tick_rem(u),
                forall|u: int, j: int| 0 <= u < n
                    && 0 <= j < tuples_model(sels@[u].0).len()
                    ==> (#[trigger] tuples_model(sels@[u].0)[j]).len() == old(self).outputs@[u].fields,
                forall|u: int| i <= u < n
                    ==> (#[trigger] self.outputs@[u]) == old(self).outputs@[u],
                forall|u: int| 0 <= u < i && !old(self).is_table(u)
                    ==> (#[trigger] self.outputs@[u]) == old(self).outputs@[u],
                forall|u: int| 0 <= u < i && old(self).is_table(u)
                    ==> (#[trigger] self.outputs@[u]).to_set() == old(self).tick_result(u),
                forall|u: int| 0 <= u < self.len()
                    ==> (#[trigger] self.outputs@[u]).fields == old(self).outputs@[u].fields,
                changed == exists|u: int| 0 <= u < i && old(self).is_table(u)
                    && (#[trigger] self.outputs@[u]).to_set() != old(self).outputs@[u].to_set(),
                !changed ==> self.outputs@ == old(self).outputs@,
            decreases n - i,
        {
            let ghost s0 = *self;
            let ghost changed0 = changed;
            let mut is_tab = false;
            match &self.nodes[i].view {
                ViewKind::Table(_) => {
                    is_tab = true;
                }
                _ => {}
            }
            if is_tab {
                let ghost old_set = old(self).outputs@[i as int].to_set();
                let ghost ins_set = old(self).tick_ins(i as int);
                let ghost rem_set = old(self).tick_rem(i as int);
                let mut local_changed = false;
                let ins = &sels[i].0;
                let ni: usize = ins.len();
                let mut k: usize = 0;
                while k < ni
                    invariant
                        self.nodes == s0.nodes,
                        self.dirty == s0.dirty,
                        self.wf(),
                        (i as int) < self.len(),
                        self.outputs@.len() == s0.outputs@.len(),
                        forall|u: int| 0 <= u < self.len() && u != i as int
                            ==> (#[trigger] self.outputs@[u]) == s0.outputs@[u],
                        self.outputs@[i as int].fields == s0.outputs@[i as int].fields,
                        old_set == s0.outputs@[i as int].to_set(),
                        ni == ins@.len(),
                        0 <= k <= ni,
                        forall|j: int| 0 <= j < tuples_model(*ins).len()
                            ==> (#[trigger] tuples_model(*ins)[j]).len() == s0.outputs@[i as int].fields,
                        self.outputs@[i as int].to_set()
                            == old_set.union(tuples_model(*ins).take(k as int).to_set()),
                        local_changed == (self.outputs@[i as int].to_set() != old_set),
                        !local_changed ==> self.outputs@ == s0.outputs@,
                    decreases ni - k,
                {
                    let ghost cur = self.outputs@[i as int].to_set();
                    let ghost im = tuples_model(*ins);
                    proof {
                        assert(tuples_model(*ins)[k as int].len()
                            == s0.outputs@[i as int].fields);
                        assert(tuple_model(ins@[k as int]).len() == ins@[k as int]@.len());
                    }
                    let t = clone_tuple(&ins[k]);
                    let grew = self.outputs[i].insert(t);
                    proof {
                        crate::relation::lemma_take_to_set(im, k as int);
                        assert(self.outputs@[i as int].to_set()
                            =~= old_set.union(im.take(k as int + 1).to_set()));
                        if grew {
                            assert(!cur.contains(im[k as int]));
                            assert(!old_set.contains(im[k as int]));
                            assert(self.outputs@[i as int].to_set().contains(im[k as int]));
                        } else {
                            assert(self.outputs@[i as int].to_set() =~= cur);
                        }
                    }
                    local_changed = local_changed || grew;
                    k = k + 1;
                }
                proof {
                    assert(tuples_model(*ins).take(ni as int) =~= tuples_model(*ins));
                    assert(self.outputs@[i as int].to_set() =~= old_set.union(ins_set));
                }
                let ghost mid = self.outputs@[i as int].to_set();
                let rem = &sels[i].1;
                let nr: usize = rem.len();
                let mut k: usize = 0;
                while k < nr
                    invariant
                        self.nodes == s0.nodes,
                        self.dirty == s0.dirty,
                        self.wf(),
                        (i as int) < self.len(),
                        self.outputs@.len() == s0.outputs@.len(),
                        forall|u: int| 0 <= u < self.len() && u != i as int
                            ==> (#[trigger] self.outputs@[u]) == s0.outputs@[u],
                        self.outputs@[i as int].fields == s0.outputs@[i as int].fields,
                        old_set == s0.outputs@[i as int].to_set(),
                        mid == old_set.union(ins_set),
                        nr == rem@.len(),
                        0 <= k <= nr,
                        self.outputs@[i as int].to_set()
                            == mid.difference(tuples_model(*rem).take(k as int).to_set()),
                        local_changed == (mid != old_set
                            || self.outputs@[i as int].to_set() != mid),
                        !local_changed ==> self.outputs@ == s0.outputs@,
                    decreases nr - k,
                {
                    let ghost cur = self.outputs@[i as int].to_set();
                    let ghost rm = tuples_model(*rem);
                    let had = self.outputs[i].remove(&rem[k]);
                    proof {
                        crate::relation::lemma_take_to_set(rm, k as int);
                        assert(self.outputs@[i as int].to_set()
                            =~= mid.difference(rm.take(k as int + 1).to_set()));
                        if had {
                            assert(cur.contains(rm[k as int]));
                            assert(!self.outputs@[i as int].to_set().contains(rm[k as int]));
                            assert(mid.contains(rm[k as int]));
                        } else {
                            assert(self.outputs@[i as int].to_set() =~= cur);
                        }
                    }
                    local_changed = local_changed || had;
                    k = k + 1;
                }
                proof {
                    assert(tuples_model(*rem).take(nr as int) =~= tuples_model(*rem));
                    assert(self.outputs@[i as int].to_set()
                        =~= old_set.union(ins_set).difference(rem_set));
                    lemma_apply_disjoint(old_set, ins_set, rem_set);
                    assert(self.outputs@[i as int].to_set() =~= old(self).tick_result(i as int));
                    lemma_tick_changed(old_set, ins_set, rem_set);
                    assert(local_changed == (self.outputs@[i as int].to_set() != old_set));
                }
                changed = changed || local_changed;
                proof {
                    if !changed {
                        assert(self.outputs@ =~= s0.outputs@);
                    }
                }
            }
            proof {
                if changed {
                    if changed0 {
                        let u = choose|u: int| 0 <= u < i && old(self).is_table(u)
                            && (#[trigger] s0.outputs@[u]).to_set() != old(self).outputs@[u].to_set();
                        assert(self.outputs@[u] == s0.outputs@[u]);
                        assert(0 <= u < i + 1 && old(self).is_table(u)
                            && self.outputs@[u].to_set() != old(self).outputs@[u].to_set());
                    } else {
                        assert(old(self).is_table(i as int)
                            && self.outputs@[i as int].to_set() != old(self).outputs@[i as int].to_set());
                    }
                } else {
                    assert forall|u: int| 0 <= u < i + 1 && old(self).is_table(u)
                        implies (#[trigger] self.outputs@[u]).to_set()
                            == old(self).outputs@[u].to_set() by {
                        if u < i {
                            assert(self.outputs@[u] == s0.outputs@[u]);
                            assert(!(s0.outputs@[u].to_set() != old(self).outputs@[u].to_set()));
                        }
                    }
                }
            }
            i = i + 1;
        }
        changed
    }
}

/// The observable map after applying the first `k` id-keyed changes: each
/// change rewrites its id's set to `(previous \ removed) ∪ inserted`,
/// starting from the empty set for an id not yet in the map.
pub open spec fn apply_changes_map(
    m: Map<Seq<char>, Set<Seq<SpecValue>>>,
    cs: Seq<(String, Change)>,
    k: int,
) -> Map<Seq<char>, Set<Seq<SpecValue>>>
    decreases k,
{
    if k <= 0 {
        m
    } else {
        let prev = apply_changes_map(m, cs, k - 1);
        let id = cs[k - 1].0@;
        let base = if prev.dom().contains(id) {
            prev[id]
        } else {
            Set::empty()
        };
        prev.insert(id, base.difference(cs[k - 1].1.rem_set()).union(cs[k - 1].1.ins_set()))
    }
}

/// Applying a prefix of changes depends only on that prefix.
proof fn lemma_apply_prefix(
    m: Map<Seq<char>, Set<Seq<SpecValue>>>,
    cs1: Seq<(String, Change)>,
    cs2: Seq<(String, Change)>,
    k: int,
)
    requires
        k <= cs1.len(),
        k <= cs2.len(),
        forall|i: int| 0 <= i < k ==> cs1[i] == cs2[i],
    ensures
        apply_changes_map(m, cs1, k) == apply_changes_map(m, cs2, k),
    decreases k,
{
    if k > 0 {
        lemma_apply_prefix(m, cs1, cs2, k - 1);
    }
}

/// The diff/patch round trip: applying the id-keyed change list to the old
/// snapshot's observable map reproduces the new snapshot's observable state —
/// every id of the new snapshot maps to its new set, and every id only the
/// old snapshot carries maps to the empty set.
pub open spec fn diff_restores(new_f: Flow, old_f: Flow, cs: Seq<(String, Change)>) -> bool {
    let m = apply_changes_map(old_f.obs_map(), cs, cs.len() as int);
    &&& forall|i: int| 0 <= i < new_f.len()
        ==> m.dom().contains((#[trigger] new_f.nodes@[i]).id@)
            && m[new_f.nodes@[i].id@] == new_f.outputs@[i].to_set()
    &&& forall|i: int| 0 <= i < old_f.len()
        && new_f.spec_find((#[trigger] old_f.nodes@[i]).id@) is None
        ==> m.dom().contains(old_f.nodes@[i].id@)
            && m[old_f.nodes@[i].id@] == Set::<Seq<SpecValue>>::empty()
}

/// The model of a change list: per entry, the id and the asserted and
/// retracted tuple sets.
pub open spec fn changes_models(cs: Seq<(String, Change)>) -> Seq<(Seq<char>, Set<Seq<SpecValue>>, Set<Seq<SpecValue>>)> {
    Seq::new(cs.len(), |k: int| if 0 <= k < cs.len() {
        (cs[k].0@, cs[k].1.ins_set(), cs[k].1.rem_set())
    } else {
        (Seq::<char>::empty(), Set::empty(), Set::empty())
    })
}

/// The expected diff entries for the first `i` nodes of the new snapshot, in
/// node order: one structural diff for an id shared at the same arity, a full
/// retraction of the old extension followed by a full assertion of the new
/// one when the arity changed, and a full assertion for a new id.
pub open spec fn spec_diff_entries(new_f: Flow, old_f: Flow, i: int) -> Seq<(Seq<char>, Set<Seq<SpecValue>>, Set<Seq<SpecValue>>)>
    decreases i,
{
    if i <= 0 {
        Seq::empty()
    } else {
        let prev = spec_diff_entries(new_f, old_f, i - 1);
        let id = new_f.nodes@[i - 1].id@;
        let news = new_f.outputs@[i - 1].to_set();
        match old_f.spec_find(id) {
            Option::Some(j) => {
                let olds = old_f.outputs@[j].to_set();
                if new_f.outputs@[i - 1].fields == old_f.outputs@[j].fields {
                    prev.push((id, news.difference(olds), olds.difference(news)))
                } else {
                    prev.push((id, Set::empty(), olds)).push((id, news, Set::empty()))
                }
            }
            Option::None => prev.push((id, news, Set::empty())),
        }
    }
}

/// The expected trailing entries for the first `i` nodes of the old
/// snapshot, in node order: a full retraction for each id the new snapshot
/// does not carry.
pub open spec fn spec_diff_tail(new_f: Flow, old_f: Flow, i: int) -> Seq<(Seq<char>, Set<Seq<SpecValue>>, Set<Seq<SpecValue>>)>
    decreases i,
{
    if i <= 0 {
        Seq::empty()
    } else {
        let prev = spec_diff_tail(new_f, old_f, i - 1);
        if new_f.spec_find(old_f.nodes@[i - 1].id@) is None {
            prev.push((old_f.nodes@[i - 1].id@, Set::empty(), old_f.outputs@[i - 1].to_set()))
        } else {
            prev
        }
    }
}

/// Two snapshots are observably equal when they carry the same ids and, id by
/// id, the same arity and the same tuple set.
pub open spec fn observably_equal(a: Flow, b: Flow) -> bool {
    &&& forall|i: int| 0 <= i < a.len() ==> b.spec_find((#[trigger] a.nodes@[i]).id@) is Some
    &&& forall|j: int| 0 <= j < b.len() ==> a.spec_find((#[trigger] b.nodes@[j]).id@) is Some
    &&& forall|i: int| 0 <= i < a.len()
        ==> a.outputs@[i].fields
            == b.outputs@[b.spec_find((#[trigger] a.nodes@[i]).id@)->Some_0].fields
            && a.outputs@[i].to_set()
                == b.outputs@[b.spec_find(a.nodes@[i].id@)->Some_0].to_set()
}

/// In a well-formed flow, a node's id resolves to exactly that node.
proof fn lemma_find_self(f: Flow, q: int)
    requires
        f.wf(),
        0 <= q < f.len(),
    ensures
        f.spec_find(f.nodes@[q].id@) == Some(q),
{
    assert(f.nodes@[q].id@ == f.nodes@[q].id@);
    let i = choose|i: int| 0 <= i < f.len() && (#[trigger] f.nodes@[i]).id@ == f.nodes@[q].id@;
    if i < q {
        assert(f.nodes@[i].id@ != f.nodes@[q].id@);
    } else if q < i {
        assert(f.nodes@[q].id@ != f.nodes@[i].id@);
    }
}

/// Applying disjoint insert and remove sets commutes: adding then removing
/// equals removing then adding.
proof fn lemma_apply_disjoint(base: Set<Seq<SpecValue>>, ins: Set<Seq<SpecValue>>, rem: Set<Seq<SpecValue>>)
    requires
        forall|t: Seq<SpecValue>| !(ins.contains(t) && #[trigger] rem.contains(t)),
    ensures
        base.union(ins).difference(rem) == base.difference(rem).union(ins),
{
    assert(base.union(ins).difference(rem) =~= base.difference(rem).union(ins));
}

/// With disjoint insert and remove sets, the applied result differs from the
/// base exactly when some insert was absent or some remove was present.
proof fn lemma_tick_changed(base: Set<Seq<SpecValue>>, ins: Set<Seq<SpecValue>>, rem: Set<Seq<SpecValue>>)
    requires
        forall|t: Seq<SpecValue>| !(ins.contains(t) && #[trigger] rem.contains(t)),
    ensures
        (base.union(ins) != base || base.union(ins).difference(rem) != base.union(ins))
            == (base.union(ins).difference(rem) != base),
{
    let mid = base.union(ins);
    let fin = mid.difference(rem);
    if mid != base {
        assert(exists|t: Seq<SpecValue>| mid.contains(t) != base.contains(t)) by {
            if forall|t: Seq<SpecValue>| #[trigger] mid.contains(t) == base.contains(t) {
                assert(mid =~= base);
            }
        }
        let t = choose|t: Seq<SpecValue>| mid.contains(t) != base.contains(t);
        assert(mid.contains(t) && !base.contains(t));
        assert(ins.contains(t));
        assert(!rem.contains(t));
        assert(fin.contains(t) && !base.contains(t));
        assert(fin != base);
    } else if fin != mid {
        assert(exists|t: Seq<SpecValue>| fin.contains(t) != mid.contains(t)) by {
            if forall|t: Seq<SpecValue>| #[trigger] fin.contains(t) == mid.contains(t) {
                assert(fin =~= mid);
            }
        }
        let t = choose|t: Seq<SpecValue>| fin.contains(t) != mid.contains(t);
        assert(mid.contains(t) && !fin.contains(t));
        assert(rem.contains(t));
        assert(!ins.contains(t));
        assert(base.contains(t));
        assert(fin != base);
    }
}

/// Membership test on a run of tuples.
pub fn vec_tuples_contains(v: &Vec<Vec<Value>>, t: &Vec<Value>) -> (r: bool)
    ensures
        r == tuples_model(*v).to_set().contains(tuple_model(*t)),
{
    let n: usize = v.len();
    let mut i: usize = 0;
    while i < n
        invariant
            n == v@.len(),
            0 <= i <= n,
            forall|j: int| 0 <= j < i ==> tuple_model(v@[j]) != tuple_model(*t),
        decreases n - i,
    {
        if tuple_eq(&v[i], t) {
            proof {
                assert(tuples_model(*v)[i as int] == tuple_model(*t));
            }
            return true;
        }
        i = i + 1;
    }
    proof {
        assert forall|j: int| 0 <= j < tuples_model(*v).len()
            implies tuples_model(*v)[j] != tuple_model(*t) by {
            assert(tuple_model(v@[j]) != tuple_model(*t));
        }
    }
    false
}

/// One live engine: a graph brought to quiescence after every change, with
/// the diff of each change computed against the previous observable state.
#[derive(Debug)]
pub struct Instance {
    pub flow: Flow,
}

impl Instance {
    /// The instance invariant: a well-formed graph whose clean nodes are
    /// current.
    pub open spec fn wf(self) -> bool {
        &&& self.flow.wf()
        &&& self.flow.clean_current()
    }

    /// An instance over an empty graph.
    pub fn new() -> (r: Instance)
        ensures
            r.wf(),
            r.flow.len() == 0,
    {
        Instance { flow: Flow::new() }
    }

    /// Applies one externally supplied change set, quiesces, and returns the
    /// id-keyed diff from the previous observable state to the new one.
    /// Fails, changing nothing, when a change targets an unknown id or a
    /// non-table view.
    pub fn change(&mut self, changes: Changes) -> (r: Result<Changes, Error>)
        requires
            old(self).wf(),
            old(self).flow.change_arities_ok(changes@),
        ensures
            final(self).wf(),
            (r is Ok) == old(self).flow.change_targets_ok(changes@),
            r is Err ==> *final(self) == *old(self),
            r matches Err(e) ==> old(self).flow.change_error_ok(changes@, e),
            r matches Ok(cs) ==> diff_restores(final(self).flow, old(self).flow, cs@),
            r is Ok ==> forall|i: int| 0 <= i < final(self).flow.len()
                && old(self).flow.plain_table(i)
                ==> (#[trigger] final(self).flow.outputs@[i]).to_set()
                    == old(self).flow.apply_changes_upto(changes@, changes@.len() as int)[i],
    {
        let snap = self.flow.snapshot();
        let ghost snap0 = snap;
        match self.flow.quiesce(changes) {
            Result::Err(e) => {
                return Err(e);
            }
            Result::Ok(_reached) => {}
        }
        let out = self.flow.changes_from(snap);
        proof {
            assert(diff_restores(self.flow, snap0, out@));
            assert(snap0.obs_map() == old(self).flow.obs_map());
            assert forall|i: int| 0 <= i < old(self).flow.len()
                && self.flow.spec_find((#[trigger] old(self).flow.nodes@[i]).id@) is None
                implies apply_changes_map(old(self).flow.obs_map(), out@, out@.len() as int)
                    .dom().contains(old(self).flow.nodes@[i].id@)
                    && apply_changes_map(old(self).flow.obs_map(), out@, out@.len() as int)[
                        old(self).flow.nodes@[i].id@] == Set::<Seq<SpecValue>>::empty() by {
                assert(snap0.nodes@[i].id@ == old(self).flow.nodes@[i].id@);
            }
        }
        Ok(out)
    }
}

/// Whether position `i` can be reached from one of the positions in `src`
/// in at most `n` downstream steps.
pub open spec fn spec_reach_n(nodes: Seq<Node>, src: Seq<usize>, i: int, n: nat) -> bool
    decreases n,
{
    if n == 0 {
        src.contains(i as usize)
    } else {
        spec_reach_n(nodes, src, i, (n - 1) as nat)
            || exists|j: int| 0 <= j < nodes.len()
                && spec_reach_n(nodes, src, j, (n - 1) as nat)
                && (#[trigger] nodes[j].downstream@).contains(i as usize)
    }
}

/// Whether position `i` is reachable from `src` along downstream edges.
pub open spec fn spec_reachable(nodes: Seq<Node>, src: Seq<usize>, i: int) -> bool {
    exists|n: nat| #[trigger] spec_reach_n(nodes, src, i, n)
}

/// A position in the source set is reachable.
proof fn lemma_reach_src(nodes: Seq<Node>, src: Seq<usize>, i: int)
    requires
        src.contains(i as usize),
    ensures
        spec_reachable(nodes, src, i),
{
    assert(spec_reach_n(nodes, src, i, 0));
}

/// Reachability follows downstream edges.
proof fn lemma_reach_step(nodes: Seq<Node>, src: Seq<usize>, j: int, i: int)
    requires
        spec_reachable(nodes, src, j),
        0 <= j < nodes.len(),
        nodes[j].downstream@.contains(i as usize),
    ensures
        spec_reachable(nodes, src, i),
{
    let n = choose|n: nat| #[trigger] spec_reach_n(nodes, src, j, n);
    assert(spec_reach_n(nodes, src, i, n + 1));
}

/// Inserts a position into the dirty run unless it is already there:
/// afterwards the run holds exactly the old positions and the new one.
fn mark_dirty(dirty: &mut Vec<usize>, t: usize)
    ensures
        forall|x: usize| #[trigger] final(dirty)@.contains(x)
            <==> (old(dirty)@.contains(x) || x == t),
        forall|k: int| 0 <= k < old(dirty)@.len()
            ==> final(dirty)@.contains(#[trigger] old(dirty)@[k]),
        forall|k: int| 0 <= k < final(dirty)@.len()
            ==> old(dirty)@.contains(#[trigger] final(dirty)@[k]) || final(dirty)@[k] == t,
{
    if !contains_usize(dirty, t) {
        let ghost pre = dirty@;
        dirty.push(t);
        proof {
            assert forall|x: usize| #[trigger] dirty@.contains(x)
                implies (pre.contains(x) || x == t) by {
                let w = choose|w: int| 0 <= w < dirty@.len() && dirty@[w] == x;
                if w < pre.len() {
                    assert(pre[w] == x);
                } else {
                    assert(dirty@[pre.len() as int] == t);
                }
            }
            assert forall|x: usize| (pre.contains(x) || x == t)
                implies #[trigger] dirty@.contains(x) by {
                if pre.contains(x) {
                    let w = choose|w: int| 0 <= w < pre.len() && pre[w] == x;
                    assert(dirty@[w] == x);
                } else {
                    assert(dirty@[pre.len() as int] == t);
                }
            }
            assert forall|k: int| 0 <= k < pre.len()
                implies dirty@.contains(#[trigger] pre[k]) by {
                assert(dirty@[k] == pre[k]);
            }
            assert forall|k: int| 0 <= k < dirty@.len()
                implies pre.contains(#[trigger] dirty@[k]) || dirty@[k] == t by {
                if k < pre.len() {
                    assert(pre[k] == dirty@[k]);
                }
            }
        }
    }
}

/// Membership test on a run of positions.
pub fn contains_usize(v: &Vec<usize>, x: usize) -> (r: bool)
    ensures
        r == v@.contains(x),
{
    let n: usize = v.len();
    let mut i: usize = 0;
    while i < n
        invariant
            n == v@.len(),
            0 <= i <= n,
            forall|j: int| 0 <= j < i ==> v@[j] != x,
        decreases n - i,
    {
        if v[i] == x {
            return true;
        }
        i = i + 1;
    }
    false
}

} // verus!
