//! View kinds and their evaluators.
//!
//! A [`ViewKind`] is the computation attached to a node: a baked-in `Input`
//! relation, a `Union` merging upstream relations through per-source column
//! mappings, a `Query` joining upstream relations by successive constrained
//! scans, or a mutable `Table` with optional insert/remove selectors.
//! [`eval_view`] evaluates the first three kinds against the upstream
//! outputs; tables are mutated by the tick pass instead (see the flow
//! module).

use vstd::prelude::*;

use crate::value::Value;
use crate::value::SpecValue;
use crate::value::val_model;
use crate::value::tuple_model;
use crate::value::tuples_model;
use crate::value::value_eq;
use crate::value::clone_value;
use crate::value::clone_tuple;
use crate::value::clone_tuples;
use crate::relation::Relation;

verus! {

/// Merges upstream relations into one output: `mappings[i]` lists the columns
/// of upstream `i` that form an output tuple.
#[derive(Debug)]
pub struct Union {
    pub mappings: Vec<Vec<usize>>,
}

/// An equality constraint of a query clause: column `my_column` of this
/// clause's tuple must equal column `other_column` of the earlier clause
/// `other_clause`.
#[derive(Debug, Clone, Copy, PartialEq, Eq, Structural)]
pub struct Constraint {
    pub my_column: usize,
    pub other_clause: usize,
    pub other_column: usize,
}

/// One clause of a query: scans upstream `relation` under its constraints.
#[derive(Debug)]
pub struct Clause {
    pub relation: usize,
    pub constraints: Vec<Constraint>,
}

/// A join by successive constrained scans; the output tuple is the
/// concatenation of one tuple per clause.
#[derive(Debug)]
pub struct Query {
    pub clauses: Vec<Clause>,
}

/// A column projection used by a table selector.
#[derive(Debug)]
pub struct Select {
    pub columns: Vec<usize>,
}

/// A mutable base relation; each selector names an upstream slot (an index
/// into the node's upstream list) and the columns to project from it.
#[derive(Debug)]
pub struct Table {
    pub insert: Option<(usize, Select)>,
    pub remove: Option<(usize, Select)>,
}

/// The computation kind attached to a node.
#[derive(Debug)]
pub enum ViewKind {
    Input(Relation),
    Union(Union),
    Query(Query),
    Table(Table),
}

/// Whether every listed column falls inside a tuple of this length.
pub open spec fn cols_ok(t: Seq<SpecValue>, cols: Seq<usize>) -> bool {
    forall|i: int| 0 <= i < cols.len() ==> (#[trigger] cols[i]) < t.len()
}

/// The projection of a tuple onto the listed columns.
pub open spec fn spec_project(t: Seq<SpecValue>, cols: Seq<usize>) -> Seq<SpecValue> {
    Seq::new(cols.len(), |i: int| if 0 <= i < cols.len() && cols[i] < t.len() {
        t[cols[i] as int]
    } else {
        SpecValue::Bool(false)
    })
}

/// The projections of every tuple of `rel` whose columns are all in range.
pub open spec fn spec_select(rel: Set<Seq<SpecValue>>, cols: Seq<usize>) -> Set<Seq<SpecValue>> {
    Set::new(|p: Seq<SpecValue>| exists|t: Seq<SpecValue>|
        #[trigger] rel.contains(t) && cols_ok(t, cols) && p == spec_project(t, cols))
}

/// The union of the selections of the first `n` sources.
pub open spec fn spec_union_upto(u: Union, ups: Seq<Relation>, n: int) -> Set<Seq<SpecValue>>
    decreases n,
{
    if n <= 0 {
        Set::empty()
    } else {
        spec_union_upto(u, ups, n - 1).union(
            if n - 1 < ups.len() {
                spec_select(ups[n - 1].to_set(), u.mappings@[n - 1]@)
            } else {
                Set::empty()
            },
        )
    }
}

/// The output of a union view: every source projected and merged.
pub open spec fn spec_union(u: Union, ups: Seq<Relation>) -> Set<Seq<SpecValue>> {
    spec_union_upto(u, ups, u.mappings@.len() as int)
}

/// A union is well formed when all its mappings produce the same arity.
pub open spec fn union_wf(u: Union) -> bool {
    forall|i: int| 0 <= i < u.mappings@.len()
        ==> (#[trigger] u.mappings@[i])@.len() == union_arity(u)
}

/// The output arity of a union: the length of its first mapping.
pub open spec fn union_arity(u: Union) -> nat {
    if u.mappings@.len() == 0 {
        0
    } else {
        u.mappings@[0]@.len()
    }
}

/// Projects a tuple onto the listed columns; `None` when a column is out of
/// range.
pub fn project_tuple(t: &Vec<Value>, cols: &Vec<usize>) -> (r: Option<Vec<Value>>)
    ensures
        (r is Some) == cols_ok(tuple_model(*t), cols@),
        r matches Some(p) ==> tuple_model(p) == spec_project(tuple_model(*t), cols@),
        r matches Some(p) ==> p@.len() == cols@.len(),
{
    let n: usize = cols.len();
    let mut out: Vec<Value> = Vec::new();
    let mut i: usize = 0;
    while i < n
        invariant
            n == cols@.len(),
            0 <= i <= n,
            out@.len() == i,
            forall|j: int| 0 <= j < i ==> (#[trigger] cols@[j]) < t@.len(),
            forall|j: int| 0 <= j < i
                ==> val_model(#[trigger] out@[j]) == spec_project(tuple_model(*t), cols@)[j],
        decreases n - i,
    {
        let c = cols[i];
        if c >= t.len() {
            proof {
                assert(!cols_ok(tuple_model(*t), cols@));
            }
            return None;
        }
        let v = clone_value(&t[c]);
        out.push(v);
        i = i + 1;
    }
    proof {
        assert(tuple_model(out) =~= spec_project(tuple_model(*t), cols@));
    }
    Some(out)
}

/// Taking one more source tuple extends the selection of the prefix by the
/// tuple's projection exactly when its columns are in range.
proof fn lemma_select_take_step(sm: Seq<Seq<SpecValue>>, i: int, cols: Seq<usize>)
    requires
        0 <= i < sm.len(),
    ensures
        spec_select(sm.take(i + 1).to_set(), cols) == if cols_ok(sm[i], cols) {
            spec_select(sm.take(i).to_set(), cols).insert(spec_project(sm[i], cols))
        } else {
            spec_select(sm.take(i).to_set(), cols)
        },
{
    crate::relation::lemma_take_to_set(sm, i);
    let s1 = spec_select(sm.take(i + 1).to_set(), cols);
    let s0 = spec_select(sm.take(i).to_set(), cols);
    if cols_ok(sm[i], cols) {
        assert forall|p: Seq<SpecValue>| s1.contains(p)
            implies s0.insert(spec_project(sm[i], cols)).contains(p) by {
            let t = choose|t: Seq<SpecValue>| #[trigger] sm.take(i + 1).to_set().contains(t)
                && cols_ok(t, cols) && p == spec_project(t, cols);
            if sm.take(i).to_set().contains(t) {
                assert(s0.contains(p));
            }
        }
        assert forall|p: Seq<SpecValue>| s0.insert(spec_project(sm[i], cols)).contains(p)
            implies s1.contains(p) by {
            if p == spec_project(sm[i], cols) {
                assert(sm.take(i + 1).to_set().contains(sm[i]));
            } else {
                let t = choose|t: Seq<SpecValue>| #[trigger] sm.take(i).to_set().contains(t)
                    && cols_ok(t, cols) && p == spec_project(t, cols);
                assert(sm.take(i + 1).to_set().contains(t));
            }
        }
        assert(s1 =~= s0.insert(spec_project(sm[i], cols)));
    } else {
        assert forall|p: Seq<SpecValue>| s1.contains(p) implies s0.contains(p) by {
            let t = choose|t: Seq<SpecValue>| #[trigger] sm.take(i + 1).to_set().contains(t)
                && cols_ok(t, cols) && p == spec_project(t, cols);
            assert(t != sm[i]);
            assert(sm.take(i).to_set().contains(t));
        }
        assert forall|p: Seq<SpecValue>| s0.contains(p) implies s1.contains(p) by {
            let t = choose|t: Seq<SpecValue>| #[trigger] sm.take(i).to_set().contains(t)
                && cols_ok(t, cols) && p == spec_project(t, cols);
            assert(sm.take(i + 1).to_set().contains(t));
        }
        assert(s1 =~= s0);
    }
}

impl Select {
    /// The projections of every tuple of `rel` whose columns are in range;
    /// the order and multiplicity of the output are unspecified.
    pub fn select(&self, rel: &Relation) -> (r: Vec<Vec<Value>>)
        ensures
            tuples_model(r).to_set() == spec_select(rel.to_set(), self.columns@),
            forall|j: int| 0 <= j < tuples_model(r).len()
                ==> (#[trigger] tuples_model(r)[j]).len() == self.columns@.len(),
    {
        let mut out: Vec<Vec<Value>> = Vec::new();
        let n: usize = rel.tuples.len();
        let mut i: usize = 0;
        while i < n
            invariant
                n == rel.tuples@.len(),
                0 <= i <= n,
                tuples_model(out).to_set()
                    == spec_select(rel.models().take(i as int).to_set(), self.columns@),
                forall|j: int| 0 <= j < tuples_model(out).len()
                    ==> (#[trigger] tuples_model(out)[j]).len() == self.columns@.len(),
            decreases n - i,
        {
            let ghost pre = tuples_model(out);
            let ghost sm = rel.models();
            match project_tuple(&rel.tuples[i], &self.columns) {
                Some(p) => {
                    out.push(p);
                    proof {
                        assert(tuples_model(out) =~= pre.push(spec_project(sm[i as int], self.columns@)));
                        crate::relation::lemma_push_to_set(pre, spec_project(sm[i as int], self.columns@));
                    }
                }
                None => {}
            }
            proof {
                lemma_select_take_step(sm, i as int, self.columns@);
            }
            i = i + 1;
        }
        proof {
            assert(rel.models().take(n as int) =~= rel.models());
        }
        out
    }
}

/// Evaluates a union view against the outputs of the node's upstream list.
pub fn eval_union(u: &Union, outputs: &Vec<Relation>, upstream: &Vec<usize>) -> (r: Relation)
    requires
        union_wf(*u),
        forall|i: int| 0 <= i < upstream@.len() ==> (#[trigger] upstream@[i]) < outputs@.len(),
    ensures
        r.wf(),
        r.to_set() == spec_union(*u, ups_rels(outputs@, upstream@)),
        r.fields == union_arity(*u),
{
    let ghost ups = ups_rels(outputs@, upstream@);
    let arity: usize = if u.mappings.len() > 0 {
        u.mappings[0].len()
    } else {
        0
    };
    let mut r = Relation::new(arity);
    let nm: usize = u.mappings.len();
    let mut i: usize = 0;
    while i < nm
        invariant
            nm == u.mappings@.len(),
            0 <= i <= nm,
            union_wf(*u),
            arity == union_arity(*u),
            forall|k: int| 0 <= k < upstream@.len() ==> (#[trigger] upstream@[k]) < outputs@.len(),
            ups == ups_rels(outputs@, upstream@),
            r.wf(),
            r.fields == arity,
            r.to_set() == spec_union_upto(*u, ups, i as int),
        decreases nm - i,
    {
        if i < upstream.len() {
            let src: usize = upstream[i];
            let rel = &outputs[src];
            proof {
                assert(ups[i as int] == outputs@[src as int]);
            }
            let nt: usize = rel.tuples.len();
            let mut k: usize = 0;
            while k < nt
                invariant
                    nt == rel.tuples@.len(),
                    0 <= k <= nt,
                    i < nm == u.mappings@.len(),
                    union_wf(*u),
                    arity == union_arity(*u),
                    ups[i as int] == *rel,
                    i < upstream@.len(),
                    r.wf(),
                    r.fields == arity,
                    r.to_set() == spec_union_upto(*u, ups, i as int)
                        .union(spec_select(rel.models().take(k as int).to_set(), u.mappings@[i as int]@)),
                decreases nt - k,
            {
                let ghost sm = rel.models();
                let ghost pre_set = r.to_set();
                match project_tuple(&rel.tuples[k], &u.mappings[i]) {
                    Some(p) => {
                        r.insert(p);
                        proof {
                            assert(r.to_set() =~= pre_set.insert(spec_project(sm[k as int], u.mappings@[i as int]@)));
                        }
                    }
                    None => {}
                }
                proof {
                    lemma_select_take_step(sm, k as int, u.mappings@[i as int]@);
                    if cols_ok(sm[k as int], u.mappings@[i as int]@) {
                        assert(r.to_set() =~= spec_union_upto(*u, ups, i as int)
                            .union(spec_select(sm.take(k as int + 1).to_set(), u.mappings@[i as int]@)));
                    } else {
                        assert(r.to_set() =~= spec_union_upto(*u, ups, i as int)
                            .union(spec_select(sm.take(k as int + 1).to_set(), u.mappings@[i as int]@)));
                    }
                }
                k = k + 1;
            }
            proof {
                assert(rel.models().take(nt as int) =~= rel.models());
                assert(r.to_set() =~= spec_union_upto(*u, ups, i as int + 1));
            }
        } else {
            proof {
                assert(r.to_set() =~= spec_union_upto(*u, ups, i as int + 1));
            }
        }
        i = i + 1;
    }
    r
}

/// The upstream relations of a node: `outputs` restricted to the positions in
/// `upstream`, in order.
pub open spec fn ups_rels(outputs: Seq<Relation>, upstream: Seq<usize>) -> Seq<Relation> {
    Seq::new(upstream.len(), |i: int| if 0 <= i < upstream.len() && upstream[i] < outputs.len() {
        outputs[upstream[i] as int]
    } else {
        vstd::pervasive::arbitrary()
    })
}

/// Whether one constraint holds between a candidate tuple and the tuples
/// already chosen for the earlier clauses.
pub open spec fn constraint_ok(parts: Seq<Seq<SpecValue>>, t: Seq<SpecValue>, c: Constraint) -> bool {
    &&& c.other_clause < parts.len()
    &&& c.other_column < parts[c.other_clause as int].len()
    &&& c.my_column < t.len()
    &&& t[c.my_column as int] == parts[c.other_clause as int][c.other_column as int]
}

/// Whether all constraints of a clause hold.
pub open spec fn constraints_ok(parts: Seq<Seq<SpecValue>>, t: Seq<SpecValue>, cs: Seq<Constraint>) -> bool {
    forall|i: int| 0 <= i < cs.len() ==> constraint_ok(parts, t, #[trigger] cs[i])
}

/// The partial matches of the first `n` clauses: one chosen tuple per clause,
/// drawn from the clause's upstream relation under its constraints.
pub open spec fn spec_query_parts(q: Query, ups: Seq<Relation>, n: int) -> Set<Seq<Seq<SpecValue>>>
    decreases n,
{
    if n <= 0 {
        Set::empty().insert(Seq::empty())
    } else {
        Set::new(|p: Seq<Seq<SpecValue>>| {
            &&& p.len() == n
            &&& spec_query_parts(q, ups, n - 1).contains(p.drop_last())
            &&& q.clauses@[n - 1].relation < ups.len()
            &&& ups[q.clauses@[n - 1].relation as int].to_set().contains(p.last())
            &&& constraints_ok(p.drop_last(), p.last(), q.clauses@[n - 1].constraints@)
        })
    }
}

/// The concatenation of a partial match into one flat tuple.
pub open spec fn concat_parts(p: Seq<Seq<SpecValue>>) -> Seq<SpecValue>
    decreases p.len(),
{
    if p.len() == 0 {
        Seq::empty()
    } else {
        concat_parts(p.drop_last()) + p.last()
    }
}

/// The output of a query view: every full match, flattened.
pub open spec fn spec_query(q: Query, ups: Seq<Relation>) -> Set<Seq<SpecValue>> {
    spec_query_parts(q, ups, q.clauses@.len() as int).map(|p: Seq<Seq<SpecValue>>| concat_parts(p))
}

/// The arity of a query output: the sum of its clauses' relation arities.
pub open spec fn spec_query_arity(q: Query, ups: Seq<Relation>, n: int) -> int
    decreases n,
{
    if n <= 0 {
        0
    } else {
        spec_query_arity(q, ups, n - 1) + (if q.clauses@[n - 1].relation < ups.len() {
            ups[q.clauses@[n - 1].relation as int].fields as int
        } else {
            0
        })
    }
}

/// Every full match of `n` clauses flattens to the same arity.
proof fn lemma_parts_concat_len(q: Query, ups: Seq<Relation>, n: int, p: Seq<Seq<SpecValue>>)
    requires
        0 <= n,
        spec_query_parts(q, ups, n).contains(p),
        forall|j: int| 0 <= j < ups.len() ==> (#[trigger] ups[j]).wf(),
    ensures
        concat_parts(p).len() == spec_query_arity(q, ups, n),
    decreases n,
{
    if n <= 0 {
        assert(p == Seq::<Seq<SpecValue>>::empty());
    } else {
        lemma_parts_concat_len(q, ups, n - 1, p.drop_last());
        let rel = ups[q.clauses@[n - 1].relation as int];
        let t = p.last();
        let k = choose|k: int| 0 <= k < rel.models().len() && rel.models()[k] == t;
        assert(rel.models()[k].len() == rel.fields);
    }
}

/// The extensions of one partial match by every fitting tuple of a relation.
spec fn spec_extend_one(p: Seq<Seq<SpecValue>>, rel: Set<Seq<SpecValue>>, cs: Seq<Constraint>) -> Set<Seq<Seq<SpecValue>>> {
    Set::new(|e: Seq<Seq<SpecValue>>| exists|t: Seq<SpecValue>|
        #[trigger] rel.contains(t) && constraints_ok(p, t, cs) && e == p.push(t))
}

/// The extensions of the first `k` partial matches.
spec fn spec_extend_upto(pm: Seq<Seq<Seq<SpecValue>>>, k: int, rel: Set<Seq<SpecValue>>, cs: Seq<Constraint>) -> Set<Seq<Seq<SpecValue>>>
    decreases k,
{
    if k <= 0 {
        Set::empty()
    } else {
        spec_extend_upto(pm, k - 1, rel, cs).union(spec_extend_one(pm[k - 1], rel, cs))
    }
}

/// The extensions of one partial match by the first `m` tuples of a run.
spec fn spec_extend_one_upto(p: Seq<Seq<SpecValue>>, rm: Seq<Seq<SpecValue>>, m: int, cs: Seq<Constraint>) -> Set<Seq<Seq<SpecValue>>>
    decreases m,
{
    if m <= 0 {
        Set::empty()
    } else {
        spec_extend_one_upto(p, rm, m - 1, cs).union(
            if constraints_ok(p, rm[m - 1], cs) {
                Set::empty().insert(p.push(rm[m - 1]))
            } else {
                Set::empty()
            },
        )
    }
}

/// What the tuple-by-tuple extension set contains.
proof fn lemma_extend_one_upto_elems(p: Seq<Seq<SpecValue>>, rm: Seq<Seq<SpecValue>>, m: int, cs: Seq<Constraint>)
    requires
        m <= rm.len(),
    ensures
        forall|e: Seq<Seq<SpecValue>>| spec_extend_one_upto(p, rm, m, cs).contains(e)
            <==> exists|j: int| 0 <= j < m && constraints_ok(p, #[trigger] rm[j], cs) && e == p.push(rm[j]),
    decreases m,
{
    if m <= 0 {
    } else {
        lemma_extend_one_upto_elems(p, rm, m - 1, cs);
        assert forall|e: Seq<Seq<SpecValue>>| spec_extend_one_upto(p, rm, m, cs).contains(e)
            implies exists|j: int| 0 <= j < m && constraints_ok(p, #[trigger] rm[j], cs) && e == p.push(rm[j]) by {
            if spec_extend_one_upto(p, rm, m - 1, cs).contains(e) {
                let j = choose|j: int| 0 <= j < m - 1 && constraints_ok(p, #[trigger] rm[j], cs) && e == p.push(rm[j]);
                assert(0 <= j < m && constraints_ok(p, rm[j], cs) && e == p.push(rm[j]));
            } else {
                assert(constraints_ok(p, rm[m - 1], cs) && e == p.push(rm[m - 1]));
            }
        }
        assert forall|e: Seq<Seq<SpecValue>>|
            (exists|j: int| 0 <= j < m && constraints_ok(p, #[trigger] rm[j], cs) && e == p.push(rm[j]))
            implies spec_extend_one_upto(p, rm, m, cs).contains(e) by {
            let j = choose|j: int| 0 <= j < m && constraints_ok(p, #[trigger] rm[j], cs) && e == p.push(rm[j]);
            if j < m - 1 {
                assert(spec_extend_one_upto(p, rm, m - 1, cs).contains(e));
            }
        }
    }
}

/// The tuple-by-tuple extension of a whole run equals the extension by its
/// set of tuples.
proof fn lemma_extend_one_full(p: Seq<Seq<SpecValue>>, rm: Seq<Seq<SpecValue>>, cs: Seq<Constraint>)
    ensures
        spec_extend_one_upto(p, rm, rm.len() as int, cs) == spec_extend_one(p, rm.to_set(), cs),
{
    lemma_extend_one_upto_elems(p, rm, rm.len() as int, cs);
    assert forall|e: Seq<Seq<SpecValue>>| spec_extend_one_upto(p, rm, rm.len() as int, cs).contains(e)
        implies spec_extend_one(p, rm.to_set(), cs).contains(e) by {
        let j = choose|j: int| 0 <= j < rm.len() && constraints_ok(p, #[trigger] rm[j], cs) && e == p.push(rm[j]);
        assert(rm.to_set().contains(rm[j]));
    }
    assert forall|e: Seq<Seq<SpecValue>>| spec_extend_one(p, rm.to_set(), cs).contains(e)
        implies spec_extend_one_upto(p, rm, rm.len() as int, cs).contains(e) by {
        let t = choose|t: Seq<SpecValue>| #[trigger] rm.to_set().contains(t) && constraints_ok(p, t, cs) && e == p.push(t);
        let j = choose|j: int| 0 <= j < rm.len() && rm[j] == t;
        assert(constraints_ok(p, rm[j], cs) && e == p.push(rm[j]));
    }
    assert(spec_extend_one_upto(p, rm, rm.len() as int, cs)
        =~= spec_extend_one(p, rm.to_set(), cs));
}

/// What the part-by-part extension set contains.
proof fn lemma_extend_upto_elems(pm: Seq<Seq<Seq<SpecValue>>>, k: int, rel: Set<Seq<SpecValue>>, cs: Seq<Constraint>)
    ensures
        forall|e: Seq<Seq<SpecValue>>| spec_extend_upto(pm, k, rel, cs).contains(e)
            <==> exists|j: int| 0 <= j < k && spec_extend_one(#[trigger] pm[j], rel, cs).contains(e),
    decreases k,
{
    if k <= 0 {
    } else {
        lemma_extend_upto_elems(pm, k - 1, rel, cs);
        assert forall|e: Seq<Seq<SpecValue>>| spec_extend_upto(pm, k, rel, cs).contains(e)
            implies exists|j: int| 0 <= j < k && spec_extend_one(#[trigger] pm[j], rel, cs).contains(e) by {
            if spec_extend_upto(pm, k - 1, rel, cs).contains(e) {
                let j = choose|j: int| 0 <= j < k - 1 && spec_extend_one(#[trigger] pm[j], rel, cs).contains(e);
                assert(0 <= j < k && spec_extend_one(pm[j], rel, cs).contains(e));
            } else {
                assert(spec_extend_one(pm[k - 1], rel, cs).contains(e));
            }
        }
        assert forall|e: Seq<Seq<SpecValue>>|
            (exists|j: int| 0 <= j < k && spec_extend_one(#[trigger] pm[j], rel, cs).contains(e))
            implies spec_extend_upto(pm, k, rel, cs).contains(e) by {
            let j = choose|j: int| 0 <= j < k && spec_extend_one(#[trigger] pm[j], rel, cs).contains(e);
            if j < k - 1 {
                assert(spec_extend_upto(pm, k - 1, rel, cs).contains(e));
            }
        }
    }
}

/// Extending every partial match of `n` clauses by the `n + 1`-st clause's
/// relation yields exactly the partial matches of `n + 1` clauses.
proof fn lemma_extend_step(q: Query, ups: Seq<Relation>, n: int, pm: Seq<Seq<Seq<SpecValue>>>)
    requires
        0 <= n < q.clauses@.len(),
        q.clauses@[n].relation < ups.len(),
        pm.to_set() == spec_query_parts(q, ups, n),
        forall|j: int| 0 <= j < pm.len() ==> (#[trigger] pm[j]).len() == n,
    ensures
        spec_extend_upto(pm, pm.len() as int, ups[q.clauses@[n].relation as int].to_set(), q.clauses@[n].constraints@)
            == spec_query_parts(q, ups, n + 1),
{
    let rel = ups[q.clauses@[n].relation as int].to_set();
    let cs = q.clauses@[n].constraints@;
    let ext = spec_extend_upto(pm, pm.len() as int, rel, cs);
    lemma_extend_upto_elems(pm, pm.len() as int, rel, cs);
    assert forall|e: Seq<Seq<SpecValue>>| ext.contains(e)
        implies spec_query_parts(q, ups, n + 1).contains(e) by {
        let j = choose|j: int| 0 <= j < pm.len() && spec_extend_one(#[trigger] pm[j], rel, cs).contains(e);
        let t = choose|t: Seq<SpecValue>| #[trigger] rel.contains(t) && constraints_ok(pm[j], t, cs) && e == pm[j].push(t);
        assert(e.len() == n + 1);
        assert(e.drop_last() =~= pm[j]);
        assert(pm.to_set().contains(pm[j]));
        assert(e.last() == t);
    }
    assert forall|e: Seq<Seq<SpecValue>>| spec_query_parts(q, ups, n + 1).contains(e)
        implies ext.contains(e) by {
        let j = choose|j: int| 0 <= j < pm.len() && pm[j] == e.drop_last();
        assert(e =~= pm[j].push(e.last()));
        assert(rel.contains(e.last()) && constraints_ok(pm[j], e.last(), cs) && e == pm[j].push(e.last()));
        assert(spec_extend_one(pm[j], rel, cs).contains(e));
    }
    assert(ext =~= spec_query_parts(q, ups, n + 1));
}

/// The models of a run of partial matches.
pub open spec fn parts_model(ps: Vec<Vec<Vec<Value>>>) -> Seq<Seq<Seq<SpecValue>>> {
    Seq::new(ps@.len(), |i: int| if 0 <= i < ps@.len() {
        tuples_model(ps@[i])
    } else {
        Seq::empty()
    })
}

/// Checks a clause's constraints between a candidate tuple and the tuples
/// already chosen for the earlier clauses.
pub fn check_constraints(part: &Vec<Vec<Value>>, t: &Vec<Value>, cs: &Vec<Constraint>) -> (r: bool)
    ensures
        r == constraints_ok(tuples_model(*part), tuple_model(*t), cs@),
{
    let n: usize = cs.len();
    let mut i: usize = 0;
    while i < n
        invariant
            n == cs@.len(),
            0 <= i <= n,
            forall|j: int| 0 <= j < i
                ==> constraint_ok(tuples_model(*part), tuple_model(*t), #[trigger] cs@[j]),
        decreases n - i,
    {
        let c = cs[i];
        if c.other_clause >= part.len() {
            proof {
                assert(!constraint_ok(tuples_model(*part), tuple_model(*t), cs@[i as int]));
            }
            return false;
        }
        let other = &part[c.other_clause];
        if c.other_column >= other.len() {
            proof {
                assert(tuples_model(*part)[c.other_clause as int].len() == other@.len());
            }
            return false;
        }
        if c.my_column >= t.len() {
            return false;
        }
        if !value_eq(&t[c.my_column], &other[c.other_column]) {
            proof {
                assert(tuples_model(*part)[c.other_clause as int][c.other_column as int]
                    == val_model(other@[c.other_column as int]));
            }
            return false;
        }
        proof {
            assert(constraint_ok(tuples_model(*part), tuple_model(*t), cs@[i as int]));
        }
        i = i + 1;
    }
    true
}

/// Flattens a partial match into one tuple.
pub fn flatten_part(p: &Vec<Vec<Value>>) -> (r: Vec<Value>)
    ensures
        tuple_model(r) == concat_parts(tuples_model(*p)),
{
    let mut out: Vec<Value> = Vec::new();
    let n: usize = p.len();
    let mut i: usize = 0;
    while i < n
        invariant
            n == p@.len(),
            0 <= i <= n,
            tuple_model(out) == concat_parts(tuples_model(*p).take(i as int)),
        decreases n - i,
    {
        let ghost pre = tuple_model(out);
        let mut t = clone_tuple(&p[i]);
        let ghost tm = tuple_model(t);
        out.append(&mut t);
        proof {
            let pm = tuples_model(*p);
            assert(tuple_model(out) =~= pre + tm);
            assert(pm.take(i as int + 1).drop_last() =~= pm.take(i as int));
            assert(pm.take(i as int + 1).last() == pm[i as int]);
            assert(tuple_model(out) =~= concat_parts(pm.take(i as int + 1)));
        }
        i = i + 1;
    }
    proof {
        assert(tuples_model(*p).take(n as int) =~= tuples_model(*p));
    }
    out
}

/// Evaluates a query view against the outputs of the node's upstream list.
#[verifier::rlimit(30)]
pub fn eval_query(q: &Query, outputs: &Vec<Relation>, upstream: &Vec<usize>) -> (r: Relation)
    requires
        forall|i: int| 0 <= i < upstream@.len() ==> (#[trigger] upstream@[i]) < outputs@.len(),
        forall|i: int| 0 <= i < outputs@.len() ==> (#[trigger] outputs@[i]).wf(),
    ensures
        r.wf(),
        r.to_set() == spec_query(*q, ups_rels(outputs@, upstream@)),
{
    let ghost ups = ups_rels(outputs@, upstream@);
    proof {
        assert forall|j: int| 0 <= j < ups.len() implies (#[trigger] ups[j]).wf() by {
            assert(ups[j] == outputs@[upstream@[j] as int]);
        }
    }
    let mut parts: Vec<Vec<Vec<Value>>> = Vec::new();
    let empty_part: Vec<Vec<Value>> = Vec::new();
    parts.push(empty_part);
    proof {
        assert(parts_model(parts)[0] =~= Seq::<Seq<SpecValue>>::empty());
        assert forall|e: Seq<Seq<SpecValue>>| parts_model(parts).to_set().contains(e)
            implies spec_query_parts(*q, ups, 0).contains(e) by {
            assert(parts_model(parts)[0] == e);
        }
        assert forall|e: Seq<Seq<SpecValue>>| spec_query_parts(*q, ups, 0).contains(e)
            implies parts_model(parts).to_set().contains(e) by {
            assert(parts_model(parts)[0] == e);
        }
        assert(parts_model(parts).to_set() =~= spec_query_parts(*q, ups, 0));
    }
    let nc: usize = q.clauses.len();
    let mut c: usize = 0;
    while c < nc
        invariant
            nc == q.clauses@.len(),
            0 <= c <= nc,
            forall|i: int| 0 <= i < upstream@.len() ==> (#[trigger] upstream@[i]) < outputs@.len(),
            forall|i: int| 0 <= i < outputs@.len() ==> (#[trigger] outputs@[i]).wf(),
            ups == ups_rels(outputs@, upstream@),
            parts_model(parts).to_set() == spec_query_parts(*q, ups, c as int),
            forall|j: int| 0 <= j < parts_model(parts).len()
                ==> (#[trigger] parts_model(parts)[j]).len() == c as int,
        decreases nc - c,
    {
        let clause = &q.clauses[c];
        let mut next: Vec<Vec<Vec<Value>>> = Vec::new();
        if clause.relation < upstream.len() {
            let src: usize = upstream[clause.relation];
            let rel = &outputs[src];
            proof {
                assert(ups[clause.relation as int] == outputs@[src as int]);
            }
            let ghost rset = rel.to_set();
            let ghost pm = parts_model(parts);
            let ghost cs = clause.constraints@;
            let np: usize = parts.len();
            let mut k: usize = 0;
            while k < np
                invariant
                    np == parts@.len(),
                    0 <= k <= np,
                    pm == parts_model(parts),
                    *clause == q.clauses@[c as int],
                    c < nc == q.clauses@.len(),
                    cs == clause.constraints@,
                    ups[clause.relation as int] == *rel,
                    clause.relation < ups.len(),
                    rset == rel.to_set(),
                    parts_model(next).to_set() == spec_extend_upto(pm, k as int, rset, cs),
                    forall|j: int| 0 <= j < parts_model(next).len()
                        ==> (#[trigger] parts_model(next)[j]).len() == c as int + 1,
                    forall|j: int| 0 <= j < pm.len() ==> (#[trigger] pm[j]).len() == c as int,
                decreases np - k,
            {
                let nt: usize = rel.tuples.len();
                let mut m: usize = 0;
                while m < nt
                    invariant
                        np == parts@.len(),
                        0 <= k < np,
                        nt == rel.tuples@.len(),
                        0 <= m <= nt,
                        pm == parts_model(parts),
                        cs == clause.constraints@,
                        rset == rel.to_set(),
                        parts_model(next).to_set() == spec_extend_upto(pm, k as int, rset, cs)
                            .union(spec_extend_one_upto(pm[k as int], rel.models(), m as int, cs)),
                        forall|j: int| 0 <= j < parts_model(next).len()
                            ==> (#[trigger] parts_model(next)[j]).len() == c as int + 1,
                        forall|j: int| 0 <= j < pm.len() ==> (#[trigger] pm[j]).len() == c as int,
                        c < nc,
                    decreases nt - m,
                {
                    let ghost pre = parts_model(next);
                    let ok = check_constraints(&parts[k], &rel.tuples[m], &clause.constraints);
                    if ok {
                        let mut newp = clone_tuples(&parts[k]);
                        let t = clone_tuple(&rel.tuples[m]);
                        newp.push(t);
                        proof {
                            assert(tuples_model(newp) =~= pm[k as int].push(rel.models()[m as int]));
                        }
                        next.push(newp);
                        proof {
                            assert(parts_model(next) =~= pre.push(pm[k as int].push(rel.models()[m as int])));
                            crate::relation::lemma_push_to_set(pre, pm[k as int].push(rel.models()[m as int]));
                        }
                    }
                    proof {
                        assert(parts_model(next).to_set() =~= spec_extend_upto(pm, k as int, rset, cs)
                            .union(spec_extend_one_upto(pm[k as int], rel.models(), m as int + 1, cs)));
                    }
                    m = m + 1;
                }
                proof {
                    lemma_extend_one_full(pm[k as int], rel.models(), cs);
                    assert(parts_model(next).to_set()
                        =~= spec_extend_upto(pm, k as int + 1, rset, cs));
                }
                k = k + 1;
            }
            proof {
                lemma_extend_step(*q, ups, c as int, pm);
                assert(parts_model(next).to_set() == spec_query_parts(*q, ups, c as int + 1));
            }
        } else {
            proof {
                assert(parts_model(next).to_set() =~= Set::<Seq<Seq<SpecValue>>>::empty());
                assert(spec_query_parts(*q, ups, c as int + 1) =~= Set::<Seq<Seq<SpecValue>>>::empty());
            }
        }
        parts = next;
        c = c + 1;
    }
    let ghost fm = spec_query_parts(*q, ups, nc as int);
    let fields: usize = if parts.len() > 0 {
        let first = flatten_part(&parts[0]);
        first.len()
    } else {
        0
    };
    proof {
        if parts@.len() > 0 {
            assert(parts_model(parts).to_set().contains(parts_model(parts)[0]));
            lemma_parts_concat_len(*q, ups, nc as int, parts_model(parts)[0]);
        }
    }
    let mut r = Relation::new(fields);
    let np: usize = parts.len();
    let mut k: usize = 0;
    while k < np
        invariant
            np == parts@.len(),
            0 <= k <= np,
            ups == ups_rels(outputs@, upstream@),
            forall|j: int| 0 <= j < ups.len() ==> (#[trigger] ups[j]).wf(),
            fm == spec_query_parts(*q, ups, nc as int),
            nc == q.clauses@.len(),
            parts_model(parts).to_set() == fm,
            np > 0 ==> fields as int == spec_query_arity(*q, ups, nc as int),
            r.wf(),
            r.fields == fields,
            r.to_set() == parts_model(parts).map_values(|p: Seq<Seq<SpecValue>>| concat_parts(p))
                .take(k as int).to_set(),
        decreases np - k,
    {
        let flat = flatten_part(&parts[k]);
        proof {
            assert(parts_model(parts).to_set().contains(parts_model(parts)[k as int]));
            lemma_parts_concat_len(*q, ups, nc as int, parts_model(parts)[k as int]);
            assert(tuple_model(flat).len() == fields);
        }
        let ghost mapped = parts_model(parts).map_values(|p: Seq<Seq<SpecValue>>| concat_parts(p));
        let ghost pre_set = r.to_set();
        r.insert(flat);
        proof {
            crate::relation::lemma_take_to_set(mapped, k as int);
            assert(mapped[k as int] == concat_parts(parts_model(parts)[k as int]));
            assert(r.to_set() =~= mapped.take(k as int + 1).to_set());
        }
        k = k + 1;
    }
    proof {
        let mapped = parts_model(parts).map_values(|p: Seq<Seq<SpecValue>>| concat_parts(p));
        assert(mapped.take(np as int) =~= mapped);
        parts_model(parts).lemma_to_set_map_commutes(|p: Seq<Seq<SpecValue>>| concat_parts(p));
        assert(r.to_set() =~= spec_query(*q, ups_rels(outputs@, upstream@)));
    }
    r
}

/// Well-formedness of a view: a union's mappings agree on arity and an input's
/// relation is well formed.
pub open spec fn view_wf(v: ViewKind) -> bool {
    match v {
        ViewKind::Input(r) => r.wf(),
        ViewKind::Union(u) => union_wf(u),
        ViewKind::Query(_) => true,
        ViewKind::Table(_) => true,
    }
}

/// What evaluating a view returns: `None` for a table (tables are mutated by
/// the tick pass, never evaluated), the computed output set otherwise.
pub open spec fn spec_eval(v: ViewKind, ups: Seq<Relation>) -> Option<Set<Seq<SpecValue>>> {
    match v {
        ViewKind::Input(r) => Some(r.to_set()),
        ViewKind::Union(u) => Some(spec_union(u, ups)),
        ViewKind::Query(q) => Some(spec_query(q, ups)),
        ViewKind::Table(_) => None,
    }
}

/// Evaluates a view against the outputs of the node's upstream list.
pub fn eval_view(v: &ViewKind, outputs: &Vec<Relation>, upstream: &Vec<usize>) -> (r: Option<Relation>)
    requires
        view_wf(*v),
        forall|i: int| 0 <= i < upstream@.len() ==> (#[trigger] upstream@[i]) < outputs@.len(),
        forall|i: int| 0 <= i < outputs@.len() ==> (#[trigger] outputs@[i]).wf(),
    ensures
        (r is Some) == (spec_eval(*v, ups_rels(outputs@, upstream@)) is Some),
        r matches Some(rel) ==> rel.wf()
            && Some(rel.to_set()) == spec_eval(*v, ups_rels(outputs@, upstream@)),
{
    match v {
        ViewKind::Input(rel) => Some(rel.duplicate()),
        ViewKind::Union(u) => Some(eval_union(u, outputs, upstream)),
        ViewKind::Query(q) => Some(eval_query(q, outputs, upstream)),
        ViewKind::Table(_) => None,
    }
}

} // verus!
