//! Relations: duplicate-free collections of equal-arity tuples, and the
//! insert/remove deltas ([`Change`]) that travel between graph versions and
//! over the wire.
//!
//! Contracts describe a relation by the set of its tuples' models
//! ([`Relation::to_set`]); a change by the pair of sets it asserts and
//! retracts.

use vstd::prelude::*;

use crate::value::Value;
use crate::value::SpecValue;
use crate::value::tuple_model;
use crate::value::tuples_model;
use crate::value::tuple_eq;
use crate::value::clone_tuple;
use crate::value::clone_tuples;

verus! {

/// An insert/remove delta on one relation.
#[derive(Debug)]
pub struct Change {
    pub inserted: Vec<Vec<Value>>,
    pub removed: Vec<Vec<Value>>,
}

impl Change {
    /// The set of tuples the change asserts.
    pub open spec fn ins_set(self) -> Set<Seq<SpecValue>> {
        tuples_model(self.inserted).to_set()
    }

    /// The set of tuples the change retracts.
    pub open spec fn rem_set(self) -> Set<Seq<SpecValue>> {
        tuples_model(self.removed).to_set()
    }

    /// Whether the change carries no tuples at all.
    pub open spec fn spec_is_empty(self) -> bool {
        self.inserted@.len() == 0 && self.removed@.len() == 0
    }

    /// Whether every asserted tuple has the given arity.
    pub open spec fn ins_arity_ok(self, fields: nat) -> bool {
        forall|i: int| 0 <= i < self.inserted@.len()
            ==> (#[trigger] tuples_model(self.inserted)[i]).len() == fields
    }

    /// Whether the change carries no tuples at all.
    pub fn is_empty(&self) -> (r: bool)
        ensures
            r == self.spec_is_empty(),
    {
        self.inserted.len() == 0 && self.removed.len() == 0
    }
}

/// A set of tuples of equal arity (`fields` columns), held without duplicates.
#[derive(Debug)]
pub struct Relation {
    pub fields: usize,
    pub tuples: Vec<Vec<Value>>,
}

impl Relation {
    /// The models of the tuples, in their held order.
    pub open spec fn models(self) -> Seq<Seq<SpecValue>> {
        tuples_model(self.tuples)
    }

    /// The relation as a mathematical set of tuple models.
    pub open spec fn to_set(self) -> Set<Seq<SpecValue>> {
        self.models().to_set()
    }

    /// Well-formedness: every tuple has `fields` columns and no tuple repeats.
    pub open spec fn wf(self) -> bool {
        &&& forall|i: int| 0 <= i < self.models().len()
            ==> (#[trigger] self.models()[i]).len() == self.fields
        &&& forall|i: int, j: int|
            #![trigger self.models()[i], self.models()[j]]
            0 <= i < j < self.models().len() ==> self.models()[i] != self.models()[j]
    }

    /// An empty relation of the given arity.
    pub fn new(fields: usize) -> (r: Relation)
        ensures
            r.wf(),
            r.fields == fields,
            r.to_set() == Set::<Seq<SpecValue>>::empty(),
            r.models().len() == 0,
    {
        let r = Relation { fields, tuples: Vec::new() };
        proof {
            assert(r.to_set() =~= Set::<Seq<SpecValue>>::empty());
        }
        r
    }

    /// Membership test against the model set.
    pub fn contains(&self, t: &Vec<Value>) -> (r: bool)
        ensures
            r == self.to_set().contains(tuple_model(*t)),
    {
        let n: usize = self.tuples.len();
        let mut i: usize = 0;
        while i < n
            invariant
                n == self.tuples@.len(),
                0 <= i <= n,
                forall|j: int| 0 <= j < i ==> tuple_model(self.tuples@[j]) != tuple_model(*t),
            decreases n - i,
        {
            if tuple_eq(&self.tuples[i], t) {
                proof {
                    assert(self.models()[i as int] == tuple_model(*t));
                }
                return true;
            }
            i = i + 1;
        }
        proof {
            assert forall|k: int| 0 <= k < self.models().len()
                implies self.models()[k] != tuple_model(*t) by {
                assert(tuple_model(self.tuples@[k]) != tuple_model(*t));
            }
        }
        false
    }

    /// Idempotent insert; reports whether the relation actually grew.
    pub fn insert(&mut self, t: Vec<Value>) -> (r: bool)
        requires
            old(self).wf(),
            t@.len() == old(self).fields,
        ensures
            final(self).wf(),
            final(self).fields == old(self).fields,
            final(self).to_set() == old(self).to_set().insert(tuple_model(t)),
            r == !old(self).to_set().contains(tuple_model(t)),
            !r ==> *final(self) == *old(self),
    {
        if self.contains(&t) {
            proof {
                assert(self.to_set().insert(tuple_model(t)) =~= self.to_set());
            }
            false
        } else {
            let ghost m = tuple_model(t);
            let ghost pre = *self;
            self.tuples.push(t);
            proof {
                assert(self.models() =~= pre.models().push(m));
                lemma_push_to_set(pre.models(), m);
                assert(m.len() == self.fields);
                assert forall|i: int, j: int|
                    #![trigger self.models()[i], self.models()[j]]
                    0 <= i < j < self.models().len()
                    implies self.models()[i] != self.models()[j] by {
                    if j == self.models().len() - 1 {
                        assert(self.models()[i] == pre.models()[i]);
                        if self.models()[i] == m {
                            assert(pre.models().contains(m));
                            assert(pre.to_set().contains(m));
                        }
                    } else {
                        assert(pre.models()[i] != pre.models()[j]);
                    }
                }
            }
            true
        }
    }

    /// Idempotent remove; reports whether the tuple existed.
    pub fn remove(&mut self, t: &Vec<Value>) -> (r: bool)
        requires
            old(self).wf(),
        ensures
            final(self).wf(),
            final(self).fields == old(self).fields,
            final(self).to_set() == old(self).to_set().remove(tuple_model(*t)),
            r == old(self).to_set().contains(tuple_model(*t)),
            !r ==> *final(self) == *old(self),
    {
        let ghost m = tuple_model(*t);
        let n: usize = self.tuples.len();
        let mut i: usize = 0;
        while i < n
            invariant
                *self == *old(self),
                old(self).wf(),
                n == self.tuples@.len(),
                0 <= i <= n,
                forall|j: int| 0 <= j < i ==> tuple_model(self.tuples@[j]) != m,
                m == tuple_model(*t),
            decreases n - i,
        {
            if tuple_eq(&self.tuples[i], t) {
                let ghost pre = *self;
                let ghost ix = i as int;
                self.tuples.remove(i);
                proof {
                    assert(pre.models()[ix] == m);
                    assert(self.models() =~= pre.models().subrange(0, ix)
                        + pre.models().subrange(ix + 1, pre.models().len() as int));
                    assert forall|a: Seq<SpecValue>| self.to_set().contains(a)
                        implies pre.to_set().remove(m).contains(a) by {
                        let k = choose|k: int| 0 <= k < self.models().len() && self.models()[k] == a;
                        assert(pre.wf());
                        if k < ix {
                            assert(pre.models()[k] == a);
                            assert(pre.models()[k] != pre.models()[ix]);
                        } else {
                            assert(pre.models()[k + 1] == a);
                            assert(pre.models()[ix] != pre.models()[k + 1]);
                        }
                        assert(a != m);
                    }
                    assert forall|a: Seq<SpecValue>| pre.to_set().remove(m).contains(a)
                        implies self.to_set().contains(a) by {
                        let k = choose|k: int| 0 <= k < pre.models().len() && pre.models()[k] == a;
                        if k < ix {
                            assert(self.models()[k] == a);
                        } else {
                            assert(k != ix);
                            assert(self.models()[k - 1] == a);
                        }
                    }
                    assert(self.to_set() =~= pre.to_set().remove(m));
                    assert(pre.to_set().contains(m));
                }
                return true;
            }
            i = i + 1;
        }
        proof {
            assert forall|k: int| 0 <= k < self.models().len()
                implies self.models()[k] != m by {
                assert(tuple_model(self.tuples@[k]) != m);
            }
            assert(self.to_set().remove(m) =~= self.to_set());
        }
        false
    }

    /// Applies a change: first the retractions, then the assertions.  The
    /// resulting tuple set is `(old \ removed) ∪ inserted`, so a tuple both
    /// retracted and asserted by the same change ends up present.
    pub fn change(&mut self, c: &Change)
        requires
            old(self).wf(),
            c.ins_arity_ok(old(self).fields as nat),
        ensures
            final(self).wf(),
            final(self).fields == old(self).fields,
            final(self).to_set() == old(self).to_set().difference(c.rem_set()).union(c.ins_set()),
    {
        let ghost base = old(self).to_set();
        let nr: usize = c.removed.len();
        let mut i: usize = 0;
        while i < nr
            invariant
                nr == c.removed@.len(),
                0 <= i <= nr,
                self.wf(),
                self.fields == old(self).fields,
                self.to_set() == base.difference(tuples_model(c.removed).take(i as int).to_set()),
                base == old(self).to_set(),
                c.ins_arity_ok(old(self).fields as nat),
            decreases nr - i,
        {
            let ghost pre_set = self.to_set();
            self.remove(&c.removed[i]);
            proof {
                let rm = tuples_model(c.removed);
                lemma_take_to_set(rm, i as int);
                assert(rm[i as int] == tuple_model(c.removed@[i as int]));
                assert(self.to_set() =~= base.difference(rm.take(i as int + 1).to_set()));
            }
            i = i + 1;
        }
        proof {
            let rm = tuples_model(c.removed);
            assert(rm.take(nr as int) =~= rm);
            assert(self.to_set() =~= base.difference(c.rem_set()));
        }
        let ghost mid = self.to_set();
        let ni: usize = c.inserted.len();
        let mut k: usize = 0;
        while k < ni
            invariant
                ni == c.inserted@.len(),
                0 <= k <= ni,
                self.wf(),
                self.fields == old(self).fields,
                self.to_set() == mid.union(tuples_model(c.inserted).take(k as int).to_set()),
                mid == old(self).to_set().difference(c.rem_set()),
                c.ins_arity_ok(old(self).fields as nat),
            decreases ni - k,
        {
            let t = clone_tuple(&c.inserted[k]);
            proof {
                assert(tuples_model(c.inserted)[k as int].len() == old(self).fields);
                assert(tuple_model(c.inserted@[k as int]).len() == t@.len());
            }
            self.insert(t);
            proof {
                let im = tuples_model(c.inserted);
                lemma_take_to_set(im, k as int);
                assert(self.to_set() =~= mid.union(im.take(k as int + 1).to_set()));
            }
            k = k + 1;
        }
        proof {
            let im = tuples_model(c.inserted);
            assert(im.take(ni as int) =~= im);
            assert(self.to_set() =~= old(self).to_set().difference(c.rem_set()).union(c.ins_set()));
        }
    }

    /// A deep copy of the relation, equal to the original under the model.
    pub fn duplicate(&self) -> (r: Relation)
        ensures
            r.fields == self.fields,
            r.models() == self.models(),
            r.to_set() == self.to_set(),
            r.wf() == self.wf(),
    {
        let r = Relation { fields: self.fields, tuples: clone_tuples(&self.tuples) };
        proof {
            assert(r.models() == self.models());
            if self.wf() {
                assert(r.wf());
            }
            if r.wf() {
                assert(self.wf());
            }
        }
        r
    }

    /// The change that asserts every tuple of this relation: a full dump.
    pub fn as_insert(&self) -> (c: Change)
        ensures
            c.ins_set() == self.to_set(),
            tuples_model(c.inserted) == self.models(),
            c.removed@.len() == 0,
            c.rem_set() == Set::<Seq<SpecValue>>::empty(),
    {
        let c = Change { inserted: clone_tuples(&self.tuples), removed: Vec::new() };
        proof {
            assert(c.rem_set() =~= Set::<Seq<SpecValue>>::empty());
        }
        c
    }

    /// The change that retracts every tuple of this relation: a full retraction.
    pub fn as_remove(&self) -> (c: Change)
        ensures
            c.rem_set() == self.to_set(),
            tuples_model(c.removed) == self.models(),
            c.inserted@.len() == 0,
            c.ins_set() == Set::<Seq<SpecValue>>::empty(),
    {
        let c = Change { inserted: Vec::new(), removed: clone_tuples(&self.tuples) };
        proof {
            assert(c.ins_set() =~= Set::<Seq<SpecValue>>::empty());
        }
        c
    }

    /// The structural diff against `other`: what to insert into and remove
    /// from `other` to obtain `self`.
    pub fn change_from(&self, other: &Relation) -> (c: Change)
        requires
            self.wf(),
            other.wf(),
        ensures
            c.ins_set() == self.to_set().difference(other.to_set()),
            c.rem_set() == other.to_set().difference(self.to_set()),
            c.ins_arity_ok(self.fields as nat),
            c.spec_is_empty() <==> self.to_set() == other.to_set(),
    {
        let mut ins: Vec<Vec<Value>> = Vec::new();
        let n: usize = self.tuples.len();
        let mut i: usize = 0;
        while i < n
            invariant
                n == self.tuples@.len(),
                0 <= i <= n,
                self.wf(),
                tuples_model(ins).to_set() == self.models().take(i as int).to_set().difference(other.to_set()),
                forall|j: int| 0 <= j < tuples_model(ins).len()
                    ==> (#[trigger] tuples_model(ins)[j]).len() == self.fields,
            decreases n - i,
        {
            let ghost pre = tuples_model(ins);
            let ghost sm = self.models();
            if !other.contains(&self.tuples[i]) {
                let t = clone_tuple(&self.tuples[i]);
                ins.push(t);
                proof {
                    assert(tuples_model(ins) =~= pre.push(sm[i as int]));
                    lemma_push_to_set(pre, sm[i as int]);
                }
            }
            proof {
                lemma_take_to_set(sm, i as int);
                assert(tuples_model(ins).to_set()
                    =~= sm.take(i as int + 1).to_set().difference(other.to_set()));
            }
            i = i + 1;
        }
        let mut rem: Vec<Vec<Value>> = Vec::new();
        let no: usize = other.tuples.len();
        let mut k: usize = 0;
        while k < no
            invariant
                no == other.tuples@.len(),
                0 <= k <= no,
                other.wf(),
                tuples_model(rem).to_set() == other.models().take(k as int).to_set().difference(self.to_set()),
            decreases no - k,
        {
            let ghost pre = tuples_model(rem);
            let ghost om = other.models();
            if !self.contains(&other.tuples[k]) {
                let t = clone_tuple(&other.tuples[k]);
                rem.push(t);
                proof {
                    assert(tuples_model(rem) =~= pre.push(om[k as int]));
                    lemma_push_to_set(pre, om[k as int]);
                }
            }
            proof {
                lemma_take_to_set(om, k as int);
                assert(tuples_model(rem).to_set()
                    =~= om.take(k as int + 1).to_set().difference(self.to_set()));
            }
            k = k + 1;
        }
        let c = Change { inserted: ins, removed: rem };
        proof {
            assert(self.models().take(n as int) =~= self.models());
            assert(other.models().take(no as int) =~= other.models());
            assert(c.ins_set() =~= self.to_set().difference(other.to_set()));
            assert(c.rem_set() =~= other.to_set().difference(self.to_set()));
            if c.spec_is_empty() {
                assert(c.ins_set() =~= Set::<Seq<SpecValue>>::empty());
                assert(c.rem_set() =~= Set::<Seq<SpecValue>>::empty());
                assert forall|a: Seq<SpecValue>| self.to_set().contains(a)
                    implies other.to_set().contains(a) by {
                    if !other.to_set().contains(a) {
                        assert(c.ins_set().contains(a));
                    }
                }
                assert forall|a: Seq<SpecValue>| other.to_set().contains(a)
                    implies self.to_set().contains(a) by {
                    if !self.to_set().contains(a) {
                        assert(c.rem_set().contains(a));
                    }
                }
                assert(self.to_set() =~= other.to_set());
            }
            if self.to_set() == other.to_set() {
                if c.inserted@.len() > 0 {
                    assert(c.ins_set().contains(tuples_model(c.inserted)[0]));
                }
                if c.removed@.len() > 0 {
                    assert(c.rem_set().contains(tuples_model(c.removed)[0]));
                }
            }
        }
        c
    }
}

/// Pushing an element onto a sequence adds exactly that element to the set of
/// its elements.
pub proof fn lemma_push_to_set<A>(s: Seq<A>, x: A)
    ensures
        s.push(x).to_set() == s.to_set().insert(x),
{
    let t = s.push(x);
    assert forall|a: A| t.to_set().contains(a)
        implies s.to_set().insert(x).contains(a) by {
        let k = choose|k: int| 0 <= k < t.len() && t[k] == a;
        if k < s.len() {
            assert(s[k] == a);
        }
    }
    assert forall|a: A| s.to_set().insert(x).contains(a)
        implies t.to_set().contains(a) by {
        if a == x {
            assert(t[s.len() as int] == a);
        } else {
            let k = choose|k: int| 0 <= k < s.len() && s[k] == a;
            assert(t[k] == a);
        }
    }
    assert(t.to_set() =~= s.to_set().insert(x));
}

/// Taking one more element of a sequence adds exactly that element to the set
/// of elements taken so far.
pub proof fn lemma_take_to_set<A>(s: Seq<A>, i: int)
    requires
        0 <= i < s.len(),
    ensures
        s.take(i + 1).to_set() == s.take(i).to_set().insert(s[i]),
{
    let t1 = s.take(i + 1);
    let t0 = s.take(i);
    assert(t1 =~= t0.push(s[i]));
    assert forall|a: A| t1.to_set().contains(a)
        implies t0.to_set().insert(s[i]).contains(a) by {
        let k = choose|k: int| 0 <= k < t1.len() && t1[k] == a;
        if k < i {
            assert(t0[k] == a);
        }
    }
    assert forall|a: A| t0.to_set().insert(s[i]).contains(a)
        implies t1.to_set().contains(a) by {
        if a == s[i] {
            assert(t1[i] == a);
        } else {
            let k = choose|k: int| 0 <= k < t0.len() && t0[k] == a;
            assert(t1[k] == a);
        }
    }
    assert(t1.to_set() =~= t0.to_set().insert(s[i]));
}

} // verus!
