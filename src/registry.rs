use vstd::prelude::*;

use crate::error::Error;
use crate::message::Message;
use crate::plan::{compile_schema, plan_of, plan_view, Check, Step, StepV};
use crate::laws::lemma_skipped_schema_passes;
use crate::run::{node_res, plans_view, run_node};
use crate::schema::Schema;

verus! {

pub type Plans = Seq<Option<Seq<StepV>>>;

/// The chain a step runs (an exclusivity step has none).
pub open spec fn step_chain(st: StepV) -> Seq<Check> {
    match st {
        StepV::Field { chain, .. } => chain,
        StepV::Member { chain, .. } => chain,
        StepV::Collection { chain, .. } => chain,
        StepV::Exclusive { .. } => seq![],
    }
}

/// Every schema that a plan refers to through a nested check is cached.
pub open spec fn refs_present(c: Plans, plan: Seq<StepV>) -> bool {
    forall|k: int, j: int|
        #![trigger step_chain(plan[k])[j]]
        0 <= k < plan.len() && 0 <= j < step_chain(plan[k]).len() && step_chain(plan[k])[j] is Nested
            && step_chain(plan[k])[j]->Nested_0 < c.len() ==> c[step_chain(plan[k])[j]->Nested_0 as int] is Some
}

/// Every schema of the pool compiles.
pub open spec fn pool_compiles(pool: Seq<Schema>) -> bool {
    forall|i: int| 0 <= i < pool.len() ==> (#[trigger] plan_of(i as usize, pool[i])) is Ok
}

/// The error is the compile error of some schema of the pool.
pub open spec fn failing_schema_error(pool: Seq<Schema>, e: Error) -> bool {
    exists|i: int| 0 <= i < pool.len() && plan_of(i as usize, pool[i]) == Err::<Seq<StepV>, Error>(e)
}

/// The number of schemas not yet cached.
pub open spec fn none_count(c: Plans) -> nat
    decreases c.len(),
{
    if c.len() == 0 {
        0
    } else {
        none_count(c.drop_last()) + if c.last() is None {
            1nat
        } else {
            0nat
        }
    }
}

pub proof fn lemma_none_count(a: Plans, b: Plans, w: int)
    requires
        a.len() == b.len(),
        forall|i: int| 0 <= i < a.len() && a[i] is Some ==> b[i] is Some,
    ensures
        none_count(b) <= none_count(a),
        0 <= w < a.len() && a[w] is None && b[w] is Some ==> none_count(b) < none_count(a),
    decreases a.len(),
{
    if a.len() > 0 {
        lemma_none_count(a.drop_last(), b.drop_last(), w);
    }
}

/// Entries that differ from `orig` were all empty there and are listed in
/// `touched`, so clearing the listed entries gives `orig` back.
pub open spec fn undo_ok(cur: Plans, orig: Plans, touched: Seq<usize>) -> bool {
    &&& cur.len() == orig.len()
    &&& forall|k: int| 0 <= k < touched.len() ==> touched[k] < orig.len() && orig[touched[k] as int] is None
    &&& forall|i: int|
        0 <= i < cur.len() && #[trigger] cur[i] != orig[i] ==> exists|m: int|
            0 <= m < touched.len() && touched[m] as int == i
}

/// The validator registry: a pool of schemas, addressed by id, and the cache
/// of their compiled plans, filled lazily and never evicted.
pub struct Registry {
    pool: Vec<Schema>,
    cache: Vec<Option<Vec<Step>>>,
}

impl Registry {
    pub closed spec fn pool(&self) -> Seq<Schema> {
        self.pool@
    }

    /// The cached plan of each schema id, `None` where none is cached.
    pub closed spec fn plans(&self) -> Plans {
        plans_view(self.cache@)
    }

    /// The cache invariant while the schemas in `stack` are being compiled
    /// (and hold placeholders): every other cached plan is the schema's
    /// compiled plan, and what it refers to is cached too.
    pub open spec fn inv_with(&self, stack: Set<int>) -> bool {
        &&& self.plans().len() == self.pool().len()
        &&& forall|i: int|
            0 <= i < self.plans().len() && #[trigger] self.plans()[i] is Some && !stack.contains(i)
                ==> Ok::<Seq<StepV>, Error>(self.plans()[i]->0) == plan_of(i as usize, self.pool()[i])
                && refs_present(self.plans(), self.plans()[i]->0)
        &&& forall|i: int| stack.contains(i) ==> 0 <= i < self.plans().len() && self.plans()[i] is Some
    }

    pub open spec fn wf(&self) -> bool {
        self.inv_with(Set::empty())
    }

    /// A registry over `pool` with nothing compiled yet.
    pub fn new(pool: Vec<Schema>) -> (r: Registry)
        ensures
            r.wf(),
            r.pool() == pool@,
            forall|i: int| 0 <= i < pool@.len() ==> r.plans()[i] is None,
    {
        let mut cache: Vec<Option<Vec<Step>>> = Vec::new();
        let mut k: usize = 0;
        while k < pool.len()
            invariant
                k <= pool@.len(),
                cache@.len() == k,
                forall|i: int| 0 <= i < k ==> cache@[i] is None,
            decreases pool@.len() - k,
        {
            cache.push(None);
            k += 1;
        }
        Registry { pool, cache }
    }

    pub fn is_registered(&self, sid: usize) -> (r: bool)
        requires
            self.wf(),
        ensures
            r == (sid < self.pool().len() && self.plans()[sid as int] is Some),
    {
        sid < self.cache.len() && self.cache[sid].is_some()
    }

    /// The schema registered under id `sid`, if there is one.
    pub fn schema(&self, sid: usize) -> (r: Option<&Schema>)
        ensures
            sid < self.pool().len() ==> r == Some(&self.pool()[sid as int]),
            sid >= self.pool().len() ==> r is None,
    {
        if sid < self.pool.len() {
            Some(&self.pool[sid])
        } else {
            None
        }
    }

    pub fn schema_count(&self) -> (r: usize)
        ensures
            r == self.pool().len(),
    {
        self.pool.len()
    }

    fn register_rec(
        &mut self,
        s: usize,
        Ghost(stack): Ghost<Set<int>>,
        Ghost(orig): Ghost<Plans>,
        touched: &mut Vec<usize>,
    ) -> (r: Result<(), Error>)
        requires
            s < old(self).pool().len(),
            old(self).inv_with(stack),
            undo_ok(old(self).plans(), orig, old(touched)@),
        ensures
            final(self).pool() == old(self).pool(),
            undo_ok(final(self).plans(), orig, final(touched)@),
            r is Ok ==> final(self).inv_with(stack),
            r is Ok ==> final(self).plans()[s as int] is Some,
            r is Ok ==> forall|i: int|
                0 <= i < old(self).plans().len() && old(self).plans()[i] is Some
                    ==> #[trigger] final(self).plans()[i] == old(self).plans()[i],
            pool_compiles(old(self).pool()) ==> r is Ok,
            old(self).pool()[s as int].skipped() ==> r is Ok,
            r matches Err(e) ==> failing_schema_error(old(self).pool(), e),
        decreases none_count(old(self).plans()), 0int,
    {
        if self.cache[s].is_some() {
            return Ok(());
        }
        let ghost entry = self.plans();
        // the placeholder: a nested reference back to `s` stops here
        let placeholder: Vec<Step> = Vec::new();
        assert(plan_view(placeholder@) =~= Seq::<StepV>::empty());
        self.cache.set(s, Some(placeholder));
        touched.push(s);
        proof {
            assert(self.plans() =~= entry.update(s as int, Some(Seq::<StepV>::empty())));
            lemma_none_count(entry, self.plans(), s as int);
            assert forall|i: int|
                0 <= i < self.plans().len() && #[trigger] self.plans()[i] is Some && !stack.insert(
                    s as int,
                ).contains(i) implies refs_present(self.plans(), self.plans()[i]->0) by {
                assert(refs_present(entry, entry[i]->0));
            }
            assert forall|i: int| 0 <= i < self.plans().len() && #[trigger] self.plans()[i] != orig[i] implies exists|m: int|
                0 <= m < touched@.len() && touched@[m] as int == i by {
                if i != s {
                    let m = choose|m: int| 0 <= m < old(touched)@.len() && old(touched)@[m] as int == i;
                    assert(touched@[m] as int == i);
                } else {
                    assert(touched@[touched@.len() - 1] as int == i);
                }
            }
        }
        let compiled = compile_schema(s, &self.pool[s]);
        let plan = match compiled {
            Ok(p) => p,
            Err(e) => {
                proof {
                    if pool_compiles(self.pool()) {
                        assert(plan_of((s as int) as usize, self.pool()[s as int]) is Ok);
                    }
                }
                return Err(e);
            },
        };
        let ghost mid = self.plans();
        match self.register_refs(&plan, Ghost(stack.insert(s as int)), Ghost(orig), touched) {
            Ok(()) => {},
            Err(e) => {
                return Err(e);
            },
        }
        let ghost after = self.plans();
        self.cache.set(s, Some(plan));
        proof {
            assert(self.plans() =~= after.update(s as int, Some(plan_view(plan@))));
            assert forall|i: int|
                0 <= i < self.plans().len() && #[trigger] self.plans()[i] is Some && !stack.contains(i)
                implies refs_present(self.plans(), self.plans()[i]->0) by {
                if i == s {
                    assert(refs_present(after, plan_view(plan@)));
                } else {
                    assert(refs_present(after, after[i]->0));
                }
            }
        }
        Ok(())
    }

    fn register_refs(
        &mut self,
        plan: &Vec<Step>,
        Ghost(stack): Ghost<Set<int>>,
        Ghost(orig): Ghost<Plans>,
        touched: &mut Vec<usize>,
    ) -> (r: Result<(), Error>)
        requires
            old(self).inv_with(stack),
            undo_ok(old(self).plans(), orig, old(touched)@),
        ensures
            final(self).pool() == old(self).pool(),
            undo_ok(final(self).plans(), orig, final(touched)@),
            r is Ok ==> final(self).inv_with(stack),
            r is Ok ==> refs_present(final(self).plans(), plan_view(plan@)),
            r is Ok ==> forall|i: int|
                0 <= i < old(self).plans().len() && old(self).plans()[i] is Some
                    ==> #[trigger] final(self).plans()[i] == old(self).plans()[i],
            pool_compiles(old(self).pool()) ==> r is Ok,
            plan@.len() == 0 ==> r is Ok,
            r matches Err(e) ==> failing_schema_error(old(self).pool(), e),
        decreases none_count(old(self).plans()), 1int,
    {
        let ghost entry = self.plans();
        let ghost pv = plan_view(plan@);
        let mut k: usize = 0;
        while k < plan.len()
            invariant
                k <= plan@.len(),
                pv == plan_view(plan@),
                self.pool() == old(self).pool(),
                entry == old(self).plans(),
                entry.len() == self.plans().len(),
                self.inv_with(stack),
                undo_ok(self.plans(), orig, touched@),
                forall|i: int|
                    0 <= i < entry.len() && entry[i] is Some ==> #[trigger] self.plans()[i] == entry[i],
                none_count(self.plans()) <= none_count(entry),
                forall|k2: int, j: int|
                    #![trigger step_chain(pv[k2])[j]]
                    0 <= k2 < k && 0 <= j < step_chain(pv[k2]).len() && step_chain(pv[k2])[j] is Nested
                        && step_chain(pv[k2])[j]->Nested_0 < self.plans().len()
                        ==> self.plans()[step_chain(pv[k2])[j]->Nested_0 as int] is Some,
            decreases plan@.len() - k,
        {
            let chain: &Vec<Check> = match &plan[k] {
                Step::Field { chain, .. } => chain,
                Step::Member { chain, .. } => chain,
                Step::Collection { chain, .. } => chain,
                Step::Exclusive { .. } => {
                    k += 1;
                    continue;
                },
            };
            assert(chain@ == step_chain(pv[k as int]));
            let mut j: usize = 0;
            while j < chain.len()
                invariant
                    k < plan@.len(),
                    j <= chain@.len(),
                    chain@ == step_chain(pv[k as int]),
                    pv == plan_view(plan@),
                    self.pool() == old(self).pool(),
                    entry == old(self).plans(),
                entry.len() == self.plans().len(),
                    self.inv_with(stack),
                    undo_ok(self.plans(), orig, touched@),
                    forall|i: int|
                        0 <= i < entry.len() && entry[i] is Some ==> #[trigger] self.plans()[i] == entry[i],
                    none_count(self.plans()) <= none_count(entry),
                    forall|k2: int, j2: int|
                        #![trigger step_chain(pv[k2])[j2]]
                        ((0 <= k2 < k && 0 <= j2 < step_chain(pv[k2]).len()) || (k2 == k && 0 <= j2 < j))
                            && step_chain(pv[k2])[j2] is Nested
                            && step_chain(pv[k2])[j2]->Nested_0 < self.plans().len()
                            ==> self.plans()[step_chain(pv[k2])[j2]->Nested_0 as int] is Some,
                decreases chain@.len() - j,
            {
                if let Check::Nested(t) = chain[j] {
                    if t < self.pool.len() {
                        let ghost before = self.plans();
                        match self.register_rec(t, Ghost(stack), Ghost(orig), touched) {
                            Ok(()) => {},
                            Err(e) => {
                                return Err(e);
                            },
                        }
                        proof {
                            lemma_none_count(before, self.plans(), 0);
                            assert forall|i: int|
                                0 <= i < entry.len() && entry[i] is Some implies #[trigger] self.plans()[i] == entry[i] by {
                                assert(before[i] == entry[i]);
                            }
                        }
                    }
                }
                j += 1;
            }
            k += 1;
        }
        Ok(())
    }

    fn undo(&mut self, touched: &Vec<usize>, Ghost(orig): Ghost<Plans>)
        requires
            undo_ok(old(self).plans(), orig, touched@),
        ensures
            final(self).pool() == old(self).pool(),
            final(self).plans() == orig,
    {
        let mut k: usize = 0;
        while k < touched.len()
            invariant
                k <= touched@.len(),
                self.pool() == old(self).pool(),
                self.plans().len() == orig.len(),
                forall|m: int| 0 <= m < touched@.len() ==> touched@[m] < orig.len() && orig[touched@[m] as int] is None,
                forall|i: int|
                    0 <= i < orig.len() && #[trigger] self.plans()[i] != orig[i] ==> exists|m: int|
                        k <= m < touched@.len() && touched@[m] as int == i,
            decreases touched@.len() - k,
        {
            let ghost before = self.plans();
            let t = touched[k];
            self.cache.set(t, None);
            proof {
                assert(self.plans() =~= before.update(t as int, None));
                assert forall|i: int|
                    0 <= i < orig.len() && #[trigger] self.plans()[i] != orig[i] implies exists|m: int|
                        k + 1 <= m < touched@.len() && touched@[m] as int == i by {
                    let m = choose|m: int| k <= m < touched@.len() && touched@[m] as int == i;
                    if m == k {
                        assert(self.plans()[i] == orig[i]);
                    }
                }
            }
            k += 1;
        }
        assert(self.plans() =~= orig);
    }

    /// Compiles schema `sid` and, in the same pass, every schema its plan
    /// refers to, unless it is cached already. On failure the cache is left
    /// as it was.
    pub fn register(&mut self, sid: usize) -> (r: Result<(), Error>)
        requires
            old(self).wf(),
        ensures
            final(self).wf(),
            final(self).pool() == old(self).pool(),
            sid >= old(self).pool().len() ==> r == Err::<(), Error>(Error::Unregistered { schema: sid })
                && final(self).plans() == old(self).plans(),
            sid < old(self).pool().len() && old(self).plans()[sid as int] is Some ==> r is Ok
                && final(self).plans() == old(self).plans(),
            r is Ok ==> final(self).plans()[sid as int] == Some(plan_of(sid, old(self).pool()[sid as int])->Ok_0),
            r is Ok ==> forall|i: int|
                0 <= i < old(self).plans().len() && old(self).plans()[i] is Some
                    ==> #[trigger] final(self).plans()[i] == old(self).plans()[i],
            r is Err ==> final(self).plans() == old(self).plans(),
            sid < old(self).pool().len() && pool_compiles(old(self).pool()) ==> r is Ok,
            sid < old(self).pool().len() && old(self).pool()[sid as int].skipped() ==> r is Ok,
            sid < old(self).pool().len() && r is Err ==> failing_schema_error(old(self).pool(), r->Err_0),
    {
        if sid >= self.pool.len() {
            return Err(Error::Unregistered { schema: sid });
        }
        if self.cache[sid].is_some() {
            return Ok(());
        }
        let ghost orig = self.plans();
        let mut touched: Vec<usize> = Vec::new();
        match self.register_rec(sid, Ghost(Set::empty()), Ghost(orig), &mut touched) {
            Ok(()) => {
                assert(self.plans()[sid as int] is Some);
                Ok(())
            },
            Err(e) => {
                self.undo(&touched, Ghost(orig));
                Err(e)
            },
        }
    }

    /// Runs the cached plan of the root's schema on a message, without
    /// compiling anything; a schema without a cached plan is an error.
    pub fn do_validate(&self, msg: &Message) -> (r: Result<(), Error>)
        ensures
            r == node_res(self.plans(), msg.nodes@, 0),
    {
        run_node(&self.cache, &msg.nodes, 0)
    }

    /// Validates a message: runs the cached plan of its root schema, compiling
    /// that schema (and all it reaches) first where it is not cached yet.
    pub fn validate(&mut self, msg: &Message) -> (r: Result<(), Error>)
        requires
            old(self).wf(),
        ensures
            final(self).wf(),
            final(self).pool() == old(self).pool(),
            msg.nodes@.len() == 0 ==> r == Err::<(), Error>(Error::Malformed { node: 0 })
                && final(self).plans() == old(self).plans(),
            msg.nodes@.len() > 0 && msg.nodes@[0].schema >= old(self).pool().len() ==> r == Err::<
                (),
                Error,
            >(Error::Unregistered { schema: msg.nodes@[0].schema }) && final(self).plans() == old(self).plans(),
            msg.nodes@.len() > 0 && msg.nodes@[0].schema < old(self).pool().len() ==> ({
                let sid = msg.nodes@[0].schema as int;
                &&& old(self).plans()[sid] is Some ==> final(self).plans() == old(self).plans()
                &&& final(self).plans()[sid] is Some ==> r == node_res(final(self).plans(), msg.nodes@, 0)
                    && final(self).plans()[sid] == Some(plan_of(sid as usize, old(self).pool()[sid])->Ok_0)
                    && forall|i: int|
                        0 <= i < old(self).plans().len() && old(self).plans()[i] is Some
                            ==> #[trigger] final(self).plans()[i] == old(self).plans()[i]
                &&& final(self).plans()[sid] is None ==> final(self).plans() == old(self).plans()
                    && r is Err && failing_schema_error(old(self).pool(), r->Err_0)
                &&& pool_compiles(old(self).pool()) ==> final(self).plans()[sid] is Some
                &&& old(self).pool()[sid].skipped() ==> r == Ok::<(), Error>(())
            }),
    {
        if msg.nodes.len() == 0 {
            return Err(Error::Malformed { node: 0 });
        }
        let sid = msg.nodes[0].schema;
        if sid < self.cache.len() && self.cache[sid].is_some() {
            proof {
                if self.pool()[sid as int].skipped() {
                    lemma_skipped_schema_passes(self.plans(), msg.nodes@, 0, self.pool()[sid as int]);
                }
            }
            return self.do_validate(msg);
        }
        self.register(sid)?;
        proof {
            if self.pool()[sid as int].skipped() {
                lemma_skipped_schema_passes(self.plans(), msg.nodes@, 0, self.pool()[sid as int]);
            }
        }
        self.do_validate(msg)
    }
}

} // verus!
