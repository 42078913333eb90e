use vstd::prelude::*;

use crate::error::Error;
use crate::message::{is_set, slot_at, slot_is_set, Node, Slot, Val};
use crate::plan::{plan_view, Check, Step, StepV};

verus! {

/// What a missing slot reads as.
const UNSET: Slot = Slot::Unset;

/// The cached plans as the contracts see them: one entry per schema id.
pub open spec fn plans_view(c: Seq<Option<Vec<Step>>>) -> Seq<Option<Seq<StepV>>> {
    c.map_values(
        |o: Option<Vec<Step>>|
            match o {
                Some(p) => Some(plan_view(p@)),
                None => None,
            },
    )
}

/// The outcome of validating node `n` of `ns` with the cached plans `c`: the
/// plan of the node's schema runs step by step, the first failure ends it.
pub open spec fn node_res(c: Seq<Option<Seq<StepV>>>, ns: Seq<Node>, n: int) -> Result<(), Error>
    decreases ns.len() - n, 5int, 0int,
{
    if 0 <= n < ns.len() {
        let sid = ns[n].schema;
        if sid < c.len() && c[sid as int] is Some {
            steps_res(c, ns, n, c[sid as int]->0, 0)
        } else {
            Err(Error::Unregistered { schema: sid })
        }
    } else {
        Err(Error::Malformed { node: n as usize })
    }
}

/// Runs steps `i..` of a plan on node `n`.
pub open spec fn steps_res(
    c: Seq<Option<Seq<StepV>>>,
    ns: Seq<Node>,
    n: int,
    plan: Seq<StepV>,
    i: int,
) -> Result<(), Error>
    decreases ns.len() - n, 4int, plan.len() - i,
{
    if 0 <= n < ns.len() && 0 <= i < plan.len() {
        match step_res(c, ns, n, plan[i]) {
            Err(e) => Err(e),
            Ok(()) => steps_res(c, ns, n, plan, i + 1),
        }
    } else {
        Ok(())
    }
}

/// How many of the listed fields of a node are set.
pub open spec fn set_count(nd: Node, members: Seq<usize>) -> nat
    decreases members.len(),
{
    if members.len() == 0 {
        0
    } else {
        set_count(nd, members.drop_last()) + if is_set(slot_at(nd, members.last() as int)) {
            1nat
        } else {
            0nat
        }
    }
}

/// The outcome of an exclusivity step: exactly one member must be set.
pub open spec fn exclusive_res(nd: Node, group: int, members: Seq<usize>) -> Result<(), Error> {
    let k = set_count(nd, members);
    if k == 0 {
        Err(Error::NoValue { schema: nd.schema, group: group as usize })
    } else if k > 1 {
        Err(Error::MultipleValues { schema: nd.schema, group: group as usize })
    } else {
        Ok(())
    }
}

/// The outcome of one step on node `n`.
pub open spec fn step_res(c: Seq<Option<Seq<StepV>>>, ns: Seq<Node>, n: int, st: StepV) -> Result<
    (),
    Error,
>
    decreases ns.len() - n, 3int, 0int,
{
    if 0 <= n < ns.len() {
        let nd = ns[n];
        match st {
            StepV::Field { field, chain } => all_res(c, ns, n, field, chain, slot_at(nd, field), 0),
            StepV::Member { field, chain } => if is_set(slot_at(nd, field)) {
                all_res(c, ns, n, field, chain, slot_at(nd, field), 0)
            } else {
                Ok(())
            },
            StepV::Exclusive { group, members } => exclusive_res(nd, group, members),
            StepV::Collection { field, chain } => stop_res(
                c,
                ns,
                n,
                field,
                chain,
                slot_at(nd, field),
                0,
            ),
        }
    } else {
        Ok(())
    }
}

/// Runs checks `j..` of a singular field's chain: every check runs, only an
/// error ends the chain.
pub open spec fn all_res(
    c: Seq<Option<Seq<StepV>>>,
    ns: Seq<Node>,
    n: int,
    field: int,
    chain: Seq<Check>,
    s: Slot,
    j: int,
) -> Result<(), Error>
    decreases ns.len() - n, 2int, chain.len() - j,
{
    if 0 <= n < ns.len() && 0 <= j < chain.len() {
        match check_res(c, ns, n, field, chain[j], s) {
            Err(e) => Err(e),
            Ok(_) => all_res(c, ns, n, field, chain, s, j + 1),
        }
    } else {
        Ok(())
    }
}

/// Runs checks `j..` of a list or map chain: an error ends it with that
/// error, a stop signal ends it with success.
pub open spec fn stop_res(
    c: Seq<Option<Seq<StepV>>>,
    ns: Seq<Node>,
    n: int,
    field: int,
    chain: Seq<Check>,
    s: Slot,
    j: int,
) -> Result<(), Error>
    decreases ns.len() - n, 2int, chain.len() - j,
{
    if 0 <= n < ns.len() && 0 <= j < chain.len() {
        match check_res(c, ns, n, field, chain[j], s) {
            Err(e) => Err(e),
            Ok(false) => Ok(()),
            Ok(true) => stop_res(c, ns, n, field, chain, s, j + 1),
        }
    } else {
        Ok(())
    }
}

pub open spec fn violation(schema: usize, field: int, ch: Check) -> Error {
    Error::Violation { schema, field: field as usize, check: ch }
}

/// Whether a check applies to each element (or the single value) rather than
/// to the slot as a whole.
pub open spec fn per_value(ch: Check) -> bool {
    ch is AtLeast || ch is AtMost || ch is Nested
}

/// One check on a slot: an error, or whether the chain may go on.
pub open spec fn check_res(
    c: Seq<Option<Seq<StepV>>>,
    ns: Seq<Node>,
    n: int,
    field: int,
    ch: Check,
    s: Slot,
) -> Result<bool, Error>
    decreases ns.len() - n, 1int, 0int,
{
    match s {
        Slot::Unset => if ch is Required {
            Err(violation(ns[n].schema, field, ch))
        } else {
            Ok(true)
        },
        Slot::One(v) => if per_value(ch) && 0 <= n < ns.len() {
            match val_res(c, ns, n, field, ch, v) {
                Err(e) => Err(e),
                Ok(()) => Ok(true),
            }
        } else {
            Ok(true)
        },
        Slot::Many(vs) => match ch {
            Check::MinItems(k) => if vs@.len() >= k {
                Ok(true)
            } else {
                Err(violation(ns[n].schema, field, ch))
            },
            Check::MaxItems(k) => if vs@.len() <= k {
                Ok(true)
            } else {
                Err(violation(ns[n].schema, field, ch))
            },
            Check::StopIfEmpty => Ok(vs@.len() > 0),
            Check::Required => Ok(true),
            _ => if 0 <= n < ns.len() {
                match each_res(c, ns, n, field, ch, vs@, 0) {
                    Err(e) => Err(e),
                    Ok(()) => Ok(true),
                }
            } else {
                Ok(true)
            },
        },
    }
}

/// Applies a per-value check to elements `k..`, stopping at the first error.
pub open spec fn each_res(
    c: Seq<Option<Seq<StepV>>>,
    ns: Seq<Node>,
    n: int,
    field: int,
    ch: Check,
    vs: Seq<Val>,
    k: int,
) -> Result<(), Error>
    decreases ns.len() - n, 0int, vs.len() - k + 1,
{
    if 0 <= n < ns.len() && 0 <= k < vs.len() {
        match val_res(c, ns, n, field, ch, vs[k]) {
            Err(e) => Err(e),
            Ok(()) => each_res(c, ns, n, field, ch, vs, k + 1),
        }
    } else {
        Ok(())
    }
}

/// A per-value check on one value of node `n`; a nested message runs the
/// plan of its own schema.
pub open spec fn val_res(
    c: Seq<Option<Seq<StepV>>>,
    ns: Seq<Node>,
    n: int,
    field: int,
    ch: Check,
    v: Val,
) -> Result<(), Error>
    decreases ns.len() - n, 0int, 0int,
{
    match (ch, v) {
        (Check::AtLeast(b), Val::Int(x)) => if x >= b {
            Ok(())
        } else {
            Err(violation(ns[n].schema, field, ch))
        },
        (Check::AtMost(b), Val::Int(x)) => if x <= b {
            Ok(())
        } else {
            Err(violation(ns[n].schema, field, ch))
        },
        (Check::Nested(_), Val::Msg(m)) => if 0 <= n < m < ns.len() {
            node_res(c, ns, m as int)
        } else {
            Err(Error::Malformed { node: m })
        },
        _ => Ok(()),
    }
}

pub proof fn lemma_count_step(nd: Node, m: Seq<usize>, k: int)
    requires
        0 <= k < m.len(),
    ensures
        set_count(nd, m.take(k + 1)) == set_count(nd, m.take(k)) + if is_set(slot_at(nd, m[k] as int)) {
            1nat
        } else {
            0nat
        },
{
    assert(m.take(k + 1).drop_last() =~= m.take(k));
}

pub proof fn lemma_count_prefix(nd: Node, m: Seq<usize>, k: int)
    requires
        0 <= k <= m.len(),
    ensures
        set_count(nd, m.take(k)) <= set_count(nd, m),
    decreases m.len() - k,
{
    if k == m.len() {
        assert(m.take(k) =~= m);
    } else {
        lemma_count_prefix(nd, m, k + 1);
        lemma_count_step(nd, m, k);
    }
}

fn field_is_set(nd: &Node, f: usize) -> (r: bool)
    ensures
        r == is_set(slot_at(*nd, f as int)),
{
    if f < nd.slots.len() {
        slot_is_set(&nd.slots[f])
    } else {
        false
    }
}

/// Scans the members of a group: fails as soon as a second one is set, or at
/// the end when none is.
fn run_exclusive(nd: &Node, group: usize, members: &Vec<usize>) -> (r: Result<(), Error>)
    ensures
        r == exclusive_res(*nd, group as int, members@),
{
    let mut count: usize = 0;
    let mut k: usize = 0;
    assert(members@.take(0) =~= Seq::<usize>::empty());
    while k < members.len()
        invariant
            k <= members@.len(),
            count <= 1,
            count == set_count(*nd, members@.take(k as int)),
        decreases members@.len() - k,
    {
        proof {
            lemma_count_step(*nd, members@, k as int);
        }
        if field_is_set(nd, members[k]) {
            if count == 1 {
                proof {
                    lemma_count_prefix(*nd, members@, k + 1);
                }
                return Err(Error::MultipleValues { schema: nd.schema, group });
            }
            count += 1;
        }
        k += 1;
    }
    assert(members@.take(k as int) =~= members@);
    if count == 0 {
        Err(Error::NoValue { schema: nd.schema, group })
    } else {
        Ok(())
    }
}

/// Validates node `n` of `ns` with the cached plans `c`.
pub fn run_node(c: &Vec<Option<Vec<Step>>>, ns: &Vec<Node>, n: usize) -> (r: Result<(), Error>)
    ensures
        r == node_res(plans_view(c@), ns@, n as int),
    decreases ns@.len() - n, 5int, 0int,
{
    if n < ns.len() {
        let sid = ns[n].schema;
        if sid < c.len() {
            if let Some(plan) = &c[sid] {
                return run_steps(c, ns, n, plan);
            }
        }
        Err(Error::Unregistered { schema: sid })
    } else {
        Err(Error::Malformed { node: n })
    }
}

fn run_steps(c: &Vec<Option<Vec<Step>>>, ns: &Vec<Node>, n: usize, plan: &Vec<Step>) -> (r: Result<
    (),
    Error,
>)
    requires
        n < ns@.len(),
    ensures
        r == steps_res(plans_view(c@), ns@, n as int, plan_view(plan@), 0),
    decreases ns@.len() - n, 4int, 0int,
{
    let ghost pv = plans_view(c@);
    let ghost p = plan_view(plan@);
    let mut i: usize = 0;
    while i < plan.len()
        invariant
            i <= plan@.len(),
            n < ns@.len(),
            p == plan_view(plan@),
            pv == plans_view(c@),
            steps_res(pv, ns@, n as int, p, 0) == steps_res(pv, ns@, n as int, p, i as int),
        decreases plan@.len() - i,
    {
        match run_step(c, ns, n, &plan[i]) {
            Err(e) => {
                return Err(e);
            },
            Ok(()) => {},
        }
        i += 1;
    }
    Ok(())
}

fn run_step(c: &Vec<Option<Vec<Step>>>, ns: &Vec<Node>, n: usize, st: &Step) -> (r: Result<
    (),
    Error,
>)
    requires
        n < ns@.len(),
    ensures
        r == step_res(plans_view(c@), ns@, n as int, st@),
    decreases ns@.len() - n, 3int, 0int,
{
    let nd = &ns[n];
    match st {
        Step::Field { field, chain } => run_all(c, ns, n, *field, chain, slot_ref(nd, *field)),
        Step::Member { field, chain } => {
            if field_is_set(nd, *field) {
                run_all(c, ns, n, *field, chain, slot_ref(nd, *field))
            } else {
                Ok(())
            }
        },
        Step::Exclusive { group, members } => run_exclusive(nd, *group, members),
        Step::Collection { field, chain } => run_stop(c, ns, n, *field, chain, slot_ref(nd, *field)),
    }
}

fn slot_ref(nd: &Node, f: usize) -> (r: &Slot)
    ensures
        *r == slot_at(*nd, f as int),
{
    if f < nd.slots.len() {
        &nd.slots[f]
    } else {
        &UNSET
    }
}

fn run_all(
    c: &Vec<Option<Vec<Step>>>,
    ns: &Vec<Node>,
    n: usize,
    field: usize,
    chain: &Vec<Check>,
    s: &Slot,
) -> (r: Result<(), Error>)
    requires
        n < ns@.len(),
    ensures
        r == all_res(plans_view(c@), ns@, n as int, field as int, chain@, *s, 0),
    decreases ns@.len() - n, 2int, 0int,
{
    let ghost pv = plans_view(c@);
    let mut j: usize = 0;
    while j < chain.len()
        invariant
            j <= chain@.len(),
            n < ns@.len(),
            pv == plans_view(c@),
            all_res(pv, ns@, n as int, field as int, chain@, *s, 0) == all_res(
                pv,
                ns@,
                n as int,
                field as int,
                chain@,
                *s,
                j as int,
            ),
        decreases chain@.len() - j,
    {
        match run_check(c, ns, n, field, chain[j], s) {
            Err(e) => {
                return Err(e);
            },
            Ok(_) => {},
        }
        j += 1;
    }
    Ok(())
}

fn run_stop(
    c: &Vec<Option<Vec<Step>>>,
    ns: &Vec<Node>,
    n: usize,
    field: usize,
    chain: &Vec<Check>,
    s: &Slot,
) -> (r: Result<(), Error>)
    requires
        n < ns@.len(),
    ensures
        r == stop_res(plans_view(c@), ns@, n as int, field as int, chain@, *s, 0),
    decreases ns@.len() - n, 2int, 0int,
{
    let ghost pv = plans_view(c@);
    let mut j: usize = 0;
    while j < chain.len()
        invariant
            j <= chain@.len(),
            n < ns@.len(),
            pv == plans_view(c@),
            stop_res(pv, ns@, n as int, field as int, chain@, *s, 0) == stop_res(
                pv,
                ns@,
                n as int,
                field as int,
                chain@,
                *s,
                j as int,
            ),
        decreases chain@.len() - j,
    {
        match run_check(c, ns, n, field, chain[j], s) {
            Err(e) => {
                return Err(e);
            },
            Ok(false) => {
                return Ok(());
            },
            Ok(true) => {},
        }
        j += 1;
    }
    Ok(())
}

fn run_check(
    c: &Vec<Option<Vec<Step>>>,
    ns: &Vec<Node>,
    n: usize,
    field: usize,
    ch: Check,
    s: &Slot,
) -> (r: Result<bool, Error>)
    requires
        n < ns@.len(),
    ensures
        r == check_res(plans_view(c@), ns@, n as int, field as int, ch, *s),
    decreases ns@.len() - n, 1int, 0int,
{
    match s {
        Slot::Unset => {
            if matches!(ch, Check::Required) {
                Err(Error::Violation { schema: ns[n].schema, field, check: ch })
            } else {
                Ok(true)
            }
        },
        Slot::One(v) => {
            if matches!(ch, Check::AtLeast(_) | Check::AtMost(_) | Check::Nested(_)) {
                match run_val(c, ns, n, field, ch, *v) {
                    Err(e) => Err(e),
                    Ok(()) => Ok(true),
                }
            } else {
                Ok(true)
            }
        },
        Slot::Many(vs) => match ch {
            Check::MinItems(k) => {
                if vs.len() >= k {
                    Ok(true)
                } else {
                    Err(Error::Violation { schema: ns[n].schema, field, check: ch })
                }
            },
            Check::MaxItems(k) => {
                if vs.len() <= k {
                    Ok(true)
                } else {
                    Err(Error::Violation { schema: ns[n].schema, field, check: ch })
                }
            },
            Check::StopIfEmpty => Ok(vs.len() > 0),
            Check::Required => Ok(true),
            _ => {
                let ghost pv = plans_view(c@);
                let mut k: usize = 0;
                while k < vs.len()
                    invariant
                        k <= vs@.len(),
                        n < ns@.len(),
                        per_value(ch),
                        *s is Many && (*s)->Many_0@ == vs@,
                        pv == plans_view(c@),
                        each_res(pv, ns@, n as int, field as int, ch, vs@, 0) == each_res(
                            pv,
                            ns@,
                            n as int,
                            field as int,
                            ch,
                            vs@,
                            k as int,
                        ),
                    decreases vs@.len() - k,
                {
                    match run_val(c, ns, n, field, ch, vs[k]) {
                        Err(e) => {
                            return Err(e);
                        },
                        Ok(()) => {},
                    }
                    k += 1;
                }
                Ok(true)
            },
        },
    }
}

fn run_val(c: &Vec<Option<Vec<Step>>>, ns: &Vec<Node>, n: usize, field: usize, ch: Check, v: Val) -> (r:
    Result<(), Error>)
    requires
        n < ns@.len(),
    ensures
        r == val_res(plans_view(c@), ns@, n as int, field as int, ch, v),
    decreases ns@.len() - n, 0int, 0int,
{
    match (ch, v) {
        (Check::AtLeast(b), Val::Int(x)) => {
            if x >= b {
                Ok(())
            } else {
                Err(Error::Violation { schema: ns[n].schema, field, check: ch })
            }
        },
        (Check::AtMost(b), Val::Int(x)) => {
            if x <= b {
                Ok(())
            } else {
                Err(Error::Violation { schema: ns[n].schema, field, check: ch })
            }
        },
        (Check::Nested(_), Val::Msg(m)) => {
            if n < m && m < ns.len() {
                run_node(c, ns, m)
            } else {
                Err(Error::Malformed { node: m })
            }
        },
        _ => Ok(()),
    }
}

} // verus!
