use vstd::prelude::*;

use crate::error::Error;
use crate::message::{is_set, slot_at, Node, Slot, Val};
use crate::plan::{
    chain_of, exclusive_steps, member_steps, members_of, plan_from, plan_of, single_step, Check, StepV,
};
use crate::run::{
    all_res, check_res, each_res, exclusive_res, node_res, set_count, step_res, steps_res, stop_res,
    val_res,
};
use crate::schema::Schema;

verus! {

/// A disabled or ignored schema compiles to an empty plan, so a node of that
/// schema whose plan is cached passes, whatever its fields hold.
pub proof fn lemma_skipped_schema_passes(
    c: Seq<Option<Seq<StepV>>>,
    ns: Seq<Node>,
    n: int,
    s: Schema,
)
    requires
        0 <= n < ns.len(),
        ns[n].schema < c.len(),
        s.skipped(),
        c[ns[n].schema as int] == Some(plan_of(ns[n].schema, s)->Ok_0),
    ensures
        node_res(c, ns, n) == Ok::<(), Error>(()),
{
    assert(steps_res(c, ns, n, seq![], 0) == Ok::<(), Error>(()));
}

proof fn lemma_stop_from(
    c: Seq<Option<Seq<StepV>>>,
    ns: Seq<Node>,
    n: int,
    field: int,
    chain: Seq<Check>,
    s: Slot,
    j: int,
    i: int,
)
    requires
        0 <= n < ns.len(),
        0 <= i <= j < chain.len(),
        check_res(c, ns, n, field, chain[j], s) == Ok::<bool, Error>(false),
        forall|k: int| i <= k < j ==> check_res(c, ns, n, field, chain[k], s) == Ok::<bool, Error>(true),
    ensures
        stop_res(c, ns, n, field, chain, s, i) == Ok::<(), Error>(()),
    decreases j - i,
{
    if i < j {
        lemma_stop_from(c, ns, n, field, chain, s, j, i + 1);
    }
}

/// In a list or map chain, a check that signals stop, after checks that all
/// signalled to go on, ends the field's chain with success: whatever checks
/// follow it never run and cannot fail the field.
pub proof fn lemma_stop_ends_chain(
    c: Seq<Option<Seq<StepV>>>,
    ns: Seq<Node>,
    n: int,
    field: int,
    chain: Seq<Check>,
    s: Slot,
    later: Seq<Check>,
)
    requires
        0 <= n < ns.len(),
        chain.len() > 0,
        check_res(c, ns, n, field, chain.last(), s) == Ok::<bool, Error>(false),
        forall|k: int|
            0 <= k < chain.len() - 1 ==> check_res(c, ns, n, field, #[trigger] chain[k], s) == Ok::<
                bool,
                Error,
            >(true),
    ensures
        stop_res(c, ns, n, field, chain + later, s, 0) == Ok::<(), Error>(()),
{
    let full = chain + later;
    let j = chain.len() - 1;
    assert forall|k: int| 0 <= k < j implies check_res(c, ns, n, field, full[k], s) == Ok::<
        bool,
        Error,
    >(true) by {
        assert(full[k] == chain[k]);
    }
    assert(full[j] == chain.last());
    lemma_stop_from(c, ns, n, field, full, s, j, 0);
}

proof fn lemma_count_zero(nd: Node, m: Seq<usize>)
    ensures
        set_count(nd, m) == 0 <==> forall|k: int| 0 <= k < m.len() ==> !is_set(slot_at(nd, m[k] as int)),
    decreases m.len(),
{
    if m.len() > 0 {
        let d = m.drop_last();
        lemma_count_zero(nd, d);
        assert forall|k: int| 0 <= k < d.len() implies d[k] == m[k] by {}
        if set_count(nd, m) == 0 {
            assert forall|k: int| 0 <= k < m.len() implies !is_set(slot_at(nd, m[k] as int)) by {
                if k < d.len() {
                    assert(d[k] == m[k]);
                }
            }
        }
    }
}

proof fn lemma_count_two(nd: Node, m: Seq<usize>)
    ensures
        set_count(nd, m) >= 2 <==> exists|k1: int, k2: int|
            0 <= k1 < k2 < m.len() && is_set(slot_at(nd, m[k1] as int)) && is_set(
                slot_at(nd, m[k2] as int),
            ),
    decreases m.len(),
{
    if m.len() > 0 {
        let d = m.drop_last();
        let last = m.len() - 1;
        lemma_count_two(nd, d);
        lemma_count_zero(nd, d);
        if set_count(nd, m) >= 2 {
            if set_count(nd, d) >= 2 {
                let (k1, k2) = choose|k1: int, k2: int|
                    0 <= k1 < k2 < d.len() && is_set(slot_at(nd, d[k1] as int)) && is_set(
                        slot_at(nd, d[k2] as int),
                    );
                assert(d[k1] == m[k1] && d[k2] == m[k2]);
            } else {
                let k1 = choose|k1: int| 0 <= k1 < d.len() && is_set(slot_at(nd, d[k1] as int));
                assert(d[k1] == m[k1]);
                assert(m[last] == m.last());
            }
        } else {
            if exists|k1: int, k2: int|
                0 <= k1 < k2 < m.len() && is_set(slot_at(nd, m[k1] as int)) && is_set(
                    slot_at(nd, m[k2] as int),
                ) {
                let (k1, k2) = choose|k1: int, k2: int|
                    0 <= k1 < k2 < m.len() && is_set(slot_at(nd, m[k1] as int)) && is_set(
                        slot_at(nd, m[k2] as int),
                    );
                assert(d[k1] == m[k1]);
                if k2 < last {
                    assert(d[k2] == m[k2]);
                } else {
                    assert(m[k2] == m.last());
                }
            }
        }
    }
}

/// The exclusivity step of a group: with no member set it fails with
/// `NoValue`, with two or more set it fails with `MultipleValues`, and with
/// exactly one set it passes.
pub proof fn lemma_exclusive_outcome(nd: Node, group: int, members: Seq<usize>)
    ensures
        (forall|k: int| 0 <= k < members.len() ==> !is_set(slot_at(nd, members[k] as int)))
            ==> exclusive_res(nd, group, members) == Err::<(), Error>(
            Error::NoValue { schema: nd.schema, group: group as usize },
        ),
        (exists|k1: int, k2: int|
            0 <= k1 < k2 < members.len() && is_set(slot_at(nd, members[k1] as int)) && is_set(
                slot_at(nd, members[k2] as int),
            )) ==> exclusive_res(nd, group, members) == Err::<(), Error>(
            Error::MultipleValues { schema: nd.schema, group: group as usize },
        ),
        (exists|k: int| 0 <= k < members.len() && is_set(slot_at(nd, members[k] as int))) && !(exists|
            k1: int,
            k2: int,
        |
            0 <= k1 < k2 < members.len() && is_set(slot_at(nd, members[k1] as int)) && is_set(
                slot_at(nd, members[k2] as int),
            )) ==> exclusive_res(nd, group, members) == Ok::<(), Error>(()),
{
    lemma_count_zero(nd, members);
    lemma_count_two(nd, members);
}

/// A step that runs a field's chain names a field that carries a rule.
pub open spec fn names_ruled_field(s: Schema, st: StepV) -> bool {
    match st {
        StepV::Field { field, .. } => 0 <= field < s.fields@.len() && s.fields@[field].rule is Some,
        StepV::Member { field, .. } => 0 <= field < s.fields@.len() && s.fields@[field].rule is Some,
        StepV::Collection { field, .. } => 0 <= field < s.fields@.len()
            && s.fields@[field].rule is Some,
        StepV::Exclusive { group, members } => 0 <= group <= usize::MAX && s.group_required(group)
            && forall|k: int|
            0 <= k < members.len() ==> #[trigger] members[k] < s.fields@.len()
                && s.fields@[members[k] as int].group == Some(group as usize),
    }
}

pub open spec fn only_ruled_fields(s: Schema, plan: Seq<StepV>) -> bool {
    forall|k: int| 0 <= k < plan.len() ==> names_ruled_field(s, #[trigger] plan[k])
}

proof fn lemma_concat_ruled(s: Schema, a: Seq<StepV>, b: Seq<StepV>)
    requires
        only_ruled_fields(s, a),
        only_ruled_fields(s, b),
    ensures
        only_ruled_fields(s, a + b),
{
    assert forall|k: int| 0 <= k < (a + b).len() implies names_ruled_field(s, #[trigger] (a + b)[k]) by {
        if k < a.len() {
            assert((a + b)[k] == a[k]);
        } else {
            assert((a + b)[k] == b[k - a.len()]);
        }
    }
}

proof fn lemma_members_ruled(sid: usize, s: Schema, g: usize, j: int)
    ensures
        member_steps(sid, s, g, j) matches Ok(p) ==> only_ruled_fields(s, p),
    decreases s.fields@.len() - j,
{
    if 0 <= j < s.fields@.len() {
        lemma_members_ruled(sid, s, g, j + 1);
        if let Ok(rest) = member_steps(sid, s, g, j + 1) {
            let f = s.fields@[j];
            if f.group == Some(g) && f.rule is Some {
                let one = seq![StepV::Member { field: j, chain: chain_of(f.shape, f.rule->0) }];
                assert(names_ruled_field(s, one[0]));
                lemma_concat_ruled(s, one, rest);
            }
        }
    }
}

proof fn lemma_plan_from_ruled(sid: usize, s: Schema, i: int, seen: Seq<usize>)
    ensures
        plan_from(sid, s, i, seen) matches Ok(p) ==> only_ruled_fields(s, p),
    decreases s.fields@.len() - i,
{
    if 0 <= i < s.fields@.len() {
        let f = s.fields@[i];
        lemma_plan_from_ruled(sid, s, i + 1, seen);
        if let Some(r) = f.rule {
            if let Some(g) = f.group {
                lemma_plan_from_ruled(sid, s, i + 1, seen.push(g));
                lemma_members_ruled(sid, s, g, 0);
                if let (Ok(ms), Ok(rest)) = (member_steps(sid, s, g, 0), plan_from(sid, s, i + 1, seen.push(g))) {
                    lemma_members_grouped(s, g, 0);
                    assert((g as int) as usize == g);
                    assert(only_ruled_fields(s, exclusive_steps(s, g)));
                    lemma_concat_ruled(s, ms, exclusive_steps(s, g));
                    lemma_concat_ruled(s, ms + exclusive_steps(s, g), rest);
                }
            } else if let Ok(rest) = plan_from(sid, s, i + 1, seen) {
                let one = seq![single_step(i, f, r)];
                assert(names_ruled_field(s, one[0]));
                lemma_concat_ruled(s, one, rest);
            }
        }
    }
}

proof fn lemma_members_grouped(s: Schema, g: usize, j: int)
    ensures
        forall|k: int|
            0 <= k < members_of(s, g, j).len() ==> #[trigger] members_of(s, g, j)[k] < s.fields@.len()
                && s.fields@[members_of(s, g, j)[k] as int].group == Some(g),
    decreases s.fields@.len() - j,
{
    if 0 <= j < s.fields@.len() {
        lemma_members_grouped(s, g, j + 1);
        let rest = members_of(s, g, j + 1);
        if s.fields@[j].group == Some(g) {
            assert forall|k: int| 0 <= k < members_of(s, g, j).len() implies #[trigger] members_of(s, g, j)[k] < s.fields@.len()
                && s.fields@[members_of(s, g, j)[k] as int].group == Some(g) by {
                if k > 0 {
                    assert(members_of(s, g, j)[k] == rest[k - 1]);
                } else {
                    assert(members_of(s, g, j)[0] == j as usize);
                    assert(s.fields.len() == s.fields@.len());
                }
            }
        }
    }
}

/// A field whose rule is `None` never appears in a compiled plan: every step
/// that runs a field's chain names a field that carries a rule.
pub proof fn lemma_unruled_fields_absent(sid: usize, s: Schema)
    ensures
        plan_of(sid, s) matches Ok(p) ==> only_ruled_fields(s, p),
{
    lemma_plan_from_ruled(sid, s, 0, seq![]);
}

/// Two message trees of the same size that hold the same nodes from `m` on.
pub open spec fn agree_from(ns1: Seq<Node>, ns2: Seq<Node>, m: int) -> bool {
    &&& ns1.len() == ns2.len()
    &&& forall|k: int| m <= k < ns1.len() ==> ns1[k] == ns2[k]
}

proof fn lemma_node_agree(c: Seq<Option<Seq<StepV>>>, ns1: Seq<Node>, ns2: Seq<Node>, n: int)
    requires
        agree_from(ns1, ns2, n),
    ensures
        node_res(c, ns1, n) == node_res(c, ns2, n),
    decreases ns1.len() - n, 5int, 0int,
{
    if 0 <= n < ns1.len() {
        let sid = ns1[n].schema;
        if sid < c.len() && c[sid as int] is Some {
            lemma_steps_agree(c, ns1, ns2, n, c[sid as int]->0, 0);
        }
    }
}

proof fn lemma_steps_agree(
    c: Seq<Option<Seq<StepV>>>,
    ns1: Seq<Node>,
    ns2: Seq<Node>,
    n: int,
    plan: Seq<StepV>,
    i: int,
)
    requires
        agree_from(ns1, ns2, n),
    ensures
        steps_res(c, ns1, n, plan, i) == steps_res(c, ns2, n, plan, i),
    decreases ns1.len() - n, 4int, plan.len() - i,
{
    if 0 <= n < ns1.len() && 0 <= i < plan.len() {
        lemma_step_agree(c, ns1, ns2, n, plan[i]);
        lemma_steps_agree(c, ns1, ns2, n, plan, i + 1);
    }
}

proof fn lemma_step_agree(c: Seq<Option<Seq<StepV>>>, ns1: Seq<Node>, ns2: Seq<Node>, n: int, st: StepV)
    requires
        agree_from(ns1, ns2, n),
    ensures
        step_res(c, ns1, n, st) == step_res(c, ns2, n, st),
    decreases ns1.len() - n, 3int, 1int,
{
    if 0 <= n < ns1.len() && !(st is Exclusive) {
        lemma_chain_step_agree(c, ns1, ns2, n, st);
    }
}

/// A step that is not an exclusivity step gives the same outcome on two trees
/// that agree beyond node `n` when it reads the same slot in both.
proof fn lemma_chain_step_agree(c: Seq<Option<Seq<StepV>>>, ns1: Seq<Node>, ns2: Seq<Node>, n: int, st: StepV)
    requires
        agree_from(ns1, ns2, n + 1),
        0 <= n < ns1.len(),
        ns1[n].schema == ns2[n].schema,
        !(st is Exclusive),
        slot_at(ns1[n], step_field(st)) == slot_at(ns2[n], step_field(st)),
    ensures
        step_res(c, ns1, n, st) == step_res(c, ns2, n, st),
    decreases ns1.len() - n, 3int, 0int,
{
    let s = slot_at(ns1[n], step_field(st));
    match st {
        StepV::Field { field, chain } => lemma_all_agree(c, ns1, ns2, n, field, chain, s, 0),
        StepV::Member { field, chain } => lemma_all_agree(c, ns1, ns2, n, field, chain, s, 0),
        StepV::Collection { field, chain } => lemma_stop_agree(c, ns1, ns2, n, field, chain, s, 0),
        StepV::Exclusive { .. } => {},
    }
}

pub open spec fn step_field(st: StepV) -> int {
    match st {
        StepV::Field { field, .. } => field,
        StepV::Member { field, .. } => field,
        StepV::Collection { field, .. } => field,
        StepV::Exclusive { .. } => -1,
    }
}

proof fn lemma_all_agree(
    c: Seq<Option<Seq<StepV>>>,
    ns1: Seq<Node>,
    ns2: Seq<Node>,
    n: int,
    field: int,
    chain: Seq<Check>,
    s: Slot,
    j: int,
)
    requires
        agree_from(ns1, ns2, n + 1),
        0 <= n < ns1.len(),
        ns1[n].schema == ns2[n].schema,
    ensures
        all_res(c, ns1, n, field, chain, s, j) == all_res(c, ns2, n, field, chain, s, j),
    decreases ns1.len() - n, 2int, chain.len() - j,
{
    if 0 <= j < chain.len() {
        lemma_check_agree(c, ns1, ns2, n, field, chain[j], s);
        lemma_all_agree(c, ns1, ns2, n, field, chain, s, j + 1);
    }
}

proof fn lemma_stop_agree(
    c: Seq<Option<Seq<StepV>>>,
    ns1: Seq<Node>,
    ns2: Seq<Node>,
    n: int,
    field: int,
    chain: Seq<Check>,
    s: Slot,
    j: int,
)
    requires
        agree_from(ns1, ns2, n + 1),
        0 <= n < ns1.len(),
        ns1[n].schema == ns2[n].schema,
    ensures
        stop_res(c, ns1, n, field, chain, s, j) == stop_res(c, ns2, n, field, chain, s, j),
    decreases ns1.len() - n, 2int, chain.len() - j,
{
    if 0 <= j < chain.len() {
        lemma_check_agree(c, ns1, ns2, n, field, chain[j], s);
        lemma_stop_agree(c, ns1, ns2, n, field, chain, s, j + 1);
    }
}

proof fn lemma_check_agree(
    c: Seq<Option<Seq<StepV>>>,
    ns1: Seq<Node>,
    ns2: Seq<Node>,
    n: int,
    field: int,
    ch: Check,
    s: Slot,
)
    requires
        agree_from(ns1, ns2, n + 1),
        0 <= n < ns1.len(),
        ns1[n].schema == ns2[n].schema,
    ensures
        check_res(c, ns1, n, field, ch, s) == check_res(c, ns2, n, field, ch, s),
    decreases ns1.len() - n, 1int, 0int,
{
    match s {
        Slot::Unset => {},
        Slot::One(v) => lemma_val_agree(c, ns1, ns2, n, field, ch, v),
        Slot::Many(vs) => lemma_each_agree(c, ns1, ns2, n, field, ch, vs@, 0),
    }
}

proof fn lemma_each_agree(
    c: Seq<Option<Seq<StepV>>>,
    ns1: Seq<Node>,
    ns2: Seq<Node>,
    n: int,
    field: int,
    ch: Check,
    vs: Seq<Val>,
    k: int,
)
    requires
        agree_from(ns1, ns2, n + 1),
        0 <= n < ns1.len(),
        ns1[n].schema == ns2[n].schema,
    ensures
        each_res(c, ns1, n, field, ch, vs, k) == each_res(c, ns2, n, field, ch, vs, k),
    decreases ns1.len() - n, 0int, vs.len() - k + 1,
{
    if 0 <= k < vs.len() {
        lemma_val_agree(c, ns1, ns2, n, field, ch, vs[k]);
        lemma_each_agree(c, ns1, ns2, n, field, ch, vs, k + 1);
    }
}

proof fn lemma_val_agree(
    c: Seq<Option<Seq<StepV>>>,
    ns1: Seq<Node>,
    ns2: Seq<Node>,
    n: int,
    field: int,
    ch: Check,
    v: Val,
)
    requires
        agree_from(ns1, ns2, n + 1),
        0 <= n < ns1.len(),
        ns1[n].schema == ns2[n].schema,
    ensures
        val_res(c, ns1, n, field, ch, v) == val_res(c, ns2, n, field, ch, v),
    decreases ns1.len() - n, 0int, 0int,
{
    if let (Check::Nested(_), Val::Msg(m)) = (ch, v) {
        if n < m < ns1.len() {
            lemma_node_agree(c, ns1, ns2, m as int);
        }
    }
}

proof fn lemma_count_agree(nd1: Node, nd2: Node, members: Seq<usize>)
    requires
        forall|k: int| 0 <= k < members.len() ==> slot_at(nd1, #[trigger] members[k] as int) == slot_at(nd2, members[k] as int),
    ensures
        set_count(nd1, members) == set_count(nd2, members),
    decreases members.len(),
{
    if members.len() > 0 {
        let d = members.drop_last();
        assert forall|k: int| 0 <= k < d.len() implies slot_at(nd1, #[trigger] d[k] as int) == slot_at(nd2, d[k] as int) by {
            assert(d[k] == members[k]);
        }
        lemma_count_agree(nd1, nd2, d);
        assert(members.last() == members[members.len() - 1]);
    }
}

proof fn lemma_steps_skip_field(
    c: Seq<Option<Seq<StepV>>>,
    ns1: Seq<Node>,
    ns2: Seq<Node>,
    n: int,
    plan: Seq<StepV>,
    i: int,
    f: int,
    s: Schema,
)
    requires
        0 <= n < ns1.len(),
        agree_from(ns1, ns2, n + 1),
        ns1[n].schema == ns2[n].schema,
        forall|g: int| g != f ==> slot_at(ns1[n], g) == slot_at(ns2[n], g),
        only_ruled_fields(s, plan),
        0 <= f < s.fields@.len(),
        s.fields@[f].rule is None,
        s.fields@[f].group matches Some(h) ==> !s.group_required(h as int),
    ensures
        steps_res(c, ns1, n, plan, i) == steps_res(c, ns2, n, plan, i),
    decreases plan.len() - i,
{
    if 0 <= i < plan.len() {
        let st = plan[i];
        assert(names_ruled_field(s, st));
        if let StepV::Exclusive { group, members } = st {
            assert forall|k: int| 0 <= k < members.len() implies slot_at(ns1[n], #[trigger] members[k] as int)
                == slot_at(ns2[n], members[k] as int) by {
                if members[k] as int == f {
                    assert(s.fields@[f].group == Some(group as usize));
                    assert(((group as usize) as int) == group);
                }
            }
            lemma_count_agree(ns1[n], ns2[n], members);
            assert(step_res(c, ns1, n, st) == step_res(c, ns2, n, st));
        } else {
            assert(step_field(st) != f);
            lemma_chain_step_agree(c, ns1, ns2, n, st);
            assert(step_res(c, ns1, n, st) == step_res(c, ns2, n, st));
        }
        lemma_steps_skip_field(c, ns1, ns2, n, plan, i + 1, f, s);
    }
}

/// A field that carries no rule, and belongs to no group that demands
/// exclusivity, is unconstrained:
/// with the compiled plan of its schema cached, two message trees that differ
/// only in that field of node `n` get the same outcome for node `n`.
pub proof fn lemma_unruled_field_is_free(
    c: Seq<Option<Seq<StepV>>>,
    ns1: Seq<Node>,
    ns2: Seq<Node>,
    n: int,
    f: int,
    s: Schema,
)
    requires
        0 <= n < ns1.len(),
        agree_from(ns1, ns2, n + 1),
        ns1[n].schema == ns2[n].schema,
        forall|g: int| g != f ==> slot_at(ns1[n], g) == slot_at(ns2[n], g),
        ns1[n].schema < c.len(),
        plan_of(ns1[n].schema, s) is Ok,
        c[ns1[n].schema as int] == Some(plan_of(ns1[n].schema, s)->Ok_0),
        0 <= f < s.fields@.len(),
        s.fields@[f].rule is None,
        s.fields@[f].group matches Some(h) ==> !s.group_required(h as int),
    ensures
        node_res(c, ns1, n) == node_res(c, ns2, n),
{
    let sid = ns1[n].schema;
    lemma_unruled_fields_absent(sid, s);
    lemma_steps_skip_field(c, ns1, ns2, n, c[sid as int]->0, 0, f, s);
}

/// The exclusivity step that a required group `g` of schema `s` compiles to.
pub open spec fn exclusive_step_of(s: Schema, g: usize) -> StepV {
    StepV::Exclusive { group: g as int, members: members_of(s, g, 0) }
}

pub open spec fn has_step(p: Seq<StepV>, st: StepV) -> bool {
    exists|k: int| 0 <= k < p.len() && p[k] == st
}

proof fn lemma_has_step_concat(a: Seq<StepV>, b: Seq<StepV>, st: StepV)
    ensures
        has_step(a, st) ==> has_step(a + b, st),
        has_step(b, st) ==> has_step(a + b, st),
{
    if has_step(a, st) {
        let k = choose|k: int| 0 <= k < a.len() && a[k] == st;
        assert((a + b)[k] == st);
    }
    if has_step(b, st) {
        let k = choose|k: int| 0 <= k < b.len() && b[k] == st;
        assert((a + b)[a.len() + k] == st);
    }
}

proof fn lemma_plan_from_has_exclusive(sid: usize, s: Schema, i: int, seen: Seq<usize>, g: usize, w: int)
    requires
        0 <= i <= w < s.fields@.len(),
        s.fields@[w].group == Some(g),
        s.fields@[w].rule is Some,
        !seen.contains(g),
        s.group_required(g as int),
    ensures
        plan_from(sid, s, i, seen) matches Ok(p) ==> has_step(p, exclusive_step_of(s, g)),
    decreases s.fields@.len() - i,
{
    let f = s.fields@[i];
    if let Some(r) = f.rule {
        if let Some(h) = f.group {
            if seen.contains(h) {
                lemma_plan_from_has_exclusive(sid, s, i + 1, seen, g, w);
            } else if h == g {
                if let (Ok(ms), Ok(rest)) = (member_steps(sid, s, g, 0), plan_from(sid, s, i + 1, seen.push(g))) {
                    assert(exclusive_steps(s, g)[0] == exclusive_step_of(s, g));
                    lemma_has_step_concat(ms, exclusive_steps(s, g), exclusive_step_of(s, g));
                    lemma_has_step_concat(ms + exclusive_steps(s, g), rest, exclusive_step_of(s, g));
                }
            } else {
                assert(!seen.push(h).contains(g)) by {
                    if seen.push(h).contains(g) {
                        let k = choose|k: int| 0 <= k < seen.push(h).len() && seen.push(h)[k] == g;
                        if k < seen.len() {
                            assert(seen[k] == g);
                        }
                    }
                }
                lemma_plan_from_has_exclusive(sid, s, i + 1, seen.push(h), g, w);
                if let (Ok(ms), Ok(rest)) = (member_steps(sid, s, h, 0), plan_from(sid, s, i + 1, seen.push(h))) {
                    lemma_has_step_concat(ms + exclusive_steps(s, h), rest, exclusive_step_of(s, g));
                }
            }
        } else {
            lemma_plan_from_has_exclusive(sid, s, i + 1, seen, g, w);
            if let Ok(rest) = plan_from(sid, s, i + 1, seen) {
                lemma_has_step_concat(seq![single_step(i, f, r)], rest, exclusive_step_of(s, g));
            }
        }
    } else {
        lemma_plan_from_has_exclusive(sid, s, i + 1, seen, g, w);
    }
}

/// A group that demands exclusivity and has a member with a rule gets an
/// exclusivity step over all of its members in the compiled plan of an
/// enabled schema; by `lemma_exclusive_outcome` that step fails with
/// `NoValue` when no member is set, with `MultipleValues` when two are, and
/// passes when exactly one is.
pub proof fn lemma_required_group_is_checked(sid: usize, s: Schema, g: usize, w: int)
    requires
        !s.skipped(),
        0 <= w < s.fields@.len(),
        s.fields@[w].group == Some(g),
        s.fields@[w].rule is Some,
        s.group_required(g as int),
    ensures
        plan_of(sid, s) matches Ok(p) ==> has_step(p, exclusive_step_of(s, g)),
{
    lemma_plan_from_has_exclusive(sid, s, 0, seq![], g, w);
}

} // verus!
