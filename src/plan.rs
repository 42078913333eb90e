use vstd::prelude::*;

use crate::error::Error;
use crate::schema::{Elem, FieldDesc, Rule, Schema, Shape};

verus! {

/// One step of a field's chain, compiled from the field's shape and rule.
#[derive(Clone, Copy, Debug, PartialEq, Eq, Structural)]
pub enum Check {
    /// The field must be set.
    Required,
    /// Every integer value is at least the bound.
    AtLeast(i64),
    /// Every integer value is at most the bound.
    AtMost(i64),
    /// Every nested message passes the cached plan of its own schema. The id
    /// is the declared schema, which compilation registers too.
    Nested(usize),
    /// A list or map has at least this many elements.
    MinItems(usize),
    /// A list or map has at most this many elements.
    MaxItems(usize),
    /// An empty list or map stops its chain without failing.
    StopIfEmpty,
}

pub open spec fn flag(on: bool, c: Check) -> Seq<Check> {
    if on {
        seq![c]
    } else {
        seq![]
    }
}

pub open spec fn bounds(r: Rule) -> Seq<Check> {
    (match r.min {
        Some(b) => seq![Check::AtLeast(b)],
        None => seq![],
    }) + (match r.max {
        Some(b) => seq![Check::AtMost(b)],
        None => seq![],
    })
}

pub open spec fn items(r: Rule) -> Seq<Check> {
    (match r.min_items {
        Some(k) => seq![Check::MinItems(k)],
        None => seq![],
    }) + (match r.max_items {
        Some(k) => seq![Check::MaxItems(k)],
        None => seq![],
    })
}

pub open spec fn elem_checks(e: Elem, r: Rule) -> Seq<Check> {
    match e {
        Elem::Int => bounds(r),
        Elem::Message(t) => flag(!r.skip_nested, Check::Nested(t)),
    }
}

/// Whether the shape is a list or a map (whose chain honours early stop).
pub open spec fn is_collection(shape: Shape) -> bool {
    shape is Repeated || shape is Keyed
}

/// The chain of checks that a field of this shape and rule compiles to.
pub open spec fn chain_of(shape: Shape, r: Rule) -> Seq<Check> {
    match shape {
        Shape::Int => flag(r.required, Check::Required) + bounds(r),
        Shape::Message(t) => flag(r.required, Check::Required) + flag(
            !r.skip_nested,
            Check::Nested(t),
        ),
        Shape::Repeated(e) => flag(r.ignore_empty, Check::StopIfEmpty) + items(r) + elem_checks(e, r),
        Shape::Keyed(e) => flag(r.ignore_empty, Check::StopIfEmpty) + items(r) + elem_checks(e, r),
    }
}

/// A rule compiles unless one of its bounds is inverted.
pub open spec fn rule_ok(r: Rule) -> bool {
    &&& !(r.min is Some && r.max is Some && r.min->0 > r.max->0)
    &&& !(r.min_items is Some && r.max_items is Some && r.min_items->0 > r.max_items->0)
}

fn push_bounds(v: &mut Vec<Check>, r: &Rule)
    ensures
        final(v)@ == old(v)@ + bounds(*r),
{
    let ghost start = v@;
    if let Some(b) = r.min {
        v.push(Check::AtLeast(b));
    }
    if let Some(b) = r.max {
        v.push(Check::AtMost(b));
    }
    assert(v@ =~= start + bounds(*r));
}

fn push_nested(v: &mut Vec<Check>, t: usize, r: &Rule)
    ensures
        final(v)@ == old(v)@ + flag(!r.skip_nested, Check::Nested(t)),
{
    let ghost start = v@;
    if !r.skip_nested {
        v.push(Check::Nested(t));
    }
    assert(v@ =~= start + flag(!r.skip_nested, Check::Nested(t)));
}

fn push_items(v: &mut Vec<Check>, r: &Rule)
    ensures
        final(v)@ == old(v)@ + items(*r),
{
    let ghost start = v@;
    if let Some(k) = r.min_items {
        v.push(Check::MinItems(k));
    }
    if let Some(k) = r.max_items {
        v.push(Check::MaxItems(k));
    }
    assert(v@ =~= start + items(*r));
}

fn push_flag(v: &mut Vec<Check>, on: bool, c: Check)
    ensures
        final(v)@ == old(v)@ + flag(on, c),
{
    let ghost start = v@;
    if on {
        v.push(c);
    }
    assert(v@ =~= start + flag(on, c));
}

fn build_chain(shape: Shape, r: &Rule) -> (v: Vec<Check>)
    ensures
        v@ == chain_of(shape, *r),
{
    let mut v: Vec<Check> = Vec::new();
    assert(v@ =~= Seq::<Check>::empty());
    match shape {
        Shape::Int => {
            push_flag(&mut v, r.required, Check::Required);
            push_bounds(&mut v, r);
            assert(v@ =~= chain_of(shape, *r));
        },
        Shape::Message(t) => {
            push_flag(&mut v, r.required, Check::Required);
            push_nested(&mut v, t, r);
            assert(v@ =~= chain_of(shape, *r));
        },
        Shape::Repeated(e) | Shape::Keyed(e) => {
            push_flag(&mut v, r.ignore_empty, Check::StopIfEmpty);
            push_items(&mut v, r);
            match e {
                Elem::Int => push_bounds(&mut v, r),
                Elem::Message(t) => push_nested(&mut v, t, r),
            }
            assert(v@ =~= chain_of(shape, *r));
        },
    }
    v
}

/// Compiles the chain of a field, or fails on a rule with an inverted bound.
pub fn compile_chain(schema: usize, field: usize, shape: Shape, r: &Rule) -> (res: Result<
    Vec<Check>,
    Error,
>)
    ensures
        res is Ok <==> rule_ok(*r),
        res matches Ok(v) ==> v@ == chain_of(shape, *r),
        res matches Err(e) ==> e == (Error::BadRule { schema, field }),
{
    if let (Some(lo), Some(hi)) = (r.min, r.max) {
        if lo > hi {
            return Err(Error::BadRule { schema, field });
        }
    }
    if let (Some(lo), Some(hi)) = (r.min_items, r.max_items) {
        if lo > hi {
            return Err(Error::BadRule { schema, field });
        }
    }
    Ok(build_chain(shape, r))
}

/// The mathematical form of a compiled step.
pub ghost enum StepV {
    Field { field: int, chain: Seq<Check> },
    Member { field: int, chain: Seq<Check> },
    Exclusive { group: int, members: Seq<usize> },
    Collection { field: int, chain: Seq<Check> },
}

/// One whole-message step of a compiled plan.
#[derive(Clone, Debug)]
pub enum Step {
    /// Runs the chain of a singular field; only errors count, a stop signal
    /// does not end the chain.
    Field { field: usize, chain: Vec<Check> },
    /// Runs the chain of an exclusive-group member, only when it is set.
    Member { field: usize, chain: Vec<Check> },
    /// Demands that exactly one of the listed fields is set.
    Exclusive { group: usize, members: Vec<usize> },
    /// Runs the chain of a list or map field, honouring early stop.
    Collection { field: usize, chain: Vec<Check> },
}

impl View for Step {
    type V = StepV;

    open spec fn view(&self) -> StepV {
        match self {
            Step::Field { field, chain } => StepV::Field { field: *field as int, chain: chain@ },
            Step::Member { field, chain } => StepV::Member { field: *field as int, chain: chain@ },
            Step::Exclusive { group, members } => StepV::Exclusive {
                group: *group as int,
                members: members@,
            },
            Step::Collection { field, chain } => StepV::Collection {
                field: *field as int,
                chain: chain@,
            },
        }
    }
}

pub open spec fn plan_view(p: Seq<Step>) -> Seq<StepV> {
    p.map_values(|st: Step| st@)
}

pub open spec fn prepend(a: Seq<StepV>, r: Result<Seq<StepV>, Error>) -> Result<Seq<StepV>, Error> {
    match r {
        Ok(x) => Ok(a + x),
        Err(e) => Err(e),
    }
}

pub proof fn lemma_prepend_assoc(a: Seq<StepV>, b: Seq<StepV>, r: Result<Seq<StepV>, Error>)
    ensures
        prepend(a, prepend(b, r)) == prepend(a + b, r),
{
    if let Ok(x) = r {
        assert(a + (b + x) =~= (a + b) + x);
    }
}

/// The step of a constrained field outside any group.
pub open spec fn single_step(i: int, f: FieldDesc, r: Rule) -> StepV {
    if is_collection(f.shape) {
        StepV::Collection { field: i, chain: chain_of(f.shape, r) }
    } else {
        StepV::Field { field: i, chain: chain_of(f.shape, r) }
    }
}

/// The indices, from `j` on, of the fields of group `g`.
pub open spec fn members_of(s: Schema, g: usize, j: int) -> Seq<usize>
    decreases s.fields@.len() - j,
{
    if j < 0 || j >= s.fields@.len() {
        seq![]
    } else if s.fields@[j].group == Some(g) {
        seq![j as usize] + members_of(s, g, j + 1)
    } else {
        members_of(s, g, j + 1)
    }
}

/// The guarded steps of the constrained members of group `g`, from field `j` on.
pub open spec fn member_steps(sid: usize, s: Schema, g: usize, j: int) -> Result<
    Seq<StepV>,
    Error,
>
    decreases s.fields@.len() - j,
{
    if j < 0 || j >= s.fields@.len() {
        Ok(seq![])
    } else {
        let f = s.fields@[j];
        if f.group == Some(g) && f.rule is Some {
            let r = f.rule->0;
            if !rule_ok(r) {
                Err(Error::BadRule { schema: sid, field: j as usize })
            } else {
                prepend(
                    seq![StepV::Member { field: j, chain: chain_of(f.shape, r) }],
                    member_steps(sid, s, g, j + 1),
                )
            }
        } else {
            member_steps(sid, s, g, j + 1)
        }
    }
}

/// The exclusivity step of group `g`, where the group asks for one.
pub open spec fn exclusive_steps(s: Schema, g: usize) -> Seq<StepV> {
    if s.group_required(g as int) {
        seq![StepV::Exclusive { group: g as int, members: members_of(s, g, 0) }]
    } else {
        seq![]
    }
}

/// The steps for fields `i..` of schema `s`, given the groups already handled.
pub open spec fn plan_from(sid: usize, s: Schema, i: int, seen: Seq<usize>) -> Result<
    Seq<StepV>,
    Error,
>
    decreases s.fields@.len() - i,
{
    if i < 0 || i >= s.fields@.len() {
        Ok(seq![])
    } else {
        let f = s.fields@[i];
        match f.rule {
            None => plan_from(sid, s, i + 1, seen),
            Some(r) => match f.group {
                Some(g) => {
                    if seen.contains(g) {
                        plan_from(sid, s, i + 1, seen)
                    } else {
                        match member_steps(sid, s, g, 0) {
                            Err(e) => Err(e),
                            Ok(ms) => prepend(
                                ms + exclusive_steps(s, g),
                                plan_from(sid, s, i + 1, seen.push(g)),
                            ),
                        }
                    }
                },
                None => {
                    if !rule_ok(r) {
                        Err(Error::BadRule { schema: sid, field: i as usize })
                    } else {
                        prepend(seq![single_step(i, f, r)], plan_from(sid, s, i + 1, seen))
                    }
                },
            },
        }
    }
}

/// The plan that schema `s`, registered under id `sid`, compiles to: empty
/// for a disabled or ignored schema, else the steps of its fields in order.
pub open spec fn plan_of(sid: usize, s: Schema) -> Result<Seq<StepV>, Error> {
    if s.skipped() {
        Ok(seq![])
    } else {
        plan_from(sid, s, 0, seq![])
    }
}

pub open spec fn result_view(r: Result<Vec<Step>, Error>) -> Result<Seq<StepV>, Error> {
    match r {
        Ok(p) => Ok(plan_view(p@)),
        Err(e) => Err(e),
    }
}

fn members(s: &Schema, g: usize) -> (v: Vec<usize>)
    ensures
        v@ == members_of(*s, g, 0),
{
    let mut v: Vec<usize> = Vec::new();
    let mut j: usize = 0;
    while j < s.fields.len()
        invariant
            j <= s.fields@.len(),
            members_of(*s, g, 0) == v@ + members_of(*s, g, j as int),
        decreases s.fields@.len() - j,
    {
        let ghost before = v@;
        if s.fields[j].group == Some(g) {
            v.push(j);
            assert(before + members_of(*s, g, j as int) =~= v@ + members_of(*s, g, j + 1));
        }
        j += 1;
    }
    assert(v@ =~= v@ + members_of(*s, g, j as int));
    v
}

fn group_steps(sid: usize, s: &Schema, g: usize, out: &mut Vec<Step>) -> (res: Result<(), Error>)
    ensures
        match member_steps(sid, *s, g, 0) {
            Ok(ms) => res is Ok && plan_view(final(out)@) == plan_view(old(out)@) + ms,
            Err(e) => res == Err::<(), Error>(e),
        },
{
    let ghost start = plan_view(out@);
    let mut j: usize = 0;
    while j < s.fields.len()
        invariant
            j <= s.fields@.len(),
            member_steps(sid, *s, g, 0) == prepend(
                plan_view(out@).skip(start.len() as int),
                member_steps(sid, *s, g, j as int),
            ),
            plan_view(out@).len() >= start.len(),
            plan_view(out@).take(start.len() as int) == start,
        decreases s.fields@.len() - j,
    {
        let f = &s.fields[j];
        if f.group == Some(g) {
            if let Some(r) = &f.rule {
                match compile_chain(sid, j, f.shape, r) {
                    Err(e) => {
                        return Err(e);
                    },
                    Ok(chain) => {
                        let ghost before = plan_view(out@);
                        out.push(Step::Member { field: j, chain });
                        assert(plan_view(out@) =~= before.push(
                            StepV::Member { field: j as int, chain: chain_of(f.shape, *r) },
                        ));
                        assert(plan_view(out@).skip(start.len() as int) =~= before.skip(
                            start.len() as int,
                        ) + seq![StepV::Member { field: j as int, chain: chain_of(f.shape, *r) }]);
                        assert(plan_view(out@).take(start.len() as int) =~= before.take(
                            start.len() as int,
                        ));
                        proof {
                            lemma_prepend_assoc(
                                before.skip(start.len() as int),
                                seq![StepV::Member { field: j as int, chain: chain_of(f.shape, *r) }],
                                member_steps(sid, *s, g, j + 1),
                            );
                        }
                    },
                }
            }
        }
        j += 1;
    }
    assert(plan_view(out@) =~= start + plan_view(out@).skip(start.len() as int));
    Ok(())
}

fn contains(v: &Vec<usize>, x: usize) -> (r: bool)
    ensures
        r == v@.contains(x),
{
    let mut k: usize = 0;
    while k < v.len()
        invariant
            k <= v@.len(),
            forall|m: int| 0 <= m < k ==> v@[m] != x,
        decreases v@.len() - k,
    {
        if v[k] == x {
            return true;
        }
        k += 1;
    }
    false
}

/// Compiles the plan of schema `s`, registered under id `sid`: walks the
/// fields in declaration order, skips fields without a rule, handles each
/// exclusive group once (at its first constrained member), and fails on the
/// first rule with an inverted bound.
pub fn compile_schema(sid: usize, s: &Schema) -> (res: Result<Vec<Step>, Error>)
    ensures
        result_view(res) == plan_of(sid, *s),
{
    let mut out: Vec<Step> = Vec::new();
    if s.disabled || s.ignored {
        assert(plan_view(out@) =~= Seq::<StepV>::empty());
        return Ok(out);
    }
    let mut seen: Vec<usize> = Vec::new();
    let mut i: usize = 0;
    assert(plan_view(out@) =~= Seq::<StepV>::empty());
    assert(seen@ =~= Seq::<usize>::empty());
    assert(prepend(plan_view(out@), plan_from(sid, *s, 0, seen@)) =~= plan_from(sid, *s, 0, seen@)) by {
        if let Ok(x) = plan_from(sid, *s, 0, seen@) {
            assert(plan_view(out@) + x =~= x);
        }
    }
    while i < s.fields.len()
        invariant
            i <= s.fields@.len(),
            !s.skipped(),
            plan_from(sid, *s, 0, seq![]) == prepend(
                plan_view(out@),
                plan_from(sid, *s, i as int, seen@),
            ),
        decreases s.fields@.len() - i,
    {
        let f = &s.fields[i];
        let ghost before = plan_view(out@);
        if let Some(r) = &f.rule {
            match f.group {
                Some(g) => {
                    if !contains(&seen, g) {
                        match group_steps(sid, s, g, &mut out) {
                            Err(e) => {
                                return Err(e);
                            },
                            Ok(()) => {},
                        }
                        let ghost mid = plan_view(out@);
                        if g < s.groups.len() && s.groups[g].required {
                            out.push(Step::Exclusive { group: g, members: members(s, g) });
                        }
                        assert(plan_view(out@) =~= mid + exclusive_steps(*s, g));
                        let ghost ms = member_steps(sid, *s, g, 0)->Ok_0;
                        assert(mid =~= before + ms);
                        proof {
                            lemma_prepend_assoc(
                                before,
                                ms + exclusive_steps(*s, g),
                                plan_from(sid, *s, i + 1, seen@.push(g)),
                            );
                        }
                        assert(before + (ms + exclusive_steps(*s, g)) =~= plan_view(out@));
                        seen.push(g);
                    }
                },
                None => {
                    let chain = compile_chain(sid, i, f.shape, r)?;
                    if matches!(f.shape, Shape::Repeated(_) | Shape::Keyed(_)) {
                        out.push(Step::Collection { field: i, chain });
                    } else {
                        out.push(Step::Field { field: i, chain });
                    }
                    assert(plan_view(out@) =~= before + seq![single_step(i as int, *f, *r)]);
                    proof {
                        lemma_prepend_assoc(
                            before,
                            seq![single_step(i as int, *f, *r)],
                            plan_from(sid, *s, i + 1, seen@),
                        );
                    }
                },
            }
        }
        i += 1;
    }
    proof {
        if let Ok(x) = plan_from(sid, *s, i as int, seen@) {
            assert(plan_view(out@) + x =~= plan_view(out@));
        }
    }
    Ok(out)
}

} // verus!
