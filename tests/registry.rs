use prost_reflect_validate::error::Error;
use prost_reflect_validate::message::{Message, Slot, Val};
use prost_reflect_validate::plan::Check;
use prost_reflect_validate::registry::Registry;
use prost_reflect_validate::schema::{Elem, FieldDesc, GroupDesc, Rule, Schema, Shape};

fn rule() -> Rule {
    Rule {
        required: false,
        min: None,
        max: None,
        min_items: None,
        max_items: None,
        ignore_empty: false,
        skip_nested: false,
    }
}

fn min_rule(b: i64) -> Rule {
    Rule { min: Some(b), ..rule() }
}

fn field(name: &str, shape: Shape, group: Option<usize>, rule: Option<Rule>) -> FieldDesc {
    FieldDesc { name: name.to_string(), shape, group, rule }
}

fn schema(name: &str, fields: Vec<FieldDesc>, groups: Vec<GroupDesc>) -> Schema {
    Schema { name: name.to_string(), fields, groups, disabled: false, ignored: false }
}

fn group(name: &str, required: bool) -> GroupDesc {
    GroupDesc { name: name.to_string(), required }
}

// Order { status: oneof { paid, pending }, items: list<Item>, self_ref: Order }
// Item { quantity > 0 }
fn order_registry() -> Registry {
    let order = schema(
        "shop.Order",
        vec![
            field("paid", Shape::Int, Some(0), Some(rule())),
            field("pending", Shape::Int, Some(0), Some(rule())),
            field("items", Shape::Repeated(Elem::Message(1)), None, Some(rule())),
            field("self_ref", Shape::Message(0), None, Some(rule())),
        ],
        vec![group("status", true)],
    );
    let item = schema("shop.Item", vec![field("quantity", Shape::Int, None, Some(min_rule(1)))], vec![]);
    Registry::new(vec![order, item])
}

fn order() -> Message {
    Message::new(0, 4)
}

fn add_item(m: &mut Message, quantity: i64) -> usize {
    let it = m.add_node(1, 1);
    m.set(it, 0, Slot::One(Val::Int(quantity)));
    it
}

#[test]
fn order_without_status_has_no_value() {
    let mut reg = order_registry();
    let mut m = order();
    m.set(0, 2, Slot::Many(vec![]));
    assert_eq!(reg.validate(&m), Err(Error::NoValue { schema: 0, group: 0 }));
}

#[test]
fn order_paid_with_item_passes() {
    let mut reg = order_registry();
    let mut m = order();
    m.set(0, 0, Slot::One(Val::Int(5)));
    let it = add_item(&mut m, 1);
    m.set(0, 2, Slot::Many(vec![Val::Msg(it)]));
    assert_eq!(reg.validate(&m), Ok(()));
}

#[test]
fn order_paid_and_pending_has_multiple_values() {
    let mut reg = order_registry();
    let mut m = order();
    m.set(0, 0, Slot::One(Val::Int(5)));
    m.set(0, 1, Slot::One(Val::Int(2)));
    assert_eq!(reg.validate(&m), Err(Error::MultipleValues { schema: 0, group: 0 }));
}

#[test]
fn order_with_zero_quantity_fails_on_item() {
    let mut reg = order_registry();
    let mut m = order();
    m.set(0, 0, Slot::One(Val::Int(5)));
    let it = add_item(&mut m, 0);
    m.set(0, 2, Slot::Many(vec![Val::Msg(it)]));
    assert_eq!(reg.validate(&m), Err(Error::Violation { schema: 1, field: 0, check: Check::AtLeast(1) }));
}

#[test]
fn order_with_valid_self_ref_passes() {
    let mut reg = order_registry();
    let mut m = order();
    m.set(0, 0, Slot::One(Val::Int(5)));
    let inner = m.add_node(0, 4);
    m.set(inner, 1, Slot::One(Val::Int(2)));
    m.set(0, 3, Slot::One(Val::Msg(inner)));
    assert_eq!(reg.validate(&m), Ok(()));
}

#[test]
fn order_with_invalid_self_ref_fails() {
    let mut reg = order_registry();
    let mut m = order();
    m.set(0, 0, Slot::One(Val::Int(5)));
    let inner = m.add_node(0, 4);
    m.set(0, 3, Slot::One(Val::Msg(inner)));
    assert_eq!(reg.validate(&m), Err(Error::NoValue { schema: 0, group: 0 }));
}

#[test]
fn compiling_order_compiles_item_in_the_same_pass() {
    let mut reg = order_registry();
    assert!(!reg.is_registered(0));
    assert!(!reg.is_registered(1));
    assert_eq!(reg.register(0), Ok(()));
    assert!(reg.is_registered(0));
    assert!(reg.is_registered(1));
}

#[test]
fn second_validation_reuses_the_plan() {
    let mut reg = order_registry();
    let mut a = order();
    a.set(0, 0, Slot::One(Val::Int(1)));
    let mut b = order();
    b.set(0, 1, Slot::One(Val::Int(7)));
    assert_eq!(reg.validate(&a), Ok(()));
    assert!(reg.is_registered(0));
    assert_eq!(reg.validate(&b), Ok(()));
    assert_eq!(reg.register(0), Ok(()));
    assert_eq!(reg.validate(&a), Ok(()));
}

#[test]
fn direct_self_reference_terminates() {
    let node = schema("t.Node", vec![field("next", Shape::Message(0), None, Some(rule()))], vec![]);
    let mut reg = Registry::new(vec![node]);
    let empty = Message::new(0, 1);
    assert_eq!(reg.validate(&empty), Ok(()));
    let mut chain = Message::new(0, 1);
    let a = chain.add_node(0, 1);
    let b = chain.add_node(0, 1);
    chain.set(0, 0, Slot::One(Val::Msg(a)));
    chain.set(a, 0, Slot::One(Val::Msg(b)));
    assert_eq!(reg.validate(&chain), Ok(()));
}

#[test]
fn mutual_reference_terminates() {
    let a = schema(
        "t.A",
        vec![
            field("b", Shape::Message(1), None, Some(rule())),
            field("n", Shape::Int, None, Some(min_rule(0))),
        ],
        vec![],
    );
    let b = schema("t.B", vec![field("a", Shape::Message(0), None, Some(rule()))], vec![]);
    let mut reg = Registry::new(vec![a, b]);
    assert_eq!(reg.validate(&Message::new(0, 2)), Ok(()));
    assert!(reg.is_registered(1));
    let mut m = Message::new(1, 1);
    let x = m.add_node(0, 2);
    let y = m.add_node(1, 1);
    let z = m.add_node(0, 2);
    m.set(0, 0, Slot::One(Val::Msg(x)));
    m.set(x, 0, Slot::One(Val::Msg(y)));
    m.set(y, 0, Slot::One(Val::Msg(z)));
    m.set(z, 1, Slot::One(Val::Int(-1)));
    assert_eq!(reg.validate(&m), Err(Error::Violation { schema: 0, field: 1, check: Check::AtLeast(0) }));
}

fn strict_schema(disabled: bool, ignored: bool) -> Schema {
    let mut s = schema("t.Strict", vec![field("n", Shape::Int, None, Some(min_rule(10)))], vec![]);
    s.disabled = disabled;
    s.ignored = ignored;
    s
}

#[test]
fn disabled_schema_always_passes() {
    let mut reg = Registry::new(vec![strict_schema(true, false)]);
    let mut m = Message::new(0, 1);
    m.set(0, 0, Slot::One(Val::Int(1)));
    assert_eq!(reg.validate(&m), Ok(()));
}

#[test]
fn ignored_schema_always_passes() {
    let mut reg = Registry::new(vec![strict_schema(false, true)]);
    let mut m = Message::new(0, 1);
    m.set(0, 0, Slot::One(Val::Int(1)));
    assert_eq!(reg.validate(&m), Ok(()));
}

#[test]
fn enabled_strict_schema_fails() {
    let mut reg = Registry::new(vec![strict_schema(false, false)]);
    let mut m = Message::new(0, 1);
    m.set(0, 0, Slot::One(Val::Int(1)));
    assert_eq!(reg.validate(&m), Err(Error::Violation { schema: 0, field: 0, check: Check::AtLeast(10) }));
}

fn xy_registry(required: bool) -> Registry {
    let s = schema(
        "t.XY",
        vec![
            field("x", Shape::Int, Some(0), Some(min_rule(3))),
            field("y", Shape::Int, Some(0), Some(rule())),
        ],
        vec![group("choice", required)],
    );
    Registry::new(vec![s])
}

#[test]
fn exclusive_group_with_neither_set() {
    let mut reg = xy_registry(true);
    assert_eq!(reg.validate(&Message::new(0, 2)), Err(Error::NoValue { schema: 0, group: 0 }));
}

#[test]
fn exclusive_group_with_one_set() {
    let mut reg = xy_registry(true);
    let mut m = Message::new(0, 2);
    m.set(0, 1, Slot::One(Val::Int(-100)));
    assert_eq!(reg.validate(&m), Ok(()));
    let mut m2 = Message::new(0, 2);
    m2.set(0, 0, Slot::One(Val::Int(4)));
    assert_eq!(reg.validate(&m2), Ok(()));
}

#[test]
fn exclusive_group_member_runs_its_rule() {
    let mut reg = xy_registry(true);
    let mut m = Message::new(0, 2);
    m.set(0, 0, Slot::One(Val::Int(2)));
    assert_eq!(reg.validate(&m), Err(Error::Violation { schema: 0, field: 0, check: Check::AtLeast(3) }));
}

#[test]
fn exclusive_group_with_both_set() {
    let mut reg = xy_registry(true);
    let mut m = Message::new(0, 2);
    m.set(0, 0, Slot::One(Val::Int(4)));
    m.set(0, 1, Slot::One(Val::Int(4)));
    assert_eq!(reg.validate(&m), Err(Error::MultipleValues { schema: 0, group: 0 }));
}

#[test]
fn optional_group_allows_none() {
    let mut reg = xy_registry(false);
    assert_eq!(reg.validate(&Message::new(0, 2)), Ok(()));
}

fn list_registry(r: Rule) -> Registry {
    Registry::new(vec![schema("t.L", vec![field("xs", Shape::Repeated(Elem::Int), None, Some(r))], vec![])])
}

#[test]
fn empty_list_stops_before_min_items() {
    let mut reg = list_registry(Rule { ignore_empty: true, min_items: Some(1), ..rule() });
    let mut m = Message::new(0, 1);
    m.set(0, 0, Slot::Many(vec![]));
    assert_eq!(reg.validate(&m), Ok(()));
}

#[test]
fn empty_list_fails_min_items_without_stop() {
    let mut reg = list_registry(Rule { min_items: Some(1), ..rule() });
    let mut m = Message::new(0, 1);
    m.set(0, 0, Slot::Many(vec![]));
    assert_eq!(reg.validate(&m), Err(Error::Violation { schema: 0, field: 0, check: Check::MinItems(1) }));
}

#[test]
fn non_empty_list_runs_whole_chain() {
    let mut reg = list_registry(Rule { ignore_empty: true, max_items: Some(2), max: Some(9), ..rule() });
    let mut m = Message::new(0, 1);
    m.set(0, 0, Slot::Many(vec![Val::Int(1), Val::Int(10)]));
    assert_eq!(reg.validate(&m), Err(Error::Violation { schema: 0, field: 0, check: Check::AtMost(9) }));
    let mut m2 = Message::new(0, 1);
    m2.set(0, 0, Slot::Many(vec![Val::Int(1), Val::Int(2), Val::Int(3)]));
    assert_eq!(reg.validate(&m2), Err(Error::Violation { schema: 0, field: 0, check: Check::MaxItems(2) }));
    let mut m3 = Message::new(0, 1);
    m3.set(0, 0, Slot::Many(vec![Val::Int(9), Val::Int(-4)]));
    assert_eq!(reg.validate(&m3), Ok(()));
}

#[test]
fn map_values_are_checked() {
    let s = schema("t.M", vec![field("m", Shape::Keyed(Elem::Int), None, Some(Rule { max: Some(3), ..rule() }))], vec![]);
    let mut reg = Registry::new(vec![s]);
    let mut m = Message::new(0, 1);
    m.set(0, 0, Slot::Many(vec![Val::Int(3), Val::Int(4)]));
    assert_eq!(reg.validate(&m), Err(Error::Violation { schema: 0, field: 0, check: Check::AtMost(3) }));
}

#[test]
fn field_without_rule_is_unconstrained() {
    let s = schema(
        "t.Free",
        vec![field("free", Shape::Int, None, None), field("n", Shape::Int, None, Some(min_rule(0)))],
        vec![],
    );
    let mut reg = Registry::new(vec![s]);
    for v in [i64::MIN, -1, 0, i64::MAX] {
        let mut m = Message::new(0, 2);
        m.set(0, 0, Slot::One(Val::Int(v)));
        assert_eq!(reg.validate(&m), Ok(()));
    }
}

#[test]
fn required_field_must_be_set() {
    let s = schema("t.R", vec![field("n", Shape::Int, None, Some(Rule { required: true, ..rule() }))], vec![]);
    let mut reg = Registry::new(vec![s]);
    assert_eq!(reg.validate(&Message::new(0, 1)), Err(Error::Violation { schema: 0, field: 0, check: Check::Required }));
    let mut m = Message::new(0, 1);
    m.set(0, 0, Slot::One(Val::Int(0)));
    assert_eq!(reg.validate(&m), Ok(()));
}

#[test]
fn first_failing_field_is_reported() {
    let s = schema(
        "t.Two",
        vec![field("a", Shape::Int, None, Some(min_rule(5))), field("b", Shape::Int, None, Some(min_rule(5)))],
        vec![],
    );
    let mut reg = Registry::new(vec![s]);
    let mut m = Message::new(0, 2);
    m.set(0, 0, Slot::One(Val::Int(1)));
    m.set(0, 1, Slot::One(Val::Int(1)));
    assert_eq!(reg.validate(&m), Err(Error::Violation { schema: 0, field: 0, check: Check::AtLeast(5) }));
}

#[test]
fn inverted_bound_is_a_compile_error() {
    let s = schema("t.Bad", vec![field("n", Shape::Int, None, Some(Rule { min: Some(5), max: Some(1), ..rule() }))], vec![]);
    let mut reg = Registry::new(vec![s]);
    assert_eq!(reg.validate(&Message::new(0, 1)), Err(Error::BadRule { schema: 0, field: 0 }));
    assert!(!reg.is_registered(0));
}

#[test]
fn failed_nested_compile_leaves_cache_unchanged() {
    let outer = schema("t.Outer", vec![field("inner", Shape::Message(1), None, Some(rule()))], vec![]);
    let inner = schema(
        "t.Inner",
        vec![field("xs", Shape::Repeated(Elem::Int), None, Some(Rule { min_items: Some(3), max_items: Some(2), ..rule() }))],
        vec![],
    );
    let mut reg = Registry::new(vec![outer, inner]);
    assert_eq!(reg.register(0), Err(Error::BadRule { schema: 1, field: 0 }));
    assert!(!reg.is_registered(0));
    assert!(!reg.is_registered(1));
}

#[test]
fn direct_invocation_needs_a_compiled_plan() {
    let reg = order_registry();
    let mut m = order();
    m.set(0, 0, Slot::One(Val::Int(5)));
    assert_eq!(reg.do_validate(&m), Err(Error::Unregistered { schema: 0 }));
}

#[test]
fn unknown_root_schema_is_unregistered() {
    let mut reg = order_registry();
    assert_eq!(reg.validate(&Message::new(7, 0)), Err(Error::Unregistered { schema: 7 }));
    assert_eq!(reg.register(7), Err(Error::Unregistered { schema: 7 }));
}

#[test]
fn malformed_messages_are_rejected() {
    let mut reg = order_registry();
    assert_eq!(reg.validate(&Message { nodes: vec![] }), Err(Error::Malformed { node: 0 }));
    let mut m = order();
    m.set(0, 0, Slot::One(Val::Int(5)));
    m.set(0, 3, Slot::One(Val::Msg(0)));
    assert_eq!(reg.validate(&m), Err(Error::Malformed { node: 0 }));
}

#[test]
fn skip_nested_does_not_descend() {
    let outer = schema("t.Outer", vec![field("inner", Shape::Message(1), None, Some(Rule { skip_nested: true, ..rule() }))], vec![]);
    let inner = schema("t.Inner", vec![field("n", Shape::Int, None, Some(min_rule(1)))], vec![]);
    let mut reg = Registry::new(vec![outer, inner]);
    let mut m = Message::new(0, 1);
    let c = m.add_node(1, 1);
    m.set(c, 0, Slot::One(Val::Int(0)));
    m.set(0, 0, Slot::One(Val::Msg(c)));
    assert_eq!(reg.validate(&m), Ok(()));
    assert!(!reg.is_registered(1));
}

#[test]
fn unruled_member_of_optional_group_is_unconstrained() {
    let s = schema(
        "t.Opt",
        vec![
            field("x", Shape::Int, Some(0), Some(min_rule(3))),
            field("y", Shape::Int, Some(0), None),
        ],
        vec![group("pick", false)],
    );
    let mut reg = Registry::new(vec![s]);
    for v in [i64::MIN, 0, 7] {
        let mut m = Message::new(0, 2);
        m.set(0, 1, Slot::One(Val::Int(v)));
        assert_eq!(reg.validate(&m), Ok(()));
    }
}

#[test]
fn unruled_member_of_required_group_still_counts() {
    let s = schema(
        "t.Req",
        vec![
            field("x", Shape::Int, Some(0), Some(rule())),
            field("y", Shape::Int, Some(0), None),
        ],
        vec![group("pick", true)],
    );
    let mut reg = Registry::new(vec![s]);
    let mut m = Message::new(0, 2);
    m.set(0, 1, Slot::One(Val::Int(1)));
    assert_eq!(reg.validate(&m), Ok(()));
    m.set(0, 0, Slot::One(Val::Int(1)));
    assert_eq!(reg.validate(&m), Err(Error::MultipleValues { schema: 0, group: 0 }));
}
