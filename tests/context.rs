use m17n_mim::context::Context;
use m17n_mim::element::Element;

fn ctx_with(text: &str, cursor: usize) -> Context {
    let mut c = Context::new("init".to_string());
    c.insert(text);
    c.move_pos(cursor as i64 - text.chars().count() as i64);
    c
}

#[test]
fn insert_moves_cursor() {
    let mut c = Context::new("s".to_string());
    c.insert("ab");
    c.insert_char('c');
    assert_eq!(c.preedit, vec!['a', 'b', 'c']);
    assert_eq!(c.current_pos, 3);
    c.move_pos(-2);
    c.insert("X");
    assert_eq!(c.preedit, vec!['a', 'X', 'b', 'c']);
    assert_eq!(c.current_pos, 2);
}

#[test]
fn resolve_position_clamps() {
    let c = ctx_with("abcd", 2);
    assert_eq!(c.resolve_position(0), 2);
    assert_eq!(c.resolve_position(-1), 1);
    assert_eq!(c.resolve_position(-5), 0);
    assert_eq!(c.resolve_position(1), 3);
    assert_eq!(c.resolve_position(9), 4);
    assert_eq!(c.resolve_position(i64::MIN), 0);
    assert_eq!(c.resolve_position(i64::MAX), 4);
}

#[test]
fn delete_both_directions() {
    let mut c = ctx_with("abcd", 2);
    c.delete(-1);
    assert_eq!(c.preedit, vec!['a', 'c', 'd']);
    assert_eq!(c.current_pos, 1);
    c.delete(i64::MAX);
    assert_eq!(c.preedit, vec!['a']);
    assert_eq!(c.current_pos, 1);
    c.delete(0);
    assert_eq!(c.preedit, vec!['a']);
}

#[test]
fn char_at_offsets() {
    let c = ctx_with("abcd", 2);
    assert_eq!(c.get_char_at(0), -1);
    assert_eq!(c.get_char_at(-1), 'b' as i64);
    assert_eq!(c.get_char_at(-2), 'a' as i64);
    assert_eq!(c.get_char_at(-3), 0);
    assert_eq!(c.get_char_at(1), 'c' as i64);
    assert_eq!(c.get_char_at(2), 'd' as i64);
    assert_eq!(c.get_char_at(3), 0);
    let start = ctx_with("abcd", 0);
    assert_eq!(start.get_char_at(-1), 0);
}

#[test]
fn commit_appends_and_clears() {
    let mut c = ctx_with("ab", 1);
    c.commit();
    c.insert("c");
    c.commit();
    assert_eq!(c.committed, vec!['a', 'b', 'c']);
    assert!(c.preedit.is_empty());
    assert_eq!(c.current_pos, 0);
}

#[test]
fn variables_default_to_zero_and_rebind() {
    let mut c = Context::new("s".to_string());
    assert_eq!(c.get_var("v"), 0);
    c.set_var("v", 3);
    c.set_var("w", 4);
    c.set_var("v", -7);
    assert_eq!(c.get_var("v"), -7);
    assert_eq!(c.get_var("w"), 4);
}

#[test]
fn eval_expr_operators() {
    let c = ctx_with("ab", 2);
    let sym = |s: &str| Element::Symbol(s.to_string());
    let op = |o: &str, a: Element, b: Element| Element::List(vec![sym(o), a, b]);
    assert_eq!(c.eval_expr(&op("+", Element::Int(i64::MAX), Element::Int(1))), i64::MIN);
    assert_eq!(c.eval_expr(&op("/", Element::Int(7), Element::Int(-2))), -3);
    assert_eq!(c.eval_expr(&op("/", Element::Int(7), Element::Int(0))), 0);
    assert_eq!(c.eval_expr(&op("/", Element::Int(i64::MIN), Element::Int(-1))), 0);
    assert_eq!(c.eval_expr(&op("<=", Element::Int(2), Element::Int(2))), 1);
    assert_eq!(c.eval_expr(&op("==", Element::Int(2), Element::Int(3))), 0);
    assert_eq!(c.eval_expr(&Element::List(vec![sym("!"), Element::Int(5)])), 0);
    assert_eq!(c.eval_expr(&Element::List(vec![sym("+"), Element::Int(5)])), 0);
    assert_eq!(c.eval_expr(&Element::List(vec![sym("?"), Element::Int(5), Element::Int(1)])), 0);
    assert_eq!(c.eval_expr(&sym("@-1")), 'b' as i64);
    assert_eq!(c.eval_expr(&sym("@-2")), 'a' as i64);
    assert_eq!(c.eval_expr(&sym("@+1")), 0);
    assert_eq!(c.eval_expr(&sym("@-0")), -1);
    assert_eq!(c.eval_expr(&sym("@-")), -1);
    assert_eq!(c.eval_expr(&sym("unset")), 0);
    assert_eq!(c.eval_expr(&Element::Str("s".to_string())), 0);
}

#[test]
fn execute_action_insert_forms() {
    let mut c = Context::new("s".to_string());
    c.set_var("v", 0x995);
    c.set_var("z", 0);
    let sym = |s: &str| Element::Symbol(s.to_string());
    c.execute_action(&Element::List(vec![sym("insert"), sym("v")]));
    c.execute_action(&Element::List(vec![sym("insert"), sym("z")]));
    c.execute_action(&Element::List(vec![sym("insert"), Element::Int(0xD800)]));
    c.execute_action(&Element::List(vec![sym("insert"), Element::Str("x".to_string())]));
    c.execute_action(&Element::List(vec![sym("unknown"), Element::Int(65)]));
    c.execute_action(&sym("loose"));
    assert_eq!(c.preedit, vec!['\u{995}', '?', 'x']);
    c.execute_action(&Element::List(vec![sym("shift"), sym("other")]));
    assert_eq!(c.current_state, "other");
}
