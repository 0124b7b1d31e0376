use vstd::prelude::*;
use crate::element::{Element, Sexp, views, lemma_list_view};
use crate::reader::{
    parse_element_spec, parse_list_spec, parse_top, skip_ws, str_body, sym_body, symbol_at,
    integer_at, dec_run, is_ws, is_delimiter, starts_integer, digit_of,
};
use crate::text::{is_digit, digits_value, chars_of, string_of, lemma_digits_nonneg};

verus! {

pub open spec fn digit_char(d: int) -> char {
    if d == 0 { '0' } else if d == 1 { '1' } else if d == 2 { '2' } else if d == 3 { '3' }
    else if d == 4 { '4' } else if d == 5 { '5' } else if d == 6 { '6' } else if d == 7 { '7' }
    else if d == 8 { '8' } else { '9' }
}

/// The decimal digits of `n`.
pub open spec fn nat_chars(n: nat) -> Seq<char>
    decreases n,
{
    if n < 10 {
        seq![digit_char(n as int)]
    } else {
        nat_chars(n / 10) + seq![digit_char((n % 10) as int)]
    }
}

/// The decimal text of `i`.
pub open spec fn int_chars(i: int) -> Seq<char> {
    if i < 0 {
        seq!['-'] + nat_chars((-i) as nat)
    } else {
        nat_chars(i as nat)
    }
}

/// The canonical text of a form: integers in decimal, strings between quotes,
/// symbols as they are, lists in parentheses with a space before each item.
pub open spec fn render(e: Sexp) -> Seq<char>
    decreases e, 0int,
{
    match e {
        Sexp::Int(n) => int_chars(n as int),
        Sexp::Str(t) => seq!['"'] + escaped(t) + seq!['"'],
        Sexp::Sym(t) => render_symbol(t),
        Sexp::List(l) => seq!['('] + render_items(l, 0) + seq![')'],
    }
}

/// The items `l[k..]`, each after a space.
pub open spec fn render_items(l: Seq<Sexp>, k: int) -> Seq<char>
    decreases l, l.len() - k,
{
    if k < 0 || k >= l.len() {
        Seq::empty()
    } else {
        seq![' '] + render(l[k]) + render_items(l, k + 1)
    }
}

/// A character that a symbol's text must escape wherever it stands.
pub open spec fn sym_special(c: char) -> bool {
    is_delimiter(c) || c == '\\'
}

/// A character that a symbol's text must escape as its first character.
pub open spec fn sym_head_special(c: char) -> bool {
    sym_special(c) || starts_integer(c) || c == ';'
}

/// The rest of a symbol's text, with a backslash before each special character.
pub open spec fn sym_escaped(t: Seq<char>) -> Seq<char>
    decreases t.len(),
{
    if t.len() == 0 {
        Seq::empty()
    } else if sym_special(t[0]) {
        seq!['\\', t[0]] + sym_escaped(t.drop_first())
    } else {
        seq![t[0]] + sym_escaped(t.drop_first())
    }
}

/// The text of a non-empty symbol.
pub open spec fn render_symbol(t: Seq<char>) -> Seq<char> {
    if t.len() == 0 {
        Seq::empty()
    } else if sym_head_special(t[0]) {
        seq!['\\', t[0]] + sym_escaped(t.drop_first())
    } else {
        seq![t[0]] + sym_escaped(t.drop_first())
    }
}

/// A character of a string literal, with a backslash before a quote or a backslash.
pub open spec fn escape_char(c: char) -> Seq<char> {
    if c == '"' || c == '\\' {
        seq!['\\', c]
    } else {
        seq![c]
    }
}

/// The text of a string literal between its quotes.
pub open spec fn escaped(t: Seq<char>) -> Seq<char>
    decreases t.len(),
{
    if t.len() == 0 {
        Seq::empty()
    } else {
        escape_char(t[0]) + escaped(t.drop_first())
    }
}

/// A tree that the canonical text reproduces: any integers and strings, and
/// non-empty symbols.
pub open spec fn canonical(e: Sexp) -> bool
    decreases e, 0int,
{
    match e {
        Sexp::Int(_) => true,
        Sexp::Str(_) => true,
        Sexp::Sym(t) => t.len() > 0,
        Sexp::List(l) => canonical_items(l, 0),
    }
}

pub open spec fn canonical_items(l: Seq<Sexp>, k: int) -> bool
    decreases l, l.len() - k,
{
    if k < 0 || k >= l.len() {
        true
    } else {
        canonical(l[k]) && canonical_items(l, k + 1)
    }
}

} // verus!

verus! {

pub open spec fn pow10(k: nat) -> int
    decreases k,
{
    if k == 0 {
        1
    } else {
        10 * pow10((k - 1) as nat)
    }
}

proof fn lemma_pow10_pos(k: nat)
    ensures
        pow10(k) >= 1,
    decreases k,
{
    if k > 0 {
        lemma_pow10_pos((k - 1) as nat);
    }
}

/// The first digit of a run weighs a power of ten.
proof fn lemma_digits_first(t: Seq<char>)
    requires
        t.len() > 0,
    ensures
        digits_value(t) == (t[0] as int - '0' as int) * pow10((t.len() - 1) as nat) + digits_value(
            t.drop_first(),
        ),
    decreases t.len(),
{
    if t.len() == 1 {
        assert(t.drop_first().len() == 0);
        assert(t.drop_last().len() == 0);
        assert(digits_value(t.drop_last()) == 0);
        assert(digits_value(t.drop_first()) == 0);
        assert(t.last() == t[0]);
        assert(pow10(0) == 1);
    } else {
        let u = t.drop_last();
        lemma_digits_first(u);
        assert(u.drop_first() =~= t.drop_first().drop_last());
        assert(t.drop_first().last() == t.last());
        let d0 = t[0] as int - '0' as int;
        let p = pow10((u.len() - 1) as nat);
        assert(pow10((t.len() - 1) as nat) == 10 * p);
        assert(digits_value(t) == digits_value(u) * 10 + (t.last() as int - '0' as int));
        assert(digits_value(t.drop_first()) == digits_value(u.drop_first()) * 10 + (t.last() as int - '0' as int));
        assert((d0 * p + digits_value(u.drop_first())) * 10 == d0 * (10 * p) + digits_value(u.drop_first()) * 10) by (nonlinear_arith);
    }
}

/// Reading a run of digits after a value `acc` that stays in range.
proof fn lemma_dec_run(s: Seq<char>, i: int, acc: i64, t: Seq<char>)
    requires
        forall|k: int| 0 <= k < t.len() ==> is_digit(#[trigger] t[k]),
        0 <= i,
        i + t.len() <= s.len(),
        s.subrange(i, i + t.len()) == t,
        0 <= acc,
        acc * pow10(t.len()) + digits_value(t) <= i64::MAX,
    ensures
        dec_run(s, i, acc) == dec_run(s, i + t.len(), (acc * pow10(t.len()) + digits_value(t)) as i64),
    decreases t.len(),
{
    if t.len() == 0 {
        assert(pow10(0) == 1);
    } else {
        assert(s[i] == t[0]);
        let d = t[0] as int - '0' as int;
        let rest = t.drop_first();
        let p = pow10(rest.len());
        lemma_digits_first(t);
        lemma_pow10_pos(rest.len());
        lemma_digits_nonneg(rest);
        assert(pow10(t.len()) == 10 * p);
        let next = acc * 10 + d;
        assert(acc * pow10(t.len()) + digits_value(t) == next * p + digits_value(rest)) by (nonlinear_arith)
            requires
                pow10(t.len()) == 10 * p,
                digits_value(t) == d * p + digits_value(rest),
                next == acc * 10 + d,
        ;
        assert(next <= next * p) by (nonlinear_arith)
            requires
                next >= 0,
                p >= 1,
        ;
        assert(0 <= acc * 10 <= i64::MAX);
        assert(acc.wrapping_mul(10) == acc * 10) by {
            vstd::arithmetic::div_mod::lemma_small_mod((acc * 10) as nat, 0x1_0000_0000_0000_0000nat);
        }
        assert(acc.wrapping_mul(10).wrapping_add((s[i] as u32 - '0' as u32) as i64) == next);
        assert(s.subrange(i + 1, i + 1 + rest.len()) =~= rest);
        lemma_dec_run(s, i + 1, next as i64, rest);
    }
}

} // verus!

verus! {

proof fn lemma_nat_chars(n: nat)
    ensures
        nat_chars(n).len() > 0,
        forall|k: int| 0 <= k < nat_chars(n).len() ==> is_digit(#[trigger] nat_chars(n)[k]),
        digits_value(nat_chars(n)) == n,
    decreases n,
{
    if n < 10 {
        let t = nat_chars(n);
        assert(t.drop_last().len() == 0);
        assert(digits_value(t.drop_last()) == 0);
    } else {
        lemma_nat_chars(n / 10);
        let t = nat_chars(n);
        assert(t.drop_last() =~= nat_chars(n / 10));
        assert(forall|k: int| 0 <= k < t.len() - 1 ==> t[k] == #[trigger] nat_chars(n / 10)[k]);
        assert(n == (n / 10) * 10 + n % 10);
    }
}

proof fn lemma_str_body(s: Seq<char>, p: int, t: Seq<char>)
    requires
        0 <= p,
        p + escaped(t).len() < s.len(),
        s.subrange(p, p + escaped(t).len()) == escaped(t),
        s[p + escaped(t).len()] == '"',
    ensures
        str_body(s, p) == (t, p + escaped(t).len() + 1),
    decreases t.len(),
{
    let u = escaped(t);
    if t.len() > 0 {
        let c = t[0];
        let rest = t.drop_first();
        let h = escape_char(c);
        let v = escaped(rest);
        assert(u == h + v);
        assert(forall|k: int| 0 <= k < u.len() ==> s[p + k] == #[trigger] s.subrange(p, p + u.len())[k]);
        assert(s[p] == u[0]);
        assert(forall|k: int| 0 <= k < v.len() ==> #[trigger] v[k] == u[k + h.len()]);
        assert(s.subrange(p + h.len(), p + h.len() + v.len()) =~= v) by {
            assert(forall|k: int| 0 <= k < v.len() ==> s[p + h.len() + k] == #[trigger] u[k + h.len()]);
        }
        if c == '"' || c == '\\' {
            assert(s[p + 1] == u[1]);
        }
        lemma_str_body(s, p + h.len(), rest);
        assert(seq![c] + rest =~= t);
    } else {
        assert(s[p] == '"');
    }
}

proof fn lemma_sym_escaped_push(t: Seq<char>, c: char)
    ensures
        sym_escaped(t.push(c)) == sym_escaped(t) + (if sym_special(c) {
            seq!['\\', c]
        } else {
            seq![c]
        }),
    decreases t.len(),
{
    if t.len() == 0 {
        assert(t.push(c).drop_first() =~= Seq::<char>::empty());
        assert(sym_escaped(Seq::<char>::empty()) == Seq::<char>::empty());
        assert(t.push(c)[0] == c);
        assert(sym_escaped(t.push(c)) =~= sym_escaped(t) + (if sym_special(c) {
            seq!['\\', c]
        } else {
            seq![c]
        }));
    } else {
        assert(t.push(c).drop_first() =~= t.drop_first().push(c));
        lemma_sym_escaped_push(t.drop_first(), c);
        assert(sym_escaped(t.push(c)) =~= sym_escaped(t) + (if sym_special(c) {
            seq!['\\', c]
        } else {
            seq![c]
        }));
    }
}

proof fn lemma_escaped_push(t: Seq<char>, c: char)
    ensures
        escaped(t.push(c)) == escaped(t) + escape_char(c),
    decreases t.len(),
{
    if t.len() == 0 {
        assert(t.push(c).drop_first() =~= Seq::<char>::empty());
        assert(escaped(Seq::<char>::empty()) == Seq::<char>::empty());
        assert(t.push(c)[0] == c);
        assert(escaped(t.push(c)) =~= escape_char(c));
    } else {
        assert(t.push(c).drop_first() =~= t.drop_first().push(c));
        lemma_escaped_push(t.drop_first(), c);
        assert(escaped(t.push(c)) =~= escaped(t) + escape_char(c));
    }
}

proof fn lemma_sym_body(s: Seq<char>, p: int, t: Seq<char>)
    requires
        0 <= p,
        p + sym_escaped(t).len() <= s.len(),
        s.subrange(p, p + sym_escaped(t).len()) == sym_escaped(t),
        p + sym_escaped(t).len() == s.len() || is_delimiter(s[p + sym_escaped(t).len()]),
    ensures
        sym_body(s, p) == (t, p + sym_escaped(t).len()),
    decreases t.len(),
{
    let u = sym_escaped(t);
    if t.len() > 0 {
        let c = t[0];
        let rest = t.drop_first();
        let v = sym_escaped(rest);
        let h: Seq<char> = if sym_special(c) { seq!['\\', c] } else { seq![c] };
        assert(u == h + v);
        assert(forall|k: int| 0 <= k < u.len() ==> s[p + k] == #[trigger] s.subrange(p, p + u.len())[k]);
        assert(s[p] == u[0]);
        assert(forall|k: int| 0 <= k < v.len() ==> #[trigger] v[k] == u[k + h.len()]);
        assert(s.subrange(p + h.len(), p + h.len() + v.len()) =~= v) by {
            assert(forall|k: int| 0 <= k < v.len() ==> s[p + h.len() + k] == #[trigger] u[k + h.len()]);
        }
        if sym_special(c) {
            assert(s[p + 1] == u[1]);
        }
        lemma_sym_body(s, p + h.len(), rest);
        assert(seq![c] + rest =~= t);
    } else {
        assert(sym_body(s, p) == (Seq::<char>::empty(), p));
        assert(t =~= Seq::<char>::empty());
    }
}

/// Where `s` holds `r` at `i`, followed by a delimiter or the end.
pub open spec fn holds_at(s: Seq<char>, i: int, r: Seq<char>) -> bool {
    &&& 0 <= i
    &&& i + r.len() <= s.len()
    &&& s.subrange(i, i + r.len()) == r
    &&& (i + r.len() == s.len() || is_delimiter(s[i + r.len()]))
}

proof fn lemma_parse_min(s: Seq<char>, i: int)
    requires
        holds_at(s, i, int_chars(i64::MIN as int)),
    ensures
        integer_at(s, i + 1, s[i]) == (Sexp::Int(i64::MIN), i + int_chars(i64::MIN as int).len()),
        starts_integer(s[i]),
{
    let r = int_chars(i64::MIN as int);
    let big: nat = 9223372036854775808;
    let a: nat = 922337203685477580;
    let t = nat_chars(big);
    let ta = nat_chars(a);
    assert(big / 10 == a && big % 10 == 8);
    assert(t == ta + seq!['8']);
    assert(r == seq!['-'] + ta + seq!['8']);
    lemma_nat_chars(a);
    let rest = ta.drop_first();
    lemma_digits_first(ta);
    lemma_digits_nonneg(rest);
    assert(forall|k: int| 0 <= k < rest.len() ==> is_digit(#[trigger] rest[k])) by {
        assert(forall|k: int| 0 <= k < rest.len() ==> rest[k] == ta[k + 1]);
    }
    assert(forall|k: int| 0 <= k < r.len() ==> s[i + k] == #[trigger] s.subrange(i, i + r.len())[k]);
    assert(r[0] == '-' && r[1] == ta[0]);
    assert(s[i] == '-');
    assert(s[i + 1] == ta[0]);
    assert(forall|k: int| 0 <= k < rest.len() ==> #[trigger] rest[k] == r[k + 2]);
    assert(s.subrange(i + 2, i + 2 + rest.len()) =~= rest) by {
        assert(forall|k: int| 0 <= k < rest.len() ==> s[i + 2 + k] == #[trigger] r[k + 2]);
    }
    lemma_dec_run(s, i + 2, digit_of(ta[0]), rest);
    let p = i + 2 + rest.len();
    assert(r.len() == rest.len() + 3);
    assert(s[p] == r[rest.len() + 2int]);
    assert(s[p] == '8');
    assert(digit_of(ta[0]) * pow10(rest.len()) + digits_value(rest) == a);
    let acc = a as i64;
    assert(acc.wrapping_mul(10) == 9223372036854775800int) by {
        assert(acc as int == 922337203685477580);
        assert(acc as int * 10 == 9223372036854775800int);
        vstd::arithmetic::div_mod::lemma_small_mod(9223372036854775800nat, 0x1_0000_0000_0000_0000nat);
        assert(9223372036854775800int % 0x1_0000_0000_0000_0000int == 9223372036854775800int);
    }
    assert(acc.wrapping_mul(10).wrapping_add(8) == i64::MIN);
    assert(p + 1 == s.len() || !is_digit(s[p + 1]));
    assert(p + 1 == i + r.len());
    assert(dec_run(s, p + 1, i64::MIN) == (i64::MIN, p + 1));
    assert(is_digit(s[p]));
    assert(((s[p] as u32 - '0' as u32) as i64) == 8);
    assert(dec_run(s, p, acc) == dec_run(s, p + 1, i64::MIN));
    assert(dec_run(s, p, acc) == (i64::MIN, p + 1));
    assert(0i64.wrapping_sub(i64::MIN) == i64::MIN);
}

proof fn lemma_parse_int(s: Seq<char>, i: int, n: i64)
    requires
        holds_at(s, i, int_chars(n as int)),
    ensures
        integer_at(s, i + 1, s[i]) == (Sexp::Int(n), i + int_chars(n as int).len()),
        starts_integer(s[i]),
{
    let r = int_chars(n as int);
    if n >= 0 {
        let t = nat_chars(n as nat);
        lemma_nat_chars(n as nat);
        let rest = t.drop_first();
        assert(s[i] == t[0]);
        assert(is_digit(t[0]));
        lemma_digits_first(t);
        lemma_digits_nonneg(rest);
        assert(forall|k: int| 0 <= k < rest.len() ==> is_digit(#[trigger] rest[k])) by {
            assert(forall|k: int| 0 <= k < rest.len() ==> rest[k] == t[k + 1]);
        }
        assert(s.subrange(i + 1, i + 1 + rest.len()) =~= rest);
        if i + 1 < s.len() {
            assert(i + 1 + rest.len() == s.len() || is_delimiter(s[i + 1 + rest.len()]));
        }
        assert(i + 1 + rest.len() == s.len() || !is_digit(s[i + 1 + rest.len()]));
        lemma_dec_run(s, i + 1, digit_of(t[0]), rest);
        assert(i + 1 + rest.len() == s.len() || !is_digit(s[i + 1 + rest.len()]));
        if rest.len() > 0 {
            assert(s[i + 1] == rest[0]);
        }
    } else if n == i64::MIN {
        lemma_parse_min(s, i);
    } else {
        let m = (-(n as int)) as nat;
        let t = nat_chars(m);
        lemma_nat_chars(m);
        assert(r == seq!['-'] + t);
        assert(r[0] == '-' && r[1] == t[0]);
        assert(s.subrange(i, i + r.len())[0] == s[i]);
        assert(s.subrange(i, i + r.len())[1] == s[i + 1]);
        assert(s[i] == '-');
        assert(s[i + 1] == t[0]);
        let rest = t.drop_first();
        lemma_digits_first(t);
        lemma_digits_nonneg(rest);
        assert(forall|k: int| 0 <= k < rest.len() ==> is_digit(#[trigger] rest[k])) by {
            assert(forall|k: int| 0 <= k < rest.len() ==> rest[k] == t[k + 1]);
        }
        assert(r.len() == rest.len() + 2);
        assert(forall|k: int| 0 <= k < rest.len() ==> #[trigger] rest[k] == r[k + 2]);
        assert(forall|k: int| 0 <= k < rest.len() ==> s[i + 2 + k] == #[trigger] s.subrange(i, i + r.len())[k + 2]);
        assert(s.subrange(i + 2, i + 2 + rest.len()) =~= rest);
        assert(i + 2 + rest.len() == s.len() || !is_digit(s[i + 2 + rest.len()]));
        lemma_dec_run(s, i + 2, digit_of(t[0]), rest);
    }
}

} // verus!

verus! {

proof fn lemma_render_first(e: Sexp)
    requires
        canonical(e),
    ensures
        render(e).len() > 0,
        !is_ws(render(e)[0]),
        render(e)[0] != ';',
        render(e)[0] != ')',
{
    match e {
        Sexp::Int(n) => {
            if n >= 0 {
                lemma_nat_chars(n as nat);
            } else {
                lemma_nat_chars((-(n as int)) as nat);
            }
        },
        _ => {},
    }
}

proof fn lemma_parse_rendered(s: Seq<char>, i: int, e: Sexp)
    requires
        canonical(e),
        holds_at(s, i, render(e)),
    ensures
        parse_element_spec(s, i) == (Some(e), i + render(e).len()),
    decreases e, 0int,
{
    let r = render(e);
    lemma_render_first(e);
    assert(s[i] == s.subrange(i, i + r.len())[0]);
    assert(skip_ws(s, i, false) == i);
    match e {
        Sexp::Int(n) => {
            lemma_parse_int(s, i, n);
        },
        Sexp::Str(t) => {
            let u = escaped(t);
            assert(r == seq!['"'] + u + seq!['"']);
            assert(forall|k: int| 0 <= k < u.len() ==> #[trigger] u[k] == r[k + 1]);
            assert(s.subrange(i + 1, i + 1 + u.len()) =~= u) by {
                assert(forall|k: int| 0 <= k < u.len() ==> s[i + 1 + k] == #[trigger] s.subrange(i, i + r.len())[k + 1]);
            }
            assert(s[i + 1 + u.len()] == s.subrange(i, i + r.len())[u.len() + 1int]);
            lemma_str_body(s, i + 1, t);
        },
        Sexp::Sym(t) => {
            let rest = t.drop_first();
            let v = sym_escaped(rest);
            let h: Seq<char> = if sym_head_special(t[0]) { seq!['\\', t[0]] } else { seq![t[0]] };
            assert(r == h + v);
            assert(forall|k: int| 0 <= k < r.len() ==> s[i + k] == #[trigger] s.subrange(i, i + r.len())[k]);
            assert(forall|k: int| 0 <= k < v.len() ==> #[trigger] v[k] == r[k + h.len()]);
            assert(s.subrange(i + h.len(), i + h.len() + v.len()) =~= v) by {
                assert(forall|k: int| 0 <= k < v.len() ==> s[i + h.len() + k] == #[trigger] r[k + h.len()]);
            }
            lemma_sym_body(s, i + h.len(), rest);
            assert(seq![t[0]] + rest =~= t);
            if sym_head_special(t[0]) {
                assert(s[i] == '\\');
                assert(s[i + 1] == r[1]);
                assert(symbol_at(s, i + 1, s[i]) == (Sexp::Sym(t), i + r.len()));
            } else {
                assert(symbol_at(s, i + 1, s[i]) == (Sexp::Sym(t), i + r.len()));
            }
        },
        Sexp::List(l) => {
            let body = render_items(l, 0);
            assert(r == seq!['('] + body + seq![')']);
            assert(forall|k: int| 0 <= k < body.len() + 1 ==> #[trigger] (body + seq![')'])[k] == r[k + 1]);
            assert(s.subrange(i + 1, i + 1 + body.len() + 1) =~= body + seq![')']) by {
                assert(forall|k: int| 0 <= k < body.len() + 1 ==> s[i + 1 + k] == #[trigger] s.subrange(i, i + r.len())[k + 1]);
            }
            lemma_parse_rendered_items(s, i + 1, l, 0);
            assert(l.skip(0) =~= l);
        },
    }
}

proof fn lemma_parse_rendered_items(s: Seq<char>, i: int, l: Seq<Sexp>, k: int)
    requires
        canonical_items(l, k),
        0 <= k <= l.len(),
        0 <= i,
        i + render_items(l, k).len() + 1 <= s.len(),
        s.subrange(i, i + render_items(l, k).len() + 1) == render_items(l, k) + seq![')'],
    ensures
        parse_list_spec(s, i) == (l.skip(k), i + render_items(l, k).len() + 1),
    decreases l, l.len() - k,
{
    let body = render_items(l, k);
    let w = body + seq![')'];
    if k == l.len() {
        assert(body.len() == 0);
        assert(s[i] == s.subrange(i, i + 1)[0]);
        assert(s[i] == ')');
        assert(skip_ws(s, i, false) == i);
        assert(l.skip(k) =~= Seq::<Sexp>::empty());
        assert(parse_element_spec(s, i) == (None::<Sexp>, i + 1));
    } else {
        let x = l[k];
        let rx = render(x);
        let tail = render_items(l, k + 1);
        assert(body == seq![' '] + rx + tail);
        lemma_render_first(x);
        assert(w[0] == ' ');
        assert(w[1] == rx[0]);
        assert(forall|m: int| 0 <= m < w.len() ==> s[i + m] == #[trigger] s.subrange(i, i + w.len())[m]);
        assert(s[i] == s.subrange(i, i + w.len())[0]);
        assert(s[i + 1] == s.subrange(i, i + w.len())[1]);
        assert(s[i] == ' ');
        assert(s[i + 1] == rx[0]);
        assert(skip_ws(s, i + 1, false) == i + 1);
        assert(skip_ws(s, i, false) == i + 1);
        let e = i + 1 + rx.len();
        assert(s.subrange(i + 1, e) =~= rx) by {
            assert(forall|m: int| 0 <= m < rx.len() ==> #[trigger] rx[m] == w[m + 1]);
            assert(forall|m: int| 0 <= m < rx.len() ==> s[i + 1 + m] == #[trigger] w[m + 1]);
        }
        assert(s[e] == w[1 + rx.len() as int]);
        if k + 1 < l.len() {
            assert(tail[0] == ' ');
        } else {
            assert(tail.len() == 0);
        }
        assert(is_delimiter(s[e]));
        lemma_parse_rendered(s, i + 1, x);
        assert(parse_element_spec(s, i) == parse_element_spec(s, i + 1));
        assert(s.subrange(e, e + tail.len() + 1) =~= tail + seq![')']) by {
            assert(forall|m: int| 0 <= m < tail.len() + 1 ==> #[trigger] (tail + seq![')'])[m] == w[m + 1 + rx.len()]);
            assert(forall|m: int| 0 <= m < tail.len() + 1 ==> s[e + m] == #[trigger] w[m + 1 + rx.len()]);
        }
        lemma_parse_rendered_items(s, e, l, k + 1);
        assert(seq![x] + l.skip(k + 1) =~= l.skip(k));
        assert(parse_element_spec(s, i) == (Some(x), e));
        assert(i < e <= s.len());
        let (rest, m) = parse_list_spec(s, e);
        assert(parse_list_spec(s, i) == (seq![x] + rest, m));
    }
}

proof fn lemma_top_rendered(s: Seq<char>, i: int, l: Seq<Sexp>, k: int)
    requires
        canonical_items(l, k),
        0 <= k <= l.len(),
        0 <= i,
        s.len() == i + render_items(l, k).len(),
        s.subrange(i, s.len() as int) == render_items(l, k),
    ensures
        parse_top(s, i) == l.skip(k),
    decreases l.len() - k,
{
    let body = render_items(l, k);
    if k == l.len() {
        assert(l.skip(k) =~= Seq::<Sexp>::empty());
    } else {
        let x = l[k];
        let rx = render(x);
        let tail = render_items(l, k + 1);
        assert(body == seq![' '] + rx + tail);
        lemma_render_first(x);
        assert(body[0] == ' ');
        assert(body[1] == rx[0]);
        assert(forall|m: int| 0 <= m < body.len() ==> s[i + m] == #[trigger] s.subrange(i, s.len() as int)[m]);
        assert(s[i] == s.subrange(i, s.len() as int)[0]);
        assert(s[i + 1] == s.subrange(i, s.len() as int)[1]);
        assert(s[i] == ' ');
        assert(s[i + 1] == rx[0]);
        assert(skip_ws(s, i + 1, false) == i + 1);
        assert(skip_ws(s, i, false) == i + 1);
        let e = i + 1 + rx.len();
        assert(s.subrange(i + 1, e) =~= rx) by {
            assert(forall|m: int| 0 <= m < rx.len() ==> #[trigger] rx[m] == body[m + 1]);
            assert(forall|m: int| 0 <= m < rx.len() ==> s[i + 1 + m] == #[trigger] body[m + 1]);
        }
        if k + 1 < l.len() {
            assert(tail[0] == ' ');
            assert(s[e] == body[1 + rx.len() as int]);
        }
        lemma_parse_rendered(s, i + 1, x);
        assert(s.subrange(e, s.len() as int) =~= tail) by {
            assert(forall|m: int| 0 <= m < tail.len() ==> #[trigger] tail[m] == body[m + 1 + rx.len()]);
            assert(forall|m: int| 0 <= m < tail.len() ==> s[e + m] == #[trigger] body[m + 1 + rx.len()]);
        }
        lemma_top_rendered(s, e, l, k + 1);
        assert(seq![x] + l.skip(k + 1) =~= l.skip(k));
    }
}

/// Reading the canonical text of forms, each after a space, gives the forms
/// back, for every tree whose symbols are not empty (all that reading yields).
pub proof fn lemma_read_rendered(forms: Seq<Sexp>)
    requires
        canonical_items(forms, 0),
    ensures
        parse_top(render_items(forms, 0), 0) == forms,
{
    let s = render_items(forms, 0);
    assert(s.subrange(0, s.len() as int) =~= s);
    lemma_top_rendered(s, 0, forms, 0);
    assert(forms.skip(0) =~= forms);
}

} // verus!

verus! {

fn digit_to_char(d: u64) -> (r: char)
    requires
        d < 10,
    ensures
        r == digit_char(d as int),
{
    match d {
        0 => '0',
        1 => '1',
        2 => '2',
        3 => '3',
        4 => '4',
        5 => '5',
        6 => '6',
        7 => '7',
        8 => '8',
        _ => '9',
    }
}

fn push_nat_chars(out: &mut Vec<char>, n: u64)
    ensures
        final(out)@ == old(out)@ + nat_chars(n as nat),
    decreases n,
{
    if n >= 10 {
        push_nat_chars(out, n / 10);
    }
    out.push(digit_to_char(n % 10));
    assert(final(out)@ =~= old(out)@ + nat_chars(n as nat));
}

fn push_rendered(e: &Element, out: &mut Vec<char>)
    ensures
        final(out)@ == old(out)@ + render(e@),
    decreases e,
{
    match e {
        Element::Int(n) => {
            assert(e@ == Sexp::Int(*n));
            if *n < 0 {
                out.push('-');
                push_nat_chars(out, (-(*n as i128)) as u64);
                assert(final(out)@ =~= old(out)@ + render(e@));
            } else {
                push_nat_chars(out, *n as u64);
            }
        },
        Element::Str(s) => {
            assert(e@ == Sexp::Str(s@));
            out.push('"');
            let cs = chars_of(s.as_str());
            let ghost start = out@;
            let mut i: usize = 0;
            assert(cs@.take(0) =~= Seq::<char>::empty());
            while i < cs.len()
                invariant
                    i <= cs@.len(),
                    out@ == start + escaped(cs@.take(i as int)),
                decreases cs@.len() - i,
            {
                let c = cs[i];
                if c == '"' || c == '\\' {
                    out.push('\\');
                }
                out.push(c);
                proof {
                    lemma_escaped_push(cs@.take(i as int), c);
                    assert(cs@.take(i + 1) =~= cs@.take(i as int).push(c));
                }
                assert(out@ =~= start + escaped(cs@.take(i + 1)));
                i = i + 1;
            }
            assert(cs@.take(i as int) =~= s@);
            out.push('"');
            assert(final(out)@ =~= old(out)@ + render(e@));
        },
        Element::Symbol(s) => {
            assert(e@ == Sexp::Sym(s@));
            let cs = chars_of(s.as_str());
            if cs.len() > 0 {
                let c = cs[0];
                if c as u32 <= 32 || c == ')' || c == '(' || c == '"' || c == '\\' || ('0' <= c && c
                    <= '9') || c == '-' || c == '?' || c == '#' || c == ';' {
                    out.push('\\');
                }
                out.push(c);
                let ghost start = out@;
                let ghost rest = cs@.drop_first();
                let mut i: usize = 1;
                assert(cs@.subrange(1, 1) =~= Seq::<char>::empty());
                while i < cs.len()
                    invariant
                        1 <= i <= cs@.len(),
                        rest == cs@.drop_first(),
                        out@ == start + sym_escaped(cs@.subrange(1, i as int)),
                    decreases cs@.len() - i,
                {
                    let d = cs[i];
                    if d as u32 <= 32 || d == ')' || d == '(' || d == '"' || d == '\\' {
                        out.push('\\');
                    }
                    out.push(d);
                    proof {
                        lemma_sym_escaped_push(cs@.subrange(1, i as int), d);
                        assert(cs@.subrange(1, i + 1) =~= cs@.subrange(1, i as int).push(d));
                    }
                    assert(out@ =~= start + sym_escaped(cs@.subrange(1, i + 1)));
                    i = i + 1;
                }
                assert(cs@.subrange(1, i as int) =~= rest);
                assert(final(out)@ =~= old(out)@ + render(e@));
            } else {
                assert(render(e@) =~= Seq::<char>::empty());
                assert(final(out)@ =~= old(out)@ + render(e@));
            }
        },
        Element::List(list) => {
            proof {
                lemma_list_view(*e);
            }
            out.push('(');
            push_rendered_items(list, out);
            out.push(')');
            assert(final(out)@ =~= old(out)@ + render(e@));
        },
    }
}

fn push_rendered_items(list: &Vec<Element>, out: &mut Vec<char>)
    ensures
        final(out)@ == old(out)@ + render_items(views(list@), 0),
    decreases list, 0int,
{
    let ghost l = views(list@);
    let mut i: usize = 0;
    assert(old(out)@ + render_items(l, 0) =~= out@ + render_items(l, 0));
    while i < list.len()
        invariant
            i <= list@.len(),
            l == views(list@),
            old(out)@ + render_items(l, 0) == out@ + render_items(l, i as int),
        decreases list@.len() - i,
    {
        let ghost prev = out@;
        out.push(' ');
        push_rendered(&list[i], out);
        assert(prev + render_items(l, i as int) =~= out@ + render_items(l, i + 1));
        i = i + 1;
    }
    assert(out@ + render_items(l, i as int) =~= out@);
}

/// The canonical text of a document of forms (see `render_items`).
pub fn render_document(forms: &Vec<Element>) -> (r: String)
    ensures
        r@ == render_items(views(forms@), 0),
{
    let mut out: Vec<char> = Vec::new();
    push_rendered_items(forms, &mut out);
    assert(out@ =~= render_items(views(forms@), 0));
    string_of(out.as_slice())
}

} // verus!

verus! {

proof fn lemma_canonical_items_all(l: Seq<Sexp>, k: int)
    requires
        0 <= k <= l.len(),
    ensures
        canonical_items(l, k) <==> forall|j: int| k <= j < l.len() ==> canonical(#[trigger] l[j]),
    decreases l.len() - k,
{
    if k < l.len() {
        lemma_canonical_items_all(l, k + 1);
    }
}

proof fn lemma_canonical_cons(x: Sexp, rest: Seq<Sexp>)
    requires
        canonical(x),
        canonical_items(rest, 0),
    ensures
        canonical_items(seq![x] + rest, 0),
{
    let l = seq![x] + rest;
    lemma_canonical_items_all(rest, 0);
    assert forall|j: int| 0 <= j < l.len() implies canonical(#[trigger] l[j]) by {
        if j > 0 {
            assert(l[j] == rest[j - 1]);
        }
    }
    lemma_canonical_items_all(l, 0);
}

proof fn lemma_symbol_canonical(s: Seq<char>, i: int, first: char)
    ensures
        canonical(symbol_at(s, i, first).0),
{
}

/// Every form that reading yields has non-empty symbols only.
pub proof fn lemma_element_canonical(s: Seq<char>, i: int)
    ensures
        parse_element_spec(s, i).0 matches Some(x) ==> canonical(x),
    decreases s.len() - i, 1int,
{
    let j = skip_ws(s, i, false);
    if !(j < i || j >= s.len() || i < 0) {
        let c = s[j];
        if c == '(' {
            lemma_list_canonical(s, j + 1);
        } else if c == '"' {
        } else if starts_integer(c) {
            lemma_symbol_canonical(s, j + 1, c);
        } else if c == ')' {
        } else {
            lemma_symbol_canonical(s, j + 1, c);
        }
    }
}

/// Every list that reading yields has non-empty symbols only.
pub proof fn lemma_list_canonical(s: Seq<char>, i: int)
    ensures
        canonical_items(parse_list_spec(s, i).0, 0),
    decreases s.len() - i, 2int,
{
    lemma_element_canonical(s, i);
    let (e, k) = parse_element_spec(s, i);
    match e {
        None => {},
        Some(x) => {
            if i < k <= s.len() {
                lemma_list_canonical(s, k);
                lemma_canonical_cons(x, parse_list_spec(s, k).0);
            } else {
                lemma_canonical_cons(x, Seq::empty());
            }
        },
    }
}

/// The top-level forms that reading yields have non-empty symbols only.
pub proof fn lemma_top_canonical(s: Seq<char>, i: int)
    ensures
        canonical_items(parse_top(s, i), 0),
    decreases s.len() - i,
{
    let j = skip_ws(s, i, false);
    if !(i < 0 || j >= s.len()) {
        let (e, k) = parse_element_spec(s, j);
        lemma_element_canonical(s, j);
        let rest = if i < k <= s.len() {
            lemma_top_canonical(s, k);
            parse_top(s, k)
        } else {
            Seq::empty()
        };
        match e {
            Some(x) => lemma_canonical_cons(x, rest),
            None => {},
        }
    }
}

/// Writing the forms read from any text as canonical text and reading that
/// again gives the same forms.
pub proof fn lemma_reader_round_trip(text: Seq<char>)
    ensures
        parse_top(render_items(parse_top(text, 0), 0), 0) == parse_top(text, 0),
{
    lemma_top_canonical(text, 0);
    lemma_read_rendered(parse_top(text, 0));
}

} // verus!
