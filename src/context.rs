use vstd::prelude::*;
use vstd::string::StringExecFns;
use vstd::utf8::is_scalar;
use crate::text::{chars_of, scalar_of, signed_value, text_is, parse_signed};
use crate::element::{Element, Sexp};

verus! {

/// The abstract state of one conversion.
pub struct CtxView {
    pub preedit: Seq<char>,
    pub cursor: int,
    pub committed: Seq<char>,
    pub vars: Map<Seq<char>, i64>,
    pub state: Seq<char>,
}

impl CtxView {
    /// The cursor lies inside the preedit.
    pub open spec fn wf(self) -> bool {
        0 <= self.cursor <= self.preedit.len()
    }

    /// `text` inserted at the cursor, which moves past it.
    pub open spec fn insert_text(self, text: Seq<char>) -> CtxView {
        CtxView {
            preedit: self.preedit.take(self.cursor) + text + self.preedit.skip(self.cursor),
            cursor: self.cursor + text.len(),
            ..self
        }
    }

    /// A relative position `k`, clamped to the preedit.
    pub open spec fn resolve(self, k: int) -> int {
        if self.cursor + k < 0 {
            0
        } else if self.cursor + k > self.preedit.len() {
            self.preedit.len() as int
        } else {
            self.cursor + k
        }
    }

    /// The text between the cursor and `p` removed.
    pub open spec fn delete_to(self, p: int) -> CtxView {
        if p < self.cursor {
            CtxView {
                preedit: self.preedit.take(p) + self.preedit.skip(self.cursor),
                cursor: p,
                ..self
            }
        } else if p > self.cursor {
            CtxView {
                preedit: self.preedit.take(self.cursor) + self.preedit.skip(p),
                ..self
            }
        } else {
            self
        }
    }

    /// The preedit moved to the committed text.
    pub open spec fn commit(self) -> CtxView {
        CtxView {
            preedit: Seq::empty(),
            cursor: 0,
            committed: self.committed + self.preedit,
            ..self
        }
    }

    /// The value of a variable; an unset one reads as zero.
    pub open spec fn var(self, name: Seq<char>) -> i64 {
        if self.vars.contains_key(name) {
            self.vars[name]
        } else {
            0
        }
    }

    /// The code of the character `k` places away from the cursor: left of it for
    /// negative `k`, at and right of it for positive `k`; zero when out of range,
    /// and -1 for `k == 0`.
    pub open spec fn char_at(self, k: int) -> i64 {
        if k == 0 {
            -1i64
        } else {
            let idx = if k < 0 {
                self.cursor + k
            } else {
                self.cursor + k - 1
            };
            if 0 <= idx < self.preedit.len() {
                self.preedit[idx] as u32 as i64
            } else {
                0i64
            }
        }
    }
}

/// The bindings of an association list; a later binding shadows an earlier one.
pub open spec fn vars_of(s: Seq<(String, i64)>) -> Map<Seq<char>, i64>
    decreases s.len(),
{
    if s.len() == 0 {
        Map::empty()
    } else {
        vars_of(s.drop_last()).insert(s.last().0@, s.last().1)
    }
}

proof fn lemma_char_inj(a: char, b: char)
    requires a as u32 == b as u32,
    ensures a == b,
{
}

pub open spec fn code_of(c: char) -> u32 {
    c as u32
}

/// The character with code `n`, or `?` where `n` is no Unicode scalar value.
pub open spec fn char_for(n: int) -> char {
    if 0 <= n <= u32::MAX && is_scalar(n as u32) {
        choose|c: char| #[trigger] code_of(c) == n
    } else {
        '?'
    }
}

/// The editing state of one conversion.
pub struct Context {
    pub preedit: Vec<char>,
    pub current_pos: usize,
    pub committed: Vec<char>,
    pub variables: Vec<(String, i64)>,
    pub current_state: String,
}

/// The character with code `n`, or `?` where `n` is no Unicode scalar value.
pub fn char_or_question(n: i64) -> (r: char)
    ensures
        r == char_for(n as int),
{
    if 0 <= n && n <= 0x10FFFF {
        match scalar_of(n as u32) {
            Some(c) => {
                proof {
                    assert(code_of(c) == n);
                    let d = choose|d: char| #[trigger] code_of(d) == n;
                    lemma_char_inj(c, d);
                }
                c
            },
            None => '?',
        }
    } else {
        '?'
    }
}

impl Context {
    pub open spec fn view(&self) -> CtxView {
        CtxView {
            preedit: self.preedit@,
            cursor: self.current_pos as int,
            committed: self.committed@,
            vars: vars_of(self.variables@),
            state: self.current_state@,
        }
    }

    pub open spec fn wf(&self) -> bool {
        self@.wf()
    }

    /// A fresh context in the given state.
    pub fn new(initial_state: String) -> (r: Context)
        ensures
            r@ == (CtxView {
                preedit: Seq::empty(),
                cursor: 0,
                committed: Seq::empty(),
                vars: Map::empty(),
                state: initial_state@,
            }),
            r.wf(),
    {
        Context {
            preedit: Vec::new(),
            current_pos: 0,
            committed: Vec::new(),
            variables: Vec::new(),
            current_state: initial_state,
        }
    }

    /// Inserts one character at the cursor and moves past it.
    pub fn insert_char(&mut self, ch: char)
        requires
            old(self).wf(),
        ensures
            final(self)@ == old(self)@.insert_text(seq![ch]),
            final(self).wf(),
    {
        let ghost pre = self.preedit@;
        let ghost c = self.current_pos as int;
        self.preedit.insert(self.current_pos, ch);
        let n = self.preedit.len();
        assert(self.current_pos < n);
        self.current_pos = self.current_pos + 1;
        assert(self.preedit@ =~= pre.take(c) + seq![ch] + pre.skip(c));
    }

    /// Inserts the characters of `text` at the cursor and moves past them.
    pub fn insert(&mut self, text: &str)
        requires
            old(self).wf(),
        ensures
            final(self)@ == old(self)@.insert_text(text@),
            final(self).wf(),
    {
        let cs = chars_of(text);
        let mut i: usize = 0;
        let ghost start = self@;
        assert(start.preedit.take(start.cursor) + cs@.take(0) + start.preedit.skip(start.cursor)
            =~= start.preedit);
        assert(start.insert_text(cs@.take(0)) == start);
        while i < cs.len()
            invariant
                i <= cs@.len(),
                cs@ == text@,
                start.wf(),
                self.wf(),
                self@ == start.insert_text(cs@.take(i as int)),
            decreases cs@.len() - i,
        {
            self.insert_char(cs[i]);
            assert(cs@.take(i + 1) =~= cs@.take(i as int) + seq![cs@[i as int]]);
            assert(self@.preedit =~= start.insert_text(cs@.take(i + 1)).preedit);
            i = i + 1;
        }
        assert(cs@.take(i as int) =~= text@);
    }

    /// The position `pos` places from the cursor, clamped to the preedit.
    pub fn resolve_position(&self, pos: i64) -> (r: usize)
        requires
            self.wf(),
        ensures
            r as int == self@.resolve(pos as int),
    {
        let target = self.current_pos as i128 + pos as i128;
        if target < 0 {
            0
        } else if target > self.preedit.len() as i128 {
            self.preedit.len()
        } else {
            target as usize
        }
    }

    /// Removes the text between the cursor and position `pos`; the cursor ends at
    /// the start of the removed run.
    pub fn delete(&mut self, pos: i64)
        requires
            old(self).wf(),
        ensures
            final(self)@ == old(self)@.delete_to(old(self)@.resolve(pos as int)),
            final(self).wf(),
    {
        let target = self.resolve_position(pos);
        let ghost pre = self.preedit@;
        if target < self.current_pos {
            let count = self.current_pos - target;
            let mut m: usize = 0;
            assert(pre =~= pre.take(target as int) + pre.skip(target as int));
            while m < count
                invariant
                    target + count <= pre.len(),
                    m <= count,
                    self.committed@ == old(self).committed@,
                    self.variables@ == old(self).variables@,
                    self.current_state@ == old(self).current_state@,
                    self.current_pos == old(self).current_pos,
                    self.preedit@ == pre.take(target as int) + pre.skip(target + m),
                decreases count - m,
            {
                self.preedit.remove(target);
                m = m + 1;
                assert(self.preedit@ =~= pre.take(target as int) + pre.skip(target + m));
            }
            self.current_pos = target;
            assert(self@.preedit == old(self)@.delete_to(target as int).preedit);
        } else if target > self.current_pos {
            let c = self.current_pos;
            let count = target - c;
            let mut m: usize = 0;
            assert(pre =~= pre.take(c as int) + pre.skip(c as int));
            while m < count
                invariant
                    c + count <= pre.len(),
                    m <= count,
                    self.committed@ == old(self).committed@,
                    self.variables@ == old(self).variables@,
                    self.current_state@ == old(self).current_state@,
                    self.current_pos == old(self).current_pos,
                    self.preedit@ == pre.take(c as int) + pre.skip(c + m),
                decreases count - m,
            {
                self.preedit.remove(c);
                m = m + 1;
                assert(self.preedit@ =~= pre.take(c as int) + pre.skip(c + m));
            }
            assert(self@.preedit == old(self)@.delete_to(target as int).preedit);
        }
    }

    /// Moves the cursor `pos` places, clamped to the preedit.
    pub fn move_pos(&mut self, pos: i64)
        requires
            old(self).wf(),
        ensures
            final(self)@ == (CtxView { cursor: old(self)@.resolve(pos as int), ..old(self)@ }),
            final(self).wf(),
    {
        self.current_pos = self.resolve_position(pos);
    }

    /// The code of the character `pos` places from the cursor (see `CtxView::char_at`).
    pub fn get_char_at(&self, pos: i64) -> (r: i64)
        requires
            self.wf(),
        ensures
            r == self@.char_at(pos as int),
    {
        if pos == 0 {
            return -1;
        }
        let idx: i128 = if pos < 0 {
            self.current_pos as i128 + pos as i128
        } else {
            self.current_pos as i128 + pos as i128 - 1
        };
        if 0 <= idx && idx < self.preedit.len() as i128 {
            self.preedit[idx as usize] as u32 as i64
        } else {
            0
        }
    }

    /// Appends the preedit to the committed text and empties it.
    pub fn commit(&mut self)
        ensures
            final(self)@ == old(self)@.commit(),
            final(self).wf(),
    {
        self.committed.append(&mut self.preedit);
        self.current_pos = 0;
    }

    /// Binds `name` to `value`.
    pub fn set_var(&mut self, name: &str, value: i64)
        ensures
            final(self)@ == (CtxView { vars: old(self)@.vars.insert(name@, value), ..old(self)@ }),
    {
        self.variables.push((String::from_str(name), value));
        assert(self.variables@.drop_last() =~= old(self).variables@);
    }

    /// The value bound to `name`, or zero.
    pub fn get_var(&self, name: &str) -> (r: i64)
        ensures
            r == self@.var(name@),
    {
        let mut i = self.variables.len();
        assert(self.variables@.take(i as int) =~= self.variables@);
        while i > 0
            invariant
                i <= self.variables@.len(),
                vars_of(self.variables@).contains_key(name@) == vars_of(
                    self.variables@.take(i as int),
                ).contains_key(name@),
                vars_of(self.variables@).contains_key(name@) ==> vars_of(self.variables@)[name@]
                    == vars_of(self.variables@.take(i as int))[name@],
            decreases i,
        {
            let ghost t = self.variables@.take(i as int);
            assert(t.drop_last() =~= self.variables@.take(i - 1));
            if crate::text::text_is(self.variables[i - 1].0.as_str(), name) {
                return self.variables[i - 1].1;
            }
            i = i - 1;
        }
        assert(self.variables@.take(0) =~= Seq::<(String, i64)>::empty());
        0
    }
}

} // verus!

verus! {

/// The result of operator `op` on the values of its first two operands `a` and
/// `b`, in a form of `n` elements.
pub open spec fn apply_op(op: Seq<char>, n: int, a: i64, b: i64) -> i64 {
    if n > 2 && op == "+"@ {
        a.wrapping_add(b)
    } else if n > 2 && op == "-"@ {
        a.wrapping_sub(b)
    } else if n > 2 && op == "*"@ {
        a.wrapping_mul(b)
    } else if n > 2 && op == "/"@ {
        match a.checked_div(b) {
            Some(q) => q,
            None => 0,
        }
    } else if n > 2 && op == "&"@ {
        a & b
    } else if n > 2 && op == "|"@ {
        a | b
    } else if n > 2 && (op == "=="@ || op == "="@) {
        if a == b { 1 } else { 0 }
    } else if n > 2 && op == "<"@ {
        if a < b { 1 } else { 0 }
    } else if n > 2 && op == ">"@ {
        if a > b { 1 } else { 0 }
    } else if n > 2 && op == "<="@ {
        if a <= b { 1 } else { 0 }
    } else if n > 2 && op == ">="@ {
        if a >= b { 1 } else { 0 }
    } else if n > 1 && op == "!"@ {
        if a == 0 { 1 } else { 0 }
    } else {
        0
    }
}

/// A symbol that names a character near the cursor: `@-K` or `@+K`.
pub open spec fn is_char_ref(s: Seq<char>) -> bool {
    s.len() >= 2 && s[0] == '@' && (s[1] == '-' || s[1] == '+')
}

/// The value of an expression in a context.
pub open spec fn eval(c: CtxView, e: Sexp) -> i64
    decreases e,
{
    match e {
        Sexp::Int(n) => n,
        Sexp::Sym(s) => if is_char_ref(s) {
            c.char_at(
                match signed_value(s.drop_first()) {
                    Some(k) => k,
                    None => 0,
                },
            )
        } else {
            c.var(s)
        },
        Sexp::List(l) => if l.len() > 0 && l[0] is Sym {
            let a = if l.len() > 1 { eval(c, l[1]) } else { 0 };
            let b = if l.len() > 2 { eval(c, l[2]) } else { 0 };
            apply_op(l[0]->Sym_0, l.len() as int, a, b)
        } else {
            0
        },
        Sexp::Str(_) => 0,
    }
}

/// A position argument of `delete` and `move`, as an offset from the cursor:
/// `@<` and `@>` are the farthest offsets, which reach the start and the end.
pub open spec fn pos_arg(e: Sexp) -> Option<int> {
    match e {
        Sexp::Sym(s) => if s == "@<"@ {
            Some(i64::MIN as int)
        } else if s == "@>"@ {
            Some(i64::MAX as int)
        } else if s == "@-"@ {
            Some(-1)
        } else if s == "@+"@ {
            Some(1)
        } else {
            None
        },
        Sexp::Int(i) => Some(i as int),
        _ => None,
    }
}

/// What an action does to a context.
pub open spec fn run_action(c: CtxView, a: Sexp) -> CtxView
    decreases a, 0int,
{
    match a {
        Sexp::Str(s) => c.insert_text(s),
        Sexp::Int(n) => c.insert_text(seq![char_for(n as int)]),
        Sexp::List(l) => if l.len() > 0 && l[0] is Sym {
            let cmd = l[0]->Sym_0;
            if cmd == "insert"@ {
                if l.len() > 1 {
                    match l[1] {
                        Sexp::Str(s) => c.insert_text(s),
                        Sexp::Int(n) => c.insert_text(seq![char_for(n as int)]),
                        Sexp::Sym(v) => if c.var(v) > 0 {
                            c.insert_text(seq![char_for(c.var(v) as int)])
                        } else {
                            c
                        },
                        Sexp::List(_) => c,
                    }
                } else {
                    c
                }
            } else if cmd == "delete"@ {
                if l.len() > 1 && pos_arg(l[1]) is Some {
                    c.delete_to(c.resolve(pos_arg(l[1])->0))
                } else {
                    c
                }
            } else if cmd == "move"@ {
                if l.len() > 1 && pos_arg(l[1]) is Some {
                    CtxView { cursor: c.resolve(pos_arg(l[1])->0), ..c }
                } else {
                    c
                }
            } else if cmd == "set"@ {
                if l.len() > 2 && l[1] is Sym {
                    CtxView { vars: c.vars.insert(l[1]->Sym_0, eval(c, l[2])), ..c }
                } else {
                    c
                }
            } else if cmd == "shift"@ {
                if l.len() > 1 && l[1] is Sym {
                    CtxView { state: l[1]->Sym_0, ..c }
                } else {
                    c
                }
            } else if cmd == "commit"@ {
                c.commit()
            } else if cmd == "cond"@ {
                run_cond(c, l, 1)
            } else {
                c
            }
        } else {
            c
        },
        Sexp::Sym(_) => c,
    }
}

/// The clauses `clauses[i..]` of a `cond`: the actions of the first clause whose
/// predicate is non-zero.
pub open spec fn run_cond(c: CtxView, clauses: Seq<Sexp>, i: int) -> CtxView
    decreases clauses, clauses.len() - i,
{
    if i < 0 || i >= clauses.len() {
        c
    } else {
        match clauses[i] {
            Sexp::List(b) => if b.len() > 0 && eval(c, b[0]) != 0 {
                run_items(c, b, 1)
            } else {
                run_cond(c, clauses, i + 1)
            },
            _ => run_cond(c, clauses, i + 1),
        }
    }
}

/// The actions `items[i..]`, in order.
pub open spec fn run_items(c: CtxView, items: Seq<Sexp>, i: int) -> CtxView
    decreases items, items.len() - i,
{
    if i < 0 || i >= items.len() {
        c
    } else {
        run_items(run_action(c, items[i]), items, i + 1)
    }
}

} // verus!

verus! {

/// `apply_op` on values already computed.
fn apply_op_exec(op: &str, n: usize, a: i64, b: i64) -> (r: i64)
    ensures
        r == apply_op(op@, n as int, a, b),
{
    if n > 2 && text_is(op, "+") {
        a.wrapping_add(b)
    } else if n > 2 && text_is(op, "-") {
        a.wrapping_sub(b)
    } else if n > 2 && text_is(op, "*") {
        a.wrapping_mul(b)
    } else if n > 2 && text_is(op, "/") {
        match a.checked_div(b) {
            Some(q) => q,
            None => 0,
        }
    } else if n > 2 && text_is(op, "&") {
        a & b
    } else if n > 2 && text_is(op, "|") {
        a | b
    } else if n > 2 && (text_is(op, "==") || text_is(op, "=")) {
        if a == b { 1 } else { 0 }
    } else if n > 2 && text_is(op, "<") {
        if a < b { 1 } else { 0 }
    } else if n > 2 && text_is(op, ">") {
        if a > b { 1 } else { 0 }
    } else if n > 2 && text_is(op, "<=") {
        if a <= b { 1 } else { 0 }
    } else if n > 2 && text_is(op, ">=") {
        if a >= b { 1 } else { 0 }
    } else if n > 1 && text_is(op, "!") {
        if a == 0 { 1 } else { 0 }
    } else {
        0
    }
}

impl Context {
    /// The position argument of `delete` and `move` (see `pos_arg`).
    pub fn resolve_pos_arg(&self, arg: &Element) -> (r: Option<i64>)
        ensures
            r is Some <==> pos_arg(arg@) is Some,
            r matches Some(k) ==> k as int == pos_arg(arg@)->0,
    {
        match arg {
            Element::Symbol(s) => {
                if text_is(s.as_str(), "@<") {
                    Some(i64::MIN)
                } else if text_is(s.as_str(), "@>") {
                    Some(i64::MAX)
                } else if text_is(s.as_str(), "@-") {
                    Some(-1)
                } else if text_is(s.as_str(), "@+") {
                    Some(1)
                } else {
                    None
                }
            },
            Element::Int(i) => Some(*i),
            _ => None,
        }
    }

    /// The value of an expression (see `eval`).
    pub fn eval_expr(&self, expr: &Element) -> (r: i64)
        requires
            self.wf(),
        ensures
            r == eval(self@, expr@),
        decreases expr,
    {
        match expr {
            Element::Int(i) => {
                assert(expr@ == Sexp::Int(*i));
                *i
            },
            Element::Symbol(s) => {
                let cs = chars_of(s.as_str());
                if cs.len() >= 2 && cs[0] == '@' && (cs[1] == '-' || cs[1] == '+') {
                    let k: i64 = match parse_signed(cs.as_slice(), 1) {
                        Some(k) => k as i64,
                        None => 0,
                    };
                    assert(cs@.skip(1) =~= s@.drop_first());
                    assert(is_char_ref(s@));
                    self.get_char_at(k)
                } else {
                    self.get_var(s.as_str())
                }
            },
            Element::List(list) => {
                assert(expr@ is List);
                let ghost l = expr@->List_0;
                assert(l.len() == list@.len());
                if list.len() == 0 {
                    return 0;
                }
                assert(l[0] == list@[0]@);
                match &list[0] {
                    Element::Symbol(op) => {
                        let a = if list.len() > 1 {
                            self.eval_expr(&list[1])
                        } else {
                            0
                        };
                        let b = if list.len() > 2 {
                            self.eval_expr(&list[2])
                        } else {
                            0
                        };
                        apply_op_exec(op.as_str(), list.len(), a, b)
                    },
                    _ => 0,
                }
            },
            Element::Str(_) => 0,
        }
    }

    /// Inserts the character with code `n`, or `?` where there is none.
    fn insert_code(&mut self, n: i64)
        requires
            old(self).wf(),
        ensures
            final(self)@ == old(self)@.insert_text(seq![char_for(n as int)]),
            final(self).wf(),
    {
        self.insert_char(char_or_question(n));
    }

    /// Performs one action (see `run_action`).
    pub fn execute_action(&mut self, action: &Element)
        requires
            old(self).wf(),
        ensures
            final(self)@ == run_action(old(self)@, action@),
            final(self).wf(),
        decreases action,
    {
        match action {
            Element::Str(s) => {
                assert(action@ == Sexp::Str(s@));
                self.insert(s.as_str())
            },
            Element::Int(n) => {
                assert(action@ == Sexp::Int(*n));
                self.insert_code(*n)
            },
            Element::List(list) => {
                assert(action@ is List);
                assert(action@->List_0.len() == list@.len());
                if list.len() == 0 {
                    return;
                }
                assert(action@->List_0[0] == list@[0]@);
                assert(list@.len() > 1 ==> action@->List_0[1] == list@[1]@);
                assert(list@.len() > 2 ==> action@->List_0[2] == list@[2]@);
                let cmd = match &list[0] {
                    Element::Symbol(cmd) => cmd,
                    _ => {
                        return;
                    },
                };
                if text_is(cmd.as_str(), "insert") {
                    if list.len() > 1 {
                        match &list[1] {
                            Element::Str(s) => self.insert(s.as_str()),
                            Element::Int(n) => self.insert_code(*n),
                            Element::Symbol(var) => {
                                let val = self.get_var(var.as_str());
                                if val > 0 {
                                    self.insert_code(val);
                                }
                            },
                            Element::List(_) => {},
                        }
                    }
                } else if text_is(cmd.as_str(), "delete") {
                    if list.len() > 1 {
                        if let Some(pos) = self.resolve_pos_arg(&list[1]) {
                            self.delete(pos);
                        }
                    }
                } else if text_is(cmd.as_str(), "move") {
                    if list.len() > 1 {
                        if let Some(pos) = self.resolve_pos_arg(&list[1]) {
                            self.move_pos(pos);
                        }
                    }
                } else if text_is(cmd.as_str(), "set") {
                    if list.len() > 2 {
                        if let Element::Symbol(var) = &list[1] {
                            let value = self.eval_expr(&list[2]);
                            self.set_var(var.as_str(), value);
                        }
                    }
                } else if text_is(cmd.as_str(), "shift") {
                    if list.len() > 1 {
                        if let Element::Symbol(state) = &list[1] {
                            self.current_state = state.clone();
                        }
                    }
                } else if text_is(cmd.as_str(), "commit") {
                    self.commit();
                } else if text_is(cmd.as_str(), "cond") {
                    let ghost l = action@->List_0;
                    let ghost start = self@;
                    assert(run_action(start, action@) == run_cond(start, l, 1));
                    let mut i: usize = 1;
                    while i < list.len()
                        invariant
                            1 <= i <= list@.len(),
                            l == action@->List_0,
                            action@ is List,
                            l.len() == list@.len(),
                            forall|j: int| 0 <= j < list@.len() ==> l[j] == (#[trigger] list@[j])@,
                            self@ == start,
                            self.wf(),
                            run_cond(start, l, 1) == run_cond(start, l, i as int),
                            run_action(start, action@) == run_cond(start, l, 1),
                            *action == Element::List(*list),
                            start == old(self)@,
                        decreases list@.len() - i,
                    {
                        if let Element::List(branch) = &list[i] {
                            if branch.len() > 0 {
                                let v = self.eval_expr(&branch[0]);
                                if v != 0 {
                                    let ghost b = l[i as int]->List_0;
                                    assert(l[i as int] == list@[i as int]@);
                                    assert(b.len() == branch@.len());
                                    assert(b[0] == branch@[0]@);
                                    assert(forall|k: int| 0 <= k < branch@.len() ==> b[k] == (#[trigger] branch@[k])@);
                                    assert(run_cond(start, l, i as int) == run_items(start, b, 1));
                                    let mut j: usize = 1;
                                    while j < branch.len()
                                        invariant
                                            1 <= j <= branch@.len(),
                                            b.len() == branch@.len(),
                                            forall|k: int| 0 <= k < branch@.len() ==> b[k] == (#[trigger] branch@[k])@,
                                            self.wf(),
                                            run_items(start, b, 1) == run_items(self@, b, j as int),
                                            run_cond(start, l, 1) == run_items(start, b, 1),
                                            run_action(start, action@) == run_cond(start, l, 1),
                                            i < list@.len(),
                                            list@[i as int] == Element::List(*branch),
                                            *action == Element::List(*list),
                            start == old(self)@,
                                        decreases branch@.len() - j,
                                    {
                                        proof {
                                            assert(decreases_to!(action => list@[i as int]));
                                            assert(decreases_to!(list@[i as int] => list@[i as int]->List_0));
                                            assert(list@[i as int]->List_0 == *branch);
                                            assert(decreases_to!(*branch => branch[j as int]));
                                        }
                                        self.execute_action(&branch[j]);
                                        j = j + 1;
                                    }
                                    return;
                                }
                            }
                        }
                        i = i + 1;
                    }
                }
            },
            Element::Symbol(_) => {},
        }
    }

    /// Performs the actions `items[from..]` in order.
    pub fn run_actions(&mut self, items: &Vec<Element>, from: usize)
        requires
            old(self).wf(),
        ensures
            final(self)@ == run_items(old(self)@, Seq::new(items@.len(), |i: int| items@[i]@), from as int),
            final(self).wf(),
    {
        let ghost s = Seq::new(items@.len(), |i: int| items@[i]@);
        let ghost start = self@;
        let mut j = from;
        while j < items.len()
            invariant
                s == Seq::new(items@.len(), |i: int| items@[i]@),
                self.wf(),
                from <= j,
                run_items(start, s, from as int) == run_items(self@, s, j as int),
            decreases items@.len() - j,
        {
            self.execute_action(&items[j]);
            j = j + 1;
        }
    }
}

} // verus!

verus! {

/// Actions keep the cursor inside the preedit and only ever extend the
/// committed text.
pub proof fn lemma_action_keeps_invariants(c: CtxView, a: Sexp)
    requires
        c.wf(),
    ensures
        run_action(c, a).wf(),
        c.committed.is_prefix_of(run_action(c, a).committed),
    decreases a, 0int,
{
    match a {
        Sexp::List(l) => {
            if l.len() > 0 && l[0] is Sym && l[0]->Sym_0 == "cond"@ {
                lemma_cond_keeps_invariants(c, l, 1);
            }
            if l.len() > 1 && pos_arg(l[1]) is Some {
                let p = c.resolve(pos_arg(l[1])->0);
                assert(c.delete_to(p).wf());
            }
            assert(c.commit().committed =~= c.committed + c.preedit);
        },
        _ => {},
    }
}

proof fn lemma_cond_keeps_invariants(c: CtxView, clauses: Seq<Sexp>, i: int)
    requires
        c.wf(),
    ensures
        run_cond(c, clauses, i).wf(),
        c.committed.is_prefix_of(run_cond(c, clauses, i).committed),
    decreases clauses, clauses.len() - i,
{
    if 0 <= i < clauses.len() {
        match clauses[i] {
            Sexp::List(b) => {
                if b.len() > 0 && eval(c, b[0]) != 0 {
                    lemma_items_keep_invariants(c, b, 1);
                } else {
                    lemma_cond_keeps_invariants(c, clauses, i + 1);
                }
            },
            _ => lemma_cond_keeps_invariants(c, clauses, i + 1),
        }
    }
}

/// A run of actions keeps the cursor inside the preedit and only ever extends
/// the committed text.
pub proof fn lemma_items_keep_invariants(c: CtxView, items: Seq<Sexp>, i: int)
    requires
        c.wf(),
    ensures
        run_items(c, items, i).wf(),
        c.committed.is_prefix_of(run_items(c, items, i).committed),
    decreases items, items.len() - i,
{
    if 0 <= i < items.len() {
        let c1 = run_action(c, items[i]);
        lemma_action_keeps_invariants(c, items[i]);
        lemma_items_keep_invariants(c1, items, i + 1);
    }
}

/// Division by zero evaluates to zero.
pub proof fn lemma_division_by_zero(c: CtxView, e: Sexp)
    requires
        e is List,
        e->List_0.len() > 2,
        e->List_0[0] == Sexp::Sym("/"@),
        eval(c, e->List_0[2]) == 0,
    ensures
        eval(c, e) == 0,
{
    let l = e->List_0;
    let a = eval(c, l[1]);
    assert(a.checked_div(0i64) is None);
    reveal_strlit("/");
    reveal_strlit("+");
    reveal_strlit("-");
    reveal_strlit("*");
    assert("/"@[0] == '/' && "+"@[0] == '+' && "-"@[0] == '-' && "*"@[0] == '*');
    assert("/"@ != "+"@ && "/"@ != "-"@ && "/"@ != "*"@);
}

/// Looking one character left of a cursor at the start finds nothing: `@-1`
/// evaluates to zero, not to the -1 that stands for surrounding text.
pub proof fn lemma_char_before_start(c: CtxView)
    requires
        c.wf(),
        c.cursor == 0,
    ensures
        c.char_at(-1) == 0,
        eval(c, Sexp::Sym("@-1"@)) == 0,
{
    reveal_strlit("@-1");
    let s = "@-1"@;
    let t = s.drop_first();
    assert(t =~= seq!['-', '1']);
    let body = crate::text::unsigned_part(t);
    assert(body =~= seq!['1']);
    assert(body.drop_last() =~= Seq::<char>::empty());
    assert(crate::text::digits_value(body.drop_last()) == 0);
    assert(body.last() == '1');
    assert(crate::text::digits_value(body) == 1);
    assert(crate::text::all_digits(body));
    assert(signed_value(t) == Some(-1int));
}

} // verus!
