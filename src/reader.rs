use vstd::prelude::*;
use vstd::utf8::is_scalar;
use crate::context::{char_for, char_or_question};
use crate::element::{Element, Sexp, views, lemma_list_view};
use crate::text::{chars_of, string_of, is_digit};

verus! {

/// Whitespace: any character up to U+0020.
pub open spec fn is_ws(c: char) -> bool {
    c as u32 <= 32
}

/// The position after the whitespace and `;` comments that start at `i`.
pub open spec fn skip_ws(s: Seq<char>, i: int, in_comment: bool) -> int
    decreases s.len() - i,
{
    if i < 0 || i >= s.len() {
        i
    } else if in_comment {
        skip_ws(s, i + 1, s[i] != '\n')
    } else if is_ws(s[i]) {
        skip_ws(s, i + 1, false)
    } else if s[i] == ';' {
        skip_ws(s, i + 1, true)
    } else {
        i
    }
}

/// The character that an escape `\c` stands for.
pub open spec fn unescape(c: char) -> char {
    if c == 'e' {
        '\x1b'
    } else if c == 'b' {
        '\x08'
    } else if c == 'f' {
        '\x0c'
    } else if c == 'n' {
        '\n'
    } else if c == 'r' {
        '\r'
    } else if c == 't' {
        '\t'
    } else {
        c
    }
}

/// The value of a hexadecimal digit.
pub open spec fn hex_val(c: char) -> Option<u32> {
    if '0' <= c <= '9' {
        Some((c as u32 - '0' as u32) as u32)
    } else if 'A' <= c <= 'F' {
        Some((c as u32 - 'A' as u32 + 10) as u32)
    } else if 'a' <= c <= 'f' {
        Some((c as u32 - 'a' as u32 + 10) as u32)
    } else {
        None
    }
}

/// The run of hexadecimal digits at `i`, read into `acc` four bits at a time
/// (high bits fall off): its value and the position after it.
pub open spec fn hex_run(s: Seq<char>, i: int, acc: u32) -> (u32, int)
    decreases s.len() - i,
{
    if 0 <= i < s.len() && hex_val(s[i]) is Some {
        hex_run(s, i + 1, ((acc << 4u32) | hex_val(s[i])->0) as u32)
    } else {
        (acc, i)
    }
}

/// The run of decimal digits at `i`, read into `acc` with wrapping arithmetic:
/// its value and the position after it.
pub open spec fn dec_run(s: Seq<char>, i: int, acc: i64) -> (i64, int)
    decreases s.len() - i,
{
    if 0 <= i < s.len() && is_digit(s[i]) {
        dec_run(s, i + 1, acc.wrapping_mul(10).wrapping_add((s[i] as u32 - '0' as u32) as i64))
    } else {
        (acc, i)
    }
}

/// The body of a string literal from `i`, after its opening quote: its text and
/// the position after the closing quote (or the end).
pub open spec fn str_body(s: Seq<char>, i: int) -> (Seq<char>, int)
    decreases s.len() - i,
{
    if i < 0 || i >= s.len() {
        (Seq::empty(), s.len() as int)
    } else if s[i] == '"' {
        (Seq::empty(), i + 1)
    } else if s[i] == '\\' {
        if i + 1 >= s.len() {
            (Seq::empty(), s.len() as int)
        } else {
            let e = s[i + 1];
            if e == '\n' {
                str_body(s, i + 2)
            } else if e == 'x' || e == 'u' {
                let (code, j) = hex_run(s, i + 2, 0);
                let k = if j < s.len() && s[j] == ' ' {
                    j + 1
                } else {
                    j
                };
                if i < k <= s.len() {
                    let rest = str_body(s, k);
                    if is_scalar(code) {
                        (seq![char_for(code as int)] + rest.0, rest.1)
                    } else {
                        rest
                    }
                } else {
                    (Seq::empty(), s.len() as int)
                }
            } else {
                let rest = str_body(s, i + 2);
                (seq![unescape(e)] + rest.0, rest.1)
            }
        }
    } else {
        let rest = str_body(s, i + 1);
        (seq![s[i]] + rest.0, rest.1)
    }
}

/// A character that ends a symbol.
pub open spec fn is_delimiter(c: char) -> bool {
    is_ws(c) || c == ')' || c == '(' || c == '"'
}

/// The rest of a symbol from `i`: its text, with escapes read, and the position
/// after it.
pub open spec fn sym_body(s: Seq<char>, i: int) -> (Seq<char>, int)
    decreases s.len() - i,
{
    if i < 0 || i >= s.len() || is_delimiter(s[i]) {
        (Seq::empty(), i)
    } else if s[i] == '\\' {
        if i + 1 < s.len() {
            let rest = sym_body(s, i + 2);
            (seq![unescape(s[i + 1])] + rest.0, rest.1)
        } else {
            (Seq::empty(), s.len() as int)
        }
    } else {
        let rest = sym_body(s, i + 1);
        (seq![s[i]] + rest.0, rest.1)
    }
}

/// A symbol whose first character `first` stood before `i`.
pub open spec fn symbol_at(s: Seq<char>, i: int, first: char) -> (Sexp, int) {
    let (head, j) = if first == '\\' {
        if 0 <= i < s.len() {
            (unescape(s[i]), i + 1)
        } else {
            ('\\', i)
        }
    } else {
        (first, i)
    };
    let (rest, k) = sym_body(s, j);
    (Sexp::Sym(seq![head] + rest), k)
}

/// A character literal after its `?`: its code and the position after it.
pub open spec fn char_literal(s: Seq<char>, i: int) -> (i64, int) {
    if i < 0 || i >= s.len() {
        (0, i)
    } else if s[i] == '\\' {
        if i + 1 < s.len() {
            (unescape(s[i + 1]) as u32 as i64, i + 2)
        } else {
            ('\\' as u32 as i64, i + 1)
        }
    } else {
        (s[i] as u32 as i64, i + 1)
    }
}

pub open spec fn digit_of(c: char) -> i64 {
    (c as u32 - '0' as u32) as i64
}

/// A form that starts with a digit, `-`, `?` or `#` (`first`, before `i`).
pub open spec fn integer_at(s: Seq<char>, i: int, first: char) -> (Sexp, int) {
    let next_is_x = 0 <= i < s.len() && s[i] == 'x';
    if first == '#' {
        if next_is_x {
            let (v, j) = hex_run(s, i + 1, 0);
            (Sexp::Int(v as i64), j)
        } else {
            symbol_at(s, i, first)
        }
    } else if first == '0' && next_is_x {
        let (v, j) = hex_run(s, i + 1, 0);
        (Sexp::Int(v as i64), j)
    } else if first == '?' {
        let (v, j) = char_literal(s, i);
        (Sexp::Int(v), j)
    } else if first == '-' {
        if 0 <= i < s.len() && is_digit(s[i]) {
            let (v, j) = dec_run(s, i + 1, digit_of(s[i]));
            (Sexp::Int(0i64.wrapping_sub(v)), j)
        } else {
            symbol_at(s, i, first)
        }
    } else {
        let (v, j) = dec_run(s, i, digit_of(first));
        (Sexp::Int(v), j)
    }
}

pub open spec fn starts_integer(c: char) -> bool {
    is_digit(c) || c == '-' || c == '?' || c == '#'
}

/// The form that starts at or after `i`, and the position after it; `None` at the
/// end of the text and for a closing parenthesis.
pub open spec fn parse_element_spec(s: Seq<char>, i: int) -> (Option<Sexp>, int)
    decreases s.len() - i, 1int,
{
    let j = skip_ws(s, i, false);
    if j < i || j >= s.len() || i < 0 {
        (None, j)
    } else {
        let c = s[j];
        if c == '(' {
            let (items, k) = parse_list_spec(s, j + 1);
            (Some(Sexp::List(items)), k)
        } else if c == '"' {
            let (t, k) = str_body(s, j + 1);
            (Some(Sexp::Str(t)), k)
        } else if starts_integer(c) {
            let (e, k) = integer_at(s, j + 1, c);
            (Some(e), k)
        } else if c == ')' {
            (None, j + 1)
        } else {
            let (e, k) = symbol_at(s, j + 1, c);
            (Some(e), k)
        }
    }
}

/// The forms of a list from `i` up to its closing parenthesis (or the end), and
/// the position after it.
pub open spec fn parse_list_spec(s: Seq<char>, i: int) -> (Seq<Sexp>, int)
    decreases s.len() - i, 2int,
{
    let (e, k) = parse_element_spec(s, i);
    match e {
        None => (Seq::empty(), k),
        Some(x) => if i < k <= s.len() {
            let (rest, m) = parse_list_spec(s, k);
            (seq![x] + rest, m)
        } else {
            (seq![x], k)
        },
    }
}

/// The top-level forms of a document from `i`.
pub open spec fn parse_top(s: Seq<char>, i: int) -> Seq<Sexp>
    decreases s.len() - i,
{
    let j = skip_ws(s, i, false);
    if i < 0 || j >= s.len() {
        Seq::empty()
    } else {
        let (e, k) = parse_element_spec(s, j);
        let rest = if i < k <= s.len() {
            parse_top(s, k)
        } else {
            Seq::empty()
        };
        match e {
            Some(x) => seq![x] + rest,
            None => rest,
        }
    }
}

} // verus!

verus! {

/// Skips whitespace and `;` comments from `i`.
fn skip_whitespace_and_comments(s: &Vec<char>, i: usize) -> (r: usize)
    requires
        i <= s@.len(),
    ensures
        r as int == skip_ws(s@, i as int, false),
        i <= r <= s@.len(),
{
    let mut p = i;
    let mut in_comment = false;
    while p < s.len()
        invariant
            i <= p <= s@.len(),
            skip_ws(s@, i as int, false) == skip_ws(s@, p as int, in_comment),
        decreases s@.len() - p,
    {
        let c = s[p];
        if in_comment {
            in_comment = c != '\n';
        } else if c as u32 <= 32 {
        } else if c == ';' {
            in_comment = true;
        } else {
            return p;
        }
        p = p + 1;
    }
    p
}

/// The character that an escape `\c` stands for.
fn unescape_char(c: char) -> (r: char)
    ensures
        r == unescape(c),
{
    match c {
        'e' => '\x1b',
        'b' => '\x08',
        'f' => '\x0c',
        'n' => '\n',
        'r' => '\r',
        't' => '\t',
        _ => c,
    }
}

/// Reads the run of hexadecimal digits at `i` (see `hex_run`).
fn parse_hex_number(s: &Vec<char>, i: usize) -> (r: (u32, usize))
    requires
        i <= s@.len(),
    ensures
        (r.0, r.1 as int) == hex_run(s@, i as int, 0),
        i <= r.1 <= s@.len(),
{
    let mut num: u32 = 0;
    let mut p = i;
    while p < s.len()
        invariant
            i <= p <= s@.len(),
            hex_run(s@, i as int, 0) == hex_run(s@, p as int, num),
        decreases s@.len() - p,
    {
        let c = s[p];
        let digit: u32 = if '0' <= c && c <= '9' {
            c as u32 - '0' as u32
        } else if 'A' <= c && c <= 'F' {
            c as u32 - 'A' as u32 + 10
        } else if 'a' <= c && c <= 'f' {
            c as u32 - 'a' as u32 + 10
        } else {
            return (num, p);
        };
        assert(hex_val(c) == Some(digit));
        num = (num << 4u32) | digit;
        p = p + 1;
    }
    (num, p)
}

/// Reads the run of decimal digits at `i` after a first digit worth `first`
/// (see `dec_run`).
fn parse_decimal(s: &Vec<char>, i: usize, first: i64) -> (r: (i64, usize))
    requires
        i <= s@.len(),
    ensures
        (r.0, r.1 as int) == dec_run(s@, i as int, first),
        i <= r.1 <= s@.len(),
{
    let mut num = first;
    let mut p = i;
    while p < s.len()
        invariant
            i <= p <= s@.len(),
            dec_run(s@, i as int, first) == dec_run(s@, p as int, num),
        decreases s@.len() - p,
    {
        let c = s[p];
        if '0' <= c && c <= '9' {
            num = num.wrapping_mul(10).wrapping_add((c as u32 - '0' as u32) as i64);
            p = p + 1;
        } else {
            return (num, p);
        }
    }
    (num, p)
}

/// Reads a character literal after its `?` (see `char_literal`).
fn parse_char_literal(s: &Vec<char>, i: usize) -> (r: (i64, usize))
    requires
        i <= s@.len(),
    ensures
        (r.0, r.1 as int) == char_literal(s@, i as int),
        i <= r.1 <= s@.len(),
{
    if i >= s.len() {
        (0, i)
    } else if s[i] == '\\' {
        if i + 1 < s.len() {
            (unescape_char(s[i + 1]) as u32 as i64, i + 2)
        } else {
            ('\\' as u32 as i64, i + 1)
        }
    } else {
        (s[i] as u32 as i64, i + 1)
    }
}

/// Reads the rest of a symbol whose first character `first` stood before `i`.
fn parse_symbol(s: &Vec<char>, i: usize, first: char) -> (r: (Element, usize))
    requires
        i <= s@.len(),
    ensures
        (r.0@, r.1 as int) == symbol_at(s@, i as int, first),
        i <= r.1 <= s@.len(),
{
    let mut result: Vec<char> = Vec::new();
    let mut p = i;
    if first == '\\' {
        if p < s.len() {
            result.push(unescape_char(s[p]));
            p = p + 1;
        } else {
            result.push('\\');
        }
    } else {
        result.push(first);
    }
    let ghost j = p as int;
    let ghost head = result@;
    assert(head + sym_body(s@, j).0 == result@ + sym_body(s@, p as int).0);
    assert(symbol_at(s@, i as int, first) == (Sexp::Sym(head + sym_body(s@, j).0), sym_body(s@, j).1));
    while p < s.len()
        invariant
            symbol_at(s@, i as int, first) == (Sexp::Sym(head + sym_body(s@, j).0), sym_body(s@, j).1),
            j <= p <= s@.len(),
            i <= j,
            head + sym_body(s@, j).0 == result@ + sym_body(s@, p as int).0,
            sym_body(s@, j).1 == sym_body(s@, p as int).1,
        decreases s@.len() - p,
    {
        let c = s[p];
        if c as u32 <= 32 || c == ')' || c == '(' || c == '"' {
            assert(is_delimiter(s@[p as int]));
            assert(sym_body(s@, p as int) == (Seq::<char>::empty(), p as int));
            assert(result@ + sym_body(s@, p as int).0 =~= result@);
            let text = string_of(result.as_slice());
            return (Element::Symbol(text), p);
        }
        let ghost prev = result@;
        if c == '\\' {
            if p + 1 < s.len() {
                result.push(unescape_char(s[p + 1]));
                p = p + 2;
                assert(prev + sym_body(s@, p - 2).0 =~= result@ + sym_body(s@, p as int).0);
            } else {
                p = p + 1;
                assert(prev + sym_body(s@, p - 1).0 =~= result@ + sym_body(s@, p as int).0);
            }
        } else {
            result.push(c);
            p = p + 1;
            assert(prev + sym_body(s@, p - 1).0 =~= result@ + sym_body(s@, p as int).0);
        }
    }
    assert(result@ + sym_body(s@, p as int).0 =~= result@);
    let text = string_of(result.as_slice());
    (Element::Symbol(text), p)
}

} // verus!

verus! {

/// Reads a string literal after its opening quote (see `str_body`).
fn parse_string(s: &Vec<char>, i: usize) -> (r: (Element, usize))
    requires
        i <= s@.len(),
    ensures
        r.0@ == Sexp::Str(str_body(s@, i as int).0),
        r.1 as int == str_body(s@, i as int).1,
        i <= r.1 <= s@.len(),
{
    let mut result: Vec<char> = Vec::new();
    let mut p = i;
    let n = s.len();
    assert(result@ + str_body(s@, p as int).0 =~= str_body(s@, i as int).0);
    while p < n
        invariant
            n == s@.len(),
            i <= p <= n,
            result@ + str_body(s@, p as int).0 == str_body(s@, i as int).0,
            str_body(s@, p as int).1 == str_body(s@, i as int).1,
        decreases n - p,
    {
        let ghost prev = result@;
        let ghost q = p as int;
        let c = s[p];
        if c == '"' {
            assert(result@ + str_body(s@, p as int).0 =~= result@);
            let text = string_of(result.as_slice());
            return (Element::Str(text), p + 1);
        }
        if c == '\\' {
            if p + 1 >= n {
                p = n;
                assert(prev + str_body(s@, q).0 =~= result@ + str_body(s@, p as int).0);
            } else {
                let e = s[p + 1];
                if e == '\n' {
                    p = p + 2;
                } else if e == 'x' || e == 'u' {
                    let (code, j) = parse_hex_number(s, p + 2);
                    let k = if j < n && s[j] == ' ' {
                        j + 1
                    } else {
                        j
                    };
                    if 0xD800 <= code && code <= 0xDFFF || code > 0x10FFFF {
                        assert(!is_scalar(code));
                    } else {
                        assert(is_scalar(code));
                        result.push(char_or_question(code as i64));
                    }
                    p = k;
                    assert(prev + str_body(s@, q).0 =~= result@ + str_body(s@, p as int).0);
                } else {
                    result.push(unescape_char(e));
                    p = p + 2;
                    assert(prev + str_body(s@, q).0 =~= result@ + str_body(s@, p as int).0);
                }
            }
        } else {
            result.push(c);
            p = p + 1;
            assert(prev + str_body(s@, q).0 =~= result@ + str_body(s@, p as int).0);
        }
    }
    assert(result@ + str_body(s@, p as int).0 =~= result@);
    let text = string_of(result.as_slice());
    (Element::Str(text), p)
}

/// Reads a form that starts with a digit, `-`, `?` or `#` (see `integer_at`).
fn parse_integer(s: &Vec<char>, i: usize, first: char) -> (r: (Element, usize))
    requires
        i <= s@.len(),
        starts_integer(first),
    ensures
        (r.0@, r.1 as int) == integer_at(s@, i as int, first),
        i <= r.1 <= s@.len(),
{
    let next_is_x = i < s.len() && s[i] == 'x';
    if first == '#' {
        if next_is_x {
            let (v, j) = parse_hex_number(s, i + 1);
            (Element::Int(v as i64), j)
        } else {
            parse_symbol(s, i, first)
        }
    } else if first == '0' && next_is_x {
        let (v, j) = parse_hex_number(s, i + 1);
        (Element::Int(v as i64), j)
    } else if first == '?' {
        let (v, j) = parse_char_literal(s, i);
        (Element::Int(v), j)
    } else if first == '-' {
        if i < s.len() && '0' <= s[i] && s[i] <= '9' {
            let (v, j) = parse_decimal(s, i + 1, (s[i] as u32 - '0' as u32) as i64);
            (Element::Int(0i64.wrapping_sub(v)), j)
        } else {
            parse_symbol(s, i, first)
        }
    } else {
        let (v, j) = parse_decimal(s, i, (first as u32 - '0' as u32) as i64);
        (Element::Int(v), j)
    }
}

/// Reads the form at or after `i` (see `parse_element_spec`).
fn parse_element(s: &Vec<char>, i: usize) -> (r: (Option<Element>, usize))
    requires
        i <= s@.len(),
    ensures
        r.0 is Some <==> parse_element_spec(s@, i as int).0 is Some,
        r.0 matches Some(x) ==> x@ == parse_element_spec(s@, i as int).0->0,
        r.1 as int == parse_element_spec(s@, i as int).1,
        i <= r.1 <= s@.len(),
        r.0 is Some ==> i < r.1,
    decreases s@.len() - i, 1int,
{
    let j = skip_whitespace_and_comments(s, i);
    if j >= s.len() {
        return (None, j);
    }
    let c = s[j];
    if c == '(' {
        let (list, k) = parse_list(s, j + 1);
        (Some(list), k)
    } else if c == '"' {
        let (e, k) = parse_string(s, j + 1);
        (Some(e), k)
    } else if ('0' <= c && c <= '9') || c == '-' || c == '?' || c == '#' {
        let (e, k) = parse_integer(s, j + 1, c);
        (Some(e), k)
    } else if c == ')' {
        (None, j + 1)
    } else {
        let (e, k) = parse_symbol(s, j + 1, c);
        (Some(e), k)
    }
}

/// Reads the forms of a list up to its closing parenthesis (see `parse_list_spec`).
fn parse_list(s: &Vec<char>, i: usize) -> (r: (Element, usize))
    requires
        i <= s@.len(),
    ensures
        r.0@ == Sexp::List(parse_list_spec(s@, i as int).0),
        r.1 as int == parse_list_spec(s@, i as int).1,
        i <= r.1 <= s@.len(),
    decreases s@.len() - i, 2int,
{
    let mut elements: Vec<Element> = Vec::new();
    let mut p = i;
    assert(views(elements@) + parse_list_spec(s@, i as int).0 =~= parse_list_spec(s@, i as int).0);
    loop
        invariant
            i <= p <= s@.len(),
            views(elements@) + parse_list_spec(s@, p as int).0 == parse_list_spec(s@, i as int).0,
            parse_list_spec(s@, p as int).1 == parse_list_spec(s@, i as int).1,
        decreases s@.len() - p,
    {
        let ghost prev = views(elements@);
        let ghost q = p as int;
        let (e, k) = parse_element(s, p);
        match e {
            None => {
                let r = Element::List(elements);
                proof {
                    lemma_list_view(r);
                    assert(prev + parse_list_spec(s@, p as int).0 =~= prev);
                }
                return (r, k);
            },
            Some(x) => {
                elements.push(x);
                assert(views(elements@) =~= prev.push(x@));
                p = k;
                assert(views(elements@) + parse_list_spec(s@, p as int).0 =~= prev
                    + parse_list_spec(s@, q).0);
            },
        }
    }
}

} // verus!

verus! {

/// Reads a whole document: a list of its top-level forms.
pub fn parse_mim(input: &str) -> (r: Element)
    ensures
        r@ == Sexp::List(parse_top(input@, 0)),
{
    let s = chars_of(input);
    let mut result: Vec<Element> = Vec::new();
    let mut p: usize = 0;
    assert(views(result@) + parse_top(s@, 0) =~= parse_top(s@, 0));
    while p < s.len()
        invariant
            s@ == input@,
            p <= s@.len(),
            views(result@) + parse_top(s@, p as int) == parse_top(s@, 0),
        decreases s@.len() - p,
    {
        let ghost prev = views(result@);
        let ghost q = p as int;
        let j = skip_whitespace_and_comments(&s, p);
        if j >= s.len() {
            assert(prev + parse_top(s@, q) =~= prev);
            p = j;
            assert(parse_top(s@, p as int) =~= Seq::<Sexp>::empty());
        } else {
            let (e, k) = parse_element(&s, j);
            assert(skip_ws(s@, j as int, false) == j) by {
                lemma_skip_idempotent(s@, q);
            }
            match e {
                Some(x) => {
                    result.push(x);
                    assert(views(result@) =~= prev.push(x@));
                    assert(views(result@) + parse_top(s@, k as int) =~= prev + parse_top(s@, q));
                },
                None => {
                    assert(prev + parse_top(s@, k as int) =~= prev + parse_top(s@, q));
                },
            }
            p = k;
        }
    }
    assert(parse_top(s@, p as int) =~= Seq::<Sexp>::empty());
    assert(views(result@) + parse_top(s@, p as int) =~= views(result@));
    let r = Element::List(result);
    proof {
        lemma_list_view(r);
    }
    r
}

proof fn lemma_skip_from(s: Seq<char>, i: int, c: bool)
    requires
        0 <= i <= s.len(),
    ensures
        i <= skip_ws(s, i, c) <= s.len(),
        skip_ws(s, i, c) < s.len() ==> !is_ws(s[skip_ws(s, i, c)]) && s[skip_ws(s, i, c)] != ';',
    decreases s.len() - i,
{
    if i < s.len() {
        if c {
            lemma_skip_from(s, i + 1, s[i] != '\n');
        } else if is_ws(s[i]) {
            lemma_skip_from(s, i + 1, false);
        } else if s[i] == ';' {
            lemma_skip_from(s, i + 1, true);
        }
    }
}

proof fn lemma_skip_idempotent(s: Seq<char>, i: int)
    requires
        0 <= i <= s.len(),
    ensures
        skip_ws(s, skip_ws(s, i, false), false) == skip_ws(s, i, false),
{
    lemma_skip_from(s, i, false);
}

} // verus!
