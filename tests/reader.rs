use m17n_mim::element::Element;
use m17n_mim::im_info::{element_to_keyseq, load_im_info};
use m17n_mim::reader::parse_mim;
use m17n_mim::render::render_document;

fn sym(s: &str) -> Element {
    Element::Symbol(s.to_string())
}

fn string(s: &str) -> Element {
    Element::Str(s.to_string())
}

#[test]
fn reads_nested_lists_and_atoms() {
    let e = parse_mim("(a (b \"c\") 12) ; comment\n(d)");
    assert_eq!(
        e,
        Element::List(vec![
            Element::List(vec![
                sym("a"),
                Element::List(vec![sym("b"), string("c")]),
                Element::Int(12)
            ]),
            Element::List(vec![sym("d")]),
        ])
    );
}

#[test]
fn reads_integer_forms() {
    let e = parse_mim("#x1F 0x10 0 -42 ?a ?\\n - -x #y 007");
    assert_eq!(
        e,
        Element::List(vec![
            Element::Int(31),
            Element::Int(16),
            Element::Int(0),
            Element::Int(-42),
            Element::Int(97),
            Element::Int(10),
            sym("-"),
            sym("-x"),
            sym("#y"),
            Element::Int(7),
        ])
    );
}

#[test]
fn reads_string_escapes() {
    let e = parse_mim("\"a\\tb\\x41 C\\u0995\\\nd\\q\\e\"");
    assert_eq!(e, Element::List(vec![string("a\tbAC\u{995}dq\u{1b}")]));
}

#[test]
fn unterminated_string_keeps_what_was_read() {
    assert_eq!(parse_mim("(\"abc"), Element::List(vec![Element::List(vec![string("abc")])]));
}

#[test]
fn stray_close_paren_is_skipped() {
    assert_eq!(parse_mim(") a"), Element::List(vec![sym("a")]));
    assert_eq!(parse_mim(""), Element::List(vec![]));
    assert_eq!(parse_mim("  ; only a comment"), Element::List(vec![]));
}

#[test]
fn symbols_read_escapes() {
    assert_eq!(parse_mim("a\\ b\\n c"), Element::List(vec![sym("a b\n"), sym("c")]));
}

#[test]
fn keyseq_bytes_of_each_form() {
    assert_eq!(element_to_keyseq(&string("ক")), "ক".as_bytes().to_vec());
    assert_eq!(element_to_keyseq(&Element::Int(-120)), b"-120".to_vec());
    assert_eq!(element_to_keyseq(&Element::Int(7)), b"7".to_vec());
    assert_eq!(
        element_to_keyseq(&Element::List(vec![sym("a"), Element::Int(12), string("b")])),
        b"a12b".to_vec()
    );
}

#[test]
fn loader_keeps_states_in_order() {
    let im = load_im_info(parse_mim("(state (one (m1) (m2 \"x\")) (two)) (input-method ja anthy)"));
    assert_eq!(im.states.len(), 2);
    assert_eq!(im.states[0].name, "one");
    assert_eq!(im.states[1].name, "two");
    assert_eq!(im.states[0].branches.len(), 2);
    assert_eq!(im.states[0].branches[1].map_name, "m2");
    assert_eq!(im.states[0].branches[1].actions, vec![string("x")]);
    assert_eq!(im.lang, "ja");
    assert_eq!(im.name, "anthy");
}

#[test]
fn loader_compiles_maps() {
    let im = load_im_info(parse_mim("(map (m (\"ab\" \"X\" \"Y\")) (empty) (\"bad\")) (other 1)"));
    assert_eq!(im.maps.len(), 1);
    assert_eq!(im.maps[0].name, "m");
    let found = im.maps[0].table.lookup(b"ab");
    assert_eq!(found, Some(&Element::List(vec![string("X"), string("Y")])));
    assert_eq!(im.maps[0].table.lookup(b"a"), None);
}

#[test]
fn canonical_text_reads_back() {
    let doc = "(map (m (\"ab\" \"X\") (\"c\" (insert 5) -7 0)))\n; comment\n(state (init (m)))";
    let parsed = parse_mim(doc);
    let forms = match &parsed {
        Element::List(forms) => forms,
        _ => panic!("a document reads as a list"),
    };
    let text = render_document(forms);
    assert_eq!(text, " ( map ( m ( \"ab\" \"X\") ( \"c\" ( insert 5) -7 0))) ( state ( init ( m)))");
    assert_eq!(parse_mim(&text), parsed);
}

#[test]
fn canonical_text_escapes_quotes_and_backslashes() {
    let parsed = parse_mim("(\"say \\\"hi\\\" \\\\ \\x41 done\" -12)");
    let forms = match &parsed {
        Element::List(forms) => forms,
        _ => panic!("a document reads as a list"),
    };
    assert_eq!(forms[0], Element::List(vec![string("say \"hi\" \\ Adone"), Element::Int(-12)]));
    let text = render_document(forms);
    assert_eq!(text, " ( \"say \\\"hi\\\" \\\\ Adone\" -12)");
    assert_eq!(parse_mim(&text), parsed);
}

#[test]
fn canonical_text_escapes_symbols() {
    let parsed = parse_mim(r"(a\ b -x #y \1z \;c)");
    let forms = match &parsed {
        Element::List(forms) => forms,
        _ => panic!("a document reads as a list"),
    };
    assert_eq!(
        forms[0],
        Element::List(vec![sym("a b"), sym("-x"), sym("#y"), sym("1z"), sym(";c")])
    );
    let text = render_document(forms);
    assert_eq!(text, r" ( a\ b \-x \#y \1z \;c)");
    assert_eq!(parse_mim(&text), parsed);
}

#[test]
fn canonical_text_of_extreme_integers() {
    let parsed = parse_mim("-9223372036854775808 9223372036854775807 0");
    assert_eq!(
        parsed,
        Element::List(vec![Element::Int(i64::MIN), Element::Int(i64::MAX), Element::Int(0)])
    );
    let forms = match &parsed {
        Element::List(forms) => forms,
        _ => panic!("a document reads as a list"),
    };
    let text = render_document(forms);
    assert_eq!(text, " -9223372036854775808 9223372036854775807 0");
    assert_eq!(parse_mim(&text), parsed);
}

#[test]
fn loader_keeps_every_form() {
    let im = load_im_info(parse_mim(
        "(map (a (\"x\" \"X\"))) (state (one (a))) (map (b (\"y\" \"Y\"))) (state (two (b)))",
    ));
    assert_eq!(im.maps.len(), 2);
    assert_eq!(im.maps[0].name, "a");
    assert_eq!(im.maps[1].name, "b");
    assert_eq!(im.states.len(), 2);
    assert_eq!(im.states[0].name, "one");
    assert_eq!(im.states[1].name, "two");
}

#[test]
fn elements_clone_whole_trees() {
    let e = parse_mim("(a (b \"c\") 1)");
    let copy = e.clone();
    assert_eq!(copy, e);
}
