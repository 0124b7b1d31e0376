use m17n_mim::engine::M17nMim;

const BASIC: &str = r#"(map (m ("a" "A") ("ab" "AB"))) (state (s (m)))"#;

fn basic() -> M17nMim {
    M17nMim::new(BASIC)
}

#[test]
fn single_key_converts() {
    assert_eq!(basic().convert("a"), "A");
}

#[test]
fn longest_match_wins() {
    assert_eq!(basic().convert("ab"), "AB");
}

#[test]
fn shorter_match_then_pass_through() {
    assert_eq!(basic().convert("ac"), "Ac");
}

#[test]
fn pass_through_then_match() {
    assert_eq!(basic().convert("xa"), "xA");
}

#[test]
fn empty_input_gives_empty_output() {
    assert_eq!(basic().convert(""), "");
}

#[test]
fn unmatched_text_passes_through() {
    assert_eq!(basic().convert("xyz, 12!"), "xyz, 12!");
    assert_eq!(basic().convert("আমার"), "আমার");
}

#[test]
fn conversion_is_repeatable() {
    let mim = basic();
    assert_eq!(mim.convert("abacab"), mim.convert("abacab"));
    assert_eq!(mim.convert("abacab"), "ABAcAB");
}

#[test]
fn set_and_cond_scenario() {
    let doc = r#"(map (m ("k" (set v 1) (insert "K")) ("l" (cond ((= v 1) (insert "L"))))))
(state (init (m)))"#;
    let mim = M17nMim::new(doc);
    assert_eq!(mim.convert("kl"), "KL");
    assert_eq!(mim.convert("l"), "");
}

#[test]
fn keyseq_longer_than_ten_never_matches() {
    let doc = r#"(map (m ("aaaaaaaaaaa" "LONG") ("aaaaaaaaaa" "TEN"))) (state (init (m)))"#;
    let mim = M17nMim::new(doc);
    assert_eq!(mim.convert("aaaaaaaaaaa"), "TENa");
    let only_long = M17nMim::new(r#"(map (m ("bbbbbbbbbbb" "LONG"))) (state (init (m)))"#);
    assert_eq!(only_long.convert("bbbbbbbbbbb"), "bbbbbbbbbbb");
}

#[test]
fn earlier_branch_wins() {
    let doc = r#"(map (one ("a" "1")) (two ("ab" "2")))
(state (init (one) (two)))"#;
    let mim = M17nMim::new(doc);
    assert_eq!(mim.convert("ab"), "1b");
    let swapped = M17nMim::new(r#"(map (one ("a" "1")) (two ("ab" "2"))) (state (init (two) (one)))"#);
    assert_eq!(swapped.convert("ab"), "2");
}

#[test]
fn division_by_zero_is_zero() {
    let doc = r#"(map (m ("k" (set v (/ 5 0)) (cond ((= v 0) (insert "Z")) (1 (insert "N"))))
               ("q" (set v (/ 7 2)) (insert v))))
(state (init (m)))"#;
    let mim = M17nMim::new(doc);
    assert_eq!(mim.convert("k"), "Z");
}

#[test]
fn char_left_of_cursor_at_start_is_zero() {
    let doc = r#"(map (m ("k" (set v @-1) (cond ((= v 0) (insert "Z")) ((= v -1) (insert "S"))))
               ("j" (insert "x") (set w @-1) (insert w))))
(state (init (m)))"#;
    let mim = M17nMim::new(doc);
    assert_eq!(mim.convert("k"), "Z");
    assert_eq!(mim.convert("j"), "xx");
}

#[test]
fn integer_actions_insert_characters() {
    let doc = r#"(map (m ("k" 2453) ("i" ?\x) ("q" -5) ("h" #x41))) (state (init (m)))"#;
    let mim = M17nMim::new(doc);
    assert_eq!(mim.convert("k"), "ক");
    assert_eq!(mim.convert("q"), "?");
    assert_eq!(mim.convert("h"), "A");
    assert_eq!(mim.convert("i"), "x");
}

#[test]
fn delete_and_move_edit_the_preedit() {
    let doc = r#"(map (m ("a" "abc" (move @<) "X")
               ("d" "abc" (delete @-) "Y")
               ("e" "abc" (move -2) (delete @>))
               ("f" "abc" (move @<) (delete 2))
               ("g" "abc" (move -1) (delete @<) "Z")))
(state (init (m)))"#;
    let mim = M17nMim::new(doc);
    assert_eq!(mim.convert("a"), "Xabc");
    assert_eq!(mim.convert("d"), "abY");
    assert_eq!(mim.convert("e"), "a");
    assert_eq!(mim.convert("f"), "c");
    assert_eq!(mim.convert("g"), "Zc");
}

#[test]
fn shift_changes_state_and_commit_flushes() {
    let doc = r#"(map (first ("a" "A" (shift second)))
     (second ("a" "B" (commit) "C")))
(state (first (first)) (second (second)))"#;
    let mim = M17nMim::new(doc);
    assert_eq!(mim.convert("aa"), "ABC");
    assert_eq!(mim.convert("aaa"), "ABCBC");
}

#[test]
fn branch_actions_follow_map_actions() {
    let doc = r#"(map (m ("a" "A"))) (state (init (m (insert "!"))))"#;
    let mim = M17nMim::new(doc);
    assert_eq!(mim.convert("aa"), "A!A!");
}

#[test]
fn missing_state_passes_everything_through() {
    let doc = r#"(map (m ("a" "A"))) (state (init (m (shift nowhere))))"#;
    let mim = M17nMim::new(doc);
    assert_eq!(mim.convert("aa"), "Aa");
}

#[test]
fn first_rule_for_a_key_wins() {
    let doc = r#"(map (m ("a" "first") ("a" "second"))) (state (init (m)))"#;
    let mim = M17nMim::new(doc);
    assert_eq!(mim.convert("a"), "first");
}

#[test]
fn arithmetic_and_comparison_operators() {
    let doc = r#"(map (m
  ("a" (set v (+ 60 5)) (insert v))
  ("b" (set v (- 70 4)) (insert v))
  ("c" (set v (* 11 6)) (insert v))
  ("d" (set v (| 64 4)) (insert v))
  ("e" (set v (& 71 69)) (insert v))
  ("f" (cond ((! 0) "T")))
  ("g" (cond ((>= 3 3) "G")))
  ("h" (cond ((< 3 2) "W") ((> 3 2) "H")))))
(state (init (m)))"#;
    let mim = M17nMim::new(doc);
    assert_eq!(mim.convert("abcdefgh"), "ABBDETGH");
}

#[test]
fn non_ascii_keys_match_by_character() {
    let doc = r#"(map (m ("অ" "a") ("অা" "aa"))) (state (init (m)))"#;
    let mim = M17nMim::new(doc);
    assert_eq!(mim.convert("অাঅ"), "aaa");
}

#[test]
fn metadata_getters() {
    let doc = r#"(input-method bn khipro)
(description (_ "Khipro layout"))
(title "খিপ্রো")
(map (m ("a" "A")))
(state (init (m)))"#;
    let mim = M17nMim::new(doc);
    assert_eq!(mim.get_lang(), "bn");
    assert_eq!(mim.get_name(), "khipro");
    assert_eq!(mim.get_title(), "খিপ্রো");
    assert_eq!(mim.get_description(), "Khipro layout");
    let plain = M17nMim::new(r#"(description "plain text")"#);
    assert_eq!(plain.get_description(), "plain text");
    assert_eq!(plain.get_title(), "");
}

#[test]
fn no_states_means_init_and_pass_through() {
    let mim = M17nMim::new(r#"(map (m ("a" "A")))"#);
    assert_eq!(mim.convert("a"), "a");
}

#[test]
fn every_map_and_state_form_counts() {
    let doc = r#"(map (a ("x" "X")))
(state (first (a) (b)))
(map (b ("y" "Y")))
(state (second (b)))"#;
    let mim = M17nMim::new(doc);
    assert_eq!(mim.convert("xy"), "XY");
}
