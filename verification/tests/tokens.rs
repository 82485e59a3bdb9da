use tokenize::State;
use tokenize::TokenIterator;
use tokenize::Tokenizer;

fn kws(xs: &[&str]) -> Vec<String> {
    let mut v = Vec::new();
    for x in xs {
        v.push(x.to_string());
    }
    v
}

fn collect_tokens(it: &mut TokenIterator) -> Vec<Result<String, usize>> {
    let mut v = Vec::new();
    loop {
        match it.next() {
            Some(t) => v.push(t),
            None => break,
        }
    }
    v
}

fn ok(s: &str) -> Result<String, usize> {
    Ok(s.to_string())
}

fn node(is_end_state: bool, trans: Vec<(char, State)>) -> State {
    State { is_end_state, trans }
}

#[test]
fn test_state_add_1() {
    let mut state = State::new();
    for k in ["->", "<-", "{", "}"] {
        state.add_path(k, 0);
    }
    assert_eq!(
        state,
        node(
            false,
            vec![
                ('-', node(false, vec![('>', node(true, vec![]))])),
                ('<', node(false, vec![('-', node(true, vec![]))])),
                ('{', node(true, vec![])),
                ('}', node(true, vec![])),
            ]
        )
    );
}

#[test]
fn test_state_add_2() {
    let mut state = State::new();
    for k in ["->", "-", "*"] {
        state.add_path(k, 0);
    }
    assert_eq!(
        state,
        node(
            false,
            vec![
                ('-', node(true, vec![('>', node(true, vec![]))])),
                ('*', node(true, vec![])),
            ]
        )
    );
}

#[test]
fn test_tokenizer_1() {
    let mut it = "{aaa ->bbb }".tokenize(&kws(&["->", "<-", "{", "}"]));
    assert_eq!(
        collect_tokens(&mut it),
        vec![ok("{"), ok("aaa"), ok("->"), ok("bbb"), ok("}")]
    );
}

#[test]
fn test_tokenizer_2() {
    let mut it =
        "{inst_1 -> inst_2 -> {inst_4 <- inst_3} -> inst_5}".tokenize(&kws(&["->", "<-", "{", "}"]));
    assert_eq!(
        collect_tokens(&mut it),
        vec![
            ok("{"),
            ok("inst_1"),
            ok("->"),
            ok("inst_2"),
            ok("->"),
            ok("{"),
            ok("inst_4"),
            ok("<-"),
            ok("inst_3"),
            ok("}"),
            ok("->"),
            ok("inst_5"),
            ok("}"),
        ]
    );
}

#[test]
fn test_tokenizer_3() {
    let mut it = "".tokenize(&kws(&["->", "<-", "{", "}"]));
    assert_eq!(collect_tokens(&mut it), Vec::<Result<String, usize>>::new());
}

#[test]
fn test_tokenizer_4() {
    let mut it = "{inst1 -> inst2 -> {inst4 <- inst3} -".tokenize(&kws(&["->", "<-", "{", "}"]));
    assert_eq!(
        collect_tokens(&mut it),
        vec![
            ok("{"),
            ok("inst1"),
            ok("->"),
            ok("inst2"),
            ok("->"),
            ok("{"),
            ok("inst4"),
            ok("<-"),
            ok("inst3"),
            ok("}"),
            Err("{inst1 -> inst2 -> {inst4 <- inst3} -".len()),
        ]
    );
}

#[test]
fn test_tokenizer_5() {
    let mut it = "{inst1 -> inst2 -> {inst4 < inst3}".tokenize(&kws(&["->", "<-", "{", "}"]));
    assert_eq!(
        collect_tokens(&mut it),
        vec![
            ok("{"),
            ok("inst1"),
            ok("->"),
            ok("inst2"),
            ok("->"),
            ok("{"),
            ok("inst4"),
            Err("{inst1 -> inst2 -> {inst4 <".len()),
        ]
    );
}

#[test]
fn test_tokenizer_6() {
    let mut it = "ab(cd(ef),gh)".tokenize(&kws(&[":-", "[", "]", "(", ")", ",", "."]));
    assert_eq!(
        collect_tokens(&mut it),
        vec![
            ok("ab"),
            ok("("),
            ok("cd"),
            ok("("),
            ok("ef"),
            ok(")"),
            ok(","),
            ok("gh"),
            ok(")"),
        ]
    );
}

#[test]
fn test_tokenizer_7() {
    let mut it = "a_b*a_c(".tokenize(&kws(&[":-", "[", "]", "(", ")", ",", "."]));
    assert_eq!(collect_tokens(&mut it), vec![ok("a_b"), Err("a_b".len())]);
}

#[test]
fn test_tokenizer_8() {
    let mut it = "ab(c_d(e_f),g_h)))(".tokenize(&kws(&[":-", "[", "]", "(", ")", ",", "."]));
    assert_eq!(
        collect_tokens(&mut it),
        vec![
            ok("ab"),
            ok("("),
            ok("c_d"),
            ok("("),
            ok("e_f"),
            ok(")"),
            ok(","),
            ok("g_h"),
            ok(")"),
            ok(")"),
            ok(")"),
            ok("("),
        ]
    );
}

#[test]
fn test_tokenizer_9() {
    let mut it = "[2]a:-b,c.\n".tokenize(&kws(&[":-", "[", "]", "(", ")", ",", "."]));
    assert_eq!(
        collect_tokens(&mut it),
        vec![
            ok("["),
            ok("2"),
            ok("]"),
            ok("a"),
            ok(":-"),
            ok("b"),
            ok(","),
            ok("c"),
            ok("."),
        ]
    );
}

#[test]
fn test_tokenizer_10() {
    let mut it = "f(a ,b ,X)".tokenize(&kws(&[":-", "[", "]", "(", ")", ",", "."]));
    assert_eq!(
        collect_tokens(&mut it),
        vec![
            ok("f"),
            ok("("),
            ok("a"),
            ok(","),
            ok("b"),
            ok(","),
            ok("X"),
            ok(")"),
        ]
    );
}

#[test]
fn test_tokenizer_11() {
    let mut it = r#"(*"3" -> int -> *"i".write)"#.tokenize(&kws(&[
        "->", "<-", "(", ")", "{", "=", ",", "}", "[", "|", "]", "*", ".",
    ]));
    assert_eq!(
        collect_tokens(&mut it),
        vec![
            ok("("),
            ok("*"),
            ok(r#""3""#),
            ok("->"),
            ok("int"),
            ok("->"),
            ok("*"),
            ok(r#""i""#),
            ok("."),
            ok("write"),
            ok(")"),
        ]
    );
}

#[test]
fn test_construction_order_independent() {
    // Building the automaton from any permutation of the keyword set
    // yields an equivalent automaton: it tokenizes every input the same.
    let input = "{a -> b <- c}";
    let mut one = input.tokenize(&kws(&["->", "<-", "{", "}"]));
    let mut other = input.tokenize(&kws(&["}", "<-", "{", "->"]));
    assert_eq!(collect_tokens(&mut one), collect_tokens(&mut other));
}

#[test]
fn test_greedy_no_backtracking() {
    // With both "-" and "->" registered, "->" is consumed whole: the walk
    // reaches the longer accepting state and never backtracks.
    let mut it = "->".tokenize(&kws(&["-", "->"]));
    assert_eq!(collect_tokens(&mut it), vec![ok("->")]);
}

#[test]
fn test_exhausted_after_failure() {
    let mut it = "a_b*a_c(".tokenize(&kws(&["(", ")"]));
    assert_eq!(it.next(), Some(Ok("a_b".to_string())));
    assert_eq!(it.next(), Some(Err(3)));
    assert_eq!(it.next(), None);
    assert_eq!(it.next(), None);
}

#[test]
fn test_whitespace_insertion_is_transparent() {
    let keywords = kws(&["->", "{", "}"]);
    let mut dense = "{a->b}".tokenize(&keywords);
    let mut airy = " {  a \t-> \n b } ".tokenize(&keywords);
    assert_eq!(collect_tokens(&mut dense), collect_tokens(&mut airy));
}

#[test]
fn test_no_token_starts_with_whitespace() {
    let mut it = "  x  y\t(z) ".tokenize(&kws(&["(", ")"]));
    for t in collect_tokens(&mut it) {
        let tok = t.unwrap();
        assert!(!tok.chars().next().unwrap().is_whitespace());
    }
}

#[test]
fn test_unterminated_literal_runs_to_end() {
    // An unterminated literal is still a successful match covering the
    // rest of the input.
    let mut it = "x \"abc".tokenize(&kws(&["{"]));
    assert_eq!(collect_tokens(&mut it), vec![ok("x"), ok("\"abc")]);
}

#[test]
fn test_empty_literal() {
    let mut it = "\"\"\"a\"".tokenize(&kws(&["{"]));
    assert_eq!(collect_tokens(&mut it), vec![ok("\"\""), ok("\"a\"")]);
}

#[test]
fn test_unrecognized_first_character() {
    let mut it = "#rest".tokenize(&kws(&["{", "}"]));
    assert_eq!(collect_tokens(&mut it), vec![Err(0)]);
}

#[test]
fn test_unicode_identifier() {
    // Alphanumeric recognition is not limited to ASCII.
    let mut it = "caf\u{e9} -> \u{3b1}1".tokenize(&kws(&["->"]));
    assert_eq!(
        collect_tokens(&mut it),
        vec![ok("caf\u{e9}"), ok("->"), ok("\u{3b1}1")]
    );
}

#[test]
fn test_partial_keyword_walk_offset() {
    // The failure offset counts the characters the automaton walk
    // consumed before stopping on a non-accepting node.
    let mut it = "ab<c".tokenize(&kws(&["<-"]));
    assert_eq!(collect_tokens(&mut it), vec![ok("ab"), Err(3)]);
}
