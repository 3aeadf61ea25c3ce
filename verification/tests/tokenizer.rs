use tfindex::lexer::{tokenize, CharKind, Lexer};

fn chars(s: &str) -> Vec<char> {
    s.chars().collect()
}

fn tokens(s: &str) -> Vec<String> {
    let cs = chars(s);
    tokenize(cs.as_slice())
}

#[test]
fn scenario_mixed_alphanumeric_and_symbols() {
    assert_eq!(
        tokens("Log4j CVE-2021-44228"),
        vec!["LOG4J", "CVE", "-", "2021", "-", "44228"]
    );
}

#[test]
fn tokenizing_twice_yields_identical_sequences() {
    let input = "The  quick brown-fox 42 jumps!\tover 7dwarves\n";
    assert_eq!(tokens(input), tokens(input));
}

#[test]
fn case_folding_is_idempotent() {
    let once = tokens("MiXeD CaSe wOrDs");
    let folded_input = once.join(" ");
    let twice = tokens(&folded_input);
    assert_eq!(once, twice);
}

#[test]
fn every_token_is_digits_or_alpha_run_or_single_symbol() {
    for tok in tokens("abc123 456 ...x!y? 9lives log4j -12") {
        let cs: Vec<char> = tok.chars().collect();
        let all_digits = !cs.is_empty() && cs.iter().all(|c| c.is_ascii_digit());
        let alpha_run = !cs.is_empty() && cs[0].is_ascii_alphabetic()
            && cs.iter().all(|c| c.is_ascii_alphanumeric());
        let single_symbol = cs.len() == 1 && !cs[0].is_ascii_alphanumeric();
        assert!(all_digits || alpha_run || single_symbol, "bad token {tok:?}");
    }
}

#[test]
fn empty_and_whitespace_inputs_yield_no_tokens() {
    assert_eq!(tokens(""), Vec::<String>::new());
    assert_eq!(tokens("   \t\r\n  "), Vec::<String>::new());
}

#[test]
fn leading_digit_stops_at_first_letter() {
    assert_eq!(tokens("9lives"), vec!["9", "LIVES"]);
    assert_eq!(tokens("log4j"), vec!["LOG4J"]);
}

#[test]
fn punctuation_characters_are_single_tokens() {
    assert_eq!(tokens("a,b"), vec!["A", ",", "B"]);
    assert_eq!(tokens("--"), vec!["-", "-"]);
}

#[test]
fn lexer_cursor_methods_walk_the_input() {
    let cs = chars("ab12 cd");
    let mut lexer = Lexer::new(cs.as_slice());
    assert_eq!(lexer.next_token(), Some("AB12".to_string()));
    assert_eq!(lexer.next_token(), Some("CD".to_string()));
    assert_eq!(lexer.next_token(), None);

    let cs2 = chars("  42abc");
    let mut l2 = Lexer::new(cs2.as_slice());
    l2.trim();
    let digits = l2.chop_while(CharKind::Digit);
    assert_eq!(digits, &['4', '2']);
    let rest = l2.chop(3);
    assert_eq!(rest, &['a', 'b', 'c']);
}
