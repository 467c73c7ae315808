use minilisp::reader::{
    pieces, read_atom, read_form, read_list, read_str, read_tokens, read_vector, tokenize,
    tokens_of,
    ParseErrorKind, Reader,
};
use minilisp::repl::{print, read};
use minilisp::text::{integer_text, natural_text, parse_integer, read_literal, text_is, text_of};
use minilisp::types::{pr_str, LispType};

fn tokens(items: &[&str]) -> Vec<String> {
    items.iter().map(|s| s.to_string()).collect()
}

fn reread(source: &str) -> String {
    pr_str(&read_str(source).unwrap(), true)
}

#[test]
fn tokenize_cuts_at_brackets_and_blanks() {
    assert_eq!(tokenize("(+ 1 2)").unwrap(), tokens(&["(", "+", "1", "2", ")"]));
    assert_eq!(tokenize("  [a,b , c]  ").unwrap(), tokens(&["[", "a", "b", "c", "]"]));
    assert_eq!(tokenize("").unwrap(), tokens(&[]));
    assert_eq!(tokenize(" ,, \n\t").unwrap(), tokens(&[]));
    assert_eq!(tokenize("(def! not(fn* (a)(if a false true)))").unwrap().len(), 16);
}

#[test]
fn tokenize_keeps_string_literals_whole() {
    assert_eq!(tokenize("\"a b\" c").unwrap(), tokens(&["\"a b\"", "c"]));
    assert_eq!(tokenize("(\"a \\\" ) b\")").unwrap(), tokens(&["(", "\"a \\\" ) b\"", ")"]));
    assert_eq!(tokenize("\"\"").unwrap(), tokens(&["\"\""]));
}

#[test]
fn tokenize_knows_the_special_characters() {
    assert_eq!(tokenize("~@x 'y `z ~w ^m @a").unwrap(), tokens(&["~@", "x", "'", "y", "`", "z", "~", "w", "^", "m", "@", "a"]));
    assert_eq!(tokenize("{a}").unwrap(), tokens(&["{", "a", "}"]));
}

#[test]
fn tokenize_makes_a_comment_one_token() {
    assert_eq!(tokenize("1 ; rest (of line\n2").unwrap(), tokens(&["1", "; rest (of line", "2"]));
}

#[test]
fn read_str_reads_atoms() {
    assert!(matches!(read_str("nil").unwrap(), LispType::Nil));
    assert!(matches!(read_str("true").unwrap(), LispType::True));
    assert!(matches!(read_str("false").unwrap(), LispType::False));
    assert!(matches!(read_str("12").unwrap(), LispType::Integer(12)));
    assert!(matches!(read_str("-12").unwrap(), LispType::Integer(-12)));
    assert!(matches!(read_str("+12").unwrap(), LispType::Integer(12)));
    assert!(matches!(read_str("abc").unwrap(), LispType::Symbol(ref s) if s == "abc"));
    assert!(matches!(read_str("-").unwrap(), LispType::Symbol(ref s) if s == "-"));
    assert!(matches!(read_str("1a").unwrap(), LispType::Symbol(ref s) if s == "1a"));
    assert!(matches!(read_str(":kw").unwrap(), LispType::Keyword(ref s) if s == ":kw"));
    assert!(matches!(read_str("\"hi\"").unwrap(), LispType::Str(ref s) if s == "hi"));
}

#[test]
fn read_str_reads_integers_up_to_the_limits() {
    assert!(matches!(read_str("9223372036854775807").unwrap(), LispType::Integer(i64::MAX)));
    assert!(matches!(read_str("-9223372036854775808").unwrap(), LispType::Integer(i64::MIN)));
    assert!(matches!(read_str("9223372036854775808").unwrap(), LispType::Symbol(_)));
    assert!(matches!(read_str("-9223372036854775809").unwrap(), LispType::Symbol(_)));
    assert!(matches!(read_str("000000000000000000000000000007").unwrap(), LispType::Integer(7)));
    assert!(matches!(read_str("99999999999999999999999999").unwrap(), LispType::Symbol(_)));
}

#[test]
fn read_str_resolves_escapes_in_strings() {
    assert!(matches!(read_str("\"a\\\"b\"").unwrap(), LispType::Str(ref s) if s == "a\"b"));
    assert!(matches!(read_str("\"a\\\\b\"").unwrap(), LispType::Str(ref s) if s == "a\\b"));
    assert!(matches!(read_str("\"a\\nb\\tc\\rd\"").unwrap(), LispType::Str(ref s) if s == "a\nb\tc\rd"));
    assert!(matches!(read_str("\"a\\qb\"").unwrap(), LispType::Str(ref s) if s == "a\\qb"));
    assert!(matches!(read_str("\"\"").unwrap(), LispType::Str(ref s) if s.is_empty()));
}

#[test]
fn read_str_reads_nested_forms() {
    assert_eq!(reread("(+ 1 (* 2 3))"), "(+ 1 (* 2 3))");
    assert_eq!(reread("[1 [2 (3)] \"s\"]"), "[1 [2 (3)] \"s\"]");
    assert_eq!(reread("()"), "()");
    assert_eq!(reread("[]"), "[]");
    assert_eq!(reread("( 1 , 2 )"), "(1 2)");
}

#[test]
fn read_str_reads_the_first_form_only() {
    assert_eq!(reread("1 2 3"), "1");
    assert_eq!(reread("(a) (b)"), "(a)");
}

#[test]
fn read_str_fails_when_the_input_ends_early() {
    assert_eq!(read_str("").unwrap_err().kind, ParseErrorKind::UnexpectedEof);
    assert_eq!(read_str("(1 2").unwrap_err().kind, ParseErrorKind::UnexpectedEof);
    assert_eq!(read_str("[1 (2)").unwrap_err().kind, ParseErrorKind::UnexpectedEof);
    assert_eq!(read_str("(").unwrap_err().kind, ParseErrorKind::UnexpectedEof);
    assert_eq!(read_str("(1 2").unwrap_err().message(), "expected more input but got EOF");
}

#[test]
fn read_str_takes_a_closing_bracket_of_the_other_kind_as_a_symbol() {
    assert_eq!(reread("(1 ] 2)"), "(1 ] 2)");
    assert_eq!(read_str("(1 2]").unwrap_err().kind, ParseErrorKind::UnexpectedEof);
}

#[test]
fn read_tokens_reads_what_the_tokens_spell() {
    assert_eq!(pr_str(&read_tokens(tokens(&["(", "a", "[", "1", "]", ")"])).unwrap(), true), "(a [1])");
    assert_eq!(read_tokens(tokens(&[])).unwrap_err().kind, ParseErrorKind::UnexpectedEof);
    assert_eq!(read_tokens(tokens(&["\"ab\\"])).unwrap_err().kind, ParseErrorKind::UnfinishedEscape);
    assert_eq!(
        read_tokens(tokens(&["\"ab\\"])).unwrap_err().message(),
        "string literal ends inside an escape"
    );
    assert!(matches!(read_tokens(tokens(&["\"abc"])).unwrap(), LispType::Str(ref s) if s == "ab"));
    assert!(matches!(read_tokens(tokens(&["\""])).unwrap(), LispType::Str(ref s) if s.is_empty()));
}

#[test]
fn the_reader_walks_its_tokens() {
    let mut reader = Reader::new(tokens(&["a", "b"]));
    assert_eq!(reader.peek().unwrap(), "a");
    assert_eq!(reader.peek().unwrap(), "a");
    assert_eq!(reader.next().unwrap(), "a");
    assert_eq!(reader.next().unwrap(), "b");
    assert_eq!(reader.peek().unwrap_err().kind, ParseErrorKind::UnexpectedEof);
    assert_eq!(reader.next().unwrap_err().kind, ParseErrorKind::UnexpectedEof);
}

#[test]
fn the_reading_functions_pass_what_they_read() {
    let mut reader = Reader::new(tokens(&["(", "1", ")", "[", "2", "]", "x", "(", "y", ")"]));
    assert_eq!(pr_str(&read_list(&mut reader).unwrap(), true), "(1)");
    assert_eq!(pr_str(&read_vector(&mut reader).unwrap(), true), "[2]");
    assert_eq!(pr_str(&read_atom(&mut reader).unwrap(), true), "x");
    assert_eq!(pr_str(&read_form(&mut reader).unwrap(), true), "(y)");
    assert_eq!(read_form(&mut reader).unwrap_err().kind, ParseErrorKind::UnexpectedEof);
    assert_eq!(read_atom(&mut reader).unwrap_err().kind, ParseErrorKind::UnexpectedEof);
}

#[test]
fn parse_integer_accepts_a_sign_and_digits() {
    assert_eq!(parse_integer("0"), Some(0));
    assert_eq!(parse_integer("-0"), Some(0));
    assert_eq!(parse_integer("+7"), Some(7));
    assert_eq!(parse_integer("-45"), Some(-45));
    assert_eq!(parse_integer("0012"), Some(12));
    assert_eq!(parse_integer("9223372036854775807"), Some(i64::MAX));
    assert_eq!(parse_integer("-9223372036854775808"), Some(i64::MIN));
}

#[test]
fn parse_integer_rejects_everything_else() {
    assert_eq!(parse_integer(""), None);
    assert_eq!(parse_integer("-"), None);
    assert_eq!(parse_integer("+"), None);
    assert_eq!(parse_integer("+-1"), None);
    assert_eq!(parse_integer("1-"), None);
    assert_eq!(parse_integer("12a"), None);
    assert_eq!(parse_integer(" 1"), None);
    assert_eq!(parse_integer("٣"), None);
    assert_eq!(parse_integer("9223372036854775808"), None);
    assert_eq!(parse_integer("-9223372036854775809"), None);
    assert_eq!(parse_integer("18446744073709551616"), None);
    assert_eq!(parse_integer("100000000000000000000000000000000000000000"), None);
}

#[test]
fn parse_integer_agrees_with_the_standard_parser() {
    let samples = [
        "0", "-0", "+0", "1", "-1", "+1", "12345", "-", "+", "", "a", "1a", "--1", "9223372036854775807",
        "9223372036854775808", "-9223372036854775808", "-9223372036854775809", "00000000000000000000001",
        "92233720368547758070", "１２", "1_000", "0x10", "1.5",
    ];
    for s in samples {
        assert_eq!(parse_integer(s), s.parse::<i64>().ok(), "{}", s);
    }
}

#[test]
fn integer_text_agrees_with_the_standard_formatter() {
    for i in [0, 1, -1, 9, 10, 11, 99, 100, 101, -100, 123456789, i64::MAX, i64::MIN, i64::MIN + 1] {
        assert_eq!(integer_text(i), i.to_string());
        assert_eq!(parse_integer(&integer_text(i)), Some(i));
    }
    for n in [0, 5, 10, 18446744073709551615u64] {
        assert_eq!(natural_text(n), n.to_string());
    }
}

#[test]
fn read_literal_drops_the_quotes() {
    assert_eq!(read_literal("\"abc\""), Some("abc".to_string()));
    assert_eq!(read_literal("\"a\\nb\""), Some("a\nb".to_string()));
    assert_eq!(read_literal("\"a\\\\\""), Some("a\\".to_string()));
    assert_eq!(read_literal("\"a\\\""), Some("a".to_string()));
    assert_eq!(read_literal("\"a\\"), None);
    assert_eq!(read_literal("\""), Some(String::new()));
}

#[test]
fn text_helpers() {
    assert!(text_is(&"def!".to_string(), "def!"));
    assert!(!text_is(&"def".to_string(), "def!"));
    assert_eq!(text_of(&vec!['a', 'λ', '\n']), "aλ\n");
    assert_eq!(text_of(&vec![]), "");
}

#[test]
fn printing_what_was_read_gives_it_back() {
    for source in ["(1 2 3)", "[a \"b\\n\" :c]", "(fn* (a & b) (if a b nil))", "\"\\\\\"", "-17"] {
        assert_eq!(reread(source), source);
    }
}

#[test]
fn read_and_print_are_the_two_ends() {
    assert_eq!(print(read("(1 \"a\")").unwrap()), "(1 a)");
    assert_eq!(read("(").unwrap_err().kind, ParseErrorKind::UnexpectedEof);
}

#[test]
fn tokens_of_keeps_the_groups_that_took_part() {
    let found = vec![Some("(".to_string()), None, Some("a".to_string()), None, Some(")".to_string())];
    assert_eq!(tokens_of(&found), tokens(&["(", "a", ")"]));
    assert_eq!(tokens_of(&vec![None, None]), tokens(&[]));
    assert_eq!(tokens_of(&vec![]), tokens(&[]));
}

#[test]
fn pieces_cuts_by_any_pattern() {
    assert_eq!(pieces("(\\d+)", "a12b3").unwrap(), tokens(&["12", "3"]));
    assert_eq!(pieces("x(y)?", "xy x").unwrap(), tokens(&["y"]));
    assert_eq!(pieces("no group", "no group").unwrap(), tokens(&[]));
}

#[test]
fn pieces_fails_on_a_pattern_that_is_refused() {
    let err = pieces("(", "abc").unwrap_err();
    assert_eq!(err.kind, ParseErrorKind::BadPattern);
    assert_eq!(err.message(), "the token pattern was not accepted");
}
