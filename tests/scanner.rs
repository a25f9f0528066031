use scanner::{split_tokens, ScanError, Scanner, TokenBuffer};
use std::io::BufRead;
use std::io::Write;

#[test]
fn test_memory_scanner() {
    let input = "50 8";
    let mut scanner = Scanner::new(input);
    let mut out = String::new();

    let x = scanner.token::<i32>().unwrap();
    let y = scanner.token::<i32>().unwrap();
    out.push_str(&format!("Test: {}\n", x - y));

    assert_eq!(out, "Test: 42\n");
}

#[test]
fn test_io_scanner() {
    let (stdin, stdout) = (std::io::stdin(), std::io::stdout());
    let mut input = stdin.lock();
    let mut tokens = TokenBuffer::new();
    let mut out = std::io::BufWriter::new(stdout.lock());

    // Reading here would wait for someone to type on stdin.
    if false {
        let mut next = || loop {
            if !tokens.is_empty() {
                return tokens.token::<i32>().unwrap();
            }
            let mut line = String::new();
            input.read_line(&mut line).unwrap();
            tokens.refill(&line);
        };
        let x = next();
        let y = next();
        out.write_all(format!("Test: {}\n", x - y).as_bytes()).ok();
        out.flush().unwrap();
    }
}

#[test]
fn tokens_come_in_input_order() {
    let mut scanner = Scanner::new("alpha beta\ngamma  delta\tepsilon");
    let rest = scanner.remaining_tokens();
    assert_eq!(rest, vec!["alpha", "beta", "gamma", "delta", "epsilon"]);
    assert_eq!(scanner.next_token(), None);
}

#[test]
fn mixed_types_in_order() {
    let mut scanner = Scanner::new("3 -7\nword 12345678901");
    assert_eq!(scanner.token::<u8>(), Ok(3));
    assert_eq!(scanner.token::<i64>(), Ok(-7));
    assert_eq!(scanner.token::<String>(), Ok("word".to_string()));
    assert_eq!(scanner.token::<u64>(), Ok(12345678901));
}

#[test]
fn blank_lines_between_tokens() {
    let mut scanner = Scanner::new("7\n\n\n3\n");
    assert_eq!(scanner.token::<i32>(), Ok(7));
    assert_eq!(scanner.token::<i32>(), Ok(3));
    assert_eq!(scanner.token::<i32>(), Err(ScanError::EndOfInput));
}

#[test]
fn whitespace_runs_and_line_breaks_separate_alike() {
    let mut spaced = Scanner::new("  1 \t\t 2   3 ");
    let mut lined = Scanner::new("1\r\n\n  2\n3\n\n");
    assert_eq!(spaced.remaining_tokens(), lined.remaining_tokens());
}

#[test]
fn unicode_whitespace_separates() {
    let toks = split_tokens("a\u{3000}b\u{A0}c\u{2003}d\u{85}e");
    assert_eq!(toks, vec!["a", "b", "c", "d", "e"]);
}

#[test]
fn non_ascii_tokens_kept_whole() {
    let toks = split_tokens("  größe 越南 ");
    assert_eq!(toks, vec!["größe", "越南"]);
}

#[test]
fn split_tokens_of_blank_text() {
    assert!(split_tokens("").is_empty());
    assert!(split_tokens(" \t\r\n ").is_empty());
    assert_eq!(split_tokens("x"), vec!["x"]);
}

#[test]
fn empty_input_ends_at_once() {
    let mut scanner = Scanner::new("");
    assert_eq!(scanner.token::<i32>(), Err(ScanError::EndOfInput));
    assert_eq!(scanner.next_token(), None);
}

#[test]
fn exhausted_input_reports_end() {
    let mut scanner = Scanner::new("   \n\n  ");
    assert_eq!(scanner.token::<u32>(), Err(ScanError::EndOfInput));
    let mut scanner = Scanner::new("5");
    assert_eq!(scanner.token::<u32>(), Ok(5));
    assert_eq!(scanner.token::<u32>(), Err(ScanError::EndOfInput));
}

#[test]
fn unparsable_token_is_consumed() {
    let mut scanner = Scanner::new("abc 9");
    assert_eq!(scanner.token::<i32>(), Err(ScanError::Parse));
    assert_eq!(scanner.token::<i32>(), Ok(9));
}

#[test]
fn out_of_range_token_is_a_parse_error() {
    let mut scanner = Scanner::new("300 -1");
    assert_eq!(scanner.token::<u8>(), Err(ScanError::Parse));
    assert_eq!(scanner.token::<u8>(), Err(ScanError::Parse));
    assert_eq!(scanner.token::<u8>(), Err(ScanError::EndOfInput));
}

#[test]
fn buffer_refill_appends_in_order() {
    let mut tokens = TokenBuffer::new();
    assert!(tokens.is_empty());
    tokens.refill("1 2");
    tokens.refill("\t3\n");
    assert_eq!(tokens.pop(), Some("1".to_string()));
    tokens.refill("4");
    assert_eq!(tokens.token::<i32>(), Ok(2));
    assert_eq!(tokens.token::<i32>(), Ok(3));
    assert_eq!(tokens.token::<i32>(), Ok(4));
    assert!(tokens.is_empty());
    assert_eq!(tokens.pop(), None);
    assert_eq!(tokens.token::<i32>(), Err(ScanError::EndOfInput));
}

#[test]
fn blank_line_refill_adds_nothing() {
    let mut tokens = TokenBuffer::new();
    tokens.refill("   \n");
    assert!(tokens.is_empty());
}
