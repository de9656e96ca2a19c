use app_deleter::command_line::{parse_command_line, uninstall_command};

#[test]
fn parses_quoted_path_with_args() {
    let (prog, args) = parse_command_line("\"C:\\Program Files\\App\\unins000.exe\" /SILENT /x");
    assert_eq!(prog, "C:\\Program Files\\App\\unins000.exe");
    assert_eq!(args, vec!["/SILENT", "/x"]);
}

#[test]
fn parses_msiexec() {
    let (prog, args) = parse_command_line("MsiExec.exe /X{12345-ABCDE}");
    assert_eq!(prog, "MsiExec.exe");
    assert_eq!(args, vec!["/X{12345-ABCDE}"]);
}

#[test]
fn empty_command_line_has_no_program() {
    let (prog, args) = parse_command_line("   \t ");
    assert_eq!(prog, "");
    assert!(args.is_empty());
}

#[test]
fn quotes_inside_a_token_are_dropped() {
    let (prog, args) = parse_command_line("C:\\\"My App\"\\run.exe  --flag=\"a b\"");
    assert_eq!(prog, "C:\\My App\\run.exe");
    assert_eq!(args, vec!["--flag=a b"]);
}

#[test]
fn unclosed_quote_keeps_the_rest_in_one_token() {
    let (prog, args) = parse_command_line("run \"a b  ");
    assert_eq!(prog, "run");
    assert_eq!(args, vec!["a b  "]);
}

#[test]
fn empty_quotes_make_no_token() {
    let (prog, args) = parse_command_line("\"\" x");
    assert_eq!(prog, "x");
    assert!(args.is_empty());
}

#[test]
fn unicode_whitespace_separates_tokens() {
    let (prog, args) = parse_command_line("a\u{3000}b\u{00A0}c");
    assert_eq!(prog, "a");
    assert_eq!(args, vec!["b", "c"]);
}

#[test]
fn quoted_program_roundtrip() {
    let program = "C:\\Program Files (x86)\\Some App\\uninstall.exe";
    let args = ["/S", "/LOG=x.txt", "-q"];
    let mut line = format!("\"{program}\"");
    for a in args.iter() {
        line.push(' ');
        line.push_str(a);
    }
    let (prog, parsed) = parse_command_line(&line);
    assert_eq!(prog, program);
    assert_eq!(parsed, args.to_vec());
}

#[test]
fn blank_uninstall_string_is_refused() {
    let r = uninstall_command(" \t  ");
    assert_eq!(r, Err("언인스톨 정보가 없습니다.".to_string()));
    let r = uninstall_command("");
    assert_eq!(r, Err("언인스톨 정보가 없습니다.".to_string()));
}

#[test]
fn uninstall_string_is_trimmed_then_split() {
    let r = uninstall_command("  \"C:\\A B\\u.exe\" /x  ").unwrap();
    assert_eq!(r.0, "C:\\A B\\u.exe");
    assert_eq!(r.1, vec!["/x"]);
}

fn toks(r: (String, Vec<String>)) -> Vec<String> {
    if r.0.is_empty() {
        Vec::new()
    } else {
        let mut v = vec![r.0];
        v.extend(r.1);
        v
    }
}

#[test]
fn without_quotes_tokens_are_whitespace_words() {
    for line in ["a b\tc", "  lead  trail  ", "", "one", "x\u{2003}y\n z"] {
        let expected: Vec<String> = line.split_whitespace().map(String::from).collect();
        assert_eq!(toks(parse_command_line(line)), expected, "{line:?}");
    }
}

#[test]
fn every_token_quoted_roundtrip() {
    let ts = ["C:\\Program Files\\x.exe", "a b", "/S"];
    let line = ts.iter().map(|t| format!("\"{t}\"")).collect::<Vec<_>>().join(" ");
    let (p, a) = parse_command_line(&line);
    assert_eq!(p, ts[0]);
    assert_eq!(a, ts[1..].to_vec());
}

#[test]
fn balanced_parts_tokenize_separately() {
    let a = "x \"y z\"";
    let b = "\"q r w";
    let mut expected = toks(parse_command_line(a));
    expected.extend(toks(parse_command_line(b)));
    assert_eq!(toks(parse_command_line(&format!("{a} {b}"))), expected);
}

#[test]
fn trimming_balanced_lines_changes_nothing() {
    for line in ["  \"a b\" c  ", "\t x ", "   "] {
        assert_eq!(parse_command_line(line), parse_command_line(line.trim()));
    }
}
