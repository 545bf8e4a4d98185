use rust_sed::cli::{backup_name, bytes_to_string_latin1, fmt_io_err, usage_text};
use rust_sed::options::{ArgParser, ArgStep};
use rust_sed::regex_util::{bre_to_ere, fix_posix_char_class};
use rust_sed::engine::addr_matches_single;
use rust_sed::sed_regex::SedRegex;
use rust_sed::types::Address;
use rust_sed::types::ScriptSource;
use rust_sed::util::{ctrl_char, escape_string_bytes, escape_string_tokens};

#[test]
fn control_characters() {
    assert_eq!(ctrl_char(b'a'), 1);
    assert_eq!(ctrl_char(b'A'), 1);
    assert_eq!(ctrl_char(b'['), 0x1b);
    assert_eq!(ctrl_char(b'?'), 0x7f);
}

#[test]
fn escaping_for_l() {
    assert_eq!(escape_string_bytes(b"a\tb\\\x01\n"), "a\\tb\\\\\\001\\n");
    assert_eq!(escape_string_tokens(b"a\x07"), vec!["a".to_string(), "\\a".to_string()]);
    assert_eq!(escape_string_bytes(b"\xc3\xa9"), "\\303\\251");
    // Distinct bytes give distinct, printable escapes.
    assert_ne!(escape_string_bytes(b"\\001"), escape_string_bytes(b"\x01"));
    assert!(escape_string_bytes(b"\x00\x7f\xff\\").bytes().all(|c| (0x20..=0x7e).contains(&c)));
}

#[test]
fn bre_conversion() {
    assert_eq!(bre_to_ere("a\\(b\\)*"), "a(b)*");
    assert_eq!(bre_to_ere("a+b?"), "a\\+b\\?");
    assert_eq!(bre_to_ere("a\\+"), "a+");
    assert_eq!(bre_to_ere("x\\{2\\}"), "x{2}");
    assert_eq!(bre_to_ere("a|b"), "a\\|b");
    assert_eq!(bre_to_ere("^a^b$c$"), "^a\\^b\\$c$");
    assert_eq!(bre_to_ere("^plain text.*$"), "^plain text.*$");
}

#[test]
fn posix_classes_stay() {
    assert_eq!(fix_posix_char_class("abc"), "abc");
    assert_eq!(fix_posix_char_class("[[:digit:]]+"), "[[:digit:]]+");
}

#[test]
fn regex_wrapper() {
    let re = SedRegex::new("b+").expect("compiles");
    assert_eq!(re.as_str(), "b+");
    let a = Address::Regex(re);
    let mut last: Option<SedRegex> = None;
    assert!(addr_matches_single(&a, 1, false, &b"abbc".to_vec(), &mut last));
    assert_eq!(last.as_ref().map(|r| r.as_str().to_string()), Some("b+".to_string()));
    let mut none: Option<SedRegex> = None;
    assert!(!addr_matches_single(&a, 1, false, &b"ac".to_vec(), &mut none));
    assert!(none.is_none());
    assert!(SedRegex::new("(").is_err());
    let back = SedRegex::new("(a)\\1").expect("a backreference compiles");
    let mut seen: Option<SedRegex> = None;
    assert!(addr_matches_single(&Address::Regex(back), 1, false, &b"xaay".to_vec(), &mut seen));
}

#[test]
fn latin1_fallback() {
    assert_eq!(bytes_to_string_latin1(b"caf\xc3\xa9"), "café");
    assert_eq!(bytes_to_string_latin1(b"caf\xe9"), "caf\u{10ffe9}");
    assert_eq!(bytes_to_string_latin1(b"\xff"), "\u{10ffff}");
}

#[test]
fn io_error_text() {
    assert_eq!(fmt_io_err("No such file or directory (os error 2)", Some(2)), "No such file or directory");
    assert_eq!(fmt_io_err("Permission denied (os error 13)", Some(2)), "Permission denied (os error 13)");
    assert_eq!(fmt_io_err("custom", None), "custom");
}

#[test]
fn usage_lines() {
    let short = usage_text(false);
    assert!(short.starts_with("Usage: sed [OPTION]... {script} [input-file]...\n"));
    assert!(!short.contains("E-mail"));
    assert!(usage_text(true).ends_with("E-mail bug reports to: bug-sed@gnu.org\n"));
}

#[test]
fn backup_names() {
    assert_eq!(backup_name(".bak", "f.txt"), "f.txt.bak");
    assert_eq!(backup_name("old_*", "f.txt"), "old_f.txt");
    assert_eq!(backup_name("*.*", "f"), "f.f");
}

fn parse(args: &[&str]) -> (ArgParser, Option<ArgStep>) {
    let args: Vec<String> = args.iter().map(|s| s.to_string()).collect();
    let mut p = ArgParser::new();
    let mut i = 0;
    while i < args.len() {
        match p.parse_arg(&args, i) {
            ArgStep::Next(n) => i = n,
            ArgStep::ReadScript(name, n) => {
                let content = format!("contents of {name}");
                p.add_script_file(name, content);
                i = n;
            }
            other => return (p, Some(other)),
        }
    }
    (p, None)
}

#[test]
fn options_basic() {
    let (p, stop) = parse(&["-n", "-e", "p", "-E", "file1", "file2"]);
    assert!(stop.is_none());
    let o = p.finish(None).expect("a script");
    assert!(o.quiet);
    assert!(o.extended);
    assert_eq!(o.scripts.len(), 1);
    assert_eq!(o.scripts[0].content, "p");
    assert!(matches!(o.scripts[0].source, ScriptSource::Expression(1)));
    assert_eq!(o.files, vec!["file1".to_string(), "file2".to_string()]);
}

#[test]
fn options_first_positional_is_the_script() {
    let (p, _) = parse(&["s/a/b/", "in.txt"]);
    let o = p.finish(None).expect("a script");
    assert_eq!(o.scripts[0].content, "s/a/b/");
    assert_eq!(o.files, vec!["in.txt".to_string()]);
}

#[test]
fn options_grouped_letters() {
    let (p, _) = parse(&["-nEe", "p", "-i.bak", "-sz", "x"]);
    let o = p.finish(None).expect("a script");
    assert!(o.quiet && o.extended && o.separate && o.null_data);
    assert_eq!(o.scripts[0].content, "p");
    assert_eq!(o.in_place, Some(".bak".to_string()));
    assert_eq!(o.files, vec!["x".to_string()]);
}

#[test]
fn options_script_files_and_width() {
    let (p, _) = parse(&["-f", "a.sed", "-fb.sed", "-l", "30", "--posix"]);
    let o = p.finish(None).expect("a script");
    assert_eq!(o.scripts.len(), 2);
    assert_eq!(o.scripts[1].content, "contents of b.sed");
    assert!(matches!(&o.scripts[0].source, ScriptSource::File(f) if f == "a.sed"));
    assert_eq!(o.line_length, 30);
    assert!(o.posix);
}

#[test]
fn options_bad_width_is_default() {
    let (p, _) = parse(&["-l", "wide", "p"]);
    assert_eq!(p.finish(None).expect("a script").line_length, 70);
}

#[test]
fn options_cols_sets_width() {
    let (p, _) = parse(&["p"]);
    assert_eq!(p.finish(Some("100".to_string())).expect("a script").line_length, 99);
    let (q, _) = parse(&["-l", "20", "p"]);
    assert_eq!(q.finish(Some("100".to_string())).expect("a script").line_length, 20);
}

#[test]
fn options_errors_and_stops() {
    let (_, stop) = parse(&["-k"]);
    assert!(matches!(stop, Some(ArgStep::Fail(m)) if m == "invalid option -- 'k'"));
    let (_, stop2) = parse(&["--bogus"]);
    assert!(matches!(stop2, Some(ArgStep::Fail(m)) if m == "unrecognized option '--bogus'"));
    let (_, v) = parse(&["--version"]);
    assert!(matches!(v, Some(ArgStep::Version)));
    let (_, h) = parse(&["--help"]);
    assert!(matches!(h, Some(ArgStep::Help)));
}

#[test]
fn options_without_script() {
    let (p, _) = parse(&["-n"]);
    assert!(p.finish(None).is_none());
}

#[test]
fn options_after_double_dash_are_files() {
    let (p, _) = parse(&["p", "--", "-n"]);
    let o = p.finish(None).expect("a script");
    assert!(!o.quiet);
    assert_eq!(o.files, vec!["-n".to_string()]);
}

#[test]
fn options_explicit_width_beats_cols() {
    let (p, _) = parse(&["-l", "70", "p"]);
    assert_eq!(p.finish(Some("100".to_string())).expect("a script").line_length, 70);
}

#[test]
fn leading_close_bracket_keeps_caret_a_member() {
    let fixed = fix_posix_char_class("[]^]");
    assert_eq!(fixed, "[\\]^]");
    let a = Address::Regex(SedRegex::new(&fixed).expect("compiles"));
    let mut last: Option<SedRegex> = None;
    assert!(addr_matches_single(&a, 1, false, &b"]".to_vec(), &mut last));
    assert!(addr_matches_single(&a, 1, false, &b"^".to_vec(), &mut last));
    assert!(!addr_matches_single(&a, 1, false, &b"a".to_vec(), &mut last));
    assert_eq!(fix_posix_char_class("[^]a]"), "[^a\\]]");
    assert_eq!(fix_posix_char_class("[]abc]"), "[abc\\]]");
}
