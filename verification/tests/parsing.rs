use rust_sed::cli::parse_scripts;
use rust_sed::labels::validate_labels;
use rust_sed::parser::{count_groups, Parser};
use rust_sed::types::{AddressRange, Command, Options, ScriptEntry, ScriptSource};

fn options(scripts: &[&str]) -> Options {
    let mut entries = Vec::new();
    for (k, s) in scripts.iter().enumerate() {
        entries.push(ScriptEntry { source: ScriptSource::Expression(k + 1), content: s.to_string() });
    }
    Options {
        in_place: None,
        quiet: false,
        extended: false,
        scripts: entries,
        files: Vec::new(),
        posix: false,
        unbuffered: false,
        null_data: false,
        separate: false,
        sandbox: false,
        follow_symlinks: false,
        line_length: 70,
    }
}

fn error_of(script: &str) -> String {
    match parse_scripts(&options(&[script])) {
        Ok(_) => panic!("`{script}` should not parse"),
        Err(e) => e,
    }
}

#[test]
fn parses_a_simple_script() {
    let mut p = Parser::new("1d;$p", false, ScriptSource::Expression(1));
    let cmds = p.parse_all(true).expect("parses");
    assert_eq!(cmds.len(), 2);
    assert!(matches!(cmds[0].address, AddressRange::Single(_)));
    assert!(matches!(cmds[0].command, Command::Delete));
    assert!(matches!(cmds[1].command, Command::Print));
    assert!(!p.saw_hash_n());
}

#[test]
fn parses_a_block() {
    let mut p = Parser::new("/x/{s/a/b/;p}", false, ScriptSource::Expression(1));
    let cmds = p.parse_all(true).expect("parses");
    assert_eq!(cmds.len(), 1);
    match &cmds[0].command {
        Command::Block(inner) => assert_eq!(inner.len(), 2),
        _ => panic!("a block"),
    }
}

#[test]
fn hash_n_on_first_line() {
    let mut p = Parser::new("#n\np", false, ScriptSource::Expression(1));
    p.parse_all(true).expect("parses");
    assert!(p.saw_hash_n());
    let mut q = Parser::new("#n\np", false, ScriptSource::Expression(1));
    q.parse_all(false).expect("parses");
    assert!(!q.saw_hash_n());
}

#[test]
fn unknown_command_error() {
    assert_eq!(error_of("k"), "-e expression #1, char 1: unknown command: `k'");
}

#[test]
fn unterminated_substitute_error() {
    assert_eq!(error_of("s/a/b"), "-e expression #1, char 5: unterminated `s' command");
}

#[test]
fn unmatched_brace_error() {
    assert_eq!(error_of("{p"), "-e expression #1, char 0: unmatched `{'");
}

#[test]
fn unexpected_brace_error() {
    assert_eq!(error_of("}"), "-e expression #1, char 1: unexpected `}'");
}

#[test]
fn missing_command_error() {
    assert_eq!(error_of("1"), "-e expression #1, char 1: missing command");
}

#[test]
fn multiple_negation_error() {
    assert_eq!(error_of("1!!p"), "-e expression #1, char 3: multiple `!'s");
}

#[test]
fn label_with_address_error() {
    assert_eq!(error_of("1:a"), "-e expression #1, char 2: : doesn't want any addresses");
}

#[test]
fn line_zero_error() {
    assert_eq!(error_of("0,5p"), "-e expression #1, char 4: invalid usage of line address 0");
}

#[test]
fn extra_characters_error() {
    assert_eq!(error_of("pq"), "-e expression #1, char 2: extra characters after command");
}

#[test]
fn relative_first_address_error() {
    assert_eq!(error_of("+1p"), "-e expression #1, char 2: invalid usage of +N or ~N as first address");
}

#[test]
fn one_address_command_error() {
    assert_eq!(error_of("1,2q"), "-e expression #1, char 4: command only uses one address");
}

#[test]
fn sandbox_refuses_files() {
    let mut o = options(&["r x"]);
    o.sandbox = true;
    match parse_scripts(&o) {
        Ok(_) => panic!("refused"),
        Err(e) => assert_eq!(e, "-e expression #1, char 1: e/r/w commands disabled in sandbox mode"),
    }
}

#[test]
fn posix_refuses_gnu_commands() {
    let mut o = options(&["F"]);
    o.posix = true;
    match parse_scripts(&o) {
        Ok(_) => panic!("refused"),
        Err(e) => assert_eq!(e, "-e expression #1, char 1: unknown command: `F'"),
    }
}

#[test]
fn file_scripts_report_lines() {
    let mut o = options(&[]);
    o.scripts.push(ScriptEntry { source: ScriptSource::File("script.sed".to_string()), content: "p\nk\n".to_string() });
    match parse_scripts(&o) {
        Ok(_) => panic!("refused"),
        Err(e) => assert_eq!(e, "file script.sed line 2: unknown command: `k'"),
    }
}

#[test]
fn scripts_join_in_gnu_mode() {
    let (cmds, hash_n) = parse_scripts(&options(&["#n", "p"])).expect("parses");
    assert_eq!(cmds.len(), 1);
    assert!(hash_n);
}

#[test]
fn scripts_stay_apart_in_posix_mode() {
    let mut o = options(&["1a\\", "text"]);
    o.posix = true;
    assert!(parse_scripts(&o).is_err());
    let mut o2 = options(&["p", "p"]);
    o2.posix = true;
    let (cmds, hash_n) = parse_scripts(&o2).expect("parses");
    assert_eq!(cmds.len(), 2);
    assert!(!hash_n);
}

#[test]
fn missing_label_is_found() {
    let (cmds, _) = parse_scripts(&options(&["b here;:there;t there"])).expect("parses");
    assert_eq!(validate_labels(&cmds), Some("here".to_string()));
    let (ok, _) = parse_scripts(&options(&[":a\n/x/{:b\nbb}\nba"])).expect("parses");
    assert_eq!(validate_labels(&ok), None);
}

#[test]
fn counts_groups() {
    assert_eq!(count_groups("(a)(b)"), 2);
    assert_eq!(count_groups("\\(a\\)"), 0);
    assert_eq!(count_groups("[(](x)"), 1);
}

#[test]
fn reference_past_groups_is_refused() {
    assert_eq!(error_of("s/\\(a\\)/\\2/"), "-e expression #1, char 11: invalid reference \\2 on `s' command's RHS");
}

#[test]
fn bad_regex_is_refused() {
    assert!(parse_scripts(&options(&["s/a\\{1/b/"])).is_err());
}

#[test]
fn newline_in_replacement_is_unterminated() {
    let e = error_of("s/a/b\np");
    assert_eq!(e, "-e expression #1, char 5: unterminated `s' command");
}

#[test]
fn translit_reads_multibyte_characters() {
    let (cmds, _) = parse_scripts(&options(&["y/é/e/"])).expect("parses");
    assert!(matches!(&cmds[0].command, Command::Transliterate(s, d) if *s == vec!['é'] && *d == vec!['e']));
}
