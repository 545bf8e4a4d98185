use rust_sed::cli::parse_scripts;
use rust_sed::engine::{count_commands, Engine, Request};
use rust_sed::labels::validate_labels;
use rust_sed::types::{Options, ScriptEntry, ScriptSource};

/// The outside world the engine talks to in these tests.
struct World {
    files: Vec<(String, Vec<u8>)>,
    written: Vec<(String, Vec<u8>)>,
    commands: Vec<(Vec<u8>, Vec<u8>)>,
    reports: Vec<String>,
}

impl World {
    fn new() -> World {
        World { files: Vec::new(), written: Vec::new(), commands: Vec::new(), reports: Vec::new() }
    }

    fn file(&self, name: &str) -> Option<Vec<u8>> {
        self.files.iter().find(|(n, _)| n == name).map(|(_, c)| c.clone())
    }

}

fn options(scripts: &[&str]) -> Options {
    let mut entries = Vec::new();
    for (k, s) in scripts.iter().enumerate() {
        entries.push(ScriptEntry { source: ScriptSource::Expression(k + 1), content: s.to_string() });
    }
    Options {
        in_place: None,
        quiet: false,
        extended: false,
        scripts: entries,
        files: Vec::new(),
        posix: false,
        unbuffered: false,
        null_data: false,
        separate: false,
        sandbox: false,
        follow_symlinks: false,
        line_length: 70,
    }
}

/// Runs the scripts of `o` on the inputs; returns the output and the exit
/// code.
fn run_with(o: &Options, inputs: &[(&str, &[u8])], world: &mut World) -> (Vec<u8>, i32) {
    let (commands, hash_n) = parse_scripts(o).expect("script parses");
    assert!(validate_labels(&commands).is_none());
    assert!(count_commands(&commands) < usize::MAX);
    let mut engine = Engine::new(commands, o.quiet || hash_n, o.posix, o.sandbox, o.line_length, o.null_data);
    for (name, data) in inputs {
        engine.add_input(name.to_string(), &data.to_vec());
    }
    let mut out = Vec::new();
    let mut reply = None;
    for _ in 0..100_000 {
        let r = engine.step(reply.take());
        match r {
            Request::Proceed => {}
            Request::Output(b) => out.extend_from_slice(&b),
            Request::ReadFile(f) => reply = world.file(&f),
            Request::ReadLine(f) => reply = world.file(&f),
            Request::WriteFile(f, b) => world.written.push((f, b)),
            Request::Execute(c) => {
                reply = world.commands.iter().find(|(k, _)| *k == c).map(|(_, v)| v.clone());
            }
            Request::Report(m) => world.reports.push(m),
            Request::Finished(code) => return (out, code),
        }
    }
    panic!("the engine did not finish");
}

fn sed(scripts: &[&str], input: &str) -> String {
    let o = options(scripts);
    let mut w = World::new();
    let (out, _) = run_with(&o, &[("-", input.as_bytes())], &mut w);
    String::from_utf8(out).unwrap()
}

fn sed_n(scripts: &[&str], input: &str) -> String {
    let mut o = options(scripts);
    o.quiet = true;
    let mut w = World::new();
    let (out, _) = run_with(&o, &[("-", input.as_bytes())], &mut w);
    String::from_utf8(out).unwrap()
}

#[test]
fn substitute_first_match() {
    assert_eq!(sed(&["s/o/0/"], "foo\nbar\n"), "f0o\nbar\n");
}

#[test]
fn substitute_global() {
    assert_eq!(sed(&["s/o/0/g"], "foo boo\n"), "f00 b00\n");
}

#[test]
fn substitute_nth_match() {
    assert_eq!(sed(&["s/o/0/3"], "foo boo\n"), "foo b0o\n");
    assert_eq!(sed(&["s/o/0/5"], "foo boo\n"), "foo boo\n");
}

#[test]
fn substitute_print_flag_with_quiet() {
    assert_eq!(sed_n(&["s/a/A/p"], "abc\nxyz\n"), "Abc\n");
}

#[test]
fn substitute_case_insensitive() {
    assert_eq!(sed(&["s/HELLO/bye/I"], "hello world\n"), "bye world\n");
}

#[test]
fn substitute_ampersand_and_groups() {
    assert_eq!(sed(&["s/[0-9]\\+/<&>/"], "ab12cd\n"), "ab<12>cd\n");
    assert_eq!(sed(&["s/\\(a\\)\\(b\\)/\\2\\1/"], "xaby\n"), "xbay\n");
}

#[test]
fn backreference_in_pattern() {
    assert_eq!(sed(&["s/\\(o\\)\\1/00/"], "foo bar\n"), "f00 bar\n");
    assert_eq!(sed(&["s/\\([a-z]\\)\\1/<\\1>/g"], "aabbcd\n"), "<a><b>cd\n");
    assert_eq!(sed_n(&["/\\(.\\)\\1/p"], "abc\nxyyz\nq\n"), "xyyz\n");
}

#[test]
fn substitute_extended_groups() {
    let mut o = options(&["s/(a)(b)/\\2\\1/"]);
    o.extended = true;
    let mut w = World::new();
    let (out, _) = run_with(&o, &[("-", b"xaby\n")], &mut w);
    assert_eq!(out, b"xbay\n");
}

#[test]
fn substitute_case_conversion() {
    assert_eq!(sed(&["s/\\(.*\\)/\\U\\1/"], "hello\n"), "HELLO\n");
    assert_eq!(sed(&["s/\\w\\+/\\u&/g"], "hello world\n"), "Hello World\n");
    assert_eq!(sed(&["s/.*/\\L&/"], "MiXeD\n"), "mixed\n");
    assert_eq!(sed(&["s/\\(..\\)\\(.*\\)/\\U\\1\\E\\2/"], "abcd\n"), "ABcd\n");
    assert_eq!(sed(&["s/.*/\\l&/"], "ABC\n"), "aBC\n");
}

#[test]
fn substitute_newline_escape() {
    assert_eq!(sed(&["s/ /\\n/"], "a b\n"), "a\nb\n");
}

#[test]
fn substitute_empty_regex_reuses_last() {
    assert_eq!(sed(&["/b/s//X/"], "abc\nbbb\n"), "aXc\nXbb\n");
}

#[test]
fn dot_matches_newline_in_pattern_space() {
    assert_eq!(sed(&["N;s/a.b/X/"], "a\nb\n"), "X\n");
}

#[test]
fn delete_and_print() {
    assert_eq!(sed(&["2d"], "a\nb\nc\n"), "a\nc\n");
    assert_eq!(sed(&["2p"], "a\nb\nc\n"), "a\nb\nb\nc\n");
    assert_eq!(sed_n(&["$p"], "a\nb\nc\n"), "c\n");
}

#[test]
fn print_first_line_and_delete_first_line() {
    assert_eq!(sed(&["$!N;P;D"], "1\n2\n3\n"), "1\n2\n3\n");
    assert_eq!(sed_n(&["N;P"], "a\nb\n"), "a\n");
}

#[test]
fn line_number_command() {
    assert_eq!(sed_n(&["$="], "a\nb\nc\n"), "3\n");
    assert_eq!(sed(&["="], "x\n"), "1\nx\n");
}

#[test]
fn list_command() {
    assert_eq!(sed_n(&["l"], "a\tb\\\n"), "a\\tb\\\\$\n");
    assert_eq!(sed_n(&["l5"], "abcdefgh\n"), "abcd\\\nefgh$\n");
    assert_eq!(sed_n(&["l0"], "abcdefgh\n"), "abcdefgh$\n");
}

#[test]
fn list_keeps_escapes_whole() {
    let mut o = options(&["l4"]);
    o.quiet = true;
    let mut w = World::new();
    let (out, _) = run_with(&o, &[("-", b"ab\x1d\n")], &mut w);
    assert_eq!(out, b"ab\\\n\\035$\n".to_vec());
}

#[test]
fn quit_with_exit_code() {
    let o = options(&["2q5"]);
    let mut w = World::new();
    let (out, code) = run_with(&o, &[("-", b"a\nb\nc\n")], &mut w);
    assert_eq!(out, b"a\nb\n");
    assert_eq!(code, 5);
}

#[test]
fn quit_without_printing() {
    let o = options(&["2Q"]);
    let mut w = World::new();
    let (out, code) = run_with(&o, &[("-", b"a\nb\nc\n")], &mut w);
    assert_eq!(out, b"a\n");
    assert_eq!(code, 0);
}

#[test]
fn append_insert_change() {
    assert_eq!(sed(&["1a\\\nafter"], "x\ny\n"), "x\nafter\ny\n");
    assert_eq!(sed(&["2i\\\nbefore"], "x\ny\n"), "x\nbefore\ny\n");
    assert_eq!(sed(&["1c\\\nchanged"], "x\ny\n"), "changed\ny\n");
    assert_eq!(sed(&["a hello"], "x\n"), "x\nhello\n");
}

#[test]
fn change_on_range_prints_once_at_the_end() {
    assert_eq!(sed(&["2,3c\\\nC"], "a\nb\nc\nd\n"), "a\nC\nd\n");
}

#[test]
fn transliterate() {
    assert_eq!(sed(&["y/abc/xyz/"], "aabbcc\n"), "xxyyzz\n");
}

#[test]
fn next_and_next_append() {
    assert_eq!(sed(&["n;d"], "1\n2\n3\n4\n"), "1\n3\n");
    assert_eq!(sed(&["N;s/\\n/-/"], "1\n2\n3\n4\n"), "1-2\n3-4\n");
}

#[test]
fn next_at_end_of_input_prints_once() {
    assert_eq!(sed(&["n"], "1\n2\n3\n"), "1\n2\n3\n");
}

#[test]
fn next_append_at_end_of_input_prints_in_gnu_mode() {
    assert_eq!(sed(&["N;s/\\n/-/"], "1\n2\n3\n"), "1-2\n3\n");
}

#[test]
fn next_append_at_end_of_input_posix() {
    let mut o = options(&["N;s/\\n/-/"]);
    o.posix = true;
    let mut w = World::new();
    let (out, _) = run_with(&o, &[("-", b"1\n2\n3\n")], &mut w);
    assert_eq!(out, b"1-2\n");
}

#[test]
fn hold_space_commands() {
    assert_eq!(sed(&["1h;2G"], "a\nb\n"), "a\nb\na\n");
    assert_eq!(sed(&["1h;2x"], "a\nb\n"), "a\na\n");
    assert_eq!(sed_n(&["H;${g;p}"], "a\nb\n"), "\na\nb\n");
    assert_eq!(sed(&["1!G;h;$!d"], "1\n2\n3\n"), "3\n2\n1\n");
}

#[test]
fn branch_and_labels() {
    assert_eq!(sed(&[":a;s/aa/a/;ta"], "aaaa\n"), "a\n");
    assert_eq!(sed(&["s/x/y/;T;s/$/!/"], "x\nz\n"), "y!\nz\n");
    assert_eq!(sed(&["b end;s/a/b/;:end"], "a\n"), "a\n");
}

#[test]
fn branch_without_label_prints() {
    assert_eq!(sed(&["b;d"], "a\n"), "a\n");
}

#[test]
fn branch_into_nested_block_label() {
    assert_eq!(sed(&["2b in;s/^/top:/;/zz/{:in\ns/$/:in/\n};s/$/./"], "a\nb\n"), "top:a.\nb:in.\n");
}

#[test]
fn blocks_with_negation() {
    assert_eq!(sed_n(&["/b/!{p}"], "a\nb\nc\n"), "a\nc\n");
    assert_eq!(sed(&["2{s/b/B/;s/B/C/}"], "a\nb\n"), "a\nC\n");
}

#[test]
fn line_ranges() {
    assert_eq!(sed_n(&["2,3p"], "1\n2\n3\n4\n"), "2\n3\n");
    assert_eq!(sed_n(&["3,1p"], "1\n2\n3\n4\n"), "3\n");
    assert_eq!(sed_n(&["/2/,/3/p"], "1\n2\n3\n4\n"), "2\n3\n");
    assert_eq!(sed_n(&["2,$p"], "1\n2\n3\n"), "2\n3\n");
}

#[test]
fn regex_range_end_is_looked_for_after_the_start() {
    assert_eq!(sed_n(&["/a/,/a/p"], "a\nb\na\nc\n"), "a\nb\na\n");
}

#[test]
fn zero_address_range_may_end_on_first_line() {
    assert_eq!(sed_n(&["0,/a/p"], "a\nb\na\n"), "a\n");
    assert_eq!(sed_n(&["1,/a/p"], "a\nb\na\n"), "a\nb\na\n");
}

#[test]
fn relative_and_multiple_range_ends() {
    assert_eq!(sed_n(&["/b/,+1p"], "a\nb\nc\nd\n"), "b\nc\n");
    assert_eq!(sed_n(&["2,~4p"], "1\n2\n3\n4\n5\n"), "2\n3\n4\n");
}

#[test]
fn step_addresses() {
    assert_eq!(sed_n(&["1~2p"], "1\n2\n3\n4\n5\n"), "1\n3\n5\n");
    assert_eq!(sed_n(&["0~3p"], "1\n2\n3\n4\n5\n6\n"), "3\n6\n");
}

#[test]
fn range_closes_when_a_branch_skips_its_end() {
    assert_eq!(sed_n(&["2,3{p;b};4,5p"], "1\n2\n3\n4\n5\n"), "2\n3\n4\n5\n");
    assert_eq!(sed_n(&["3bx;2,3p;:x"], "1\n2\n3\n4\n"), "2\n");
}

#[test]
fn hash_n_first_line_is_quiet() {
    assert_eq!(sed(&["#n\n2p"], "a\nb\nc\n"), "b\n");
    assert_eq!(sed(&["#x\n2p"], "a\nb\n"), "a\nb\nb\n");
}

#[test]
fn missing_final_newline_is_kept() {
    assert_eq!(sed(&["s/a/b/"], "a\na"), "b\nb");
    assert_eq!(sed(&["p"], "a"), "a\na");
    assert_eq!(sed(&["$a\\\nend"], "x"), "x\nend\n");
}

#[test]
fn null_data_mode() {
    let mut o = options(&["s/^/>/"]);
    o.null_data = true;
    let mut w = World::new();
    let (out, _) = run_with(&o, &[("-", b"a\nb\0c\0")], &mut w);
    assert_eq!(out, b">a\nb\0>c\0".to_vec());
}

#[test]
fn several_files_number_lines_on() {
    let mut o = options(&["$="]);
    o.quiet = true;
    let mut w = World::new();
    let (out, _) = run_with(&o, &[("f1", b"a\nb\n"), ("f2", b"c\n")], &mut w);
    assert_eq!(out, b"3\n");
}

#[test]
fn filename_command() {
    let mut o = options(&["F"]);
    o.quiet = true;
    let mut w = World::new();
    let (out, _) = run_with(&o, &[("one.txt", b"a\n"), ("-", b"b\n")], &mut w);
    assert_eq!(out, b"one.txt\n-\n".to_vec());
}

#[test]
fn read_file_command() {
    let o = options(&["1r extra.txt"]);
    let mut w = World::new();
    w.files.push(("extra.txt".to_string(), b"E1\nE2\n".to_vec()));
    let (out, _) = run_with(&o, &[("-", b"a\nb\n")], &mut w);
    assert_eq!(out, b"a\nE1\nE2\nb\n".to_vec());
}

#[test]
fn read_missing_file_adds_nothing() {
    let o = options(&["r nothing.txt"]);
    let mut w = World::new();
    let (out, _) = run_with(&o, &[("-", b"a\n")], &mut w);
    assert_eq!(out, b"a\n".to_vec());
}

#[test]
fn read_file_before_first_line() {
    let o = options(&["0r head.txt"]);
    let mut w = World::new();
    w.files.push(("head.txt".to_string(), b"H\n".to_vec()));
    let (out, _) = run_with(&o, &[("-", b"a\nb\n")], &mut w);
    assert_eq!(out, b"H\na\nb\n".to_vec());
}

#[test]
fn read_line_command() {
    let o = options(&["R lines.txt"]);
    let mut w = World::new();
    w.files.push(("lines.txt".to_string(), b"L1\nL2\n".to_vec()));
    let (out, _) = run_with(&o, &[("-", b"a\nb\nc\n")], &mut w);
    assert_eq!(out, b"a\nL1\nb\nL2\nc\n".to_vec());
}

#[test]
fn write_commands() {
    let o = options(&["w out.txt\nN;W first.txt"]);
    let mut w = World::new();
    let (out, _) = run_with(&o, &[("-", b"a\nb\n")], &mut w);
    assert_eq!(out, b"a\nb\n".to_vec());
    assert_eq!(w.written, vec![
        ("out.txt".to_string(), b"a\n".to_vec()),
        ("first.txt".to_string(), b"a\n".to_vec()),
    ]);
}

#[test]
fn substitute_write_flag() {
    let o = options(&["s/a/A/w changes.txt"]);
    let mut w = World::new();
    let (out, _) = run_with(&o, &[("-", b"a\nb\n")], &mut w);
    assert_eq!(out, b"A\nb\n".to_vec());
    assert_eq!(w.written, vec![("changes.txt".to_string(), b"A\n".to_vec())]);
}

#[test]
fn execute_commands() {
    let o = options(&["1e echo hi\n2e"]);
    let mut w = World::new();
    w.commands.push((b"echo hi".to_vec(), b"hi\n".to_vec()));
    w.commands.push((b"date".to_vec(), b"today\n".to_vec()));
    let (out, _) = run_with(&o, &[("-", b"a\ndate\n")], &mut w);
    assert_eq!(out, b"hi\na\ntoday\n".to_vec());
}

#[test]
fn substitute_execute_flag() {
    let o = options(&["s/x/echo y/e"]);
    let mut w = World::new();
    w.commands.push((b"echo y".to_vec(), b"y\n".to_vec()));
    let (out, _) = run_with(&o, &[("-", b"x\n")], &mut w);
    assert_eq!(out, b"y\n".to_vec());
}

#[test]
fn no_previous_regex_is_reported() {
    let o = options(&["s//x/"]);
    let mut w = World::new();
    let (out, code) = run_with(&o, &[("-", b"a\nb\n")], &mut w);
    assert_eq!(code, 1);
    assert_eq!(out, b"a\n".to_vec());
    assert_eq!(w.reports, vec!["-e expression #1, char 0: no previous regular expression".to_string()]);
}

#[test]
fn raw_bytes_are_kept() {
    let o = options(&["s/a/b/"]);
    let mut w = World::new();
    let (out, _) = run_with(&o, &[("-", b"\xff\xfea\n")], &mut w);
    assert_eq!(out, b"\xff\xfeb\n".to_vec());
}

#[test]
fn escapes_in_replacement_give_raw_bytes() {
    let o = options(&["s/a/\\xff/"]);
    let mut w = World::new();
    let (out, _) = run_with(&o, &[("-", b"a\n")], &mut w);
    assert_eq!(out, b"\xff\n".to_vec());
}

#[test]
fn empty_input_runs_no_cycle() {
    assert_eq!(sed(&["p"], ""), "");
}

#[test]
fn joined_expressions_continue_text() {
    assert_eq!(sed(&["1a\\", "text"], "x\n"), "x\ntext\n");
}

#[test]
fn decimal_and_octal_escapes_wrap() {
    let o = options(&["s/a/\\d300\\o777/"]);
    let mut w = World::new();
    let (out, _) = run_with(&o, &[("-", b"a\n")], &mut w);
    assert_eq!(out, b",\xff\n".to_vec());
}

#[test]
fn translit_maps_utf8_characters() {
    assert_eq!(sed(&["y/é/e/"], "café\n"), "cafe\n");
    assert_eq!(sed(&["y/éa/Eb/"], "aé\n"), "bE\n");
}

#[test]
fn global_substitution_sets_the_flag_even_unchanged() {
    assert_eq!(sed(&["s/a/&/g;t;s/^/X/"], "a\n"), "a\n");
    assert_eq!(sed(&["s/q/&/g;t;s/^/X/"], "a\n"), "Xa\n");
}

#[test]
fn case_conversion_maps_unicode_letters() {
    assert_eq!(sed(&["s/.*/\\U&/"], "café\n"), "CAFÉ\n");
    assert_eq!(sed(&["s/.*/\\L&/"], "ÉCOLE\n"), "école\n");
    assert_eq!(sed(&["s/.*/\\u&/"], "élan\n"), "Élan\n");
}

#[test]
fn read_line_drops_carriage_returns_and_stops_at_the_end() {
    let o = options(&["R crlf.txt"]);
    let mut w = World::new();
    w.files.push(("crlf.txt".to_string(), b"L1\r\nL2".to_vec()));
    let (out, _) = run_with(&o, &[("-", b"a\nb\nc\n")], &mut w);
    assert_eq!(out, b"a\nL1\nb\nL2\nc\n".to_vec());
}

#[test]
fn empty_script_echoes_its_input() {
    assert_eq!(sed(&[""], "a\nb\nc"), "a\nb\nc");
    assert_eq!(sed_n(&[""], "a\nb\n"), "");
}

#[test]
fn script_text_is_written_in_utf8() {
    assert_eq!(sed(&["s/a/é/"], "a\n"), "é\n");
    assert_eq!(sed(&["y/a/é/"], "a\n"), "é\n");
    assert_eq!(sed(&["1a\\", "café"], "x\n"), "x\ncafé\n");
}

#[test]
fn raw_bytes_from_a_latin1_script_come_back_as_bytes() {
    let script = rust_sed::cli::bytes_to_string_latin1(b"s/a/\xe9/");
    let o = options(&[script.as_str()]);
    let mut w = World::new();
    let (out, _) = run_with(&o, &[("-", b"a\n")], &mut w);
    assert_eq!(out, b"\xe9\n".to_vec());
}

#[test]
fn file_names_keep_their_characters() {
    let o = options(&["w café.txt"]);
    let mut w = World::new();
    let _ = run_with(&o, &[("-", b"x\n")], &mut w);
    assert!(w.written.iter().any(|(f, _)| f == "café.txt"));
}
