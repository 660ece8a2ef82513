use gnu_echo_rs::echo::{classify, echo, format_arg, render_arg, Action, Echo, Flag, Settings};
use gnu_echo_rs::escape::{interpret_escapes, replace_hex, replace_octal, replace_simple};

fn run_args(args: &[&str]) -> Action {
    let owned: Vec<String> = args.iter().map(|a| a.to_string()).collect();
    echo(&owned)
}

fn output(args: &[&str]) -> Vec<u8> {
    match run_args(args) {
        Action::Write(b) => b,
        other => panic!("expected output, got {:?}", other),
    }
}

fn cps(s: &str) -> Vec<u32> {
    s.chars().map(|c| c as u32).collect()
}

#[test]
fn plain_arguments_are_joined_with_spaces() {
    assert_eq!(output(&["hello", "world"]), b"hello world\n".to_vec());
}

#[test]
fn no_arguments_give_a_newline() {
    assert_eq!(output(&[]), b"\n".to_vec());
}

#[test]
fn plain_arguments_keep_backslashes() {
    assert_eq!(output(&["a\\nb", "c"]), b"a\\nb c\n".to_vec());
}

#[test]
fn options_after_text_are_text() {
    assert_eq!(output(&["a", "-n", "-e", "--help"]), b"a -n -e --help\n".to_vec());
}

#[test]
fn combined_letters_are_not_an_option() {
    assert_eq!(output(&["-ne", "x"]), b"-ne x\n".to_vec());
}

#[test]
fn dash_n_drops_only_the_newline() {
    assert_eq!(output(&["-n", "hello", "world"]), b"hello world".to_vec());
    assert_eq!(output(&["-n"]), Vec::<u8>::new());
}

#[test]
fn escapes_then_no_escapes_is_plain() {
    let with_both = output(&["-e", "-E", "a\\tb"]);
    assert_eq!(with_both, output(&["a\\tb"]));
    assert_eq!(with_both, b"a\\tb\n".to_vec());
    assert_eq!(output(&["-E", "-e", "a\\tb"]), b"a\tb\n".to_vec());
}

#[test]
fn escaped_backslash_is_one_backslash() {
    assert_eq!(output(&["-e", "a\\\\b"]), b"a\\b\n".to_vec());
    assert_eq!(output(&["-e", "a\\\\nb"]), b"a\\nb\n".to_vec());
}

#[test]
fn stop_sequence_ends_all_output() {
    assert_eq!(output(&["-e", "ab\\cde", "more"]), b"ab".to_vec());
}

#[test]
fn stop_sequence_in_a_later_segment() {
    assert_eq!(output(&["-e", "a\\\\b\\cz", "y"]), b"a\\b".to_vec());
}

#[test]
fn stop_sequence_in_a_later_argument() {
    assert_eq!(output(&["-e", "one", "t\\cwo", "three"]), b"one t".to_vec());
}

#[test]
fn octal_escapes() {
    assert_eq!(output(&["-e", "\\101"]), b"A\n".to_vec());
    assert_eq!(output(&["-e", "\\0101"]), b"A\n".to_vec());
    assert_eq!(output(&["-e", "\\777"]), vec![255u8, 10]);
    assert_eq!(output(&["-e", "\\0777"]), vec![255u8, 10]);
    assert_eq!(output(&["-e", "\\0"]), vec![0u8, 10]);
    assert_eq!(output(&["-e", "\\1018"]), b"A8\n".to_vec());
}

#[test]
fn octal_result_is_read_again() {
    assert_eq!(replace_octal(cps("\\1341")), vec![1u32]);
}

#[test]
fn hex_escapes() {
    assert_eq!(output(&["-e", "\\x41"]), b"A\n".to_vec());
    assert_eq!(output(&["-e", "\\x"]), b"\\x\n".to_vec());
    assert_eq!(output(&["-e", "\\x4"]), vec![4u8, 10]);
    assert_eq!(output(&["-e", "\\x4a"]), b"J\n".to_vec());
    assert_eq!(output(&["-e", "\\x414"]), b"A4\n".to_vec());
}

#[test]
fn bare_hex_is_passed_over() {
    assert_eq!(replace_hex(cps("\\x\\x41")), cps("\\xA"));
    assert_eq!(replace_hex(cps("\\xg")), cps("\\xg"));
}

#[test]
fn simple_sequences() {
    assert_eq!(
        output(&["-e", "\\a\\b\\e\\f\\n\\r\\t\\v"]),
        vec![7u8, 8, 27, 12, 10, 13, 9, 11, 10]
    );
    assert_eq!(replace_simple(&cps("\\q\\n")), vec![92u32, 113, 10]);
}

#[test]
fn help_and_version_win() {
    assert_eq!(run_args(&["--help"]), Action::Help);
    assert_eq!(run_args(&["-n", "-e", "--help", "x"]), Action::Help);
    assert_eq!(run_args(&["--version", "--help"]), Action::Version);
    assert_eq!(run_args(&["-E", "--version", "x"]), Action::Version);
}

#[test]
fn help_after_text_is_text() {
    assert_eq!(output(&["x", "--help"]), b"x --help\n".to_vec());
}

#[test]
fn text_without_backslash_is_unchanged() {
    let (on, stop_on) = render_arg("plain text", true);
    let (off, stop_off) = render_arg("plain text", false);
    assert_eq!(on, b"plain text".to_vec());
    assert_eq!(on, off);
    assert!(!stop_on && !stop_off);
}

#[test]
fn characters_become_their_low_byte() {
    assert_eq!(output(&["\u{e9}"]), vec![0xe9u8, 10]);
    assert_eq!(output(&["-e", "\u{15c}n"]), vec![0x5cu8, b'n', 10]);
}

#[test]
fn format_arg_turns_newline_off_on_stop() {
    let mut settings = Settings::default();
    assert!(settings.trailing_newline && !settings.interpret_backslash_escapes);
    assert_eq!(format_arg("a\\cb".to_string(), &mut settings), b"a\\cb".to_vec());
    assert!(settings.trailing_newline);
    settings.interpret_backslash_escapes = true;
    assert_eq!(format_arg("a\\cb".to_string(), &mut settings), b"a".to_vec());
    assert!(!settings.trailing_newline);
}

#[test]
fn interpret_escapes_reports_stop() {
    assert_eq!(interpret_escapes(&cps("x\\cy")), (cps("x"), true));
    assert_eq!(interpret_escapes(&cps("x\\\\y")), (cps("x\\y"), false));
}

#[test]
fn classify_words() {
    assert_eq!(classify("-n"), Some(Flag::NoNewline));
    assert_eq!(classify("-e"), Some(Flag::Escapes));
    assert_eq!(classify("-E"), Some(Flag::NoEscapes));
    assert_eq!(classify("--help"), Some(Flag::Help));
    assert_eq!(classify("--version"), Some(Flag::Version));
    assert_eq!(classify("-x"), None);
    assert_eq!(classify(""), None);
}

#[test]
fn step_by_step() {
    let mut e = Echo::new();
    assert_eq!(e.step("-n"), Action::Write(vec![]));
    assert_eq!(e.step("a"), Action::Write(b"a".to_vec()));
    assert_eq!(e.step("-e"), Action::Write(b" -e".to_vec()));
    assert_eq!(e.finish(), Vec::<u8>::new());
}

#[test]
fn numeric_escapes_before_stop_are_decoded() {
    assert_eq!(output(&["-e", "\\101\\c"]), b"A".to_vec());
    assert_eq!(output(&["-e", "x\\x41\\cy", "z"]), b"xA".to_vec());
    assert_eq!(output(&["-e", "ab\\c\\\\de"]), b"ab".to_vec());
}

#[test]
fn escaped_backslash_before_c_is_no_stop() {
    assert_eq!(output(&["-e", "a\\\\cb", "d"]), b"a\\cb d\n".to_vec());
    assert_eq!(output(&["-e", "a\\\\\\cb", "d"]), b"a\\".to_vec());
}
