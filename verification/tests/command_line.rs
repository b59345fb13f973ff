use wav_demo::args::{bitrate_list, parse, ArgError, Command};
use wav_demo::text::{
    parse_i32, put_decimal, put_signed, same, split, starts_with, trim, white,
};

fn run(args: &[&str]) -> Result<Command, ArgError> {
    parse(&args.iter().map(|a| a.to_string()).collect())
}

fn options(args: &[&str]) -> (Option<String>, Vec<i32>) {
    match run(args) {
        Ok(Command::Run(o)) => (o.input, o.bitrates),
        _ => panic!("not a run"),
    }
}

fn refusal(args: &[&str]) -> String {
    match run(args) {
        Err(e) => e.message(),
        Ok(_) => panic!("accepted"),
    }
}

#[test]
fn three_bitrates_by_default() {
    assert_eq!(options(&[]), (None, vec![24, 64, 128]));
    assert_eq!(options(&["some.wav"]), (Some("some.wav".to_string()), vec![24, 64, 128]));
}

#[test]
fn bitrates_are_a_comma_separated_list() {
    assert_eq!(
        options(&["some.wav", "--bitrates", "16,32,64,128"]),
        (Some("some.wav".to_string()), vec![16, 32, 64, 128])
    );
    assert_eq!(options(&["--bitrates", " 16 ,\t+32, -5"]).1, [16, 32, -5]);
}

#[test]
fn later_arguments_replace_earlier_ones() {
    assert_eq!(
        options(&["a", "--bitrates", "1", "b", "--bitrates", "2,3"]),
        (Some("b".to_string()), vec![2, 3])
    );
    assert_eq!(options(&[""]).0, Some(String::new()));
}

#[test]
fn help_wins_unless_an_error_comes_first() {
    assert!(matches!(run(&["-h"]), Ok(Command::Help)));
    assert!(matches!(run(&["a", "--help", "--nonsense"]), Ok(Command::Help)));
    assert_eq!(refusal(&["--nonsense", "--help"]), "unknown flag --nonsense");
}

#[test]
fn each_bad_argument_is_explained() {
    assert_eq!(refusal(&["--bitrates"]), "--bitrates needs a value, e.g. 32,64");
    assert_eq!(refusal(&["--bitrates", "1,x ,y"]), "not a number: x ");
    assert_eq!(refusal(&["--bitrates", ""]), "not a number: ");
    assert_eq!(refusal(&["-x"]), "unknown flag -x");
    assert_eq!(refusal(&["-"]), "unknown flag -");
    assert!(matches!(run(&["--bitrates"]), Err(ArgError::NoValue)));
    assert!(matches!(run(&["--bitrates", "x"]), Err(ArgError::NotNumber(s)) if s == "x"));
    assert!(matches!(run(&["-x"]), Err(ArgError::UnknownFlag(s)) if s == "-x"));
}

#[test]
fn value_of_bitrates_may_look_like_a_flag() {
    assert_eq!(refusal(&["--bitrates", "--help"]), "not a number: --help");
    assert_eq!(bitrate_list("-7").ok(), Some(vec![-7]));
    assert_eq!(bitrate_list("1,,2").err(), Some(String::new()));
}

#[test]
fn numbers_are_read_as_std_reads_them() {
    let cases = [
        "", "+", "-", "0", "00", "-0", "+0", "7", "+7", "-7", "2147483647", "2147483648",
        "-2147483648", "-2147483649", "99999999999999999999", "000000000000000000001", "1 ", " 1",
        "1_0", "++1", "1+", "0x1", "１", "1٠", "1.0", "-+1",
    ];
    for c in cases {
        assert_eq!(parse_i32(c), c.parse::<i32>().ok(), "{c:?}");
    }
}

#[test]
fn numbers_are_written_as_std_writes_them() {
    for n in [0, 1, 9, 10, 11, 99, 100, 12_345, u32::MAX as u64, u64::MAX] {
        let mut s = "n=".to_string();
        put_decimal(&mut s, n);
        assert_eq!(s, format!("n={n}"));
    }
    for n in [0, 5, -5, i32::MIN as i64, i64::MIN, i64::MAX] {
        let mut s = String::new();
        put_signed(&mut s, n);
        assert_eq!(s, n.to_string());
    }
}

#[test]
fn written_numbers_read_back() {
    for n in [0, 1, -1, 24, -24, 1000, i32::MIN, i32::MAX] {
        let mut s = String::new();
        put_signed(&mut s, n as i64);
        assert_eq!(parse_i32(&s), Some(n));
    }
}

#[test]
fn white_space_is_what_unicode_says() {
    for c in '\0'..=char::MAX {
        assert_eq!(white(c), c.is_whitespace(), "{c:?}");
    }
}

#[test]
fn trimming_takes_both_ends_only() {
    for s in ["", " ", "a", " a ", "\u{3000}a b\u{85}\n", "a\t", "\r\na"] {
        assert_eq!(trim(s), s.trim());
    }
}

#[test]
fn splitting_keeps_empty_fields() {
    for s in ["", ",", "a", "a,b", ",a,", "a,,b", "ä,ö"] {
        let list: Vec<&str> = s.split(',').collect();
        assert_eq!(split(s, ','), list);
        assert_eq!(split(s, ',').join(","), s);
    }
}

#[test]
fn texts_are_compared_whole_or_from_the_front() {
    assert!(same("", ""));
    assert!(same("añb", "añb"));
    assert!(!same("a", "ab"));
    assert!(!same("ab", "a"));
    assert!(!same("ab", "ac"));
    assert!(starts_with("libopus 1.6.1", "libopus 1.6"));
    assert!(starts_with("x", ""));
    assert!(!starts_with("libopus 1.5", "libopus 1.6"));
    assert!(!starts_with("lib", "libopus"));
}
