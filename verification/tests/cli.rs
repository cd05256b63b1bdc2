use chronicler::{parse_command, parse_count, should_read_last_n, should_update_headers, Command};

fn args(list: &[&str]) -> Vec<String> {
    list.iter().map(|s| s.to_string()).collect()
}

#[test]
fn does_not_update_headers_without_flag() {
    let args = vec![String::from("chronicler")];
    assert!(!should_update_headers(args));
}

#[test]
fn updates_headers_with_long_flag() {
    let args = vec![String::from("chronicler"), String::from("--update-headers")];
    assert!(should_update_headers(args));
}

#[test]
fn updates_headers_with_short_flag() {
    let args = vec![String::from("chronicler"), String::from("-u")];
    assert!(should_update_headers(args));
}

#[test]
fn update_flag_in_program_name_position_is_ignored() {
    assert!(!should_update_headers(args(&["-u", "entry"])));
    assert!(should_update_headers(args(&["chronicler", "entry", "-u"])));
}

#[test]
fn read_flags_give_counts() {
    assert_eq!(should_read_last_n(args(&["chronicler", "--today"])), Some(1));
    assert_eq!(should_read_last_n(args(&["chronicler", "--read", "3"])), Some(3));
    assert_eq!(should_read_last_n(args(&["chronicler", "--read"])), Some(7));
    assert_eq!(should_read_last_n(args(&["chronicler", "--read", "x"])), Some(7));
    assert_eq!(should_read_last_n(args(&["chronicler", "--read", "-3"])), Some(7));
    assert_eq!(should_read_last_n(args(&["chronicler", "--read", "+12"])), Some(12));
    assert_eq!(should_read_last_n(args(&["chronicler", "entry"])), None);
    assert_eq!(should_read_last_n(args(&["--today"])), None);
    assert_eq!(
        should_read_last_n(args(&["chronicler", "--read", "2", "--today"])),
        Some(2)
    );
}

#[test]
fn counts_parse_as_usize_does() {
    for text in ["0", "7", "+7", "007", "18446744073709551615", "", "+", "-1", " 7", "7 ", "1e3"] {
        assert_eq!(parse_count(text), text.parse::<usize>().ok(), "{text}");
    }
    assert_eq!(parse_count("99999999999999999999999"), None);
}

#[test]
fn command_follows_the_flags_in_order() {
    assert_eq!(
        parse_command(args(&["chronicler", "-u", "--today"])),
        Command::ReadLast(1)
    );
    assert_eq!(
        parse_command(args(&["chronicler", "-u"])),
        Command::UpdateHeaders
    );
    assert_eq!(
        parse_command(args(&["chronicler", "walked the dog"])),
        Command::Append(String::from("walked the dog"))
    );
    assert_eq!(parse_command(args(&["chronicler"])), Command::ShowUsage);
}
