use vivaldi_notes_parser::args::parse_args;
use vivaldi_notes_parser::args::Args;
use vivaldi_notes_parser::args::Input;

fn get_string_vec(v: &Vec<&str>) -> Vec<String> {
    v.iter().map(|&i| String::from(i)).collect()
}

#[test]
fn test_index() {
    let s = "abcdefg";
    let t = &s[..std::cmp::min(10, s.len())];
    println!("{t}");
}

#[test]
fn test_parse_args() {
    let help_vec = vec!["V", "-h"];
    let help_args = get_string_vec(&help_vec);
    assert_eq!(help_args.get(0), Some(&String::from("V")));
    assert_eq!(help_args.get(1), Some(&String::from("-h")));

    let help_args = get_string_vec(&help_vec);
    let help_args_parsed = parse_args(help_args);
    if let Args::Help = help_args_parsed {
        assert!(true);
    } else {
        assert!(false);
    }

    // No args besides the program name: nothing is gathered, so this routes
    // to the search command in summary mode (key and criterion absent),
    // reading standard input
    let help_key_vec = vec!["V"];
    let help_key_args = get_string_vec(&help_key_vec);
    let help_key_args_parsed = parse_args(help_key_args);
    if let Args::Key { key, val, contains, input } = help_key_args_parsed {
        assert_eq!(key, None);
        assert_eq!(val, None);
        assert_eq!(contains, None);
        assert!(matches!(input, Input::Stdin));
    } else {
        assert!(false);
    }

    // Even with other args present, -h always shows help
    let help_key_vec = vec!["V", "-k", "key", "-h"];
    let help_key_args = get_string_vec(&help_key_vec);
    let help_key_args_parsed = parse_args(help_key_args);
    if let Args::Help = help_key_args_parsed {
        assert!(true);
    } else {
        assert!(false);
    }

    // -k, -v, and -c should return help (only one of -v or -c)
    let val_contains_vec = vec!["V", "-k", "key", "-v", "value", "-c", "contents"];
    let val_contains_args = get_string_vec(&val_contains_vec);
    let val_contains_args_parsed = parse_args(val_contains_args);
    if let Args::Help = val_contains_args_parsed {
        assert!(true);
    } else {
        assert!(false);
    }

    // -v without -k should return help
    let val_only_vec = vec!["V", "-v", "value"];
    let val_only_args = get_string_vec(&val_only_vec);
    let val_only_args_parsed = parse_args(val_only_args);
    if let Args::Help = val_only_args_parsed {
        assert!(true);
    } else {
        assert!(false);
    }

    // -c without -k should return help
    let contains_only_vec = vec!["V", "-c", "contents"];
    let contains_only_args = get_string_vec(&contains_only_vec);
    let contains_only_args_parsed = parse_args(contains_only_args);
    if let Args::Help = contains_only_args_parsed {
        assert!(true);
    } else {
        assert!(false);
    }

    // -k with no key given should return help
    let help_key_vec = vec!["V", "-k"];
    let help_key_args = get_string_vec(&help_key_vec);
    let help_key_args_parsed = parse_args(help_key_args);
    if let Args::Help = help_key_args_parsed {
        assert!(true);
    } else {
        assert!(false);
    }

    // -k, -v, and no file
    let key_vec = vec!["V", "-k", "key", "-v", "value"];
    let key_args = get_string_vec(&key_vec);
    let key_args_parsed = parse_args(key_args);
    if let Args::Key { key, val, contains, input } = key_args_parsed {
        assert_eq!(key, Some(String::from("key")));
        assert_eq!(val, Some(String::from("value")));
        assert_eq!(contains, None);
        if let Input::Stdin = input {
            assert!(true);
        } else {
            assert!(false);
        }
    } else {
        assert!(false);
    }

    // -k, -v, and file
    let key_vec = vec!["V", "-k", "key", "-v", "value", "test.json"];
    let key_args = get_string_vec(&key_vec);
    let key_args_parsed = parse_args(key_args);
    if let Args::Key { key, val, contains, input } = key_args_parsed {
        assert_eq!(key, Some(String::from("key")));
        assert_eq!(val, Some(String::from("value")));
        assert_eq!(contains, None);
        if let Input::File(file) = input {
            assert_eq!(file, String::from("test.json"));
        } else {
            assert!(false);
        }
    } else {
        assert!(false);
    }

    // -k, -c, and no file
    let key_vec = vec!["V", "-k", "key", "-c", "contents"];
    let key_args = get_string_vec(&key_vec);
    let key_args_parsed = parse_args(key_args);
    if let Args::Key { key, val, contains, input } = key_args_parsed {
        assert_eq!(key, Some(String::from("key")));
        assert_eq!(val, None);
        assert_eq!(contains, Some(String::from("contents")));
        if let Input::Stdin = input {
            assert!(true);
        } else {
            assert!(false);
        }
    } else {
        assert!(false);
    }

    // -k, -c, and file
    let key_vec = vec!["V", "-k", "key", "-c", "contents", "test.json"];
    let key_args = get_string_vec(&key_vec);
    let key_args_parsed = parse_args(key_args);
    if let Args::Key { key, val, contains, input } = key_args_parsed {
        assert_eq!(key, Some(String::from("key")));
        assert_eq!(val, None);
        assert_eq!(contains, Some(String::from("contents")));
        if let Input::File(file) = input {
            assert_eq!(file, String::from("test.json"));
        } else {
            assert!(false);
        }
    } else {
        assert!(false);
    }
}

#[test]
fn test_help_long_form_and_position() {
    // --help anywhere after index 0 wins, whatever else is present
    let parsed = parse_args(get_string_vec(&vec!["V", "-v", "x", "--help", "file"]));
    assert!(matches!(parsed, Args::Help));
    // a help token at index 0 is the program name and is skipped
    let parsed = parse_args(get_string_vec(&vec!["-h"]));
    assert!(matches!(parsed, Args::Key { .. }));
}

#[test]
fn test_trailing_value_flags_give_help() {
    // -v as the final token has nothing to consume
    let parsed = parse_args(get_string_vec(&vec!["V", "-k", "key", "-v"]));
    assert!(matches!(parsed, Args::Help));
    // so does -c
    let parsed = parse_args(get_string_vec(&vec!["V", "-k", "key", "-c"]));
    assert!(matches!(parsed, Args::Help));
}

#[test]
fn test_flag_value_consumed_not_file() {
    // the token after -v is consumed as the value even in last position
    let parsed = parse_args(get_string_vec(&vec!["V", "-k", "key", "-v", "value"]));
    if let Args::Key { input, .. } = parsed {
        assert!(matches!(input, Input::Stdin));
    } else {
        assert!(false);
    }
}

#[test]
fn test_ignored_tokens_and_key_only() {
    // a stray token that is not last is ignored; -k alone still parses to a
    // search with no criterion
    let parsed = parse_args(get_string_vec(&vec!["V", "stray", "-k", "id", "notes.json"]));
    if let Args::Key { key, val, contains, input } = parsed {
        assert_eq!(key, Some(String::from("id")));
        assert_eq!(val, None);
        assert_eq!(contains, None);
        if let Input::File(file) = input {
            assert_eq!(file, String::from("notes.json"));
        } else {
            assert!(false);
        }
    } else {
        assert!(false);
    }
}

#[test]
fn test_long_flag_forms() {
    let parsed = parse_args(get_string_vec(&vec!["V", "--key", "id", "--value", "7"]));
    if let Args::Key { key, val, contains, .. } = parsed {
        assert_eq!(key, Some(String::from("id")));
        assert_eq!(val, Some(String::from("7")));
        assert_eq!(contains, None);
    } else {
        assert!(false);
    }
    let parsed = parse_args(get_string_vec(&vec!["V", "--key", "id", "--contains", "me"]));
    if let Args::Key { key, val, contains, .. } = parsed {
        assert_eq!(key, Some(String::from("id")));
        assert_eq!(val, None);
        assert_eq!(contains, Some(String::from("me")));
    } else {
        assert!(false);
    }
}

#[test]
fn test_help_token_consumed_as_value_does_not_win() {
    // -k consumes the following token, so a help token standing there is a
    // key name, not a help request
    let parsed = parse_args(get_string_vec(&vec!["V", "-k", "-h"]));
    if let Args::Key { key, .. } = parsed {
        assert_eq!(key, Some(String::from("-h")));
    } else {
        assert!(false);
    }
}

#[test]
fn test_repeated_flag_last_one_wins() {
    let parsed = parse_args(get_string_vec(&vec!["V", "-k", "a", "-k", "b", "-v", "1"]));
    if let Args::Key { key, val, .. } = parsed {
        assert_eq!(key, Some(String::from("b")));
        assert_eq!(val, Some(String::from("1")));
    } else {
        assert!(false);
    }
}
