use whkd::grammar::SyntaxErrorKind;
use whkd::model::{HotkeyBinding, Shell, Whkdrc};
use whkd::parser::{parser, SyntaxError};

fn plain(keys: &[&str], command: &str) -> HotkeyBinding {
    HotkeyBinding {
        keys: keys.iter().map(|k| String::from(*k)).collect(),
        command: String::from(command),
        process_name: None,
    }
}

fn scoped(keys: &[&str], command: &str, scope: &str) -> HotkeyBinding {
    HotkeyBinding {
        keys: keys.iter().map(|k| String::from(*k)).collect(),
        command: String::from(command),
        process_name: Some(String::from(scope)),
    }
}

fn fault(text: &str) -> SyntaxError {
    parser(text).unwrap_err()
}

#[test]
fn lib_test_single_line_parse() {
    let src = r#"
.shell pwsh # can be one of cmd | pwsh | powershell

alt + h : echo "Hello""#;

    let output = parser(src);
    let expected = Whkdrc {
        shell: Shell::Pwsh,
        app_bindings: vec![],
        bindings: vec![HotkeyBinding {
            keys: vec![String::from("alt"), String::from("h")],
            command: String::from("echo \"Hello\""),
            process_name: None,
        }],
        pause_binding: None,
        pause_hook: None,
    };

    assert_eq!(output.unwrap(), expected);
}

#[test]
fn parser_test_single_line_parse() {
    let src = r#"
.shell pwsh # can be one of cmd | pwsh | powershell

alt + h : echo "Hello""#;

    let output = parser(src).unwrap();

    assert_eq!(output.shell, Shell::Pwsh);
    assert_eq!(output.app_bindings, vec![]);
    assert_eq!(
        output.bindings,
        vec![HotkeyBinding {
            keys: vec![String::from("alt"), String::from("h")],
            command: String::from("echo \"Hello\""),
            process_name: None,
        }]
    );
}

#[test]
fn test_starts_with_comment_single_line_parser() {
    let src = r#"
# sample comment
.shell pwsh # can be one of cmd | pwsh | powershell

alt + h : echo "Hello""#;

    let output = parser(src);
    let expected = Whkdrc {
        shell: Shell::Pwsh,
        app_bindings: vec![],
        bindings: vec![HotkeyBinding {
            keys: vec![String::from("alt"), String::from("h")],
            command: String::from("echo \"Hello\""),
            process_name: None,
        }],
        pause_binding: None,
        pause_hook: None,
    };

    assert_eq!(output.unwrap(), expected);
}

const SAMPLE: &str = r#"
.shell cmd

# Specify different behaviour depending on the app
alt + n [
    # ProcessName as shown by `Get-Process`
    Firefox       : echo "hello firefox"

    # Spaces are fine, no quotes required
    Google Chrome : echo "hello chrome"
]

# leading newlines are fine
# line comments should parse and be ignored
alt + h     : komorebic focus left # so should comments at the end of a line
alt + j     : komorebic focus down
alt + k     : komorebic focus up
alt + l     : komorebic focus right

# so should empty lines
alt + 1 : komorebic focus-workspace 0 # digits are fine in the hotkeys section

# trailing newlines are fine


"#;

#[test]
fn lib_test_parse() {
    let output = parser(SAMPLE);
    let expected = Whkdrc {
        shell: Shell::Cmd,
        app_bindings: vec![(
            vec![String::from("alt"), String::from("n")],
            vec![
                HotkeyBinding {
                    keys: vec![String::from("alt"), String::from("n")],
                    command: String::from(r#"echo "hello firefox""#),
                    process_name: Option::from("Firefox".to_string()),
                },
                HotkeyBinding {
                    keys: vec![String::from("alt"), String::from("n")],
                    command: String::from(r#"echo "hello chrome""#),
                    process_name: Option::from("Google Chrome".to_string()),
                },
            ],
        )],
        bindings: vec![
            HotkeyBinding {
                keys: vec![String::from("alt"), String::from("h")],
                command: String::from("komorebic focus left"),
                process_name: None,
            },
            HotkeyBinding {
                keys: vec![String::from("alt"), String::from("j")],
                command: String::from("komorebic focus down"),
                process_name: None,
            },
            HotkeyBinding {
                keys: vec![String::from("alt"), String::from("k")],
                command: String::from("komorebic focus up"),
                process_name: None,
            },
            HotkeyBinding {
                keys: vec![String::from("alt"), String::from("l")],
                command: String::from("komorebic focus right"),
                process_name: None,
            },
            HotkeyBinding {
                keys: vec![String::from("alt"), String::from("1")],
                command: String::from("komorebic focus-workspace 0"),
                process_name: None,
            },
        ],
        pause_binding: None,
        pause_hook: None,
    };

    assert_eq!(output.unwrap(), expected);
}

#[test]
fn parser_test_parse() {
    let output = parser(SAMPLE).unwrap();

    assert_eq!(output.shell, Shell::Cmd);
    assert_eq!(
        output.app_bindings,
        vec![(
            vec![String::from("alt"), String::from("n")],
            vec![
                HotkeyBinding {
                    keys: vec![String::from("alt"), String::from("n")],
                    command: String::from(r#"echo "hello firefox""#),
                    process_name: Option::from("Firefox".to_string()),
                },
                HotkeyBinding {
                    keys: vec![String::from("alt"), String::from("n")],
                    command: String::from(r#"echo "hello chrome""#),
                    process_name: Option::from("Google Chrome".to_string()),
                },
            ],
        )]
    );
    assert_eq!(
        output.bindings,
        vec![
            plain(&["alt", "h"], "komorebic focus left"),
            plain(&["alt", "j"], "komorebic focus down"),
            plain(&["alt", "k"], "komorebic focus up"),
            plain(&["alt", "l"], "komorebic focus right"),
            plain(&["alt", "1"], "komorebic focus-workspace 0"),
        ]
    );
}

#[test]
fn test_binding_without_modkeys() {
    let src = r#"
# sample comment
.shell pwsh # can be one of cmd | pwsh | powershell

f11 : echo "hello f11""#;

    let output = parser(src);
    let expected = Whkdrc {
        shell: Shell::Pwsh,
        app_bindings: vec![],
        bindings: vec![HotkeyBinding {
            keys: vec![String::from("f11")],
            command: String::from("echo \"hello f11\""),
            process_name: None,
        }],
        pause_binding: None,
        pause_hook: None,
    };

    assert_eq!(output.unwrap(), expected);
}

#[test]
fn test_default_and_scoped_ignores() {
    let src = r#"
.shell pwsh

alt + n [
    Default       : echo "hello world"
    Firefox       : echo "hello firefox"
    Google Chrome : echo "hello chrome"
    Zen Browser   : Ignore
]

alt + h : echo "Hello""#;

    let output = parser(src);
    let expected = Whkdrc {
        shell: Shell::Pwsh,
        app_bindings: vec![(
            vec![String::from("alt"), String::from("n")],
            vec![
                HotkeyBinding {
                    keys: vec![String::from("alt"), String::from("n")],
                    command: String::from(r#"echo "hello world""#),
                    process_name: Option::from("Default".to_string()),
                },
                HotkeyBinding {
                    keys: vec![String::from("alt"), String::from("n")],
                    command: String::from(r#"echo "hello firefox""#),
                    process_name: Option::from("Firefox".to_string()),
                },
                HotkeyBinding {
                    keys: vec![String::from("alt"), String::from("n")],
                    command: String::from(r#"echo "hello chrome""#),
                    process_name: Option::from("Google Chrome".to_string()),
                },
                HotkeyBinding {
                    keys: vec![String::from("alt"), String::from("n")],
                    command: String::from("Ignore"),
                    process_name: Option::from("Zen Browser".to_string()),
                },
            ],
        )],
        bindings: vec![HotkeyBinding {
            keys: vec![String::from("alt"), String::from("h")],
            command: String::from(r#"echo "Hello""#),
            process_name: None,
        }],
        pause_binding: None,
        pause_hook: None,
    };

    assert_eq!(output.unwrap(), expected);
}

#[test]
fn test_pause_hotkey() {
    let src = r#"
.shell pwsh
.pause ctrl + shift + esc

alt + h : echo "Hello""#;

    let output = parser(src);
    let expected = Whkdrc {
        shell: Shell::Pwsh,
        app_bindings: vec![],
        bindings: vec![HotkeyBinding {
            keys: vec![String::from("alt"), String::from("h")],
            command: String::from(r#"echo "Hello""#),
            process_name: None,
        }],
        pause_binding: Some(vec![
            "ctrl".to_string(),
            "shift".to_string(),
            "esc".to_string(),
        ]),
        pause_hook: None,
    };

    assert_eq!(output.unwrap(), expected);
}

#[test]
fn test_pause_hook() {
    let src = r#"
.shell pwsh
.pause ctrl + shift + esc
.pause_hook komorebic toggle-pause

alt + h : echo "Hello""#;

    let output = parser(src);
    let expected = Whkdrc {
        shell: Shell::Pwsh,
        app_bindings: vec![],
        bindings: vec![HotkeyBinding {
            keys: vec![String::from("alt"), String::from("h")],
            command: String::from(r#"echo "Hello""#),
            process_name: None,
        }],
        pause_binding: Some(vec![
            "ctrl".to_string(),
            "shift".to_string(),
            "esc".to_string(),
        ]),
        pause_hook: Some("komorebic toggle-pause".to_string()),
    };

    assert_eq!(output.unwrap(), expected);
}

#[test]
fn test_pause_hook_with_comments() {
    let src = r#"
.shell pwsh                            # can be one of cmd | pwsh | powershell
.pause alt + shift + p                 # can be any hotkey combo to toggle all other hotkeys on and off
.pause_hook komorebic toggle-pause     # another comment

alt + h : echo "Hello""#;

    let output = parser(src);
    let expected = Whkdrc {
        shell: Shell::Pwsh,
        app_bindings: vec![],
        bindings: vec![HotkeyBinding {
            keys: vec![String::from("alt"), String::from("h")],
            command: String::from(r#"echo "Hello""#),
            process_name: None,
        }],
        pause_binding: Some(vec![
            "alt".to_string(),
            "shift".to_string(),
            "p".to_string(),
        ]),
        pause_hook: Some("komorebic toggle-pause".to_string()),
    };

    assert_eq!(output.unwrap(), expected);
}

#[test]
fn parses_the_smallest_configuration() {
    let output = parser(".shell pwsh\nalt + h : echo hi").unwrap();
    let expected = Whkdrc {
        shell: Shell::Pwsh,
        app_bindings: vec![],
        bindings: vec![plain(&["alt", "h"], "echo hi")],
        pause_binding: None,
        pause_hook: None,
    };
    assert_eq!(output, expected);
}

#[test]
fn parsing_twice_gives_equal_configurations() {
    assert_eq!(parser(SAMPLE), parser(SAMPLE));
    assert_eq!(parser(".shell zsh"), parser(".shell zsh"));
}

#[test]
fn each_shell_name_is_known() {
    assert_eq!(parser(".shell cmd\na : b").unwrap().shell, Shell::Cmd);
    assert_eq!(parser(".shell powershell\na : b").unwrap().shell, Shell::Powershell);
    assert_eq!(parser(".shell pwsh\na : b").unwrap().shell, Shell::Pwsh);
}

#[test]
fn command_is_trimmed_and_stops_at_a_comment() {
    let output = parser(".shell cmd\nalt + h :   echo a b   \t # note\nf1:x#y").unwrap();
    assert_eq!(
        output.bindings,
        vec![plain(&["alt", "h"], "echo a b"), plain(&["f1"], "x")]
    );
}

#[test]
fn command_keeps_non_ascii_text() {
    let output = parser(".shell cmd\nalt + h : echo \u{e9}t\u{e9} \u{2014} ok\u{a0}\n").unwrap();
    assert_eq!(output.bindings, vec![plain(&["alt", "h"], "echo \u{e9}t\u{e9} \u{2014} ok")]);
}

#[test]
fn chord_takes_names_and_numbers_with_any_spacing() {
    let output = parser(".shell cmd\nctrl+alt  +\t0 : zero\n_x + 42 + Key_9 : go").unwrap();
    assert_eq!(
        output.bindings,
        vec![plain(&["ctrl", "alt", "0"], "zero"), plain(&["_x", "42", "Key_9"], "go")]
    );
}

#[test]
fn group_entry_may_close_after_ignore() {
    let output = parser(".shell cmd\nalt + n [ Default : echo d\n Firefox : Ignore ]\nalt + h : x").unwrap();
    assert_eq!(
        output.app_bindings,
        vec![(
            vec![String::from("alt"), String::from("n")],
            vec![
                scoped(&["alt", "n"], "echo d", "Default"),
                scoped(&["alt", "n"], "Ignore", "Firefox"),
            ],
        )]
    );
}

#[test]
fn a_longer_word_is_no_ignore() {
    let output = parser(".shell cmd\nalt + n [\n Firefox : Ignored by all\n]\nalt + h : x").unwrap();
    assert_eq!(output.app_bindings[0].1, vec![scoped(&["alt", "n"], "Ignored by all", "Firefox")]);
}

#[test]
fn pause_hook_without_pause() {
    let output = parser(".shell cmd\n.pause_hook echo toggled\nalt + h : x").unwrap();
    assert_eq!(output.pause_binding, None);
    assert_eq!(output.pause_hook, Some(String::from("echo toggled")));
}

#[test]
fn missing_shell_is_a_fault() {
    assert_eq!(fault("alt + h : x"), SyntaxError { position: 0, kind: SyntaxErrorKind::MissingShell });
    assert_eq!(fault(""), SyntaxError { position: 0, kind: SyntaxErrorKind::MissingShell });
    assert_eq!(
        fault("# only a comment\n"),
        SyntaxError { position: 17, kind: SyntaxErrorKind::MissingShell }
    );
}

#[test]
fn unknown_shell_is_a_fault() {
    assert_eq!(
        fault(".shell zsh\nalt + h : x"),
        SyntaxError { position: 7, kind: SyntaxErrorKind::UnknownShell }
    );
    assert_eq!(
        fault(".shell pwshx\nalt + h : x"),
        SyntaxError { position: 7, kind: SyntaxErrorKind::UnknownShell }
    );
}

#[test]
fn malformed_chord_is_a_fault() {
    assert_eq!(
        fault(".shell cmd\nalt + : x"),
        SyntaxError { position: 17, kind: SyntaxErrorKind::ExpectedKey }
    );
    assert_eq!(
        fault(".shell cmd\nalt h : x"),
        SyntaxError { position: 15, kind: SyntaxErrorKind::ExpectedDelimiter }
    );
    assert_eq!(
        fault(".shell cmd\nalt + 01 : x"),
        SyntaxError { position: 18, kind: SyntaxErrorKind::ExpectedDelimiter }
    );
    assert_eq!(
        fault(".shell cmd\n.pause\nalt + h : x"),
        SyntaxError { position: 26, kind: SyntaxErrorKind::ExpectedKey }
    );
}

#[test]
fn unterminated_group_is_a_fault() {
    assert_eq!(
        fault(".shell cmd\nalt + n [\n Firefox : echo f\n"),
        SyntaxError { position: 39, kind: SyntaxErrorKind::UnterminatedGroup }
    );
    assert_eq!(
        fault(".shell cmd\nalt + n [ Firefox : echo f ]\nalt + h : x"),
        SyntaxError { position: 44, kind: SyntaxErrorKind::ExpectedColon }
    );
}

#[test]
fn group_faults_are_told_apart() {
    assert_eq!(
        fault(".shell cmd\nalt + n [ ]\nalt + h : x"),
        SyntaxError { position: 21, kind: SyntaxErrorKind::EmptyGroup }
    );
    assert_eq!(
        fault(".shell cmd\nalt + n [\n : x\n]\nalt + h : x"),
        SyntaxError { position: 22, kind: SyntaxErrorKind::ExpectedProcessName }
    );
    assert_eq!(
        fault(".shell cmd\nalt + n [\n Firefox x\n]\nalt + h : x"),
        SyntaxError { position: 32, kind: SyntaxErrorKind::ExpectedColon }
    );
    assert_eq!(
        fault(".shell cmd\nalt + n [\n Firefox 1\n]\nalt + h : x"),
        SyntaxError { position: 30, kind: SyntaxErrorKind::ExpectedColon }
    );
    assert_eq!(
        fault(".shell cmd\nalt + h : x\nalt + n [\n Firefox : y\n]\n"),
        SyntaxError { position: 23, kind: SyntaxErrorKind::MisplacedGroup }
    );
}

#[test]
fn a_configuration_needs_a_plain_binding() {
    assert_eq!(
        fault(".shell cmd\n"),
        SyntaxError { position: 11, kind: SyntaxErrorKind::MissingBinding }
    );
    assert_eq!(
        fault(".shell cmd\nalt + n [\n Firefox : y\n]\n"),
        SyntaxError { position: 36, kind: SyntaxErrorKind::MissingBinding }
    );
}

#[test]
fn trailing_text_is_a_fault() {
    assert_eq!(
        fault(".shell cmd\nalt + h : x\n]"),
        SyntaxError { position: 23, kind: SyntaxErrorKind::ExpectedKey }
    );
}

fn sampled_chars() -> Vec<char> {
    let mut chars: Vec<char> = (0..=0x3100u32).filter_map(char::from_u32).collect();
    chars.extend((0x3101..=0x10FFFFu32).step_by(257).filter_map(char::from_u32));
    chars
}

#[test]
fn white_space_is_what_the_standard_library_calls_so() {
    for c in sampled_chars() {
        if c == '#' {
            continue;
        }
        let output = parser(&format!(".shell cmd\na : {c}x{c}")).unwrap();
        let expected = if c.is_whitespace() { String::from("x") } else { format!("{c}x{c}") };
        assert_eq!(output.bindings, vec![plain(&["a"], &expected)], "U+{:04X}", c as u32);
    }
}

#[test]
fn line_breaks_end_a_command_and_other_white_space_does_not() {
    let breaks = ['\n', '\r', '\x0B', '\x0C', '\u{85}', '\u{2028}', '\u{2029}'];
    for c in sampled_chars() {
        let output = parser(&format!(".shell cmd\na : x{c}y : z")).unwrap();
        let expected = if breaks.contains(&c) {
            vec![plain(&["a"], "x"), plain(&["y"], "z")]
        } else if c == '#' {
            vec![plain(&["a"], "x")]
        } else {
            vec![plain(&["a"], &format!("x{c}y : z"))]
        };
        assert_eq!(output.bindings, expected, "U+{:04X}", c as u32);
    }
}

#[test]
fn a_comment_runs_to_the_end_of_its_line() {
    let breaks = ['\n', '\r', '\x0B', '\x0C', '\u{85}', '\u{2028}', '\u{2029}'];
    for c in sampled_chars() {
        let output = parser(&format!(".shell cmd\na : x # note{c}y : z"));
        if breaks.contains(&c) {
            assert_eq!(output.unwrap().bindings, vec![plain(&["a"], "x"), plain(&["y"], "z")]);
        } else {
            assert_eq!(output.unwrap().bindings, vec![plain(&["a"], "x")], "U+{:04X}", c as u32);
        }
    }
}

#[test]
fn names_are_ascii_letters_digits_and_underscores() {
    for c in sampled_chars() {
        let output = parser(&format!(".shell cmd\na{c} : x"));
        let continues = c.is_ascii_alphanumeric() || c == '_';
        let extended = match &output {
            Ok(config) => config.bindings[0].keys == vec![format!("a{c}")],
            Err(_) => false,
        };
        assert_eq!(extended, continues, "U+{:04X}", c as u32);

        let output = parser(&format!(".shell cmd\n{c}a : x"));
        let starts = c.is_ascii_alphabetic() || c == '_';
        let begun = match &output {
            Ok(config) => config.bindings[0].keys == vec![format!("{c}a")],
            Err(_) => false,
        };
        assert_eq!(begun, starts, "U+{:04X}", c as u32);
    }
}

#[test]
fn numbers_have_no_leading_zero() {
    assert_eq!(parser(".shell cmd\n0 : x").unwrap().bindings, vec![plain(&["0"], "x")]);
    assert_eq!(parser(".shell cmd\n10 + 207 : x").unwrap().bindings, vec![plain(&["10", "207"], "x")]);
    assert_eq!(
        fault(".shell cmd\n007 : x"),
        SyntaxError { position: 12, kind: SyntaxErrorKind::ExpectedDelimiter }
    );
    assert_eq!(
        fault(".shell cmd\n1a : x"),
        SyntaxError { position: 12, kind: SyntaxErrorKind::ExpectedDelimiter }
    );
}

#[test]
fn comments_may_stand_between_any_two_elements() {
    let text = "# top\n.shell cmd # one\n# two\n.pause ctrl + p # three\n# four\n.pause_hook hook # five\n# six\nalt + n [ # seven\n # eight\n Firefox : f # nine\n # ten\n] # eleven\n# twelve\nalt + h : x # thirteen\n# fourteen";
    let output = parser(text).unwrap();
    assert_eq!(output.shell, Shell::Cmd);
    assert_eq!(output.pause_binding, Some(vec![String::from("ctrl"), String::from("p")]));
    assert_eq!(output.pause_hook, Some(String::from("hook")));
    assert_eq!(
        output.app_bindings,
        vec![(vec![String::from("alt"), String::from("n")], vec![scoped(&["alt", "n"], "f", "Firefox")])]
    );
    assert_eq!(output.bindings, vec![plain(&["alt", "h"], "x")]);
}

#[test]
fn a_command_may_be_empty() {
    let output = parser(".shell cmd\nalt + h : # nothing\nalt + j :").unwrap();
    assert_eq!(output.bindings, vec![plain(&["alt", "h"], ""), plain(&["alt", "j"], "")]);
}

#[test]
fn a_command_may_begin_on_the_next_line() {
    let output = parser(".shell cmd\nalt + h :\n   echo hi\n").unwrap();
    assert_eq!(output.bindings, vec![plain(&["alt", "h"], "echo hi")]);
}

#[test]
fn process_names_are_joined_by_one_space() {
    let output = parser(".shell cmd\nalt + n [\n Google   Chrome \t Beta : c\n Default Browser : d\n]\na : b").unwrap();
    assert_eq!(
        output.app_bindings[0].1,
        vec![
            scoped(&["alt", "n"], "c", "Google Chrome Beta"),
            scoped(&["alt", "n"], "d", "Default Browser"),
        ]
    );
}

#[test]
fn directives_are_whole_words() {
    assert_eq!(
        fault(".shells cmd\na : b"),
        SyntaxError { position: 0, kind: SyntaxErrorKind::MissingShell }
    );
    assert_eq!(
        fault(".shell cmd\n.pauses ctrl + p\na : b"),
        SyntaxError { position: 11, kind: SyntaxErrorKind::ExpectedKey }
    );
    assert_eq!(
        fault(".shell\na : b"),
        SyntaxError { position: 7, kind: SyntaxErrorKind::UnknownShell }
    );
}

#[test]
fn directives_keep_their_order() {
    assert_eq!(
        fault(".shell cmd\n.pause_hook hook\n.pause ctrl + p\na : b"),
        SyntaxError { position: 28, kind: SyntaxErrorKind::ExpectedKey }
    );
    assert_eq!(
        fault(".pause ctrl + p\n.shell cmd\na : b"),
        SyntaxError { position: 0, kind: SyntaxErrorKind::MissingShell }
    );
}

#[test]
fn each_fault_has_its_words() {
    let kinds = [
        (SyntaxErrorKind::MissingShell, "expected the .shell directive"),
        (SyntaxErrorKind::UnknownShell, "expected one of cmd, powershell, pwsh"),
        (SyntaxErrorKind::ExpectedKey, "expected a key name or a number"),
        (SyntaxErrorKind::ExpectedDelimiter, "expected ':' or '[' after the keys"),
        (SyntaxErrorKind::ExpectedProcessName, "expected a process name"),
        (SyntaxErrorKind::ExpectedColon, "expected ':' after the process name"),
        (SyntaxErrorKind::EmptyGroup, "expected an entry before ']'"),
        (SyntaxErrorKind::UnterminatedGroup, "expected ']' before the end"),
        (SyntaxErrorKind::MisplacedGroup, "expected no group after a plain binding"),
        (SyntaxErrorKind::MissingBinding, "expected at least one plain binding"),
    ];
    for (kind, words) in kinds {
        assert_eq!(kind.reason(), words);
    }
}
