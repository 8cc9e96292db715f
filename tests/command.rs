use pepper_core::command::{
    BuiltinCommand, CommandError, CommandIter, CommandManager, CommandParseError, CommandSource, TextRange,
};

fn create_commands() -> CommandManager {
    let builtin_commands = vec![
        BuiltinCommand {
            names: vec!["cmd0".to_string()],
            description: String::new(),
            bang_usage: Some(String::new()),
            params: vec![],
        },
        BuiltinCommand {
            names: vec!["command-name".to_string(), "c".to_string()],
            description: String::new(),
            bang_usage: Some(String::new()),
            params: vec![String::new(), String::new(), String::new()],
        },
    ];
    CommandManager::new(builtin_commands)
}

fn slice(text: &str, range: TextRange) -> &str {
    &text[range.start..range.end]
}

#[test]
fn command_parsing() {
    fn assert_bang(commands: &CommandManager, command: &str, expect_bang: bool) {
        let (source, bang, _) = match commands.parse(command) {
            Ok(result) => result,
            Err(_) => panic!("command parse error at '{}'", command),
        };
        assert!(matches!(source, CommandSource::Builtin(0)));
        assert_eq!(expect_bang, bang);
    }

    let commands = create_commands();
    assert_bang(&commands, "cmd0", false);
    assert_bang(&commands, "  cmd0  ", false);
    assert_bang(&commands, "  cmd0!  ", true);
    assert_bang(&commands, "  cmd0!", true);
}

#[test]
fn arg_parsing() {
    fn parse_args(commands: &CommandManager, command: &str) -> Vec<String> {
        match commands.parse(command) {
            Ok((_, _, args)) => args.iter().map(|r| slice(command, *r).to_string()).collect(),
            Err(_) => panic!("command '{}' parse error", command),
        }
    }

    let commands = create_commands();
    assert_eq!(["aaa", "bbb", "ccc"], &parse_args(&commands, "c  aaa  bbb  ccc  ")[..]);
    assert_eq!(["aaa", "bbb", "ccc"], &parse_args(&commands, "c  'aaa'  \"bbb\"  ccc  ")[..]);
    assert_eq!(["aaa", "bbb", "ccc"], &parse_args(&commands, "c  \"aaa\"\"bbb\"ccc  ")[..]);
    assert_eq!(["aaa", "bbb", "ccc"], &parse_args(&commands, "c  [aaa][bbb]ccc  ")[..]);
}

#[test]
fn command_parsing_fail() {
    let commands = create_commands();

    fn expect_err(commands: &CommandManager, command: &str) -> CommandParseError {
        match commands.parse(command) {
            Ok(_) => panic!("command parsed successfully"),
            Err(e) => e,
        }
    }

    let check_name = |command: &str, expect: &str| match expect_err(&commands, command) {
        CommandParseError::InvalidCommandName(r) => assert_eq!(expect, slice(command, r)),
        _ => panic!("other error occurred"),
    };
    check_name("", "");
    check_name("   ", "");
    check_name(" !", "!");
    check_name("!  'aa'", "!");

    match expect_err(&commands, "  a \"aa\"") {
        CommandParseError::CommandNotFound(r) => assert_eq!("a", slice("  a \"aa\"", r)),
        _ => panic!("other error occurred"),
    }

    let check_unterminated = |command: &str, expect: &str| match expect_err(&commands, command) {
        CommandParseError::UnterminatedArgument(r) => assert_eq!(expect, slice(command, r)),
        _ => panic!("other error occurred"),
    };
    check_unterminated("c 0 1 'abc", "abc");
    check_unterminated("c 0 1 '", "");
    check_unterminated("c 0 1 \"'", "'");

    const MAX_VALUES_LEN: usize = 3;
    let mut too_many_values_command = String::new();
    too_many_values_command.push('c');
    for _ in 0..MAX_VALUES_LEN {
        too_many_values_command.push_str(" a");
    }
    too_many_values_command.push_str(" b");
    match expect_err(&commands, &too_many_values_command) {
        CommandParseError::TooManyArguments(r, MAX_VALUES_LEN) => {
            assert_eq!("b", slice(&too_many_values_command, r))
        }
        _ => panic!("other error occurred"),
    }
}

fn next_command<'a>(text: &'a str, commands: &mut CommandIter) -> Option<&'a str> {
    commands.next().map(|r| slice(text, r))
}

#[test]
fn multi_command_line_parsing() {
    let text = "command0\ncommand1";
    let mut commands = CommandIter::new(text);
    assert_eq!(Some("command0"), next_command(text, &mut commands));
    assert_eq!(Some("command1"), next_command(text, &mut commands));
    assert_eq!(None, next_command(text, &mut commands));

    let text = "command0\n\n\ncommand1";
    let mut commands = CommandIter::new(text);
    assert_eq!(Some("command0"), next_command(text, &mut commands));
    assert_eq!(Some("command1"), next_command(text, &mut commands));
    assert_eq!(None, next_command(text, &mut commands));

    let text = "command0\\\n still command0\ncommand1";
    let mut commands = CommandIter::new(text);
    assert_eq!(Some("command0\\\n still command0"), next_command(text, &mut commands));
    assert_eq!(Some("command1"), next_command(text, &mut commands));
    assert_eq!(None, next_command(text, &mut commands));

    let text = "   #command0";
    let mut commands = CommandIter::new(text);
    assert_eq!(None, next_command(text, &mut commands));

    let text = "command0 # command1";
    let mut commands = CommandIter::new(text);
    assert_eq!(Some("command0 "), next_command(text, &mut commands));
    assert_eq!(None, next_command(text, &mut commands));

    let text = "    # command0\ncommand1";
    let mut commands = CommandIter::new(text);
    assert_eq!(Some("command1"), next_command(text, &mut commands));
    assert_eq!(None, next_command(text, &mut commands));

    let text = "command0# comment\n\n# more comment\n\n# one more comment\ncommand1";
    let mut commands = CommandIter::new(text);
    assert_eq!(Some("command0"), next_command(text, &mut commands));
    assert_eq!(Some("command1"), next_command(text, &mut commands));
    assert_eq!(None, next_command(text, &mut commands));
}

#[test]
fn parse_reports_each_error_kind() {
    let commands = create_commands();
    let text = "c 0 1 !";
    match commands.parse(text) {
        Err(CommandParseError::InvalidArgument(r)) => assert_eq!("!", slice(text, r)),
        _ => panic!("expected an invalid argument"),
    }
    let text = "c a b";
    match commands.parse(text) {
        Err(CommandParseError::TooFewArguments(r, 3)) => assert_eq!("b", slice(text, r)),
        _ => panic!("expected too few arguments"),
    }
    let text = "c";
    match commands.parse(text) {
        Err(CommandParseError::TooFewArguments(r, 3)) => assert_eq!("c", slice(text, r)),
        _ => panic!("expected too few arguments"),
    }
    let no_bang = CommandManager::new(vec![BuiltinCommand {
        names: vec!["q".to_string()],
        description: String::new(),
        bang_usage: None,
        params: vec![],
    }]);
    let text = "q!";
    match no_bang.parse(text) {
        Err(CommandParseError::CommandDoesNotAcceptBang(r)) => assert_eq!("q", slice(text, r)),
        _ => panic!("expected a refused bang"),
    }
}

#[test]
fn parse_finds_command_by_any_name() {
    let commands = create_commands();
    let text = "command-name x y z";
    match commands.parse(text) {
        Ok((CommandSource::Builtin(1), false, args)) => {
            let args: Vec<&str> = args.iter().map(|r| slice(text, *r)).collect();
            assert_eq!(vec!["x", "y", "z"], args);
        }
        _ => panic!("expected the second command"),
    }
    assert!(matches!(commands.find_command("c"), Some(CommandSource::Builtin(1))));
    assert!(commands.find_command("d").is_none());
}

#[test]
fn emitted_command_parses_to_same_tokens() {
    let commands = create_commands();
    let args = ["a b", "it's", "[x]"];
    let text = format!("c \"{}\" \"{}\" '{}'", args[0], args[1], args[2]);
    match commands.parse(&text) {
        Ok((_, _, ranges)) => {
            let parsed: Vec<&str> = ranges.iter().map(|r| slice(&text, *r)).collect();
            assert_eq!(args.to_vec(), parsed);
        }
        Err(_) => panic!("parse error"),
    }
}

#[test]
fn joined_commands_split_again() {
    let text = "a 1\n\n# note\nb 2 # tail\nc\\\n 3";
    let mut it = CommandIter::new(text);
    let mut parts = Vec::new();
    while let Some(r) = it.next() {
        parts.push(slice(text, r).to_string());
    }
    assert_eq!(vec!["a 1", "b 2 ", "c\\\n 3"], parts);
    let joined = parts.join("\n");
    let mut it = CommandIter::new(&joined);
    let mut again = Vec::new();
    while let Some(r) = it.next() {
        again.push(slice(&joined, r).to_string());
    }
    assert_eq!(parts, again);
}

#[test]
fn history_ring_keeps_last_entries() {
    let mut commands = create_commands();
    commands.add_to_history("");
    assert_eq!(0, commands.history_len());
    for i in 0..12 {
        commands.add_to_history(&format!("cmd{}", i));
    }
    assert_eq!(10, commands.history_len());
    assert_eq!("cmd2", commands.history_entry(0));
    assert_eq!("cmd11", commands.history_entry(9));
    assert_eq!("", commands.history_entry(10));
}

#[test]
fn error_display_underlines_the_token() {
    let commands = create_commands();
    let text = "c 0 1 'abc";
    let error = match commands.parse(text) {
        Err(e) => CommandError::ParseError(e),
        Ok(_) => panic!("command parsed successfully"),
    };
    let shown = String::from_utf8(error.display(text)).unwrap();
    assert_eq!("c 0 1 'abc\n       ^^^\nunterminated argument", shown);

    let text = "zz";
    let error = match commands.parse(text) {
        Err(e) => CommandError::ParseError(e),
        Ok(_) => panic!("command parsed successfully"),
    };
    let shown = String::from_utf8(error.display(text)).unwrap();
    assert_eq!("zz\n^^\nno such command 'zz'", shown);

    let shown = String::from_utf8(CommandError::NoBufferOpened.display("x")).unwrap();
    assert_eq!("no buffer opened", shown);
    let shown = String::from_utf8(
        CommandError::ParseError(CommandParseError::TooManyArguments(TextRange { start: 2, end: 3 }, 12)).display("c a b"),
    )
    .unwrap();
    assert_eq!("c a b\n  ^\ncommand expects 12 parameters", shown);
}

#[test]
fn eval_command_builds_the_context() {
    let commands = create_commands();
    let text = "c 12 x 18446744073709551616";
    let (source, ctx) = match commands.eval_command(None, None, text) {
        Ok(r) => r,
        Err(_) => panic!("eval failed"),
    };
    assert!(matches!(source, CommandSource::Builtin(1)));
    assert!(!ctx.bang);
    assert!(matches!(ctx.parse_arg(text, 0), Ok(12)));
    assert!(matches!(ctx.parse_arg(text, 1), Err(CommandError::ParseArgError { .. })));
    assert!(matches!(ctx.parse_arg(text, 2), Err(CommandError::ParseArgError { .. })));
    assert!(matches!(ctx.current_buffer_view_handle(), Err(CommandError::NoBufferOpened)));
    assert!(matches!(commands.eval_command(None, None, "nope"), Err(CommandError::ParseError(CommandParseError::CommandNotFound(_)))));
}

#[test]
fn aborted_renders_nothing() {
    assert!(CommandError::Aborted.display("anything").is_empty());
    let shown = String::from_utf8(CommandError::InvalidPath(TextRange { start: 2, end: 5 }).display("e abc")).unwrap();
    assert_eq!("e abc\n  ^^^\ninvalid path 'abc'", shown);
}
