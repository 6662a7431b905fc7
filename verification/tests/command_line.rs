use stoat::command_line::{parse_command, parse_command_in, Command, CommandLineView, ParseError};

#[test]
fn parses_cd_with_absolute_path() {
    let result = parse_command("cd /tmp");
    assert_eq!(
        result,
        Ok(Command::ChangeDirectory {
            path: b"/tmp".to_vec()
        })
    );
}

#[test]
fn parses_cd_with_relative_path() {
    let result = parse_command("cd ../other");
    assert_eq!(
        result,
        Ok(Command::ChangeDirectory {
            path: b"../other".to_vec()
        })
    );
}

#[test]
fn parses_cd_with_tilde() {
    let result = parse_command("cd ~/projects");
    match result {
        Ok(Command::ChangeDirectory { path }) => {
            assert!(String::from_utf8_lossy(&path).contains("projects"));
            assert!(!String::from_utf8_lossy(&path).contains('~'));
        },
        _ => panic!("Expected ChangeDirectory command"),
    }
}

#[test]
fn cd_without_path_returns_error() {
    let result = parse_command("cd");
    assert!(matches!(result, Err(ParseError::MissingArgument { .. })));
}

#[test]
fn empty_command_returns_error() {
    let result = parse_command("");
    assert_eq!(result, Err(ParseError::EmptyCommand));
}

#[test]
fn unknown_command_returns_error() {
    let result = parse_command("foo bar");
    assert_eq!(result, Err(ParseError::UnknownCommand("foo".to_string())));
}

fn cd(path: &str) -> Result<Command, ParseError> {
    Ok(Command::ChangeDirectory { path: path.as_bytes().to_vec() })
}

#[test]
fn tilde_stands_for_the_home_directory() {
    assert_eq!(parse_command_in("cd ~/projects", Some(b"/home/u")), cd("/home/u/projects"));
    assert_eq!(parse_command_in("cd ~/projects", Some(b"/home/u/")), cd("/home/u/projects"));
    assert_eq!(parse_command_in("cd ~/projects", None), cd("~/projects"));
    assert_eq!(parse_command_in("cd ~", None), cd("~"));
    assert_eq!(parse_command_in("cd ~", Some(b"/home/u")), cd("/home/u"));
    assert_eq!(parse_command_in("  cd   ~ ", Some(b"/home/u")), cd("/home/u"));
    assert_eq!(parse_command_in("cd ~other", Some(b"/home/u")), cd("~other"));
    assert_eq!(parse_command_in("cd ~/", Some(b"/home/u")), cd("/home/u/"));
    assert_eq!(parse_command_in("cd ~//x", Some(b"/home/u")), cd("/x"));
    assert_eq!(parse_command_in("cd ~/é", Some(b"/home/u")), cd("/home/u/é"));
    assert_eq!(parse_command_in("cd ~/x", Some(b"")), cd("x"));
}

#[test]
fn a_home_that_is_not_text_keeps_its_bytes() {
    assert_eq!(
        parse_command_in("cd ~", Some(b"/home/\xff")),
        Ok(Command::ChangeDirectory { path: b"/home/\xff".to_vec() })
    );
    assert_eq!(
        parse_command_in("cd ~/x", Some(b"/home/\xff")),
        Ok(Command::ChangeDirectory { path: b"/home/\xff/x".to_vec() })
    );
}

#[test]
fn the_home_of_the_user_is_the_one_that_the_system_names() {
    let home = dirs::home_dir().map(|home| home.into_os_string().into_encoded_bytes());
    assert_eq!(parse_command("cd ~/x"), parse_command_in("cd ~/x", home.as_deref()));
    assert_eq!(parse_command("cd ~"), parse_command_in("cd ~", home.as_deref()));
}

#[test]
fn words_of_a_path_are_joined_with_single_spaces() {
    assert_eq!(parse_command_in("  cd   a\t b ", None), cd("a b"));
}

#[test]
fn errors_say_what_is_wrong() {
    assert_eq!(parse_command("   ").unwrap_err().message(), "Empty command");
    assert_eq!(parse_command("foo bar").unwrap_err().message(), "Unknown command: :foo");
    assert_eq!(parse_command("cd").unwrap_err().message(), ":cd requires directory path");
}

#[test]
fn the_line_shows_the_input_or_the_error() {
    let view = CommandLineView::new("cd /tmp".to_string(), None);
    assert_eq!(view.shown_text(), ":cd /tmp");
    assert_eq!(view.background(), 0x252526);
    assert_eq!(view.text_color(), 0xd4d4d4);
    let view = CommandLineView::new("cd".to_string(), Some("no".to_string()));
    assert_eq!(view.shown_text(), "no");
    assert_eq!(view.background(), 0x3e1e1e);
    assert_eq!(view.text_color(), 0xff6b6b);
}
