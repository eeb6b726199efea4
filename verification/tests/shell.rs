use lib::shell::{
    cat_output, change_dir, list_output, prompt, read_line, resolve_path, shell, Action, CatReply,
    Command, Error, ErrorKind, ListReply, PathKind, BEL, BS, CR, DEL, LF, MAXARGS,
};

fn b(s: &str) -> Vec<u8> {
    s.as_bytes().to_vec()
}

fn parse(s: &str) -> Command {
    Command::parse(s.as_bytes(), MAXARGS).unwrap()
}

#[test]
fn read_line_echoes_and_erases() {
    let mut line = Vec::new();
    assert_eq!(read_line(&mut line, 8, b'a'), (vec![b'a'], false));
    assert_eq!(read_line(&mut line, 8, b'b'), (vec![b'b'], false));
    assert_eq!(read_line(&mut line, 8, BS), (vec![BS, b' ', BS], false));
    assert_eq!(read_line(&mut line, 8, b'c'), (vec![b'c'], false));
    assert_eq!(read_line(&mut line, 8, DEL), (vec![BS, b' ', BS], false));
    assert_eq!(read_line(&mut line, 8, b'~'), (vec![b'~'], false));
    assert_eq!(read_line(&mut line, 8, CR), (vec![LF], true));
    assert_eq!(line, b("a~"));
}

#[test]
fn read_line_rings_the_bell() {
    let mut line = Vec::new();
    assert_eq!(read_line(&mut line, 2, BS), (vec![BEL], false));
    assert_eq!(read_line(&mut line, 2, DEL), (vec![BEL], false));
    assert_eq!(read_line(&mut line, 2, 0x01), (vec![BEL], false));
    assert_eq!(read_line(&mut line, 2, 0x80), (vec![BEL], false));
    assert_eq!(read_line(&mut line, 2, b'x'), (vec![b'x'], false));
    assert_eq!(read_line(&mut line, 2, b'y'), (vec![b'y'], false));
    assert_eq!(read_line(&mut line, 2, b'z'), (vec![BEL], false));
    assert_eq!(read_line(&mut line, 2, LF), (vec![LF], true));
    assert_eq!(line, b("xy"));
}

#[test]
fn parse_splits_on_spaces() {
    let c = parse("  echo  hello world ");
    assert_eq!(c.args(), vec![b("echo"), b("hello"), b("world")]);
    assert_eq!(c.path(), b"echo");
}

#[test]
fn parse_reports_empty_lines() {
    assert_eq!(Command::parse(b"", MAXARGS).unwrap_err(), Error::Empty);
    assert_eq!(Command::parse(b"    ", MAXARGS).unwrap_err(), Error::Empty);
}

#[test]
fn parse_reports_too_many_arguments() {
    assert_eq!(Command::parse(b"a b c", 2).unwrap_err(), Error::TooManyArgs);
    assert_eq!(Command::parse(b"a", 0).unwrap_err(), Error::TooManyArgs);
    assert_eq!(parse("a b").args().len(), 2);
    assert_eq!(Command::parse(b"a  b ", 2).unwrap().args(), vec![b("a"), b("b")]);
}

#[test]
fn echo_prints_its_arguments() {
    assert_eq!(parse("echo a b").exec(b"/"), Action::Print(b("a b\n")));
    assert_eq!(parse("echo x").exec(b"/"), Action::Print(b("x\n")));
    assert_eq!(parse("echo").exec(b"/"), Action::Print(b("echo\n")));
    assert_eq!(parse("echo  a   b c").exec(b"/"), Action::Print(b("a b c\n")));
}

#[test]
fn pwd_prints_the_working_directory() {
    assert_eq!(parse("pwd").exec(b"/a/b"), Action::Print(b("/a/b\n")));
}

#[test]
fn ls_lists_a_directory() {
    assert_eq!(
        parse("ls").exec(b"/"),
        Action::List { path: b("/"), all: false, arg: None }
    );
    assert_eq!(
        parse("ls -a dir").exec(b"/x"),
        Action::List { path: b("/x/dir"), all: true, arg: Some(b("dir")) }
    );
    assert_eq!(
        parse("ls /abs more").exec(b"/x"),
        Action::List { path: b("/abs"), all: false, arg: Some(b("/abs")) }
    );
    assert_eq!(
        parse("ls -a").exec(b"/x"),
        Action::List { path: b("/x"), all: true, arg: None }
    );
    assert_eq!(
        parse("ls dir -a").exec(b"/x/"),
        Action::List { path: b("/x/dir"), all: false, arg: Some(b("dir")) }
    );
}

#[test]
fn cd_and_cat_resolve_their_path() {
    assert_eq!(
        parse("cd sub").exec(b"/"),
        Action::ChangeDir { path: b("/sub"), name: b("sub") }
    );
    assert_eq!(
        parse("cd /etc").exec(b"/home"),
        Action::ChangeDir { path: b("/etc"), name: b("/etc") }
    );
    assert_eq!(parse("cat f").exec(b"/d"), Action::Cat { path: b("/d/f") });
}

#[test]
fn unknown_commands_are_reported() {
    assert_eq!(parse("foo x").exec(b"/"), Action::Print(b("unknown command: foo\n")));
    assert_eq!(parse("Echo").exec(b"/"), Action::Print(b("unknown command: Echo\n")));
}

#[test]
fn resolve_joins_paths() {
    assert_eq!(resolve_path(b"/a", b"b"), b("/a/b"));
    assert_eq!(resolve_path(b"/a/", b"b"), b("/a/b"));
    assert_eq!(resolve_path(b"/a", b"/c"), b("/c"));
    assert_eq!(resolve_path(b"", b"b"), b("b"));
    assert_eq!(resolve_path(b"/", b".."), b("/.."));
}

#[test]
fn change_dir_follows_the_file_system() {
    let mut pwd = b("/");
    assert_eq!(change_dir(&mut pwd, b"/sub", b"sub", PathKind::Directory), b(""));
    assert_eq!(pwd, b("/sub"));
    assert_eq!(
        change_dir(&mut pwd, b"/sub/x", b"x", PathKind::Missing),
        b("cd: no such file or directory: x\n")
    );
    assert_eq!(
        change_dir(&mut pwd, b"/sub/f", b"f", PathKind::Other),
        b("cd: not a directory: f\n")
    );
    assert_eq!(pwd, b("/sub"));
}

#[test]
fn list_output_prints_names_or_errors() {
    let dir = Some(b("dir"));
    assert_eq!(list_output(&ListReply::Entries(vec![b("a"), b("bc")]), &None), b("a\nbc\n"));
    assert_eq!(list_output(&ListReply::Entries(vec![]), &None), b(""));
    assert_eq!(
        list_output(&ListReply::Failed(ErrorKind::NotFound), &dir),
        b("ls: no such file or directory: dir\n")
    );
    assert_eq!(
        list_output(&ListReply::Failed(ErrorKind::Other), &dir),
        b("ls: not supported dir\n")
    );
    assert_eq!(list_output(&ListReply::Failed(ErrorKind::Unexpected), &None), b(""));
}

#[test]
fn cat_output_prints_contents() {
    assert_eq!(cat_output(&CatReply::Unopened), b("here\n\nhere\n\n"));
    assert_eq!(cat_output(&CatReply::Unread), b("here\n\nhere\n\nhere\n\n"));
    assert_eq!(
        cat_output(&CatReply::Contents(b("hi"))),
        b("here\n\nhere\n\nhere\n\nhi\n")
    );
}

#[test]
fn shell_runs_a_line() {
    assert_eq!(shell(b"", b"/"), Action::Print(b("")));
    assert_eq!(shell(b"   ", b"/"), Action::Print(b("")));
    assert_eq!(shell(b"echo hi", b"/"), Action::Print(b("hi\n")));
    assert_eq!(shell(b"cd a", b"/b"), Action::ChangeDir { path: b("/b/a"), name: b("a") });
    let many = vec!["x"; MAXARGS + 1].join(" ");
    assert_eq!(shell(many.as_bytes(), b"/"), Action::Print(b("error: too many arguments\n")));
    let enough = format!("echo {}", vec!["x"; MAXARGS - 1].join(" "));
    assert!(matches!(shell(enough.as_bytes(), b"/"), Action::Print(_)));
}

#[test]
fn prompt_shows_directory_and_prefix() {
    assert_eq!(prompt(b"/", b"> "), b("/ > "));
    assert_eq!(prompt(b"/a/b", b"$"), b("/a/b $"));
}
