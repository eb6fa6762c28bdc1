use filesys::shell::{byte_is_space, join_words, parse_command, split_words, Command, Span};

fn span(start: usize, end: usize) -> Span {
    Span { start, end }
}

#[test]
fn line_is_parted_at_white_space() {
    assert_eq!(split_words(b"cd foo"), vec![span(0, 2), span(3, 6)]);
    assert_eq!(split_words(b"  a \t bc\n"), vec![span(2, 3), span(6, 8)]);
    assert_eq!(split_words(b""), vec![]);
    assert_eq!(split_words(b" \t\r\n"), vec![]);
    assert_eq!(split_words(b"x"), vec![span(0, 1)]);
}

#[test]
fn words_are_what_the_standard_library_finds() {
    for line in ["", "a", " a", "a ", "ls  -l\tx\n", "write f \"a  b\" c", "\u{b}x\u{c}y"] {
        let expected: Vec<&str> = line.split_whitespace().collect();
        let found: Vec<&str> =
            split_words(line.as_bytes()).iter().map(|s| &line[s.start..s.end]).collect();
        assert_eq!(found, expected, "{:?}", line);
    }
}

#[test]
fn white_space_is_the_ascii_kind() {
    for b in 0u8..=255 {
        assert_eq!(byte_is_space(b), b.is_ascii_whitespace() || b == 0x0B, "{}", b);
    }
}

#[test]
fn words_are_joined_with_one_space() {
    let line = b"write  f   one \t two";
    let spans = split_words(line);
    assert_eq!(join_words(line, &spans, 2), b"one two".to_vec());
    assert_eq!(join_words(line, &spans, 3), b"two".to_vec());
    assert_eq!(join_words(line, &spans, 4), b"".to_vec());
    assert_eq!(join_words(line, &spans, 9), b"".to_vec());
    assert_eq!(join_words(line, &spans, 0), b"write f one two".to_vec());
}

#[test]
fn commands_without_arguments_are_recognised() {
    assert_eq!(parse_command(""), Command::Empty);
    assert_eq!(parse_command("   \n"), Command::Empty);
    assert_eq!(parse_command("exit\n"), Command::Exit);
    assert_eq!(parse_command("info"), Command::Info);
    assert_eq!(parse_command("ls"), Command::Ls);
    assert_eq!(parse_command("lsof"), Command::Lsof);
    assert_eq!(parse_command("ls extra words"), Command::Ls);
}

#[test]
fn commands_with_one_argument_are_recognised() {
    assert_eq!(parse_command("cd foo"), Command::Cd(span(3, 6)));
    assert_eq!(parse_command("mkdir d"), Command::Mkdir(span(6, 7)));
    assert_eq!(parse_command("creat  f.txt later"), Command::Creat(span(7, 12)));
    assert_eq!(parse_command("close f"), Command::Close(span(6, 7)));
    assert_eq!(parse_command("size f"), Command::Size(span(5, 6)));
    assert_eq!(parse_command("rm f"), Command::Rm(span(3, 4)));
    assert_eq!(parse_command("rmdir d"), Command::Rmdir(span(6, 7)));
}

#[test]
fn commands_with_two_arguments_are_recognised() {
    assert_eq!(parse_command("open f -rw"), Command::Open(span(5, 6), span(7, 10)));
    assert_eq!(parse_command("lseek f 10"), Command::Lseek(span(6, 7), span(8, 10)));
    assert_eq!(parse_command("read f 5"), Command::Read(span(5, 6), span(7, 8)));
    assert_eq!(parse_command("rename a b"), Command::Rename(span(7, 8), span(9, 10)));
}

#[test]
fn write_takes_all_the_words_behind_the_file_name() {
    assert_eq!(
        parse_command("write f \"hello   world\"\n"),
        Command::Write(span(6, 7), b"\"hello world\"".to_vec())
    );
    assert_eq!(parse_command("write f x"), Command::Write(span(6, 7), b"x".to_vec()));
}

#[test]
fn missing_arguments_are_noticed() {
    assert_eq!(parse_command("cd"), Command::Incomplete(span(0, 2)));
    assert_eq!(parse_command(" mkdir "), Command::Incomplete(span(1, 6)));
    assert_eq!(parse_command("open f"), Command::Incomplete(span(0, 4)));
    assert_eq!(parse_command("rename a"), Command::Incomplete(span(0, 6)));
    assert_eq!(parse_command("write"), Command::Incomplete(span(0, 5)));
    assert_eq!(parse_command("write f"), Command::Incomplete(span(0, 5)));
}

#[test]
fn other_first_words_are_unknown() {
    assert_eq!(parse_command("dir"), Command::Unknown(span(0, 3)));
    assert_eq!(parse_command("LS"), Command::Unknown(span(0, 2)));
    assert_eq!(parse_command("exit!"), Command::Unknown(span(0, 5)));
    assert_eq!(parse_command("lso"), Command::Unknown(span(0, 3)));
}
