use eeprom_fs::command::{
    end_of_field, error_line, error_words, execute, keyword, list_lines, start_of_next, Keyword,
    Shell, CR, LF, LINE_MAX, SPACE,
};
use eeprom_fs::files::{ErrorKind, FsError};
use eeprom_fs::record::FileRec;
use eeprom_fs::storage::Storage;
use eeprom_fs::table::{cmd_format, is_well_formed};
use eeprom_fs::text::{is_word, parse_len, push_all, push_decimal, push_text, same_bytes};

fn fresh() -> Storage {
    let mut eep = Storage::new();
    cmd_format(&mut eep);
    eep
}

fn run(eep: &mut Storage, line: &str) -> String {
    let out = execute(eep, line.as_bytes());
    assert!(is_well_formed(eep));
    String::from_utf8(out).unwrap()
}

fn type_in(sh: &mut Shell, eep: &mut Storage, text: &[u8]) -> Vec<Vec<u8>> {
    let mut answers = Vec::new();
    for &b in text {
        if let Some(out) = sh.feed(eep, b) {
            answers.push(out);
        }
    }
    answers
}

#[test]
fn separators_and_terminators() {
    assert_eq!(SPACE, b' ');
    assert_eq!(LF, b'\n');
    assert_eq!(CR, b'\r');
    assert_eq!(LINE_MAX, 64);
}

#[test]
fn a_whole_session() {
    let mut eep = fresh();
    assert_eq!(run(&mut eep, "create a 5 hello"), "OK create\n");
    assert_eq!(FileRec::load(&eep, 0).addr, 88);
    assert_eq!(&eep.as_bytes()[88..93], b"hello");
    assert_eq!(run(&mut eep, "create b 3 xyz"), "OK create\n");
    assert_eq!(FileRec::load(&eep, 1).addr, 93);
    assert_eq!(&eep.as_bytes()[93..96], b"xyz");
    assert_eq!(run(&mut eep, "remove a"), "OK remove\n");
    assert_eq!(FileRec::load(&eep, 0).addr, 0xFFFF);
    assert_eq!(&eep.as_bytes()[88..93], b"hello");
    assert_eq!(run(&mut eep, "read a"), "ERR no such file\n");
    assert_eq!(run(&mut eep, "create c 5 world"), "OK create\n");
    assert_eq!(FileRec::load(&eep, 0).addr, 88);
    assert_eq!(run(&mut eep, "defrag"), "OK defrag\n");
    assert_eq!(run(&mut eep, "list"), "c len=5 addr=88\nb len=3 addr=93\n");
    assert_eq!(run(&mut eep, "read c"), "world\n");
    assert_eq!(run(&mut eep, "read b"), "xyz\n");
}

#[test]
fn format_list_and_defrag_answer() {
    let mut eep = fresh();
    assert_eq!(run(&mut eep, "list"), "");
    assert_eq!(run(&mut eep, "create one 1 a"), "OK create\n");
    assert_eq!(run(&mut eep, "list"), "one len=1 addr=88\n");
    assert_eq!(run(&mut eep, "defrag"), "OK defrag\n");
    assert_eq!(run(&mut eep, "format"), "OK format\n");
    assert_eq!(run(&mut eep, "list"), "");
    assert_eq!(run(&mut eep, "read one"), "ERR no such file\n");
}

#[test]
fn extra_fields_are_ignored() {
    let mut eep = fresh();
    assert_eq!(run(&mut eep, "create a 2 hi"), "OK create\n");
    assert_eq!(run(&mut eep, "list everything please"), "a len=2 addr=88\n");
    assert_eq!(run(&mut eep, "size a b c"), "2\n");
    assert_eq!(run(&mut eep, "read a b"), "hi\n");
    assert_eq!(run(&mut eep, "defrag now"), "OK defrag\n");
    assert_eq!(run(&mut eep, "remove a b"), "OK remove\n");
    assert_eq!(run(&mut eep, "format "), "OK format\n");
}

#[test]
fn size_prints_the_length_in_decimal() {
    let mut eep = fresh();
    assert_eq!(run(&mut eep, "create e 0"), "OK create\n");
    assert_eq!(run(&mut eep, "size e"), "0\n");
    assert_eq!(run(&mut eep, "create n 9 123456789"), "OK create\n");
    assert_eq!(run(&mut eep, "size n"), "9\n");
    assert_eq!(run(&mut eep, "create t 10 0123456789"), "OK create\n");
    assert_eq!(run(&mut eep, "size t"), "10\n");
    assert_eq!(run(&mut eep, "size missing"), "ERR no such file\n");
}

#[test]
fn list_prints_large_lengths_and_addresses() {
    let mut eep = fresh();
    let rec = FileRec { addr: 769, len: 255, name: *b"longname" };
    rec.store(&mut eep, 5);
    assert_eq!(String::from_utf8(list_lines(&eep)).unwrap(), "longname len=255 addr=769\n");
    let rec = FileRec { addr: 1024, len: 0, name: [0; 8] };
    rec.store(&mut eep, 0);
    assert_eq!(
        String::from_utf8(list_lines(&eep)).unwrap(),
        " len=0 addr=1024\nlongname len=255 addr=769\n"
    );
}

#[test]
fn missing_arguments_are_syntax_errors() {
    let mut eep = fresh();
    assert_eq!(run(&mut eep, "remove"), "ERR syntax\n");
    assert_eq!(run(&mut eep, "read"), "ERR syntax\n");
    assert_eq!(run(&mut eep, "size"), "ERR syntax\n");
    assert_eq!(run(&mut eep, "create"), "ERR syntax\n");
    assert_eq!(run(&mut eep, "create a"), "ERR syntax\n");
    assert_eq!(run(&mut eep, "list"), "");
}

#[test]
fn an_empty_name_is_a_name() {
    let mut eep = fresh();
    assert_eq!(run(&mut eep, "read "), "ERR no such file\n");
    assert_eq!(run(&mut eep, "create  1 x"), "OK create\n");
    assert_eq!(run(&mut eep, "read "), "x\n");
    assert_eq!(run(&mut eep, "list"), " len=1 addr=88\n");
    assert_eq!(run(&mut eep, "remove "), "OK remove\n");
}

#[test]
fn unknown_words_and_empty_lines() {
    let mut eep = fresh();
    assert_eq!(run(&mut eep, ""), "ERR unknown cmd\n");
    assert_eq!(run(&mut eep, " "), "ERR unknown cmd\n");
    assert_eq!(run(&mut eep, " list"), "ERR unknown cmd\n");
    assert_eq!(run(&mut eep, "LIST"), "ERR unknown cmd\n");
    assert_eq!(run(&mut eep, "lists"), "ERR unknown cmd\n");
    assert_eq!(run(&mut eep, "lis"), "ERR unknown cmd\n");
    assert_eq!(run(&mut eep, "delete a"), "ERR unknown cmd\n");
}

#[test]
fn bad_lengths() {
    let mut eep = fresh();
    assert_eq!(run(&mut eep, "create a x data"), "ERR bad len\n");
    assert_eq!(run(&mut eep, "create a  data"), "ERR bad len\n");
    assert_eq!(run(&mut eep, "create a "), "ERR bad len\n");
    assert_eq!(run(&mut eep, "create a -1 x"), "ERR bad len\n");
    assert_eq!(run(&mut eep, "create a 1x x"), "ERR bad len\n");
    assert_eq!(run(&mut eep, "create a 0x1 x"), "ERR bad len\n");
    assert_eq!(run(&mut eep, "create a + x"), "ERR bad len\n");
    assert_eq!(run(&mut eep, "create a 1.0 x"), "ERR bad len\n");
    assert_eq!(
        run(&mut eep, "create a 99999999999999999999999999 x"),
        "ERR bad len\n"
    );
    assert_eq!(run(&mut eep, "list"), "");
}

#[test]
fn lengths_with_a_sign_or_leading_zeros() {
    let mut eep = fresh();
    assert_eq!(run(&mut eep, "create a +3 abc"), "OK create\n");
    assert_eq!(run(&mut eep, "create b 003 def"), "OK create\n");
    assert_eq!(run(&mut eep, "create c +0"), "OK create\n");
    assert_eq!(run(&mut eep, "list"), "a len=3 addr=88\nb len=3 addr=91\nc len=0 addr=88\n");
}

#[test]
fn short_data_is_its_own_error() {
    let mut eep = fresh();
    assert_eq!(run(&mut eep, "create a 5 hell"), "ERR data short\n");
    assert_eq!(run(&mut eep, "create a 1"), "ERR data short\n");
    assert_eq!(run(&mut eep, "create a 1 "), "ERR data short\n");
    assert_eq!(run(&mut eep, "create a 300 hello"), "ERR data short\n");
    assert_eq!(run(&mut eep, "create a 65535 hello"), "ERR data short\n");
    assert_eq!(run(&mut eep, "list"), "");
    assert_eq!(run(&mut eep, "create a 1 x"), "OK create\n");
    assert_eq!(run(&mut eep, "create a 5 hell"), "ERR data short\n");
}

#[test]
fn data_is_joined_without_spaces_and_cut_to_the_length() {
    let mut eep = fresh();
    assert_eq!(run(&mut eep, "create a 10 hello world"), "OK create\n");
    assert_eq!(run(&mut eep, "read a"), "helloworld\n");
    assert_eq!(run(&mut eep, "create b 3 hello world"), "OK create\n");
    assert_eq!(run(&mut eep, "read b"), "hel\n");
    assert_eq!(run(&mut eep, "create c 6 a  b c   def g"), "OK create\n");
    assert_eq!(run(&mut eep, "read c"), "abcdef\n");
    assert_eq!(run(&mut eep, "create d 11 hello world"), "ERR data short\n");
    assert_eq!(run(&mut eep, "create e 0 ignored"), "OK create\n");
    assert_eq!(run(&mut eep, "size e"), "0\n");
}

#[test]
fn create_errors_in_order() {
    let mut eep = fresh();
    for i in 0..8 {
        assert_eq!(run(&mut eep, &format!("create f{} 1 x", i)), "OK create\n");
    }
    assert_eq!(run(&mut eep, "create f3"), "ERR syntax\n");
    assert_eq!(run(&mut eep, "create f3 one x"), "ERR bad len\n");
    assert_eq!(run(&mut eep, "create f3 2 x"), "ERR data short\n");
    assert_eq!(run(&mut eep, "create f3 1 x"), "ERR name exists\n");
    assert_eq!(run(&mut eep, "create f8 1 x"), "ERR no slot\n");
    assert_eq!(run(&mut eep, "remove f0"), "OK remove\n");
    assert_eq!(run(&mut eep, "create f8 1 x"), "OK create\n");
}

#[test]
fn no_data_space_is_reported() {
    let mut eep = fresh();
    FileRec { addr: 88, len: 255, name: *b"big1\0\0\0\0" }.store(&mut eep, 0);
    FileRec { addr: 343, len: 255, name: *b"big2\0\0\0\0" }.store(&mut eep, 1);
    FileRec { addr: 598, len: 255, name: *b"big3\0\0\0\0" }.store(&mut eep, 2);
    FileRec { addr: 853, len: 170, name: *b"big4\0\0\0\0" }.store(&mut eep, 3);
    assert!(is_well_formed(&eep));
    assert_eq!(run(&mut eep, "create t 2 ab"), "ERR no data space\n");
    assert_eq!(run(&mut eep, "create t 1 a"), "OK create\n");
    assert_eq!(run(&mut eep, "create u 1 a"), "ERR no data space\n");
    assert_eq!(run(&mut eep, "create u 0"), "OK create\n");
    assert_eq!(FileRec::load(&eep, 4).addr, 1023);
    assert_eq!(FileRec::load(&eep, 5).addr, 88);
}

#[test]
fn a_full_line_can_carry_fifty_bytes() {
    let mut eep = fresh();
    let data = "0123456789012345678901234567890123456789012345678901";
    let line = format!("create a 52 {}", data);
    assert_eq!(line.len(), 64);
    assert_eq!(run(&mut eep, &line), "OK create\n");
    assert_eq!(run(&mut eep, "read a"), format!("{}\n", data));
}

#[test]
fn read_returns_raw_bytes() {
    let mut eep = fresh();
    let mut line = b"create raw 4 ".to_vec();
    line.extend_from_slice(&[0x00, 0x80, 0xFF, 0x09]);
    assert_eq!(execute(&mut eep, &line), b"OK create\n".to_vec());
    assert_eq!(execute(&mut eep, b"read raw"), vec![0x00, 0x80, 0xFF, 0x09, b'\n']);
}

#[test]
fn shell_dispatches_on_either_terminator() {
    let mut eep = fresh();
    let mut sh = Shell::new();
    let answers = type_in(&mut sh, &mut eep, b"create a 2 hi\nsize a\rread a\n");
    assert_eq!(answers, vec![b"OK create\n".to_vec(), b"2\n".to_vec(), b"hi\n".to_vec()]);
    assert!(sh.pending().is_empty());
}

#[test]
fn shell_treats_cr_lf_as_two_lines() {
    let mut eep = fresh();
    let mut sh = Shell::new();
    let answers = type_in(&mut sh, &mut eep, b"format\r\n");
    assert_eq!(answers, vec![b"OK format\n".to_vec(), b"ERR unknown cmd\n".to_vec()]);
}

#[test]
fn shell_collects_bytes_until_a_terminator() {
    let mut eep = fresh();
    let mut sh = Shell::new();
    assert!(sh.feed(&mut eep, b'l').is_none());
    assert!(sh.feed(&mut eep, b'i').is_none());
    assert_eq!(sh.pending(), b"li");
    assert!(sh.feed(&mut eep, b's').is_none());
    assert!(sh.feed(&mut eep, b't').is_none());
    assert_eq!(sh.pending(), b"list");
    assert_eq!(sh.feed(&mut eep, b'\n'), Some(Vec::new()));
    assert_eq!(sh.pending(), b"");
}

#[test]
fn shell_resets_after_a_failed_command() {
    let mut eep = fresh();
    let mut sh = Shell::new();
    let answers = type_in(&mut sh, &mut eep, b"bogus\nread x\ncreate x 1 y\nread x\n");
    assert_eq!(
        answers,
        vec![
            b"ERR unknown cmd\n".to_vec(),
            b"ERR no such file\n".to_vec(),
            b"OK create\n".to_vec(),
            b"y\n".to_vec(),
        ]
    );
}

#[test]
fn shell_drops_bytes_beyond_the_buffer() {
    let mut eep = fresh();
    let mut sh = Shell::new();
    let data = "0123456789012345678901234567890123456789012345678901";
    let mut text = format!("create a 52 {}", data).into_bytes();
    text.extend_from_slice(b"overflowing bytes are dropped");
    assert!(type_in(&mut sh, &mut eep, &text).is_empty());
    assert_eq!(sh.pending().len(), 64);
    assert_eq!(sh.feed(&mut eep, b'\n'), Some(b"OK create\n".to_vec()));
    assert_eq!(execute(&mut eep, b"read a"), format!("{}\n", data).into_bytes());
    let text = vec![b'x'; 200];
    assert!(type_in(&mut sh, &mut eep, &text).is_empty());
    assert_eq!(sh.pending(), &[b'x'; 64][..]);
    assert_eq!(sh.feed(&mut eep, b'\r'), Some(b"ERR unknown cmd\n".to_vec()));
    assert!(sh.pending().is_empty());
}

#[test]
fn a_cut_line_can_lose_its_data() {
    let mut eep = fresh();
    let mut sh = Shell::new();
    let mut text = b"create a 53 ".to_vec();
    text.extend_from_slice(&[b'z'; 53]);
    text.push(b'\n');
    assert_eq!(type_in(&mut sh, &mut eep, &text), vec![b"ERR data short\n".to_vec()]);
}

#[test]
fn keywords_are_told_apart() {
    assert!(matches!(keyword(b"format"), Keyword::Format));
    assert!(matches!(keyword(b"list"), Keyword::List));
    assert!(matches!(keyword(b"defrag"), Keyword::Defrag));
    assert!(matches!(keyword(b"remove"), Keyword::Remove));
    assert!(matches!(keyword(b"read"), Keyword::Read));
    assert!(matches!(keyword(b"size"), Keyword::Size));
    assert!(matches!(keyword(b"create"), Keyword::Create));
    assert!(matches!(keyword(b""), Keyword::Unknown));
    assert!(matches!(keyword(b"Format"), Keyword::Unknown));
    assert!(matches!(keyword(b"creat"), Keyword::Unknown));
}

#[test]
fn fields_end_at_spaces() {
    let line = b"ab  cd e";
    assert_eq!(end_of_field(line, 0), 2);
    assert_eq!(end_of_field(line, 2), 2);
    assert_eq!(end_of_field(line, 3), 3);
    assert_eq!(end_of_field(line, 4), 6);
    assert_eq!(end_of_field(line, 7), 8);
    assert_eq!(end_of_field(line, 8), 8);
    assert_eq!(start_of_next(line, 0), Some(3));
    assert_eq!(start_of_next(line, 3), Some(4));
    assert_eq!(start_of_next(line, 4), Some(7));
    assert_eq!(start_of_next(line, 7), None);
    assert_eq!(start_of_next(b"", 0), None);
    assert_eq!(start_of_next(b" ", 0), Some(1));
    assert_eq!(start_of_next(b" ", 1), None);
}

#[test]
fn every_error_has_its_words() {
    assert_eq!(error_words(FsError::Syntax), "ERR syntax");
    assert_eq!(error_words(FsError::UnknownCmd), "ERR unknown cmd");
    assert_eq!(error_words(FsError::BadLen), "ERR bad len");
    assert_eq!(error_words(FsError::DataShort), "ERR data short");
    assert_eq!(error_words(FsError::NameExists), "ERR name exists");
    assert_eq!(error_words(FsError::NoSlot), "ERR no slot");
    assert_eq!(error_words(FsError::NoDataSpace), "ERR no data space");
    assert_eq!(error_words(FsError::NoSuchFile), "ERR no such file");
    assert_eq!(error_line(FsError::NoSlot), b"ERR no slot\n".to_vec());
}

#[test]
fn parse_len_reads_decimal_numbers() {
    assert_eq!(parse_len(b"0"), Some(0));
    assert_eq!(parse_len(b"7"), Some(7));
    assert_eq!(parse_len(b"255"), Some(255));
    assert_eq!(parse_len(b"0042"), Some(42));
    assert_eq!(parse_len(b"+9"), Some(9));
    assert_eq!(parse_len(b"65536"), Some(65536));
    assert_eq!(parse_len(usize::MAX.to_string().as_bytes()), Some(usize::MAX));
}

#[test]
fn parse_len_rejects_everything_else() {
    assert_eq!(parse_len(b""), None);
    assert_eq!(parse_len(b"+"), None);
    assert_eq!(parse_len(b"-"), None);
    assert_eq!(parse_len(b"-0"), None);
    assert_eq!(parse_len(b"++1"), None);
    assert_eq!(parse_len(b"1+"), None);
    assert_eq!(parse_len(b" 1"), None);
    assert_eq!(parse_len(b"1 "), None);
    assert_eq!(parse_len(b"12a"), None);
    assert_eq!(parse_len(b"a12"), None);
    assert_eq!(parse_len(b"1_000"), None);
    assert_eq!(parse_len(&[0xC3, 0xA9]), None);
    assert_eq!(parse_len(b"/"), None);
    assert_eq!(parse_len(b":"), None);
    let too_big = format!("{}0", usize::MAX);
    assert_eq!(parse_len(too_big.as_bytes()), None);
    let just_over = (usize::MAX as u128 + 1).to_string();
    assert_eq!(parse_len(just_over.as_bytes()), None);
    assert_eq!(parse_len(b"99999999999999999999x"), None);
}

#[test]
fn parse_len_agrees_with_the_standard_parser() {
    let samples: [&[u8]; 12] = [
        b"0", b"+0", b"-0", b"10", b"+10", b"010", b"", b"+", b"1e3", b"18446744073709551615",
        b"18446744073709551616", b"4294967296",
    ];
    for s in samples {
        let std = core::str::from_utf8(s).ok().and_then(|t| t.parse::<usize>().ok());
        assert_eq!(parse_len(s), std);
    }
}

#[test]
fn push_decimal_writes_digits() {
    for (n, text) in [(0u16, "0"), (9, "9"), (10, "10"), (99, "99"), (100, "100"), (255, "255"), (1024, "1024"), (65535, "65535")] {
        let mut out = b">".to_vec();
        push_decimal(&mut out, n);
        assert_eq!(out, format!(">{}", text).into_bytes());
    }
}

#[test]
fn text_helpers_append_and_compare() {
    let mut out = b"ab".to_vec();
    push_all(&mut out, b"cd");
    push_all(&mut out, b"");
    push_text(&mut out, "ef");
    assert_eq!(out, b"abcdef".to_vec());
    assert!(same_bytes(b"abc", b"abc"));
    assert!(same_bytes(b"", b""));
    assert!(!same_bytes(b"abc", b"abd"));
    assert!(!same_bytes(b"abc", b"ab"));
    assert!(is_word(b"list", "list"));
    assert!(!is_word(b"lis", "list"));
    assert!(!is_word(b"list ", "list"));
}

#[test]
fn errors_fall_into_classes() {
    assert_eq!(FsError::Syntax.kind(), ErrorKind::Syntax);
    assert_eq!(FsError::UnknownCmd.kind(), ErrorKind::Syntax);
    assert_eq!(FsError::BadLen.kind(), ErrorKind::Syntax);
    assert_eq!(FsError::DataShort.kind(), ErrorKind::DataLength);
    assert_eq!(FsError::NameExists.kind(), ErrorKind::Conflict);
    assert_eq!(FsError::NoSlot.kind(), ErrorKind::Capacity);
    assert_eq!(FsError::NoDataSpace.kind(), ErrorKind::Capacity);
    assert_eq!(FsError::NoSuchFile.kind(), ErrorKind::NotFound);
}

#[test]
fn refused_commands_change_nothing() {
    let mut eep = fresh();
    for i in 0..8 {
        assert_eq!(run(&mut eep, &format!("create f{} 3 abc", i)), "OK create\n");
    }
    let before = eep.as_bytes().to_vec();
    let refused = [
        "", "bogus", "remove", "read", "size", "create", "create x", "create x y z",
        "create x 4 abc", "create f1 3 abc", "create x 3 abc", "remove nope", "read nope",
        "size nope",
    ];
    for line in refused {
        let answer = run(&mut eep, line);
        assert!(answer.starts_with("ERR "), "{:?} gave {:?}", line, answer);
        assert_eq!(eep.as_bytes(), &before[..], "{:?} changed the store", line);
    }
    for line in ["list", "size f0", "read f7"] {
        run(&mut eep, line);
        assert_eq!(eep.as_bytes(), &before[..]);
    }
}
