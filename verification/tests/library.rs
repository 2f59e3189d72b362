use ysh::history::{first_kept, first_shown, parse_usize, remove_spaces, Opt, MAX_HISTORY};
use ysh::myparser::PResult;
use ysh::run::{forks, Chain, Proc, Status, Step};
use ysh::text::{is_reserved_char, is_whitespace, joined_lines};
use ysh::yparser::{parse_ysh, try_parse_ysh};
use ysh::ysh::{
    y_and, y_com, y_in, y_or, y_out, y_pipe, y_seq, y_sub, Command, MyCommand, Ysh, RESERVED_CHARS,
    VALID_COMMAND,
};

fn describe(y: &Ysh) -> String {
    match y {
        Ysh::Command(c) => format!("{}{:?}", c.com(), c.args()),
        Ysh::Sequence(l, r) => format!("Seq({},{})", describe(l), describe(r)),
        Ysh::And(l, r) => format!("And({},{})", describe(l), describe(r)),
        Ysh::Or(l, r) => format!("Or({},{})", describe(l), describe(r)),
        Ysh::Pipe(l, r) => format!("Pipe({},{})", describe(l), describe(r)),
        Ysh::In(l, f) => format!("In({},{})", describe(l), f),
        Ysh::Out(l, f) => format!("Out({},{})", describe(l), f),
        Ysh::Sub(y) => format!("Sub({})", describe(y)),
    }
}

fn parsed(s: &str) -> String {
    describe(&parse_ysh(s.to_string()).expect("the line parses"))
}

fn failed(s: &str) -> String {
    match parse_ysh(s.to_string()) {
        Ok(y) => panic!("unexpected success: {}", describe(&y)),
        Err(e) => e,
    }
}

fn com(c: &str) -> Ysh {
    y_com(c, &vec![]).unwrap()
}

#[test]
fn whitespace_agrees_with_std() {
    for u in 0u32..=0x10FFFF {
        if let Some(c) = char::from_u32(u) {
            assert_eq!(is_whitespace(c), c.is_whitespace(), "{u:x}");
        }
    }
}

#[test]
fn reserved_chars() {
    for u in 0u32..0x200 {
        let c = char::from_u32(u).unwrap();
        assert_eq!(is_reserved_char(c), RESERVED_CHARS.contains(c));
    }
}

#[test]
fn joined_lines_agrees_with_std() {
    for s in ["", "a", "a\nb", "a\r\nb\r\n", "a\r", "\r\r\n", "\n\n", "x\ry\n", "é\n€"] {
        let expected: String = s.lines().collect();
        let got: String = joined_lines(s).into_iter().collect();
        assert_eq!(got, expected, "{s:?}");
    }
}

#[test]
fn parses_a_command_with_arguments() {
    assert_eq!(parsed("ls -l  /tmp"), "ls[\"-l\", \"/tmp\"]");
    assert_eq!(parsed("   pwd   "), "pwd[]");
}

#[test]
fn parses_operators_to_the_right() {
    assert_eq!(parsed("ls ; pwd ; date"), "Seq(ls[],Seq(pwd[],date[]))");
    assert_eq!(parsed("ls && pwd || date"), "And(ls[],Or(pwd[],date[]))");
    assert_eq!(parsed("ls|cat"), "Pipe(ls[],cat[])");
}

#[test]
fn parses_redirections_and_groups() {
    assert_eq!(parsed("cat < in.txt > out.txt"), "Out(In(cat[],in.txt),out.txt)");
    assert_eq!(parsed("(ls ; pwd) > f"), "Out(Sub(Seq(ls[],pwd[])),f)");
    assert_eq!(parsed("ls > f | cat"), "Pipe(Out(ls[],f),cat[])");
    assert_eq!(parsed("ls > f ; pwd"), "Seq(Out(ls[],f),pwd[])");
}

#[test]
fn joins_lines_before_parsing() {
    assert_eq!(parsed("ls ;\npwd\r\n"), "Seq(ls[],pwd[])");
}

#[test]
fn error_for_unknown_command() {
    assert_eq!(failed("foo bar"), "foo(args:[\"bar\"]) is not a valid command");
    let args = vec!["a\"b".to_string()];
    let expected = format!("foo(args:{:?}) is not a valid command", args);
    assert_eq!(failed("foo a\"b"), expected);
    assert_eq!(expected, "foo(args:[\"a\\\"b\"]) is not a valid command");
}

#[test]
fn error_messages_of_the_parser() {
    assert_eq!(failed("ls ; ; pwd"), "can't take command from ; pwd");
    assert_eq!(failed("ls )"), ") remains untaken");
    assert_eq!(failed("(ls"), "unexpected None in p_b");
    assert_eq!(failed("ls &x"), "unexpected '&' in p_a");
    assert_eq!(failed("ls > f x"), "unexpected x in p_x");
    assert_eq!(failed("ls > )"), "can't take string from )");
    assert_eq!(failed("ls >"), "can't take string from ");
    assert_eq!(failed("ls <   "), "can't take string from ");
}

#[test]
fn lines_on_which_parsing_panics() {
    assert!(try_parse_ysh(String::new()).is_none());
    assert!(try_parse_ysh("ls ;".to_string()).is_none());
    assert!(try_parse_ysh("ls ;€".to_string()).is_none());
    assert!(try_parse_ysh("ls |é".to_string()).is_none());
    assert!(try_parse_ysh("ls €".to_string()).is_some());
}

#[test]
fn printing() {
    let y = y_sub(y_seq(com("ls"), y_in(com("cat"), "f")));
    assert_eq!(y.to_string(), " (ls ; cat < f) ");
    let y = y_and(com("ls"), y_or(com("pwd"), y_pipe(com("ps"), y_out(com("date"), "g"))));
    assert_eq!(y.to_string(), "ls && pwd || ps | date > g");
    let with_args = y_com("echo", &vec!["hi".to_string()]).unwrap();
    assert_eq!(with_args.to_string(), "echo");
}

#[test]
fn printed_trees_parse_again() {
    let trees = vec![
        y_seq(y_seq(com("ls"), com("pwd")), com("date")),
        y_in(y_sub(y_sub(com("ls"))), "file.txt"),
        y_pipe(y_out(y_and(com("cat"), com("ps")), "a"), y_sub(y_or(com("mv"), com("cp")))),
        y_sub(com("history")),
    ];
    for t in trees {
        let s = t.to_string();
        let back = parse_ysh(s.clone()).expect("a printed tree parses");
        assert_eq!(back.to_string(), s);
    }
}

#[test]
fn debug_drawing() {
    let y = y_in(y_seq(com("ls"), y_sub(com("pwd"))), "f");
    assert_eq!(y.debug(), "In\n--Seq\n----MyCom[ls,[]]\n----Sub\n------MyCom[pwd,[]]\n--f\n");
}

#[test]
fn parsed_trees_print_and_parse_again() {
    for line in ["ls -l ; (pwd)>f", "cat<a>b|ps&&date", "((echo x y))", " mv a b || cp c d ; ls"] {
        let y = parse_ysh(line.to_string()).expect("the line parses");
        let text = y.to_string();
        let z = parse_ysh(text.clone()).expect("the printed tree parses");
        assert_eq!(z.to_string(), text, "{line:?}");
    }
}

#[test]
fn constructors() {
    assert!(y_com("mkdir", &vec!["d".to_string()]).is_ok());
    match y_com("nope", &vec![]) {
        Err(e) => assert_eq!(e, "nope(args:[]) is not a valid command"),
        Ok(_) => panic!(),
    }
    for c in VALID_COMMAND {
        assert!(y_com(c, &vec![]).is_ok());
    }
}

#[test]
fn my_command() {
    let c = MyCommand::new("ls".to_string(), vec!["-l".to_string()]).ok().unwrap();
    assert_eq!(c.debug(), "MyCom[ls,[\"-l\"]]");
    assert_eq!(Command::to_string(&c), "ls");
    match MyCommand::new("rm".to_string(), vec!["x".to_string()]) {
        Err(e) => assert_eq!(e, "rm(arg:[\"x\"]) this is not a built in command"),
        Ok(_) => panic!(),
    }
}

#[test]
fn statuses() {
    assert_eq!(Status::Success.and(Status::Success), Status::Success);
    assert_eq!(Status::Success.and(Status::Fail), Status::Fail);
    assert_eq!(Status::Fail.and(Status::Success), Status::Fail);
    assert_eq!(Status::Success.exit_code(), 0);
    assert_eq!(Status::Fail.exit_code(), 1);
    assert!(matches!(Chain::And.after_left(&Status::Success), Step::RunRight));
    assert!(matches!(Chain::And.after_left(&Status::Fail), Step::Done(Status::Fail)));
    assert!(matches!(Chain::Or.after_left(&Status::Fail), Step::RunRight));
    assert!(matches!(Chain::Or.after_left(&Status::Success), Step::Done(Status::Success)));
    assert!(matches!(Chain::Sequence.after_left(&Status::Fail), Step::RunRight));
    assert_eq!(Chain::Sequence.finish(&Status::Fail, Status::Success), Status::Fail);
    assert_eq!(Chain::And.finish(&Status::Success, Status::Fail), Status::Fail);
    assert_eq!(Chain::Or.finish(&Status::Fail, Status::Success), Status::Success);
}

#[test]
fn forking() {
    assert!(forks(&com("ls"), Proc::Parent));
    assert!(!forks(&com("ls"), Proc::Child));
    assert!(!forks(&y_seq(com("ls"), com("pwd")), Proc::Parent));
    assert!(forks(&y_sub(com("ls")), Proc::Parent));
}

fn strings(a: &[&str]) -> Vec<String> {
    a.iter().map(|s| s.to_string()).collect()
}

#[test]
fn history_options() {
    assert_eq!(Opt::default().nlines, 5);
    let (o, m) = Opt::parse(&strings(&["history", "-n", "3"]));
    assert_eq!(o.nlines, 3);
    assert!(m.is_empty());
    let (o, m) = Opt::parse(&strings(&["history", " - n ", "+12"]));
    assert_eq!(o.nlines, 12);
    assert!(m.is_empty());
    let (o, m) = Opt::parse(&strings(&["history", "-n"]));
    assert_eq!(o.nlines, 5);
    assert_eq!(m, strings(&["args for option -n is not given"]));
    let (o, m) = Opt::parse(&strings(&["history", "-n", "x y", "-k"]));
    assert_eq!(o.nlines, 5);
    assert_eq!(
        m,
        strings(&[
            "args for option -n must be an integer",
            "option xy is not supported",
            "option -k is not supported"
        ])
    );
    let (o, m) = Opt::parse(&strings(&[]));
    assert_eq!(o.nlines, 5);
    assert!(m.is_empty());
}

#[test]
fn usize_parsing_agrees_with_std() {
    for s in [
        "", "+", "-", "-1", "0", "+7", "42", "007", "1 ", " 1", "x", "18446744073709551615",
        "18446744073709551616", "99999999999999999999999", "+0",
    ] {
        assert_eq!(parse_usize(s), s.parse::<usize>().ok(), "{s:?}");
    }
    let spaced: String = remove_spaces(" a b ").into_iter().collect();
    assert_eq!(spaced, "ab");
}

#[test]
fn history_window() {
    assert_eq!(first_shown(10, 3), 7);
    assert_eq!(first_shown(2, 5), 0);
    assert_eq!(first_kept(MAX_HISTORY), 0);
    assert_eq!(first_kept(3), 0);
}

#[test]
fn parser_results() {
    let r: PResult<u8> = PResult::Success(1);
    assert!(matches!(r, PResult::Success(1)));
    let l: PResult<u8> = PResult::Left("x".to_string());
    assert!(matches!(l, PResult::Left(_)));
    let f: PResult<u8> = PResult::Fail("e".to_string());
    assert!(matches!(f, PResult::Fail(_)));
}
