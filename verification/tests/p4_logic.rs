use p4y::p4::{
    changelists_from_ztag, cl_detail_from_output, cl_detail_from_ztag, command_result,
    describe_args, history_args, history_from_output, p4_env, print_args, process_result,
    ztag_args, Changelist, ChangelistDetail, P4Error, P4Settings,
};
use p4y::text::{parse_u32, push_decimal};
use p4y::ztag::parse_ztag;

#[test]
fn parse_u32_matches_std() {
    let samples = [
        "", "+", "-", "0", "7", "+7", "-7", "007", "12a", " 1", "1 ", "4294967295", "4294967296",
        "+4294967295", "99999999999", "١٢", "00000000000000000004294967295", "429496729", "4294967290",
    ];
    for s in samples {
        assert_eq!(parse_u32(s), s.parse::<u32>().ok(), "input {:?}", s);
    }
}

#[test]
fn decimal_round_trip() {
    for n in [0u32, 1, 9, 10, 99, 100, 12345, u32::MAX] {
        let mut s = String::new();
        push_decimal(&mut s, n as u64);
        assert_eq!(s, n.to_string());
        assert_eq!(parse_u32(&s), Some(n));
    }
    let mut s = String::from("x");
    push_decimal(&mut s, u64::MAX);
    assert_eq!(s, format!("x{}", u64::MAX));
}

#[test]
fn changelists_from_filelog_records() {
    let out = "... depotFile //depot/a.c\n\
               ... rev0 3\n... change0 12\n... action0 edit\n... user0 alice\n... time0 1700000000\n... desc0 fix\n\
               ... rev1 2\n... change1 nope\n... user1 bob\n\
               ... rev2 1\n... change2 9\n\
               ... change4 99\n\n\
               ... depotFile //depot/b.c\n... rev0 1\n... change0 13\n... user0 carol\n\n\
               ... depotFile //depot/c.c\n... change1 5\n";
    let changes: Vec<Changelist> = changelists_from_ztag(&parse_ztag(out));
    assert_eq!(changes.len(), 3);
    assert_eq!(changes[0].id, 12);
    assert_eq!(changes[0].author, "alice");
    assert_eq!(changes[0].date, "1700000000");
    assert_eq!(changes[0].description, "fix");
    assert_eq!(changes[1].id, 9);
    assert_eq!(changes[1].author, "");
    assert_eq!(changes[1].date, "");
    assert_eq!(changes[1].description, "");
    assert_eq!(changes[2].id, 13);
    assert_eq!(changes[2].author, "carol");
    let copy = changes[0].clone();
    assert_eq!(copy.author, "alice");
}

#[test]
fn history_and_detail_from_outputs() {
    let h = history_from_output(Ok("... depotFile //d/x\n... change0 4\n... user0 u\n".to_string())).unwrap();
    assert_eq!(h.len(), 1);
    assert_eq!(h[0].id, 4);
    assert_eq!(h[0].author, "u");
    match history_from_output(Err(P4Error::Process("denied".to_string()))) {
        Err(P4Error::Process(m)) => assert_eq!(m, "denied"),
        _ => panic!("expected the error unchanged"),
    }
    let d = cl_detail_from_output(4, Ok("... change 4\n... depotFile0 //d/x\n".to_string())).unwrap();
    assert_eq!(d.affected_files, vec!["//d/x"]);
    match cl_detail_from_output(4, Err(P4Error::Process("gone".to_string()))) {
        Err(P4Error::Process(m)) => assert_eq!(m, "gone"),
        _ => panic!("expected the error unchanged"),
    }
    match cl_detail_from_output(4, Ok(String::new())) {
        Err(P4Error::Process(m)) => assert_eq!(m, "No changelist detail found"),
        _ => panic!("expected a process error"),
    }
}

#[test]
fn process_results() {
    let io = std::io::Error::new(std::io::ErrorKind::NotFound, "no p4");
    assert!(matches!(process_result(Err(io)), Err(P4Error::Io(_))));
    assert_eq!(process_result(Ok((true, b"ok".to_vec(), vec![]))).unwrap(), "ok");
    match process_result(Ok((false, vec![], b"bad".to_vec()))) {
        Err(P4Error::Process(m)) => assert_eq!(m, "bad"),
        _ => panic!("expected a process error"),
    }
}

#[test]
fn cl_detail_reads_files_up_to_first_gap() {
    let out = "... change 7\n... user dan\n... time 5\n... desc d\n\
               ... depotFile0 //a\n... depotFile1 //b\n... depotFile2 //c\n... depotFile4 //e\n\n\
               ... change 8\n";
    let detail: ChangelistDetail = cl_detail_from_ztag(7, &parse_ztag(out)).unwrap();
    assert_eq!(detail.id, 7);
    assert_eq!(detail.author, "dan");
    assert_eq!(detail.date, "5");
    assert_eq!(detail.description, "d");
    assert_eq!(detail.affected_files, vec!["//a", "//b", "//c"]);
    let copy = detail.clone();
    assert_eq!(copy.affected_files.len(), 3);

    let none = cl_detail_from_ztag(3, &parse_ztag("... user x\n... depotFile1 //b")).unwrap();
    assert_eq!(none.affected_files.len(), 0);
    assert_eq!(none.id, 3);
}

#[test]
fn cl_detail_without_record_is_an_error() {
    match cl_detail_from_ztag(7, &parse_ztag("\n\n")) {
        Err(P4Error::Process(m)) => assert_eq!(m, "No changelist detail found"),
        _ => panic!("expected a process error"),
    }
}

#[test]
fn command_arguments() {
    assert_eq!(describe_args(4711), vec!["describe", "-s", "4711"]);
    assert_eq!(history_args("//depot/x/a.c"), vec!["filelog", "//depot/x/a.c"]);
    assert_eq!(print_args("//depot/x#3"), vec!["print", "-q", "//depot/x#3"]);
    let args = vec!["dirs".to_string(), "//d/*".to_string()];
    assert_eq!(ztag_args(&args), vec!["-Ztag", "dirs", "//d/*"]);
}

#[test]
fn environment_from_settings() {
    assert!(p4_env(None).is_empty());
    let s = P4Settings { port: "ssl:p4:1666".to_string(), user: String::new(), client: "ws".to_string() };
    assert_eq!(
        p4_env(Some(&s)),
        vec![
            ("P4PORT".to_string(), "ssl:p4:1666".to_string()),
            ("P4CLIENT".to_string(), "ws".to_string())
        ]
    );
    let d = P4Settings::default();
    assert!(p4_env(Some(&d)).is_empty());
    let c = s.clone();
    assert_eq!(c.port, "ssl:p4:1666");
}

#[test]
fn command_results() {
    match command_result(true, "héllo\n".as_bytes().to_vec(), vec![]) {
        Ok(s) => assert_eq!(s, "héllo\n"),
        _ => panic!("expected output"),
    }
    match command_result(true, vec![0x66, 0xff, 0x6f], vec![]) {
        Err(P4Error::Utf8(e)) => assert_eq!(e.as_bytes(), &[0x66, 0xff, 0x6f]),
        _ => panic!("expected a UTF-8 error"),
    }
    match command_result(false, b"out".to_vec(), b"bad \xff thing".to_vec()) {
        Err(P4Error::Process(m)) => assert_eq!(m, "bad \u{FFFD} thing"),
        _ => panic!("expected a process error"),
    }
    match command_result(false, vec![], b"no such file(s).".to_vec()) {
        Err(P4Error::Process(m)) => assert_eq!(m, "no such file(s)."),
        _ => panic!("expected a process error"),
    }
}

#[test]
fn error_messages() {
    assert_eq!(P4Error::Process("boom".to_string()).message(), "P4 process error: boom");
    let io = std::io::Error::new(std::io::ErrorKind::NotFound, "p4 missing");
    assert_eq!(P4Error::Io(io).message(), "IO error: p4 missing");
    let utf8 = String::from_utf8(vec![0xff]).unwrap_err();
    let text = utf8.to_string();
    assert_eq!(P4Error::Utf8(utf8).message(), format!("UTF-8 conversion error: {}", text));
    let from_io: P4Error = std::io::Error::new(std::io::ErrorKind::Other, "x").into();
    assert!(matches!(from_io, P4Error::Io(_)));
}
