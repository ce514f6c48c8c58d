use verilog_filelist_parser::Aggregator;
use verilog_filelist_parser::Filelist;
use verilog_filelist_parser::ReadError;
use verilog_filelist_parser::parse_file;

fn no_env() -> Vec<(String, String)> {
    Vec::new()
}

fn fs(entries: &[(&str, &str)]) -> Vec<(String, String)> {
    entries.iter().map(|(p, c)| (p.to_string(), c.to_string())).collect()
}

#[test]
fn source_files_kept_in_order_with_duplicates() {
    let table = fs(&[("top.f", "a.sv\nb.sv\na.sv")]);
    let fl = parse_file(&table, "top.f", &no_env()).expect("readable");
    assert_eq!(fl.files, vec!["a.sv".to_string(), "b.sv".to_string(), "a.sv".to_string()]);
    assert_eq!(fl.incdirs, Vec::<String>::new());
    assert_eq!(fl.defines, Vec::new());
    assert!(!fl.comments_present);
    assert!(!fl.unknowns_present);
}

#[test]
fn sub_filelist_define_wins() {
    let table = fs(&[
        ("top.f", "+define+K=one\n-f sub.f"),
        ("sub.f", "+define+K=two"),
    ]);
    let fl = parse_file(&table, "top.f", &no_env()).expect("readable");
    assert_eq!(fl.defines, vec![("K".to_string(), Some("two".to_string()))]);
}

#[test]
fn missing_sub_filelist_fails_whole_call() {
    let table = fs(&[("top.f", "a.sv\n-f nope.f\nb.sv")]);
    let r = parse_file(&table, "top.f", &no_env());
    assert_eq!(r, Err(ReadError::Unreadable("nope.f".to_string())));
}

#[test]
fn self_referencing_filelist_is_refused() {
    let table = fs(&[("top.f", "-f top.f")]);
    let r = parse_file(&table, "top.f", &no_env());
    assert_eq!(r, Err(ReadError::Repeated("top.f".to_string())));
}

#[test]
fn end_to_end_scenario() {
    let table = fs(&[
        ("top.f", "fileA.sv\n+incdir+inc/\n+define+DBG\n// comment\n-f sub.f"),
        ("sub.f", "fileB.sv"),
    ]);
    let fl = parse_file(&table, "top.f", &no_env()).expect("readable");
    assert_eq!(fl.files, vec!["fileA.sv".to_string(), "fileB.sv".to_string()]);
    assert_eq!(fl.incdirs, vec!["inc/".to_string()]);
    assert_eq!(fl.defines, vec![("DBG".to_string(), None)]);
    assert!(fl.comments_present);
    assert!(!fl.unknowns_present);
}

#[test]
fn substitution_applied_before_classification() {
    let env = vec![("VAR1".to_string(), "ENV_VAR1".to_string())];
    let table = fs(&[("top.f", "+define+${VAR1}=x\n$(VAR1).sv")]);
    let fl = parse_file(&table, "top.f", &env).expect("readable");
    assert_eq!(fl.defines, vec![("ENV_VAR1".to_string(), Some("x".to_string()))]);
    assert_eq!(fl.files, vec!["ENV_VAR1.sv".to_string()]);
}

#[test]
fn unknown_flag_sets_flag_only() {
    let table = fs(&[("top.f", "-funcmd\n+funcmd\nreal.sv")]);
    let fl = parse_file(&table, "top.f", &no_env()).expect("readable");
    assert_eq!(fl.files, vec!["real.sv".to_string()]);
    assert!(fl.unknowns_present);
    assert!(!fl.comments_present);
}

#[test]
fn aggregator_machine_asks_and_finishes() {
    let env = no_env();
    let mut agg = Aggregator::new("a.f");
    assert_eq!(agg.awaiting(), Some("a.f".to_string()));
    assert!(!agg.is_done());
    agg.feed("x.sv\n-f b.f\nz.sv", &env);
    assert_eq!(agg.awaiting(), Some("b.f".to_string()));
    agg.feed("y.sv", &env);
    assert!(agg.is_done());
    let fl = agg.into_result();
    // The referenced file's lines are spliced in place of the reference.
    assert_eq!(
        fl.files,
        vec!["x.sv".to_string(), "y.sv".to_string(), "z.sv".to_string()]
    );
}

#[test]
fn filelist_new_is_empty() {
    let fl = Filelist::new();
    assert_eq!(fl.files, Vec::<String>::new());
    assert_eq!(fl.incdirs, Vec::<String>::new());
    assert_eq!(fl.defines, Vec::new());
    assert!(!fl.comments_present);
    assert!(!fl.unknowns_present);
}

#[test]
fn filelist_extend_merges() {
    let mut a = Filelist::new();
    a.files.push("a.sv".to_string());
    a.incdirs.push("ia/".to_string());
    a.defines.push(("K".to_string(), Some("one".to_string())));
    a.defines.push(("L".to_string(), None));
    let mut b = Filelist::new();
    b.files.push("b.sv".to_string());
    b.defines.push(("K".to_string(), Some("two".to_string())));
    b.comments_present = true;
    a.extend(b);
    assert_eq!(a.files, vec!["a.sv".to_string(), "b.sv".to_string()]);
    assert_eq!(a.incdirs, vec!["ia/".to_string()]);
    assert_eq!(
        a.defines,
        vec![
            ("L".to_string(), None),
            ("K".to_string(), Some("two".to_string())),
        ]
    );
    assert!(a.comments_present);
    assert!(!a.unknowns_present);
}

#[test]
fn defines_merge_across_lines() {
    let table = fs(&[("top.f", "+define+A=1+B=2\n+define+B=3+C")]);
    let fl = parse_file(&table, "top.f", &no_env()).expect("readable");
    let mut got = fl.defines.clone();
    got.sort();
    assert_eq!(
        got,
        vec![
            ("A".to_string(), Some("1".to_string())),
            ("B".to_string(), Some("3".to_string())),
            ("C".to_string(), None),
        ]
    );
}

#[test]
fn trailing_newline_adds_no_file() {
    let table = fs(&[("top.f", "a.sv\nb.sv\n")]);
    let fl = parse_file(&table, "top.f", &no_env()).expect("readable");
    assert_eq!(fl.files, vec!["a.sv".to_string(), "b.sv".to_string()]);
}
