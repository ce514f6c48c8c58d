use verilog_filelist_parser::LineType;
use verilog_filelist_parser::parse_line;

#[test]
fn parse_line_filelist() {
    let line = "-f sample/files.f\n";
    assert_eq!(parse_line(line), LineType::Filelist("sample/files.f".to_string()));
}

#[test]
fn parse_line_define_single() {
    let line = "+define+CONST1=const1=23+\n";
    let define_map = vec![("CONST1".to_string(), Some("const1=23".to_string()))];
    assert_eq!(parse_line(line), LineType::Define(define_map));
}

#[test]
fn parse_line_define_multiple() {
    let line = "+define+CONST1=const1+CONST2=const2+CONST3=const3=1+CONST4+CONST5+\n";
    let define_map = vec![
        ("CONST1".to_string(), Some("const1".to_string())),
        ("CONST2".to_string(), Some("const2".to_string())),
        ("CONST3".to_string(), Some("const3=1".to_string())),
        ("CONST4".to_string(), None),
        ("CONST5".to_string(), None),
    ];
    assert_eq!(parse_line(line), LineType::Define(define_map));
}

#[test]
fn parse_line_incdir_single() {
    let line = "+incdir+../sample_dir1/sample_dir2\n";
    let incdir_vec = vec!["../sample_dir1/sample_dir2".to_string()];
    assert_eq!(parse_line(line), LineType::IncDir(incdir_vec));
}

#[test]
fn parse_line_incdir_multiple() {
    let line = "+incdir+../sample_dir1/sample_dir2+../sample_dir2/sample_dir3+sample_dir4/sample_dir5+\n";
    let incdir_vec = vec![
        "../sample_dir1/sample_dir2".to_string(),
        "../sample_dir2/sample_dir3".to_string(),
        "sample_dir4/sample_dir5".to_string(),
    ];
    assert_eq!(parse_line(line), LineType::IncDir(incdir_vec));
}

#[test]
fn parse_line_comment() {
    let line = "//random_comment";
    assert_eq!(parse_line(line), LineType::Comment);
}

#[test]
fn parse_line_unknown_hyphen() {
    let line = "-funcmd";
    assert_eq!(parse_line(line), LineType::Unknown);
}

#[test]
fn parse_line_unknown_plus() {
    let line = "+funcmd";
    assert_eq!(parse_line(line), LineType::Unknown);
}

#[test]
fn parse_line_empty() {
    let line = "";
    assert_eq!(parse_line(line), LineType::Empty);
    let line = " ";
    assert_eq!(parse_line(line), LineType::Empty);
    let line = "\t";
    assert_eq!(parse_line(line), LineType::Empty);
}

#[test]
fn parse_line_file() {
    let line = "any_random_line_is_a_file";
    assert_eq!(parse_line(line), LineType::File("any_random_line_is_a_file".to_string()));
}

#[test]
fn parse_line_comment_hash() {
    assert_eq!(parse_line("# note"), LineType::Comment);
    assert_eq!(parse_line("// note"), LineType::Comment);
}

#[test]
fn parse_line_file_payload_is_trimmed() {
    assert_eq!(parse_line("  rtl/top.sv  \n"), LineType::File("rtl/top.sv".to_string()));
}

#[test]
fn parse_line_define_flag_without_value() {
    assert_eq!(
        parse_line("+define+FLAG"),
        LineType::Define(vec![("FLAG".to_string(), None)])
    );
}

#[test]
fn parse_line_define_repeated_key_later_wins() {
    assert_eq!(
        parse_line("+define+K=one+K=two"),
        LineType::Define(vec![("K".to_string(), Some("two".to_string()))])
    );
}

#[test]
fn parse_line_incdir_order_kept() {
    assert_eq!(
        parse_line("+incdir+a+b+c"),
        LineType::IncDir(vec!["a".to_string(), "b".to_string(), "c".to_string()])
    );
}

#[test]
fn parse_line_define_two_values() {
    assert_eq!(
        parse_line("+define+CONST1=const1+CONST2=const2"),
        LineType::Define(vec![
            ("CONST1".to_string(), Some("const1".to_string())),
            ("CONST2".to_string(), Some("const2".to_string())),
        ])
    );
}

#[test]
fn parse_line_filelist_payload_is_trimmed() {
    assert_eq!(parse_line("-f  spaced/files.f \n"), LineType::Filelist("spaced/files.f".to_string()));
}

#[test]
fn parse_line_define_empty_body() {
    assert_eq!(parse_line("+define+"), LineType::Define(vec![("".to_string(), None)]));
}
