use verilog_filelist_parser::LineType;
use verilog_filelist_parser::parse_line;
use verilog_filelist_parser::substitute;

fn env1() -> Vec<(String, String)> {
    vec![("VAR1".to_string(), "ENV_VAR1".to_string())]
}

#[test]
fn substitute_brace_form() {
    let line = substitute("+define+${VAR1}=x", &env1());
    assert_eq!(line, "+define+ENV_VAR1=x");
    assert_eq!(
        parse_line(&line),
        LineType::Define(vec![("ENV_VAR1".to_string(), Some("x".to_string()))])
    );
}

#[test]
fn substitute_paren_form() {
    let line = substitute("+define+$(VAR1)=x", &env1());
    assert_eq!(line, "+define+ENV_VAR1=x");
    assert_eq!(
        parse_line(&line),
        LineType::Define(vec![("ENV_VAR1".to_string(), Some("x".to_string()))])
    );
}

#[test]
fn substitute_bare_form() {
    let env = vec![("RTL".to_string(), "rtl_dir".to_string())];
    assert_eq!(substitute("$RTL/top.sv", &env), "rtl_dir/top.sv");
}

#[test]
fn substitute_unset_left_verbatim() {
    assert_eq!(substitute("${UNSET}/a.sv", &Vec::new()), "${UNSET}/a.sv");
    // An unset reference stays as written even while others are expanded.
    assert_eq!(substitute("${UNSET}/${VAR1}.sv", &env1()), "${UNSET}/ENV_VAR1.sv");
}

#[test]
fn substitute_replaces_every_occurrence() {
    let env = vec![("A".to_string(), "x".to_string())];
    assert_eq!(substitute("${A}/${A}", &env), "x/x");
}

#[test]
fn substitute_value_not_rescanned() {
    // A substituted value holding a reference is not itself expanded.
    let env = vec![
        ("A".to_string(), "$(B)".to_string()),
        ("B".to_string(), "bee".to_string()),
    ];
    assert_eq!(substitute("${A}", &env), "$(B)");
}
