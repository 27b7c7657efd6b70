use cta_bench::axiomize::build_packet_check_source;

#[test]
fn packet_source_puts_statements_before_the_closing_end() {
    let scaffold = "namespace X\ndef f := 1\nend X\n";
    let stmts = vec!["theorem a : True := trivial".to_string(), "theorem b : True := trivial".to_string()];
    assert_eq!(
        build_packet_check_source(scaffold, &stmts),
        "namespace X\ndef f := 1\n\n-- Generated packet obligations for elaboration check.\ntheorem a : True := trivial\n\ntheorem b : True := trivial\n\nend X\n"
    );
}

#[test]
fn packet_source_without_end_line_or_statements() {
    assert_eq!(
        build_packet_check_source("import Mathlib", &Vec::new()),
        "import Mathlib\n\n-- Generated packet obligations for elaboration check.\n\n"
    );
    // Only the last `end` line moves; an indented one counts.
    assert_eq!(
        build_packet_check_source("section\nend A\nx\n  end B", &vec!["t".to_string()]),
        "section\nend A\nx\n\n-- Generated packet obligations for elaboration check.\nt\n\n  end B\n"
    );
}
