use emission::Emission::{EdgeDefined, EdgeUndefined};
use emission::{
    chars_of, parse, parse_document, parse_emission, parse_line, string_of, Emission, Expected, GrammarError, Line,
    LineError, NumberFormat, ParseFailure,
};

fn weight(e: &Emission) -> f64 {
    match e {
        EdgeDefined(_, _, w, _) => w.as_str().parse::<f64>().unwrap(),
        EdgeUndefined(..) => panic!("no weight"),
    }
}

fn weight_text(e: &Emission) -> String {
    match e {
        EdgeDefined(_, _, w, _) => w.as_str().to_string(),
        EdgeUndefined(..) => panic!("no weight"),
    }
}

fn grammar_failure(line_number: usize, position: usize, expected: Expected) -> ParseFailure {
    ParseFailure { line_number, error: LineError::Grammar(GrammarError { position, expected }) }
}

#[test]
fn unweighted_edge_alone() {
    let out = parse("\"asdf1\" \"asdf2\"").unwrap();
    let q = vec![EdgeUndefined(1, "asdf1".to_string(), "asdf2".to_string())];
    assert_eq!(out, q);
}

#[test]
fn weighted_edge_detects_german() {
    let out = parse("\"asdf1\" 1,1 \"asdf2\"").unwrap();
    assert_eq!(out.len(), 1);
    assert!(matches!(&out[0], EdgeDefined(1, s, _, d) if s == "asdf1" && d == "asdf2"));
    assert_eq!(weight(&out[0]), 1.1);
}

#[test]
fn two_german_lines() {
    let out = parse("\"a\" 1,1 \"a\"\n\"b\" 2,2 \"b\"").unwrap();
    assert_eq!(out.len(), 2);
    assert!(matches!(&out[0], EdgeDefined(1, s, _, d) if s == "a" && d == "a"));
    assert!(matches!(&out[1], EdgeDefined(2, s, _, d) if s == "b" && d == "b"));
    assert_eq!(weight(&out[0]), 1.1);
    assert_eq!(weight(&out[1]), 2.2);
}

#[test]
fn missing_destination_fails_on_line_one() {
    let r = parse("\"asdf1\" 1,1");
    assert_eq!(r.unwrap_err(), grammar_failure(1, 11, Expected::Identifier));
}

#[test]
fn dots_group_and_comma_is_decimal() {
    let out = parse("\"a\" 1.233.423.423,44 \"b\"").unwrap();
    assert_eq!(weight_text(&out[0]), "1233423423.44");
    assert_eq!(weight(&out[0]), 1233423423.44);
}

#[test]
fn commas_group_and_dot_is_decimal() {
    let out = parse("\"a\" 1,233,423.5 \"b\"").unwrap();
    assert_eq!(weight_text(&out[0]), "1233423.5");
}

#[test]
fn empty_and_blank_documents() {
    assert_eq!(parse("").unwrap(), vec![]);
    assert_eq!(parse("  \t ").unwrap(), vec![]);
    assert_eq!(parse("\n  \n\t\n\n").unwrap(), vec![]);
}

#[test]
fn weight_is_literal_read_in_detected_format() {
    let out = parse("\"s\" 1.234,5 \"d\"").unwrap();
    let w = NumberFormat::DE.parse_number("1.234,5").unwrap();
    assert_eq!(out, vec![EdgeDefined(1, "s".to_string(), w, "d".to_string())]);
    let out = parse("\"s\" 1,234 \"d\"").unwrap();
    assert_eq!(weight_text(&out[0]), "1.234");
    let out = parse("\"s\" 1.234 \"d\"").unwrap();
    assert_eq!(weight_text(&out[0]), "1.234");
    let out = parse("\"s\" 1234 \"d\"").unwrap();
    assert_eq!(weight_text(&out[0]), "1234");
}

#[test]
fn names_keep_inner_blanks() {
    let out = parse("  \" H2  plant \"\t\"x y\"  ").unwrap();
    assert_eq!(out, vec![EdgeUndefined(1, " H2  plant ".to_string(), "x y".to_string())]);
}

#[test]
fn german_first_weight_fixes_format() {
    let out = parse("\"a\" 1,1 \"b\"\n\"c\" 1.000 \"d\"").unwrap();
    assert_eq!(weight(&out[1]), 1000.0);
    let alone = parse("\"c\" 1.000 \"d\"").unwrap();
    assert_eq!(weight(&alone[0]), 1.0);
}

#[test]
fn us_first_weight_fixes_format() {
    let out = parse("\"a\" \"b\"\n\"a\" 1.5 \"b\"\n\"c\" 2,5 \"d\"").unwrap();
    assert_eq!(weight(&out[1]), 1.5);
    assert_eq!(weight(&out[2]), 25.0);
}

#[test]
fn given_format_applies_from_the_start() {
    let out = parse_document("\"c\" 1.000 \"d\"", Some(NumberFormat::DE)).unwrap();
    assert_eq!(weight(&out[0]), 1000.0);
    let out = parse_emission("\"c\" 1.000 \"d\"", NumberFormat::DE).unwrap();
    assert_eq!(weight(&out[0]), 1.0);
}

#[test]
fn written_line_reads_back() {
    for (text, format) in [
        ("\"a b\" 1.234,5 \"c\"", NumberFormat::DE),
        ("\"a b\" 1.234,5 \"c\"", NumberFormat::US),
        ("\"a\" 7 \"c\"", NumberFormat::DE),
        ("\"a\" 7, \"c\"", NumberFormat::US),
        ("\"a\" \"c\"", NumberFormat::US),
    ] {
        let first = parse(text).unwrap();
        let line = first[0].to_line(format);
        let again = parse(&line).unwrap();
        assert_eq!(first, again);
        let pinned = parse_document(&line, Some(format)).unwrap();
        assert_eq!(first, pinned);
    }
    let out = parse("\"a b\" 1.234,5 \"c\"").unwrap();
    assert_eq!(out[0].to_line(NumberFormat::DE), "\"a b\" 1234,5 \"c\"");
    assert_eq!(out[0].to_line(NumberFormat::US), "\"a b\" 1234.5 \"c\"");
}

#[test]
fn failure_names_first_bad_line() {
    let r = parse("\"a\" \"b\"\n\n\"c\" 1 \"d\"\nbad\n\"e\" \"f\"");
    assert_eq!(r.unwrap_err(), grammar_failure(4, 0, Expected::Identifier));
}

#[test]
fn two_decimal_marks_fail_conversion() {
    let r = parse("\"a\" \"b\"\n\"a\" 1,2,3 \"b\"");
    assert_eq!(r.unwrap_err(), ParseFailure { line_number: 2, error: LineError::Conversion });
    let r = parse_emission("\"a\" 1.2.3 \"b\"", NumberFormat::US);
    assert_eq!(r.unwrap_err(), ParseFailure { line_number: 1, error: LineError::Conversion });
    let r = parse_document("\"a\" 1.2.3 \"b\"", Some(NumberFormat::DE)).unwrap();
    assert_eq!(weight_text(&r[0]), "123");
}

#[test]
fn each_grammar_error() {
    let cases = [
        ("a 1 a", 0, Expected::Identifier),
        ("\"\" \"b\"", 1, Expected::Name),
        ("\"abc", 4, Expected::ClosingQuote),
        ("\"a\"\"b\"", 3, Expected::Whitespace),
        ("\"a\" x", 4, Expected::WeightOrIdentifier),
        ("\"a\"  ", 5, Expected::WeightOrIdentifier),
        ("\"a\" \"b\" \"c\"", 8, Expected::EndOfLine),
        ("\"a\" 1x \"b\"", 5, Expected::Whitespace),
        ("\"a\" 1,,2 \"b\"", 6, Expected::Whitespace),
        ("\"a\" 1 b", 6, Expected::Identifier),
        ("\"a\" 1 \"b", 8, Expected::ClosingQuote),
    ];
    for (text, position, expected) in cases {
        assert_eq!(parse(text).unwrap_err(), grammar_failure(1, position, expected), "{text}");
    }
}

#[test]
fn crlf_line_breaks() {
    let out = parse("\"a\" \"b\"\r\n\"c\" 2,5 \"d\"\r\n").unwrap();
    assert_eq!(out.len(), 2);
    assert!(matches!(&out[1], EdgeDefined(2, s, _, d) if s == "c" && d == "d"));
}

#[test]
fn detection_by_last_separator() {
    assert_eq!(NumberFormat::detect(&chars_of("1.234,5")), NumberFormat::DE);
    assert_eq!(NumberFormat::detect(&chars_of("1,5")), NumberFormat::DE);
    assert_eq!(NumberFormat::detect(&chars_of("1,234.5")), NumberFormat::US);
    assert_eq!(NumberFormat::detect(&chars_of("1.5")), NumberFormat::US);
    assert_eq!(NumberFormat::detect(&chars_of("12")), NumberFormat::US);
}

#[test]
fn number_conversion() {
    assert_eq!(NumberFormat::DE.parse_number("1.234,5").unwrap().as_str(), "1234.5");
    assert_eq!(NumberFormat::US.parse_number("1,234.5").unwrap().as_str(), "1234.5");
    assert_eq!(NumberFormat::DE.parse_number("2,").unwrap().as_str(), "2.");
    assert_eq!(NumberFormat::US.parse_number("1,000").unwrap().as_str(), "1000");
    assert_eq!(NumberFormat::DE.parse_number("1,000").unwrap().as_str(), "1.000");
    assert!(NumberFormat::US.parse_number(".5").is_none());
    assert!(NumberFormat::US.parse_number("").is_none());
    assert!(NumberFormat::DE.parse_number("1,2,3").is_none());
}

#[test]
fn single_line_grammar() {
    match parse_line(&chars_of("\"H₂\" 3,5 \"Midtbø\"")).unwrap() {
        Line::Weighted { source, literal, destination } => {
            assert_eq!(source, "H₂");
            assert_eq!(literal, "3,5");
            assert_eq!(destination, "Midtbø");
        }
        other => panic!("{other:?}"),
    }
    assert!(matches!(parse_line(&chars_of(" \t")).unwrap(), Line::Blank));
}

#[test]
fn characters_and_strings() {
    let v = chars_of("fällmittel ₂");
    assert_eq!(v.len(), 12);
    assert_eq!(string_of(&v), "fällmittel ₂");
}

#[test]
fn caller_format_does_not_override_detection() {
    let out = parse_emission("\"a\" 1,1 \"b\"", NumberFormat::US).unwrap();
    assert_eq!(weight(&out[0]), 1.1);
    let out = parse_emission("\"a\" 1.233.423.423,44 \"b\"", NumberFormat::US).unwrap();
    assert_eq!(weight(&out[0]), 1233423423.44);
}

#[test]
fn blank_document_with_crlf() {
    assert_eq!(parse(" \r\n\t\r\n\r\n  ").unwrap(), vec![]);
}

#[test]
fn unweighted_edge_among_blank_lines() {
    let out = parse("\n \t\r\n  \"H₂ Generator\"\t\t \"Midtbø\"  \n\n").unwrap();
    assert_eq!(out, vec![EdgeUndefined(3, "H₂ Generator".to_string(), "Midtbø".to_string())]);
}

#[test]
fn weighted_edge_among_blank_lines() {
    let out = parse("\t\n\n \"a\"  1.234,5\t\"b\" \t\n ").unwrap();
    assert_eq!(out.len(), 1);
    assert!(matches!(&out[0], EdgeDefined(3, s, _, d) if s == "a" && d == "b"));
    assert_eq!(weight(&out[0]), 1234.5);
}
