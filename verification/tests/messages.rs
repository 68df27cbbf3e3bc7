use actions_runner::execute::ExecError;
use actions_runner::hir::builder::ResolveError;
use actions_runner::hir::lint::LintViolation;
use actions_runner::hir::parser::{
    error_line, error_at, DefKind, Expected, ParseError, Span, ValueKind,
};
use actions_runner::scheduler::CycleError;
use actions_runner::hir::ActionId;
use actions_runner::text::to_decimal;

fn span(start: usize, end: usize) -> Span {
    Span { start, end }
}

fn pest_shows(input: &str, start: usize, end: usize, message: &str) -> String {
    let at = pest::Span::new(input, start, end).unwrap();
    let variant = pest::error::ErrorVariant::<u8>::CustomError { message: message.to_string() };
    format!("error: {}", pest::error::Error::new_from_span(variant, at))
}

#[test]
fn to_decimal_writes_numbers_as_the_standard_library_does() {
    for n in [0usize, 1, 9, 10, 11, 99, 100, 101, 1234567890, usize::MAX] {
        assert_eq!(to_decimal(n), n.to_string());
    }
    for n in 0usize..2000 {
        assert_eq!(to_decimal(n), n.to_string());
    }
}

#[test]
fn parse_error_messages() {
    let p = span(0, 1);
    assert_eq!(ParseError::Syntax { span: p }.message(), "string literal is not quoted");
    assert_eq!(
        ParseError::TypeMismatch { expected: Expected::String, actual: ValueKind::Mapping, span: p }
            .message(),
        "expected string, got map"
    );
    assert_eq!(
        ParseError::TypeMismatch { expected: Expected::Array, actual: ValueKind::String, span: p }
            .message(),
        "expected array, got string"
    );
    assert_eq!(
        ParseError::TypeMismatch { expected: Expected::Mapping, actual: ValueKind::Array, span: p }
            .message(),
        "expected map, got array"
    );
    assert_eq!(
        ParseError::TypeMismatch {
            expected: Expected::ArrayOrString,
            actual: ValueKind::Mapping,
            span: p,
        }
        .message(),
        "expected array or single string, got map"
    );
    assert_eq!(
        ParseError::TypeMismatch {
            expected: Expected::ArrayOrSplitString,
            actual: ValueKind::Mapping,
            span: p,
        }
        .message(),
        "expected array or string with space-separated items, got map"
    );
    assert_eq!(
        ParseError::DuplicateKey { key: "uses".to_string(), span: p }.message(),
        "key uses redefined"
    );
    assert_eq!(
        ParseError::MissingKey { key: "on".to_string(), span: p }.message(),
        "key on required but not set"
    );
    assert_eq!(
        ParseError::UnexpectedKey { key: "image".to_string(), span: p }.message(),
        "unexpected key image"
    );
}

#[test]
fn parse_error_knows_its_place() {
    assert_eq!(ParseError::Syntax { span: span(3, 4) }.span(), span(3, 4));
    assert_eq!(
        ParseError::UnexpectedKey { key: "k".to_string(), span: span(5, 9) }.span(),
        span(5, 9)
    );
}

#[test]
fn error_line_puts_the_word_in_front() {
    assert_eq!(error_line("x"), "error: x");
    assert_eq!(error_line(""), "error: ");
}

#[test]
fn an_error_is_shown_with_its_place_in_the_input() {
    let input = "workflow \"w\" {\n  on = \"push\"\n}\naction \"a\" {}\n";
    let at = input.find("action").unwrap();
    let shown = error_at(input, span(at, at + 13), "key uses required but not set").unwrap();
    assert_eq!(
        shown,
        "error:  --> 4:1\n  |\n4 | action \"a\" {}\n  | ^-----------^\n  |\n  = key uses required but not set"
    );
    assert_eq!(shown, pest_shows(input, at, at + 13, "key uses required but not set"));
    assert_ne!(shown, input);
    assert_ne!(shown, "key uses required but not set");
}

#[test]
fn a_stretch_over_several_lines_is_shown_as_pest_shows_it() {
    let input = "action \"a\" {\n  uses = \"x\"\n  uses = \"y\"\n}\n";
    for (start, end) in [(0, input.len()), (0, 0), (13, 25), (5, 30), (input.len(), input.len())] {
        assert_eq!(
            error_at(input, span(start, end), "m"),
            Some(pest_shows(input, start, end, "m"))
        );
    }
}

#[test]
fn every_stretch_of_an_input_is_shown() {
    let inputs = [
        "",
        "\n",
        "\n\n",
        "a",
        "a\nb",
        "a\r\nb\r\n",
        "\tkey = \"v\"\n\n  x\n",
        "é\nü\n",
        "\r",
        "\r\r\n\n\r",
        "line one\nline two\nline three\nline four",
    ];
    for input in inputs {
        for start in 0..=input.len() {
            for end in 0..=input.len() {
                let shown = error_at(input, span(start, end), "m");
                let is_stretch =
                    start <= end && input.is_char_boundary(start) && input.is_char_boundary(end);
                assert_eq!(shown.is_some(), is_stretch, "{:?} {} {}", input, start, end);
                if let Some(shown) = shown {
                    assert_eq!(shown, pest_shows(input, start, end, "m"));
                    assert!(shown.starts_with("error: "));
                    assert!(shown.ends_with("= m"));
                }
            }
        }
    }
}

#[test]
fn what_is_no_stretch_of_the_input_has_no_place() {
    let input = "aé";
    assert_eq!(error_at(input, span(2, 1), "m"), None);
    assert_eq!(error_at(input, span(0, 4), "m"), None);
    assert_eq!(error_at(input, span(9, 9), "m"), None);
    // Byte 2 lies inside the two bytes of the second character.
    assert_eq!(error_at(input, span(0, 2), "m"), None);
    assert_eq!(error_at(input, span(2, 3), "m"), None);
    assert!(error_at(input, span(1, 3), "m").is_some());
    assert!(error_at(input, span(3, 3), "m").is_some());
}

#[test]
fn report_falls_back_to_the_bare_message() {
    let err = ParseError::DuplicateKey { key: "k".to_string(), span: span(0, 1) };
    assert_eq!(err.report("k = \"v\""), pest_shows("k = \"v\"", 0, 1, "key k redefined"));
    let err = ParseError::DuplicateKey { key: "k".to_string(), span: span(50, 60) };
    assert_eq!(err.report("short"), "error: key k redefined");
}

#[test]
fn resolve_error_messages() {
    assert_eq!(
        ResolveError::DuplicateAction { name: "build".to_string() }.message(),
        "action with name build already defined"
    );
    assert_eq!(ResolveError::MultipleWorkflows.message(), "multiple workflows are not supported");
    assert_eq!(
        ResolveError::UnknownTrigger { trigger: "pull".to_string() }.message(),
        "unknown workflow trigger: pull"
    );
    assert_eq!(
        ResolveError::UnknownAction {
            kind: DefKind::Workflow,
            referrer: "main".to_string(),
            name: "ghost".to_string(),
        }
        .message(),
        "workflow refers to unknown action ghost"
    );
    assert_eq!(
        ResolveError::UnknownAction {
            kind: DefKind::Action,
            referrer: "a".to_string(),
            name: "ghost".to_string(),
        }
        .message(),
        "action a refers to unknown action ghost"
    );
    assert_eq!(ResolveError::MissingWorkflow.message(), "no workflows found");
}

#[test]
fn lint_violation_messages() {
    assert_eq!(
        LintViolation::ReservedEnvPrefix { action: "a".to_string(), key: "GITHUB_X".to_string() }
            .message(),
        "Error: in action 'a': in env var 'GITHUB_X': var name starts with reserved prefix GITHUB_"
    );
    assert_eq!(
        LintViolation::TooManySecrets { count: 101, limit: 100 }.message(),
        "Error: you are using 101 secrets, which exceeds GitHub limit of 100"
    );
    assert_eq!(
        LintViolation::EmptyRuns { action: "a".to_string() }.message(),
        "Error: in action 'a': runs is defined to empty value"
    );
    assert_eq!(
        LintViolation::EmptyArgs { action: "a".to_string() }.message(),
        "Error: in action 'a': args is defined to empty value"
    );
}

#[test]
fn cycle_lines_show_each_edge() {
    let err = CycleError {
        cycle: vec![ActionId::new(0), ActionId::new(1)],
        edges: vec![("a".to_string(), "b".to_string()), ("b".to_string(), "a".to_string())],
    };
    assert_eq!(err.lines(), vec!["a -> b", "b -> a"]);
    let none = CycleError { cycle: vec![], edges: vec![] };
    assert_eq!(none.lines(), Vec::<String>::new());
}

#[test]
fn exec_error_message() {
    assert_eq!(
        ExecError::UnsupportedImage { uses: "x".to_string() }.message(),
        "only pre-built image references (docker://*) are supported currently"
    );
}
