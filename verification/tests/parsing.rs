use texparser::bib::{author_text, parse_bib};
use texparser::braces::match_parens;
use texparser::completion::CompletionType;
use texparser::fields::values;

#[test]
fn brace_group_with_nesting() {
    assert_eq!(match_parens("{a{b}c}rest"), ("a{b}c", "rest"));
}

#[test]
fn brace_group_unterminated() {
    assert_eq!(match_parens("{abc"), ("abc", ""));
}

#[test]
fn brace_group_absent() {
    assert_eq!(match_parens(""), ("", ""));
    assert_eq!(match_parens("no braces here"), ("", ""));
}

#[test]
fn brace_group_after_leading_text() {
    assert_eq!(match_parens("ab{cd}ef"), ("cd", "ef"));
}

#[test]
fn key_value_list() {
    assert_eq!(values("k1={v1}, k2=v2"), vec![("k1", "v1"), ("k2", "v2")]);
}

#[test]
fn bib_single_author() {
    let found = parse_bib("@article{key1, author={Smith, J.}, year={2020}}");
    assert_eq!(found.len(), 1);
    assert_eq!(found[0].label, "key1");
    match &found[0].attributes {
        CompletionType::Citation(fields, kind) => {
            assert_eq!(kind, "article");
            assert_eq!(fields.get("authortext").map(|s| s.as_str()), Some("Smith (2020)"));
            assert_eq!(fields.get("author").map(|s| s.as_str()), Some("Smith, J."));
            assert_eq!(fields.get("year").map(|s| s.as_str()), Some("2020"));
        }
        other => panic!("not a citation: {:?}", other),
    }
}

#[test]
fn author_summaries() {
    assert_eq!(author_text("Smith, J.", "2020"), "Smith (2020)");
    assert_eq!(author_text("Smith, J. and Doe, A.", "2019"), "Smith & Doe (2019)");
    assert_eq!(
        author_text("Smith, J. and Doe, A. and Roe, R.", "2021"),
        "Smith et al. (2021)"
    );
}
