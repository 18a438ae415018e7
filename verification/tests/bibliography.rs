use texparser::bib::{citation, parse_bib, parse_entry, split_entry};
use texparser::completion::{CompletionType, FieldMap};
use texparser::parser::parse_bibfile;
use texparser::sources::Sources;

fn field<'a>(attributes: &'a CompletionType, name: &str) -> Option<&'a str> {
    match attributes {
        CompletionType::Citation(fields, _) => fields.get(name).map(|s| s.as_str()),
        _ => None,
    }
}

#[test]
fn entry_type_and_field_names_are_lower_cased() {
    let found = parse_bib("@ARTICLE{Key1,\n  AUTHOR = {Smith, J.},\n  Year = 2020\n}\n");
    assert_eq!(found.len(), 1);
    assert_eq!(found[0].label, "Key1");
    assert!(matches!(&found[0].attributes, CompletionType::Citation(_, kind) if kind == "article"));
    assert_eq!(field(&found[0].attributes, "author"), Some("Smith, J."));
    assert_eq!(field(&found[0].attributes, "AUTHOR"), None);
    assert_eq!(field(&found[0].attributes, "year"), Some("2020"));
    assert_eq!(field(&found[0].attributes, "authortext"), Some("Smith (2020)"));
}

#[test]
fn several_entries_in_order() {
    let text = "preamble text\n@book{a, title={A}}\n\n@misc{b,\n note={mail me @ home}\n}\n@article{c, year=1999}";
    let labels: Vec<String> = parse_bib(text).into_iter().map(|c| c.label).collect();
    assert_eq!(labels, vec!["a", "b", "c"]);
}

#[test]
fn text_before_the_first_entry_is_dropped() {
    assert_eq!(parse_bib("just a comment {with, braces=1}").len(), 0);
    assert_eq!(parse_bib("x @book{a, title={A}}").len(), 0);
    assert_eq!(parse_bib("").len(), 0);
}

#[test]
fn comment_entries_are_skipped() {
    let text = "@comment{ignored, a=b}\n@Comment{ignored, a=b}\n@book{kept, a=b}";
    let labels: Vec<String> = parse_bib(text).into_iter().map(|c| c.label).collect();
    assert_eq!(labels, vec!["kept"]);
}

#[test]
fn entry_without_a_comma_is_skipped() {
    let text = "@book{nokey}\n@book{kept, a=b}\n@string no braces at all";
    let labels: Vec<String> = parse_bib(text).into_iter().map(|c| c.label).collect();
    assert_eq!(labels, vec!["kept"]);
}

#[test]
fn no_author_summary_without_year() {
    let found = parse_bib("@book{a, author={Smith, J.}}");
    assert_eq!(found.len(), 1);
    assert_eq!(field(&found[0].attributes, "authortext"), None);
}

#[test]
fn author_summary_for_two_and_more() {
    let found = parse_bib(
        "@book{a, author={Smith, J. and Doe, A.}, year={2019}}\n@book{b, author={Smith, J. and Doe, A. and Roe, R.}, year={2021}}",
    );
    assert_eq!(found.len(), 2);
    assert_eq!(field(&found[0].attributes, "authortext"), Some("Smith & Doe (2019)"));
    assert_eq!(field(&found[1].attributes, "authortext"), Some("Smith et al. (2021)"));
}

#[test]
fn entry_type_ends_at_the_first_brace() {
    let (kind, label, fields) = split_entry("article{key,title={x}}").expect("an entry");
    assert_eq!(kind, "article");
    assert_eq!(label, "key");
    assert_eq!(fields, vec![("title", "x")]);
    let (kind, _, _) = split_entry("in proceedings {k, a=b}").expect("an entry");
    assert_eq!(kind, "");
    assert!(split_entry("article{key}").is_none());
    assert!(split_entry("article").is_none());
}

#[test]
fn parse_entry_reads_one_entry() {
    let c = parse_entry("Book{ k1 , Title = {T}}").expect("a citation");
    assert_eq!(c.label, "k1");
    assert!(matches!(&c.attributes, CompletionType::Citation(_, kind) if kind == "book"));
    assert_eq!(field(&c.attributes, "title"), Some("T"));
    assert!(parse_entry("COMMENT{ k1 , Title = {T}}").is_none());
}

#[test]
fn citation_adds_the_author_summary() {
    let mut fields = FieldMap::new();
    fields.insert("author".to_string(), "Knuth, D.".to_string());
    fields.insert("year".to_string(), "1984".to_string());
    let c = citation("knuth", "book".to_string(), fields);
    assert_eq!(c.label, "knuth");
    assert_eq!(field(&c.attributes, "authortext"), Some("Knuth (1984)"));
    let c = citation("none", "book".to_string(), FieldMap::new());
    assert_eq!(field(&c.attributes, "authortext"), None);
}

#[test]
fn bibliography_of_a_tree() {
    let mut tree = Sources::new();
    tree.insert("refs.bib", "@book{a, title={A}}");
    assert_eq!(parse_bibfile(&tree, "refs.bib").len(), 1);
    assert_eq!(parse_bibfile(&tree, "gone.bib").len(), 0);
}

#[test]
fn open_bibfile() {
    let mut text = String::from("% a large bibliography\n");
    for i in 0..25350 {
        text.push_str(&format!(
            "@article{{key{},\n  author = {{Author{}, A. and Other, B.}},\n  title = {{Title {}}},\n  year = {}\n}}\n\n",
            i,
            i,
            i,
            1900 + i % 120
        ));
    }
    let mut tree = Sources::new();
    tree.insert("path/to/bibfile", &text);
    let path = "path/to/bibfile";
    let entrys = parse_bibfile(&tree, path);
    assert_eq!(entrys.len(), 25350);
    assert_eq!(entrys[25349].label, "key25349");
    assert_eq!(field(&entrys[7].attributes, "authortext"), Some("Author7 & Other (1907)"));
}
