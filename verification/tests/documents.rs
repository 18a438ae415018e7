use texparser::completion::{Completion, CompletionType};
use texparser::patterns::Registry;
use texparser::scanner::{scan, Finding};
use texparser::sources::Sources;
use texparser::{extract, parse_path, Config};

fn config(includes: bool, bib: bool, glossaries: bool, sections: bool, labels: bool) -> Config {
    Config { includes, bib, glossaries, sections, labels, threads: 1 }
}

fn all_on() -> Config {
    config(true, true, true, true, true)
}

fn scan_text(text: &str, cfg: &Config) -> Vec<Finding> {
    let reg = Registry::new(cfg).expect("the patterns compile");
    scan(&reg, cfg, text)
}

fn only_completion(found: &[Finding]) -> &Completion {
    assert_eq!(found.len(), 1);
    match &found[0] {
        Finding::Found(c) => c,
        other => panic!("not a completion: {:?}", other),
    }
}

#[test]
fn find_bibfile() {
    let mut tree = Sources::new();
    tree.insert("path/to/bibfile", "@book{b, title={T}}");
    let path = "path/to/bibfile";
    assert_eq!(tree.is_file(path), true);
    assert_eq!(tree.is_dir(path), false);
}

#[test]
fn directory_of_a_document() {
    let mut tree = Sources::new();
    tree.insert("path/to/bibfile", "");
    assert_eq!(tree.is_dir("path/to"), true);
    assert_eq!(tree.is_dir("path/to/"), true);
    assert_eq!(tree.is_dir("path"), true);
    assert_eq!(tree.is_dir("pat"), false);
    assert_eq!(tree.is_file("path/to"), false);
    assert_eq!(tree.read("path/to/bibfile"), Some(""));
    assert_eq!(tree.read("path/to/other"), None);
}

#[test]
fn section_heading() {
    let found = scan_text("\\section{Intro}", &all_on());
    let c = only_completion(&found);
    assert_eq!(c.label, "Intro");
    match &c.attributes {
        CompletionType::Section(kind) => assert_eq!(kind, "section"),
        other => panic!("not a section: {:?}", other),
    }
}

#[test]
fn commented_section_yields_nothing() {
    assert_eq!(scan_text("% \\section{Intro}", &all_on()).len(), 0);
    assert_eq!(scan_text("text\n  % \\section{Intro}\n", &all_on()).len(), 0);
}

#[test]
fn a_comment_goes_on_to_the_end_of_its_line() {
    assert_eq!(scan_text("% \\label{a} \\label{b}", &all_on()).len(), 0);
    assert_eq!(scan_text("x % \\label{a}\\section{S} \\label{b}", &all_on()).len(), 0);
    let found = scan_text("% \\label{a} \\label{b}\n\\label{c} \\label{d}", &all_on());
    assert_eq!(found.len(), 2);
    assert!(matches!(&found[0], Finding::Found(c) if c.label == "c"));
    assert!(matches!(&found[1], Finding::Found(c) if c.label == "d"));
    let found = scan_text("\\label{a} % \\label{b} \\label{c}", &all_on());
    assert_eq!(only_completion(&found).label, "a");
}

#[test]
fn a_comment_mark_inside_an_argument_comments_the_rest_of_the_line() {
    let found = scan_text("\\label{a%b} \\label{c}\n\\label{d}", &all_on());
    assert_eq!(found.len(), 2);
    assert!(matches!(&found[0], Finding::Found(c) if c.label == "a%b"));
    assert!(matches!(&found[1], Finding::Found(c) if c.label == "d"));
    let found = scan_text("\\label{50\\%} \\label{c}", &all_on());
    assert_eq!(found.len(), 2);
    let found = scan_text("\\section{S}\\label{%\n  x} \\label{y}", &all_on());
    assert_eq!(found.len(), 3);
}

#[test]
fn escaped_percent_is_no_comment() {
    let found = scan_text("50\\% done \\label{a}", &all_on());
    assert_eq!(only_completion(&found).label, "a");
}

#[test]
fn comment_ends_with_its_line() {
    let found = scan_text("% note\n\\label{a}", &all_on());
    assert_eq!(only_completion(&found).label, "a");
}

#[test]
fn starred_section_with_short_title() {
    let found = scan_text("\\chapter*{One}\\subsection[s]{Two}", &all_on());
    assert_eq!(found.len(), 2);
    match &found[0] {
        Finding::Found(c) => {
            assert_eq!(c.label, "One");
            match &c.attributes {
                CompletionType::Section(kind) => assert_eq!(kind, "chapter"),
                other => panic!("not a section: {:?}", other),
            }
        }
        other => panic!("not a completion: {:?}", other),
    }
    match &found[1] {
        Finding::Found(c) => {
            assert_eq!(c.label, "Two");
            match &c.attributes {
                CompletionType::Section(kind) => assert_eq!(kind, "subsection[s]"),
                other => panic!("not a section: {:?}", other),
            }
        }
        other => panic!("not a completion: {:?}", other),
    }
}

#[test]
fn label_is_trimmed() {
    let found = scan_text("\\label{  sec:one }", &all_on());
    let c = only_completion(&found);
    assert_eq!(c.label, "sec:one");
    assert!(matches!(c.attributes, CompletionType::Label));
}

#[test]
fn glossary_entry() {
    let found = scan_text("\\newglossaryentry{term}{description={A thing}}", &all_on());
    let c = only_completion(&found);
    assert_eq!(c.label, "term");
    match &c.attributes {
        CompletionType::Glossaryentry(fields) => {
            assert_eq!(fields.get("description").map(|s| s.as_str()), Some("A thing"));
            assert!(!fields.contains_key("name"));
        }
        other => panic!("not a glossary entry: {:?}", other),
    }
}

#[test]
fn long_glossary_entry() {
    let found = scan_text(
        "\\longnewglossaryentry{term}{name={Term}}{The long description}",
        &all_on(),
    );
    let c = only_completion(&found);
    assert_eq!(c.label, "term");
    match &c.attributes {
        CompletionType::Glossaryentry(fields) => {
            assert_eq!(fields.get("name").map(|s| s.as_str()), Some("Term"));
            assert_eq!(
                fields.get("description").map(|s| s.as_str()),
                Some("The long description")
            );
        }
        other => panic!("not a glossary entry: {:?}", other),
    }
}

#[test]
fn scan_goes_on_after_the_last_group() {
    let found = scan_text(
        "\\longnewglossaryentry{t}{name={T}}{see \\label{inner}}\\label{outer}",
        &all_on(),
    );
    assert_eq!(found.len(), 2);
    match &found[1] {
        Finding::Found(c) => assert_eq!(c.label, "outer"),
        other => panic!("not a completion: {:?}", other),
    }
}

#[test]
fn disabled_category_is_not_found() {
    let cfg = config(false, false, false, true, false);
    let found = scan_text("\\label{a}\\section{S}\\include{x}", &cfg);
    let c = only_completion(&found);
    assert_eq!(c.label, "S");
}

#[test]
fn nothing_live_finds_nothing() {
    let cfg = config(false, false, false, false, false);
    assert_eq!(scan_text("\\label{a}\\section{S}\\include{x}", &cfg).len(), 0);
    assert_eq!(scan_text("", &cfg).len(), 0);
}

#[test]
fn includes_and_bibliographies_are_reported() {
    let found = scan_text("\\include{ chapter1 }\\input{b}\\bibliography{refs}", &all_on());
    assert_eq!(found.len(), 3);
    assert!(matches!(&found[0], Finding::Input(name) if name == "chapter1"));
    assert!(matches!(&found[1], Finding::Input(name) if name == "b"));
    assert!(matches!(&found[2], Finding::Bibliography(name) if name == "refs"));
}

#[test]
fn unterminated_group_ends_the_scan() {
    let found = scan_text("\\label{open \\section{S}", &all_on());
    let c = only_completion(&found);
    assert_eq!(c.label, "open \\section{S}");
}

#[test]
fn end_to_end_main_file_with_include() {
    let mut tree = Sources::new();
    tree.insert("dir/main.tex", "\\documentclass{article}\n\\include{chapter1}\n");
    tree.insert("dir/chapter1.tex", "\\label{sec:one}\n");
    let cfg = config(true, false, false, false, true);
    let found = extract(&tree, "dir", cfg);
    assert_eq!(found.len(), 1);
    assert_eq!(found[0].label, "sec:one");
    assert!(matches!(found[0].attributes, CompletionType::Label));
}

#[test]
fn main_file_forces_includes() {
    let mut tree = Sources::new();
    tree.insert("dir/chapter1.tex", "\\label{sec:one}\n");
    tree.insert("dir/main.tex", "\\documentclass{article}\n\\input{chapter1}\n\\label{m}");
    let cfg = config(false, false, false, false, true);
    let labels: Vec<String> = parse_path(&tree, "dir", cfg).into_iter().map(|c| c.label).collect();
    assert_eq!(labels, vec!["sec:one".to_string(), "m".to_string()]);
}

#[test]
fn commented_documentclass_is_no_main_file() {
    let mut tree = Sources::new();
    tree.insert("dir/a.tex", "% \\documentclass{article}\n\\include{b}\\label{a}");
    tree.insert("dir/b.tex", "\\label{b}");
    let cfg = config(true, false, false, false, true);
    let labels: Vec<String> = parse_path(&tree, "dir", cfg).into_iter().map(|c| c.label).collect();
    assert_eq!(labels, vec!["a".to_string(), "b".to_string()]);
}

#[test]
fn missing_include_is_skipped() {
    let mut tree = Sources::new();
    tree.insert("main.tex", "\\documentclass{a}\\include{gone}\\label{here}");
    let found = extract(&tree, "main.tex", all_on());
    assert_eq!(found.len(), 1);
    assert_eq!(found[0].label, "here");
}

#[test]
fn bibliography_is_followed() {
    let mut tree = Sources::new();
    tree.insert("doc/main.tex", "\\documentclass{a}\\bibliography{refs}");
    tree.insert("doc/refs.bib", "@book{knuth, author={Knuth, D.}, year={1984}}");
    let found = extract(&tree, "doc/main.tex", all_on());
    assert_eq!(found.len(), 1);
    assert_eq!(found[0].label, "knuth");
    match &found[0].attributes {
        CompletionType::Citation(fields, kind) => {
            assert_eq!(kind, "book");
            assert_eq!(fields.get("authortext").map(|s| s.as_str()), Some("Knuth (1984)"));
        }
        other => panic!("not a citation: {:?}", other),
    }
}

#[test]
fn all_toggles_off_yields_nothing() {
    let mut tree = Sources::new();
    tree.insert("dir/main.tex", "\\documentclass{a}\\label{x}\\section{S}");
    tree.insert("dir/refs.bib", "@book{k, title={T}}");
    let cfg = config(false, false, false, false, false);
    assert_eq!(extract(&tree, "dir", cfg).len(), 0);
    assert_eq!(extract(&tree, "dir/main.tex", cfg).len(), 0);
}

#[test]
fn documents_that_include_each_other_are_each_read_once() {
    let mut tree = Sources::new();
    tree.insert("a.tex", "\\label{a}\\include{b}\\label{z}");
    tree.insert("b.tex", "\\label{b}\\include{a}\\include{b}");
    let cfg = config(true, false, false, false, true);
    let labels: Vec<String> = extract(&tree, "a.tex", cfg).into_iter().map(|c| c.label).collect();
    assert_eq!(labels, vec!["a", "b", "z"]);
}

#[test]
fn a_document_named_twice_is_read_once() {
    let mut tree = Sources::new();
    tree.insert("main.tex", "\\input{part}\\label{m}\\input{part}\\input{ part }");
    tree.insert("part.tex", "\\label{p}");
    let cfg = config(true, false, false, false, true);
    let labels: Vec<String> = extract(&tree, "main.tex", cfg).into_iter().map(|c| c.label).collect();
    assert_eq!(labels, vec!["p", "m"]);
}

#[test]
fn a_bibliography_given_as_root_is_read_where_citations_are_wanted() {
    let mut tree = Sources::new();
    tree.insert("refs.bib", "@book{k, title={T}}");
    assert_eq!(extract(&tree, "refs.bib", config(false, false, false, false, false)).len(), 0);
    assert_eq!(extract(&tree, "refs.bib", config(true, false, true, true, true)).len(), 0);
    let found = extract(&tree, "refs.bib", config(false, true, false, false, false));
    assert_eq!(found.len(), 1);
    assert_eq!(found[0].label, "k");
}
