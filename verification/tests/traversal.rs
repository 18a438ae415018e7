use texparser::completion::CompletionType;
use texparser::parser::{single_pass, single_pass_with};
use texparser::patterns::Registry;
use texparser::scanner::{classify, read_command, step, step_at, Class, Finding, Step};
use texparser::sources::Sources;
use texparser::traverse::Traversal;
use texparser::workers::{distribute, flat_extract};
use texparser::{find_mainfile, parse_path, parse_path_single, plan, Config, Plan};

fn config(includes: bool, bib: bool, glossaries: bool, sections: bool, labels: bool) -> Config {
    Config { includes, bib, glossaries, sections, labels, threads: 1 }
}

fn all_on() -> Config {
    config(true, true, true, true, true)
}

fn labels(found: Vec<texparser::completion::Completion>) -> Vec<String> {
    found.into_iter().map(|c| c.label).collect()
}

#[test]
fn registry_for_every_configuration() {
    for bits in 0..32u32 {
        let cfg = config(bits & 1 != 0, bits & 2 != 0, bits & 4 != 0, bits & 8 != 0, bits & 16 != 0);
        let reg = Registry::new(&cfg).expect("the patterns compile");
        assert_eq!(reg.combined.is_some(), bits != 0);
        assert!(reg.has_documentclass("\\documentclass{article}"));
        assert!(reg.has_documentclass("text\n  \\documentclass[a4paper]{book}"));
        assert!(!reg.has_documentclass("% \\documentclass{article}"));
        assert!(!reg.has_documentclass("\\section{x}"));
    }
}

#[test]
fn classes_by_priority() {
    let cfg = all_on();
    assert_eq!(classify(&cfg, true, true, true, true, true), Some(Class::Input));
    assert_eq!(classify(&cfg, false, true, true, true, true), Some(Class::Bibliography));
    assert_eq!(classify(&cfg, false, false, true, true, true), Some(Class::Label));
    assert_eq!(classify(&cfg, false, false, false, true, true), Some(Class::Section));
    assert_eq!(classify(&cfg, false, false, false, false, true), Some(Class::Glossary));
    assert_eq!(classify(&cfg, false, false, false, false, false), None);
    let only_sections = config(false, false, false, true, false);
    assert_eq!(classify(&only_sections, true, true, true, true, true), Some(Class::Section));
    assert_eq!(classify(&only_sections, true, true, true, false, true), None);
}

#[test]
fn reading_a_command() {
    let (finding, rest) = read_command(Class::Label, "\\label{", "{ a }tail");
    assert!(matches!(&finding, Finding::Found(c) if c.label == "a"));
    assert_eq!(rest, "tail");
    let (finding, rest) = read_command(Class::Section, "\\section*{", "{S} x");
    match finding {
        Finding::Found(c) => {
            assert_eq!(c.label, "S");
            assert!(matches!(&c.attributes, CompletionType::Section(kind) if kind == "section"));
        }
        other => panic!("not a completion: {:?}", other),
    }
    assert_eq!(rest, " x");
    let (finding, rest) = read_command(Class::Input, "\\input{", "{ch}rest");
    assert!(matches!(&finding, Finding::Input(name) if name == "ch"));
    assert_eq!(rest, "rest");
    let (finding, rest) =
        read_command(Class::Glossary, "\\longnewglossaryentry{", "{t}{name={T}} {Long}end");
    match finding {
        Finding::Found(c) => match &c.attributes {
            CompletionType::Glossaryentry(fields) => {
                assert_eq!(fields.get("name").map(|s| s.as_str()), Some("T"));
                assert_eq!(fields.get("description").map(|s| s.as_str()), Some("Long"));
            }
            other => panic!("not a glossary entry: {:?}", other),
        },
        other => panic!("not a completion: {:?}", other),
    }
    assert_eq!(rest, "end");
    let (_, rest) = read_command(Class::Glossary, "\\newglossaryentry{", "{t}{name={T}} {Long}end");
    assert_eq!(rest, " {Long}end");
}

#[test]
fn steps_of_a_scan() {
    let cfg = all_on();
    let reg = Registry::new(&cfg).expect("the patterns compile");
    assert!(matches!(step(&reg, &cfg, "plain text"), Step::Stop));
    match step(&reg, &cfg, "é \\label{a} rest") {
        Step::Yield(Finding::Found(c), rest) => {
            assert_eq!(c.label, "a");
            assert_eq!(rest, " rest");
        }
        other => panic!("not a finding: {:?}", other),
    }
    assert!(matches!(step(&reg, &cfg, "a % \\label{a} rest"), Step::Pass("a} rest")));
    let text = "ab\\label{x}cd";
    assert!(matches!(step_at(&reg, &cfg, text, 2, 9), Step::Yield(_, "cd")));
    assert!(matches!(step_at(&reg, &cfg, text, 2, 8), Step::Stop));
    assert!(matches!(step_at(&reg, &cfg, text, 9, 9), Step::Stop));
    assert!(matches!(step_at(&reg, &cfg, text, 2, 99), Step::Stop));
}

#[test]
fn traversal_by_hand() {
    let cfg = config(true, true, false, false, true);
    let reg = Registry::new(&cfg).expect("the patterns compile");
    let mut walk = Traversal::start(&reg, "dir/main.tex", &cfg);
    assert_eq!(walk.next(), Some(("dir/main.tex".to_string(), false)));
    walk.supply(
        "dir/main.tex",
        false,
        Some("\\label{a}\\include{ch}\\label{z}\\include{main}\\bibliography{refs}"),
    );
    assert_eq!(walk.next(), Some(("dir/ch.tex".to_string(), false)));
    walk.supply("dir/ch.tex", false, Some("\\label{b}"));
    assert_eq!(walk.next(), Some(("dir/refs.bib".to_string(), true)));
    walk.supply("dir/refs.bib", true, None);
    assert_eq!(walk.next(), None);
    assert_eq!(labels(walk.into_results()), vec!["a", "b", "z"]);
}

#[test]
fn traversal_of_a_bibliography() {
    let off = config(false, false, false, false, false);
    let off_reg = Registry::new(&off).expect("the patterns compile");
    let mut idle = Traversal::start(&off_reg, "refs.bib", &off);
    assert_eq!(idle.next(), None);
    assert_eq!(idle.into_results().len(), 0);
    let cfg = config(false, true, false, false, false);
    let reg = Registry::new(&cfg).expect("the patterns compile");
    let mut walk = Traversal::start(&reg, "refs.bib", &cfg);
    assert_eq!(walk.next(), Some(("refs.bib".to_string(), true)));
    walk.supply("refs.bib", true, Some("@book{a, t=1}\n@book{b, t=2}"));
    assert_eq!(walk.next(), None);
    assert_eq!(labels(walk.into_results()), vec!["a", "b"]);
}

fn flat_tree() -> (Sources, Vec<String>) {
    let mut tree = Sources::new();
    let mut paths = vec![];
    for i in 0..7 {
        let path = format!("d/f{}.tex", i);
        tree.insert(&path, &format!("\\label{{l{}}}\\include{{f{}}}\\label{{m{}}}", i, (i + 1) % 7, i));
        paths.push(path);
    }
    tree.insert("d/refs.bib", "@book{r, t=1}");
    paths.push("d/refs.bib".to_string());
    (tree, paths)
}

#[test]
fn workers_gather_what_one_pass_gathers() {
    let (tree, paths) = flat_tree();
    let flat = config(false, true, true, true, true);
    let reg = Registry::new(&flat).expect("the patterns compile");
    let sequential = labels(flat_extract(&tree, &reg, &paths, &flat));
    assert_eq!(
        sequential,
        vec!["l0", "m0", "l1", "m1", "l2", "m2", "l3", "m3", "l4", "m4", "l5", "m5", "l6", "m6", "r"]
    );
    for threads in 0..12 {
        let cfg = Config { threads, ..config(false, true, true, true, true) };
        assert_eq!(labels(distribute(&tree, &reg, &paths, &cfg)), sequential);
        assert_eq!(labels(parse_path_single(&tree, &paths, Config { includes: true, ..cfg })), sequential);
    }
}

#[test]
fn no_main_file_turns_includes_off() {
    let (tree, paths) = flat_tree();
    let cfg = Config { threads: 3, ..all_on() };
    let found = labels(parse_path_single(&tree, &paths, cfg));
    assert_eq!(found.len(), 15);
    assert_eq!(labels(parse_path(&tree, "d", cfg)).len(), 15);
    let reg = Registry::new(&cfg).expect("the patterns compile");
    assert_eq!(find_mainfile(&tree, &reg, &paths), None);
    assert!(matches!(plan(&tree, &reg, &paths, cfg), Plan::Flat(flat) if !flat.includes));
}

#[test]
fn bibliographies_come_before_documents() {
    let mut tree = Sources::new();
    tree.insert("d/a.tex", "\\label{a}");
    tree.insert("d/r.bib", "@book{r, t=1}");
    tree.insert("other/b.tex", "\\label{b}");
    tree.insert("d/sub/c.tex", "\\label{c}");
    tree.insert("d/notes.txt", "\\label{n}");
    assert_eq!(tree.discover("d", "tex"), vec!["d/a.tex", "d/sub/c.tex"]);
    assert_eq!(tree.discover("d/", "bib"), vec!["d/r.bib"]);
    assert_eq!(labels(parse_path(&tree, "d", all_on())), vec!["r", "a", "c"]);
    let no_bib = config(true, false, true, true, true);
    assert_eq!(labels(parse_path(&tree, "d", no_bib)), vec!["a", "c"]);
    let only_bib = config(true, true, false, false, false);
    assert_eq!(labels(parse_path(&tree, "d", only_bib)), vec!["r"]);
}

#[test]
fn first_main_file_is_the_root() {
    let mut tree = Sources::new();
    tree.insert("d/a.tex", "\\label{a}");
    tree.insert("d/m1.tex", "\\documentclass{a}\\label{one}");
    tree.insert("d/m2.tex", "\\documentclass{a}\\label{two}");
    let cfg = all_on();
    let paths = tree.discover("d", "tex");
    let reg = Registry::new(&cfg).expect("the patterns compile");
    assert_eq!(find_mainfile(&tree, &reg, &paths), Some(1));
    assert!(matches!(plan(&tree, &reg, &paths, cfg), Plan::Root(1, root) if root.includes));
    assert_eq!(labels(parse_path_single(&tree, &paths, cfg)), vec!["one"]);
}

#[test]
fn single_document_follows_includes_when_asked() {
    let mut tree = Sources::new();
    tree.insert("main.tex", "\\input{part}\\label{m}");
    tree.insert("part.tex", "\\label{p}");
    assert_eq!(labels(single_pass(&tree, "main.tex", &all_on())), vec!["p", "m"]);
    let off = config(false, true, true, true, true);
    assert_eq!(labels(single_pass(&tree, "main.tex", &off)), vec!["m"]);
    assert_eq!(single_pass(&tree, "gone.tex", &all_on()).len(), 0);
}

#[test]
fn one_registry_serves_many_documents() {
    let mut tree = Sources::new();
    tree.insert("a.tex", "\\label{a}");
    tree.insert("b.tex", "\\section{B}");
    let cfg = all_on();
    let reg = Registry::new(&cfg).expect("the patterns compile");
    assert_eq!(labels(single_pass_with(&tree, &reg, "a.tex", &cfg)), vec!["a"]);
    assert_eq!(labels(single_pass_with(&tree, &reg, "b.tex", &cfg)), vec!["B"]);
    assert_eq!(single_pass_with(&tree, &reg, "gone.tex", &cfg).len(), 0);
}
