use texparser::completion::{Completion, CompletionType, FieldMap};
use texparser::fields::{find_top_comma, values};
use texparser::output::{escape_csv, print_line, print_map};
use texparser::resolver::{get_incfilename, has_extension, is_bib_path};
use texparser::text::{
    byte_len, find_char, is_whitespace, same_text, split_chars, split_text,
    starts_with_char, to_chars, trailing_run, trim, trim_by, trim_end_by, trim_start,
    trim_start_by, CharSet,
};
use texparser::workers::partition;

#[test]
fn white_space_is_the_unicode_property() {
    let mut c = 0u32;
    while c <= 0x10ffff {
        if let Some(ch) = char::from_u32(c) {
            assert_eq!(is_whitespace(ch), ch.is_whitespace(), "U+{:04X}", c);
        }
        c += 1;
    }
}

#[test]
fn trimming_white_space() {
    assert_eq!(trim("  a b \t\n"), "a b");
    assert_eq!(trim("\u{a0}x\u{3000}"), "x");
    assert_eq!(trim("   "), "");
    assert_eq!(trim(""), "");
    assert_eq!(trim_start("  a "), "a ");
}

#[test]
fn trimming_listed_characters() {
    assert_eq!(trim_by("{, key }%", &CharSet::Listed(" {},\t\n\r%")), "key");
    assert_eq!(trim_end_by("\\section*{", &CharSet::Listed("{ *")), "\\section");
    assert_eq!(trim_start_by("\\section", &CharSet::Listed(" \\")), "section");
    assert_eq!(trim_by("xxx", &CharSet::Listed("x")), "");
    assert_eq!(trailing_run("dir/file.tex", &CharSet::Except('/')), "file.tex");
    assert_eq!(trailing_run("  ab", &CharSet::Visible), "ab");
}

#[test]
fn finding_a_character() {
    assert_eq!(find_char("key=value", '='), Some(3));
    assert_eq!(find_char("é=é", '='), Some(1));
    assert_eq!(find_char("none", '='), None);
    assert_eq!(find_char("", '='), None);
}

#[test]
fn comparing_texts() {
    assert!(same_text("bib", "bib"));
    assert!(!same_text("bib", "bibs"));
    assert!(!same_text("bib", "bit"));
    assert!(same_text("", ""));
    assert_eq!(to_chars("aé{"), vec!['a', 'é', '{']);
}

#[test]
fn splitting_at_a_word() {
    assert_eq!(split_text("a and b and c", "and"), vec!["a ", " b ", " c"]);
    assert_eq!(split_text("Sandra", "and"), vec!["S", "ra"]);
    assert_eq!(split_text("none", "and"), vec!["none"]);
    assert_eq!(split_text("and", "and"), vec!["", ""]);
    assert_eq!(split_text("", "and"), vec![""]);
    assert_eq!(split_text("abc", ""), vec!["abc"]);
}

#[test]
fn values_with_spaces_and_bare_values() {
    assert_eq!(
        values(" name = {A {nested} name} ,\n year = 2020 , note=last"),
        vec![("name", "A {nested} name"), ("year", "2020"), ("note", "last")]
    );
}

#[test]
fn bare_value_ends_at_a_comma_outside_braces() {
    assert_eq!(values("a=x{1,2}y, b=2"), vec![("a", "x{1,2}y"), ("b", "2")]);
    assert_eq!(values("a=x{1,2}y"), vec![("a", "x{1,2}y")]);
    assert_eq!(values("a=x},y"), vec![("a", "x}")]);
    assert_eq!(find_top_comma("x{1,2}y,z"), Some(7));
    assert_eq!(find_top_comma("{,}"), None);
    assert_eq!(find_top_comma("},"), Some(1));
}

#[test]
fn values_without_an_equals_sign() {
    assert_eq!(values("no pairs here"), Vec::<(&str, &str)>::new());
    assert_eq!(values(""), Vec::<(&str, &str)>::new());
}

#[test]
fn values_strip_keys_and_values() {
    assert_eq!(values("{ k }= % v %"), vec![("k", "v")]);
    assert_eq!(values("a={ x },"), vec![("a", "x")]);
}

#[test]
fn field_map_last_binding_wins() {
    let mut fields = FieldMap::new();
    assert_eq!(fields.get("a"), None);
    fields.insert("a".to_string(), "1".to_string());
    fields.insert("b".to_string(), "2".to_string());
    fields.insert("a".to_string(), "3".to_string());
    assert_eq!(fields.get("a").map(|s| s.as_str()), Some("3"));
    assert_eq!(fields.get("b").map(|s| s.as_str()), Some("2"));
    assert!(fields.contains_key("b"));
    assert!(!fields.contains_key("c"));
    assert_eq!(fields.keys(), vec!["a", "b"]);
}

#[test]
fn completion_new_keeps_its_arguments() {
    let c = Completion::new("sec:one", CompletionType::Section("chapter".to_string()));
    assert_eq!(c.label, "sec:one");
    assert!(matches!(&c.attributes, CompletionType::Section(kind) if kind == "chapter"));
}

#[test]
fn resolving_names() {
    assert_eq!(get_incfilename("dir/main.tex", " chapter1 ", false), "dir/chapter1.tex");
    assert_eq!(get_incfilename("main.tex", "chapter1", false), "chapter1.tex");
    assert_eq!(get_incfilename("dir/main.tex", "refs.old", true), "dir/refs.bib");
    assert_eq!(get_incfilename("a/b/c.tex", "sub/x.y.z", false), "a/b/sub/x.y.tex");
    assert_eq!(get_incfilename("a/b/c.tex", "/abs/doc.tex", false), "/abs/doc.tex");
    assert_eq!(get_incfilename("/main.tex", "ch", false), "/ch.tex");
    assert_eq!(get_incfilename("d/m.tex", ".hidden", true), "d/.hidden.bib");
    assert_eq!(get_incfilename("d.v2/m.tex", "ch", true), "d.v2/ch.bib");
}

#[test]
fn extensions() {
    assert!(is_bib_path("refs.bib"));
    assert!(is_bib_path("a/b.c/refs.old.bib"));
    assert!(!is_bib_path("refs.tex"));
    assert!(!is_bib_path("refs"));
    assert!(!is_bib_path(".bib"));
    assert!(!is_bib_path("dir.bib/refs"));
    assert!(has_extension("a/main.tex", "tex"));
    assert!(!has_extension("a/main.tex", "ex"));
}

#[test]
fn partition_bounds() {
    assert_eq!(partition(10, 3), vec![(0, 4), (4, 7), (7, 10)]);
    assert_eq!(partition(2, 4), vec![(0, 1), (1, 2), (2, 2), (2, 2)]);
    assert_eq!(partition(5, 0), vec![(0, 5)]);
    assert_eq!(partition(5, 1), vec![(0, 5)]);
    assert_eq!(partition(0, 2), vec![(0, 0), (0, 0)]);
    assert_eq!(partition(7, 7).len(), 7);
}

#[test]
fn escaping_for_delimited_text() {
    assert_eq!(escape_csv("Smith, J.", ","), "\"Smith, J.\"");
    assert_eq!(escape_csv("Smith", ","), "Smith");
    assert_eq!(escape_csv("a;;b", ";;"), "\"a;;b\"");
    assert_eq!(escape_csv("", ","), "");
    assert_eq!(escape_csv("x", ""), "\"x\"");
}

#[test]
fn columns_of_a_field_map() {
    let mut fields = FieldMap::new();
    fields.insert("year".to_string(), "2020".to_string());
    fields.insert("author".to_string(), "Smith, J.".to_string());
    let wanted = vec!["year".to_string(), "title".to_string(), "author".to_string()];
    assert_eq!(print_map(&fields, &wanted, ","), ",2020,,\"Smith, J.\"");
    assert_eq!(print_map(&fields, &Vec::new(), ","), "");
}

#[test]
fn lines_of_delimited_text() {
    let wanted = vec!["year".to_string()];
    let mut fields = FieldMap::new();
    fields.insert("year".to_string(), "2020".to_string());
    let citation = Completion::new("key1", CompletionType::Citation(fields.clone(), "article".to_string()));
    assert_eq!(print_line(&citation, &wanted, ","), "CITATION,key1,article,2020");
    let entry = Completion::new("term", CompletionType::Glossaryentry(fields));
    assert_eq!(print_line(&entry, &wanted, ";"), "GLOSSARYENTRY;term;;2020");
    let section = Completion::new("Intro", CompletionType::Section("section".to_string()));
    assert_eq!(print_line(&section, &wanted, ","), "SECTION,Intro,section");
    let label = Completion::new("sec:one", CompletionType::Label);
    assert_eq!(print_line(&label, &wanted, ","), "LABEL,sec:one,,");
}

#[test]
fn splitting_after_some_characters() {
    assert_eq!(split_chars("aé{b", 2), ("aé", "{b"));
    assert_eq!(split_chars("aé{b", 0), ("", "aé{b"));
    assert_eq!(split_chars("aé{b", 4), ("aé{b", ""));
    assert_eq!(split_chars("aé{b", 9), ("aé{b", ""));
    assert_eq!(split_chars("", 3), ("", ""));
    assert_eq!(split_chars("日本語のテキスト", 5), ("日本語のテ", "キスト"));
    assert_eq!(byte_len("aé"), 3);
    assert!(starts_with_char("{x", '{'));
    assert!(!starts_with_char("x{", '{'));
    assert!(!starts_with_char("", '{'));
}
