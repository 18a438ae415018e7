//! Completions as lines of delimited text: a tag, the label, the kind, and
//! the fields that the caller asks for.

use crate::completion::{Attributes, Completion, CompletionType, Fact, FieldMap};
use crate::text::{find_sub, sub_index, texts, to_chars};
use vstd::prelude::*;
use vstd::string::*;

verus! {

/// Whether `sep` occurs in `text`. The empty separator occurs in every
/// text.
pub open spec fn occurs(text: Seq<char>, sep: Seq<char>) -> bool {
    sep.len() == 0 || sub_index(text, sep) < text.len()
}

/// `text` as a field of a line with separator `sep`: in double quotes
/// where the separator occurs in it, else as it is.
pub open spec fn escaped(text: Seq<char>, sep: Seq<char>) -> Seq<char> {
    if occurs(text, sep) {
        "\""@ + text + "\""@
    } else {
        text
    }
}

/// Puts `toprint` in double quotes where `sep` occurs in it.
pub fn escape_csv(toprint: &str, sep: &str) -> (r: String)
    ensures
        r@ == escaped(toprint@, sep@),
{
    let chars = to_chars(toprint);
    let needle = to_chars(sep);
    assert(chars@.skip(0) == chars@);
    if needle.len() == 0 || find_sub(&chars, 0, &needle) < chars.len() {
        let mut out = String::from_str("\"");
        out.append(toprint);
        out.append("\"");
        out
    } else {
        toprint.to_owned()
    }
}

/// The columns for the fields named in `wanted`: for each name the
/// separator and then the escaped value, or nothing where `fields` does not
/// bind the name.
pub open spec fn columns(
    fields: Map<Seq<char>, Seq<char>>,
    wanted: Seq<Seq<char>>,
    sep: Seq<char>,
) -> Seq<char>
    decreases wanted.len(),
{
    if wanted.len() == 0 {
        Seq::empty()
    } else {
        columns(fields, wanted.drop_last(), sep) + sep + if fields.contains_key(wanted.last()) {
            escaped(fields[wanted.last()], sep)
        } else {
            Seq::empty()
        }
    }
}

/// Writes the columns for the fields of `map` named in `format`.
pub fn print_map(map: &FieldMap, format: &Vec<String>, sep: &str) -> (r: String)
    ensures
        r@ == columns(map@, texts(format@), sep@),
{
    let mut out = String::new();
    let ghost wanted = texts(format@);
    let mut i: usize = 0;
    assert(wanted.take(0) == Seq::<Seq<char>>::empty());
    while i < format.len()
        invariant
            i <= format@.len(),
            wanted == texts(format@),
            out@ == columns(map@, wanted.take(i as int), sep@),
        decreases format@.len() - i,
    {
        assert(wanted.take(i + 1).drop_last() == wanted.take(i as int));
        assert(wanted.take(i + 1).last() == format@[i as int]@);
        out.append(sep);
        match map.get(format[i].as_str()) {
            Some(v) => {
                out.append(escape_csv(v.as_str(), sep).as_str());
            },
            None => {},
        }
        i = i + 1;
    }
    assert(wanted.take(i as int) == wanted);
    out
}

/// The line for a completion: its tag, its label and its kind, separated
/// by `sep`, and for a glossary entry or a citation the columns for the
/// fields named in `wanted`.
pub open spec fn record(fact: Fact, wanted: Seq<Seq<char>>, sep: Seq<char>) -> Seq<char> {
    match fact.attributes {
        Attributes::Glossaryentry(fields) => "GLOSSARYENTRY"@ + sep + fact.label + sep + columns(
            fields,
            wanted,
            sep,
        ),
        Attributes::Citation(fields, kind) => "CITATION"@ + sep + fact.label + sep + kind + columns(
            fields,
            wanted,
            sep,
        ),
        Attributes::Section(kind) => "SECTION"@ + sep + fact.label + sep + kind,
        Attributes::Label => "LABEL"@ + sep + fact.label + sep + sep,
    }
}

/// Writes the line for a completion.
pub fn print_line(completion: &Completion, format: &Vec<String>, sep: &str) -> (r: String)
    ensures
        r@ == record(completion@, texts(format@), sep@),
{
    let mut out = String::new();
    match &completion.attributes {
        CompletionType::Glossaryentry(map) => {
            out.append("GLOSSARYENTRY");
            out.append(sep);
            out.append(completion.label.as_str());
            out.append(sep);
            out.append(print_map(map, format, sep).as_str());
        },
        CompletionType::Citation(map, kind) => {
            out.append("CITATION");
            out.append(sep);
            out.append(completion.label.as_str());
            out.append(sep);
            out.append(kind.as_str());
            out.append(print_map(map, format, sep).as_str());
        },
        CompletionType::Section(kind) => {
            out.append("SECTION");
            out.append(sep);
            out.append(completion.label.as_str());
            out.append(sep);
            out.append(kind.as_str());
        },
        CompletionType::Label => {
            out.append("LABEL");
            out.append(sep);
            out.append(completion.label.as_str());
            out.append(sep);
            out.append(sep);
        },
    }
    out
}

} // verus!
