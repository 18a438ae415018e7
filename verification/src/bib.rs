//! BibTeX: splitting a bibliography into its entries and reading each entry
//! into a citation.

use crate::braces::{brace_content, match_parens};
use crate::completion::{
    bind_all, facts, Attributes, Completion, CompletionType, Fact, FieldMap,
};
use crate::fields::{fields_of, pair_views, values};
use crate::text::{
    find_char, first_index, same_text, slice_views, split_chars, split_on, split_text,
    to_chars, trail_len, trailing_run, trim, trimmed, CharSet,
};
use vstd::prelude::*;
use vstd::string::*;

verus! {

/// The surname in one piece of an author list: the piece without the white
/// space around it, up to its first comma.
pub open spec fn surname(piece: Seq<char>) -> Seq<char> {
    trimmed(piece).take(first_index(trimmed(piece), ','))
}

/// The summary of an author list and a year. The list is split at every
/// `and`; one author gives `Surname (Year)`, two give
/// `Surname1 & Surname2 (Year)`, more give `Surname1 et al. (Year)`.
pub open spec fn author_line(authors: Seq<char>, year: Seq<char>) -> Seq<char> {
    let pieces = split_on(authors, "and"@);
    let first = surname(pieces[0]);
    if pieces.len() == 1 {
        first + " ("@ + year + ")"@
    } else if pieces.len() == 2 {
        first + " & "@ + surname(pieces[1]) + " ("@ + year + ")"@
    } else {
        first + " et al. ("@ + year + ")"@
    }
}

/// A split yields at least one part.
pub proof fn lemma_split_nonempty(s: Seq<char>, pat: Seq<char>)
    ensures
        split_on(s, pat).len() >= 1,
{
}

fn surname_of(piece: &str) -> (r: &str)
    ensures
        r@ == surname(piece@),
{
    let t = trim(piece);
    match find_char(t, ',') {
        Some(c) => split_chars(t, c).0,
        None => {
            assert(t@.take(t@.len() as int) == t@);
            t
        },
    }
}

/// Summarises an author list and a year in one line.
pub fn author_text(authors: &str, year: &str) -> (r: String)
    ensures
        r@ == author_line(authors@, year@),
{
    let pieces = split_text(authors, "and");
    proof {
        lemma_split_nonempty(authors@, "and"@);
    }
    assert(slice_views(pieces@)[0] == pieces@[0]@);
    let mut out: String = surname_of(pieces[0]).to_owned();
    if pieces.len() == 2 {
        assert(slice_views(pieces@)[1] == pieces@[1]@);
        out.append(" & ");
        out.append(surname_of(pieces[1]));
    } else if pieces.len() > 2 {
        out.append(" et al.");
    }
    out.append(" (");
    out.append(year);
    out.append(")");
    proof {
        reveal_strlit(" et al.");
        reveal_strlit(" (");
        reveal_strlit(" et al. (");
        assert(" et al."@ + " ("@ == " et al. ("@);
    }
    assert(out@ == author_line(authors@, year@));
    out
}

/// What `str::to_lowercase` returns for a text.
pub uninterp spec fn lowercase(s: Seq<char>) -> Seq<char>;

/// The lower-case form of `s`, by `str::to_lowercase`. Believed without
/// proof: the result depends on the characters of `s` alone, so that it is
/// the text named [`lowercase`]. Nothing more is claimed of it.
#[verifier::external_body]
fn to_lowercase(s: &str) -> (r: String)
    ensures
        r@ == lowercase(s@),
{
    s.to_lowercase()
}

/// The entry type written in `seg`: the characters other than white space
/// that stand directly before the first `{`.
pub open spec fn entry_kind(seg: Seq<char>) -> Seq<char> {
    let head = seg.take(first_index(seg, '{'));
    head.skip(head.len() - trail_len(head, CharSet::Visible))
}

/// Whether `seg` holds an entry: a brace group whose content has a comma
/// after the citation key.
pub open spec fn has_entry(seg: Seq<char>) -> bool {
    &&& first_index(seg, '{') < seg.len()
    &&& first_index(brace_content(seg), ',') < brace_content(seg).len()
}

/// The citation key of the entry in `seg`.
pub open spec fn entry_label(seg: Seq<char>) -> Seq<char> {
    trimmed(brace_content(seg).take(first_index(brace_content(seg), ',')))
}

/// The fields of the entry in `seg`, as written.
pub open spec fn entry_fields(seg: Seq<char>) -> Seq<(Seq<char>, Seq<char>)> {
    fields_of(brace_content(seg).skip(first_index(brace_content(seg), ',') + 1))
}

/// Reads the entry in `seg`, the text that follows the `@` of an entry:
/// its type, its citation key and its fields, all as written.
pub fn split_entry(seg: &str) -> (r: Option<(&str, &str, Vec<(&str, &str)>)>)
    ensures
        match r {
            Some((kind, label, fields)) => {
                &&& has_entry(seg@)
                &&& kind@ == entry_kind(seg@)
                &&& label@ == entry_label(seg@)
                &&& pair_views(fields@) == entry_fields(seg@)
            },
            None => !has_entry(seg@),
        },
{
    let open: usize = match find_char(seg, '{') {
        Some(open) => open,
        None => {
            return None;
        },
    };
    let kind = trailing_run(split_chars(seg, open).0, &CharSet::Visible);
    let (body, _) = match_parens(seg);
    let comma: usize = match find_char(body, ',') {
        Some(comma) => comma,
        None => {
            return None;
        },
    };
    let (key, tail) = split_chars(body, comma);
    let label = trim(key);
    let fields = values(split_chars(tail, 1).1);
    assert(body@.skip(comma as int).skip(1) == body@.skip(comma + 1));
    Some((kind, label, fields))
}

/// `fields` with the author summary added under `authortext`, where both
/// `author` and `year` are bound.
pub open spec fn with_authortext(fields: Map<Seq<char>, Seq<char>>) -> Map<Seq<char>, Seq<char>> {
    if fields.contains_key("author"@) && fields.contains_key("year"@) {
        fields.insert("authortext"@, author_line(fields["author"@], fields["year"@]))
    } else {
        fields
    }
}

/// The citation with the given key, entry type and fields.
pub open spec fn citation_fact(
    label: Seq<char>,
    kind: Seq<char>,
    fields: Map<Seq<char>, Seq<char>>,
) -> Fact {
    Fact { label, attributes: Attributes::Citation(with_authortext(fields), kind) }
}

/// Builds the citation for an entry from its key, its entry type in lower
/// case and its fields with lower-case names.
pub fn citation(label: &str, kind: String, fields: FieldMap) -> (r: Completion)
    ensures
        r@ == citation_fact(label@, kind@, fields@),
{
    let mut fields = fields;
    let summary: Option<String> = match (fields.get("author"), fields.get("year")) {
        (Some(author), Some(year)) => Some(author_text(author.as_str(), year.as_str())),
        _ => None,
    };
    if let Some(text) = summary {
        fields.insert("authortext".to_owned(), text);
    }
    Completion { label: label.to_owned(), attributes: CompletionType::Citation(fields, kind) }
}

/// `pairs` with every name in lower case.
pub open spec fn lowered(pairs: Seq<(Seq<char>, Seq<char>)>) -> Seq<(Seq<char>, Seq<char>)> {
    Seq::new(pairs.len(), |i: int| (lowercase(pairs[i].0), pairs[i].1))
}

fn lower_fields(pairs: &Vec<(&str, &str)>) -> (r: FieldMap)
    ensures
        r@ == bind_all(lowered(pair_views(pairs@))),
{
    let mut map = FieldMap::new();
    let ghost all = lowered(pair_views(pairs@));
    let mut i: usize = 0;
    while i < pairs.len()
        invariant
            i <= pairs@.len(),
            all == lowered(pair_views(pairs@)),
            map@ == bind_all(all.take(i as int)),
        decreases pairs@.len() - i,
    {
        map.insert(to_lowercase(pairs[i].0), pairs[i].1.to_owned());
        assert(all.take(i + 1).drop_last() == all.take(i as int));
        i = i + 1;
    }
    assert(all.take(i as int) == all);
    map
}

/// The citation that the entry text `seg` yields: none if it holds no
/// entry or its type is `comment` in any letter case; otherwise the key, the
/// type in lower case, and the fields under their names in lower case.
pub open spec fn entry_fact(seg: Seq<char>) -> Option<Fact> {
    if !has_entry(seg) || lowercase(entry_kind(seg)) == "comment"@ {
        None
    } else {
        Some(
            citation_fact(
                entry_label(seg),
                lowercase(entry_kind(seg)),
                bind_all(lowered(entry_fields(seg))),
            ),
        )
    }
}

/// Reads one entry into a citation.
pub fn parse_entry(seg: &str) -> (r: Option<Completion>)
    ensures
        match r {
            Some(c) => entry_fact(seg@) == Some(c@),
            None => entry_fact(seg@) is None,
        },
{
    match split_entry(seg) {
        None => None,
        Some((kind, label, fields)) => {
            let kind = to_lowercase(kind);
            if same_text(kind.as_str(), "comment") {
                None
            } else {
                Some(citation(label, kind, lower_fields(&fields)))
            }
        },
    }
}

/// Whether an entry starts at `i`: an `@` at the start of a line.
pub open spec fn is_entry_start(s: Seq<char>, i: int) -> bool {
    0 <= i < s.len() && s[i] == '@' && (i == 0 || s[i - 1] == '\n')
}

/// The first entry start at or after `from`; the length of `s` if there is
/// none.
pub open spec fn next_start(s: Seq<char>, from: int) -> int
    decreases s.len() - from,
{
    if from < 0 || from >= s.len() {
        s.len() as int
    } else if is_entry_start(s, from) {
        from
    } else {
        next_start(s, from + 1)
    }
}

/// The next entry start lies at or after the point the search starts from.
pub proof fn lemma_next_start(s: Seq<char>, from: int)
    requires
        0 <= from <= s.len(),
    ensures
        from <= next_start(s, from) <= s.len(),
        next_start(s, from) < s.len() ==> is_entry_start(s, next_start(s, from)),
        forall|j: int| from <= j < next_start(s, from) ==> !is_entry_start(s, j),
    decreases s.len() - from,
{
    if from < s.len() && !is_entry_start(s, from) {
        lemma_next_start(s, from + 1);
    }
}

/// Zero or one fact, as a sequence.
pub open spec fn optional(f: Option<Fact>) -> Seq<Fact> {
    match f {
        Some(f) => seq![f],
        None => Seq::empty(),
    }
}

/// The citations of the entries of `s` from the entry start `at` on.
pub open spec fn facts_from(s: Seq<char>, at: int) -> Seq<Fact>
    decreases s.len() - at,
{
    if at < 0 || at >= s.len() {
        Seq::empty()
    } else {
        proof {
            lemma_next_start(s, at + 1);
        }
        optional(entry_fact(s.subrange(at + 1, next_start(s, at + 1)))) + facts_from(
            s,
            next_start(s, at + 1),
        )
    }
}

/// The citations of a bibliography. An entry runs from an `@` at the start
/// of a line to the next one; what stands before the first is dropped.
pub open spec fn bib_facts(s: Seq<char>) -> Seq<Fact> {
    facts_from(s, next_start(s, 0))
}

fn next_entry(chars: &Vec<char>, from: usize) -> (r: usize)
    requires
        from <= chars@.len(),
    ensures
        r == next_start(chars@, from as int),
        from <= r <= chars@.len(),
{
    let mut i: usize = from;
    while i < chars.len()
        invariant
            from <= i <= chars@.len(),
            next_start(chars@, from as int) == next_start(chars@, i as int),
        decreases chars@.len() - i,
    {
        if chars[i] == '@' && (i == 0 || chars[i - 1] == '\n') {
            return i;
        }
        i = i + 1;
    }
    i
}

/// Reads the citations of a bibliography, in the order of its entries.
pub fn parse_bib(input: &str) -> (r: Vec<Completion>)
    ensures
        facts(r@) == bib_facts(input@),
{
    let chars = to_chars(input);
    let len: usize = chars.len();
    let mut out: Vec<Completion> = Vec::new();
    let mut at: usize = next_entry(&chars, 0);
    if at >= len {
        return out;
    }
    let (_, mut rest) = split_chars(input, at + 1);
    while at < len
        invariant
            at <= len,
            len == chars@.len(),
            chars@ == input@,
            at < len ==> rest@ == chars@.skip(at + 1),
            facts(out@) + facts_from(chars@, at as int) == bib_facts(input@),
        decreases len - at,
    {
        let ghost before = facts(out@);
        let next: usize = next_entry(&chars, at + 1);
        let (seg, tail) = split_chars(rest, next - (at + 1));
        assert(seg@ == chars@.subrange(at + 1, next as int));
        match parse_entry(seg) {
            Some(c) => {
                out.push(c);
                assert(facts(out@) == before + seq![c@]);
            },
            None => {},
        }
        if next < len {
            rest = split_chars(tail, 1).1;
            assert(chars@.skip(at + 1).skip(next - (at + 1)).skip(1) == chars@.skip(next + 1));
        }
        at = next;
    }
    out
}

} // verus!
