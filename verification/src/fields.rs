//! Key/value lists of the form `k1 = {v1}, k2 = v2, ...`, as they occur in
//! BibTeX entries and glossary definitions.

use crate::braces::{brace_content, brace_rest, lemma_brace_parts_len, match_parens};
use crate::text::{
    byte_len, find_char, first_index, lemma_lead_first, lemma_trail_last, split_chars, starts_with_char,
    strip, strip_end, strip_start, trim, trim_by, trimmed, CharSet,
};
use vstd::prelude::*;
use vstd::string::*;

verus! {

/// The characters stripped from both ends of a key.
pub open spec fn key_margin() -> CharSet<'static> {
    CharSet::Listed(" {},\t\n\r%")
}

/// The characters stripped from both ends of a value.
pub open spec fn value_margin() -> CharSet<'static> {
    CharSet::Listed(" ,\t\n\r%")
}

/// Stripping never lengthens a text.
pub proof fn lemma_strip_len(s: Seq<char>, set: CharSet)
    ensures
        strip_start(s, set).len() <= s.len(),
        strip_end(s, set).len() <= s.len(),
        strip(s, set).len() <= s.len(),
{
    lemma_lead_first(s, set);
    lemma_trail_last(s, set);
    lemma_trail_last(strip_start(s, set), set);
}

/// Index of the first comma of `s` at or after `from` that stands outside
/// every brace group, where `depth` groups are open at `from`; the length of
/// `s` if there is none. A `}` that closes nothing is passed over.
pub open spec fn top_comma(s: Seq<char>, from: int, depth: nat) -> int
    decreases s.len() - from,
{
    if from < 0 || from >= s.len() {
        s.len() as int
    } else if s[from] == '{' {
        top_comma(s, from + 1, depth + 1)
    } else if s[from] == '}' {
        top_comma(s, from + 1, if depth > 0 {
            (depth - 1) as nat
        } else {
            0
        })
    } else if s[from] == ',' && depth == 0 {
        from
    } else {
        top_comma(s, from + 1, depth)
    }
}

/// The comma that [`top_comma`] finds lies at or after the point the search
/// starts from, and it is a comma.
pub proof fn lemma_top_comma(s: Seq<char>, from: int, depth: nat)
    requires
        0 <= from <= s.len(),
    ensures
        from <= top_comma(s, from, depth) <= s.len(),
        top_comma(s, from, depth) < s.len() ==> s[top_comma(s, from, depth)] == ',',
    decreases s.len() - from,
{
    if from < s.len() {
        if s[from] == '{' {
            lemma_top_comma(s, from + 1, depth + 1);
        } else if s[from] == '}' {
            lemma_top_comma(s, from + 1, if depth > 0 {
                (depth - 1) as nat
            } else {
                0
            });
        } else if s[from] == ',' && depth == 0 {
        } else {
            lemma_top_comma(s, from + 1, depth);
        }
    }
}

/// Position of the first comma of `s` outside every brace group.
pub fn find_top_comma(s: &str) -> (r: Option<usize>)
    ensures
        match r {
            Some(i) => i == top_comma(s@, 0, 0) && i < s@.len(),
            None => top_comma(s@, 0, 0) == s@.len(),
        },
{
    let bound: usize = byte_len(s);
    let mut depth: usize = 0;
    let mut i: usize = 0;
    for c in it: s.chars()
        invariant
            it.seq() == s@,
            s@.len() <= bound,
            i == it.index(),
            depth <= i,
            top_comma(s@, 0, 0) == top_comma(s@, i as int, depth as nat),
    {
        if c == '{' {
            depth = depth + 1;
        } else if c == '}' {
            if depth > 0 {
                depth = depth - 1;
            }
        } else if c == ',' && depth == 0 {
            return Some(i);
        }
        i = i + 1;
    }
    None
}

/// The pairs read from `rest`, which starts at a key.
///
/// The key is what stands before the next `=`, trimmed of white space and
/// then of [`key_margin`]. The value is the content of a brace group if the
/// first character after the `=` that is not white space is `{`; otherwise it
/// runs up to the next comma outside every brace group, or to the end of the
/// text, where the list ends.
/// Either way it is stripped of [`value_margin`]. Without a further `=` the
/// list ends.
pub open spec fn pairs(rest: Seq<char>) -> Seq<(Seq<char>, Seq<char>)>
    decreases rest.len(),
{
    let eq = first_index(rest, '=');
    if eq >= rest.len() {
        Seq::empty()
    } else {
        let key = strip(trimmed(rest.take(eq)), key_margin());
        let after = trimmed(rest.skip(eq + 1));
        proof {
            lemma_strip_len(rest.skip(eq + 1), CharSet::Whitespace);
            lemma_brace_parts_len(after);
            lemma_top_comma(after, 0, 0);
        }
        if after.len() > 0 && after[0] == '{' {
            seq![(key, strip(brace_content(after), value_margin()))] + pairs(brace_rest(after))
        } else {
            let comma = top_comma(after, 0, 0);
            if comma < after.len() {
                seq![(key, strip(after.take(comma), value_margin()))] + pairs(
                    after.skip(comma + 1),
                )
            } else {
                seq![(key, strip(after, value_margin()))]
            }
        }
    }
}

/// The key/value pairs of `input`, in the order in which they are written.
pub open spec fn fields_of(input: Seq<char>) -> Seq<(Seq<char>, Seq<char>)> {
    pairs(trimmed(input))
}

/// The pairs of slices in `v`, each slice as its sequence of characters.
pub open spec fn pair_views(v: Seq<(&str, &str)>) -> Seq<(Seq<char>, Seq<char>)> {
    Seq::new(v.len(), |i: int| (v[i].0@, v[i].1@))
}

/// Parses a comma-separated list of `key = value` entries into its pairs, in
/// order.
pub fn values(input: &str) -> (r: Vec<(&str, &str)>)
    ensures
        pair_views(r@) == fields_of(input@),
{
    let mut rest: &str = trim(input);
    let mut out: Vec<(&str, &str)> = Vec::new();
    assert(pair_views(out@) + pairs(rest@) == fields_of(input@));
    loop
        invariant_except_break
            pair_views(out@) + pairs(rest@) == fields_of(input@),
        ensures
            pair_views(out@) == fields_of(input@),
        decreases rest@.len(),
    {
        let ghost before = pair_views(out@);
        let ghost old_rest = rest@;
        let eq: usize = match find_char(rest, '=') {
            Some(eq) => eq,
            None => {
                break ;
            },
        };
        let (head, tail) = split_chars(rest, eq);
        let key: &str = trim_by(trim(head), &CharSet::Listed(" {},\t\n\r%"));
        let after: &str = trim(split_chars(tail, 1).1);
        proof {
            assert(old_rest.skip(eq as int).skip(1) == old_rest.skip(eq + 1));
            lemma_strip_len(old_rest.skip(eq + 1), CharSet::Whitespace);
            lemma_brace_parts_len(after@);
            lemma_top_comma(after@, 0, 0);
        }
        if starts_with_char(after, '{') {
            let (inner, next) = match_parens(after);
            out.push((key, trim_by(inner, &CharSet::Listed(" ,\t\n\r%"))));
            rest = next;
            assert(pair_views(out@) == before + seq![
                (key@, strip(brace_content(after@), value_margin())),
            ]);
        } else {
            match find_top_comma(after) {
                Some(comma) => {
                    let (value, more) = split_chars(after, comma);
                    out.push((key, trim_by(value, &CharSet::Listed(" ,\t\n\r%"))));
                    rest = split_chars(more, 1).1;
                    assert(after@.skip(comma as int).skip(1) == after@.skip(comma + 1));
                    assert(pair_views(out@) == before + seq![
                        (key@, strip(after@.take(comma as int), value_margin())),
                    ]);
                },
                None => {
                    out.push((key, trim_by(after, &CharSet::Listed(" ,\t\n\r%"))));
                    assert(pair_views(out@) == before + seq![
                        (key@, strip(after@, value_margin())),
                    ]);
                    break ;
                },
            }
        }
    }
    out
}

} // verus!
