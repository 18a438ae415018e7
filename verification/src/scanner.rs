//! The document scanner: one pass over a LaTeX text that finds the live
//! commands, reads their brace groups and reports what each one yields.

use crate::braces::{
    brace_content, brace_rest, group_end, lemma_brace_parts_len, match_parens,
};
use crate::completion::{bind_all, Attributes, Completion, CompletionType, Fact, FieldMap};
use crate::fields::{fields_of, lemma_strip_len, pair_views, values};
use crate::patterns::{find, first_match, is_hit, is_match, live_shapes, Registry};
use crate::text::{
    byte_len, find_sub, head_of, lemma_lead_first, lemma_trail_last, split_chars, strip_end, strip_start, sub_index, to_chars, trail_len,
    trailing_run, trim, trim_end_by, trim_start, trim_start_by, trimmed, CharSet,
};
use crate::Config;
use vstd::prelude::*;
use vstd::string::*;

verus! {

/// The category of a command.
#[derive(Debug, Clone, Copy, PartialEq, Eq)]
pub enum Class {
    /// `\include` or `\input`.
    Input,
    /// `\bibliography` or `\addbibresource`.
    Bibliography,
    /// `\label`.
    Label,
    /// A sectioning command.
    Section,
    /// A glossary definition.
    Glossary,
}

/// What one command yields: a completion, or another document to read.
#[derive(Debug, Clone)]
pub enum Finding {
    /// A completion.
    Found(Completion),
    /// The name of a document to scan in turn.
    Input(String),
    /// The name of a bibliography to read.
    Bibliography(String),
}

/// The mathematical value of a [`Finding`].
pub enum Outcome {
    Found(Fact),
    Input(Seq<char>),
    Bibliography(Seq<char>),
}

impl View for Finding {
    type V = Outcome;

    open spec fn view(&self) -> Outcome {
        match self {
            Finding::Found(c) => Outcome::Found(c@),
            Finding::Input(name) => Outcome::Input(name@),
            Finding::Bibliography(name) => Outcome::Bibliography(name@),
        }
    }
}

/// The values of a sequence of findings, in order.
pub open spec fn outcomes(v: Seq<Finding>) -> Seq<Outcome> {
    Seq::new(v.len(), |i: int| v[i]@)
}

/// The part of `s` after its last line break.
pub open spec fn line_tail(s: Seq<char>) -> Seq<char> {
    s.skip(s.len() - trail_len(s, CharSet::Except('\n')))
}

/// Whether `line` holds a `%` that no backslash precedes.
pub open spec fn has_comment_mark(line: Seq<char>) -> bool {
    exists|i: int| 0 <= i < line.len() && #[trigger] line[i] == '%' && (i == 0 || line[i - 1] != '\\')
}

/// Whether a command that follows `before` is commented out: whether the
/// last line of `before` holds a `%` that no backslash precedes.
pub fn is_comment(before: &str) -> (r: bool)
    ensures
        r == has_comment_mark(line_tail(before@)),
{
    let line = trailing_run(before, &CharSet::Except('\n'));
    let mut escaped: bool = false;
    for c in it: line.chars()
        invariant
            it.seq() == line@,
            line@ == line_tail(before@),
            escaped == (it.index() > 0 && line@[it.index() - 1] == '\\'),
            forall|i: int|
                0 <= i < it.index() ==> !(#[trigger] line@[i] == '%' && (i == 0 || line@[i - 1]
                    != '\\')),
    {
        if c == '%' && !escaped {
            assert(line@[it.index() as int] == '%');
            return true;
        }
        escaped = c == '\\';
    }
    false
}

/// The category of a command from the categories whose shapes its text
/// matches: the first live one in the order input, bibliography, label,
/// section, glossary.
pub open spec fn class_by_hits(
    cfg: Config,
    input: bool,
    bibliography: bool,
    label: bool,
    section: bool,
    glossary: bool,
) -> Option<Class> {
    if cfg.includes && input {
        Some(Class::Input)
    } else if cfg.bib && bibliography {
        Some(Class::Bibliography)
    } else if cfg.labels && label {
        Some(Class::Label)
    } else if cfg.sections && section {
        Some(Class::Section)
    } else if cfg.glossaries && glossary {
        Some(Class::Glossary)
    } else {
        None
    }
}

/// Picks the category of a command, given for each category whether the
/// command's text matches one of its shapes.
pub fn classify(
    cfg: &Config,
    input: bool,
    bibliography: bool,
    label: bool,
    section: bool,
    glossary: bool,
) -> (r: Option<Class>)
    ensures
        r == class_by_hits(*cfg, input, bibliography, label, section, glossary),
{
    if cfg.includes && input {
        Some(Class::Input)
    } else if cfg.bib && bibliography {
        Some(Class::Bibliography)
    } else if cfg.labels && label {
        Some(Class::Label)
    } else if cfg.sections && section {
        Some(Class::Section)
    } else if cfg.glossaries && glossary {
        Some(Class::Glossary)
    } else {
        None
    }
}

/// The category that the registry gives to the command text `typ`.
pub open spec fn class_of(reg: Registry, cfg: Config, typ: Seq<char>) -> Option<Class> {
    class_by_hits(
        cfg,
        is_hit(reg.inclusion, typ),
        is_hit(reg.bibliography, typ),
        is_hit(reg.label, typ),
        is_hit(reg.section, typ),
        is_hit(reg.glossary, typ),
    )
}

/// The kind of heading named by the command text `typ`: the text without
/// `{`, `*` and blanks at its end and without blanks and backslashes at its
/// start.
pub open spec fn heading_type(typ: Seq<char>) -> Seq<char> {
    strip_start(strip_end(typ, CharSet::Listed("{ *")), CharSet::Listed(" \\"))
}

/// The fields of a glossary definition whose command text is `typ` and
/// whose text after the identifier is `tail`: the pairs of the first brace
/// group, and for a long definition the content of the group after it under
/// `description`.
pub open spec fn glossary_fields(typ: Seq<char>, tail: Seq<char>) -> Map<Seq<char>, Seq<char>> {
    let fields = bind_all(fields_of(brace_content(tail)));
    if sub_index(typ, "long"@) < typ.len() {
        fields.insert(
            "description"@,
            brace_content(strip_start(brace_rest(tail), CharSet::Whitespace)),
        )
    } else {
        fields
    }
}

/// What a command of category `class` yields, where `typ` is its text and
/// `group` the text from its opening brace on. The label or name is the
/// content of the first brace group without the white space around it.
pub open spec fn command_finding(class: Class, typ: Seq<char>, group: Seq<char>) -> Outcome {
    let label = trimmed(brace_content(group));
    match class {
        Class::Input => Outcome::Input(label),
        Class::Bibliography => Outcome::Bibliography(label),
        Class::Label => Outcome::Found(Fact { label, attributes: Attributes::Label }),
        Class::Section => Outcome::Found(
            Fact { label, attributes: Attributes::Section(heading_type(typ)) },
        ),
        Class::Glossary => Outcome::Found(
            Fact {
                label,
                attributes: Attributes::Glossaryentry(glossary_fields(typ, brace_rest(group))),
            },
        ),
    }
}

/// The text that follows the last brace group that a command of category
/// `class` consumes.
pub open spec fn command_rest(class: Class, typ: Seq<char>, group: Seq<char>) -> Seq<char> {
    let tail = brace_rest(group);
    match class {
        Class::Glossary => if sub_index(typ, "long"@) < typ.len() {
            brace_rest(strip_start(brace_rest(tail), CharSet::Whitespace))
        } else {
            brace_rest(tail)
        },
        _ => tail,
    }
}

/// A command consumes at least its first brace group.
pub proof fn lemma_command_rest_len(class: Class, typ: Seq<char>, group: Seq<char>)
    ensures
        command_rest(class, typ, group).len() <= brace_rest(group).len(),
{
    let tail = brace_rest(group);
    lemma_brace_parts_len(tail);
    lemma_strip_len(brace_rest(tail), CharSet::Whitespace);
    lemma_brace_parts_len(strip_start(brace_rest(tail), CharSet::Whitespace));
}

/// Whether `typ` names a long glossary definition.
fn is_long(typ: &str) -> (r: bool)
    ensures
        r == (sub_index(typ@, "long"@) < typ@.len()),
{
    let chars = to_chars(typ);
    let needle = to_chars("long");
    assert(chars@.skip(0) == chars@);
    find_sub(&chars, 0, &needle) < chars.len()
}

/// Reads the command of category `class` with text `typ`, where `group` is
/// the text from the command's opening brace on. Returns what the command
/// yields and the text after its last brace group.
pub fn read_command<'a>(class: Class, typ: &str, group: &'a str) -> (r: (Finding, &'a str))
    ensures
        r.0@ == command_finding(class, typ@, group@),
        r.1@ == command_rest(class, typ@, group@),
{
    let (inner, tail) = match_parens(group);
    let label = trim(inner);
    match class {
        Class::Input => (Finding::Input(label.to_owned()), tail),
        Class::Bibliography => (Finding::Bibliography(label.to_owned()), tail),
        Class::Label => (Finding::Found(Completion::new(label, CompletionType::Label)), tail),
        Class::Section => {
            let kind = trim_start_by(
                trim_end_by(typ, &CharSet::Listed("{ *")),
                &CharSet::Listed(" \\"),
            );
            (
                Finding::Found(Completion::new(label, CompletionType::Section(kind.to_owned()))),
                tail,
            )
        },
        Class::Glossary => {
            let (entry, after_entry) = match_parens(tail);
            let pairs = values(entry);
            let mut fields = FieldMap::new();
            let ghost all = pair_views(pairs@);
            let mut i: usize = 0;
            while i < pairs.len()
                invariant
                    i <= pairs@.len(),
                    all == pair_views(pairs@),
                    fields@ == bind_all(all.take(i as int)),
                decreases pairs@.len() - i,
            {
                fields.insert(pairs[i].0.to_owned(), pairs[i].1.to_owned());
                assert(all.take(i + 1).drop_last() == all.take(i as int));
                i = i + 1;
            }
            assert(all.take(i as int) == all);
            let rest = if is_long(typ) {
                let (descr, after_descr) = match_parens(trim_start(after_entry));
                fields.insert("description".to_owned(), descr.to_owned());
                after_descr
            } else {
                after_entry
            };
            (Finding::Found(Completion::new(label, CompletionType::Glossaryentry(fields))), rest)
        },
    }
}

/// One step of a scan.
#[derive(Debug)]
pub enum Step<'a> {
    /// Nothing further is found.
    Stop,
    /// A command is passed over; the scan goes on with the text given.
    Pass(&'a str),
    /// A command yields a finding; the scan goes on with the text given.
    Yield(Finding, &'a str),
}

/// The mathematical value of a [`Step`].
pub enum Stride {
    Stop,
    Pass(Seq<char>),
    Yield(Outcome, Seq<char>),
}

impl<'a> View for Step<'a> {
    type V = Stride;

    open spec fn view(&self) -> Stride {
        match self {
            Step::Stop => Stride::Stop,
            Step::Pass(rest) => Stride::Pass(rest@),
            Step::Yield(finding, rest) => Stride::Yield(finding@, rest@),
        }
    }
}

/// Whether a comment is open at the end of `s`: whether the last line of
/// `s` holds a `%` that no backslash precedes.
pub open spec fn is_marked(s: Seq<char>) -> bool {
    has_comment_mark(line_tail(s))
}

/// Whether `s` ends in a backslash.
pub open spec fn ends_escaped(s: Seq<char>) -> bool {
    s.len() > 0 && s.last() == '\\'
}

/// How one more character changes whether a comment is open: a line break
/// closes it, a `%` that no backslash precedes opens it.
pub proof fn lemma_mark_push(s: Seq<char>, c: char)
    ensures
        is_marked(s.push(c)) == (c != '\n' && (is_marked(s) || (c == '%' && !ends_escaped(s)))),
        ends_escaped(s.push(c)) == (c == '\\'),
{
    let t = s.push(c);
    let l = line_tail(s);
    let set = CharSet::Except('\n');
    assert(t.drop_last() == s);
    lemma_trail_last(s, set);
    if c == '\n' {
        assert(line_tail(t).len() == 0);
    } else {
        assert(trail_len(t, set) == 1 + trail_len(s, set));
        assert(line_tail(t) == l.push(c));
        let lt = l.push(c);
        assert(l.len() == 0 || l.last() == s.last());
        assert(l.len() == 0 ==> !ends_escaped(s));
        if has_comment_mark(lt) {
            let i = choose|i: int|
                0 <= i < lt.len() && #[trigger] lt[i] == '%' && (i == 0 || lt[i - 1] != '\\');
            if i < l.len() {
                assert(l[i] == '%');
                if i > 0 {
                    assert(l[i - 1] == lt[i - 1]);
                }
            }
        }
        if has_comment_mark(l) {
            let i = choose|i: int|
                0 <= i < l.len() && #[trigger] l[i] == '%' && (i == 0 || l[i - 1] != '\\');
            assert(lt[i] == '%');
            if i > 0 {
                assert(lt[i - 1] == l[i - 1]);
            }
        }
        if c == '%' && !ends_escaped(s) {
            assert(lt[l.len() as int] == '%');
            if l.len() > 0 {
                assert(lt[l.len() - 1] == l.last());
            }
        }
    }
}

/// Reads `chunk`, which follows `seen`, and tells whether a comment is open
/// at its end and whether it ends in a backslash, given the same of `seen`.
fn note(marked: bool, escaped: bool, chunk: &str, Ghost(seen): Ghost<Seq<char>>) -> (r: (
    bool,
    bool,
))
    requires
        marked == is_marked(seen),
        escaped == ends_escaped(seen),
    ensures
        r.0 == is_marked(seen + chunk@),
        r.1 == ends_escaped(seen + chunk@),
{
    let mut open: bool = marked;
    let mut slash: bool = escaped;
    assert(seen + chunk@.take(0) == seen);
    for c in it: chunk.chars()
        invariant
            it.seq() == chunk@,
            open == is_marked(seen + chunk@.take(it.index() as int)),
            slash == ends_escaped(seen + chunk@.take(it.index() as int)),
    {
        proof {
            let sofar = seen + chunk@.take(it.index() as int);
            lemma_mark_push(sofar, c);
            assert(sofar.push(c) == seen + chunk@.take(it.index() + 1));
        }
        if c == '\n' {
            open = false;
            slash = false;
        } else {
            if c == '%' && !slash {
                open = true;
            }
            slash = c == '\\';
        }
    }
    assert(chunk@.take(chunk@.len() as int) == chunk@);
    (open, slash)
}

/// Whether a command that follows `before` is commented out, where `seen`
/// is the text of the document before `before`: whether a `%` that no
/// backslash precedes stands before the command on its line.
pub open spec fn commented_at(seen: Seq<char>, before: Seq<char>) -> bool {
    is_marked(seen + before)
}

/// Whether `next` is an ending of `rest`.
pub open spec fn is_suffix(next: Seq<char>, rest: Seq<char>) -> bool {
    next.len() <= rest.len() && next == rest.skip(rest.len() - next.len())
}

/// What has been read of a document when a step turns the text `rest` that
/// follows `seen` into `next`: `seen` and the part of `rest` before `next`.
pub open spec fn seen_after(seen: Seq<char>, rest: Seq<char>, next: Seq<char>) -> Seq<char> {
    seen + rest.take(rest.len() - next.len())
}

/// What the scan does with the leftmost match of the combined matcher in
/// `rest`, which spans the characters from `start` up to `end`, where
/// `seen` is the text of the document before `rest`.
///
/// A match that is empty or does not end in `{` ends the scan. A commented
/// command is passed over. Otherwise the command is classified and read, and
/// the scan goes on after its last brace group; a command of no live
/// category is passed over with its first brace group.
pub open spec fn stride_at(
    reg: Registry,
    cfg: Config,
    seen: Seq<char>,
    rest: Seq<char>,
    start: int,
    end: int,
) -> Stride {
    if !(0 <= start < end <= rest.len() && rest[end - 1] == '{') {
        Stride::Stop
    } else if commented_at(seen, rest.take(start)) {
        Stride::Pass(rest.skip(end))
    } else {
        let typ = strip_start(rest.subrange(start, end), CharSet::Whitespace);
        let group = rest.skip(end - 1);
        match class_of(reg, cfg, typ) {
            None => Stride::Pass(brace_rest(group)),
            Some(class) => Stride::Yield(
                command_finding(class, typ, group),
                command_rest(class, typ, group),
            ),
        }
    }
}

/// The next step of a scan of `rest`: the end where there is no combined
/// matcher or it finds nothing, else what [`stride_at`] says of its match.
pub open spec fn stride(reg: Registry, cfg: Config, seen: Seq<char>, rest: Seq<char>) -> Stride {
    match reg.combined {
        None => Stride::Stop,
        Some(re) => match first_match(re, rest) {
            None => Stride::Stop,
            Some((start, end)) => stride_at(reg, cfg, seen, rest, start, end),
        },
    }
}

proof fn lemma_suffix_of_suffix(a: Seq<char>, b: Seq<char>, c: Seq<char>)
    requires
        is_suffix(a, b),
        is_suffix(b, c),
    ensures
        is_suffix(a, c),
{
    assert(c.skip(c.len() - b.len()).skip(b.len() - a.len()) == c.skip(c.len() - a.len()));
}

proof fn lemma_brace_rest_suffix(s: Seq<char>)
    ensures
        is_suffix(brace_rest(s), s),
{
    lemma_brace_parts_len(s);
    let end = group_end(s);
    if end < s.len() {
        assert(s.subrange(end + 1, s.len() as int) == s.skip(end + 1));
    } else {
        assert(Seq::<char>::empty() == s.skip(s.len() as int));
    }
}

/// What a command leaves is an ending of the text from its opening brace
/// on.
pub proof fn lemma_command_rest_suffix(class: Class, typ: Seq<char>, group: Seq<char>)
    ensures
        is_suffix(command_rest(class, typ, group), group),
{
    let tail = brace_rest(group);
    lemma_brace_rest_suffix(group);
    lemma_brace_rest_suffix(tail);
    lemma_suffix_of_suffix(brace_rest(tail), tail, group);
    let inner = strip_start(brace_rest(tail), CharSet::Whitespace);
    lemma_strip_len(brace_rest(tail), CharSet::Whitespace);
    lemma_lead_first(brace_rest(tail), CharSet::Whitespace);
    assert(is_suffix(inner, brace_rest(tail)));
    lemma_suffix_of_suffix(inner, brace_rest(tail), group);
    lemma_brace_rest_suffix(inner);
    lemma_suffix_of_suffix(brace_rest(inner), inner, group);
}

/// Every step leaves an ending of the text it was given, and a shorter
/// one: what was read and what is left make up the document as before.
pub proof fn lemma_stride_shrinks(reg: Registry, cfg: Config, seen: Seq<char>, rest: Seq<char>)
    ensures
        match stride(reg, cfg, seen, rest) {
            Stride::Stop => true,
            Stride::Pass(next) => next.len() < rest.len() && is_suffix(next, rest) && seen_after(
                seen,
                rest,
                next,
            ) + next == seen + rest,
            Stride::Yield(_, next) => next.len() < rest.len() && is_suffix(next, rest)
                && seen_after(seen, rest, next) + next == seen + rest,
        },
{
    if let Some(re) = reg.combined {
        if let Some((start, end)) = first_match(re, rest) {
            if 0 <= start < end <= rest.len() && rest[end - 1] == '{' {
                let typ = strip_start(rest.subrange(start, end), CharSet::Whitespace);
                let group = rest.skip(end - 1);
                lemma_brace_parts_len(group);
                assert(is_suffix(group, rest));
                assert(is_suffix(rest.skip(end), rest));
                lemma_brace_rest_suffix(group);
                lemma_suffix_of_suffix(brace_rest(group), group, rest);
                if let Some(class) = class_of(reg, cfg, typ) {
                    lemma_command_rest_len(class, typ, group);
                    lemma_command_rest_suffix(class, typ, group);
                    lemma_suffix_of_suffix(command_rest(class, typ, group), group, rest);
                }
                match stride(reg, cfg, seen, rest) {
                    Stride::Stop => {},
                    Stride::Pass(next) => {
                        assert(rest.take(rest.len() - next.len()) + next == rest);
                        assert(seen_after(seen, rest, next) + next == seen + rest);
                    },
                    Stride::Yield(_, next) => {
                        assert(rest.take(rest.len() - next.len()) + next == rest);
                        assert(seen_after(seen, rest, next) + next == seen + rest);
                    },
                }
            }
        }
    }
}

/// What a scan of `rest` yields, where `seen` is the text of the document
/// before `rest`: the findings of its steps, in order. Whether a command is
/// commented out is told from all of its line, also from what earlier steps
/// have read of it.
pub open spec fn scan_in(reg: Registry, cfg: Config, seen: Seq<char>, rest: Seq<char>) -> Seq<
    Outcome,
>
    decreases rest.len(),
{
    proof {
        lemma_stride_shrinks(reg, cfg, seen, rest);
    }
    match stride(reg, cfg, seen, rest) {
        Stride::Stop => Seq::empty(),
        Stride::Pass(next) => scan_in(reg, cfg, seen_after(seen, rest, next), next),
        Stride::Yield(finding, next) => seq![finding] + scan_in(
            reg,
            cfg,
            seen_after(seen, rest, next),
            next,
        ),
    }
}

/// What a scan of the document `text` yields.
pub open spec fn scan_from(reg: Registry, cfg: Config, text: Seq<char>) -> Seq<Outcome> {
    scan_in(reg, cfg, Seq::empty(), text)
}

/// A scan depends on the categories that are turned on and on nothing
/// else of the configuration.
pub proof fn lemma_scan_same(
    reg: Registry,
    a: Config,
    b: Config,
    seen: Seq<char>,
    rest: Seq<char>,
)
    requires
        a.same_toggles(b),
    ensures
        scan_in(reg, a, seen, rest) == scan_in(reg, b, seen, rest),
    decreases rest.len(),
{
    lemma_stride_shrinks(reg, a, seen, rest);
    assert(stride(reg, a, seen, rest) == stride(reg, b, seen, rest));
    match stride(reg, a, seen, rest) {
        Stride::Stop => {},
        Stride::Pass(next) => {
            lemma_scan_same(reg, a, b, seen_after(seen, rest, next), next);
        },
        Stride::Yield(_, next) => {
            lemma_scan_same(reg, a, b, seen_after(seen, rest, next), next);
        },
    }
}

/// Whether `cfg` turns on the category that the finding `f` belongs to. A
/// scan finds no citations.
pub open spec fn is_live(cfg: Config, f: Outcome) -> bool {
    match f {
        Outcome::Input(_) => cfg.includes,
        Outcome::Bibliography(_) => cfg.bib,
        Outcome::Found(fact) => match fact.attributes {
            Attributes::Label => cfg.labels,
            Attributes::Section(_) => cfg.sections,
            Attributes::Glossaryentry(_) => cfg.glossaries,
            Attributes::Citation(_, _) => false,
        },
    }
}

/// A category that is turned off never fires: whatever the text and the
/// matchers, every finding of a scan belongs to a category that `cfg` turns
/// on.
pub proof fn lemma_disabled_never_fires(
    reg: Registry,
    cfg: Config,
    seen: Seq<char>,
    rest: Seq<char>,
)
    ensures
        forall|i: int|
            0 <= i < scan_in(reg, cfg, seen, rest).len() ==> is_live(
                cfg,
                #[trigger] scan_in(reg, cfg, seen, rest)[i],
            ),
    decreases rest.len(),
{
    lemma_stride_shrinks(reg, cfg, seen, rest);
    let all = scan_in(reg, cfg, seen, rest);
    match stride(reg, cfg, seen, rest) {
        Stride::Stop => {
            assert(all.len() == 0);
        },
        Stride::Pass(next) => {
            lemma_disabled_never_fires(reg, cfg, seen_after(seen, rest, next), next);
            assert(all == scan_in(reg, cfg, seen_after(seen, rest, next), next));
        },
        Stride::Yield(finding, next) => {
            let later = scan_in(reg, cfg, seen_after(seen, rest, next), next);
            lemma_disabled_never_fires(reg, cfg, seen_after(seen, rest, next), next);
            assert(all == seq![finding] + later);
            assert(is_live(cfg, finding));
            assert forall|i: int| 0 <= i < all.len() implies is_live(cfg, #[trigger] all[i]) by {
                if i > 0 {
                    assert(all[i] == later[i - 1]);
                }
            }
        },
    }
}

/// A commented command yields nothing: where a `%` that no backslash
/// precedes stands before a match on its line, be it in the text that the
/// step is given or in what was read of the line before, the step for that
/// match reports no finding.
pub proof fn lemma_commented_yields_nothing(
    reg: Registry,
    cfg: Config,
    seen: Seq<char>,
    rest: Seq<char>,
    start: int,
    end: int,
)
    requires
        is_marked(seen + rest.take(start)),
    ensures
        !(stride_at(reg, cfg, seen, rest, start, end) is Yield),
{
}

/// Takes the step for a match in `rest`, given as the text before the
/// match, the match, and the text after it, where `seen` is the text of the
/// document before `rest`, and `marked` and `escaped` say whether a comment
/// is open at its end and whether it ends in a backslash. Returns with the
/// step the same of what has been read after it.
fn step_parts<'a>(
    reg: &Registry,
    cfg: &Config,
    marked: bool,
    escaped: bool,
    Ghost(seen): Ghost<Seq<char>>,
    rest: &'a str,
    before: &'a str,
    hit: &'a str,
    after: &'a str,
) -> (r: (Step<'a>, bool, bool))
    requires
        before@ + hit@ + after@ == rest@,
        marked == is_marked(seen),
        escaped == ends_escaped(seen),
    ensures
        r.0@ == stride_at(
            *reg,
            *cfg,
            seen,
            rest@,
            before@.len() as int,
            (before@.len() + hit@.len()) as int,
        ),
        match r.0@ {
            Stride::Stop => true,
            Stride::Pass(next) => r.1 == is_marked(seen_after(seen, rest@, next)) && r.2
                == ends_escaped(seen_after(seen, rest@, next)),
            Stride::Yield(_, next) => r.1 == is_marked(seen_after(seen, rest@, next)) && r.2
                == ends_escaped(seen_after(seen, rest@, next)),
        },
{
    let bound: usize = byte_len(rest);
    let start: usize = before.unicode_len();
    let hit_len: usize = hit.unicode_len();
    assert(rest@.len() == before@.len() + hit@.len() + after@.len());
    assert(rest@.take(start as int) == before@);
    assert(rest@.subrange(start as int, start + hit_len) == hit@);
    assert(rest@.skip(start + hit_len) == after@);
    if hit_len == 0 || hit.get_char(hit_len - 1) != '{' {
        return (Step::Stop, marked, escaped);
    }
    assert(rest@[start + hit_len - 1] == hit@[hit_len - 1]);
    let (commented, _) = note(marked, escaped, before, Ghost(seen));
    let ghost group_text = rest@.skip(start + hit_len - 1);
    proof {
        lemma_brace_parts_len(group_text);
        lemma_brace_rest_suffix(group_text);
        assert(is_suffix(group_text, rest@));
        lemma_suffix_of_suffix(brace_rest(group_text), group_text, rest@);
    }
    if commented {
        let read = head_of(rest, after, Ghost(start + hit_len));
        let (open, slash) = note(marked, escaped, read, Ghost(seen));
        return (Step::Pass(after), open, slash);
    }
    let typ = trim_start(hit);
    let (_, group) = split_chars(rest, start + hit_len - 1);
    let class = classify(
        cfg,
        is_match(&reg.inclusion, typ),
        is_match(&reg.bibliography, typ),
        is_match(&reg.label, typ),
        is_match(&reg.section, typ),
        is_match(&reg.glossary, typ),
    );
    match class {
        None => {
            let (_, tail) = match_parens(group);
            let read = head_of(rest, tail, Ghost(rest@.len() - tail@.len()));
            let (open, slash) = note(marked, escaped, read, Ghost(seen));
            (Step::Pass(tail), open, slash)
        },
        Some(class) => {
            proof {
                lemma_command_rest_suffix(class, typ@, group@);
                lemma_suffix_of_suffix(command_rest(class, typ@, group@), group@, rest@);
            }
            let (finding, tail) = read_command(class, typ, group);
            let read = head_of(rest, tail, Ghost(rest@.len() - tail@.len()));
            let (open, slash) = note(marked, escaped, read, Ghost(seen));
            (Step::Yield(finding, tail), open, slash)
        },
    }
}

/// Takes the step that follows from a match of the combined matcher in
/// `rest` that spans the characters from `start` up to `end`, where `rest`
/// is a whole document.
pub fn step_at<'a>(reg: &Registry, cfg: &Config, rest: &'a str, start: usize, end: usize) -> (r:
    Step<'a>)
    ensures
        r@ == stride_at(*reg, *cfg, Seq::empty(), rest@, start as int, end as int),
{
    if start >= end {
        return Step::Stop;
    }
    let (head, after) = split_chars(rest, end);
    if head.unicode_len() < end {
        return Step::Stop;
    }
    let (before, hit) = split_chars(head, start);
    assert(rest@.take(end as int).take(start as int) == rest@.take(start as int));
    assert(before@ + hit@ == head@);
    assert(head@ + after@ == rest@);
    assert(line_tail(Seq::<char>::empty()).len() == 0);
    step_parts(reg, cfg, false, false, Ghost(Seq::empty()), rest, before, hit, after).0
}

/// Takes the next step of a scan of `rest`, where `seen` is the text of
/// the document before `rest`.
fn step_in<'a>(
    reg: &Registry,
    cfg: &Config,
    marked: bool,
    escaped: bool,
    Ghost(seen): Ghost<Seq<char>>,
    rest: &'a str,
) -> (r: (Step<'a>, bool, bool))
    requires
        marked == is_marked(seen),
        escaped == ends_escaped(seen),
    ensures
        r.0@ == stride(*reg, *cfg, seen, rest@),
        match r.0@ {
            Stride::Stop => true,
            Stride::Pass(next) => r.1 == is_marked(seen_after(seen, rest@, next)) && r.2
                == ends_escaped(seen_after(seen, rest@, next)),
            Stride::Yield(_, next) => r.1 == is_marked(seen_after(seen, rest@, next)) && r.2
                == ends_escaped(seen_after(seen, rest@, next)),
        },
{
    match &reg.combined {
        None => (Step::Stop, marked, escaped),
        Some(re) => match find(re, rest) {
            None => (Step::Stop, marked, escaped),
            Some((before, hit, after)) => step_parts(
                reg,
                cfg,
                marked,
                escaped,
                Ghost(seen),
                rest,
                before,
                hit,
                after,
            ),
        },
    }
}

/// Takes the first step of a scan of the document `rest`.
pub fn step<'a>(reg: &Registry, cfg: &Config, rest: &'a str) -> (r: Step<'a>)
    ensures
        r@ == stride(*reg, *cfg, Seq::empty(), rest@),
{
    assert(line_tail(Seq::<char>::empty()).len() == 0);
    step_in(reg, cfg, false, false, Ghost(Seq::empty()), rest).0
}

/// Scans `text` once from left to right and reports what its live commands
/// yield, in order. Without a live category nothing is reported.
pub fn scan(reg: &Registry, cfg: &Config, text: &str) -> (r: Vec<Finding>)
    ensures
        outcomes(r@) == scan_from(*reg, *cfg, text@),
        reg.built_for(*cfg) && live_shapes(*cfg).len() == 0 ==> r@.len() == 0,
{
    let mut out: Vec<Finding> = Vec::new();
    let mut rest: &str = text;
    let mut marked: bool = false;
    let mut escaped: bool = false;
    let ghost mut seen: Seq<char> = Seq::empty();
    assert(line_tail(Seq::<char>::empty()).len() == 0);
    loop
        invariant_except_break
            marked == is_marked(seen),
            escaped == ends_escaped(seen),
            outcomes(out@) + scan_in(*reg, *cfg, seen, rest@) == scan_from(*reg, *cfg, text@),
        ensures
            outcomes(out@) == scan_from(*reg, *cfg, text@),
        decreases rest@.len(),
    {
        let ghost before_out = outcomes(out@);
        let ghost old_rest = rest@;
        proof {
            lemma_stride_shrinks(*reg, *cfg, seen, rest@);
        }
        match step_in(reg, cfg, marked, escaped, Ghost(seen), rest) {
            (Step::Stop, _, _) => {
                break ;
            },
            (Step::Pass(next), open, slash) => {
                proof {
                    seen = seen_after(seen, old_rest, next@);
                }
                rest = next;
                marked = open;
                escaped = slash;
            },
            (Step::Yield(finding, next), open, slash) => {
                out.push(finding);
                assert(outcomes(out@) == before_out + seq![finding@]);
                proof {
                    seen = seen_after(seen, old_rest, next@);
                }
                rest = next;
                marked = open;
                escaped = slash;
            },
        }
    }
    out
}

} // verus!
