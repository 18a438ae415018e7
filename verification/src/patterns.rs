//! The command shapes that a scan recognises, as regular expressions, and
//! the registry of matchers compiled from them.

use crate::text::slice_views;
use crate::Config;
use regex::Regex;
use vstd::prelude::*;
use vstd::string::*;

verus! {

/// `regex::Regex`, a compiled matcher. Nothing is known of what it holds.
#[verifier::external_type_specification]
#[verifier::external_body]
pub struct ExRegex(regex::Regex);

/// `regex::Error`, the reason for which a pattern was rejected. Nothing is
/// known of what it holds.
#[verifier::external_type_specification]
#[verifier::external_body]
pub struct ExRegexError(regex::Error);

/// The matcher that `Regex::new` builds from a pattern, if it accepts it.
pub uninterp spec fn compiled(pattern: Seq<char>) -> Option<Regex>;

/// The leftmost match of a matcher in a text, as `Regex::find` reports it:
/// the number of characters before the match and the number up to its end.
pub uninterp spec fn first_match(re: Regex, text: Seq<char>) -> Option<(int, int)>;

/// Whether a matcher matches anywhere in a text, as `Regex::is_match`
/// reports it.
pub uninterp spec fn is_hit(re: Regex, text: Seq<char>) -> bool;

/// Compiles `pattern` with `Regex::new`. Believed without proof: the
/// outcome depends on the pattern alone, so that it is the matcher named
/// [`compiled`], or an error where the regex crate rejects the pattern.
#[verifier::external_body]
fn compile(pattern: &str) -> (r: Result<Regex, regex::Error>)
    ensures
        match r {
            Ok(re) => compiled(pattern@) == Some(re),
            Err(_) => compiled(pattern@) is None,
        },
{
    Regex::new(pattern)
}

/// Searches `text` with `Regex::find` and hands out the text before the
/// leftmost match, the match, and the text after it. Believed without proof:
/// the match depends on the matcher and the text alone, so that it is the one
/// named [`first_match`]; and its bounds lie between characters, so that the
/// three parts make up `text`.
#[verifier::external_body]
pub(crate) fn find<'a>(re: &Regex, text: &'a str) -> (r: Option<(&'a str, &'a str, &'a str)>)
    ensures
        match r {
            Some((before, hit, after)) => {
                &&& first_match(*re, text@) == Some(
                    (before@.len() as int, (before@.len() + hit@.len()) as int),
                )
                &&& before@ + hit@ + after@ == text@
            },
            None => first_match(*re, text@) is None,
        },
{
    re.find(text).map(|m| (&text[..m.start()], m.as_str(), &text[m.end()..]))
}

/// Tests `text` with `Regex::is_match`. Believed without proof: the answer
/// depends on the matcher and the text alone, so that it is the one named
/// [`is_hit`].
#[verifier::external_body]
pub(crate) fn is_match(re: &Regex, text: &str) -> (r: bool)
    ensures
        r == is_hit(*re, text@),
{
    re.is_match(text)
}

/// The commands that pull in another document: `\include`, `\input`.
pub open spec fn include_shapes() -> Seq<char> {
    r"\\include(\[.*?\])?\{|\\input(\[.*?\])?\{"@
}

/// The commands that name a bibliography: `\addbibresource`,
/// `\bibliography`.
pub open spec fn bibliography_shapes() -> Seq<char> {
    r"\\addbibresource(\[.*?\])?\{|\\bibliography(\[.*?\])?\{"@
}

/// The sectioning commands, each with an optional star.
pub open spec fn section_shapes() -> Seq<char> {
    r"\\section\*?(\[.*?\])?\{|\\chapter\*?(\[.*?\])?\{|\\part\*?(\[.*?\])?\{|\\subsection\*?(\[.*?\])?\{|\\subsubsection\*?(\[.*?\])?\{"@
}

/// The `\label` command.
pub open spec fn label_shapes() -> Seq<char> {
    r"\\label(\[.*?\])?\{|\\label\{"@
}

/// The commands that define a glossary entry.
pub open spec fn glossary_shapes() -> Seq<char> {
    r"\\newglossaryentry\{|\\longnewglossaryentry\{"@
}

/// A `\documentclass` command on a line with no `%` before it.
pub open spec fn documentclass_shape() -> Seq<char> {
    r"(?m)^[^%]*\\documentclass(?-m)"@
}

/// The shapes of the categories that `cfg` turns on, in the order in which
/// the combined matcher tries them.
pub open spec fn live_shapes(cfg: Config) -> Seq<Seq<char>> {
    (if cfg.glossaries {
        seq![glossary_shapes()]
    } else {
        seq![]
    }) + (if cfg.sections {
        seq![section_shapes()]
    } else {
        seq![]
    }) + (if cfg.includes {
        seq![include_shapes()]
    } else {
        seq![]
    }) + (if cfg.bib {
        seq![bibliography_shapes()]
    } else {
        seq![]
    }) + (if cfg.labels {
        seq![label_shapes()]
    } else {
        seq![]
    })
}

/// `parts` joined by `|`.
pub open spec fn alternation(parts: Seq<Seq<char>>) -> Seq<char>
    decreases parts.len(),
{
    if parts.len() == 0 {
        Seq::empty()
    } else if parts.len() == 1 {
        parts[0]
    } else {
        alternation(parts.drop_last()) + "|"@ + parts.last()
    }
}

/// The pattern of the combined matcher: one group that holds every live
/// shape.
pub open spec fn combined_pattern(cfg: Config) -> Seq<char> {
    "("@ + alternation(live_shapes(cfg)) + ")"@
}

/// Configurations that turn on the same categories have the same registry.
pub proof fn lemma_same_registry(a: Config, b: Config)
    requires
        a.same_toggles(b),
    ensures
        Registry::of(a) == Registry::of(b),
        Registry::buildable(a) == Registry::buildable(b),
{
    assert(live_shapes(a) == live_shapes(b));
}

/// Why a registry could not be built.
#[derive(Debug, Clone, Copy, PartialEq, Eq)]
pub enum PatternError {
    /// The regex crate rejected one of the patterns.
    Rejected,
}

/// The matchers of one extraction run: one per category, the combined
/// matcher over the live categories, and the detector of a main file.
pub struct Registry {
    pub inclusion: Regex,
    pub bibliography: Regex,
    pub section: Regex,
    pub label: Regex,
    pub glossary: Regex,
    /// Absent where no category is live.
    pub combined: Option<Regex>,
    pub documentclass: Regex,
}

impl Registry {
    /// Whether the regex crate accepts every pattern that a registry for
    /// `cfg` needs.
    pub open spec fn buildable(cfg: Config) -> bool {
        &&& compiled(include_shapes()) is Some
        &&& compiled(bibliography_shapes()) is Some
        &&& compiled(section_shapes()) is Some
        &&& compiled(label_shapes()) is Some
        &&& compiled(glossary_shapes()) is Some
        &&& compiled(documentclass_shape()) is Some
        &&& live_shapes(cfg).len() > 0 ==> compiled(combined_pattern(cfg)) is Some
    }

    /// The registry for `cfg`: the matchers compiled from the shapes of each
    /// category, and the combined matcher over the live ones.
    pub open spec fn of(cfg: Config) -> Registry {
        Registry {
            inclusion: compiled(include_shapes()).unwrap(),
            bibliography: compiled(bibliography_shapes()).unwrap(),
            section: compiled(section_shapes()).unwrap(),
            label: compiled(label_shapes()).unwrap(),
            glossary: compiled(glossary_shapes()).unwrap(),
            combined: if live_shapes(cfg).len() == 0 {
                None
            } else {
                compiled(combined_pattern(cfg))
            },
            documentclass: compiled(documentclass_shape()).unwrap(),
        }
    }

    /// Whether this is the registry for `cfg`.
    pub open spec fn built_for(self, cfg: Config) -> bool {
        Registry::buildable(cfg) && self == Registry::of(cfg)
    }

    /// Builds the registry for `cfg`.
    pub fn new(cfg: &Config) -> (r: Result<Registry, PatternError>)
        ensures
            match r {
                Ok(reg) => reg.built_for(*cfg),
                Err(_) => !Registry::buildable(*cfg),
            },
    {
        let inclusion = match compile(r"\\include(\[.*?\])?\{|\\input(\[.*?\])?\{") {
            Ok(re) => re,
            Err(_) => {
                return Err(PatternError::Rejected);
            },
        };
        let bibliography = match compile(
            r"\\addbibresource(\[.*?\])?\{|\\bibliography(\[.*?\])?\{",
        ) {
            Ok(re) => re,
            Err(_) => {
                return Err(PatternError::Rejected);
            },
        };
        let section = match compile(
            r"\\section\*?(\[.*?\])?\{|\\chapter\*?(\[.*?\])?\{|\\part\*?(\[.*?\])?\{|\\subsection\*?(\[.*?\])?\{|\\subsubsection\*?(\[.*?\])?\{",
        ) {
            Ok(re) => re,
            Err(_) => {
                return Err(PatternError::Rejected);
            },
        };
        let label = match compile(r"\\label(\[.*?\])?\{|\\label\{") {
            Ok(re) => re,
            Err(_) => {
                return Err(PatternError::Rejected);
            },
        };
        let glossary = match compile(r"\\newglossaryentry\{|\\longnewglossaryentry\{") {
            Ok(re) => re,
            Err(_) => {
                return Err(PatternError::Rejected);
            },
        };
        let documentclass = match compile(r"(?m)^[^%]*\\documentclass(?-m)") {
            Ok(re) => re,
            Err(_) => {
                return Err(PatternError::Rejected);
            },
        };
        let mut live: Vec<&str> = Vec::new();
        if cfg.glossaries {
            live.push(r"\\newglossaryentry\{|\\longnewglossaryentry\{");
        }
        if cfg.sections {
            live.push(
                r"\\section\*?(\[.*?\])?\{|\\chapter\*?(\[.*?\])?\{|\\part\*?(\[.*?\])?\{|\\subsection\*?(\[.*?\])?\{|\\subsubsection\*?(\[.*?\])?\{",
            );
        }
        if cfg.includes {
            live.push(r"\\include(\[.*?\])?\{|\\input(\[.*?\])?\{");
        }
        if cfg.bib {
            live.push(r"\\addbibresource(\[.*?\])?\{|\\bibliography(\[.*?\])?\{");
        }
        if cfg.labels {
            live.push(r"\\label(\[.*?\])?\{|\\label\{");
        }
        assert(slice_views(live@) == live_shapes(*cfg));
        let combined = if live.len() == 0 {
            None
        } else {
            let mut pattern = String::from_str("(");
            pattern.append(join(&live).as_str());
            pattern.append(")");
            match compile(pattern.as_str()) {
                Ok(re) => Some(re),
                Err(_) => {
                    return Err(PatternError::Rejected);
                },
            }
        };
        Ok(Registry { inclusion, bibliography, section, label, glossary, combined, documentclass })
    }

    /// Whether `content` holds a `\documentclass` command that no `%` on
    /// its line precedes.
    pub fn has_documentclass(&self, content: &str) -> (r: bool)
        ensures
            r == is_hit(self.documentclass, content@),
    {
        is_match(&self.documentclass, content)
    }
}

/// Joins `parts` with `|` between them.
pub fn join(parts: &Vec<&str>) -> (r: String)
    ensures
        r@ == alternation(slice_views(parts@)),
{
    let mut out = String::new();
    let ghost all = slice_views(parts@);
    let mut i: usize = 0;
    while i < parts.len()
        invariant
            i <= parts@.len(),
            all == slice_views(parts@),
            out@ == alternation(all.take(i as int)),
        decreases parts@.len() - i,
    {
        if i > 0 {
            out.append("|");
        }
        out.append(parts[i]);
        assert(all.take(i + 1).drop_last() == all.take(i as int));
        i = i + 1;
    }
    assert(all.take(i as int) == all);
    out
}

} // verus!
