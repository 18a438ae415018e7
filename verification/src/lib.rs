//! Extraction of completion facts (citations, glossary entries, section
//! headings and labels) from LaTeX and BibTeX source text.

use crate::completion::{facts, Completion, Fact};
use crate::parser::{document_facts, lemma_run_same, single_pass};
use crate::patterns::{is_hit, lemma_same_registry, Registry};
use crate::traverse::Walk;
use crate::sources::{content_of, discovered, Sources};
use crate::text::texts;
use crate::workers::{distribute, flat_facts, lemma_flat_same, lemma_one_by_one, one_by_one};
use vstd::prelude::*;
use vstd::string::*;

pub mod bib;
pub mod braces;
pub mod completion;
pub mod fields;
pub mod output;
pub mod parser;
pub mod patterns;
pub mod resolver;
pub mod scanner;
pub mod sources;
pub mod text;
pub mod traverse;
pub mod workers;

verus! {

/// What an extraction looks for, and with how many workers.
#[derive(Copy, Clone, Debug)]
pub struct Config {
    /// Follow `\include` and `\input`.
    pub includes: bool,
    /// Emit citations and follow bibliography commands.
    pub bib: bool,
    /// Emit glossary entries.
    pub glossaries: bool,
    /// Emit section headings.
    pub sections: bool,
    /// Emit labels.
    pub labels: bool,
    /// Number of workers where no main file is found; 0 and 1 mean one.
    pub threads: usize,
}

/// Whether the document at `path` is a main file: whether it can be read
/// and holds a `\documentclass` command that is not commented out.
pub open spec fn is_main(files: Seq<(Seq<char>, Seq<char>)>, reg: Registry, path: Seq<char>) -> bool {
    match content_of(files, path) {
        Some(text) => is_hit(reg.documentclass, text),
        None => false,
    }
}

/// Index of the first main file among `paths`; their number if there is
/// none.
pub open spec fn main_index(
    files: Seq<(Seq<char>, Seq<char>)>,
    reg: Registry,
    paths: Seq<Seq<char>>,
) -> int
    decreases paths.len(),
{
    if paths.len() == 0 {
        0
    } else if is_main(files, reg, paths[0]) {
        0
    } else {
        1 + main_index(files, reg, paths.drop_first())
    }
}

/// Finds the first main file among the documents at `paths`.
pub fn find_mainfile(tree: &Sources, reg: &Registry, paths: &Vec<String>) -> (r: Option<usize>)
    ensures
        match r {
            Some(i) => i < paths@.len() && i == main_index(tree@, *reg, texts(paths@)),
            None => main_index(tree@, *reg, texts(paths@)) == paths@.len(),
        },
{
    let ghost all = texts(paths@);
    let mut i: usize = 0;
    assert(all.skip(0) == all);
    while i < paths.len()
        invariant
            i <= paths@.len(),
            all == texts(paths@),
            main_index(tree@, *reg, all) == i + main_index(tree@, *reg, all.skip(i as int)),
        decreases paths@.len() - i,
    {
        assert(all.skip(i as int)[0] == paths@[i as int]@);
        let main = match tree.read(paths[i].as_str()) {
            Some(text) => reg.has_documentclass(text),
            None => false,
        };
        if main {
            return Some(i);
        }
        assert(all.skip(i as int).drop_first() == all.skip(i + 1));
        i = i + 1;
    }
    None
}

/// `cfg` with the following of includes turned on or off.
pub open spec fn following(cfg: Config, on: bool) -> Config {
    Config { includes: on, ..cfg }
}

/// How a list of documents is extracted.
#[derive(Debug, Clone, Copy)]
pub enum Plan {
    /// From the main file at the given index alone, under the given
    /// configuration.
    Root(usize, Config),
    /// Every document on its own, under the given configuration.
    Flat(Config),
}

/// The plan for the documents at `paths`: from the first main file among
/// them, with includes followed; without a main file every document on its
/// own, with includes not followed.
pub fn plan(tree: &Sources, reg: &Registry, paths: &Vec<String>, cfg: Config) -> (r: Plan)
    ensures
        match r {
            Plan::Root(main, root) => {
                &&& main < paths@.len()
                &&& main == main_index(tree@, *reg, texts(paths@))
                &&& root == following(cfg, true)
            },
            Plan::Flat(flat) => {
                &&& main_index(tree@, *reg, texts(paths@)) == paths@.len()
                &&& flat == following(cfg, false)
            },
        },
{
    match find_mainfile(tree, reg, paths) {
        Some(main) => Plan::Root(main, Config { includes: true, ..cfg }),
        None => Plan::Flat(Config { includes: false, ..cfg }),
    }
}

/// The completions of the documents at `paths`. With a main file among
/// them, that file alone is extracted, with includes followed. Without one,
/// every document is extracted on its own, with includes not followed.
/// Nothing is found where the patterns that are needed cannot be had.
pub open spec fn tree_facts(
    files: Seq<(Seq<char>, Seq<char>)>,
    paths: Seq<Seq<char>>,
    cfg: Config,
) -> Seq<Fact> {
    let flat = following(cfg, false);
    let root = following(cfg, true);
    if !Registry::buildable(flat) {
        Seq::empty()
    } else if main_index(files, Registry::of(flat), paths) < paths.len() {
        document_facts(files, paths[main_index(files, Registry::of(flat), paths)], root)
    } else {
        flat_facts(files, Registry::of(flat), paths, flat)
    }
}

/// Extracts the completions of the documents at `paths` in `tree`. Without
/// a main file the documents are split among the configured number of
/// workers, whose completions are gathered chunk by chunk. The matchers are
/// built once and serve every document.
pub fn parse_path_single(tree: &Sources, paths: &Vec<String>, cfg: Config) -> (r: Vec<Completion>)
    ensures
        facts(r@) == tree_facts(tree@, texts(paths@), cfg),
{
    let reg = match Registry::new(&Config { includes: false, ..cfg }) {
        Ok(reg) => reg,
        Err(_) => {
            return Vec::new();
        },
    };
    match plan(tree, &reg, paths, cfg) {
        Plan::Root(main, root) => {
            assert(texts(paths@)[main as int] == paths@[main as int]@);
            single_pass(tree, paths[main].as_str(), &root)
        },
        Plan::Flat(flat) => distribute(tree, &reg, paths, &flat),
    }
}

impl Config {
    /// Whether `self` and `other` turn on the same categories: whether they
    /// differ in the number of workers at most.
    pub open spec fn same_toggles(self, other: Config) -> bool {
        &&& self.includes == other.includes
        &&& self.bib == other.bib
        &&& self.glossaries == other.glossaries
        &&& self.sections == other.sections
        &&& self.labels == other.labels
    }

    /// Whether bibliographies are among the documents to consider.
    pub open spec fn bibliographies_wanted(self) -> bool {
        self.bib
    }

    /// Whether LaTeX documents are among the documents to consider.
    pub open spec fn documents_wanted(self) -> bool {
        self.glossaries || self.labels || self.sections
    }

    /// Whether bibliographies are among the documents to consider: where
    /// citations are wanted.
    pub fn wants_bibliographies(&self) -> (r: bool)
        ensures
            r == self.bibliographies_wanted(),
    {
        self.bib
    }

    /// Whether LaTeX documents are among the documents to consider: where
    /// glossary entries, labels or section headings are wanted.
    pub fn wants_documents(&self) -> (r: bool)
        ensures
            r == self.documents_wanted(),
    {
        self.glossaries || self.labels || self.sections
    }
}

/// Whether no document at `paths` is a main file, as far as can be told:
/// whether none holds an uncommented `\documentclass`, or the pattern for
/// it cannot be had.
pub open spec fn no_main_file(files: Seq<(Seq<char>, Seq<char>)>, paths: Seq<Seq<char>>, cfg: Config) -> bool {
    !Registry::buildable(following(cfg, false)) || main_index(
        files,
        Registry::of(following(cfg, false)),
        paths,
    ) == paths.len()
}

/// The number of workers does not matter: two configurations that turn on
/// the same categories yield the same completions, in the same order, from
/// the same documents. Without a main file these are the completions of the
/// documents extracted one after the other, with includes not followed.
pub proof fn lemma_workers_do_not_matter(
    files: Seq<(Seq<char>, Seq<char>)>,
    paths: Seq<Seq<char>>,
    a: Config,
    b: Config,
)
    requires
        a.same_toggles(b),
    ensures
        tree_facts(files, paths, a) == tree_facts(files, paths, b),
        no_main_file(files, paths, a) ==> tree_facts(files, paths, a) == one_by_one(
            files,
            paths,
            following(a, false),
        ),
{
    let (flat_a, flat_b) = (following(a, false), following(b, false));
    let (root_a, root_b) = (following(a, true), following(b, true));
    lemma_same_registry(flat_a, flat_b);
    lemma_same_registry(root_a, root_b);
    lemma_one_by_one(files, paths, flat_a);
    if Registry::buildable(flat_a) {
        let reg = Registry::of(flat_a);
        let main = main_index(files, reg, paths);
        if main < paths.len() {
            if Registry::buildable(root_a) {
                lemma_run_same(files, Walk::at(Registry::of(root_a), paths[main], root_a), root_b);
            }
        } else {
            lemma_flat_same(files, reg, paths, flat_a, flat_b);
        }
    }
}

/// The documents that an extraction under `dir` considers: the
/// bibliographies where citations are wanted, then the LaTeX documents where
/// glossary entries, labels or section headings are wanted.
pub open spec fn candidates(files: Seq<(Seq<char>, Seq<char>)>, dir: Seq<char>, cfg: Config) -> Seq<
    Seq<char>,
> {
    (if cfg.bibliographies_wanted() {
        discovered(files, dir, "bib"@)
    } else {
        Seq::empty()
    }) + (if cfg.documents_wanted() {
        discovered(files, dir, "tex"@)
    } else {
        Seq::empty()
    })
}

/// Extracts the completions of the documents under the directory `path`
/// of `tree`. With nothing but includes turned on, nothing is found.
pub fn parse_path(tree: &Sources, path: &str, cfg: Config) -> (r: Vec<Completion>)
    ensures
        facts(r@) == tree_facts(tree@, candidates(tree@, path@, cfg), cfg),
        !cfg.bib && !cfg.glossaries && !cfg.sections && !cfg.labels ==> r@.len() == 0,
{
    let mut paths: Vec<String> = Vec::new();
    if cfg.wants_bibliographies() {
        let mut more = tree.discover(path, "bib");
        let ghost added = more@;
        paths.append(&mut more);
        assert(texts(paths@) == texts(added));
    }
    if cfg.wants_documents() {
        let ghost before = paths@;
        let mut more = tree.discover(path, "tex");
        let ghost added = more@;
        paths.append(&mut more);
        assert(texts(paths@) == texts(before) + texts(added));
    }
    assert(texts(paths@) == candidates(tree@, path@, cfg));
    let out = parse_path_single(tree, &paths, cfg);
    proof {
        if !cfg.bib && !cfg.glossaries && !cfg.sections && !cfg.labels {
            assert(candidates(tree@, path@, cfg).len() == 0);
            assert(tree_facts(tree@, candidates(tree@, path@, cfg), cfg).len() == 0);
            assert(facts(out@).len() == out@.len());
        }
    }
    out
}

/// The completions of `root` in a tree: of the document itself where the
/// tree holds one at `root`, else of the documents under the directory
/// `root`.
pub open spec fn extract_facts(files: Seq<(Seq<char>, Seq<char>)>, root: Seq<char>, cfg: Config) -> Seq<
    Fact,
> {
    if content_of(files, root) is Some {
        document_facts(files, root, cfg)
    } else {
        tree_facts(files, candidates(files, root, cfg), cfg)
    }
}

/// Extracts the completions of `root`, a document or a directory of
/// `tree`. With every toggle off nothing is found.
pub fn extract(tree: &Sources, root: &str, cfg: Config) -> (r: Vec<Completion>)
    ensures
        facts(r@) == extract_facts(tree@, root@, cfg),
        !cfg.includes && !cfg.bib && !cfg.glossaries && !cfg.sections && !cfg.labels ==> r@.len()
            == 0,
{
    if tree.is_file(root) {
        single_pass(tree, root, &cfg)
    } else {
        parse_path(tree, root, cfg)
    }
}

} // verus!
