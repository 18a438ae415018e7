//! Extraction from one document of a tree, with what it includes.

pub use crate::completion::{Completion, CompletionType};

use crate::bib::{bib_facts, parse_bib};
use crate::completion::{facts, Fact};
use crate::patterns::{live_shapes, Registry};
use crate::resolver::extension;
use crate::scanner::{lemma_scan_same, stride, Stride};
use crate::sources::{content_of, Sources};
use crate::traverse::{expansion, Job, Traversal, Walk};
use crate::Config;
use vstd::prelude::*;
use vstd::string::*;

verus! {

/// Number of the documents of `files` whose path is not among `visited`.
pub open spec fn unread(files: Seq<(Seq<char>, Seq<char>)>, visited: Seq<Seq<char>>) -> nat
    decreases files.len(),
{
    if files.len() == 0 {
        0
    } else {
        unread(files.drop_last(), visited) + if visited.contains(files.last().0) {
            0nat
        } else {
            1nat
        }
    }
}

/// Noting a path as asked for leaves no more documents unread, and fewer
/// where a document is held under that path which was not asked for before.
pub proof fn lemma_unread_push(
    files: Seq<(Seq<char>, Seq<char>)>,
    visited: Seq<Seq<char>>,
    path: Seq<char>,
)
    ensures
        unread(files, visited.push(path)) <= unread(files, visited),
        !visited.contains(path) && content_of(files, path) is Some ==> unread(
            files,
            visited.push(path),
        ) < unread(files, visited),
    decreases files.len(),
{
    if files.len() > 0 {
        let rest = files.drop_last();
        let last = files.last().0;
        lemma_unread_push(rest, visited, path);
        if visited.contains(last) {
            let i = choose|i: int| 0 <= i < visited.len() && visited[i] == last;
            assert(visited.push(path)[i] == last);
        }
        if last == path {
            assert(visited.push(path)[visited.len() as int] == path);
        }
        if content_of(files, path) is Some && last != path {
            lemma_content_in_front(files, path);
        }
    }
}

/// A document found under a path that the last document does not have is
/// found among the documents before the last.
proof fn lemma_content_in_front(files: Seq<(Seq<char>, Seq<char>)>, path: Seq<char>)
    requires
        files.len() > 0,
        files.last().0 != path,
    ensures
        content_of(files.drop_last(), path) == content_of(files, path),
    decreases files.len(),
{
    if files.len() == 1 {
        assert(files.drop_last().len() == 0);
        assert(files.drop_first().len() == 0);
    } else if files[0].0 != path {
        assert(files.drop_first().drop_last() == files.drop_last().drop_first());
        assert(files.drop_last()[0] == files[0]);
        lemma_content_in_front(files.drop_first(), path);
    } else {
        assert(files.drop_last()[0] == files[0]);
    }
}

/// The path of the document that a traversal in state `w` asks for next.
pub open spec fn asked(w: Walk) -> Seq<char> {
    match w.drained().1 {
        Some((path, _)) => path,
        None => Seq::empty(),
    }
}

/// Handing out the next document leaves less work that is due, and no more
/// documents unread; fewer where the document handed out is held by `files`.
pub proof fn lemma_drained(files: Seq<(Seq<char>, Seq<char>)>, w: Walk)
    ensures
        w.drained().0.agenda.len() <= w.agenda.len(),
        w.drained().0.cfg == w.cfg,
        w.drained().0.reg == w.reg,
        unread(files, w.drained().0.visited) <= unread(files, w.visited),
        w.drained().1 is Some ==> w.drained().0.agenda.len() < w.agenda.len(),
        w.drained().1 is Some && content_of(files, asked(w)) is Some ==> unread(
            files,
            w.drained().0.visited,
        ) < unread(files, w.visited),
        w.drained().1 is None ==> w.drained().0.agenda.len() == 0,
    decreases w.agenda.len(),
{
    if w.agenda.len() > 0 {
        match w.agenda[0] {
            Job::Emit(fact) => {
                lemma_drained(
                    files,
                    Walk { agenda: w.agenda.drop_first(), results: w.results.push(fact), ..w },
                );
            },
            Job::Read(path, bib) => {
                if w.visited.contains(path) {
                    lemma_drained(files, Walk { agenda: w.agenda.drop_first(), ..w });
                } else {
                    lemma_unread_push(files, w.visited, path);
                }
            },
        }
    }
}

/// The completions that a traversal in state `w` gathers from the
/// documents `files`: it reads the document that is due, does the work it
/// stands for first, and ends when no work is left. No document is read
/// twice.
pub open spec fn run_facts(files: Seq<(Seq<char>, Seq<char>)>, w: Walk) -> Seq<Fact>
    decreases unread(files, w.visited), w.agenda.len(),
{
    proof {
        lemma_drained(files, w);
    }
    match w.drained().1 {
        None => w.drained().0.results,
        Some((path, bib)) => run_facts(
            files,
            w.drained().0.supplied(path, bib, content_of(files, path)),
        ),
    }
}

/// The completions of the document at `path` and of what it leads to
/// under `cfg`, read from `files` and found with the matchers `reg`.
pub open spec fn single_facts(
    files: Seq<(Seq<char>, Seq<char>)>,
    reg: Registry,
    path: Seq<char>,
    cfg: Config,
) -> Seq<Fact> {
    run_facts(files, Walk::at(reg, path, cfg))
}

/// The completions of the document at `path` and of what it leads to
/// under `cfg`, found with the registry for `cfg`. Nothing is found where
/// the patterns for `cfg` cannot be had.
pub open spec fn document_facts(files: Seq<(Seq<char>, Seq<char>)>, path: Seq<char>, cfg: Config) -> Seq<
    Fact,
> {
    if Registry::buildable(cfg) {
        single_facts(files, Registry::of(cfg), path, cfg)
    } else {
        Seq::empty()
    }
}

/// The work that a document stands for depends on the categories that are
/// turned on and on nothing else of the configuration.
pub proof fn lemma_expansion_same(
    reg: Registry,
    a: Config,
    b: Config,
    path: Seq<char>,
    bib: bool,
    content: Option<Seq<char>>,
)
    requires
        a.same_toggles(b),
    ensures
        expansion(reg, a, path, bib, content) == expansion(reg, b, path, bib, content),
{
    if let Some(text) = content {
        lemma_scan_same(reg, a, b, Seq::empty(), text);
    }
}

proof fn lemma_drained_same(w: Walk, b: Config)
    ensures
        w.under(b).drained() == (w.drained().0.under(b), w.drained().1),
    decreases w.agenda.len(),
{
    if w.agenda.len() > 0 {
        match w.agenda[0] {
            Job::Emit(fact) => {
                lemma_drained_same(
                    Walk { agenda: w.agenda.drop_first(), results: w.results.push(fact), ..w },
                    b,
                );
            },
            Job::Read(path, bib) => {
                if w.visited.contains(path) {
                    lemma_drained_same(Walk { agenda: w.agenda.drop_first(), ..w }, b);
                }
            },
        }
    }
}

/// A traversal gathers the same completions under two configurations that
/// turn on the same categories.
pub proof fn lemma_run_same(files: Seq<(Seq<char>, Seq<char>)>, w: Walk, b: Config)
    requires
        w.cfg.same_toggles(b),
    ensures
        run_facts(files, w) == run_facts(files, w.under(b)),
    decreases unread(files, w.visited), w.agenda.len(),
{
    lemma_drained(files, w);
    lemma_drained_same(w, b);
    if let Some((path, bib)) = w.drained().1 {
        let content = content_of(files, path);
        let next = w.drained().0.supplied(path, bib, content);
        lemma_expansion_same(w.reg, w.cfg, b, path, bib, content);
        assert(w.drained().0.under(b).supplied(path, bib, content) == next.under(b));
        lemma_run_same(files, next, b);
    }
}

/// Runs a traversal on the documents of `tree` until it is over.
pub fn run(tree: &Sources, t: Traversal) -> (r: Vec<Completion>)
    ensures
        facts(r@) == run_facts(tree@, t@),
{
    let mut walk = t;
    loop
        invariant
            run_facts(tree@, walk@) == run_facts(tree@, t@),
        decreases unread(tree@, walk@.visited), walk@.agenda.len(),
    {
        let ghost before = walk@;
        proof {
            lemma_drained(tree@, before);
        }
        match walk.next() {
            None => {
                assert(run_facts(tree@, before) == walk@.results);
                return walk.into_results();
            },
            Some((path, bib)) => {
                let content = tree.read(path.as_str());
                walk.supply(path.as_str(), bib, content);
            },
        }
    }
}

/// Where the combined matcher is absent, no document yields anything,
/// whatever it holds and whatever its extension.
pub proof fn lemma_nothing_live(
    files: Seq<(Seq<char>, Seq<char>)>,
    reg: Registry,
    path: Seq<char>,
    cfg: Config,
)
    requires
        live_shapes(cfg).len() == 0,
        reg.combined is None,
    ensures
        single_facts(files, reg, path, cfg).len() == 0,
{
    let w = Walk::at(reg, path, cfg);
    if extension(path) == Some("bib"@) {
        assert(w.drained() == (w, None::<(Seq<char>, bool)>));
    } else {
        let w1 = Walk { agenda: w.agenda.drop_first(), visited: w.visited.push(path), ..w };
        assert(!w.visited.contains(path));
        assert(w.drained() == (w1, Some((path, false))));
        assert(w1.agenda.len() == 0);
        let content = content_of(files, path);
        let w2 = w1.supplied(path, false, content);
        assert(expansion(w1.reg, w1.cfg, path, false, content).len() == 0) by {
            if let Some(text) = content {
                assert(stride(w1.reg, w1.cfg, Seq::empty(), text) == Stride::Stop);
            }
        }
        assert(w2.agenda.len() == 0);
        assert(w2.drained() == (w2, None::<(Seq<char>, bool)>));
        assert(run_facts(files, w2) == w2.results);
    }
}

/// Whether every job of a list hands out a completion.
pub open spec fn only_emits(jobs: Seq<Job>) -> bool {
    forall|i: int| 0 <= i < jobs.len() ==> (#[trigger] jobs[i]) is Emit
}

/// The completions that a list of jobs hands out, where every job hands
/// one out.
pub open spec fn handed_out(jobs: Seq<Job>) -> Seq<Fact> {
    Seq::new(jobs.len(), |i: int| jobs[i]->Emit_0)
}

/// The work that the document at `path` stands for by itself under `cfg`:
/// none for a bibliography where `cfg` wants no citations.
pub open spec fn own_work(
    files: Seq<(Seq<char>, Seq<char>)>,
    reg: Registry,
    path: Seq<char>,
    cfg: Config,
) -> Seq<Job> {
    if extension(path) == Some("bib"@) && !cfg.bib {
        Seq::empty()
    } else {
        expansion(reg, cfg, path, extension(path) == Some("bib"@), content_of(files, path))
    }
}

/// Where nothing but completions is due, they are all gathered and no
/// document is asked for.
pub proof fn lemma_drain_emits(w: Walk)
    requires
        only_emits(w.agenda),
    ensures
        w.drained() == (
            Walk { agenda: Seq::empty(), results: w.results + handed_out(w.agenda), ..w },
            None::<(Seq<char>, bool)>,
        ),
    decreases w.agenda.len(),
{
    if w.agenda.len() == 0 {
        assert(w.agenda == Seq::<Job>::empty());
        assert(w.results + handed_out(w.agenda) == w.results);
    } else {
        assert(w.agenda[0] is Emit);
        let fact = w.agenda[0]->Emit_0;
        let next = Walk { agenda: w.agenda.drop_first(), results: w.results.push(fact), ..w };
        assert forall|i: int| 0 <= i < next.agenda.len() implies (
        #[trigger] next.agenda[i]) is Emit by {
            assert(next.agenda[i] == w.agenda[i + 1]);
        }
        lemma_drain_emits(next);
        assert(next.results + handed_out(next.agenda) == w.results + handed_out(w.agenda)) by {
            assert forall|i: int| 0 <= i < handed_out(next.agenda).len() implies handed_out(
                next.agenda,
            )[i] == handed_out(w.agenda)[i + 1] by {
                assert(next.agenda[i] == w.agenda[i + 1]);
            }
        }
    }
}

/// A document that names no other document yields its own completions and
/// no others: where it stands for nothing but completions, those are what
/// its extraction gathers. For a bibliography that the tree holds these are
/// its citations, where citations are wanted.
pub proof fn lemma_leaf_yields_its_own(
    files: Seq<(Seq<char>, Seq<char>)>,
    reg: Registry,
    path: Seq<char>,
    cfg: Config,
)
    requires
        only_emits(own_work(files, reg, path, cfg)),
    ensures
        single_facts(files, reg, path, cfg) == handed_out(own_work(files, reg, path, cfg)),
        cfg.bib && extension(path) == Some("bib"@) && content_of(files, path) is Some
            ==> single_facts(files, reg, path, cfg) == bib_facts(content_of(files, path).unwrap()),
{
    let bib = extension(path) == Some("bib"@);
    let w = Walk::at(reg, path, cfg);
    let work = own_work(files, reg, path, cfg);
    if bib && !cfg.bib {
        assert(w.drained() == (w, None::<(Seq<char>, bool)>));
        assert(handed_out(work) == Seq::<Fact>::empty());
    } else {
        let w1 = Walk { agenda: w.agenda.drop_first(), visited: w.visited.push(path), ..w };
        assert(!w.visited.contains(path));
        assert(w.drained() == (w1, Some((path, bib))));
        assert(w1.agenda.len() == 0);
        let w2 = w1.supplied(path, bib, content_of(files, path));
        assert(w2.agenda == work);
        lemma_drain_emits(w2);
        assert(w2.results + handed_out(work) == handed_out(work));
        assert(run_facts(files, w2) == handed_out(work));
        if bib && content_of(files, path) is Some {
            assert(handed_out(work) == bib_facts(content_of(files, path).unwrap()));
        }
    }
}

/// Extracts the completions of the document at `filepath` in `tree` with
/// the matchers `reg`: the citations of a bibliography, where they are
/// wanted, or what a scan of a LaTeX document finds, with the documents and
/// bibliographies it names where `cfg` follows them. A document that the tree
/// does not hold yields nothing, and no document is read twice.
pub fn single_pass_with(tree: &Sources, reg: &Registry, filepath: &str, cfg: &Config) -> (r: Vec<
    Completion,
>)
    ensures
        facts(r@) == single_facts(tree@, *reg, filepath@, *cfg),
{
    run(tree, Traversal::start(reg, filepath, cfg))
}

/// Extracts the completions of the document at `filepath` in `tree`, with
/// the registry for `cfg`. With no category live nothing is found.
pub fn single_pass(tree: &Sources, filepath: &str, cfg: &Config) -> (r: Vec<Completion>)
    ensures
        facts(r@) == document_facts(tree@, filepath@, *cfg),
        live_shapes(*cfg).len() == 0 ==> r@.len() == 0,
{
    proof {
        if live_shapes(*cfg).len() == 0 && Registry::buildable(*cfg) {
            lemma_nothing_live(tree@, Registry::of(*cfg), filepath@, *cfg);
        }
    }
    match Registry::new(cfg) {
        Ok(reg) => single_pass_with(tree, &reg, filepath, cfg),
        Err(_) => Vec::new(),
    }
}

/// The citations of the bibliography at `path`; none where the tree does
/// not hold it.
pub open spec fn bibfile_facts(files: Seq<(Seq<char>, Seq<char>)>, path: Seq<char>) -> Seq<Fact> {
    match content_of(files, path) {
        Some(text) => bib_facts(text),
        None => Seq::empty(),
    }
}

/// Reads the citations of the bibliography at `filepath` in `tree`.
pub fn parse_bibfile(tree: &Sources, filepath: &str) -> (r: Vec<Completion>)
    ensures
        facts(r@) == bibfile_facts(tree@, filepath@),
{
    match tree.read(filepath) {
        Some(text) => parse_bib(text),
        None => Vec::new(),
    }
}

} // verus!
