//! The traversal of a document tree as a machine. The machine names the
//! next document to read; its user reads that document and supplies the
//! content, or reports that it cannot be read.

use crate::bib::{bib_facts, parse_bib};
use crate::completion::{facts, Completion, Fact};
use crate::patterns::Registry;
use crate::text::{same_text, texts};
use crate::resolver::{extension, get_incfilename, is_bib_path, resolved};
use crate::scanner::{outcomes, scan, scan_from, Finding, Outcome};
use crate::Config;
use vstd::prelude::*;
use vstd::string::*;

verus! {

/// A piece of pending work: a completion to hand out, or a document to
/// read, with whether it is a bibliography.
#[derive(Debug)]
pub enum Task {
    Emit(Completion),
    Read(String, bool),
}

/// The mathematical value of a [`Task`].
pub enum Job {
    Emit(Fact),
    Read(Seq<char>, bool),
}

impl View for Task {
    type V = Job;

    open spec fn view(&self) -> Job {
        match self {
            Task::Emit(c) => Job::Emit(c@),
            Task::Read(path, bib) => Job::Read(path@, *bib),
        }
    }
}

/// The work that a finding in the document at `path` stands for.
pub open spec fn job_of(path: Seq<char>, f: Outcome) -> Job {
    match f {
        Outcome::Found(fact) => Job::Emit(fact),
        Outcome::Input(name) => Job::Read(resolved(path, name, false), false),
        Outcome::Bibliography(name) => Job::Read(resolved(path, name, true), true),
    }
}

/// The work that the document at `path` stands for, given its content: the
/// citations of a bibliography, or what a scan of a LaTeX document finds. A
/// document that cannot be read stands for no work.
pub open spec fn expansion(
    reg: Registry,
    cfg: Config,
    path: Seq<char>,
    bib: bool,
    content: Option<Seq<char>>,
) -> Seq<Job> {
    match content {
        None => Seq::empty(),
        Some(text) => if bib {
            Seq::new(bib_facts(text).len(), |i: int| Job::Emit(bib_facts(text)[i]))
        } else {
            Seq::new(
                scan_from(reg, cfg, text).len(),
                |i: int| job_of(path, scan_from(reg, cfg, text)[i]),
            )
        },
    }
}

/// The content of a document as a value, if it was read.
pub open spec fn text_of(content: Option<&str>) -> Option<Seq<char>> {
    match content {
        Some(text) => Some(text@),
        None => None,
    }
}

/// The request for a document as a value.
pub open spec fn request_of(r: Option<(String, bool)>) -> Option<(Seq<char>, bool)> {
    match r {
        Some((path, bib)) => Some((path@, bib)),
        None => None,
    }
}

/// The state of a traversal: its configuration and matchers, the work
/// still to do, in order, the paths of the documents asked for so far, and
/// the completions gathered so far.
pub struct Walk {
    pub cfg: Config,
    pub reg: Registry,
    pub agenda: Seq<Job>,
    pub visited: Seq<Seq<char>>,
    pub results: Seq<Fact>,
}

impl Walk {
    /// The state of a traversal under `cfg` with the matchers `reg` that
    /// starts from the document at `path`: it is about to read it, as a
    /// bibliography or not by its extension. A bibliography is not read where
    /// `cfg` wants no citations; the traversal is then over before it begins.
    pub open spec fn at(reg: Registry, path: Seq<char>, cfg: Config) -> Walk {
        Walk {
            cfg,
            reg,
            agenda: if extension(path) == Some("bib"@) && !cfg.bib {
                Seq::empty()
            } else {
                seq![Job::Read(path, extension(path) == Some("bib"@))]
            },
            visited: Seq::empty(),
            results: Seq::empty(),
        }
    }

    /// The same state under the configuration `cfg`.
    pub open spec fn under(self, cfg: Config) -> Walk {
        Walk { cfg, ..self }
    }

    /// The state after the content of the document at `path` was supplied:
    /// the work it stands for comes before all other work.
    pub open spec fn supplied(self, path: Seq<char>, bib: bool, content: Option<Seq<char>>) -> Walk {
        Walk { agenda: expansion(self.reg, self.cfg, path, bib, content) + self.agenda, ..self }
    }

    /// The state after the completions at the head of the agenda were
    /// gathered, with the document to read next taken off the agenda, if
    /// one is left. A document that was asked for before is not read again:
    /// its job is dropped. The document handed out is noted as asked for.
    pub open spec fn drained(self) -> (Walk, Option<(Seq<char>, bool)>)
        decreases self.agenda.len(),
    {
        if self.agenda.len() == 0 {
            (self, None)
        } else {
            match self.agenda[0] {
                Job::Emit(fact) => Walk {
                    agenda: self.agenda.drop_first(),
                    results: self.results.push(fact),
                    ..self
                }.drained(),
                Job::Read(path, bib) => if self.visited.contains(path) {
                    Walk { agenda: self.agenda.drop_first(), ..self }.drained()
                } else {
                    (
                        Walk {
                            agenda: self.agenda.drop_first(),
                            visited: self.visited.push(path),
                            ..self
                        },
                        Some((path, bib)),
                    )
                },
            }
        }
    }
}

/// The jobs of a stack of tasks, from its top down.
pub open spec fn jobs(stack: Seq<Task>) -> Seq<Job> {
    Seq::new(stack.len(), |i: int| stack[stack.len() - 1 - i]@)
}

/// A traversal in progress. It reads no document twice, so that documents
/// which include each other end it instead of keeping it going.
pub struct Traversal<'a> {
    cfg: Config,
    reg: &'a Registry,
    stack: Vec<Task>,
    visited: Vec<String>,
    results: Vec<Completion>,
}

impl<'a> View for Traversal<'a> {
    type V = Walk;

    closed spec fn view(&self) -> Walk {
        Walk {
            cfg: self.cfg,
            reg: *self.reg,
            agenda: jobs(self.stack@),
            visited: texts(self.visited@),
            results: facts(self.results@),
        }
    }
}

impl<'a> Traversal<'a> {
    /// The traversal that starts from the document at `path`, read as a
    /// bibliography or not by its extension, with what it leads to under
    /// `cfg`, found with the matchers `reg`. A bibliography is not read where
    /// `cfg` wants no citations.
    pub fn start(reg: &'a Registry, path: &str, cfg: &Config) -> (r: Traversal<'a>)
        ensures
            r@ == Walk::at(*reg, path@, *cfg),
    {
        let mut stack: Vec<Task> = Vec::new();
        let bib = is_bib_path(path);
        if !bib || cfg.bib {
            stack.push(Task::Read(path.to_owned(), bib));
        }
        let t = Traversal { cfg: *cfg, reg, stack, visited: Vec::new(), results: Vec::new() };
        assert(t@.agenda == Walk::at(*reg, path@, *cfg).agenda);
        assert(t@.visited == Walk::at(*reg, path@, *cfg).visited);
        assert(t@.results == Walk::at(*reg, path@, *cfg).results);
        t
    }

    /// Whether the document at `path` was asked for before.
    fn seen(&self, path: &str) -> (r: bool)
        ensures
            r == texts(self.visited@).contains(path@),
    {
        let mut i: usize = 0;
        while i < self.visited.len()
            invariant
                i <= self.visited@.len(),
                forall|j: int| 0 <= j < i ==> texts(self.visited@)[j] != path@,
            decreases self.visited@.len() - i,
        {
            if same_text(self.visited[i].as_str(), path) {
                assert(texts(self.visited@)[i as int] == path@);
                return true;
            }
            i = i + 1;
        }
        false
    }

    /// Gathers the completions that are due and names the document to
    /// read next, with whether it is a bibliography. A document that was
    /// named before is not named again. Returns `None` when the traversal is
    /// over.
    pub fn next(&mut self) -> (r: Option<(String, bool)>)
        ensures
            (final(self)@, request_of(r)) == old(self)@.drained(),
    {
        loop
            invariant
                self@.drained() == old(self)@.drained(),
            decreases self.stack@.len(),
        {
            let ghost before = self@;
            match self.stack.pop() {
                None => {
                    assert(self@ == before);
                    return None;
                },
                Some(Task::Emit(c)) => {
                    self.results.push(c);
                    assert(self@.agenda == before.agenda.drop_first());
                    assert(self@.results == before.results.push(c@));
                },
                Some(Task::Read(path, bib)) => {
                    assert(self@.agenda == before.agenda.drop_first());
                    assert(self@.results == before.results);
                    if !self.seen(path.as_str()) {
                        self.visited.push(path.clone());
                        assert(self@.visited == before.visited.push(path@));
                        return Some((path, bib));
                    }
                },
            }
        }
    }

    /// Takes in the content of the document at `path`, or `None` where it
    /// could not be read: the work that the document stands for is put
    /// before all other work.
    pub fn supply(&mut self, path: &str, bib: bool, content: Option<&str>)
        ensures
            final(self)@ == old(self)@.supplied(path@, bib, text_of(content)),
    {
        let text = match content {
            Some(text) => text,
            None => {
                assert(self@.agenda == Seq::<Job>::empty() + self@.agenda);
                return ;
            },
        };
        let ghost start = self@;
        let ghost work = expansion(*self.reg, self.cfg, path@, bib, Some(text@));
        if bib {
            let mut items = parse_bib(text);
            assert(facts(items@).len() == items@.len());
            while items.len() > 0
                invariant
                    self.cfg == old(self).cfg,
                    self.reg == old(self).reg,
                    self.results == old(self).results,
                    self.visited == old(self).visited,
                    start == old(self)@,
                    facts(items@) == bib_facts(text@).take(items@.len() as int),
                    items@.len() <= bib_facts(text@).len(),
                    work == expansion(*self.reg, self.cfg, path@, bib, Some(text@)),
                    bib,
                    jobs(self.stack@) == work.skip(items@.len() as int) + start.agenda,
                decreases items@.len(),
            {
                let ghost before = jobs(self.stack@);
                let ghost rest = facts(items@);
                let c = items.pop().unwrap();
                assert(rest[items@.len() as int] == c@);
                assert(facts(items@) == rest.take(items@.len() as int));
                self.stack.push(Task::Emit(c));
                assert(jobs(self.stack@) == seq![Job::Emit(c@)] + before);
            }
        } else {
            let mut items = scan(self.reg, &self.cfg, text);
            assert(outcomes(items@).len() == items@.len());
            while items.len() > 0
                invariant
                    self.cfg == old(self).cfg,
                    self.reg == old(self).reg,
                    self.results == old(self).results,
                    self.visited == old(self).visited,
                    start == old(self)@,
                    outcomes(items@) == scan_from(*self.reg, self.cfg, text@).take(items@.len() as int),
                    items@.len() <= scan_from(*self.reg, self.cfg, text@).len(),
                    work == expansion(*self.reg, self.cfg, path@, bib, Some(text@)),
                    !bib,
                    jobs(self.stack@) == work.skip(items@.len() as int) + start.agenda,
                decreases items@.len(),
            {
                let ghost before = jobs(self.stack@);
                let ghost rest = outcomes(items@);
                let f = items.pop().unwrap();
                assert(rest[items@.len() as int] == f@);
                assert(outcomes(items@) == rest.take(items@.len() as int));
                let task = match f {
                    Finding::Found(c) => Task::Emit(c),
                    Finding::Input(name) => Task::Read(
                        get_incfilename(path, name.as_str(), false),
                        false,
                    ),
                    Finding::Bibliography(name) => Task::Read(
                        get_incfilename(path, name.as_str(), true),
                        true,
                    ),
                };
                assert(task@ == job_of(path@, f@));
                self.stack.push(task);
                assert(jobs(self.stack@) == seq![job_of(path@, f@)] + before);
            }
        }
        assert(work.skip(0) == work);
    }

    /// The completions gathered so far.
    pub fn into_results(self) -> (r: Vec<Completion>)
        ensures
            facts(r@) == self@.results,
    {
        self.results
    }
}

} // verus!
