//! A document tree held in memory: the documents that an extraction may
//! read, each under its path.

use crate::resolver::{extension, has_extension};
use crate::text::{occurs_at, same_text, texts, to_chars};
use vstd::prelude::*;
use vstd::string::*;

verus! {

/// A document: its path and its content.
#[derive(Debug, Clone)]
pub struct SourceFile {
    pub path: String,
    pub content: String,
}

/// The content of the first document of `files` whose path is `path`.
pub open spec fn content_of(files: Seq<(Seq<char>, Seq<char>)>, path: Seq<char>) -> Option<
    Seq<char>,
>
    decreases files.len(),
{
    if files.len() == 0 {
        None
    } else if files[0].0 == path {
        Some(files[0].1)
    } else {
        content_of(files.drop_first(), path)
    }
}

/// Whether the document at `path` lies in the directory `dir` or in one
/// below it. Every document lies in the directory with the empty name.
pub open spec fn is_under(dir: Seq<char>, path: Seq<char>) -> bool {
    &&& dir.len() < path.len()
    &&& path.take(dir.len() as int) == dir
    &&& (dir.len() == 0 || dir.last() == '/' || path[dir.len() as int] == '/')
}

/// The paths of the documents of `files` that lie under `dir` and have the
/// extension `ext`, in the order of `files`.
pub open spec fn discovered(
    files: Seq<(Seq<char>, Seq<char>)>,
    dir: Seq<char>,
    ext: Seq<char>,
) -> Seq<Seq<char>>
    decreases files.len(),
{
    if files.len() == 0 {
        Seq::empty()
    } else {
        discovered(files.drop_last(), dir, ext) + if is_under(dir, files.last().0) && extension(
            files.last().0,
        ) == Some(ext) {
            seq![files.last().0]
        } else {
            Seq::empty()
        }
    }
}

/// The documents of `v` as pairs of path and content.
pub open spec fn file_views(v: Seq<SourceFile>) -> Seq<(Seq<char>, Seq<char>)> {
    Seq::new(v.len(), |i: int| (v[i].path@, v[i].content@))
}

/// A document tree.
#[derive(Debug, Clone)]
pub struct Sources {
    files: Vec<SourceFile>,
}

impl View for Sources {
    type V = Seq<(Seq<char>, Seq<char>)>;

    closed spec fn view(&self) -> Seq<(Seq<char>, Seq<char>)> {
        file_views(self.files@)
    }
}

/// Whether `dir` is a proper start of `path` that ends where a part of
/// `path` ends.
fn lies_under(dir: &str, path: &str) -> (r: bool)
    ensures
        r == is_under(dir@, path@),
{
    let d = to_chars(dir);
    let p = to_chars(path);
    if d.len() >= p.len() {
        return false;
    }
    assert(p@.subrange(0, d@.len() as int) == p@.take(d@.len() as int));
    if !occurs_at(&p, 0, &d) {
        return false;
    }
    d.len() == 0 || d[d.len() - 1] == '/' || p[d.len()] == '/'
}

impl Sources {
    /// The empty tree.
    pub fn new() -> (r: Sources)
        ensures
            r@.len() == 0,
    {
        Sources { files: Vec::new() }
    }

    /// Adds a document after those that the tree holds.
    pub fn insert(&mut self, path: &str, content: &str)
        ensures
            final(self)@ == old(self)@.push((path@, content@)),
    {
        self.files.push(SourceFile { path: path.to_owned(), content: content.to_owned() });
    }

    /// The content of the document at `path`, if the tree holds one.
    pub fn read(&self, path: &str) -> (r: Option<&str>)
        ensures
            match r {
                Some(text) => content_of(self@, path@) == Some(text@),
                None => content_of(self@, path@) is None,
            },
    {
        let mut i: usize = 0;
        assert(self@.skip(0) == self@);
        while i < self.files.len()
            invariant
                i <= self.files@.len(),
                content_of(self@, path@) == content_of(self@.skip(i as int), path@),
            decreases self.files@.len() - i,
        {
            if same_text(self.files[i].path.as_str(), path) {
                return Some(self.files[i].content.as_str());
            }
            assert(self@.skip(i as int).drop_first() == self@.skip(i + 1));
            i = i + 1;
        }
        None
    }

    /// Whether the tree holds a document at `path`.
    pub fn is_file(&self, path: &str) -> (r: bool)
        ensures
            r == content_of(self@, path@).is_some(),
    {
        self.read(path).is_some()
    }

    /// Whether `path` names a directory of the tree: whether a document
    /// lies under it.
    pub fn is_dir(&self, path: &str) -> (r: bool)
        ensures
            r == exists|i: int| 0 <= i < self@.len() && is_under(path@, #[trigger] self@[i].0),
    {
        let mut i: usize = 0;
        while i < self.files.len()
            invariant
                i <= self.files@.len(),
                forall|j: int| 0 <= j < i ==> !is_under(path@, #[trigger] self@[j].0),
            decreases self.files@.len() - i,
        {
            if lies_under(path, self.files[i].path.as_str()) {
                assert(is_under(path@, self@[i as int].0));
                return true;
            }
            i = i + 1;
        }
        false
    }

    /// The paths of the documents under `dir` with the extension `ext`, in
    /// the order in which the tree holds them.
    pub fn discover(&self, dir: &str, ext: &str) -> (r: Vec<String>)
        ensures
            texts(r@) == discovered(self@, dir@, ext@),
    {
        let mut out: Vec<String> = Vec::new();
        let mut i: usize = 0;
        assert(self@.take(0) == Seq::<(Seq<char>, Seq<char>)>::empty());
        while i < self.files.len()
            invariant
                i <= self.files@.len(),
                texts(out@) == discovered(self@.take(i as int), dir@, ext@),
            decreases self.files@.len() - i,
        {
            let path = self.files[i].path.as_str();
            let ghost before = texts(out@);
            assert(self@.take(i + 1).drop_last() == self@.take(i as int));
            assert(self@.take(i + 1).last().0 == path@);
            if lies_under(dir, path) && has_extension(path, ext) {
                out.push(path.to_owned());
                assert(texts(out@) == before + seq![path@]);
            }
            i = i + 1;
        }
        assert(self@.take(i as int) == self@);
        out
    }
}

} // verus!
