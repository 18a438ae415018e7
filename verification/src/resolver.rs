//! Paths of the documents that a command names, relative to the document
//! that holds the command. Paths are texts with `/` between their parts.

use crate::text::{
    lemma_trail_last, same_text, slice_chars, strip_end, trail_len, trailing_run, trim,
    trim_end_by, trimmed, CharSet,
};
use vstd::prelude::*;
use vstd::string::*;

verus! {

/// The directory part of `path`: everything up to and with its last `/`.
pub open spec fn dir_part(path: Seq<char>) -> Seq<char> {
    strip_end(path, CharSet::Except('/'))
}

/// The file part of `path`: what follows its last `/`.
pub open spec fn file_part(path: Seq<char>) -> Seq<char> {
    path.skip(path.len() - trail_len(path, CharSet::Except('/')))
}

/// The extension of `path`: what follows the last `.` of its file part.
/// A file part without a `.`, or with one at its start only, has none.
pub open spec fn extension(path: Seq<char>) -> Option<Seq<char>> {
    let file = file_part(path);
    let ext = trail_len(file, CharSet::Except('.'));
    if ext + 1 < file.len() {
        Some(file.skip(file.len() - ext))
    } else {
        None
    }
}

/// `path` without its extension and the `.` before it.
pub open spec fn stem(path: Seq<char>) -> Seq<char> {
    match extension(path) {
        Some(ext) => path.take(path.len() - ext.len() - 1),
        None => path,
    }
}

/// The path of the document that a command in the document at `path`
/// names with `lbl`: the name without the white space around it, in the
/// directory of `path` unless the name starts with `/`, with its extension
/// replaced by `bib` for a bibliography and by `tex` otherwise.
pub open spec fn resolved(path: Seq<char>, lbl: Seq<char>, bib: bool) -> Seq<char> {
    let name = trimmed(lbl);
    let base = if name.len() > 0 && name[0] == '/' {
        Seq::empty()
    } else {
        dir_part(path)
    };
    base + stem(name) + if bib {
        ".bib"@
    } else {
        ".tex"@
    }
}

/// Length in characters of the extension of `path` with its `.`, or 0.
fn extension_len(path: &str) -> (r: usize)
    ensures
        match extension(path@) {
            Some(ext) => r == ext.len() + 1,
            None => r == 0,
        },
        r <= path@.len(),
{
    let file = trailing_run(path, &CharSet::Except('/'));
    let ext = trailing_run(file, &CharSet::Except('.'));
    let file_len: usize = file.unicode_len();
    let ext_len: usize = ext.unicode_len();
    proof {
        lemma_trail_last(path@, CharSet::Except('/'));
        lemma_trail_last(file@, CharSet::Except('.'));
    }
    if ext_len < file_len && ext_len + 1 < file_len {
        ext_len + 1
    } else {
        0
    }
}

/// Whether the extension of `path` is `ext`.
pub fn has_extension(path: &str, ext: &str) -> (r: bool)
    ensures
        r == (extension(path@) == Some(ext@)),
{
    let with_dot: usize = extension_len(path);
    if with_dot == 0 {
        false
    } else {
        let len: usize = path.unicode_len();
        proof {
            lemma_trail_last(path@, CharSet::Except('/'));
        }
        let found = slice_chars(path, len - with_dot + 1, len);
        assert(found@ == extension(path@).unwrap()) by {
            let file = file_part(path@);
            assert(file.skip(file.len() - (with_dot - 1)) == path@.subrange(
                len - with_dot + 1,
                len as int,
            ));
        }
        same_text(found, ext)
    }
}

/// Whether `path` names a bibliography: whether its extension is `bib`.
pub fn is_bib_path(path: &str) -> (r: bool)
    ensures
        r == (extension(path@) == Some("bib"@)),
{
    has_extension(path, "bib")
}

/// Resolves the name `lbl`, given by a command in the document at `path`,
/// to the path of the document it stands for.
pub fn get_incfilename(path: &str, lbl: &str, bib: bool) -> (r: String)
    ensures
        r@ == resolved(path@, lbl@, bib),
{
    let name = trim(lbl);
    let name_len: usize = name.unicode_len();
    let mut out: String = if name_len > 0 && name.get_char(0) == '/' {
        String::new()
    } else {
        trim_end_by(path, &CharSet::Except('/')).to_owned()
    };
    let with_dot: usize = extension_len(name);
    out.append(slice_chars(name, 0, name_len - with_dot));
    assert(name@.subrange(0, name_len - with_dot) == stem(name@));
    if bib {
        out.append(".bib");
    } else {
        out.append(".tex");
    }
    out
}

} // verus!
