//! The per-entry mirroring decision: for each entry of the source tree
//! walk, what the deployment does at the mirrored destination path. The
//! walk itself, and the file operations, are the surrounding binary's
//! work; the decision is made here from the entry's relative path and
//! kind alone.
use vstd::prelude::*;
use crate::bytes::{copy_range, ends_with, spec_ends_with};

verus! {

/// The file-name suffix that marks a template, `.tielpmet`.
pub open spec fn spec_suffix() -> Seq<u8> {
    seq![46u8, 116u8, 105u8, 101u8, 108u8, 112u8, 109u8, 101u8, 116u8]
}

/// The file-name suffix that marks a template, `.tielpmet`.
pub fn template_suffix() -> (v: Vec<u8>)
    ensures
        v@ == spec_suffix(),
{
    let mut v: Vec<u8> = Vec::new();
    v.push(46);
    v.push(116);
    v.push(105);
    v.push(101);
    v.push(108);
    v.push(112);
    v.push(109);
    v.push(101);
    v.push(116);
    assert(v@ =~= spec_suffix());
    v
}

/// What kind of entry the walk reported.
#[derive(Clone, Copy)]
pub enum EntryKind {
    /// A directory.
    Directory,
    /// A regular file.
    File,
    /// Anything else: a symbolic link or special file, never traversed
    /// nor copied.
    Other,
}

/// What the deployment does for one walked entry, with the destination
/// path relative to the destination root.
pub enum Action {
    /// Ensure the directory exists at the mirrored relative path.
    MakeDir(Vec<u8>),
    /// Byte-copy the source file to the mirrored relative path,
    /// overwriting what is there.
    CopyFile(Vec<u8>),
    /// Parse the source file as a template, resolve its variables, and
    /// render it to the mirrored relative path with the suffix stripped.
    RenderTemplate(Vec<u8>),
    /// Do nothing: the walk's root entry, or an entry that is neither a
    /// directory nor a regular file.
    Skip,
}

/// Decides what to do for one walked entry. The root entry (empty
/// relative path) and special entries are skipped; a directory is
/// mirrored; a file whose name carries the template suffix is rendered to
/// the path with the suffix stripped, and only such files are; every
/// other file is copied as it is.
pub fn plan_entry(rel: &Vec<u8>, kind: EntryKind) -> (a: Action)
    ensures
        rel@.len() == 0 ==> a is Skip,
        rel@.len() > 0 && kind is Directory ==> (a matches Action::MakeDir(d) && d@ == rel@),
        rel@.len() > 0 && kind is File && spec_ends_with(rel@, spec_suffix()) ==> (
        a matches Action::RenderTemplate(d) && d@ + spec_suffix() == rel@ && d@ == rel@.subrange(
            0,
            rel@.len() - spec_suffix().len(),
        )),
        rel@.len() > 0 && kind is File && !spec_ends_with(rel@, spec_suffix()) ==> (
        a matches Action::CopyFile(d) && d@ == rel@),
        kind is Other ==> a is Skip,
        a is Skip <==> (rel@.len() == 0 || kind is Other),
{
    if rel.len() == 0 {
        return Action::Skip;
    }
    match kind {
        EntryKind::Directory => Action::MakeDir(crate::vars::copy_bytes(rel)),
        EntryKind::File => {
            let suffix = template_suffix();
            if ends_with(rel, &suffix) {
                let stripped = copy_range(rel, 0, rel.len() - suffix.len());
                assert(stripped@ + spec_suffix() =~= rel@);
                Action::RenderTemplate(stripped)
            } else {
                Action::CopyFile(crate::vars::copy_bytes(rel))
            }
        },
        EntryKind::Other => Action::Skip,
    }
}

/// A rendered destination path never retains the template suffix, unless
/// the source name carried the suffix twice over.
pub proof fn lemma_stripped_keeps_no_suffix(rel: Seq<u8>)
    requires
        spec_ends_with(rel, spec_suffix()),
        !spec_ends_with(rel, spec_suffix() + spec_suffix()),
    ensures
        !spec_ends_with(rel.subrange(0, rel.len() - spec_suffix().len()), spec_suffix()),
{
    let s = spec_suffix();
    let d = rel.subrange(0, rel.len() - s.len());
    if spec_ends_with(d, s) {
        assert(rel.subrange(rel.len() - 2 * s.len(), rel.len() as int) =~= s + s) by {
            assert(forall|q: int|
                0 <= q < s.len() ==> d.subrange(d.len() - s.len(), d.len() as int)[q] == s[q]);
            assert(forall|q: int|
                0 <= q < s.len() ==> rel.subrange(rel.len() - s.len(), rel.len() as int)[q]
                    == s[q]);
        }
    }
}

} // verus!
