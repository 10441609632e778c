//! The files of a dump and the order in which they are read.

use vstd::prelude::*;

verus! {

/// The files that hold the data, by their paths.
#[derive(Debug)]
pub struct PbfSource {
    pub paths: Vec<String>,
}

/// What the reader of the files has seen last.
#[derive(Debug, Clone, Copy, PartialEq, Eq, Structural)]
pub enum ReadEvent {
    /// Nothing yet: reading starts.
    Start,
    /// The file asked for was opened.
    Opened,
    /// A blob was read from the open file.
    Blob,
    /// The open file has no further blob.
    EndOfFile,
}

/// What the reader of the files does next.
#[derive(Debug, PartialEq, Eq)]
pub enum ReadAction {
    /// Open the file of this path.
    Open(String),
    /// Read the next blob of the open file.
    Read,
    /// Stop: every file was read.
    Finish,
}

/// What to do next as a mathematical value.
pub enum ReadActionView {
    Open(Seq<char>),
    Read,
    Finish,
}

impl View for ReadAction {
    type V = ReadActionView;

    open spec fn view(&self) -> ReadActionView {
        match *self {
            ReadAction::Open(path) => ReadActionView::Open(path@),
            ReadAction::Read => ReadActionView::Read,
            ReadAction::Finish => ReadActionView::Finish,
        }
    }
}

/// The paths as mathematical values.
pub open spec fn paths_view(paths: Seq<String>) -> Seq<Seq<char>> {
    paths.map_values(|path: String| path@)
}

impl PbfSource {
    /// The files of the given paths.
    pub fn new(paths: Vec<String>) -> (r: Self)
        ensures
            r.paths == paths,
    {
        PbfSource { paths }
    }

    /// The walk through all files, which starts with the last path.
    pub fn all(&self) -> (r: All)
        ensures
            paths_view(r.remain_paths@) == paths_view(self.paths@),
    {
        let mut remain_paths: Vec<String> = Vec::new();
        let mut i: usize = 0;
        while i < self.paths.len()
            invariant
                i <= self.paths@.len(),
                remain_paths@.len() == i,
                forall|j: int| 0 <= j < i ==> remain_paths@[j]@ == self.paths@[j]@,
            decreases self.paths@.len() - i,
        {
            remain_paths.push(self.paths[i].clone());
            i = i + 1;
        }
        assert(paths_view(remain_paths@) =~= paths_view(self.paths@));
        All { remain_paths }
    }
}

/// A walk through the files of a dump: the paths of the files that are
/// still to be opened. The file that is open is the reader's.
#[derive(Debug)]
pub struct All {
    pub remain_paths: Vec<String>,
}

impl All {
    /// What the reader does next, given what it has seen last. From an
    /// open file it reads on. At the start, and when a file has ended, it
    /// opens the last of the remaining paths, which is then no longer
    /// remaining, or finishes when none remains.
    pub fn next(&mut self, event: ReadEvent) -> (action: ReadAction)
        ensures
            match event {
                ReadEvent::Opened | ReadEvent::Blob => action@ == ReadActionView::Read
                    && final(self).remain_paths@ == old(self).remain_paths@,
                ReadEvent::Start | ReadEvent::EndOfFile => if old(self).remain_paths@.len() > 0 {
                    action@ == ReadActionView::Open(old(self).remain_paths@.last()@)
                        && final(self).remain_paths@ == old(self).remain_paths@.drop_last()
                } else {
                    action@ == ReadActionView::Finish && final(self).remain_paths@
                        == old(self).remain_paths@
                },
            },
    {
        match event {
            ReadEvent::Opened | ReadEvent::Blob => ReadAction::Read,
            ReadEvent::Start | ReadEvent::EndOfFile => match self.remain_paths.pop() {
                Some(path) => ReadAction::Open(path),
                None => ReadAction::Finish,
            },
        }
    }
}

} // verus!
