//! What a map builder asks of the world, and what the world may answer.
//!
//! The builder never touches a disk. It hands its driver one [`Request`] at
//! a time and is told the outcome as an [`Answer`].

use crate::text::views;
use vstd::prelude::*;

verus! {

/// What a path turned out to be on disk.
#[derive(Clone, Copy, Debug, PartialEq, Eq, Structural)]
pub enum PathKind {
    Directory,
    File,
    /// Neither a directory nor a regular file, or nothing at all.
    Other,
}

/// One thing the driver is asked to find out.
#[derive(Debug)]
pub enum Request {
    /// The canonical absolute form of a path, symbolic links resolved.
    Canonicalize(String),
    /// Whether a path is a directory or a regular file.
    Classify(String),
    /// Every regular file below a directory, at any depth. Entries that
    /// cannot be read are left out.
    ListFiles(String),
    /// The bytes of a file.
    Read(String),
    /// Whether anything exists at a path.
    Exists(String),
    /// Nothing: the builder has finished.
    Finished,
}

/// What the driver found out.
#[derive(Debug)]
pub enum Answer {
    /// To [`Request::Canonicalize`]: the canonical path, or `None` when the
    /// path does not resolve.
    Canonical(Option<String>),
    /// To [`Request::Classify`].
    Kind(PathKind),
    /// To [`Request::ListFiles`].
    Files(Vec<String>),
    /// To [`Request::Read`]: the bytes, or `None` when the file cannot be read.
    Content(Option<Vec<u8>>),
    /// To [`Request::Exists`].
    Exists(bool),
}

/// Mathematical form of a [`Request`].
pub enum RequestView {
    Canonicalize(Seq<char>),
    Classify(Seq<char>),
    ListFiles(Seq<char>),
    Read(Seq<char>),
    Exists(Seq<char>),
    Finished,
}

/// Mathematical form of an [`Answer`].
pub enum AnswerView {
    Canonical(Option<Seq<char>>),
    Kind(PathKind),
    Files(Seq<Seq<char>>),
    Content(Option<Seq<u8>>),
    Exists(bool),
}

impl View for Request {
    type V = RequestView;

    open spec fn view(&self) -> RequestView {
        match self {
            Request::Canonicalize(p) => RequestView::Canonicalize(p@),
            Request::Classify(p) => RequestView::Classify(p@),
            Request::ListFiles(p) => RequestView::ListFiles(p@),
            Request::Read(p) => RequestView::Read(p@),
            Request::Exists(p) => RequestView::Exists(p@),
            Request::Finished => RequestView::Finished,
        }
    }
}

impl View for Answer {
    type V = AnswerView;

    open spec fn view(&self) -> AnswerView {
        match self {
            Answer::Canonical(Some(p)) => AnswerView::Canonical(Some(p@)),
            Answer::Canonical(None) => AnswerView::Canonical(None),
            Answer::Kind(k) => AnswerView::Kind(*k),
            Answer::Files(files) => AnswerView::Files(views(files@)),
            Answer::Content(Some(bytes)) => AnswerView::Content(Some(bytes@)),
            Answer::Content(None) => AnswerView::Content(None),
            Answer::Exists(b) => AnswerView::Exists(*b),
        }
    }
}

} // verus!
