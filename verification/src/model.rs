//! The data the pipeline works on, with the ghost views its contracts use.

use vstd::prelude::*;

verus! {

/// The rule used to order entries before display positions are assigned.
#[derive(Clone, Copy, PartialEq, Eq, Structural, Debug)]
pub enum SortPolicy {
    /// Most recently focused first, with the single most recent entry
    /// rotated to the end, so the currently focused window is listed last.
    FocusHistory,
    /// Most recently focused first, no rotation.
    FocusHistoryCurrentFirst,
    /// Ascending by identifier value: the number spelled by the leading
    /// digit run of the identifier text, zero when there is none.  The
    /// external window manager hands identifiers out monotonically, so
    /// this approximates creation order; that is an assumption about the
    /// source, not something proved here.
    Creation,
    /// Ascending by lower-cased title; ties keep their pre-sort order.
    Alphabetical,
}

/// One deduplicated, title-resolved window: the working unit of the
/// pipeline.  An entry never carries an empty title; blank-titled windows
/// are dropped while pairing.
#[derive(Debug)]
pub struct Entry {
    pub id: String,
    pub title: String,
}

/// Ghost view of an [`Entry`]: both fields as character sequences.
pub ghost struct EntryV {
    pub id: Seq<char>,
    pub title: Seq<char>,
}

impl DeepView for Entry {
    type V = EntryV;

    open spec fn deep_view(&self) -> EntryV {
        EntryV { id: self.id@, title: self.title@ }
    }
}

/// An [`Entry`] together with its zero-based position in the
/// policy-ordered sequence.  Positions are assigned once, before any
/// display-order reversal, so the numbering a template sees is stable
/// under the reverse flag.
#[derive(Debug)]
pub struct OrderedEntry {
    pub position: usize,
    pub id: String,
    pub title: String,
}

/// Ghost view of an [`OrderedEntry`].
pub ghost struct OrderedEntryV {
    pub position: int,
    pub id: Seq<char>,
    pub title: Seq<char>,
}

impl DeepView for OrderedEntry {
    type V = OrderedEntryV;

    open spec fn deep_view(&self) -> OrderedEntryV {
        OrderedEntryV { position: self.position as int, id: self.id@, title: self.title@ }
    }
}

/// One fully rendered menu line, still bound to the identifier it was
/// rendered from, so the picker's verbatim choice can be resolved back.
#[derive(Debug)]
pub struct RenderedLine {
    pub text: String,
    pub id: String,
}

/// Ghost view of a [`RenderedLine`].
pub ghost struct LineV {
    pub text: Seq<char>,
    pub id: Seq<char>,
}

impl DeepView for RenderedLine {
    type V = LineV;

    open spec fn deep_view(&self) -> LineV {
        LineV { text: self.text@, id: self.id@ }
    }
}

/// The fatal integration failures of one run.  Cancellation is not here:
/// a cancelled pick is a clean outcome, not an error.
#[derive(Clone, Copy, PartialEq, Eq, Structural, Debug)]
pub enum PipelineError {
    /// The title resolver returned a different number of titles than
    /// identifiers were supplied.
    ResolutionMismatch,
    /// Template expansion or the post-filter failed for some entry.
    RenderFailure,
    /// The selector returned text that matches no rendered line.
    SelectionNotFound,
}

impl PipelineError {
    /// One-line diagnostic for the error stream.
    pub fn describe(&self) -> (r: String)
        ensures
            *self is ResolutionMismatch ==> r@ == "title resolver returned a different number of titles than identifiers"@,
            *self is RenderFailure ==> r@ == "template or filter evaluation failed"@,
            *self is SelectionNotFound ==> r@ == "selector returned text that matches no rendered line"@,
    {
        match self {
            PipelineError::ResolutionMismatch => {
                "title resolver returned a different number of titles than identifiers".to_owned()
            },
            PipelineError::RenderFailure => "template or filter evaluation failed".to_owned(),
            PipelineError::SelectionNotFound => {
                "selector returned text that matches no rendered line".to_owned()
            },
        }
    }
}

/// What one run ends in: focus a window, or do nothing because the user
/// cancelled the pick.
#[derive(Debug, PartialEq, Eq)]
pub enum Action {
    Focus(String),
    Cancel,
}

} // verus!
