//! Panes that the application supplies.

use crate::head::Head;
use vstd::prelude::*;
use vstd::string::*;

verus! {

/// What a pane is told of the focused head.
#[derive(Debug)]
#[non_exhaustive]
pub struct ExtPaneCtx<'a> {
    /// The focused head, if any.
    pub focused: Option<&'a Head>,
    /// Its selected nodes, ascending.
    pub selection: &'a Vec<usize>,
}

/// A pane that the application supplies. Its tile is kept by its key, whether or not the
/// pane is supplied.
pub trait ExtPane {
    /// What the pane is kept by, from one session to the next.
    open spec fn pane_key(&self) -> Seq<char> {
        arbitrary()
    }

    /// The label of its tab.
    open spec fn pane_title(&self) -> Seq<char> {
        arbitrary()
    }

    /// What hovering over its checkbox says.
    open spec fn pane_description(&self) -> Seq<char> {
        arbitrary()
    }

    fn key(&self) -> (r: String)
        ensures
            r@ == self.pane_key(),
    ;

    fn title(&self) -> (r: String)
        ensures
            r@ == self.pane_title(),
    ;

    fn description(&self) -> (r: String)
        ensures
            r@ == self.pane_description(),
    ;
}

/// The identity and labels of a supplied pane.
#[derive(Clone, Debug)]
pub struct ExtPaneEntry {
    pub key: String,
    pub title: String,
    pub description: String,
}

/// What an [`ExtPaneEntry`] denotes.
#[verifier::ext_equal]
pub struct EntryView {
    pub key: Seq<char>,
    pub title: Seq<char>,
    pub description: Seq<char>,
}

impl View for ExtPaneEntry {
    type V = EntryView;

    open spec fn view(&self) -> EntryView {
        EntryView { key: self.key@, title: self.title@, description: self.description@ }
    }
}

/// The entry of a pane.
pub fn entry<P: ExtPane>(pane: &P) -> (r: ExtPaneEntry)
    ensures
        r@ == (EntryView {
            key: pane.pane_key(),
            title: pane.pane_title(),
            description: pane.pane_description(),
        }),
{
    ExtPaneEntry { key: pane.key(), title: pane.title(), description: pane.description() }
}

} // verus!
