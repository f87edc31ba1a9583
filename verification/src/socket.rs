//! What is said of a node's sockets.

use vstd::prelude::*;

verus! {

/// Which side of a node a socket is on.
#[derive(Clone, Copy, Debug, PartialEq, Eq, Structural)]
pub enum SocketKind {
    Input,
    Output,
}

/// What a socket takes or gives.
#[derive(Debug)]
pub struct SocketDoc {
    pub ty: String,
    pub description: Option<String>,
}

/// What a [`SocketDoc`] denotes.
#[verifier::ext_equal]
pub struct DocView {
    pub ty: Seq<char>,
    pub description: Option<Seq<char>>,
}

/// What an optional text denotes.
pub open spec fn text_view(s: Option<String>) -> Option<Seq<char>> {
    match s {
        Some(t) => Some(t@),
        None => None,
    }
}

/// What an optional doc denotes.
pub open spec fn doc_view(d: Option<SocketDoc>) -> Option<DocView> {
    match d {
        Some(d) => Some(d@),
        None => None,
    }
}

/// What a list of docs denotes.
pub open spec fn doc_views(s: Seq<SocketDoc>) -> Seq<DocView> {
    s.map_values(|d: SocketDoc| d@)
}

/// What a list of optional docs denotes.
pub open spec fn optional_doc_views(s: Seq<Option<SocketDoc>>) -> Seq<Option<DocView>> {
    s.map_values(|d: Option<SocketDoc>| doc_view(d))
}

impl View for SocketDoc {
    type V = DocView;

    open spec fn view(&self) -> DocView {
        DocView { ty: self.ty@, description: text_view(self.description) }
    }
}

/// A copy of an optional text.
pub fn dup_text(s: &Option<String>) -> (r: Option<String>)
    ensures
        text_view(r) == text_view(*s),
{
    match s {
        Some(t) => Some(t.clone()),
        None => None,
    }
}

impl SocketDoc {
    /// A socket of the given type, undescribed.
    pub fn ty(ty: &str) -> (r: Self)
        ensures
            r@ == (DocView { ty: ty@, description: None }),
    {
        SocketDoc { ty: String::from_str(ty), description: None }
    }

    /// The same, described.
    pub fn with_description(self, description: String) -> (r: Self)
        ensures
            r@ == (DocView { description: Some(description@), ..self@ }),
    {
        SocketDoc { ty: self.ty, description: Some(description) }
    }

    /// The same doc.
    pub fn dup(&self) -> (r: Self)
        ensures
            r@ == self@,
    {
        SocketDoc { ty: self.ty.clone(), description: dup_text(&self.description) }
    }
}

} // verus!
