//! The entries of the merged file system of an image.

use vstd::prelude::*;

verus! {

/// What a stat of an entry reports: a directory, a regular file of a given
/// length, or an entry of another kind (a link, a device, a fifo).
#[derive(Clone, Copy, Debug, PartialEq, Eq, Structural)]
pub enum EntryMetadata {
    Dir,
    File { content_length: u64 },
    Unknown,
}

/// A link recorded in a layer: its target as the layer wrote it.
#[derive(Debug)]
pub enum ContainerLink {
    Symbolic(String),
    Hard(String),
}

/// The model of a link.
pub enum LinkView {
    Symbolic(Seq<char>),
    Hard(Seq<char>),
}

impl View for ContainerLink {
    type V = LinkView;

    open spec fn view(&self) -> LinkView {
        match self {
            ContainerLink::Symbolic(t) => LinkView::Symbolic(t@),
            ContainerLink::Hard(t) => LinkView::Hard(t@),
        }
    }
}

impl ContainerLink {
    /// A copy of the link.
    pub fn duplicate(&self) -> (r: Self)
        ensures
            r@ == self@,
    {
        match self {
            ContainerLink::Symbolic(t) => ContainerLink::Symbolic(t.clone()),
            ContainerLink::Hard(t) => ContainerLink::Hard(t.clone()),
        }
    }
}

/// An entry of the merged file system.
#[derive(Debug)]
pub struct ContainerEntry {
    pub metadata: EntryMetadata,
    pub content: Option<Vec<u8>>,
    pub link: Option<ContainerLink>,
}

/// The model of an entry.
pub struct EntryView {
    pub metadata: EntryMetadata,
    pub content: Option<Seq<u8>>,
    pub link: Option<LinkView>,
}

impl View for ContainerEntry {
    type V = EntryView;

    open spec fn view(&self) -> EntryView {
        EntryView {
            metadata: self.metadata,
            content: match self.content {
                Some(c) => Some(c@),
                None => None,
            },
            link: match self.link {
                Some(l) => Some(l@),
                None => None,
            },
        }
    }
}

/// The model of a directory entry.
pub open spec fn dir_view() -> EntryView {
    EntryView { metadata: EntryMetadata::Dir, content: None, link: None }
}

/// The model of a regular file holding `content`.
pub open spec fn file_view(content: Seq<u8>) -> EntryView {
    EntryView {
        metadata: EntryMetadata::File { content_length: content.len() as u64 },
        content: Some(content),
        link: None,
    }
}

/// The model of an entry of another kind, with the link it may carry.
pub open spec fn other_view(link: Option<LinkView>) -> EntryView {
    EntryView { metadata: EntryMetadata::Unknown, content: None, link }
}

/// The model entry is a hard link.
pub open spec fn is_hard_link(e: EntryView) -> bool {
    e.link matches Some(LinkView::Hard(_))
}

impl ContainerEntry {
    /// A directory entry.
    pub fn dir() -> (r: Self)
        ensures
            r@ == dir_view(),
    {
        ContainerEntry { metadata: EntryMetadata::Dir, content: None, link: None }
    }

    /// A regular file entry holding `content`.
    pub fn file(content: Vec<u8>) -> (r: Self)
        requires
            content.len() <= u64::MAX,
        ensures
            r@ == file_view(content@),
    {
        let len = content.len() as u64;
        ContainerEntry {
            metadata: EntryMetadata::File { content_length: len },
            content: Some(content),
            link: None,
        }
    }

    /// An entry of another kind, with the link it may carry.
    pub fn other(link: Option<ContainerLink>) -> (r: Self)
        ensures
            r@ == other_view(
                match link {
                    Some(l) => Some(l@),
                    None => None,
                },
            ),
    {
        ContainerEntry { metadata: EntryMetadata::Unknown, content: None, link }
    }

    /// A copy of the entry.
    pub fn duplicate(&self) -> (r: Self)
        ensures
            r@ == self@,
    {
        let content = match &self.content {
            Some(c) => {
                let mut v: Vec<u8> = Vec::new();
                let mut i: usize = 0;
                while i < c.len()
                    invariant
                        i <= c.len(),
                        v@ == c@.take(i as int),
                    decreases c.len() - i,
                {
                    v.push(c[i]);
                    i = i + 1;
                    assert(v@ =~= c@.take(i as int));
                }
                assert(c@.take(c.len() as int) =~= c@);
                Some(v)
            },
            None => None,
        };
        let link = match &self.link {
            Some(l) => Some(l.duplicate()),
            None => None,
        };
        ContainerEntry { metadata: self.metadata, content, link }
    }

    /// Whether the entry is a hard link.
    pub fn is_hard_link(&self) -> (b: bool)
        ensures
            b == is_hard_link(self@),
    {
        match &self.link {
            Some(ContainerLink::Hard(_)) => true,
            _ => false,
        }
    }
}

} // verus!
