use vstd::prelude::*;

verus! {

/// A span-level unit inside a block: plain text, emphasis, a code span,
/// a soft line break, or one of the three link kinds of the dialect.
#[derive(Debug, PartialEq)]
pub enum Inline {
    SoftBreak,
    Text(String),
    Code(String),
    Italic { content: Vec<Inline> },
    Bold { content: Vec<Inline> },
    AbsoluteLink { location: String },
    ReferenceLink { name: String, location: String },
    InterLink { name: String, location: String },
}

/// The mathematical shape of an `Inline`: every text field is a sequence of
/// characters and nesting is a sequence of shapes.
pub enum InlineV {
    SoftBreak,
    Text(Seq<char>),
    Code(Seq<char>),
    Italic(Seq<InlineV>),
    Bold(Seq<InlineV>),
    AbsoluteLink(Seq<char>),
    ReferenceLink(Seq<char>, Seq<char>),
    InterLink(Seq<char>, Seq<char>),
}

impl Inline {
    pub open spec fn view(&self) -> InlineV
        decreases self,
    {
        match self {
            Inline::SoftBreak => InlineV::SoftBreak,
            Inline::Text(t) => InlineV::Text(t@),
            Inline::Code(t) => InlineV::Code(t@),
            Inline::Italic { content } => InlineV::Italic(inlines_view(content@)),
            Inline::Bold { content } => InlineV::Bold(inlines_view(content@)),
            Inline::AbsoluteLink { location } => InlineV::AbsoluteLink(location@),
            Inline::ReferenceLink { name, location } => InlineV::ReferenceLink(name@, location@),
            Inline::InterLink { name, location } => InlineV::InterLink(name@, location@),
        }
    }
}

/// The shape of a sequence of inlines, element by element.
pub open spec fn inlines_view(v: Seq<Inline>) -> Seq<InlineV>
    decreases v,
{
    if v.len() == 0 {
        Seq::empty()
    } else {
        inlines_view(v.subrange(0, v.len() - 1)).push(v[v.len() - 1].view())
    }
}

/// `inlines_view` reads each element through `Inline::view`.
pub proof fn lemma_inlines_view(v: Seq<Inline>)
    ensures
        inlines_view(v).len() == v.len(),
        forall|i: int| 0 <= i < v.len() ==> inlines_view(v)[i] == #[trigger] v[i].view(),
    decreases v.len(),
{
    if v.len() > 0 {
        lemma_inlines_view(v.subrange(0, v.len() - 1));
        assert forall|i: int| 0 <= i < v.len() implies inlines_view(v)[i] == #[trigger] v[i].view() by {
            if i < v.len() - 1 {
                assert(v.subrange(0, v.len() - 1)[i] == v[i]);
            }
        }
    }
}

/// A top-level structural unit of a document.
#[derive(Debug, PartialEq)]
pub enum Block {
    Header { level: u8, content: Vec<Inline> },
    Paragraph { content: Vec<Inline> },
    CodeBlock { language: String, content: String },
    Image { src: String, alt: String },
}

/// The mathematical shape of a `Block`.
pub enum BlockV {
    Header { level: u8, content: Seq<InlineV> },
    Paragraph { content: Seq<InlineV> },
    CodeBlock { language: Seq<char>, content: Seq<char> },
    Image { src: Seq<char>, alt: Seq<char> },
}

impl Block {
    pub open spec fn view(&self) -> BlockV {
        match self {
            Block::Header { level, content } => BlockV::Header {
                level: *level,
                content: inlines_view(content@),
            },
            Block::Paragraph { content } => BlockV::Paragraph { content: inlines_view(content@) },
            Block::CodeBlock { language, content } => BlockV::CodeBlock {
                language: language@,
                content: content@,
            },
            Block::Image { src, alt } => BlockV::Image { src: src@, alt: alt@ },
        }
    }
}

/// The shape of a sequence of blocks.
pub open spec fn blocks_view(v: Seq<Block>) -> Seq<BlockV> {
    Seq::new(v.len(), |i: int| v[i].view())
}

} // verus!
