//! What a parsed document is made of.

use vstd::prelude::*;
use vstd::string::*;

use crate::json::{Json, JsonView};
use crate::span::Span;

verus! {

/// The kinds of addressable blocks.
#[derive(Debug, Clone, Copy, PartialEq, Eq, Structural)]
pub enum BlockKind {
    Heading,
    Paragraph,
    ListItem,
    CodeBlock,
    Table,
    ThematicBreak,
    HtmlBlock,
}

impl BlockKind {
    pub open spec fn name(self) -> Seq<char> {
        match self {
            BlockKind::Heading => "heading"@,
            BlockKind::Paragraph => "paragraph"@,
            BlockKind::ListItem => "list_item"@,
            BlockKind::CodeBlock => "code_block"@,
            BlockKind::Table => "table"@,
            BlockKind::ThematicBreak => "thematic_break"@,
            BlockKind::HtmlBlock => "html_block"@,
        }
    }

    /// Stable tag prefixed into the content hash.
    pub fn tag(&self) -> (r: &'static str)
        ensures
            r@ == self.name(),
    {
        match self {
            BlockKind::Heading => "heading",
            BlockKind::Paragraph => "paragraph",
            BlockKind::ListItem => "list_item",
            BlockKind::CodeBlock => "code_block",
            BlockKind::Table => "table",
            BlockKind::ThematicBreak => "thematic_break",
            BlockKind::HtmlBlock => "html_block",
        }
    }
}

/// The kinds of references.
#[derive(Debug, Clone, Copy, PartialEq, Eq, Structural)]
pub enum LinkKind {
    Wikilink,
    Transclusion,
    Mdlink,
    Blockref,
}

impl LinkKind {
    pub open spec fn name(self) -> Seq<char> {
        match self {
            LinkKind::Wikilink => "wikilink"@,
            LinkKind::Transclusion => "transclusion"@,
            LinkKind::Mdlink => "mdlink"@,
            LinkKind::Blockref => "blockref"@,
        }
    }

    /// The name of the kind in storage.
    pub fn tag(&self) -> (r: &'static str)
        ensures
            r@ == self.name(),
    {
        match self {
            LinkKind::Wikilink => "wikilink",
            LinkKind::Transclusion => "transclusion",
            LinkKind::Mdlink => "mdlink",
            LinkKind::Blockref => "blockref",
        }
    }
}

/// A reference found in a block.
#[derive(Debug)]
pub struct LinkRef {
    pub kind: LinkKind,
    /// Target as written, trimmed and in NFC.
    pub target: String,
    pub anchor: Option<String>,
    pub alias: Option<String>,
    /// ord of the block that the reference appears in.
    pub block: u32,
}

/// What a reference is.
pub ghost struct LinkView {
    pub kind: LinkKind,
    pub target: Seq<char>,
    pub anchor: Option<Seq<char>>,
    pub alias: Option<Seq<char>>,
    pub block: u32,
}

/// The text that an optional string holds.
pub open spec fn opt_text(o: Option<String>) -> Option<Seq<char>> {
    match o {
        Some(s) => Some(s@),
        None => None,
    }
}

impl DeepView for LinkRef {
    type V = LinkView;

    open spec fn deep_view(&self) -> LinkView {
        LinkView {
            kind: self.kind,
            target: self.target@,
            anchor: opt_text(self.anchor),
            alias: opt_text(self.alias),
            block: self.block,
        }
    }
}

/// A tag found in a block or in the frontmatter.
#[derive(Debug)]
pub struct TagRef {
    /// Tag as written.
    pub tag: String,
    /// ord of the block, or None for frontmatter tags.
    pub block: Option<u32>,
}

/// What a tag is.
pub ghost struct TagView {
    pub tag: Seq<char>,
    pub block: Option<u32>,
}

impl DeepView for TagRef {
    type V = TagView;

    open spec fn deep_view(&self) -> TagView {
        TagView { tag: self.tag@, block: self.block }
    }
}

/// A run of plain text that vault syntax is recognized in.
#[derive(Debug)]
pub enum TextUnit {
    /// Byte range into the original source.
    Range(Span),
    /// Text that has no place of its own in the source: a table cell, whose
    /// escaped pipes are resolved before its inlines are parsed.
    Literal(String),
}

/// What a text unit is.
pub ghost enum UnitView {
    Range(Span),
    Literal(Seq<char>),
}

impl DeepView for TextUnit {
    type V = UnitView;

    open spec fn deep_view(&self) -> UnitView {
        match self {
            TextUnit::Range(s) => UnitView::Range(*s),
            TextUnit::Literal(t) => UnitView::Literal(t@),
        }
    }
}

/// An addressable block.
#[derive(Debug)]
pub struct Block {
    pub ord: u32,
    pub kind: BlockKind,
    /// Index of the enclosing addressable block (list item nesting), if any.
    pub parent: Option<u32>,
    /// Text of the enclosing headings, outermost first.
    pub heading_path: Vec<String>,
    /// Byte span in the original source. Top-level blocks tile the document
    /// together with the preamble; nested blocks are sub-ranges.
    pub span: Span,
    /// Hash of kind tag, a zero byte, normalized content.
    pub content_hash: [u8; 32],
    /// The normalized content that was hashed.
    pub normalized_content: String,
    /// Opt-in `^id` marker, stripped from the content.
    pub block_ref_id: Option<String>,
    pub attrs: Json,
    /// Decoration for a new first line at this block's container nesting (for
    /// list items: without the item's own marker).
    pub line_prefix: String,
    /// Decoration for continuation lines of this block.
    pub cont_prefix: String,
    /// Bytes of decoration on the block's first source line, with the block's
    /// own item marker where it has one.
    pub first_line_strip_full: usize,
    /// The same without the block's own item marker.
    pub first_line_strip_outer: usize,
}

/// What a block is.
pub ghost struct BlockView {
    pub ord: u32,
    pub kind: BlockKind,
    pub parent: Option<u32>,
    pub heading_path: Seq<Seq<char>>,
    pub span: Span,
    pub content_hash: Seq<u8>,
    pub normalized_content: Seq<char>,
    pub block_ref_id: Option<Seq<char>>,
    pub attrs: JsonView,
    pub line_prefix: Seq<char>,
    pub cont_prefix: Seq<char>,
    pub first_line_strip_full: usize,
    pub first_line_strip_outer: usize,
}

impl DeepView for Block {
    type V = BlockView;

    open spec fn deep_view(&self) -> BlockView {
        BlockView {
            ord: self.ord,
            kind: self.kind,
            parent: self.parent,
            heading_path: self.heading_path.deep_view(),
            span: self.span,
            content_hash: self.content_hash@,
            normalized_content: self.normalized_content@,
            block_ref_id: opt_text(self.block_ref_id),
            attrs: self.attrs@,
            line_prefix: self.line_prefix@,
            cont_prefix: self.cont_prefix@,
            first_line_strip_full: self.first_line_strip_full,
            first_line_strip_outer: self.first_line_strip_outer,
        }
    }
}

/// A parsed document.
#[derive(Debug)]
pub struct Document {
    /// Frontmatter and leading trivia. May be empty.
    pub preamble: Span,
    /// `{}` when absent or invalid as frontmatter.
    pub properties: Json,
    pub pinned: bool,
    pub blocks: Vec<Block>,
    /// Spans of the top-level children, tiling the source together with the
    /// preamble.
    pub top_level: Vec<Span>,
    pub links: Vec<LinkRef>,
    pub tags: Vec<TagRef>,
}

/// What a document is.
pub ghost struct DocumentView {
    pub preamble: Span,
    pub properties: JsonView,
    pub pinned: bool,
    pub blocks: Seq<BlockView>,
    pub top_level: Seq<Span>,
    pub links: Seq<LinkView>,
    pub tags: Seq<TagView>,
}

impl DeepView for Document {
    type V = DocumentView;

    open spec fn deep_view(&self) -> DocumentView {
        DocumentView {
            preamble: self.preamble,
            properties: self.properties@,
            pinned: self.pinned,
            blocks: self.blocks.deep_view(),
            top_level: self.top_level@,
            links: self.links.deep_view(),
            tags: self.tags.deep_view(),
        }
    }
}

/// The preamble starts at 0, each span starts where the one before it ends,
/// and the last one ends at `len`.
pub open spec fn tiles(preamble: Span, spans: Seq<Span>, len: int) -> bool {
    &&& preamble.start == 0
    &&& spans.len() > 0 ==> spans[0].start == preamble.end
    &&& forall|i: int, j: int|
        0 <= i < j < spans.len() && j == i + 1 ==> (#[trigger] spans[j]).start == (
        #[trigger] spans[i]).end
    &&& (if spans.len() == 0 {
        preamble.end
    } else {
        spans.last().end
    }) == len
}

impl Document {
    /// Whether preamble and top-level spans cover the source exactly, each
    /// byte once.
    pub fn tiles_exactly(&self, source: &str) -> (r: bool)
        ensures
            r == tiles(self.preamble, self.top_level@, source.spec_bytes().len() as int),
    {
        let mut pos: usize = self.preamble.end;
        if self.preamble.start != 0 {
            return false;
        }
        let mut i: usize = 0;
        while i < self.top_level.len()
            invariant
                i <= self.top_level.len(),
                self.preamble.start == 0,
                pos == (if i == 0 {
                    self.preamble.end
                } else {
                    self.top_level@[i - 1].end
                }),
                i > 0 ==> self.top_level@[0].start == self.preamble.end,
                forall|j: int, k: int|
                    0 <= j < k < i && k == j + 1 ==> (#[trigger] self.top_level@[k]).start == (
                    #[trigger] self.top_level@[j]).end,
            decreases self.top_level.len() - i,
        {
            if self.top_level[i].start != pos {
                return false;
            }
            pos = self.top_level[i].end;
            i += 1;
        }
        pos == source.as_bytes().len()
    }
}

} // verus!
