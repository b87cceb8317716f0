use vstd::prelude::*;

use crate::element::{Block, BlockV, Inline, InlineV, blocks_view, inlines_view, lemma_inlines_view};
use crate::parse::Parser;
use crate::text::str_chars;

verus! {

/// One character escaped for HTML text: only `<` and `>` are rewritten.
pub open spec fn esc_char(c: char) -> Seq<char> {
    if c == '<' {
        "&lt;"@
    } else if c == '>' {
        "&gt;"@
    } else {
        seq![c]
    }
}

/// A text escaped for HTML, character by character.
pub open spec fn spec_escape(s: Seq<char>) -> Seq<char>
    decreases s.len(),
{
    if s.len() == 0 {
        Seq::empty()
    } else {
        spec_escape(s.drop_last()) + esc_char(s.last())
    }
}

/// Escapes `<` and `>` of a text for HTML.
pub fn html_escape(raw: &str) -> (r: String)
    ensures
        r@ == spec_escape(raw@),
{
    let v = str_chars(raw);
    let mut out = String::new();
    let mut i: usize = 0;
    let n = v.len();
    proof {
        assert(out@ =~= spec_escape(v@.take(0)));
    }
    while i < n
        invariant
            i <= n,
            n == v@.len(),
            out@ == spec_escape(v@.take(i as int)),
        decreases n - i,
    {
        proof {
            assert(v@.take(i + 1).drop_last() =~= v@.take(i as int));
            assert(v@.take(i + 1).last() == v@[i as int]);
        }
        if v[i] == '<' {
            out.append("&lt;");
        } else if v[i] == '>' {
            out.append("&gt;");
        } else {
            crate::string_push(&mut out, v[i]);
            proof {
                assert(spec_escape(v@.take(i as int)).push(v@[i as int]) =~= spec_escape(
                    v@.take(i as int),
                ) + seq![v@[i as int]]);
            }
        }
        i = i + 1;
    }
    proof {
        assert(v@.take(n as int) =~= v@);
    }
    out
}

/// The HTML fragment of one inline: a break tag, escaped text, a code
/// span, nested emphasis, or an anchor whose text is the link's name (its
/// location, for an absolute link).
pub open spec fn spec_inline_html(il: InlineV) -> Seq<char>
    decreases il,
{
    match il {
        InlineV::SoftBreak => "<br>"@,
        InlineV::Text(t) => spec_escape(t),
        InlineV::Code(c) => "<code>"@ + spec_escape(c) + "</code>"@,
        InlineV::Italic(content) => "<i>"@ + spec_inlines_html(content, 0) + "</i>"@,
        InlineV::Bold(content) => "<b>"@ + spec_inlines_html(content, 0) + "</b>"@,
        InlineV::AbsoluteLink(loc) => "<a href=\""@ + loc + "\">"@ + loc + "</a>"@,
        InlineV::ReferenceLink(name, loc) => "<a href=\""@ + loc + "\">"@ + name + "</a>"@,
        InlineV::InterLink(name, loc) => "<a href=\""@ + loc + "\">"@ + name + "</a>"@,
    }
}

/// The HTML of the inlines from position `i` on, concatenated.
pub open spec fn spec_inlines_html(content: Seq<InlineV>, i: int) -> Seq<char>
    decreases content, content.len() - i + 1,
{
    if i < 0 || i >= content.len() {
        Seq::empty()
    } else {
        spec_inline_html(content[i]) + spec_inlines_html(content, i + 1)
    }
}

/// Renders one inline to its HTML fragment.
pub fn inline_html(inline: &Inline) -> (r: String)
    ensures
        r@ == spec_inline_html(inline.view()),
    decreases inline,
{
    match inline {
        Inline::SoftBreak => String::from_str("<br>"),
        Inline::Text(t) => html_escape(t.as_str()),
        Inline::Code(c) => {
            let mut out = String::from_str("<code>");
            let e = html_escape(c.as_str());
            out.append(e.as_str());
            out.append("</code>");
            proof {
                assert(out@ =~= "<code>"@ + spec_escape(c@) + "</code>"@);
            }
            out
        },
        Inline::Italic { content } => {
            let mut out = String::from_str("<i>");
            let e = vec_inline_html(content);
            out.append(e.as_str());
            out.append("</i>");
            proof {
                assert(out@ =~= "<i>"@ + spec_inlines_html(inlines_view(content@), 0) + "</i>"@);
            }
            out
        },
        Inline::Bold { content } => {
            let mut out = String::from_str("<b>");
            let e = vec_inline_html(content);
            out.append(e.as_str());
            out.append("</b>");
            proof {
                assert(out@ =~= "<b>"@ + spec_inlines_html(inlines_view(content@), 0) + "</b>"@);
            }
            out
        },
        Inline::AbsoluteLink { location } => {
            let mut out = String::from_str("<a href=\"");
            out.append(location.as_str());
            out.append("\">");
            out.append(location.as_str());
            out.append("</a>");
            proof {
                assert(out@ =~= "<a href=\""@ + location@ + "\">"@ + location@ + "</a>"@);
            }
            out
        },
        Inline::ReferenceLink { name, location } => {
            let mut out = String::from_str("<a href=\"");
            out.append(location.as_str());
            out.append("\">");
            out.append(name.as_str());
            out.append("</a>");
            proof {
                assert(out@ =~= "<a href=\""@ + location@ + "\">"@ + name@ + "</a>"@);
            }
            out
        },
        Inline::InterLink { name, location } => {
            let mut out = String::from_str("<a href=\"");
            out.append(location.as_str());
            out.append("\">");
            out.append(name.as_str());
            out.append("</a>");
            proof {
                assert(out@ =~= "<a href=\""@ + location@ + "\">"@ + name@ + "</a>"@);
            }
            out
        },
    }
}

/// Renders a content list to the concatenation of its fragments.
pub fn vec_inline_html(vecinline: &Vec<Inline>) -> (r: String)
    ensures
        r@ == spec_inlines_html(inlines_view(vecinline@), 0),
    decreases vecinline,
{
    let ghost cv = inlines_view(vecinline@);
    let mut out = String::new();
    let mut i: usize = 0;
    let n = vecinline.len();
    proof {
        lemma_inlines_view(vecinline@);
        assert(out@ + spec_inlines_html(cv, 0) =~= spec_inlines_html(cv, 0));
    }
    while i < n
        invariant
            i <= n,
            n == vecinline@.len(),
            cv == inlines_view(vecinline@),
            cv.len() == n,
            out@ + spec_inlines_html(cv, i as int) == spec_inlines_html(cv, 0),
        decreases n - i,
    {
        proof {
            lemma_inlines_view(vecinline@);
            assert(cv[i as int] == vecinline@[i as int].view());
        }
        let ghost o0 = out@;
        let frag = inline_html(&vecinline[i]);
        out.append(frag.as_str());
        proof {
            assert((o0 + spec_inline_html(cv[i as int])) + spec_inlines_html(cv, i + 1) =~= o0 + (
            spec_inline_html(cv[i as int]) + spec_inlines_html(cv, i + 1)));
        }
        i = i + 1;
    }
    proof {
        assert(spec_inlines_html(cv, n as int) =~= Seq::<char>::empty());
        assert(out@ + Seq::<char>::empty() =~= out@);
    }
    out
}

/// A block whose fields the renderer covers: a header level between one
/// and four, as the data model states.
pub open spec fn block_wf(b: BlockV) -> bool {
    match b {
        BlockV::Header { level, .. } => 1 <= level <= 4,
        _ => true,
    }
}

/// Every block well formed.
pub open spec fn blocks_wf(bs: Seq<BlockV>) -> bool {
    forall|i: int| 0 <= i < bs.len() ==> block_wf(#[trigger] bs[i])
}

/// The opening text of a header of the given level.
pub open spec fn header_open(level: u8) -> Seq<char> {
    if level == 1 {
        "<h1>"@
    } else if level == 2 {
        "<h2>"@
    } else if level == 3 {
        "<h3>"@
    } else {
        "<h4>"@
    }
}

/// The closing text of a header of the given level.
pub open spec fn header_close(level: u8) -> Seq<char> {
    if level == 1 {
        "</h1>\n"@
    } else if level == 2 {
        "</h2>\n"@
    } else if level == 3 {
        "</h3>\n"@
    } else {
        "</h4>\n"@
    }
}

/// The HTML line of one block.
pub open spec fn spec_block_html(b: BlockV) -> Seq<char> {
    match b {
        BlockV::Header { level, content } => header_open(level) + spec_inlines_html(content, 0)
            + header_close(level),
        BlockV::Paragraph { content } => "<p>"@ + spec_inlines_html(content, 0) + "</p>\n"@,
        BlockV::CodeBlock { language: _, content } => "<pre><code>"@ + spec_escape(content)
            + "</pre></code>\n"@,
        BlockV::Image { src, alt } => "<img src=\""@ + src + "\" alt=\""@ + alt + "\"/>\n"@,
    }
}

/// Renders one block to its HTML line.
pub fn block_html(block: &Block) -> (r: String)
    requires
        block_wf(block.view()),
    ensures
        r@ == spec_block_html(block.view()),
{
    match block {
        Block::Header { level, content } => {
            let open: &str = if *level == 1 {
                "<h1>"
            } else if *level == 2 {
                "<h2>"
            } else if *level == 3 {
                "<h3>"
            } else {
                "<h4>"
            };
            let close: &str = if *level == 1 {
                "</h1>\n"
            } else if *level == 2 {
                "</h2>\n"
            } else if *level == 3 {
                "</h3>\n"
            } else {
                "</h4>\n"
            };
            let mut out = String::from_str(open);
            let e = vec_inline_html(content);
            out.append(e.as_str());
            out.append(close);
            proof {
                assert(out@ =~= header_open(*level) + spec_inlines_html(
                    inlines_view(content@),
                    0,
                ) + header_close(*level));
            }
            out
        },
        Block::Paragraph { content } => {
            let mut out = String::from_str("<p>");
            let e = vec_inline_html(content);
            out.append(e.as_str());
            out.append("</p>\n");
            proof {
                assert(out@ =~= "<p>"@ + spec_inlines_html(inlines_view(content@), 0) + "</p>\n"@);
            }
            out
        },
        Block::CodeBlock { language: _, content } => {
            let mut out = String::from_str("<pre><code>");
            let e = html_escape(content.as_str());
            out.append(e.as_str());
            out.append("</pre></code>\n");
            proof {
                assert(out@ =~= "<pre><code>"@ + spec_escape(content@) + "</pre></code>\n"@);
            }
            out
        },
        Block::Image { src, alt } => {
            let mut out = String::from_str("<img src=\"");
            out.append(src.as_str());
            out.append("\" alt=\"");
            out.append(alt.as_str());
            out.append("\"/>\n");
            proof {
                assert(out@ =~= "<img src=\""@ + src@ + "\" alt=\""@ + alt@ + "\"/>\n"@);
            }
            out
        },
    }
}

/// The HTML of the blocks from position `i` on, one line each.
pub open spec fn spec_blocks_html(bs: Seq<BlockV>, i: int) -> Seq<char>
    decreases bs.len() - i,
{
    if i < 0 || i >= bs.len() {
        Seq::empty()
    } else {
        spec_block_html(bs[i]) + spec_blocks_html(bs, i + 1)
    }
}

/// What rendering a document yields: when the first block is a top-level
/// header its content becomes the title and the body holds the remaining
/// blocks; otherwise the title is empty and the body holds them all.
pub open spec fn spec_render(bs: Seq<BlockV>) -> (Seq<char>, Seq<char>) {
    if bs.len() > 0 && bs[0] matches BlockV::Header { level: 1u8, content } {
        (spec_inlines_html(bs[0]->Header_content, 0), spec_blocks_html(bs, 1))
    } else {
        (Seq::empty(), spec_blocks_html(bs, 0))
    }
}

/// Renders a parsed document to its page title and its body fragment.
pub fn render_document(parser: &Parser) -> (r: (String, String))
    requires
        blocks_wf(parser@),
    ensures
        r.0@ == spec_render(parser@).0,
        r.1@ == spec_render(parser@).1,
{
    let ghost bv = parser@;
    let mut title = String::new();
    let mut start: usize = 0;
    if parser.blocks.len() > 0 {
        match &parser.blocks[0] {
            Block::Header { level, content } => {
                if *level == 1 {
                    proof {
                        assert(bv[0] == parser.blocks@[0].view());
                    }
                    title = vec_inline_html(content);
                    start = 1;
                }
            },
            _ => {},
        }
    }
    proof {
        if !(bv.len() > 0 && bv[0] matches BlockV::Header { level: 1u8, content }) {
            assert(start == 0);
        }
        if bv.len() > 0 {
            assert(bv[0] == parser.blocks@[0].view());
        }
    }
    let mut body = String::new();
    let mut i: usize = start;
    let n = parser.blocks.len();
    proof {
        assert(body@ + spec_blocks_html(bv, start as int) =~= spec_blocks_html(bv, start as int));
    }
    while i < n
        invariant
            start <= i <= n,
            n == parser.blocks@.len(),
            bv == parser@,
            bv.len() == n,
            blocks_wf(bv),
            body@ + spec_blocks_html(bv, i as int) == spec_blocks_html(bv, start as int),
        decreases n - i,
    {
        proof {
            assert(bv[i as int] == parser.blocks@[i as int].view());
        }
        let ghost b0 = body@;
        let frag = block_html(&parser.blocks[i]);
        body.append(frag.as_str());
        proof {
            assert((b0 + spec_block_html(bv[i as int])) + spec_blocks_html(bv, i + 1) =~= b0 + (
            spec_block_html(bv[i as int]) + spec_blocks_html(bv, i + 1)));
        }
        i = i + 1;
    }
    proof {
        assert(spec_blocks_html(bv, n as int) =~= Seq::<char>::empty());
        assert(body@ + Seq::<char>::empty() =~= body@);
    }
    (title, body)
}

} // verus!
