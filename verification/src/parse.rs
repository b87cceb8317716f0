use vstd::prelude::*;

use crate::element::{Block, BlockV, Inline, InlineV, blocks_view, inlines_view, lemma_inlines_view};
use crate::inline::{spec_do_links, spec_parse_inline, do_links, parse_inline};
use crate::linkref::LinkRefs;
use crate::text::{
    chars_string, first_match_from, spec_lines, split_lines, starts_with, str_chars, trim_start,
    trim_start_chars,
};

verus! {

/// The one fault the parser reports: an image source line that does not
/// classify to a reference link or an interlink. Rather than treating the
/// broken source as an internal-consistency violation, the parser
/// surfaces it as a recoverable error.
#[derive(Debug, Clone, PartialEq, Eq, Structural)]
pub enum ParseError {
    InvalidImageSource,
}

/// The state of the first pass between lines: the blocks made so far, the
/// reference table, whether the previous line extended a paragraph, and
/// whether a fenced code block is open.
pub struct FpState {
    pub blocks: Seq<BlockV>,
    pub refs: Map<Seq<char>, Seq<char>>,
    pub last_para: bool,
    pub code: bool,
}

/// The state before any line.
pub open spec fn fp_init() -> FpState {
    FpState { blocks: Seq::empty(), refs: Map::empty(), last_para: false, code: false }
}

/// The fence delimiter.
pub open spec fn fence() -> Seq<char> {
    seq!['`', '`', '`']
}

/// A line handled as paragraph text. A fresh paragraph is opened unless
/// the previous line extended one that is still the last block. A
/// continuation starting with `^` converts the paragraph's final text into
/// an image whose caption is the rest of the line; one that follows
/// anything else is appended after a soft break. A caption line without an
/// open paragraph ending in plain text opens a fresh paragraph instead,
/// so that every line of the input stays accounted for.
pub open spec fn fp_paragraph(st: FpState, line: Seq<char>) -> FpState {
    if st.last_para && st.blocks.len() > 0 && st.blocks.last() is Paragraph {
        let content = st.blocks.last()->Paragraph_content;
        if line[0] == '^' {
            if content.len() > 0 && content.last() is Text {
                let src = content.last()->Text_0;
                FpState {
                    blocks: st.blocks.update(
                        st.blocks.len() - 1,
                        BlockV::Paragraph { content: content.drop_last() },
                    ).push(BlockV::Image { src, alt: trim_start(line.skip(1)) }),
                    last_para: true,
                    ..st
                }
            } else {
                FpState {
                    blocks: st.blocks.push(
                        BlockV::Paragraph { content: seq![InlineV::Text(line)] },
                    ),
                    last_para: true,
                    ..st
                }
            }
        } else {
            FpState {
                blocks: st.blocks.update(
                    st.blocks.len() - 1,
                    BlockV::Paragraph {
                        content: content + seq![InlineV::SoftBreak, InlineV::Text(line)],
                    },
                ),
                last_para: true,
                ..st
            }
        }
    } else {
        FpState {
            blocks: st.blocks.push(BlockV::Paragraph { content: seq![InlineV::Text(line)] }),
            last_para: true,
            ..st
        }
    }
}

/// One line of the first pass.
pub open spec fn fp_step(st: FpState, line: Seq<char>) -> FpState {
    if st.code {
        if line == fence() {
            FpState { code: false, ..st }
        } else if st.blocks.len() > 0 && st.blocks.last() is CodeBlock {
            let language = st.blocks.last()->CodeBlock_language;
            let content = st.blocks.last()->CodeBlock_content;
            FpState {
                blocks: st.blocks.update(
                    st.blocks.len() - 1,
                    BlockV::CodeBlock { language, content: content + line + seq!['\n'] },
                ),
                ..st
            }
        } else {
            st
        }
    } else if line.len() == 0 {
        FpState { last_para: false, ..st }
    } else if starts_with(line, fence()) {
        FpState {
            blocks: st.blocks.push(
                BlockV::CodeBlock { language: line.skip(3), content: Seq::empty() },
            ),
            last_para: false,
            code: true,
            ..st
        }
    } else if line[0] == '[' && first_match_from(line, seq![']', ':', ' '], 0) is Some {
        let p = first_match_from(line, seq![']', ':', ' '], 0)->Some_0;
        FpState {
            refs: st.refs.insert(line.subrange(1, p), line.skip(p + 3)),
            last_para: false,
            ..st
        }
    } else if line[0] == '#' && ({
        match first_match_from(line, seq![' '], 0) {
            Some(sp) => 1 <= sp <= 4 && forall|j: int| 0 <= j < sp ==> line[j] == '#',
            None => false,
        }
    }) {
        let sp = first_match_from(line, seq![' '], 0)->Some_0;
        FpState {
            blocks: st.blocks.push(
                BlockV::Header { level: sp as u8, content: seq![InlineV::Text(line.skip(sp + 1))] },
            ),
            last_para: false,
            ..st
        }
    } else {
        fp_paragraph(st, line)
    }
}

/// The first pass over the lines from position `i` on.
pub open spec fn fp_from(lines: Seq<Seq<char>>, i: int, st: FpState) -> FpState
    decreases lines.len() - i,
{
    if i < 0 || i >= lines.len() {
        st
    } else {
        fp_from(lines, i + 1, fp_step(st, lines[i]))
    }
}

/// The first pass over a whole text: its blocks and its reference table.
pub open spec fn spec_first_pass(s: Seq<char>) -> FpState {
    fp_from(spec_lines(s), 0, fp_init())
}

/// Tests that the first `upto` characters are all `#`.
fn all_hash_upto(v: &Vec<char>, upto: usize) -> (r: bool)
    requires
        upto <= v@.len(),
    ensures
        r == (forall|j: int| 0 <= j < upto ==> v@[j] == '#'),
{
    let mut j: usize = 0;
    while j < upto
        invariant
            j <= upto <= v@.len(),
            forall|k: int| 0 <= k < j ==> v@[k] == '#',
        decreases upto - j,
    {
        if v[j] != '#' {
            return false;
        }
        j = j + 1;
    }
    true
}

/// The first pass: splits raw text into lines and folds `fp_step` over
/// them, producing the block sequence and the link reference table.
pub fn first_pass(raw: &str) -> (r: (Vec<Block>, LinkRefs))
    ensures
        blocks_view(r.0@) == spec_first_pass(raw@).blocks,
        r.1@ == spec_first_pass(raw@).refs,
        r.1.wf(),
{
    let rv = str_chars(raw);
    let lines = split_lines(&rv);
    let ghost lsv = lines.deep_view();
    let mut blocks: Vec<Block> = Vec::new();
    let mut refs = LinkRefs::new();
    let mut last_para = false;
    let mut code = false;
    let mut fence_v: Vec<char> = Vec::new();
    fence_v.push('`');
    fence_v.push('`');
    fence_v.push('`');
    let mut refpat: Vec<char> = Vec::new();
    refpat.push(']');
    refpat.push(':');
    refpat.push(' ');
    let mut spacepat: Vec<char> = Vec::new();
    spacepat.push(' ');
    proof {
        assert(fence_v@ =~= fence());
        assert(refpat@ =~= seq![']', ':', ' ']);
        assert(spacepat@ =~= seq![' ']);
        assert(blocks_view(blocks@) =~= Seq::<BlockV>::empty());
    }
    let mut i: usize = 0;
    let n = lines.len();
    while i < n
        invariant
            i <= n,
            n == lines@.len(),
            lsv == lines.deep_view(),
            lsv.len() == n,
            refs.wf(),
            fence_v@ == fence(),
            refpat@ == seq![']', ':', ' '],
            spacepat@ == seq![' '],
            fp_from(
                lsv,
                i as int,
                FpState { blocks: blocks_view(blocks@), refs: refs@, last_para, code },
            ) == fp_from(lsv, 0, fp_init()),
        decreases n - i,
    {
        let ghost st0 = FpState { blocks: blocks_view(blocks@), refs: refs@, last_para, code };
        let ghost line = lsv[i as int];
        let ghost stepped = fp_step(st0, line);
        proof {
            assert(lines@[i as int]@ == line);
        }
        if code {
            if crate::text::chars_eq(&lines[i], &fence_v) {
                code = false;
                proof {
                    assert(FpState {
                        blocks: blocks_view(blocks@),
                        refs: refs@,
                        last_para,
                        code,
                    } == stepped);
                }
            } else {
                let ghost bv = blocks_view(blocks@);
                match blocks.pop() {
                    Some(Block::CodeBlock { language, content }) => {
                        let mut content = content;
                        let ghost cv = content@;
                        let ls = chars_string(&lines[i]);
                        content.append(ls.as_str());
                        crate::string_push(&mut content, '\n');
                        proof {
                            assert(content@ =~= cv + line + seq!['\n']);
                        }
                        let nb = Block::CodeBlock { language, content };
                        let ghost gnb = nb;
                        let ghost bvec = blocks@;
                        blocks.push(nb);
                        proof {
                            assert(bv.last() is CodeBlock);
                            assert(blocks@ == bvec.push(gnb));
                            assert(blocks_view(blocks@) =~= bv.update(
                                bv.len() - 1,
                                BlockV::CodeBlock {
                                    language: bv.last()->CodeBlock_language,
                                    content: bv.last()->CodeBlock_content + line + seq!['\n'],
                                },
                            ));
                            assert(FpState {
                                blocks: blocks_view(blocks@),
                                refs: refs@,
                                last_para,
                                code,
                            } == stepped);
                        }
                    },
                    Some(other) => {
                        let ghost go = other;
                        let ghost bvec = blocks@;
                        blocks.push(other);
                        proof {
                            assert(blocks@ == bvec.push(go));
                            assert(blocks_view(blocks@) =~= bv);
                            assert(!(bv.last() is CodeBlock));
                            assert(FpState {
                                blocks: blocks_view(blocks@),
                                refs: refs@,
                                last_para,
                                code,
                            } == stepped);
                        }
                    },
                    None => {
                        proof {
                            assert(blocks_view(blocks@) =~= bv);
                            assert(bv.len() == 0);
                            assert(FpState {
                                blocks: blocks_view(blocks@),
                                refs: refs@,
                                last_para,
                                code,
                            } == stepped);
                        }
                    },
                }
            }
        } else if lines[i].len() == 0 {
            last_para = false;
            proof {
                assert(FpState {
                    blocks: blocks_view(blocks@),
                    refs: refs@,
                    last_para,
                    code,
                } == stepped);
            }
        } else if crate::text::begins_with(&lines[i], &fence_v) {
            let lang = crate::text::subvec(&lines[i], 3, lines[i].len());
            let nb = Block::CodeBlock { language: chars_string(&lang), content: String::new() };
            let ghost gnb = nb;
            let ghost bvec = blocks@;
            blocks.push(nb);
            last_para = false;
            code = true;
            proof {
                assert(lang@ =~= line.skip(3));
                assert(blocks@ == bvec.push(gnb));
                assert(blocks_view(blocks@) =~= blocks_view(bvec).push(gnb.view()));
                assert(gnb.view() == (BlockV::CodeBlock {
                    language: line.skip(3),
                    content: Seq::empty(),
                }));
                assert(FpState {
                    blocks: blocks_view(blocks@),
                    refs: refs@,
                    last_para,
                    code,
                } == stepped);
            }
        } else {
            let is_ref = if lines[i][0] == '[' {
                crate::text::find_pattern(&lines[i], &refpat, 0)
            } else {
                None
            };
            proof {
                if lines@[i as int]@[0] == '[' {
                    crate::text::lemma_first_match_from(line, refpat@, 0);
                }
            }
            match is_ref {
                Some(p) => {
                    proof {
                        crate::text::lemma_first_match_from(line, refpat@, 0);
                        assert(p + 3 <= line.len());
                    }
                    let name = crate::text::subvec(&lines[i], 1, p);
                    let url = crate::text::subvec(&lines[i], p + 3, lines[i].len());
                    proof {
                        assert(url@ =~= line.skip(p + 3 as int));
                    }
                    refs.insert(chars_string(&name), chars_string(&url));
                    last_para = false;
                    proof {
                        assert(FpState {
                            blocks: blocks_view(blocks@),
                            refs: refs@,
                            last_para,
                            code,
                        } == stepped);
                    }
                },
                None => {
                    let mut header_sp: Option<usize> = None;
                    if lines[i][0] == '#' {
                        match crate::text::find_pattern(&lines[i], &spacepat, 0) {
                            Some(sp) => {
                                proof {
                                    crate::text::lemma_first_match_from(line, spacepat@, 0);
                                }
                                if 1 <= sp && sp <= 4 && all_hash_upto(&lines[i], sp) {
                                    header_sp = Some(sp);
                                }
                            },
                            None => {},
                        }
                    }
                    proof {
                        if line[0] == '#' {
                            crate::text::lemma_first_match_from(line, spacepat@, 0);
                        }
                    }
                    match header_sp {
                        Some(sp) => {
                            proof {
                                crate::text::lemma_first_match_from(line, spacepat@, 0);
                                assert(sp + 1 <= line.len());
                            }
                            let text = crate::text::subvec(&lines[i], sp + 1, lines[i].len());
                            proof {
                                assert(text@ =~= line.skip(sp + 1 as int));
                            }
                            let mut content: Vec<Inline> = Vec::new();
                            content.push(Inline::Text(chars_string(&text)));
                            let nb = Block::Header { level: sp as u8, content };
                            let ghost gnb = nb;
                            let ghost bvec = blocks@;
                            blocks.push(nb);
                            last_para = false;
                            proof {
                                assert(blocks@ == bvec.push(gnb));
                                lemma_inlines_view(gnb->Header_content@);
                                assert(gnb->Header_content@[0].view() == InlineV::Text(
                                    line.skip(sp + 1 as int),
                                ));
                                assert(inlines_view(gnb->Header_content@) =~= seq![
                                    InlineV::Text(line.skip(sp + 1 as int)),
                                ]);
                                assert(blocks_view(blocks@) =~= blocks_view(bvec).push(gnb.view()));
                                assert(FpState {
                                    blocks: blocks_view(blocks@),
                                    refs: refs@,
                                    last_para,
                                    code,
                                } == stepped);
                            }
                        },
                        None => {
                            let ghost bv = blocks_view(blocks@);
                            if !last_para {
                                let mut content: Vec<Inline> = Vec::new();
                                content.push(Inline::Text(chars_string(&lines[i])));
                                let nb = Block::Paragraph { content };
                                let ghost gnb = nb;
                                let ghost bvec = blocks@;
                                blocks.push(nb);
                                last_para = true;
                                proof {
                                    assert(blocks@ == bvec.push(gnb));
                                    lemma_inlines_view(gnb->Paragraph_content@);
                                    assert(gnb->Paragraph_content@[0].view() == InlineV::Text(
                                        line,
                                    ));
                                    assert(inlines_view(gnb->Paragraph_content@) =~= seq![
                                        InlineV::Text(line),
                                    ]);
                                    assert(blocks_view(blocks@) =~= blocks_view(bvec).push(
                                        gnb.view(),
                                    ));
                                    assert(FpState {
                                        blocks: blocks_view(blocks@),
                                        refs: refs@,
                                        last_para,
                                        code,
                                    } == stepped);
                                }
                            } else {
                                first_pass_continuation(&mut blocks, &lines[i], Ghost(line));
                                last_para = true;
                                proof {
                                    assert(FpState {
                                        blocks: blocks_view(blocks@),
                                        refs: refs@,
                                        last_para,
                                        code,
                                    } == stepped) by {
                                        assert(stepped == fp_paragraph(st0, line));
                                    }
                                }
                            }
                        },
                    }
                },
            }
        }
        i = i + 1;
        proof {
            assert(fp_from(lsv, i - 1, st0) == fp_from(lsv, i as int, stepped));
        }
    }
    proof {
        assert(fp_from(lsv, n as int, FpState {
            blocks: blocks_view(blocks@),
            refs: refs@,
            last_para,
            code,
        }) == FpState { blocks: blocks_view(blocks@), refs: refs@, last_para, code });
    }
    (blocks, refs)
}

/// A paragraph continuation line: the update of the block list that
/// `fp_paragraph` describes when the previous line extended a paragraph.
fn first_pass_continuation(blocks: &mut Vec<Block>, line_v: &Vec<char>, Ghost(line): Ghost<Seq<char>>)
    requires
        line_v@ == line,
        line.len() > 0,
    ensures
        ({
            let st0 = FpState {
                blocks: blocks_view(old(blocks)@),
                refs: Map::empty(),
                last_para: true,
                code: false,
            };
            blocks_view(final(blocks)@) == fp_paragraph(st0, line).blocks
        }),
{
    let ghost bv = blocks_view(blocks@);
    let ghost st0 = FpState { blocks: bv, refs: Map::empty(), last_para: true, code: false };
    match blocks.pop() {
        Some(Block::Paragraph { content }) => {
            let mut content = content;
            let ghost cv = inlines_view(content@);
            proof {
                assert(bv.last() == (BlockV::Paragraph { content: cv }));
            }
            if line_v[0] == '^' {
                let ghost cvec0 = content@;
                match content.pop() {
                    Some(Inline::Text(txt)) => {
                        proof {
                            lemma_inlines_view(cvec0);
                            lemma_inlines_view(content@);
                            assert(content@ == cvec0.drop_last());
                            assert(cvec0.last() == Inline::Text(txt));
                            assert(cv.last() == cvec0[cvec0.len() - 1].view());
                            assert(cv.last() == (InlineV::Text(txt@)));
                            assert forall|x: int| 0 <= x < content@.len() implies inlines_view(
                                content@,
                            )[x] == cv.drop_last()[x] by {
                                assert(inlines_view(content@)[x] == content@[x].view());
                                assert(content@[x] == cvec0[x]);
                                assert(cv[x] == cvec0[x].view());
                            }
                            assert(inlines_view(content@) =~= cv.drop_last());
                        }
                        let ghost bvec = blocks@;
                        blocks.push(Block::Paragraph { content });
                        let alt_v = trim_start_chars(&crate::text::subvec(line_v, 1, line_v.len()));
                        proof {
                            assert(line_v@.subrange(1, line_v@.len() as int) =~= line.skip(1));
                        }
                        let nb = Block::Image { src: txt, alt: chars_string(&alt_v) };
                        let ghost gnb = nb;
                        blocks.push(nb);
                        proof {
                            assert(blocks_view(blocks@) =~= bv.update(
                                bv.len() - 1,
                                BlockV::Paragraph { content: cv.drop_last() },
                            ).push(gnb.view()));
                            assert(cv.len() > 0 && cv.last() is Text);
                        }
                    },
                    Some(other) => {
                        let ghost go = other;
                        content.push(other);
                        proof {
                            assert(content@ =~= cvec0);
                            assert(cvec0.last() == go);
                            assert(!(cv.len() > 0 && cv.last() is Text)) by {
                                lemma_inlines_view(cvec0);
                                assert(cv.last() == cvec0[cvec0.len() - 1].view());
                                assert(cv.last() == go.view());
                            }
                        }
                        blocks.push(Block::Paragraph { content });
                        proof {
                            assert(blocks_view(blocks@) =~= bv);
                        }
                        push_fresh_paragraph(blocks, line_v, Ghost(line), Ghost(bv));
                    },
                    None => {
                        proof {
                            assert(cvec0.len() == 0);
                            lemma_inlines_view(cvec0);
                            assert(cv.len() == 0);
                        }
                        blocks.push(Block::Paragraph { content });
                        proof {
                            assert(content@ =~= cvec0);
                            assert(blocks_view(blocks@) =~= bv);
                        }
                        push_fresh_paragraph(blocks, line_v, Ghost(line), Ghost(bv));
                    },
                }
            } else {
                let ghost c0 = content@;
                content.push(Inline::SoftBreak);
                content.push(Inline::Text(chars_string(line_v)));
                proof {
                    lemma_inlines_view(content@);
                    lemma_inlines_view(c0);
                    assert(content@ == c0.push(Inline::SoftBreak).push(
                        content@[content@.len() - 1],
                    ));
                    assert(content@[content@.len() - 1].view() == InlineV::Text(line));
                    assert forall|x: int| 0 <= x < content@.len() implies inlines_view(content@)[x]
                        == (cv + seq![InlineV::SoftBreak, InlineV::Text(line)])[x] by {
                        assert(inlines_view(content@)[x] == content@[x].view());
                        if x < c0.len() {
                            assert(content@[x] == c0[x]);
                            assert(cv[x] == c0[x].view());
                        } else if x == c0.len() {
                            assert(content@[x] == Inline::SoftBreak);
                        }
                    }
                    assert(inlines_view(content@) =~= cv + seq![
                        InlineV::SoftBreak,
                        InlineV::Text(line),
                    ]);
                }
                let nb = Block::Paragraph { content };
                let ghost gnb = nb;
                blocks.push(nb);
                proof {
                    assert(blocks_view(blocks@) =~= bv.update(
                        bv.len() - 1,
                        BlockV::Paragraph {
                            content: cv + seq![InlineV::SoftBreak, InlineV::Text(line)],
                        },
                    ));
                }
            }
        },
        Some(other) => {
            let ghost go = other;
            blocks.push(other);
            proof {
                assert(blocks_view(blocks@) =~= bv);
                assert(!(bv.last() is Paragraph));
            }
            push_fresh_paragraph(blocks, line_v, Ghost(line), Ghost(bv));
        },
        None => {
            proof {
                assert(blocks_view(blocks@) =~= bv);
                assert(bv.len() == 0);
            }
            push_fresh_paragraph(blocks, line_v, Ghost(line), Ghost(bv));
        },
    }
}

/// Opens a new paragraph holding the line as one text inline.
fn push_fresh_paragraph(
    blocks: &mut Vec<Block>,
    line_v: &Vec<char>,
    Ghost(line): Ghost<Seq<char>>,
    Ghost(bv): Ghost<Seq<BlockV>>,
)
    requires
        line_v@ == line,
        blocks_view(old(blocks)@) == bv,
    ensures
        blocks_view(final(blocks)@) == bv.push(
            BlockV::Paragraph { content: seq![InlineV::Text(line)] },
        ),
{
    let mut content: Vec<Inline> = Vec::new();
    content.push(Inline::Text(chars_string(line_v)));
    let nb = Block::Paragraph { content };
    let ghost gnb = nb;
    let ghost bvec = blocks@;
    blocks.push(nb);
    proof {
        assert(blocks@ == bvec.push(gnb));
        lemma_inlines_view(gnb->Paragraph_content@);
        assert(gnb->Paragraph_content@[0].view() == InlineV::Text(line));
        assert(inlines_view(gnb->Paragraph_content@) =~= seq![InlineV::Text(line)]);
        assert(blocks_view(blocks@) =~= bv.push(gnb.view()));
    }
}

/// The inline pipeline applied to a content list: soft breaks pass
/// through, raw text is replaced by its parsed inlines, anything else is
/// dropped (after the first pass nothing else is present).
pub open spec fn sp_inlines(content: Seq<InlineV>, refs: Map<Seq<char>, Seq<char>>) -> Seq<InlineV>
    decreases content.len(),
{
    if content.len() == 0 {
        Seq::empty()
    } else {
        let rest = sp_inlines(content.drop_first(), refs);
        match content[0] {
            InlineV::SoftBreak => seq![InlineV::SoftBreak] + rest,
            InlineV::Text(t) => spec_parse_inline(t, refs) + rest,
            _ => rest,
        }
    }
}

/// The second pass on one block: header and paragraph content goes
/// through the inline pipeline, a code block stays raw, and an image
/// source must classify to a reference link or an interlink, whose
/// location replaces it.
pub open spec fn sp_block(b: BlockV, refs: Map<Seq<char>, Seq<char>>) -> Result<
    BlockV,
    ParseError,
> {
    match b {
        BlockV::Header { level, content } => Ok(
            BlockV::Header { level, content: sp_inlines(content, refs) },
        ),
        BlockV::Paragraph { content } => Ok(
            BlockV::Paragraph { content: sp_inlines(content, refs) },
        ),
        BlockV::CodeBlock { language, content } => Ok(BlockV::CodeBlock { language, content }),
        BlockV::Image { src, alt } => {
            let ils = spec_do_links(src, refs);
            if ils.len() >= 2 && (ils[1] is ReferenceLink || ils[1] is InterLink) {
                let loc = if ils[1] is ReferenceLink {
                    ils[1]->ReferenceLink_1
                } else {
                    ils[1]->InterLink_1
                };
                Ok(BlockV::Image { src: loc, alt })
            } else {
                Err(ParseError::InvalidImageSource)
            }
        },
    }
}

/// The second pass from block `i` on: each block transformed in order,
/// stopping at the first fault.
pub open spec fn spec_second_pass(
    blocks: Seq<BlockV>,
    refs: Map<Seq<char>, Seq<char>>,
    i: int,
) -> Result<Seq<BlockV>, ParseError>
    decreases blocks.len() - i,
{
    if i < 0 || i >= blocks.len() {
        Ok(Seq::empty())
    } else {
        match sp_block(blocks[i], refs) {
            Err(e) => Err(e),
            Ok(b) => match spec_second_pass(blocks, refs, i + 1) {
                Err(e) => Err(e),
                Ok(rest) => Ok(seq![b] + rest),
            },
        }
    }
}

/// What parsing a whole document yields: the blocks of the first pass
/// sent through the second, with the reference table the first pass
/// collected.
pub open spec fn spec_parse(s: Seq<char>) -> Result<Seq<BlockV>, ParseError> {
    spec_second_pass(spec_first_pass(s).blocks, spec_first_pass(s).refs, 0)
}

/// Runs the inline pipeline over a content list, as `sp_inlines` says.
pub fn parse_inlines(inlines: &Vec<Inline>, refs: &LinkRefs) -> (r: Vec<Inline>)
    requires
        refs.wf(),
    ensures
        inlines_view(r@) == sp_inlines(inlines_view(inlines@), refs@),
{
    let ghost cv = inlines_view(inlines@);
    let mut out: Vec<Inline> = Vec::new();
    let mut i: usize = 0;
    let n = inlines.len();
    proof {
        lemma_inlines_view(inlines@);
        assert(cv.skip(0) =~= cv);
        assert(inlines_view(out@) =~= Seq::<InlineV>::empty());
        assert(inlines_view(out@) + sp_inlines(cv.skip(0), refs@) =~= sp_inlines(cv, refs@));
    }
    while i < n
        invariant
            i <= n,
            n == inlines@.len(),
            refs.wf(),
            cv == inlines_view(inlines@),
            cv.len() == n,
            inlines_view(out@) + sp_inlines(cv.skip(i as int), refs@) == sp_inlines(cv, refs@),
        decreases n - i,
    {
        let ghost outv = inlines_view(out@);
        proof {
            lemma_inlines_view(inlines@);
            assert(cv.skip(i as int)[0] == cv[i as int]);
            assert(cv.skip(i as int).drop_first() =~= cv.skip(i + 1));
            assert(cv[i as int] == inlines@[i as int].view());
        }
        match &inlines[i] {
            Inline::SoftBreak => {
                let ghost ovec = out@;
                out.push(Inline::SoftBreak);
                proof {
                    crate::inline::lemma_inlines_view_push(ovec, Inline::SoftBreak);
                    assert(out@ == ovec.push(Inline::SoftBreak));
                    assert(outv.push(InlineV::SoftBreak) + sp_inlines(cv.skip(i + 1), refs@) =~= outv
                        + (seq![InlineV::SoftBreak] + sp_inlines(cv.skip(i + 1), refs@)));
                }
            },
            Inline::Text(t) => {
                let tc = str_chars(t.as_str());
                let mut ils = parse_inline(&tc, refs);
                let ghost ilsvec = ils@;
                let ghost ovec = out@;
                out.append(&mut ils);
                proof {
                    assert(out@ == ovec + ilsvec);
                    crate::inline::lemma_inlines_view_concat(ovec, ilsvec);
                    assert(outv + inlines_view(ilsvec) + sp_inlines(cv.skip(i + 1), refs@) =~= outv
                        + (inlines_view(ilsvec) + sp_inlines(cv.skip(i + 1), refs@)));
                }
            },
            _ => {
                proof {
                    assert(sp_inlines(cv.skip(i as int), refs@) == sp_inlines(
                        cv.skip(i + 1),
                        refs@,
                    ));
                }
            },
        }
        i = i + 1;
    }
    proof {
        assert(cv.skip(n as int) =~= Seq::<InlineV>::empty());
        assert(inlines_view(out@) + Seq::<InlineV>::empty() =~= inlines_view(out@));
    }
    out
}

/// The second pass over owned blocks, as `spec_second_pass` says.
pub fn second_pass(blocks: Vec<Block>, refs: &LinkRefs) -> (r: Result<Vec<Block>, ParseError>)
    requires
        refs.wf(),
    ensures
        match r {
            Ok(bs) => spec_second_pass(blocks_view(blocks@), refs@, 0) == Ok::<
                Seq<BlockV>,
                ParseError,
            >(blocks_view(bs@)),
            Err(e) => spec_second_pass(blocks_view(blocks@), refs@, 0) == Err::<
                Seq<BlockV>,
                ParseError,
            >(e),
        },
{
    let ghost origv = blocks_view(blocks@);
    let ghost origvec = blocks@;
    let mut rem = blocks;
    let mut out: Vec<Block> = Vec::new();
    proof {
        assert(origvec.skip(0) =~= origvec);
        assert(blocks_view(out@) =~= Seq::<BlockV>::empty());
    }
    while rem.len() > 0
        invariant
            refs.wf(),
            rem@.len() <= origvec.len(),
            rem@ == origvec.skip(origvec.len() - rem@.len()),
            origv == blocks_view(origvec),
            origv == blocks_view(blocks@),
            origv.len() == origvec.len(),
            spec_second_pass(origv, refs@, origvec.len() - rem@.len()) matches Ok(rest)
                ==> spec_second_pass(origv, refs@, 0) == Ok::<Seq<BlockV>, ParseError>(
                blocks_view(out@) + rest,
            ),
            spec_second_pass(origv, refs@, origvec.len() - rem@.len()) matches Err(e)
                ==> spec_second_pass(origv, refs@, 0) == Err::<Seq<BlockV>, ParseError>(e),
        decreases rem@.len(),
    {
        let ghost i0 = origvec.len() - rem@.len();
        let ghost outv = blocks_view(out@);
        let b = rem.remove(0);
        let ghost gb = b;
        proof {
            assert(rem@ =~= origvec.skip(i0 + 1));
            assert(gb == origvec.skip(i0)[0]);
            assert(gb == origvec[i0]);
            assert(gb.view() == origv[i0]);
        }
        let nb: Block = match b {
            Block::Header { level, content } => {
                let nc = parse_inlines(&content, refs);
                Block::Header { level, content: nc }
            },
            Block::Paragraph { content } => {
                let nc = parse_inlines(&content, refs);
                Block::Paragraph { content: nc }
            },
            Block::CodeBlock { language, content } => Block::CodeBlock { language, content },
            Block::Image { src, alt } => {
                let sv = str_chars(src.as_str());
                let ils = do_links(&sv, refs);
                proof {
                    crate::element::lemma_inlines_view(ils@);
                }
                if ils.len() < 2 {
                    proof {
                        assert(sp_block(origv[i0], refs@) == Err::<BlockV, ParseError>(
                            ParseError::InvalidImageSource,
                        ));
                        assert(spec_second_pass(origv, refs@, i0) == Err::<Seq<BlockV>, ParseError>(
                            ParseError::InvalidImageSource,
                        ));
                    }
                    return Err(ParseError::InvalidImageSource);
                }
                let loc: Option<String> = match &ils[1] {
                    Inline::ReferenceLink { location, .. } => Some(location.clone()),
                    Inline::InterLink { location, .. } => Some(location.clone()),
                    _ => None,
                };
                proof {
                    assert(ils@[1].view() == spec_do_links(sv@, refs@)[1]);
                }
                match loc {
                    Some(location) => Block::Image { src: location, alt },
                    None => {
                        proof {
                            assert(sp_block(origv[i0], refs@) == Err::<BlockV, ParseError>(
                                ParseError::InvalidImageSource,
                            ));
                            assert(spec_second_pass(origv, refs@, i0) == Err::<
                                Seq<BlockV>,
                                ParseError,
                            >(ParseError::InvalidImageSource));
                        }
                        return Err(ParseError::InvalidImageSource);
                    },
                }
            },
        };
        let ghost gnb = nb;
        let ghost ovec = out@;
        out.push(nb);
        proof {
            assert(out@ == ovec.push(gnb));
            assert(blocks_view(out@) =~= outv.push(gnb.view()));
            assert(sp_block(origv[i0], refs@) == Ok::<BlockV, ParseError>(gnb.view()));
            assert(origvec.len() - rem@.len() == i0 + 1);
            if spec_second_pass(origv, refs@, i0 + 1) is Ok {
                let rest = spec_second_pass(origv, refs@, i0 + 1)->Ok_0;
                assert(spec_second_pass(origv, refs@, i0) == Ok::<Seq<BlockV>, ParseError>(
                    seq![gnb.view()] + rest,
                ));
                assert(outv + (seq![gnb.view()] + rest) =~= outv.push(gnb.view()) + rest);
            }
        }
    }
    proof {
        let i0 = origvec.len() - rem@.len();
        assert(i0 == origvec.len());
        assert(spec_second_pass(origv, refs@, i0) == Ok::<Seq<BlockV>, ParseError>(Seq::empty()));
        assert(blocks_view(out@) + Seq::<BlockV>::empty() =~= blocks_view(out@));
    }
    Ok(out)
}

/// A parsed document: its ordered blocks.
#[derive(Debug, PartialEq)]
pub struct Parser {
    pub blocks: Vec<Block>,
}

impl Parser {
    /// The shapes of the blocks.
    pub open spec fn view(&self) -> Seq<BlockV> {
        blocks_view(self.blocks@)
    }

    /// Parses a whole document: the line-oriented first pass into blocks
    /// and a reference table, then the inline second pass.
    pub fn parse(raw: &str) -> (r: Result<Parser, ParseError>)
        ensures
            match r {
                Ok(p) => spec_parse(raw@) == Ok::<Seq<BlockV>, ParseError>(p@)
                    && crate::html::blocks_wf(p@),
                Err(e) => spec_parse(raw@) == Err::<Seq<BlockV>, ParseError>(e),
            },
    {
        proof {
            lemma_parse_wf(raw@);
        }
        let (blocks, refs) = first_pass(raw);
        match second_pass(blocks, &refs) {
            Ok(bs) => Ok(Parser { blocks: bs }),
            Err(e) => Err(e),
        }
    }
}

/// One first-pass step keeps every header level between one and four.
proof fn lemma_fp_step_wf(st: FpState, line: Seq<char>)
    requires
        crate::html::blocks_wf(st.blocks),
    ensures
        crate::html::blocks_wf(fp_step(st, line).blocks),
{
    let nb = fp_step(st, line).blocks;
    assert forall|i: int| 0 <= i < nb.len() implies crate::html::block_wf(#[trigger] nb[i]) by {
        if i < st.blocks.len() {
            assert(crate::html::block_wf(st.blocks[i]));
        }
    }
}

/// The first pass keeps every header level between one and four.
proof fn lemma_fp_from_wf(lines: Seq<Seq<char>>, i: int, st: FpState)
    requires
        crate::html::blocks_wf(st.blocks),
    ensures
        crate::html::blocks_wf(fp_from(lines, i, st).blocks),
    decreases lines.len() - i,
{
    if 0 <= i < lines.len() {
        lemma_fp_step_wf(st, lines[i]);
        lemma_fp_from_wf(lines, i + 1, fp_step(st, lines[i]));
    }
}

/// The second pass keeps every header level between one and four.
proof fn lemma_sp_wf(blocks: Seq<BlockV>, refs: Map<Seq<char>, Seq<char>>, i: int)
    requires
        crate::html::blocks_wf(blocks),
        0 <= i,
    ensures
        spec_second_pass(blocks, refs, i) matches Ok(bs) ==> crate::html::blocks_wf(bs),
    decreases blocks.len() - i,
{
    if i < blocks.len() {
        lemma_sp_wf(blocks, refs, i + 1);
        if spec_second_pass(blocks, refs, i) is Ok {
            let bs = spec_second_pass(blocks, refs, i)->Ok_0;
            let b = sp_block(blocks[i], refs)->Ok_0;
            let rest = spec_second_pass(blocks, refs, i + 1)->Ok_0;
            assert(crate::html::block_wf(blocks[i]));
            assert(crate::html::block_wf(b));
            assert forall|k: int| 0 <= k < bs.len() implies crate::html::block_wf(
                #[trigger] bs[k],
            ) by {
                if k == 0 {
                    assert(bs[0] == b);
                } else {
                    assert(bs[k] == rest[k - 1]);
                }
            }
        }
    }
}

/// What parsing yields is well formed: every header level lies between
/// one and four.
pub proof fn lemma_parse_wf(s: Seq<char>)
    ensures
        spec_parse(s) matches Ok(bs) ==> crate::html::blocks_wf(bs),
{
    lemma_fp_from_wf(spec_lines(s), 0, fp_init());
    lemma_sp_wf(spec_first_pass(s).blocks, spec_first_pass(s).refs, 0);
}

/// The content list of a block that carries inlines.
pub open spec fn block_content(b: BlockV) -> Option<Seq<InlineV>> {
    match b {
        BlockV::Header { content, .. } => Some(content),
        BlockV::Paragraph { content } => Some(content),
        _ => None,
    }
}

/// The first position of a top-level inline at or after `(b, i)`, in
/// document order: positions inside code blocks and images are skipped.
pub open spec fn spec_next_inline(bs: Seq<BlockV>, b: int, i: int) -> Option<(int, int)>
    decreases bs.len() - b,
{
    if b < 0 || b >= bs.len() {
        None
    } else {
        match block_content(bs[b]) {
            Some(c) => if 0 <= i < c.len() {
                Some((b, i))
            } else {
                spec_next_inline(bs, b + 1, 0)
            },
            None => spec_next_inline(bs, b + 1, 0),
        }
    }
}

/// A cursor over the positions of the top-level inlines of a document's
/// headers and paragraphs, in document order. Verified code offers no
/// iterator of references, so the cursor yields positions and the caller
/// indexes the document itself.
pub struct InlineIter {
    pub block: usize,
    pub inline: usize,
}

impl InlineIter {
    /// A cursor standing before the first inline.
    pub fn new(parser: &Parser) -> (r: InlineIter)
        ensures
            r.block == 0 && r.inline == 0,
    {
        InlineIter { block: 0, inline: 0 }
    }

    /// Yields the position of the next top-level inline and steps past
    /// it, or nothing once every header and paragraph is exhausted.
    pub fn next_position(&mut self, parser: &Parser) -> (r: Option<(usize, usize)>)
        ensures
            match r {
                Some(p) => spec_next_inline(parser@, old(self).block as int, old(self).inline as int)
                    == Some((p.0 as int, p.1 as int)) && final(self).block == p.0
                    && final(self).inline == p.1 + 1,
                None => spec_next_inline(parser@, old(self).block as int, old(self).inline as int)
                    is None,
            },
    {
        let mut b = self.block;
        let mut i = self.inline;
        let n = parser.blocks.len();
        while b < n
            invariant
                n == parser.blocks@.len(),
                parser@.len() == n,
                spec_next_inline(parser@, old(self).block as int, old(self).inline as int)
                    == spec_next_inline(parser@, b as int, i as int),
            decreases n - b,
        {
            proof {
                assert(parser@[b as int] == parser.blocks@[b as int].view());
            }
            let has: Option<usize> = match &parser.blocks[b] {
                Block::Header { content, .. } => {
                    if i < content.len() {
                        proof {
                            crate::element::lemma_inlines_view(content@);
                        }
                        Some(content.len())
                    } else {
                        proof {
                            crate::element::lemma_inlines_view(content@);
                        }
                        None
                    }
                },
                Block::Paragraph { content } => {
                    if i < content.len() {
                        proof {
                            crate::element::lemma_inlines_view(content@);
                        }
                        Some(content.len())
                    } else {
                        proof {
                            crate::element::lemma_inlines_view(content@);
                        }
                        None
                    }
                },
                _ => None,
            };
            match has {
                Some(_) => {
                    self.block = b;
                    self.inline = i + 1;
                    return Some((b, i));
                },
                None => {
                    b = b + 1;
                    i = 0;
                },
            }
        }
        self.block = b;
        self.inline = i;
        None
    }
}

impl Parser {
    /// Opens a cursor over the positions of the top-level inlines.
    pub fn inlines_mut(&mut self) -> (r: InlineIter)
        ensures
            *final(self) == *old(self),
            r.block == 0 && r.inline == 0,
    {
        InlineIter::new(self)
    }
}

} // verus!
