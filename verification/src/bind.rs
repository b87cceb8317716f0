use vstd::prelude::*;

use crate::element::{Block, BlockV, Inline, InlineV, blocks_view, inlines_view, lemma_inlines_view};
use crate::parse::Parser;
use crate::path::{
    comps_all_wf, dotdot, is_absolute, join_comps, lemma_join_roundtrip, lemma_path_comps_lead_slash,
    lemma_path_comps_wf, lemma_relativise_resolves, path_comps, path_parent, relativise_path,
    resolve, set_ext, set_ext_chars, spec_parent, spec_relativise,
};
use crate::fs::strs_view;
use crate::text::{chars_string, str_chars};

verus! {

/// A fatal binding fault: an interlink name that no document matches, or
/// one that several match.
#[derive(Debug, PartialEq)]
pub enum BindError {
    NoMatch(String),
    MultipleMatches(String),
}

/// The mathematical shape of a `BindError`.
pub enum BindErrorV {
    NoMatch(Seq<char>),
    MultipleMatches(Seq<char>),
}

impl BindError {
    pub open spec fn view(&self) -> BindErrorV {
        match self {
            BindError::NoMatch(n) => BindErrorV::NoMatch(n@),
            BindError::MultipleMatches(n) => BindErrorV::MultipleMatches(n@),
        }
    }
}

/// The document extension interlink names refer to.
pub open spec fn md_ext() -> Seq<char> {
    seq!['m', 'd']
}

/// The extension of the rendered pages.
pub open spec fn html_ext() -> Seq<char> {
    seq!['h', 't', 'm', 'l']
}

/// One component sequence is a suffix of another.
pub open spec fn comps_suffix(suf: Seq<Seq<char>>, whole: Seq<Seq<char>>) -> bool {
    suf.len() <= whole.len() && suf == whole.skip(whole.len() - suf.len())
}

/// A document path matches an interlink name when the components of the
/// name with the document extension appended are a suffix of its own.
pub open spec fn name_matches(f: Seq<char>, name: Seq<char>) -> bool {
    comps_suffix(path_comps(name + seq!['.'] + md_ext()), path_comps(f))
}

/// How many files from position `i` on match the name.
pub open spec fn match_count(files: Seq<Seq<char>>, i: int, name: Seq<char>) -> nat
    decreases files.len() - i,
{
    if i < 0 || i >= files.len() {
        0
    } else if name_matches(files[i], name) {
        1 + match_count(files, i + 1, name)
    } else {
        match_count(files, i + 1, name)
    }
}

/// The first matching file from position `i` on, or `-1`.
pub open spec fn match_idx(files: Seq<Seq<char>>, i: int, name: Seq<char>) -> int
    decreases files.len() - i,
{
    if i < 0 || i >= files.len() {
        -1
    } else if name_matches(files[i], name) {
        i
    } else {
        match_idx(files, i + 1, name)
    }
}

/// The location an interlink resolves to: the path of the matched
/// document relative to the directory holding `doc`, its extension
/// replaced by the page extension.
pub open spec fn interlink_location(f: Seq<char>, doc: Seq<char>) -> Seq<char> {
    let par = spec_parent(doc)->Some_0;
    set_ext(spec_relativise(par, f)->Some_0, html_ext())
}

/// Binding one inline: an interlink with exactly one matching document
/// receives that document's relative location; zero or several matches
/// are a fault; emphasis content is bound recursively; everything else
/// stays as it is.
pub open spec fn spec_bind_inline(il: InlineV, files: Seq<Seq<char>>, doc: Seq<char>) -> Result<
    InlineV,
    BindErrorV,
>
    decreases il,
{
    match il {
        InlineV::Italic(content) => match spec_bind_inlines(content, 0, files, doc) {
            Ok(c) => Ok(InlineV::Italic(c)),
            Err(e) => Err(e),
        },
        InlineV::Bold(content) => match spec_bind_inlines(content, 0, files, doc) {
            Ok(c) => Ok(InlineV::Bold(c)),
            Err(e) => Err(e),
        },
        InlineV::InterLink(name, _loc) => {
            let c = match_count(files, 0, name);
            if c == 1 {
                Ok(InlineV::InterLink(name, interlink_location(files[match_idx(files, 0, name)], doc)))
            } else if c == 0 {
                Err(BindErrorV::NoMatch(name))
            } else {
                Err(BindErrorV::MultipleMatches(name))
            }
        },
        _ => Ok(il),
    }
}

/// Binding a content list from position `i` on, stopping at the first
/// fault.
pub open spec fn spec_bind_inlines(
    content: Seq<InlineV>,
    i: int,
    files: Seq<Seq<char>>,
    doc: Seq<char>,
) -> Result<Seq<InlineV>, BindErrorV>
    decreases content, content.len() - i + 1,
{
    if i < 0 || i >= content.len() {
        Ok(Seq::empty())
    } else {
        match spec_bind_inline(content[i], files, doc) {
            Err(e) => Err(e),
            Ok(il) => match spec_bind_inlines(content, i + 1, files, doc) {
                Err(e) => Err(e),
                Ok(rest) => Ok(seq![il] + rest),
            },
        }
    }
}

/// Binding one block: header and paragraph content is bound; code blocks
/// and already-resolved image sources are untouched.
pub open spec fn spec_bind_block(b: BlockV, files: Seq<Seq<char>>, doc: Seq<char>) -> Result<
    BlockV,
    BindErrorV,
> {
    match b {
        BlockV::Header { level, content } => match spec_bind_inlines(content, 0, files, doc) {
            Ok(c) => Ok(BlockV::Header { level, content: c }),
            Err(e) => Err(e),
        },
        BlockV::Paragraph { content } => match spec_bind_inlines(content, 0, files, doc) {
            Ok(c) => Ok(BlockV::Paragraph { content: c }),
            Err(e) => Err(e),
        },
        _ => Ok(b),
    }
}

/// Binding the blocks from position `i` on, stopping at the first fault.
pub open spec fn spec_bind_blocks(
    blocks: Seq<BlockV>,
    i: int,
    files: Seq<Seq<char>>,
    doc: Seq<char>,
) -> Result<Seq<BlockV>, BindErrorV>
    decreases blocks.len() - i,
{
    if i < 0 || i >= blocks.len() {
        Ok(Seq::empty())
    } else {
        match spec_bind_block(blocks[i], files, doc) {
            Err(e) => Err(e),
            Ok(b) => match spec_bind_blocks(blocks, i + 1, files, doc) {
                Err(e) => Err(e),
                Ok(rest) => Ok(seq![b] + rest),
            },
        }
    }
}

/// What a binder needs of its inputs: an absolute document path with at
/// least one component, and absolute document paths throughout the tree.
pub open spec fn bind_inputs_ok(files: Seq<Seq<char>>, doc: Seq<char>) -> bool {
    &&& is_absolute(doc)
    &&& path_comps(doc).len() > 0
    &&& forall|i: int| 0 <= i < files.len() ==> is_absolute(#[trigger] files[i])
}

/// Tests whether `suf`'s components are a suffix of `whole`'s.
fn suffix_of(suf: &Vec<Vec<char>>, whole: &Vec<Vec<char>>) -> (r: bool)
    ensures
        r == comps_suffix(suf.deep_view(), whole.deep_view()),
{
    let m = suf.len();
    let n = whole.len();
    if m > n {
        return false;
    }
    let mut j: usize = 0;
    while j < m
        invariant
            m == suf@.len(),
            n == whole@.len(),
            m <= n,
            j <= m,
            suf.deep_view().len() == m,
            whole.deep_view().len() == n,
            forall|k: int| 0 <= k < j ==> suf.deep_view()[k] == whole.deep_view()[n - m + k],
        decreases m - j,
    {
        if !crate::text::chars_eq(&suf[j], &whole[n - m + j]) {
            proof {
                assert(suf.deep_view()[j as int] == suf@[j as int]@);
                assert(whole.deep_view()[n - m + j] == whole@[(n - m + j) as int]@);
                if comps_suffix(suf.deep_view(), whole.deep_view()) {
                    assert(suf.deep_view()[j as int] == whole.deep_view().skip(n - m)[j as int]);
                }
            }
            return false;
        }
        proof {
            assert(suf.deep_view()[j as int] == suf@[j as int]@);
            assert(whole.deep_view()[n - m + j] == whole@[(n - m + j) as int]@);
        }
        j = j + 1;
    }
    proof {
        assert(suf.deep_view() =~= whole.deep_view().skip(n - m));
    }
    true
}

/// Tests whether a document path matches an interlink name.
fn file_matches(f: &String, name: &String) -> (r: bool)
    ensures
        r == name_matches(f@, name@),
{
    let mut pat = str_chars(name.as_str());
    pat.push('.');
    pat.push('m');
    pat.push('d');
    proof {
        assert(pat@ =~= name@ + seq!['.'] + md_ext());
    }
    let pc = crate::path::split_comps(&pat);
    let fv = str_chars(f.as_str());
    let fc = crate::path::split_comps(&fv);
    suffix_of(&pc, &fc)
}

/// Counts the documents matching a name and finds the first.
fn find_matches(files: &Vec<String>, name: &String) -> (r: (usize, Option<usize>))
    ensures
        r.0 == match_count(strs_view(files@), 0, name@),
        match r.1 {
            Some(j) => match_idx(strs_view(files@), 0, name@) == j as int,
            None => match_idx(strs_view(files@), 0, name@) == -1,
        },
{
    let ghost fv = strs_view(files@);
    let mut count: usize = 0;
    let mut first: Option<usize> = None;
    let mut i: usize = 0;
    let n = files.len();
    while i < n
        invariant
            i <= n,
            n == files@.len(),
            fv == strs_view(files@),
            fv.len() == n,
            count <= i,
            match_count(fv, 0, name@) == count + match_count(fv, i as int, name@),
            match first {
                Some(j) => match_idx(fv, 0, name@) == j as int,
                None => count == 0 && match_idx(fv, 0, name@) == match_idx(fv, i as int, name@),
            },
        decreases n - i,
    {
        proof {
            assert(fv[i as int] == files@[i as int]@);
        }
        if file_matches(&files[i], name) {
            count = count + 1;
            if first.is_none() {
                first = Some(i);
            }
        }
        i = i + 1;
    }
    proof {
        assert(match_count(fv, n as int, name@) == 0);
        if first is None {
            assert(match_idx(fv, n as int, name@) == -1);
        }
    }
    (count, first)
}

/// Resolves the placeholder interlinks of one inline tree against the
/// document paths of the whole tree: an interlink name must match exactly
/// one document, whose path relative to the directory of `path`, with the
/// page extension, becomes the link's location. A name with no match or
/// several is a fault.
pub fn make_interlinks(inline: &Inline, files: &Vec<String>, path: &str) -> (r: Result<
    Inline,
    BindError,
>)
    requires
        bind_inputs_ok(strs_view(files@), path@),
    ensures
        match r {
            Ok(il) => spec_bind_inline(inline.view(), strs_view(files@), path@) == Ok::<
                InlineV,
                BindErrorV,
            >(il.view()),
            Err(e) => spec_bind_inline(inline.view(), strs_view(files@), path@) == Err::<
                InlineV,
                BindErrorV,
            >(e.view()),
        },
    decreases inline,
{
    match inline {
        Inline::Italic { content } => {
            match bind_content(content, files, path) {
                Ok(c) => Ok(Inline::Italic { content: c }),
                Err(e) => Err(e),
            }
        },
        Inline::Bold { content } => {
            match bind_content(content, files, path) {
                Ok(c) => Ok(Inline::Bold { content: c }),
                Err(e) => Err(e),
            }
        },
        Inline::InterLink { name, location } => {
            let (count, first) = find_matches(files, name);
            if count == 1 {
                let j = match first {
                    Some(j) => j,
                    None => {
                        proof {
                            lemma_match_idx(strs_view(files@), 0, name@);
                        }
                        return Err(BindError::NoMatch(name.clone()));
                    },
                };
                proof {
                    lemma_match_idx(strs_view(files@), 0, name@);
                }
                let par = match path_parent(path) {
                    Some(p) => p,
                    None => {
                        proof {
                            assert(false);
                        }
                        return Err(BindError::NoMatch(name.clone()));
                    },
                };
                let rel = match relativise_path(par.as_str(), files[j].as_str()) {
                    Some(rel) => rel,
                    None => {
                        proof {
                            assert(is_absolute(strs_view(files@)[j as int]));
                            assert(false);
                        }
                        return Err(BindError::NoMatch(name.clone()));
                    },
                };
                let relv = str_chars(rel.as_str());
                let mut htmlv: Vec<char> = Vec::new();
                htmlv.push('h');
                htmlv.push('t');
                htmlv.push('m');
                htmlv.push('l');
                proof {
                    assert(htmlv@ =~= html_ext());
                }
                let locv = set_ext_chars(&relv, &htmlv);
                let location = chars_string(&locv);
                proof {
                    assert(strs_view(files@)[j as int] == files@[j as int]@);
                    assert(location@ == interlink_location(
                        strs_view(files@)[match_idx(strs_view(files@), 0, name@)],
                        path@,
                    ));
                }
                Ok(Inline::InterLink { name: name.clone(), location })
            } else if count == 0 {
                Err(BindError::NoMatch(name.clone()))
            } else {
                Err(BindError::MultipleMatches(name.clone()))
            }
        },
        Inline::SoftBreak => Ok(Inline::SoftBreak),
        Inline::Text(t) => Ok(Inline::Text(t.clone())),
        Inline::Code(t) => Ok(Inline::Code(t.clone())),
        Inline::AbsoluteLink { location } => Ok(Inline::AbsoluteLink { location: location.clone() }),
        Inline::ReferenceLink { name, location } => Ok(
            Inline::ReferenceLink { name: name.clone(), location: location.clone() },
        ),
    }
}

/// What `match_idx` returns: a match when the count is positive.
pub proof fn lemma_match_idx(files: Seq<Seq<char>>, i: int, name: Seq<char>)
    requires
        0 <= i,
    ensures
        match_count(files, i, name) > 0 <==> match_idx(files, i, name) >= 0,
        match_idx(files, i, name) >= 0 ==> i <= match_idx(files, i, name) < files.len()
            && name_matches(files[match_idx(files, i, name)], name),
    decreases files.len() - i,
{
    if i < files.len() {
        lemma_match_idx(files, i + 1, name);
    }
}

/// Binds every inline of a content list, in order, stopping at the first
/// fault.
fn bind_content(content: &Vec<Inline>, files: &Vec<String>, path: &str) -> (r: Result<
    Vec<Inline>,
    BindError,
>)
    requires
        bind_inputs_ok(strs_view(files@), path@),
    ensures
        match r {
            Ok(c) => spec_bind_inlines(inlines_view(content@), 0, strs_view(files@), path@) == Ok::<
                Seq<InlineV>,
                BindErrorV,
            >(inlines_view(c@)),
            Err(e) => spec_bind_inlines(inlines_view(content@), 0, strs_view(files@), path@)
                == Err::<Seq<InlineV>, BindErrorV>(e.view()),
        },
    decreases content,
{
    let ghost cv = inlines_view(content@);
    let mut out: Vec<Inline> = Vec::new();
    let mut i: usize = 0;
    let n = content.len();
    proof {
        lemma_inlines_view(content@);
        assert(inlines_view(out@) =~= Seq::<InlineV>::empty());
    }
    while i < n
        invariant
            i <= n,
            n == content@.len(),
            cv == inlines_view(content@),
            cv.len() == n,
            bind_inputs_ok(strs_view(files@), path@),
            spec_bind_inlines(cv, i as int, strs_view(files@), path@) matches Ok(rest)
                ==> spec_bind_inlines(cv, 0, strs_view(files@), path@) == Ok::<
                Seq<InlineV>,
                BindErrorV,
            >(inlines_view(out@) + rest),
            spec_bind_inlines(cv, i as int, strs_view(files@), path@) matches Err(e)
                ==> spec_bind_inlines(cv, 0, strs_view(files@), path@) == Err::<
                Seq<InlineV>,
                BindErrorV,
            >(e),
        decreases n - i,
    {
        proof {
            lemma_inlines_view(content@);
            assert(cv[i as int] == content@[i as int].view());
        }
        match make_interlinks(&content[i], files, path) {
            Ok(il) => {
                let ghost gil = il;
                let ghost ovec = out@;
                let ghost outv = inlines_view(out@);
                out.push(il);
                proof {
                    crate::inline::lemma_inlines_view_push(ovec, gil);
                    assert(out@ == ovec.push(gil));
                    if spec_bind_inlines(cv, i + 1, strs_view(files@), path@) is Ok {
                        let rest = spec_bind_inlines(cv, i + 1, strs_view(files@), path@)->Ok_0;
                        assert(spec_bind_inlines(cv, i as int, strs_view(files@), path@) == Ok::<
                            Seq<InlineV>,
                            BindErrorV,
                        >(seq![gil.view()] + rest));
                        assert(outv + (seq![gil.view()] + rest) =~= outv.push(gil.view()) + rest);
                    }
                }
            },
            Err(e) => {
                return Err(e);
            },
        }
        i = i + 1;
    }
    proof {
        assert(spec_bind_inlines(cv, n as int, strs_view(files@), path@) == Ok::<
            Seq<InlineV>,
            BindErrorV,
        >(Seq::empty()));
        assert(inlines_view(out@) + Seq::<InlineV>::empty() =~= inlines_view(out@));
    }
    Ok(out)
}

/// Binds every interlink of a parsed document against the document paths
/// of the whole tree. On a fault nothing is produced: the document is
/// replaced as a whole only when every interlink resolved.
pub fn bind_document(parser: Parser, files: &Vec<String>, path: &str) -> (r: Result<
    Parser,
    BindError,
>)
    requires
        bind_inputs_ok(strs_view(files@), path@),
    ensures
        match r {
            Ok(p) => spec_bind_blocks(parser@, 0, strs_view(files@), path@) == Ok::<
                Seq<BlockV>,
                BindErrorV,
            >(p@),
            Err(e) => spec_bind_blocks(parser@, 0, strs_view(files@), path@) == Err::<
                Seq<BlockV>,
                BindErrorV,
            >(e.view()),
        },
        crate::html::blocks_wf(parser@) && (r matches Ok(p)) ==> crate::html::blocks_wf(
            r->Ok_0@,
        ),
{
    proof {
        if crate::html::blocks_wf(blocks_view(parser.blocks@)) {
            lemma_bind_wf(blocks_view(parser.blocks@), 0, strs_view(files@), path@);
        }
    }
    let ghost bv = blocks_view(parser.blocks@);
    let ghost origvec = parser.blocks@;
    let mut rem = parser.blocks;
    let mut out: Vec<Block> = Vec::new();
    proof {
        assert(origvec.skip(0) =~= origvec);
        assert(blocks_view(out@) =~= Seq::<BlockV>::empty());
    }
    while rem.len() > 0
        invariant
            rem@.len() <= origvec.len(),
            rem@ == origvec.skip(origvec.len() - rem@.len()),
            bv == blocks_view(origvec),
            bv == parser@,
            bv.len() == origvec.len(),
            bind_inputs_ok(strs_view(files@), path@),
            spec_bind_blocks(bv, origvec.len() - rem@.len(), strs_view(files@), path@) matches Ok(
                rest,
            ) ==> spec_bind_blocks(bv, 0, strs_view(files@), path@) == Ok::<
                Seq<BlockV>,
                BindErrorV,
            >(blocks_view(out@) + rest),
            spec_bind_blocks(bv, origvec.len() - rem@.len(), strs_view(files@), path@) matches Err(
                e,
            ) ==> spec_bind_blocks(bv, 0, strs_view(files@), path@) == Err::<
                Seq<BlockV>,
                BindErrorV,
            >(e),
        decreases rem@.len(),
    {
        let ghost i0 = origvec.len() - rem@.len();
        let ghost outv = blocks_view(out@);
        let b = rem.remove(0);
        let ghost gb = b;
        proof {
            assert(rem@ =~= origvec.skip(i0 + 1));
            assert(gb == origvec.skip(i0)[0]);
            assert(gb == origvec[i0]);
            assert(gb.view() == bv[i0]);
        }
        let nb: Block = match b {
            Block::Header { level, content } => {
                match bind_content(&content, files, path) {
                    Ok(c) => Block::Header { level, content: c },
                    Err(e) => {
                        return Err(e);
                    },
                }
            },
            Block::Paragraph { content } => {
                match bind_content(&content, files, path) {
                    Ok(c) => Block::Paragraph { content: c },
                    Err(e) => {
                        return Err(e);
                    },
                }
            },
            Block::CodeBlock { language, content } => Block::CodeBlock { language, content },
            Block::Image { src, alt } => Block::Image { src, alt },
        };
        let ghost gnb = nb;
        let ghost ovec = out@;
        out.push(nb);
        proof {
            assert(out@ == ovec.push(gnb));
            assert(blocks_view(out@) =~= outv.push(gnb.view()));
            assert(spec_bind_block(bv[i0], strs_view(files@), path@) == Ok::<BlockV, BindErrorV>(
                gnb.view(),
            ));
            assert(origvec.len() - rem@.len() == i0 + 1);
            if spec_bind_blocks(bv, i0 + 1, strs_view(files@), path@) is Ok {
                let rest = spec_bind_blocks(bv, i0 + 1, strs_view(files@), path@)->Ok_0;
                assert(spec_bind_blocks(bv, i0, strs_view(files@), path@) == Ok::<
                    Seq<BlockV>,
                    BindErrorV,
                >(seq![gnb.view()] + rest));
                assert(outv + (seq![gnb.view()] + rest) =~= outv.push(gnb.view()) + rest);
            }
        }
    }
    proof {
        let i0 = origvec.len() - rem@.len();
        assert(i0 == origvec.len());
        assert(spec_bind_blocks(bv, i0, strs_view(files@), path@) == Ok::<Seq<BlockV>, BindErrorV>(
            Seq::empty(),
        ));
        assert(blocks_view(out@) + Seq::<BlockV>::empty() =~= blocks_view(out@));
    }
    Ok(out_parser(out))
}

/// Wraps bound blocks back into a document.
fn out_parser(blocks: Vec<Block>) -> (r: Parser)
    ensures
        r@ == blocks_view(blocks@),
{
    Parser { blocks }
}

/// Every interlink of one inline names exactly one document.
pub open spec fn links_ok_inline(il: InlineV, files: Seq<Seq<char>>) -> bool
    decreases il,
{
    match il {
        InlineV::Italic(content) => links_ok_inlines(content, 0, files),
        InlineV::Bold(content) => links_ok_inlines(content, 0, files),
        InlineV::InterLink(name, _loc) => match_count(files, 0, name) == 1,
        _ => true,
    }
}

/// Every interlink of a content list from position `i` on names exactly
/// one document.
pub open spec fn links_ok_inlines(content: Seq<InlineV>, i: int, files: Seq<Seq<char>>) -> bool
    decreases content, content.len() - i + 1,
{
    i >= content.len() || i < 0 || (links_ok_inline(content[i], files) && links_ok_inlines(
        content,
        i + 1,
        files,
    ))
}

/// Every interlink of the blocks from position `i` on names exactly one
/// document.
pub open spec fn links_ok_blocks(blocks: Seq<BlockV>, i: int, files: Seq<Seq<char>>) -> bool
    decreases blocks.len() - i,
{
    i >= blocks.len() || i < 0 || ((match blocks[i] {
        BlockV::Header { content, .. } => links_ok_inlines(content, 0, files),
        BlockV::Paragraph { content } => links_ok_inlines(content, 0, files),
        _ => true,
    }) && links_ok_blocks(blocks, i + 1, files))
}

/// Binding one inline succeeds exactly when each of its interlinks names
/// exactly one document.
proof fn lemma_bind_inline_ok(il: InlineV, files: Seq<Seq<char>>, doc: Seq<char>)
    ensures
        links_ok_inline(il, files) <==> spec_bind_inline(il, files, doc) is Ok,
    decreases il, 0int,
{
    match il {
        InlineV::Italic(content) => {
            lemma_bind_inlines_ok(content, 0, files, doc);
        },
        InlineV::Bold(content) => {
            lemma_bind_inlines_ok(content, 0, files, doc);
        },
        _ => {},
    }
}

/// Binding a content list succeeds exactly when each of its interlinks
/// names exactly one document.
proof fn lemma_bind_inlines_ok(content: Seq<InlineV>, i: int, files: Seq<Seq<char>>, doc: Seq<char>)
    requires
        0 <= i,
    ensures
        links_ok_inlines(content, i, files) <==> spec_bind_inlines(content, i, files, doc) is Ok,
    decreases content, content.len() - i + 1,
{
    if i < content.len() {
        lemma_bind_inline_ok(content[i], files, doc);
        lemma_bind_inlines_ok(content, i + 1, files, doc);
    }
}

/// The whole-document side of the interlink uniqueness law: binding a
/// document succeeds exactly when every interlink reachable through its
/// headers and paragraphs names exactly one document; the first one that
/// does not is the fault reported, and on a fault no bound document
/// exists at all.
pub proof fn lemma_bind_document_ok(blocks: Seq<BlockV>, i: int, files: Seq<Seq<char>>, doc: Seq<char>)
    requires
        0 <= i,
    ensures
        links_ok_blocks(blocks, i, files) <==> spec_bind_blocks(blocks, i, files, doc) is Ok,
    decreases blocks.len() - i,
{
    if i < blocks.len() {
        match blocks[i] {
            BlockV::Header { content, .. } => {
                lemma_bind_inlines_ok(content, 0, files, doc);
            },
            BlockV::Paragraph { content } => {
                lemma_bind_inlines_ok(content, 0, files, doc);
            },
            _ => {},
        }
        lemma_bind_document_ok(blocks, i + 1, files, doc);
    }
}

/// The interlink uniqueness law. For any document set and any name: when
/// exactly one document path matches the name, binding the interlink
/// succeeds, and the relative location it receives, resolved against the
/// directory of the source document, is exactly the matched document's
/// path — with the page extension replacing the document extension. When
/// no path or several match, binding reports the fault instead.
pub proof fn lemma_interlink_binding(name: Seq<char>, files: Seq<Seq<char>>, doc: Seq<char>)
    requires
        bind_inputs_ok(files, doc),
        forall|i: int, j: int|
            0 <= i < files.len() && 0 <= j < path_comps(files[i]).len() ==> #[trigger] path_comps(
                files[i],
            )[j] != dotdot(),
    ensures
        match_count(files, 0, name) == 1 ==> {
            let f = files[match_idx(files, 0, name)];
            let par = spec_parent(doc)->Some_0;
            let rel = spec_relativise(par, f)->Some_0;
            &&& spec_bind_inline(InlineV::InterLink(name, Seq::empty()), files, doc) == Ok::<
                InlineV,
                BindErrorV,
            >(InlineV::InterLink(name, set_ext(rel, html_ext())))
            &&& name_matches(f, name)
            &&& path_comps(par) == path_comps(doc).drop_last()
            &&& resolve(path_comps(par), path_comps(rel)) == path_comps(f)
        },
        match_count(files, 0, name) == 0 ==> spec_bind_inline(
            InlineV::InterLink(name, Seq::empty()),
            files,
            doc,
        ) == Err::<InlineV, BindErrorV>(BindErrorV::NoMatch(name)),
        match_count(files, 0, name) >= 2 ==> spec_bind_inline(
            InlineV::InterLink(name, Seq::empty()),
            files,
            doc,
        ) == Err::<InlineV, BindErrorV>(BindErrorV::MultipleMatches(name)),
{
    if match_count(files, 0, name) == 1 {
        lemma_match_idx(files, 0, name);
        let f = files[match_idx(files, 0, name)];
        let dc = path_comps(doc);
        let par = spec_parent(doc)->Some_0;
        assert(spec_parent(doc) is Some);
        assert(par == seq!['/'] + join_comps(dc.drop_last()));
        assert(is_absolute(par));
        lemma_path_comps_lead_slash(join_comps(dc.drop_last()));
        assert(comps_all_wf(dc.drop_last())) by {
            lemma_path_comps_wf(doc);
            assert(forall|i: int|
                0 <= i < dc.drop_last().len() ==> dc.drop_last()[i] == #[trigger] dc[i]);
        }
        lemma_join_roundtrip(dc.drop_last());
        assert(path_comps(par) == dc.drop_last());
        assert(is_absolute(f));
        lemma_relativise_resolves(par, f);
    }
}

/// Binding keeps every header level between one and four.
pub proof fn lemma_bind_wf(blocks: Seq<BlockV>, i: int, files: Seq<Seq<char>>, doc: Seq<char>)
    requires
        crate::html::blocks_wf(blocks),
        0 <= i,
    ensures
        spec_bind_blocks(blocks, i, files, doc) matches Ok(bs) ==> crate::html::blocks_wf(bs),
    decreases blocks.len() - i,
{
    if i < blocks.len() {
        lemma_bind_wf(blocks, i + 1, files, doc);
        if spec_bind_blocks(blocks, i, files, doc) is Ok {
            let bs = spec_bind_blocks(blocks, i, files, doc)->Ok_0;
            let b = spec_bind_block(blocks[i], files, doc)->Ok_0;
            let rest = spec_bind_blocks(blocks, i + 1, files, doc)->Ok_0;
            assert(crate::html::block_wf(blocks[i]));
            assert(crate::html::block_wf(b));
            assert forall|k: int| 0 <= k < bs.len() implies crate::html::block_wf(
                #[trigger] bs[k],
            ) by {
                if k == 0 {
                    assert(bs[0] == b);
                } else {
                    assert(bs[k] == rest[k - 1]);
                }
            }
        }
    }
}

} // verus!
