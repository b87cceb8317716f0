use vstd::prelude::*;

use crate::element::{Inline, InlineV, inlines_view, lemma_inlines_view};
use crate::linkref::LinkRefs;
use crate::text::{
    chars_string, find_pattern, first_match_from, lemma_first_match_from, matches_at, subvec,
};

verus! {

/// A token of the inline scanner: accumulated text, a code span, or an
/// emphasis delimiter.
pub enum Token {
    Text(String),
    Code(String),
    Italic,
    Bold,
}

/// The mathematical shape of a `Token`.
pub enum TokenV {
    Text(Seq<char>),
    Code(Seq<char>),
    Italic,
    Bold,
}

impl Token {
    pub open spec fn view(&self) -> TokenV {
        match self {
            Token::Text(t) => TokenV::Text(t@),
            Token::Code(t) => TokenV::Code(t@),
            Token::Italic => TokenV::Italic,
            Token::Bold => TokenV::Bold,
        }
    }
}

/// The shape of a sequence of tokens.
pub open spec fn tokens_view(ts: Seq<Token>) -> Seq<TokenV> {
    Seq::new(ts.len(), |i: int| ts[i].view())
}

/// An entry of the nesting stack: a pending delimiter token or a finished
/// inline.
pub enum TokenOrInline {
    Token(Token),
    Inline(Inline),
}

/// The mathematical shape of a stack entry.
pub enum TokenOrInlineV {
    Token(TokenV),
    Inline(InlineV),
}

impl TokenOrInline {
    pub open spec fn view(&self) -> TokenOrInlineV {
        match self {
            TokenOrInline::Token(t) => TokenOrInlineV::Token(t.view()),
            TokenOrInline::Inline(i) => TokenOrInlineV::Inline(i.view()),
        }
    }

    /// Whether this stack entry is a pending token rather than an inline.
    pub fn is_token(&self) -> (r: bool)
        ensures
            r == (self.view() is Token),
    {
        match self {
            TokenOrInline::Token(_) => true,
            _ => false,
        }
    }
}

/// The shape of a sequence of stack entries.
pub open spec fn tois_view(s: Seq<TokenOrInline>) -> Seq<TokenOrInlineV> {
    Seq::new(s.len(), |i: int| s[i].view())
}

/// What a link span `{...}` classifies to: empty content stays literal
/// text, content after `!` is looked up in the reference table and falls
/// back to literal text on a miss, and anything else is an interlink whose
/// location is filled in later by the binder.
pub open spec fn spec_get_link(inside: Seq<char>, refs: Map<Seq<char>, Seq<char>>) -> InlineV {
    if inside.len() == 0 {
        InlineV::Text(seq!['{', '}'])
    } else if inside[0] == '!' {
        let name = inside.skip(1);
        if refs.contains_key(name) {
            InlineV::ReferenceLink(name, refs[name])
        } else {
            InlineV::Text(seq!['{'] + inside + seq!['}'])
        }
    } else {
        InlineV::InterLink(inside, Seq::empty())
    }
}

/// Link classification of a text span: a double-brace span anywhere in the
/// text becomes an absolute link with both sides classified again; else a
/// single-brace span becomes a link by `spec_get_link`, the text before it
/// stays as it is and only the text after it is classified again; else the
/// whole text is plain.
pub open spec fn spec_do_links(s: Seq<char>, refs: Map<Seq<char>, Seq<char>>) -> Seq<InlineV>
    decreases s.len(), 1int,
    via spec_do_links_dec
{
    match first_match_from(s, seq!['{', '{'], 0) {
        Some(st) => match first_match_from(s, seq!['}', '}'], st + 2) {
            Some(en) => spec_do_links(s.take(st), refs) + seq![
                InlineV::AbsoluteLink(s.subrange(st + 2, en)),
            ] + spec_do_links(s.skip(en + 2), refs),
            None => spec_do_links_single(s, refs),
        },
        None => spec_do_links_single(s, refs),
    }
}

/// Link classification once no double-brace span is present.
pub open spec fn spec_do_links_single(
    s: Seq<char>,
    refs: Map<Seq<char>, Seq<char>>,
) -> Seq<InlineV>
    decreases s.len(), 0int,
    via spec_do_links_single_dec
{
    match first_match_from(s, seq!['{'], 0) {
        Some(st) => match first_match_from(s, seq!['}'], st + 1) {
            Some(en) => seq![
                InlineV::Text(s.take(st)),
                spec_get_link(s.subrange(st + 1, en), refs),
            ] + spec_do_links(s.skip(en + 1), refs),
            None => seq![InlineV::Text(s)],
        },
        None => seq![InlineV::Text(s)],
    }
}

#[via_fn]
proof fn spec_do_links_dec(s: Seq<char>, refs: Map<Seq<char>, Seq<char>>) {
    match first_match_from(s, seq!['{', '{'], 0) {
        Some(st) => {
            lemma_first_match_from(s, seq!['{', '{'], 0);
            match first_match_from(s, seq!['}', '}'], st + 2) {
                Some(en) => {
                    lemma_first_match_from(s, seq!['}', '}'], st + 2);
                },
                None => {},
            }
        },
        None => {},
    }
}

#[via_fn]
proof fn spec_do_links_single_dec(s: Seq<char>, refs: Map<Seq<char>, Seq<char>>) {
    match first_match_from(s, seq!['{'], 0) {
        Some(st) => {
            lemma_first_match_from(s, seq!['{'], 0);
            match first_match_from(s, seq!['}'], st + 1) {
                Some(en) => {
                    lemma_first_match_from(s, seq!['}'], st + 1);
                },
                None => {},
            }
        },
        None => {},
    }
}

/// The shape of a pushed sequence grows by the shape of the new element.
pub proof fn lemma_inlines_view_push(v: Seq<Inline>, x: Inline)
    ensures
        inlines_view(v.push(x)) == inlines_view(v).push(x.view()),
{
    lemma_inlines_view(v);
    lemma_inlines_view(v.push(x));
    assert forall|i: int| 0 <= i < v.len() + 1 implies inlines_view(v.push(x))[i] == inlines_view(
        v,
    ).push(x.view())[i] by {
        if i < v.len() {
            assert(v.push(x)[i] == v[i]);
            assert(inlines_view(v.push(x))[i] == v.push(x)[i].view());
            assert(inlines_view(v)[i] == v[i].view());
        } else {
            assert(v.push(x)[i] == x);
            assert(inlines_view(v.push(x))[i] == v.push(x)[i].view());
        }
    }
    assert(inlines_view(v.push(x)) =~= inlines_view(v).push(x.view()));
}

/// The shape of a concatenation is the concatenation of the shapes.
pub proof fn lemma_inlines_view_concat(a: Seq<Inline>, b: Seq<Inline>)
    ensures
        inlines_view(a + b) == inlines_view(a) + inlines_view(b),
{
    lemma_inlines_view(a);
    lemma_inlines_view(b);
    lemma_inlines_view(a + b);
    assert forall|i: int| 0 <= i < a.len() + b.len() implies inlines_view(a + b)[i] == (
    inlines_view(a) + inlines_view(b))[i] by {
        assert(inlines_view(a + b)[i] == (a + b)[i].view());
        if i < a.len() {
            assert((a + b)[i] == a[i]);
            assert(inlines_view(a)[i] == a[i].view());
        } else {
            assert((a + b)[i] == b[i - a.len()]);
            assert(inlines_view(b)[i - a.len()] == b[i - a.len()].view());
        }
    }
    assert(inlines_view(a + b) =~= inlines_view(a) + inlines_view(b));
}

/// Classifies the content of a single-brace span, as `spec_get_link` says.
pub fn get_link(inside: &Vec<char>, refs: &LinkRefs) -> (r: Inline)
    requires
        refs.wf(),
    ensures
        r.view() == spec_get_link(inside@, refs@),
{
    if inside.len() == 0 {
        let mut t: Vec<char> = Vec::new();
        t.push('{');
        t.push('}');
        proof {
            assert(t@ =~= seq!['{', '}']);
        }
        return Inline::Text(chars_string(&t));
    }
    if inside[0] == '!' {
        let name_chars = subvec(inside, 1, inside.len());
        proof {
            assert(inside@.subrange(1, inside@.len() as int) =~= inside@.skip(1));
        }
        let name = chars_string(&name_chars);
        match refs.get(&name) {
            Some(location) => Inline::ReferenceLink { name, location },
            None => {
                let mut t: Vec<char> = Vec::new();
                t.push('{');
                let mut mid = inside.clone();
                t.append(&mut mid);
                t.push('}');
                proof {
                    assert(t@ =~= seq!['{'] + inside@ + seq!['}']);
                }
                Inline::Text(chars_string(&t))
            },
        }
    } else {
        Inline::InterLink { name: chars_string(inside), location: String::new() }
    }
}

/// Scans a text span for the three link forms of the dialect and splits it
/// into plain text and link inlines, as `spec_do_links` says.
pub fn do_links(v: &Vec<char>, refs: &LinkRefs) -> (r: Vec<Inline>)
    requires
        refs.wf(),
    ensures
        inlines_view(r@) == spec_do_links(v@, refs@),
    decreases v@.len(),
{
    let mut open2: Vec<char> = Vec::new();
    open2.push('{');
    open2.push('{');
    let mut close2: Vec<char> = Vec::new();
    close2.push('}');
    close2.push('}');
    proof {
        assert(open2@ =~= seq!['{', '{']);
        assert(close2@ =~= seq!['}', '}']);
    }
    let n = v.len();
    match find_pattern(v, &open2, 0) {
        Some(st) => {
            proof {
                lemma_first_match_from(v@, open2@, 0);
                assert(st + 2 <= v@.len());
            }
            match find_pattern(v, &close2, st + 2) {
                Some(en) => {
                    proof {
                        lemma_first_match_from(v@, close2@, st + 2 as int);
                        assert(st + 2 <= en && en + 2 <= v@.len());
                    }
                    let before = subvec(v, 0, st);
                    let inside = subvec(v, st + 2, en);
                    let after = subvec(v, en + 2, v.len());
                    proof {
                        assert(before@ =~= v@.take(st as int));
                        assert(after@ =~= v@.skip(en + 2 as int));
                    }
                    let mut r = do_links(&before, refs);
                    let ghost r0 = r@;
                    let link = Inline::AbsoluteLink { location: chars_string(&inside) };
                    let ghost glink = link;
                    r.push(link);
                    let mut rest = do_links(&after, refs);
                    let ghost r1 = r@;
                    let ghost restv = rest@;
                    r.append(&mut rest);
                    proof {
                        lemma_inlines_view_push(r0, glink);
                        assert(r1 == r0.push(glink));
                        lemma_inlines_view_concat(r1, restv);
                        assert(inlines_view(r0).push(
                            InlineV::AbsoluteLink(v@.subrange(st + 2 as int, en as int)),
                        ) + inlines_view(restv) =~= inlines_view(r0) + seq![
                            InlineV::AbsoluteLink(v@.subrange(st + 2 as int, en as int)),
                        ] + inlines_view(restv));
                    }
                    r
                },
                None => {
                    let r = do_links_single(v, refs);
                    proof {
                        assert(spec_do_links(v@, refs@) == spec_do_links_single(v@, refs@));
                    }
                    r
                },
            }
        },
        None => {
            let r = do_links_single(v, refs);
            proof {
                assert(spec_do_links(v@, refs@) == spec_do_links_single(v@, refs@));
            }
            r
        },
    }
}

/// Scans for the single-brace link forms.
fn do_links_single(v: &Vec<char>, refs: &LinkRefs) -> (r: Vec<Inline>)
    requires
        refs.wf(),
        first_match_from(v@, seq!['{', '{'], 0) matches Some(st) ==> first_match_from(
            v@,
            seq!['}', '}'],
            st + 2,
        ) is None,
    ensures
        inlines_view(r@) == spec_do_links_single(v@, refs@),
    decreases v@.len(), 0int,
{
    let mut open1: Vec<char> = Vec::new();
    open1.push('{');
    let mut close1: Vec<char> = Vec::new();
    close1.push('}');
    proof {
        assert(open1@ =~= seq!['{']);
        assert(close1@ =~= seq!['}']);
    }
    let n = v.len();
    match find_pattern(v, &open1, 0) {
        Some(st) => {
            proof {
                lemma_first_match_from(v@, open1@, 0);
                assert(st + 1 <= v@.len());
            }
            match find_pattern(v, &close1, st + 1) {
                Some(en) => {
                    proof {
                        lemma_first_match_from(v@, close1@, st + 1 as int);
                        assert(st + 1 <= en && en + 1 <= v@.len());
                    }
                    let before = subvec(v, 0, st);
                    let inside = subvec(v, st + 1, en);
                    let after = subvec(v, en + 1, v.len());
                    proof {
                        assert(before@ =~= v@.take(st as int));
                        assert(after@ =~= v@.skip(en + 1 as int));
                    }
                    let mut r: Vec<Inline> = Vec::new();
                    r.push(Inline::Text(chars_string(&before)));
                    r.push(get_link(&inside, refs));
                    let ghost r1 = r@;
                    let mut rest = do_links(&after, refs);
                    let ghost restv = rest@;
                    r.append(&mut rest);
                    proof {
                        lemma_inlines_view_concat(r1, restv);
                        lemma_inlines_view(r1);
                        assert(r1[0].view() == InlineV::Text(v@.take(st as int)));
                        assert(r1[1].view() == spec_get_link(
                            v@.subrange(st + 1 as int, en as int),
                            refs@,
                        ));
                        assert(inlines_view(r1) =~= seq![
                            InlineV::Text(v@.take(st as int)),
                            spec_get_link(v@.subrange(st + 1 as int, en as int), refs@),
                        ]);
                    }
                    r
                },
                None => {
                    let mut r: Vec<Inline> = Vec::new();
                    r.push(Inline::Text(chars_string(v)));
                    proof {
                        lemma_inlines_view(r@);
                        assert(r@[0].view() == InlineV::Text(v@));
                        assert(inlines_view(r@) =~= seq![InlineV::Text(v@)]);
                    }
                    r
                },
            }
        },
        None => {
            let mut r: Vec<Inline> = Vec::new();
            r.push(Inline::Text(chars_string(v)));
            proof {
                lemma_inlines_view(r@);
                assert(r@[0].view() == InlineV::Text(v@));
                assert(inlines_view(r@) =~= seq![InlineV::Text(v@)]);
            }
            r
        },
    }
}

/// The token scan of a text span, from position `i`, with the tokens made
/// so far, the text accumulated since the last flush, and the code flag.
/// A backtick toggles a code span; `**` is a bold delimiter, a lone `*` an
/// italic delimiter, and each delimiter or toggle flushes the accumulated
/// text (possibly empty) as a text token. A code span left open runs to
/// the end of the span.
pub open spec fn spec_tokenize(
    s: Seq<char>,
    i: int,
    toks: Seq<TokenV>,
    cur: Seq<char>,
    code: bool,
) -> Seq<TokenV>
    decreases s.len() - i,
{
    if i < 0 || i >= s.len() {
        if code {
            toks.push(TokenV::Code(cur))
        } else {
            toks.push(TokenV::Text(cur))
        }
    } else if code {
        if s[i] == '`' {
            spec_tokenize(s, i + 1, toks.push(TokenV::Code(cur)), Seq::empty(), false)
        } else {
            spec_tokenize(s, i + 1, toks, cur.push(s[i]), true)
        }
    } else if s[i] == '`' {
        spec_tokenize(s, i + 1, toks.push(TokenV::Text(cur)), Seq::empty(), true)
    } else if s[i] == '*' {
        if i + 1 < s.len() && s[i + 1] == '*' {
            spec_tokenize(
                s,
                i + 2,
                toks.push(TokenV::Text(cur)).push(TokenV::Bold),
                Seq::empty(),
                false,
            )
        } else {
            spec_tokenize(
                s,
                i + 1,
                toks.push(TokenV::Text(cur)).push(TokenV::Italic),
                Seq::empty(),
                false,
            )
        }
    } else {
        spec_tokenize(s, i + 1, toks, cur.push(s[i]), false)
    }
}

/// The tokens of a whole text span.
pub open spec fn spec_tokens(s: Seq<char>) -> Seq<TokenV> {
    spec_tokenize(s, 0, Seq::empty(), Seq::empty(), false)
}

/// Scans a text span into tokens, as `spec_tokens` says.
pub fn tokenize(v: &Vec<char>) -> (r: Vec<Token>)
    ensures
        tokens_view(r@) == spec_tokens(v@),
{
    let mut toks: Vec<Token> = Vec::new();
    let mut cur: Vec<char> = Vec::new();
    let mut code = false;
    let mut i: usize = 0;
    let n = v.len();
    proof {
        assert(tokens_view(toks@) =~= Seq::<TokenV>::empty());
        assert(cur@ =~= Seq::<char>::empty());
    }
    while i < n
        invariant
            i <= n,
            n == v@.len(),
            spec_tokens(v@) == spec_tokenize(v@, i as int, tokens_view(toks@), cur@, code),
        decreases n - i,
    {
        let ghost tv = tokens_view(toks@);
        if code {
            if v[i] == '`' {
                let t = Token::Code(chars_string(&cur));
                let ghost gt = t;
                toks.push(t);
                cur = Vec::new();
                code = false;
                proof {
                    assert(tokens_view(toks@) =~= tv.push(gt.view()));
                    assert(cur@ =~= Seq::<char>::empty());
                }
            } else {
                cur.push(v[i]);
            }
            i = i + 1;
        } else if v[i] == '`' {
            let t = Token::Text(chars_string(&cur));
            let ghost gt = t;
            toks.push(t);
            cur = Vec::new();
            code = true;
            proof {
                assert(tokens_view(toks@) =~= tv.push(gt.view()));
                assert(cur@ =~= Seq::<char>::empty());
            }
            i = i + 1;
        } else if v[i] == '*' {
            let t = Token::Text(chars_string(&cur));
            let ghost gt = t;
            toks.push(t);
            cur = Vec::new();
            let ghost tv2 = tokens_view(toks@);
            proof {
                assert(tokens_view(toks@) =~= tv.push(gt.view()));
                assert(cur@ =~= Seq::<char>::empty());
            }
            if i + 1 < n && v[i + 1] == '*' {
                toks.push(Token::Bold);
                proof {
                    assert(tokens_view(toks@) =~= tv2.push(TokenV::Bold));
                }
                i = i + 2;
            } else {
                toks.push(Token::Italic);
                proof {
                    assert(tokens_view(toks@) =~= tv2.push(TokenV::Italic));
                }
                i = i + 1;
            }
        } else {
            cur.push(v[i]);
            i = i + 1;
        }
    }
    if code {
        let t = Token::Code(chars_string(&cur));
        let ghost gt = t;
        let ghost tv = tokens_view(toks@);
        toks.push(t);
        proof {
            assert(tokens_view(toks@) =~= tv.push(gt.view()));
        }
    } else {
        let t = Token::Text(chars_string(&cur));
        let ghost gt = t;
        let ghost tv = tokens_view(toks@);
        toks.push(t);
        proof {
            assert(tokens_view(toks@) =~= tv.push(gt.view()));
        }
    }
    toks
}

/// The last position of `m` in `stack`, or `-1`.
pub open spec fn last_marker(stack: Seq<TokenOrInlineV>, m: TokenOrInlineV) -> int
    decreases stack.len(),
{
    if stack.len() == 0 {
        -1
    } else if stack.last() == m {
        stack.len() - 1
    } else {
        last_marker(stack.drop_last(), m)
    }
}

/// What `last_marker` returns: the last such position, and none later.
pub proof fn lemma_last_marker(stack: Seq<TokenOrInlineV>, m: TokenOrInlineV)
    ensures
        last_marker(stack, m) >= -1,
        last_marker(stack, m) == -1 ==> forall|i: int| 0 <= i < stack.len() ==> stack[i] != m,
        last_marker(stack, m) >= 0 ==> 0 <= last_marker(stack, m) < stack.len() && stack[last_marker(
            stack,
            m,
        )] == m,
        last_marker(stack, m) >= 0 ==> forall|i: int|
            last_marker(stack, m) < i < stack.len() ==> stack[i] != m,
    decreases stack.len(),
{
    if stack.len() > 0 && stack.last() != m {
        lemma_last_marker(stack.drop_last(), m);
        assert(forall|i: int| 0 <= i < stack.len() - 1 ==> stack.drop_last()[i] == stack[i]);
    }
}

/// The position holding `m` with nothing equal to `m` above it is the
/// last one.
pub proof fn lemma_last_marker_unique(stack: Seq<TokenOrInlineV>, m: TokenOrInlineV, p: int)
    requires
        0 <= p < stack.len(),
        stack[p] == m,
        forall|i: int| p < i < stack.len() ==> stack[i] != m,
    ensures
        last_marker(stack, m) == p,
    decreases stack.len(),
{
    if p == stack.len() - 1 {
    } else {
        assert(stack.last() != m);
        assert(forall|i: int| 0 <= i < stack.len() - 1 ==> stack.drop_last()[i] == stack[i]);
        lemma_last_marker_unique(stack.drop_last(), m, p);
    }
}

/// The inlines among the stack entries, in order; pending delimiter
/// tokens among them are dropped.
pub open spec fn filter_inlines(s: Seq<TokenOrInlineV>) -> Seq<InlineV>
    decreases s.len(),
{
    if s.len() == 0 {
        Seq::empty()
    } else {
        match s[0] {
            TokenOrInlineV::Inline(il) => seq![il] + filter_inlines(s.drop_first()),
            _ => filter_inlines(s.drop_first()),
        }
    }
}

/// Each inline made a stack entry.
pub open spec fn wrap_inlines(ils: Seq<InlineV>) -> Seq<TokenOrInlineV> {
    Seq::new(ils.len(), |i: int| TokenOrInlineV::Inline(ils[i]))
}

/// The delimiter stack entry of an emphasis kind: italic when the flag is
/// set, else bold.
pub open spec fn marker_of(italic: bool) -> TokenOrInlineV {
    if italic {
        TokenOrInlineV::Token(TokenV::Italic)
    } else {
        TokenOrInlineV::Token(TokenV::Bold)
    }
}

/// One emphasis delimiter applied to the stack: with a matching open
/// delimiter on the stack, everything above it is popped and wrapped (in
/// order, dropping pending delimiters of the other kind) into an emphasis
/// node pushed in its place; without one the delimiter is pushed as an
/// open marker.
pub open spec fn spec_emph_step(stack: Seq<TokenOrInlineV>, italic: bool) -> Seq<TokenOrInlineV> {
    let m = marker_of(italic);
    let j = last_marker(stack, m);
    if j >= 0 {
        let content = filter_inlines(stack.skip(j + 1));
        let node = if italic {
            InlineV::Italic(content)
        } else {
            InlineV::Bold(content)
        };
        stack.take(j).push(TokenOrInlineV::Inline(node))
    } else {
        stack.push(m)
    }
}

/// After each token, a stack holding exactly one finished inline hands it
/// to the output eagerly.
pub open spec fn spec_flush(out: Seq<InlineV>, stack: Seq<TokenOrInlineV>) -> (
    Seq<InlineV>,
    Seq<TokenOrInlineV>,
) {
    if stack.len() == 1 {
        match stack[0] {
            TokenOrInlineV::Inline(il) => (out.push(il), Seq::empty()),
            _ => (out, stack),
        }
    } else {
        (out, stack)
    }
}

/// One token applied to output and stack.
pub open spec fn spec_resolve_step(
    t: TokenV,
    refs: Map<Seq<char>, Seq<char>>,
    out: Seq<InlineV>,
    stack: Seq<TokenOrInlineV>,
) -> (Seq<InlineV>, Seq<TokenOrInlineV>) {
    let stepped = match t {
        TokenV::Text(txt) => {
            let ils = spec_do_links(txt, refs);
            if stack.len() == 0 {
                (out + ils, stack)
            } else {
                (out, stack + wrap_inlines(ils))
            }
        },
        TokenV::Code(cd) => if stack.len() == 0 {
            (out.push(InlineV::Code(cd)), stack)
        } else {
            (out, stack.push(TokenOrInlineV::Inline(InlineV::Code(cd))))
        },
        TokenV::Italic => (out, spec_emph_step(stack, true)),
        TokenV::Bold => (out, spec_emph_step(stack, false)),
    };
    spec_flush(stepped.0, stepped.1)
}

/// The tokens from position `i` on applied to output and stack; entries
/// still on the stack at the end of the span are dropped.
pub open spec fn spec_resolve(
    toks: Seq<TokenV>,
    i: int,
    refs: Map<Seq<char>, Seq<char>>,
    out: Seq<InlineV>,
    stack: Seq<TokenOrInlineV>,
) -> Seq<InlineV>
    decreases toks.len() - i,
{
    if i < 0 || i >= toks.len() {
        out
    } else {
        let stepped = spec_resolve_step(toks[i], refs, out, stack);
        spec_resolve(toks, i + 1, refs, stepped.0, stepped.1)
    }
}

/// The full inline pipeline on one text span: token scan, link
/// classification of the text tokens, and emphasis nesting resolution.
pub open spec fn spec_parse_inline(s: Seq<char>, refs: Map<Seq<char>, Seq<char>>) -> Seq<InlineV> {
    spec_resolve(spec_tokens(s), 0, refs, Seq::empty(), Seq::empty())
}

/// Tests whether an entry is the open delimiter of the given kind.
pub fn is_marker(e: &TokenOrInline, italic: bool) -> (r: bool)
    ensures
        r == (e.view() == marker_of(italic)),
{
    match e {
        TokenOrInline::Token(Token::Italic) => italic,
        TokenOrInline::Token(Token::Bold) => !italic,
        _ => false,
    }
}

/// Finds the last open delimiter of the given kind on the stack.
pub fn find_marker(stack: &Vec<TokenOrInline>, italic: bool) -> (r: Option<usize>)
    ensures
        match r {
            Some(j) => last_marker(tois_view(stack@), marker_of(italic)) == j as int,
            None => last_marker(tois_view(stack@), marker_of(italic)) == -1,
        },
{
    proof {
        lemma_last_marker(tois_view(stack@), marker_of(italic));
    }
    let mut h = stack.len();
    while h > 0
        invariant
            h <= stack@.len(),
            tois_view(stack@).len() == stack@.len(),
            forall|i: int| h <= i < stack@.len() ==> tois_view(stack@)[i] != marker_of(italic),
        decreases h,
    {
        if is_marker(&stack[h - 1], italic) {
            proof {
                let sv = tois_view(stack@);
                let m = marker_of(italic);
                assert(sv[h - 1] == m);
                lemma_last_marker_unique(sv, m, h - 1 as int);
            }
            return Some(h - 1);
        }
        proof {
            assert(tois_view(stack@)[h - 1] == stack@[h - 1 as int].view());
        }
        h = h - 1;
    }
    proof {
        lemma_last_marker(tois_view(stack@), marker_of(italic));
        let j = last_marker(tois_view(stack@), marker_of(italic));
        if j >= 0 {
            assert(tois_view(stack@)[j] == marker_of(italic));
            assert(tois_view(stack@)[j] != marker_of(italic));
            assert(false);
        }
    }
    None
}

/// Pops stack entries until the open delimiter of the given kind is
/// reached, removing it too, and returns what stood above it in original
/// order. Without such a delimiter the whole stack is drained.
pub fn pop_until(haystack: &mut Vec<TokenOrInline>, italic: bool) -> (r: Vec<TokenOrInline>)
    ensures
        ({
            let j = last_marker(tois_view(old(haystack)@), marker_of(italic));
            if j >= 0 {
                tois_view(final(haystack)@) == tois_view(old(haystack)@).take(j) && tois_view(r@)
                    == tois_view(old(haystack)@).skip(j + 1)
            } else {
                tois_view(final(haystack)@) == Seq::<TokenOrInlineV>::empty() && tois_view(r@)
                    == tois_view(old(haystack)@)
            }
        }),
{
    proof {
        lemma_last_marker(tois_view(old(haystack)@), marker_of(italic));
    }
    let ghost orig = tois_view(old(haystack)@);
    let ghost j = last_marker(orig, marker_of(italic));
    let mut rev: Vec<TokenOrInline> = Vec::new();
    let mut hit = false;
    while !hit && haystack.len() > 0
        invariant
            j == last_marker(orig, marker_of(italic)),
            !hit ==> {
                &&& tois_view(haystack@) == orig.take(orig.len() - rev@.len())
                &&& tois_view(rev@) == orig.skip(orig.len() - rev@.len()).reverse()
                &&& forall|i: int|
                    orig.len() - rev@.len() <= i < orig.len() ==> orig[i] != marker_of(italic)
            },
            hit ==> {
                &&& j >= 0
                &&& tois_view(haystack@) == orig.take(j)
                &&& tois_view(rev@) == orig.skip(j + 1).reverse()
            },
            rev@.len() <= orig.len(),
            tois_view(haystack@).len() == haystack@.len(),
            tois_view(rev@).len() == rev@.len(),
        decreases haystack@.len(),
    {
        let ghost hv = tois_view(haystack@);
        let ghost rv = tois_view(rev@);
        let e = haystack.pop().unwrap();
        let ghost ge = e;
        proof {
            assert(tois_view(haystack@) =~= hv.drop_last());
            assert(hv.last() == ge.view());
        }
        if is_marker(&e, italic) {
            hit = true;
            proof {
                let m = marker_of(italic);
                let p = orig.len() - rv.len() - 1;
                assert(hv.last() == m);
                assert(orig.take(orig.len() - rv.len()).last() == orig[p]);
                assert(orig[p] == m);
                lemma_last_marker_unique(orig, m, p);
                assert(j == p);
                assert(tois_view(haystack@) =~= orig.take(j));
                assert(tois_view(rev@) =~= orig.skip(j + 1).reverse());
            }
        } else {
            rev.push(e);
            proof {
                assert(tois_view(rev@) =~= rv.push(ge.view()));
                let m = orig.len() - rev@.len();
                assert(tois_view(haystack@) =~= orig.take(m));
                assert(hv.last() == orig[m]);
                assert(orig[m] != marker_of(italic));
                assert(tois_view(rev@) =~= orig.skip(m).reverse()) by {
                    assert(orig.skip(m).reverse() =~= orig.skip(m + 1).reverse().push(orig[m]));
                }
            }
        }
    }
    let mut r: Vec<TokenOrInline> = Vec::new();
    let ghost revv = tois_view(rev@);
    proof {
        assert(revv.take(revv.len() as int) =~= revv);
        assert(revv.skip(revv.len() as int).reverse() =~= tois_view(r@));
    }
    while rev.len() > 0
        invariant
            tois_view(rev@).len() == rev@.len(),
            rev@.len() <= revv.len(),
            tois_view(rev@) == revv.take(rev@.len() as int),
            tois_view(r@) == revv.skip(rev@.len() as int).reverse(),
        decreases rev@.len(),
    {
        let ghost rv = tois_view(rev@);
        let ghost outv = tois_view(r@);
        let e = rev.pop().unwrap();
        let ghost ge = e;
        r.push(e);
        proof {
            let m = rev@.len() as int;
            assert(tois_view(rev@) =~= rv.drop_last());
            assert(tois_view(r@) =~= outv.push(ge.view()));
            assert(ge.view() == rv.last());
            assert(rv.last() == revv[m]);
            assert(rv.drop_last() =~= revv.take(m));
            assert(revv.skip(m).reverse() =~= revv.skip(m + 1).reverse().push(revv[m]));
        }
    }
    proof {
        assert(tois_view(r@) =~= revv.skip(0).reverse());
        assert(revv.skip(0) =~= revv);
        if j >= 0 {
            assert(tois_view(r@) =~= orig.skip(j + 1).reverse().reverse());
            assert(orig.skip(j + 1).reverse().reverse() =~= orig.skip(j + 1));
        } else {
            assert(tois_view(haystack@) =~= Seq::<TokenOrInlineV>::empty());
            assert(tois_view(r@) =~= orig.reverse().reverse());
            assert(orig.reverse().reverse() =~= orig);
        }
    }
    r
}

impl TokenOrInline {
    /// Keeps the finished inlines of the popped entries, in order; pending
    /// delimiters among them are dropped.
    pub fn vec_inlines(vec: Vec<TokenOrInline>) -> (r: Vec<Inline>)
        ensures
            inlines_view(r@) == filter_inlines(tois_view(vec@)),
    {
    let ghost orig = tois_view(vec@);
    let mut vec = vec;
    let mut r: Vec<Inline> = Vec::new();
    proof {
        assert(inlines_view(r@) =~= Seq::<InlineV>::empty());
        assert(inlines_view(r@) + filter_inlines(tois_view(vec@)) =~= filter_inlines(orig));
    }
    while vec.len() > 0
        invariant
            inlines_view(r@) + filter_inlines(tois_view(vec@)) == filter_inlines(orig),
            tois_view(vec@).len() == vec@.len(),
        decreases vec@.len(),
    {
        let ghost vv = tois_view(vec@);
        let ghost rv = inlines_view(r@);
        let e = vec.remove(0);
        let ghost ge = e;
        proof {
            assert(tois_view(vec@) =~= vv.drop_first());
            assert(ge.view() == vv[0]);
        }
        match e {
            TokenOrInline::Inline(il) => {
                let ghost gil = il;
                let ghost rvec = r@;
                r.push(il);
                proof {
                    lemma_inlines_view_push(rvec, gil);
                    assert(r@ == rvec.push(gil));
                    assert(inlines_view(r@) =~= rv.push(gil.view()));
                    assert(vv[0] == TokenOrInlineV::Inline(gil.view()));
                    assert(filter_inlines(vv) == seq![gil.view()] + filter_inlines(vv.drop_first()));
                    assert(rv.push(gil.view()) + filter_inlines(vv.drop_first()) =~= rv + (seq![
                        gil.view(),
                    ] + filter_inlines(vv.drop_first())));
                }
            },
            TokenOrInline::Token(_) => {
                proof {
                    assert(filter_inlines(vv) == filter_inlines(vv.drop_first()));
                }
            },
        }
    }
        proof {
            assert(tois_view(vec@) =~= Seq::<TokenOrInlineV>::empty());
            assert(filter_inlines(tois_view(vec@)) == Seq::<InlineV>::empty());
            assert(inlines_view(r@) + Seq::<InlineV>::empty() =~= inlines_view(r@));
        }
        r
    }
}

/// Parses one text span through the full inline pipeline: token scan,
/// link classification, and emphasis nesting resolution.
pub fn parse_inline(raw: &Vec<char>, refs: &LinkRefs) -> (r: Vec<Inline>)
    requires
        refs.wf(),
    ensures
        inlines_view(r@) == spec_parse_inline(raw@, refs@),
{
    let toks = tokenize(raw);
    let ghost tv = tokens_view(toks@);
    let mut out: Vec<Inline> = Vec::new();
    let mut stack: Vec<TokenOrInline> = Vec::new();
    let mut k: usize = 0;
    let n = toks.len();
    proof {
        assert(inlines_view(out@) =~= Seq::<InlineV>::empty());
        assert(tois_view(stack@) =~= Seq::<TokenOrInlineV>::empty());
    }
    while k < n
        invariant
            k <= n,
            n == toks@.len(),
            refs.wf(),
            tv == tokens_view(toks@),
            tv == spec_tokens(raw@),
            tv.len() == n,
            tois_view(stack@).len() == stack@.len(),
            spec_resolve(tv, k as int, refs@, inlines_view(out@), tois_view(stack@))
                == spec_parse_inline(raw@, refs@),
        decreases n - k,
    {
        let ghost out0 = inlines_view(out@);
        let ghost st0 = tois_view(stack@);
        let ghost stepped = spec_resolve_step(tv[k as int], refs@, out0, st0);
        match &toks[k] {
            Token::Text(txt) => {
                proof {
                    assert(tv[k as int] == TokenV::Text(txt@));
                }
                let tc = crate::text::str_chars(txt.as_str());
                let mut ils = do_links(&tc, refs);
                let ghost ilsv = inlines_view(ils@);
                let ghost ilsvec = ils@;
                if stack.len() == 0 {
                    let ghost outvec = out@;
                    out.append(&mut ils);
                    proof {
                        assert(out@ == outvec + ilsvec);
                        lemma_inlines_view_concat(outvec, ilsvec);
                        assert(inlines_view(out@) == out0 + ilsv);
                        assert(st0 =~= Seq::<TokenOrInlineV>::empty());
                        assert(stepped == spec_flush(inlines_view(out@), tois_view(stack@)));
                    }
                } else {
                    proof {
                        lemma_inlines_view(ils@);
                        assert(ilsv.skip(0) =~= ilsv);
                        assert(wrap_inlines(ilsv.take(0)) =~= Seq::<TokenOrInlineV>::empty());
                        assert(tois_view(stack@) =~= st0 + wrap_inlines(ilsv.take(0)));
                    }
                    while ils.len() > 0
                        invariant
                            tois_view(stack@).len() == stack@.len(),
                            inlines_view(ils@).len() == ils@.len(),
                            ils@.len() <= ilsv.len(),
                            inlines_view(ils@) == ilsv.skip(ilsv.len() - ils@.len()),
                            tois_view(stack@) == st0 + wrap_inlines(
                                ilsv.take(ilsv.len() - ils@.len()),
                            ),
                        decreases ils@.len(),
                    {
                        let ghost iv = inlines_view(ils@);
                        let ghost ivec = ils@;
                        let ghost sv = tois_view(stack@);
                        let il = ils.remove(0);
                        let ghost gil = il;
                        stack.push(TokenOrInline::Inline(il));
                        proof {
                            let m = ilsv.len() - ils@.len();
                            assert(ils@ =~= ivec.drop_first());
                            assert(gil == ivec[0]);
                            lemma_inlines_view(ils@);
                            lemma_inlines_view(ivec);
                            assert forall|x: int| 0 <= x < ils@.len() implies inlines_view(
                                ils@,
                            )[x] == iv.drop_first()[x] by {
                                assert(ils@[x] == ivec[x + 1]);
                                assert(inlines_view(ils@)[x] == ils@[x].view());
                                assert(iv[x + 1] == ivec[x + 1].view());
                                assert(iv.drop_first()[x] == iv[x + 1]);
                            }
                            assert(inlines_view(ils@) =~= iv.drop_first());
                            assert(iv.drop_first() =~= ilsv.skip(m));
                            assert(gil.view() == iv[0]) by {
                                lemma_inlines_view(ivec);
                            }
                            assert(iv[0] == ilsv[m - 1]);
                            assert(tois_view(stack@) =~= sv.push(TokenOrInlineV::Inline(
                                gil.view(),
                            )));
                            assert(wrap_inlines(ilsv.take(m)) =~= wrap_inlines(ilsv.take(m - 1)).push(
                                TokenOrInlineV::Inline(ilsv[m - 1]),
                            ));
                            assert(tois_view(stack@) =~= st0 + wrap_inlines(ilsv.take(m)));
                        }
                    }
                    proof {
                        assert(inlines_view(out@) == out0);
                        assert(ilsv.take(ilsv.len() as int) =~= ilsv);
                        assert(tois_view(stack@) == st0 + wrap_inlines(ilsv));
                        assert(st0.len() > 0);
                        assert(stepped == spec_flush(inlines_view(out@), tois_view(stack@)));
                    }
                }
            },
            Token::Code(cd) => {
                proof {
                    assert(tv[k as int] == TokenV::Code(cd@));
                }
                let c = Inline::Code(cd.clone());
                let ghost gc = c;
                if stack.len() == 0 {
                    let ghost outvec = out@;
                    out.push(c);
                    proof {
                        lemma_inlines_view_push(outvec, gc);
                        assert(out@ == outvec.push(gc));
                        assert(inlines_view(out@) =~= out0.push(gc.view()));
                        assert(st0 =~= Seq::<TokenOrInlineV>::empty());
                        assert(stepped == spec_flush(inlines_view(out@), tois_view(stack@)));
                    }
                } else {
                    stack.push(TokenOrInline::Inline(c));
                    proof {
                        assert(tois_view(stack@) =~= st0.push(TokenOrInlineV::Inline(gc.view())));
                        assert(stepped == spec_flush(inlines_view(out@), tois_view(stack@)));
                    }
                }
            },
            Token::Italic => {
                proof {
                    assert(tv[k as int] == TokenV::Italic);
                }
                match find_marker(&stack, true) {
                    Some(_) => {
                        let popped = pop_until(&mut stack, true);
                        let content = TokenOrInline::vec_inlines(popped);
                        let node = TokenOrInline::Inline(Inline::Italic { content });
                        let ghost gn = node;
                        stack.push(node);
                        proof {
                            assert(tois_view(stack@) =~= tois_view(stack@.drop_last()).push(
                                gn.view(),
                            ));
                            assert(tois_view(stack@) == spec_emph_step(st0, true));
                            assert(stepped == spec_flush(inlines_view(out@), tois_view(stack@)));
                        }
                    },
                    None => {
                        stack.push(TokenOrInline::Token(Token::Italic));
                        proof {
                            assert(tois_view(stack@) =~= st0.push(marker_of(true)));
                            assert(stepped == spec_flush(inlines_view(out@), tois_view(stack@)));
                        }
                    },
                }
            },
            Token::Bold => {
                proof {
                    assert(tv[k as int] == TokenV::Bold);
                }
                match find_marker(&stack, false) {
                    Some(_) => {
                        let popped = pop_until(&mut stack, false);
                        let content = TokenOrInline::vec_inlines(popped);
                        let node = TokenOrInline::Inline(Inline::Bold { content });
                        let ghost gn = node;
                        stack.push(node);
                        proof {
                            assert(tois_view(stack@) =~= tois_view(stack@.drop_last()).push(
                                gn.view(),
                            ));
                            assert(tois_view(stack@) == spec_emph_step(st0, false));
                            assert(stepped == spec_flush(inlines_view(out@), tois_view(stack@)));
                        }
                    },
                    None => {
                        stack.push(TokenOrInline::Token(Token::Bold));
                        proof {
                            assert(tois_view(stack@) =~= st0.push(marker_of(false)));
                            assert(stepped == spec_flush(inlines_view(out@), tois_view(stack@)));
                        }
                    },
                }
            },
        }
        let ghost out1 = inlines_view(out@);
        let ghost st1 = tois_view(stack@);
        let ghost flushed = spec_flush(out1, st1);
        if stack.len() == 1 {
            let e = stack.pop().unwrap();
            let ghost ge = e;
            proof {
                assert(ge.view() == st1[0]);
                assert(tois_view(stack@) =~= Seq::<TokenOrInlineV>::empty());
            }
            match e {
                TokenOrInline::Inline(il) => {
                    let ghost gil = il;
                    let ghost outvec = out@;
                    out.push(il);
                    proof {
                        lemma_inlines_view_push(outvec, gil);
                        assert(out@ == outvec.push(gil));
                        assert(inlines_view(out@) =~= out1.push(gil.view()));
                        assert((inlines_view(out@), tois_view(stack@)) == flushed);
                    }
                },
                other => {
                    let ghost go = other;
                    stack.push(other);
                    proof {
                        assert(tois_view(stack@) =~= seq![go.view()]);
                        assert(seq![go.view()] =~= st1);
                        assert((inlines_view(out@), tois_view(stack@)) == flushed);
                    }
                },
            }
        } else {
            proof {
                assert((inlines_view(out@), tois_view(stack@)) == flushed);
            }
        }
        k = k + 1;
        proof {
            assert(flushed == spec_resolve_step(tv[k - 1], refs@, out0, st0));
            assert(spec_resolve(tv, k - 1, refs@, out0, st0) == spec_resolve(
                tv,
                k as int,
                refs@,
                inlines_view(out@),
                tois_view(stack@),
            ));
        }
    }
    out
}

/// The text a token stands for: its content, a code span in backticks,
/// or the delimiter characters themselves.
pub open spec fn token_text(t: TokenV) -> Seq<char> {
    match t {
        TokenV::Text(s) => s,
        TokenV::Code(s) => "`"@ + s + "`"@,
        TokenV::Italic => "*"@,
        TokenV::Bold => "**"@,
    }
}

/// The texts of the tokens from position `i` on, concatenated.
pub open spec fn tokens_text(ts: Seq<TokenV>, i: int) -> Seq<char>
    decreases ts.len() - i,
{
    if i < 0 || i >= ts.len() {
        Seq::empty()
    } else {
        token_text(ts[i]) + tokens_text(ts, i + 1)
    }
}

impl Token {
    /// Writes one token back as text.
    pub fn text(&self) -> (r: String)
        ensures
            r@ == token_text(self.view()),
    {
        match self {
            Token::Text(s) => s.clone(),
            Token::Code(s) => {
                let mut out = String::from_str("`");
                out.append(s.as_str());
                out.append("`");
                proof {
                    assert(out@ =~= "`"@ + s@ + "`"@);
                }
                out
            },
            Token::Italic => String::from_str("*"),
            Token::Bold => String::from_str("**"),
        }
    }

    /// Writes a token sequence back as one text.
    pub fn vec_string(tokens: Vec<Token>) -> (r: String)
        ensures
            r@ == tokens_text(tokens_view(tokens@), 0),
    {
        let ghost tv = tokens_view(tokens@);
        let mut out = String::new();
        let mut i: usize = 0;
        let n = tokens.len();
        proof {
            assert(out@ + tokens_text(tv, 0) =~= tokens_text(tv, 0));
        }
        while i < n
            invariant
                i <= n,
                n == tokens@.len(),
                tv == tokens_view(tokens@),
                tv.len() == n,
                out@ + tokens_text(tv, i as int) == tokens_text(tv, 0),
            decreases n - i,
        {
            proof {
                assert(tv[i as int] == tokens@[i as int].view());
            }
            let ghost o0 = out@;
            let piece = tokens[i].text();
            out.append(piece.as_str());
            proof {
                assert((o0 + token_text(tv[i as int])) + tokens_text(tv, i + 1) =~= o0 + (
                token_text(tv[i as int]) + tokens_text(tv, i + 1)));
            }
            i = i + 1;
        }
        proof {
            assert(tokens_text(tv, n as int) =~= Seq::<char>::empty());
            assert(out@ + Seq::<char>::empty() =~= out@);
        }
        out
    }
}

} // verus!
