use wikarden::element::{Block, Inline};
use wikarden::inline::{Token, TokenOrInline, parse_inline, pop_until, tokenize};
use wikarden::linkref::LinkRefs;
use wikarden::parse::{InlineIter, ParseError, Parser, first_pass, second_pass};

#[test]
fn it_works() {
    assert_eq!(2 + 2, 4);
}

fn text(s: &str) -> Inline {
    Inline::Text(String::from(s))
}

#[test]
fn round_trip_structure() {
    let parser = Parser::parse("# Title\n\nBody *italic* and **bold**.").unwrap();
    assert_eq!(2, parser.blocks.len());
    assert_eq!(
        Block::Header {
            level: 1,
            content: vec![text("Title")],
        },
        parser.blocks[0]
    );
    assert_eq!(
        Block::Paragraph {
            content: vec![
                text("Body "),
                Inline::Italic {
                    content: vec![text("italic")],
                },
                text(" and "),
                Inline::Bold {
                    content: vec![text("bold")],
                },
                text("."),
            ],
        },
        parser.blocks[1]
    );
}

#[test]
fn code_span_non_interaction() {
    let parser = Parser::parse("a `*b*` c").unwrap();
    assert_eq!(
        Block::Paragraph {
            content: vec![text("a "), Inline::Code(String::from("*b*")), text(" c")],
        },
        parser.blocks[0]
    );
}

#[test]
fn reference_link_miss_recovers_to_literal_text() {
    let parser = Parser::parse("{!missing}").unwrap();
    assert_eq!(
        Block::Paragraph {
            content: vec![text(""), text("{!missing}"), text("")],
        },
        parser.blocks[0]
    );
}

#[test]
fn reference_link_hit_resolves() {
    let parser = Parser::parse("[here]: https://example.net\nsee {!here}").unwrap();
    assert_eq!(
        Block::Paragraph {
            content: vec![
                text("see "),
                Inline::ReferenceLink {
                    name: String::from("here"),
                    location: String::from("https://example.net"),
                },
                text(""),
            ],
        },
        parser.blocks[0]
    );
}

#[test]
fn later_reference_definition_wins() {
    let parser = Parser::parse("[a]: first\n[a]: second\n{!a}").unwrap();
    match &parser.blocks[0] {
        Block::Paragraph { content } => match &content[1] {
            Inline::ReferenceLink { location, .. } => assert_eq!("second", location),
            other => panic!("expected a reference link, got {:?}", other),
        },
        other => panic!("expected a paragraph, got {:?}", other),
    }
}

#[test]
fn emphasis_nesting_tie_break() {
    let parser = Parser::parse("*a **b** c*").unwrap();
    assert_eq!(
        Block::Paragraph {
            content: vec![
                text(""),
                Inline::Italic {
                    content: vec![
                        text("a "),
                        Inline::Bold {
                            content: vec![text("b")],
                        },
                        text(" c"),
                    ],
                },
                text(""),
            ],
        },
        parser.blocks[0]
    );
}

#[test]
fn unmatched_delimiter_drops_its_content() {
    let parser = Parser::parse("a *b").unwrap();
    assert_eq!(
        Block::Paragraph {
            content: vec![text("a ")],
        },
        parser.blocks[0]
    );
}

#[test]
fn interlink_is_a_placeholder_after_parsing() {
    let parser = Parser::parse("go {elsewhere} now").unwrap();
    assert_eq!(
        Block::Paragraph {
            content: vec![
                text("go "),
                Inline::InterLink {
                    name: String::from("elsewhere"),
                    location: String::new(),
                },
                text(" now"),
            ],
        },
        parser.blocks[0]
    );
}

#[test]
fn absolute_link_spans_whole_string() {
    let parser = Parser::parse("a{b}c{{https://example.net}}d").unwrap();
    assert_eq!(
        Block::Paragraph {
            content: vec![
                text("a"),
                Inline::InterLink {
                    name: String::from("b"),
                    location: String::new(),
                },
                text("c"),
                Inline::AbsoluteLink {
                    location: String::from("https://example.net"),
                },
                text("d"),
            ],
        },
        parser.blocks[0]
    );
}

#[test]
fn empty_link_stays_literal() {
    let parser = Parser::parse("x{}y").unwrap();
    assert_eq!(
        Block::Paragraph {
            content: vec![text("x"), text("{}"), text("y")],
        },
        parser.blocks[0]
    );
}

#[test]
fn fenced_code_block_is_kept_raw() {
    let parser = Parser::parse("```rust\nlet x = 1;\n\nlet y = 2;\n```\nafter").unwrap();
    assert_eq!(
        Block::CodeBlock {
            language: String::from("rust"),
            content: String::from("let x = 1;\n\nlet y = 2;\n"),
        },
        parser.blocks[0]
    );
    assert_eq!(
        Block::Paragraph {
            content: vec![text("after")],
        },
        parser.blocks[1]
    );
}

#[test]
fn header_levels_cap_at_four() {
    let parser = Parser::parse("#### deep\n\n##### too deep").unwrap();
    assert_eq!(
        Block::Header {
            level: 4,
            content: vec![text("deep")],
        },
        parser.blocks[0]
    );
    assert_eq!(
        Block::Paragraph {
            content: vec![text("##### too deep")],
        },
        parser.blocks[1]
    );
}

#[test]
fn paragraph_continuation_adds_soft_break() {
    let parser = Parser::parse("one\ntwo").unwrap();
    assert_eq!(
        Block::Paragraph {
            content: vec![text("one"), Inline::SoftBreak, text("two")],
        },
        parser.blocks[0]
    );
}

#[test]
fn image_caption_converts_previous_line() {
    let parser = Parser::parse("[pic]: /img/cat.png\n{!pic}\n^ a cat").unwrap();
    assert_eq!(
        vec![
            Block::Paragraph { content: vec![] },
            Block::Image {
                src: String::from("/img/cat.png"),
                alt: String::from("a cat"),
            },
        ],
        parser.blocks
    );
}

#[test]
fn malformed_image_source_is_an_error() {
    assert_eq!(
        Err(ParseError::InvalidImageSource),
        Parser::parse("plain\n^ caption")
    );
}

#[test]
fn first_pass_collects_references_and_blocks() {
    let (blocks, refs) = first_pass("# T\n\n[a]: url-a\nbody");
    assert_eq!(2, blocks.len());
    assert_eq!(Some(String::from("url-a")), refs.get(&String::from("a")));
    assert_eq!(None, refs.get(&String::from("b")));
    let done = second_pass(blocks, &refs).unwrap();
    assert_eq!(2, done.len());
}

#[test]
fn tokenizer_splits_delimiters() {
    let chars: Vec<char> = "x*y".chars().collect();
    let toks = tokenize(&chars);
    assert_eq!(3, toks.len());
    assert_eq!(String::from("x"), toks[0].text());
    assert_eq!(String::from("*"), toks[1].text());
    assert_eq!(String::from("y"), toks[2].text());
    assert_eq!(String::from("x*y"), Token::vec_string(toks));
}

#[test]
fn unterminated_code_runs_to_end_of_span() {
    let refs = LinkRefs::new();
    let chars: Vec<char> = "a `bc".chars().collect();
    let inlines = parse_inline(&chars, &refs);
    assert_eq!(vec![text("a "), Inline::Code(String::from("bc"))], inlines);
}

#[test]
fn pop_until_returns_entries_in_original_order() {
    let mut stack = vec![
        TokenOrInline::Token(Token::Italic),
        TokenOrInline::Inline(text("a")),
        TokenOrInline::Inline(text("b")),
    ];
    let popped = pop_until(&mut stack, true);
    assert!(stack.is_empty());
    assert_eq!(2, popped.len());
    assert!(!popped[0].is_token());
    assert_eq!(
        vec![text("a"), text("b")],
        TokenOrInline::vec_inlines(popped)
    );
}

#[test]
fn inline_cursor_walks_headers_and_paragraphs() {
    let mut parser = Parser::parse("# T\n\na\nb\n```\ncode\n```\nlast").unwrap();
    let mut iter = parser.inlines_mut();
    let mut seen = Vec::new();
    while let Some(pos) = iter.next_position(&parser) {
        seen.push(pos);
    }
    assert_eq!(vec![(0, 0), (1, 0), (1, 1), (1, 2), (3, 0)], seen);
}

#[test]
fn empty_input_yields_no_blocks() {
    let parser = Parser::parse("").unwrap();
    assert!(parser.blocks.is_empty());
}

#[test]
fn blank_lines_only_yield_no_blocks() {
    let parser = Parser::parse("\n\n\n").unwrap();
    assert!(parser.blocks.is_empty());
}

#[test]
fn unterminated_fence_keeps_collecting() {
    let parser = Parser::parse("```\nstill code").unwrap();
    assert_eq!(
        vec![Block::CodeBlock {
            language: String::new(),
            content: String::from("still code\n"),
        }],
        parser.blocks
    );
}

#[test]
fn caption_is_trimmed_of_leading_whitespace() {
    let parser = Parser::parse("[p]: u\n{!p}\n^\t  spaced cat").unwrap();
    assert_eq!(
        Block::Image {
            src: String::from("u"),
            alt: String::from("spaced cat"),
        },
        parser.blocks[1]
    );
}

#[test]
fn crlf_line_endings_are_accepted() {
    let parser = Parser::parse("# T\r\n\r\nbody").unwrap();
    assert_eq!(
        Block::Header {
            level: 1,
            content: vec![text("T")],
        },
        parser.blocks[0]
    );
    assert_eq!(
        Block::Paragraph {
            content: vec![text("body")],
        },
        parser.blocks[1]
    );
}
