use wikarden::bind::{BindError, bind_document, make_interlinks};
use wikarden::element::{Block, Inline};
use wikarden::fs::{Directory, DirectoryError, RawDir};
use wikarden::html::{block_html, html_escape, inline_html, render_document, vec_inline_html};
use wikarden::nav::{find_friends, get_paths, make_children, make_current};
use wikarden::parse::Parser;

fn s(v: &str) -> String {
    String::from(v)
}

fn sample_tree() -> RawDir {
    RawDir {
        base: s("/w"),
        files: vec![s("/w/home.md"), s("/w/notes.txt")],
        subdirs: vec![
            RawDir {
                base: s("/w/garden"),
                files: vec![s("/w/garden/roses.md"), s("/w/garden/ferns.md")],
                subdirs: vec![],
            },
            RawDir {
                base: s("/w/.git"),
                files: vec![s("/w/.git/config")],
                subdirs: vec![],
            },
        ],
    }
}

#[test]
fn index_groups_by_extension_and_skips_git() {
    let dir = Directory::index(&sample_tree());
    assert_eq!(s("/w"), dir.base);
    assert_eq!(1, dir.directories.len());
    assert_eq!(s("/w/garden"), dir.directories[0].base);

    let mds = dir.find_all_by_extension("md");
    assert_eq!(
        vec![s("/w/home.md"), s("/w/garden/roses.md"), s("/w/garden/ferns.md")],
        mds
    );
    let txts = dir.find_all_by_extension("txt");
    assert_eq!(vec![s("/w/notes.txt")], txts);
    assert_eq!(0, dir.find_all_by_extension("config").len());
    assert_eq!(0, dir.find_all_by_extension("gitignore").len());
}

#[test]
fn index_completeness_over_all_extensions() {
    let dir = Directory::index(&sample_tree());
    let total = dir.find_all_by_extension("md").len() + dir.find_all_by_extension("txt").len();
    assert_eq!(4, total);

    let again = Directory::index(&sample_tree());
    assert_eq!(
        dir.find_all_by_extension("md").len(),
        again.find_all_by_extension("md").len()
    );
    assert_eq!(
        dir.find_all_by_extension("txt").len(),
        again.find_all_by_extension("txt").len()
    );
}

#[test]
fn get_directory_descends_by_component() {
    let dir = Directory::index(&sample_tree());
    let sub = dir.get_directory("/w/garden").unwrap();
    assert_eq!(s("/w/garden"), sub.base);
    let whole = dir.get_directory("/w").unwrap();
    assert_eq!(s("/w"), whole.base);
    assert!(dir.get_directory("/w/absent").is_none());
    assert!(dir.get_directory("/elsewhere").is_none());
}

#[test]
fn interlink_binds_to_unique_match() {
    let parser = Parser::parse("see {roses} here").unwrap();
    let files = vec![s("/w/garden/roses.md"), s("/w/home.md")];
    let bound = bind_document(parser, &files, "/w/home.md").unwrap();
    assert_eq!(
        Block::Paragraph {
            content: vec![
                Inline::Text(s("see ")),
                Inline::InterLink {
                    name: s("roses"),
                    location: s("garden/roses.html"),
                },
                Inline::Text(s(" here")),
            ],
        },
        bound.blocks[0]
    );
}

#[test]
fn interlink_relative_location_climbs_directories() {
    let parser = Parser::parse("{home}").unwrap();
    let files = vec![s("/w/home.md")];
    let bound = bind_document(parser, &files, "/w/garden/deep/leaf.md").unwrap();
    match &bound.blocks[0] {
        Block::Paragraph { content } => {
            assert_eq!(
                Inline::InterLink {
                    name: s("home"),
                    location: s("../../home.html"),
                },
                content[1]
            );
        }
        other => panic!("expected a paragraph, got {:?}", other),
    }
}

#[test]
fn interlink_without_match_aborts_binding() {
    let parser = Parser::parse("{gone}").unwrap();
    let files = vec![s("/w/home.md")];
    assert_eq!(
        Err(BindError::NoMatch(s("gone"))),
        bind_document(parser, &files, "/w/home.md")
    );
}

#[test]
fn ambiguous_interlink_aborts_binding() {
    let parser = Parser::parse("{home}").unwrap();
    let files = vec![s("/w/home.md"), s("/w/garden/home.md")];
    assert_eq!(
        Err(BindError::MultipleMatches(s("home"))),
        bind_document(parser, &files, "/w/garden/roses.md")
    );
}

#[test]
fn nested_emphasis_is_bound_too() {
    let parser = Parser::parse("*x {home} y*").unwrap();
    let files = vec![s("/w/home.md")];
    let bound = bind_document(parser, &files, "/w/page.md").unwrap();
    match &bound.blocks[0] {
        Block::Paragraph { content } => match &content[1] {
            Inline::Italic { content: inner } => {
                assert_eq!(
                    Inline::InterLink {
                        name: s("home"),
                        location: s("home.html"),
                    },
                    inner[1]
                );
            }
            other => panic!("expected italic, got {:?}", other),
        },
        other => panic!("expected a paragraph, got {:?}", other),
    }
}

#[test]
fn make_interlinks_leaves_other_inlines_alone() {
    let files = vec![s("/w/home.md")];
    let r = make_interlinks(&Inline::Text(s("plain")), &files, "/w/page.md").unwrap();
    assert_eq!(Inline::Text(s("plain")), r);
}

#[test]
fn escape_rewrites_angle_brackets_only() {
    assert_eq!(s("a&lt;b&gt;c&amp;"), html_escape("a<b>c&amp;"));
    assert_eq!(s(""), html_escape(""));
}

#[test]
fn inline_fragments() {
    assert_eq!(s("<br>"), inline_html(&Inline::SoftBreak));
    assert_eq!(s("x&lt;y"), inline_html(&Inline::Text(s("x<y"))));
    assert_eq!(
        s("<code>a&lt;b</code>"),
        inline_html(&Inline::Code(s("a<b")))
    );
    assert_eq!(
        s("<i>a</i>"),
        inline_html(&Inline::Italic {
            content: vec![Inline::Text(s("a"))],
        })
    );
    assert_eq!(
        s("<b>a</b>"),
        inline_html(&Inline::Bold {
            content: vec![Inline::Text(s("a"))],
        })
    );
    assert_eq!(
        s("<a href=\"u\">u</a>"),
        inline_html(&Inline::AbsoluteLink { location: s("u") })
    );
    assert_eq!(
        s("<a href=\"u\">n</a>"),
        inline_html(&Inline::ReferenceLink {
            name: s("n"),
            location: s("u"),
        })
    );
    assert_eq!(
        s("<a href=\"u\">n</a>"),
        inline_html(&Inline::InterLink {
            name: s("n"),
            location: s("u"),
        })
    );
    assert_eq!(
        s("ab"),
        vec_inline_html(&vec![Inline::Text(s("a")), Inline::Text(s("b"))])
    );
}

#[test]
fn block_lines() {
    assert_eq!(
        s("<h2>T</h2>\n"),
        block_html(&Block::Header {
            level: 2,
            content: vec![Inline::Text(s("T"))],
        })
    );
    assert_eq!(
        s("<p>x</p>\n"),
        block_html(&Block::Paragraph {
            content: vec![Inline::Text(s("x"))],
        })
    );
    assert_eq!(
        s("<pre><code>a&lt;b\n</pre></code>\n"),
        block_html(&Block::CodeBlock {
            language: s("rust"),
            content: s("a<b\n"),
        })
    );
    assert_eq!(
        s("<img src=\"u\" alt=\"cat\"/>\n"),
        block_html(&Block::Image {
            src: s("u"),
            alt: s("cat"),
        })
    );
}

#[test]
fn render_splits_leading_title() {
    let parser = Parser::parse("# Home\n\nwelcome").unwrap();
    let (title, body) = render_document(&parser);
    assert_eq!(s("Home"), title);
    assert_eq!(s("<p>welcome</p>\n"), body);

    let parser = Parser::parse("## Not a title\n\nwelcome").unwrap();
    let (title, body) = render_document(&parser);
    assert_eq!(s(""), title);
    assert_eq!(s("<h2>Not a title</h2>\n<p>welcome</p>\n"), body);
}

#[test]
fn directory_error_messages() {
    assert_eq!(
        s("not a directory: /x"),
        DirectoryError::NotADirectory(s("/x")).message()
    );
    assert_eq!(
        s("filesystem failure: denied"),
        DirectoryError::IoError(s("denied")).message()
    );
}

#[test]
fn navigation_lists() {
    let dir = Directory::index(&sample_tree());
    let garden = dir.get_directory("/w/garden").unwrap();
    let mut paths = get_paths(garden);
    paths.sort();
    assert_eq!(vec![s("ferns"), s("roses")], paths);

    let current = make_current(s("roses"), garden);
    assert_eq!(s("<a href=\"ferns.html\">ferns</a>"), current);

    let children = make_children("garden", garden);
    assert!(children.contains("<a href=\"garden/roses.html\">roses</a>"));
    assert!(children.contains("<a href=\"garden/ferns.html\">ferns</a>"));
}

#[test]
fn find_friends_names_nest_and_siblings() {
    let dir = Directory::index(&sample_tree());
    let (nest, friends) = find_friends(&dir, "/w/garden/roses.md").unwrap();
    assert_eq!(Some(s("garden")), nest);
    assert_eq!(s("<a href=\"ferns.html\">ferns</a>"), friends);
}
