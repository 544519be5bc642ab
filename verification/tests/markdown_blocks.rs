use markch_document::markdown::{
    classify_block, count_marked_words, count_words, heading_title, BlockKind,
};
use markch_document::paginate::{
    compose_page_draft, has_only_heading, join_markdown_pages_for_normalize, paginate_blocks,
    paginate_markdown, split_markdown_blocks, MarkdownBlock,
};
use markch_document::text::chars_of;

fn words(prefix: &str, n: usize) -> String {
    (0..n).map(|i| format!("{}{}", prefix, i)).collect::<Vec<_>>().join(" ")
}

#[test]
fn counts_only_words_with_letters_or_digits() {
    assert_eq!(count_words("one two  three"), 3);
    assert_eq!(count_words("a - b — c"), 3);
    assert_eq!(count_words("## Title #"), 1);
    assert_eq!(count_words(""), 0);
}

#[test]
fn reads_heading_titles() {
    assert_eq!(heading_title("# Title"), Some("Title".to_string()));
    assert_eq!(heading_title("  ### Deep ###  "), Some("Deep".to_string()));
    assert_eq!(heading_title("###### Six"), Some("Six".to_string()));
    assert_eq!(heading_title("####### Seven"), None);
    assert_eq!(heading_title("#NoSpace"), None);
    assert_eq!(heading_title("# "), None);
    assert_eq!(heading_title("# ##"), None);
    assert_eq!(heading_title("plain"), None);
}

#[test]
fn classifies_blocks() {
    assert_eq!(classify_block("# Title"), BlockKind::Heading);
    assert_eq!(classify_block("```rust\nfn x() {}\n```"), BlockKind::Atomic);
    assert_eq!(classify_block("| a | b |"), BlockKind::Atomic);
    assert_eq!(classify_block("![img](x.png)"), BlockKind::Atomic);
    assert_eq!(classify_block("- item"), BlockKind::Atomic);
    assert_eq!(classify_block("* item"), BlockKind::Atomic);
    assert_eq!(classify_block("+ item"), BlockKind::Atomic);
    assert_eq!(classify_block("1. first"), BlockKind::Atomic);
    assert_eq!(classify_block("Just text."), BlockKind::Paragraph);
    assert_eq!(classify_block("-notalist"), BlockKind::Paragraph);
}

#[test]
fn splits_blocks_at_blank_lines_and_headings() {
    let blocks = split_markdown_blocks("# Title\npara one\nline two\n\n\npara two\n## Sub\n");
    let texts: Vec<&str> = blocks.iter().map(|b| b.text.as_str()).collect();
    assert_eq!(texts, vec!["# Title", "para one\nline two", "para two", "## Sub"]);
    assert_eq!(blocks[1].words, 4);
    assert_eq!(blocks[0].kind, BlockKind::Heading);
    assert_eq!(blocks[1].kind, BlockKind::Paragraph);
}

#[test]
fn keeps_code_blocks_together() {
    let blocks = split_markdown_blocks("```\n# not a heading\n\nstill code\n```\nafter\n");
    let texts: Vec<&str> = blocks.iter().map(|b| b.text.as_str()).collect();
    assert_eq!(texts, vec!["```\n# not a heading\n\nstill code\n```", "after"]);
    assert_eq!(blocks[0].kind, BlockKind::Atomic);
}

#[test]
fn empty_markdown_is_one_empty_page() {
    let pages = paginate_markdown("  \n\n", 250);
    assert_eq!(pages.len(), 1);
    assert_eq!(pages[0].title, "Page 1");
    assert_eq!(pages[0].content, "");
}

#[test]
fn pages_break_before_going_over_the_limit() {
    let md = format!("{}\n\n{}\n", words("a", 200), words("b", 100));
    let pages = paginate_markdown(&md, 250);
    assert_eq!(pages.len(), 2);
    assert_eq!(pages[0].title, "Page 1");
    assert_eq!(pages[1].title, "Page 2");
    assert!(pages[0].content.starts_with("a0 "));
    assert!(pages[1].content.starts_with("b0 "));
    assert!(pages[1].content.ends_with("b99\n"));
}

#[test]
fn lone_heading_stays_with_the_next_block() {
    let md = format!("# Big\n\n{}\n", words("w", 300));
    let pages = paginate_markdown(&md, 250);
    assert_eq!(pages.len(), 1);
    assert_eq!(pages[0].title, "Big");
}

#[test]
fn heading_after_half_the_limit_starts_a_page() {
    let md = format!("{}\n\n## Next\n\nbody\n", words("w", 130));
    let pages = paginate_markdown(&md, 250);
    assert_eq!(pages.len(), 2);
    assert_eq!(pages[1].title, "Next");
    assert_eq!(pages[1].content, "## Next\n\nbody\n");
}

#[test]
fn heading_before_half_the_limit_stays() {
    let md = format!("{}\n\n## Next\n\nbody\n", words("w", 100));
    let pages = paginate_markdown(&md, 250);
    assert_eq!(pages.len(), 1);
    assert_eq!(pages[0].title, "Next");
}

#[test]
fn composes_drafts_from_blocks() {
    let blocks = vec![
        MarkdownBlock { text: "intro".to_string(), words: 1, kind: BlockKind::Paragraph },
        MarkdownBlock { text: "## Part".to_string(), words: 1, kind: BlockKind::Heading },
    ];
    let draft = compose_page_draft(4, &blocks);
    assert_eq!(draft.title, "Part");
    assert_eq!(draft.content, "intro\n\n## Part\n");
    let plain = compose_page_draft(
        4,
        &vec![MarkdownBlock { text: "x".to_string(), words: 1, kind: BlockKind::Paragraph }],
    );
    assert_eq!(plain.title, "Page 4");
    assert!(!has_only_heading(&blocks));
    let heading = vec![MarkdownBlock { text: "## Part".to_string(), words: 1, kind: BlockKind::Heading }];
    assert!(has_only_heading(&heading));
}

#[test]
fn joins_pages_for_normalizing() {
    let pages = vec!["  one \n".to_string(), "\n".to_string(), "two".to_string()];
    assert_eq!(join_markdown_pages_for_normalize(&pages), "one\n\ntwo");
    assert_eq!(join_markdown_pages_for_normalize(&Vec::new()), "");
}

fn repaginate(markdown: &str, limit: usize) -> (Vec<(String, String)>, Vec<(String, String)>) {
    let first = paginate_markdown(markdown, limit);
    let contents: Vec<String> = first.iter().map(|d| d.content.clone()).collect();
    let again = paginate_markdown(&join_markdown_pages_for_normalize(&contents), limit);
    let pairs = |v: &Vec<markch_document::paginate::PageDraft>| {
        v.iter().map(|d| (d.title.clone(), d.content.clone())).collect::<Vec<_>>()
    };
    (pairs(&first), pairs(&again))
}

#[test]
fn paginating_pages_read_back_gives_the_same_pages() {
    let text = format!(
        "  # Intro  \n\n{}\n\n```\ncode\n\n  more\n```\n## Next\n- a\n- b\n\n{}\n",
        words("w", 140),
        words("v", 200)
    );
    let (first, again) = repaginate(&text, 250);
    assert!(first.len() >= 2);
    assert_eq!(first, again);
}

#[test]
fn crlf_pages_read_back_give_the_same_pages() {
    let text = "# Title\r\n\r\nfirst line\r\nsecond line\r\n\r\n```\r\nx\r\n```\r\n";
    let (first, again) = repaginate(text, 250);
    assert_eq!(first, again);
    assert_eq!(first[0].1, "# Title\n\nfirst line\nsecond line\n\n```\nx\n```\n");
}

#[test]
fn unclosed_code_block_reads_back_the_same() {
    let (first, again) = repaginate("para\n```\ncode\n\n   \n", 250);
    assert_eq!(first, again);
    assert_eq!(first[0].1, "para\n```\ncode\n");
}

#[test]
fn doubled_carriage_return_is_where_reading_back_differs() {
    let (first, again) = repaginate("a\r\r\nb", 250);
    assert_ne!(first, again);
}

#[test]
fn counts_words_holding_a_marked_character() {
    let text = chars_of(" ab  -- c\td ");
    let marks: Vec<bool> = text.iter().map(|c| *c == 'b' || *c == 'd').collect();
    assert_eq!(count_marked_words(&text, &marks), 2);
    let none = vec![false; text.len()];
    assert_eq!(count_marked_words(&text, &none), 0);
    let all = vec![true; text.len()];
    assert_eq!(count_marked_words(&text, &all), 4);
}

fn block(text: &str, words: usize, kind: BlockKind) -> MarkdownBlock {
    MarkdownBlock { text: text.to_string(), words, kind }
}

#[test]
fn groups_blocks_by_their_word_counts() {
    let blocks = vec![
        block("# A", 1, BlockKind::Heading),
        block("first", 200, BlockKind::Paragraph),
        block("second", 130, BlockKind::Paragraph),
        block("## B", 1, BlockKind::Heading),
        block("third", 10, BlockKind::Paragraph),
    ];
    let pages = paginate_blocks(&blocks, 250);
    let got: Vec<(String, String)> =
        pages.iter().map(|d| (d.title.clone(), d.content.clone())).collect();
    assert_eq!(
        got,
        vec![
            ("A".to_string(), "# A\n\nfirst\n".to_string()),
            ("Page 2".to_string(), "second\n".to_string()),
            ("B".to_string(), "## B\n\nthird\n".to_string()),
        ]
    );
    let empty = paginate_blocks(&Vec::new(), 250);
    assert_eq!(empty.len(), 1);
    assert_eq!(empty[0].title, "Page 1");
    assert_eq!(empty[0].content, "");
}
