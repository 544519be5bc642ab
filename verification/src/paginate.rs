//! Splitting markdown into blocks and grouping the blocks into pages of a
//! bounded word count.
use vstd::prelude::*;
use crate::text::{chars_of, string_of, concat, trim, trim_of, trim_start, trim_start_of, starts_with, starts_with_chars};
use crate::split::{lines, lines_of, join, join_of, views};
use crate::decimal::{decimal, decimal_of};
use crate::markdown::{
    word_count, count_words_chars, heading_title_of, heading_title_chars, block_kind,
    classify_block_chars, fence, fence_of, BlockKind,
};

verus! {

// ---------------------------------------------------------------------------
// Blocks
// ---------------------------------------------------------------------------

/// A block of markdown: a paragraph, a heading line, a fenced code block, a
/// list or a table, with its word count and kind.
pub struct MarkdownBlock {
    pub text: String,
    pub words: usize,
    pub kind: BlockKind,
}

pub struct BlockView {
    pub text: Seq<char>,
    pub words: nat,
    pub kind: BlockKind,
}

impl View for MarkdownBlock {
    type V = BlockView;

    open spec fn view(&self) -> BlockView {
        BlockView { text: self.text@, words: self.words as nat, kind: self.kind }
    }
}

pub open spec fn block_views(v: Seq<MarkdownBlock>) -> Seq<BlockView> {
    v.map_values(|b: MarkdownBlock| b@)
}

/// The block made of some lines: their text joined and trimmed. No block when
/// that text is empty.
pub open spec fn make_block(lines: Seq<Seq<char>>) -> Option<BlockView> {
    let text = trim(join(lines, seq!['\n']));
    if text.len() == 0 {
        None
    } else {
        Some(BlockView { text, words: word_count(text), kind: block_kind(text) })
    }
}

/// `blocks` with the block of `current` added, if there is one.
pub open spec fn flush(blocks: Seq<BlockView>, current: Seq<Seq<char>>) -> Seq<BlockView> {
    match make_block(current) {
        None => blocks,
        Some(b) => blocks.push(b),
    }
}

#[verifier::ext_equal]
pub struct SplitState {
    pub blocks: Seq<BlockView>,
    pub current: Seq<Seq<char>>,
    pub in_code: bool,
}

/// One line of the block splitter: a fence line opens or closes a code block,
/// lines in a code block are kept together, a heading line is a block of its
/// own, and a blank line ends a block.
pub open spec fn split_step(st: SplitState, line: Seq<char>) -> SplitState {
    let trimmed = trim_start(line);
    if starts_with(trimmed, fence()) {
        let current = st.current.push(line);
        if st.in_code {
            SplitState { blocks: flush(st.blocks, current), current: seq![], in_code: false }
        } else {
            SplitState { blocks: st.blocks, current, in_code: true }
        }
    } else if st.in_code {
        SplitState { blocks: st.blocks, current: st.current.push(line), in_code: true }
    } else if heading_title_of(trimmed) is Some {
        SplitState {
            blocks: flush(flush(st.blocks, st.current), seq![line]),
            current: seq![],
            in_code: false,
        }
    } else if trimmed.len() == 0 {
        SplitState { blocks: flush(st.blocks, st.current), current: seq![], in_code: false }
    } else {
        SplitState { blocks: st.blocks, current: st.current.push(line), in_code: false }
    }
}

pub open spec fn split_fold(ls: Seq<Seq<char>>) -> SplitState
    decreases ls.len(),
{
    if ls.len() == 0 {
        SplitState { blocks: seq![], current: seq![], in_code: false }
    } else {
        split_step(split_fold(ls.drop_last()), ls.last())
    }
}

/// The blocks of a markdown text, in order.
pub open spec fn markdown_blocks(content: Seq<char>) -> Seq<BlockView> {
    let st = split_fold(lines(content));
    flush(st.blocks, st.current)
}

/// Adds the block made of `current` to `blocks`, and empties `current`.
pub fn push_block(blocks: &mut Vec<MarkdownBlock>, current: &mut Vec<Vec<char>>)
    ensures
        block_views(final(blocks)@) == flush(block_views(old(blocks)@), views(old(current)@)),
        final(current)@.len() == 0,
{
    let nl = vec!['\n'];
    assert(nl@ =~= seq!['\n']);
    let joined = join_of(current, &nl);
    let text = trim_of(&joined);
    *current = Vec::new();
    if text.len() == 0 {
        return;
    }
    let words = count_words_chars(&text);
    let kind = classify_block_chars(&text);
    let ghost old_blocks = blocks@;
    blocks.push(MarkdownBlock { text: string_of(&text), words, kind });
    assert(block_views(blocks@) =~= block_views(old_blocks).push(blocks@.last()@));
}

pub fn split_markdown_blocks_chars(content: &Vec<char>) -> (r: Vec<MarkdownBlock>)
    ensures
        block_views(r@) == markdown_blocks(content@),
{
    let ls = lines_of(content);
    let mut blocks: Vec<MarkdownBlock> = Vec::new();
    let mut current: Vec<Vec<char>> = Vec::new();
    let mut in_code = false;
    let fence_chars = fence_of();
    assert(block_views(blocks@) =~= Seq::<BlockView>::empty());
    assert(views(current@) =~= Seq::<Seq<char>>::empty());
    for i in 0..ls.len()
        invariant
            views(ls@) == lines(content@),
            fence_chars@ == fence(),
            split_fold(views(ls@).take(i as int)) == (SplitState {
                blocks: block_views(blocks@),
                current: views(current@),
                in_code,
            }),
    {
        proof {
            assert(views(ls@).take(i + 1).drop_last() =~= views(ls@).take(i as int));
            assert(views(ls@).take(i + 1).last() == ls@[i as int]@);
        }
        let line = ls[i].clone();
        let trimmed = trim_start_of(&line);
        let ghost cur0 = views(current@);
        if starts_with_chars(&trimmed, &fence_chars) {
            current.push(line);
            assert(views(current@) =~= cur0.push(ls@[i as int]@));
            in_code = !in_code;
            if !in_code {
                push_block(&mut blocks, &mut current);
                assert(views(current@) =~= Seq::<Seq<char>>::empty());
            }
        } else if in_code {
            current.push(line);
            assert(views(current@) =~= cur0.push(ls@[i as int]@));
        } else if heading_title_chars(&trimmed).is_some() {
            push_block(&mut blocks, &mut current);
            current.push(line);
            assert(views(current@) =~= seq![ls@[i as int]@]);
            push_block(&mut blocks, &mut current);
            assert(views(current@) =~= Seq::<Seq<char>>::empty());
        } else if trimmed.len() == 0 {
            push_block(&mut blocks, &mut current);
            assert(views(current@) =~= Seq::<Seq<char>>::empty());
        } else {
            current.push(line);
            assert(views(current@) =~= cur0.push(ls@[i as int]@));
        }
    }
    assert(views(ls@).take(ls.len() as int) =~= views(ls@));
    push_block(&mut blocks, &mut current);
    blocks
}

/// Splits markdown into blocks: paragraphs, heading lines, fenced code blocks.
pub fn split_markdown_blocks(content: &str) -> (r: Vec<MarkdownBlock>)
    ensures
        block_views(r@) == markdown_blocks(content@),
{
    let v = chars_of(content);
    split_markdown_blocks_chars(&v)
}

// ---------------------------------------------------------------------------
// Page drafts
// ---------------------------------------------------------------------------

/// A page to be written: its title and its markdown content.
pub struct PageDraft {
    pub title: String,
    pub content: String,
}

pub struct DraftView {
    pub title: Seq<char>,
    pub content: Seq<char>,
}

impl View for PageDraft {
    type V = DraftView;

    open spec fn view(&self) -> DraftView {
        DraftView { title: self.title@, content: self.content@ }
    }
}

pub open spec fn draft_views(v: Seq<PageDraft>) -> Seq<DraftView> {
    v.map_values(|d: PageDraft| d@)
}

/// `Page <index>`.
pub open spec fn default_title(index: nat) -> Seq<char> {
    seq!['P', 'a', 'g', 'e', ' '] + decimal(index)
}

/// The title of the first block that is a heading, if any.
pub open spec fn first_heading(blocks: Seq<BlockView>) -> Option<Seq<char>>
    decreases blocks.len(),
{
    if blocks.len() == 0 {
        None
    } else {
        match heading_title_of(blocks[0].text) {
            Some(t) => Some(t),
            None => first_heading(blocks.drop_first()),
        }
    }
}

/// The parts, each trimmed, without those that are empty once trimmed.
pub open spec fn trimmed_nonempty(parts: Seq<Seq<char>>) -> Seq<Seq<char>>
    decreases parts.len(),
{
    if parts.len() == 0 {
        seq![]
    } else {
        let r = trimmed_nonempty(parts.drop_last());
        let t = trim(parts.last());
        if t.len() > 0 {
            r.push(t)
        } else {
            r
        }
    }
}

pub open spec fn block_texts(blocks: Seq<BlockView>) -> Seq<Seq<char>> {
    blocks.map_values(|b: BlockView| b.text)
}

pub open spec fn paragraph_sep() -> Seq<char> {
    seq!['\n', '\n']
}

/// A text that is not empty ends with a newline.
pub open spec fn with_final_newline(s: Seq<char>) -> Seq<char> {
    if s.len() > 0 && s.last() != '\n' {
        s.push('\n')
    } else {
        s
    }
}

/// The page made of some blocks: titled by its first heading, or `Page <index>`;
/// its content the block texts separated by blank lines.
pub open spec fn compose(index: nat, blocks: Seq<BlockView>) -> DraftView {
    DraftView {
        title: match first_heading(blocks) {
            Some(t) => t,
            None => default_title(index),
        },
        content: with_final_newline(join(trimmed_nonempty(block_texts(blocks)), paragraph_sep())),
    }
}

/// A page is titled by the earliest of its blocks that is a heading: when
/// block `k` is a heading and no block before it is, the page's title is the
/// title of block `k`; when no block is a heading, it is `Page <index>`.
pub proof fn lemma_title_from_earliest_heading(index: nat, blocks: Seq<BlockView>, k: int)
    ensures
        0 <= k < blocks.len() && heading_title_of(blocks[k].text) is Some && (forall|j: int|
            0 <= j < k ==> heading_title_of(#[trigger] blocks[j].text) is None) ==> compose(
            index,
            blocks,
        ).title == heading_title_of(blocks[k].text)->Some_0,
        (forall|j: int| 0 <= j < blocks.len() ==> heading_title_of(#[trigger] blocks[j].text) is None)
            ==> compose(index, blocks).title == default_title(index),
    decreases blocks.len(),
{
    if blocks.len() > 0 {
        let rest = blocks.drop_first();
        lemma_title_from_earliest_heading(index, rest, k - 1);
        if 0 < k < blocks.len() && (forall|j: int|
            0 <= j < k ==> heading_title_of(#[trigger] blocks[j].text) is None) {
            assert(heading_title_of(blocks[0].text) is None);
            assert forall|j: int| 0 <= j < k - 1 implies heading_title_of(
                #[trigger] rest[j].text,
            ) is None by {
                assert(rest[j] == blocks[j + 1]);
            }
            assert(rest[k - 1] == blocks[k]);
        }
        if forall|j: int| 0 <= j < blocks.len() ==> heading_title_of(#[trigger] blocks[j].text) is None {
            assert(heading_title_of(blocks[0].text) is None);
            assert forall|j: int| 0 <= j < rest.len() implies heading_title_of(
                #[trigger] rest[j].text,
            ) is None by {
                assert(rest[j] == blocks[j + 1]);
            }
        }
    }
}

fn trimmed_nonempty_of(parts: &Vec<Vec<char>>) -> (r: Vec<Vec<char>>)
    ensures
        views(r@) == trimmed_nonempty(views(parts@)),
{
    let mut r: Vec<Vec<char>> = Vec::new();
    for i in 0..parts.len()
        invariant
            views(r@) == trimmed_nonempty(views(parts@).take(i as int)),
    {
        proof {
            assert(views(parts@).take(i + 1).drop_last() =~= views(parts@).take(i as int));
            assert(views(parts@).take(i + 1).last() == parts@[i as int]@);
        }
        let t = trim_of(&parts[i]);
        if t.len() > 0 {
            let ghost old_r = r@;
            r.push(t);
            assert(views(r@) =~= views(old_r).push(t@));
        }
    }
    assert(views(parts@).take(parts.len() as int) =~= views(parts@));
    r
}

pub fn default_title_of(index: usize) -> (r: Vec<char>)
    ensures
        r@ == default_title(index as nat),
{
    let p = vec!['P', 'a', 'g', 'e', ' '];
    let r = concat(&p, &decimal_of(index));
    assert(r@ =~= default_title(index as nat));
    r
}

fn first_heading_of(blocks: &Vec<MarkdownBlock>) -> (r: Option<Vec<char>>)
    ensures
        match r {
            None => first_heading(block_views(blocks@)) is None,
            Some(t) => first_heading(block_views(blocks@)) == Some(t@),
        },
{
    let ghost bv = block_views(blocks@);
    let mut i: usize = 0;
    assert(bv.skip(0) =~= bv);
    while i < blocks.len()
        invariant
            i <= blocks.len(),
            bv == block_views(blocks@),
            first_heading(bv) == first_heading(bv.skip(i as int)),
        decreases blocks.len() - i,
    {
        proof {
            assert(bv.skip(i as int).drop_first() =~= bv.skip(i + 1));
            assert(bv.skip(i as int)[0] == blocks@[i as int]@);
        }
        let text = chars_of(blocks[i].text.as_str());
        match heading_title_chars(&text) {
            Some(t) => {
                return Some(t);
            },
            None => {},
        }
        i += 1;
    }
    assert(bv.skip(blocks.len() as int) =~= Seq::<BlockView>::empty());
    None
}

/// Composes the page draft for a group of blocks at a position (from 1).
pub fn compose_page_draft(index: usize, blocks: &Vec<MarkdownBlock>) -> (d: PageDraft)
    ensures
        d@ == compose(index as nat, block_views(blocks@)),
{
    let ghost bv = block_views(blocks@);
    let title = match first_heading_of(blocks) {
        Some(t) => t,
        None => default_title_of(index),
    };
    let mut texts: Vec<Vec<char>> = Vec::new();
    for j in 0..blocks.len()
        invariant
            bv == block_views(blocks@),
            views(texts@) == block_texts(bv.take(j as int)),
    {
        let ghost old_t = texts@;
        texts.push(chars_of(blocks[j].text.as_str()));
        assert(block_texts(bv.take(j + 1)) =~= block_texts(bv.take(j as int)).push(
            blocks@[j as int].text@,
        ));
        assert(views(texts@) =~= views(old_t).push(blocks@[j as int].text@));
    }
    assert(bv.take(blocks.len() as int) =~= bv);
    let kept = trimmed_nonempty_of(&texts);
    let sep = vec!['\n', '\n'];
    assert(sep@ =~= paragraph_sep());
    let mut content = join_of(&kept, &sep);
    if content.len() > 0 && content[content.len() - 1] != '\n' {
        content.push('\n');
    }
    PageDraft { title: string_of(&title), content: string_of(&content) }
}

pub open spec fn only_heading(blocks: Seq<BlockView>) -> bool {
    blocks.len() == 1 && blocks[0].kind == BlockKind::Heading
}

/// Whether a group of blocks is a single heading.
pub fn has_only_heading(blocks: &Vec<MarkdownBlock>) -> (r: bool)
    ensures
        r == only_heading(block_views(blocks@)),
{
    blocks.len() == 1 && blocks[0].kind == BlockKind::Heading
}

#[verifier::ext_equal]
pub struct PageState {
    pub groups: Seq<Seq<BlockView>>,
    pub current: Seq<BlockView>,
    pub count: int,
}

/// The word count at or above which a heading starts a new page.
pub open spec fn heading_threshold(limit: int) -> int {
    if limit / 2 >= 1 {
        limit / 2
    } else {
        1
    }
}

/// Whether the page being filled is closed before `b`: when `b` would take
/// it over the limit (unless it holds a lone heading), or when `b` is a
/// heading and the page already holds half the limit.
pub open spec fn breaks_before(st: PageState, b: BlockView, limit: int) -> bool {
    ||| (st.current.len() > 0 && st.count + b.words > limit && !only_heading(st.current))
    ||| (b.kind == BlockKind::Heading && st.current.len() > 0 && st.count >= heading_threshold(
        limit,
    ))
}

pub open spec fn page_step(st: PageState, b: BlockView, limit: int) -> PageState {
    if breaks_before(st, b, limit) {
        PageState { groups: st.groups.push(st.current), current: seq![b], count: b.words as int }
    } else {
        PageState { groups: st.groups, current: st.current.push(b), count: st.count + b.words }
    }
}

pub open spec fn page_fold(blocks: Seq<BlockView>, limit: int) -> PageState
    decreases blocks.len(),
{
    if blocks.len() == 0 {
        PageState { groups: seq![], current: seq![], count: 0 }
    } else {
        page_step(page_fold(blocks.drop_last(), limit), blocks.last(), limit)
    }
}

/// The blocks of each page, in order.
pub open spec fn page_groups(blocks: Seq<BlockView>, limit: int) -> Seq<Seq<BlockView>> {
    let st = page_fold(blocks, limit);
    if st.current.len() > 0 {
        st.groups.push(st.current)
    } else {
        st.groups
    }
}

pub open spec fn empty_page() -> DraftView {
    DraftView { title: default_title(1), content: seq![] }
}

/// The pages of a sequence of blocks under a word limit: one page per group,
/// or a single empty `Page 1` when there are no blocks.
pub open spec fn pages_of_blocks(blocks: Seq<BlockView>, limit: int) -> Seq<DraftView> {
    let gs = page_groups(blocks, limit);
    if gs.len() == 0 {
        seq![empty_page()]
    } else {
        Seq::new(gs.len(), |i: int| compose((i + 1) as nat, gs[i]))
    }
}

/// The pages of a markdown text under a word limit.
pub open spec fn paginated(markdown: Seq<char>, limit: int) -> Seq<DraftView> {
    pages_of_blocks(markdown_blocks(markdown), limit)
}

fn copy_block(b: &MarkdownBlock) -> (r: MarkdownBlock)
    ensures
        r@ == b@,
{
    MarkdownBlock { text: b.text.clone(), words: b.words, kind: b.kind }
}

pub fn empty_page_draft() -> (d: PageDraft)
    ensures
        d@ == empty_page(),
{
    PageDraft { title: string_of(&default_title_of(1)), content: String::new() }
}

/// Splits markdown into page drafts of about `limit` words, breaking only
/// between blocks.
pub fn paginate_markdown(markdown: &str, limit: usize) -> (r: Vec<PageDraft>)
    ensures
        draft_views(r@) == paginated(markdown@, limit as int),
{
    let blocks = split_markdown_blocks(markdown);
    paginate_blocks(&blocks, limit)
}

/// Groups blocks into page drafts of about `limit` words: a page is closed
/// before a block that would take it over the limit (unless it holds a lone
/// heading), and before a heading once it holds half the limit.
pub fn paginate_blocks(blocks: &Vec<MarkdownBlock>, limit: usize) -> (r: Vec<PageDraft>)
    ensures
        draft_views(r@) == pages_of_blocks(block_views(blocks@), limit as int),
{
    let ghost bv = block_views(blocks@);
    if blocks.len() == 0 {
        let r = vec![empty_page_draft()];
        assert(draft_views(r@) =~= seq![empty_page()]);
        return r;
    }
    let mut pages: Vec<PageDraft> = Vec::new();
    let mut current: Vec<MarkdownBlock> = Vec::new();
    let mut count: u128 = 0;
    let threshold: usize = if limit / 2 >= 1 {
        limit / 2
    } else {
        1
    };
    let ghost mut groups: Seq<Seq<BlockView>> = seq![];
    assert(draft_views(pages@) =~= Seq::<DraftView>::empty());
    assert(block_views(current@) =~= Seq::<BlockView>::empty());
    for i in 0..blocks.len()
        invariant
            bv == block_views(blocks@),
            threshold as int == heading_threshold(limit as int),
            page_fold(bv.take(i as int), limit as int) == (PageState {
                groups,
                current: block_views(current@),
                count: count as int,
            }),
            draft_views(pages@) == Seq::new(
                groups.len(),
                |j: int| compose((j + 1) as nat, groups[j]),
            ),
            groups.len() + current.len() <= i,
            count <= i * (usize::MAX as int),
    {
        proof {
            assert(bv.take(i + 1).drop_last() =~= bv.take(i as int));
            assert(bv.take(i + 1).last() == blocks@[i as int]@);
            assert((i + 1) * (usize::MAX as int) <= (usize::MAX as int + 1) * (usize::MAX as int))
                by (nonlinear_arith)
                requires
                    i < usize::MAX,
            ;
            assert((usize::MAX as int + 1) * (usize::MAX as int) <= u128::MAX) by (nonlinear_arith)
                requires
                    usize::MAX <= u64::MAX,
            ;
            assert(i * (usize::MAX as int) + usize::MAX == (i + 1) * (usize::MAX as int))
                by (nonlinear_arith);
        }
        let ghost st = page_fold(bv.take(i as int), limit as int);
        let ghost b = blocks@[i as int]@;
        assert(page_fold(bv.take(i + 1), limit as int) == page_step(st, b, limit as int));
        let block = copy_block(&blocks[i]);
        let words = block.words as u128;
        let break_for_limit = current.len() > 0 && count + words > limit as u128
            && !has_only_heading(&current);
        let break_for_heading = block.kind == BlockKind::Heading && current.len() > 0 && count
            >= threshold as u128;
        assert(breaks_before(st, b, limit as int) == (break_for_limit || break_for_heading));
        if break_for_limit || break_for_heading {
            assert(pages@.len() == draft_views(pages@).len());
            let draft = compose_page_draft(pages.len() + 1, &current);
            let ghost old_pages = pages@;
            pages.push(draft);
            proof {
                assert(draft_views(pages@) =~= draft_views(old_pages).push(draft@));
                groups = groups.push(block_views(current@));
                assert(draft_views(pages@) =~= Seq::new(
                    groups.len(),
                    |j: int| compose((j + 1) as nat, groups[j]),
                ));
            }
            current = Vec::new();
            count = 0;
        }
        assert(count <= i * (usize::MAX as int)) by (nonlinear_arith)
            requires
                count == 0 || count <= i * (usize::MAX as int),
                i >= 0,
        ;
        count = count + words;
        let ghost old_cur = current@;
        current.push(block);
        assert(block_views(current@) =~= block_views(old_cur).push(blocks@[i as int]@));
        assert(page_fold(bv.take(i + 1), limit as int) =~= (PageState {
            groups,
            current: block_views(current@),
            count: count as int,
        }));
    }
    assert(bv.take(blocks.len() as int) =~= bv);
    if current.len() > 0 {
        assert(pages@.len() == draft_views(pages@).len());
        let draft = compose_page_draft(pages.len() + 1, &current);
        let ghost old_pages = pages@;
        pages.push(draft);
        proof {
            assert(draft_views(pages@) =~= draft_views(old_pages).push(draft@));
            groups = groups.push(block_views(current@));
        }
    }
    assert(draft_views(pages@) =~= Seq::new(
        groups.len(),
        |j: int| compose((j + 1) as nat, groups[j]),
    ));
    if pages.len() == 0 {
        let r = vec![empty_page_draft()];
        assert(draft_views(r@) =~= seq![empty_page()]);
        r
    } else {
        pages
    }
}

/// Joins the pages of a document for editing: each page trimmed, empty pages
/// left out, and a blank line between pages.
pub fn join_markdown_pages_for_normalize(pages: &Vec<String>) -> (r: String)
    ensures
        r@ == join(trimmed_nonempty(pages@.map_values(|p: String| p@)), paragraph_sep()),
{
    let mut parts: Vec<Vec<char>> = Vec::new();
    for i in 0..pages.len()
        invariant
            views(parts@) == pages@.take(i as int).map_values(|p: String| p@),
    {
        let ghost old_p = parts@;
        parts.push(chars_of(pages[i].as_str()));
        assert(views(parts@) =~= views(old_p).push(pages@[i as int]@));
        assert(pages@.take(i + 1).map_values(|p: String| p@) =~= pages@.take(i as int).map_values(
            |p: String| p@,
        ).push(pages@[i as int]@));
    }
    assert(pages@.take(pages.len() as int) =~= pages@);
    let kept = trimmed_nonempty_of(&parts);
    let sep = vec!['\n', '\n'];
    assert(sep@ =~= paragraph_sep());
    string_of(&join_of(&kept, &sep))
}

// ---------------------------------------------------------------------------
// Laws of pagination
// ---------------------------------------------------------------------------

/// The blocks of the groups, in order.
pub open spec fn flatten(gs: Seq<Seq<BlockView>>) -> Seq<BlockView>
    decreases gs.len(),
{
    if gs.len() == 0 {
        seq![]
    } else {
        flatten(gs.drop_last()) + gs.last()
    }
}

/// The word count of a group of blocks.
pub open spec fn total_words(g: Seq<BlockView>) -> int
    decreases g.len(),
{
    if g.len() == 0 {
        0
    } else {
        total_words(g.drop_last()) + g.last().words
    }
}

/// A group within the word limit, or one whose blocks before its last are
/// none or a lone heading: the only way a page goes over the limit.
pub open spec fn within_limit(g: Seq<BlockView>, limit: int) -> bool {
    ||| total_words(g) <= limit
    ||| g.len() <= 1
    ||| only_heading(g.drop_last())
}

proof fn lemma_page_fold(blocks: Seq<BlockView>, limit: int)
    ensures
        flatten(page_fold(blocks, limit).groups) + page_fold(blocks, limit).current == blocks,
        forall|i: int|
            0 <= i < page_fold(blocks, limit).groups.len() ==> (#[trigger] page_fold(
                blocks,
                limit,
            ).groups[i]).len() > 0 && within_limit(page_fold(blocks, limit).groups[i], limit),
        within_limit(page_fold(blocks, limit).current, limit),
        page_fold(blocks, limit).count == total_words(page_fold(blocks, limit).current),
    decreases blocks.len(),
{
    if blocks.len() > 0 {
        let prev = page_fold(blocks.drop_last(), limit);
        let b = blocks.last();
        lemma_page_fold(blocks.drop_last(), limit);
        let st = page_fold(blocks, limit);
        if breaks_before(prev, b, limit) {
            assert(st.groups.drop_last() == prev.groups);
            assert(flatten(st.groups) == flatten(prev.groups) + prev.current);
            assert(total_words(seq![b]) == b.words) by {
                assert(seq![b].drop_last() =~= Seq::<BlockView>::empty());
                assert(total_words(Seq::<BlockView>::empty()) == 0);
                assert(seq![b].last() == b);
            }
            assert(flatten(st.groups) + st.current =~= blocks);
        } else {
            assert(st.current.drop_last() == prev.current);
            assert(st.groups == prev.groups);
            assert(blocks.drop_last().push(b) =~= blocks);
            assert(flatten(st.groups) + st.current =~= (flatten(prev.groups) + prev.current).push(b));
            assert(flatten(st.groups) + st.current =~= blocks);
        }
    }
}

/// Pagination neither loses, splits nor reorders blocks: the blocks of the
/// pages, in order, are the blocks of the markdown, and no page is empty.
pub proof fn lemma_pages_keep_blocks(markdown: Seq<char>, limit: int)
    ensures
        flatten(page_groups(markdown_blocks(markdown), limit)) == markdown_blocks(markdown),
        forall|i: int|
            0 <= i < page_groups(markdown_blocks(markdown), limit).len() ==> (#[trigger] page_groups(
                markdown_blocks(markdown),
                limit,
            )[i]).len() > 0,
{
    let blocks = markdown_blocks(markdown);
    let st = page_fold(blocks, limit);
    lemma_page_fold(blocks, limit);
    if st.current.len() > 0 {
        assert(page_groups(blocks, limit).drop_last() == st.groups);
    } else {
        assert(st.current =~= Seq::<BlockView>::empty());
        assert(flatten(st.groups) + st.current =~= flatten(st.groups));
    }
}

/// A page holds at most `limit` words, unless what comes before its last
/// block is nothing or a lone heading: a block is never split to fit.
pub proof fn lemma_pages_respect_limit(markdown: Seq<char>, limit: int)
    ensures
        forall|i: int|
            0 <= i < page_groups(markdown_blocks(markdown), limit).len() ==> within_limit(
                #[trigger] page_groups(markdown_blocks(markdown), limit)[i],
                limit,
            ),
{
    let blocks = markdown_blocks(markdown);
    lemma_page_fold(blocks, limit);
}

/// There is always at least one page, and page `i` is composed from the
/// `i`-th group of blocks: titled by its first heading or `Page <i+1>`.
pub proof fn lemma_pages_from_groups(markdown: Seq<char>, limit: int)
    ensures
        paginated(markdown, limit).len() >= 1,
        page_groups(markdown_blocks(markdown), limit).len() > 0 ==> paginated(markdown, limit).len()
            == page_groups(markdown_blocks(markdown), limit).len(),
        forall|i: int|
            0 <= i < page_groups(markdown_blocks(markdown), limit).len() ==> (#[trigger] paginated(
                markdown,
                limit,
            )[i]).title == match first_heading(page_groups(markdown_blocks(markdown), limit)[i]) {
                Some(t) => t,
                None => default_title((i + 1) as nat),
            },
{
}

} // verus!
