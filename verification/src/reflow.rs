//! Paginating the markdown that pagination wrote gives the same pages.
//!
//! A normalized document is read back by joining its pages with blank lines.
//! The lemmas here show that splitting that text into blocks gives back
//! exactly the blocks that the pages were made from, so that a second
//! normalization finds nothing to change.
use vstd::prelude::*;
use crate::text::{
    white_space, lead, trail, lemma_lead, lemma_trail, lemma_lead_unique, lemma_trail_unique,
    strip_end, trim, trim_start, starts_with, CharClass,
};
use crate::text::{find, lemma_find, in_class};
use crate::markdown::{heading_title_of, fence, word_count, alphanumeric_words};
use crate::split::{lines, join, drop_cr, words};
use crate::paginate::{
    SplitState, BlockView, split_step, split_fold, flush, make_block, markdown_blocks, block_texts,
    paragraph_sep, DraftView, paginated, page_groups, compose, trimmed_nonempty, with_final_newline,
    flatten, lemma_pages_keep_blocks, empty_page,
};

verus! {

// ---------------------------------------------------------------------------
// Whitespace at the ends of a text
// ---------------------------------------------------------------------------

/// `str::trim_end`.
pub open spec fn trim_end(s: Seq<char>) -> Seq<char> {
    strip_end(s, CharClass::Space)
}

pub open spec fn all_space(s: Seq<char>) -> bool {
    forall|i: int| 0 <= i < s.len() ==> white_space(#[trigger] s[i])
}

/// Line feed and carriage return are whitespace; the backquote and the hash
/// sign are not.
pub proof fn lemma_space_facts()
    ensures
        white_space('\n'),
        white_space('\r'),
        !white_space('`'),
        !white_space('#'),
{
    reveal(white_space);
}

proof fn lemma_trim_start_at(s: Seq<char>, i: int)
    requires
        0 <= i <= s.len(),
        forall|j: int| 0 <= j < i ==> white_space(#[trigger] s[j]),
        i < s.len() ==> !white_space(s[i]),
    ensures
        trim_start(s) == s.skip(i),
{
    lemma_lead_unique(s, CharClass::Space, i);
}

proof fn lemma_trim_end_at(s: Seq<char>, j: int)
    requires
        0 <= j <= s.len(),
        forall|i: int| j <= i < s.len() ==> white_space(#[trigger] s[i]),
        j > 0 ==> !white_space(s[j - 1]),
    ensures
        trim_end(s) == s.take(j),
{
    lemma_trail_unique(s, CharClass::Space, s.len() - j);
}

/// The trimmed text runs from the first to the last character that is not
/// whitespace.
proof fn lemma_trim_at(s: Seq<char>, i: int, j: int)
    requires
        0 <= i <= j <= s.len(),
        forall|k: int| 0 <= k < i ==> white_space(#[trigger] s[k]),
        forall|k: int| j <= k < s.len() ==> white_space(#[trigger] s[k]),
        i < j ==> !white_space(s[i]) && !white_space(s[j - 1]),
    ensures
        trim(s) == s.subrange(i, j),
{
    if i == j {
        lemma_trim_start_at(s, s.len() as int);
        assert(trim_start(s) =~= Seq::<char>::empty());
        lemma_trim_end_at(trim_start(s), 0);
        assert(trim(s) =~= s.subrange(i, j));
    } else {
        lemma_trim_start_at(s, i);
        let u = s.skip(i);
        lemma_trim_end_at(u, j - i);
        assert(u.take(j - i) =~= s.subrange(i, j));
    }
}

/// Trimming the start of a text twice is trimming it once.
pub proof fn lemma_trim_start_twice(x: Seq<char>)
    ensures
        trim_start(trim_start(x)) == trim_start(x),
{
    lemma_lead(x, CharClass::Space);
    let u = trim_start(x);
    lemma_trim_start_at(u, 0);
    assert(u.skip(0) =~= u);
}

/// Trimming the start, then the end, is trimming the end, then the start.
pub proof fn lemma_trim_start_of_end(x: Seq<char>)
    ensures
        trim_start(trim_end(x)) == trim(x),
{
    lemma_lead(x, CharClass::Space);
    lemma_trail(x, CharClass::Space);
    let a = lead(x, CharClass::Space) as int;
    let b = x.len() - trail(x, CharClass::Space);
    if a == x.len() {
        lemma_trim_end_at(x, 0);
        assert(trim_end(x) =~= Seq::<char>::empty());
        lemma_trim_start_at(trim_end(x), 0);
        lemma_trim_at(x, 0, 0);
        assert(trim(x) =~= Seq::<char>::empty());
        assert(trim_start(trim_end(x)) =~= Seq::<char>::empty());
    } else {
        assert(a < b) by {
            if b <= a {
                assert(white_space(x[a]));
            }
        }
        lemma_trim_at(x, a, b);
        let t = x.take(b);
        assert(trim_end(x) == t);
        lemma_trim_start_at(t, a);
        assert(t.skip(a) =~= x.subrange(a, b));
    }
}

/// A trimmed text is its own trim, at either end and at both.
pub proof fn lemma_trim_twice(x: Seq<char>)
    ensures
        trim(trim(x)) == trim(x),
        trim_start(trim(x)) == trim(x),
        trim_end(trim(x)) == trim(x),
{
    lemma_lead(x, CharClass::Space);
    lemma_trail(x, CharClass::Space);
    let a = lead(x, CharClass::Space) as int;
    let b = x.len() - trail(x, CharClass::Space);
    if a == x.len() {
        lemma_trim_at(x, 0, 0);
    } else {
        assert(a < b) by {
            if b <= a {
                assert(white_space(x[a]));
            }
        }
        lemma_trim_at(x, a, b);
    }
    let t = trim(x);
    lemma_trim_at(t, 0, t.len() as int);
    assert(t.subrange(0, t.len() as int) =~= t);
    lemma_trim_start_at(t, 0);
    assert(t.skip(0) =~= t);
    lemma_trim_end_at(t, t.len() as int);
    assert(t.take(t.len() as int) =~= t);
}

/// A trimmed text that is not empty starts and ends with a character that is
/// not whitespace.
pub proof fn lemma_trim_ends(x: Seq<char>)
    ensures
        trim(x).len() > 0 ==> !white_space(trim(x)[0]) && !white_space(trim(x).last()),
        trim(x).len() == 0 ==> all_space(x),
{
    lemma_lead(x, CharClass::Space);
    lemma_trail(x, CharClass::Space);
    let a = lead(x, CharClass::Space) as int;
    let b = x.len() - trail(x, CharClass::Space);
    if a == x.len() {
        lemma_trim_at(x, 0, 0);
    } else {
        assert(a < b) by {
            if b <= a {
                assert(white_space(x[a]));
            }
        }
        lemma_trim_at(x, a, b);
    }
}

// ---------------------------------------------------------------------------
// How the block splitter sees a line
// ---------------------------------------------------------------------------

pub open spec fn fence_line(x: Seq<char>) -> bool {
    starts_with(trim_start(x), fence())
}

pub open spec fn heading_line(x: Seq<char>) -> bool {
    heading_title_of(trim_start(x)) is Some
}

pub open spec fn blank_line(x: Seq<char>) -> bool {
    trim_start(x).len() == 0
}

/// Two lines that the block splitter tells apart in the same way.
pub open spec fn same_class(x: Seq<char>, y: Seq<char>) -> bool {
    &&& fence_line(x) == fence_line(y)
    &&& heading_line(x) == heading_line(y)
    &&& blank_line(x) == blank_line(y)
}

/// Cutting trailing whitespace from a text that starts with a character that
/// is not whitespace changes neither its fence, nor its heading title, nor
/// whether it is empty.
proof fn lemma_trim_end_keeps(u: Seq<char>)
    requires
        u.len() > 0 ==> !white_space(u[0]),
    ensures
        trim_start(trim_end(u)) == trim_end(u),
        starts_with(trim_end(u), fence()) == starts_with(u, fence()),
        heading_title_of(trim_end(u)) == heading_title_of(u),
        (trim_end(u).len() == 0) == (u.len() == 0),
        trim_start(u) == u,
{
    lemma_space_facts();
    lemma_trail(u, CharClass::Space);
    let n = u.len() - trail(u, CharClass::Space);
    let v = trim_end(u);
    assert(v == u.take(n));
    lemma_trim_start_at(u, 0);
    assert(u.skip(0) =~= u);
    if n > 0 {
        lemma_trim_start_at(v, 0);
        assert(v.skip(0) =~= v);
    } else {
        lemma_trim_start_at(v, 0);
        assert(v.skip(0) =~= v);
    }
    if n == u.len() {
        assert(v =~= u);
    } else {
        // u[n..] is whitespace, and u[n - 1] is not.
        assert(n > 0) by {
            if n == 0 {
                assert(white_space(u[0]));
            }
        }
        if starts_with(u, fence()) {
            assert(u[2] == '`') by {
                assert(u.take(3)[2] == fence()[2]);
            }
            assert(n > 2) by {
                if n <= 2 {
                    assert(white_space(u[2]));
                }
            }
            assert(v.take(3) =~= u.take(3));
        }
        if starts_with(v, fence()) {
            assert(v.take(3) =~= u.take(3));
        }
        lemma_trim_end_heading(u, n);
    }
}

proof fn lemma_trim_end_heading(u: Seq<char>, n: int)
    requires
        0 < n < u.len(),
        !white_space(u[0]),
        !white_space(u[n - 1]),
        forall|i: int| n <= i < u.len() ==> white_space(#[trigger] u[i]),
        trim_start(u) == u,
        trim_start(u.take(n)) == u.take(n),
    ensures
        heading_title_of(u.take(n)) == heading_title_of(u),
{
    lemma_space_facts();
    let v = u.take(n);
    let hash = CharClass::Is('#');
    lemma_lead(u, hash);
    let h = lead(u, hash) as int;
    assert(h <= n) by {
        if h > n {
            assert(u[n] == '#');
            assert(white_space(u[n]));
        }
    }
    assert forall|j: int| 0 <= j < h implies crate::text::in_class(hash, #[trigger] v[j]) by {
        assert(v[j] == u[j]);
        assert(crate::text::in_class(hash, u[j]));
    }
    if h < n {
        assert(v[h] == u[h]);
    }
    lemma_lead_unique(v, hash, h);
    if 1 <= h <= 6 {
        let ru = u.skip(h);
        let rv = v.skip(h);
        if h == n {
            assert(rv.len() == 0);
            if ru.len() > 0 && white_space(ru[0]) {
                assert forall|k: int| 0 <= k < ru.len() implies white_space(#[trigger] ru[k]) by {
                    assert(ru[k] == u[h + k]);
                }
                lemma_trim_at(ru, 0, 0);
                let e = trim(ru);
                assert(e =~= Seq::<char>::empty());
                lemma_trail(e, CharClass::Is('#'));
                assert(strip_end(e, CharClass::Is('#')) =~= Seq::<char>::empty());
                lemma_trim_at(strip_end(e, CharClass::Is('#')), 0, 0);
            }
        } else {
            assert(rv =~= ru.take(n - h));
            let m = n - h;
            assert forall|k: int| m <= k < ru.len() implies white_space(#[trigger] ru[k]) by {
                assert(ru[k] == u[h + k]);
            }
            assert(ru[m - 1] == u[n - 1]);
            lemma_lead(ru, CharClass::Space);
            let p = lead(ru, CharClass::Space) as int;
            assert(p < m) by {
                if p >= m {
                    assert(white_space(ru[m - 1]));
                }
            }
            lemma_trim_at(ru, p, m);
            assert forall|k: int| 0 <= k < p implies white_space(#[trigger] rv[k]) by {
                assert(rv[k] == ru[k]);
            }
            assert(rv[p] == ru[p]);
            assert(rv[m - 1] == ru[m - 1]);
            lemma_trim_at(rv, p, m);
            assert(rv.subrange(p, m) =~= ru.subrange(p, m));
        }
    }
}

/// Trimming either end of a line does not change how the splitter sees it.
pub proof fn lemma_same_class_trimmed(x: Seq<char>)
    ensures
        same_class(trim_start(x), x),
        same_class(trim_end(x), x),
        same_class(trim(x), x),
{
    lemma_trim_start_twice(x);
    lemma_trim_start_of_end(x);
    lemma_lead(x, CharClass::Space);
    let u = trim_start(x);
    if u.len() > 0 {
        assert(u[0] == x[lead(x, CharClass::Space) as int]);
    }
    lemma_trim_end_keeps(u);
    // trim_start(trim_end(x)) == trim(x) == trim_end(trim_start(x))
    assert(trim(x) == trim_end(u));
    lemma_trim_start_of_end(u);
}

// ---------------------------------------------------------------------------
// Running the block splitter from any state
// ---------------------------------------------------------------------------

/// The state the block splitter starts in.
pub open spec fn start() -> SplitState {
    SplitState { blocks: seq![], current: seq![], in_code: false }
}

/// The block splitter run over `ls` from state `st`.
pub open spec fn split_from(st: SplitState, ls: Seq<Seq<char>>) -> SplitState
    decreases ls.len(),
{
    if ls.len() == 0 {
        st
    } else {
        split_step(split_from(st, ls.drop_last()), ls.last())
    }
}

/// The block splitter over some lines is the run from the start state.
pub proof fn lemma_split_fold_from(ls: Seq<Seq<char>>)
    ensures
        split_fold(ls) == split_from(start(), ls),
    decreases ls.len(),
{
    if ls.len() > 0 {
        lemma_split_fold_from(ls.drop_last());
    }
}

/// Running the splitter over two stretches of lines is running it over the
/// first, then over the second from where the first left off.
pub proof fn lemma_split_from_append(st: SplitState, a: Seq<Seq<char>>, b: Seq<Seq<char>>)
    ensures
        split_from(st, a + b) == split_from(split_from(st, a), b),
    decreases b.len(),
{
    if b.len() == 0 {
        assert(a + b =~= a);
    } else {
        lemma_split_from_append(st, a, b.drop_last());
        assert((a + b).drop_last() =~= a + b.drop_last());
        assert((a + b).last() == b.last());
    }
}

/// `st` with `p` before its blocks.
pub open spec fn after_blocks(st: SplitState, p: Seq<BlockView>) -> SplitState {
    SplitState { blocks: p + st.blocks, current: st.current, in_code: st.in_code }
}

proof fn lemma_flush_after(p: Seq<BlockView>, q: Seq<BlockView>, c: Seq<Seq<char>>)
    ensures
        flush(p + q, c) == p + flush(q, c),
{
    match make_block(c) {
        None => {},
        Some(b) => {
            assert((p + q).push(b) =~= p + q.push(b));
        },
    }
}

/// The blocks found before do not change what the splitter does next.
pub proof fn lemma_split_from_after(st: SplitState, p: Seq<BlockView>, ls: Seq<Seq<char>>)
    ensures
        split_from(after_blocks(st, p), ls) == after_blocks(split_from(st, ls), p),
    decreases ls.len(),
{
    if ls.len() > 0 {
        lemma_split_from_after(st, p, ls.drop_last());
        let s0 = split_from(st, ls.drop_last());
        let x = ls.last();
        lemma_flush_after(p, s0.blocks, s0.current);
        lemma_flush_after(p, s0.blocks, s0.current.push(x));
        lemma_flush_after(p, flush(s0.blocks, s0.current), seq![x]);
        assert(split_step(after_blocks(s0, p), x) =~= after_blocks(split_step(s0, x), p));
    }
}

/// A blank line outside a code block ends the block being gathered; inside
/// one it is kept.
proof fn lemma_blank_step(st: SplitState)
    ensures
        st.in_code ==> split_step(st, seq![]).in_code,
        !st.in_code ==> split_step(st, seq![]) == (SplitState {
            blocks: flush(st.blocks, st.current),
            current: seq![],
            in_code: false,
        }),
{
    let e = Seq::<char>::empty();
    lemma_trim_start_at(e, 0);
    assert(e.skip(0) =~= e);
    lemma_lead_unique(e, CharClass::Is('#'), 0);
}

// ---------------------------------------------------------------------------
// The lines of a block being gathered
// ---------------------------------------------------------------------------

/// A line of running text: no fence, no heading, not blank.
pub open spec fn para_line(x: Seq<char>) -> bool {
    !fence_line(x) && !heading_line(x) && !blank_line(x)
}

/// Lines that the splitter gathers into one block without ending it, ending
/// inside a code block when `code` holds: lines of running text, then
/// possibly a fence followed by lines that are no fence.
pub open spec fn growing(c: Seq<Seq<char>>, code: bool) -> bool
    decreases c.len(),
{
    if c.len() == 0 {
        !code
    } else if code {
        if fence_line(c.last()) {
            growing(c.drop_last(), false)
        } else {
            growing(c.drop_last(), true)
        }
    } else {
        para_line(c.last()) && growing(c.drop_last(), false)
    }
}

proof fn lemma_growing_fold(c: Seq<Seq<char>>, code: bool, p: Seq<BlockView>)
    requires
        growing(c, code),
    ensures
        split_from(SplitState { blocks: p, current: seq![], in_code: false }, c) == (SplitState {
            blocks: p,
            current: c,
            in_code: code,
        }),
    decreases c.len(),
{
    if c.len() == 0 {
        assert(c =~= Seq::<Seq<char>>::empty());
    } else {
        let k = if code {
            !fence_line(c.last())
        } else {
            false
        };
        lemma_growing_fold(c.drop_last(), k, p);
        assert(c.drop_last().push(c.last()) =~= c);
    }
}

proof fn lemma_growing_same_class(c: Seq<Seq<char>>, d: Seq<Seq<char>>, code: bool)
    requires
        c.len() == d.len(),
        forall|i: int| 0 <= i < c.len() ==> same_class(#[trigger] c[i], d[i]),
    ensures
        growing(c, code) == growing(d, code),
    decreases c.len(),
{
    if c.len() > 0 {
        assert forall|i: int| 0 <= i < c.len() - 1 implies same_class(
            #[trigger] c.drop_last()[i],
            d.drop_last()[i],
        ) by {
            assert(same_class(c[i], d[i]));
        }
        assert(same_class(c[c.len() - 1], d[d.len() - 1]));
        lemma_growing_same_class(c.drop_last(), d.drop_last(), true);
        lemma_growing_same_class(c.drop_last(), d.drop_last(), false);
    }
}

proof fn lemma_growing_prefix(c: Seq<Seq<char>>, code: bool, j: int)
    requires
        growing(c, code),
        0 <= j <= c.len(),
    ensures
        growing(c.take(j), true) || growing(c.take(j), false),
    decreases c.len(),
{
    if j == c.len() {
        assert(c.take(j) =~= c);
    } else {
        let k = if code {
            !fence_line(c.last())
        } else {
            false
        };
        lemma_growing_prefix(c.drop_last(), k, j);
        assert(c.drop_last().take(j) =~= c.take(j));
    }
}

proof fn lemma_growing_first(c: Seq<Seq<char>>, code: bool)
    requires
        growing(c, code),
        c.len() > 0,
    ensures
        !blank_line(c[0]),
    decreases c.len(),
{
    if c.len() == 1 {
        assert(c.last() == c[0]);
        assert(c.drop_last().len() == 0);
        assert(!growing(c.drop_last(), true));
        assert(fence().len() == 3);
    } else {
        let k = if code {
            !fence_line(c.last())
        } else {
            false
        };
        lemma_growing_first(c.drop_last(), k);
        assert(c.drop_last()[0] == c[0]);
    }
}

// ---------------------------------------------------------------------------
// Joining lines and splitting them again
// ---------------------------------------------------------------------------

pub open spec fn nl() -> Seq<char> {
    seq!['\n']
}

/// Whether a text ends with a carriage return.
pub open spec fn ends_cr(s: Seq<char>) -> bool {
    s.len() > 0 && s.last() == '\r'
}

/// Joined parts are the first part, the separator, and the rest joined.
pub proof fn lemma_join_first(d: Seq<Seq<char>>, sep: Seq<char>)
    requires
        d.len() >= 2,
    ensures
        join(d, sep) == d[0] + sep + join(d.drop_first(), sep),
    decreases d.len(),
{
    if d.len() == 2 {
        assert(d.drop_last() =~= seq![d[0]]);
        assert(d.drop_first() =~= seq![d[1]]);
        assert(join(d.drop_last(), sep) == d[0]);
        assert(join(d.drop_first(), sep) == d[1]);
        assert(join(d, sep) == join(d.drop_last(), sep) + sep + d.last());
    } else {
        let a = d.drop_last();
        let b = d.drop_first();
        lemma_join_first(a, sep);
        assert(a.drop_first() =~= b.drop_last());
        assert(a[0] == d[0]);
        assert(b.last() == d.last());
        assert(join(d, sep) == join(a, sep) + sep + d.last());
        assert(join(b, sep) == join(b.drop_last(), sep) + sep + b.last());
        assert(join(d, sep) =~= d[0] + sep + join(b, sep));
    }
}

/// Joining two non-empty runs of parts puts the separator between their joins.
pub proof fn lemma_join_append(a: Seq<Seq<char>>, b: Seq<Seq<char>>, sep: Seq<char>)
    requires
        a.len() > 0,
        b.len() > 0,
    ensures
        join(a + b, sep) == join(a, sep) + sep + join(b, sep),
    decreases b.len(),
{
    if b.len() == 1 {
        assert((a + b).drop_last() =~= a);
        assert((a + b).last() == b[0]);
    } else {
        lemma_join_append(a, b.drop_last(), sep);
        assert((a + b).drop_last() =~= a + b.drop_last());
        assert((a + b).last() == b.last());
    }
}

proof fn lemma_no_newline_find(s: Seq<char>)
    requires
        !s.contains('\n'),
    ensures
        find(s, '\n') == s.len(),
{
    lemma_find(s, '\n');
}

/// Lines without line feeds, none but the last ending with a carriage
/// return and the last not empty, are what their join splits into.
pub proof fn lemma_lines_of_join(d: Seq<Seq<char>>)
    requires
        d.len() > 0,
        forall|i: int| 0 <= i < d.len() ==> !(#[trigger] d[i]).contains('\n'),
        forall|i: int| 0 <= i < d.len() - 1 ==> !ends_cr(#[trigger] d[i]),
        d.last().len() > 0,
    ensures
        lines(join(d, nl())) == d,
    decreases d.len(),
{
    if d.len() == 1 {
        assert(!d[0].contains('\n'));
        lemma_no_newline_find(d[0]);
        assert(seq![d[0]] =~= d);
    } else {
        lemma_join_first(d, nl());
        let d0 = d[0];
        let r = join(d.drop_first(), nl());
        let s = d0 + nl() + r;
        assert(!d0.contains('\n'));
        assert forall|j: int| 0 <= j < d0.len() implies in_class(
            CharClass::IsNot('\n'),
            #[trigger] s[j],
        ) by {
            assert(s[j] == d0[j]);
            if s[j] == '\n' {
                assert(d0.contains('\n'));
            }
        }
        assert(s[d0.len() as int] == '\n');
        lemma_lead_unique(s, CharClass::IsNot('\n'), d0.len() as int);
        assert(s.take(d0.len() as int) =~= d0);
        assert(s.skip(d0.len() as int + 1) =~= r);
        assert(!ends_cr(d[0]));
        assert(drop_cr(d0) == d0);
        assert forall|i: int| 0 <= i < d.drop_first().len() implies !(
        #[trigger] d.drop_first()[i]).contains('\n') by {
            assert(d.drop_first()[i] == d[i + 1]);
        }
        assert forall|i: int| 0 <= i < d.drop_first().len() - 1 implies !ends_cr(
            #[trigger] d.drop_first()[i],
        ) by {
            assert(d.drop_first()[i] == d[i + 1]);
        }
        lemma_lines_of_join(d.drop_first());
        assert(seq![d0] + d.drop_first() =~= d);
    }
}

/// A line ending between two texts splits the lines of their concatenation
/// between them.
pub proof fn lemma_lines_append(a: Seq<char>, r: Seq<char>)
    requires
        a.len() > 0,
        a.last() != '\n',
        a.last() != '\r',
    ensures
        lines(a + nl() + r) == lines(a) + lines(r),
    decreases a.len(),
{
    let s = a + nl() + r;
    lemma_find(a, '\n');
    let k = find(a, '\n') as int;
    if k == a.len() {
        assert forall|j: int| 0 <= j < a.len() implies in_class(
            CharClass::IsNot('\n'),
            #[trigger] s[j],
        ) by {
            assert(s[j] == a[j]);
        }
        assert(s[a.len() as int] == '\n');
        lemma_lead_unique(s, CharClass::IsNot('\n'), a.len() as int);
        assert(s.take(a.len() as int) =~= a);
        assert(s.skip(a.len() as int + 1) =~= r);
        assert(drop_cr(a) == a);
    } else {
        assert forall|j: int| 0 <= j < k implies in_class(
            CharClass::IsNot('\n'),
            #[trigger] s[j],
        ) by {
            assert(s[j] == a[j]);
        }
        assert(s[k] == a[k]);
        lemma_lead_unique(s, CharClass::IsNot('\n'), k);
        assert(k < a.len() - 1) by {
            if k == a.len() - 1 {
                assert(a.last() == a[k]);
            }
        }
        let a2 = a.skip(k + 1);
        assert(a2.last() == a.last());
        lemma_lines_append(a2, r);
        assert(s.take(k) =~= a.take(k));
        assert(s.skip(k + 1) =~= a2 + nl() + r);
    }
}

proof fn lemma_lines_after_newline(b: Seq<char>)
    ensures
        lines(nl() + b) == seq![Seq::<char>::empty()] + lines(b),
{
    let s = nl() + b;
    lemma_lead_unique(s, CharClass::IsNot('\n'), 0);
    assert(s.take(0) =~= Seq::<char>::empty());
    assert(s.skip(1) =~= b);
}

/// Two texts joined by a blank line: the lines of the first, an empty line,
/// the lines of the second.
pub proof fn lemma_lines_paragraphs(a: Seq<char>, b: Seq<char>)
    requires
        a.len() > 0,
        a.last() != '\n',
        a.last() != '\r',
    ensures
        lines(a + seq!['\n', '\n'] + b) == lines(a) + seq![Seq::<char>::empty()] + lines(b),
{
    lemma_lines_append(a, nl() + b);
    lemma_lines_after_newline(b);
    assert(a + seq!['\n', '\n'] + b =~= a + nl() + (nl() + b));
    assert(lines(a) + (seq![Seq::<char>::empty()] + lines(b)) =~= lines(a) + seq![
        Seq::<char>::empty(),
    ] + lines(b));
}

/// No line of a text holds a line feed.
pub proof fn lemma_lines_no_newline(s: Seq<char>)
    ensures
        forall|i: int| 0 <= i < lines(s).len() ==> !(#[trigger] lines(s)[i]).contains('\n'),
    decreases s.len(),
{
    if s.len() > 0 {
        lemma_find(s, '\n');
        let k = find(s, '\n') as int;
        if k < s.len() {
            lemma_lines_no_newline(s.skip(k + 1));
            let first = drop_cr(s.take(k));
            assert(!first.contains('\n')) by {
                if first.contains('\n') {
                    let j = choose|j: int| 0 <= j < first.len() && first[j] == '\n';
                    assert(s[j] == '\n');
                }
            }
            assert forall|i: int| 0 <= i < lines(s).len() implies !(
            #[trigger] lines(s)[i]).contains('\n') by {
                if i > 0 {
                    assert(lines(s)[i] == lines(s.skip(k + 1))[i - 1]);
                }
            }
        } else {
            assert(lines(s) == seq![s]);
            assert(lines(s)[0] == s);
        }
    }
}

// ---------------------------------------------------------------------------
// The text of a block, split into lines again
// ---------------------------------------------------------------------------

proof fn lemma_nonblank_ends(x: Seq<char>)
    requires
        !blank_line(x),
    ensures
        lead(x, CharClass::Space) < x.len(),
        trail(x, CharClass::Space) < x.len(),
        trim_start(x).len() > 0 && !white_space(trim_start(x)[0]),
        trim_end(x).len() > 0 && !white_space(trim_end(x).last()),
        trim_start(x).last() == x.last(),
        trim_end(x)[0] == x[0],
{
    lemma_lead(x, CharClass::Space);
    lemma_trail(x, CharClass::Space);
    let a = lead(x, CharClass::Space) as int;
    assert(!white_space(x[a]));
    assert(trail(x, CharClass::Space) < x.len()) by {
        if trail(x, CharClass::Space) == x.len() {
            assert(white_space(x[a]));
        }
    }
    assert(trim_start(x)[0] == x[a]);
}

proof fn lemma_trim_start_concat(a: Seq<char>, r: Seq<char>)
    requires
        !blank_line(a),
    ensures
        trim_start(a + r) == trim_start(a) + r,
{
    lemma_lead(a, CharClass::Space);
    lemma_nonblank_ends(a);
    let i = lead(a, CharClass::Space) as int;
    assert forall|j: int| 0 <= j < i implies white_space(#[trigger] (a + r)[j]) by {
        assert((a + r)[j] == a[j]);
        assert(in_class(CharClass::Space, a[j]));
    }
    assert((a + r)[i] == a[i]);
    lemma_trim_start_at(a + r, i);
    assert((a + r).skip(i) =~= a.skip(i) + r);
}

proof fn lemma_trim_end_concat(p: Seq<char>, l: Seq<char>)
    requires
        !blank_line(l),
    ensures
        trim_end(p + l) == p + trim_end(l),
{
    lemma_trail(l, CharClass::Space);
    lemma_nonblank_ends(l);
    let n = l.len() - trail(l, CharClass::Space);
    let s = p + l;
    assert forall|i: int| p.len() + n <= i < s.len() implies white_space(#[trigger] s[i]) by {
        assert(s[i] == l[i - p.len()]);
        assert(in_class(CharClass::Space, l[i - p.len()]));
    }
    assert(s[p.len() + n - 1] == l[n - 1]);
    lemma_trim_end_at(s, p.len() + n);
    assert(s.take(p.len() + n) =~= p + l.take(n));
}

/// The lines of a block as its trimmed text holds them: the first without
/// its leading whitespace, the last without its trailing whitespace.
pub open spec fn trimmed_lines(d: Seq<Seq<char>>) -> Seq<Seq<char>> {
    let e = d.update(0, trim_start(d[0]));
    e.update(e.len() - 1, trim_end(e.last()))
}

/// Trimming lines joined by line feeds trims the first line's start and the
/// last line's end.
proof fn lemma_trim_join(d: Seq<Seq<char>>)
    requires
        d.len() > 0,
        !blank_line(d[0]),
        !blank_line(d.last()),
    ensures
        trim(join(d, nl())) == join(trimmed_lines(d), nl()),
{
    let e = d.update(0, trim_start(d[0]));
    let f = trimmed_lines(d);
    lemma_nonblank_ends(d[0]);
    if d.len() == 1 {
        assert(f =~= seq![trim(d[0])]);
    } else {
        lemma_join_first(d, nl());
        lemma_join_first(e, nl());
        let r = join(d.drop_first(), nl());
        assert(e.drop_first() =~= d.drop_first());
        lemma_trim_start_concat(d[0], nl() + r);
        assert(d[0] + nl() + r =~= d[0] + (nl() + r));
        assert(trim_start(d[0]) + (nl() + r) =~= trim_start(d[0]) + nl() + r);
        assert(trim_start(join(d, nl())) == join(e, nl()));
        assert(e.last() == d.last());
        let p = join(e.drop_last(), nl()) + nl();
        assert(join(e, nl()) == p + e.last());
        lemma_trim_end_concat(p, e.last());
        assert(f.drop_last() =~= e.drop_last());
        assert(join(f, nl()) == join(f.drop_last(), nl()) + nl() + f.last());
        assert(join(f, nl()) =~= p + trim_end(e.last()));
    }
}

proof fn lemma_sub_no_char(x: Seq<char>, c: char, i: int, j: int)
    requires
        !x.contains(c),
        0 <= i <= j <= x.len(),
    ensures
        !x.subrange(i, j).contains(c),
{
    if x.subrange(i, j).contains(c) {
        let k = choose|k: int| 0 <= k < j - i && x.subrange(i, j)[k] == c;
        assert(x[i + k] == c);
    }
}

/// Lines of a block that no line feed is in and no carriage return ends but
/// the last one's.
pub open spec fn plain_lines(c: Seq<Seq<char>>) -> bool {
    &&& forall|i: int| 0 <= i < c.len() ==> !(#[trigger] c[i]).contains('\n')
    &&& forall|i: int| 0 <= i < c.len() - 1 ==> !ends_cr(#[trigger] c[i])
}

/// The trimmed lines are told apart like the lines, and splitting their join
/// gives them back.
proof fn lemma_trimmed_lines(d: Seq<Seq<char>>)
    requires
        d.len() > 0,
        !blank_line(d[0]),
        !blank_line(d.last()),
        plain_lines(d),
    ensures
        trimmed_lines(d).len() == d.len(),
        forall|i: int| 0 <= i < d.len() ==> same_class(#[trigger] trimmed_lines(d)[i], d[i]),
        lines(join(trimmed_lines(d), nl())) == trimmed_lines(d),
{
    let e = d.update(0, trim_start(d[0]));
    let f = trimmed_lines(d);
    let n = d.len();
    lemma_nonblank_ends(d[0]);
    lemma_nonblank_ends(d.last());
    lemma_lead(d[0], CharClass::Space);
    lemma_trail(d[0], CharClass::Space);
    lemma_same_class_trimmed(d[0]);
    lemma_same_class_trimmed(d.last());
    assert forall|i: int| 0 <= i < n implies same_class(#[trigger] f[i], d[i]) by {
        if n == 1 {
            assert(f[0] == trim(d[0]));
        } else if i == 0 {
            assert(f[0] == trim_start(d[0]));
        } else if i == n - 1 {
            assert(f[i] == trim_end(d.last()));
        } else {
            assert(f[i] == d[i]);
        }
    }
    assert forall|i: int| 0 <= i < n implies !(#[trigger] f[i]).contains('\n') by {
        assert(!d[i].contains('\n'));
        let a = lead(d[0], CharClass::Space) as int;
        if n == 1 {
            let t = d[0].skip(a);
            lemma_sub_no_char(d[0], '\n', a, d[0].len() as int);
            lemma_trail(t, CharClass::Space);
            lemma_sub_no_char(t, '\n', 0, t.len() - trail(t, CharClass::Space));
        } else if i == 0 {
            lemma_sub_no_char(d[0], '\n', a, d[0].len() as int);
        } else if i == n - 1 {
            let l = d.last();
            lemma_sub_no_char(l, '\n', 0, l.len() - trail(l, CharClass::Space));
        }
    }
    assert forall|i: int| 0 <= i < n - 1 implies !ends_cr(#[trigger] f[i]) by {
        assert(!ends_cr(d[i]));
        if i == 0 {
            assert(f[0] == trim_start(d[0]));
        } else {
            assert(f[i] == d[i]);
        }
    }
    if n == 1 {
        assert(e.last() == trim_start(d[0]));
        lemma_trim_start_twice(d[0]);
        assert(!blank_line(e.last()));
        lemma_nonblank_ends(e.last());
    }
    assert(f.last().len() > 0);
    lemma_lines_of_join(f);
}

/// Splitting the text of a block again, followed by a blank line, gives the
/// block and nothing else.
pub open spec fn resplit_mid(b: BlockView) -> bool {
    split_from(start(), lines(b.text) + seq![Seq::<char>::empty()]) == (SplitState {
        blocks: seq![b],
        current: seq![],
        in_code: false,
    })
}

/// Splitting the text of a block again, at the end of the text, gives the
/// block and nothing else.
pub open spec fn resplit_end(b: BlockView) -> bool {
    let st = split_from(start(), lines(b.text));
    flush(st.blocks, st.current) == seq![b]
}

/// A block text: not empty, and trimmed.
pub open spec fn block_text_ok(b: BlockView) -> bool {
    b.text.len() > 0 && trim(b.text) == b.text
}

proof fn lemma_mid_end(b: BlockView)
    requires
        resplit_mid(b),
    ensures
        resplit_end(b),
{
    let ls = lines(b.text);
    let e = Seq::<char>::empty();
    assert((ls + seq![e]).drop_last() =~= ls);
    assert((ls + seq![e]).last() == e);
    lemma_blank_step(split_from(start(), ls));
}

proof fn lemma_no_block_of_nothing()
    ensures
        make_block(Seq::<Seq<char>>::empty()) is None,
{
    lemma_trim_at(Seq::<char>::empty(), 0, 0);
}

proof fn lemma_made_block(c: Seq<Seq<char>>, b: BlockView)
    requires
        make_block(c) == Some(b),
    ensures
        block_text_ok(b),
        b.text == trim(join(c, nl())),
{
    lemma_trim_twice(join(c, nl()));
}

/// The lines whose text is the block's text give the same block.
proof fn lemma_same_block(c: Seq<Seq<char>>, f: Seq<Seq<char>>, b: BlockView)
    requires
        make_block(c) == Some(b),
        join(f, nl()) == b.text,
    ensures
        make_block(f) == Some(b),
{
    lemma_made_block(c, b);
}

/// A block of running text is split again into itself.
proof fn lemma_para_block(c: Seq<Seq<char>>, b: BlockView)
    requires
        growing(c, false),
        plain_lines(c),
        make_block(c) == Some(b),
    ensures
        resplit_mid(b),
{
    lemma_no_block_of_nothing();
    assert(c.len() > 0);
    lemma_growing_first(c, false);
    lemma_trim_join(c);
    lemma_trimmed_lines(c);
    let f = trimmed_lines(c);
    lemma_growing_same_class(f, c, false);
    lemma_growing_fold(f, false, seq![]);
    lemma_same_block(c, f, b);
    let e = Seq::<char>::empty();
    assert((f + seq![e]).drop_last() =~= f);
    assert((f + seq![e]).last() == e);
    lemma_blank_step(split_from(start(), f));
    assert(start() == (SplitState { blocks: seq![], current: seq![], in_code: false }));
    assert(Seq::<BlockView>::empty().push(b) =~= seq![b]);
}

/// A closed code block is split again into itself.
proof fn lemma_code_block(c: Seq<Seq<char>>, b: BlockView)
    requires
        c.len() > 0,
        growing(c.drop_last(), true),
        fence_line(c.last()),
        plain_lines(c),
        make_block(c) == Some(b),
    ensures
        resplit_mid(b),
{
    lemma_no_block_of_nothing();
    assert(c.drop_last().len() > 0);
    lemma_growing_first(c.drop_last(), true);
    assert(c.drop_last()[0] == c[0]);
    assert(fence().len() == 3);
    lemma_trim_join(c);
    lemma_trimmed_lines(c);
    let f = trimmed_lines(c);
    assert(same_class(f[f.len() - 1], c[c.len() - 1]));
    assert forall|i: int| 0 <= i < f.drop_last().len() implies same_class(
        #[trigger] f.drop_last()[i],
        c.drop_last()[i],
    ) by {
        assert(same_class(f[i], c[i]));
    }
    lemma_growing_same_class(f.drop_last(), c.drop_last(), true);
    lemma_growing_fold(f.drop_last(), true, seq![]);
    assert(f.drop_last().push(f.last()) =~= f);
    lemma_same_block(c, f, b);
    assert(start() == (SplitState { blocks: seq![], current: seq![], in_code: false }));
    let st = split_from(start(), f);
    assert(st == (SplitState { blocks: seq![b], current: seq![], in_code: false })) by {
        assert(Seq::<BlockView>::empty().push(b) =~= seq![b]);
    }
    let e = Seq::<char>::empty();
    assert((f + seq![e]).drop_last() =~= f);
    assert((f + seq![e]).last() == e);
    lemma_blank_step(st);
}

proof fn lemma_fence_not_heading(x: Seq<char>)
    requires
        fence_line(x),
    ensures
        !heading_line(x),
{
    let u = trim_start(x);
    assert(u[0] == '`') by {
        assert(u.take(3)[0] == fence()[0]);
    }
    lemma_trim_start_twice(x);
    lemma_lead_unique(u, CharClass::Is('#'), 0);
}

/// A heading line is split again into itself.
proof fn lemma_heading_block(x: Seq<char>, b: BlockView)
    requires
        heading_line(x),
        !x.contains('\n'),
        make_block(seq![x]) == Some(b),
    ensures
        resplit_mid(b),
{
    lemma_no_block_of_nothing();
    let t = b.text;
    assert(join(seq![x], nl()) == x);
    lemma_made_block(seq![x], b);
    assert(t == trim(x));
    lemma_lead(x, CharClass::Space);
    let a = lead(x, CharClass::Space) as int;
    let u = x.skip(a);
    lemma_sub_no_char(x, '\n', a, x.len() as int);
    lemma_trail(u, CharClass::Space);
    lemma_sub_no_char(u, '\n', 0, u.len() - trail(u, CharClass::Space));
    lemma_no_newline_find(t);
    assert(lines(t) == seq![t]);
    lemma_same_class_trimmed(x);
    if fence_line(t) {
        lemma_fence_not_heading(t);
    }
    assert(join(seq![t], nl()) == t);
    lemma_same_block(seq![x], seq![t], b);
    let e = Seq::<char>::empty();
    let ls = seq![t] + seq![e];
    assert(ls.drop_last() =~= seq![t]);
    assert(ls.last() == e);
    assert(seq![t].drop_last() =~= Seq::<Seq<char>>::empty());
    assert(start().current.len() == 0);
    assert(split_from(start(), seq![t]) == split_step(split_from(start(), Seq::<Seq<char>>::empty()), t));
    assert(split_from(start(), ls) == split_step(split_from(start(), seq![t]), e));
    let st1 = split_step(start(), t);
    assert(st1 == (SplitState { blocks: seq![b], current: seq![], in_code: false })) by {
        assert(flush(seq![], seq![]) == Seq::<BlockView>::empty());
        assert(Seq::<BlockView>::empty().push(b) =~= seq![b]);
    }
    lemma_blank_step(st1);
}

/// Whitespace after a text does not change the text trimmed.
proof fn lemma_trim_space_tail(a: Seq<char>, w: Seq<char>)
    requires
        all_space(w),
    ensures
        trim(a + w) == trim(a),
{
    lemma_lead(a, CharClass::Space);
    lemma_trail(a, CharClass::Space);
    let s = a + w;
    let i = lead(a, CharClass::Space) as int;
    let j = a.len() - trail(a, CharClass::Space);
    if i == a.len() {
        assert forall|k: int| 0 <= k < s.len() implies white_space(#[trigger] s[k]) by {
            if k < a.len() {
                assert(s[k] == a[k]);
                assert(in_class(CharClass::Space, a[k]));
            } else {
                assert(s[k] == w[k - a.len()]);
            }
        }
        lemma_trim_at(s, 0, 0);
        lemma_trim_at(a, 0, 0);
    } else {
        assert(i < j) by {
            if j <= i {
                assert(white_space(a[i]));
            }
        }
        lemma_trim_at(a, i, j);
        assert forall|k: int| 0 <= k < i implies white_space(#[trigger] s[k]) by {
            assert(s[k] == a[k]);
            assert(in_class(CharClass::Space, a[k]));
        }
        assert forall|k: int| j <= k < s.len() implies white_space(#[trigger] s[k]) by {
            if k < a.len() {
                assert(s[k] == a[k]);
                assert(in_class(CharClass::Space, a[k]));
            } else {
                assert(s[k] == w[k - a.len()]);
            }
        }
        assert(s[i] == a[i]);
        assert(s[j - 1] == a[j - 1]);
        lemma_trim_at(s, i, j);
        assert(s.subrange(i, j) =~= a.subrange(i, j));
    }
}

/// The block gathered when the text ends is split again into itself.
proof fn lemma_last_block(c: Seq<Seq<char>>, code: bool, b: BlockView)
    requires
        growing(c, code),
        plain_lines(c),
        make_block(c) == Some(b),
    ensures
        resplit_end(b),
    decreases c.len(),
{
    lemma_no_block_of_nothing();
    assert(c.len() > 0);
    lemma_growing_first(c, code);
    if c.len() >= 2 && blank_line(c.last()) {
        let c2 = c.drop_last();
        let k2 = if code {
            !fence_line(c.last())
        } else {
            false
        };
        assert(growing(c2, k2));
        let l = c.last();
        lemma_lead(l, CharClass::Space);
        lemma_space_facts();
        let w = nl() + l;
        assert forall|k: int| 0 <= k < w.len() implies white_space(#[trigger] w[k]) by {
            if k > 0 {
                assert(w[k] == l[k - 1]);
                assert(in_class(CharClass::Space, l[k - 1]));
            }
        }
        assert(join(c, nl()) == join(c2, nl()) + nl() + l);
        assert(join(c2, nl()) + nl() + l =~= join(c2, nl()) + w);
        lemma_trim_space_tail(join(c2, nl()), w);
        assert(make_block(c2) == make_block(c));
        assert forall|i: int| 0 <= i < c2.len() implies !(#[trigger] c2[i]).contains('\n') by {
            assert(c2[i] == c[i]);
        }
        assert forall|i: int| 0 <= i < c2.len() - 1 implies !ends_cr(#[trigger] c2[i]) by {
            assert(c2[i] == c[i]);
        }
        lemma_last_block(c2, k2, b);
    } else {
        assert(!blank_line(c.last())) by {
            if c.len() == 1 {
                assert(c.last() == c[0]);
            }
        }
        lemma_trim_join(c);
        lemma_trimmed_lines(c);
        let f = trimmed_lines(c);
        lemma_growing_same_class(f, c, code);
        lemma_growing_fold(f, code, seq![]);
        lemma_same_block(c, f, b);
        assert(start() == (SplitState { blocks: seq![], current: seq![], in_code: false }));
        assert(Seq::<BlockView>::empty().push(b) =~= seq![b]);
    }
}

// ---------------------------------------------------------------------------
// The blocks of a text
// ---------------------------------------------------------------------------

/// No line of the text but the last ends with a carriage return once its
/// line ending is taken off: the text holds no `\r\r\n`.
pub open spec fn no_stray_cr(m: Seq<char>) -> bool {
    forall|j: int| 0 <= j < lines(m).len() - 1 ==> !ends_cr(#[trigger] lines(m)[j])
}

/// What holds of the splitter's state after the first `k` lines.
spec fn gathered(st: SplitState, ls: Seq<Seq<char>>, k: int) -> bool {
    &&& forall|i: int|
        0 <= i < st.blocks.len() ==> resplit_mid(#[trigger] st.blocks[i]) && block_text_ok(
            st.blocks[i],
        )
    &&& growing(st.current, st.in_code)
    &&& plain_lines(st.current)
    &&& st.current.len() > 0 ==> k > 0 && st.current.last() == ls[k - 1]
}

proof fn lemma_flush_gathered(blocks: Seq<BlockView>, c: Seq<Seq<char>>)
    requires
        forall|i: int|
            0 <= i < blocks.len() ==> resplit_mid(#[trigger] blocks[i]) && block_text_ok(blocks[i]),
        make_block(c) is Some ==> resplit_mid(make_block(c)->0),
    ensures
        forall|i: int|
            0 <= i < flush(blocks, c).len() ==> resplit_mid(#[trigger] flush(blocks, c)[i])
                && block_text_ok(flush(blocks, c)[i]),
{
    match make_block(c) {
        None => {},
        Some(b) => {
            lemma_made_block(c, b);
            assert forall|i: int| 0 <= i < flush(blocks, c).len() implies resplit_mid(
                #[trigger] flush(blocks, c)[i],
            ) && block_text_ok(flush(blocks, c)[i]) by {
                if i < blocks.len() {
                    assert(flush(blocks, c)[i] == blocks[i]);
                }
            }
        },
    }
}

proof fn lemma_push_plain(c: Seq<Seq<char>>, x: Seq<char>)
    requires
        plain_lines(c),
        c.len() > 0 ==> !ends_cr(c.last()),
        !x.contains('\n'),
    ensures
        plain_lines(c.push(x)),
{
    assert forall|i: int| 0 <= i < c.push(x).len() implies !(#[trigger] c.push(x)[i]).contains(
        '\n',
    ) by {
        if i < c.len() {
            assert(c.push(x)[i] == c[i]);
        }
    }
    assert forall|i: int| 0 <= i < c.push(x).len() - 1 implies !ends_cr(#[trigger] c.push(x)[i]) by {
        assert(c.push(x)[i] == c[i]);
        if i == c.len() - 1 {
            assert(c[i] == c.last());
        }
    }
}

proof fn lemma_gathered(ls: Seq<Seq<char>>, k: int)
    requires
        0 <= k <= ls.len(),
        forall|j: int| 0 <= j < ls.len() ==> !(#[trigger] ls[j]).contains('\n'),
        forall|j: int| 0 <= j < ls.len() - 1 ==> !ends_cr(#[trigger] ls[j]),
    ensures
        gathered(split_fold(ls.take(k)), ls, k),
    decreases k,
{
    if k == 0 {
        assert(ls.take(0) =~= Seq::<Seq<char>>::empty());
    } else {
        lemma_gathered(ls, k - 1);
        let st = split_fold(ls.take(k - 1));
        let x = ls[k - 1];
        assert(ls.take(k).drop_last() =~= ls.take(k - 1));
        assert(ls.take(k).last() == x);
        let next = split_fold(ls.take(k));
        assert(next == split_step(st, x));
        assert(!x.contains('\n'));
        let c = st.current;
        if k >= 2 {
            assert(!ends_cr(ls[k - 2]));
        }
        if fence_line(x) {
            lemma_push_plain(c, x);
            if st.in_code {
                assert(c.push(x).drop_last() =~= c);
                if make_block(c.push(x)) is Some {
                    lemma_code_block(c.push(x), make_block(c.push(x))->0);
                }
                lemma_flush_gathered(st.blocks, c.push(x));
            } else {
                assert(c.push(x).drop_last() =~= c);
            }
        } else if st.in_code {
            lemma_push_plain(c, x);
            assert(c.push(x).drop_last() =~= c);
        } else if heading_line(x) {
            if make_block(c) is Some {
                lemma_para_block(c, make_block(c)->0);
            }
            lemma_flush_gathered(st.blocks, c);
            assert(plain_lines(seq![x]));
            if make_block(seq![x]) is Some {
                lemma_heading_block(x, make_block(seq![x])->0);
            }
            lemma_flush_gathered(flush(st.blocks, c), seq![x]);
        } else if blank_line(x) {
            if make_block(c) is Some {
                lemma_para_block(c, make_block(c)->0);
            }
            lemma_flush_gathered(st.blocks, c);
        } else {
            lemma_push_plain(c, x);
            assert(c.push(x).drop_last() =~= c);
        }
    }
}

/// Every block of a text but the last is split again into itself when a
/// blank line follows it, and the last is at the end of a text.
pub proof fn lemma_blocks_resplit(m: Seq<char>)
    requires
        no_stray_cr(m),
    ensures
        forall|i: int|
            0 <= i < markdown_blocks(m).len() ==> block_text_ok(#[trigger] markdown_blocks(m)[i]),
        forall|i: int|
            0 <= i < markdown_blocks(m).len() - 1 ==> resplit_mid(#[trigger] markdown_blocks(m)[i]),
        markdown_blocks(m).len() > 0 ==> resplit_end(markdown_blocks(m).last()),
{
    let ls = lines(m);
    lemma_lines_no_newline(m);
    lemma_gathered(ls, ls.len() as int);
    assert(ls.take(ls.len() as int) =~= ls);
    let st = split_fold(ls);
    let bs = markdown_blocks(m);
    assert(bs == flush(st.blocks, st.current));
    match make_block(st.current) {
        Some(b) => {
            lemma_last_block(st.current, st.in_code, b);
            lemma_made_block(st.current, b);
            assert(bs == st.blocks.push(b));
            assert forall|i: int| 0 <= i < bs.len() implies block_text_ok(#[trigger] bs[i]) by {
                if i < st.blocks.len() {
                    assert(bs[i] == st.blocks[i]);
                }
            }
            assert forall|i: int| 0 <= i < bs.len() - 1 implies resplit_mid(#[trigger] bs[i]) by {
                assert(bs[i] == st.blocks[i]);
            }
        },
        None => {
            if bs.len() > 0 {
                lemma_mid_end(bs.last());
            }
        },
    }
}

// ---------------------------------------------------------------------------
// Splitting the joined block texts
// ---------------------------------------------------------------------------

proof fn lemma_block_text_ends(b: BlockView)
    requires
        block_text_ok(b),
    ensures
        !white_space(b.text[0]),
        !white_space(b.text.last()),
        b.text.last() != '\n',
        b.text.last() != '\r',
{
    lemma_trim_ends(b.text);
    lemma_space_facts();
}

proof fn lemma_join_ends(p: Seq<Seq<char>>, sep: Seq<char>)
    requires
        p.len() > 0,
        p[0].len() > 0,
        p.last().len() > 0,
    ensures
        join(p, sep).len() > 0,
        join(p, sep)[0] == p[0][0],
        join(p, sep).last() == p.last().last(),
{
    if p.len() >= 2 {
        lemma_join_first(p, sep);
    }
}

/// The lines of the first `k` block texts joined: those of the first `k - 1`,
/// an empty line, and those of the `k`-th text.
proof fn lemma_texts_lines(bs: Seq<BlockView>, k: int)
    requires
        2 <= k <= bs.len(),
        bs[0].text.len() > 0,
        block_text_ok(bs[k - 2]),
    ensures
        lines(join(block_texts(bs.take(k)), paragraph_sep())) == lines(
            join(block_texts(bs.take(k - 1)), paragraph_sep()),
        ) + seq![Seq::<char>::empty()] + lines(bs[k - 1].text),
{
    let sep = paragraph_sep();
    let p = block_texts(bs.take(k));
    let q = block_texts(bs.take(k - 1));
    let a = join(q, sep);
    let t = bs[k - 1].text;
    assert(p.drop_last() =~= q);
    assert(p.last() == t);
    assert(join(p, sep) == a + sep + t);
    lemma_block_text_ends(bs[k - 2]);
    assert(q[0] == bs[0].text);
    assert(q.last() == bs[k - 2].text);
    lemma_join_ends(q, sep);
    lemma_lines_paragraphs(a, t);
}

proof fn lemma_resplit_prefix(bs: Seq<BlockView>, k: int)
    requires
        1 <= k < bs.len(),
        forall|i: int| 0 <= i < bs.len() ==> block_text_ok(#[trigger] bs[i]),
        forall|i: int| 0 <= i < bs.len() - 1 ==> resplit_mid(#[trigger] bs[i]),
    ensures
        split_from(start(), lines(join(block_texts(bs.take(k)), paragraph_sep())) + seq![
            Seq::<char>::empty(),
        ]) == (SplitState { blocks: bs.take(k), current: seq![], in_code: false }),
    decreases k,
{
    let e = Seq::<char>::empty();
    let sep = paragraph_sep();
    if k == 1 {
        assert(block_texts(bs.take(1)) =~= seq![bs[0].text]);
        assert(bs.take(1) =~= seq![bs[0]]);
        assert(resplit_mid(bs[0]));
    } else {
        lemma_resplit_prefix(bs, k - 1);
        assert(block_text_ok(bs[0]));
        assert(block_text_ok(bs[k - 2]));
        lemma_texts_lines(bs, k);
        let la = lines(join(block_texts(bs.take(k - 1)), sep)) + seq![e];
        let lt = lines(bs[k - 1].text) + seq![e];
        assert(lines(join(block_texts(bs.take(k)), sep)) + seq![e] =~= la + lt);
        lemma_split_from_append(start(), la, lt);
        assert(split_from(start(), la) == after_blocks(start(), bs.take(k - 1))) by {
            assert(bs.take(k - 1) + Seq::<BlockView>::empty() =~= bs.take(k - 1));
        }
        lemma_split_from_after(start(), bs.take(k - 1), lt);
        assert(resplit_mid(bs[k - 1]));
        assert(bs.take(k - 1) + seq![bs[k - 1]] =~= bs.take(k));
    }
}

/// Splitting the block texts joined by blank lines gives back the blocks.
pub proof fn lemma_resplit_join(bs: Seq<BlockView>)
    requires
        forall|i: int| 0 <= i < bs.len() ==> block_text_ok(#[trigger] bs[i]),
        forall|i: int| 0 <= i < bs.len() - 1 ==> resplit_mid(#[trigger] bs[i]),
        bs.len() > 0 ==> resplit_end(bs.last()),
    ensures
        markdown_blocks(join(block_texts(bs), paragraph_sep())) == bs,
{
    let sep = paragraph_sep();
    let x = join(block_texts(bs), sep);
    lemma_split_fold_from(lines(x));
    lemma_no_block_of_nothing();
    if bs.len() == 0 {
        assert(block_texts(bs).len() == 0);
        assert(lines(x) =~= Seq::<Seq<char>>::empty());
        assert(bs =~= Seq::<BlockView>::empty());
    } else if bs.len() == 1 {
        assert(x == bs[0].text);
        assert(bs =~= seq![bs[0]]);
    } else {
        let n = bs.len() as int;
        let e = Seq::<char>::empty();
        lemma_resplit_prefix(bs, n - 1);
        assert(block_text_ok(bs[0]));
        assert(block_text_ok(bs[n - 2]));
        assert(bs.take(n) =~= bs);
        lemma_texts_lines(bs, n);
        let la = lines(join(block_texts(bs.take(n - 1)), sep)) + seq![e];
        let t = bs[n - 1].text;
        assert(lines(x) =~= la + lines(t));
        lemma_split_from_append(start(), la, lines(t));
        assert(split_from(start(), la) == after_blocks(start(), bs.take(n - 1))) by {
            assert(bs.take(n - 1) + Seq::<BlockView>::empty() =~= bs.take(n - 1));
        }
        lemma_split_from_after(start(), bs.take(n - 1), lines(t));
        let s = split_from(start(), lines(t));
        lemma_flush_after(bs.take(n - 1), s.blocks, s.current);
        assert(bs.take(n - 1) + seq![bs[n - 1]] =~= bs);
    }
}

// ---------------------------------------------------------------------------
// Reading pages back
// ---------------------------------------------------------------------------

/// The contents of page drafts, in order.
pub open spec fn page_contents(ds: Seq<DraftView>) -> Seq<Seq<char>> {
    ds.map_values(|d: DraftView| d.content)
}

/// The markdown that pages are read back as for editing and normalizing:
/// each page trimmed, empty pages left out, a blank line between pages.
pub open spec fn reread(ds: Seq<DraftView>) -> Seq<char> {
    join(trimmed_nonempty(page_contents(ds)), paragraph_sep())
}

/// The joined block texts of each group.
pub open spec fn group_texts(gs: Seq<Seq<BlockView>>) -> Seq<Seq<char>> {
    gs.map_values(|g: Seq<BlockView>| join(block_texts(g), paragraph_sep()))
}

proof fn lemma_trimmed_nonempty_is(ps: Seq<Seq<char>>, qs: Seq<Seq<char>>)
    requires
        ps.len() == qs.len(),
        forall|i: int| 0 <= i < ps.len() ==> trim(#[trigger] ps[i]) == qs[i] && qs[i].len() > 0,
    ensures
        trimmed_nonempty(ps) == qs,
    decreases ps.len(),
{
    if ps.len() > 0 {
        assert forall|i: int| 0 <= i < ps.drop_last().len() implies trim(
            #[trigger] ps.drop_last()[i],
        ) == qs.drop_last()[i] && qs.drop_last()[i].len() > 0 by {
            assert(trim(ps[i]) == qs[i]);
        }
        lemma_trimmed_nonempty_is(ps.drop_last(), qs.drop_last());
        assert(trim(ps[ps.len() - 1]) == qs[qs.len() - 1]);
        assert(qs.drop_last().push(qs.last()) =~= qs);
    } else {
        assert(qs =~= Seq::<Seq<char>>::empty());
    }
}

proof fn lemma_flatten_members(gs: Seq<Seq<BlockView>>, i: int, j: int)
    requires
        0 <= i < gs.len(),
        0 <= j < gs[i].len(),
    ensures
        exists|k: int| 0 <= k < flatten(gs).len() && flatten(gs)[k] == gs[i][j],
    decreases gs.len(),
{
    let f = flatten(gs);
    let f0 = flatten(gs.drop_last());
    assert(f == f0 + gs.last());
    if i == gs.len() - 1 {
        assert(f[f0.len() + j] == gs[i][j]);
    } else {
        lemma_flatten_members(gs.drop_last(), i, j);
        let k = choose|k: int| 0 <= k < f0.len() && f0[k] == gs.drop_last()[i][j];
        assert(f[k] == f0[k]);
    }
}

proof fn lemma_join_groups(gs: Seq<Seq<BlockView>>)
    requires
        gs.len() > 0,
        forall|i: int| 0 <= i < gs.len() ==> (#[trigger] gs[i]).len() > 0,
    ensures
        join(group_texts(gs), paragraph_sep()) == join(block_texts(flatten(gs)), paragraph_sep()),
    decreases gs.len(),
{
    let sep = paragraph_sep();
    let g = gs.last();
    let gs0 = gs.drop_last();
    assert(gs[gs.len() - 1].len() > 0);
    assert(flatten(gs) == flatten(gs0) + g);
    assert(block_texts(flatten(gs)) =~= block_texts(flatten(gs0)) + block_texts(g));
    if gs.len() == 1 {
        assert(flatten(gs0) =~= Seq::<BlockView>::empty());
        assert(block_texts(flatten(gs)) =~= block_texts(g));
        assert(group_texts(gs) =~= seq![join(block_texts(g), sep)]);
    } else {
        assert forall|i: int| 0 <= i < gs0.len() implies (#[trigger] gs0[i]).len() > 0 by {
            assert(gs0[i] == gs[i]);
        }
        lemma_join_groups(gs0);
        assert(group_texts(gs).drop_last() =~= group_texts(gs0));
        assert(gs0[gs0.len() - 1].len() > 0);
        assert(flatten(gs0) == flatten(gs0.drop_last()) + gs0.last());
        lemma_join_append(block_texts(flatten(gs0)), block_texts(g), sep);
    }
}

/// What a page composed of good blocks reads back as: its block texts
/// joined by blank lines.
proof fn lemma_page_reads_back(index: nat, g: Seq<BlockView>)
    requires
        g.len() > 0,
        forall|j: int| 0 <= j < g.len() ==> block_text_ok(#[trigger] g[j]),
    ensures
        trim(compose(index, g).content) == join(block_texts(g), paragraph_sep()),
        join(block_texts(g), paragraph_sep()).len() > 0,
{
    let sep = paragraph_sep();
    let ts = block_texts(g);
    assert forall|j: int| 0 <= j < ts.len() implies trim(#[trigger] ts[j]) == ts[j] && ts[j].len()
        > 0 by {
        assert(block_text_ok(g[j]));
    }
    lemma_trimmed_nonempty_is(ts, ts);
    let jn = join(ts, sep);
    assert(block_text_ok(g[0]));
    assert(block_text_ok(g[g.len() - 1]));
    lemma_block_text_ends(g[0]);
    lemma_block_text_ends(g[g.len() - 1]);
    lemma_join_ends(ts, sep);
    assert(with_final_newline(jn) == jn.push('\n'));
    assert(jn.push('\n') =~= jn + nl());
    lemma_space_facts();
    lemma_trim_space_tail(jn, nl());
    lemma_trim_at(jn, 0, jn.len() as int);
    assert(jn.subrange(0, jn.len() as int) =~= jn);
}

proof fn lemma_flush_ok(bs: Seq<BlockView>, c: Seq<Seq<char>>)
    requires
        forall|i: int| 0 <= i < bs.len() ==> block_text_ok(#[trigger] bs[i]),
    ensures
        forall|i: int| 0 <= i < flush(bs, c).len() ==> block_text_ok(#[trigger] flush(bs, c)[i]),
{
    match make_block(c) {
        None => {},
        Some(b) => {
            lemma_made_block(c, b);
            assert forall|i: int| 0 <= i < flush(bs, c).len() implies block_text_ok(
                #[trigger] flush(bs, c)[i],
            ) by {
                if i < bs.len() {
                    assert(flush(bs, c)[i] == bs[i]);
                }
            }
        },
    }
}

proof fn lemma_fold_ok(ls: Seq<Seq<char>>)
    ensures
        forall|i: int|
            0 <= i < split_fold(ls).blocks.len() ==> block_text_ok(#[trigger] split_fold(ls).blocks[i]),
    decreases ls.len(),
{
    if ls.len() > 0 {
        lemma_fold_ok(ls.drop_last());
        let st = split_fold(ls.drop_last());
        let x = ls.last();
        lemma_flush_ok(st.blocks, st.current.push(x));
        lemma_flush_ok(st.blocks, st.current);
        lemma_flush_ok(flush(st.blocks, st.current), seq![x]);
    }
}

/// Every block of a text is trimmed and not empty.
pub proof fn lemma_blocks_text_ok(m: Seq<char>)
    ensures
        forall|i: int| 0 <= i < markdown_blocks(m).len() ==> block_text_ok(#[trigger] markdown_blocks(m)[i]),
{
    let st = split_fold(lines(m));
    lemma_fold_ok(lines(m));
    lemma_flush_ok(st.blocks, st.current);
}

/// The pages that pagination makes read back as the blocks of the markdown,
/// each trimmed, with a blank line between them.
pub proof fn lemma_reread_pages(m: Seq<char>, limit: int)
    ensures
        reread(paginated(m, limit)) == join(block_texts(markdown_blocks(m)), paragraph_sep()),
{
    let bs = markdown_blocks(m);
    let gs = page_groups(bs, limit);
    lemma_blocks_text_ok(m);
    lemma_pages_keep_blocks(m, limit);
    let ds = paginated(m, limit);
    if gs.len() == 0 {
        assert(bs =~= Seq::<BlockView>::empty());
        assert(ds == seq![empty_page()]);
        let e = Seq::<char>::empty();
        assert(page_contents(ds) =~= seq![e]);
        lemma_trim_at(e, 0, 0);
        assert(seq![e].drop_last() =~= Seq::<Seq<char>>::empty());
        assert(seq![e].last() == e);
        assert(trim(e).len() == 0);
        assert(trimmed_nonempty(Seq::<Seq<char>>::empty()) =~= Seq::<Seq<char>>::empty());
        assert(trimmed_nonempty(seq![e]) =~= Seq::<Seq<char>>::empty());
        assert(block_texts(bs).len() == 0);
    } else {
        assert forall|i: int| 0 <= i < gs.len() implies trim(#[trigger] page_contents(ds)[i])
            == group_texts(gs)[i] && group_texts(gs)[i].len() > 0 by {
            assert(gs[i].len() > 0);
            assert forall|j: int| 0 <= j < gs[i].len() implies block_text_ok(#[trigger] gs[i][j]) by {
                lemma_flatten_members(gs, i, j);
            }
            lemma_page_reads_back((i + 1) as nat, gs[i]);
            assert(page_contents(ds)[i] == compose((i + 1) as nat, gs[i]).content);
        }
        lemma_trimmed_nonempty_is(page_contents(ds), group_texts(gs));
        lemma_join_groups(gs);
    }
}

/// Reading back the pages that pagination made gives a text with the same
/// blocks, hence the same pages.
pub proof fn lemma_repaginate(m: Seq<char>, limit: int)
    requires
        no_stray_cr(m),
    ensures
        markdown_blocks(reread(paginated(m, limit))) == markdown_blocks(m),
        paginated(reread(paginated(m, limit)), limit) == paginated(m, limit),
{
    lemma_reread_pages(m, limit);
    lemma_blocks_resplit(m);
    lemma_resplit_join(markdown_blocks(m));
}

// ---------------------------------------------------------------------------
// Words of the blocks
// ---------------------------------------------------------------------------

proof fn lemma_lead_after_space(sp: Seq<char>, b: Seq<char>)
    requires
        all_space(sp),
    ensures
        lead(sp + b, CharClass::Space) == sp.len() + lead(b, CharClass::Space),
{
    lemma_lead(b, CharClass::Space);
    let s = sp + b;
    let n = sp.len() + lead(b, CharClass::Space) as int;
    assert forall|j: int| 0 <= j < n implies in_class(CharClass::Space, #[trigger] s[j]) by {
        if j < sp.len() {
            assert(s[j] == sp[j]);
        } else {
            assert(s[j] == b[j - sp.len()]);
        }
    }
    if n < s.len() {
        assert(s[n] == b[lead(b, CharClass::Space) as int]);
    }
    lemma_lead_unique(s, CharClass::Space, n);
}

/// Whitespace before a text adds no word.
proof fn lemma_words_after_space(sp: Seq<char>, b: Seq<char>)
    requires
        all_space(sp),
    ensures
        words(sp + b) == words(b),
{
    lemma_lead_after_space(sp, b);
    lemma_lead(b, CharClass::Space);
    let s = sp + b;
    let a = lead(b, CharClass::Space) as int;
    if a < b.len() {
        assert(s.skip(sp.len() + a) =~= b.skip(a));
    }
}

/// Whitespace between two texts separates their words.
pub proof fn lemma_words_split(a: Seq<char>, w: Seq<char>, b: Seq<char>)
    requires
        all_space(w),
        w.len() > 0,
    ensures
        words(a + w + b) == words(a) + words(b),
    decreases a.len(),
{
    lemma_lead(a, CharClass::Space);
    let p = lead(a, CharClass::Space) as int;
    let s = a + w + b;
    if p == a.len() {
        let aw = a + w;
        assert forall|j: int| 0 <= j < aw.len() implies white_space(#[trigger] aw[j]) by {
            if j < a.len() {
                assert(aw[j] == a[j]);
                assert(in_class(CharClass::Space, a[j]));
            } else {
                assert(aw[j] == w[j - a.len()]);
            }
        }
        lemma_words_after_space(aw, b);
        assert(words(a) =~= Seq::<Seq<char>>::empty());
        assert(words(a) + words(b) =~= words(b));
    } else {
        assert forall|j: int| 0 <= j < p implies in_class(CharClass::Space, #[trigger] s[j]) by {
            assert(s[j] == a[j]);
        }
        assert(s[p] == a[p]);
        lemma_lead_unique(s, CharClass::Space, p);
        let ta = a.skip(p);
        let t = s.skip(p);
        assert(t =~= ta + w + b);
        lemma_lead(ta.drop_first(), CharClass::NotSpace);
        let m = lead(ta.drop_first(), CharClass::NotSpace) as int;
        let td = t.drop_first();
        assert(td =~= ta.drop_first() + w + b);
        assert forall|j: int| 0 <= j < m implies in_class(CharClass::NotSpace, #[trigger] td[j]) by {
            assert(td[j] == ta.drop_first()[j]);
        }
        if m < ta.drop_first().len() {
            assert(td[m] == ta.drop_first()[m]);
        } else {
            assert(td[m] == w[0]);
        }
        lemma_lead_unique(td, CharClass::NotSpace, m);
        let k = 1 + m;
        assert(t.take(k) =~= ta.take(k));
        let rest = ta.skip(k);
        assert(t.skip(k) =~= rest + w + b);
        lemma_words_split(rest, w, b);
        assert(words(s) == seq![t.take(k)] + words(t.skip(k)));
        assert(words(a) == seq![ta.take(k)] + words(ta.skip(k)));
        assert(words(s) =~= words(a) + words(b));
    }
}

proof fn lemma_alphanumeric_words_concat(x: Seq<Seq<char>>, y: Seq<Seq<char>>)
    ensures
        alphanumeric_words(x + y) == alphanumeric_words(x) + alphanumeric_words(y),
    decreases y.len(),
{
    if y.len() == 0 {
        assert(x + y =~= x);
    } else {
        lemma_alphanumeric_words_concat(x, y.drop_last());
        assert((x + y).drop_last() =~= x + y.drop_last());
        assert((x + y).last() == y.last());
    }
}

/// The word count of two texts with whitespace between them is the sum of
/// their word counts.
pub proof fn lemma_word_count_split(a: Seq<char>, w: Seq<char>, b: Seq<char>)
    requires
        all_space(w),
        w.len() > 0,
    ensures
        word_count(a + w + b) == word_count(a) + word_count(b),
{
    lemma_words_split(a, w, b);
    lemma_alphanumeric_words_concat(words(a), words(b));
}

proof fn lemma_word_count_space(w: Seq<char>)
    requires
        all_space(w),
    ensures
        word_count(w) == 0,
{
    let e = Seq::<char>::empty();
    lemma_words_after_space(w, e);
    assert(w + e =~= w);
    assert(words(e) =~= Seq::<Seq<char>>::empty());
}

/// Trimming a text keeps its words.
pub proof fn lemma_word_count_trim(s: Seq<char>)
    ensures
        word_count(trim(s)) == word_count(s),
{
    lemma_lead(s, CharClass::Space);
    lemma_trail(s, CharClass::Space);
    let i = lead(s, CharClass::Space) as int;
    let j = s.len() - trail(s, CharClass::Space);
    let e = Seq::<char>::empty();
    if i == s.len() {
        assert forall|k: int| 0 <= k < s.len() implies white_space(#[trigger] s[k]) by {
            assert(in_class(CharClass::Space, s[k]));
        }
        lemma_word_count_space(s);
        lemma_trim_at(s, 0, 0);
        lemma_word_count_space(trim(s));
    } else {
        assert(i < j) by {
            if j <= i {
                assert(white_space(s[i]));
            }
        }
        lemma_trim_at(s, i, j);
        let pre = s.take(i);
        let mid = s.subrange(i, j);
        let suf = s.skip(j);
        assert forall|k: int| 0 <= k < pre.len() implies white_space(#[trigger] pre[k]) by {
            assert(in_class(CharClass::Space, s[k]));
        }
        assert forall|k: int| 0 <= k < suf.len() implies white_space(#[trigger] suf[k]) by {
            assert(suf[k] == s[j + k]);
            assert(in_class(CharClass::Space, s[j + k]));
        }
        assert(s =~= pre + (mid + suf));
        lemma_words_after_space(pre, mid + suf);
        if suf.len() > 0 {
            lemma_word_count_split(mid, suf, e);
            assert(mid + suf + e =~= mid + suf);
            assert(word_count(e) == 0) by {
                assert(words(e) =~= Seq::<Seq<char>>::empty());
            }
        } else {
            assert(mid + suf =~= mid);
        }
    }
}

/// The word counts of some lines, added up.
pub open spec fn line_words(ls: Seq<Seq<char>>) -> nat
    decreases ls.len(),
{
    if ls.len() == 0 {
        0
    } else {
        line_words(ls.drop_last()) + word_count(ls.last())
    }
}

/// The word counts of some blocks, added up.
pub open spec fn block_words(bs: Seq<BlockView>) -> nat
    decreases bs.len(),
{
    if bs.len() == 0 {
        0
    } else {
        block_words(bs.drop_last()) + bs.last().words
    }
}

proof fn lemma_line_words_front(x: Seq<char>, r: Seq<Seq<char>>)
    ensures
        line_words(seq![x] + r) == word_count(x) + line_words(r),
    decreases r.len(),
{
    let e = Seq::<Seq<char>>::empty();
    if r.len() == 0 {
        assert(seq![x] + r =~= seq![x]);
        assert(seq![x].drop_last() =~= e);
        assert(seq![x].last() == x);
        assert(line_words(e) == 0);
        assert(line_words(seq![x]) == line_words(seq![x].drop_last()) + word_count(x));
    } else {
        lemma_line_words_front(x, r.drop_last());
        assert((seq![x] + r).drop_last() =~= seq![x] + r.drop_last());
        assert((seq![x] + r).last() == r.last());
        assert(line_words(seq![x] + r) == line_words((seq![x] + r).drop_last()) + word_count(
            r.last(),
        ));
    }
}

proof fn lemma_word_count_join(ls: Seq<Seq<char>>)
    ensures
        word_count(join(ls, nl())) == line_words(ls),
    decreases ls.len(),
{
    lemma_space_facts();
    let e = Seq::<Seq<char>>::empty();
    assert(words(Seq::<char>::empty()) =~= e);
    assert(alphanumeric_words(e) == 0);
    assert(line_words(e) == 0);
    if ls.len() == 0 {
        assert(join(ls, nl()) == Seq::<char>::empty());
    } else if ls.len() == 1 {
        assert(ls.drop_last() =~= e);
        assert(join(ls, nl()) == ls[0]);
        assert(ls.last() == ls[0]);
    } else {
        lemma_word_count_join(ls.drop_last());
        assert forall|k: int| 0 <= k < nl().len() implies white_space(#[trigger] nl()[k]) by {}
        lemma_word_count_split(join(ls.drop_last(), nl()), nl(), ls.last());
        assert(join(ls, nl()) == join(ls.drop_last(), nl()) + nl() + ls.last());
    }
}

proof fn lemma_word_count_drop_cr(x: Seq<char>)
    ensures
        word_count(drop_cr(x)) == word_count(x),
{
    if x.len() > 0 && x.last() == '\r' {
        lemma_space_facts();
        let e = Seq::<char>::empty();
        let cr = seq!['\r'];
        assert forall|k: int| 0 <= k < cr.len() implies white_space(#[trigger] cr[k]) by {}
        lemma_word_count_split(x.drop_last(), cr, e);
        assert(x.drop_last() + cr + e =~= x);
        assert(words(e) =~= Seq::<Seq<char>>::empty());
    }
}

/// The words of a text are the words of its lines.
pub proof fn lemma_word_count_lines(s: Seq<char>)
    ensures
        word_count(s) == line_words(lines(s)),
    decreases s.len(),
{
    lemma_space_facts();
    if s.len() == 0 {
        assert(words(s) =~= Seq::<Seq<char>>::empty());
    } else {
        lemma_find(s, '\n');
        let k = find(s, '\n') as int;
        if k >= s.len() {
            let e = Seq::<Seq<char>>::empty();
            assert(lines(s) == seq![s]);
            assert(seq![s].drop_last() =~= e);
            assert(seq![s].last() == s);
            assert(line_words(e) == 0);
            assert(line_words(seq![s]) == line_words(seq![s].drop_last()) + word_count(s));
        } else {
            assert(lines(s) == seq![drop_cr(s.take(k))] + lines(s.skip(k + 1)));
            let x = s.take(k);
            let r = s.skip(k + 1);
            lemma_word_count_lines(r);
            assert(s =~= x + nl() + r);
            assert forall|j: int| 0 <= j < nl().len() implies white_space(#[trigger] nl()[j]) by {}
            lemma_word_count_split(x, nl(), r);
            lemma_word_count_drop_cr(x);
            lemma_line_words_front(drop_cr(x), lines(r));
        }
    }
}

proof fn lemma_flush_words(bs: Seq<BlockView>, c: Seq<Seq<char>>)
    requires
        forall|i: int| 0 <= i < bs.len() ==> (#[trigger] bs[i]).words == word_count(bs[i].text),
    ensures
        block_words(flush(bs, c)) == block_words(bs) + line_words(c),
        forall|i: int|
            0 <= i < flush(bs, c).len() ==> (#[trigger] flush(bs, c)[i]).words == word_count(
                flush(bs, c)[i].text,
            ),
{
    lemma_word_count_join(c);
    lemma_word_count_trim(join(c, nl()));
    match make_block(c) {
        None => {
            assert(trim(join(c, nl())).len() == 0);
            assert(words(trim(join(c, nl()))) =~= Seq::<Seq<char>>::empty());
        },
        Some(b) => {
            assert(bs.push(b).drop_last() =~= bs);
            assert forall|i: int| 0 <= i < flush(bs, c).len() implies (#[trigger] flush(
                bs,
                c,
            )[i]).words == word_count(flush(bs, c)[i].text) by {
                if i < bs.len() {
                    assert(flush(bs, c)[i] == bs[i]);
                }
            }
        },
    }
}

proof fn lemma_fold_words(ls: Seq<Seq<char>>)
    ensures
        line_words(ls) == block_words(split_fold(ls).blocks) + line_words(split_fold(ls).current),
        forall|i: int|
            0 <= i < split_fold(ls).blocks.len() ==> (#[trigger] split_fold(ls).blocks[i]).words
                == word_count(split_fold(ls).blocks[i].text),
    decreases ls.len(),
{
    let e = Seq::<Seq<char>>::empty();
    if ls.len() == 0 {
        assert(split_fold(ls).current =~= e);
    } else {
        lemma_fold_words(ls.drop_last());
        let st = split_fold(ls.drop_last());
        let x = ls.last();
        let c = st.current;
        assert(c.push(x).drop_last() =~= c);
        assert(seq![x].drop_last() =~= e);
        assert(line_words(e) == 0);
        lemma_flush_words(st.blocks, c.push(x));
        lemma_flush_words(st.blocks, c);
        lemma_flush_words(flush(st.blocks, c), seq![x]);
        if blank_line(x) {
            lemma_lead(x, CharClass::Space);
            assert forall|k: int| 0 <= k < x.len() implies white_space(#[trigger] x[k]) by {
                assert(in_class(CharClass::Space, x[k]));
            }
            lemma_word_count_space(x);
        }
    }
}

/// The block splitter loses no word and counts none twice: each block's
/// word count is that of its text, and they add up to the word count of the
/// whole text.
pub proof fn lemma_block_words_add_up(m: Seq<char>)
    ensures
        forall|i: int|
            0 <= i < markdown_blocks(m).len() ==> (#[trigger] markdown_blocks(m)[i]).words
                == word_count(markdown_blocks(m)[i].text),
        block_words(markdown_blocks(m)) == word_count(m),
{
    let ls = lines(m);
    lemma_fold_words(ls);
    let st = split_fold(ls);
    lemma_flush_words(st.blocks, st.current);
    lemma_word_count_lines(m);
}

} // verus!
