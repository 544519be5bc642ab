//! Markdown blocks and their word counts: what the pagination is built on.
use vstd::prelude::*;
use crate::text::{
    chars_of, string_of, sub_vec, lead, lead_len, lemma_lead, trim, trim_of, trim_start,
    trim_start_of, strip_end, strip_end_of, starts_with, starts_with_chars, white_space,
    alphanumeric, is_whitespace, is_alphanumeric, ascii_digit, is_ascii_digit, CharClass,
};
use crate::split::words;

verus! {

// ---------------------------------------------------------------------------
// Words
// ---------------------------------------------------------------------------

/// Whether a word holds a letter or a digit.
pub open spec fn has_alphanumeric(w: Seq<char>) -> bool {
    exists|i: int| 0 <= i < w.len() && alphanumeric(#[trigger] w[i])
}

/// How many of the words hold a letter or a digit.
pub open spec fn alphanumeric_words(ws: Seq<Seq<char>>) -> nat
    decreases ws.len(),
{
    if ws.len() == 0 {
        0
    } else {
        alphanumeric_words(ws.drop_last()) + if has_alphanumeric(ws.last()) {
            1nat
        } else {
            0nat
        }
    }
}

/// The word count of a text: its whitespace-separated words that hold a
/// letter or a digit.
pub open spec fn word_count(text: Seq<char>) -> nat {
    alphanumeric_words(words(text))
}

/// How many whitespace-separated words of `s` hold a character whose mark
/// is set, `mk` giving one mark per character of `s`.
pub open spec fn marked_words(s: Seq<char>, mk: Seq<bool>) -> nat
    decreases s.len(),
{
    let a = lead(s, CharClass::Space) as int;
    if a >= s.len() {
        0
    } else {
        let t = s.skip(a);
        proof {
            lemma_lead(t.drop_first(), CharClass::NotSpace);
        }
        let k = 1 + lead(t.drop_first(), CharClass::NotSpace) as int;
        (if exists|i: int| a <= i < a + k && #[trigger] mk[i] {
            1nat
        } else {
            0nat
        }) + marked_words(t.skip(k), mk.skip(a + k))
    }
}

/// Counts the words of a text that hold a marked character; `marks` holds
/// one mark per character.
pub fn count_marked_words(text: &Vec<char>, marks: &Vec<bool>) -> (n: usize)
    requires
        marks.len() == text.len(),
    ensures
        n == marked_words(text@, marks@),
{
    let mut n: usize = 0;
    let mut pos: usize = 0;
    assert(text@.skip(0) =~= text@);
    assert(marks@.skip(0) =~= marks@);
    loop
        invariant
            pos <= text.len(),
            marks.len() == text.len(),
            n <= pos,
            marked_words(text@, marks@) == n + marked_words(text@.skip(pos as int), marks@.skip(pos as int)),
        decreases text.len() - pos,
    {
        let rest = sub_vec(text, pos, text.len());
        assert(rest@ =~= text@.skip(pos as int));
        let a = lead_len(&rest, CharClass::Space);
        proof {
            lemma_lead(rest@, CharClass::Space);
        }
        if a >= rest.len() {
            return n;
        }
        let t = sub_vec(&rest, a, rest.len());
        let tail = sub_vec(&t, 1, t.len());
        assert(tail@ =~= t@.drop_first());
        proof {
            lemma_lead(tail@, CharClass::NotSpace);
        }
        let k = 1 + lead_len(&tail, CharClass::NotSpace);
        let ghost mk = marks@.skip(pos as int);
        let mut found = false;
        let mut j: usize = a;
        while j < a + k
            invariant
                a <= j <= a + k,
                a + k <= rest.len(),
                rest.len() == text.len() - pos,
                marks.len() == text.len(),
                mk == marks@.skip(pos as int),
                found == exists|i: int| a <= i < j && #[trigger] mk[i],
            decreases a + k - j,
        {
            if marks[pos + j] {
                assert(mk[j as int]);
                found = true;
            }
            proof {
                if !found {
                    assert forall|i: int| a <= i < j + 1 implies !#[trigger] mk[i] by {
                        if i == j {
                            assert(mk[i] == marks@[pos + j]);
                        }
                    }
                }
            }
            j += 1;
        }
        proof {
            let s = text@.skip(pos as int);
            assert(t@ =~= s.skip(a as int));
            assert(t@.skip(k as int) =~= text@.skip(pos + a + k));
            assert(mk.skip(a + k) =~= marks@.skip(pos + a + k));
        }
        if found {
            n += 1;
        }
        pos = pos + a + k;
    }
}

proof fn lemma_alphanumeric_words_front(w: Seq<char>, ws: Seq<Seq<char>>)
    ensures
        alphanumeric_words(seq![w] + ws) == (if has_alphanumeric(w) {
            1nat
        } else {
            0nat
        }) + alphanumeric_words(ws),
    decreases ws.len(),
{
    if ws.len() == 0 {
        assert(seq![w] + ws =~= seq![w]);
        assert(seq![w].drop_last() =~= Seq::<Seq<char>>::empty());
        assert(seq![w].last() == w);
        assert(alphanumeric_words(Seq::<Seq<char>>::empty()) == 0);
        assert(alphanumeric_words(seq![w]) == alphanumeric_words(seq![w].drop_last()) + (if has_alphanumeric(w) {
            1nat
        } else {
            0nat
        }));
    } else {
        lemma_alphanumeric_words_front(w, ws.drop_last());
        assert((seq![w] + ws).drop_last() =~= seq![w] + ws.drop_last());
        assert((seq![w] + ws).last() == ws.last());
    }
}

/// Marking each character by whether it is alphanumeric, the marked words
/// are the words that count.
pub proof fn lemma_marked_words(s: Seq<char>, mk: Seq<bool>)
    requires
        mk.len() == s.len(),
        forall|i: int| 0 <= i < s.len() ==> mk[i] == alphanumeric(#[trigger] s[i]),
    ensures
        marked_words(s, mk) == word_count(s),
    decreases s.len(),
{
    lemma_lead(s, CharClass::Space);
    let a = lead(s, CharClass::Space) as int;
    if a < s.len() {
        let t = s.skip(a);
        lemma_lead(t.drop_first(), CharClass::NotSpace);
        let k = 1 + lead(t.drop_first(), CharClass::NotSpace) as int;
        let w = t.take(k);
        let rest = t.skip(k);
        let mr = mk.skip(a + k);
        assert(words(s) == seq![w] + words(rest));
        lemma_alphanumeric_words_front(w, words(rest));
        assert forall|i: int| 0 <= i < rest.len() implies mr[i] == alphanumeric(#[trigger] rest[i]) by {
            assert(rest[i] == s[a + k + i]);
        }
        lemma_marked_words(rest, mr);
        if has_alphanumeric(w) {
            let j = choose|j: int| 0 <= j < w.len() && alphanumeric(#[trigger] w[j]);
            assert(w[j] == s[a + j]);
            assert(mk[a + j]);
        }
        if exists|i: int| a <= i < a + k && #[trigger] mk[i] {
            let i = choose|i: int| a <= i < a + k && #[trigger] mk[i];
            assert(w[i - a] == s[i]);
            assert(alphanumeric(w[i - a]));
        }
    }
}

pub fn count_words_chars(text: &Vec<char>) -> (n: usize)
    ensures
        n == word_count(text@),
{
    let mut marks: Vec<bool> = Vec::new();
    for i in 0..text.len()
        invariant
            marks.len() == i,
            forall|j: int| 0 <= j < i ==> marks@[j] == alphanumeric(#[trigger] text@[j]),
    {
        marks.push(is_alphanumeric(text[i]));
    }
    proof {
        lemma_marked_words(text@, marks@);
    }
    count_marked_words(text, &marks)
}

/// Counts the words of a text that hold a letter or a digit.
pub fn count_words(text: &str) -> (n: usize)
    ensures
        n == word_count(text@),
{
    let v = chars_of(text);
    count_words_chars(&v)
}

// ---------------------------------------------------------------------------
// Headings
// ---------------------------------------------------------------------------

/// The title of an ATX heading line: one to six `#`, whitespace, then the
/// title, without closing `#`s and surrounding whitespace. `None` when the
/// text is no heading or the title is empty.
pub open spec fn heading_title_of(text: Seq<char>) -> Option<Seq<char>> {
    let t = trim_start(text);
    let hashes = lead(t, CharClass::Is('#'));
    if !(1 <= hashes <= 6) {
        None
    } else {
        let rest = t.skip(hashes as int);
        if !(rest.len() > 0 && white_space(rest[0])) {
            None
        } else {
            let title = trim(strip_end(trim(rest), CharClass::Is('#')));
            if title.len() == 0 {
                None
            } else {
                Some(title)
            }
        }
    }
}

pub fn heading_title_chars(text: &Vec<char>) -> (r: Option<Vec<char>>)
    ensures
        match r {
            None => heading_title_of(text@) is None,
            Some(t) => heading_title_of(text@) == Some(t@),
        },
{
    let t = trim_start_of(text);
    let hashes = lead_len(&t, CharClass::Is('#'));
    proof {
        lemma_lead(t@, CharClass::Is('#'));
    }
    if !(1 <= hashes && hashes <= 6) {
        return None;
    }
    let rest = sub_vec(&t, hashes, t.len());
    if !(rest.len() > 0 && is_whitespace(rest[0])) {
        return None;
    }
    let a = trim_of(&rest);
    let b = strip_end_of(&a, CharClass::Is('#'));
    let title = trim_of(&b);
    if title.len() == 0 {
        None
    } else {
        Some(title)
    }
}

/// The title of a markdown heading, if the text is one.
pub fn heading_title(text: &str) -> (r: Option<String>)
    ensures
        match r {
            None => heading_title_of(text@) is None,
            Some(t) => heading_title_of(text@) == Some(t@),
        },
{
    let v = chars_of(text);
    match heading_title_chars(&v) {
        None => None,
        Some(t) => Some(string_of(&t)),
    }
}

// ---------------------------------------------------------------------------
// Blocks
// ---------------------------------------------------------------------------

/// How a block takes part in pagination: a heading may start a page, an
/// atomic block (code, table, image, list) is never split.
#[derive(Clone, Copy, PartialEq, Eq, Structural, Debug)]
pub enum BlockKind {
    Heading,
    Paragraph,
    Atomic,
}

pub open spec fn fence() -> Seq<char> {
    seq!['`', '`', '`']
}

/// Whether a (left-trimmed) text opens an atomic block: a code fence, a
/// table row, an image, a bullet item or a numbered item.
pub open spec fn opens_atomic(t: Seq<char>) -> bool {
    ||| starts_with(t, fence())
    ||| starts_with(t, seq!['|'])
    ||| starts_with(t, seq!['!', '['])
    ||| starts_with(t, seq!['-', ' '])
    ||| starts_with(t, seq!['*', ' '])
    ||| starts_with(t, seq!['+', ' '])
    ||| (t.len() > 0 && ascii_digit(t[0]))
}

pub open spec fn block_kind(text: Seq<char>) -> BlockKind {
    let t = trim_start(text);
    if heading_title_of(t) is Some {
        BlockKind::Heading
    } else if opens_atomic(t) {
        BlockKind::Atomic
    } else {
        BlockKind::Paragraph
    }
}

pub fn fence_of() -> (r: Vec<char>)
    ensures
        r@ == fence(),
{
    let r = vec!['`', '`', '`'];
    assert(r@ =~= fence());
    r
}

fn starts_with_two(t: &Vec<char>, a: char, b: char) -> (r: bool)
    ensures
        r == starts_with(t@, seq![a, b]),
{
    let p = vec![a, b];
    assert(p@ =~= seq![a, b]);
    starts_with_chars(t, &p)
}

pub fn classify_block_chars(text: &Vec<char>) -> (k: BlockKind)
    ensures
        k == block_kind(text@),
{
    let t = trim_start_of(text);
    if heading_title_chars(&t).is_some() {
        return BlockKind::Heading;
    }
    let bar = vec!['|'];
    assert(bar@ =~= seq!['|']);
    let atomic = starts_with_chars(&t, &fence_of()) || starts_with_chars(&t, &bar)
        || starts_with_two(&t, '!', '[') || starts_with_two(&t, '-', ' ') || starts_with_two(
        &t,
        '*',
        ' ',
    ) || starts_with_two(&t, '+', ' ') || (t.len() > 0 && is_ascii_digit(t[0]));
    if atomic {
        BlockKind::Atomic
    } else {
        BlockKind::Paragraph
    }
}

/// How a block of markdown takes part in pagination.
pub fn classify_block(text: &str) -> (k: BlockKind)
    ensures
        k == block_kind(text@),
{
    let v = chars_of(text);
    classify_block_chars(&v)
}

} // verus!
