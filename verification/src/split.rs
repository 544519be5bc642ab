//! Splitting character sequences into pieces and joining them back.
use vstd::prelude::*;
use crate::text::{
    find, lead, lemma_find, lemma_lead, find_char, lead_len, sub_vec, concat, CharClass,
};

verus! {

/// The views of a vector of character vectors.
pub open spec fn views(v: Seq<Vec<char>>) -> Seq<Seq<char>> {
    v.map_values(|x: Vec<char>| x@)
}

/// The pieces of `s` between the occurrences of `c` (`str::split` on a char).
/// There is always at least one piece.
pub open spec fn split(s: Seq<char>, c: char) -> Seq<Seq<char>>
    decreases s.len(),
{
    let k = find(s, c);
    if k >= s.len() {
        seq![s]
    } else {
        seq![s.take(k as int)] + split(s.skip(k as int + 1), c)
    }
}

/// `line` without one trailing carriage return.
pub open spec fn drop_cr(line: Seq<char>) -> Seq<char> {
    if line.len() > 0 && line.last() == '\r' {
        line.drop_last()
    } else {
        line
    }
}

/// The lines of `s` (`str::lines`): split at `\n`, a `\r` before the `\n`
/// dropped, and no empty line after a final line ending.
pub open spec fn lines(s: Seq<char>) -> Seq<Seq<char>>
    decreases s.len(),
{
    if s.len() == 0 {
        seq![]
    } else {
        let k = find(s, '\n');
        if k >= s.len() {
            seq![s]
        } else {
            seq![drop_cr(s.take(k as int))] + lines(s.skip(k as int + 1))
        }
    }
}

/// The pieces of `s` separated by whitespace, none empty (`str::split_whitespace`).
pub open spec fn words(s: Seq<char>) -> Seq<Seq<char>>
    decreases s.len(),
{
    let a = lead(s, CharClass::Space);
    if a >= s.len() {
        seq![]
    } else {
        let t = s.skip(a as int);
        proof {
            lemma_lead(t.drop_first(), CharClass::NotSpace);
        }
        let k = 1 + lead(t.drop_first(), CharClass::NotSpace) as int;
        seq![t.take(k)] + words(t.skip(k))
    }
}

/// The pieces joined with `sep` between them (`[T]::join`).
pub open spec fn join(parts: Seq<Seq<char>>, sep: Seq<char>) -> Seq<char>
    decreases parts.len(),
{
    if parts.len() == 0 {
        seq![]
    } else if parts.len() == 1 {
        parts[0]
    } else {
        join(parts.drop_last(), sep) + sep + parts.last()
    }
}

proof fn lemma_split_step(s: Seq<char>, c: char, pos: int)
    requires
        0 <= pos <= s.len(),
        find(s.skip(pos), c) < s.skip(pos).len(),
    ensures
        split(s.skip(pos), c) == seq![s.skip(pos).take(find(s.skip(pos), c) as int)] + split(
            s.skip(pos + find(s.skip(pos), c) + 1),
            c,
        ),
{
    let t = s.skip(pos);
    let k = find(t, c);
    assert(t.skip(k as int + 1) =~= s.skip(pos + k + 1));
}

pub fn split_of(s: &Vec<char>, c: char) -> (r: Vec<Vec<char>>)
    ensures
        views(r@) == split(s@, c),
{
    let mut r: Vec<Vec<char>> = Vec::new();
    let mut pos: usize = 0;
    assert(s@.skip(0) =~= s@);
    assert(views(r@) =~= Seq::<Seq<char>>::empty());
    loop
        invariant
            pos <= s.len(),
            split(s@, c) == views(r@) + split(s@.skip(pos as int), c),
        decreases s.len() - pos,
    {
        let rest = sub_vec(s, pos, s.len());
        assert(rest@ =~= s@.skip(pos as int));
        let k = find_char(&rest, c);
        proof {
            lemma_find(rest@, c);
        }
        if k >= rest.len() {
            let ghost old_r = r@;
            r.push(rest);
            assert(views(r@) =~= views(old_r) + seq![s@.skip(pos as int)]);
            return r;
        }
        let piece = sub_vec(&rest, 0, k);
        let ghost old_r = r@;
        r.push(piece);
        proof {
            lemma_split_step(s@, c, pos as int);
            assert(views(r@) =~= views(old_r) + seq![rest@.take(k as int)]);
            assert(s@.skip(pos as int).take(k as int) =~= rest@.take(k as int));
        }
        pos = pos + k + 1;
    }
}

pub fn lines_of(s: &Vec<char>) -> (r: Vec<Vec<char>>)
    ensures
        views(r@) == lines(s@),
{
    let mut r: Vec<Vec<char>> = Vec::new();
    let mut pos: usize = 0;
    assert(s@.skip(0) =~= s@);
    assert(views(r@) =~= Seq::<Seq<char>>::empty());
    loop
        invariant
            pos <= s.len(),
            lines(s@) == views(r@) + lines(s@.skip(pos as int)),
        decreases s.len() - pos,
    {
        if pos == s.len() {
            assert(views(r@) + lines(s@.skip(pos as int)) =~= views(r@));
            return r;
        }
        let rest = sub_vec(s, pos, s.len());
        assert(rest@ =~= s@.skip(pos as int));
        let k = find_char(&rest, '\n');
        proof {
            lemma_find(rest@, '\n');
        }
        if k >= rest.len() {
            let ghost old_r = r@;
            r.push(rest);
            assert(views(r@) =~= views(old_r) + seq![s@.skip(pos as int)]);
            return r;
        }
        let mut line = sub_vec(&rest, 0, k);
        if line.len() > 0 && line[line.len() - 1] == '\r' {
            line.pop();
        }
        let ghost old_r = r@;
        proof {
            let t = s@.skip(pos as int);
            assert(t.skip(k + 1) =~= s@.skip(pos + k + 1));
            assert(line@ =~= drop_cr(t.take(k as int)));
        }
        r.push(line);
        assert(views(r@) =~= views(old_r) + seq![line@]);
        pos = pos + k + 1;
    }
}

pub fn words_of(s: &Vec<char>) -> (r: Vec<Vec<char>>)
    ensures
        views(r@) == words(s@),
{
    let mut r: Vec<Vec<char>> = Vec::new();
    let mut pos: usize = 0;
    assert(s@.skip(0) =~= s@);
    assert(views(r@) =~= Seq::<Seq<char>>::empty());
    loop
        invariant
            pos <= s.len(),
            words(s@) == views(r@) + words(s@.skip(pos as int)),
        decreases s.len() - pos,
    {
        let rest = sub_vec(s, pos, s.len());
        assert(rest@ =~= s@.skip(pos as int));
        let a = lead_len(&rest, CharClass::Space);
        proof {
            lemma_lead(rest@, CharClass::Space);
        }
        if a >= rest.len() {
            assert(views(r@) + words(s@.skip(pos as int)) =~= views(r@));
            return r;
        }
        let t = sub_vec(&rest, a, rest.len());
        let tail = sub_vec(&t, 1, t.len());
        assert(tail@ =~= t@.drop_first());
        proof {
            lemma_lead(tail@, CharClass::NotSpace);
        }
        let k = 1 + lead_len(&tail, CharClass::NotSpace);
        let word = sub_vec(&t, 0, k);
        let ghost old_r = r@;
        r.push(word);
        proof {
            assert(t@ =~= rest@.skip(a as int));
            assert(t@.skip(k as int) =~= s@.skip(pos + a + k));
            assert(views(r@) =~= views(old_r) + seq![t@.take(k as int)]);
        }
        pos = pos + a + k;
    }
}

pub fn join_of(parts: &Vec<Vec<char>>, sep: &Vec<char>) -> (r: Vec<char>)
    ensures
        r@ == join(views(parts@), sep@),
{
    let mut r: Vec<char> = Vec::new();
    for i in 0..parts.len()
        invariant
            r@ == join(views(parts@.take(i as int)), sep@),
    {
        proof {
            assert(views(parts@.take(i + 1)).drop_last() =~= views(parts@.take(i as int)));
            assert(views(parts@.take(i + 1)).last() == parts@[i as int]@);
        }
        if i == 0 {
            r = parts[0].clone();
        } else {
            let with_sep = concat(&r, sep);
            r = concat(&with_sep, &parts[i]);
        }
    }
    assert(parts@.take(parts.len() as int) =~= parts@);
    r
}

} // verus!
