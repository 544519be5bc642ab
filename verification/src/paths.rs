//! Document paths, page file names and note ids.
//!
//! A document is a folder under the notes root, named by a relative path with
//! `/` separators. Its pages are markdown files named `NNN-Title.md`; the note
//! id of a page is the document path, a `/`, and the file name without `.md`.
use vstd::prelude::*;
use crate::text::{
    chars_of, string_of, sub_vec, concat, contains_char, ends_with, ends_with_chars, chars_eq,
    find, find_char, lemma_find, trail, trail_len, lemma_trail, strip, strip_of, trim, trim_of,
    replace_char, replace_char_of, ascii_digit, is_ascii_digit, CharClass,
};
use crate::split::{split, split_of, views};
use crate::decimal::{decimal, decimal_of, decimal3, decimal3_of};

verus! {

// ---------------------------------------------------------------------------
// Messages
// ---------------------------------------------------------------------------

pub open spec fn msg_empty_document_path() -> Seq<char> {
    "Document path cannot be empty"@
}

pub open spec fn msg_invalid_document_path() -> Seq<char> {
    "Invalid document path"@
}

pub open spec fn msg_invalid_page_file() -> Seq<char> {
    "Invalid page file"@
}

pub open spec fn msg_page_not_markdown() -> Seq<char> {
    "Page file must be markdown"@
}

// ---------------------------------------------------------------------------
// Literal character sequences
// ---------------------------------------------------------------------------

pub open spec fn md_ext() -> Seq<char> {
    seq!['.', 'm', 'd']
}

pub fn md_ext_of() -> (r: Vec<char>)
    ensures
        r@ == md_ext(),
{
    let r = vec!['.', 'm', 'd'];
    assert(r@ =~= md_ext());
    r
}

pub open spec fn untitled() -> Seq<char> {
    seq!['U', 'n', 't', 'i', 't', 'l', 'e', 'd']
}

// ---------------------------------------------------------------------------
// File names from titles
// ---------------------------------------------------------------------------

/// Characters that cannot stand in a file or folder name on common file
/// systems: path separators, `: * ? " < > |`, and control characters.
pub open spec fn forbidden_in_name(c: char) -> bool {
    c == '/' || c == '\\' || c == ':' || c == '*' || c == '?' || c == '"' || c == '<' || c
        == '>' || c == '|' || c < ' '
}

/// The file or folder name for a title: forbidden characters become `-`,
/// surrounding whitespace is trimmed, and an empty result becomes `Untitled`.
pub open spec fn sanitized(title: Seq<char>) -> Seq<char> {
    let t = trim(title.map_values(|c: char| if forbidden_in_name(c) { '-' } else { c }));
    if t.len() == 0 {
        untitled()
    } else {
        t
    }
}

pub fn sanitize_chars(title: &Vec<char>) -> (r: Vec<char>)
    ensures
        r@ == sanitized(title@),
{
    let mut m: Vec<char> = Vec::new();
    for i in 0..title.len()
        invariant
            m@ == title@.take(i as int).map_values(
                |c: char| if forbidden_in_name(c) { '-' } else { c },
            ),
    {
        let c = title[i];
        let bad = c == '/' || c == '\\' || c == ':' || c == '*' || c == '?' || c == '"' || c
            == '<' || c == '>' || c == '|' || c < ' ';
        m.push(if bad { '-' } else { c });
        assert(title@.take(i + 1).map_values(|c: char| if forbidden_in_name(c) { '-' } else { c })
            =~= title@.take(i as int).map_values(
            |c: char| if forbidden_in_name(c) { '-' } else { c },
        ).push(if bad { '-' } else { c }));
    }
    assert(title@.take(title.len() as int) =~= title@);
    let t = trim_of(&m);
    if t.len() == 0 {
        let r = vec!['U', 'n', 't', 'i', 't', 'l', 'e', 'd'];
        assert(r@ =~= untitled());
        r
    } else {
        t
    }
}

/// The file name that a title gets: no path separator, no NUL, never empty.
pub fn sanitize_filename(title: &str) -> (r: String)
    ensures
        r@ == sanitized(title@),
{
    let v = chars_of(title);
    string_of(&sanitize_chars(&v))
}

/// A sanitized name holds no `/`, `\` or NUL, and is never empty.
pub proof fn lemma_sanitized_clean(title: Seq<char>)
    ensures
        !sanitized(title).contains('/'),
        !sanitized(title).contains('\\'),
        !sanitized(title).contains('\0'),
        sanitized(title).len() > 0,
{
    let m = title.map_values(|c: char| if forbidden_in_name(c) { '-' } else { c });
    let t = trim(m);
    assert forall|i: int| 0 <= i < t.len() implies !forbidden_in_name(#[trigger] t[i]) || t[i]
        == '-' by {
        let s1 = m.skip(crate::text::lead(m, CharClass::Space) as int);
        crate::text::lemma_lead(m, CharClass::Space);
        crate::text::lemma_trail(s1, CharClass::Space);
        assert(t[i] == s1[i]);
    }
    if t.len() > 0 {
        assert forall|c: char| c == '/' || c == '\\' || c == '\0' implies !t.contains(c) by {
            if t.contains(c) {
                let j = choose|j: int| 0 <= j < t.len() && t[j] == c;
                assert(!forbidden_in_name(t[j]) || t[j] == '-');
            }
        }
    } else {
        assert(untitled()[0] == 'U');
        assert forall|c: char| c == '/' || c == '\\' || c == '\0' implies !untitled().contains(
            c,
        ) by {
            if untitled().contains(c) {
                let j = choose|j: int| 0 <= j < untitled().len() && untitled()[j] == c;
                assert(untitled()[j] != c);
            }
        }
    }
}

// ---------------------------------------------------------------------------
// Relative document paths
// ---------------------------------------------------------------------------

/// A relative path with surrounding `/` removed and `\` turned into `/`.
pub open spec fn normalized(path: Seq<char>) -> Seq<char> {
    replace_char(strip(path, CharClass::Is('/')), '\\', '/')
}

pub fn normalize_chars(path: &Vec<char>) -> (r: Vec<char>)
    ensures
        r@ == normalized(path@),
{
    let t = strip_of(path, CharClass::Is('/'));
    replace_char_of(&t, '\\', '/')
}

pub fn normalize_rel_path(path: &str) -> (r: String)
    ensures
        r@ == normalized(path@),
{
    let v = chars_of(path);
    string_of(&normalize_chars(&v))
}

/// A path segment that must not occur in a document path.
pub open spec fn bad_segment(seg: Seq<char>) -> bool {
    seg.len() == 0 || seg == seq!['.'] || seg == seq!['.', '.']
}

/// Why a document path is refused, if it is.
pub open spec fn document_path_error(path: Seq<char>) -> Option<Seq<char>> {
    let n = normalized(path);
    if n.len() == 0 {
        Some(msg_empty_document_path())
    } else if n.contains('\0') {
        Some(msg_invalid_document_path())
    } else if exists|i: int| 0 <= i < split(n, '/').len() && bad_segment(#[trigger] split(n, '/')[i]) {
        Some(msg_invalid_document_path())
    } else {
        None
    }
}

fn is_bad_segment(seg: &Vec<char>) -> (r: bool)
    ensures
        r == bad_segment(seg@),
{
    let r = seg.len() == 0 || (seg.len() == 1 && seg[0] == '.') || (seg.len() == 2 && seg[0]
        == '.' && seg[1] == '.');
    proof {
        if seg.len() == 1 && seg@[0] == '.' {
            assert(seg@ =~= seq!['.']);
        }
        if seg.len() == 2 && seg@[0] == '.' && seg@[1] == '.' {
            assert(seg@ =~= seq!['.', '.']);
        }
        if seg@ == seq!['.'] {
            assert(seg@[0] == '.');
        }
        if seg@ == seq!['.', '.'] {
            assert(seg@[0] == '.' && seg@[1] == '.');
        }
    }
    r
}

pub fn document_path_error_of(path: &Vec<char>) -> (r: Option<String>)
    ensures
        match r {
            None => document_path_error(path@) is None,
            Some(e) => document_path_error(path@) == Some(e@),
        },
{
    let n = normalize_chars(path);
    if n.len() == 0 {
        return Some("Document path cannot be empty".to_string());
    }
    if contains_char(&n, '\0') {
        return Some("Invalid document path".to_string());
    }
    let parts = split_of(&n, '/');
    for i in 0..parts.len()
        invariant
            views(parts@) == split(n@, '/'),
            n@ == normalized(path@),
            n@.len() > 0,
            !n@.contains('\0'),
            forall|j: int| 0 <= j < i ==> !bad_segment(#[trigger] split(n@, '/')[j]),
    {
        assert(split(n@, '/')[i as int] == parts@[i as int]@);
        if is_bad_segment(&parts[i]) {
            return Some("Invalid document path".to_string());
        }
    }
    None
}

/// Checks a relative document path: not empty, no NUL, and no segment that
/// is empty, `.` or `..`.
pub fn validate_document_path(path: &str) -> (r: Result<(), String>)
    ensures
        match r {
            Ok(()) => document_path_error(path@) is None,
            Err(e) => document_path_error(path@) == Some(e@),
        },
{
    let v = chars_of(path);
    match document_path_error_of(&v) {
        None => Ok(()),
        Some(e) => Err(e),
    }
}

/// What `document_dir` gives: the normalized path of a valid document path,
/// relative to the notes root.
pub open spec fn document_dir_spec(path: Seq<char>) -> Result<Seq<char>, Seq<char>> {
    match document_path_error(path) {
        Some(e) => Err(e),
        None => Ok(normalized(path)),
    }
}

pub fn document_dir_of(path: &Vec<char>) -> (r: Result<Vec<char>, String>)
    ensures
        match r {
            Ok(d) => document_dir_spec(path@) == Ok::<Seq<char>, Seq<char>>(d@),
            Err(e) => document_dir_spec(path@) == Err::<Seq<char>, Seq<char>>(e@),
        },
{
    match document_path_error_of(path) {
        Some(e) => Err(e),
        None => Ok(normalize_chars(path)),
    }
}

/// The folder of a document, relative to the notes root, with `/` separators.
pub fn document_dir(path: &str) -> (r: Result<String, String>)
    ensures
        match r {
            Ok(d) => document_dir_spec(path@) == Ok::<Seq<char>, Seq<char>>(d@),
            Err(e) => document_dir_spec(path@) == Err::<Seq<char>, Seq<char>>(e@),
        },
{
    let v = chars_of(path);
    match document_dir_of(&v) {
        Ok(d) => Ok(string_of(&d)),
        Err(e) => Err(e),
    }
}

/// A folder that `document_dir` accepts lies inside the notes root: none of
/// its segments is empty, `.` or `..`, and it holds no NUL.
pub proof fn lemma_document_dir_stays_inside(path: Seq<char>)
    requires
        document_dir_spec(path) is Ok,
    ensures
        ({
            let d = document_dir_spec(path)->Ok_0;
            &&& d.len() > 0
            &&& !d.contains('\0')
            &&& forall|i: int|
                0 <= i < split(d, '/').len() ==> !bad_segment(#[trigger] split(d, '/')[i])
        }),
{
}

// ---------------------------------------------------------------------------
// Page files
// ---------------------------------------------------------------------------

/// Why a page file name is refused, if it is.
pub open spec fn page_file_error(file: Seq<char>) -> Option<Seq<char>> {
    if file.contains('/') || file.contains('\\') || file.contains('\0') {
        Some(msg_invalid_page_file())
    } else if !ends_with(file, md_ext()) || file == md_ext() {
        Some(msg_page_not_markdown())
    } else {
        None
    }
}

pub fn page_file_error_of(file: &Vec<char>) -> (r: Option<String>)
    ensures
        match r {
            None => page_file_error(file@) is None,
            Some(e) => page_file_error(file@) == Some(e@),
        },
{
    if contains_char(file, '/') || contains_char(file, '\\') || contains_char(file, '\0') {
        return Some("Invalid page file".to_string());
    }
    let ext = md_ext_of();
    if !ends_with_chars(file, &ext) || chars_eq(file, &ext) {
        return Some("Page file must be markdown".to_string());
    }
    None
}

/// Checks a page file name: a plain markdown file name in the document folder.
pub fn validate_page_file(file: &str) -> (r: Result<(), String>)
    ensures
        match r {
            Ok(()) => page_file_error(file@) is None,
            Err(e) => page_file_error(file@) == Some(e@),
        },
{
    let v = chars_of(file);
    match page_file_error_of(&v) {
        None => Ok(()),
        Some(e) => Err(e),
    }
}

/// The page file name for a position (from 1) and a title: `NNN-Title.md`.
pub open spec fn page_file_name_spec(index: nat, title: Seq<char>) -> Seq<char> {
    decimal3(index) + seq!['-'] + sanitized(title) + md_ext()
}

pub fn page_file_name_of(index: usize, title: &Vec<char>) -> (r: Vec<char>)
    ensures
        r@ == page_file_name_spec(index as nat, title@),
{
    let d = decimal3_of(index);
    let a = concat(&d, &vec!['-']);
    let b = concat(&a, &sanitize_chars(title));
    let r = concat(&b, &md_ext_of());
    assert(r@ =~= page_file_name_spec(index as nat, title@));
    r
}

pub fn page_file_name(index: usize, title: &str) -> (r: String)
    ensures
        r@ == page_file_name_spec(index as nat, title@),
{
    let v = chars_of(title);
    string_of(&page_file_name_of(index, &v))
}

/// A generated page file name is always a valid page file.
pub proof fn lemma_page_file_name_valid(index: nat, title: Seq<char>)
    ensures
        page_file_error(page_file_name_spec(index, title)) is None,
{
    let d = decimal3(index);
    let s = sanitized(title);
    let f = page_file_name_spec(index, title);
    lemma_sanitized_clean(title);
    lemma_decimal3_digits(index);
    assert forall|c: char| c == '/' || c == '\\' || c == '\0' implies !f.contains(c) by {
        if f.contains(c) {
            let j = choose|j: int| 0 <= j < f.len() && f[j] == c;
            if j < d.len() {
                assert(f[j] == d[j]);
                assert(ascii_digit(d[j]));
            } else if j == d.len() {
                assert(f[j] == '-');
            } else if j < d.len() + 1 + s.len() {
                assert(f[j] == s[j - d.len() - 1]);
                assert(s.contains(c));
            } else {
                assert(f[j] == md_ext()[j - d.len() - 1 - s.len()]);
            }
        }
    }
    assert(f.skip(f.len() - 3) =~= md_ext());
    assert(f.len() > 3);
}

/// A decimal numeral is made of digits.
pub proof fn lemma_decimal_digits(n: nat)
    ensures
        forall|i: int| 0 <= i < decimal(n).len() ==> ascii_digit(#[trigger] decimal(n)[i]),
    decreases n,
{
    if n >= 10 {
        lemma_decimal_digits(n / 10);
        let d = decimal(n);
        assert forall|i: int| 0 <= i < d.len() implies ascii_digit(#[trigger] d[i]) by {
            if i < d.len() - 1 {
                assert(d[i] == decimal(n / 10)[i]);
            }
        }
    }
}

/// A zero-padded numeral is made of at least three digits.
pub proof fn lemma_decimal3_digits(n: nat)
    ensures
        forall|i: int| 0 <= i < decimal3(n).len() ==> ascii_digit(#[trigger] decimal3(n)[i]),
        decimal3(n).len() >= 3,
{
    lemma_decimal_digits(n);
    crate::decimal::lemma_decimal_len(n);
    let d = decimal(n);
    let r = decimal3(n);
    if d.len() < 3 {
        let pad = Seq::new((3 - d.len()) as nat, |i: int| '0');
        assert forall|i: int| 0 <= i < r.len() implies ascii_digit(#[trigger] r[i]) by {
            if i < pad.len() {
                assert(r[i] == '0');
            } else {
                assert(r[i] == d[i - pad.len()]);
            }
        }
    }
}

// ---------------------------------------------------------------------------
// Note ids
// ---------------------------------------------------------------------------

/// The page file name without its `.md` extension.
pub open spec fn file_stem(file: Seq<char>) -> Seq<char> {
    if ends_with(file, md_ext()) {
        file.take(file.len() - 3)
    } else {
        file
    }
}

/// The note id of a page: `<normalized document path>/<file stem>`.
pub open spec fn page_id_spec(document_path: Seq<char>, file: Seq<char>) -> Seq<char> {
    normalized(document_path) + seq!['/'] + file_stem(file)
}

pub fn page_id_of(document_path: &Vec<char>, file: &Vec<char>) -> (r: Vec<char>)
    ensures
        r@ == page_id_spec(document_path@, file@),
{
    let ext = md_ext_of();
    let stem = if ends_with_chars(file, &ext) {
        sub_vec(file, 0, file.len() - 3)
    } else {
        file.clone()
    };
    let n = normalize_chars(document_path);
    let a = concat(&n, &vec!['/']);
    let r = concat(&a, &stem);
    assert(r@ =~= page_id_spec(document_path@, file@));
    r
}

pub fn page_id(document_path: &str, file: &str) -> (r: String)
    ensures
        r@ == page_id_spec(document_path@, file@),
{
    let d = chars_of(document_path);
    let f = chars_of(file);
    string_of(&page_id_of(&d, &f))
}

/// Index of the last `c` in `s`, if any (`str::rfind`).
pub open spec fn rfind(s: Seq<char>, c: char) -> Option<int> {
    let t = trail(s, CharClass::IsNot(c));
    if t < s.len() {
        Some(s.len() - t - 1)
    } else {
        None
    }
}

/// The document path and page file named by a note id: the id is cut at its
/// last `/`, and `.md` is added to the part after it.
pub open spec fn note_parts(note_id: Seq<char>) -> Option<(Seq<char>, Seq<char>)> {
    match rfind(note_id, '/') {
        None => None,
        Some(pos) => Some((note_id.take(pos), note_id.skip(pos + 1) + md_ext())),
    }
}

pub fn file_from_note_id_of(note_id: &Vec<char>) -> (r: Option<(Vec<char>, Vec<char>)>)
    ensures
        match r {
            None => note_parts(note_id@) is None,
            Some((d, f)) => note_parts(note_id@) == Some((d@, f@)),
        },
{
    let t = trail_len(note_id, CharClass::IsNot('/'));
    proof {
        lemma_trail(note_id@, CharClass::IsNot('/'));
    }
    if t >= note_id.len() {
        return None;
    }
    let pos = note_id.len() - t - 1;
    let d = sub_vec(note_id, 0, pos);
    let rest = sub_vec(note_id, pos + 1, note_id.len());
    let f = concat(&rest, &md_ext_of());
    Some((d, f))
}

/// Splits a note id into its document path and page file name.
pub fn file_from_note_id(note_id: &str) -> (r: Option<(String, String)>)
    ensures
        match r {
            None => note_parts(note_id@) is None,
            Some((d, f)) => note_parts(note_id@) == Some((d@, f@)),
        },
{
    let v = chars_of(note_id);
    match file_from_note_id_of(&v) {
        None => None,
        Some((d, f)) => Some((string_of(&d), string_of(&f))),
    }
}

/// The id of a valid page file names the page again: splitting the id gives
/// back the normalized document path and the file.
pub proof fn lemma_note_id_round_trip(document_path: Seq<char>, file: Seq<char>)
    requires
        page_file_error(file) is None,
    ensures
        note_parts(page_id_spec(document_path, file)) == Some(
            (normalized(document_path), file),
        ),
{
    let n = normalized(document_path);
    let stem = file_stem(file);
    let id = page_id_spec(document_path, file);
    assert(!stem.contains('/')) by {
        if stem.contains('/') {
            let j = choose|j: int| 0 <= j < stem.len() && stem[j] == '/';
            assert(file[j] == '/');
        }
    }
    assert forall|j: int| id.len() - stem.len() <= j < id.len() implies in_not_slash(
        #[trigger] id[j],
    ) by {
        assert(id[j] == stem[j - n.len() - 1]);
        if id[j] == '/' {
            assert(stem.contains('/'));
        }
    }
    assert(id[id.len() - stem.len() - 1] == '/');
    lemma_trail_unique(id, stem.len() as int);
    assert(id.take(n.len() as int) =~= n);
    assert(id.skip(n.len() as int + 1) =~= stem);
    assert(stem + md_ext() =~= file) by {
        assert(file.skip(file.len() - 3) == md_ext());
    }
}

spec fn in_not_slash(c: char) -> bool {
    crate::text::in_class(CharClass::IsNot('/'), c)
}

proof fn lemma_trail_unique(s: Seq<char>, n: int)
    requires
        0 <= n < s.len(),
        forall|j: int| s.len() - n <= j < s.len() ==> in_not_slash(#[trigger] s[j]),
        s[s.len() - n - 1] == '/',
    ensures
        trail(s, CharClass::IsNot('/')) == n,
{
    crate::text::lemma_trail_unique(s, CharClass::IsNot('/'), n);
}

/// A generated page file name starts with its zero-padded number, then `-`.
pub proof fn lemma_page_file_name_number(index: nat, title: Seq<char>)
    ensures
        find(page_file_name_spec(index, title), '-') == decimal3(index).len(),
        page_file_name_spec(index, title).take(decimal3(index).len() as int) == decimal3(index),
{
    let f = page_file_name_spec(index, title);
    let d = decimal3(index);
    crate::decimal::lemma_decimal3_value(index);
    assert forall|j: int| 0 <= j < d.len() implies crate::text::in_class(
        CharClass::IsNot('-'),
        #[trigger] f[j],
    ) by {
        assert(f[j] == d[j]);
        assert(ascii_digit(d[j]));
    }
    assert(f[d.len() as int] == '-');
    crate::text::lemma_lead_unique(f, CharClass::IsNot('-'), d.len() as int);
    assert(f.take(d.len() as int) =~= d);
}

/// Page file names made for different positions differ.
pub proof fn lemma_page_file_names_distinct(i: nat, t1: Seq<char>, j: nat, t2: Seq<char>)
    requires
        i != j,
    ensures
        page_file_name_spec(i, t1) != page_file_name_spec(j, t2),
{
    lemma_page_file_name_number(i, t1);
    lemma_page_file_name_number(j, t2);
    crate::decimal::lemma_decimal3_value(i);
    crate::decimal::lemma_decimal3_value(j);
}

} // verus!
