//! Changes to a document's pages: what a save, a move, a rename, a removal or
//! a new page does to the manifest and to the page files.
use vstd::prelude::*;
use crate::text::{chars_of, string_of, concat, trim, trim_of, find, find_char, lemma_find, sub_vec, chars_eq};
use crate::decimal::{parse_usize, parse_usize_of, all_digits, decimal};
use crate::paths::{
    document_dir_spec, document_dir_of, page_file_error, page_file_error_of, page_id_spec,
    page_id_of, note_parts, file_from_note_id_of, sanitized, sanitize_chars, md_ext, md_ext_of,
    page_file_name_spec, page_file_name_of,
};
use crate::paginate::{default_title, default_title_of};
use crate::model::{
    DocumentManifest, ManifestView, DocumentPageManifest, PageEntry, page_entries, copy_pages,
    DocumentDetail, DetailView, MoveDirection,
};
use crate::document::{
    DocumentSnapshot, DocumentProbe, ProbeView, SnapshotView, checked, checked_snapshot,
    loaded_view, loaded_wf, pages_error,
};
use crate::clock::now_string;

verus! {

// ---------------------------------------------------------------------------
// First positions
// ---------------------------------------------------------------------------

pub open spec fn is_first(n: int, p: spec_fn(int) -> bool, i: int) -> bool {
    0 <= i < n && p(i) && forall|j: int| 0 <= j < i ==> !#[trigger] p(j)
}

/// The first position below `n` where `p` holds, if any.
pub open spec fn first_where(n: int, p: spec_fn(int) -> bool) -> Option<int> {
    if exists|i: int| is_first(n, p, i) {
        Some(choose|i: int| is_first(n, p, i))
    } else {
        None
    }
}

/// A position where `p` holds and nowhere before is the first one.
pub proof fn lemma_first_where_some(n: int, p: spec_fn(int) -> bool, i: int)
    requires
        is_first(n, p, i),
    ensures
        first_where(n, p) == Some(i),
{
    let k = choose|k: int| is_first(n, p, k);
    assert(is_first(n, p, k));
    if k < i {
        assert(!p(k));
    }
    if k > i {
        assert(!p(i));
    }
}

/// Where `p` holds nowhere below `n`, there is no first position.
pub proof fn lemma_first_where_none(n: int, p: spec_fn(int) -> bool)
    requires
        forall|i: int| 0 <= i < n ==> !#[trigger] p(i),
    ensures
        first_where(n, p) is None,
{
}

/// The position of the first page with the given file.
pub open spec fn page_position(pages: Seq<PageEntry>, file: Seq<char>) -> Option<int> {
    first_where(pages.len() as int, |i: int| pages[i].file == file)
}

pub fn position_of(pages: &Vec<DocumentPageManifest>, file: &str) -> (r: Option<usize>)
    ensures
        match r {
            None => page_position(page_entries(pages@), file@) is None,
            Some(i) => page_position(page_entries(pages@), file@) == Some(i as int),
        },
{
    let ghost es = page_entries(pages@);
    let ghost p = |i: int| es[i].file == file@;
    let target = file.to_string();
    for i in 0..pages.len()
        invariant
            es == page_entries(pages@),
            p == (|i: int| es[i].file == file@),
            target@ == file@,
            forall|j: int| 0 <= j < i ==> !#[trigger] p(j),
    {
        if pages[i].file == target {
            proof {
                lemma_first_where_some(pages.len() as int, p, i as int);
            }
            return Some(i);
        }
    }
    proof {
        lemma_first_where_none(pages.len() as int, p);
    }
    None
}

// ---------------------------------------------------------------------------
// Page positions from note ids
// ---------------------------------------------------------------------------

/// The position of a page file in a manifest; for a file that is not listed,
/// the number before its first `-`, less one, or 0.
pub open spec fn page_index_guess(pages: Seq<PageEntry>, file: Seq<char>) -> int {
    match page_position(pages, file) {
        Some(i) => i,
        None => {
            let k = find(file, '-');
            if k < file.len() {
                match parse_usize(file.take(k as int)) {
                    Some(n) => if n >= 1 {
                        n - 1
                    } else {
                        0
                    },
                    None => 0,
                }
            } else {
                0
            }
        },
    }
}

/// Where a page file stands in a document, or where its number puts it.
pub fn page_index_for_file(manifest: &DocumentManifest, file: &str) -> (r: usize)
    ensures
        r as int == page_index_guess(manifest@.pages, file@),
{
    match position_of(&manifest.pages, file) {
        Some(i) => i,
        None => {
            let f = chars_of(file);
            let k = find_char(&f, '-');
            proof {
                lemma_find(f@, '-');
            }
            if k < f.len() {
                let prefix = sub_vec(&f, 0, k);
                match parse_usize_of(&prefix) {
                    Some(n) => if n >= 1 {
                        n - 1
                    } else {
                        0
                    },
                    None => 0,
                }
            } else {
                0
            }
        },
    }
}

/// The id of the page at a position, or of the last page when the position
/// is past the end.
pub open spec fn target_id(d: DetailView, index: int) -> Option<Seq<char>> {
    if 0 <= index < d.pages.len() {
        Some(d.pages[index].id)
    } else if d.pages.len() > 0 {
        Some(d.pages.last().id)
    } else {
        None
    }
}

/// The note to show after a document changed: the page at the same position,
/// or the last page.
pub fn target_note_id_for_index(document: &DocumentDetail, index: usize) -> (r: Option<String>)
    ensures
        match r {
            None => target_id(document@, index as int) is None,
            Some(id) => target_id(document@, index as int) == Some(id@),
        },
{
    if index < document.pages.len() {
        Some(document.pages[index].id.clone())
    } else if document.pages.len() > 0 {
        Some(document.pages[document.pages.len() - 1].id.clone())
    } else {
        None
    }
}

// ---------------------------------------------------------------------------
// Notes in documents
// ---------------------------------------------------------------------------

/// Whether a note id names a valid page file of a valid document path, and the
/// folder of that path holds a manifest (`is_document`).
pub open spec fn note_in_document(note_id: Seq<char>, is_document: bool) -> bool {
    match note_parts(note_id) {
        None => false,
        Some((d, f)) => page_file_error(f) is None && document_dir_spec(d) is Ok && is_document,
    }
}

/// Whether a note belongs to a document. `is_document` tells whether the
/// folder of the id's document path holds a manifest.
pub fn is_note_in_document(note_id: &str, is_document: bool) -> (r: bool)
    ensures
        r == note_in_document(note_id@, is_document),
{
    let id = chars_of(note_id);
    match file_from_note_id_of(&id) {
        None => false,
        Some((d, f)) => {
            if page_file_error_of(&f).is_some() {
                return false;
            }
            if document_dir_of(&d).is_err() {
                return false;
            }
            is_document
        },
    }
}

pub open spec fn default_prefix() -> Seq<char> {
    seq!['0', '0', '1']
}

/// The number part of a page file kept for a renamed page: the three digits
/// before the first `-`, or `001`.
pub open spec fn page_prefix(file: Seq<char>) -> Seq<char> {
    let k = find(file, '-');
    if k < file.len() && k == 3 && all_digits(file.take(3)) {
        file.take(3)
    } else {
        default_prefix()
    }
}

fn page_prefix_of(file: &Vec<char>) -> (r: Vec<char>)
    ensures
        r@ == page_prefix(file@),
{
    let k = find_char(file, '-');
    proof {
        lemma_find(file@, '-');
    }
    if k < file.len() && k == 3 {
        let p = sub_vec(file, 0, 3);
        if crate::text::is_ascii_digit(p[0]) && crate::text::is_ascii_digit(p[1])
            && crate::text::is_ascii_digit(p[2]) {
            return p;
        }
        assert(!all_digits(file@.take(3)));
    }
    let r = vec!['0', '0', '1'];
    assert(r@ =~= default_prefix());
    r
}

/// The id that a page gets when it is saved under a title: same document and
/// number, file name from the title. No id when the note is not in a document.
pub open spec fn desired_page_id(existing_id: Seq<char>, title: Seq<char>, is_document: bool) -> Result<
    Option<Seq<char>>,
    Seq<char>,
> {
    match note_parts(existing_id) {
        None => Ok(None),
        Some((d, f)) => match document_dir_spec(d) {
            Err(e) => Err(e),
            Ok(_) => if !is_document {
                Ok(None)
            } else {
                Ok(Some(page_id_spec(d, page_prefix(f) + seq!['-'] + sanitized(title) + md_ext())))
            },
        },
    }
}

/// The note id that a document page should have after it is saved with a
/// title. `is_document` tells whether the folder of the id's document path
/// holds a manifest.
pub fn desired_page_id_for_save(existing_id: &str, title: &str, is_document: bool) -> (r: Result<
    Option<String>,
    String,
>)
    ensures
        match r {
            Ok(None) => desired_page_id(existing_id@, title@, is_document) == Ok::<
                Option<Seq<char>>,
                Seq<char>,
            >(None),
            Ok(Some(id)) => desired_page_id(existing_id@, title@, is_document) == Ok::<
                Option<Seq<char>>,
                Seq<char>,
            >(Some(id@)),
            Err(e) => desired_page_id(existing_id@, title@, is_document) == Err::<
                Option<Seq<char>>,
                Seq<char>,
            >(e@),
        },
{
    let id = chars_of(existing_id);
    let (d, f) = match file_from_note_id_of(&id) {
        None => {
            return Ok(None);
        },
        Some(p) => p,
    };
    match document_dir_of(&d) {
        Err(e) => {
            return Err(e);
        },
        Ok(_) => {},
    }
    if !is_document {
        return Ok(None);
    }
    let t = chars_of(title);
    let a = concat(&page_prefix_of(&f), &vec!['-']);
    let b = concat(&a, &sanitize_chars(&t));
    let file = concat(&b, &md_ext_of());
    assert(file@ =~= page_prefix(f@) + seq!['-'] + sanitized(title@) + md_ext());
    Ok(Some(string_of(&page_id_of(&d, &file))))
}

// ---------------------------------------------------------------------------
// Recording a saved page
// ---------------------------------------------------------------------------

/// The manifest with a different `updated_at`.
pub open spec fn stamped(m: ManifestView, t: Seq<char>) -> ManifestView {
    ManifestView { updated_at: t, ..m }
}

/// The pages after a page was saved under `new_file` and `title`: the first
/// page listed under the new file, or else under the old file, takes both;
/// when there is none the page is added at the end.
pub open spec fn saved_pages(
    pages: Seq<PageEntry>,
    old_file: Option<Seq<char>>,
    new_file: Seq<char>,
    title: Seq<char>,
) -> Seq<PageEntry> {
    let entry = PageEntry { file: new_file, title };
    match first_where(
        pages.len() as int,
        |i: int| pages[i].file == new_file || old_file == Some(pages[i].file),
    ) {
        Some(i) => pages.update(i, entry),
        None => pages.push(entry),
    }
}

/// What saving a page does to its document's manifest: nothing when the new
/// id names no page of a document folder; otherwise the manifest (which must
/// be valid) with the page recorded and a new `updated_at`.
pub open spec fn page_save_outcome(
    new_id: Seq<char>,
    old_id: Option<Seq<char>>,
    title: Seq<char>,
    probe: ProbeView,
) -> Result<Option<ManifestView>, Seq<char>> {
    match note_parts(new_id) {
        None => Ok(None),
        Some((d, new_file)) => match document_dir_spec(d) {
            Err(e) => Err(e),
            Ok(_) => if !probe.is_document {
                Ok(None)
            } else {
                match checked(probe.loaded) {
                    Err(e) => Err(e),
                    Ok(s) => {
                        let old_file = match old_id {
                            None => None,
                            Some(o) => match note_parts(o) {
                                None => None,
                                Some((_, f)) => Some(f),
                            },
                        };
                        Ok(
                            Some(
                                ManifestView {
                                    pages: saved_pages(s.manifest.pages, old_file, new_file, title),
                                    ..s.manifest
                                },
                            ),
                        )
                    },
                }
            },
        },
    }
}

pub fn copy_manifest(m: &DocumentManifest) -> (r: DocumentManifest)
    ensures
        r@ == m@,
{
    m.clone()
}

fn saved_position(pages: &Vec<DocumentPageManifest>, old_file: &Option<String>, new_file: &String) -> (r:
    Option<usize>)
    ensures
        ({
            let es = page_entries(pages@);
            let of = match old_file {
                None => None,
                Some(f) => Some(f@),
            };
            let found = first_where(
                es.len() as int,
                |i: int| es[i].file == new_file@ || of == Some(es[i].file),
            );
            match r {
                None => found is None,
                Some(k) => found == Some(k as int),
            }
        }),
{
    let ghost es = page_entries(pages@);
    let ghost of = match old_file {
        None => None,
        Some(f) => Some(f@),
    };
    let ghost p = |i: int| es[i].file == new_file@ || of == Some(es[i].file);
    for i in 0..pages.len()
        invariant
            es == page_entries(pages@),
            p == (|i: int| es[i].file == new_file@ || of == Some(es[i].file)),
            of == (match old_file {
                None => None,
                Some(f) => Some(f@),
            }),
            forall|j: int| 0 <= j < i ==> !#[trigger] p(j),
    {
        let hit_old = match old_file {
            None => false,
            Some(s) => pages[i].file == *s,
        };
        if pages[i].file == *new_file || hit_old {
            proof {
                lemma_first_where_some(pages.len() as int, p, i as int);
            }
            return Some(i);
        }
    }
    proof {
        lemma_first_where_none(pages.len() as int, p);
    }
    None
}

/// Records in a manifest that a page was saved: its entry (found by the new
/// or the old file) gets the new file and title, or one is added.
pub fn record_saved_page(
    manifest: &mut DocumentManifest,
    old_file: Option<&str>,
    new_file: &str,
    title: &str,
)
    ensures
        final(manifest)@ == (ManifestView {
            pages: saved_pages(
                old(manifest)@.pages,
                match old_file {
                    None => None,
                    Some(f) => Some(f@),
                },
                new_file@,
                title@,
            ),
            ..old(manifest)@
        }),
{
    let nf = new_file.to_string();
    let of_s: Option<String> = match old_file {
        None => None,
        Some(f) => Some(f.to_string()),
    };
    let found = saved_position(&manifest.pages, &of_s, &nf);
    let entry = DocumentPageManifest { file: nf, title: title.to_string() };
    let ghost old_pages = manifest.pages@;
    match found {
        Some(k) => {
            manifest.pages.set(k, entry);
            assert(page_entries(manifest.pages@) =~= page_entries(old_pages).update(k as int, entry@));
        },
        None => {
            manifest.pages.push(entry);
            assert(page_entries(manifest.pages@) =~= page_entries(old_pages).push(entry@));
        },
    }
}

/// Records a saved page in its document's manifest. `probe` is what was
/// found in the folder of the new id's document path. Gives the manifest to
/// write, with a new `updated_at`, or nothing when the note is not in a
/// document.
pub fn sync_page_after_save(
    new_id: &str,
    old_id: Option<&str>,
    title: &str,
    probe: &DocumentProbe,
) -> (r: Result<Option<DocumentManifest>, String>)
    requires
        probe.wf(),
    ensures
        match r {
            Ok(None) => page_save_outcome(
                new_id@,
                match old_id {
                    None => None,
                    Some(o) => Some(o@),
                },
                title@,
                probe@,
            ) == Ok::<Option<ManifestView>, Seq<char>>(None),
            Ok(Some(m)) => page_save_outcome(
                new_id@,
                match old_id {
                    None => None,
                    Some(o) => Some(o@),
                },
                title@,
                probe@,
            ) matches Ok(Some(v)) && m@ == stamped(v, m@.updated_at),
            Err(e) => page_save_outcome(
                new_id@,
                match old_id {
                    None => None,
                    Some(o) => Some(o@),
                },
                title@,
                probe@,
            ) == Err::<Option<ManifestView>, Seq<char>>(e@),
        },
{
    let now = now_string();
    sync_page_after_save_at(new_id, old_id, title, probe, now.as_str())
}

/// As `sync_page_after_save`, with the current time given: the manifest is stamped with `now`.
pub fn sync_page_after_save_at(
    new_id: &str,
    old_id: Option<&str>,
    title: &str,
    probe: &DocumentProbe,
    now: &str,
) -> (r: Result<Option<DocumentManifest>, String>)
    requires
        probe.wf(),
    ensures
        r matches Ok(Some(m)) ==> m@.updated_at == now@,
        match r {
            Ok(None) => page_save_outcome(
                new_id@,
                match old_id {
                    None => None,
                    Some(o) => Some(o@),
                },
                title@,
                probe@,
            ) == Ok::<Option<ManifestView>, Seq<char>>(None),
            Ok(Some(m)) => page_save_outcome(
                new_id@,
                match old_id {
                    None => None,
                    Some(o) => Some(o@),
                },
                title@,
                probe@,
            ) matches Ok(Some(v)) && m@ == stamped(v, m@.updated_at),
            Err(e) => page_save_outcome(
                new_id@,
                match old_id {
                    None => None,
                    Some(o) => Some(o@),
                },
                title@,
                probe@,
            ) == Err::<Option<ManifestView>, Seq<char>>(e@),
        },
{
    let id = chars_of(new_id);
    let (d, new_file) = match file_from_note_id_of(&id) {
        None => {
            return Ok(None);
        },
        Some(p) => p,
    };
    match document_dir_of(&d) {
        Err(e) => {
            return Err(e);
        },
        Ok(_) => {},
    }
    if !probe.is_document {
        return Ok(None);
    }
    let s = match checked_snapshot(&probe.loaded) {
        Err(e) => {
            return Err(e);
        },
        Ok(s) => s,
    };
    let old_file: Option<String> = match old_id {
        None => None,
        Some(o) => {
            let ov = chars_of(o);
            match file_from_note_id_of(&ov) {
                None => None,
                Some((_, f)) => Some(string_of(&f)),
            }
        },
    };
    let mut manifest = copy_manifest(&s.manifest);
    let nf = string_of(&new_file);
    match &old_file {
        None => record_saved_page(&mut manifest, None, nf.as_str(), title),
        Some(f) => record_saved_page(&mut manifest, Some(f.as_str()), nf.as_str(), title),
    }
    manifest.updated_at = now.to_string();
    Ok(Some(manifest))
}

// ---------------------------------------------------------------------------
// Renumbering pages
// ---------------------------------------------------------------------------

pub open spec fn tmp_suffix() -> Seq<char> {
    ".markch-tmp"@
}

/// Each page's file named again from its position and title.
pub open spec fn renumbered(pages: Seq<PageEntry>) -> Seq<PageEntry> {
    Seq::new(
        pages.len(),
        |i: int| PageEntry { file: page_file_name_spec((i + 1) as nat, pages[i].title), title: pages[i].title },
    )
}

/// The position of the first page whose file name is refused, if any.
pub open spec fn first_bad_page(pages: Seq<PageEntry>) -> Option<int> {
    first_where(pages.len() as int, |i: int| page_file_error(pages[i].file) is Some)
}

/// The renames that move each page's file to a temporary name.
pub open spec fn to_temp_renames(pages: Seq<PageEntry>) -> Seq<(Seq<char>, Seq<char>)> {
    Seq::new(pages.len(), |i: int| (pages[i].file, pages[i].file + tmp_suffix()))
}

/// The renames that give the pages their new files: first every file to a
/// temporary name, then every temporary name to the new file, so that no
/// rename overwrites a page that has not moved yet.
pub open spec fn renumber_renames(pages: Seq<PageEntry>) -> Seq<(Seq<char>, Seq<char>)> {
    to_temp_renames(pages) + Seq::new(
        pages.len(),
        |i: int| (pages[i].file + tmp_suffix(), renumbered(pages)[i].file),
    )
}

pub open spec fn rename_views(v: Seq<(String, String)>) -> Seq<(Seq<char>, Seq<char>)> {
    v.map_values(|p: (String, String)| (p.0@, p.1@))
}

/// Names each page's file from its position and title. Gives the renames to
/// carry out, in order. The pages are taken in turn, each file checked before
/// it is moved to its temporary name: at the first refused file name the
/// manifest is left as it was, and the error comes with the renames of the
/// pages before it, which were already due.
pub fn renumber_pages(manifest: &mut DocumentManifest) -> (r: Result<
    Vec<(String, String)>,
    (Vec<(String, String)>, String),
>)
    ensures
        match r {
            Ok(v) => first_bad_page(old(manifest)@.pages) is None && final(manifest)@ == (ManifestView {
                pages: renumbered(old(manifest)@.pages),
                ..old(manifest)@
            }) && rename_views(v@) == renumber_renames(old(manifest)@.pages),
            Err((v, e)) => first_bad_page(old(manifest)@.pages) matches Some(k) && page_file_error(
                old(manifest)@.pages[k].file,
            ) == Some(e@) && rename_views(v@) == to_temp_renames(old(manifest)@.pages.take(k))
                && final(manifest)@ == old(manifest)@,
        },
{
    let ghost es = page_entries(manifest.pages@);
    let n = manifest.pages.len();
    let suffix = ".markch-tmp".to_string();
    let mut first: Vec<(String, String)> = Vec::new();
    let mut second: Vec<(String, String)> = Vec::new();
    let mut next: Vec<DocumentPageManifest> = Vec::new();
    for i in 0..n
        invariant
            n == manifest.pages.len(),
            es == page_entries(manifest.pages@),
            suffix@ == tmp_suffix(),
            forall|j: int| 0 <= j < i ==> page_file_error(#[trigger] es[j].file) is None,
            rename_views(first@) == Seq::new(
                i as nat,
                |j: int| (es[j].file, es[j].file + tmp_suffix()),
            ),
            rename_views(second@) == Seq::new(
                i as nat,
                |j: int| (es[j].file + tmp_suffix(), renumbered(es)[j].file),
            ),
            page_entries(next@) == renumbered(es).take(i as int),
    {
        assert(es[i as int] == manifest.pages@[i as int]@);
        let file = chars_of(manifest.pages[i].file.as_str());
        match page_file_error_of(&file) {
            Some(e) => {
                proof {
                    let p = |j: int| page_file_error(es[j].file) is Some;
                    assert forall|j: int| 0 <= j < i implies !#[trigger] p(j) by {
                        assert(page_file_error(es[j].file) is None);
                    }
                    lemma_first_where_some(n as int, p, i as int);
                    assert(rename_views(first@) =~= to_temp_renames(es.take(i as int)));
                }
                return Err((first, e));
            },
            None => {},
        }
        let tmp = string_of(&concat(&file, &chars_of(suffix.as_str())));
        let title = chars_of(manifest.pages[i].title.as_str());
        let new_file = string_of(&page_file_name_of(i + 1, &title));
        let ghost f0 = first@;
        let ghost s0 = second@;
        let ghost n0 = next@;
        first.push((manifest.pages[i].file.clone(), tmp.clone()));
        second.push((tmp, new_file.clone()));
        next.push(DocumentPageManifest { file: new_file, title: manifest.pages[i].title.clone() });
        assert(rename_views(first@) =~= rename_views(f0).push((first@.last().0@, first@.last().1@)));
        assert(rename_views(second@) =~= rename_views(s0).push((second@.last().0@, second@.last().1@)));
        assert(page_entries(next@) =~= page_entries(n0).push(next@.last()@));
        assert(rename_views(first@) =~= Seq::new(
            (i + 1) as nat,
            |j: int| (es[j].file, es[j].file + tmp_suffix()),
        ));
        assert(rename_views(second@) =~= Seq::new(
            (i + 1) as nat,
            |j: int| (es[j].file + tmp_suffix(), renumbered(es)[j].file),
        ));
        assert(page_entries(next@) =~= renumbered(es).take(i + 1));
    }
    proof {
        let p = |j: int| page_file_error(es[j].file) is Some;
        assert forall|j: int| 0 <= j < n implies !#[trigger] p(j) by {
            assert(page_file_error(es[j].file) is None);
        }
        lemma_first_where_none(n as int, p);
    }
    assert(renumbered(es).take(n as int) =~= renumbered(es));
    let mut all = first;
    for k in 0..second.len()
        invariant
            rename_views(all@) == rename_views(first@) + rename_views(second@).take(k as int),
    {
        let ghost a0 = all@;
        all.push((second[k].0.clone(), second[k].1.clone()));
        assert(rename_views(all@) =~= rename_views(a0).push((second@[k as int].0@, second@[k as int].1@)));
        assert(rename_views(second@).take(k + 1) =~= rename_views(second@).take(k as int).push((second@[k as int].0@, second@[k as int].1@)));
    }
    assert(rename_views(second@).take(second.len() as int) =~= rename_views(second@));
    assert(rename_views(all@) =~= renumber_renames(es));
    manifest.pages = next;
    assert(manifest@ =~= ManifestView { pages: renumbered(es), ..old(manifest)@ });
    Ok(all)
}

// ---------------------------------------------------------------------------
// Laws
// ---------------------------------------------------------------------------

/// A page that the manifest does not list (an obsolete id) is placed by the
/// number of its generated file name: page `n` is at position `n - 1`.
pub proof fn lemma_page_index_from_number(pages: Seq<PageEntry>, n: nat, title: Seq<char>)
    requires
        1 <= n <= usize::MAX,
        page_position(pages, page_file_name_spec(n, title)) is None,
    ensures
        page_index_guess(pages, page_file_name_spec(n, title)) == n - 1,
{
    let f = page_file_name_spec(n, title);
    crate::paths::lemma_page_file_name_number(n, title);
    crate::decimal::lemma_parse_decimal3(n);
}

/// The first position, when there is one, is where `p` first holds.
pub proof fn lemma_first_where_in_range(n: int, p: spec_fn(int) -> bool)
    requires
        first_where(n, p) is Some,
    ensures
        is_first(n, p, first_where(n, p)->0),
{
}

/// After a page is saved, the manifest lists it under its new file and
/// title, in the place of the entry it replaced or at the end; every other
/// entry stays where it was.
pub proof fn lemma_saved_page_listed(
    pages: Seq<PageEntry>,
    old_file: Option<Seq<char>>,
    new_file: Seq<char>,
    title: Seq<char>,
)
    ensures
        ({
            let r = saved_pages(pages, old_file, new_file, title);
            exists|k: int|
                0 <= k < r.len() && r[k] == PageEntry { file: new_file, title } && (forall|j: int|
                    0 <= j < pages.len() && j != k ==> #[trigger] r[j] == pages[j]) && pages.len()
                    <= r.len() <= pages.len() + 1
        }),
{
    let p = |i: int| pages[i].file == new_file || old_file == Some(pages[i].file);
    let r = saved_pages(pages, old_file, new_file, title);
    match first_where(pages.len() as int, p) {
        Some(i) => {
            lemma_first_where_in_range(pages.len() as int, p);
            assert(r[i] == PageEntry { file: new_file, title });
        },
        None => {
            assert(r[pages.len() as int] == PageEntry { file: new_file, title });
        },
    }
}

/// Where `p` holds somewhere below `n`, there is a first such position.
proof fn lemma_some_first(n: int, p: spec_fn(int) -> bool, j: int)
    requires
        0 <= j < n,
        p(j),
    ensures
        exists|i: int| is_first(n, p, i),
    decreases j,
{
    if forall|i: int| 0 <= i < j ==> !#[trigger] p(i) {
        assert(is_first(n, p, j));
    } else {
        let i = choose|i: int| 0 <= i < j && #[trigger] p(i);
        lemma_some_first(n, p, i);
    }
}

/// Saving a page updates in place the first entry that lists its new file or
/// its old file, and appends an entry only when no entry lists either; so
/// saving under a file the manifest already lists keeps the number of pages.
pub proof fn lemma_saved_page_replaces_first_match(
    pages: Seq<PageEntry>,
    old_file: Option<Seq<char>>,
    new_file: Seq<char>,
    title: Seq<char>,
    k: int,
)
    ensures
        0 <= k < pages.len() && (pages[k].file == new_file || old_file == Some(pages[k].file)) && (
        forall|j: int|
            0 <= j < k ==> !(#[trigger] pages[j].file == new_file || old_file == Some(pages[j].file)))
            ==> saved_pages(pages, old_file, new_file, title) == pages.update(
            k,
            PageEntry { file: new_file, title },
        ),
        (forall|j: int|
            0 <= j < pages.len() ==> !(#[trigger] pages[j].file == new_file || old_file == Some(
                pages[j].file,
            ))) ==> saved_pages(pages, old_file, new_file, title) == pages.push(
            PageEntry { file: new_file, title },
        ),
        (exists|j: int| 0 <= j < pages.len() && #[trigger] pages[j].file == new_file) ==> saved_pages(
            pages,
            old_file,
            new_file,
            title,
        ).len() == pages.len(),
{
    let p = |i: int| pages[i].file == new_file || old_file == Some(pages[i].file);
    if 0 <= k < pages.len() && (pages[k].file == new_file || old_file == Some(pages[k].file)) && (
    forall|j: int|
        0 <= j < k ==> !(#[trigger] pages[j].file == new_file || old_file == Some(pages[j].file))) {
        assert forall|j: int| 0 <= j < k implies !#[trigger] p(j) by {
            assert(!(pages[j].file == new_file || old_file == Some(pages[j].file)));
        }
        lemma_first_where_some(pages.len() as int, p, k);
    }
    if forall|j: int|
        0 <= j < pages.len() ==> !(#[trigger] pages[j].file == new_file || old_file == Some(
            pages[j].file,
        )) {
        assert forall|j: int| 0 <= j < pages.len() implies !#[trigger] p(j) by {
            assert(!(pages[j].file == new_file || old_file == Some(pages[j].file)));
        }
        lemma_first_where_none(pages.len() as int, p);
    }
    if exists|j: int| 0 <= j < pages.len() && #[trigger] pages[j].file == new_file {
        let j = choose|j: int| 0 <= j < pages.len() && #[trigger] pages[j].file == new_file;
        assert(p(j));
        if first_where(pages.len() as int, p) is None {
            assert(exists|i: int| is_first(pages.len() as int, p, i)) by {
                lemma_some_first(pages.len() as int, p, j);
            }
        }
    }
}

/// A number below a thousand is written with exactly three digits once padded.
proof fn lemma_decimal3_three(n: nat)
    requires
        n <= 999,
    ensures
        crate::decimal::decimal3(n).len() == 3,
{
    crate::decimal::lemma_decimal_len(n);
    if n >= 10 {
        crate::decimal::lemma_decimal_len(n / 10);
        assert(decimal(n).len() == decimal(n / 10).len() + 1);
        if n / 10 >= 10 {
            assert(decimal(n / 10).len() == decimal(n / 10 / 10).len() + 1);
            crate::decimal::lemma_decimal_len(n / 10 / 10);
        }
    }
}

/// A page keeps its number when renamed on save: for a file that starts with
/// a page number below a thousand, zero-padded to three digits, and then `-`,
/// the number part is those three digits, whatever follows the `-` (more
/// `-` characters included).
pub proof fn lemma_page_prefix_keeps_number(n: nat, rest: Seq<char>)
    requires
        n <= 999,
    ensures
        page_prefix(crate::decimal::decimal3(n) + seq!['-'] + rest) == crate::decimal::decimal3(n),
{
    let d3 = crate::decimal::decimal3(n);
    let file = d3 + seq!['-'] + rest;
    lemma_decimal3_three(n);
    crate::decimal::lemma_decimal3_value(n);
    assert forall|j: int| 0 <= j < 3 implies crate::text::in_class(
        crate::text::CharClass::IsNot('-'),
        #[trigger] file[j],
    ) by {
        assert(file[j] == d3[j]);
        assert(crate::text::ascii_digit(d3[j]));
    }
    assert(file[3] == '-');
    crate::text::lemma_lead_unique(file, crate::text::CharClass::IsNot('-'), 3);
    assert(file.take(3) =~= d3);
}

/// The number part kept for a renamed page is always three ASCII digits: the
/// first three characters of the file when they are digits followed by `-`,
/// and `001` for any other file.
pub proof fn lemma_page_prefix_shape(file: Seq<char>)
    ensures
        page_prefix(file).len() == 3,
        all_digits(page_prefix(file)),
        file.len() > 3 && file[3] == '-' && all_digits(file.take(3)) ==> page_prefix(file)
            == file.take(3),
        !(file.len() > 3 && file[3] == '-' && all_digits(file.take(3))) ==> page_prefix(file)
            == seq!['0', '0', '1'],
{
    lemma_find(file, '-');
    if file.len() > 3 && file[3] == '-' && all_digits(file.take(3)) {
        assert forall|j: int| 0 <= j < 3 implies crate::text::in_class(
            crate::text::CharClass::IsNot('-'),
            #[trigger] file[j],
        ) by {
            assert(file[j] == file.take(3)[j]);
            assert(crate::text::ascii_digit(file.take(3)[j]));
        }
        crate::text::lemma_lead_unique(file, crate::text::CharClass::IsNot('-'), 3);
    }
    let one = seq!['0', '0', '1'];
    assert(all_digits(one)) by {
        assert forall|i: int| 0 <= i < 3 implies crate::text::ascii_digit(#[trigger] one[i]) by {}
    }
}

/// Saving the page `<document>/<NNN>-<anything>` of a document under a title
/// gives it the id `<document>/<NNN>-<sanitized title>`: the page number is
/// kept, whatever characters the old name holds after its first `-`.
pub proof fn lemma_desired_page_id_keeps_number(
    document_path: Seq<char>,
    n: nat,
    rest: Seq<char>,
    title: Seq<char>,
)
    requires
        n <= 999,
        !rest.contains('/'),
        document_dir_spec(document_path) is Ok,
    ensures
        desired_page_id(
            document_path + seq!['/'] + crate::decimal::decimal3(n) + seq!['-'] + rest,
            title,
            true,
        ) == Ok::<Option<Seq<char>>, Seq<char>>(
            Some(
                page_id_spec(
                    document_path,
                    crate::decimal::decimal3(n) + seq!['-'] + sanitized(title) + md_ext(),
                ),
            ),
        ),
{
    let d3 = crate::decimal::decimal3(n);
    let name = d3 + seq!['-'] + rest;
    let id = document_path + seq!['/'] + name;
    assert(id =~= document_path + seq!['/'] + d3 + seq!['-'] + rest);
    lemma_decimal3_three(n);
    crate::decimal::lemma_decimal3_value(n);
    let k = name.len() as int;
    assert forall|j: int| id.len() - k <= j < id.len() implies crate::text::in_class(
        crate::text::CharClass::IsNot('/'),
        #[trigger] id[j],
    ) by {
        assert(id[j] == name[j - document_path.len() - 1]);
        if j - document_path.len() - 1 < 3 {
            assert(crate::text::ascii_digit(d3[j - document_path.len() - 1]));
        } else if j - document_path.len() - 1 > 3 {
            assert(name[j - document_path.len() - 1] == rest[j - document_path.len() - 5]);
        }
    }
    assert(id[id.len() - k - 1] == '/');
    crate::text::lemma_trail_unique(id, crate::text::CharClass::IsNot('/'), k);
    assert(id.take(document_path.len() as int) =~= document_path);
    assert(id.skip(document_path.len() + 1int) =~= name);
    lemma_page_prefix_keeps_number(n, rest + md_ext());
    assert(name + md_ext() =~= d3 + seq!['-'] + (rest + md_ext()));
}

} // verus!
