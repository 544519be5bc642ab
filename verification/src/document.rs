//! Reading documents: what a document folder holds, and what the reads give.
//!
//! The file system is read by the caller; these functions take what was
//! read — whether the folder holds a manifest, the parsed manifest or the
//! error of reading it, and each page's content and modification time — and
//! decide what the operation returns.
use vstd::prelude::*;
use crate::text::{chars_of, string_of, concat};
use crate::split::{join, join_of, views};
use crate::markdown::{word_count, count_words_chars};
use crate::paginate::{trimmed_nonempty, paragraph_sep, join_markdown_pages_for_normalize};
use crate::paths::{
    document_dir_spec, document_dir_of, normalized, normalize_chars, page_file_error,
    page_file_error_of, page_id_spec, page_id_of, note_parts, file_from_note_id_of,
};
use crate::model::{
    DocumentManifest, ManifestView, PageEntry, DocumentPage, PageView, page_views, DocumentDetail,
    DetailView, DOCUMENT_TYPE,
};

verus! {

/// What was read of one page file: its content, or the error of reading it,
/// and its modification time in seconds since the epoch (0 when unknown).
pub struct PageSource {
    pub content: Result<String, String>,
    pub modified: i64,
}

pub struct SourceView {
    pub content: Result<Seq<char>, Seq<char>>,
    pub modified: i64,
}

impl View for PageSource {
    type V = SourceView;

    open spec fn view(&self) -> SourceView {
        SourceView {
            content: match self.content {
                Ok(c) => Ok(c@),
                Err(e) => Err(e@),
            },
            modified: self.modified,
        }
    }
}

/// A document's manifest as parsed, and what was read of each page it lists,
/// in the same order.
pub struct DocumentSnapshot {
    pub manifest: DocumentManifest,
    pub pages: Vec<PageSource>,
}

pub struct SnapshotView {
    pub manifest: ManifestView,
    pub pages: Seq<SourceView>,
}

impl View for DocumentSnapshot {
    type V = SnapshotView;

    open spec fn view(&self) -> SnapshotView {
        SnapshotView {
            manifest: self.manifest@,
            pages: self.pages@.map_values(|p: PageSource| p@),
        }
    }
}

impl DocumentSnapshot {
    /// One page source per manifest page.
    pub open spec fn wf(&self) -> bool {
        self.pages.len() == self.manifest.pages.len()
    }
}

/// What was found in a document folder: whether it holds a manifest file, and
/// the manifest with its pages, or the error of reading or parsing it.
pub struct DocumentProbe {
    pub is_document: bool,
    pub loaded: Result<DocumentSnapshot, String>,
}

pub struct ProbeView {
    pub is_document: bool,
    pub loaded: Result<SnapshotView, Seq<char>>,
}

pub open spec fn loaded_view(l: Result<DocumentSnapshot, String>) -> Result<SnapshotView, Seq<char>> {
    match l {
        Ok(s) => Ok(s@),
        Err(e) => Err(e@),
    }
}

impl View for DocumentProbe {
    type V = ProbeView;

    open spec fn view(&self) -> ProbeView {
        ProbeView { is_document: self.is_document, loaded: loaded_view(self.loaded) }
    }
}

impl DocumentProbe {
    pub open spec fn wf(&self) -> bool {
        self.loaded matches Ok(s) ==> s.wf()
    }
}

pub open spec fn loaded_wf(l: &Result<DocumentSnapshot, String>) -> bool {
    l matches Ok(s) ==> s.wf()
}

// ---------------------------------------------------------------------------
// Manifests
// ---------------------------------------------------------------------------

pub open spec fn msg_unsupported_manifest() -> Seq<char> {
    "Unsupported Markch document manifest"@
}

pub open spec fn msg_document_not_found() -> Seq<char> {
    "Document not found"@
}

/// Why a parsed manifest is refused: only version 1 of the Markch document
/// type is read.
pub open spec fn manifest_error(m: ManifestView) -> Option<Seq<char>> {
    if m.document_type != DOCUMENT_TYPE@ || m.version != 1 {
        Some(msg_unsupported_manifest())
    } else {
        None
    }
}

/// Checks a parsed manifest's type and version.
pub fn check_manifest(manifest: &DocumentManifest) -> (r: Result<(), String>)
    ensures
        match r {
            Ok(()) => manifest_error(manifest@) is None,
            Err(e) => manifest_error(manifest@) == Some(e@),
        },
{
    let expected = DOCUMENT_TYPE.to_string();
    if manifest.document_type != expected || manifest.version != 1 {
        return Err("Unsupported Markch document manifest".to_string());
    }
    Ok(())
}

/// The snapshot of a readable manifest that passes the check.
pub open spec fn checked(loaded: Result<SnapshotView, Seq<char>>) -> Result<SnapshotView, Seq<char>> {
    match loaded {
        Err(e) => Err(e),
        Ok(s) => match manifest_error(s.manifest) {
            Some(e) => Err(e),
            None => Ok(s),
        },
    }
}

pub fn checked_snapshot(loaded: &Result<DocumentSnapshot, String>) -> (r: Result<
    &DocumentSnapshot,
    String,
>)
    ensures
        match r {
            Ok(s) => checked(loaded_view(*loaded)) == Ok::<SnapshotView, Seq<char>>(s@) && loaded
                == Ok::<DocumentSnapshot, String>(*s),
            Err(e) => checked(loaded_view(*loaded)) == Err::<SnapshotView, Seq<char>>(e@),
        },
{
    match loaded {
        Err(e) => Err(e.clone()),
        Ok(s) => match check_manifest(&s.manifest) {
            Err(e) => Err(e),
            Ok(()) => Ok(s),
        },
    }
}

// ---------------------------------------------------------------------------
// Reading pages
// ---------------------------------------------------------------------------

/// The error of the first page whose file name is refused, if any.
pub open spec fn pages_error(pages: Seq<PageEntry>) -> Option<Seq<char>>
    decreases pages.len(),
{
    if pages.len() == 0 {
        None
    } else {
        match pages_error(pages.drop_last()) {
            Some(e) => Some(e),
            None => page_file_error(pages.last().file),
        }
    }
}

/// The content of a page, or nothing when it could not be read.
pub open spec fn content_or_empty(c: Result<Seq<char>, Seq<char>>) -> Seq<char> {
    match c {
        Ok(t) => t,
        Err(_) => seq![],
    }
}

/// Page `i` of a document as it is read.
pub open spec fn page_view(
    document_path: Seq<char>,
    s: SnapshotView,
    i: int,
    word_limit: int,
) -> PageView {
    let e = s.manifest.pages[i];
    let words = word_count(content_or_empty(s.pages[i].content));
    PageView {
        id: page_id_spec(document_path, e.file),
        file: e.file,
        title: e.title,
        modified: s.pages[i].modified,
        index: (i + 1) as usize,
        word_count: words as usize,
        overflow: words > word_limit,
    }
}

/// What `read_document` gives for a path and what was read of its folder.
pub open spec fn document_detail(
    document_path: Seq<char>,
    loaded: Result<SnapshotView, Seq<char>>,
    word_limit: int,
) -> Result<DetailView, Seq<char>> {
    match document_dir_spec(document_path) {
        Err(e) => Err(e),
        Ok(_) => match checked(loaded) {
            Err(e) => Err(e),
            Ok(s) => match pages_error(s.manifest.pages) {
                Some(e) => Err(e),
                None => Ok(
                    DetailView {
                        path: normalized(document_path),
                        title: s.manifest.title,
                        pages: Seq::new(
                            s.manifest.pages.len(),
                            |i: int| page_view(document_path, s, i, word_limit),
                        ),
                    },
                ),
            },
        },
    }
}

fn page_content_chars(src: &PageSource) -> (r: Vec<char>)
    ensures
        r@ == content_or_empty(src@.content),
{
    match &src.content {
        Ok(c) => chars_of(c.as_str()),
        Err(_) => Vec::new(),
    }
}

/// The pages of a checked snapshot, or the error of the first invalid page file.
fn read_pages(document_path: &Vec<char>, s: &DocumentSnapshot, word_limit: usize) -> (r: Result<
    Vec<DocumentPage>,
    String,
>)
    requires
        s.wf(),
    ensures
        match r {
            Ok(p) => pages_error(s@.manifest.pages) is None && page_views(p@) == Seq::new(
                s@.manifest.pages.len(),
                |i: int| page_view(document_path@, s@, i, word_limit as int),
            ),
            Err(e) => pages_error(s@.manifest.pages) == Some(e@),
        },
{
    let ghost sv = s@;
    let mut pages: Vec<DocumentPage> = Vec::new();
    for i in 0..s.manifest.pages.len()
        invariant
            s.wf(),
            sv == s@,
            pages_error(sv.manifest.pages.take(i as int)) is None,
            page_views(pages@) == Seq::new(
                i as nat,
                |j: int| page_view(document_path@, sv, j, word_limit as int),
            ),
    {
        let entry = &s.manifest.pages[i];
        proof {
            assert(sv.manifest.pages.take(i + 1).drop_last() =~= sv.manifest.pages.take(i as int));
            assert(sv.manifest.pages.take(i + 1).last() == entry@);
        }
        let file = chars_of(entry.file.as_str());
        match page_file_error_of(&file) {
            Some(e) => {
                proof {
                    lemma_pages_error_prefix(sv.manifest.pages, i + 1);
                }
                return Err(e);
            },
            None => {},
        }
        let text = page_content_chars(&s.pages[i]);
        let words = count_words_chars(&text);
        let id = page_id_of(document_path, &file);
        let ghost old_p = pages@;
        pages.push(
            DocumentPage {
                id: string_of(&id),
                file: entry.file.clone(),
                title: entry.title.clone(),
                modified: s.pages[i].modified,
                index: i + 1,
                word_count: words,
                overflow: words > word_limit,
            },
        );
        assert(page_views(pages@) =~= Seq::new(
            (i + 1) as nat,
            |j: int| page_view(document_path@, sv, j, word_limit as int),
        )) by {
            assert(page_views(pages@) =~= page_views(old_p).push(pages@.last()@));
        }
    }
    assert(sv.manifest.pages.take(s.manifest.pages.len() as int) =~= sv.manifest.pages);
    Ok(pages)
}

/// Once a prefix has an error, every longer prefix has the same one.
pub proof fn lemma_pages_error_prefix(pages: Seq<PageEntry>, n: int)
    requires
        0 <= n <= pages.len(),
        pages_error(pages.take(n)) is Some,
    ensures
        pages_error(pages) == pages_error(pages.take(n)),
    decreases pages.len() - n,
{
    if n < pages.len() {
        assert(pages.take(n + 1).drop_last() =~= pages.take(n));
        lemma_pages_error_prefix(pages, n + 1);
    } else {
        assert(pages.take(n) =~= pages);
    }
}

/// Reads a document: its normalized path, its title, and its pages in
/// manifest order, each with its id, position, word count and overflow.
pub fn read_document(
    document_path: &str,
    loaded: &Result<DocumentSnapshot, String>,
    word_limit: usize,
) -> (r: Result<DocumentDetail, String>)
    requires
        loaded_wf(loaded),
    ensures
        match r {
            Ok(d) => document_detail(document_path@, loaded_view(*loaded), word_limit as int)
                == Ok::<DetailView, Seq<char>>(d@),
            Err(e) => document_detail(document_path@, loaded_view(*loaded), word_limit as int)
                == Err::<DetailView, Seq<char>>(e@),
        },
{
    let path = chars_of(document_path);
    match document_dir_of(&path) {
        Err(e) => {
            return Err(e);
        },
        Ok(_) => {},
    }
    let s = match checked_snapshot(loaded) {
        Err(e) => {
            return Err(e);
        },
        Ok(s) => s,
    };
    let pages = match read_pages(&path, s, word_limit) {
        Err(e) => {
            return Err(e);
        },
        Ok(p) => p,
    };
    let r = DocumentDetail {
        path: string_of(&normalize_chars(&path)),
        title: s.manifest.title.clone(),
        pages,
    };
    assert(r@ =~= document_detail(document_path@, loaded_view(*loaded), word_limit as int)->Ok_0);
    Ok(r)
}

// ---------------------------------------------------------------------------
// Reading markdown
// ---------------------------------------------------------------------------

/// The contents of the first `n` pages, in order, or the first error met:
/// a refused page file name or a page that could not be read.
pub open spec fn texts_upto(s: SnapshotView, n: nat) -> Result<Seq<Seq<char>>, Seq<char>>
    decreases n,
{
    if n == 0 {
        Ok(seq![])
    } else {
        match texts_upto(s, (n - 1) as nat) {
            Err(e) => Err(e),
            Ok(v) => match page_file_error(s.manifest.pages[n - 1].file) {
                Some(e) => Err(e),
                None => match s.pages[n - 1].content {
                    Err(e) => Err(e),
                    Ok(c) => Ok(v.push(c)),
                },
            },
        }
    }
}

/// The contents of a document's pages in manifest order, as the markdown
/// reads take them: the path must name a document folder holding a valid
/// manifest, and every page must be valid and readable.
pub open spec fn document_texts(document_path: Seq<char>, probe: ProbeView) -> Result<
    Seq<Seq<char>>,
    Seq<char>,
> {
    match document_dir_spec(document_path) {
        Err(e) => Err(e),
        Ok(_) => if !probe.is_document {
            Err(msg_document_not_found())
        } else {
            match checked(probe.loaded) {
                Err(e) => Err(e),
                Ok(s) => texts_upto(s, s.manifest.pages.len()),
            }
        },
    }
}

proof fn lemma_texts_error_stays(s: SnapshotView, n: nat, m: nat)
    requires
        n <= m,
        texts_upto(s, n) is Err,
    ensures
        texts_upto(s, m) == texts_upto(s, n),
    decreases m - n,
{
    if n < m {
        lemma_texts_error_stays(s, n, (m - 1) as nat);
    }
}

fn page_texts(s: &DocumentSnapshot) -> (r: Result<Vec<Vec<char>>, String>)
    requires
        s.wf(),
    ensures
        match r {
            Ok(v) => texts_upto(s@, s@.manifest.pages.len()) == Ok::<Seq<Seq<char>>, Seq<char>>(
                views(v@),
            ),
            Err(e) => texts_upto(s@, s@.manifest.pages.len()) == Err::<Seq<Seq<char>>, Seq<char>>(
                e@,
            ),
        },
{
    let ghost sv = s@;
    let mut out: Vec<Vec<char>> = Vec::new();
    assert(views(out@) =~= Seq::<Seq<char>>::empty());
    for i in 0..s.manifest.pages.len()
        invariant
            s.wf(),
            sv == s@,
            texts_upto(sv, i as nat) == Ok::<Seq<Seq<char>>, Seq<char>>(views(out@)),
    {
        let file = chars_of(s.manifest.pages[i].file.as_str());
        match page_file_error_of(&file) {
            Some(e) => {
                proof {
                    lemma_texts_error_stays(sv, (i + 1) as nat, sv.manifest.pages.len());
                }
                return Err(e);
            },
            None => {},
        }
        match &s.pages[i].content {
            Err(e) => {
                proof {
                    lemma_texts_error_stays(sv, (i + 1) as nat, sv.manifest.pages.len());
                }
                return Err(e.clone());
            },
            Ok(c) => {
                let ghost old_o = out@;
                out.push(chars_of(c.as_str()));
                assert(views(out@) =~= views(old_o).push(c@));
            },
        }
    }
    Ok(out)
}

fn document_texts_of(document_path: &str, probe: &DocumentProbe) -> (r: Result<
    Vec<Vec<char>>,
    String,
>)
    requires
        probe.wf(),
    ensures
        match r {
            Ok(v) => document_texts(document_path@, probe@) == Ok::<Seq<Seq<char>>, Seq<char>>(
                views(v@),
            ),
            Err(e) => document_texts(document_path@, probe@) == Err::<Seq<Seq<char>>, Seq<char>>(
                e@,
            ),
        },
{
    let path = chars_of(document_path);
    match document_dir_of(&path) {
        Err(e) => {
            return Err(e);
        },
        Ok(_) => {},
    }
    if !probe.is_document {
        return Err("Document not found".to_string());
    }
    let s = match checked_snapshot(&probe.loaded) {
        Err(e) => {
            return Err(e);
        },
        Ok(s) => s,
    };
    page_texts(s)
}

/// The markdown of a whole document: its pages' contents, in order, one after
/// the other.
pub fn read_document_markdown(document_path: &str, probe: &DocumentProbe) -> (r: Result<
    String,
    String,
>)
    requires
        probe.wf(),
    ensures
        match r {
            Ok(m) => document_texts(document_path@, probe@) matches Ok(t) && m@ == join(
                t,
                seq![],
            ),
            Err(e) => document_texts(document_path@, probe@) == Err::<Seq<Seq<char>>, Seq<char>>(
                e@,
            ),
        },
{
    match document_texts_of(document_path, probe) {
        Err(e) => Err(e),
        Ok(texts) => {
            let empty: Vec<char> = Vec::new();
            assert(empty@ =~= seq![]);
            Ok(string_of(&join_of(&texts, &empty)))
        },
    }
}

/// The markdown of a document for editing: pages trimmed, empty pages left
/// out, and a blank line between pages.
pub fn read_document_edit_markdown(document_path: &str, probe: &DocumentProbe) -> (r: Result<
    String,
    String,
>)
    requires
        probe.wf(),
    ensures
        match r {
            Ok(m) => document_texts(document_path@, probe@) matches Ok(t) && m@ == join(
                trimmed_nonempty(t),
                paragraph_sep(),
            ),
            Err(e) => document_texts(document_path@, probe@) == Err::<Seq<Seq<char>>, Seq<char>>(
                e@,
            ),
        },
{
    match document_texts_of(document_path, probe) {
        Err(e) => Err(e),
        Ok(texts) => {
            let mut pages: Vec<String> = Vec::new();
            for i in 0..texts.len()
                invariant
                    pages@.map_values(|p: String| p@) == views(texts@).take(i as int),
            {
                let ghost old_p = pages@;
                pages.push(string_of(&texts[i]));
                assert(pages@.map_values(|p: String| p@) =~= old_p.map_values(|p: String| p@).push(
                    texts@[i as int]@,
                ));
                assert(views(texts@).take(i + 1) =~= views(texts@).take(i as int).push(
                    texts@[i as int]@,
                ));
            }
            assert(views(texts@).take(texts.len() as int) =~= views(texts@));
            Ok(join_markdown_pages_for_normalize(&pages))
        },
    }
}

// ---------------------------------------------------------------------------
// Reading from a note id
// ---------------------------------------------------------------------------

/// What `read_document_for_note` gives: no document when the id names no
/// page of a document folder; otherwise the page file must be valid and the
/// document is read.
pub open spec fn document_for_note(note_id: Seq<char>, probe: ProbeView, word_limit: int) -> Result<
    Option<DetailView>,
    Seq<char>,
> {
    match note_parts(note_id) {
        None => Ok(None),
        Some((d, f)) => match document_dir_spec(d) {
            Err(e) => Err(e),
            Ok(_) => if !probe.is_document {
                Ok(None)
            } else {
                match page_file_error(f) {
                    Some(e) => Err(e),
                    None => match document_detail(d, probe.loaded, word_limit) {
                        Err(e) => Err(e),
                        Ok(det) => Ok(Some(det)),
                    },
                }
            },
        },
    }
}

/// Reads the document that a note id belongs to, if it belongs to one.
/// `probe` is what was found in the folder of the id's document path.
pub fn read_document_for_note(note_id: &str, probe: &DocumentProbe, word_limit: usize) -> (r:
    Result<Option<DocumentDetail>, String>)
    requires
        probe.wf(),
    ensures
        match r {
            Ok(None) => document_for_note(note_id@, probe@, word_limit as int) == Ok::<
                Option<DetailView>,
                Seq<char>,
            >(None),
            Ok(Some(d)) => document_for_note(note_id@, probe@, word_limit as int) == Ok::<
                Option<DetailView>,
                Seq<char>,
            >(Some(d@)),
            Err(e) => document_for_note(note_id@, probe@, word_limit as int) == Err::<
                Option<DetailView>,
                Seq<char>,
            >(e@),
        },
{
    let id = chars_of(note_id);
    let (doc, file) = match file_from_note_id_of(&id) {
        None => {
            return Ok(None);
        },
        Some(p) => p,
    };
    match document_dir_of(&doc) {
        Err(e) => {
            return Err(e);
        },
        Ok(_) => {},
    }
    if !probe.is_document {
        return Ok(None);
    }
    match page_file_error_of(&file) {
        Some(e) => {
            return Err(e);
        },
        None => {},
    }
    let doc_str = string_of(&doc);
    match read_document(doc_str.as_str(), &probe.loaded, word_limit) {
        Err(e) => Err(e),
        Ok(d) => Ok(Some(d)),
    }
}

} // verus!
