//! Writing a document's markdown back as pages: saving edited markdown, and
//! normalizing a document so that each page holds about the word limit.
//!
//! Writing happens in two steps. The plan paginates the markdown and names
//! the new page files. The decision, once the caller has looked up which of
//! those files exist, refuses to overwrite a file that is no page of the
//! document, and tells whether anything changes at all.
use vstd::prelude::*;
use crate::text::{chars_of, string_of, concat, chars_eq};
use crate::split::{join, join_of, views};
use crate::paths::{
    document_dir_spec, document_dir_of, page_file_name_spec, page_file_name_of, note_parts,
    file_from_note_id_of,
};
use crate::paginate::{PageDraft, DraftView, draft_views, paginated, paginate_markdown, trimmed_nonempty, paragraph_sep};
use crate::model::{
    DocumentManifest, ManifestView, DocumentPageManifest, PageEntry, page_entries, copy_pages,
};
use crate::document::{
    DocumentSnapshot, DocumentProbe, ProbeView, SnapshotView, SourceView, checked,
    checked_snapshot, loaded_view, loaded_wf, pages_error, document_texts,
    read_document_edit_markdown,
};
use crate::edits::{page_index_guess, page_index_for_file, stamped, copy_manifest};
use crate::clock::now_string;

verus! {

/// The pages that a markdown text is to be written as.
pub struct PaginatedWrite {
    pub word_limit: usize,
    pub old_files: Vec<String>,
    pub drafts: Vec<PageDraft>,
    pub next_pages: Vec<DocumentPageManifest>,
}

pub struct WriteView {
    pub word_limit: usize,
    pub old_files: Seq<Seq<char>>,
    pub drafts: Seq<DraftView>,
    pub next_pages: Seq<PageEntry>,
}

pub open spec fn string_views(v: Seq<String>) -> Seq<Seq<char>> {
    v.map_values(|s: String| s@)
}

impl View for PaginatedWrite {
    type V = WriteView;

    open spec fn view(&self) -> WriteView {
        WriteView {
            word_limit: self.word_limit,
            old_files: string_views(self.old_files@),
            drafts: draft_views(self.drafts@),
            next_pages: page_entries(self.next_pages@),
        }
    }
}

/// The word limit held between 250 and 2000.
pub open spec fn clamp_limit(w: usize) -> usize {
    if w < 250 {
        250
    } else if w > 2000 {
        2000
    } else {
        w
    }
}

/// The manifest entries for page drafts: files numbered from 1 and named
/// from the titles.
pub open spec fn pages_for_drafts(drafts: Seq<DraftView>) -> Seq<PageEntry> {
    Seq::new(
        drafts.len(),
        |i: int| PageEntry { file: page_file_name_spec((i + 1) as nat, drafts[i].title), title: drafts[i].title },
    )
}

pub open spec fn page_files(pages: Seq<PageEntry>) -> Seq<Seq<char>> {
    pages.map_values(|p: PageEntry| p.file)
}

/// The plan for writing markdown to a document: the path must be valid, the
/// manifest readable and valid, and its page files valid.
pub open spec fn write_plan(
    document_path: Seq<char>,
    loaded: Result<SnapshotView, Seq<char>>,
    markdown: Seq<char>,
    word_limit: usize,
) -> Result<WriteView, Seq<char>> {
    match document_dir_spec(document_path) {
        Err(e) => Err(e),
        Ok(_) => match checked(loaded) {
            Err(e) => Err(e),
            Ok(s) => match pages_error(s.manifest.pages) {
                Some(e) => Err(e),
                None => {
                    let limit = clamp_limit(word_limit);
                    let drafts = paginated(markdown, limit as int);
                    Ok(
                        WriteView {
                            word_limit: limit,
                            old_files: page_files(s.manifest.pages),
                            drafts,
                            next_pages: pages_for_drafts(drafts),
                        },
                    )
                },
            },
        },
    }
}

fn draft_title_copy(d: &PageDraft) -> (r: String)
    ensures
        r@ == d.title@,
{
    d.title.clone()
}

/// Plans writing markdown to a document: its pages, their files and titles.
pub fn paginated_write_plan(
    document_path: &str,
    loaded: &Result<DocumentSnapshot, String>,
    markdown: &str,
    word_limit: usize,
) -> (r: Result<PaginatedWrite, String>)
    requires
        loaded_wf(loaded),
    ensures
        match r {
            Ok(w) => write_plan(document_path@, loaded_view(*loaded), markdown@, word_limit) == Ok::<
                WriteView,
                Seq<char>,
            >(w@),
            Err(e) => write_plan(document_path@, loaded_view(*loaded), markdown@, word_limit)
                == Err::<WriteView, Seq<char>>(e@),
        },
{
    let limit: usize = if word_limit < 250 {
        250
    } else if word_limit > 2000 {
        2000
    } else {
        word_limit
    };
    let path = chars_of(document_path);
    match document_dir_of(&path) {
        Err(e) => {
            return Err(e);
        },
        Ok(_) => {},
    }
    let s = match checked_snapshot(loaded) {
        Err(e) => {
            return Err(e);
        },
        Ok(s) => s,
    };
    let ghost es = s@.manifest.pages;
    let mut old_files: Vec<String> = Vec::new();
    for i in 0..s.manifest.pages.len()
        invariant
            es == page_entries(s.manifest.pages@),
            checked(loaded_view(*loaded)) == Ok::<SnapshotView, Seq<char>>(s@),
            document_dir_spec(document_path@) is Ok,
            pages_error(es.take(i as int)) is None,
            string_views(old_files@) == page_files(es.take(i as int)),
    {
        proof {
            assert(es.take(i + 1).drop_last() =~= es.take(i as int));
            assert(es.take(i + 1).last() == s.manifest.pages@[i as int]@);
        }
        let f = chars_of(s.manifest.pages[i].file.as_str());
        match crate::paths::page_file_error_of(&f) {
            Some(e) => {
                proof {
                    crate::document::lemma_pages_error_prefix(es, i + 1);
                }
                return Err(e);
            },
            None => {},
        }
        let ghost o0 = old_files@;
        old_files.push(s.manifest.pages[i].file.clone());
        assert(string_views(old_files@) =~= string_views(o0).push(es[i as int].file));
        assert(page_files(es.take(i + 1)) =~= page_files(es.take(i as int)).push(es[i as int].file));
    }
    assert(es.take(s.manifest.pages.len() as int) =~= es);
    let drafts = paginate_markdown(markdown, limit);
    let ghost dv = draft_views(drafts@);
    let mut next_pages: Vec<DocumentPageManifest> = Vec::new();
    for i in 0..drafts.len()
        invariant
            dv == draft_views(drafts@),
            page_entries(next_pages@) == pages_for_drafts(dv).take(i as int),
    {
        let title = draft_title_copy(&drafts[i]);
        let file = page_file_name_of(i + 1, &chars_of(title.as_str()));
        let ghost n0 = next_pages@;
        let entry = DocumentPageManifest { file: string_of(&file), title };
        next_pages.push(entry);
        assert(page_entries(next_pages@) =~= page_entries(n0).push(entry@));
        assert(pages_for_drafts(dv).take(i + 1) =~= pages_for_drafts(dv).take(i as int).push(entry@));
    }
    assert(pages_for_drafts(dv).take(drafts.len() as int) =~= pages_for_drafts(dv));
    Ok(PaginatedWrite { word_limit: limit, old_files, drafts, next_pages })
}

// ---------------------------------------------------------------------------
// Deciding a write
// ---------------------------------------------------------------------------

/// What a write comes to: nothing to change, or new pages to publish with
/// this manifest.
pub enum WriteDecision {
    Unchanged,
    Publish(DocumentManifest),
}

pub enum DecisionView {
    Unchanged,
    Publish(ManifestView),
}

impl View for WriteDecision {
    type V = DecisionView;

    open spec fn view(&self) -> DecisionView {
        match self {
            WriteDecision::Unchanged => DecisionView::Unchanged,
            WriteDecision::Publish(m) => DecisionView::Publish(m@),
        }
    }
}

pub open spec fn msg_page_file_exists() -> Seq<char> {
    "Document page file already exists: "@
}

/// The first new page file that exists and is no page of the document.
pub open spec fn conflict(plan: WriteView, exists: Seq<bool>) -> Option<int> {
    crate::edits::first_where(
        plan.next_pages.len() as int,
        |i: int| exists[i] && !plan.old_files.contains(plan.next_pages[i].file),
    )
}

/// Whether the page files from position `i` on hold the drafts' contents;
/// an error when one of them cannot be read.
pub open spec fn contents_match_from(s: SnapshotView, drafts: Seq<DraftView>, i: int) -> Result<
    bool,
    Seq<char>,
>
    decreases drafts.len() - i,
{
    if i >= drafts.len() || i < 0 {
        Ok(true)
    } else {
        match crate::paths::page_file_error(s.manifest.pages[i].file) {
            Some(e) => Err(e),
            None => match s.pages[i].content {
                Err(e) => Err(e),
                Ok(c) => if c != drafts[i].content {
                    Ok(false)
                } else {
                    contents_match_from(s, drafts, i + 1)
                },
            },
        }
    }
}

/// Whether a document already holds the planned pages, file for file.
pub open spec fn already_written(s: SnapshotView, plan: WriteView) -> Result<bool, Seq<char>> {
    if s.manifest.pages == plan.next_pages && s.manifest.pages.len() == plan.drafts.len() {
        contents_match_from(s, plan.drafts, 0)
    } else {
        Ok(false)
    }
}

/// The decision on a planned write, given which of the new page files
/// exist: refused when one exists that is no page of the document; nothing to
/// do when the document already holds the pages; otherwise the manifest with
/// the new pages.
pub open spec fn write_decision(s: SnapshotView, plan: WriteView, exists: Seq<bool>) -> Result<
    DecisionView,
    Seq<char>,
> {
    match conflict(plan, exists) {
        Some(i) => Err(msg_page_file_exists() + plan.next_pages[i].file),
        None => match already_written(s, plan) {
            Err(e) => Err(e),
            Ok(true) => Ok(DecisionView::Unchanged),
            Ok(false) => Ok(DecisionView::Publish(ManifestView { pages: plan.next_pages, ..s.manifest })),
        },
    }
}

fn contains_string(v: &Vec<String>, x: &String) -> (r: bool)
    ensures
        r == string_views(v@).contains(x@),
{
    for i in 0..v.len()
        invariant
            forall|j: int| 0 <= j < i ==> v@[j]@ != x@,
    {
        if v[i] == *x {
            assert(string_views(v@)[i as int] == x@);
            return true;
        }
    }
    proof {
        if string_views(v@).contains(x@) {
            let j = choose|j: int| 0 <= j < string_views(v@).len() && string_views(v@)[j] == x@;
            assert(v@[j]@ == x@);
        }
    }
    false
}

fn same_pages(a: &Vec<DocumentPageManifest>, b: &Vec<DocumentPageManifest>) -> (r: bool)
    ensures
        r == (page_entries(a@) == page_entries(b@)),
{
    if a.len() != b.len() {
        assert(page_entries(a@).len() != page_entries(b@).len());
        return false;
    }
    for i in 0..a.len()
        invariant
            a.len() == b.len(),
            forall|j: int| 0 <= j < i ==> a@[j]@ == b@[j]@,
    {
        if !(a[i].file == b[i].file && a[i].title == b[i].title) {
            assert(page_entries(a@)[i as int] != page_entries(b@)[i as int]);
            return false;
        }
    }
    assert(page_entries(a@) =~= page_entries(b@));
    true
}

fn contents_match(s: &DocumentSnapshot, drafts: &Vec<PageDraft>) -> (r: Result<bool, String>)
    requires
        s.wf(),
        s.manifest.pages.len() == drafts.len(),
    ensures
        match r {
            Ok(b) => contents_match_from(s@, draft_views(drafts@), 0) == Ok::<bool, Seq<char>>(b),
            Err(e) => contents_match_from(s@, draft_views(drafts@), 0) == Err::<bool, Seq<char>>(e@),
        },
{
    let ghost sv = s@;
    let ghost dv = draft_views(drafts@);
    let mut i: usize = 0;
    while i < drafts.len()
        invariant
            i <= drafts.len(),
            s.wf(),
            s.manifest.pages.len() == drafts.len(),
            sv == s@,
            dv == draft_views(drafts@),
            contents_match_from(sv, dv, 0) == contents_match_from(sv, dv, i as int),
        decreases drafts.len() - i,
    {
        let f = chars_of(s.manifest.pages[i].file.as_str());
        match crate::paths::page_file_error_of(&f) {
            Some(e) => {
                return Err(e);
            },
            None => {},
        }
        match &s.pages[i].content {
            Err(e) => {
                return Err(e.clone());
            },
            Ok(c) => {
                if !(*c == drafts[i].content) {
                    return Ok(false);
                }
            },
        }
        i += 1;
    }
    Ok(true)
}

/// Decides a planned write. `exists` tells, for each planned page file,
/// whether a file of that name is in the document folder.
/// No new page file exists that is not already a page of the document.
pub open spec fn no_foreign_file(plan: WriteView, exists: Seq<bool>) -> bool {
    forall|j: int|
        0 <= j < plan.next_pages.len() ==> !(#[trigger] exists[j] && !plan.old_files.contains(
            plan.next_pages[j].file,
        ))
}

proof fn lemma_match_means_equal(s: SnapshotView, drafts: Seq<DraftView>, i: int)
    requires
        0 <= i,
        contents_match_from(s, drafts, i) == Ok::<bool, Seq<char>>(true),
    ensures
        forall|j: int|
            i <= j < drafts.len() ==> (#[trigger] s.pages[j]).content == Ok::<Seq<char>, Seq<char>>(
                drafts[j].content,
            ),
    decreases drafts.len() - i,
{
    if i < drafts.len() {
        lemma_match_means_equal(s, drafts, i + 1);
    }
}

proof fn lemma_readable_decides(s: SnapshotView, drafts: Seq<DraftView>, i: int)
    requires
        0 <= i,
        drafts.len() <= s.manifest.pages.len(),
        drafts.len() <= s.pages.len(),
        forall|j: int|
            0 <= j < drafts.len() ==> crate::paths::page_file_error(
                (#[trigger] s.manifest.pages[j]).file,
            ) is None,
        forall|j: int| 0 <= j < drafts.len() ==> (#[trigger] s.pages[j]).content is Ok,
    ensures
        contents_match_from(s, drafts, i) is Ok,
    decreases drafts.len() - i,
{
    if i < drafts.len() {
        lemma_readable_decides(s, drafts, i + 1);
    }
}

proof fn lemma_equal_means_match(s: SnapshotView, drafts: Seq<DraftView>, i: int)
    requires
        0 <= i,
        drafts.len() <= s.manifest.pages.len(),
        drafts.len() <= s.pages.len(),
        forall|j: int|
            0 <= j < drafts.len() ==> crate::paths::page_file_error(
                (#[trigger] s.manifest.pages[j]).file,
            ) is None,
        forall|j: int|
            0 <= j < drafts.len() ==> (#[trigger] s.pages[j]).content == Ok::<Seq<char>, Seq<char>>(
                drafts[j].content,
            ),
    ensures
        contents_match_from(s, drafts, i) == Ok::<bool, Seq<char>>(true),
    decreases drafts.len() - i,
{
    if i < drafts.len() {
        lemma_equal_means_match(s, drafts, i + 1);
    }
}

/// A write is found unnecessary only when the document already lists the
/// planned pages and every page file holds exactly its draft's content. When
/// every page file is valid and readable, no new file collides with a foreign
/// one, and some page file's content differs from its draft, the new pages
/// are published; when every page file already holds its draft under the
/// planned pages, nothing is written.
pub proof fn lemma_unchanged_only_when_written(s: SnapshotView, plan: WriteView, exists: Seq<bool>)
    requires
        s.pages.len() == s.manifest.pages.len(),
    ensures
        write_decision(s, plan, exists) == Ok::<DecisionView, Seq<char>>(DecisionView::Unchanged)
            ==> s.manifest.pages == plan.next_pages && s.pages.len() == plan.drafts.len() && forall|
            i: int,
        |
            0 <= i < plan.drafts.len() ==> (#[trigger] s.pages[i]).content == Ok::<
                Seq<char>,
                Seq<char>,
            >(plan.drafts[i].content),
        no_foreign_file(plan, exists) && (forall|j: int|
            0 <= j < s.manifest.pages.len() ==> crate::paths::page_file_error(
                (#[trigger] s.manifest.pages[j]).file,
            ) is None && s.pages[j].content is Ok) && (exists|i: int|
            0 <= i < plan.drafts.len() && i < s.pages.len() && (#[trigger] s.pages[i]).content
                != Ok::<Seq<char>, Seq<char>>(plan.drafts[i].content)) ==> write_decision(
            s,
            plan,
            exists,
        ) == Ok::<DecisionView, Seq<char>>(
            DecisionView::Publish(ManifestView { pages: plan.next_pages, ..s.manifest }),
        ),
        no_foreign_file(plan, exists) && s.manifest.pages == plan.next_pages && s.pages.len()
            == plan.drafts.len() && (forall|j: int|
            0 <= j < s.manifest.pages.len() ==> crate::paths::page_file_error(
                (#[trigger] s.manifest.pages[j]).file,
            ) is None && s.pages[j].content == Ok::<Seq<char>, Seq<char>>(plan.drafts[j].content))
            ==> write_decision(s, plan, exists) == Ok::<DecisionView, Seq<char>>(
            DecisionView::Unchanged,
        ),
{
    if no_foreign_file(plan, exists) {
        let p = |i: int| exists[i] && !plan.old_files.contains(plan.next_pages[i].file);
        assert forall|i: int| 0 <= i < plan.next_pages.len() implies !#[trigger] p(i) by {
            assert(!(exists[i] && !plan.old_files.contains(plan.next_pages[i].file)));
        }
        crate::edits::lemma_first_where_none(plan.next_pages.len() as int, p);
    }
    if no_foreign_file(plan, exists) && s.manifest.pages == plan.next_pages && s.pages.len()
        == plan.drafts.len() && (forall|j: int|
        0 <= j < s.manifest.pages.len() ==> crate::paths::page_file_error(
            (#[trigger] s.manifest.pages[j]).file,
        ) is None && s.pages[j].content == Ok::<Seq<char>, Seq<char>>(plan.drafts[j].content)) {
        assert forall|j: int| 0 <= j < plan.drafts.len() implies (#[trigger] s.pages[j]).content
            == Ok::<Seq<char>, Seq<char>>(plan.drafts[j].content) by {
            assert(crate::paths::page_file_error(s.manifest.pages[j].file) is None);
        }
        lemma_equal_means_match(s, plan.drafts, 0);
    }
    if write_decision(s, plan, exists) == Ok::<DecisionView, Seq<char>>(DecisionView::Unchanged) {
        lemma_match_means_equal(s, plan.drafts, 0);
    }
    if no_foreign_file(plan, exists) && (forall|j: int|
        0 <= j < s.manifest.pages.len() ==> crate::paths::page_file_error(
            (#[trigger] s.manifest.pages[j]).file,
        ) is None && s.pages[j].content is Ok) && (exists|i: int|
        0 <= i < plan.drafts.len() && i < s.pages.len() && (#[trigger] s.pages[i]).content != Ok::<
            Seq<char>,
            Seq<char>,
        >(plan.drafts[i].content)) {
        if s.manifest.pages == plan.next_pages && s.manifest.pages.len() == plan.drafts.len() {
            assert forall|j: int| 0 <= j < plan.drafts.len() implies (#[trigger] s.pages[j]).content is Ok by {
                assert(crate::paths::page_file_error(s.manifest.pages[j].file) is None);
            }
            lemma_readable_decides(s, plan.drafts, 0);
            if contents_match_from(s, plan.drafts, 0) == Ok::<bool, Seq<char>>(true) {
                lemma_match_means_equal(s, plan.drafts, 0);
            }
        }
    }
}

/// A write is refused when one of the new page files already exists and is
/// no page of the document: the first such file, in page order, is named in
/// the error.
pub proof fn lemma_foreign_file_refused(s: SnapshotView, plan: WriteView, exists: Seq<bool>, k: int)
    requires
        0 <= k < plan.next_pages.len(),
        exists[k],
        !plan.old_files.contains(plan.next_pages[k].file),
        forall|j: int|
            0 <= j < k ==> !(#[trigger] exists[j] && !plan.old_files.contains(
                plan.next_pages[j].file,
            )),
    ensures
        write_decision(s, plan, exists) == Err::<DecisionView, Seq<char>>(
            msg_page_file_exists() + plan.next_pages[k].file,
        ),
{
    let p = |i: int| exists[i] && !plan.old_files.contains(plan.next_pages[i].file);
    assert forall|j: int| 0 <= j < k implies !#[trigger] p(j) by {
        assert(!(exists[j] && !plan.old_files.contains(plan.next_pages[j].file)));
    }
    crate::edits::lemma_first_where_some(plan.next_pages.len() as int, p, k);
}

pub fn decide_paginated_write(s: &DocumentSnapshot, plan: &PaginatedWrite, exists: &Vec<bool>) -> (r:
    Result<WriteDecision, String>)
    requires
        s.wf(),
        exists.len() == plan.next_pages.len(),
    ensures
        match r {
            Ok(WriteDecision::Unchanged) => write_decision(s@, plan@, exists@) == Ok::<
                DecisionView,
                Seq<char>,
            >(DecisionView::Unchanged),
            Ok(WriteDecision::Publish(m)) => write_decision(s@, plan@, exists@) matches Ok(
                DecisionView::Publish(x),
            ) && m@ == stamped(x, m@.updated_at),
            Err(e) => write_decision(s@, plan@, exists@) == Err::<DecisionView, Seq<char>>(e@),
        },
{
    let now = now_string();
    decide_paginated_write_at(s, plan, exists, now.as_str())
}

/// As `decide_paginated_write`, with the current time given: the manifest is stamped with `now`.
pub fn decide_paginated_write_at(s: &DocumentSnapshot, plan: &PaginatedWrite, exists: &Vec<bool>, now: &str) -> (r:
    Result<WriteDecision, String>)
    requires
        s.wf(),
        exists.len() == plan.next_pages.len(),
    ensures
        r matches Ok(WriteDecision::Publish(m)) ==> m@.updated_at == now@,
        match r {
            Ok(WriteDecision::Unchanged) => write_decision(s@, plan@, exists@) == Ok::<
                DecisionView,
                Seq<char>,
            >(DecisionView::Unchanged),
            Ok(WriteDecision::Publish(m)) => write_decision(s@, plan@, exists@) matches Ok(
                DecisionView::Publish(x),
            ) && m@ == stamped(x, m@.updated_at),
            Err(e) => write_decision(s@, plan@, exists@) == Err::<DecisionView, Seq<char>>(e@),
        },
{
    let ghost pv = plan@;
    let ghost p = |i: int| exists@[i] && !pv.old_files.contains(pv.next_pages[i].file);
    for i in 0..plan.next_pages.len()
        invariant
            pv == plan@,
            exists.len() == plan.next_pages.len(),
            p == (|i: int| exists@[i] && !pv.old_files.contains(pv.next_pages[i].file)),
            forall|j: int| 0 <= j < i ==> !#[trigger] p(j),
    {
        if exists[i] && !contains_string(&plan.old_files, &plan.next_pages[i].file) {
            proof {
                crate::edits::lemma_first_where_some(plan.next_pages.len() as int, p, i as int);
            }
            let prefix = "Document page file already exists: ".to_string();
            let msg = concat(&chars_of(prefix.as_str()), &chars_of(plan.next_pages[i].file.as_str()));
            return Err(string_of(&msg));
        }
    }
    proof {
        crate::edits::lemma_first_where_none(plan.next_pages.len() as int, p);
    }
    let unchanged = if same_pages(&s.manifest.pages, &plan.next_pages) && s.manifest.pages.len()
        == plan.drafts.len() {
        match contents_match(s, &plan.drafts) {
            Err(e) => {
                return Err(e);
            },
            Ok(b) => b,
        }
    } else {
        false
    };
    if unchanged {
        return Ok(WriteDecision::Unchanged);
    }
    let mut manifest = copy_manifest(&s.manifest);
    manifest.pages = copy_pages(&plan.next_pages);
    manifest.updated_at = now.to_string();
    Ok(WriteDecision::Publish(manifest))
}

// ---------------------------------------------------------------------------
// Saving and normalizing
// ---------------------------------------------------------------------------

/// Plans saving edited markdown to a document.
pub fn save_document_markdown(
    document_path: &str,
    loaded: &Result<DocumentSnapshot, String>,
    markdown: &str,
    word_limit: usize,
) -> (r: Result<PaginatedWrite, String>)
    requires
        loaded_wf(loaded),
    ensures
        match r {
            Ok(w) => write_plan(document_path@, loaded_view(*loaded), markdown@, word_limit) == Ok::<
                WriteView,
                Seq<char>,
            >(w@),
            Err(e) => write_plan(document_path@, loaded_view(*loaded), markdown@, word_limit)
                == Err::<WriteView, Seq<char>>(e@),
        },
{
    paginated_write_plan(document_path, loaded, markdown, word_limit)
}

/// The markdown that normalizing paginates: the pages' texts, each trimmed,
/// empty ones left out, a blank line between them.
pub open spec fn pages_markdown(texts: Seq<Seq<char>>) -> Seq<char> {
    join(trimmed_nonempty(texts), paragraph_sep())
}

/// The plan for normalizing a document: its pages read for editing, then
/// paginated again.
pub open spec fn normalize_plan(document_path: Seq<char>, probe: ProbeView, word_limit: usize) -> Result<
    WriteView,
    Seq<char>,
> {
    match document_texts(document_path, probe) {
        Err(e) => Err(e),
        Ok(t) => write_plan(document_path, probe.loaded, pages_markdown(t), word_limit),
    }
}

/// Plans normalizing a document: its pages joined and split again by the
/// word limit.
pub fn normalize_document(document_path: &str, probe: &DocumentProbe, word_limit: usize) -> (r:
    Result<PaginatedWrite, String>)
    requires
        probe.wf(),
    ensures
        match r {
            Ok(w) => normalize_plan(document_path@, probe@, word_limit) == Ok::<WriteView, Seq<char>>(
                w@,
            ),
            Err(e) => normalize_plan(document_path@, probe@, word_limit) == Err::<
                WriteView,
                Seq<char>,
            >(e@),
        },
{
    let markdown = match read_document_edit_markdown(document_path, probe) {
        Err(e) => {
            return Err(e);
        },
        Ok(m) => m,
    };
    paginated_write_plan(document_path, &probe.loaded, markdown.as_str(), word_limit)
}

/// A normalization planned from a note id: where the note's page stood, and
/// the write.
pub struct NormalizeForNote {
    pub page_index: usize,
    pub write: PaginatedWrite,
}

/// What normalizing from a note id gives: nothing when the id names no page
/// of a document folder; otherwise the position of the note's page and the
/// plan for normalizing its document.
pub open spec fn normalize_for_note_plan(note_id: Seq<char>, probe: ProbeView, word_limit: usize) -> Result<
    Option<(int, WriteView)>,
    Seq<char>,
> {
    match note_parts(note_id) {
        None => Ok(None),
        Some((d, f)) => match document_dir_spec(d) {
            Err(e) => Err(e),
            Ok(_) => if !probe.is_document {
                Ok(None)
            } else {
                match checked(probe.loaded) {
                    Err(e) => Err(e),
                    Ok(s) => match normalize_plan(d, probe, word_limit) {
                        Err(e) => Err(e),
                        Ok(w) => Ok(Some((page_index_guess(s.manifest.pages, f), w))),
                    },
                }
            },
        },
    }
}

/// Plans normalizing the document that a note belongs to. `probe` is what was
/// found in the folder of the id's document path.
pub fn normalize_document_for_note_id(note_id: &str, probe: &DocumentProbe, word_limit: usize) -> (r:
    Result<Option<NormalizeForNote>, String>)
    requires
        probe.wf(),
    ensures
        match r {
            Ok(None) => normalize_for_note_plan(note_id@, probe@, word_limit) == Ok::<
                Option<(int, WriteView)>,
                Seq<char>,
            >(None),
            Ok(Some(n)) => normalize_for_note_plan(note_id@, probe@, word_limit) == Ok::<
                Option<(int, WriteView)>,
                Seq<char>,
            >(Some((n.page_index as int, n.write@))),
            Err(e) => normalize_for_note_plan(note_id@, probe@, word_limit) == Err::<
                Option<(int, WriteView)>,
                Seq<char>,
            >(e@),
        },
{
    let id = chars_of(note_id);
    let (d, f) = match file_from_note_id_of(&id) {
        None => {
            return Ok(None);
        },
        Some(p) => p,
    };
    match document_dir_of(&d) {
        Err(e) => {
            return Err(e);
        },
        Ok(_) => {},
    }
    if !probe.is_document {
        return Ok(None);
    }
    let s = match checked_snapshot(&probe.loaded) {
        Err(e) => {
            return Err(e);
        },
        Ok(s) => s,
    };
    let page_index = page_index_for_file(&s.manifest, string_of(&f).as_str());
    let ds = string_of(&d);
    match normalize_document(ds.as_str(), probe, word_limit) {
        Err(e) => Err(e),
        Ok(w) => Ok(Some(NormalizeForNote { page_index, write: w })),
    }
}

// ---------------------------------------------------------------------------
// Normalizing twice
// ---------------------------------------------------------------------------

/// What a document folder holds once a planned write is published over the
/// snapshot `before`: the manifest with the planned pages (and a new time of
/// change), and each page file holding its draft's content.
pub open spec fn holds_written(before: SnapshotView, w: WriteView, after: ProbeView) -> bool {
    &&& after.is_document
    &&& after.loaded matches Ok(s)
    &&& s.manifest == ManifestView {
        pages: w.next_pages,
        updated_at: s.manifest.updated_at,
        ..before.manifest
    }
    &&& s.pages.len() == w.drafts.len()
    &&& forall|i: int|
        0 <= i < w.drafts.len() ==> (#[trigger] s.pages[i]).content == Ok::<Seq<char>, Seq<char>>(
            w.drafts[i].content,
        )
}

proof fn lemma_planned_files_valid(drafts: Seq<DraftView>, n: int)
    requires
        0 <= n <= drafts.len(),
    ensures
        pages_error(pages_for_drafts(drafts).take(n)) is None,
        forall|i: int|
            0 <= i < drafts.len() ==> crate::paths::page_file_error(
                (#[trigger] pages_for_drafts(drafts)[i]).file,
            ) is None,
    decreases n,
{
    assert forall|i: int| 0 <= i < drafts.len() implies crate::paths::page_file_error(
        (#[trigger] pages_for_drafts(drafts)[i]).file,
    ) is None by {
        crate::paths::lemma_page_file_name_valid((i + 1) as nat, drafts[i].title);
    }
    if n > 0 {
        lemma_planned_files_valid(drafts, n - 1);
        let ps = pages_for_drafts(drafts);
        assert(ps.take(n).drop_last() =~= ps.take(n - 1));
        assert(ps.take(n).last() == ps[n - 1]);
    }
}

proof fn lemma_texts_written(s: SnapshotView, drafts: Seq<DraftView>, n: nat)
    requires
        n <= drafts.len(),
        s.manifest.pages == pages_for_drafts(drafts),
        s.pages.len() == drafts.len(),
        forall|i: int|
            0 <= i < drafts.len() ==> (#[trigger] s.pages[i]).content == Ok::<Seq<char>, Seq<char>>(
                drafts[i].content,
            ),
    ensures
        crate::document::texts_upto(s, n) == Ok::<Seq<Seq<char>>, Seq<char>>(
            crate::reflow::page_contents(drafts).take(n as int),
        ),
    decreases n,
{
    let cs = crate::reflow::page_contents(drafts);
    if n == 0 {
        assert(cs.take(0) =~= Seq::<Seq<char>>::empty());
    } else {
        lemma_texts_written(s, drafts, (n - 1) as nat);
        lemma_planned_files_valid(drafts, 0);
        assert(crate::paths::page_file_error(pages_for_drafts(drafts)[n - 1].file) is None);
        assert(s.pages[n - 1].content == Ok::<Seq<char>, Seq<char>>(drafts[n - 1].content));
        assert(cs.take(n - 1).push(drafts[n - 1].content) =~= cs.take(n as int));
    }
}

proof fn lemma_contents_written(s: SnapshotView, drafts: Seq<DraftView>, i: int)
    requires
        0 <= i <= drafts.len(),
        s.manifest.pages == pages_for_drafts(drafts),
        s.pages.len() == drafts.len(),
        forall|j: int|
            0 <= j < drafts.len() ==> (#[trigger] s.pages[j]).content == Ok::<Seq<char>, Seq<char>>(
                drafts[j].content,
            ),
    ensures
        contents_match_from(s, drafts, i) == Ok::<bool, Seq<char>>(true),
    decreases drafts.len() - i,
{
    if i < drafts.len() {
        lemma_planned_files_valid(drafts, 0);
        assert(crate::paths::page_file_error(pages_for_drafts(drafts)[i].file) is None);
        assert(s.pages[i].content == Ok::<Seq<char>, Seq<char>>(drafts[i].content));
        lemma_contents_written(s, drafts, i + 1);
    }
}

/// Once a planned write of some markdown is in the folder, the markdown read
/// back for editing or normalizing is the blocks of that markdown, each
/// trimmed, with a blank line between them.
pub proof fn lemma_read_after_write(
    document_path: Seq<char>,
    loaded: Result<SnapshotView, Seq<char>>,
    markdown: Seq<char>,
    word_limit: usize,
    second: ProbeView,
)
    requires
        write_plan(document_path, loaded, markdown, word_limit) is Ok,
        holds_written(
            checked(loaded)->Ok_0,
            write_plan(document_path, loaded, markdown, word_limit)->Ok_0,
            second,
        ),
    ensures
        document_texts(document_path, second) is Ok,
        pages_markdown(document_texts(document_path, second)->Ok_0) == join(
            crate::paginate::block_texts(crate::paginate::markdown_blocks(markdown)),
            paragraph_sep(),
        ),
{
    let w1 = write_plan(document_path, loaded, markdown, word_limit)->Ok_0;
    let s2 = second.loaded->Ok_0;
    let limit = clamp_limit(word_limit);
    let drafts = w1.drafts;
    assert(drafts == paginated(markdown, limit as int));
    assert(w1.next_pages == pages_for_drafts(drafts));
    assert(checked(second.loaded) == Ok::<SnapshotView, Seq<char>>(s2));
    lemma_texts_written(s2, drafts, drafts.len());
    assert(crate::reflow::page_contents(drafts).take(drafts.len() as int)
        =~= crate::reflow::page_contents(drafts));
    assert(document_texts(document_path, second) == Ok::<Seq<Seq<char>>, Seq<char>>(
        crate::reflow::page_contents(drafts),
    ));
    crate::reflow::lemma_reread_pages(markdown, limit as int);
}

/// Once a planned write of some markdown is in the folder, normalizing the
/// document plans the same pages, files and titles, and finds the write
/// already done. This holds whenever no line of the markdown but the last
/// ends with a carriage return once its line ending is taken off.
pub proof fn lemma_normalize_after_write(
    document_path: Seq<char>,
    loaded: Result<SnapshotView, Seq<char>>,
    markdown: Seq<char>,
    word_limit: usize,
    second: ProbeView,
    exists: Seq<bool>,
)
    requires
        write_plan(document_path, loaded, markdown, word_limit) is Ok,
        crate::reflow::no_stray_cr(markdown),
        holds_written(
            checked(loaded)->Ok_0,
            write_plan(document_path, loaded, markdown, word_limit)->Ok_0,
            second,
        ),
    ensures
        normalize_plan(document_path, second, word_limit) is Ok,
        normalize_plan(document_path, second, word_limit)->Ok_0.drafts == write_plan(
            document_path,
            loaded,
            markdown,
            word_limit,
        )->Ok_0.drafts,
        normalize_plan(document_path, second, word_limit)->Ok_0.next_pages == write_plan(
            document_path,
            loaded,
            markdown,
            word_limit,
        )->Ok_0.next_pages,
        write_decision(
            second.loaded->Ok_0,
            normalize_plan(document_path, second, word_limit)->Ok_0,
            exists,
        ) == Ok::<DecisionView, Seq<char>>(DecisionView::Unchanged),
{
    let w1 = write_plan(document_path, loaded, markdown, word_limit)->Ok_0;
    let s2 = second.loaded->Ok_0;
    let limit = clamp_limit(word_limit);
    let drafts = w1.drafts;
    assert(drafts == paginated(markdown, limit as int));
    assert(w1.next_pages == pages_for_drafts(drafts));
    assert(checked(second.loaded) == Ok::<SnapshotView, Seq<char>>(s2));
    lemma_texts_written(s2, drafts, drafts.len());
    assert(crate::reflow::page_contents(drafts).take(drafts.len() as int)
        =~= crate::reflow::page_contents(drafts));
    let m2 = pages_markdown(crate::reflow::page_contents(drafts));
    assert(m2 == crate::reflow::reread(drafts));
    crate::reflow::lemma_repaginate(markdown, limit as int);
    lemma_planned_files_valid(drafts, drafts.len() as int);
    assert(pages_for_drafts(drafts).take(drafts.len() as int) =~= pages_for_drafts(drafts));
    let w2 = normalize_plan(document_path, second, word_limit)->Ok_0;
    assert(w2.drafts == drafts);
    assert(w2.next_pages == w1.next_pages);
    assert(w2.old_files == page_files(w1.next_pages));
    let n = w2.next_pages.len() as int;
    let p = |i: int| exists[i] && !w2.old_files.contains(w2.next_pages[i].file);
    assert forall|i: int| 0 <= i < n implies !#[trigger] p(i) by {
        assert(w2.old_files[i] == w2.next_pages[i].file);
    }
    crate::edits::lemma_first_where_none(n, p);
    lemma_contents_written(s2, drafts, 0);
}

/// Normalizing a document again once a normalization has been written
/// changes nothing: the same pages, files and titles are planned, and the
/// write is found already done. This holds whenever no line of the
/// markdown read the first time but the last ends with a carriage return
/// once its line ending is taken off.
pub proof fn lemma_normalize_idempotent(
    document_path: Seq<char>,
    first: ProbeView,
    word_limit: usize,
    second: ProbeView,
    exists: Seq<bool>,
)
    requires
        normalize_plan(document_path, first, word_limit) is Ok,
        crate::reflow::no_stray_cr(pages_markdown(document_texts(document_path, first)->Ok_0)),
        holds_written(
            checked(first.loaded)->Ok_0,
            normalize_plan(document_path, first, word_limit)->Ok_0,
            second,
        ),
    ensures
        normalize_plan(document_path, second, word_limit) is Ok,
        normalize_plan(document_path, second, word_limit)->Ok_0.drafts == normalize_plan(
            document_path,
            first,
            word_limit,
        )->Ok_0.drafts,
        normalize_plan(document_path, second, word_limit)->Ok_0.next_pages == normalize_plan(
            document_path,
            first,
            word_limit,
        )->Ok_0.next_pages,
        write_decision(
            second.loaded->Ok_0,
            normalize_plan(document_path, second, word_limit)->Ok_0,
            exists,
        ) == Ok::<DecisionView, Seq<char>>(DecisionView::Unchanged),
{
    let m1 = pages_markdown(document_texts(document_path, first)->Ok_0);
    lemma_normalize_after_write(document_path, first.loaded, m1, word_limit, second, exists);
}

} // verus!
