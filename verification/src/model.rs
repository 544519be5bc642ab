//! The document manifest and the values that the document operations give.
use vstd::prelude::*;
use vstd::std_specs::cmp::PartialEqSpecImpl;

verus! {

/// The manifest file in a document folder.
pub const MANIFEST_FILE: &'static str = ".markch-document.json";

/// The `type` that a document manifest declares.
pub const DOCUMENT_TYPE: &'static str = "markch-document";

/// One page of a document, as the manifest lists it.
#[derive(Debug)]
pub struct DocumentPageManifest {
    pub file: String,
    pub title: String,
}

pub struct PageEntry {
    pub file: Seq<char>,
    pub title: Seq<char>,
}

impl View for DocumentPageManifest {
    type V = PageEntry;

    open spec fn view(&self) -> PageEntry {
        PageEntry { file: self.file@, title: self.title@ }
    }
}

impl PartialEq for DocumentPageManifest {
    fn eq(&self, other: &Self) -> (r: bool) {
        self.file == other.file && self.title == other.title
    }
}

impl PartialEqSpecImpl for DocumentPageManifest {
    open spec fn obeys_eq_spec() -> bool {
        true
    }

    open spec fn eq_spec(&self, other: &Self) -> bool {
        self.file@ == other.file@ && self.title@ == other.title@
    }
}

impl Eq for DocumentPageManifest {

}

impl Clone for DocumentPageManifest {
    fn clone(&self) -> (r: Self)
        ensures
            r@ == self@,
    {
        DocumentPageManifest { file: self.file.clone(), title: self.title.clone() }
    }
}

/// The manifest of a document: its type and version, its title, its pages in
/// order, and when it was created and last changed.
#[derive(Debug)]
pub struct DocumentManifest {
    pub document_type: String,
    pub version: u32,
    pub title: String,
    pub pages: Vec<DocumentPageManifest>,
    pub created_at: String,
    pub updated_at: String,
}

pub open spec fn page_entries(v: Seq<DocumentPageManifest>) -> Seq<PageEntry> {
    v.map_values(|p: DocumentPageManifest| p@)
}

#[verifier::ext_equal]
pub struct ManifestView {
    pub document_type: Seq<char>,
    pub version: u32,
    pub title: Seq<char>,
    pub pages: Seq<PageEntry>,
    pub created_at: Seq<char>,
    pub updated_at: Seq<char>,
}

impl View for DocumentManifest {
    type V = ManifestView;

    open spec fn view(&self) -> ManifestView {
        ManifestView {
            document_type: self.document_type@,
            version: self.version,
            title: self.title@,
            pages: page_entries(self.pages@),
            created_at: self.created_at@,
            updated_at: self.updated_at@,
        }
    }
}

pub fn copy_pages(pages: &Vec<DocumentPageManifest>) -> (r: Vec<DocumentPageManifest>)
    ensures
        page_entries(r@) == page_entries(pages@),
{
    let mut r: Vec<DocumentPageManifest> = Vec::new();
    for i in 0..pages.len()
        invariant
            page_entries(r@) == page_entries(pages@.take(i as int)),
    {
        let ghost old_r = r@;
        r.push(pages[i].clone());
        assert(page_entries(r@) =~= page_entries(old_r).push(pages@[i as int]@));
        assert(page_entries(pages@.take(i + 1)) =~= page_entries(pages@.take(i as int)).push(
            pages@[i as int]@,
        ));
    }
    assert(pages@.take(pages.len() as int) =~= pages@);
    r
}

impl Clone for DocumentManifest {
    fn clone(&self) -> (r: Self)
        ensures
            r@ == self@,
    {
        DocumentManifest {
            document_type: self.document_type.clone(),
            version: self.version,
            title: self.title.clone(),
            pages: copy_pages(&self.pages),
            created_at: self.created_at.clone(),
            updated_at: self.updated_at.clone(),
        }
    }
}

/// A document as the document list shows it.
#[derive(Debug)]
pub struct DocumentMetadata {
    pub path: String,
    pub title: String,
    pub page_count: usize,
    pub modified: i64,
}

/// One page of a document as it is read: its note id, file, title, last
/// change (seconds since the epoch), position from 1, word count, and
/// whether it holds more words than the limit.
#[derive(Debug)]
pub struct DocumentPage {
    pub id: String,
    pub file: String,
    pub title: String,
    pub modified: i64,
    pub index: usize,
    pub word_count: usize,
    pub overflow: bool,
}

pub struct PageView {
    pub id: Seq<char>,
    pub file: Seq<char>,
    pub title: Seq<char>,
    pub modified: i64,
    pub index: usize,
    pub word_count: usize,
    pub overflow: bool,
}

impl View for DocumentPage {
    type V = PageView;

    open spec fn view(&self) -> PageView {
        PageView {
            id: self.id@,
            file: self.file@,
            title: self.title@,
            modified: self.modified,
            index: self.index,
            word_count: self.word_count,
            overflow: self.overflow,
        }
    }
}

pub open spec fn page_views(v: Seq<DocumentPage>) -> Seq<PageView> {
    v.map_values(|p: DocumentPage| p@)
}

/// A document as it is read: its path, title and pages.
#[derive(Debug)]
pub struct DocumentDetail {
    pub path: String,
    pub title: String,
    pub pages: Vec<DocumentPage>,
}

#[verifier::ext_equal]
pub struct DetailView {
    pub path: Seq<char>,
    pub title: Seq<char>,
    pub pages: Seq<PageView>,
}

impl View for DocumentDetail {
    type V = DetailView;

    open spec fn view(&self) -> DetailView {
        DetailView { path: self.path@, title: self.title@, pages: page_views(self.pages@) }
    }
}

/// The outcome of normalizing a document: the document, whether its pages
/// changed, and the note id that the editor should show afterwards.
#[derive(Debug)]
pub struct DocumentNormalizeResult {
    pub document: DocumentDetail,
    pub changed: bool,
    pub target_note_id: Option<String>,
}

/// The direction in which a page moves.
#[derive(Debug, Clone, Copy, PartialEq, Eq, Structural)]
pub enum MoveDirection {
    Up,
    Down,
}

} // verus!
