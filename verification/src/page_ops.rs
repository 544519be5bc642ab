//! Page operations on a document: add, rename, move and delete a page.
//!
//! Each operation checks its inputs against the document as it was read and
//! gives the change to carry out: the page file to delete, the page file to
//! write, the renames, in that order, and then the manifest to write, or the
//! error to stop with when renumbering the pages meets a refused file name.
use vstd::prelude::*;
use crate::text::{chars_of, string_of, concat, trim, trim_of};
use crate::paths::{document_dir_spec, document_dir_of, page_file_error, page_file_error_of, page_file_name_spec, page_file_name_of};
use crate::paginate::{default_title, default_title_of};
use crate::model::{
    DocumentManifest, ManifestView, DocumentPageManifest, PageEntry, page_entries, MoveDirection,
};
use crate::document::{DocumentSnapshot, SnapshotView, SourceView, manifest_error, checked, checked_snapshot, loaded_view, loaded_wf, pages_error};
use crate::edits::{
    page_position, position_of, stamped, renumbered, renumber_renames, rename_views, renumber_pages,
    copy_manifest, first_bad_page, to_temp_renames, tmp_suffix,
};
use crate::clock::now_string;

verus! {

/// A change to a document's files and manifest.
pub struct DocumentChange {
    pub manifest: DocumentManifest,
    pub removed: Option<String>,
    pub created: Option<(String, String)>,
    pub renames: Vec<(String, String)>,
    pub failure: Option<String>,
}

#[verifier::ext_equal]
pub struct ChangeView {
    pub manifest: ManifestView,
    pub removed: Option<Seq<char>>,
    pub created: Option<(Seq<char>, Seq<char>)>,
    pub renames: Seq<(Seq<char>, Seq<char>)>,
    pub failure: Option<Seq<char>>,
}

impl View for DocumentChange {
    type V = ChangeView;

    open spec fn view(&self) -> ChangeView {
        ChangeView {
            manifest: self.manifest@,
            removed: match self.removed {
                None => None,
                Some(f) => Some(f@),
            },
            created: match self.created {
                None => None,
                Some(c) => Some((c.0@, c.1@)),
            },
            renames: rename_views(self.renames@),
            failure: match self.failure {
                None => None,
                Some(e) => Some(e@),
            },
        }
    }
}

/// A change as it is carried out: the expected one, with the time at which
/// its manifest was stamped.
pub open spec fn is_change(actual: ChangeView, expected: ChangeView) -> bool {
    actual == ChangeView {
        manifest: stamped(expected.manifest, actual.manifest.updated_at),
        ..expected
    }
}

pub open spec fn msg_page_not_found() -> Seq<char> {
    "Page not found"@
}

pub open spec fn msg_keep_one_page() -> Seq<char> {
    "A Document must keep at least one page"@
}

/// The manifest pages renumbered, with the renames that this takes. At the
/// first page whose file name is refused, the change stops with its error
/// after the renames of the pages before it.
pub open spec fn renumber_change(m: ManifestView, pages: Seq<PageEntry>, removed: Option<Seq<char>>) -> ChangeView {
    match first_bad_page(pages) {
        None => ChangeView {
            manifest: ManifestView { pages: renumbered(pages), ..m },
            removed,
            created: None,
            renames: renumber_renames(pages),
            failure: None,
        },
        Some(k) => ChangeView {
            manifest: ManifestView { pages, ..m },
            removed,
            created: None,
            renames: to_temp_renames(pages.take(k)),
            failure: page_file_error(pages[k].file),
        },
    }
}

// ---------------------------------------------------------------------------
// Moving a page
// ---------------------------------------------------------------------------

/// The position a page moves to, if it can move.
pub open spec fn move_target(index: int, len: int, direction: MoveDirection) -> Option<int> {
    match direction {
        MoveDirection::Up => if index > 0 {
            Some(index - 1)
        } else {
            None
        },
        MoveDirection::Down => if index + 1 < len {
            Some(index + 1)
        } else {
            None
        },
    }
}

pub open spec fn swapped<A>(s: Seq<A>, i: int, j: int) -> Seq<A> {
    s.update(i, s[j]).update(j, s[i])
}

/// What moving a page gives: nothing to change when it is already first
/// (up) or last (down); otherwise the pages with the page and its neighbour
/// swapped and renumbered.
pub open spec fn move_outcome(
    document_path: Seq<char>,
    loaded: Result<SnapshotView, Seq<char>>,
    page_file: Seq<char>,
    direction: MoveDirection,
) -> Result<Option<ChangeView>, Seq<char>> {
    match page_file_error(page_file) {
        Some(e) => Err(e),
        None => match document_dir_spec(document_path) {
            Err(e) => Err(e),
            Ok(_) => match checked(loaded) {
                Err(e) => Err(e),
                Ok(s) => {
                    let pages = s.manifest.pages;
                    match page_position(pages, page_file) {
                        None => Err(msg_page_not_found()),
                        Some(i) => match move_target(i, pages.len() as int, direction) {
                            None => Ok(None),
                            Some(j) => Ok(Some(renumber_change(s.manifest, swapped(pages, i, j), None))),
                        },
                    }
                },
            },
        },
    }
}

/// Moves a page one place up or down in its document.
pub fn move_document_page(
    document_path: &str,
    loaded: &Result<DocumentSnapshot, String>,
    page_file: &str,
    direction: MoveDirection,
) -> (r: Result<Option<DocumentChange>, String>)
    requires
        loaded_wf(loaded),
    ensures
        match r {
            Ok(None) => move_outcome(document_path@, loaded_view(*loaded), page_file@, direction)
                == Ok::<Option<ChangeView>, Seq<char>>(None),
            Ok(Some(c)) => move_outcome(document_path@, loaded_view(*loaded), page_file@, direction) matches Ok(Some(x))
                && is_change(c@, x),
            Err(e) => move_outcome(document_path@, loaded_view(*loaded), page_file@, direction)
                == Err::<Option<ChangeView>, Seq<char>>(e@),
        },
{
    let now = now_string();
    move_document_page_at(document_path, loaded, page_file, direction, now.as_str())
}

/// As `move_document_page`, with the current time given: the manifest is stamped with `now`.
pub fn move_document_page_at(
    document_path: &str,
    loaded: &Result<DocumentSnapshot, String>,
    page_file: &str,
    direction: MoveDirection,
    now: &str,
) -> (r: Result<Option<DocumentChange>, String>)
    requires
        loaded_wf(loaded),
    ensures
        r matches Ok(Some(c)) ==> c.manifest@.updated_at == now@,
        match r {
            Ok(None) => move_outcome(document_path@, loaded_view(*loaded), page_file@, direction)
                == Ok::<Option<ChangeView>, Seq<char>>(None),
            Ok(Some(c)) => move_outcome(document_path@, loaded_view(*loaded), page_file@, direction) matches Ok(Some(x))
                && is_change(c@, x),
            Err(e) => move_outcome(document_path@, loaded_view(*loaded), page_file@, direction)
                == Err::<Option<ChangeView>, Seq<char>>(e@),
        },
{
    let pf = chars_of(page_file);
    match page_file_error_of(&pf) {
        Some(e) => {
            return Err(e);
        },
        None => {},
    }
    let path = chars_of(document_path);
    match document_dir_of(&path) {
        Err(e) => {
            return Err(e);
        },
        Ok(_) => {},
    }
    let s = match checked_snapshot(loaded) {
        Err(e) => {
            return Err(e);
        },
        Ok(s) => s,
    };
    let index = match position_of(&s.manifest.pages, page_file) {
        None => {
            return Err("Page not found".to_string());
        },
        Some(i) => i,
    };
    let target = match direction {
        MoveDirection::Up => if index > 0 {
            index - 1
        } else {
            return Ok(None);
        },
        MoveDirection::Down => if index + 1 < s.manifest.pages.len() {
            index + 1
        } else {
            return Ok(None);
        },
    };
    let mut manifest = copy_manifest(&s.manifest);
    let ghost m0 = manifest@;
    let a = manifest.pages[index].clone();
    let b = manifest.pages[target].clone();
    let ghost p0 = manifest.pages@;
    manifest.pages.set(index, b);
    manifest.pages.set(target, a);
    assert(page_entries(manifest.pages@) =~= swapped(m0.pages, index as int, target as int));
    let (renames, failure) = match renumber_pages(&mut manifest) {
        Err((v, e)) => (v, Some(e)),
        Ok(v) => (v, None),
    };
    manifest.updated_at = now.to_string();
    Ok(Some(DocumentChange { manifest, removed: None, created: None, renames, failure }))
}

// ---------------------------------------------------------------------------
// Deleting a page
// ---------------------------------------------------------------------------

/// What deleting a page gives: the page file removed and the other pages
/// renumbered. A document keeps at least one page.
pub open spec fn delete_outcome(
    document_path: Seq<char>,
    loaded: Result<SnapshotView, Seq<char>>,
    page_file: Seq<char>,
) -> Result<ChangeView, Seq<char>> {
    match page_file_error(page_file) {
        Some(e) => Err(e),
        None => match document_dir_spec(document_path) {
            Err(e) => Err(e),
            Ok(_) => match checked(loaded) {
                Err(e) => Err(e),
                Ok(s) => {
                    let pages = s.manifest.pages;
                    if pages.len() <= 1 {
                        Err(msg_keep_one_page())
                    } else {
                        match page_position(pages, page_file) {
                            None => Err(msg_page_not_found()),
                            Some(i) => Ok(
                                renumber_change(s.manifest, pages.remove(i), Some(pages[i].file)),
                            ),
                        }
                    }
                },
            },
        },
    }
}

/// Deletes a page from its document and renumbers the rest.
pub fn delete_document_page(
    document_path: &str,
    loaded: &Result<DocumentSnapshot, String>,
    page_file: &str,
) -> (r: Result<DocumentChange, String>)
    requires
        loaded_wf(loaded),
    ensures
        match r {
            Ok(c) => delete_outcome(document_path@, loaded_view(*loaded), page_file@) matches Ok(x)
                && is_change(c@, x),
            Err(e) => delete_outcome(document_path@, loaded_view(*loaded), page_file@) == Err::<
                ChangeView,
                Seq<char>,
            >(e@),
        },
{
    let now = now_string();
    delete_document_page_at(document_path, loaded, page_file, now.as_str())
}

/// As `delete_document_page`, with the current time given: the manifest is stamped with `now`.
pub fn delete_document_page_at(
    document_path: &str,
    loaded: &Result<DocumentSnapshot, String>,
    page_file: &str,
    now: &str,
) -> (r: Result<DocumentChange, String>)
    requires
        loaded_wf(loaded),
    ensures
        r matches Ok(c) ==> c.manifest@.updated_at == now@,
        match r {
            Ok(c) => delete_outcome(document_path@, loaded_view(*loaded), page_file@) matches Ok(x)
                && is_change(c@, x),
            Err(e) => delete_outcome(document_path@, loaded_view(*loaded), page_file@) == Err::<
                ChangeView,
                Seq<char>,
            >(e@),
        },
{
    let pf = chars_of(page_file);
    match page_file_error_of(&pf) {
        Some(e) => {
            return Err(e);
        },
        None => {},
    }
    let path = chars_of(document_path);
    match document_dir_of(&path) {
        Err(e) => {
            return Err(e);
        },
        Ok(_) => {},
    }
    let s = match checked_snapshot(loaded) {
        Err(e) => {
            return Err(e);
        },
        Ok(s) => s,
    };
    if s.manifest.pages.len() <= 1 {
        return Err("A Document must keep at least one page".to_string());
    }
    let index = match position_of(&s.manifest.pages, page_file) {
        None => {
            return Err("Page not found".to_string());
        },
        Some(i) => i,
    };
    let mut manifest = copy_manifest(&s.manifest);
    let ghost m0 = manifest@;
    let removed = manifest.pages.remove(index);
    assert(page_entries(manifest.pages@) =~= m0.pages.remove(index as int));
    let (renames, failure) = match renumber_pages(&mut manifest) {
        Err((v, e)) => (v, Some(e)),
        Ok(v) => (v, None),
    };
    manifest.updated_at = now.to_string();
    Ok(DocumentChange { manifest, removed: Some(removed.file), created: None, renames, failure })
}

// ---------------------------------------------------------------------------
// Renaming a page
// ---------------------------------------------------------------------------

/// The title a page gets: the given one trimmed, or `Page <n>` when that is
/// empty.
pub open spec fn clean_page_title(title: Seq<char>, number: nat) -> Seq<char> {
    if trim(title).len() == 0 {
        default_title(number)
    } else {
        trim(title)
    }
}

/// What renaming a page gives: its title and file from the new title, and
/// the rename of its file when the file name changes.
pub open spec fn rename_page_outcome(
    document_path: Seq<char>,
    loaded: Result<SnapshotView, Seq<char>>,
    page_file: Seq<char>,
    title: Seq<char>,
) -> Result<ChangeView, Seq<char>> {
    match page_file_error(page_file) {
        Some(e) => Err(e),
        None => match document_dir_spec(document_path) {
            Err(e) => Err(e),
            Ok(_) => match checked(loaded) {
                Err(e) => Err(e),
                Ok(s) => match page_position(s.manifest.pages, page_file) {
                    None => Err(msg_page_not_found()),
                    Some(i) => {
                        let clean = clean_page_title(title, (i + 1) as nat);
                        let new_file = page_file_name_spec((i + 1) as nat, clean);
                        Ok(
                            ChangeView {
                                manifest: ManifestView {
                                    pages: s.manifest.pages.update(
                                        i,
                                        PageEntry { file: new_file, title: clean },
                                    ),
                                    ..s.manifest
                                },
                                removed: None,
                                created: None,
                                renames: if new_file != page_file {
                                    seq![(page_file, new_file)]
                                } else {
                                    seq![]
                                },
                                failure: None,
                            },
                        )
                    },
                },
            },
        },
    }
}

/// Gives a page a new title, and its file the name that goes with it.
pub fn rename_document_page(
    document_path: &str,
    loaded: &Result<DocumentSnapshot, String>,
    page_file: &str,
    title: &str,
) -> (r: Result<DocumentChange, String>)
    requires
        loaded_wf(loaded),
    ensures
        match r {
            Ok(c) => rename_page_outcome(document_path@, loaded_view(*loaded), page_file@, title@) matches Ok(x)
                && is_change(c@, x),
            Err(e) => rename_page_outcome(document_path@, loaded_view(*loaded), page_file@, title@)
                == Err::<ChangeView, Seq<char>>(e@),
        },
{
    let now = now_string();
    rename_document_page_at(document_path, loaded, page_file, title, now.as_str())
}

/// As `rename_document_page`, with the current time given: the manifest is stamped with `now`.
pub fn rename_document_page_at(
    document_path: &str,
    loaded: &Result<DocumentSnapshot, String>,
    page_file: &str,
    title: &str,
    now: &str,
) -> (r: Result<DocumentChange, String>)
    requires
        loaded_wf(loaded),
    ensures
        r matches Ok(c) ==> c.manifest@.updated_at == now@,
        match r {
            Ok(c) => rename_page_outcome(document_path@, loaded_view(*loaded), page_file@, title@) matches Ok(x)
                && is_change(c@, x),
            Err(e) => rename_page_outcome(document_path@, loaded_view(*loaded), page_file@, title@)
                == Err::<ChangeView, Seq<char>>(e@),
        },
{
    let pf = chars_of(page_file);
    match page_file_error_of(&pf) {
        Some(e) => {
            return Err(e);
        },
        None => {},
    }
    let path = chars_of(document_path);
    match document_dir_of(&path) {
        Err(e) => {
            return Err(e);
        },
        Ok(_) => {},
    }
    let s = match checked_snapshot(loaded) {
        Err(e) => {
            return Err(e);
        },
        Ok(s) => s,
    };
    let index = match position_of(&s.manifest.pages, page_file) {
        None => {
            return Err("Page not found".to_string());
        },
        Some(i) => i,
    };
    let t = trim_of(&chars_of(title));
    let clean = if t.len() == 0 {
        default_title_of(index + 1)
    } else {
        t
    };
    let new_file = page_file_name_of(index + 1, &clean);
    let mut renames: Vec<(String, String)> = Vec::new();
    let same = crate::text::chars_eq(&new_file, &pf);
    let new_file_s = string_of(&new_file);
    if !same {
        renames.push((page_file.to_string(), new_file_s.clone()));
        assert(rename_views(renames@) =~= seq![(page_file@, new_file@)]);
    } else {
        assert(rename_views(renames@) =~= Seq::<(Seq<char>, Seq<char>)>::empty());
    }
    let mut manifest = copy_manifest(&s.manifest);
    let ghost m0 = manifest@;
    let entry = DocumentPageManifest { file: new_file_s, title: string_of(&clean) };
    manifest.pages.set(index, entry);
    assert(page_entries(manifest.pages@) =~= m0.pages.update(index as int, entry@));
    manifest.updated_at = now.to_string();
    Ok(DocumentChange { manifest, removed: None, created: None, renames, failure: None })
}

// ---------------------------------------------------------------------------
// Adding a page
// ---------------------------------------------------------------------------

/// The title given for a new page, trimmed, when it is not empty.
pub open spec fn explicit_title(title: Option<Seq<char>>) -> Option<Seq<char>> {
    match title {
        None => None,
        Some(t) => if trim(t).len() > 0 {
            Some(trim(t))
        } else {
            None
        },
    }
}

/// What adding a page gives: a page at the end, titled as given or
/// `Page <n>`, whose file starts with the given title as a heading.
pub open spec fn create_page_outcome(
    document_path: Seq<char>,
    loaded: Result<SnapshotView, Seq<char>>,
    title: Option<Seq<char>>,
) -> Result<ChangeView, Seq<char>> {
    match document_dir_spec(document_path) {
        Err(e) => Err(e),
        Ok(_) => match checked(loaded) {
            Err(e) => Err(e),
            Ok(s) => {
                let index = (s.manifest.pages.len() + 1) as nat;
                let explicit = explicit_title(title);
                let t = match explicit {
                    Some(e) => e,
                    None => default_title(index),
                };
                let file = page_file_name_spec(index, t);
                let content = match explicit {
                    Some(e) => seq!['#', ' '] + e + seq!['\n', '\n'],
                    None => seq![],
                };
                Ok(
                    ChangeView {
                        manifest: ManifestView {
                            pages: s.manifest.pages.push(PageEntry { file, title: t }),
                            ..s.manifest
                        },
                        removed: None,
                        created: Some((file, content)),
                        renames: seq![],
                        failure: None,
                    },
                )
            },
        },
    }
}

/// Adds a page at the end of a document.
pub fn create_document_page(
    document_path: &str,
    loaded: &Result<DocumentSnapshot, String>,
    title: Option<&str>,
) -> (r: Result<DocumentChange, String>)
    requires
        loaded_wf(loaded),
        loaded matches Ok(s) ==> s.manifest.pages.len() < usize::MAX,
    ensures
        match r {
            Ok(c) => create_page_outcome(
                document_path@,
                loaded_view(*loaded),
                match title {
                    None => None,
                    Some(t) => Some(t@),
                },
            ) matches Ok(x) && is_change(c@, x),
            Err(e) => create_page_outcome(
                document_path@,
                loaded_view(*loaded),
                match title {
                    None => None,
                    Some(t) => Some(t@),
                },
            ) == Err::<ChangeView, Seq<char>>(e@),
        },
{
    let now = now_string();
    create_document_page_at(document_path, loaded, title, now.as_str())
}

/// As `create_document_page`, with the current time given: the manifest is stamped with `now`.
pub fn create_document_page_at(
    document_path: &str,
    loaded: &Result<DocumentSnapshot, String>,
    title: Option<&str>,
    now: &str,
) -> (r: Result<DocumentChange, String>)
    requires
        loaded_wf(loaded),
        loaded matches Ok(s) ==> s.manifest.pages.len() < usize::MAX,
    ensures
        r matches Ok(c) ==> c.manifest@.updated_at == now@,
        match r {
            Ok(c) => create_page_outcome(
                document_path@,
                loaded_view(*loaded),
                match title {
                    None => None,
                    Some(t) => Some(t@),
                },
            ) matches Ok(x) && is_change(c@, x),
            Err(e) => create_page_outcome(
                document_path@,
                loaded_view(*loaded),
                match title {
                    None => None,
                    Some(t) => Some(t@),
                },
            ) == Err::<ChangeView, Seq<char>>(e@),
        },
{
    let path = chars_of(document_path);
    match document_dir_of(&path) {
        Err(e) => {
            return Err(e);
        },
        Ok(_) => {},
    }
    let s = match checked_snapshot(loaded) {
        Err(e) => {
            return Err(e);
        },
        Ok(s) => s,
    };
    let index = s.manifest.pages.len() + 1;
    let explicit: Option<Vec<char>> = match title {
        None => None,
        Some(t) => {
            let tt = trim_of(&chars_of(t));
            if tt.len() > 0 {
                Some(tt)
            } else {
                None
            }
        },
    };
    let t = match &explicit {
        Some(e) => e.clone(),
        None => default_title_of(index),
    };
    let file = page_file_name_of(index, &t);
    let content = match &explicit {
        Some(e) => {
            let a = concat(&vec!['#', ' '], e);
            let c = concat(&a, &vec!['\n', '\n']);
            assert(c@ =~= seq!['#', ' '] + e@ + seq!['\n', '\n']);
            c
        },
        None => Vec::new(),
    };
    let mut manifest = copy_manifest(&s.manifest);
    let ghost m0 = manifest@;
    let file_s = string_of(&file);
    let entry = DocumentPageManifest { file: file_s.clone(), title: string_of(&t) };
    manifest.pages.push(entry);
    assert(page_entries(manifest.pages@) =~= m0.pages.push(entry@));
    manifest.updated_at = now.to_string();
    let renames: Vec<(String, String)> = Vec::new();
    assert(rename_views(renames@) =~= Seq::<(Seq<char>, Seq<char>)>::empty());
    Ok(
        DocumentChange {
            manifest,
            removed: None,
            created: Some((file_s, string_of(&content))),
            renames,
            failure: None,
        },
    )
}

// ---------------------------------------------------------------------------
// Laws
// ---------------------------------------------------------------------------

proof fn lemma_no_pages_error(pages: Seq<PageEntry>)
    requires
        forall|i: int| 0 <= i < pages.len() ==> page_file_error(#[trigger] pages[i].file) is None,
    ensures
        pages_error(pages) is None,
    decreases pages.len(),
{
    if pages.len() > 0 {
        assert forall|i: int| 0 <= i < pages.drop_last().len() implies page_file_error(
            #[trigger] pages.drop_last()[i].file,
        ) is None by {
            assert(pages.drop_last()[i] == pages[i]);
        }
        lemma_no_pages_error(pages.drop_last());
    }
}

/// Renumbered pages have valid and pairwise different files, whatever the
/// titles.
pub proof fn lemma_renumbered_files(pages: Seq<PageEntry>)
    ensures
        pages_error(renumbered(pages)) is None,
        forall|i: int, j: int|
            0 <= i < pages.len() && 0 <= j < pages.len() && i != j ==> (#[trigger] renumbered(
                pages,
            )[i]).file != (#[trigger] renumbered(pages)[j]).file,
{
    let r = renumbered(pages);
    assert forall|i: int| 0 <= i < r.len() implies page_file_error(#[trigger] r[i].file) is None by {
        crate::paths::lemma_page_file_name_valid((i + 1) as nat, pages[i].title);
    }
    lemma_no_pages_error(r);
    assert forall|i: int, j: int|
        0 <= i < pages.len() && 0 <= j < pages.len() && i != j implies (#[trigger] r[i]).file != (
    #[trigger] r[j]).file by {
        crate::paths::lemma_page_file_names_distinct(
            (i + 1) as nat,
            pages[i].title,
            (j + 1) as nat,
            pages[j].title,
        );
    }
}

/// Moving a page up and then moving it back down gives the pages of the
/// document in their first order, each with the file of its position.
/// (A move that meets a refused page file name stops before it changes the
/// manifest; the law speaks of a first move that goes through.)
pub proof fn lemma_move_up_then_down(
    document_path: Seq<char>,
    s: SnapshotView,
    page_file: Seq<char>,
    sources: Seq<crate::document::SourceView>,
    updated_at: Seq<char>,
)
    requires
        move_outcome(document_path, Ok(s), page_file, MoveDirection::Up) is Ok,
        move_outcome(document_path, Ok(s), page_file, MoveDirection::Up)->Ok_0 is Some,
        (move_outcome(document_path, Ok(s), page_file, MoveDirection::Up)->Ok_0->Some_0).failure is None,
    ensures
        ({
            let c = move_outcome(document_path, Ok(s), page_file, MoveDirection::Up)->Ok_0->Some_0;
            let i = page_position(s.manifest.pages, page_file)->Some_0;
            let s2 = SnapshotView { manifest: stamped(c.manifest, updated_at), pages: sources };
            &&& move_outcome(document_path, Ok(s2), c.manifest.pages[i - 1].file, MoveDirection::Down) is Ok
            &&& move_outcome(document_path, Ok(s2), c.manifest.pages[i - 1].file, MoveDirection::Down)->Ok_0 is Some
            &&& (move_outcome(document_path, Ok(s2), c.manifest.pages[i - 1].file, MoveDirection::Down)->Ok_0->Some_0).failure is None
            &&& (move_outcome(document_path, Ok(s2), c.manifest.pages[i - 1].file, MoveDirection::Down)->Ok_0->Some_0).manifest.pages
                == renumbered(s.manifest.pages)
        }),
{
    let pages = s.manifest.pages;
    let i = page_position(pages, page_file)->Some_0;
    crate::edits::lemma_first_where_in_range(pages.len() as int, |k: int| pages[k].file == page_file);
    let sw = swapped(pages, i, i - 1);
    let q = renumbered(sw);
    let c = move_outcome(document_path, Ok(s), page_file, MoveDirection::Up)->Ok_0->Some_0;
    assert(first_bad_page(sw) is None) by {
        let p = |k: int| page_file_error(sw[k].file) is Some;
        if first_bad_page(sw) is Some {
            crate::edits::lemma_first_where_in_range(sw.len() as int, p);
        }
    }
    assert(c.manifest.pages == q);
    lemma_renumbered_files(sw);
    let f = q[i - 1].file;
    let pq = |k: int| q[k].file == f;
    assert forall|k: int| 0 <= k < i - 1 implies !#[trigger] pq(k) by {
        assert(q[k].file != q[i - 1].file);
    }
    crate::edits::lemma_first_where_some(q.len() as int, pq, i - 1);
    assert(page_position(q, f) == Some(i - 1));
    let sw2 = swapped(q, i - 1, i);
    lemma_renumbered_files(sw2);
    assert forall|k: int| 0 <= k < sw2.len() implies page_file_error(#[trigger] sw2[k].file) is None by {
        assert(page_file_error(q[k].file) is None) by {
            crate::paths::lemma_page_file_name_valid((k + 1) as nat, sw[k].title);
        }
        if k == i - 1 {
            crate::paths::lemma_page_file_name_valid((i + 1) as nat, sw[i].title);
        } else if k == i {
            crate::paths::lemma_page_file_name_valid(i as nat, sw[i - 1].title);
        }
    }
    let p2 = |k: int| page_file_error(sw2[k].file) is Some;
    assert forall|k: int| 0 <= k < sw2.len() implies !#[trigger] p2(k) by {
        assert(page_file_error(sw2[k].file) is None);
    }
    crate::edits::lemma_first_where_none(sw2.len() as int, p2);
    assert(renumbered(sw2) =~= renumbered(pages));
    let s2 = SnapshotView { manifest: stamped(c.manifest, updated_at), pages: sources };
    crate::paths::lemma_page_file_name_valid(i as nat, sw[i - 1].title);
    assert(f == page_file_name_spec(i as nat, sw[i - 1].title));
    assert(page_file_error(f) is None);
    assert(document_dir_spec(document_path) is Ok);
    assert(manifest_error(s.manifest) is None);
    assert(manifest_error(s2.manifest) is None);
    assert(checked(Ok(s2)) == Ok::<SnapshotView, Seq<char>>(s2));
    assert(s2.manifest.pages == q);
    assert(move_target(i - 1, q.len() as int, MoveDirection::Down) == Some(i));
    assert(first_bad_page(swapped(q, i - 1, i)) is None);
}

/// A deleted page leaves the document with one page fewer, and never with
/// none. (A deletion that meets a refused page file name stops before it
/// changes the manifest; the law speaks of one that goes through.)
pub proof fn lemma_delete_keeps_a_page(
    document_path: Seq<char>,
    loaded: Result<SnapshotView, Seq<char>>,
    page_file: Seq<char>,
)
    requires
        delete_outcome(document_path, loaded, page_file) is Ok,
        delete_outcome(document_path, loaded, page_file)->Ok_0.failure is None,
    ensures
        delete_outcome(document_path, loaded, page_file)->Ok_0.manifest.pages.len() >= 1,
        delete_outcome(document_path, loaded, page_file)->Ok_0.manifest.pages.len() == loaded->Ok_0.manifest.pages.len() - 1,
{
}

// ---------------------------------------------------------------------------
// What renames do to the files
// ---------------------------------------------------------------------------

/// The files of a folder, by name, after one rename: the content moves from
/// the old name to the new one.
pub open spec fn apply_rename(files: Map<Seq<char>, Seq<char>>, r: (Seq<char>, Seq<char>)) -> Map<
    Seq<char>,
    Seq<char>,
> {
    if files.dom().contains(r.0) {
        files.remove(r.0).insert(r.1, files[r.0])
    } else {
        files
    }
}

/// The files of a folder after renames carried out in order.
pub open spec fn apply_renames(files: Map<Seq<char>, Seq<char>>, rs: Seq<(Seq<char>, Seq<char>)>) -> Map<
    Seq<char>,
    Seq<char>,
>
    decreases rs.len(),
{
    if rs.len() == 0 {
        files
    } else {
        apply_rename(apply_renames(files, rs.drop_last()), rs.last())
    }
}

proof fn lemma_apply_renames_append(
    files: Map<Seq<char>, Seq<char>>,
    a: Seq<(Seq<char>, Seq<char>)>,
    b: Seq<(Seq<char>, Seq<char>)>,
)
    ensures
        apply_renames(files, a + b) == apply_renames(apply_renames(files, a), b),
    decreases b.len(),
{
    if b.len() == 0 {
        assert(a + b =~= a);
    } else {
        lemma_apply_renames_append(files, a, b.drop_last());
        assert((a + b).drop_last() =~= a + b.drop_last());
        assert((a + b).last() == b.last());
    }
}

/// Pages whose files are valid and pairwise different.
pub open spec fn distinct_valid_files(pages: Seq<PageEntry>) -> bool {
    &&& forall|i: int| 0 <= i < pages.len() ==> page_file_error(#[trigger] pages[i].file) is None
    &&& forall|i: int, j: int|
        0 <= i < pages.len() && 0 <= j < pages.len() && i != j ==> (#[trigger] pages[i]).file
            != (#[trigger] pages[j]).file
}

/// A valid page file name ends with `d`, a temporary name with `p`.
proof fn lemma_valid_not_temp(f: Seq<char>, g: Seq<char>)
    requires
        page_file_error(f) is None,
    ensures
        f != g + tmp_suffix(),
        f.len() > 0 && f.last() == 'd',
{
    reveal_strlit(".markch-tmp");
    reveal_strlit(".md");
    assert(f.skip(f.len() - 3) == crate::paths::md_ext());
    assert(f.last() == f.skip(f.len() - 3)[2]);
    assert((g + tmp_suffix()).last() == 'p');
}

proof fn lemma_temp_injective(f: Seq<char>, g: Seq<char>)
    requires
        f != g,
    ensures
        f + tmp_suffix() != g + tmp_suffix(),
{
    if f + tmp_suffix() == g + tmp_suffix() {
        assert((f + tmp_suffix()).len() == f.len() + tmp_suffix().len());
        assert((g + tmp_suffix()).len() == g.len() + tmp_suffix().len());
        assert(f.len() == g.len());
        assert(f =~= (f + tmp_suffix()).take(f.len() as int));
        assert(g =~= (g + tmp_suffix()).take(g.len() as int));
    }
}

/// Renumbering moves each page's content to the page's new file: with the
/// files valid, different and present, after the renames the `k`-th new file
/// holds what the `k`-th old file held.
pub proof fn lemma_renumber_moves_contents(pages: Seq<PageEntry>, files: Map<Seq<char>, Seq<char>>)
    requires
        distinct_valid_files(pages),
        forall|i: int| 0 <= i < pages.len() ==> files.dom().contains(#[trigger] pages[i].file),
    ensures
        forall|k: int|
            0 <= k < pages.len() ==> apply_renames(files, renumber_renames(pages)).dom().contains(
                (#[trigger] renumbered(pages)[k]).file,
            ) && apply_renames(files, renumber_renames(pages))[renumbered(pages)[k].file]
                == files[pages[k].file],
{
    let n = pages.len() as int;
    let first = to_temp_renames(pages);
    let r = renumbered(pages);
    let second = Seq::new(pages.len(), |i: int| (pages[i].file + tmp_suffix(), r[i].file));
    assert(renumber_renames(pages) == first + second);
    lemma_apply_renames_append(files, first, second);
    lemma_renumbered_files(pages);
    assert forall|i: int| 0 <= i < n implies page_file_error(#[trigger] r[i].file) is None by {
        crate::paths::lemma_page_file_name_valid((i + 1) as nat, pages[i].title);
    }
    lemma_temp_phase(pages, files, n);
    let g = apply_renames(files, first);
    assert(first.take(n) =~= first);
    lemma_final_phase(pages, files, g, n);
    assert(second.take(n) =~= second);
}

proof fn lemma_temp_phase(pages: Seq<PageEntry>, files: Map<Seq<char>, Seq<char>>, j: int)
    requires
        distinct_valid_files(pages),
        forall|i: int| 0 <= i < pages.len() ==> files.dom().contains(#[trigger] pages[i].file),
        0 <= j <= pages.len(),
    ensures
        ({
            let g = apply_renames(files, to_temp_renames(pages).take(j));
            &&& forall|m: int|
                0 <= m < j ==> g.dom().contains(#[trigger] pages[m].file + tmp_suffix()) && g[pages[m].file
                    + tmp_suffix()] == files[pages[m].file]
            &&& forall|m: int|
                j <= m < pages.len() ==> g.dom().contains(#[trigger] pages[m].file) && g[pages[m].file]
                    == files[pages[m].file]
        }),
    decreases j,
{
    let t = to_temp_renames(pages);
    if j == 0 {
        assert(t.take(0) =~= Seq::<(Seq<char>, Seq<char>)>::empty());
    } else {
        lemma_temp_phase(pages, files, j - 1);
        let g0 = apply_renames(files, t.take(j - 1));
        assert(t.take(j).drop_last() =~= t.take(j - 1));
        assert(t.take(j).last() == (pages[j - 1].file, pages[j - 1].file + tmp_suffix()));
        let fj = pages[j - 1].file;
        let g = apply_renames(files, t.take(j));
        assert(g == g0.remove(fj).insert(fj + tmp_suffix(), g0[fj]));
        assert forall|m: int| 0 <= m < j implies g.dom().contains(
            #[trigger] pages[m].file + tmp_suffix(),
        ) && g[pages[m].file + tmp_suffix()] == files[pages[m].file] by {
            if m < j - 1 {
                lemma_valid_not_temp(fj, pages[m].file);
                lemma_temp_injective(pages[m].file, fj);
            }
        }
        assert forall|m: int| j <= m < pages.len() implies g.dom().contains(#[trigger] pages[m].file)
            && g[pages[m].file] == files[pages[m].file] by {
            lemma_valid_not_temp(pages[m].file, fj);
            assert(pages[m].file != fj);
        }
    }
}

proof fn lemma_final_phase(
    pages: Seq<PageEntry>,
    files: Map<Seq<char>, Seq<char>>,
    g: Map<Seq<char>, Seq<char>>,
    j: int,
)
    requires
        distinct_valid_files(pages),
        distinct_valid_files(renumbered(pages)),
        0 <= j <= pages.len(),
        forall|m: int|
            0 <= m < pages.len() ==> g.dom().contains(#[trigger] pages[m].file + tmp_suffix())
                && g[pages[m].file + tmp_suffix()] == files[pages[m].file],
    ensures
        ({
            let second = Seq::new(
                pages.len(),
                |i: int| (pages[i].file + tmp_suffix(), renumbered(pages)[i].file),
            );
            let h = apply_renames(g, second.take(j));
            &&& forall|m: int|
                0 <= m < j ==> h.dom().contains((#[trigger] renumbered(pages)[m]).file) && h[renumbered(
                    pages,
                )[m].file] == files[pages[m].file]
            &&& forall|m: int|
                j <= m < pages.len() ==> h.dom().contains(#[trigger] pages[m].file + tmp_suffix())
                    && h[pages[m].file + tmp_suffix()] == files[pages[m].file]
        }),
    decreases j,
{
    let r = renumbered(pages);
    let second = Seq::new(pages.len(), |i: int| (pages[i].file + tmp_suffix(), r[i].file));
    if j == 0 {
        assert(second.take(0) =~= Seq::<(Seq<char>, Seq<char>)>::empty());
    } else {
        lemma_final_phase(pages, files, g, j - 1);
        let h0 = apply_renames(g, second.take(j - 1));
        assert(second.take(j).drop_last() =~= second.take(j - 1));
        assert(second.take(j).last() == (pages[j - 1].file + tmp_suffix(), r[j - 1].file));
        let tj = pages[j - 1].file + tmp_suffix();
        let rj = r[j - 1].file;
        let h = apply_renames(g, second.take(j));
        assert(h == h0.remove(tj).insert(rj, h0[tj]));
        assert forall|m: int| 0 <= m < j implies h.dom().contains((#[trigger] r[m]).file)
            && h[r[m].file] == files[pages[m].file] by {
            if m < j - 1 {
                lemma_valid_not_temp(r[m].file, pages[j - 1].file);
                assert(r[m].file != rj);
            }
        }
        assert forall|m: int| j <= m < pages.len() implies h.dom().contains(
            #[trigger] pages[m].file + tmp_suffix(),
        ) && h[pages[m].file + tmp_suffix()] == files[pages[m].file] by {
            lemma_valid_not_temp(rj, pages[m].file);
            lemma_temp_injective(pages[m].file, pages[j - 1].file);
        }
    }
}

/// Moving a page up and then back down gives every page its content back:
/// with the manifest's page files valid, different and present in the
/// folder, after the renames of both moves the file of position `k` (the
/// name that the page's number and title give) holds what the page's file
/// held before. (A manifest that lists one file twice is left out: its
/// pages share one content.)
pub proof fn lemma_move_round_trip_contents(
    document_path: Seq<char>,
    s: SnapshotView,
    page_file: Seq<char>,
    sources: Seq<crate::document::SourceView>,
    updated_at: Seq<char>,
    files: Map<Seq<char>, Seq<char>>,
)
    requires
        move_outcome(document_path, Ok(s), page_file, MoveDirection::Up) is Ok,
        move_outcome(document_path, Ok(s), page_file, MoveDirection::Up)->Ok_0 is Some,
        (move_outcome(document_path, Ok(s), page_file, MoveDirection::Up)->Ok_0->Some_0).failure is None,
        distinct_valid_files(s.manifest.pages),
        forall|k: int|
            0 <= k < s.manifest.pages.len() ==> files.dom().contains(#[trigger] s.manifest.pages[k].file),
    ensures
        ({
            let c = move_outcome(document_path, Ok(s), page_file, MoveDirection::Up)->Ok_0->Some_0;
            let i = page_position(s.manifest.pages, page_file)->Some_0;
            let s2 = SnapshotView { manifest: stamped(c.manifest, updated_at), pages: sources };
            let back = move_outcome(document_path, Ok(s2), c.manifest.pages[i - 1].file, MoveDirection::Down)->Ok_0->Some_0;
            let after = apply_renames(apply_renames(files, c.renames), back.renames);
            forall|k: int|
                0 <= k < s.manifest.pages.len() ==> after.dom().contains(
                    (#[trigger] renumbered(s.manifest.pages)[k]).file,
                ) && after[renumbered(s.manifest.pages)[k].file] == files[s.manifest.pages[k].file]
        }),
{
    lemma_move_up_then_down(document_path, s, page_file, sources, updated_at);
    let pages = s.manifest.pages;
    let n = pages.len() as int;
    let i = page_position(pages, page_file)->Some_0;
    crate::edits::lemma_first_where_in_range(n, |k: int| pages[k].file == page_file);
    let sw = swapped(pages, i, i - 1);
    let sig = |k: int| if k == i { i - 1 } else if k == i - 1 { i } else { k };
    assert forall|k: int| 0 <= k < n implies #[trigger] sw[k] == pages[sig(k)] by {}
    assert(distinct_valid_files(sw)) by {
        assert forall|a: int, b: int| 0 <= a < n && 0 <= b < n && a != b implies (#[trigger] sw[a]).file
            != (#[trigger] sw[b]).file by {
            assert(sw[a] == pages[sig(a)]);
            assert(sw[b] == pages[sig(b)]);
        }
        assert forall|a: int| 0 <= a < n implies page_file_error(#[trigger] sw[a].file) is None by {
            assert(sw[a] == pages[sig(a)]);
        }
    }
    assert forall|k: int| 0 <= k < n implies files.dom().contains(#[trigger] sw[k].file) by {
        assert(sw[k] == pages[sig(k)]);
    }
    let pb = |k: int| page_file_error(sw[k].file) is Some;
    assert forall|k: int| 0 <= k < n implies !#[trigger] pb(k) by {
        assert(page_file_error(sw[k].file) is None);
    }
    crate::edits::lemma_first_where_none(n, pb);
    let c = move_outcome(document_path, Ok(s), page_file, MoveDirection::Up)->Ok_0->Some_0;
    let q = renumbered(sw);
    assert(c.renames == renumber_renames(sw));
    assert(c.manifest.pages == q);
    lemma_renumber_moves_contents(sw, files);
    let f1 = apply_renames(files, c.renames);
    // The second move.
    lemma_renumbered_files(sw);
    assert forall|k: int| 0 <= k < n implies page_file_error(#[trigger] q[k].file) is None by {
        crate::paths::lemma_page_file_name_valid((k + 1) as nat, sw[k].title);
    }
    let f = q[i - 1].file;
    let pq = |k: int| q[k].file == f;
    assert forall|k: int| 0 <= k < i - 1 implies !#[trigger] pq(k) by {
        assert(q[k].file != q[i - 1].file);
    }
    crate::edits::lemma_first_where_some(n, pq, i - 1);
    let sw2 = swapped(q, i - 1, i);
    assert forall|k: int| 0 <= k < n implies #[trigger] sw2[k] == q[sig(k)] by {}
    assert(distinct_valid_files(sw2)) by {
        assert forall|a: int, b: int| 0 <= a < n && 0 <= b < n && a != b implies (#[trigger] sw2[a]).file
            != (#[trigger] sw2[b]).file by {
            assert(sw2[a] == q[sig(a)]);
            assert(sw2[b] == q[sig(b)]);
        }
        assert forall|a: int| 0 <= a < n implies page_file_error(#[trigger] sw2[a].file) is None by {
            assert(sw2[a] == q[sig(a)]);
        }
    }
    assert forall|k: int| 0 <= k < n implies f1.dom().contains(#[trigger] sw2[k].file) by {
        assert(sw2[k] == q[sig(k)]);
        assert(f1.dom().contains(q[sig(k)].file));
    }
    let pb2 = |k: int| page_file_error(sw2[k].file) is Some;
    assert forall|k: int| 0 <= k < n implies !#[trigger] pb2(k) by {
        assert(page_file_error(sw2[k].file) is None);
    }
    crate::edits::lemma_first_where_none(n, pb2);
    let s2 = SnapshotView { manifest: stamped(c.manifest, updated_at), pages: sources };
    let back = move_outcome(document_path, Ok(s2), f, MoveDirection::Down)->Ok_0->Some_0;
    assert(page_position(q, f) == Some(i - 1));
    assert(back.renames == renumber_renames(sw2));
    lemma_renumber_moves_contents(sw2, f1);
    assert(renumbered(sw2) =~= renumbered(pages));
    let after = apply_renames(f1, back.renames);
    assert forall|k: int| 0 <= k < n implies after.dom().contains(
        (#[trigger] renumbered(pages)[k]).file,
    ) && after[renumbered(pages)[k].file] == files[pages[k].file] by {
        assert(renumbered(sw2)[k] == renumbered(pages)[k]);
        assert(sw2[k] == q[sig(k)]);
        assert(f1[q[sig(k)].file] == files[sw[sig(k)].file]);
        assert(sw[sig(k)] == pages[k]);
    }
}

/// Renaming the page at position `k` (from 0) of a valid document succeeds,
/// and gives that page, and no other, the title given (trimmed; `Page <k+1>`
/// when blank) and the file named from its own number `k + 1` and that title:
/// the file name starts with `k + 1` zero-padded to three digits. The other
/// pages and their order stay as they were, and the old file is renamed to
/// the new one when the name changes.
pub proof fn lemma_rename_numbers_by_position(
    document_path: Seq<char>,
    s: SnapshotView,
    page_file: Seq<char>,
    title: Seq<char>,
    k: int,
)
    requires
        0 <= k < s.manifest.pages.len(),
        s.manifest.pages[k].file == page_file,
        forall|j: int| 0 <= j < k ==> (#[trigger] s.manifest.pages[j]).file != page_file,
    ensures
        page_file_error(page_file) is None && document_dir_spec(document_path) is Ok
            && manifest_error(s.manifest) is None ==> rename_page_outcome(
            document_path,
            Ok(s),
            page_file,
            title,
        ) is Ok,
        rename_page_outcome(document_path, Ok(s), page_file, title) matches Ok(c) ==> {
            let t = if trim(title).len() == 0 {
                default_title((k + 1) as nat)
            } else {
                trim(title)
            };
            let f = c.manifest.pages[k].file;
            &&& c.manifest.pages.len() == s.manifest.pages.len()
            &&& c.manifest.pages[k].title == t
            &&& f == page_file_name_spec((k + 1) as nat, t)
            &&& f.take(crate::decimal::decimal3((k + 1) as nat).len() as int) == crate::decimal::decimal3(
                (k + 1) as nat,
            )
            &&& forall|j: int|
                0 <= j < s.manifest.pages.len() && j != k ==> #[trigger] c.manifest.pages[j]
                    == s.manifest.pages[j]
            &&& c.renames == if f != page_file {
                seq![(page_file, f)]
            } else {
                seq![]
            }
        },
{
    let p = |i: int| s.manifest.pages[i].file == page_file;
    assert forall|j: int| 0 <= j < k implies !#[trigger] p(j) by {
        assert(s.manifest.pages[j].file != page_file);
    }
    crate::edits::lemma_first_where_some(s.manifest.pages.len() as int, p, k);
    assert(page_position(s.manifest.pages, page_file) == Some(k));
    let t = clean_page_title(title, (k + 1) as nat);
    crate::paths::lemma_page_file_name_number((k + 1) as nat, t);
}

/// Renaming a page that the document does not list is refused with `Page not
/// found`, once the file name, the document path and the manifest are valid.
pub proof fn lemma_rename_unlisted_refused(
    document_path: Seq<char>,
    s: SnapshotView,
    page_file: Seq<char>,
    title: Seq<char>,
)
    requires
        forall|j: int| 0 <= j < s.manifest.pages.len() ==> (#[trigger] s.manifest.pages[j]).file
            != page_file,
        page_file_error(page_file) is None,
        document_dir_spec(document_path) is Ok,
        manifest_error(s.manifest) is None,
    ensures
        rename_page_outcome(document_path, Ok(s), page_file, title) == Err::<ChangeView, Seq<char>>(
            msg_page_not_found(),
        ),
{
    let p = |i: int| s.manifest.pages[i].file == page_file;
    assert forall|j: int| 0 <= j < s.manifest.pages.len() implies !#[trigger] p(j) by {
        assert(s.manifest.pages[j].file != page_file);
    }
    crate::edits::lemma_first_where_none(s.manifest.pages.len() as int, p);
}

} // verus!
