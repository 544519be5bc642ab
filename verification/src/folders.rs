//! Document folders: choosing a folder for a new document, renaming and
//! deleting a document, and listing documents.
use vstd::prelude::*;
use crate::text::{chars_of, string_of, concat, trim, trim_of, trail_len, lemma_trail, sub_vec, replace_char, replace_char_of};
use crate::decimal::{decimal, decimal_of};
use crate::paths::{
    sanitized, sanitize_chars, normalized, normalize_chars, document_path_error,
    document_path_error_of, document_dir_spec, document_dir_of, page_file_name_spec,
    page_file_name_of, rfind,
};
use crate::paginate::{default_title, default_title_of};
use crate::model::{
    DocumentManifest, ManifestView, DocumentPageManifest, PageEntry, page_entries,
    DocumentMetadata, DOCUMENT_TYPE,
};
use crate::document::{
    DocumentProbe, ProbeView, SnapshotView, checked, checked_snapshot, manifest_error,
    check_manifest,
};
use crate::edits::copy_manifest;
use crate::clock::now_string;

verus! {

// ---------------------------------------------------------------------------
// New documents
// ---------------------------------------------------------------------------

/// The folder tried for a new document at a given attempt: the sanitized
/// title, then the title with `-1`, `-2`, ... added, under the parent folder
/// when one is given and not empty.
pub open spec fn folder_candidate(parent: Option<Seq<char>>, title: Seq<char>, attempt: nat) -> Result<
    Seq<char>,
    Seq<char>,
> {
    let base = sanitized(title);
    let p = match parent {
        None => None,
        Some(p) => if normalized(p).len() > 0 {
            Some(normalized(p))
        } else {
            None
        },
    };
    let name = if attempt == 0 {
        base
    } else {
        base + seq!['-'] + decimal(attempt)
    };
    match p {
        Some(pp) => match document_path_error(pp) {
            Some(e) => Err(e),
            None => {
                let rel = pp + seq!['/'] + name;
                match document_dir_spec(rel) {
                    Err(e) => Err(e),
                    Ok(_) => Ok(rel),
                }
            },
        },
        None => match document_dir_spec(name) {
            Err(e) => Err(e),
            Ok(_) => Ok(name),
        },
    }
}

/// The folder to try for a new document at an attempt (from 0); the caller
/// takes the first one that does not exist yet.
pub fn unique_folder_candidate(parent: Option<&str>, title: &str, attempt: usize) -> (r: Result<
    String,
    String,
>)
    ensures
        match r {
            Ok(p) => folder_candidate(
                match parent {
                    None => None,
                    Some(p) => Some(p@),
                },
                title@,
                attempt as nat,
            ) == Ok::<Seq<char>, Seq<char>>(p@),
            Err(e) => folder_candidate(
                match parent {
                    None => None,
                    Some(p) => Some(p@),
                },
                title@,
                attempt as nat,
            ) == Err::<Seq<char>, Seq<char>>(e@),
        },
{
    let base = sanitize_chars(&chars_of(title));
    let p: Option<Vec<char>> = match parent {
        None => None,
        Some(p) => {
            let n = normalize_chars(&chars_of(p));
            if n.len() > 0 {
                Some(n)
            } else {
                None
            }
        },
    };
    let name = if attempt == 0 {
        base
    } else {
        let a = concat(&base, &vec!['-']);
        let r = concat(&a, &decimal_of(attempt));
        assert(r@ =~= base@ + seq!['-'] + decimal(attempt as nat));
        r
    };
    let rel = match p {
        Some(pp) => {
            match document_path_error_of(&pp) {
                Some(e) => {
                    return Err(e);
                },
                None => {},
            }
            let a = concat(&pp, &vec!['/']);
            let r = concat(&a, &name);
            assert(r@ =~= pp@ + seq!['/'] + name@);
            r
        },
        None => name,
    };
    match document_dir_of(&rel) {
        Err(e) => Err(e),
        Ok(_) => Ok(string_of(&rel)),
    }
}

pub open spec fn opt_view(o: Option<&str>) -> Option<Seq<char>> {
    match o {
        None => None,
        Some(p) => Some(p@),
    }
}

/// The folder a new document takes, given for the attempts looked at so far
/// whether their folder exists: the candidate of the first attempt that is
/// refused or free. A refused candidate gives its error; nothing is decided
/// while every attempt looked at is taken.
pub open spec fn free_folder(parent: Option<Seq<char>>, title: Seq<char>, taken: Seq<bool>) -> Result<
    Option<Seq<char>>,
    Seq<char>,
> {
    match crate::edits::first_where(
        taken.len() as int,
        |i: int| folder_candidate(parent, title, i as nat) is Err || !taken[i],
    ) {
        None => Ok(None),
        Some(i) => match folder_candidate(parent, title, i as nat) {
            Err(e) => Err(e),
            Ok(p) => Ok(Some(p)),
        },
    }
}

/// Picks the folder for a new document from the answers, attempt by attempt,
/// to whether each candidate folder exists.
pub fn first_free_folder(parent: Option<&str>, title: &str, taken: &Vec<bool>) -> (r: Result<
    Option<String>,
    String,
>)
    ensures
        match r {
            Ok(None) => free_folder(opt_view(parent), title@, taken@) == Ok::<
                Option<Seq<char>>,
                Seq<char>,
            >(None),
            Ok(Some(p)) => free_folder(opt_view(parent), title@, taken@) == Ok::<
                Option<Seq<char>>,
                Seq<char>,
            >(Some(p@)),
            Err(e) => free_folder(opt_view(parent), title@, taken@) == Err::<
                Option<Seq<char>>,
                Seq<char>,
            >(e@),
        },
{
    let ghost pv = opt_view(parent);
    let ghost q = |i: int| folder_candidate(pv, title@, i as nat) is Err || !taken@[i];
    for i in 0..taken.len()
        invariant
            pv == opt_view(parent),
            q == (|i: int| folder_candidate(pv, title@, i as nat) is Err || !taken@[i]),
            forall|j: int| 0 <= j < i ==> !#[trigger] q(j),
    {
        assert(pv == match parent {
            None => None,
            Some(p) => Some(p@),
        });
        match unique_folder_candidate(parent, title, i) {
            Err(e) => {
                proof {
                    crate::edits::lemma_first_where_some(taken.len() as int, q, i as int);
                }
                return Err(e);
            },
            Ok(c) => {
                if !taken[i] {
                    proof {
                        crate::edits::lemma_first_where_some(taken.len() as int, q, i as int);
                    }
                    return Ok(Some(c));
                }
            },
        }
    }
    proof {
        crate::edits::lemma_first_where_none(taken.len() as int, q);
    }
    Ok(None)
}

pub open spec fn untitled_document() -> Seq<char> {
    "Untitled Document"@
}

/// The title of a new document: trimmed, or `Untitled Document`.
pub open spec fn clean_document_title(title: Seq<char>) -> Seq<char> {
    if trim(title).len() == 0 {
        untitled_document()
    } else {
        trim(title)
    }
}

pub fn document_title(title: &str) -> (r: String)
    ensures
        r@ == clean_document_title(title@),
{
    let t = trim_of(&chars_of(title));
    if t.len() == 0 {
        "Untitled Document".to_string()
    } else {
        string_of(&t)
    }
}

/// The manifest of a new document: one empty page, `Page 1`.
pub open spec fn new_manifest(title: Seq<char>, now: Seq<char>) -> ManifestView {
    ManifestView {
        document_type: DOCUMENT_TYPE@,
        version: 1,
        title,
        pages: seq![PageEntry { file: page_file_name_spec(1, default_title(1)), title: default_title(1) }],
        created_at: now,
        updated_at: now,
    }
}

/// The manifest for a new document with the given title, created now.
pub fn new_document_manifest(title: &str) -> (m: DocumentManifest)
    ensures
        m@ == new_manifest(title@, m@.created_at),
{
    let now = now_string();
    new_document_manifest_at(title, now.as_str())
}

/// As `new_document_manifest`, with the current time given: the manifest is stamped with `now`.
pub fn new_document_manifest_at(title: &str, now: &str) -> (m: DocumentManifest)
    ensures
        m@.created_at == now@ && m@.updated_at == now@,
        m@ == new_manifest(title@, m@.created_at),
{
    let page_title = default_title_of(1);
    let file = page_file_name_of(1, &page_title);
    let now = now.to_string();
    let mut pages: Vec<DocumentPageManifest> = Vec::new();
    let entry = DocumentPageManifest { file: string_of(&file), title: string_of(&page_title) };
    pages.push(entry);
    let m = DocumentManifest {
        document_type: DOCUMENT_TYPE.to_string(),
        version: 1,
        title: title.to_string(),
        pages,
        created_at: now.clone(),
        updated_at: now,
    };
    assert(m@ =~= new_manifest(title@, m@.created_at));
    m
}

// ---------------------------------------------------------------------------
// Renaming a document
// ---------------------------------------------------------------------------

pub open spec fn msg_empty_name() -> Seq<char> {
    "Document name cannot be empty"@
}

pub open spec fn msg_not_a_document() -> Seq<char> {
    "Path is not a Markch Document"@
}

pub open spec fn msg_folder_exists() -> Seq<char> {
    "A folder with that name already exists"@
}

/// The folder a document moves to when it is renamed: the same parent, the
/// sanitized new name.
pub open spec fn renamed_path(old_path: Seq<char>, clean_name: Seq<char>) -> Seq<char> {
    match rfind(old_path, '/') {
        Some(pos) => old_path.take(pos) + seq!['/'] + clean_name,
        None => clean_name,
    }
}

/// The checks on the path and the new name that come before any look at the
/// folders, and the old and new folder.
pub open spec fn rename_target(document_path: Seq<char>, new_name: Seq<char>) -> Result<
    (Seq<char>, Seq<char>),
    Seq<char>,
> {
    match document_path_error(document_path) {
        Some(e) => Err(e),
        None => if trim(new_name).len() == 0 {
            Err(msg_empty_name())
        } else {
            let old_path = normalized(document_path);
            match document_dir_spec(old_path) {
                Err(e) => Err(e),
                Ok(_) => Ok((old_path, renamed_path(old_path, sanitized(trim(new_name))))),
            }
        },
    }
}

/// The old and the new folder of a document that is to be renamed.
pub fn rename_document_target(document_path: &str, new_name: &str) -> (r: Result<
    (String, String),
    String,
>)
    ensures
        match r {
            Ok((o, n)) => rename_target(document_path@, new_name@) == Ok::<
                (Seq<char>, Seq<char>),
                Seq<char>,
            >((o@, n@)),
            Err(e) => rename_target(document_path@, new_name@) == Err::<
                (Seq<char>, Seq<char>),
                Seq<char>,
            >(e@),
        },
{
    let path = chars_of(document_path);
    match document_path_error_of(&path) {
        Some(e) => {
            return Err(e);
        },
        None => {},
    }
    let name = trim_of(&chars_of(new_name));
    if name.len() == 0 {
        return Err("Document name cannot be empty".to_string());
    }
    let clean = sanitize_chars(&name);
    let old_path = normalize_chars(&path);
    match document_dir_of(&old_path) {
        Err(e) => {
            return Err(e);
        },
        Ok(_) => {},
    }
    let t = trail_len(&old_path, crate::text::CharClass::IsNot('/'));
    proof {
        lemma_trail(old_path@, crate::text::CharClass::IsNot('/'));
    }
    let new_path = if t < old_path.len() {
        let pos = old_path.len() - t - 1;
        let a = concat(&sub_vec(&old_path, 0, pos), &vec!['/']);
        let r = concat(&a, &clean);
        assert(r@ =~= old_path@.take(pos as int) + seq!['/'] + clean@);
        r
    } else {
        clean
    };
    Ok((string_of(&old_path), string_of(&new_path)))
}

/// A document folder renamed: from and to, and the manifest to write there.
pub struct DocumentRename {
    pub old_path: String,
    pub new_path: String,
    pub manifest: DocumentManifest,
}

/// What renaming a document gives. `old` is what was found in the old folder
/// (`is_document` when it is a folder holding a manifest); `new_exists` tells
/// whether the new folder exists.
pub open spec fn rename_outcome(
    document_path: Seq<char>,
    new_name: Seq<char>,
    old: ProbeView,
    new_exists: bool,
) -> Result<(Seq<char>, Seq<char>, ManifestView), Seq<char>> {
    match rename_target(document_path, new_name) {
        Err(e) => Err(e),
        Ok((old_path, new_path)) => if !old.is_document {
            Err(msg_not_a_document())
        } else {
            match checked(old.loaded) {
                Err(e) => Err(e),
                Ok(s) => match document_dir_spec(new_path) {
                    Err(e) => Err(e),
                    Ok(_) => if new_exists {
                        Err(msg_folder_exists())
                    } else {
                        Ok(
                            (
                                old_path,
                                new_path,
                                ManifestView { title: sanitized(trim(new_name)), ..s.manifest },
                            ),
                        )
                    },
                },
            }
        },
    }
}

/// Renames a document: its folder moves to the new name, and its manifest
/// takes the new name as title.
pub fn rename_document(
    document_path: &str,
    new_name: &str,
    old: &DocumentProbe,
    new_exists: bool,
) -> (r: Result<DocumentRename, String>)
    ensures
        match r {
            Ok(x) => rename_outcome(document_path@, new_name@, old@, new_exists) matches Ok(
                (o, n, m),
            ) && x.old_path@ == o && x.new_path@ == n && x.manifest@ == crate::edits::stamped(
                m,
                x.manifest@.updated_at,
            ),
            Err(e) => rename_outcome(document_path@, new_name@, old@, new_exists) == Err::<
                (Seq<char>, Seq<char>, ManifestView),
                Seq<char>,
            >(e@),
        },
{
    let now = now_string();
    rename_document_at(document_path, new_name, old, new_exists, now.as_str())
}

/// As `rename_document`, with the current time given: the manifest is stamped with `now`.
pub fn rename_document_at(
    document_path: &str,
    new_name: &str,
    old: &DocumentProbe,
    new_exists: bool,
    now: &str,
) -> (r: Result<DocumentRename, String>)
    ensures
        r matches Ok(x) ==> x.manifest@.updated_at == now@,
        match r {
            Ok(x) => rename_outcome(document_path@, new_name@, old@, new_exists) matches Ok(
                (o, n, m),
            ) && x.old_path@ == o && x.new_path@ == n && x.manifest@ == crate::edits::stamped(
                m,
                x.manifest@.updated_at,
            ),
            Err(e) => rename_outcome(document_path@, new_name@, old@, new_exists) == Err::<
                (Seq<char>, Seq<char>, ManifestView),
                Seq<char>,
            >(e@),
        },
{
    let (old_path, new_path) = match rename_document_target(document_path, new_name) {
        Err(e) => {
            return Err(e);
        },
        Ok(t) => t,
    };
    if !old.is_document {
        return Err("Path is not a Markch Document".to_string());
    }
    let s = match checked_snapshot(&old.loaded) {
        Err(e) => {
            return Err(e);
        },
        Ok(s) => s,
    };
    match document_dir_of(&chars_of(new_path.as_str())) {
        Err(e) => {
            return Err(e);
        },
        Ok(_) => {},
    }
    if new_exists {
        return Err("A folder with that name already exists".to_string());
    }
    let mut manifest = copy_manifest(&s.manifest);
    manifest.title = string_of(&sanitize_chars(&trim_of(&chars_of(new_name))));
    manifest.updated_at = now.to_string();
    Ok(DocumentRename { old_path, new_path, manifest })
}

// ---------------------------------------------------------------------------
// Deleting a document
// ---------------------------------------------------------------------------

/// What deleting a document gives: the folder to remove, when the path is
/// valid and names a folder holding a manifest (`is_document`).
pub open spec fn delete_target(document_path: Seq<char>, is_document: bool) -> Result<
    Seq<char>,
    Seq<char>,
> {
    match document_path_error(document_path) {
        Some(e) => Err(e),
        None => match document_dir_spec(document_path) {
            Err(e) => Err(e),
            Ok(d) => if !is_document {
                Err(msg_not_a_document())
            } else {
                Ok(d)
            },
        },
    }
}

/// The folder to remove when a document is deleted.
pub fn delete_document(document_path: &str, is_document: bool) -> (r: Result<String, String>)
    ensures
        match r {
            Ok(d) => delete_target(document_path@, is_document) == Ok::<Seq<char>, Seq<char>>(d@),
            Err(e) => delete_target(document_path@, is_document) == Err::<Seq<char>, Seq<char>>(e@),
        },
{
    let path = chars_of(document_path);
    match document_path_error_of(&path) {
        Some(e) => {
            return Err(e);
        },
        None => {},
    }
    let d = match document_dir_of(&path) {
        Err(e) => {
            return Err(e);
        },
        Ok(d) => d,
    };
    if !is_document {
        return Err("Path is not a Markch Document".to_string());
    }
    Ok(string_of(&d))
}

// ---------------------------------------------------------------------------
// Listing documents
// ---------------------------------------------------------------------------

pub struct MetadataView {
    pub path: Seq<char>,
    pub title: Seq<char>,
    pub page_count: usize,
    pub modified: i64,
}

impl View for DocumentMetadata {
    type V = MetadataView;

    open spec fn view(&self) -> MetadataView {
        MetadataView {
            path: self.path@,
            title: self.title@,
            page_count: self.page_count,
            modified: self.modified,
        }
    }
}

/// Whether a directory walk under the notes root goes into an entry: the root
/// itself always; otherwise no hidden entry (a name starting with `.`) and no
/// folder whose name is among the ignored ones.
pub open spec fn visible_entry(is_root: bool, name: Seq<char>, is_dir: bool, ignored: Seq<Seq<char>>) -> bool {
    is_root || (!(name.len() > 0 && name[0] == '.') && !(is_dir && ignored.contains(name)))
}

/// Decides whether the walk over the notes folder visits an entry.
pub fn is_visible_notes_entry(is_root: bool, name: &str, is_dir: bool, ignored_dirs: &Vec<String>) -> (r:
    bool)
    ensures
        r == visible_entry(is_root, name@, is_dir, crate::writes::string_views(ignored_dirs@)),
{
    let ghost iv = crate::writes::string_views(ignored_dirs@);
    if is_root {
        return true;
    }
    let n = chars_of(name);
    if n.len() > 0 && n[0] == '.' {
        return false;
    }
    if !is_dir {
        return true;
    }
    let target = name.to_string();
    for i in 0..ignored_dirs.len()
        invariant
            iv == crate::writes::string_views(ignored_dirs@),
            target@ == name@,
            !is_root,
            is_dir,
            forall|j: int| 0 <= j < i ==> iv[j] != name@,
    {
        if ignored_dirs[i] == target {
            assert(iv[i as int] == name@);
            assert(iv.contains(name@));
            return false;
        }
    }
    proof {
        if iv.contains(name@) {
            let j = choose|j: int| 0 <= j < iv.len() && iv[j] == name@;
            assert(iv[j] != name@);
        }
    }
    true
}

/// The list entry of a document folder: its path relative to the notes root
/// with `/` separators, and its manifest's title and page count. No entry
/// when the manifest is refused.
pub open spec fn metadata_entry(
    relative: Seq<char>,
    separator: char,
    manifest: ManifestView,
    modified: i64,
) -> Option<MetadataView> {
    match manifest_error(manifest) {
        Some(_) => None,
        None => Some(
            MetadataView {
                path: replace_char(relative, separator, '/'),
                title: manifest.title,
                page_count: manifest.pages.len() as usize,
                modified,
            },
        ),
    }
}

/// The list entry for a document folder whose manifest was read.
pub fn document_metadata(
    relative: &str,
    separator: char,
    manifest: &DocumentManifest,
    modified: i64,
) -> (r: Option<DocumentMetadata>)
    ensures
        match r {
            None => metadata_entry(relative@, separator, manifest@, modified) is None,
            Some(m) => metadata_entry(relative@, separator, manifest@, modified) == Some(m@),
        },
{
    if check_manifest(manifest).is_err() {
        return None;
    }
    let path = replace_char_of(&chars_of(relative), separator, '/');
    Some(
        DocumentMetadata {
            path: string_of(&path),
            title: manifest.title.clone(),
            page_count: manifest.pages.len(),
            modified,
        },
    )
}

/// `a` comes before `b` or equals it in the order of `str`: character by
/// character, a proper prefix first.
pub open spec fn path_le(a: Seq<char>, b: Seq<char>) -> bool
    decreases a.len(),
{
    if a.len() == 0 {
        true
    } else if b.len() == 0 {
        false
    } else if a[0] == b[0] {
        path_le(a.drop_first(), b.drop_first())
    } else {
        a[0] < b[0]
    }
}

/// Any two paths are ordered one way or the other.
pub proof fn lemma_path_le_total(a: Seq<char>, b: Seq<char>)
    ensures
        path_le(a, b) || path_le(b, a),
    decreases a.len(),
{
    if a.len() > 0 && b.len() > 0 && a[0] == b[0] {
        lemma_path_le_total(a.drop_first(), b.drop_first());
    }
}

/// The order of paths is transitive.
pub proof fn lemma_path_le_transitive(a: Seq<char>, b: Seq<char>, c: Seq<char>)
    requires
        path_le(a, b),
        path_le(b, c),
    ensures
        path_le(a, c),
    decreases a.len(),
{
    if a.len() > 0 && b.len() > 0 && c.len() > 0 && a[0] == b[0] && b[0] == c[0] {
        lemma_path_le_transitive(a.drop_first(), b.drop_first(), c.drop_first());
    }
}

fn path_le_of(a: &Vec<char>, b: &Vec<char>) -> (r: bool)
    ensures
        r == path_le(a@, b@),
{
    let mut i: usize = 0;
    assert(a@.skip(0) =~= a@ && b@.skip(0) =~= b@);
    while i < a.len() && i < b.len() && a[i] == b[i]
        invariant
            i <= a.len(),
            i <= b.len(),
            path_le(a@, b@) == path_le(a@.skip(i as int), b@.skip(i as int)),
        decreases a.len() - i,
    {
        assert(a@.skip(i as int).drop_first() =~= a@.skip(i + 1));
        assert(b@.skip(i as int).drop_first() =~= b@.skip(i + 1));
        i += 1;
    }
    if i == a.len() {
        true
    } else if i == b.len() {
        false
    } else {
        assert(a@.skip(i as int)[0] == a@[i as int]);
        assert(b@.skip(i as int)[0] == b@[i as int]);
        a[i] < b[i]
    }
}

pub open spec fn metadata_views(v: Seq<DocumentMetadata>) -> Seq<MetadataView> {
    v.map_values(|m: DocumentMetadata| m@)
}

pub open spec fn sorted_by_path(v: Seq<MetadataView>) -> bool {
    forall|i: int, j: int| 0 <= i < j < v.len() ==> path_le(#[trigger] v[i].path, #[trigger] v[j].path)
}

/// Whether an entry has the path `p`.
pub open spec fn path_is(p: Seq<char>) -> spec_fn(MetadataView) -> bool {
    |m: MetadataView| m.path == p
}

/// The entries with path `p`, in order.
pub open spec fn with_path(v: Seq<MetadataView>, p: Seq<char>) -> Seq<MetadataView> {
    v.filter(path_is(p))
}

proof fn lemma_path_le_reflexive(a: Seq<char>)
    ensures
        path_le(a, a),
    decreases a.len(),
{
    if a.len() > 0 {
        lemma_path_le_reflexive(a.drop_first());
    }
}

proof fn lemma_with_path_push(v: Seq<MetadataView>, x: MetadataView, p: Seq<char>)
    ensures
        with_path(v.push(x), p) == (if x.path == p {
            with_path(v, p).push(x)
        } else {
            with_path(v, p)
        }),
{
    reveal(Seq::filter);
    assert(v.push(x).drop_last() =~= v);
    assert(v.push(x).last() == x);
}

proof fn lemma_with_path_none(v: Seq<MetadataView>, p: Seq<char>)
    requires
        forall|j: int| 0 <= j < v.len() ==> (#[trigger] v[j]).path != p,
    ensures
        with_path(v, p) == Seq::<MetadataView>::empty(),
    decreases v.len(),
{
    reveal(Seq::filter);
    if v.len() > 0 {
        assert forall|j: int| 0 <= j < v.drop_last().len() implies (#[trigger] v.drop_last()[j]).path
            != p by {
            assert(v.drop_last()[j] == v[j]);
        }
        lemma_with_path_none(v.drop_last(), p);
        assert(v.last() == v[v.len() - 1]);
    }
}

/// Inserting an entry before every later entry of its path, and after every
/// earlier one, adds it at the end of its path's entries.
proof fn lemma_with_path_insert(v: Seq<MetadataView>, k: int, x: MetadataView, p: Seq<char>)
    requires
        0 <= k <= v.len(),
        forall|j: int| k <= j < v.len() ==> (#[trigger] v[j]).path != x.path,
    ensures
        with_path(v.insert(k, x), p) == (if x.path == p {
            with_path(v, p).push(x)
        } else {
            with_path(v, p)
        }),
{
    let a = v.take(k);
    let b = v.skip(k);
    assert(v.insert(k, x) =~= a.push(x) + b);
    assert(v =~= a + b);
    Seq::filter_distributes_over_add(a.push(x), b, path_is(p));
    Seq::filter_distributes_over_add(a, b, path_is(p));
    lemma_with_path_push(a, x, p);
    if x.path == p {
        assert forall|j: int| 0 <= j < b.len() implies (#[trigger] b[j]).path != p by {
            assert(b[j] == v[k + j]);
        }
        lemma_with_path_none(b, p);
        assert(with_path(a, p).push(x) + Seq::<MetadataView>::empty() =~= with_path(a, p).push(x));
        assert(with_path(a, p) + Seq::<MetadataView>::empty() =~= with_path(a, p));
    }
}

fn copy_metadata(m: &DocumentMetadata) -> (r: DocumentMetadata)
    ensures
        r@ == m@,
{
    DocumentMetadata {
        path: m.path.clone(),
        title: m.title.clone(),
        page_count: m.page_count,
        modified: m.modified,
    }
}

/// The document list sorted by path: the same entries, in the order of
/// their paths; entries with the same path keep their order (a stable sort).
pub fn sort_documents(docs: &Vec<DocumentMetadata>) -> (r: Vec<DocumentMetadata>)
    ensures
        metadata_views(r@).to_multiset() == metadata_views(docs@).to_multiset(),
        sorted_by_path(metadata_views(r@)),
        forall|p: Seq<char>|
            #[trigger] with_path(metadata_views(r@), p) == with_path(metadata_views(docs@), p),
{
    broadcast use vstd::seq_lib::to_multiset_build, vstd::seq_lib::to_multiset_insert;

    let mut out: Vec<DocumentMetadata> = Vec::new();
    assert(metadata_views(docs@).take(0) =~= Seq::<MetadataView>::empty());
    assert(metadata_views(out@) =~= Seq::<MetadataView>::empty());
    for i in 0..docs.len()
        invariant
            metadata_views(out@).to_multiset() == metadata_views(docs@).take(i as int).to_multiset(),
            sorted_by_path(metadata_views(out@)),
            forall|p: Seq<char>|
                #[trigger] with_path(metadata_views(out@), p) == with_path(
                    metadata_views(docs@).take(i as int),
                    p,
                ),
    {
        let x = copy_metadata(&docs[i]);
        let xp = chars_of(x.path.as_str());
        let ghost ov = metadata_views(out@);
        let mut k: usize = 0;
        while k < out.len() && path_le_of(&chars_of(out[k].path.as_str()), &xp)
            invariant
                k <= out.len(),
                ov == metadata_views(out@),
                xp@ == x@.path,
                forall|j: int| 0 <= j < k ==> path_le(#[trigger] ov[j].path, x@.path),
            decreases out.len() - k,
        {
            k += 1;
        }
        proof {
            if k < out.len() {
                lemma_path_le_total(ov[k as int].path, x@.path);
            }
            assert forall|j: int| k <= j < ov.len() implies path_le(x@.path, #[trigger] ov[j].path) by {
                if j > k {
                    lemma_path_le_transitive(x@.path, ov[k as int].path, ov[j].path);
                }
            }
            assert forall|j: int| k <= j < ov.len() implies (#[trigger] ov[j]).path != x@.path by {
                lemma_path_le_reflexive(x@.path);
                if j > k && ov[j].path == x@.path {
                    assert(path_le(ov[k as int].path, ov[j].path));
                }
            }
            assert forall|p: Seq<char>| #[trigger] with_path(ov.insert(k as int, x@), p) == with_path(
                metadata_views(docs@).take(i as int).push(x@),
                p,
            ) by {
                lemma_with_path_insert(ov, k as int, x@, p);
                lemma_with_path_push(metadata_views(docs@).take(i as int), x@, p);
            }
        }
        out.insert(k, x);
        proof {
            let nv = metadata_views(out@);
            assert(nv =~= ov.insert(k as int, x@));
            assert(metadata_views(docs@).take(i + 1) =~= metadata_views(docs@).take(i as int).push(x@));
            vstd::seq_lib::to_multiset_insert(ov, k as int, x@);
            vstd::seq_lib::to_multiset_build(metadata_views(docs@).take(i as int), x@);
            assert(nv.to_multiset() == metadata_views(docs@).take(i + 1).to_multiset());
            assert forall|a: int, b: int| 0 <= a < b < nv.len() implies path_le(
                #[trigger] nv[a].path,
                #[trigger] nv[b].path,
            ) by {
                if a < k && b == k {
                } else if a < k && b > k {
                    assert(nv[b] == ov[b - 1]);
                } else if a == k {
                    assert(nv[b] == ov[b - 1]);
                } else if a > k {
                    assert(nv[a] == ov[a - 1] && nv[b] == ov[b - 1]);
                } else {
                }
            }
        }
    }
    assert(metadata_views(docs@).take(docs.len() as int) =~= metadata_views(docs@));
    out
}

} // verus!
