//! The document operations run against an in-memory notes folder: each
//! operation is driven the way a caller drives the library, with the folder
//! contents handed in and the decided changes carried out.

use std::collections::BTreeMap;

use markch_document::document::{
    read_document as lib_read_document, read_document_edit_markdown as lib_edit_markdown,
    read_document_for_note as lib_read_for_note, read_document_markdown as lib_read_markdown,
    DocumentProbe, DocumentSnapshot, PageSource,
};
use markch_document::edits::{
    desired_page_id_for_save as lib_desired_id, is_note_in_document as lib_is_note_in_document,
    sync_page_after_save as lib_sync, target_note_id_for_index,
};
use markch_document::folders::{
    delete_document as lib_delete_document, document_metadata, document_title,
    new_document_manifest, rename_document as lib_rename_document, rename_document_target,
    first_free_folder, sort_documents, unique_folder_candidate,
};
use markch_document::model::{
    DocumentDetail, DocumentManifest, DocumentMetadata, DocumentNormalizeResult, MoveDirection,
};
use markch_document::page_ops::{
    create_document_page as lib_create_page, delete_document_page as lib_delete_page,
    move_document_page as lib_move_page, rename_document_page as lib_rename_page, DocumentChange,
};
use markch_document::markdown::count_words;
use markch_document::paginate::split_markdown_blocks;
use markch_document::publish::{publish_begin, publish_step, PublishAction};
use markch_document::paths::{document_dir, file_from_note_id, validate_page_file};
use markch_document::writes::{
    decide_paginated_write, normalize_document as lib_normalize,
    normalize_document_for_note_id as lib_normalize_for_note,
    save_document_markdown as lib_save_markdown, PaginatedWrite, WriteDecision,
};

#[derive(Default)]
struct Folder {
    manifest: Option<Result<DocumentManifest, String>>,
    files: BTreeMap<String, String>,
}

#[derive(Default)]
struct Notes {
    folders: BTreeMap<String, Folder>,
    fail_rename_to: Option<String>,
}

const MISSING: &str = "No such file or directory (os error 2)";

impl Notes {
    fn new() -> Notes {
        Notes::default()
    }

    fn folder(&mut self, rel: &str) -> &mut Folder {
        self.folders.entry(rel.to_string()).or_default()
    }

    fn has_folder(&self, rel: &str) -> bool {
        self.folders.contains_key(rel)
    }

    fn file(&self, rel: &str, file: &str) -> Option<String> {
        self.folders.get(rel).and_then(|f| f.files.get(file).cloned())
    }

    fn write(&mut self, rel: &str, file: &str, content: &str) {
        self.folder(rel).files.insert(file.to_string(), content.to_string());
    }

    fn probe_rel(&self, rel: &str) -> DocumentProbe {
        let Some(folder) = self.folders.get(rel) else {
            return DocumentProbe { is_document: false, loaded: Err(MISSING.to_string()) };
        };
        let loaded = match &folder.manifest {
            None => Err(MISSING.to_string()),
            Some(Err(e)) => Err(e.clone()),
            Some(Ok(manifest)) => {
                let pages = manifest
                    .pages
                    .iter()
                    .map(|p| match validate_page_file(&p.file) {
                        Ok(()) => PageSource {
                            content: folder.files.get(&p.file).cloned().ok_or(MISSING.to_string()),
                            modified: 0,
                        },
                        Err(e) => PageSource { content: Err(e), modified: 0 },
                    })
                    .collect();
                Ok(DocumentSnapshot { manifest: manifest.clone(), pages })
            }
        };
        DocumentProbe { is_document: folder.manifest.is_some(), loaded }
    }

    fn probe(&self, document_path: &str) -> (Option<String>, DocumentProbe) {
        match document_dir(document_path) {
            Ok(rel) => {
                let probe = self.probe_rel(&rel);
                (Some(rel), probe)
            }
            Err(_) => (None, DocumentProbe { is_document: false, loaded: Err(String::new()) }),
        }
    }

    fn probe_note(&self, note_id: &str) -> (Option<String>, DocumentProbe) {
        match file_from_note_id(note_id) {
            Some((document_path, _)) => self.probe(&document_path),
            None => (None, DocumentProbe { is_document: false, loaded: Err(String::new()) }),
        }
    }

    fn apply(&mut self, rel: &str, change: DocumentChange) -> Result<(), String> {
        let folder = self.folder(rel);
        if let Some(removed) = &change.removed {
            folder.files.remove(removed);
        }
        if let Some((file, content)) = &change.created {
            folder.files.insert(file.clone(), content.clone());
        }
        for (from, to) in &change.renames {
            let content = folder.files.remove(from).ok_or(MISSING.to_string())?;
            folder.files.insert(to.clone(), content);
        }
        if let Some(error) = change.failure {
            return Err(error);
        }
        folder.manifest = Some(Ok(change.manifest));
        Ok(())
    }

    fn create_document(&mut self, parent: Option<&str>, title: &str) -> Result<DocumentDetail, String> {
        let clean = document_title(title);
        let mut taken: Vec<bool> = Vec::new();
        let path = loop {
            let candidate = unique_folder_candidate(parent, &clean, taken.len())?;
            taken.push(self.has_folder(&document_dir(&candidate)?));
            if let Some(p) = first_free_folder(parent, &clean, &taken)? {
                break p;
            }
        };
        let rel = document_dir(&path)?;
        let manifest = new_document_manifest(&clean);
        let first = manifest.pages[0].file.clone();
        let folder = self.folder(&rel);
        folder.files.insert(first, String::new());
        folder.manifest = Some(Ok(manifest));
        self.read_document(&path, 800)
    }

    fn read_document(&self, document_path: &str, word_limit: usize) -> Result<DocumentDetail, String> {
        let (_, probe) = self.probe(document_path);
        lib_read_document(document_path, &probe.loaded, word_limit)
    }

    fn read_document_markdown(&self, document_path: &str) -> Result<String, String> {
        let (_, probe) = self.probe(document_path);
        lib_read_markdown(document_path, &probe)
    }

    fn read_document_edit_markdown(&self, document_path: &str) -> Result<String, String> {
        let (_, probe) = self.probe(document_path);
        lib_edit_markdown(document_path, &probe)
    }

    fn create_page(&mut self, document_path: &str, title: Option<&str>) -> Result<DocumentDetail, String> {
        let (rel, probe) = self.probe(document_path);
        let change = lib_create_page(document_path, &probe.loaded, title)?;
        self.apply(&rel.unwrap(), change)?;
        self.read_document(document_path, 800)
    }

    fn finish_write(
        &mut self,
        document_path: &str,
        rel: &str,
        probe: &DocumentProbe,
        plan: PaginatedWrite,
    ) -> Result<(DocumentDetail, bool), String> {
        let snapshot = probe.loaded.as_ref().map_err(|e| e.clone())?;
        let exists: Vec<bool> =
            plan.next_pages.iter().map(|p| self.file(rel, &p.file).is_some()).collect();
        match decide_paginated_write(snapshot, &plan, &exists)? {
            WriteDecision::Unchanged => Ok((self.read_document(document_path, plan.word_limit)?, false)),
            WriteDecision::Publish(manifest) => {
                // The publishing steps of the library, carried out on the
                // in-memory folder; the manifest stands in it as a file
                // while they run.
                let nonce = "1-1".to_string();
                let mut fail = self.fail_rename_to.clone();
                let folder = self.folder(rel);
                let mut temps = Vec::new();
                for (idx, draft) in plan.drafts.iter().enumerate() {
                    let temp = format!(".markch-write-{}-{:03}.md.tmp", nonce, idx + 1);
                    folder.files.insert(temp.clone(), draft.content.clone());
                    temps.push(temp);
                }
                let temp_manifest = format!(".markch-document.json.write-{}.tmp", nonce);
                folder.files.insert(temp_manifest.clone(), "new".to_string());
                folder.files.insert(".markch-document.json".to_string(), "old".to_string());
                let old_files: Vec<String> = snapshot.manifest.pages.iter().map(|p| p.file.clone()).collect();
                let new_files: Vec<String> = manifest.pages.iter().map(|p| p.file.clone()).collect();
                let (mut state, mut action) = publish_begin(old_files, new_files, temps.clone(), nonce);
                let result = loop {
                    let event = match &action {
                        PublishAction::Exists(name) => Ok(folder.files.contains_key(name)),
                        PublishAction::Rename(from, to) => {
                            if fail.as_ref() == Some(to) {
                                fail = None;
                                Err("injected failure".to_string())
                            } else {
                                match folder.files.remove(from) {
                                    Some(content) => {
                                        folder.files.insert(to.clone(), content);
                                        Ok(true)
                                    }
                                    None => Err(MISSING.to_string()),
                                }
                            }
                        }
                        PublishAction::Remove(name) => {
                            folder.files.remove(name);
                            Ok(true)
                        }
                        PublishAction::Done(result) => break result.clone(),
                    };
                    let (next_state, next_action) = publish_step(state, event);
                    state = next_state;
                    action = next_action;
                };
                let published = folder.files.remove(".markch-document.json") == Some("new".to_string());
                if result.is_err() {
                    for temp in &temps {
                        folder.files.remove(temp);
                    }
                    folder.files.remove(&temp_manifest);
                }
                result?;
                if published {
                    folder.manifest = Some(Ok(manifest));
                }
                Ok((self.read_document(document_path, plan.word_limit)?, true))
            }
        }
    }

    fn save_markdown(&mut self, document_path: &str, markdown: &str, word_limit: usize) -> Result<DocumentDetail, String> {
        let (rel, probe) = self.probe(document_path);
        let plan = lib_save_markdown(document_path, &probe.loaded, markdown, word_limit)?;
        self.finish_write(document_path, &rel.unwrap(), &probe, plan).map(|(d, _)| d)
    }

    fn normalize(&mut self, document_path: &str, word_limit: usize) -> Result<DocumentNormalizeResult, String> {
        let (rel, probe) = self.probe(document_path);
        let plan = lib_normalize(document_path, &probe, word_limit)?;
        let (document, changed) = self.finish_write(document_path, &rel.unwrap(), &probe, plan)?;
        Ok(DocumentNormalizeResult { document, changed, target_note_id: None })
    }

    fn normalize_for_note(&mut self, note_id: &str, word_limit: usize) -> Result<Option<DocumentNormalizeResult>, String> {
        let (rel, probe) = self.probe_note(note_id);
        let Some(planned) = lib_normalize_for_note(note_id, &probe, word_limit)? else {
            return Ok(None);
        };
        let (document_path, _) = file_from_note_id(note_id).unwrap();
        let (document, changed) = self.finish_write(&document_path, &rel.unwrap(), &probe, planned.write)?;
        let target_note_id = target_note_id_for_index(&document, planned.page_index);
        Ok(Some(DocumentNormalizeResult { document, changed, target_note_id }))
    }

    fn read_for_note(&self, note_id: &str, word_limit: usize) -> Result<Option<DocumentDetail>, String> {
        let (_, probe) = self.probe_note(note_id);
        lib_read_for_note(note_id, &probe, word_limit)
    }

    fn is_note_in_document(&self, note_id: &str) -> bool {
        let (_, probe) = self.probe_note(note_id);
        lib_is_note_in_document(note_id, probe.is_document)
    }

    fn rename_document(&mut self, document_path: &str, new_name: &str, word_limit: usize) -> Result<DocumentDetail, String> {
        let (old_path, new_path) = rename_document_target(document_path, new_name)?;
        let old_rel = document_dir(&old_path)?;
        let old_probe = self.probe_rel(&old_rel);
        let new_exists = match document_dir(&new_path) {
            Ok(rel) => self.has_folder(&rel),
            Err(_) => false,
        };
        let rename = lib_rename_document(document_path, new_name, &old_probe, new_exists)?;
        let new_rel = document_dir(&rename.new_path)?;
        let mut folder = self.folders.remove(&old_rel).unwrap();
        folder.manifest = Some(Ok(rename.manifest));
        self.folders.insert(new_rel, folder);
        self.read_document(&rename.new_path, word_limit)
    }

    fn delete_document(&mut self, document_path: &str) -> Result<(), String> {
        let is_document = match document_dir(document_path) {
            Ok(rel) => self.folders.get(&rel).map(|f| f.manifest.is_some()).unwrap_or(false),
            Err(_) => false,
        };
        let rel = lib_delete_document(document_path, is_document)?;
        self.folders.remove(&rel);
        Ok(())
    }

    fn list_documents(&self) -> Vec<DocumentMetadata> {
        let mut documents = Vec::new();
        for (rel, folder) in &self.folders {
            let Some(Ok(manifest)) = &folder.manifest else {
                continue;
            };
            if let Some(m) = document_metadata(rel, '/', manifest, 0) {
                documents.push(m);
            }
        }
        sort_documents(&documents)
    }
}

fn words(prefix: &str, n: usize) -> String {
    (0..n).map(|i| format!("{}{}", prefix, i)).collect::<Vec<_>>().join(" ")
}

#[test]
fn creates_and_reads_manifest() {
    let mut notes = Notes::new();
    let detail = notes.create_document(None, "Project Alpha").unwrap();
    assert_eq!(detail.title, "Project Alpha");
    assert_eq!(detail.pages.len(), 1);
    assert!(notes.folders.get("Project Alpha").unwrap().manifest.is_some());
    let reread = notes.read_document("Project Alpha", 800).unwrap();
    assert_eq!(reread.pages[0].file, "001-Page 1.md");
}

#[test]
fn automatic_page_titles_do_not_write_synthetic_headers() {
    let mut notes = Notes::new();
    notes.create_document(None, "Doc").unwrap();
    notes.create_page("Doc", None).unwrap();
    assert_eq!(notes.file("Doc", "001-Page 1.md").unwrap(), "");
    assert_eq!(notes.file("Doc", "002-Page 2.md").unwrap(), "");
}

#[test]
fn rejects_escaping_document_paths() {
    let notes = Notes::new();
    assert!(notes.read_document("../outside", 800).is_err());
}

#[test]
fn read_document_markdown_rejects_escaping_paths() {
    let notes = Notes::new();
    assert!(notes.read_document_markdown("../outside").is_err());
}

#[test]
fn list_documents_skips_invalid_manifest_and_keeps_valid_documents() {
    let mut notes = Notes::new();
    notes.create_document(None, "Valid").unwrap();
    notes.folder("Broken").manifest = Some(Err("expected value at line 1 column 3".to_string()));
    let documents = notes.list_documents();
    assert_eq!(documents.len(), 1);
    assert_eq!(documents[0].path, "Valid");
}

#[test]
fn detects_document_by_manifest() {
    let mut notes = Notes::new();
    notes.create_document(Some("Parent"), "Doc").unwrap();
    assert!(notes.is_note_in_document("Parent/Doc/001-Page 1"));
    assert!(!notes.is_note_in_document("Parent/Other/001-Page 1"));
}

#[test]
fn renames_document_folder_and_manifest_title() {
    let mut notes = Notes::new();
    notes.create_document(Some("Parent"), "Draft").unwrap();
    notes.write("Parent/Draft", "001-Page 1.md", "# First\n\nBody\n");
    let detail = notes.rename_document("Parent/Draft", "Final Draft", 800).unwrap();
    assert_eq!(detail.path, "Parent/Final Draft");
    assert_eq!(detail.title, "Final Draft");
    assert!(notes.folders.get("Parent/Final Draft").unwrap().manifest.is_some());
    assert!(!notes.has_folder("Parent/Draft"));
    assert_eq!(detail.pages[0].id, "Parent/Final Draft/001-Page 1");
    match &notes.folders.get("Parent/Final Draft").unwrap().manifest {
        Some(Ok(m)) => assert_eq!(m.title, "Final Draft"),
        _ => panic!("manifest after rename"),
    }
    assert_eq!(notes.file("Parent/Final Draft", "001-Page 1.md").unwrap(), "# First\n\nBody\n");
}

#[test]
fn rename_document_rejects_escaping_paths() {
    let mut notes = Notes::new();
    assert!(notes.rename_document("../Doc", "Other", 800).is_err());
}

#[test]
fn rename_document_rejects_collisions() {
    let mut notes = Notes::new();
    notes.create_document(None, "Draft").unwrap();
    notes.folder("Existing");
    let result = notes.rename_document("Draft", "Existing", 800);
    assert_eq!(result.unwrap_err(), "A folder with that name already exists");
    assert!(notes.has_folder("Draft"));
    assert!(notes.has_folder("Existing"));
}

#[test]
fn delete_document_removes_valid_document_folder() {
    let mut notes = Notes::new();
    notes.create_document(None, "Doc").unwrap();
    notes.create_page("Doc", Some("Second")).unwrap();
    notes.delete_document("Doc").unwrap();
    assert!(!notes.has_folder("Doc"));
}

#[test]
fn delete_document_rejects_escaping_paths() {
    let mut notes = Notes::new();
    assert!(notes.delete_document("../outside").is_err());
}

#[test]
fn delete_document_rejects_regular_folders() {
    let mut notes = Notes::new();
    notes.write("Regular", "note.md", "body");
    let result = notes.delete_document("Regular");
    assert_eq!(result.unwrap_err(), "Path is not a Markch Document");
    assert!(notes.has_folder("Regular"));
    assert!(notes.file("Regular", "note.md").is_some());
}

#[test]
fn delete_document_does_not_affect_other_documents_or_notes() {
    let mut notes = Notes::new();
    notes.create_document(None, "Doc A").unwrap();
    notes.create_document(None, "Doc B").unwrap();
    notes.write("", "normal.md", "normal");
    notes.delete_document("Doc A").unwrap();
    assert!(!notes.has_folder("Doc A"));
    assert!(notes.folders.get("Doc B").unwrap().manifest.is_some());
    assert!(notes.file("", "normal.md").is_some());
}

#[test]
fn preserves_manifest_order() {
    let mut notes = Notes::new();
    notes.create_document(None, "Doc").unwrap();
    notes.create_page("Doc", Some("Second")).unwrap();
    let detail = notes.read_document("Doc", 800).unwrap();
    assert_eq!(detail.pages[0].index, 1);
    assert_eq!(detail.pages[1].index, 2);
    assert_eq!(detail.pages[1].title, "Second");
}

#[test]
fn read_document_markdown_concatenates_pages_in_manifest_order() {
    let mut notes = Notes::new();
    notes.create_document(None, "Doc").unwrap();
    notes.create_page("Doc", Some("Second")).unwrap();
    notes.write("Doc", "001-Page 1.md", "# First\n\nA\n");
    notes.write("Doc", "002-Second.md", "# Second\n\nB\n");
    let markdown = notes.read_document_markdown("Doc").unwrap();
    assert_eq!(markdown, "# First\n\nA\n# Second\n\nB\n");
}

#[test]
fn read_document_markdown_does_not_insert_extra_separators() {
    let mut notes = Notes::new();
    notes.create_document(None, "Doc").unwrap();
    notes.create_page("Doc", Some("Second")).unwrap();
    notes.write("Doc", "001-Page 1.md", "one");
    notes.write("Doc", "002-Second.md", "two");
    assert_eq!(notes.read_document_markdown("Doc").unwrap(), "onetwo");
}

#[test]
fn read_document_edit_markdown_inserts_stable_page_boundaries() {
    let mut notes = Notes::new();
    notes.create_document(None, "Doc").unwrap();
    notes.create_page("Doc", Some("Second")).unwrap();
    notes.write("Doc", "001-Page 1.md", "one");
    notes.write("Doc", "002-Second.md", "two");
    assert_eq!(notes.read_document_edit_markdown("Doc").unwrap(), "one\n\ntwo");
}

#[test]
fn normalize_reads_pages_with_stable_markdown_boundaries() {
    let mut notes = Notes::new();
    notes.create_document(None, "Doc").unwrap();
    notes.create_page("Doc", Some("Second")).unwrap();
    notes.write("Doc", "001-Page 1.md", "one");
    notes.write("Doc", "002-Second.md", "two");
    let detail = notes.normalize("Doc", 250).unwrap().document;
    let content = notes.file("Doc", &detail.pages[0].file).unwrap();
    assert_eq!(detail.pages.len(), 1);
    assert_eq!(content, "one\n\ntwo\n");
}

#[test]
fn paginates_markdown_into_multiple_pages() {
    let mut notes = Notes::new();
    notes.create_document(None, "Doc").unwrap();
    notes.write("Doc", "001-Page 1.md", &format!("# Page 1\n\n{}\n\n{}\n", words("alpha", 240), words("zeta", 80)));
    let detail = notes.normalize("Doc", 250).unwrap().document;
    assert_eq!(detail.pages.len(), 2);
    let first = notes.file("Doc", &detail.pages[0].file).unwrap();
    let second = notes.file("Doc", &detail.pages[1].file).unwrap();
    assert!(first.contains("alpha0"));
    assert!(second.contains("zeta0"));
}

#[test]
fn header_can_start_a_new_page_near_limit() {
    let mut notes = Notes::new();
    notes.create_document(None, "Doc").unwrap();
    notes.write(
        "Doc",
        "001-Page 1.md",
        &format!("# Intro\n\n{}\n\n## Next Section\n\nshort body\n", words("intro", 140)),
    );
    let detail = notes.normalize("Doc", 250).unwrap().document;
    assert_eq!(detail.pages.len(), 2);
    assert_eq!(detail.pages[1].title, "Next Section");
    let second = notes.file("Doc", &detail.pages[1].file).unwrap();
    assert!(second.starts_with("## Next Section"));
}

#[test]
fn page_title_comes_from_first_visible_header() {
    let mut notes = Notes::new();
    notes.create_document(None, "Doc").unwrap();
    notes.write("Doc", "001-Page 1.md", "## Section Title\n\nbody\n");
    let detail = notes.normalize("Doc", 250).unwrap().document;
    assert_eq!(detail.pages[0].title, "Section Title");
    assert_eq!(detail.pages[0].file, "001-Section Title.md");
}

#[test]
fn page_without_heading_uses_metadata_title_without_inserting_header() {
    let mut notes = Notes::new();
    notes.create_document(None, "Doc").unwrap();
    notes.write("Doc", "001-Page 1.md", "plain body\n");
    let detail = notes.normalize("Doc", 250).unwrap().document;
    let content = notes.file("Doc", &detail.pages[0].file).unwrap();
    assert_eq!(detail.pages[0].title, "Page 1");
    assert_eq!(content, "plain body\n");
    assert!(!content.starts_with("# Page 1"));
}

#[test]
fn normalize_is_idempotent_after_first_write() {
    let mut notes = Notes::new();
    notes.create_document(None, "Doc").unwrap();
    notes.write("Doc", "001-Page 1.md", &format!("# First\n\n{}\n\n## Second\n\nbody\n", words("word", 150)));
    let first = notes.normalize("Doc", 250).unwrap();
    let first_files: Vec<(String, String)> = first
        .document
        .pages
        .iter()
        .map(|p| (p.file.clone(), notes.file("Doc", &p.file).unwrap()))
        .collect();
    let second = notes.normalize("Doc", 250).unwrap();
    let second_files: Vec<(String, String)> = second
        .document
        .pages
        .iter()
        .map(|p| (p.file.clone(), notes.file("Doc", &p.file).unwrap()))
        .collect();
    assert!(first.changed);
    assert!(!second.changed);
    assert_eq!(first.document.pages.len(), second.document.pages.len());
    assert_eq!(first_files, second_files);
}

#[test]
fn normalize_for_note_returns_equivalent_target_note_id() {
    let mut notes = Notes::new();
    notes.create_document(None, "Doc").unwrap();
    notes.write("Doc", "001-Page 1.md", &format!("# First\n\n{}\n\n## Second\n\nbody\n", words("word", 150)));
    let result = notes.normalize_for_note("Doc/001-Page 1", 250).unwrap().unwrap();
    assert_eq!(result.target_note_id.as_deref(), Some("Doc/001-First"));
    assert!(notes.file("Doc", "001-First.md").is_some());
}

#[test]
fn read_document_for_note_recovers_from_obsolete_page_id() {
    let mut notes = Notes::new();
    notes.create_document(None, "Doc").unwrap();
    notes.write("Doc", "001-Page 1.md", "# First\n\nbody\n");
    notes.normalize("Doc", 250).unwrap();
    let detail = notes.read_for_note("Doc/001-Page 1", 250).unwrap().unwrap();
    assert_eq!(detail.path, "Doc");
    assert_eq!(detail.pages[0].id, "Doc/001-First");
}

#[test]
fn does_not_split_long_paragraph_mid_text() {
    let mut notes = Notes::new();
    notes.create_document(None, "Doc").unwrap();
    notes.write("Doc", "001-Page 1.md", &format!("# Long\n\n{}\n", words("word", 300)));
    let detail = notes.normalize("Doc", 250).unwrap().document;
    let first = notes.file("Doc", &detail.pages[0].file).unwrap();
    assert_eq!(detail.pages.len(), 1);
    assert!(detail.pages[0].overflow);
    assert!(first.contains("word0"));
    assert!(first.contains("word299"));
}

#[test]
fn long_section_splits_by_blocks_without_losing_header() {
    let mut notes = Notes::new();
    notes.create_document(None, "Doc").unwrap();
    notes.write("Doc", "001-Page 1.md", &format!("# Alpha\n\n{}\n\n{}\n", words("first", 180), words("second", 120)));
    let detail = notes.normalize("Doc", 250).unwrap().document;
    let first_page = notes.file("Doc", &detail.pages[0].file).unwrap();
    let second_page = notes.file("Doc", &detail.pages[1].file).unwrap();
    assert!(first_page.starts_with("# Alpha"));
    assert!(first_page.contains("first0"));
    assert!(second_page.contains("second0"));
}

#[test]
fn save_document_markdown_creates_renumbered_pages() {
    let mut notes = Notes::new();
    notes.create_document(None, "Doc").unwrap();
    let detail = notes
        .save_markdown("Doc", &format!("# First\n\n{}\n\n## Second\n\nbody\n", words("word", 150)), 250)
        .unwrap();
    assert_eq!(detail.pages.len(), 2);
    assert_eq!(detail.pages[0].file, "001-First.md");
    assert_eq!(detail.pages[1].file, "002-Second.md");
}

#[test]
fn save_document_markdown_leaves_no_temp_files_after_success() {
    let mut notes = Notes::new();
    notes.create_document(None, "Doc").unwrap();
    notes.save_markdown("Doc", "# First\n\nbody\n", 250).unwrap();
    let files: Vec<String> = notes.folders.get("Doc").unwrap().files.keys().cloned().collect();
    assert_eq!(files, vec!["001-First.md".to_string()]);
    assert!(!files.iter().any(|file| file.contains(".markch-write-")));
    assert!(!files.iter().any(|file| file.contains(".markch-old-")));
    assert!(!files.iter().any(|file| file.contains(".backup-")));
}

#[test]
fn save_document_markdown_preserves_old_pages_on_conflicting_output() {
    let mut notes = Notes::new();
    notes.create_document(None, "Doc").unwrap();
    notes.write("Doc", "001-Page 1.md", "# Page 1\n\noriginal\n");
    notes.write("Doc", "002-Second.md", "# Existing\n");
    let result = notes.save_markdown("Doc", &format!("# First\n\n{}\n\n## Second\n\nbody\n", words("word", 150)), 250);
    assert_eq!(result.unwrap_err(), "Document page file already exists: 002-Second.md");
    assert_eq!(notes.file("Doc", "001-Page 1.md").unwrap(), "# Page 1\n\noriginal\n");
}

#[test]
fn save_document_markdown_rejects_escaping_paths() {
    let mut notes = Notes::new();
    assert!(notes.save_markdown("../outside", "# Nope\n", 250).is_err());
}

#[test]
fn keeps_atomic_block_when_it_exceeds_limit() {
    let mut notes = Notes::new();
    notes.create_document(None, "Doc").unwrap();
    notes.write(
        "Doc",
        "001-Page 1.md",
        &format!("# Page 1\n\n```txt\n{}\n```\n\nnext block\n", words("word", 260)),
    );
    let detail = notes.normalize("Doc", 250).unwrap().document;
    let first = notes.file("Doc", &detail.pages[0].file).unwrap();
    assert!(first.contains("```txt"));
    assert!(detail.pages[0].overflow);
}

// ---------------------------------------------------------------------------
// Further scenarios
// ---------------------------------------------------------------------------

#[test]
fn new_documents_get_unique_folders() {
    let mut notes = Notes::new();
    let a = notes.create_document(None, "  ").unwrap();
    let b = notes.create_document(None, "Untitled Document").unwrap();
    assert_eq!(a.path, "Untitled Document");
    assert_eq!(b.path, "Untitled Document-1");
    assert_eq!(b.title, "Untitled Document");
}

#[test]
fn moving_a_page_renumbers_files() {
    let mut notes = Notes::new();
    notes.create_document(None, "Doc").unwrap();
    notes.create_page("Doc", Some("Second")).unwrap();
    notes.write("Doc", "002-Second.md", "second body");
    let (rel, probe) = notes.probe("Doc");
    let change = lib_move_page("Doc", &probe.loaded, "002-Second.md", MoveDirection::Up).unwrap().unwrap();
    notes.apply(&rel.unwrap(), change).unwrap();
    let detail = notes.read_document("Doc", 800).unwrap();
    assert_eq!(detail.pages[0].file, "001-Second.md");
    assert_eq!(detail.pages[1].file, "002-Page 1.md");
    assert_eq!(notes.file("Doc", "001-Second.md").unwrap(), "second body");
    let (_, probe) = notes.probe("Doc");
    assert!(lib_move_page("Doc", &probe.loaded, "001-Second.md", MoveDirection::Up).unwrap().is_none());
    assert_eq!(
        lib_move_page("Doc", &probe.loaded, "009-Nope.md", MoveDirection::Up).err(),
        Some("Page not found".to_string())
    );
}

#[test]
fn deleting_a_page_keeps_at_least_one() {
    let mut notes = Notes::new();
    notes.create_document(None, "Doc").unwrap();
    let (_, probe) = notes.probe("Doc");
    assert_eq!(
        lib_delete_page("Doc", &probe.loaded, "001-Page 1.md").err(),
        Some("A Document must keep at least one page".to_string())
    );
    notes.create_page("Doc", Some("Second")).unwrap();
    let (rel, probe) = notes.probe("Doc");
    let change = lib_delete_page("Doc", &probe.loaded, "001-Page 1.md").unwrap();
    assert_eq!(change.removed.as_deref(), Some("001-Page 1.md"));
    notes.apply(&rel.unwrap(), change).unwrap();
    let detail = notes.read_document("Doc", 800).unwrap();
    assert_eq!(detail.pages.len(), 1);
    assert_eq!(detail.pages[0].file, "001-Second.md");
}

#[test]
fn renaming_a_page_renames_its_file() {
    let mut notes = Notes::new();
    notes.create_document(None, "Doc").unwrap();
    let (rel, probe) = notes.probe("Doc");
    let change = lib_rename_page("Doc", &probe.loaded, "001-Page 1.md", "  Intro ").unwrap();
    assert_eq!(change.renames, vec![("001-Page 1.md".to_string(), "001-Intro.md".to_string())]);
    notes.apply(&rel.unwrap(), change).unwrap();
    let (_, probe) = notes.probe("Doc");
    let unchanged = lib_rename_page("Doc", &probe.loaded, "001-Intro.md", "Intro").unwrap();
    assert!(unchanged.renames.is_empty());
    let blank = lib_rename_page("Doc", &probe.loaded, "001-Intro.md", " ").unwrap();
    assert_eq!(blank.manifest.pages[0].title, "Page 1");
}

#[test]
fn new_page_with_title_starts_with_its_heading() {
    let mut notes = Notes::new();
    notes.create_document(None, "Doc").unwrap();
    notes.create_page("Doc", Some(" Second ")).unwrap();
    assert_eq!(notes.file("Doc", "002-Second.md").unwrap(), "# Second\n\n");
}

#[test]
fn saving_a_page_updates_its_manifest_entry() {
    let mut notes = Notes::new();
    notes.create_document(None, "Doc").unwrap();
    assert_eq!(
        notes.probe_note("Doc/001-Page 1").1.is_document,
        true
    );
    let (_, probe) = notes.probe_note("Doc/001-Renamed");
    let desired = lib_desired_id("Doc/001-Page 1", "Renamed", probe.is_document).unwrap();
    assert_eq!(desired.as_deref(), Some("Doc/001-Renamed"));
    let manifest = lib_sync("Doc/001-Renamed", Some("Doc/001-Page 1"), "Renamed", &probe).unwrap().unwrap();
    assert_eq!(manifest.pages.len(), 1);
    assert_eq!(manifest.pages[0].file, "001-Renamed.md");
    assert_eq!(manifest.pages[0].title, "Renamed");
    let added = lib_sync("Doc/005-Extra", None, "Extra", &probe).unwrap().unwrap();
    assert_eq!(added.pages.len(), 2);
    assert_eq!(added.pages[1].file, "005-Extra.md");
    assert!(lib_sync("loose", None, "x", &probe).unwrap().is_none());
}

#[test]
fn desired_id_keeps_a_three_digit_prefix_only() {
    let mut notes = Notes::new();
    notes.create_document(None, "Doc").unwrap();
    let (_, probe) = notes.probe("Doc");
    assert_eq!(lib_desired_id("Doc/12-x", "T", probe.is_document).unwrap().as_deref(), Some("Doc/001-T"));
    assert_eq!(lib_desired_id("Doc/042-x", "T", probe.is_document).unwrap().as_deref(), Some("Doc/042-T"));
    assert_eq!(lib_desired_id("Doc/042-x", "T", false).unwrap(), None);
    assert!(lib_desired_id("../x/001-a", "T", true).is_err());
}

#[test]
fn target_falls_back_to_last_page() {
    let mut notes = Notes::new();
    notes.create_document(None, "Doc").unwrap();
    notes.create_page("Doc", Some("Second")).unwrap();
    let detail = notes.read_document("Doc", 800).unwrap();
    assert_eq!(target_note_id_for_index(&detail, 1).as_deref(), Some("Doc/002-Second"));
    assert_eq!(target_note_id_for_index(&detail, 7).as_deref(), Some("Doc/002-Second"));
}

#[test]
fn unsupported_manifests_are_refused() {
    let mut notes = Notes::new();
    notes.create_document(None, "Doc").unwrap();
    if let Some(Ok(m)) = &mut notes.folder("Doc").manifest {
        m.version = 2;
    }
    assert_eq!(
        notes.read_document("Doc", 800).unwrap_err(),
        "Unsupported Markch document manifest"
    );
}

#[test]
fn documents_are_listed_by_path() {
    let mut notes = Notes::new();
    notes.create_document(None, "b").unwrap();
    notes.create_document(None, "a").unwrap();
    notes.create_document(Some("a"), "c").unwrap();
    let paths: Vec<String> = notes.list_documents().into_iter().map(|d| d.path).collect();
    assert_eq!(paths, vec!["a", "a/c", "b"]);
}

#[test]
fn word_counts_and_overflow_come_from_page_contents() {
    let mut notes = Notes::new();
    notes.create_document(None, "Doc").unwrap();
    notes.write("Doc", "001-Page 1.md", "one two three");
    let detail = notes.read_document("Doc", 2).unwrap();
    assert_eq!(detail.pages[0].word_count, 3);
    assert!(detail.pages[0].overflow);
    let detail = notes.read_document("Doc", 3).unwrap();
    assert!(!detail.pages[0].overflow);
}

fn snapshot_with_files(files: &[&str]) -> Result<DocumentSnapshot, String> {
    let mut manifest = new_document_manifest("Doc");
    manifest.pages = files
        .iter()
        .map(|f| markch_document::model::DocumentPageManifest {
            file: f.to_string(),
            title: "T".to_string(),
        })
        .collect();
    let pages = files
        .iter()
        .map(|_| PageSource { content: Ok(String::new()), modified: 0 })
        .collect();
    Ok(DocumentSnapshot { manifest, pages })
}

#[test]
fn renumbering_stops_at_a_refused_page_file() {
    let loaded = snapshot_with_files(&["001-A.md", "002-B.md", "bad/name.md", "004-D.md"]);
    let change = lib_move_page("Doc", &loaded, "002-B.md", MoveDirection::Up).unwrap().unwrap();
    assert_eq!(change.failure.as_deref(), Some("Invalid page file"));
    assert_eq!(
        change.renames,
        vec![
            ("002-B.md".to_string(), "002-B.md.markch-tmp".to_string()),
            ("001-A.md".to_string(), "001-A.md.markch-tmp".to_string()),
        ]
    );
    let deleted = lib_delete_page("Doc", &loaded, "001-A.md").unwrap();
    assert_eq!(deleted.removed.as_deref(), Some("001-A.md"));
    assert_eq!(deleted.failure.as_deref(), Some("Invalid page file"));
    assert_eq!(
        deleted.renames,
        vec![("002-B.md".to_string(), "002-B.md.markch-tmp".to_string())]
    );
    let fine = lib_move_page("Doc", &snapshot_with_files(&["001-A.md", "002-B.md"]), "001-A.md", MoveDirection::Down)
        .unwrap()
        .unwrap();
    assert!(fine.failure.is_none());
    assert_eq!(fine.manifest.pages[1].file, "002-T.md");
    assert_eq!(fine.renames[0], ("002-B.md".to_string(), "002-B.md.markch-tmp".to_string()));
    assert_eq!(fine.renames[1], ("001-A.md".to_string(), "001-A.md.markch-tmp".to_string()));
}

#[test]
fn saved_markdown_reads_back_as_its_blocks() {
    let mut notes = Notes::new();
    notes.create_document(None, "Doc").unwrap();
    let markdown = format!(
        "  # Title  \n\npara one\r\nline two\n\n\n- item\n```\ncode\n\n```\n{}\n## Next\ntail   \n",
        (0..300).map(|i| format!("w{}", i)).collect::<Vec<_>>().join(" ")
    );
    let saved = notes.save_markdown("Doc", &markdown, 250).unwrap();
    assert!(saved.pages.len() >= 2);
    let back = notes.read_document_edit_markdown("Doc").unwrap();
    let expected = format!(
        "# Title\n\npara one\nline two\n\n- item\n```\ncode\n\n```\n\n{}\n\n## Next\n\ntail",
        (0..300).map(|i| format!("w{}", i)).collect::<Vec<_>>().join(" ")
    );
    assert_eq!(back, expected);
    let again = notes.normalize("Doc", 250).unwrap();
    assert!(!again.changed);
}

#[test]
fn changes_are_stamped_with_the_given_time() {
    let m = markch_document::folders::new_document_manifest_at("Doc", "T0");
    assert_eq!(m.created_at, "T0");
    assert_eq!(m.updated_at, "T0");
    let loaded = snapshot_with_files(&["001-A.md", "002-B.md"]);
    let moved = markch_document::page_ops::move_document_page_at("Doc", &loaded, "002-B.md", MoveDirection::Up, "T1")
        .unwrap()
        .unwrap();
    assert_eq!(moved.manifest.updated_at, "T1");
    let deleted = markch_document::page_ops::delete_document_page_at("Doc", &loaded, "001-A.md", "T2").unwrap();
    assert_eq!(deleted.manifest.updated_at, "T2");
    let renamed =
        markch_document::page_ops::rename_document_page_at("Doc", &loaded, "001-A.md", "Intro", "T3").unwrap();
    assert_eq!(renamed.manifest.updated_at, "T3");
    let created = markch_document::page_ops::create_document_page_at("Doc", &loaded, None, "T4").unwrap();
    assert_eq!(created.manifest.updated_at, "T4");
    let probe = DocumentProbe { is_document: true, loaded: snapshot_with_files(&["001-A.md"]) };
    let synced = markch_document::edits::sync_page_after_save_at("Doc/001-New", Some("Doc/001-A"), "New", &probe, "T5")
        .unwrap()
        .unwrap();
    assert_eq!(synced.updated_at, "T5");
    assert_eq!(synced.pages[0].file, "001-New.md");
    let old = DocumentProbe { is_document: true, loaded: snapshot_with_files(&["001-A.md"]) };
    let rename = markch_document::folders::rename_document_at("Doc", "Other", &old, false, "T6").unwrap();
    assert_eq!(rename.manifest.updated_at, "T6");
}

#[test]
fn first_free_folder_takes_the_first_candidate_not_taken() {
    assert_eq!(first_free_folder(None, "Doc", &vec![]), Ok(None));
    assert_eq!(first_free_folder(None, "Doc", &vec![true, true]), Ok(None));
    assert_eq!(first_free_folder(Some("Parent/"), "Doc", &vec![true, true, false, false]), Ok(Some("Parent/Doc-2".to_string())));
    assert_eq!(first_free_folder(None, "Doc", &vec![false]), Ok(Some("Doc".to_string())));
    assert_eq!(
        first_free_folder(Some("../x"), "Doc", &vec![false]),
        Err("Invalid document path".to_string())
    );
}

#[test]
fn block_word_counts_add_up_to_the_text() {
    for text in [
        "# Title one\n\npara a b\r\nc d\n\n```\nx y\n\nz\n```\n- item 1\n| t |\n  \n",
        "",
        "   \n\n",
        "word\u{85}other \u{3000} third",
        "```\nunclosed code\n\n  tail words",
    ] {
        let blocks = split_markdown_blocks(text);
        let sum: usize = blocks.iter().map(|b| b.words).sum();
        assert_eq!(sum, count_words(text), "{:?}", text);
        for b in &blocks {
            assert_eq!(b.words, count_words(&b.text));
        }
    }
}

#[test]
fn moving_a_page_up_and_back_returns_each_content() {
    let mut notes = Notes::new();
    notes.create_document(None, "Doc").unwrap();
    notes.create_page("Doc", Some("Second")).unwrap();
    notes.create_page("Doc", Some("Third")).unwrap();
    notes.write("Doc", "001-Page 1.md", "one");
    notes.write("Doc", "002-Second.md", "two");
    notes.write("Doc", "003-Third.md", "three");
    let (rel, probe) = notes.probe("Doc");
    let up = lib_move_page("Doc", &probe.loaded, "003-Third.md", MoveDirection::Up).unwrap().unwrap();
    notes.apply(rel.as_deref().unwrap(), up).unwrap();
    assert_eq!(notes.file("Doc", "002-Third.md").unwrap(), "three");
    let (rel, probe) = notes.probe("Doc");
    let down = lib_move_page("Doc", &probe.loaded, "002-Third.md", MoveDirection::Down).unwrap().unwrap();
    notes.apply(rel.as_deref().unwrap(), down).unwrap();
    assert_eq!(notes.file("Doc", "001-Page 1.md").unwrap(), "one");
    assert_eq!(notes.file("Doc", "002-Second.md").unwrap(), "two");
    assert_eq!(notes.file("Doc", "003-Third.md").unwrap(), "three");
    assert_eq!(notes.folders.get("Doc").unwrap().files.len(), 3);
}

#[test]
fn published_write_is_stamped_with_the_given_time() {
    let mut notes = Notes::new();
    notes.create_document(None, "Doc").unwrap();
    let (_, probe) = notes.probe("Doc");
    let plan = lib_save_markdown("Doc", &probe.loaded, "# First\n\nbody\n", 250).unwrap();
    let snapshot = probe.loaded.as_ref().unwrap();
    let exists = vec![false; plan.next_pages.len()];
    match markch_document::writes::decide_paginated_write_at(snapshot, &plan, &exists, "T9").unwrap() {
        WriteDecision::Publish(m) => assert_eq!(m.updated_at, "T9"),
        WriteDecision::Unchanged => panic!("expected a write"),
    }
}

fn two_page_markdown() -> String {
    format!(
        "# First\n\n{}\n\n## Second\n\nbody\n",
        (0..150).map(|i| format!("word{}", i)).collect::<Vec<_>>().join(" ")
    )
}

#[test]
fn failed_publish_restores_the_old_pages_and_manifest() {
    for failing in ["002-Second.md", "001-First.md", ".markch-document.json"] {
        let mut notes = Notes::new();
        notes.create_document(None, "Doc").unwrap();
        notes.write("Doc", "001-Page 1.md", "old body");
        notes.fail_rename_to = Some(failing.to_string());
        let result = notes.save_markdown("Doc", &two_page_markdown(), 250);
        assert_eq!(result.err(), Some("injected failure".to_string()), "{}", failing);
        let files: Vec<(String, String)> =
            notes.folders.get("Doc").unwrap().files.iter().map(|(k, v)| (k.clone(), v.clone())).collect();
        assert_eq!(files, vec![("001-Page 1.md".to_string(), "old body".to_string())], "{}", failing);
        let detail = notes.read_document("Doc", 250).unwrap();
        assert_eq!(detail.pages.len(), 1);
        assert_eq!(detail.pages[0].file, "001-Page 1.md");
    }
}

#[test]
fn failed_setting_aside_leaves_pages_set_aside() {
    let mut notes = Notes::new();
    notes.create_document(None, "Doc").unwrap();
    notes.write("Doc", "001-Page 1.md", "old body");
    notes.fail_rename_to = Some(".markch-old-1-1-001-Page 1.md".to_string());
    let result = notes.save_markdown("Doc", &two_page_markdown(), 250);
    assert_eq!(result.err(), Some("injected failure".to_string()));
    assert_eq!(notes.file("Doc", "001-Page 1.md").unwrap(), "old body");
}

#[test]
fn sorting_keeps_entries_with_the_same_path_in_order() {
    let entry = |path: &str, title: &str| DocumentMetadata {
        path: path.to_string(),
        title: title.to_string(),
        page_count: 1,
        modified: 0,
    };
    let docs = vec![entry("b", "first b"), entry("a", "a"), entry("b", "second b"), entry("a/c", "ac")];
    let sorted = sort_documents(&docs);
    let got: Vec<(String, String)> = sorted.iter().map(|d| (d.path.clone(), d.title.clone())).collect();
    assert_eq!(
        got,
        vec![
            ("a".to_string(), "a".to_string()),
            ("a/c".to_string(), "ac".to_string()),
            ("b".to_string(), "first b".to_string()),
            ("b".to_string(), "second b".to_string()),
        ]
    );
}

#[test]
fn walk_skips_hidden_entries_and_ignored_folders() {
    let ignored = vec!["node_modules".to_string()];
    assert!(markch_document::folders::is_visible_notes_entry(true, ".hidden", true, &ignored));
    assert!(!markch_document::folders::is_visible_notes_entry(false, ".git", true, &ignored));
    assert!(!markch_document::folders::is_visible_notes_entry(false, "node_modules", true, &ignored));
    assert!(markch_document::folders::is_visible_notes_entry(false, "node_modules", false, &ignored));
    assert!(markch_document::folders::is_visible_notes_entry(false, "Notes", true, &ignored));
}
