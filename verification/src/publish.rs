//! Publishing the pages of a write: the decisions, one file operation at a
//! time.
//!
//! The new pages already sit in temporary files. The old page files that
//! exist are set aside under backup names, the new pages are moved into
//! place, the manifest is set aside and the new one moved in; then the
//! backups are removed. When moving the new pages or the manifest fails, the
//! new page files are removed, the old manifest comes back, and the old pages
//! come back in reverse order. The caller carries out each action and hands
//! back what came of it.
use vstd::prelude::*;
use crate::text::{chars_of, string_of, concat};
use crate::paths::{page_file_error, page_file_error_of};
use crate::writes::string_views;

verus! {

/// Where publishing stands: the action it waits on the outcome of.
#[derive(Clone, Copy, PartialEq, Eq, Structural)]
pub enum Stage {
    /// Asked whether old page `i` exists.
    Check(usize),
    /// Setting old page `i` aside.
    Aside(usize),
    /// Moving new page `j` into place.
    Place(usize),
    /// Setting the manifest aside.
    SaveManifest,
    /// Moving the new manifest into place.
    PutManifest,
    /// Removing backup `k` after success.
    Discard(usize),
    /// Removing the manifest backup after success.
    DiscardManifest,
    /// Removing new page `j` after a failure.
    Undo(usize),
    /// Asked whether the manifest backup exists.
    AskManifest,
    /// Removing the manifest before restoring it.
    DropManifest,
    /// Restoring the manifest.
    BackManifest,
    /// Asked whether backup `k - 1` exists.
    AskBackup(usize),
    /// Restoring backup `k - 1`.
    PutBack(usize),
    Succeeded,
    Failed,
}

pub struct Publish {
    pub old_files: Vec<String>,
    pub new_files: Vec<String>,
    pub temps: Vec<String>,
    pub nonce: String,
    pub stage: Stage,
    pub set_aside: Vec<String>,
    pub error: String,
    pub rolled_back: bool,
}

#[verifier::ext_equal]
pub struct PublishView {
    pub old_files: Seq<Seq<char>>,
    pub new_files: Seq<Seq<char>>,
    pub temps: Seq<Seq<char>>,
    pub nonce: Seq<char>,
    pub stage: Stage,
    pub set_aside: Seq<Seq<char>>,
    pub error: Seq<char>,
    pub rolled_back: bool,
}

impl View for Publish {
    type V = PublishView;

    open spec fn view(&self) -> PublishView {
        PublishView {
            old_files: string_views(self.old_files@),
            new_files: string_views(self.new_files@),
            temps: string_views(self.temps@),
            nonce: self.nonce@,
            stage: self.stage,
            set_aside: string_views(self.set_aside@),
            error: self.error@,
            rolled_back: self.rolled_back,
        }
    }
}

/// A file operation to carry out, or the end of publishing.
pub enum PublishAction {
    Exists(String),
    Rename(String, String),
    Remove(String),
    Done(Result<(), String>),
}

pub enum ActionView {
    Exists(Seq<char>),
    Rename(Seq<char>, Seq<char>),
    Remove(Seq<char>),
    Done(Result<(), Seq<char>>),
}

impl View for PublishAction {
    type V = ActionView;

    open spec fn view(&self) -> ActionView {
        match self {
            PublishAction::Exists(n) => ActionView::Exists(n@),
            PublishAction::Rename(a, b) => ActionView::Rename(a@, b@),
            PublishAction::Remove(n) => ActionView::Remove(n@),
            PublishAction::Done(Ok(())) => ActionView::Done(Ok(())),
            PublishAction::Done(Err(e)) => ActionView::Done(Err(e@)),
        }
    }
}

/// What came of an action: whether a file exists, or whether a rename or
/// removal went through, with its error.
pub open spec fn event_view(ev: Result<bool, String>) -> Result<bool, Seq<char>> {
    match ev {
        Ok(b) => Ok(b),
        Err(e) => Err(e@),
    }
}

// ---------------------------------------------------------------------------
// File names
// ---------------------------------------------------------------------------

pub open spec fn manifest_name() -> Seq<char> {
    ".markch-document.json"@
}

/// The name an old page is set aside under.
pub open spec fn aside_name(nonce: Seq<char>, file: Seq<char>) -> Seq<char> {
    ".markch-old-"@ + nonce + "-"@ + file
}

pub open spec fn manifest_backup_name(nonce: Seq<char>) -> Seq<char> {
    manifest_name() + ".backup-"@ + nonce + ".tmp"@
}

/// The temporary file the new manifest was written to.
pub open spec fn temp_manifest_name(nonce: Seq<char>) -> Seq<char> {
    manifest_name() + ".write-"@ + nonce + ".tmp"@
}

fn join3(a: &str, b: &String, c: &str) -> (r: String)
    ensures
        r@ == a@ + b@ + c@,
{
    let x = concat(&chars_of(a), &chars_of(b.as_str()));
    string_of(&concat(&x, &chars_of(c)))
}

fn aside_name_of(nonce: &String, file: &String) -> (r: String)
    ensures
        r@ == aside_name(nonce@, file@),
{
    let x = join3(".markch-old-", nonce, "-");
    string_of(&concat(&chars_of(x.as_str()), &chars_of(file.as_str())))
}

fn manifest_backup_name_of(nonce: &String) -> (r: String)
    ensures
        r@ == manifest_backup_name(nonce@),
{
    let r = join3(".markch-document.json.backup-", nonce, ".tmp");
    proof {
        reveal_strlit(".markch-document.json.backup-");
        reveal_strlit(".markch-document.json");
        reveal_strlit(".backup-");
        assert(".markch-document.json.backup-"@ =~= manifest_name() + ".backup-"@);
    }
    r
}

fn temp_manifest_name_of(nonce: &String) -> (r: String)
    ensures
        r@ == temp_manifest_name(nonce@),
{
    let r = join3(".markch-document.json.write-", nonce, ".tmp");
    proof {
        reveal_strlit(".markch-document.json.write-");
        reveal_strlit(".markch-document.json");
        reveal_strlit(".write-");
        assert(".markch-document.json.write-"@ =~= manifest_name() + ".write-"@);
    }
    r
}

// ---------------------------------------------------------------------------
// The steps
// ---------------------------------------------------------------------------

/// The stage points into the lists.
pub open spec fn stage_ok(p: PublishView) -> bool {
    match p.stage {
        Stage::Check(i) => i < p.old_files.len(),
        Stage::Aside(i) => i < p.old_files.len(),
        Stage::Place(j) => j < p.new_files.len() && j < p.temps.len(),
        Stage::Discard(k) => k < p.set_aside.len(),
        Stage::Undo(j) => j < p.new_files.len(),
        Stage::AskBackup(k) => 1 <= k <= p.set_aside.len(),
        Stage::PutBack(k) => 1 <= k <= p.set_aside.len(),
        _ => true,
    }
}

/// The action a stage waits on.
pub open spec fn pending(p: PublishView) -> ActionView {
    match p.stage {
        Stage::Check(i) => ActionView::Exists(p.old_files[i as int]),
        Stage::Aside(i) => ActionView::Rename(
            p.old_files[i as int],
            aside_name(p.nonce, p.old_files[i as int]),
        ),
        Stage::Place(j) => ActionView::Rename(p.temps[j as int], p.new_files[j as int]),
        Stage::SaveManifest => ActionView::Rename(manifest_name(), manifest_backup_name(p.nonce)),
        Stage::PutManifest => ActionView::Rename(temp_manifest_name(p.nonce), manifest_name()),
        Stage::Discard(k) => ActionView::Remove(aside_name(p.nonce, p.set_aside[k as int])),
        Stage::DiscardManifest => ActionView::Remove(manifest_backup_name(p.nonce)),
        Stage::Undo(j) => ActionView::Remove(p.new_files[j as int]),
        Stage::AskManifest => ActionView::Exists(manifest_backup_name(p.nonce)),
        Stage::DropManifest => ActionView::Remove(manifest_name()),
        Stage::BackManifest => ActionView::Rename(manifest_backup_name(p.nonce), manifest_name()),
        Stage::AskBackup(k) => ActionView::Exists(aside_name(p.nonce, p.set_aside[k - 1])),
        Stage::PutBack(k) => ActionView::Rename(
            aside_name(p.nonce, p.set_aside[k - 1]),
            p.set_aside[k - 1],
        ),
        Stage::Succeeded => ActionView::Done(Ok(())),
        Stage::Failed => ActionView::Done(Err(p.error)),
    }
}

pub open spec fn at(p: PublishView, s: Stage) -> PublishView {
    PublishView { stage: s, ..p }
}

/// Removing the new pages after a failure, from page `j` on; then asking for
/// the manifest backup.
pub open spec fn go_undo(p: PublishView, j: int) -> PublishView {
    if j >= p.new_files.len() {
        at(p, Stage::AskManifest)
    } else {
        at(p, Stage::Undo(j as usize))
    }
}

/// Undoing after a failure with error `e`.
pub open spec fn rollback(p: PublishView, e: Seq<char>) -> PublishView {
    go_undo(PublishView { error: e, rolled_back: true, ..p }, 0)
}

/// Moving the new pages into place from page `j` on; then setting the
/// manifest aside. A refused page file name is a failure.
pub open spec fn go_place(p: PublishView, j: int) -> PublishView {
    if j >= p.new_files.len() || j >= p.temps.len() {
        at(p, Stage::SaveManifest)
    } else {
        match page_file_error(p.new_files[j]) {
            Some(e) => rollback(p, e),
            None => at(p, Stage::Place(j as usize)),
        }
    }
}

/// Setting old pages aside from page `i` on; then placing the new ones. A
/// refused old page file name ends publishing with its error.
pub open spec fn go_check(p: PublishView, i: int) -> PublishView {
    if i >= p.old_files.len() {
        go_place(p, 0)
    } else {
        match page_file_error(p.old_files[i]) {
            Some(e) => PublishView { stage: Stage::Failed, error: e, ..p },
            None => at(p, Stage::Check(i as usize)),
        }
    }
}

/// Restoring the set-aside pages, from the `k`-th (from 1) down.
pub open spec fn go_restore(p: PublishView, k: int) -> PublishView {
    if k <= 0 {
        at(p, Stage::Failed)
    } else {
        at(p, Stage::AskBackup(k as usize))
    }
}

/// Removing the backups after success, from the `k`-th on.
pub open spec fn go_discard(p: PublishView, k: int) -> PublishView {
    if k >= p.set_aside.len() {
        at(p, Stage::DiscardManifest)
    } else {
        at(p, Stage::Discard(k as usize))
    }
}

/// Where publishing starts.
pub open spec fn publish_start(
    old_files: Seq<Seq<char>>,
    new_files: Seq<Seq<char>>,
    temps: Seq<Seq<char>>,
    nonce: Seq<char>,
) -> PublishView {
    go_check(
        PublishView {
            old_files,
            new_files,
            temps,
            nonce,
            stage: Stage::Succeeded,
            set_aside: seq![],
            error: seq![],
            rolled_back: false,
        },
        0,
    )
}

/// The next stage, given the outcome of the pending action.
pub open spec fn publish_next(p: PublishView, ev: Result<bool, Seq<char>>) -> PublishView {
    match p.stage {
        Stage::Check(i) => if ev == Ok::<bool, Seq<char>>(true) {
            at(p, Stage::Aside(i))
        } else {
            go_check(p, i + 1)
        },
        Stage::Aside(i) => match ev {
            Err(e) => PublishView { stage: Stage::Failed, error: e, ..p },
            Ok(_) => go_check(
                PublishView { set_aside: p.set_aside.push(p.old_files[i as int]), ..p },
                i + 1,
            ),
        },
        Stage::Place(j) => match ev {
            Err(e) => rollback(p, e),
            Ok(_) => go_place(p, j + 1),
        },
        Stage::SaveManifest => match ev {
            Err(e) => rollback(p, e),
            Ok(_) => at(p, Stage::PutManifest),
        },
        Stage::PutManifest => match ev {
            Err(e) => rollback(p, e),
            Ok(_) => go_discard(p, 0),
        },
        Stage::Discard(k) => go_discard(p, k + 1),
        Stage::DiscardManifest => at(p, Stage::Succeeded),
        Stage::Undo(j) => go_undo(p, j + 1),
        Stage::AskManifest => if ev == Ok::<bool, Seq<char>>(true) {
            at(p, Stage::DropManifest)
        } else {
            go_restore(p, p.set_aside.len() as int)
        },
        Stage::DropManifest => at(p, Stage::BackManifest),
        Stage::BackManifest => go_restore(p, p.set_aside.len() as int),
        Stage::AskBackup(k) => if ev == Ok::<bool, Seq<char>>(true) {
            at(p, Stage::PutBack(k))
        } else {
            go_restore(p, k - 1)
        },
        Stage::PutBack(k) => go_restore(p, k - 1),
        Stage::Succeeded => p,
        Stage::Failed => p,
    }
}

impl Publish {
    pub open spec fn wf(&self) -> bool {
        stage_ok(self@)
    }
}

fn pending_action(p: &Publish) -> (a: PublishAction)
    requires
        p.wf(),
    ensures
        a@ == pending(p@),
{
    match p.stage {
        Stage::Check(i) => PublishAction::Exists(p.old_files[i].clone()),
        Stage::Aside(i) => PublishAction::Rename(
            p.old_files[i].clone(),
            aside_name_of(&p.nonce, &p.old_files[i]),
        ),
        Stage::Place(j) => PublishAction::Rename(p.temps[j].clone(), p.new_files[j].clone()),
        Stage::SaveManifest => PublishAction::Rename(
            ".markch-document.json".to_string(),
            manifest_backup_name_of(&p.nonce),
        ),
        Stage::PutManifest => PublishAction::Rename(
            temp_manifest_name_of(&p.nonce),
            ".markch-document.json".to_string(),
        ),
        Stage::Discard(k) => PublishAction::Remove(aside_name_of(&p.nonce, &p.set_aside[k])),
        Stage::DiscardManifest => PublishAction::Remove(manifest_backup_name_of(&p.nonce)),
        Stage::Undo(j) => PublishAction::Remove(p.new_files[j].clone()),
        Stage::AskManifest => PublishAction::Exists(manifest_backup_name_of(&p.nonce)),
        Stage::DropManifest => PublishAction::Remove(".markch-document.json".to_string()),
        Stage::BackManifest => PublishAction::Rename(
            manifest_backup_name_of(&p.nonce),
            ".markch-document.json".to_string(),
        ),
        Stage::AskBackup(k) => PublishAction::Exists(aside_name_of(&p.nonce, &p.set_aside[k - 1])),
        Stage::PutBack(k) => PublishAction::Rename(
            aside_name_of(&p.nonce, &p.set_aside[k - 1]),
            p.set_aside[k - 1].clone(),
        ),
        Stage::Succeeded => PublishAction::Done(Ok(())),
        Stage::Failed => PublishAction::Done(Err(p.error.clone())),
    }
}

fn set_stage(p: Publish, s: Stage) -> (r: Publish)
    ensures
        r@ == at(p@, s),
{
    Publish { stage: s, ..p }
}

fn undo_from(p: Publish, j: usize) -> (r: Publish)
    ensures
        r@ == go_undo(p@, j as int),
        r.wf(),
{
    if j >= p.new_files.len() {
        set_stage(p, Stage::AskManifest)
    } else {
        set_stage(p, Stage::Undo(j))
    }
}

fn start_rollback(p: Publish, e: String) -> (r: Publish)
    ensures
        r@ == rollback(p@, e@),
        r.wf(),
{
    let q = Publish { error: e, rolled_back: true, ..p };
    assert(q@ =~= PublishView { error: e@, rolled_back: true, ..p@ });
    undo_from(q, 0)
}

fn place_from(p: Publish, j: usize) -> (r: Publish)
    ensures
        r@ == go_place(p@, j as int),
        r.wf(),
{
    if j >= p.new_files.len() || j >= p.temps.len() {
        return set_stage(p, Stage::SaveManifest);
    }
    match page_file_error_of(&chars_of(p.new_files[j].as_str())) {
        Some(e) => start_rollback(p, e),
        None => set_stage(p, Stage::Place(j)),
    }
}

fn check_from(p: Publish, i: usize) -> (r: Publish)
    ensures
        r@ == go_check(p@, i as int),
        r.wf(),
{
    if i >= p.old_files.len() {
        return place_from(p, 0);
    }
    match page_file_error_of(&chars_of(p.old_files[i].as_str())) {
        Some(e) => {
            let q = Publish { stage: Stage::Failed, error: e, ..p };
            assert(q@ =~= PublishView { stage: Stage::Failed, error: e@, ..p@ });
            q
        },
        None => set_stage(p, Stage::Check(i)),
    }
}

fn restore_from(p: Publish, k: usize) -> (r: Publish)
    requires
        k <= p.set_aside.len(),
    ensures
        r@ == go_restore(p@, k as int),
        r.wf(),
{
    if k == 0 {
        set_stage(p, Stage::Failed)
    } else {
        set_stage(p, Stage::AskBackup(k))
    }
}

fn discard_from(p: Publish, k: usize) -> (r: Publish)
    ensures
        r@ == go_discard(p@, k as int),
        r.wf(),
{
    if k >= p.set_aside.len() {
        set_stage(p, Stage::DiscardManifest)
    } else {
        set_stage(p, Stage::Discard(k))
    }
}

/// Starts publishing: the first action to carry out, and the state to hand
/// back with its outcome. `temps` are the temporary files holding the new
/// pages, in the order of `new_files`.
pub fn publish_begin(
    old_files: Vec<String>,
    new_files: Vec<String>,
    temps: Vec<String>,
    nonce: String,
) -> (r: (Publish, PublishAction))
    ensures
        r.0@ == publish_start(
            string_views(old_files@),
            string_views(new_files@),
            string_views(temps@),
            nonce@,
        ),
        r.0.wf(),
        r.1@ == pending(r.0@),
{
    let p = Publish {
        old_files,
        new_files,
        temps,
        nonce,
        stage: Stage::Succeeded,
        set_aside: Vec::new(),
        error: String::new(),
        rolled_back: false,
    };
    assert(string_views(p.set_aside@) =~= Seq::<Seq<char>>::empty());
    let q = check_from(p, 0);
    let a = pending_action(&q);
    (q, a)
}

/// One step of publishing: given the outcome of the pending action, the
/// next state and the next action.
pub fn publish_step(p: Publish, ev: Result<bool, String>) -> (r: (Publish, PublishAction))
    requires
        p.wf(),
    ensures
        r.0@ == publish_next(p@, event_view(ev)),
        r.0.wf(),
        r.1@ == pending(r.0@),
{
    let ghost ev_v = event_view(ev);
    assert(p@.old_files.len() == p.old_files.len());
    assert(p@.new_files.len() == p.new_files.len());
    assert(p@.set_aside.len() == p.set_aside.len());
    let yes = match &ev {
        Ok(b) => *b,
        Err(_) => false,
    };
    assert(yes == (ev_v == Ok::<bool, Seq<char>>(true)));
    let q = match p.stage {
        Stage::Check(i) => if yes {
            set_stage(p, Stage::Aside(i))
        } else {
            check_from(p, i + 1)
        },
        Stage::Aside(i) => match ev {
            Err(e) => {
                let q = Publish { stage: Stage::Failed, error: e, ..p };
                assert(q@ =~= PublishView { stage: Stage::Failed, error: e@, ..p@ });
                q
            },
            Ok(_) => {
                let ghost p0 = p@;
                let f = p.old_files[i].clone();
                let mut q = p;
                q.set_aside.push(f);
                assert(q@ =~= PublishView { set_aside: p0.set_aside.push(p0.old_files[i as int]), ..p0 });
                check_from(q, i + 1)
            },
        },
        Stage::Place(j) => match ev {
            Err(e) => start_rollback(p, e),
            Ok(_) => place_from(p, j + 1),
        },
        Stage::SaveManifest => match ev {
            Err(e) => start_rollback(p, e),
            Ok(_) => set_stage(p, Stage::PutManifest),
        },
        Stage::PutManifest => match ev {
            Err(e) => start_rollback(p, e),
            Ok(_) => discard_from(p, 0),
        },
        Stage::Discard(k) => discard_from(p, k + 1),
        Stage::DiscardManifest => set_stage(p, Stage::Succeeded),
        Stage::Undo(j) => undo_from(p, j + 1),
        Stage::AskManifest => if yes {
            set_stage(p, Stage::DropManifest)
        } else {
            let n = p.set_aside.len();
            restore_from(p, n)
        },
        Stage::DropManifest => set_stage(p, Stage::BackManifest),
        Stage::BackManifest => {
            let n = p.set_aside.len();
            restore_from(p, n)
        },
        Stage::AskBackup(k) => if yes {
            set_stage(p, Stage::PutBack(k))
        } else {
            restore_from(p, k - 1)
        },
        Stage::PutBack(k) => restore_from(p, k - 1),
        Stage::Succeeded => p,
        Stage::Failed => p,
    };
    let a = pending_action(&q);
    (q, a)
}

// ---------------------------------------------------------------------------
// What a failed publish leaves in the folder
// ---------------------------------------------------------------------------

/// A folder's files by name, and what an action does to them. A rename may
/// fail (`fails`), leaving the folder as it was; it fails too when its source
/// is missing.
pub open spec fn carry_out(
    files: Map<Seq<char>, Seq<char>>,
    a: ActionView,
    fails: bool,
    err: Seq<char>,
) -> (Map<Seq<char>, Seq<char>>, Result<bool, Seq<char>>) {
    match a {
        ActionView::Exists(n) => (files, Ok(files.dom().contains(n))),
        ActionView::Rename(x, y) => if !fails && files.dom().contains(x) {
            (files.remove(x).insert(y, files[x]), Ok(true))
        } else {
            (files, Err(err))
        },
        ActionView::Remove(n) => (files.remove(n), Ok(true)),
        ActionView::Done(_) => (files, Ok(true)),
    }
}

/// The names publishing uses keep apart: the old page files differ from one
/// another; their backup names, the manifest's backup name, the manifest and
/// the temporary names are all different from each other and from the page
/// files; no backup name is in the folder at the start, and the manifest is.
pub open spec fn names_apart(p: PublishView, f0: Map<Seq<char>, Seq<char>>) -> bool {
    let m = manifest_name();
    let mb = manifest_backup_name(p.nonce);
    let tm = temp_manifest_name(p.nonce);
    &&& forall|i: int, j: int|
        0 <= i < j < p.old_files.len() ==> #[trigger] p.old_files[i] != #[trigger] p.old_files[j]
    &&& forall|x: Seq<char>|
        #[trigger] p.old_files.contains(x) ==> {
            let a = aside_name(p.nonce, x);
            &&& !f0.dom().contains(a)
            &&& a != m && a != mb && a != tm
            &&& !p.new_files.contains(a) && !p.temps.contains(a) && !p.old_files.contains(a)
        }
    &&& forall|x: Seq<char>, y: Seq<char>|
        p.old_files.contains(x) && p.old_files.contains(y) && x != y ==> #[trigger] aside_name(
            p.nonce,
            x,
        ) != #[trigger] aside_name(p.nonce, y)
    &&& !f0.dom().contains(mb) && mb != m
    &&& !p.new_files.contains(mb) && !p.temps.contains(mb) && !p.old_files.contains(mb)
    &&& !p.new_files.contains(m) && !p.temps.contains(m) && !p.old_files.contains(m)
    &&& f0.dom().contains(m)
}

/// The old pages set aside are old page files (among the first `n`), each
/// once.
pub open spec fn aside_ok(p: PublishView, n: int) -> bool {
    &&& forall|k: int| 0 <= k < p.set_aside.len() ==> p.old_files.take(n).contains(#[trigger] p.set_aside[k])
    &&& forall|a: int, b: int|
        0 <= a < b < p.set_aside.len() ==> #[trigger] p.set_aside[a] != #[trigger] p.set_aside[b]
}

/// The first `k` pages set aside are under their backup names with their old
/// contents.
pub open spec fn backups_held(
    p: PublishView,
    f0: Map<Seq<char>, Seq<char>>,
    f: Map<Seq<char>, Seq<char>>,
    k: int,
) -> bool {
    forall|m: int|
        0 <= m < k ==> f.dom().contains(#[trigger] aside_name(p.nonce, p.set_aside[m])) && f[aside_name(
            p.nonce,
            p.set_aside[m],
        )] == f0[p.set_aside[m]]
}

/// The pages set aside from the `k`-th on are back under their names with
/// their old contents.
pub open spec fn pages_back(
    p: PublishView,
    f0: Map<Seq<char>, Seq<char>>,
    f: Map<Seq<char>, Seq<char>>,
    k: int,
) -> bool {
    forall|m: int|
        k <= m < p.set_aside.len() ==> f.dom().contains(#[trigger] p.set_aside[m]) && f[p.set_aside[m]]
            == f0[p.set_aside[m]]
}

/// Every old page file that was in the folder was set aside.
pub open spec fn all_set_aside(p: PublishView, f0: Map<Seq<char>, Seq<char>>, n: int) -> bool {
    forall|t: int|
        0 <= t < n && f0.dom().contains(#[trigger] p.old_files[t]) ==> p.set_aside.contains(p.old_files[t])
}

pub open spec fn manifest_kept(f0: Map<Seq<char>, Seq<char>>, f: Map<Seq<char>, Seq<char>>, nonce: Seq<char>) -> bool {
    &&& f.dom().contains(manifest_name())
    &&& f[manifest_name()] == f0[manifest_name()]
    &&& !f.dom().contains(manifest_backup_name(nonce))
}

pub open spec fn manifest_saved(f0: Map<Seq<char>, Seq<char>>, f: Map<Seq<char>, Seq<char>>, nonce: Seq<char>) -> bool {
    &&& f.dom().contains(manifest_backup_name(nonce))
    &&& f[manifest_backup_name(nonce)] == f0[manifest_name()]
}

/// The old page files from the `i`-th on are as they were.
pub open spec fn rest_untouched(p: PublishView, f0: Map<Seq<char>, Seq<char>>, f: Map<Seq<char>, Seq<char>>, i: int) -> bool {
    forall|t: int|
        i <= t < p.old_files.len() ==> (f.dom().contains(#[trigger] p.old_files[t]) == f0.dom().contains(
            p.old_files[t],
        )) && (f0.dom().contains(p.old_files[t]) ==> f[p.old_files[t]] == f0[p.old_files[t]])
}

/// The lists fit in memory, as the ones a caller hands over do.
pub open spec fn fits(p: PublishView) -> bool {
    p.old_files.len() <= usize::MAX && p.new_files.len() <= usize::MAX && p.temps.len() <= usize::MAX
}

/// What holds of the folder at each stage, against the folder `f0` that
/// publishing started from.
pub open spec fn publish_inv(p: PublishView, f0: Map<Seq<char>, Seq<char>>, f: Map<Seq<char>, Seq<char>>) -> bool {
    let n = p.old_files.len() as int;
    let k_all = p.set_aside.len() as int;
    match p.stage {
        Stage::Check(i) => {
            &&& !p.rolled_back
            &&& p.set_aside.len() <= i
            &&& aside_ok(p, i as int)
            &&& backups_held(p, f0, f, k_all)
            &&& rest_untouched(p, f0, f, i as int)
            &&& all_set_aside(p, f0, i as int)
            &&& manifest_kept(f0, f, p.nonce)
        },
        Stage::Aside(i) => {
            &&& !p.rolled_back
            &&& p.set_aside.len() <= i
            &&& aside_ok(p, i as int)
            &&& backups_held(p, f0, f, k_all)
            &&& rest_untouched(p, f0, f, i as int)
            &&& all_set_aside(p, f0, i as int)
            &&& manifest_kept(f0, f, p.nonce)
            &&& f.dom().contains(p.old_files[i as int])
        },
        Stage::Place(_) | Stage::SaveManifest => {
            &&& !p.rolled_back
            &&& p.set_aside.len() <= n
            &&& aside_ok(p, n)
            &&& backups_held(p, f0, f, k_all)
            &&& all_set_aside(p, f0, n)
            &&& manifest_kept(f0, f, p.nonce)
        },
        Stage::PutManifest => {
            &&& !p.rolled_back
            &&& p.set_aside.len() <= n
            &&& aside_ok(p, n)
            &&& backups_held(p, f0, f, k_all)
            &&& all_set_aside(p, f0, n)
            &&& manifest_saved(f0, f, p.nonce)
        },
        Stage::Undo(_) | Stage::AskManifest => {
            &&& p.rolled_back
            &&& p.set_aside.len() <= n
            &&& aside_ok(p, n)
            &&& backups_held(p, f0, f, k_all)
            &&& all_set_aside(p, f0, n)
            &&& (manifest_kept(f0, f, p.nonce) || manifest_saved(f0, f, p.nonce))
        },
        Stage::DropManifest | Stage::BackManifest => {
            &&& p.rolled_back
            &&& p.set_aside.len() <= n
            &&& aside_ok(p, n)
            &&& backups_held(p, f0, f, k_all)
            &&& all_set_aside(p, f0, n)
            &&& manifest_saved(f0, f, p.nonce)
        },
        Stage::AskBackup(k) | Stage::PutBack(k) => {
            &&& p.rolled_back
            &&& p.set_aside.len() <= n
            &&& aside_ok(p, n)
            &&& backups_held(p, f0, f, k as int)
            &&& pages_back(p, f0, f, k as int)
            &&& all_set_aside(p, f0, n)
            &&& f.dom().contains(manifest_name()) && f[manifest_name()] == f0[manifest_name()]
        },
        Stage::Failed => p.rolled_back ==> {
            &&& pages_back(p, f0, f, 0)
            &&& all_set_aside(p, f0, n)
            &&& f.dom().contains(manifest_name()) && f[manifest_name()] == f0[manifest_name()]
        },
        _ => true,
    }
}

proof fn lemma_enter_undo(p: PublishView, f0: Map<Seq<char>, Seq<char>>, f: Map<Seq<char>, Seq<char>>, j: int)
    requires
        p.rolled_back,
        p.set_aside.len() <= p.old_files.len(),
        aside_ok(p, p.old_files.len() as int),
        backups_held(p, f0, f, p.set_aside.len() as int),
        all_set_aside(p, f0, p.old_files.len() as int),
        manifest_kept(f0, f, p.nonce) || manifest_saved(f0, f, p.nonce),
    ensures
        publish_inv(go_undo(p, j), f0, f),
{
}

proof fn lemma_enter_rollback(
    p: PublishView,
    f0: Map<Seq<char>, Seq<char>>,
    f: Map<Seq<char>, Seq<char>>,
    e: Seq<char>,
)
    requires
        p.set_aside.len() <= p.old_files.len(),
        aside_ok(p, p.old_files.len() as int),
        backups_held(p, f0, f, p.set_aside.len() as int),
        all_set_aside(p, f0, p.old_files.len() as int),
        manifest_kept(f0, f, p.nonce) || manifest_saved(f0, f, p.nonce),
    ensures
        publish_inv(rollback(p, e), f0, f),
{
    let q = PublishView { error: e, rolled_back: true, ..p };
    lemma_enter_undo(q, f0, f, 0);
}

proof fn lemma_enter_place(p: PublishView, f0: Map<Seq<char>, Seq<char>>, f: Map<Seq<char>, Seq<char>>, j: int)
    requires
        !p.rolled_back,
        fits(p),
        p.set_aside.len() <= p.old_files.len(),
        aside_ok(p, p.old_files.len() as int),
        backups_held(p, f0, f, p.set_aside.len() as int),
        all_set_aside(p, f0, p.old_files.len() as int),
        manifest_kept(f0, f, p.nonce),
    ensures
        publish_inv(go_place(p, j), f0, f),
{
    if !(j >= p.new_files.len() || j >= p.temps.len()) {
        match page_file_error(p.new_files[j]) {
            Some(e) => lemma_enter_rollback(p, f0, f, e),
            None => {},
        }
    }
}

proof fn lemma_enter_check(p: PublishView, f0: Map<Seq<char>, Seq<char>>, f: Map<Seq<char>, Seq<char>>, i: int)
    requires
        0 <= i <= p.old_files.len(),
        fits(p),
        p.set_aside.len() <= i,
        !p.rolled_back,
        aside_ok(p, i),
        backups_held(p, f0, f, p.set_aside.len() as int),
        rest_untouched(p, f0, f, i),
        all_set_aside(p, f0, i),
        manifest_kept(f0, f, p.nonce),
    ensures
        publish_inv(go_check(p, i), f0, f),
{
    if i >= p.old_files.len() {
        lemma_enter_place(p, f0, f, 0);
    }
}

proof fn lemma_enter_restore(p: PublishView, f0: Map<Seq<char>, Seq<char>>, f: Map<Seq<char>, Seq<char>>, k: int)
    requires
        0 <= k <= p.set_aside.len(),
        fits(p),
        p.set_aside.len() <= p.old_files.len(),
        p.rolled_back,
        aside_ok(p, p.old_files.len() as int),
        backups_held(p, f0, f, k),
        pages_back(p, f0, f, k),
        all_set_aside(p, f0, p.old_files.len() as int),
        f.dom().contains(manifest_name()) && f[manifest_name()] == f0[manifest_name()],
    ensures
        publish_inv(go_restore(p, k), f0, f),
{
}

/// A page set aside is an old page file.
proof fn lemma_aside_in_old(p: PublishView, m: int)
    requires
        aside_ok(p, p.old_files.len() as int),
        0 <= m < p.set_aside.len(),
    ensures
        p.old_files.contains(p.set_aside[m]),
{
    assert(p.old_files.take(p.old_files.len() as int) =~= p.old_files);
}

/// Publishing starts with every name in its place.
pub proof fn lemma_publish_start(
    old_files: Seq<Seq<char>>,
    new_files: Seq<Seq<char>>,
    temps: Seq<Seq<char>>,
    nonce: Seq<char>,
    f0: Map<Seq<char>, Seq<char>>,
)
    requires
        names_apart(publish_start(old_files, new_files, temps, nonce), f0),
        fits(publish_start(old_files, new_files, temps, nonce)),
    ensures
        publish_inv(publish_start(old_files, new_files, temps, nonce), f0, f0),
{
    let p = PublishView {
        old_files,
        new_files,
        temps,
        nonce,
        stage: Stage::Succeeded,
        set_aside: seq![],
        error: seq![],
        rolled_back: false,
    };
    lemma_enter_check(p, f0, f0, 0);
}

/// When publishing ends in failure after it began undoing, every old page
/// file that was in the folder is there again with its old content, and so
/// is the old manifest.
pub proof fn lemma_failed_publish_restores(
    p: PublishView,
    f0: Map<Seq<char>, Seq<char>>,
    f: Map<Seq<char>, Seq<char>>,
)
    requires
        publish_inv(p, f0, f),
        p.stage == Stage::Failed,
        p.rolled_back,
    ensures
        forall|t: int|
            0 <= t < p.old_files.len() && f0.dom().contains(#[trigger] p.old_files[t]) ==> f.dom().contains(
                p.old_files[t],
            ) && f[p.old_files[t]] == f0[p.old_files[t]],
        f.dom().contains(manifest_name()) && f[manifest_name()] == f0[manifest_name()],
{
    assert forall|t: int|
        0 <= t < p.old_files.len() && f0.dom().contains(#[trigger] p.old_files[t]) implies f.dom().contains(
        p.old_files[t],
    ) && f[p.old_files[t]] == f0[p.old_files[t]] by {
        assert(p.set_aside.contains(p.old_files[t]));
        let m = choose|m: int| 0 <= m < p.set_aside.len() && p.set_aside[m] == p.old_files[t];
        assert(f.dom().contains(p.set_aside[m]));
    }
}

/// The state after one step, and the folder after its action.
pub open spec fn step_result(
    p: PublishView,
    f: Map<Seq<char>, Seq<char>>,
    fails: bool,
    err: Seq<char>,
) -> (PublishView, Map<Seq<char>, Seq<char>>) {
    let r = carry_out(f, pending(p), fails, err);
    (publish_next(p, r.1), r.0)
}

proof fn lemma_take_grows(s: Seq<Seq<char>>, i: int, x: Seq<char>)
    requires
        0 <= i < s.len(),
        s.take(i).contains(x),
    ensures
        s.take(i + 1).contains(x),
{
    let t = choose|t: int| 0 <= t < i && s.take(i)[t] == x;
    assert(s.take(i + 1)[t] == x);
}

proof fn lemma_step_check(p: PublishView, f0: Map<Seq<char>, Seq<char>>, f: Map<Seq<char>, Seq<char>>, fails: bool, err: Seq<char>)
    requires
        names_apart(p, f0),
        fits(p),
        stage_ok(p),
        publish_inv(p, f0, f),
        p.stage is Check,
    ensures
        publish_inv(step_result(p, f, fails, err).0, f0, step_result(p, f, fails, err).1),
{
    let i = p.stage->Check_0 as int;
    let x = p.old_files[i];
    if !f.dom().contains(x) {
        assert forall|k: int| 0 <= k < p.set_aside.len() implies p.old_files.take(i + 1).contains(
            #[trigger] p.set_aside[k],
        ) by {
            lemma_take_grows(p.old_files, i, p.set_aside[k]);
        }
        assert(all_set_aside(p, f0, i + 1)) by {
            assert(!f0.dom().contains(p.old_files[i]));
        }
        lemma_enter_check(p, f0, f, i + 1);
    }
}

proof fn lemma_step_aside(p: PublishView, f0: Map<Seq<char>, Seq<char>>, f: Map<Seq<char>, Seq<char>>, fails: bool, err: Seq<char>)
    requires
        names_apart(p, f0),
        fits(p),
        stage_ok(p),
        publish_inv(p, f0, f),
        p.stage is Aside,
    ensures
        publish_inv(step_result(p, f, fails, err).0, f0, step_result(p, f, fails, err).1),
{
    let i = p.stage->Aside_0 as int;
    let x = p.old_files[i];
    let a = aside_name(p.nonce, x);
    if !fails {
        let f2 = f.remove(x).insert(a, f[x]);
        let q = PublishView { set_aside: p.set_aside.push(x), ..p };
        assert(p.old_files.contains(x));
        assert(f0.dom().contains(x));
        // Every page set aside so far is among the first `i` old pages, so
        // differs from `x`.
        assert forall|k: int| 0 <= k < p.set_aside.len() implies #[trigger] p.set_aside[k] != x by {
            assert(p.old_files.take(i).contains(p.set_aside[k]));
            let t = choose|t: int| 0 <= t < i && p.old_files.take(i)[t] == p.set_aside[k];
            assert(p.old_files[t] == p.set_aside[k]);
        }
        assert(aside_ok(q, i + 1)) by {
            assert forall|k: int| 0 <= k < q.set_aside.len() implies p.old_files.take(i + 1).contains(
                #[trigger] q.set_aside[k],
            ) by {
                if k < p.set_aside.len() {
                    lemma_take_grows(p.old_files, i, p.set_aside[k]);
                } else {
                    assert(p.old_files.take(i + 1)[i] == x);
                }
            }
            assert forall|u: int, v: int| 0 <= u < v < q.set_aside.len() implies #[trigger] q.set_aside[u]
                != #[trigger] q.set_aside[v] by {
                if v == p.set_aside.len() {
                    assert(q.set_aside[u] == p.set_aside[u]);
                } else {
                    assert(q.set_aside[u] == p.set_aside[u] && q.set_aside[v] == p.set_aside[v]);
                }
            }
        }
        assert(backups_held(q, f0, f2, q.set_aside.len() as int)) by {
            assert forall|m: int| 0 <= m < q.set_aside.len() implies f2.dom().contains(
                #[trigger] aside_name(q.nonce, q.set_aside[m]),
            ) && f2[aside_name(q.nonce, q.set_aside[m])] == f0[q.set_aside[m]] by {
                if m < p.set_aside.len() {
                    let y = p.set_aside[m];
                    assert(q.set_aside[m] == y);
                    assert(p.old_files.take(i).contains(y));
                    let t = choose|t: int| 0 <= t < i && p.old_files.take(i)[t] == y;
                    assert(p.old_files.contains(y)) by {
                        assert(p.old_files[t] == y);
                    }
                    assert(aside_name(p.nonce, y) != aside_name(p.nonce, x));
                    assert(!p.old_files.contains(aside_name(p.nonce, y)));
                } else {
                    assert(q.set_aside[m] == x);
                }
            }
        }
        assert(rest_untouched(q, f0, f2, i + 1)) by {
            assert forall|t: int| i + 1 <= t < q.old_files.len() implies (f2.dom().contains(
                #[trigger] q.old_files[t],
            ) == f0.dom().contains(q.old_files[t])) && (f0.dom().contains(q.old_files[t])
                ==> f2[q.old_files[t]] == f0[q.old_files[t]]) by {
                assert(p.old_files[i] != p.old_files[t]);
                assert(p.old_files.contains(p.old_files[t]));
            }
        }
        assert(all_set_aside(q, f0, i + 1)) by {
            assert forall|t: int| 0 <= t < i + 1 && f0.dom().contains(#[trigger] q.old_files[t]) implies q.set_aside.contains(
                q.old_files[t],
            ) by {
                if t < i {
                    assert(p.set_aside.contains(p.old_files[t]));
                    let m = choose|m: int| 0 <= m < p.set_aside.len() && p.set_aside[m] == p.old_files[t];
                    assert(q.set_aside[m] == p.old_files[t]);
                } else {
                    assert(q.set_aside[p.set_aside.len() as int] == x);
                }
            }
        }
        assert(manifest_kept(f0, f2, q.nonce));
        lemma_enter_check(q, f0, f2, i + 1);
        assert(step_result(p, f, fails, err).0 == go_check(q, i + 1));
    }
}

proof fn lemma_step_place(p: PublishView, f0: Map<Seq<char>, Seq<char>>, f: Map<Seq<char>, Seq<char>>, fails: bool, err: Seq<char>)
    requires
        names_apart(p, f0),
        fits(p),
        stage_ok(p),
        publish_inv(p, f0, f),
        p.stage is Place,
    ensures
        publish_inv(step_result(p, f, fails, err).0, f0, step_result(p, f, fails, err).1),
{
    let j = p.stage->Place_0 as int;
    let t = p.temps[j];
    let n = p.new_files[j];
    assert(p.temps.contains(t));
    assert(p.new_files.contains(n));
    if !fails && f.dom().contains(t) {
        let f2 = f.remove(t).insert(n, f[t]);
        assert(backups_held(p, f0, f2, p.set_aside.len() as int)) by {
            assert forall|m: int| 0 <= m < p.set_aside.len() implies f2.dom().contains(
                #[trigger] aside_name(p.nonce, p.set_aside[m]),
            ) && f2[aside_name(p.nonce, p.set_aside[m])] == f0[p.set_aside[m]] by {
                lemma_aside_in_old(p, m);
            }
        }
        lemma_enter_place(p, f0, f2, j + 1);
    } else {
        lemma_enter_rollback(p, f0, f, err);
    }
}

proof fn lemma_step_manifest(p: PublishView, f0: Map<Seq<char>, Seq<char>>, f: Map<Seq<char>, Seq<char>>, fails: bool, err: Seq<char>)
    requires
        names_apart(p, f0),
        fits(p),
        stage_ok(p),
        publish_inv(p, f0, f),
        p.stage is SaveManifest || p.stage is PutManifest,
    ensures
        publish_inv(step_result(p, f, fails, err).0, f0, step_result(p, f, fails, err).1),
{
    let m = manifest_name();
    let mb = manifest_backup_name(p.nonce);
    if p.stage is SaveManifest {
        if !fails {
            let f2 = f.remove(m).insert(mb, f[m]);
            assert(backups_held(p, f0, f2, p.set_aside.len() as int)) by {
                assert forall|k: int| 0 <= k < p.set_aside.len() implies f2.dom().contains(
                    #[trigger] aside_name(p.nonce, p.set_aside[k]),
                ) && f2[aside_name(p.nonce, p.set_aside[k])] == f0[p.set_aside[k]] by {
                    lemma_aside_in_old(p, k);
                }
            }
        } else {
            lemma_enter_rollback(p, f0, f, err);
        }
    } else {
        let tm = temp_manifest_name(p.nonce);
        if fails || !f.dom().contains(tm) {
            lemma_enter_rollback(p, f0, f, err);
        }
    }
}

proof fn lemma_step_undo(p: PublishView, f0: Map<Seq<char>, Seq<char>>, f: Map<Seq<char>, Seq<char>>, fails: bool, err: Seq<char>)
    requires
        names_apart(p, f0),
        fits(p),
        stage_ok(p),
        publish_inv(p, f0, f),
        p.stage is Undo || p.stage is AskManifest || p.stage is DropManifest || p.stage is BackManifest,
        !fails,
    ensures
        publish_inv(step_result(p, f, fails, err).0, f0, step_result(p, f, fails, err).1),
{
    let m = manifest_name();
    let mb = manifest_backup_name(p.nonce);
    let k_all = p.set_aside.len() as int;
    match p.stage {
        Stage::Undo(j) => {
            let x = p.new_files[j as int];
            assert(p.new_files.contains(x));
            let f2 = f.remove(x);
            assert(backups_held(p, f0, f2, k_all)) by {
                assert forall|k: int| 0 <= k < p.set_aside.len() implies f2.dom().contains(
                    #[trigger] aside_name(p.nonce, p.set_aside[k]),
                ) && f2[aside_name(p.nonce, p.set_aside[k])] == f0[p.set_aside[k]] by {
                    lemma_aside_in_old(p, k);
                }
            }
            lemma_enter_undo(p, f0, f2, j + 1);
        },
        Stage::AskManifest => {
            if !f.dom().contains(mb) {
                lemma_enter_restore(p, f0, f, k_all);
            }
        },
        Stage::DropManifest => {
            let f2 = f.remove(m);
            assert(backups_held(p, f0, f2, k_all)) by {
                assert forall|k: int| 0 <= k < p.set_aside.len() implies f2.dom().contains(
                    #[trigger] aside_name(p.nonce, p.set_aside[k]),
                ) && f2[aside_name(p.nonce, p.set_aside[k])] == f0[p.set_aside[k]] by {
                    lemma_aside_in_old(p, k);
                }
            }
        },
        Stage::BackManifest => {
            let f2 = f.remove(mb).insert(m, f[mb]);
            assert(backups_held(p, f0, f2, k_all)) by {
                assert forall|k: int| 0 <= k < p.set_aside.len() implies f2.dom().contains(
                    #[trigger] aside_name(p.nonce, p.set_aside[k]),
                ) && f2[aside_name(p.nonce, p.set_aside[k])] == f0[p.set_aside[k]] by {
                    lemma_aside_in_old(p, k);
                }
            }
            lemma_enter_restore(p, f0, f2, k_all);
        },
        _ => {},
    }
}

proof fn lemma_step_restore(p: PublishView, f0: Map<Seq<char>, Seq<char>>, f: Map<Seq<char>, Seq<char>>, fails: bool, err: Seq<char>)
    requires
        names_apart(p, f0),
        fits(p),
        stage_ok(p),
        publish_inv(p, f0, f),
        p.stage is AskBackup || p.stage is PutBack,
        !fails,
    ensures
        publish_inv(step_result(p, f, fails, err).0, f0, step_result(p, f, fails, err).1),
{
    let m = manifest_name();
    match p.stage {
        Stage::AskBackup(k) => {
            assert(f.dom().contains(aside_name(p.nonce, p.set_aside[k - 1])));
        },
        Stage::PutBack(k) => {
            let k = k as int;
            let x = p.set_aside[k - 1];
            let a = aside_name(p.nonce, x);
            lemma_aside_in_old(p, k - 1);
            let f2 = f.remove(a).insert(x, f[a]);
            assert(backups_held(p, f0, f2, k - 1)) by {
                assert forall|u: int| 0 <= u < k - 1 implies f2.dom().contains(
                    #[trigger] aside_name(p.nonce, p.set_aside[u]),
                ) && f2[aside_name(p.nonce, p.set_aside[u])] == f0[p.set_aside[u]] by {
                    lemma_aside_in_old(p, u);
                    assert(p.set_aside[u] != x);
                }
            }
            assert(pages_back(p, f0, f2, k - 1)) by {
                assert forall|u: int| k - 1 <= u < p.set_aside.len() implies f2.dom().contains(
                    #[trigger] p.set_aside[u],
                ) && f2[p.set_aside[u]] == f0[p.set_aside[u]] by {
                    if u > k - 1 {
                        assert(p.set_aside[u] != x);
                        lemma_aside_in_old(p, u);
                    }
                }
            }
            lemma_enter_restore(p, f0, f2, k - 1);
        },
        _ => {},
    }
}

/// One step keeps what holds of the folder, whatever comes of setting the
/// old pages aside and of moving the new pages and the manifest in, as long
/// as the undoing renames go through. With `lemma_publish_start` and
/// `lemma_failed_publish_restores`: after any failure once the new pages
/// began to move in, the steps that follow restore every old page file and
/// the old manifest.
pub proof fn lemma_publish_step(
    p: PublishView,
    f0: Map<Seq<char>, Seq<char>>,
    f: Map<Seq<char>, Seq<char>>,
    fails: bool,
    err: Seq<char>,
)
    requires
        names_apart(p, f0),
        fits(p),
        stage_ok(p),
        publish_inv(p, f0, f),
        p.rolled_back ==> !fails,
    ensures
        publish_inv(step_result(p, f, fails, err).0, f0, step_result(p, f, fails, err).1),
        step_result(p, f, fails, err).0.old_files == p.old_files,
        step_result(p, f, fails, err).0.new_files == p.new_files,
        step_result(p, f, fails, err).0.temps == p.temps,
        step_result(p, f, fails, err).0.nonce == p.nonce,
{
    match p.stage {
        Stage::Check(_) => lemma_step_check(p, f0, f, fails, err),
        Stage::Aside(_) => lemma_step_aside(p, f0, f, fails, err),
        Stage::Place(_) => lemma_step_place(p, f0, f, fails, err),
        Stage::SaveManifest | Stage::PutManifest => lemma_step_manifest(p, f0, f, fails, err),
        Stage::Undo(_) | Stage::AskManifest | Stage::DropManifest | Stage::BackManifest => {
            lemma_step_undo(p, f0, f, fails, err)
        },
        Stage::AskBackup(_) | Stage::PutBack(_) => lemma_step_restore(p, f0, f, fails, err),
        _ => {},
    }
}

} // verus!
