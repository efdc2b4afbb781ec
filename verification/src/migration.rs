use vstd::prelude::*;

use crate::fingerprint::{fingerprint, md5_hex};
use crate::text::{has_sql_suffix, is_sql_name, lex_le, str_le};
use crate::text::{lemma_lex_le_total, lemma_lex_le_transitive};

verus! {

/// SQL issued on every run to create the applied-migrations ledger table
/// if it is absent. Safe to repeat: creation is conditional, and the
/// shape — `name` as the unique key, the content fingerprint, and the
/// application time at second resolution — never changes.
pub const ENSURE_LEDGER_TABLE_SQL: &'static str = "CREATE TABLE IF NOT EXISTS __migrations (
    name String,
    fingerprint String,
    applied_at DateTime64(0),
    PRIMARY KEY (name)
)";

/// SQL that reads the complete ledger content.
pub const FETCH_LEDGER_SQL: &'static str =
    "SELECT name, fingerprint, applied_at FROM __migrations";

/// A candidate migration script discovered in the migrations directory:
/// its file name (the identity and sort key), the fingerprint of its
/// content, and the raw content itself.
pub struct MigrationFile {
    pub name: String,
    pub fingerprint: String,
    pub content: String,
}

/// A row of the durable applied-migrations ledger: which script was
/// applied, with what content fingerprint, at what time (seconds since
/// the epoch).
pub struct LedgerEntry {
    pub name: String,
    pub fingerprint: String,
    pub applied_at: u64,
}

/// A drift condition: an already-applied script whose on-disk content no
/// longer fingerprints to what the ledger recorded. Carries the script's
/// name and the originally recorded application time, for diagnosis.
pub struct ContentDrift {
    pub name: String,
    pub applied_at: u64,
}

/// Spec-level image of a [`MigrationFile`].
#[verifier::ext_equal]
pub ghost struct FileModel {
    pub name: Seq<char>,
    pub fingerprint: Seq<char>,
    pub content: Seq<char>,
}

/// Spec-level image of a [`LedgerEntry`].
#[verifier::ext_equal]
pub ghost struct EntryModel {
    pub name: Seq<char>,
    pub fingerprint: Seq<char>,
    pub applied_at: u64,
}

/// Spec-level image of a [`ContentDrift`].
#[verifier::ext_equal]
pub ghost struct DriftModel {
    pub name: Seq<char>,
    pub applied_at: u64,
}

impl View for MigrationFile {
    type V = FileModel;

    open spec fn view(&self) -> FileModel {
        FileModel { name: self.name@, fingerprint: self.fingerprint@, content: self.content@ }
    }
}

impl DeepView for MigrationFile {
    type V = FileModel;

    open spec fn deep_view(&self) -> FileModel {
        self.view()
    }
}

impl View for LedgerEntry {
    type V = EntryModel;

    open spec fn view(&self) -> EntryModel {
        EntryModel {
            name: self.name@,
            fingerprint: self.fingerprint@,
            applied_at: self.applied_at,
        }
    }
}

impl DeepView for LedgerEntry {
    type V = EntryModel;

    open spec fn deep_view(&self) -> EntryModel {
        self.view()
    }
}

impl View for ContentDrift {
    type V = DriftModel;

    open spec fn view(&self) -> DriftModel {
        DriftModel { name: self.name@, applied_at: self.applied_at }
    }
}

impl DeepView for ContentDrift {
    type V = DriftModel;

    open spec fn deep_view(&self) -> DriftModel {
        self.view()
    }
}

broadcast use vstd::seq_lib::group_to_multiset_ensures;

/// The files of a directory listing that carry the `.sql` suffix, in
/// listing order, each paired with the fingerprint of its content. This
/// is the scanner's output before ordering.
pub open spec fn scanned_files(entries: Seq<(Seq<char>, Seq<char>)>) -> Seq<FileModel>
    decreases entries.len(),
{
    if entries.len() == 0 {
        Seq::empty()
    } else {
        let rest = scanned_files(entries.drop_last());
        let last = entries.last();
        if is_sql_name(last.0) {
            rest.push(FileModel { name: last.0, fingerprint: md5_hex(last.1), content: last.1 })
        } else {
            rest
        }
    }
}

/// The names of a directory listing that do not carry the `.sql` suffix,
/// in listing order: the files the scanner leaves alone.
pub open spec fn skipped_names(entries: Seq<(Seq<char>, Seq<char>)>) -> Seq<Seq<char>>
    decreases entries.len(),
{
    if entries.len() == 0 {
        Seq::empty()
    } else {
        let rest = skipped_names(entries.drop_last());
        if is_sql_name(entries.last().0) {
            rest
        } else {
            rest.push(entries.last().0)
        }
    }
}

/// The files stand in ascending code-point lexicographic order of name:
/// the execution order of a run.
pub open spec fn sorted_by_name(files: Seq<FileModel>) -> bool {
    forall|i: int, j: int|
        0 <= i < j < files.len() ==> #[trigger] lex_le(files[i].name, files[j].name)
}

/// The first ledger entry recorded under `name`, if any. The snapshot is
/// searched front to back, mirroring how the run consults it.
pub open spec fn lookup(snapshot: Seq<EntryModel>, name: Seq<char>) -> Option<EntryModel>
    decreases snapshot.len(),
{
    if snapshot.len() == 0 {
        None
    } else if snapshot.first().name == name {
        Some(snapshot.first())
    } else {
        lookup(snapshot.drop_first(), name)
    }
}

/// What the run does with one candidate migration: leave it alone because
/// the ledger already records it unchanged, apply it because the ledger
/// does not know it, or abort the run because the recorded fingerprint
/// disagrees with the file's current content.
pub enum Decision {
    Skip,
    Apply,
    Drift { applied_at: u64 },
}

/// The decision taken for file `f` against a fixed ledger snapshot:
/// `Skip` when the snapshot records `f`'s name with `f`'s fingerprint,
/// `Drift` (carrying the recorded application time) when it records the
/// name with a different fingerprint, and `Apply` when the name is absent.
pub open spec fn decision_of(snapshot: Seq<EntryModel>, f: FileModel) -> Decision {
    match lookup(snapshot, f.name) {
        None => Decision::Apply,
        Some(e) => if e.fingerprint == f.fingerprint {
            Decision::Skip
        } else {
            Decision::Drift { applied_at: e.applied_at }
        },
    }
}

/// Decides what the run must do with `file`, given the ledger snapshot
/// fetched at the start of the run.
pub fn decide(snapshot: &Vec<LedgerEntry>, file: &MigrationFile) -> (d: Decision)
    ensures
        d == decision_of(snapshot.deep_view(), file@),
{
    let ghost snap = snapshot.deep_view();
    let mut i: usize = 0;
    proof {
        assert(snap.skip(0) =~= snap);
    }
    loop
        invariant
            i <= snapshot.len(),
            snap == snapshot.deep_view(),
            snap.len() == snapshot.len(),
            lookup(snap, file@.name) == lookup(snap.skip(i as int), file@.name),
        decreases snapshot.len() - i,
    {
        if i == snapshot.len() {
            assert(snap.skip(i as int).len() == 0);
            return Decision::Apply;
        }
        let e = &snapshot[i];
        proof {
            assert(snap.skip(i as int).first() == snap[i as int]);
            assert(snap[i as int] == snapshot@[i as int].deep_view());
        }
        if e.name == file.name {
            if e.fingerprint == file.fingerprint {
                return Decision::Skip;
            }
            return Decision::Drift { applied_at: e.applied_at };
        }
        proof {
            assert(snap.skip(i as int).drop_first() =~= snap.skip(i as int + 1));
        }
        i = i + 1;
    }
}

/// The position at which a file named `name` belongs in the name-sorted
/// sequence `out`: everything before it compares at or below `name`, and
/// the element standing at the position (if any) compares at or above.
fn insertion_point(out: &Vec<MigrationFile>, name: &String) -> (pos: usize)
    ensures
        pos <= out.len(),
        forall|j: int| 0 <= j < pos ==> lex_le(#[trigger] out.deep_view()[j].name, name@),
        pos < out.len() ==> lex_le(name@, out.deep_view()[pos as int].name),
{
    let mut pos: usize = 0;
    loop
        invariant
            pos <= out.len(),
            forall|j: int| 0 <= j < pos ==> lex_le(#[trigger] out.deep_view()[j].name, name@),
        decreases out.len() - pos,
    {
        if pos == out.len() {
            return pos;
        }
        if !str_le(out[pos].name.as_str(), name.as_str()) {
            proof {
                lemma_lex_le_total(out.deep_view()[pos as int].name, name@);
            }
            return pos;
        }
        pos = pos + 1;
    }
}

/// Inserts `f` into the name-sorted sequence `out`, keeping it sorted.
fn insert_sorted(out: Vec<MigrationFile>, f: MigrationFile) -> (r: Vec<MigrationFile>)
    requires
        sorted_by_name(out.deep_view()),
    ensures
        sorted_by_name(r.deep_view()),
        r.deep_view().to_multiset() == out.deep_view().to_multiset().insert(f@),
{
    let ghost od = out.deep_view();
    let ghost fm = f@;
    let pos = insertion_point(&out, &f.name);
    let mut out = out;
    out.insert(pos, f);
    proof {
        let nd = out.deep_view();
        assert(nd =~= od.insert(pos as int, fm));
        assert forall|i: int, j: int| 0 <= i < j < nd.len() implies #[trigger] lex_le(
            nd[i].name,
            nd[j].name,
        ) by {
            if j < pos {
                assert(lex_le(od[i].name, od[j].name));
            } else if j == pos {
                assert(lex_le(od[i].name, fm.name));
            } else if i < pos {
                // i before the inserted element, j after it
                assert(nd[j] == od[j - 1]);
                assert(lex_le(od[i].name, od[j - 1].name));
            } else if i == pos {
                assert(nd[i] == fm);
                assert(nd[j] == od[j - 1]);
                assert(lex_le(fm.name, od[pos as int].name));
                if j - 1 > pos {
                    assert(lex_le(od[pos as int].name, od[j - 1].name));
                    lemma_lex_le_transitive(fm.name, od[pos as int].name, od[j - 1].name);
                }
            } else {
                assert(nd[i] == od[i - 1]);
                assert(nd[j] == od[j - 1]);
                assert(lex_le(od[i - 1].name, od[j - 1].name));
            }
        }
        assert(nd.remove(pos as int) =~= od);
        assert(nd[pos as int] == fm);
        assert(nd.to_multiset().remove(fm) =~= od.to_multiset());
        assert(nd.contains(fm));
        assert(nd.to_multiset().count(fm) > 0);
        assert(nd.to_multiset() =~= od.to_multiset().insert(fm));
    }
    out
}

/// Orders migration files by name, ascending: the unique execution order
/// of a run. The result holds exactly the given files.
pub fn sort_by_name(files: Vec<MigrationFile>) -> (r: Vec<MigrationFile>)
    ensures
        sorted_by_name(r.deep_view()),
        r.deep_view().to_multiset() == files.deep_view().to_multiset(),
{
    let ghost all = files.deep_view();
    let mut rest = files;
    let mut out: Vec<MigrationFile> = Vec::new();
    proof {
        assert(out.deep_view() =~= Seq::<FileModel>::empty());
        assert(out.deep_view().to_multiset().add(rest.deep_view().to_multiset())
            =~= all.to_multiset());
    }
    while rest.len() > 0
        invariant
            sorted_by_name(out.deep_view()),
            out.deep_view().to_multiset().add(rest.deep_view().to_multiset())
                == all.to_multiset(),
        decreases rest.len(),
    {
        let ghost rd = rest.deep_view();
        let ghost om = out.deep_view().to_multiset();
        let f = rest.pop().unwrap();
        proof {
            assert(rest.deep_view() =~= rd.drop_last());
            assert(f@ == rd.last());
            assert(rd.remove(rd.len() - 1) =~= rd.drop_last());
            assert(rd.to_multiset().remove(rd.last()) =~= rd.drop_last().to_multiset());
            assert(rd.contains(rd.last()));
            assert(rd.to_multiset().count(rd.last()) > 0);
            assert(rd.drop_last().to_multiset().insert(rd.last()) =~= rd.to_multiset());
        }
        out = insert_sorted(out, f);
        proof {
            assert(out.deep_view().to_multiset() =~= om.insert(f@));
            assert(om.insert(f@).add(rest.deep_view().to_multiset()) =~= om.add(
                rest.deep_view().to_multiset().insert(f@),
            ));
        }
    }
    proof {
        assert(rest.deep_view() =~= Seq::<FileModel>::empty());
        assert(out.deep_view().to_multiset().add(rest.deep_view().to_multiset())
            =~= out.deep_view().to_multiset());
    }
    out
}

/// Scans a directory listing — pairs of file name and file content — and
/// builds the run's ordered candidate list: every file carrying the
/// `.sql` suffix, fingerprinted and sorted by name ascending, together
/// with the names of the files that were skipped (in listing order), so
/// the caller can report them.
pub fn scan(entries: Vec<(String, String)>) -> (r: (Vec<MigrationFile>, Vec<String>))
    ensures
        sorted_by_name(r.0.deep_view()),
        r.0.deep_view().to_multiset() == scanned_files(entries.deep_view()).to_multiset(),
        r.1.deep_view() == skipped_names(entries.deep_view()),
{
    let ghost all = entries.deep_view();
    let mut files: Vec<MigrationFile> = Vec::new();
    let mut skipped: Vec<String> = Vec::new();
    let mut i: usize = 0;
    proof {
        assert(all.take(0) =~= Seq::<(Seq<char>, Seq<char>)>::empty());
        assert(files.deep_view() =~= scanned_files(all.take(0)));
        assert(skipped.deep_view() =~= skipped_names(all.take(0)));
    }
    while i < entries.len()
        invariant
            i <= entries.len(),
            all == entries.deep_view(),
            all.len() == entries.len(),
            files.deep_view() == scanned_files(all.take(i as int)),
            skipped.deep_view() == skipped_names(all.take(i as int)),
        decreases entries.len() - i,
    {
        let name = entries[i].0.clone();
        let content = entries[i].1.clone();
        proof {
            assert(all[i as int] == entries@[i as int].deep_view());
            assert(all.take(i as int + 1).drop_last() =~= all.take(i as int));
            assert(all.take(i as int + 1).last() == all[i as int]);
            assert(name@ == all[i as int].0);
            assert(content@ == all[i as int].1);
        }
        let ghost fd = files.deep_view();
        let ghost sd = skipped.deep_view();
        if has_sql_suffix(name.as_str()) {
            let fp = fingerprint(content.as_str());
            files.push(MigrationFile { name, fingerprint: fp, content });
            proof {
                assert(files.deep_view() =~= fd.push(
                    FileModel {
                        name: all[i as int].0,
                        fingerprint: md5_hex(all[i as int].1),
                        content: all[i as int].1,
                    },
                ));
                assert(files.deep_view() =~= scanned_files(all.take(i as int + 1)));
            }
        } else {
            skipped.push(name);
            proof {
                assert(skipped.deep_view() =~= sd.push(all[i as int].0));
                assert(skipped.deep_view() =~= skipped_names(all.take(i as int + 1)));
            }
        }
        i = i + 1;
    }
    proof {
        assert(all.take(entries.len() as int) =~= all);
    }
    let sorted = sort_by_name(files);
    (sorted, skipped)
}

/// What one run will do, computed in full against the fixed ledger
/// snapshot: the migrations to apply, in execution order, and — where an
/// already-applied script has drifted — the drift that aborts the run.
/// Every apply stands strictly before the drift point, so the driver
/// performs the applies in order and then fails with the drift, exactly
/// as the sequential per-migration walk would.
pub struct Plan {
    pub applies: Vec<MigrationFile>,
    pub drift: Option<ContentDrift>,
}

/// Spec-level image of a [`Plan`].
#[verifier::ext_equal]
pub ghost struct PlanModel {
    pub applies: Seq<FileModel>,
    pub drift: Option<DriftModel>,
}

impl View for Plan {
    type V = PlanModel;

    open spec fn view(&self) -> PlanModel {
        PlanModel { applies: self.applies.deep_view(), drift: self.drift.deep_view() }
    }
}

/// The run's outcome on `files` (in order) against `snapshot`: walk the
/// files front to back; a `Skip` contributes nothing, an `Apply` appends
/// the file to the applies, and the first `Drift` ends the walk with the
/// drifted file's name and its recorded application time.
pub open spec fn plan_of(files: Seq<FileModel>, snapshot: Seq<EntryModel>) -> PlanModel
    decreases files.len(),
{
    if files.len() == 0 {
        PlanModel { applies: Seq::empty(), drift: None }
    } else {
        let f = files.first();
        match decision_of(snapshot, f) {
            Decision::Skip => plan_of(files.drop_first(), snapshot),
            Decision::Apply => {
                let rest = plan_of(files.drop_first(), snapshot);
                PlanModel { applies: seq![f] + rest.applies, drift: rest.drift }
            },
            Decision::Drift { applied_at } => PlanModel {
                applies: Seq::empty(),
                drift: Some(DriftModel { name: f.name, applied_at }),
            },
        }
    }
}

/// Reconciles the ordered candidate files against the ledger snapshot and
/// returns the run's plan.
#[verifier::loop_isolation(false)]
pub fn plan(files: Vec<MigrationFile>, snapshot: &Vec<LedgerEntry>) -> (p: Plan)
    ensures
        p@ == plan_of(files.deep_view(), snapshot.deep_view()),
{
    let ghost all = files.deep_view();
    let ghost snap = snapshot.deep_view();
    let mut rest = files;
    let mut applies: Vec<MigrationFile> = Vec::new();
    proof {
        assert(applies.deep_view() + plan_of(all, snap).applies =~= plan_of(all, snap).applies);
    }
    loop
        invariant
            snap == snapshot.deep_view(),
            plan_of(all, snap).applies == applies.deep_view() + plan_of(
                rest.deep_view(),
                snap,
            ).applies,
            plan_of(all, snap).drift == plan_of(rest.deep_view(), snap).drift,
        decreases rest.len(),
    {
        if rest.len() == 0 {
            proof {
                assert(applies.deep_view() + plan_of(rest.deep_view(), snap).applies
                    =~= applies.deep_view());
            }
            let p = Plan { applies, drift: None };
            proof {
                assert(p@ =~= plan_of(all, snap));
            }
            return p;
        }
        let ghost rd = rest.deep_view();
        let f = rest.remove(0);
        proof {
            assert(rest.deep_view() =~= rd.drop_first());
            assert(rd.first() == f@);
        }
        let d = decide(snapshot, &f);
        match d {
            Decision::Skip => {
            },
            Decision::Apply => {
                let ghost ad = applies.deep_view();
                applies.push(f);
                proof {
                    assert(applies.deep_view() =~= ad.push(rd.first()));
                    assert(ad + (seq![rd.first()] + plan_of(rd.drop_first(), snap).applies)
                        =~= ad.push(rd.first()) + plan_of(rd.drop_first(), snap).applies);
                }
            },
            Decision::Drift { applied_at } => {
                proof {
                    assert(applies.deep_view() + plan_of(rd, snap).applies
                        =~= applies.deep_view());
                }
                let p = Plan {
                    applies,
                    drift: Some(ContentDrift { name: f.name, applied_at }),
                };
                proof {
                    assert(p@ =~= plan_of(all, snap));
                }
                return p;
            },
        }
    }
}

/// Builds the ledger row that records `file` as applied at `applied_at`.
pub fn build_entry(file: &MigrationFile, applied_at: u64) -> (e: LedgerEntry)
    ensures
        e@ == (EntryModel { name: file@.name, fingerprint: file@.fingerprint, applied_at }),
{
    LedgerEntry {
        name: file.name.clone(),
        fingerprint: file.fingerprint.clone(),
        applied_at,
    }
}


} // verus!
