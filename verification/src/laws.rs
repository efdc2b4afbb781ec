use vstd::prelude::*;

use crate::migration::{
    decision_of, lookup, plan_of, scanned_files, sorted_by_name, Decision, DriftModel,
    EntryModel, FileModel,
};
use crate::text::{lemma_lex_le_total, lex_le};

verus! {

broadcast use vstd::seq_lib::group_to_multiset_ensures;

/// Looking a name up in a concatenated snapshot finds the front part's
/// entry first, and falls back to the back part.
proof fn lemma_lookup_append(a: Seq<EntryModel>, b: Seq<EntryModel>, name: Seq<char>)
    ensures
        lookup(a + b, name) == (if lookup(a, name) is Some {
            lookup(a, name)
        } else {
            lookup(b, name)
        }),
    decreases a.len(),
{
    if a.len() == 0 {
        assert(a + b =~= b);
    } else {
        assert((a + b).first() == a.first());
        assert((a + b).drop_first() =~= a.drop_first() + b);
        lemma_lookup_append(a.drop_first(), b, name);
    }
}

/// In a snapshot whose names are pairwise distinct, looking up the name
/// of the entry at position `j` finds exactly that entry.
proof fn lemma_lookup_distinct(entries: Seq<EntryModel>, j: int)
    requires
        0 <= j < entries.len(),
        forall|p: int, q: int|
            0 <= p < q < entries.len() ==> (#[trigger] entries[p]).name != (#[trigger] entries[q]).name,
    ensures
        lookup(entries, entries[j].name) == Some(entries[j]),
    decreases entries.len(),
{
    if j == 0 {
    } else {
        assert(entries.first().name != entries[j].name);
        assert(entries.drop_first()[j - 1] == entries[j]);
        assert forall|p: int, q: int|
            0 <= p < q < entries.drop_first().len() implies (#[trigger] entries.drop_first()[p]).name
            != (#[trigger] entries.drop_first()[q]).name by {
            assert(entries.drop_first()[p] == entries[p + 1]);
            assert(entries.drop_first()[q] == entries[q + 1]);
        }
        lemma_lookup_distinct(entries.drop_first(), j - 1);
    }
}

/// A run in which every candidate is skipped applies nothing and ends
/// without drift.
proof fn lemma_all_skip_plan_empty(files: Seq<FileModel>, snap: Seq<EntryModel>)
    requires
        forall|i: int|
            0 <= i < files.len() ==> decision_of(snap, #[trigger] files[i]) == Decision::Skip,
    ensures
        plan_of(files, snap).applies =~= Seq::<FileModel>::empty(),
        plan_of(files, snap).drift is None,
    decreases files.len(),
{
    if files.len() > 0 {
        assert(decision_of(snap, files[0]) == Decision::Skip);
        assert forall|i: int|
            0 <= i < files.drop_first().len() implies decision_of(
            snap,
            #[trigger] files.drop_first()[i],
        ) == Decision::Skip by {
            assert(files.drop_first()[i] == files[i + 1]);
        }
        lemma_all_skip_plan_empty(files.drop_first(), snap);
    }
}

/// Every migration a run applies is one of the run's candidates, and one
/// the snapshot does not record.
proof fn lemma_plan_applies_membership(files: Seq<FileModel>, snap: Seq<EntryModel>)
    ensures
        forall|i: int|
            0 <= i < plan_of(files, snap).applies.len() ==> files.contains(
                #[trigger] plan_of(files, snap).applies[i],
            ) && decision_of(snap, plan_of(files, snap).applies[i]) == Decision::Apply,
    decreases files.len(),
{
    if files.len() > 0 {
        lemma_plan_applies_membership(files.drop_first(), snap);
        let rest = plan_of(files.drop_first(), snap);
        assert forall|i: int|
            0 <= i < rest.applies.len() implies files.contains(#[trigger] rest.applies[i]) by {
            let k = choose|k: int|
                0 <= k < files.drop_first().len() && files.drop_first()[k] == rest.applies[i];
            assert(files[k + 1] == rest.applies[i]);
        }
        match decision_of(snap, files[0]) {
            Decision::Skip => {
            },
            Decision::Apply => {
                let applies = plan_of(files, snap).applies;
                assert(applies =~= seq![files[0]] + rest.applies);
                assert(files.contains(files[0]));
                assert forall|i: int|
                    0 <= i < applies.len() implies files.contains(#[trigger] applies[i])
                    && decision_of(snap, applies[i]) == Decision::Apply by {
                    if i > 0 {
                        assert(applies[i] == rest.applies[i - 1]);
                    }
                }
            },
            Decision::Drift { applied_at } => {
            },
        }
    }
}

/// When the run's candidates carry pairwise distinct names, so do the
/// migrations the run applies.
proof fn lemma_plan_applies_names_distinct(files: Seq<FileModel>, snap: Seq<EntryModel>)
    requires
        forall|i: int, j: int|
            0 <= i < j < files.len() ==> (#[trigger] files[i]).name != (#[trigger] files[j]).name,
    ensures
        forall|i: int, j: int|
            0 <= i < j < plan_of(files, snap).applies.len() ==> (#[trigger] plan_of(
                files,
                snap,
            ).applies[i]).name != (#[trigger] plan_of(files, snap).applies[j]).name,
    decreases files.len(),
{
    if files.len() > 0 {
        assert forall|p: int, q: int|
            0 <= p < q < files.drop_first().len() implies (#[trigger] files.drop_first()[p]).name
            != (#[trigger] files.drop_first()[q]).name by {
            assert(files.drop_first()[p] == files[p + 1]);
            assert(files.drop_first()[q] == files[q + 1]);
        }
        lemma_plan_applies_names_distinct(files.drop_first(), snap);
        lemma_plan_applies_membership(files.drop_first(), snap);
        let rest = plan_of(files.drop_first(), snap);
        match decision_of(snap, files[0]) {
            Decision::Skip => {
            },
            Decision::Apply => {
                let applies = plan_of(files, snap).applies;
                assert(applies =~= seq![files[0]] + rest.applies);
                assert forall|i: int, j: int|
                    0 <= i < j < applies.len() implies (#[trigger] applies[i]).name
                    != (#[trigger] applies[j]).name by {
                    if i == 0 {
                        assert(applies[j] == rest.applies[j - 1]);
                        let k = choose|k: int|
                            0 <= k < files.drop_first().len() && files.drop_first()[k]
                                == rest.applies[j - 1];
                        assert(files[k + 1] == rest.applies[j - 1]);
                        assert(files[0].name != files[k + 1].name);
                    } else {
                        assert(applies[i] == rest.applies[i - 1]);
                        assert(applies[j] == rest.applies[j - 1]);
                    }
                }
            },
            Decision::Drift { applied_at } => {
            },
        }
    }
}

/// A run that ends without drift met no drifted candidate at all.
proof fn lemma_no_drift_no_drift_decision(files: Seq<FileModel>, snap: Seq<EntryModel>)
    requires
        plan_of(files, snap).drift is None,
    ensures
        forall|i: int|
            0 <= i < files.len() ==> !(decision_of(snap, #[trigger] files[i]) is Drift),
    decreases files.len(),
{
    if files.len() > 0 {
        assert(!(decision_of(snap, files[0]) is Drift));
        lemma_no_drift_no_drift_decision(files.drop_first(), snap);
        assert forall|i: int|
            0 <= i < files.len() implies !(decision_of(snap, #[trigger] files[i]) is Drift) by {
            if i > 0 {
                assert(files.drop_first()[i - 1] == files[i]);
            }
        }
    }
}

/// A candidate the snapshot does not record is applied by a driftless run.
proof fn lemma_apply_in_applies(files: Seq<FileModel>, snap: Seq<EntryModel>, i: int)
    requires
        0 <= i < files.len(),
        decision_of(snap, files[i]) == Decision::Apply,
        plan_of(files, snap).drift is None,
    ensures
        plan_of(files, snap).applies.contains(files[i]),
    decreases files.len(),
{
    let applies = plan_of(files, snap).applies;
    let rest = plan_of(files.drop_first(), snap);
    match decision_of(snap, files[0]) {
        Decision::Skip => {
            assert(i > 0);
            assert(files.drop_first()[i - 1] == files[i]);
            lemma_apply_in_applies(files.drop_first(), snap, i - 1);
        },
        Decision::Apply => {
            assert(applies =~= seq![files[0]] + rest.applies);
            if i == 0 {
                assert(applies[0] == files[0]);
            } else {
                assert(files.drop_first()[i - 1] == files[i]);
                lemma_apply_in_applies(files.drop_first(), snap, i - 1);
                let k = choose|k: int|
                    0 <= k < rest.applies.len() && rest.applies[k] == files[i];
                assert(applies[k + 1] == files[i]);
            }
        },
        Decision::Drift { applied_at } => {
            assert(false);
        },
    }
}

/// Idempotence of the engine: a driftless run records each applied
/// migration under its name and fingerprint; running again — over
/// candidates with pairwise distinct names, as a directory listing
/// guarantees — against the snapshot extended by those records applies
/// nothing, records nothing, and again ends without drift.
pub proof fn lemma_rerun_is_noop(
    files: Seq<FileModel>,
    snapshot: Seq<EntryModel>,
    recorded: Seq<EntryModel>,
)
    requires
        forall|i: int, j: int|
            0 <= i < j < files.len() ==> (#[trigger] files[i]).name != (#[trigger] files[j]).name,
        plan_of(files, snapshot).drift is None,
        recorded.len() == plan_of(files, snapshot).applies.len(),
        forall|i: int|
            0 <= i < recorded.len() ==> (#[trigger] recorded[i]).name == plan_of(
                files,
                snapshot,
            ).applies[i].name && recorded[i].fingerprint == plan_of(
                files,
                snapshot,
            ).applies[i].fingerprint,
    ensures
        plan_of(files, snapshot + recorded).applies =~= Seq::<FileModel>::empty(),
        plan_of(files, snapshot + recorded).drift is None,
{
    let applies = plan_of(files, snapshot).applies;
    let snap2 = snapshot + recorded;
    lemma_plan_applies_names_distinct(files, snapshot);
    lemma_no_drift_no_drift_decision(files, snapshot);
    assert forall|i: int|
        0 <= i < files.len() implies decision_of(snap2, #[trigger] files[i]) == Decision::Skip by {
        lemma_lookup_append(snapshot, recorded, files[i].name);
        match decision_of(snapshot, files[i]) {
            Decision::Skip => {
                assert(lookup(snapshot, files[i].name) is Some);
                assert(lookup(snap2, files[i].name) == lookup(snapshot, files[i].name));
            },
            Decision::Apply => {
                assert(lookup(snapshot, files[i].name) is None);
                assert(lookup(snap2, files[i].name) == lookup(recorded, files[i].name));
                lemma_apply_in_applies(files, snapshot, i);
                let j = choose|j: int| 0 <= j < applies.len() && applies[j] == files[i];
                assert(recorded[j].name == files[i].name);
                assert(recorded[j].fingerprint == files[i].fingerprint);
                assert forall|p: int, q: int|
                    0 <= p < q < recorded.len() implies (#[trigger] recorded[p]).name
                    != (#[trigger] recorded[q]).name by {
                    assert(applies[p].name != applies[q].name);
                }
                lemma_lookup_distinct(recorded, j);
            },
            Decision::Drift { applied_at } => {
                assert(false);
            },
        }
    }
    lemma_all_skip_plan_empty(files, snap2);
}

/// Drift halts forward progress: when a run over name-ordered candidates
/// ends in drift, the drift names one candidate whose recorded
/// fingerprint disagrees with its current content, and every migration
/// the run applies carries a name no later than the drifted one — no
/// lexicographically later migration is applied or recorded.
pub proof fn lemma_drift_halts(files: Seq<FileModel>, snapshot: Seq<EntryModel>)
    requires
        sorted_by_name(files),
    ensures
        plan_of(files, snapshot).drift matches Some(d) ==> ({
            &&& exists|k: int|
                0 <= k < files.len() && (#[trigger] files[k]).name == d.name && decision_of(
                    snapshot,
                    files[k],
                ) == (Decision::Drift { applied_at: d.applied_at })
            &&& forall|i: int|
                0 <= i < plan_of(files, snapshot).applies.len() ==> lex_le(
                    (#[trigger] plan_of(files, snapshot).applies[i]).name,
                    d.name,
                )
        }),
    decreases files.len(),
{
    if files.len() > 0 && plan_of(files, snapshot).drift is Some {
        let d = plan_of(files, snapshot).drift->Some_0;
        assert forall|p: int, q: int|
            0 <= p < q < files.drop_first().len() implies lex_le(
            (#[trigger] files.drop_first()[p]).name,
            (#[trigger] files.drop_first()[q]).name,
        ) by {
            assert(files.drop_first()[p] == files[p + 1]);
            assert(files.drop_first()[q] == files[q + 1]);
        }
        assert(sorted_by_name(files.drop_first()));
        lemma_drift_halts(files.drop_first(), snapshot);
        let rest = plan_of(files.drop_first(), snapshot);
        match decision_of(snapshot, files[0]) {
            Decision::Skip => {
                let k = choose|k: int|
                    0 <= k < files.drop_first().len() && (#[trigger] files.drop_first()[k]).name
                        == d.name && decision_of(snapshot, files.drop_first()[k]) == (
                    Decision::Drift { applied_at: d.applied_at });
                assert(files[k + 1] == files.drop_first()[k]);
            },
            Decision::Apply => {
                let k = choose|k: int|
                    0 <= k < files.drop_first().len() && (#[trigger] files.drop_first()[k]).name
                        == d.name && decision_of(snapshot, files.drop_first()[k]) == (
                    Decision::Drift { applied_at: d.applied_at });
                assert(files[k + 1] == files.drop_first()[k]);
                let applies = plan_of(files, snapshot).applies;
                assert(applies =~= seq![files[0]] + rest.applies);
                assert forall|i: int|
                    0 <= i < applies.len() implies lex_le(
                    (#[trigger] applies[i]).name,
                    d.name,
                ) by {
                    if i == 0 {
                        assert(lex_le(files[0].name, files[k + 1].name));
                    } else {
                        assert(applies[i] == rest.applies[i - 1]);
                    }
                }
            },
            Decision::Drift { applied_at } => {
                assert(d == (DriftModel { name: files[0].name, applied_at }));
                assert(files[0].name == d.name && decision_of(snapshot, files[0]) == (
                Decision::Drift { applied_at: d.applied_at }));
                assert(plan_of(files, snapshot).applies =~= Seq::<FileModel>::empty());
            },
        }
    }
}

/// Non-migration files are inert: a directory whose listing carries no
/// `.sql` name scans to an empty candidate list, and the run over it
/// applies nothing and ends without drift.
pub proof fn lemma_non_migrations_inert(
    entries: Seq<(Seq<char>, Seq<char>)>,
    snapshot: Seq<EntryModel>,
)
    requires
        forall|i: int| 0 <= i < entries.len() ==> !crate::text::is_sql_name(
            (#[trigger] entries[i]).0,
        ),
    ensures
        scanned_files(entries) =~= Seq::<FileModel>::empty(),
        plan_of(scanned_files(entries), snapshot).applies =~= Seq::<FileModel>::empty(),
        plan_of(scanned_files(entries), snapshot).drift is None,
    decreases entries.len(),
{
    if entries.len() > 0 {
        assert forall|i: int|
            0 <= i < entries.drop_last().len() implies !crate::text::is_sql_name(
            (#[trigger] entries.drop_last()[i]).0,
        ) by {
            assert(entries.drop_last()[i] == entries[i]);
        }
        lemma_non_migrations_inert(entries.drop_last(), snapshot);
        assert(!crate::text::is_sql_name(entries.last().0));
    }
}

/// The scanner's file list distributes over concatenation of listings.
proof fn lemma_scanned_concat(a: Seq<(Seq<char>, Seq<char>)>, b: Seq<(Seq<char>, Seq<char>)>)
    ensures
        scanned_files(a + b) == scanned_files(a) + scanned_files(b),
    decreases b.len(),
{
    if b.len() == 0 {
        assert(a + b =~= a);
        assert(scanned_files(a) + scanned_files(b) =~= scanned_files(a));
    } else {
        assert((a + b).drop_last() =~= a + b.drop_last());
        assert((a + b).last() == b.last());
        lemma_scanned_concat(a, b.drop_last());
        if crate::text::is_sql_name(b.last().0) {
            assert(scanned_files(a + b) =~= scanned_files(a) + scanned_files(b));
        } else {
            assert(scanned_files(a + b) =~= scanned_files(a) + scanned_files(b));
        }
    }
}

/// Listings holding the same files — in whatever order the file system
/// hands them out — scan to the same collection of migration files.
proof fn lemma_scanned_multiset(e1: Seq<(Seq<char>, Seq<char>)>, e2: Seq<(Seq<char>, Seq<char>)>)
    requires
        e1.to_multiset() == e2.to_multiset(),
    ensures
        scanned_files(e1).to_multiset() == scanned_files(e2).to_multiset(),
    decreases e1.len(),
{
    if e1.len() == 0 {
        assert(e2.to_multiset().len() == 0);
        assert(e1 =~= e2);
    } else {
        let x = e1.last();
        assert(e1.contains(x));
        assert(e1.to_multiset().count(x) > 0);
        assert(e2.to_multiset().count(x) > 0);
        assert(e2.contains(x));
        let j = choose|j: int| 0 <= j < e2.len() && e2[j] == x;
        assert(e1.remove(e1.len() - 1) =~= e1.drop_last());
        assert(e1.drop_last().to_multiset() =~= e1.to_multiset().remove(x));
        assert(e2.remove(j).to_multiset() =~= e2.to_multiset().remove(x));
        lemma_scanned_multiset(e1.drop_last(), e2.remove(j));
        let a = e2.take(j);
        let b = e2.skip(j + 1);
        assert(e2 =~= (a + seq![x]) + b);
        assert(e2.remove(j) =~= a + b);
        lemma_scanned_concat(a + seq![x], b);
        lemma_scanned_concat(a, seq![x]);
        lemma_scanned_concat(a, b);
        lemma_scanned_concat(e1.drop_last(), seq![x]);
        assert(e1 =~= e1.drop_last() + seq![x]);
        vstd::seq_lib::lemma_multiset_commutative(
            scanned_files(a + seq![x]),
            scanned_files(b),
        );
        vstd::seq_lib::lemma_multiset_commutative(scanned_files(a), scanned_files(seq![x]));
        vstd::seq_lib::lemma_multiset_commutative(scanned_files(a), scanned_files(b));
        vstd::seq_lib::lemma_multiset_commutative(
            scanned_files(e1.drop_last()),
            scanned_files(seq![x]),
        );
        assert(scanned_files(e1).to_multiset() =~= scanned_files(e2).to_multiset());
    }
}

/// Every scanned file takes its name from some entry of the listing.
proof fn lemma_scanned_names_from_listing(entries: Seq<(Seq<char>, Seq<char>)>)
    ensures
        forall|k: int|
            0 <= k < scanned_files(entries).len() ==> exists|i: int|
                0 <= i < entries.len() && (#[trigger] scanned_files(entries)[k]).name
                    == entries[i].0,
    decreases entries.len(),
{
    if entries.len() > 0 {
        lemma_scanned_names_from_listing(entries.drop_last());
        let sc = scanned_files(entries);
        let prior = scanned_files(entries.drop_last());
        assert forall|k: int|
            0 <= k < sc.len() implies exists|i: int|
            0 <= i < entries.len() && (#[trigger] sc[k]).name == entries[i].0 by {
            if k < prior.len() {
                assert(sc[k] == prior[k]);
                let i = choose|i: int|
                    0 <= i < entries.drop_last().len() && prior[k].name
                        == entries.drop_last()[i].0;
                assert(entries[i] == entries.drop_last()[i]);
                assert(0 <= i < entries.len() && sc[k].name == entries[i].0);
            } else {
                assert(sc[k].name == entries.last().0);
                let last: int = entries.len() - 1;
                assert(entries[last] == entries.last());
                assert(0 <= last < entries.len() && sc[k].name == entries[last].0);
            }
        }
    }
}

/// When the listing carries pairwise distinct file names, so does the
/// scanner's file list.
proof fn lemma_scanned_names_distinct(entries: Seq<(Seq<char>, Seq<char>)>)
    requires
        forall|i: int, j: int|
            0 <= i < j < entries.len() ==> (#[trigger] entries[i]).0 != (#[trigger] entries[j]).0,
    ensures
        forall|k1: int, k2: int|
            0 <= k1 < k2 < scanned_files(entries).len() ==> (#[trigger] scanned_files(
                entries,
            )[k1]).name != (#[trigger] scanned_files(entries)[k2]).name,
    decreases entries.len(),
{
    if entries.len() > 0 {
        assert forall|i: int, j: int|
            0 <= i < j < entries.drop_last().len() implies (#[trigger] entries.drop_last()[i]).0
            != (#[trigger] entries.drop_last()[j]).0 by {
            assert(entries.drop_last()[i] == entries[i]);
            assert(entries.drop_last()[j] == entries[j]);
        }
        lemma_scanned_names_distinct(entries.drop_last());
        lemma_scanned_names_from_listing(entries.drop_last());
        let sc = scanned_files(entries);
        let prior = scanned_files(entries.drop_last());
        assert forall|k1: int, k2: int|
            0 <= k1 < k2 < sc.len() implies (#[trigger] sc[k1]).name != (#[trigger] sc[k2]).name
            by {
            if k2 < prior.len() {
                assert(sc[k1] == prior[k1]);
                assert(sc[k2] == prior[k2]);
            } else if k2 == prior.len() && sc.len() == prior.len() + 1 {
                assert(sc[k1] == prior[k1]);
                assert(sc[k2].name == entries.last().0);
                let i = choose|i: int|
                    0 <= i < entries.drop_last().len() && prior[k1].name
                        == entries.drop_last()[i].0;
                assert(entries[i] == entries.drop_last()[i]);
                assert(entries[i].0 != entries[entries.len() - 1].0);
            }
        }
    }
}

/// Pairwise-distinct names survive rearrangement: a sequence holding the
/// same files as a name-distinct one is itself name-distinct.
proof fn lemma_names_distinct_transfer(a: Seq<FileModel>, b: Seq<FileModel>)
    requires
        a.to_multiset() == b.to_multiset(),
        forall|i: int, j: int|
            0 <= i < j < a.len() ==> (#[trigger] a[i]).name != (#[trigger] a[j]).name,
    ensures
        forall|k1: int, k2: int|
            0 <= k1 < k2 < b.len() ==> (#[trigger] b[k1]).name != (#[trigger] b[k2]).name,
{
    assert(a.no_duplicates()) by {
        assert forall|i: int, j: int|
            0 <= i < a.len() && 0 <= j < a.len() && i != j implies a[i] != a[j] by {
            if i < j {
                assert(a[i].name != a[j].name);
            } else {
                assert(a[j].name != a[i].name);
            }
        }
    }
    a.lemma_multiset_has_no_duplicates();
    assert forall|k1: int, k2: int|
        0 <= k1 < k2 < b.len() implies (#[trigger] b[k1]).name != (#[trigger] b[k2]).name by {
        if b[k1].name == b[k2].name {
            if b[k1] == b[k2] {
                let s0 = b.subrange(0, k2);
                let s1 = b.subrange(k2, b.len() as int);
                assert(b =~= s0 + s1);
                vstd::seq_lib::lemma_multiset_commutative(s0, s1);
                assert(s0[k1] == b[k1]);
                assert(s0.contains(b[k1]));
                assert(s1[0] == b[k1]);
                assert(s1.contains(b[k1]));
                assert(b.to_multiset().count(b[k1]) >= 2);
                assert(a.to_multiset().contains(b[k1]));
                assert(false);
            } else {
                assert(b.contains(b[k1]));
                assert(b.contains(b[k2]));
                assert(a.to_multiset().count(b[k1]) > 0);
                assert(a.to_multiset().count(b[k2]) > 0);
                assert(a.contains(b[k1]));
                assert(a.contains(b[k2]));
                let p1 = choose|p: int| 0 <= p < a.len() && a[p] == b[k1];
                let p2 = choose|p: int| 0 <= p < a.len() && a[p] == b[k2];
                if p1 < p2 {
                    assert(a[p1].name != a[p2].name);
                } else if p2 < p1 {
                    assert(a[p2].name != a[p1].name);
                }
                assert(false);
            }
        }
    }
}

/// Two name-sorted sequences holding the same files, with pairwise
/// distinct names, are the same sequence.
proof fn lemma_sorted_unique_by_name(x: Seq<FileModel>, y: Seq<FileModel>)
    requires
        sorted_by_name(x),
        sorted_by_name(y),
        x.to_multiset() == y.to_multiset(),
        forall|i: int, j: int|
            0 <= i < j < x.len() ==> (#[trigger] x[i]).name != (#[trigger] x[j]).name,
    ensures
        x =~= y,
    decreases x.len(),
{
    if x.len() == 0 {
        assert(y.to_multiset().len() == 0);
        assert(x =~= y);
    } else {
        x.to_multiset_ensures();
        y.to_multiset_ensures();
        assert(x.to_multiset().len() == y.to_multiset().len());
        assert(y.len() == x.len());
        assert(y.contains(y[0]));
        assert(x.to_multiset().count(y[0]) > 0);
        assert(x.contains(y[0]));
        assert(x.contains(x[0]));
        assert(y.to_multiset().count(x[0]) > 0);
        assert(y.contains(x[0]));
        let i = choose|i: int| 0 <= i < x.len() && x[i] == y[0];
        let j = choose|j: int| 0 <= j < y.len() && y[j] == x[0];
        lemma_lex_le_total(x[0].name, x[0].name);
        assert(lex_le(x[0].name, x[0].name));
        assert(lex_le(x[0].name, x[i].name));
        assert(lex_le(y[0].name, y[j].name));
        crate::text::lemma_lex_le_antisymmetric(x[0].name, y[0].name);
        assert(x[0].name == y[0].name);
        if i != 0 {
            assert(x[0].name != x[i].name);
            assert(false);
        }
        assert(x[0] == y[0]);
        assert(x.remove(0) =~= x.drop_first());
        assert(y.remove(0) =~= y.drop_first());
        assert(x.drop_first().to_multiset() =~= x.to_multiset().remove(x[0]));
        assert(y.drop_first().to_multiset() =~= y.to_multiset().remove(y[0]));
        assert forall|p: int, q: int|
            0 <= p < q < x.drop_first().len() implies (#[trigger] x.drop_first()[p]).name
            != (#[trigger] x.drop_first()[q]).name by {
            assert(x.drop_first()[p] == x[p + 1]);
            assert(x.drop_first()[q] == x[q + 1]);
        }
        assert forall|p: int, q: int|
            0 <= p < q < x.drop_first().len() implies lex_le(
            (#[trigger] x.drop_first()[p]).name,
            (#[trigger] x.drop_first()[q]).name,
        ) by {
            assert(x.drop_first()[p] == x[p + 1]);
            assert(x.drop_first()[q] == x[q + 1]);
        }
        assert forall|p: int, q: int|
            0 <= p < q < y.drop_first().len() implies lex_le(
            (#[trigger] y.drop_first()[p]).name,
            (#[trigger] y.drop_first()[q]).name,
        ) by {
            assert(y.drop_first()[p] == y[p + 1]);
            assert(y.drop_first()[q] == y[q + 1]);
        }
        lemma_sorted_unique_by_name(x.drop_first(), y.drop_first());
        assert forall|k: int| 0 <= k < x.len() implies x[k] == y[k] by {
            if k > 0 {
                assert(x.drop_first()[k - 1] == y.drop_first()[k - 1]);
                assert(x[k] == x.drop_first()[k - 1]);
                assert(y[k] == y.drop_first()[k - 1]);
            }
        }
        assert(x =~= y);
    }
}

/// Deterministic ordering: however the file system enumerates a
/// directory — any two listings holding the same name-distinct files —
/// any name-sorted arrangements of their scanned files coincide. The
/// scanner's output is therefore a function of the directory's contents
/// alone, and migrations are always processed in one and the same
/// ascending name order.
pub proof fn lemma_order_deterministic(
    e1: Seq<(Seq<char>, Seq<char>)>,
    e2: Seq<(Seq<char>, Seq<char>)>,
    s1: Seq<FileModel>,
    s2: Seq<FileModel>,
)
    requires
        e1.to_multiset() == e2.to_multiset(),
        forall|i: int, j: int|
            0 <= i < j < e1.len() ==> (#[trigger] e1[i]).0 != (#[trigger] e1[j]).0,
        sorted_by_name(s1),
        s1.to_multiset() == scanned_files(e1).to_multiset(),
        sorted_by_name(s2),
        s2.to_multiset() == scanned_files(e2).to_multiset(),
    ensures
        s1 =~= s2,
{
    lemma_scanned_multiset(e1, e2);
    lemma_scanned_names_distinct(e1);
    lemma_names_distinct_transfer(scanned_files(e1), s1);
    lemma_sorted_unique_by_name(s1, s2);
}

} // verus!
