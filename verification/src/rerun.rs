//! What a sync plan does not depend on: the order in which the Output
//! Directory lists its files, and, after a run that wrote every planned Call
//! File, a second run over the same Calls, which writes nothing new.
use vstd::prelude::*;
use vstd::seq_lib::{lemma_seq_contains_after_push, to_multiset_contains};
use crate::api::{opt_view, spec_is_customer_call, ExtensiveCall};
use crate::sync::{
    action_for, collision_key, file_keys, lemma_one_operation_per_customer_call, match_by_id,
    match_by_name, matched_file, name_keys, new_keys, new_names_fresh, operations, planned_operations,
    select_customer, action_fits, lemma_actions_follow_the_files, planned_names, reserved_name,
    insert_by_name, is_matched, lemma_orphans_are_untargeted, orphans_of, sort_by_name, unmatched,
    sorted_customer_calls, Action, ExistingFile, OperationView, TargetView, Timed,
};
use crate::dates::hour_minute_text;
use crate::order::{
    lemma_chars_order_equal, lemma_chars_order_flip, lemma_chars_order_trans, lemma_sorted_images,
    sorted_by, tied, ties_agree, total_preorder,
};
use crate::renderer::chars_order;

verus! {

/// What a scan reads of a Call File: its name, the Call id of its front
/// matter, and whether it still holds the placeholder.
pub struct FileView {
    pub name: Seq<char>,
    pub id: Option<Seq<char>>,
    pub incomplete: bool,
}

/// The value of a scanned file.
pub open spec fn file_view(f: ExistingFile) -> FileView {
    FileView { name: f.filename@, id: opt_view(f.call_id), incomplete: f.incomplete }
}

/// How many operations write a new Call File.
pub open spec fn new_count(ops: Seq<OperationView>) -> nat
    decreases ops.len(),
{
    if ops.len() == 0 {
        0
    } else {
        new_count(ops.drop_last()) + if ops.last().target is New {
            1nat
        } else {
            0nat
        }
    }
}

/// The id of operation `k`'s Call.
pub open spec fn op_id(ops: Seq<OperationView>, k: int) -> Seq<char> {
    ops[k].call.metadata.id@
}

/// The operation at `k` of a plan: the Call at `k` of the sorted Calls,
/// targeting the file it matches (with the action that file calls for), or
/// a new file when it matches none.
proof fn lemma_operation_at(
    sorted: Seq<Timed>,
    names: Seq<Seq<char>>,
    files: Seq<ExistingFile>,
    others: Seq<Seq<char>>,
    force: bool,
)
    ensures
        operations(sorted, names, files, others, force).0.len() == sorted.len(),
        forall|k: int|
            #![trigger operations(sorted, names, files, others, force).0[k]]
            0 <= k < sorted.len() ==> {
                let op = operations(sorted, names, files, others, force).0[k];
                &&& op.call == sorted[k].0
                &&& match matched_file(files, sorted[k].0.metadata.id@, names[k]) {
                    Some(j) => op.target == TargetView::Existing(j) && op.action == action_for(
                        files,
                        Some(j),
                        force,
                    ),
                    None => op.target is New && op.action == Action::New,
                }
            },
    decreases sorted.len(),
{
    if sorted.len() > 0 {
        let init = sorted.drop_last();
        lemma_operation_at(init, names, files, others, force);
        let prev = operations(init, names, files, others, force).0;
        let now = operations(sorted, names, files, others, force).0;
        assert(now.drop_last() == prev);
        assert forall|k: int| 0 <= k < sorted.len() - 1 implies #[trigger] now[k] == prev[k]
            && sorted[k] == init[k] by {}
    }
}

/// Whether a file's front matter names this Call id.
pub open spec fn names_id(f: FileView, id: Seq<char>) -> bool {
    f.id == Some(id)
}

/// The first file naming `id` is the one found by id.
proof fn lemma_match_by_id_first(files: Seq<ExistingFile>, id: Seq<char>, j: int)
    requires
        0 <= j < files.len(),
        names_id(file_view(files[j]), id),
        forall|p: int| 0 <= p < j ==> !names_id(#[trigger] file_view(files[p]), id),
    ensures
        match_by_id(files, id) == Some(j),
    decreases files.len(),
{
    if j > 0 {
        let rest = files.drop_first();
        assert(!names_id(file_view(files[0]), id));
        assert forall|p: int| 0 <= p < j - 1 implies !names_id(#[trigger] file_view(rest[p]), id) by {
            assert(rest[p] == files[p + 1]);
            assert(!names_id(file_view(files[p + 1]), id));
        }
        assert(rest[j - 1] == files[j]);
        lemma_match_by_id_first(rest, id, j - 1);
    }
}

/// No file naming `id` means no match by id.
proof fn lemma_match_by_id_none(files: Seq<ExistingFile>, id: Seq<char>)
    requires
        forall|p: int| 0 <= p < files.len() ==> !names_id(#[trigger] file_view(files[p]), id),
    ensures
        match_by_id(files, id) is None,
    decreases files.len(),
{
    if files.len() > 0 {
        let rest = files.drop_first();
        assert(!names_id(file_view(files[0]), id));
        assert forall|p: int| 0 <= p < rest.len() implies !names_id(#[trigger] file_view(rest[p]), id) by {
            assert(rest[p] == files[p + 1]);
            assert(!names_id(file_view(files[p + 1]), id));
        }
        lemma_match_by_id_none(rest, id);
    }
}

/// What a match by id says of the files.
proof fn lemma_match_by_id_means(files: Seq<ExistingFile>, id: Seq<char>)
    ensures
        match match_by_id(files, id) {
            Some(j) => 0 <= j < files.len() && names_id(file_view(files[j]), id) && forall|p: int|
                0 <= p < j ==> !names_id(#[trigger] file_view(files[p]), id),
            None => forall|p: int|
                0 <= p < files.len() ==> !names_id(#[trigger] file_view(files[p]), id),
        },
    decreases files.len(),
{
    if files.len() > 0 {
        let rest = files.drop_first();
        lemma_match_by_id_means(rest, id);
        assert forall|p: int| 0 <= p < rest.len() implies #[trigger] rest[p] == files[p + 1] by {}
        if match_by_id(files, id) is None {
            assert forall|p: int| 0 <= p < files.len() implies !names_id(
                #[trigger] file_view(files[p]),
                id,
            ) by {
                if p > 0 {
                    assert(rest[p - 1] == files[p]);
                }
            }
        } else if !names_id(file_view(files[0]), id) {
            let j = match_by_id(files, id)->0;
            assert forall|p: int| 0 <= p < j implies !names_id(#[trigger] file_view(files[p]), id) by {
                if p > 0 {
                    assert(rest[p - 1] == files[p]);
                }
            }
        }
    }
}

/// The last file with `name` is the one found by name.
proof fn lemma_match_by_name_last(files: Seq<ExistingFile>, name: Seq<char>, j: int)
    requires
        0 <= j < files.len(),
        files[j].filename@ == name,
        forall|p: int| j < p < files.len() ==> (#[trigger] files[p]).filename@ != name,
    ensures
        match_by_name(files, name) == Some(j),
    decreases files.len(),
{
    if j < files.len() - 1 {
        let init = files.drop_last();
        assert(files.last().filename@ != name);
        assert forall|p: int| j < p < init.len() implies (#[trigger] init[p]).filename@ != name by {
            assert(init[p] == files[p]);
        }
        lemma_match_by_name_last(init, name, j);
    }
}

/// What a match by name says of the files.
proof fn lemma_match_by_name_means(files: Seq<ExistingFile>, name: Seq<char>)
    ensures
        match_by_name(files, name) matches Some(j) ==> 0 <= j < files.len() && files[j].filename@
            == name && forall|p: int| j < p < files.len() ==> (#[trigger] files[p]).filename@ != name,
    decreases files.len(),
{
    if files.len() > 0 && files.last().filename@ != name {
        let init = files.drop_last();
        lemma_match_by_name_means(init, name);
        if match_by_name(files, name) is Some {
            let j = match_by_name(files, name)->0;
            assert forall|p: int| j < p < files.len() implies (#[trigger] files[p]).filename@
                != name by {
                if p < init.len() {
                    assert(init[p] == files[p]);
                }
            }
        }
    }
}

/// Operation `op` writes over scanned file `j`.
pub open spec fn rewrites(op: OperationView, j: int) -> bool {
    op.target == TargetView::Existing(j) && op.action != Action::Skip
}

/// No two operations target the same scanned file.
pub open spec fn distinct_targets(ops: Seq<OperationView>) -> bool {
    forall|a: int, b: int|
        0 <= a < ops.len() && 0 <= b < ops.len() && a != b && (#[trigger] ops[a]).target is Existing
            ==> (#[trigger] ops[b]).target != ops[a].target
}

/// Every targeted file lies among the `n` scanned files.
pub open spec fn targets_within(ops: Seq<OperationView>, n: int) -> bool {
    forall|k: int| 0 <= k < ops.len() ==> ((#[trigger] ops[k]).target matches TargetView::Existing(
        j,
    ) ==> 0 <= j < n)
}

/// The Output Directory, as a scan reads it, after a run that wrote every
/// planned Call File in order: a healed or overwritten file keeps its name
/// and now names its Call, a skipped file is left alone, and each new file
/// follows the scanned ones.  `complete[k]` says whether the file written
/// for operation `k` came out without the placeholder.
pub open spec fn after_clean_run(
    ops: Seq<OperationView>,
    files: Seq<FileView>,
    complete: Seq<bool>,
) -> Seq<FileView>
    decreases ops.len(),
{
    if ops.len() == 0 {
        files
    } else {
        let prev = after_clean_run(ops.drop_last(), files, complete);
        let k = ops.len() - 1;
        let id = Some(ops[k].call.metadata.id@);
        match ops[k].target {
            TargetView::Existing(j) => if ops[k].action == Action::Skip {
                prev
            } else {
                prev.update(j, FileView { name: prev[j].name, id, incomplete: !complete[k] })
            },
            TargetView::New(n) => prev.push(FileView { name: n, id, incomplete: !complete[k] }),
        }
    }
}

/// Where the file of new operation `k` lands after the run.
pub open spec fn new_slot(ops: Seq<OperationView>, files_len: int, k: int) -> int {
    files_len + new_count(ops.take(k))
}

/// A plan without its last operation agrees with it on every earlier
/// operation and prefix.
proof fn lemma_prefix(ops: Seq<OperationView>)
    requires
        ops.len() > 0,
    ensures
        forall|k: int|
            0 <= k < ops.len() - 1 ==> #[trigger] ops.drop_last()[k] == ops[k] && ops.drop_last().take(k)
                == ops.take(k),
        ops.take(ops.len() - 1) == ops.drop_last(),
{
    assert forall|k: int| 0 <= k < ops.len() - 1 implies #[trigger] ops.drop_last()[k] == ops[k]
        && ops.drop_last().take(k) == ops.take(k) by {
        assert(ops.drop_last().take(k) =~= ops.take(k));
    }
    assert(ops.take(ops.len() - 1) =~= ops.drop_last());
}

/// The run adds one file per new operation.
proof fn lemma_after_clean_run_len(ops: Seq<OperationView>, files: Seq<FileView>, complete: Seq<bool>)
    requires
        targets_within(ops, files.len() as int),
    ensures
        after_clean_run(ops, files, complete).len() == files.len() + new_count(ops),
    decreases ops.len(),
{
    if ops.len() > 0 {
        let init = ops.drop_last();
        assert forall|k: int| 0 <= k < init.len() implies ((#[trigger] init[k]).target matches TargetView::Existing(
            j,
        ) ==> 0 <= j < files.len()) by {
            assert(ops[k] == init[k]);
        }
        assert(ops[ops.len() - 1].target matches TargetView::Existing(j) ==> 0 <= j < files.len());
        lemma_after_clean_run_len(init, files, complete);
        lemma_after_clean_run_step(ops, files, complete);
    }
}

/// The last step of a run: what writing the last operation's file does.
proof fn lemma_after_clean_run_step(ops: Seq<OperationView>, files: Seq<FileView>, complete: Seq<bool>)
    requires
        ops.len() > 0,
    ensures
        ({
            let prev = after_clean_run(ops.drop_last(), files, complete);
            let m = ops.len() - 1;
            let w = FileView {
                name: match ops[m].target {
                    TargetView::New(n) => n,
                    TargetView::Existing(j) => prev[j].name,
                },
                id: Some(op_id(ops, m)),
                incomplete: !complete[m],
            };
            after_clean_run(ops, files, complete) == match ops[m].target {
                TargetView::New(_) => prev.push(w),
                TargetView::Existing(j) => if ops[m].action == Action::Skip {
                    prev
                } else {
                    prev.update(j, w)
                },
            }
        }),
{
}

/// What holds of a plan holds of its operations but the last.
proof fn lemma_init_targets(ops: Seq<OperationView>, n: int)
    requires
        ops.len() > 0,
        targets_within(ops, n),
    ensures
        targets_within(ops.drop_last(), n),
        ops[ops.len() - 1].target matches TargetView::Existing(j) ==> 0 <= j < n,
        distinct_targets(ops) ==> distinct_targets(ops.drop_last()),
{
    let init = ops.drop_last();
    assert forall|k: int| 0 <= k < init.len() implies ((#[trigger] init[k]).target matches TargetView::Existing(
        j,
    ) ==> 0 <= j < n) by {
        assert(ops[k] == init[k]);
    }
    assert(ops[ops.len() - 1].target matches TargetView::Existing(j) ==> 0 <= j < n);
    if distinct_targets(ops) {
        assert forall|a: int, b: int|
            0 <= a < init.len() && 0 <= b < init.len() && a != b && (#[trigger] init[a]).target is Existing
                implies (#[trigger] init[b]).target != init[a].target by {
            assert(ops[a] == init[a] && ops[b] == init[b]);
        }
    }
}

/// Each new operation's file lands in its slot after the scanned files.
proof fn lemma_after_clean_run_slots(ops: Seq<OperationView>, files: Seq<FileView>, complete: Seq<bool>)
    requires
        targets_within(ops, files.len() as int),
    ensures
        forall|k: int|
            0 <= k < ops.len() && (#[trigger] ops[k]).target is New ==> after_clean_run(
                ops,
                files,
                complete,
            )[new_slot(ops, files.len() as int, k)] == (FileView {
                name: ops[k].target->New_0,
                id: Some(op_id(ops, k)),
                incomplete: !complete[k],
            }),
    decreases ops.len(),
{
    if ops.len() > 0 {
        let init = ops.drop_last();
        let m = ops.len() - 1;
        let n = files.len() as int;
        lemma_init_targets(ops, n);
        lemma_after_clean_run_slots(init, files, complete);
        lemma_after_clean_run_len(init, files, complete);
        lemma_after_clean_run_step(ops, files, complete);
        let prev = after_clean_run(init, files, complete);
        let d = after_clean_run(ops, files, complete);
        assert forall|k: int| 0 <= k < ops.len() && (#[trigger] ops[k]).target is New implies d[new_slot(
            ops,
            n,
            k,
        )] == (FileView {
            name: ops[k].target->New_0,
            id: Some(op_id(ops, k)),
            incomplete: !complete[k],
        }) by {
            if k < m {
                assert(init[k] == ops[k]);
                assert(init.take(k) =~= ops.take(k));
                assert(new_slot(init, n, k) == new_slot(ops, n, k));
                lemma_new_count_prefix(init, k);
                assert(new_slot(ops, n, k) < prev.len());
            } else {
                assert(ops.take(m) =~= init);
            }
        }
    }
}

/// A prefix writes no more new files than the whole, and one fewer than a
/// longer prefix that adds a new operation.
proof fn lemma_new_count_prefix(ops: Seq<OperationView>, k: int)
    requires
        0 <= k < ops.len(),
    ensures
        new_count(ops.take(k)) + (if ops[k].target is New { 1nat } else { 0nat }) <= new_count(ops),
    decreases ops.len(),
{
    if k < ops.len() - 1 {
        let init = ops.drop_last();
        assert(init.take(k) =~= ops.take(k));
        assert(init[k] == ops[k]);
        lemma_new_count_prefix(init, k);
    } else {
        assert(ops.take(k) =~= ops.drop_last());
    }
}

/// Every file after the scanned ones is the file of some new operation,
/// holding what that operation wrote.
proof fn lemma_after_clean_run_added(ops: Seq<OperationView>, files: Seq<FileView>, complete: Seq<bool>)
    requires
        targets_within(ops, files.len() as int),
    ensures
        forall|p: int|
            #![trigger after_clean_run(ops, files, complete)[p]]
            files.len() <= p < after_clean_run(ops, files, complete).len() ==> exists|k: int|
                0 <= k < ops.len() && (#[trigger] ops[k]).target is New && p == new_slot(
                    ops,
                    files.len() as int,
                    k,
                ) && after_clean_run(ops, files, complete)[p].id == Some(op_id(ops, k)),
    decreases ops.len(),
{
    if ops.len() > 0 {
        let init = ops.drop_last();
        let m = ops.len() - 1;
        let n = files.len() as int;
        lemma_init_targets(ops, n);
        lemma_after_clean_run_added(init, files, complete);
        lemma_after_clean_run_len(init, files, complete);
        lemma_after_clean_run_len(ops, files, complete);
        lemma_after_clean_run_step(ops, files, complete);
        let prev = after_clean_run(init, files, complete);
        let d = after_clean_run(ops, files, complete);
        assert forall|p: int| #![trigger d[p]] n <= p < d.len() implies exists|k: int|
            0 <= k < ops.len() && (#[trigger] ops[k]).target is New && p == new_slot(ops, n, k)
                && d[p].id == Some(op_id(ops, k)) by {
            if p < prev.len() {
                assert(d[p] == prev[p]);
                let k = choose|k: int|
                    0 <= k < init.len() && (#[trigger] init[k]).target is New && p == new_slot(init, n, k)
                        && prev[p].id == Some(op_id(init, k));
                assert(ops[k] == init[k]);
                assert(init.take(k) =~= ops.take(k));
            } else {
                assert(ops.take(m) =~= init);
                assert(ops[m].target is New);
            }
        }
    }
}

/// A scanned file keeps its name, and either is left as it was or was
/// written over by an operation, whose Call it then names.
proof fn lemma_after_clean_run_scanned(ops: Seq<OperationView>, files: Seq<FileView>, complete: Seq<bool>)
    requires
        targets_within(ops, files.len() as int),
    ensures
        forall|j: int|
            0 <= j < files.len() ==> {
                let d = #[trigger] after_clean_run(ops, files, complete)[j];
                &&& d.name == files[j].name
                &&& d == files[j] || exists|k: int|
                    0 <= k < ops.len() && rewrites(#[trigger] ops[k], j) && d.id == Some(
                        op_id(ops, k),
                    )
            },
    decreases ops.len(),
{
    if ops.len() > 0 {
        let init = ops.drop_last();
        let m = ops.len() - 1;
        let n = files.len() as int;
        lemma_init_targets(ops, n);
        lemma_after_clean_run_scanned(init, files, complete);
        lemma_after_clean_run_len(init, files, complete);
        lemma_after_clean_run_step(ops, files, complete);
        let prev = after_clean_run(init, files, complete);
        let d = after_clean_run(ops, files, complete);
        assert forall|j: int| 0 <= j < n implies {
            let dj = #[trigger] d[j];
            &&& dj.name == files[j].name
            &&& dj == files[j] || exists|k: int|
                0 <= k < ops.len() && rewrites(#[trigger] ops[k], j) && dj.id == Some(op_id(ops, k))
        } by {
            let pj = prev[j];
            if ops[m].target == TargetView::Existing(j) && ops[m].action != Action::Skip {
                assert(rewrites(ops[m], j));
            } else {
                assert(d[j] == pj);
                if pj != files[j] {
                    let k = choose|k: int|
                        0 <= k < init.len() && rewrites(#[trigger] init[k], j) && pj.id == Some(
                            op_id(init, k),
                        );
                    assert(ops[k] == init[k]);
                }
            }
        }
    }
}

/// A written-over scanned file holds what its one writer wrote.
proof fn lemma_after_clean_run_rewritten(
    ops: Seq<OperationView>,
    files: Seq<FileView>,
    complete: Seq<bool>,
)
    requires
        targets_within(ops, files.len() as int),
        distinct_targets(ops),
    ensures
        forall|k: int, j: int|
            0 <= k < ops.len() && rewrites(#[trigger] ops[k], j) ==> #[trigger] after_clean_run(
                ops,
                files,
                complete,
            )[j] == (FileView { name: files[j].name, id: Some(op_id(ops, k)), incomplete: !complete[k] }),
    decreases ops.len(),
{
    if ops.len() > 0 {
        let init = ops.drop_last();
        let m = ops.len() - 1;
        let n = files.len() as int;
        lemma_init_targets(ops, n);
        lemma_after_clean_run_rewritten(init, files, complete);
        lemma_after_clean_run_scanned(init, files, complete);
        lemma_after_clean_run_len(init, files, complete);
        lemma_after_clean_run_step(ops, files, complete);
        let prev = after_clean_run(init, files, complete);
        let d = after_clean_run(ops, files, complete);
        assert forall|k: int, j: int| 0 <= k < ops.len() && rewrites(#[trigger] ops[k], j) implies #[trigger] d[j]
            == (FileView { name: files[j].name, id: Some(op_id(ops, k)), incomplete: !complete[k] }) by {
            assert(0 <= j < n);
            if k < m {
                assert(ops[k] == init[k]);
                assert(ops[m].target != ops[k].target);
                assert(d[j] == prev[j]);
            } else {
                assert(prev[j].name == files[j].name);
            }
        }
    }
}

/// The files a scan returns read as `d`.
pub open spec fn scans_as(files: Seq<ExistingFile>, d: Seq<FileView>) -> bool {
    &&& files.len() == d.len()
    &&& forall|p: int| 0 <= p < d.len() ==> file_view(#[trigger] files[p]) == d[p]
}

/// No two operations are for Calls with the same id.
pub open spec fn distinct_ids(ops: Seq<OperationView>) -> bool {
    forall|a: int, b: int|
        0 <= a < ops.len() && 0 <= b < ops.len() && a != b ==> op_id(ops, a) != op_id(
            ops,
            b,
        )
}

/// No new file takes the name of a scanned file.
pub open spec fn new_names_unscanned(ops: Seq<OperationView>, files: Seq<ExistingFile>) -> bool {
    forall|k: int, p: int|
        0 <= k < ops.len() && 0 <= p < files.len() && (#[trigger] ops[k]).target is New ==> (
        #[trigger] files[p]).filename@ != ops[k].target->New_0
}

/// After the run, the id of operation `k`'s Call is named only by a file
/// that already named it and was left alone, by the file `k` wrote over, or
/// by the new file `k` wrote.
proof fn lemma_who_names(ops: Seq<OperationView>, f: Seq<FileView>, complete: Seq<bool>, k: int)
    requires
        0 <= k < ops.len(),
        targets_within(ops, f.len() as int),
        distinct_ids(ops),
    ensures
        forall|p: int|
            0 <= p < after_clean_run(ops, f, complete).len() && (#[trigger] after_clean_run(
                ops,
                f,
                complete,
            )[p]).id == Some(op_id(ops, k)) ==> (p < f.len() && after_clean_run(ops, f, complete)[p]
                == f[p]) || rewrites(ops[k], p) || (ops[k].target is New && p == new_slot(
                ops,
                f.len() as int,
                k,
            )),
{
    let n = f.len() as int;
    let d = after_clean_run(ops, f, complete);
    lemma_after_clean_run_scanned(ops, f, complete);
    lemma_after_clean_run_added(ops, f, complete);
    assert forall|p: int| 0 <= p < d.len() && (#[trigger] d[p]).id == Some(op_id(ops, k)) implies (p < n
        && d[p] == f[p]) || rewrites(ops[k], p) || (ops[k].target is New && p == new_slot(ops, n, k)) by {
        if p < n {
            if d[p] != f[p] {
                let k2 = choose|k2: int|
                    0 <= k2 < ops.len() && rewrites(#[trigger] ops[k2], p) && d[p].id == Some(
                        op_id(ops, k2),
                    );
                assert(k2 == k);
            }
        } else {
            let k2 = choose|k2: int|
                0 <= k2 < ops.len() && (#[trigger] ops[k2]).target is New && p == new_slot(ops, n, k2)
                    && d[p].id == Some(op_id(ops, k2));
            assert(k2 == k);
        }
    }
}

/// The file an operation targets, after the run: left alone when skipped,
/// else holding what the operation wrote.
proof fn lemma_target_after(
    ops: Seq<OperationView>,
    f: Seq<FileView>,
    complete: Seq<bool>,
    k: int,
    j: int,
)
    requires
        0 <= k < ops.len(),
        targets_within(ops, f.len() as int),
        distinct_targets(ops),
        ops[k].target == TargetView::Existing(j),
    ensures
        0 <= j < f.len(),
        after_clean_run(ops, f, complete)[j] == if ops[k].action == Action::Skip {
            f[j]
        } else {
            FileView { name: f[j].name, id: Some(op_id(ops, k)), incomplete: !complete[k] }
        },
{
    let d = after_clean_run(ops, f, complete);
    assert(ops[k].target matches TargetView::Existing(x) ==> 0 <= x < f.len());
    lemma_after_clean_run_scanned(ops, f, complete);
    lemma_after_clean_run_rewritten(ops, f, complete);
    if ops[k].action == Action::Skip {
        if d[j] != f[j] {
            let k2 = choose|k2: int|
                0 <= k2 < ops.len() && rewrites(#[trigger] ops[k2], j) && d[j].id == Some(
                    op_id(ops, k2),
                );
            assert(ops[k2].target == ops[k].target);
        }
    } else {
        assert(rewrites(ops[k], j));
    }
}

/// Every file after the scanned ones bears the name of a new operation.
proof fn lemma_added_names(ops: Seq<OperationView>, f: Seq<FileView>, complete: Seq<bool>)
    requires
        targets_within(ops, f.len() as int),
    ensures
        forall|p: int|
            f.len() <= p < after_clean_run(ops, f, complete).len() ==> exists|k: int|
                0 <= k < ops.len() && (#[trigger] ops[k]).target is New && (
                #[trigger] after_clean_run(ops, f, complete)[p]).name == ops[k].target->New_0,
{
    let n = f.len() as int;
    let d = after_clean_run(ops, f, complete);
    lemma_after_clean_run_added(ops, f, complete);
    lemma_after_clean_run_slots(ops, f, complete);
    assert forall|p: int| n <= p < d.len() implies exists|k: int|
        0 <= k < ops.len() && (#[trigger] ops[k]).target is New && (#[trigger] d[p]).name
            == ops[k].target->New_0 by {
        let k = choose|k: int|
            0 <= k < ops.len() && (#[trigger] ops[k]).target is New && p == new_slot(ops, n, k)
                && d[p].id == Some(op_id(ops, k));
        assert(d[new_slot(ops, n, k)].name == ops[k].target->New_0);
    }
}

/// A Call whose file the first run matched finds that file again, and is
/// skipped unless the file it left still holds the placeholder.
proof fn lemma_rerun_matched(
    ops: Seq<OperationView>,
    files: Seq<ExistingFile>,
    force: bool,
    complete: Seq<bool>,
    rescanned: Seq<ExistingFile>,
    k: int,
    name: Seq<char>,
    j: int,
)
    requires
        0 <= k < ops.len(),
        targets_within(ops, files.len() as int),
        distinct_targets(ops),
        distinct_ids(ops),
        new_names_unscanned(ops, files),
        matched_file(files, op_id(ops, k), name) == Some(j),
        ops[k].target == TargetView::Existing(j),
        ops[k].action == action_for(files, Some(j), force),
        scans_as(
            rescanned,
            after_clean_run(ops, files.map_values(|x: ExistingFile| file_view(x)), complete),
        ),
    ensures
        matched_file(rescanned, op_id(ops, k), name) == Some(j),
        action_for(rescanned, Some(j), false) == if ops[k].action == Action::Skip || complete[k] {
            Action::Skip
        } else {
            Action::Heal
        },
{
    let id = op_id(ops, k);
    let f = files.map_values(|x: ExistingFile| file_view(x));
    let n = files.len() as int;
    let d = after_clean_run(ops, f, complete);
    assert(f.len() == n);
    assert forall|p: int| 0 <= p < n implies #[trigger] f[p] == file_view(files[p]) by {}
    lemma_after_clean_run_len(ops, f, complete);
    lemma_target_after(ops, f, complete, k, j);
    lemma_who_names(ops, f, complete, k);
    lemma_match_by_id_means(files, id);
    lemma_match_by_name_means(files, name);
    let skipped = ops[k].action == Action::Skip;
    assert(file_view(rescanned[j]) == d[j]);
    if skipped {
        assert(!files[j].incomplete);
    }
    if match_by_id(files, id) is Some || !skipped {
        assert(names_id(file_view(rescanned[j]), id));
        assert forall|p: int| 0 <= p < j implies !names_id(#[trigger] file_view(rescanned[p]), id) by {
            assert(file_view(rescanned[p]) == d[p]);
            assert(!rewrites(ops[k], p));
        }
        lemma_match_by_id_first(rescanned, id, j);
    } else {
        lemma_added_names(ops, f, complete);
        assert forall|p: int| 0 <= p < rescanned.len() implies !names_id(
            #[trigger] file_view(rescanned[p]),
            id,
        ) by {
            assert(file_view(rescanned[p]) == d[p]);
        }
        lemma_match_by_id_none(rescanned, id);
        assert forall|p: int| j < p < rescanned.len() implies (#[trigger] rescanned[p]).filename@
            != name by {
            assert(file_view(rescanned[p]) == d[p]);
            if p >= n {
                let k2 = choose|k2: int|
                    0 <= k2 < ops.len() && (#[trigger] ops[k2]).target is New && (#[trigger] d[p]).name
                        == ops[k2].target->New_0;
                assert(files[j].filename@ != ops[k2].target->New_0);
            } else {
                lemma_after_clean_run_scanned(ops, f, complete);
                assert(d[p].name == f[p].name);
            }
        }
        assert(rescanned[j].filename@ == name);
        lemma_match_by_name_last(rescanned, name, j);
    }
}

/// A Call the first run wrote a new file for finds that file, and is
/// skipped unless it came out holding the placeholder.
proof fn lemma_rerun_new(
    ops: Seq<OperationView>,
    files: Seq<ExistingFile>,
    complete: Seq<bool>,
    rescanned: Seq<ExistingFile>,
    k: int,
    name: Seq<char>,
)
    requires
        0 <= k < ops.len(),
        targets_within(ops, files.len() as int),
        distinct_ids(ops),
        matched_file(files, op_id(ops, k), name) is None,
        ops[k].target is New,
        scans_as(
            rescanned,
            after_clean_run(ops, files.map_values(|x: ExistingFile| file_view(x)), complete),
        ),
    ensures
        new_slot(ops, files.len() as int, k) < rescanned.len(),
        matched_file(rescanned, op_id(ops, k), name) == Some(new_slot(ops, files.len() as int, k)),
        action_for(rescanned, Some(new_slot(ops, files.len() as int, k)), false) == if complete[k] {
            Action::Skip
        } else {
            Action::Heal
        },
{
    let id = op_id(ops, k);
    let f = files.map_values(|x: ExistingFile| file_view(x));
    let n = files.len() as int;
    let d = after_clean_run(ops, f, complete);
    let q = new_slot(ops, n, k);
    assert(f.len() == n);
    assert forall|p: int| 0 <= p < n implies #[trigger] f[p] == file_view(files[p]) by {}
    lemma_after_clean_run_len(ops, f, complete);
    lemma_new_count_prefix(ops, k);
    lemma_after_clean_run_slots(ops, f, complete);
    lemma_who_names(ops, f, complete, k);
    lemma_match_by_id_means(files, id);
    assert(d[q] == (FileView { name: ops[k].target->New_0, id: Some(id), incomplete: !complete[k] }));
    assert(file_view(rescanned[q]) == d[q]);
    assert forall|p: int| 0 <= p < q implies !names_id(#[trigger] file_view(rescanned[p]), id) by {
        assert(file_view(rescanned[p]) == d[p]);
        assert(!rewrites(ops[k], p));
    }
    lemma_match_by_id_first(rescanned, id, q);
}

/// Where operation `k`'s Call File is after the run.
pub open spec fn file_after(ops: Seq<OperationView>, files_len: int, k: int) -> int {
    match ops[k].target {
        TargetView::Existing(j) => j,
        TargetView::New(_) => new_slot(ops, files_len, k),
    }
}

/// What the second run does with operation `k`'s Call: skip it, unless the
/// first run wrote its file and it came out holding the placeholder.
pub open spec fn second_action(ops: Seq<OperationView>, complete: Seq<bool>, k: int) -> Action {
    if ops[k].action == Action::Skip || complete[k] {
        Action::Skip
    } else {
        Action::Heal
    }
}

/// The second run's plan, Call by Call, after a run that wrote every file
/// of the first plan, scanned in directory order.
proof fn lemma_rerun_operations(
    sorted: Seq<Timed>,
    names: Seq<Seq<char>>,
    files: Seq<ExistingFile>,
    others: Seq<Seq<char>>,
    others2: Seq<Seq<char>>,
    force: bool,
    complete: Seq<bool>,
    rescanned: Seq<ExistingFile>,
)
    requires
        targets_within(operations(sorted, names, files, others, force).0, files.len() as int),
        distinct_targets(operations(sorted, names, files, others, force).0),
        distinct_ids(operations(sorted, names, files, others, force).0),
        new_names_unscanned(operations(sorted, names, files, others, force).0, files),
        scans_as(
            rescanned,
            after_clean_run(
                operations(sorted, names, files, others, force).0,
                files.map_values(|x: ExistingFile| file_view(x)),
                complete,
            ),
        ),
    ensures
        operations(sorted, names, rescanned, others2, false).0.len() == operations(
            sorted,
            names,
            files, others,
            force,
        ).0.len(),
        forall|k: int|
            0 <= k < sorted.len() ==> {
                let before = operations(sorted, names, files, others, force).0;
                let after = #[trigger] operations(sorted, names, rescanned, others2, false).0[k];
                &&& after.call == before[k].call
                &&& after.target == TargetView::Existing(file_after(before, files.len() as int, k))
                &&& after.action == second_action(before, complete, k)
            },
{
    let ops = operations(sorted, names, files, others, force).0;
    let ops2 = operations(sorted, names, rescanned, others2, false).0;
    let n = files.len() as int;
    lemma_operation_at(sorted, names, files, others, force);
    lemma_operation_at(sorted, names, rescanned, others2, false);
    assert forall|k: int| 0 <= k < sorted.len() implies {
        let after = #[trigger] ops2[k];
        &&& after.call == ops[k].call
        &&& after.target == TargetView::Existing(file_after(ops, n, k))
        &&& after.action == second_action(ops, complete, k)
    } by {
        let id = sorted[k].0.metadata.id@;
        assert(ops[k].call == sorted[k].0);
        assert(op_id(ops, k) == id);
        match matched_file(files, id, names[k]) {
            Some(j) => {
                lemma_rerun_matched(ops, files, force, complete, rescanned, k, names[k], j);
            },
            None => {
                lemma_rerun_new(ops, files, complete, rescanned, k, names[k]);
            },
        }
    }
}

/// Each new operation's collision key is among the plan's new keys.
proof fn lemma_new_keys_hold(ops: Seq<OperationView>)
    ensures
        forall|k: int|
            0 <= k < ops.len() && (#[trigger] ops[k]).target is New ==> new_keys(ops).contains(
                collision_key(ops[k].target->New_0),
            ),
    decreases ops.len(),
{
    if ops.len() > 0 {
        let init = ops.drop_last();
        lemma_new_keys_hold(init);
        assert forall|k: int| 0 <= k < ops.len() && (#[trigger] ops[k]).target is New implies new_keys(
            ops,
        ).contains(collision_key(ops[k].target->New_0)) by {
            let key = collision_key(ops[k].target->New_0);
            if k < ops.len() - 1 {
                assert(init[k] == ops[k]);
                let w = choose|w: int| 0 <= w < new_keys(init).len() && new_keys(init)[w] == key;
                match ops.last().target {
                    TargetView::New(n) => {
                        assert(new_keys(ops) == new_keys(init).push(collision_key(n)));
                        assert(new_keys(ops)[w] == key);
                    },
                    TargetView::Existing(_) => {},
                }
            } else {
                assert(new_keys(ops) == new_keys(init).push(key));
                assert(new_keys(ops)[new_keys(init).len() as int] == key);
            }
        }
    }
}

/// A new file's name is no scanned file's name, its collision key being
/// free of theirs.
proof fn lemma_fresh_names_unscanned(ops: Seq<OperationView>, files: Seq<ExistingFile>)
    requires
        new_names_fresh(ops, files),
    ensures
        new_names_unscanned(ops, files),
{
    lemma_new_keys_hold(ops);
    assert forall|k: int, p: int|
        0 <= k < ops.len() && 0 <= p < files.len() && (#[trigger] ops[k]).target is New implies (
        #[trigger] files[p]).filename@ != ops[k].target->New_0 by {
        let key = collision_key(ops[k].target->New_0);
        let w = choose|w: int| 0 <= w < new_keys(ops).len() && new_keys(ops)[w] == key;
        assert(!file_keys(files).contains(new_keys(ops)[w]));
        if files[p].filename@ == ops[k].target->New_0 {
            assert(file_keys(files)[p] == key);
        }
    }
}

/// The Customer Calls are some of the listed Calls, each listed once when
/// the listing holds no Call twice.
proof fn lemma_select_customer_within(calls: Seq<ExtensiveCall>)
    ensures
        forall|x: ExtensiveCall| #[trigger] select_customer(calls).contains(x) ==> calls.contains(x),
        calls.no_duplicates() ==> select_customer(calls).no_duplicates(),
    decreases calls.len(),
{
    if calls.len() > 0 {
        let init = calls.drop_last();
        let last = calls.last();
        lemma_select_customer_within(init);
        let prev = select_customer(init);
        assert forall|x: ExtensiveCall| #[trigger] select_customer(calls).contains(x) implies calls.contains(
            x,
        ) by {
            if prev.contains(x) {
                let w = choose|w: int| 0 <= w < init.len() && init[w] == x;
                assert(calls[w] == x);
            } else {
                assert(x == last);
                assert(calls[calls.len() - 1] == x);
            }
        }
        if calls.no_duplicates() {
            assert(init.no_duplicates()) by {
                assert forall|a: int, b: int| 0 <= a < init.len() && 0 <= b < init.len() && a != b implies init[a]
                    != init[b] by {
                    assert(init[a] == calls[a] && init[b] == calls[b]);
                }
            }
            if spec_is_customer_call(last) {
                let sel = prev.push(last);
                assert(!prev.contains(last)) by {
                    if prev.contains(last) {
                        let w = choose|w: int| 0 <= w < init.len() && init[w] == last;
                        assert(calls[w] == calls[calls.len() - 1]);
                    }
                }
                assert forall|a: int, b: int| 0 <= a < sel.len() && 0 <= b < sel.len() && a != b implies sel[a]
                    != sel[b] by {
                    if a == prev.len() {
                        assert(prev.contains(sel[b]));
                    } else if b == prev.len() {
                        assert(prev.contains(sel[a]));
                    }
                }
            }
        }
    }
}

/// No two operations of a plan are for Calls with the same id when no two
/// listed Calls share one.
proof fn lemma_plan_ids_distinct(calls: Seq<ExtensiveCall>, files: Seq<ExistingFile>, others: Seq<Seq<char>>, force: bool)
    requires
        forall|a: int, b: int|
            0 <= a < b < calls.len() ==> (#[trigger] calls[a]).metadata.id@ != (
            #[trigger] calls[b]).metadata.id@,
    ensures
        distinct_ids(planned_operations(calls, files, others, force)),
{
    let ops = planned_operations(calls, files, others, force);
    let oc = ops.map_values(|o: OperationView| o.call);
    let sel = select_customer(calls);
    assert(calls.no_duplicates()) by {
        assert forall|a: int, b: int| 0 <= a < calls.len() && 0 <= b < calls.len() && a != b implies calls[a]
            != calls[b] by {
            if a < b {
                assert(calls[a].metadata.id@ != calls[b].metadata.id@);
            } else {
                assert(calls[b].metadata.id@ != calls[a].metadata.id@);
            }
        }
    }
    lemma_select_customer_within(calls);
    lemma_one_operation_per_customer_call(calls, files, others, force);
    sel.lemma_multiset_has_no_duplicates();
    assert(oc.to_multiset() == sel.to_multiset());
    oc.lemma_multiset_has_no_duplicates_conv();
    assert forall|a: int, b: int| 0 <= a < ops.len() && 0 <= b < ops.len() && a != b implies op_id(
        ops,
        a,
    ) != op_id(ops, b) by {
        let ca = oc[a];
        let cb = oc[b];
        assert(ca != cb);
        assert(oc.contains(ca) && oc.contains(cb));
        to_multiset_contains(oc, ca);
        to_multiset_contains(oc, cb);
        to_multiset_contains(sel, ca);
        to_multiset_contains(sel, cb);
        assert(sel.contains(ca) && sel.contains(cb));
        let ia = choose|i: int| 0 <= i < calls.len() && calls[i] == ca;
        let ib = choose|i: int| 0 <= i < calls.len() && calls[i] == cb;
        assert(ia != ib);
        if ia < ib {
            assert(calls[ia].metadata.id@ != calls[ib].metadata.id@);
        } else {
            assert(calls[ib].metadata.id@ != calls[ia].metadata.id@);
        }
    }
}

/// Repeated runs converge.  After a sync that wrote every Call File it
/// planned, a second sync over the same listing (without `--force`) finds a
/// file for every Customer Call (the one healed or overwritten, the one left
/// alone, or the one written new), writes no new file, and skips every Call
/// whose file came out complete, healing only those still holding the
/// placeholder.  `complete[k]` says whether operation `k`'s file came out
/// complete; `rescanned` is the second run's scan, with the scanned files
/// where they were and the new files after them.  The listing holds no two
/// Calls with one id, and no scanned file is the target of two Calls (the
/// first run would otherwise write it twice).
pub proof fn lemma_a_clean_run_converges(
    calls: Seq<ExtensiveCall>,
    files: Seq<ExistingFile>,
    others: Seq<Seq<char>>,
    others2: Seq<Seq<char>>,
    force: bool,
    complete: Seq<bool>,
    rescanned: Seq<ExistingFile>,
)
    requires
        forall|a: int, b: int|
            0 <= a < b < calls.len() ==> (#[trigger] calls[a]).metadata.id@ != (
            #[trigger] calls[b]).metadata.id@,
        new_names_fresh(planned_operations(calls, files, others, force), files),
        distinct_targets(planned_operations(calls, files, others, force)),
        complete.len() == planned_operations(calls, files, others, force).len(),
        scans_as(
            rescanned,
            after_clean_run(
                planned_operations(calls, files, others, force),
                files.map_values(|x: ExistingFile| file_view(x)),
                complete,
            ),
        ),
    ensures
        planned_operations(calls, rescanned, others2, false).len() == planned_operations(
            calls,
            files, others,
            force,
        ).len(),
        forall|k: int|
            0 <= k < planned_operations(calls, files, others, force).len() ==> {
                let before = planned_operations(calls, files, others, force);
                let after = #[trigger] planned_operations(calls, rescanned, others2, false)[k];
                &&& after.call == before[k].call
                &&& after.target == TargetView::Existing(file_after(before, files.len() as int, k))
                &&& after.action == second_action(before, complete, k)
            },
{
    let sorted = sorted_customer_calls(calls);
    let names = planned_names(sorted).0;
    let ops = planned_operations(calls, files, others, force);
    lemma_actions_follow_the_files(calls, files, others, force);
    assert(targets_within(ops, files.len() as int)) by {
        assert forall|k: int| 0 <= k < ops.len() implies ((#[trigger] ops[k]).target matches TargetView::Existing(
            j,
        ) ==> 0 <= j < files.len()) by {
            assert(action_fits(ops[k], files, force));
        }
    }
    lemma_plan_ids_distinct(calls, files, others, force);
    lemma_fresh_names_unscanned(ops, files);
    lemma_operation_at(sorted, names, files, others, force);
    lemma_rerun_operations(sorted, names, files, others, others2, force, complete, rescanned);
}

/// What a scan reads of each of its files.
pub open spec fn views(files: Seq<ExistingFile>) -> Seq<FileView> {
    files.map_values(|x: ExistingFile| file_view(x))
}

/// No two files share a name or name the same Call.
pub open spec fn scan_distinct(fs: Seq<FileView>) -> bool {
    forall|a: int, b: int|
        0 <= a < fs.len() && 0 <= b < fs.len() && a != b ==> (#[trigger] fs[a]).name != (
        #[trigger] fs[b]).name && (fs[a].id is Some ==> fs[a].id != fs[b].id)
}

/// A file another scan holds too.
proof fn lemma_same_file_elsewhere(x: Seq<ExistingFile>, y: Seq<ExistingFile>, i: int)
    requires
        views(x).to_multiset() == views(y).to_multiset(),
        0 <= i < x.len(),
    ensures
        exists|j: int| 0 <= j < y.len() && file_view(#[trigger] y[j]) == file_view(x[i]),
{
    let v = file_view(x[i]);
    assert(views(x)[i] == v);
    to_multiset_contains(views(x), v);
    to_multiset_contains(views(y), v);
    let j = choose|j: int| 0 <= j < views(y).len() && views(y)[j] == v;
    assert(file_view(y[j]) == v);
}

/// In a scan where no two files name the same Call or share a name, the
/// file naming a Call, or bearing a name, is the one matching finds.
proof fn lemma_unique_match(y: Seq<ExistingFile>, j: int, id: Seq<char>, name: Seq<char>)
    requires
        scan_distinct(views(y)),
        0 <= j < y.len(),
    ensures
        names_id(file_view(y[j]), id) ==> match_by_id(y, id) == Some(j),
        y[j].filename@ == name ==> match_by_name(y, name) == Some(j),
{
    let vy = views(y);
    assert forall|p: int| 0 <= p < y.len() implies #[trigger] vy[p] == file_view(y[p]) by {}
    if names_id(file_view(y[j]), id) {
        assert forall|p: int| 0 <= p < j implies !names_id(#[trigger] file_view(y[p]), id) by {
            assert(vy[p].id != vy[j].id);
        }
        lemma_match_by_id_first(y, id, j);
    }
    if y[j].filename@ == name {
        assert forall|p: int| j < p < y.len() implies (#[trigger] y[p]).filename@ != name by {
            assert(vy[p].name != vy[j].name);
        }
        lemma_match_by_name_last(y, name, j);
    }
}

/// Two scans holding the same files, none sharing a name or naming the same
/// Call, match a Call to the same file.
proof fn lemma_match_any_order(x: Seq<ExistingFile>, y: Seq<ExistingFile>, id: Seq<char>, name: Seq<char>)
    requires
        views(x).to_multiset() == views(y).to_multiset(),
        scan_distinct(views(x)),
        scan_distinct(views(y)),
    ensures
        match matched_file(x, id, name) {
            Some(i) => matched_file(y, id, name) matches Some(j) && 0 <= j < y.len() && file_view(y[j])
                == file_view(x[i]),
            None => matched_file(y, id, name) is None,
        },
{
    lemma_match_by_id_means(x, id);
    lemma_match_by_id_means(y, id);
    lemma_match_by_name_means(x, name);
    lemma_match_by_name_means(y, name);
    match match_by_id(x, id) {
        Some(i) => {
            lemma_same_file_elsewhere(x, y, i);
            let j = choose|j: int| 0 <= j < y.len() && file_view(#[trigger] y[j]) == file_view(x[i]);
            lemma_unique_match(y, j, id, name);
        },
        None => {
            if match_by_id(y, id) is Some {
                let j = match_by_id(y, id)->0;
                lemma_same_file_elsewhere(y, x, j);
                let i = choose|i: int| 0 <= i < x.len() && file_view(#[trigger] x[i]) == file_view(y[j]);
            }
            match match_by_name(x, name) {
                Some(i) => {
                    lemma_same_file_elsewhere(x, y, i);
                    let j = choose|j: int| 0 <= j < y.len() && file_view(#[trigger] y[j]) == file_view(x[i]);
                    lemma_unique_match(y, j, id, name);
                },
                None => {
                    if match_by_name(y, name) is Some {
                        let j = match_by_name(y, name)->0;
                        lemma_same_file_elsewhere(y, x, j);
                        let i = choose|i: int| 0 <= i < x.len() && file_view(#[trigger] x[i]) == file_view(y[j]);
                        lemma_unique_match(x, i, id, name);
                    }
                },
            }
        },
    }
}

/// A scanned file naming a planned Call is the file that Call targets.
pub open spec fn id_files_targeted(ops: Seq<OperationView>, files: Seq<ExistingFile>) -> bool {
    forall|k: int, p: int|
        0 <= k < ops.len() && 0 <= p < files.len() && names_id(
            #[trigger] file_view(files[p]),
            op_id(ops, k),
        ) ==> (#[trigger] ops[k]).target == TargetView::Existing(p)
}

/// Where each file of the run's directory comes from: a scanned file left
/// as it was, or the file some operation wrote over or added.
proof fn lemma_source(ops: Seq<OperationView>, f: Seq<FileView>, complete: Seq<bool>)
    requires
        targets_within(ops, f.len() as int),
    ensures
        forall|p: int|
            0 <= p < after_clean_run(ops, f, complete).len() ==> (p < f.len() && #[trigger] after_clean_run(
                ops,
                f,
                complete,
            )[p] == f[p]) || exists|k: int|
                0 <= k < ops.len() && Some(op_id(ops, k)) == after_clean_run(ops, f, complete)[p].id
                    && (rewrites(#[trigger] ops[k], p) || (ops[k].target is New && p == new_slot(
                    ops,
                    f.len() as int,
                    k,
                ))),
{
    let n = f.len() as int;
    let d = after_clean_run(ops, f, complete);
    lemma_after_clean_run_scanned(ops, f, complete);
    lemma_after_clean_run_added(ops, f, complete);
    assert forall|p: int| 0 <= p < d.len() implies (p < n && #[trigger] d[p] == f[p]) || exists|k: int|
        0 <= k < ops.len() && Some(op_id(ops, k)) == d[p].id && (rewrites(#[trigger] ops[k], p) || (
        ops[k].target is New && p == new_slot(ops, n, k))) by {
        if p < n {
            if d[p] != f[p] {
                let k = choose|k: int|
                    0 <= k < ops.len() && rewrites(#[trigger] ops[k], p) && d[p].id == Some(op_id(ops, k));
            }
        } else {
            let k = choose|k: int|
                0 <= k < ops.len() && (#[trigger] ops[k]).target is New && p == new_slot(ops, n, k)
                    && d[p].id == Some(op_id(ops, k));
        }
    }
}

/// Each new operation's key sits in the plan's new keys at its slot.
proof fn lemma_new_keys_at(ops: Seq<OperationView>)
    ensures
        new_keys(ops).len() == new_count(ops),
        forall|k: int|
            0 <= k < ops.len() && (#[trigger] ops[k]).target is New ==> new_count(ops.take(k))
                < new_keys(ops).len() && new_keys(ops)[new_count(ops.take(k)) as int]
                == collision_key(ops[k].target->New_0),
    decreases ops.len(),
{
    if ops.len() > 0 {
        let init = ops.drop_last();
        let m = ops.len() - 1;
        lemma_new_keys_at(init);
        lemma_prefix(ops);
        assert forall|k: int| 0 <= k < ops.len() && (#[trigger] ops[k]).target is New implies new_count(
            ops.take(k),
        ) < new_keys(ops).len() && new_keys(ops)[new_count(ops.take(k)) as int] == collision_key(
            ops[k].target->New_0,
        ) by {
            if k < m {
                assert(init[k] == ops[k]);
                lemma_new_count_prefix(init, k);
                match ops[m].target {
                    TargetView::New(nm) => {
                        assert(new_keys(ops) == new_keys(init).push(collision_key(nm)));
                    },
                    TargetView::Existing(_) => {},
                }
            }
        }
    }
}

/// After the run no two files share a name or name the same Call, when
/// none of the scanned files did.
proof fn lemma_after_distinct(ops: Seq<OperationView>, files: Seq<ExistingFile>, complete: Seq<bool>)
    requires
        scan_distinct(views(files)),
        targets_within(ops, files.len() as int),
        distinct_targets(ops),
        distinct_ids(ops),
        new_names_unscanned(ops, files),
        new_keys(ops).no_duplicates(),
        id_files_targeted(ops, files),
    ensures
        scan_distinct(after_clean_run(ops, views(files), complete)),
{
    let f = views(files);
    let n = files.len() as int;
    let d = after_clean_run(ops, f, complete);
    assert(f.len() == n);
    assert forall|p: int| 0 <= p < n implies #[trigger] f[p] == file_view(files[p]) by {}
    lemma_after_clean_run_len(ops, f, complete);
    lemma_after_clean_run_scanned(ops, f, complete);
    lemma_added_names(ops, f, complete);
    lemma_after_clean_run_added(ops, f, complete);
    lemma_after_clean_run_slots(ops, f, complete);
    lemma_source(ops, f, complete);
    lemma_new_keys_at(ops);
    assert forall|a: int, b: int| 0 <= a < d.len() && 0 <= b < d.len() && a != b implies (#[trigger] d[a]).name
        != (#[trigger] d[b]).name && (d[a].id is Some ==> d[a].id != d[b].id) by {
        // Names.
        if a < n && b < n {
            assert(f[a].name != f[b].name);
        } else if a < n || b < n {
            let (s, t) = if a < n { (a, b) } else { (b, a) };
            let k = choose|k: int|
                0 <= k < ops.len() && (#[trigger] ops[k]).target is New && d[t].name
                    == ops[k].target->New_0;
            assert(files[s].filename@ != ops[k].target->New_0);
            assert(d[s].name == f[s].name);
        } else {
            let ka = choose|k: int|
                0 <= k < ops.len() && (#[trigger] ops[k]).target is New && a == new_slot(ops, n, k)
                    && d[a].id == Some(op_id(ops, k));
            let kb = choose|k: int|
                0 <= k < ops.len() && (#[trigger] ops[k]).target is New && b == new_slot(ops, n, k)
                    && d[b].id == Some(op_id(ops, k));
            let ia = new_count(ops.take(ka)) as int;
            let ib = new_count(ops.take(kb)) as int;
            assert(new_keys(ops)[ia] != new_keys(ops)[ib]);
            assert(d[a].name == ops[ka].target->New_0);
            assert(d[b].name == ops[kb].target->New_0);
        }
        // Call ids.
        if d[a].id is Some && d[a].id == d[b].id {
            let x = d[a].id->0;
            if a < n && d[a] == f[a] && b < n && d[b] == f[b] {
                assert(f[a].id != f[b].id);
            } else if a < n && d[a] == f[a] {
                let k = choose|k: int|
                    0 <= k < ops.len() && Some(op_id(ops, k)) == d[b].id && (rewrites(#[trigger] ops[k], b)
                        || (ops[k].target is New && b == new_slot(ops, n, k)));
                assert(names_id(file_view(files[a]), op_id(ops, k)));
                assert(ops[k].target == TargetView::Existing(a));
            } else if b < n && d[b] == f[b] {
                let k = choose|k: int|
                    0 <= k < ops.len() && Some(op_id(ops, k)) == d[a].id && (rewrites(#[trigger] ops[k], a)
                        || (ops[k].target is New && a == new_slot(ops, n, k)));
                assert(names_id(file_view(files[b]), op_id(ops, k)));
                assert(ops[k].target == TargetView::Existing(b));
            } else {
                let ka = choose|k: int|
                    0 <= k < ops.len() && Some(op_id(ops, k)) == d[a].id && (rewrites(#[trigger] ops[k], a)
                        || (ops[k].target is New && a == new_slot(ops, n, k)));
                let kb = choose|k: int|
                    0 <= k < ops.len() && Some(op_id(ops, k)) == d[b].id && (rewrites(#[trigger] ops[k], b)
                        || (ops[k].target is New && b == new_slot(ops, n, k)));
                assert(ka == kb);
            }
        }
    }
}

/// A scan holding the same files as a scan without repeated names or Call
/// ids repeats none either.
proof fn lemma_distinct_carries(x: Seq<FileView>, y: Seq<ExistingFile>)
    requires
        scan_distinct(x),
        views(y).to_multiset() == x.to_multiset(),
    ensures
        scan_distinct(views(y)),
{
    let vy = views(y);
    assert(x.no_duplicates()) by {
        assert forall|a: int, b: int| 0 <= a < x.len() && 0 <= b < x.len() && a != b implies x[a] != x[b] by {
            assert(x[a].name != x[b].name);
        }
    }
    x.lemma_multiset_has_no_duplicates();
    vy.lemma_multiset_has_no_duplicates_conv();
    assert forall|a: int, b: int| 0 <= a < vy.len() && 0 <= b < vy.len() && a != b implies (#[trigger] vy[a]).name
        != (#[trigger] vy[b]).name && (vy[a].id is Some ==> vy[a].id != vy[b].id) by {
        assert(vy[a] != vy[b]);
        to_multiset_contains(vy, vy[a]);
        to_multiset_contains(vy, vy[b]);
        to_multiset_contains(x, vy[a]);
        to_multiset_contains(x, vy[b]);
        let ia = choose|i: int| 0 <= i < x.len() && x[i] == vy[a];
        let ib = choose|i: int| 0 <= i < x.len() && x[i] == vy[b];
        assert(ia != ib);
    }
}

/// Every planned Call named by a scanned file targets that file, when no two
/// scanned files name the same Call.
proof fn lemma_id_files_targeted(
    sorted: Seq<Timed>,
    names: Seq<Seq<char>>,
    files: Seq<ExistingFile>,
    others: Seq<Seq<char>>,
    force: bool,
)
    requires
        scan_distinct(views(files)),
    ensures
        id_files_targeted(operations(sorted, names, files, others, force).0, files),
{
    let ops = operations(sorted, names, files, others, force).0;
    lemma_operation_at(sorted, names, files, others, force);
    assert forall|k: int, p: int|
        0 <= k < ops.len() && 0 <= p < files.len() && names_id(
            #[trigger] file_view(files[p]),
            op_id(ops, k),
        ) implies (#[trigger] ops[k]).target == TargetView::Existing(p) by {
        lemma_unique_match(files, p, op_id(ops, k), names[k]);
        assert(ops[k].call == sorted[k].0);
    }
}

/// Repeated runs converge, whatever order the second scan lists the files
/// in.  After a sync that wrote every Call File it planned, a second sync
/// over the same listing (without `--force`), scanning the same directory in
/// any order, matches every Customer Call to the file that now holds it,
/// writes no new file, and skips every Call whose file came out complete,
/// healing only those still holding the placeholder.  `complete[k]` says
/// whether operation `k`'s file came out complete.  The listing holds no two
/// Calls with one id, no two scanned files share a name or name the same
/// Call, and no scanned file is the target of two Calls.
pub proof fn lemma_a_clean_run_converges_in_any_scan_order(
    calls: Seq<ExtensiveCall>,
    files: Seq<ExistingFile>,
    others: Seq<Seq<char>>,
    others2: Seq<Seq<char>>,
    force: bool,
    complete: Seq<bool>,
    rescanned: Seq<ExistingFile>,
)
    requires
        forall|a: int, b: int|
            0 <= a < b < calls.len() ==> (#[trigger] calls[a]).metadata.id@ != (
            #[trigger] calls[b]).metadata.id@,
        scan_distinct(views(files)),
        new_names_fresh(planned_operations(calls, files, others, force), files),
        distinct_targets(planned_operations(calls, files, others, force)),
        complete.len() == planned_operations(calls, files, others, force).len(),
        views(rescanned).to_multiset() == after_clean_run(
            planned_operations(calls, files, others, force),
            views(files),
            complete,
        ).to_multiset(),
    ensures
        planned_operations(calls, rescanned, others2, false).len() == planned_operations(
            calls,
            files, others,
            force,
        ).len(),
        forall|k: int|
            0 <= k < planned_operations(calls, files, others, force).len() ==> {
                let before = planned_operations(calls, files, others, force);
                let after = #[trigger] planned_operations(calls, rescanned, others2, false)[k];
                &&& after.call == before[k].call
                &&& after.target matches TargetView::Existing(q) && 0 <= q < rescanned.len()
                    && file_view(rescanned[q]) == after_clean_run(before, views(files), complete)[file_after(
                    before,
                    files.len() as int,
                    k,
                )]
                &&& after.action == second_action(before, complete, k)
            },
{
    let sorted = sorted_customer_calls(calls);
    let names = planned_names(sorted).0;
    let ops = planned_operations(calls, files, others, force);
    let n = files.len() as int;
    let d = after_clean_run(ops, views(files), complete);
    lemma_actions_follow_the_files(calls, files, others, force);
    assert(targets_within(ops, n)) by {
        assert forall|k: int| 0 <= k < ops.len() implies ((#[trigger] ops[k]).target matches TargetView::Existing(
            j,
        ) ==> 0 <= j < n) by {
            assert(action_fits(ops[k], files, force));
        }
    }
    lemma_plan_ids_distinct(calls, files, others, force);
    lemma_fresh_names_unscanned(ops, files);
    lemma_id_files_targeted(sorted, names, files, others, force);
    lemma_after_distinct(ops, files, complete);
    lemma_distinct_carries(d, rescanned);
    // The same files in directory order.
    let pick = |p: int| choose|q: int| 0 <= q < rescanned.len() && file_view(rescanned[q]) == d[p];
    let ordered = Seq::new(d.len(), |p: int| rescanned[pick(p)]);
    assert forall|p: int| 0 <= p < d.len() implies 0 <= pick(p) < rescanned.len() && file_view(
        #[trigger] ordered[p],
    ) == d[p] by {
        assert(d.to_multiset().contains(d[p])) by {
            to_multiset_contains(d, d[p]);
        }
        to_multiset_contains(views(rescanned), d[p]);
        let q = choose|q: int| 0 <= q < views(rescanned).len() && views(rescanned)[q] == d[p];
        assert(file_view(rescanned[q]) == d[p]);
    }
    assert(views(ordered) =~= d);
    assert(scans_as(ordered, d));
    lemma_rerun_operations(sorted, names, files, others, others2, force, complete, ordered);
    lemma_operation_at(sorted, names, ordered, others2, false);
    lemma_operation_at(sorted, names, rescanned, others2, false);
    lemma_operation_at(sorted, names, files, others, force);
    let ops2 = planned_operations(calls, rescanned, others2, false);
    let opo = operations(sorted, names, ordered, others2, false).0;
    assert forall|k: int| 0 <= k < ops.len() implies {
        let after = #[trigger] ops2[k];
        &&& after.call == ops[k].call
        &&& after.target matches TargetView::Existing(q) && 0 <= q < rescanned.len() && file_view(
            rescanned[q],
        ) == d[file_after(ops, n, k)]
        &&& after.action == second_action(ops, complete, k)
    } by {
        let id = sorted[k].0.metadata.id@;
        let j = file_after(ops, n, k);
        assert(opo[k].target == TargetView::Existing(j));
        assert(matched_file(ordered, id, names[k]) == Some(j));
        lemma_match_any_order(ordered, rescanned, id, names[k]);
        let q = matched_file(rescanned, id, names[k])->0;
        lemma_match_by_id_means(ordered, id);
        lemma_match_by_name_means(ordered, names[k]);
        assert(0 <= j < d.len());
        assert(file_view(ordered[j]) == d[j]);
        assert(file_view(rescanned[q]) == file_view(ordered[j]));
    }
}

/// Two operations that do the same: same Call, same action, and the same
/// new name, or existing files that read alike.
pub open spec fn same_operation(
    x: OperationView,
    y: OperationView,
    a: Seq<ExistingFile>,
    b: Seq<ExistingFile>,
) -> bool {
    &&& y.call == x.call
    &&& y.action == x.action
    &&& match (x.target, y.target) {
        (TargetView::New(m), TargetView::New(n)) => m == n,
        (TargetView::Existing(i), TargetView::Existing(j)) => 0 <= i < a.len() && 0 <= j < b.len()
            && file_view(b[j]) == file_view(a[i]),
        _ => false,
    }
}

/// The name reserved for a Call depends on the set of keys taken, not on
/// their order.
proof fn lemma_reserved_name_by_set(
    base: Seq<char>,
    hm: Seq<char>,
    id: Seq<char>,
    ua: Seq<Seq<char>>,
    ub: Seq<Seq<char>>,
)
    requires
        ua.to_set() == ub.to_set(),
    ensures
        reserved_name(base, hm, id, ua) == reserved_name(base, hm, id, ub),
{
    assert forall|x: Seq<char>| #[trigger] ua.contains(x) == ub.contains(x) by {
        assert(ua.to_set().contains(x) == ua.contains(x));
        assert(ub.to_set().contains(x) == ub.contains(x));
    }
}

/// Two scans holding the same files take the same collision keys.
proof fn lemma_file_keys_by_set(a: Seq<ExistingFile>, b: Seq<ExistingFile>)
    requires
        views(a).to_multiset() == views(b).to_multiset(),
    ensures
        file_keys(a).to_set() == file_keys(b).to_set(),
{
    assert forall|x: Seq<char>| file_keys(a).to_set().contains(x) == file_keys(b).to_set().contains(x) by {
        if file_keys(a).contains(x) {
            let i = choose|i: int| 0 <= i < file_keys(a).len() && file_keys(a)[i] == x;
            lemma_same_file_elsewhere(a, b, i);
            let j = choose|j: int| 0 <= j < b.len() && file_view(#[trigger] b[j]) == file_view(a[i]);
            assert(file_keys(b)[j] == x);
        }
        if file_keys(b).contains(x) {
            let j = choose|j: int| 0 <= j < file_keys(b).len() && file_keys(b)[j] == x;
            lemma_same_file_elsewhere(b, a, j);
            let i = choose|i: int| 0 <= i < a.len() && file_view(#[trigger] a[i]) == file_view(b[j]);
            assert(file_keys(a)[i] == x);
        }
    }
    assert(file_keys(a).to_set() =~= file_keys(b).to_set());
}

/// Two scans holding the same files, none sharing a name or naming the same
/// Call, plan the same operations.
proof fn lemma_operations_any_order(
    sorted: Seq<Timed>,
    names: Seq<Seq<char>>,
    a: Seq<ExistingFile>,
    b: Seq<ExistingFile>,
    others: Seq<Seq<char>>,
    force: bool,
)
    requires
        views(a).to_multiset() == views(b).to_multiset(),
        scan_distinct(views(a)),
        scan_distinct(views(b)),
    ensures
        operations(sorted, names, a, others, force).0.len() == sorted.len(),
        operations(sorted, names, b, others, force).0.len() == sorted.len(),
        operations(sorted, names, a, others, force).1.to_set() == operations(sorted, names, b, others, force).1.to_set(),
        forall|k: int|
            0 <= k < sorted.len() ==> same_operation(
                operations(sorted, names, a, others, force).0[k],
                #[trigger] operations(sorted, names, b, others, force).0[k],
                a,
                b,
            ),
    decreases sorted.len(),
{
    lemma_operation_at(sorted, names, a, others, force);
    lemma_operation_at(sorted, names, b, others, force);
    if sorted.len() == 0 {
        lemma_file_keys_by_set(a, b);
        let (fa, fb, ok) = (file_keys(a), file_keys(b), name_keys(others));
        assert forall|x: Seq<char>| #[trigger] (fa + ok).contains(x) == (fb + ok).contains(x) by {
            assert(fa.to_set().contains(x) == fa.contains(x));
            assert(fb.to_set().contains(x) == fb.contains(x));
            if (fa + ok).contains(x) {
                let w = choose|w: int| 0 <= w < (fa + ok).len() && (fa + ok)[w] == x;
                if w < fa.len() {
                    assert(fa[w] == x);
                    let v = choose|v: int| 0 <= v < fb.len() && fb[v] == x;
                    assert((fb + ok)[v] == x);
                } else {
                    assert((fb + ok)[fb.len() + w - fa.len()] == x);
                }
            }
            if (fb + ok).contains(x) {
                let w = choose|w: int| 0 <= w < (fb + ok).len() && (fb + ok)[w] == x;
                if w < fb.len() {
                    assert(fb[w] == x);
                    let v = choose|v: int| 0 <= v < fa.len() && fa[v] == x;
                    assert((fa + ok)[v] == x);
                } else {
                    assert((fa + ok)[fa.len() + w - fb.len()] == x);
                }
            }
        }
        assert((fa + ok).to_set() =~= (fb + ok).to_set());
    } else {
        let init = sorted.drop_last();
        let m = sorted.len() - 1;
        lemma_operations_any_order(init, names, a, b, others, force);
        let (pa, ra) = operations(init, names, a, others, force);
        let (pb, rb) = operations(init, names, b, others, force);
        let oa = operations(sorted, names, a, others, force).0;
        let ob = operations(sorted, names, b, others, force).0;
        assert(oa.drop_last() == pa);
        assert(ob.drop_last() == pb);
        let (c, t) = sorted[m];
        let id = c.metadata.id@;
        lemma_match_any_order(a, b, id, names[m]);
        lemma_match_by_id_means(a, id);
        lemma_match_by_name_means(a, names[m]);
        if matched_file(a, id, names[m]) is None {
            lemma_reserved_name_by_set(names[m], hour_minute_text(t.hour, t.minute), id, ra, rb);
            let key = collision_key(
                reserved_name(names[m], hour_minute_text(t.hour, t.minute), id, ra),
            );
            assert(ra.push(key).to_set() =~= rb.push(key).to_set()) by {
                assert forall|x: Seq<char>| ra.push(key).contains(x) == rb.push(key).contains(x) by {
                    lemma_seq_contains_after_push(ra, key, x);
                    lemma_seq_contains_after_push(rb, key, x);
                    assert(ra.to_set().contains(x) == ra.contains(x));
                    assert(rb.to_set().contains(x) == rb.contains(x));
                }
            }
        }
        assert forall|k: int| 0 <= k < sorted.len() implies same_operation(
            oa[k],
            #[trigger] ob[k],
            a,
            b,
        ) by {
            if k < m {
                assert(oa[k] == pa[k] && ob[k] == pb[k]);
            }
        }
    }
}

/// Files ordered by name, as the orphan report lists them.
pub open spec fn name_order() -> spec_fn(FileView, FileView) -> bool {
    |x: FileView, y: FileView| chars_order(x.name, y.name) <= 0
}

/// Ordering files by name is a total preorder.
proof fn lemma_name_order_total()
    ensures
        total_preorder(name_order()),
{
    let le = name_order();
    assert forall|x: FileView, y: FileView| #[trigger] le(x, y) || le(y, x) by {
        lemma_chars_order_flip(x.name, y.name);
    }
    assert forall|x: FileView, y: FileView, z: FileView| #[trigger] le(x, y) && #[trigger] le(y, z)
        implies le(x, z) by {
        lemma_chars_order_trans(x.name, y.name, z.name);
    }
}

/// Indices in order of their files' names.
pub open spec fn sorted_by_name(idx: Seq<int>, files: Seq<ExistingFile>) -> bool {
    forall|i: int, j: int|
        0 <= i < j < idx.len() ==> chars_order(
            files[#[trigger] idx[i]].filename@,
            files[#[trigger] idx[j]].filename@,
        ) <= 0
}

proof fn lemma_insert_by_name_sorted(sorted: Seq<int>, x: int, files: Seq<ExistingFile>)
    requires
        sorted_by_name(sorted, files),
    ensures
        sorted_by_name(insert_by_name(sorted, x, files), files),
        forall|y: int| #[trigger] insert_by_name(sorted, x, files).contains(y) ==> sorted.contains(y) || y == x,
    decreases sorted.len(),
{
    let r = insert_by_name(sorted, x, files);
    if sorted.len() == 0 {
        assert(r =~= seq![x]);
    } else if chars_order(files[sorted.last()].filename@, files[x].filename@) <= 0 {
        assert(r =~= sorted.push(x));
        assert forall|i: int, j: int| 0 <= i < j < r.len() implies chars_order(
            files[#[trigger] r[i]].filename@,
            files[#[trigger] r[j]].filename@,
        ) <= 0 by {
            if j == sorted.len() && i < sorted.len() - 1 {
                assert(chars_order(files[sorted[i]].filename@, files[sorted[sorted.len() - 1]].filename@) <= 0);
                lemma_chars_order_trans(
                    files[sorted[i]].filename@,
                    files[sorted.last()].filename@,
                    files[x].filename@,
                );
            }
        }
        assert forall|y: int| #[trigger] r.contains(y) implies sorted.contains(y) || y == x by {
            lemma_seq_contains_after_push(sorted, x, y);
        }
    } else {
        let init = sorted.drop_last();
        let last = sorted.last();
        assert(sorted_by_name(init, files)) by {
            assert forall|i: int, j: int| 0 <= i < j < init.len() implies chars_order(
                files[#[trigger] init[i]].filename@,
                files[#[trigger] init[j]].filename@,
            ) <= 0 by {
                assert(init[i] == sorted[i] && init[j] == sorted[j]);
            }
        }
        lemma_insert_by_name_sorted(init, x, files);
        let q = insert_by_name(init, x, files);
        assert(r =~= q.push(last));
        lemma_chars_order_flip(files[last].filename@, files[x].filename@);
        assert forall|y: int| #[trigger] q.contains(y) implies chars_order(files[y].filename@, files[last].filename@) <= 0 by {
            if y != x {
                let w = choose|w: int| 0 <= w < init.len() && init[w] == y;
                assert(sorted[w] == y);
                assert(chars_order(files[sorted[w]].filename@, files[sorted[sorted.len() - 1]].filename@) <= 0);
            }
        }
        assert forall|i: int, j: int| 0 <= i < j < r.len() implies chars_order(
            files[#[trigger] r[i]].filename@,
            files[#[trigger] r[j]].filename@,
        ) <= 0 by {
            if j == q.len() {
                assert(q.contains(q[i]));
            } else {
                assert(r[i] == q[i] && r[j] == q[j]);
            }
        }
        assert forall|y: int| #[trigger] r.contains(y) implies sorted.contains(y) || y == x by {
            lemma_seq_contains_after_push(q, last, y);
            if q.contains(y) && y != x {
                let w = choose|w: int| 0 <= w < init.len() && init[w] == y;
                assert(sorted[w] == y);
            }
            if y == last {
                assert(sorted[sorted.len() - 1] == y);
            }
        }
    }
}

proof fn lemma_sort_by_name_sorted(idx: Seq<int>, files: Seq<ExistingFile>)
    ensures
        sorted_by_name(sort_by_name(idx, files), files),
    decreases idx.len(),
{
    if idx.len() > 0 {
        lemma_sort_by_name_sorted(idx.drop_last(), files);
        lemma_insert_by_name_sorted(sort_by_name(idx.drop_last(), files), idx.last(), files);
    }
}

/// The files an orphan report lists, in its order.
pub open spec fn orphan_files(ops: Seq<OperationView>, files: Seq<ExistingFile>, full: bool) -> Seq<
    FileView,
> {
    orphans_of(ops, files, full).map_values(|i: int| file_view(files[i]))
}

/// Two lists without repeats that hold the same elements are the same
/// multiset.
proof fn lemma_same_elements<T>(s: Seq<T>, t: Seq<T>)
    requires
        s.no_duplicates(),
        t.no_duplicates(),
        forall|x: T| #[trigger] s.contains(x) == t.contains(x),
    ensures
        s.to_multiset() == t.to_multiset(),
{
    s.lemma_multiset_has_no_duplicates();
    t.lemma_multiset_has_no_duplicates();
    assert forall|x: T| #[trigger] s.to_multiset().count(x) == t.to_multiset().count(x) by {
        to_multiset_contains(s, x);
        to_multiset_contains(t, x);
        if s.contains(x) {
            assert(s.to_multiset().contains(x));
            assert(t.to_multiset().contains(x));
        }
    }
    assert(s.to_multiset() =~= t.to_multiset());
}

/// A file of one scan is an orphan exactly when the same file of the other
/// scan is.
proof fn lemma_orphan_elsewhere(
    pa: Seq<OperationView>,
    pb: Seq<OperationView>,
    a: Seq<ExistingFile>,
    b: Seq<ExistingFile>,
    i: int,
    j: int,
)
    requires
        pa.len() == pb.len(),
        forall|k: int| 0 <= k < pa.len() ==> same_operation(pa[k], #[trigger] pb[k], a, b),
        scan_distinct(views(a)),
        scan_distinct(views(b)),
        0 <= i < a.len(),
        0 <= j < b.len(),
        file_view(a[i]) == file_view(b[j]),
    ensures
        is_matched(pa, i) == is_matched(pb, j),
{
    assert forall|p: int| 0 <= p < a.len() implies #[trigger] views(a)[p] == file_view(a[p]) by {}
    assert forall|p: int| 0 <= p < b.len() implies #[trigger] views(b)[p] == file_view(b[p]) by {}
    if is_matched(pa, i) {
        let k = choose|k: int| 0 <= k < pa.len() && (#[trigger] pa[k]).target == TargetView::Existing(i);
        assert(same_operation(pa[k], pb[k], a, b));
        let j2 = pb[k].target->Existing_0;
        if j2 != j {
            assert(views(b)[j2].name != views(b)[j].name);
        }
        assert(pb[k].target == TargetView::Existing(j));
    }
    if is_matched(pb, j) {
        let k = choose|k: int| 0 <= k < pb.len() && (#[trigger] pb[k]).target == TargetView::Existing(j);
        assert(same_operation(pa[k], pb[k], a, b));
        let i2 = pa[k].target->Existing_0;
        if i2 != i {
            assert(views(a)[i2].name != views(a)[i].name);
        }
        assert(pa[k].target == TargetView::Existing(i));
    }
}

/// The orphan report lists the same files in the same order for two scans
/// holding the same files.
proof fn lemma_orphans_any_order(
    pa: Seq<OperationView>,
    pb: Seq<OperationView>,
    a: Seq<ExistingFile>,
    b: Seq<ExistingFile>,
    full: bool,
)
    requires
        pa.len() == pb.len(),
        forall|k: int| 0 <= k < pa.len() ==> same_operation(pa[k], #[trigger] pb[k], a, b),
        views(a).to_multiset() == views(b).to_multiset(),
        scan_distinct(views(a)),
        scan_distinct(views(b)),
    ensures
        orphan_files(pa, a, full) == orphan_files(pb, b, full),
{
    if !full {
        assert(orphan_files(pa, a, full) =~= orphan_files(pb, b, full));
    } else {
        let oa = orphans_of(pa, a, true);
        let ob = orphans_of(pb, b, true);
        let va = orphan_files(pa, a, true);
        let vb = orphan_files(pb, b, true);
        let le = name_order();
        lemma_orphans_are_untargeted(pa, a);
        lemma_orphans_are_untargeted(pb, b);
        lemma_sort_by_name_sorted(unmatched(pa, a.len()), a);
        lemma_sort_by_name_sorted(unmatched(pb, b.len()), b);
        lemma_name_order_total();
        assert forall|p: int| 0 <= p < a.len() implies #[trigger] views(a)[p] == file_view(a[p]) by {}
        assert forall|p: int| 0 <= p < b.len() implies #[trigger] views(b)[p] == file_view(b[p]) by {}
        assert forall|p: int| 0 <= p < oa.len() implies 0 <= #[trigger] oa[p] < a.len() by {
            assert(oa.contains(oa[p]));
            assert(!is_matched(pa, oa[p]));
        }
        assert forall|p: int| 0 <= p < ob.len() implies 0 <= #[trigger] ob[p] < b.len() by {
            assert(ob.contains(ob[p]));
            assert(!is_matched(pb, ob[p]));
        }
        assert(sorted_by(va, le)) by {
            assert forall|x: int, y: int| 0 <= x < y < va.len() implies #[trigger] le(va[x], va[y]) by {
                assert(chars_order(a[oa[x]].filename@, a[oa[y]].filename@) <= 0);
            }
        }
        assert(sorted_by(vb, le)) by {
            assert forall|x: int, y: int| 0 <= x < y < vb.len() implies #[trigger] le(vb[x], vb[y]) by {
                assert(chars_order(b[ob[x]].filename@, b[ob[y]].filename@) <= 0);
            }
        }
        assert(va.no_duplicates()) by {
            assert forall|x: int, y: int| 0 <= x < va.len() && 0 <= y < va.len() && x != y implies va[x]
                != va[y] by {
                assert(oa[x] != oa[y]);
                assert(views(a)[oa[x]].name != views(a)[oa[y]].name);
            }
        }
        assert(vb.no_duplicates()) by {
            assert forall|x: int, y: int| 0 <= x < vb.len() && 0 <= y < vb.len() && x != y implies vb[x]
                != vb[y] by {
                assert(ob[x] != ob[y]);
                assert(views(b)[ob[x]].name != views(b)[ob[y]].name);
            }
        }
        assert forall|v: FileView| #[trigger] va.contains(v) == vb.contains(v) by {
            if va.contains(v) {
                let x = choose|x: int| 0 <= x < va.len() && va[x] == v;
                let i = oa[x];
                assert(oa.contains(i));
                lemma_same_file_elsewhere(a, b, i);
                let j = choose|j: int| 0 <= j < b.len() && file_view(#[trigger] b[j]) == file_view(a[i]);
                lemma_orphan_elsewhere(pa, pb, a, b, i, j);
                assert(ob.contains(j));
                let y = choose|y: int| 0 <= y < ob.len() && ob[y] == j;
                assert(vb[y] == v);
            }
            if vb.contains(v) {
                let y = choose|y: int| 0 <= y < vb.len() && vb[y] == v;
                let j = ob[y];
                assert(ob.contains(j));
                lemma_same_file_elsewhere(b, a, j);
                let i = choose|i: int| 0 <= i < a.len() && file_view(#[trigger] a[i]) == file_view(b[j]);
                lemma_orphan_elsewhere(pa, pb, a, b, i, j);
                assert(oa.contains(i));
                let x = choose|x: int| 0 <= x < oa.len() && oa[x] == i;
                assert(va[x] == v);
            }
        }
        lemma_same_elements(va, vb);
        assert(ties_agree(va, le, |v: FileView| v)) by {
            assert forall|x: FileView, y: FileView| va.contains(x) && va.contains(y) && #[trigger] tied(
                le,
                x,
                y,
            ) implies x == y by {
                let p = choose|p: int| 0 <= p < va.len() && va[p] == x;
                let q = choose|q: int| 0 <= q < va.len() && va[q] == y;
                lemma_chars_order_flip(x.name, y.name);
                lemma_chars_order_equal(x.name, y.name);
                if p != q {
                    assert(views(a)[oa[p]].name != views(a)[oa[q]].name);
                }
            }
        }
        lemma_sorted_images(va, vb, le, |v: FileView| v);
        assert(va =~= va.map_values(|v: FileView| v));
        assert(vb =~= vb.map_values(|v: FileView| v));
    }
}

/// The order in which the Output Directory lists its files does not change
/// the plan: when no two scanned files share a name or name the same Call,
/// two scans holding the same files plan, Call by Call, the same action, the
/// same new file name or the same existing file, and report the same
/// orphans in the same order.
pub proof fn lemma_scan_order_does_not_change_the_plan(
    calls: Seq<ExtensiveCall>,
    a: Seq<ExistingFile>,
    b: Seq<ExistingFile>,
    others: Seq<Seq<char>>,
    force: bool,
    full: bool,
)
    requires
        views(a).to_multiset() == views(b).to_multiset(),
        scan_distinct(views(a)),
    ensures
        planned_operations(calls, b, others, force).len() == planned_operations(calls, a, others, force).len(),
        forall|k: int|
            0 <= k < planned_operations(calls, a, others, force).len() ==> same_operation(
                planned_operations(calls, a, others, force)[k],
                #[trigger] planned_operations(calls, b, others, force)[k],
                a,
                b,
            ),
        orphan_files(planned_operations(calls, a, others, force), a, full) == orphan_files(
            planned_operations(calls, b, others, force),
            b,
            full,
        ),
{
    let sorted = sorted_customer_calls(calls);
    let names = planned_names(sorted).0;
    lemma_distinct_carries(views(a), b);
    lemma_operations_any_order(sorted, names, a, b, others, force);
    lemma_orphans_any_order(
        planned_operations(calls, a, others, force),
        planned_operations(calls, b, others, force),
        a,
        b,
        full,
    );
}

} // verus!
