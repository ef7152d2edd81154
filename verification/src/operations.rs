//! What a host has to do on its own files once an edit was applied to a copy.

use crate::error::{EditError, ErrorView};
use crate::fs::EditFs;
use crate::text::{opt_view, same};
use crate::traits::{ChangeOp, ChangeView, EditResult, FileChange};
use vstd::prelude::*;
use vstd::string::*;

verus! {

/// What is done with a file.
#[derive(Debug, Clone, Copy, PartialEq, Eq, Structural)]
pub enum OperationKind {
    /// The file is written.
    Write,
    /// The file is deleted.
    Delete,
}

/// An operation on a file.
#[derive(Debug)]
pub struct FileOperation {
    /// What is done.
    pub kind: OperationKind,
    /// The path of the file.
    pub path: String,
    /// What is written.
    pub content: Option<String>,
}

/// An operation on a file, by its contents.
#[verifier::ext_equal]
pub ghost struct OperationView {
    /// What is done.
    pub kind: OperationKind,
    /// The path of the file.
    pub path: Seq<char>,
    /// What is written.
    pub content: Option<Seq<char>>,
}

impl View for FileOperation {
    type V = OperationView;

    open spec fn view(&self) -> OperationView {
        OperationView { kind: self.kind, path: self.path@, content: opt_view(self.content) }
    }
}

/// The operations, by their contents.
pub open spec fn operation_views(v: Seq<FileOperation>) -> Seq<OperationView> {
    Seq::new(v.len(), |i: int| v[i]@)
}

/// What tells operations of one kind apart.
pub open spec fn operation_key(o: OperationView) -> Seq<char> {
    o.path + "\u{0}"@ + (match o.content {
        Some(c) => c,
        None => Seq::empty(),
    })
}

/// Whether an operation is among others.
pub open spec fn is_repeated(ops: Seq<OperationView>, o: OperationView) -> bool {
    exists|i: int|
        0 <= i < ops.len() && (#[trigger] ops[i]).kind == o.kind && operation_key(ops[i])
            == operation_key(o)
}

/// The operations and one more, unless it is among them.
pub open spec fn with_operation(ops: Seq<OperationView>, o: OperationView) -> Seq<OperationView> {
    if is_repeated(ops, o) {
        ops
    } else {
        ops.push(o)
    }
}

/// The operation that writes a file as it is in the state.
pub open spec fn write_of<F: EditFs>(state: F::State, path: Seq<char>) -> Result<
    OperationView,
    ErrorView,
> {
    match F::read_in(state, path) {
        Ok(c) => Ok(OperationView { kind: OperationKind::Write, path, content: Some(c) }),
        Err(e) => Err(e),
    }
}

/// The operation that deletes a file.
pub open spec fn delete_of(path: Seq<char>) -> OperationView {
    OperationView { kind: OperationKind::Delete, path, content: None }
}

/// The operations and those that a change calls for.
pub open spec fn with_change<F: EditFs>(
    state: F::State,
    ops: Seq<OperationView>,
    change: ChangeView,
) -> Result<Seq<OperationView>, ErrorView> {
    match change.op {
        ChangeOp::Create => match write_of::<F>(state, change.path) {
            Ok(o) => Ok(with_operation(ops, o)),
            Err(e) => Err(e),
        },
        ChangeOp::Delete => Ok(with_operation(ops, delete_of(change.path))),
        ChangeOp::Update => match change.new_path {
            None => match write_of::<F>(state, change.path) {
                Ok(o) => Ok(with_operation(ops, o)),
                Err(e) => Err(e),
            },
            Some(to) => match write_of::<F>(state, to) {
                Ok(o) => Ok(with_operation(with_operation(ops, o), delete_of(change.path))),
                Err(e) => Err(e),
            },
        },
    }
}

/// The operations that changes call for.
pub open spec fn operations_for<F: EditFs>(state: F::State, changes: Seq<ChangeView>) -> Result<
    Seq<OperationView>,
    ErrorView,
>
    decreases changes.len(),
{
    if changes.len() == 0 {
        Ok(Seq::empty())
    } else {
        match operations_for::<F>(state, changes.drop_last()) {
            Err(e) => Err(e),
            Ok(ops) => with_change::<F>(state, ops, changes.last()),
        }
    }
}

/// The operations, by their contents.
pub open spec fn operations_outcome(r: Result<Vec<FileOperation>, EditError>) -> Result<
    Seq<OperationView>,
    ErrorView,
> {
    match r {
        Ok(v) => Ok(operation_views(v@)),
        Err(e) => Err(e@),
    }
}

fn key_of_operation(o: &FileOperation) -> (r: String)
    ensures
        r@ == operation_key(o@),
{
    let mut r = o.path.clone();
    r.append("\u{0}");
    match &o.content {
        Some(c) => {
            r.append(c.as_str());
        },
        None => {
            assert(r@ =~= r@ + Seq::empty());
        },
    }
    r
}

fn push_operation(ops: &mut Vec<FileOperation>, o: FileOperation)
    ensures
        operation_views(final(ops)@) == with_operation(operation_views(old(ops)@), o@),
{
    let ghost before = operation_views(ops@);
    let ghost ov = o@;
    let key = key_of_operation(&o);
    let mut i: usize = 0;
    while i < ops.len()
        invariant
            *ops == *old(ops),
            before == operation_views(ops@),
            before == operation_views(old(ops)@),
            ov == o@,
            key@ == operation_key(ov),
            i <= ops@.len(),
            forall|k: int|
                0 <= k < i ==> !((#[trigger] before[k]).kind == ov.kind && operation_key(before[k])
                    == operation_key(ov)),
        decreases ops@.len() - i,
    {
        assert(before[i as int] == ops@[i as int]@);
        if ops[i].kind == o.kind && same(key_of_operation(&ops[i]).as_str(), key.as_str()) {
            assert(is_repeated(before, ov));
            return;
        }
        i = i + 1;
    }
    let ghost raw = ops@;
    ops.push(o);
    assert(operation_views(ops@) =~= operation_views(raw).push(ov));
}

spec fn operation_outcome(r: Result<FileOperation, EditError>) -> Result<OperationView, ErrorView> {
    match r {
        Ok(o) => Ok(o@),
        Err(e) => Err(e@),
    }
}

fn write_operation<F: EditFs>(fs: &F, path: &str) -> (r: Result<FileOperation, EditError>)
    ensures
        operation_outcome(r) == write_of::<F>(fs.state(), path@),
{
    match fs.read(path) {
        Ok(c) => Ok(
            FileOperation {
                kind: OperationKind::Write,
                path: path.to_owned(),
                content: Some(c),
            },
        ),
        Err(e) => Err(e),
    }
}

fn append_change_operations<F: EditFs>(
    change: &FileChange,
    fs: &F,
    operations: &mut Vec<FileOperation>,
) -> (r: Result<(), EditError>)
    ensures
        match r {
            Ok(_) => with_change::<F>(
                fs.state(),
                operation_views(old(operations)@),
                change@,
            ) == Ok::<Seq<OperationView>, ErrorView>(operation_views(final(operations)@)),
            Err(e) => with_change::<F>(
                fs.state(),
                operation_views(old(operations)@),
                change@,
            ) == Err::<Seq<OperationView>, ErrorView>(e@),
        },
{
    let path = match change.op {
        ChangeOp::Delete => None,
        ChangeOp::Create => Some(change.path.as_str()),
        ChangeOp::Update => match &change.new_path {
            Some(to) => Some(to.as_str()),
            None => Some(change.path.as_str()),
        },
    };
    match path {
        Some(p) => match write_operation(fs, p) {
            Ok(o) => {
                push_operation(operations, o);
            },
            Err(e) => {
                return Err(e);
            },
        },
        None => {},
    }
    let deletes = match change.op {
        ChangeOp::Delete => true,
        ChangeOp::Create => false,
        ChangeOp::Update => change.new_path.is_some(),
    };
    if deletes {
        push_operation(
            operations,
            FileOperation {
                kind: OperationKind::Delete,
                path: change.path.clone(),
                content: None,
            },
        );
    }
    Ok(())
}

/// A change that fails makes all fail.
proof fn lemma_operations_fail<F: EditFs>(state: F::State, changes: Seq<ChangeView>, k: int)
    requires
        0 <= k <= changes.len(),
        operations_for::<F>(state, changes.take(k)) is Err,
    ensures
        operations_for::<F>(state, changes) == operations_for::<F>(state, changes.take(k)),
    decreases changes.len() - k,
{
    if k < changes.len() {
        assert(changes.take(k + 1).drop_last() =~= changes.take(k));
        lemma_operations_fail::<F>(state, changes, k + 1);
    } else {
        assert(changes.take(k) =~= changes);
    }
}

/// The operations that the changes of an edit call for: the first change, and
/// then all, each operation once.
pub fn build_operations<F: EditFs>(result: &EditResult, fs: &F) -> (r: Result<
    Vec<FileOperation>,
    EditError,
>)
    ensures
        operations_outcome(r) == operations_for::<F>(
            fs.state(),
            seq![result@.change] + result@.changes,
        ),
{
    let ghost all = seq![result@.change] + result@.changes;
    let ghost state = fs.state();
    let mut operations: Vec<FileOperation> = Vec::new();
    proof {
        assert(all.take(0) =~= Seq::empty());
        assert(all.take(1).drop_last() =~= all.take(0));
        assert(all.take(1).last() == result@.change);
        assert(operation_views(operations@) =~= Seq::empty());
        assert(operations_for::<F>(state, all.take(0)) == Ok::<Seq<OperationView>, ErrorView>(
            Seq::empty(),
        ));
    }
    match append_change_operations(&result.change, fs, &mut operations) {
        Ok(_) => {},
        Err(e) => {
            proof {
                lemma_operations_fail::<F>(state, all, 1);
            }
            return Err(e);
        },
    }
    let mut i: usize = 0;
    while i < result.changes.len()
        invariant
            all == seq![result@.change] + result@.changes,
            state == fs.state(),
            i <= result.changes@.len(),
            operations_for::<F>(state, all.take(i + 1)) == Ok::<Seq<OperationView>, ErrorView>(
                operation_views(operations@),
            ),
        decreases result.changes@.len() - i,
    {
        proof {
            assert(all.take(i + 2).drop_last() =~= all.take(i + 1));
            assert(all.take(i + 2).last() == result.changes@[i as int]@);
        }
        match append_change_operations(&result.changes[i], fs, &mut operations) {
            Ok(_) => {},
            Err(e) => {
                proof {
                    lemma_operations_fail::<F>(state, all, i + 2);
                }
                return Err(e);
            },
        }
        i = i + 1;
    }
    assert(all.take(i + 1) =~= all);
    Ok(operations)
}

/// Whether an operation that writes a file writes it as it reads in the state.
pub open spec fn writes_as_read<F: EditFs>(state: F::State, o: OperationView) -> bool {
    o.kind == OperationKind::Write ==> match F::read_in(state, o.path) {
        Ok(c) => o.content == Some(c),
        Err(_) => false,
    }
}

/// Every file that is to be written is written as it reads, and no operation is
/// called for twice.
pub proof fn law_operations<F: EditFs>(state: F::State, changes: Seq<ChangeView>)
    ensures
        operations_for::<F>(state, changes) matches Ok(ops) ==> {
            &&& forall|i: int|
                0 <= i < ops.len() ==> writes_as_read::<F>(state, #[trigger] ops[i])
            &&& forall|i: int| 0 <= i < ops.len() ==> !is_repeated(ops.take(i), #[trigger] ops[i])
        },
    decreases changes.len(),
{
    if changes.len() > 0 {
        law_operations::<F>(state, changes.drop_last());
        if let Ok(ops) = operations_for::<F>(state, changes.drop_last()) {
            let change = changes.last();
            let to = match change.new_path {
                Some(path) => path,
                None => change.path,
            };
            if let Ok(o) = write_of::<F>(state, to) {
                lemma_with_operation::<F>(state, ops, o);
                lemma_with_operation::<F>(state, with_operation(ops, o), delete_of(change.path));
            }
            if let Ok(o) = write_of::<F>(state, change.path) {
                lemma_with_operation::<F>(state, ops, o);
            }
            lemma_with_operation::<F>(state, ops, delete_of(change.path));
        }
    }
}

/// One more operation, unless it is there already, keeps what holds of them.
proof fn lemma_with_operation<F: EditFs>(
    state: F::State,
    ops: Seq<OperationView>,
    o: OperationView,
)
    requires
        writes_as_read::<F>(state, o),
        forall|i: int| 0 <= i < ops.len() ==> writes_as_read::<F>(state, #[trigger] ops[i]),
        forall|i: int| 0 <= i < ops.len() ==> !is_repeated(ops.take(i), #[trigger] ops[i]),
    ensures
        ({
            let all = with_operation(ops, o);
            &&& forall|i: int|
                0 <= i < all.len() ==> writes_as_read::<F>(state, #[trigger] all[i])
            &&& forall|i: int| 0 <= i < all.len() ==> !is_repeated(all.take(i), #[trigger] all[i])
        }),
{
    let all = with_operation(ops, o);
    assert forall|i: int| 0 <= i < all.len() implies !is_repeated(all.take(i), #[trigger] all[i]) by {
        if i < ops.len() {
            assert(all.take(i) =~= ops.take(i));
            assert(all[i] == ops[i]);
        } else {
            assert(all.take(i) =~= ops);
        }
    }
}

} // verus!
