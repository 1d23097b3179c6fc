//! The contract that every domain keeps: read the current state, compute the
//! diff to the desired state, apply it.

use vstd::prelude::*;
use crate::error::DeclarativeAlpineError;

verus! {

/// A domain of system state that can be reconciled. `Store` is a snapshot of
/// the domain's backing files; each of the three steps has a predicate that
/// says what the step owes.
pub trait Declaration {
    /// The state asked for.
    type Desired;

    /// The state found.
    type Current;

    /// The changes that lead from the state found to the state asked for.
    type Diff;

    /// A snapshot of the backing files.
    type Store;

    /// What `get_current` owes.
    spec fn current_post(
        &self,
        store: &Self::Store,
        r: Result<Self::Current, DeclarativeAlpineError>,
    ) -> bool;

    /// What `compute_diff` owes.
    spec fn diff_post(
        &self,
        current: &Self::Current,
        desired: &Self::Desired,
        diff: Self::Diff,
    ) -> bool;

    /// What `apply` owes, from the snapshot before to the snapshot after.
    spec fn apply_post(
        &self,
        before: Self::Store,
        after: Self::Store,
        diff: &Self::Diff,
        dry_run: bool,
        r: Result<bool, DeclarativeAlpineError>,
    ) -> bool;

    /// Rebuilds the current state from the snapshot.
    fn get_current(&self, store: &Self::Store) -> (r: Result<Self::Current, DeclarativeAlpineError>)
        ensures
            self.current_post(store, r),
    ;

    /// Computes the diff; touches nothing.
    fn compute_diff(&self, current: &Self::Current, desired: &Self::Desired) -> (diff: Self::Diff)
        ensures
            self.diff_post(current, desired, diff),
    ;

    /// Applies the diff to the snapshot. `Ok(true)` says that the domain's
    /// activation command is now due.
    fn apply(&self, store: &mut Self::Store, diff: &Self::Diff, dry_run: bool) -> (r: Result<
        bool,
        DeclarativeAlpineError,
    >)
        ensures
            self.apply_post(*old(store), *final(store), diff, dry_run, r),
    ;
}

/// What one reconciliation came to.
#[derive(Debug)]
pub enum Reconciled<D> {
    /// The current state could not be read; nothing was computed or changed.
    Unread(DeclarativeAlpineError),
    /// The diff was computed and applying it failed.
    Failed(D, DeclarativeAlpineError),
    /// The diff was computed and applied; the flag says whether the
    /// activation command is due.
    Applied(D, bool),
}

/// That a run read some current state from the snapshot `before`, computed
/// `diff` from it and from `desired`, and applied it with the given outcome,
/// leaving the snapshot `after`.
pub open spec fn ran_spec<D: Declaration>(
    declaration: &D,
    before: D::Store,
    after: D::Store,
    desired: &D::Desired,
    dry_run: bool,
    diff: D::Diff,
    outcome: Result<bool, DeclarativeAlpineError>,
) -> bool {
    exists|current: D::Current|
        (#[trigger] declaration.diff_post(&current, desired, diff)) && declaration.current_post(
            &before,
            Ok(current),
        ) && declaration.apply_post(before, after, &diff, dry_run, outcome)
}

/// Runs one domain through its steps: current state, diff, apply. A failure
/// of the first step ends the run before any diff is computed. The diff is
/// handed back in either other case, for the caller to report.
pub fn reconcile<D: Declaration>(
    declaration: &D,
    store: &mut D::Store,
    desired: &D::Desired,
    dry_run: bool,
) -> (r: Reconciled<D::Diff>)
    ensures
        r is Unread ==> declaration.current_post(old(store), Err(r->Unread_0)) && *final(store)
            == *old(store),
        r is Failed ==> ran_spec(
            declaration,
            *old(store),
            *final(store),
            desired,
            dry_run,
            r->Failed_0,
            Err(r->Failed_1),
        ),
        r is Applied ==> ran_spec(
            declaration,
            *old(store),
            *final(store),
            desired,
            dry_run,
            r->Applied_0,
            Ok(r->Applied_1),
        ),
{
    let current = match declaration.get_current(store) {
        Ok(current) => current,
        Err(e) => {
            return Reconciled::Unread(e);
        },
    };
    let diff = declaration.compute_diff(&current, desired);
    let applied = declaration.apply(store, &diff, dry_run);
    proof {
        assert(declaration.diff_post(&current, desired, diff) && declaration.current_post(
            old(store),
            Ok(current),
        ) && declaration.apply_post(*old(store), *store, &diff, dry_run, applied));
        assert(ran_spec(declaration, *old(store), *store, desired, dry_run, diff, applied));
    }
    match applied {
        Ok(due) => Reconciled::Applied(diff, due),
        Err(e) => Reconciled::Failed(diff, e),
    }
}

} // verus!
