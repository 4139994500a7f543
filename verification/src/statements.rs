//! The statements that carry a mutation into a relational store, the number
//! of rows each is expected to touch, and the check of the number it did
//! touch.

use crate::domain::{Timestamp, User, UserView};
use crate::heartbeat::SyncError;
use crate::plan::{steps_of, Mutation, Step, SyncPlan};
use crate::roster::{distinct_points, first_occurrences};
use vstd::prelude::*;

verus! {

/// One statement against the store.
#[derive(Debug)]
pub enum Statement {
    /// Delete the users with these ids; their links go with them.
    DeleteUsers { ids: Vec<i64> },
    /// Set the code of one user.
    SetCode { user_id: i64, code: String },
    /// Overwrite name, code and validity of one user.
    UpdateUser { user: User },
    /// Delete every link of one user.
    DeleteLinks { user_id: i64 },
    /// Insert one link from the user to each of the points.
    InsertLinks { user_id: i64, point_ids: Vec<i64> },
    /// Insert one user.
    InsertUser { user: User },
    /// Set the hub's watermark.
    SetWatermark { at: Timestamp },
}

/// What a `Statement` is, as plain values.
pub enum StatementView {
    DeleteUsers { ids: Seq<i64> },
    SetCode { user_id: i64, code: Seq<char> },
    UpdateUser { user: UserView },
    DeleteLinks { user_id: i64 },
    InsertLinks { user_id: i64, point_ids: Seq<i64> },
    InsertUser { user: UserView },
    SetWatermark { at: Timestamp },
}

impl View for Statement {
    type V = StatementView;

    open spec fn view(&self) -> StatementView {
        match self {
            Statement::DeleteUsers { ids } => StatementView::DeleteUsers { ids: ids@ },
            Statement::SetCode { user_id, code } => StatementView::SetCode {
                user_id: *user_id,
                code: code@,
            },
            Statement::UpdateUser { user } => StatementView::UpdateUser { user: user@ },
            Statement::DeleteLinks { user_id } => StatementView::DeleteLinks { user_id: *user_id },
            Statement::InsertLinks { user_id, point_ids } => StatementView::InsertLinks {
                user_id: *user_id,
                point_ids: point_ids@,
            },
            Statement::InsertUser { user } => StatementView::InsertUser { user: user@ },
            Statement::SetWatermark { at } => StatementView::SetWatermark { at: *at },
        }
    }
}

/// The views of a sequence of statements, element by element.
pub open spec fn statement_views(v: Seq<Statement>) -> Seq<StatementView> {
    Seq::new(v.len(), |i: int| v[i]@)
}

/// The statement that links the user to each of `point_ids` once, if there
/// is any point.
pub open spec fn link_statements(user_id: i64, point_ids: Seq<i64>) -> Seq<StatementView> {
    if point_ids.len() == 0 {
        Seq::empty()
    } else {
        seq![StatementView::InsertLinks { user_id, point_ids: first_occurrences(point_ids) }]
    }
}

/// The statements of one step, in the order in which they are executed.  An
/// update writes the record, drops the user's links and inserts the new
/// ones; a create inserts the record and then its links.
pub open spec fn statements_of(m: Step) -> Seq<StatementView> {
    match m {
        Step::Delete { ids } => seq![StatementView::DeleteUsers { ids }],
        Step::Recycle { user_id, code } => seq![StatementView::SetCode { user_id, code }],
        Step::Update { entry } => seq![
            StatementView::UpdateUser { user: entry.user },
            StatementView::DeleteLinks { user_id: entry.user.id },
        ] + link_statements(entry.user.id, entry.point_ids),
        Step::Create { entry } => seq![StatementView::InsertUser { user: entry.user }]
            + link_statements(entry.user.id, entry.point_ids),
        Step::SetWatermark { at } => seq![StatementView::SetWatermark { at }],
    }
}

/// The number of rows that a statement must touch; `None` where any number
/// will do.
pub open spec fn rows_expected(s: StatementView) -> Option<int> {
    match s {
        StatementView::DeleteUsers { ids } => Some(ids.len() as int),
        StatementView::SetCode { user_id, code } => Some(1),
        StatementView::UpdateUser { user } => Some(1),
        StatementView::DeleteLinks { user_id } => None,
        StatementView::InsertLinks { user_id, point_ids } => Some(point_ids.len() as int),
        StatementView::InsertUser { user } => Some(1),
        StatementView::SetWatermark { at } => Some(1),
    }
}

/// The statement must touch a number of rows other than `rows_affected`.
pub open spec fn wrong_rows(s: StatementView, rows_affected: int) -> bool {
    match rows_expected(s) {
        Some(n) => n != rows_affected,
        None => false,
    }
}

impl Mutation {
    /// The statements that carry the mutation into the store.
    pub fn statements(&self) -> (out: Vec<Statement>)
        ensures
            statement_views(out@) == statements_of(self@),
    {
        let mut out: Vec<Statement> = Vec::new();
        match self {
            Mutation::Delete { ids } => {
                out.push(Statement::DeleteUsers { ids: ids.clone() });
            },
            Mutation::Recycle { user_id, code } => {
                out.push(Statement::SetCode { user_id: *user_id, code: code.clone() });
            },
            Mutation::Update { entry } => {
                out.push(Statement::UpdateUser { user: entry.user.duplicate() });
                out.push(Statement::DeleteLinks { user_id: entry.user.id });
                if entry.point_ids.len() > 0 {
                    out.push(
                        Statement::InsertLinks {
                            user_id: entry.user.id,
                            point_ids: distinct_points(&entry.point_ids),
                        },
                    );
                }
            },
            Mutation::Create { entry } => {
                out.push(Statement::InsertUser { user: entry.user.duplicate() });
                if entry.point_ids.len() > 0 {
                    out.push(
                        Statement::InsertLinks {
                            user_id: entry.user.id,
                            point_ids: distinct_points(&entry.point_ids),
                        },
                    );
                }
            },
            Mutation::SetWatermark { at } => {
                out.push(Statement::SetWatermark { at: *at });
            },
        }
        assert(statement_views(out@) =~= statements_of(self@));
        out
    }
}

/// The statements of a sequence of steps, step after step.
pub open spec fn all_statements(steps: Seq<Step>) -> Seq<StatementView>
    decreases steps.len(),
{
    if steps.len() == 0 {
        Seq::empty()
    } else {
        all_statements(steps.drop_last()) + statements_of(steps.last())
    }
}

impl SyncPlan {
    /// Every statement of the plan, in the order of execution.
    pub fn statements(&self) -> (out: Vec<Statement>)
        ensures
            statement_views(out@) == all_statements(self.steps()),
    {
        let ms = self.mutations();
        let ghost steps = steps_of(ms@);
        let mut out: Vec<Statement> = Vec::new();
        let mut i: usize = 0;
        assert(statement_views(out@) =~= all_statements(steps.take(0)));
        while i < ms.len()
            invariant
                i <= ms.len(),
                steps == steps_of(ms@),
                statement_views(out@) == all_statements(steps.take(i as int)),
            decreases ms.len() - i,
        {
            let mut more = ms[i].statements();
            proof {
                assert(steps.take(i + 1).drop_last() =~= steps.take(i as int));
                assert(steps.take(i + 1).last() == ms@[i as int]@);
            }
            let ghost before = statement_views(out@);
            let ghost added = statement_views(more@);
            out.append(&mut more);
            assert(statement_views(out@) =~= before + added);
            i += 1;
        }
        assert(steps.take(ms.len() as int) =~= steps);
        out
    }
}

impl Statement {
    /// The number of rows that the statement must touch; `None` where any
    /// number will do.
    pub fn expected_rows(&self) -> (r: Option<usize>)
        ensures
            rows_expected(self@) == match r {
                Some(n) => Some(n as int),
                None => None::<int>,
            },
    {
        match self {
            Statement::DeleteUsers { ids } => Some(ids.len()),
            Statement::SetCode { .. } => Some(1),
            Statement::UpdateUser { .. } => Some(1),
            Statement::DeleteLinks { .. } => None,
            Statement::InsertLinks { point_ids, .. } => Some(point_ids.len()),
            Statement::InsertUser { .. } => Some(1),
            Statement::SetWatermark { .. } => Some(1),
        }
    }

    /// Holds the number of rows that the statement touched against the
    /// number it must touch.
    pub fn check_rows(&self, rows_affected: u64) -> (r: Result<(), SyncError>)
        ensures
            r == if wrong_rows(self@, rows_affected as int) {
                Err::<(), SyncError>(SyncError::InconsistentMutation)
            } else {
                Ok(())
            },
    {
        match self.expected_rows() {
            Some(n) => {
                if n as u128 == rows_affected as u128 {
                    Ok(())
                } else {
                    Err(SyncError::InconsistentMutation)
                }
            },
            None => Ok(()),
        }
    }
}

/// What to do once a statement has been executed.
#[derive(Debug, Clone, Copy, PartialEq, Eq)]
pub enum Progress {
    /// Execute the statement at this index next.
    Next { index: usize },
    /// Every statement touched the rows it had to: commit.
    Commit,
    /// A statement did not: undo everything and give up with this error.
    Rollback { error: SyncError },
}

/// What to do once the statement at `index` has touched `rows_affected`
/// rows, as plain values.
pub open spec fn progress_after(
    statements: Seq<StatementView>,
    index: int,
    rows_affected: int,
) -> Progress {
    if 0 <= index < statements.len() && wrong_rows(statements[index], rows_affected) {
        Progress::Rollback { error: SyncError::InconsistentMutation }
    } else if index + 1 < statements.len() {
        Progress::Next { index: (index + 1) as usize }
    } else {
        Progress::Commit
    }
}

/// Decides how a transaction goes on once the statement at `index` has
/// touched `rows_affected` rows: a wrong number of rows ends it at once, the
/// last statement completes it.
pub fn after_statement(statements: &Vec<Statement>, index: usize, rows_affected: u64) -> (r:
    Progress)
    ensures
        r == progress_after(statement_views(statements@), index as int, rows_affected as int),
{
    if index < statements.len() {
        assert(statement_views(statements@)[index as int] == statements@[index as int]@);
        match statements[index].check_rows(rows_affected) {
            Ok(_) => {},
            Err(error) => {
                return Progress::Rollback { error };
            },
        }
        if index + 1 < statements.len() {
            return Progress::Next { index: index + 1 };
        }
    }
    Progress::Commit
}

} // verus!
