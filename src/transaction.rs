//! Edits that write several rows run inside one store transaction: either all
//! of their writes take effect or none does. An `EditSession` decides, step by
//! step, what the caller does next against the store; the caller performs it
//! and reports whether it succeeded.

use crate::car::CreateCarRequest;
use crate::error::ApiError;
use vstd::prelude::*;

verus! {

/// A car-garage association: (car id, garage id).
pub type Link = (Seq<char>, Seq<char>);

/// A write performed inside an edit's transaction.
#[derive(Debug)]
pub enum Statement {
    /// Overwrite the columns of car `0` with the edit's values.
    UpdateCar(String),
    /// Remove every garage association of car `0`.
    ClearCarGarages(String),
    /// Associate car `0` with garage `1`.
    LinkCarGarage(String, String),
    /// Overwrite the given columns of maintenance record `0`.
    UpdateMaintenance(String),
}

pub enum StatementModel {
    UpdateCar(Seq<char>),
    ClearCarGarages(Seq<char>),
    LinkCarGarage(Seq<char>, Seq<char>),
    UpdateMaintenance(Seq<char>),
}

impl View for Statement {
    type V = StatementModel;

    open spec fn view(&self) -> StatementModel {
        match self {
            Statement::UpdateCar(c) => StatementModel::UpdateCar(c@),
            Statement::ClearCarGarages(c) => StatementModel::ClearCarGarages(c@),
            Statement::LinkCarGarage(c, g) => StatementModel::LinkCarGarage(c@, g@),
            Statement::UpdateMaintenance(m) => StatementModel::UpdateMaintenance(m@),
        }
    }
}

impl Statement {
    pub fn duplicate(&self) -> (r: Statement)
        ensures
            r@ == self@,
    {
        match self {
            Statement::UpdateCar(c) => Statement::UpdateCar(c.clone()),
            Statement::ClearCarGarages(c) => Statement::ClearCarGarages(c.clone()),
            Statement::LinkCarGarage(c, g) => Statement::LinkCarGarage(c.clone(), g.clone()),
            Statement::UpdateMaintenance(m) => Statement::UpdateMaintenance(m.clone()),
        }
    }
}

/// What the caller does next.
#[derive(Debug)]
pub enum TxAction {
    /// Run this write inside the transaction.
    Execute(Statement),
    /// Commit the transaction.
    Commit,
    /// Roll the transaction back.
    Rollback,
    /// The edit is over: `Ok` when its writes were committed, otherwise
    /// `Conflict`, with none of them applied.
    Finish(Result<(), ApiError>),
}

pub enum ActionModel {
    Execute(StatementModel),
    Commit,
    Rollback,
    Finish(bool),
}

impl View for TxAction {
    type V = ActionModel;

    open spec fn view(&self) -> ActionModel {
        match self {
            TxAction::Execute(s) => ActionModel::Execute(s@),
            TxAction::Commit => ActionModel::Commit,
            TxAction::Rollback => ActionModel::Rollback,
            TxAction::Finish(r) => ActionModel::Finish(r is Ok),
        }
    }
}

#[derive(Clone, Copy, Debug, PartialEq, Eq, Structural)]
pub enum Phase {
    /// Writing; the next write is at `pos`, and the commit follows the last.
    Running,
    /// A write failed; the transaction is to be rolled back.
    RollingBack,
    /// Done; `true` when the commit succeeded.
    Finished(bool),
}

pub struct SessionModel {
    pub plan: Seq<StatementModel>,
    pub pos: nat,
    pub phase: Phase,
}

/// The state of one transactional edit.
pub struct EditSession {
    plan: Vec<Statement>,
    pos: usize,
    phase: Phase,
}

impl View for EditSession {
    type V = SessionModel;

    closed spec fn view(&self) -> SessionModel {
        SessionModel { plan: self.plan@.map_values(|s: Statement| s@), pos: self.pos as nat, phase: self.phase }
    }
}

pub open spec fn initial(plan: Seq<StatementModel>) -> SessionModel {
    SessionModel { plan, pos: 0, phase: Phase::Running }
}

/// The action that the session asks for in state `s`.
pub open spec fn action_of(s: SessionModel) -> ActionModel {
    match s.phase {
        Phase::Running => if s.pos < s.plan.len() {
            ActionModel::Execute(s.plan[s.pos as int])
        } else {
            ActionModel::Commit
        },
        Phase::RollingBack => ActionModel::Rollback,
        Phase::Finished(ok) => ActionModel::Finish(ok),
    }
}

/// The state after the action of `s` succeeded or failed.
pub open spec fn advance_spec(s: SessionModel, succeeded: bool) -> SessionModel {
    match s.phase {
        Phase::Running => if s.pos < s.plan.len() {
            if succeeded {
                SessionModel { pos: s.pos + 1, ..s }
            } else {
                SessionModel { phase: Phase::RollingBack, ..s }
            }
        } else {
            SessionModel { phase: Phase::Finished(succeeded), ..s }
        },
        Phase::RollingBack => SessionModel { phase: Phase::Finished(false), ..s },
        Phase::Finished(_) => s,
    }
}

impl EditSession {
    pub closed spec fn wf(&self) -> bool {
        self.pos <= self.plan@.len()
    }

    /// Starts a session that performs `plan` in one transaction.
    pub fn new(plan: Vec<Statement>) -> (r: EditSession)
        ensures
            r.wf(),
            r@ == initial(plan@.map_values(|s: Statement| s@)),
    {
        EditSession { plan, pos: 0, phase: Phase::Running }
    }

    /// The action the caller performs next.
    pub fn action(&self) -> (r: TxAction)
        requires
            self.wf(),
        ensures
            r@ == action_of(self@),
    {
        match self.phase {
            Phase::Running => if self.pos < self.plan.len() {
                TxAction::Execute(self.plan[self.pos].duplicate())
            } else {
                TxAction::Commit
            },
            Phase::RollingBack => TxAction::Rollback,
            Phase::Finished(ok) => if ok {
                TxAction::Finish(Ok(()))
            } else {
                TxAction::Finish(Err(ApiError::Conflict))
            },
        }
    }

    /// Records whether the last action succeeded, and returns the next one.
    pub fn advance(&mut self, succeeded: bool) -> (r: TxAction)
        requires
            old(self).wf(),
        ensures
            final(self).wf(),
            final(self)@ == advance_spec(old(self)@, succeeded),
            r@ == action_of(final(self)@),
    {
        match self.phase {
            Phase::Running => {
                if self.pos < self.plan.len() {
                    if succeeded {
                        self.pos = self.pos + 1;
                    } else {
                        self.phase = Phase::RollingBack;
                    }
                } else {
                    self.phase = Phase::Finished(succeeded);
                }
            },
            Phase::RollingBack => {
                self.phase = Phase::Finished(false);
            },
            Phase::Finished(_) => {},
        }
        self.action()
    }

    /// Whether the edit is over.
    pub fn is_finished(&self) -> (r: bool)
        ensures
            r == (self@.phase is Finished),
    {
        match self.phase {
            Phase::Finished(_) => true,
            _ => false,
        }
    }
}

/// The car-garage associations as the store holds them: `committed` is what
/// other requests see, `staged` what the open transaction has written.
pub struct StoreModel {
    pub committed: Set<Link>,
    pub staged: Set<Link>,
}

/// The associations after the write `st`.
pub open spec fn apply_statement(links: Set<Link>, st: StatementModel) -> Set<Link> {
    match st {
        StatementModel::ClearCarGarages(car) => links.filter(|p: Link| p.0 != car),
        StatementModel::LinkCarGarage(car, garage) => links.insert((car, garage)),
        _ => links,
    }
}

/// The associations after the writes of `plan`, in order.
pub open spec fn apply_all(links: Set<Link>, plan: Seq<StatementModel>) -> Set<Link>
    decreases plan.len(),
{
    if plan.len() == 0 {
        links
    } else {
        apply_statement(apply_all(links, plan.drop_last()), plan.last())
    }
}

/// The store after the caller performs `a` with the given outcome. A failed
/// write changes nothing; a rollback discards what was staged; only a
/// successful commit changes what is committed.
pub open spec fn perform(store: StoreModel, a: ActionModel, succeeded: bool) -> StoreModel {
    match a {
        ActionModel::Execute(st) => if succeeded {
            StoreModel { committed: store.committed, staged: apply_statement(store.staged, st) }
        } else {
            store
        },
        ActionModel::Commit => if succeeded {
            StoreModel { committed: store.staged, staged: store.staged }
        } else {
            store
        },
        ActionModel::Rollback => StoreModel { committed: store.committed, staged: store.committed },
        ActionModel::Finish(_) => store,
    }
}

/// The store after the caller drives session `s`, the actions having the
/// successive outcomes `outcomes`.
pub open spec fn run(s: SessionModel, store: StoreModel, outcomes: Seq<bool>) -> StoreModel
    decreases outcomes.len(),
{
    if outcomes.len() == 0 {
        store
    } else {
        run(
            advance_spec(s, outcomes[0]),
            perform(store, action_of(s), outcomes[0]),
            outcomes.drop_first(),
        )
    }
}

/// The first `n` outcomes exist and are all successes.
pub open spec fn all_succeed(outcomes: Seq<bool>, n: nat) -> bool {
    outcomes.len() >= n && forall|i: int| 0 <= i < n ==> #[trigger] outcomes[i]
}

proof fn lemma_no_commit_after_failure(s: SessionModel, store: StoreModel, outcomes: Seq<bool>)
    requires
        s.phase !is Running,
    ensures
        run(s, store, outcomes).committed == store.committed,
    decreases outcomes.len(),
{
    if outcomes.len() > 0 {
        lemma_no_commit_after_failure(
            advance_spec(s, outcomes[0]),
            perform(store, action_of(s), outcomes[0]),
            outcomes.drop_first(),
        );
    }
}

proof fn lemma_run_from(
    prior: Set<Link>,
    plan: Seq<StatementModel>,
    k: nat,
    outcomes: Seq<bool>,
)
    requires
        k <= plan.len(),
    ensures
        run(
            SessionModel { plan, pos: k, phase: Phase::Running },
            StoreModel { committed: prior, staged: apply_all(prior, plan.take(k as int)) },
            outcomes,
        ).committed == if all_succeed(outcomes, (plan.len() + 1 - k) as nat) {
            apply_all(prior, plan)
        } else {
            prior
        },
    decreases outcomes.len(),
{
    let s = SessionModel { plan, pos: k, phase: Phase::Running };
    let store = StoreModel { committed: prior, staged: apply_all(prior, plan.take(k as int)) };
    let n = (plan.len() + 1 - k) as nat;
    if outcomes.len() == 0 {
        return;
    }
    let rest = outcomes.drop_first();
    let next = advance_spec(s, outcomes[0]);
    let after = perform(store, action_of(s), outcomes[0]);
    assert(all_succeed(outcomes, n) <==> outcomes[0] && all_succeed(rest, (n - 1) as nat)) by {
        if outcomes[0] && all_succeed(rest, (n - 1) as nat) {
            assert forall|i: int| 0 <= i < n implies #[trigger] outcomes[i] by {
                if i > 0 {
                    assert(outcomes[i] == rest[i - 1]);
                }
            }
        }
        if all_succeed(outcomes, n) {
            assert(outcomes[0]);
            assert forall|i: int| 0 <= i < n - 1 implies #[trigger] rest[i] by {
                assert(rest[i] == outcomes[i + 1]);
            }
        }
    }
    if k < plan.len() {
        if outcomes[0] {
            assert(plan.take(k + 1 as int).drop_last() =~= plan.take(k as int));
            lemma_run_from(prior, plan, k + 1, rest);
        } else {
            lemma_no_commit_after_failure(next, after, rest);
        }
    } else {
        assert(plan.take(k as int) =~= plan);
        lemma_no_commit_after_failure(next, after, rest);
    }
}

/// An edit is atomic: whatever the prior associations and whatever the
/// outcome of each step, the committed associations afterwards are those
/// after all of the plan's writes when every step succeeded, and the prior
/// ones otherwise.
pub proof fn lemma_edit_is_atomic(prior: Set<Link>, plan: Seq<StatementModel>, outcomes: Seq<bool>)
    ensures
        run(initial(plan), StoreModel { committed: prior, staged: prior }, outcomes).committed
            == if all_succeed(outcomes, plan.len() + 1) {
            apply_all(prior, plan)
        } else {
            prior
        },
{
    assert(plan.take(0) =~= Seq::<StatementModel>::empty());
    lemma_run_from(prior, plan, 0, outcomes);
}

/// `s` without repeated elements, keeping first occurrences in order.
pub open spec fn distinct(s: Seq<Seq<char>>) -> Seq<Seq<char>>
    decreases s.len(),
{
    if s.len() == 0 {
        Seq::empty()
    } else {
        let d = distinct(s.drop_last());
        if d.contains(s.last()) {
            d
        } else {
            d.push(s.last())
        }
    }
}

pub proof fn lemma_distinct(s: Seq<Seq<char>>)
    ensures
        distinct(s).no_duplicates(),
        forall|x: Seq<char>| distinct(s).contains(x) <==> s.contains(x),
    decreases s.len(),
{
    if s.len() > 0 {
        let p = s.drop_last();
        lemma_distinct(p);
        assert forall|x: Seq<char>| distinct(s).contains(x) <==> s.contains(x) by {
            if p.contains(x) {
                let i = choose|i: int| 0 <= i < p.len() && p[i] == x;
                assert(s[i] == x);
            }
            if s.contains(x) {
                let i = choose|i: int| 0 <= i < s.len() && s[i] == x;
                if i < p.len() {
                    assert(p[i] == x);
                } else {
                    assert(x == s.last());
                }
            }
            if !distinct(p).contains(s.last()) {
                let d = distinct(p).push(s.last());
                if d.contains(x) {
                    let i = choose|i: int| 0 <= i < d.len() && d[i] == x;
                    if i < distinct(p).len() {
                        assert(distinct(p)[i] == x);
                    }
                }
                if distinct(p).contains(x) {
                    let i = choose|i: int| 0 <= i < distinct(p).len() && distinct(p)[i] == x;
                    assert(d[i] == x);
                }
                assert(d[d.len() - 1] == s.last());
            }
        }
    }
}

/// The writes that replace car `car`'s columns and its garages with `garages`.
pub open spec fn car_edit_plan(car: Seq<char>, garages: Seq<Seq<char>>) -> Seq<StatementModel> {
    seq![StatementModel::UpdateCar(car), StatementModel::ClearCarGarages(car)] + garages.map_values(
        |g: Seq<char>| StatementModel::LinkCarGarage(car, g),
    )
}

/// The associations of `prior` with those of car `car` replaced by one with
/// each of `garages`.
pub open spec fn replaced(prior: Set<Link>, car: Seq<char>, garages: Seq<Seq<char>>) -> Set<Link> {
    Set::new(|p: Link| (prior.contains(p) && p.0 != car) || (p.0 == car && garages.contains(p.1)))
}

proof fn lemma_car_edit_writes(prior: Set<Link>, car: Seq<char>, garages: Seq<Seq<char>>, j: nat)
    requires
        j <= garages.len(),
    ensures
        apply_all(prior, car_edit_plan(car, garages).take(2 + j as int)) == replaced(
            prior,
            car,
            garages.take(j as int),
        ),
    decreases j,
{
    let plan = car_edit_plan(car, garages);
    if j == 0 {
        let first = plan.take(1);
        let both = plan.take(2);
        assert(first.drop_last() =~= Seq::<StatementModel>::empty());
        assert(first.last() == StatementModel::UpdateCar(car));
        assert(apply_all(prior, first.drop_last()) == prior);
        assert(apply_all(prior, first) == prior);
        assert(both.drop_last() =~= first);
        assert(both.last() == StatementModel::ClearCarGarages(car));
        assert(apply_all(prior, both) == prior.filter(|p: Link| p.0 != car));
        assert(apply_all(prior, both) =~= replaced(prior, car, garages.take(0)));
    } else {
        lemma_car_edit_writes(prior, car, garages, (j - 1) as nat);
        assert(plan.take(2 + j as int).drop_last() =~= plan.take(2 + j - 1));
        let g = garages[j - 1];
        assert(plan.take(2 + j as int).last() == StatementModel::LinkCarGarage(car, g));
        let before = garages.take(j - 1);
        let after = garages.take(j as int);
        assert forall|x: Seq<char>| after.contains(x) <==> before.contains(x) || x == g by {
            if after.contains(x) {
                let i = choose|i: int| 0 <= i < after.len() && after[i] == x;
                if i < j - 1 {
                    assert(before[i] == x);
                }
            }
            if before.contains(x) {
                let i = choose|i: int| 0 <= i < before.len() && before[i] == x;
                assert(after[i] == x);
            }
            assert(after[j - 1] == g);
        }
        assert(apply_all(prior, plan.take(2 + j as int)) =~= replaced(prior, car, after));
    }
}

/// Replacing a car's garages with `garages`: when every step succeeds the car
/// is associated with exactly the garages of `garages` and the associations
/// of other cars are untouched, whatever the prior associations; when any step
/// fails the prior associations stay as they were.
pub proof fn lemma_replace_car_garages(
    prior: Set<Link>,
    car: Seq<char>,
    garages: Seq<Seq<char>>,
    outcomes: Seq<bool>,
)
    ensures
        ({
            let plan = car_edit_plan(car, distinct(garages));
            let after = run(
                initial(plan),
                StoreModel { committed: prior, staged: prior },
                outcomes,
            ).committed;
            &&& all_succeed(outcomes, plan.len() + 1) ==> after == replaced(prior, car, garages)
            &&& !all_succeed(outcomes, plan.len() + 1) ==> after == prior
        }),
{
    let d = distinct(garages);
    let plan = car_edit_plan(car, d);
    lemma_edit_is_atomic(prior, plan, outcomes);
    lemma_car_edit_writes(prior, car, d, d.len());
    assert(plan.take(2 + d.len() as int) =~= plan);
    assert(d.take(d.len() as int) =~= d);
    lemma_distinct(garages);
    assert(replaced(prior, car, d) =~= replaced(prior, car, garages));
}

/// The garage ids of a car request, as text; none when absent.
pub open spec fn requested_garages(ids: Option<Vec<String>>) -> Seq<Seq<char>> {
    match ids {
        Some(v) => v@.map_values(|g: String| g@),
        None => Seq::empty(),
    }
}

/// The requested garage ids without repetitions, first occurrences first.
pub fn distinct_garage_ids(ids: &Option<Vec<String>>) -> (r: Vec<String>)
    ensures
        r@.map_values(|g: String| g@) == distinct(requested_garages(*ids)),
{
    let mut out: Vec<String> = Vec::new();
    let ids = match ids {
        Some(v) => v,
        None => {
            assert(out@.map_values(|g: String| g@) =~= Seq::<Seq<char>>::empty());
            return out;
        },
    };
    let ghost all = ids@.map_values(|g: String| g@);
    let mut i: usize = 0;
    while i < ids.len()
        invariant
            i <= ids@.len(),
            all == ids@.map_values(|g: String| g@),
            out@.map_values(|g: String| g@) == distinct(all.take(i as int)),
        decreases ids@.len() - i,
    {
        let ghost seen = out@.map_values(|g: String| g@);
        assert(all.take(i + 1).drop_last() =~= all.take(i as int));
        assert(all.take(i + 1).last() == ids@[i as int]@);
        let mut found = false;
        let mut j: usize = 0;
        while j < out.len()
            invariant
                j <= out@.len(),
                seen == out@.map_values(|g: String| g@),
                i < ids@.len(),
                found <==> exists|k: int| 0 <= k < j && seen[k] == ids@[i as int]@,
            decreases out@.len() - j,
        {
            assert(seen[j as int] == out@[j as int]@);
            if out[j] == ids[i] {
                found = true;
            }
            j = j + 1;
        }
        assert(found <==> seen.contains(ids@[i as int]@));
        if !found {
            out.push(ids[i].clone());
            assert(out@.map_values(|g: String| g@) =~= seen.push(ids@[i as int]@));
        }
        i = i + 1;
    }
    assert(all.take(ids@.len() as int) =~= all);
    out
}

/// The session that replaces car `car_id`'s columns and its garage
/// associations with those of `req`, in one transaction. Repeated garage ids
/// are associated once.
pub fn edit_car(car_id: &String, req: &CreateCarRequest) -> (r: EditSession)
    ensures
        r.wf(),
        r@ == initial(car_edit_plan(car_id@, distinct(requested_garages(req.garage_ids)))),
{
    let garages = distinct_garage_ids(&req.garage_ids);
    let ghost gs = garages@.map_values(|g: String| g@);
    let mut plan: Vec<Statement> = Vec::new();
    plan.push(Statement::UpdateCar(car_id.clone()));
    plan.push(Statement::ClearCarGarages(car_id.clone()));
    let mut i: usize = 0;
    while i < garages.len()
        invariant
            i <= garages@.len(),
            gs == garages@.map_values(|g: String| g@),
            plan@.map_values(|s: Statement| s@) == car_edit_plan(car_id@, gs.take(i as int)),
        decreases garages@.len() - i,
    {
        let ghost before = plan@.map_values(|s: Statement| s@);
        plan.push(Statement::LinkCarGarage(car_id.clone(), garages[i].clone()));
        assert(plan@.map_values(|s: Statement| s@) =~= before.push(
            StatementModel::LinkCarGarage(car_id@, gs[i as int]),
        ));
        assert(car_edit_plan(car_id@, gs.take(i + 1)) =~= car_edit_plan(car_id@, gs.take(i as int)).push(
            StatementModel::LinkCarGarage(car_id@, gs[i as int]),
        ));
        i = i + 1;
    }
    assert(gs.take(garages@.len() as int) =~= gs);
    EditSession::new(plan)
}

/// The session that updates maintenance record `id` in one transaction.
pub fn edit_maintenance(id: &String) -> (r: EditSession)
    ensures
        r.wf(),
        r@ == initial(seq![StatementModel::UpdateMaintenance(id@)]),
{
    let mut plan: Vec<Statement> = Vec::new();
    plan.push(Statement::UpdateMaintenance(id.clone()));
    assert(plan@.map_values(|s: Statement| s@) =~= seq![StatementModel::UpdateMaintenance(id@)]);
    EditSession::new(plan)
}

} // verus!
