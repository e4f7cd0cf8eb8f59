use garage_backend::car::CreateCarRequest;
use garage_backend::error::{deletion_outcome, ApiError};
use garage_backend::garage::{create_garage, edit_garage, CreateGarageRequest, EditGarageRequest, Garage};
use garage_backend::maintenance::{update_maintenance, Maintenance, UpdateMaintenanceDTO};
use garage_backend::transaction::{
    distinct_garage_ids, edit_car, edit_maintenance, EditSession, Statement, TxAction,
};
use std::collections::BTreeSet;

fn car_request(ids: Option<Vec<&str>>) -> CreateCarRequest {
    CreateCarRequest {
        make: "Fiat".to_string(),
        model: "Panda".to_string(),
        production_year: 2012,
        license_plate: "AB-123".to_string(),
        garage_ids: ids.map(|v| v.into_iter().map(|s| s.to_string()).collect()),
    }
}

/// Drives a session against an in-memory association table with
/// transactional semantics; `fail_at` is the step whose action fails.
fn drive(
    mut session: EditSession,
    prior: &BTreeSet<(String, String)>,
    fail_at: Option<usize>,
) -> (BTreeSet<(String, String)>, Result<(), ApiError>, usize) {
    let mut committed = prior.clone();
    let mut staged = prior.clone();
    let mut action = session.action();
    let mut step = 0usize;
    loop {
        let ok = fail_at != Some(step);
        match action {
            TxAction::Execute(st) => {
                if ok {
                    match st {
                        Statement::ClearCarGarages(car) => staged.retain(|p| p.0 != car),
                        Statement::LinkCarGarage(car, g) => {
                            staged.insert((car, g));
                        }
                        _ => {}
                    }
                }
            }
            TxAction::Commit => {
                if ok {
                    committed = staged.clone();
                }
            }
            TxAction::Rollback => staged = committed.clone(),
            TxAction::Finish(r) => return (committed, r, step),
        }
        action = session.advance(ok);
        step += 1;
    }
}

fn links(pairs: &[(&str, &str)]) -> BTreeSet<(String, String)> {
    pairs.iter().map(|(c, g)| (c.to_string(), g.to_string())).collect()
}

#[test]
fn edit_car_replaces_garages() {
    let prior = links(&[("1", "10"), ("1", "11"), ("2", "10")]);
    let session = edit_car(&"1".to_string(), &car_request(Some(vec!["11", "12"])));
    let (after, r, _) = drive(session, &prior, None);
    assert_eq!(r, Ok(()));
    assert_eq!(after, links(&[("1", "11"), ("1", "12"), ("2", "10")]));
}

#[test]
fn edit_car_with_no_garages_clears_them() {
    let prior = links(&[("1", "10"), ("2", "10")]);
    let (after, r, _) = drive(edit_car(&"1".to_string(), &car_request(None)), &prior, None);
    assert_eq!(r, Ok(()));
    assert_eq!(after, links(&[("2", "10")]));
    let (after, r, _) =
        drive(edit_car(&"1".to_string(), &car_request(Some(vec![]))), &prior, None);
    assert_eq!(r, Ok(()));
    assert_eq!(after, links(&[("2", "10")]));
}

#[test]
fn edit_car_failure_keeps_prior_garages() {
    let prior = links(&[("1", "10"), ("2", "10")]);
    // steps: update, clear, link 11, link 12, commit
    for fail in 0..5 {
        let session = edit_car(&"1".to_string(), &car_request(Some(vec!["11", "12"])));
        let (after, r, _) = drive(session, &prior, Some(fail));
        assert_eq!(r, Err(ApiError::Conflict));
        assert_eq!(after, prior);
    }
}

#[test]
fn edit_car_failure_rolls_back_before_finishing() {
    let mut session = edit_car(&"1".to_string(), &car_request(Some(vec!["11"])));
    assert!(matches!(session.action(), TxAction::Execute(Statement::UpdateCar(ref c)) if c == "1"));
    assert!(matches!(session.advance(true), TxAction::Execute(Statement::ClearCarGarages(ref c)) if c == "1"));
    assert!(matches!(session.advance(false), TxAction::Rollback));
    assert!(!session.is_finished());
    assert!(matches!(session.advance(true), TxAction::Finish(Err(ApiError::Conflict))));
    assert!(session.is_finished());
}

#[test]
fn edit_car_links_repeated_garage_once() {
    let mut session = edit_car(&"5".to_string(), &car_request(Some(vec!["3", "4", "3"])));
    let mut linked = Vec::new();
    let mut action = session.action();
    loop {
        match action {
            TxAction::Execute(Statement::LinkCarGarage(c, g)) => {
                assert_eq!(c, "5");
                linked.push(g);
            }
            TxAction::Finish(r) => {
                assert_eq!(r, Ok(()));
                break;
            }
            _ => {}
        }
        action = session.advance(true);
    }
    assert_eq!(linked, vec!["3".to_string(), "4".to_string()]);
}

#[test]
fn distinct_ids_keep_first_occurrences() {
    let ids = Some(vec!["b".to_string(), "a".to_string(), "b".to_string(), "c".to_string(), "a".to_string()]);
    assert_eq!(distinct_garage_ids(&ids), vec!["b", "a", "c"]);
    assert!(distinct_garage_ids(&None).is_empty());
}

#[test]
fn edit_maintenance_commits_or_reports_conflict() {
    let mut session = edit_maintenance(&"8".to_string());
    assert!(matches!(session.action(), TxAction::Execute(Statement::UpdateMaintenance(ref m)) if m == "8"));
    assert!(matches!(session.advance(true), TxAction::Commit));
    assert!(matches!(session.advance(true), TxAction::Finish(Ok(()))));
    let mut session = edit_maintenance(&"8".to_string());
    assert!(matches!(session.advance(true), TxAction::Commit));
    assert!(matches!(session.advance(false), TxAction::Finish(Err(ApiError::Conflict))));
}

#[test]
fn garage_edit_keeps_absent_fields() {
    let g = Garage {
        id: 3,
        name: "North".to_string(),
        location: "Elm 2".to_string(),
        city: "Oslo".to_string(),
        capacity: 4,
    };
    let req = EditGarageRequest { name: Some("South".to_string()), location: None, city: None, capacity: Some(6) };
    let e = edit_garage(&g, &req);
    assert_eq!((e.id, e.name.as_str(), e.location.as_str(), e.city.as_str(), e.capacity), (3, "South", "Elm 2", "Oslo", 6));
    let c = create_garage(
        11,
        &CreateGarageRequest { name: "West".to_string(), location: "Oak 9".to_string(), city: "Rome".to_string(), capacity: 2 },
    );
    assert_eq!((c.id, c.name.as_str(), c.location.as_str(), c.city.as_str(), c.capacity), (11, "West", "Oak 9", "Rome", 2));
}

#[test]
fn maintenance_update_keeps_absent_fields() {
    let m = Maintenance {
        id: 1,
        car_id: "2".to_string(),
        garage_id: "3".to_string(),
        service_type: "tyres".to_string(),
        scheduled_date: "2024-01-01".to_string(),
    };
    let upd = UpdateMaintenanceDTO {
        car_id: None,
        garage_id: "4".to_string(),
        service_type: Some("brakes".to_string()),
        scheduled_date: None,
    };
    let r = update_maintenance(&m, &upd);
    assert_eq!(
        (r.id, r.car_id.as_str(), r.garage_id.as_str(), r.service_type.as_str(), r.scheduled_date.as_str()),
        (1, "2", "4", "brakes", "2024-01-01")
    );
}

#[test]
fn deleting_nothing_is_not_found() {
    assert_eq!(deletion_outcome(0), Err(ApiError::NotFound));
    assert_eq!(deletion_outcome(1), Ok(()));
    assert_eq!(deletion_outcome(3), Ok(()));
}
