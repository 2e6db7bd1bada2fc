use book_order::settings::{check_settings, SettingsError};
use book_order::updates_processor::{
    apply_update, init_step, pick_action, snapshot_is_fresh, Applied, InitStep, PickAction,
};
use book_order::updates_provider::{ConnectOutcome, ConnectPlan};
use book_order::{
    BookError, BookOrder, DepthUpdate, DepthUpdateError, JsonField, RawLevel, Snapshot, UpdateData,
};

fn data(first: u64, last: u64, bids: Vec<RawLevel>) -> UpdateData {
    UpdateData {
        first_update_id: JsonField::Present(first),
        last_update_id: JsonField::Present(last),
        bids: JsonField::Present(bids),
        asks: JsonField::Present(vec![]),
    }
}

fn depth(first: u64, last: u64, bids: Vec<RawLevel>) -> DepthUpdate {
    DepthUpdate::from_message(data(first, last, bids)).unwrap()
}

fn snap(id: JsonField<u64>, bids: Vec<RawLevel>) -> Snapshot {
    Snapshot { bids: JsonField::Present(bids), asks: JsonField::Present(vec![]), last_update_id: id }
}

fn level(price: i64, volume: i64) -> RawLevel {
    RawLevel::Level { price, volume }
}

#[test]
fn from_message_needs_both_ids() {
    let d = DepthUpdate::from_message(data(3, 9, vec![])).unwrap();
    assert_eq!((d.first_update_id, d.last_update_id), (3, 9));
    let mut m = data(3, 9, vec![]);
    m.first_update_id = JsonField::Missing;
    assert!(DepthUpdate::from_message(m).is_none());
    let mut m = data(3, 9, vec![]);
    m.last_update_id = JsonField::Invalid;
    assert!(DepthUpdate::from_message(m).is_none());
}

#[test]
fn apply_update_results() {
    let base = BookOrder::new("X", &snap(JsonField::Present(10), vec![level(1, 1)])).unwrap();

    let mut book = base.clone();
    assert_eq!(
        apply_update(&mut book, &depth(11, 12, vec![level(2, 2)])),
        Ok(Applied { book_id: 12, passed_over_malformed: false })
    );
    assert_eq!(book.bids().len(), 2);

    let mut book = base.clone();
    let mut malformed = depth(11, 12, vec![]);
    malformed.value.bids = JsonField::Missing;
    assert_eq!(
        apply_update(&mut book, &malformed),
        Ok(Applied { book_id: 10, passed_over_malformed: true })
    );

    let mut book = base.clone();
    assert_eq!(
        apply_update(&mut book, &depth(20, 21, vec![])),
        Err(BookError::Update(DepthUpdateError::InvalidBook))
    );
    assert_eq!(book.last_update_id(), 10);
    assert_eq!(book.bids(), base.bids());

    let mut book = base.clone();
    assert_eq!(
        apply_update(&mut book, &depth(11, 12, vec![RawLevel::Malformed])),
        Err(BookError::BadLevel)
    );
    assert_eq!(book.bids(), base.bids());

    let mut book = base.clone();
    assert_eq!(
        apply_update(&mut book, &depth(5, 9, vec![level(1, 0)])),
        Ok(Applied { book_id: 10, passed_over_malformed: false })
    );
    assert_eq!(book.bids().len(), 1);
}

/// Drains a queue as the processor does: each queued update is weighed
/// against the held one, then the held one is folded in.
fn drain(book: &mut BookOrder, first: DepthUpdate, queue: Vec<DepthUpdate>) -> Result<u64, BookError> {
    let mut current = book.last_update_id();
    let mut latest = first;
    for next in queue {
        match pick_action(&latest, current, &next) {
            PickAction::ApplyLatestThenHoldNext => {
                current = apply_update(book, &latest)?.book_id;
                latest = next;
            }
            PickAction::HoldNext => latest = next,
            PickAction::KeepLatest => {}
        }
    }
    Ok(apply_update(book, &latest)?.book_id)
}

#[test]
fn gapless_queue_folds_only_the_freshest() {
    let mut book = BookOrder::new("X", &snap(JsonField::Present(10), vec![])).unwrap();
    let queue = vec![
        depth(11, 13, vec![level(2, 2)]),
        depth(9, 15, vec![level(3, 3)]),
        depth(11, 14, vec![level(4, 4)]),
    ];
    assert_eq!(drain(&mut book, depth(11, 12, vec![level(1, 1)]), queue), Ok(15));
    assert_eq!(book.bids().len(), 1);
    assert_eq!(book.bids().get(&3), Some(&3));
}

#[test]
fn pick_action_choices() {
    let latest = depth(10, 15, vec![]);
    assert_eq!(pick_action(&latest, 9, &depth(11, 20, vec![])), PickAction::ApplyLatestThenHoldNext);
    assert_eq!(pick_action(&latest, 9, &depth(10, 20, vec![])), PickAction::HoldNext);
    assert_eq!(pick_action(&latest, 9, &depth(8, 15, vec![])), PickAction::KeepLatest);
    assert_eq!(pick_action(&latest, 9, &depth(8, 12, vec![])), PickAction::KeepLatest);
}

#[test]
fn init_step_outcomes() {
    let first = depth(10, 12, vec![level(5, 5)]);
    assert!(matches!(
        init_step("X", &snap(JsonField::Missing, vec![]), &first),
        InitStep::NoUpdateId
    ));
    assert!(matches!(
        init_step("X", &snap(JsonField::Invalid, vec![]), &first),
        InitStep::NoUpdateId
    ));
    assert!(matches!(
        init_step("X", &snap(JsonField::Present(9), vec![]), &first),
        InitStep::Stale
    ));
    assert!(!snapshot_is_fresh(&snap(JsonField::Present(9), vec![]), &first));
    assert!(snapshot_is_fresh(&snap(JsonField::Present(10), vec![]), &first));
    assert!(matches!(
        init_step("X", &snap(JsonField::Present(10), vec![RawLevel::Overflow]), &first),
        InitStep::Failed(BookError::ValueOverflow)
    ));
    match init_step("X", &snap(JsonField::Present(11), vec![level(1, 1)]), &first) {
        InitStep::Ready(book, res) => {
            assert_eq!(res, Ok(()));
            assert_eq!(book.last_update_id(), 12);
            assert_eq!(book.bids().len(), 2);
            assert_eq!(book.symbol(), "X");
        }
        _ => panic!("expected a book"),
    }
    let gap_first = depth(20, 22, vec![]);
    match init_step("X", &snap(JsonField::Present(20), vec![]), &depth(20, 22, vec![])) {
        InitStep::Ready(book, res) => {
            assert_eq!(res, Ok(()));
            assert_eq!(book.last_update_id(), 22);
        }
        _ => panic!("expected a book"),
    }
    let _ = gap_first;
}

#[test]
fn connect_plan_all_streams() {
    let mut plan = ConnectPlan::new(3);
    let mut attempts = 0;
    while plan.should_connect() {
        attempts += 1;
        plan.record_success();
    }
    assert_eq!(attempts, 3);
    assert_eq!(plan.outcome(), ConnectOutcome::Complete);
}

#[test]
fn connect_plan_gives_up_after_retries() {
    let mut plan = ConnectPlan::new(3);
    let mut attempts = 0;
    while plan.should_connect() {
        attempts += 1;
        if attempts == 2 {
            plan.record_success();
        } else {
            plan.record_failure();
        }
    }
    assert_eq!(attempts, 6);
    assert_eq!(plan.established(), 1);
    assert_eq!(plan.outcome(), ConnectOutcome::Partial { established: 1 });

    let mut none = ConnectPlan::new(2);
    let mut attempts = 0;
    while none.should_connect() {
        attempts += 1;
        none.record_failure();
    }
    assert_eq!(attempts, 5);
    assert_eq!(none.outcome(), ConnectOutcome::NoConnections);
    assert_eq!(ConnectPlan::new(0).outcome(), ConnectOutcome::NoConnections);
}

#[test]
fn settings_limits() {
    assert_eq!(check_settings(3, 5000), Ok(()));
    assert_eq!(check_settings(4, 100), Err(SettingsError::TooManyStreams));
    assert_eq!(check_settings(4, 6000), Err(SettingsError::TooManyStreams));
    assert_eq!(check_settings(1, 5001), Err(SettingsError::LimitTooBig));
    assert_eq!(SettingsError::TooManyStreams.message(), "To many streams. Max 3");
    assert_eq!(SettingsError::LimitTooBig.message(), "Limit is too big. Max 5000");
}

#[test]
fn interleaved_copies_fold_each_event_once() {
    let e1 = depth(11, 11, vec![level(1, 1), level(2, 2)]);
    let e2 = depth(12, 13, vec![level(1, 0), level(3, 3)]);
    let e3 = depth(14, 14, vec![level(2, 5)]);
    let arrivals = vec![e1.clone(), e2.clone(), e1.clone(), e3.clone(), e2.clone(), e3.clone()];

    let base = BookOrder::new("X", &snap(JsonField::Present(10), vec![level(7, 7)])).unwrap();
    let mut in_turn = base.clone();
    for u in &arrivals {
        assert_eq!(in_turn.depth_update(&u.value), Ok(()));
    }

    let mut drained = base.clone();
    let first = arrivals[0].clone();
    let queue = arrivals[1..].to_vec();
    assert_eq!(drain(&mut drained, first, queue), Ok(14));
    assert_eq!(drained.bids(), in_turn.bids());
    assert_eq!(drained.last_update_id(), in_turn.last_update_id());
    assert_eq!(drained.bids().get(&2), Some(&5));
    assert_eq!(drained.bids().get(&1), None);
}
