use book_order::{BookError, BookOrder, DepthUpdateError, JsonField, RawLevel, Snapshot, UpdateData};
use std::collections::BTreeMap;

/// The fixed-point form of a decimal string (value times 10^8), as the
/// wire format is read.
fn px(s: &str) -> i64 {
    (s.parse::<f64>().unwrap() * 100_000_000f64).round() as i64
}

fn lv(price: &str, volume: &str) -> RawLevel {
    RawLevel::Level { price: px(price), volume: px(volume) }
}

fn snapshot(bids: Vec<RawLevel>, asks: Vec<RawLevel>, id: u64) -> Snapshot {
    Snapshot {
        bids: JsonField::Present(bids),
        asks: JsonField::Present(asks),
        last_update_id: JsonField::Present(id),
    }
}

fn update(first: u64, last: u64, bids: Vec<RawLevel>, asks: Vec<RawLevel>) -> UpdateData {
    UpdateData {
        first_update_id: JsonField::Present(first),
        last_update_id: JsonField::Present(last),
        bids: JsonField::Present(bids),
        asks: JsonField::Present(asks),
    }
}

fn ladder(levels: &[(&str, &str)]) -> BTreeMap<i64, i64> {
    let mut m = BTreeMap::new();
    for (p, v) in levels {
        m.insert(px(p), px(v));
    }
    m
}

fn big_snapshot(id: u64) -> Snapshot {
    snapshot(
        vec![
            lv("94729.47000000", "5.39833000"),
            lv("94729.46000000", "0.00030000"),
            lv("94729.41000000", "0.00006000"),
        ],
        vec![
            lv("94729.48000000", "4.30144000"),
            lv("94729.49000000", "0.00197000"),
            lv("94730.20000000", "0.00006000"),
            lv("94730.49000000", "0.00006000"),
        ],
        id,
    )
}

#[test]
fn test_book_order_from_snapshot() {
    let expected_update_id = 67621829690 as u64;
    let expected_bids = ladder(&[
        ("94729.47000000", "5.39833000"),
        ("94729.46000000", "0.00030000"),
        ("94729.41000000", "0.00006000"),
    ]);
    let expected_asks = ladder(&[
        ("94729.48000000", "4.30144000"),
        ("94729.49000000", "0.00197000"),
        ("94730.20000000", "0.00006000"),
        ("94730.49000000", "0.00006000"),
    ]);
    let book = BookOrder::new("BTCUSDT", &big_snapshot(67621829690))
        .expect("Failed to create book from snapshot");
    assert_eq!(expected_update_id, book.last_update_id());
    assert_eq!(&expected_asks, book.asks());
    assert_eq!(&expected_bids, book.bids());
    assert_eq!("BTCUSDT", book.symbol());
}

#[test]
fn test_book_order_update_succeed() {
    let upd = update(
        4,
        6,
        vec![lv("94729.47000000", "10.00"), lv("94725.00000000", "15.00")],
        vec![lv("94730.20000000", "100.00"), lv("94731.20000000", "1.0")],
    );
    let expected_bids = ladder(&[
        ("94729.47000000", "10.0"),
        ("94729.46000000", "0.00030000"),
        ("94729.41000000", "0.00006000"),
        ("94725.00000000", "15.00"),
    ]);
    let expected_asks = ladder(&[
        ("94729.48000000", "4.30144000"),
        ("94729.49000000", "0.00197000"),
        ("94730.20000000", "100.0"),
        ("94730.49000000", "0.00006000"),
        ("94731.20000000", "1.0"),
    ]);
    let mut book =
        BookOrder::new("BTCUSDT", &big_snapshot(5)).expect("Failed to create book from snapshot");
    book.depth_update(&upd).expect("Failed to update");
    assert_eq!(&expected_asks, book.asks());
    assert_eq!(&expected_bids, book.bids());
}

#[test]
fn test_book_order_ignore_stale_update() {
    let snap = snapshot(
        vec![lv("94729.47000000", "5.39833000")],
        vec![lv("94729.48000000", "4.30144000")],
        5,
    );
    let upd = update(
        3,
        4,
        vec![lv("94729.47000000", "10.00")],
        vec![lv("94730.20000000", "100.00")],
    );
    let expected_bids = ladder(&[("94729.47000000", "5.39833000")]);
    let expected_asks = ladder(&[("94729.48000000", "4.30144000")]);
    let mut book = BookOrder::new("BTCUSDT", &snap).expect("Failed to create book from snapshot");
    let result = book.depth_update(&upd);
    assert!(result.is_ok());
    assert_eq!(&expected_asks, book.asks());
    assert_eq!(&expected_bids, book.bids());
}

#[test]
fn test_book_order_remove_level() {
    let snap = snapshot(
        vec![lv("94729.47000000", "5.39833000"), lv("94730.00000000", "5.39833000")],
        vec![lv("94729.47000000", "4.30144000"), lv("94729.48000000", "4.30144000")],
        5,
    );
    let upd = update(
        3,
        6,
        vec![lv("94730.00000000", "0.0")],
        vec![lv("94729.47000000", "0.00")],
    );
    let expected_bids = ladder(&[("94729.47000000", "5.39833000")]);
    let expected_asks = ladder(&[("94729.48000000", "4.30144000")]);
    let mut book = BookOrder::new("BTCUSDT", &snap).expect("Failed to create book from snapshot");
    let result = book.depth_update(&upd);
    assert!(result.is_ok());
    assert_eq!(&expected_asks, book.asks());
    assert_eq!(&expected_bids, book.bids());
}

/// The printed form of a book, as the tracker prints it.
fn render(book: &BookOrder) -> String {
    let cell = |v: i64| format!("{}", (v as f64) / 100_000_000f64);
    let mut out = format!(
        "Symbol {}    Book last update id: {}\n",
        book.symbol(),
        book.last_update_id()
    );
    let header = format!(
        "{:<15}{:<15}  |  {:<15}{:<15}",
        "BID_PRICE", "BID_VOLUME", "ASK_PRICE", "ASK_VOLUME"
    );
    out += &format!("{}\n{}\n", header, "=".repeat(header.len()));
    for row in book.book_rows() {
        let (bp, bv) = row.bid.map(|(p, v)| (cell(p), cell(v))).unwrap_or_default();
        let (ap, av) = row.ask.map(|(p, v)| (cell(p), cell(v))).unwrap_or_default();
        out += &format!("{:<15}{:<15}  |  {:<15}{:<15}\n", bp, bv, ap, av);
    }
    out
}

#[test]
fn test_book_order_print() {
    let expected_string = String::from("Symbol BTCUSDT    Book last update id: 67621829690\n")
        + "BID_PRICE      BID_VOLUME       |  ASK_PRICE      ASK_VOLUME     \n"
        + "=================================================================\n"
        + "94729.47       5.39833          |  94729.48       4.30144        \n"
        + "94729.46       0.0003           |  94729.49       0.00197        \n"
        + "94729.41       0.00006          |  94730.2        0.00006        \n"
        + "                                |  94730.49       0.00006        \n";
    let book = BookOrder::new("BTCUSDT", &big_snapshot(67621829690))
        .expect("Failed to create book from snapshot");
    let output = render(&book);
    assert_eq!(expected_string, output);
}

#[test]
fn book_rows_pair_best_bid_with_best_ask() {
    let book = BookOrder::new("BTCUSDT", &big_snapshot(1)).unwrap();
    let rows = book.book_rows();
    assert_eq!(rows.len(), 4);
    assert_eq!(rows[0].bid, Some((px("94729.47"), px("5.39833"))));
    assert_eq!(rows[0].ask, Some((px("94729.48"), px("4.30144"))));
    assert_eq!(rows[2].bid, Some((px("94729.41"), px("0.00006"))));
    assert_eq!(rows[3].bid, None);
    assert_eq!(rows[3].ask, Some((px("94730.49"), px("0.00006"))));
}

#[test]
fn book_rows_of_empty_book() {
    let book = BookOrder::new("X", &snapshot(vec![], vec![], 1)).unwrap();
    assert!(book.book_rows().is_empty());
}

#[test]
fn snapshot_field_errors() {
    let full = big_snapshot(5);
    let mut s = full.clone();
    s.bids = JsonField::Missing;
    assert_eq!(BookOrder::new("X", &s).unwrap_err(), BookError::MissingBids);
    let mut s = full.clone();
    s.asks = JsonField::Missing;
    assert_eq!(BookOrder::new("X", &s).unwrap_err(), BookError::MissingAsks);
    let mut s = full.clone();
    s.last_update_id = JsonField::Missing;
    assert_eq!(BookOrder::new("X", &s).unwrap_err(), BookError::MissingLastUpdateId);
    let mut s = full.clone();
    s.last_update_id = JsonField::Invalid;
    assert_eq!(BookOrder::new("X", &s).unwrap_err(), BookError::LastUpdateIdNotU64);
    let mut s = full.clone();
    s.asks = JsonField::Invalid;
    assert_eq!(BookOrder::new("X", &s).unwrap_err(), BookError::OrdersNotArray);
    let mut s = full.clone();
    s.bids = JsonField::Present(vec![lv("1", "1"), RawLevel::Malformed, RawLevel::Overflow]);
    assert_eq!(BookOrder::new("X", &s).unwrap_err(), BookError::BadLevel);
    let mut s = full.clone();
    s.asks = JsonField::Present(vec![RawLevel::Overflow]);
    assert_eq!(BookOrder::new("X", &s).unwrap_err(), BookError::ValueOverflow);
}

#[test]
fn snapshot_duplicate_price_is_detected() {
    let dup = snapshot(vec![lv("1", "1"), lv("1", "2")], vec![], 5);
    assert!(BookOrder::snapshot_has_duplicate_price(&dup));
    assert!(!BookOrder::snapshot_has_duplicate_price(&big_snapshot(5)));
    // An error before the duplicate ends the build first.
    let err_first = snapshot(vec![lv("1", "1"), RawLevel::Malformed, lv("1", "2")], vec![], 5);
    assert!(!BookOrder::snapshot_has_duplicate_price(&err_first));
    // Zero volumes are kept in a snapshot.
    let zero = BookOrder::new("X", &snapshot(vec![lv("1", "0")], vec![], 5)).unwrap();
    assert_eq!(zero.bids().get(&px("1")), Some(&0));
}

#[test]
fn update_field_errors_leave_book_unchanged() {
    let base = BookOrder::new("X", &big_snapshot(5)).unwrap();
    let good = update(6, 7, vec![lv("1", "1")], vec![]);
    let cases: Vec<(UpdateData, BookError)> = vec![
        (UpdateData { last_update_id: JsonField::Missing, ..good.clone() },
            BookError::Update(DepthUpdateError::ParsingError)),
        (UpdateData { last_update_id: JsonField::Invalid, ..good.clone() },
            BookError::Update(DepthUpdateError::ParsingError)),
        (UpdateData { first_update_id: JsonField::Missing, ..good.clone() },
            BookError::Update(DepthUpdateError::ParsingError)),
        (UpdateData { bids: JsonField::Invalid, ..good.clone() },
            BookError::Update(DepthUpdateError::ParsingError)),
        (UpdateData { asks: JsonField::Missing, ..good.clone() },
            BookError::Update(DepthUpdateError::ParsingError)),
        (update(7, 8, vec![], vec![]), BookError::Update(DepthUpdateError::InvalidBook)),
        (update(6, 7, vec![lv("1", "1"), RawLevel::Malformed], vec![]), BookError::BadLevel),
        (update(6, 7, vec![RawLevel::Malformed], vec![RawLevel::Overflow]), BookError::ValueOverflow),
    ];
    for (upd, err) in cases {
        let mut book = base.clone();
        assert_eq!(book.depth_update(&upd), Err(err));
        assert_eq!(book.bids(), base.bids());
        assert_eq!(book.asks(), base.asks());
        assert_eq!(book.last_update_id(), 5);
    }
}

#[test]
fn stale_update_needs_no_other_field() {
    let mut book = BookOrder::new("X", &big_snapshot(5)).unwrap();
    let upd = UpdateData {
        first_update_id: JsonField::Missing,
        last_update_id: JsonField::Present(5),
        bids: JsonField::Missing,
        asks: JsonField::Missing,
    };
    assert_eq!(book.depth_update(&upd), Ok(()));
    assert_eq!(book.last_update_id(), 5);
}

#[test]
fn update_sets_last_update_id() {
    let mut book = BookOrder::new("X", &big_snapshot(5)).unwrap();
    assert_eq!(book.depth_update(&update(6, 9, vec![], vec![])), Ok(()));
    assert_eq!(book.last_update_id(), 9);
}

#[test]
fn same_update_twice_is_same_as_once() {
    let upd = update(4, 6, vec![lv("94729.47", "1"), lv("3", "0")], vec![lv("94730.2", "0")]);
    let mut once = BookOrder::new("X", &big_snapshot(5)).unwrap();
    let r1 = once.depth_update(&upd);
    let mut twice = once.clone();
    let r2 = twice.depth_update(&upd);
    assert_eq!(r1, r2);
    assert_eq!(once.bids(), twice.bids());
    assert_eq!(once.asks(), twice.asks());
    assert_eq!(once.last_update_id(), twice.last_update_id());
}

#[test]
fn last_change_at_a_price_wins() {
    let mut book = BookOrder::new("X", &big_snapshot(5)).unwrap();
    let upd = update(
        6,
        7,
        vec![lv("10", "1"), lv("10", "2"), lv("94729.47", "3"), lv("94729.47", "0")],
        vec![],
    );
    book.depth_update(&upd).unwrap();
    assert_eq!(book.bids().get(&px("10")), Some(&px("2")));
    assert_eq!(book.bids().get(&px("94729.47")), None);
    assert_eq!(book.bids().get(&px("94729.46")), Some(&px("0.0003")));
}

#[test]
fn error_messages() {
    assert_eq!(DepthUpdateError::ParsingError.message(), "Failed to parse update");
    assert_eq!(
        DepthUpdateError::InvalidBook.message(),
        "Invalid book state. Book update required"
    );
    assert_eq!(BookError::MissingBids.message(), "No 'bids' field in snapshot");
    assert_eq!(BookError::OrdersNotArray.message(), "Failed to parse orders");
    assert_eq!(BookError::BadLevel.message(), "Failed to parse price or volume from json");
    assert_eq!(
        BookError::Update(DepthUpdateError::InvalidBook).message(),
        "Invalid book state. Book update required"
    );
}

#[test]
fn successive_updates_compose() {
    let a = vec![lv("10", "1"), lv("94729.47", "0")];
    let b = vec![lv("10", "3"), lv("11", "4")];
    let mut in_turn = BookOrder::new("X", &big_snapshot(5)).unwrap();
    in_turn.depth_update(&update(6, 6, a.clone(), vec![])).unwrap();
    in_turn.depth_update(&update(7, 7, b.clone(), vec![])).unwrap();
    let mut at_once = BookOrder::new("X", &big_snapshot(5)).unwrap();
    let mut both = a;
    both.extend(b);
    at_once.depth_update(&update(6, 7, both, vec![])).unwrap();
    assert_eq!(in_turn.bids(), at_once.bids());
    assert_eq!(in_turn.last_update_id(), at_once.last_update_id());
}
