//! The order book: two ladders of price levels (bids and asks), built from a
//! snapshot and kept current by depth updates.
//!
//! Prices and volumes are fixed-point integers (the decimal value times 10^8),
//! so a level is identified exactly by its integer price.
use std::collections::BTreeMap;
use vstd::prelude::*;
use vstd::std_specs::cmp::OrdSpec;
use vstd::std_specs::iter::IteratorSpec;

verus! {

/// Identifier of the last event folded into a book.
pub type UpdateId = u64;

/// Why a depth update could not be folded into the book.
#[derive(Debug, Clone, Copy, PartialEq, Eq, Structural)]
pub enum DepthUpdateError {
    /// A field the update needs is missing or of the wrong kind.
    ParsingError,
    /// The update starts after the book's next expected event: events were lost.
    InvalidBook,
}

/// The text that describes a depth update error.
pub open spec fn depth_update_error_text(e: DepthUpdateError) -> Seq<char> {
    match e {
        DepthUpdateError::ParsingError => "Failed to parse update"@,
        DepthUpdateError::InvalidBook => "Invalid book state. Book update required"@,
    }
}

impl DepthUpdateError {
    /// Human-readable description of the error.
    pub fn message(&self) -> (s: &'static str)
        ensures
            s@ == depth_update_error_text(*self),
    {
        match self {
            DepthUpdateError::ParsingError => "Failed to parse update",
            DepthUpdateError::InvalidBook => "Invalid book state. Book update required",
        }
    }
}

/// Every way in which building or updating a book can fail.
#[derive(Debug, Clone, Copy, PartialEq, Eq, Structural)]
pub enum BookError {
    /// A depth update was malformed or arrived after a gap.
    Update(DepthUpdateError),
    /// The snapshot has no `bids` field.
    MissingBids,
    /// The snapshot has no `asks` field.
    MissingAsks,
    /// The snapshot has no `lastUpdateId` field.
    MissingLastUpdateId,
    /// The snapshot's `lastUpdateId` is not an unsigned 64-bit integer.
    LastUpdateIdNotU64,
    /// A list of levels in the snapshot is not an array.
    OrdersNotArray,
    /// A level is not a pair of decimal strings.
    BadLevel,
    /// A price or volume is too large for the fixed-point format.
    ValueOverflow,
}

/// The text that describes a book error.
pub open spec fn book_error_text(e: BookError) -> Seq<char> {
    match e {
        BookError::Update(d) => depth_update_error_text(d),
        BookError::MissingBids => "No 'bids' field in snapshot"@,
        BookError::MissingAsks => "No 'asks' field in snapshot"@,
        BookError::MissingLastUpdateId => "No 'lastUpdateId' field in snapshot"@,
        BookError::LastUpdateIdNotU64 => "Failed to convert lastUpdateId to u64"@,
        BookError::OrdersNotArray => "Failed to parse orders"@,
        BookError::BadLevel => "Failed to parse price or volume from json"@,
        BookError::ValueOverflow => "Value overflow while trying to convert to internal format"@,
    }
}

impl BookError {
    /// Human-readable description of the error.
    pub fn message(&self) -> (s: &'static str)
        ensures
            s@ == book_error_text(*self),
    {
        match self {
            BookError::Update(d) => d.message(),
            BookError::MissingBids => "No 'bids' field in snapshot",
            BookError::MissingAsks => "No 'asks' field in snapshot",
            BookError::MissingLastUpdateId => "No 'lastUpdateId' field in snapshot",
            BookError::LastUpdateIdNotU64 => "Failed to convert lastUpdateId to u64",
            BookError::OrdersNotArray => "Failed to parse orders",
            BookError::BadLevel => "Failed to parse price or volume from json",
            BookError::ValueOverflow => "Value overflow while trying to convert to internal format",
        }
    }
}

/// One entry of a list of levels as it was read from the wire.
#[derive(Debug, Clone, Copy, PartialEq, Eq, Structural)]
pub enum RawLevel {
    /// A price and a volume, both in fixed-point form.
    Level { price: i64, volume: i64 },
    /// The entry is not a pair of decimal strings.
    Malformed,
    /// A value does not fit the fixed-point format.
    Overflow,
}

/// A field of a message: absent, present with the wrong kind of value, or present.
#[derive(Debug, Clone)]
pub enum JsonField<T> {
    /// The field is absent.
    Missing,
    /// The field holds a value of another kind.
    Invalid,
    /// The field holds a value of the expected kind.
    Present(T),
}

/// What a book snapshot carries.
#[derive(Debug, Clone)]
pub struct Snapshot {
    pub bids: JsonField<Vec<RawLevel>>,
    pub asks: JsonField<Vec<RawLevel>>,
    pub last_update_id: JsonField<u64>,
}

/// What a depth update carries.
#[derive(Debug, Clone)]
pub struct UpdateData {
    /// First event id of the update (`U`).
    pub first_update_id: JsonField<u64>,
    /// Last event id of the update (`u`).
    pub last_update_id: JsonField<u64>,
    /// Changed bid levels (`b`).
    pub bids: JsonField<Vec<RawLevel>>,
    /// Changed ask levels (`a`).
    pub asks: JsonField<Vec<RawLevel>>,
}

/// The error that a malformed level entry produces.
pub open spec fn level_error(r: RawLevel) -> BookError {
    match r {
        RawLevel::Overflow => BookError::ValueOverflow,
        _ => BookError::BadLevel,
    }
}

/// Reads every level of a list in order: the (price, volume) pairs, or the
/// error of the first entry that is not a level.
pub open spec fn levels_read(raw: Seq<RawLevel>) -> Result<Seq<(i64, i64)>, BookError>
    decreases raw.len(),
{
    if raw.len() == 0 {
        Ok(Seq::empty())
    } else {
        match levels_read(raw.drop_last()) {
            Ok(s) => match raw.last() {
                RawLevel::Level { price, volume } => Ok(s.push((price, volume))),
                other => Err(level_error(other)),
            },
            Err(e) => Err(e),
        }
    }
}

/// Folds level changes into a ladder, in order: a non-zero volume sets the
/// level, a zero volume removes it.
pub open spec fn apply_levels(m: Map<i64, i64>, levels: Seq<(i64, i64)>) -> Map<i64, i64>
    decreases levels.len(),
{
    if levels.len() == 0 {
        m
    } else {
        let prev = apply_levels(m, levels.drop_last());
        let (price, volume) = levels.last();
        if volume != 0 {
            prev.insert(price, volume)
        } else {
            prev.remove(price)
        }
    }
}

/// What building a ladder from a snapshot list gives.
pub enum BuildOutcome {
    Built(Map<i64, i64>),
    Failed(BookError),
    /// A price occurs twice in the list: building stops on it.
    Duplicate,
}

/// Builds a ladder from a snapshot list, entry by entry.
pub open spec fn build_outcome(raw: Seq<RawLevel>) -> BuildOutcome
    decreases raw.len(),
{
    if raw.len() == 0 {
        BuildOutcome::Built(Map::empty())
    } else {
        match build_outcome(raw.drop_last()) {
            BuildOutcome::Built(m) => match raw.last() {
                RawLevel::Level { price, volume } => if m.contains_key(price) {
                    BuildOutcome::Duplicate
                } else {
                    BuildOutcome::Built(m.insert(price, volume))
                },
                other => BuildOutcome::Failed(level_error(other)),
            },
            other => other,
        }
    }
}

/// Builds a ladder from a snapshot field that should hold a list.
pub open spec fn orders_outcome(f: JsonField<Vec<RawLevel>>) -> BuildOutcome {
    match f {
        JsonField::Present(v) => build_outcome(v@),
        _ => BuildOutcome::Failed(BookError::OrdersNotArray),
    }
}

/// The abstract state of a book.
#[verifier::ext_equal]
pub struct BookView {
    pub last_update_id: u64,
    pub bids: Map<i64, i64>,
    pub asks: Map<i64, i64>,
    pub symbol: Seq<char>,
}

/// What building a book from a snapshot gives.
pub enum SnapshotOutcome {
    Book { last_update_id: u64, bids: Map<i64, i64>, asks: Map<i64, i64> },
    Failed(BookError),
    Duplicate,
}

/// Builds a book from a snapshot: the fields are looked up in the order
/// bids, asks, lastUpdateId, then the bid list and the ask list are read.
pub open spec fn snapshot_outcome(s: Snapshot) -> SnapshotOutcome {
    if s.bids is Missing {
        SnapshotOutcome::Failed(BookError::MissingBids)
    } else if s.asks is Missing {
        SnapshotOutcome::Failed(BookError::MissingAsks)
    } else {
        match s.last_update_id {
            JsonField::Missing => SnapshotOutcome::Failed(BookError::MissingLastUpdateId),
            JsonField::Invalid => SnapshotOutcome::Failed(BookError::LastUpdateIdNotU64),
            JsonField::Present(id) => match orders_outcome(s.bids) {
                BuildOutcome::Duplicate => SnapshotOutcome::Duplicate,
                BuildOutcome::Failed(e) => SnapshotOutcome::Failed(e),
                BuildOutcome::Built(bids) => match orders_outcome(s.asks) {
                    BuildOutcome::Duplicate => SnapshotOutcome::Duplicate,
                    BuildOutcome::Failed(e) => SnapshotOutcome::Failed(e),
                    BuildOutcome::Built(asks) => SnapshotOutcome::Book {
                        last_update_id: id,
                        bids,
                        asks,
                    },
                },
            },
        }
    }
}

/// An order book for one symbol.
#[derive(Debug, Clone)]
pub struct BookOrder {
    last_update_id: UpdateId,
    bids: BTreeMap<i64, i64>,
    asks: BTreeMap<i64, i64>,
    symbol: String,
}

impl View for BookOrder {
    type V = BookView;

    closed spec fn view(&self) -> BookView {
        BookView {
            last_update_id: self.last_update_id,
            bids: self.bids@,
            asks: self.asks@,
            symbol: self.symbol@,
        }
    }
}

/// Reads one level entry.
fn extract_price_and_volume(order: &RawLevel) -> (r: Result<(i64, i64), BookError>)
    ensures
        match *order {
            RawLevel::Level { price, volume } => r == Ok::<(i64, i64), BookError>((price, volume)),
            other => r == Err::<(i64, i64), BookError>(level_error(other)),
        },
{
    match order {
        RawLevel::Level { price, volume } => Ok((*price, *volume)),
        RawLevel::Malformed => Err(BookError::BadLevel),
        RawLevel::Overflow => Err(BookError::ValueOverflow),
    }
}

/// A book built from a snapshot, or why it could not be.
enum BookBuild {
    Built(BookOrder),
    Failed(BookError),
    Duplicate,
}

/// A ladder read from a snapshot list, or why it could not be.
enum LadderBuild {
    Built(BTreeMap<i64, i64>),
    Failed(BookError),
    Duplicate,
}

/// How an executable ladder build stands to its abstract outcome.
spec fn ladder_matches(r: LadderBuild, o: BuildOutcome) -> bool {
    match (r, o) {
        (LadderBuild::Built(m), BuildOutcome::Built(s)) => m@ == s,
        (LadderBuild::Failed(e1), BuildOutcome::Failed(e2)) => e1 == e2,
        (LadderBuild::Duplicate, BuildOutcome::Duplicate) => true,
        _ => false,
    }
}

/// Builds a ladder from a snapshot field.
fn build_orders(orders: &JsonField<Vec<RawLevel>>) -> (r: LadderBuild)
    ensures
        ladder_matches(r, orders_outcome(*orders)),
{
    let levels = match orders {
        JsonField::Present(v) => v,
        _ => return LadderBuild::Failed(BookError::OrdersNotArray),
    };
    let mut map: BTreeMap<i64, i64> = BTreeMap::new();
    let n = levels.len();
    let mut i: usize = 0;
    while i < n
        invariant
            n == levels@.len(),
            0 <= i <= n,
            orders_outcome(*orders) == build_outcome(levels@),
            build_outcome(levels@.take(i as int)) == BuildOutcome::Built(map@),
        decreases n - i,
    {
        proof {
            assert(levels@.take(i as int + 1).drop_last() == levels@.take(i as int));
            assert(levels@.take(i as int + 1).last() == levels@[i as int]);
        }
        let (price, volume) = match extract_price_and_volume(&levels[i]) {
            Ok(level) => level,
            Err(e) => {
                proof {
                    lemma_build_stops(levels@, i as int + 1);
                }
                return LadderBuild::Failed(e);
            },
        };
        if map.contains_key(&price) {
            proof {
                lemma_build_stops(levels@, i as int + 1);
            }
            return LadderBuild::Duplicate;
        }
        map.insert(price, volume);
        i = i + 1;
    }
    proof {
        assert(levels@.take(n as int) == levels@);
    }
    LadderBuild::Built(map)
}

/// Once a prefix of a snapshot list fails or meets a duplicate, the whole
/// list ends the same way.
proof fn lemma_build_stops(raw: Seq<RawLevel>, k: int)
    requires
        0 <= k <= raw.len(),
        !(build_outcome(raw.take(k)) is Built),
    ensures
        build_outcome(raw) == build_outcome(raw.take(k)),
    decreases raw.len() - k,
{
    if k < raw.len() {
        assert(raw.take(k + 1).drop_last() == raw.take(k));
        lemma_build_stops(raw, k + 1);
    } else {
        assert(raw.take(k) == raw);
    }
}

/// Reads every entry of a list of level changes.
fn read_levels(raw: &Vec<RawLevel>) -> (r: Result<Vec<(i64, i64)>, BookError>)
    ensures
        match levels_read(raw@) {
            Ok(s) => r is Ok && r.unwrap()@ == s,
            Err(e) => r == Err::<Vec<(i64, i64)>, BookError>(e),
        },
{
    let mut out: Vec<(i64, i64)> = Vec::new();
    let n = raw.len();
    let mut i: usize = 0;
    while i < n
        invariant
            n == raw@.len(),
            0 <= i <= n,
            levels_read(raw@.take(i as int)) == Ok::<Seq<(i64, i64)>, BookError>(out@),
        decreases n - i,
    {
        proof {
            assert(raw@.take(i as int + 1).drop_last() == raw@.take(i as int));
            assert(raw@.take(i as int + 1).last() == raw@[i as int]);
        }
        match extract_price_and_volume(&raw[i]) {
            Ok(level) => {
                out.push(level);
            },
            Err(e) => {
                proof {
                    lemma_read_stops(raw@, i as int + 1);
                }
                return Err(e);
            },
        }
        i = i + 1;
    }
    proof {
        assert(raw@.take(n as int) == raw@);
    }
    Ok(out)
}

/// Once a prefix of a list fails to read, the whole list fails the same way.
proof fn lemma_read_stops(raw: Seq<RawLevel>, k: int)
    requires
        0 <= k <= raw.len(),
        levels_read(raw.take(k)) is Err,
    ensures
        levels_read(raw) == levels_read(raw.take(k)),
    decreases raw.len() - k,
{
    if k < raw.len() {
        assert(raw.take(k + 1).drop_last() == raw.take(k));
        lemma_read_stops(raw, k + 1);
    } else {
        assert(raw.take(k) == raw);
    }
}

/// Folds level changes into one ladder.
fn apply_to_ladder(ladder: &mut BTreeMap<i64, i64>, levels: &Vec<(i64, i64)>)
    ensures
        final(ladder)@ == apply_levels(old(ladder)@, levels@),
{
    let ghost start = ladder@;
    let n = levels.len();
    let mut i: usize = 0;
    while i < n
        invariant
            n == levels@.len(),
            0 <= i <= n,
            ladder@ == apply_levels(start, levels@.take(i as int)),
        decreases n - i,
    {
        let (price, volume) = levels[i];
        proof {
            assert(levels@.take(i as int + 1).drop_last() == levels@.take(i as int));
            assert(levels@.take(i as int + 1).last() == levels@[i as int]);
        }
        if volume != 0 {
            ladder.insert(price, volume);
        } else {
            ladder.remove(&price);
        }
        i = i + 1;
    }
    proof {
        assert(levels@.take(n as int) == levels@);
    }
}

/// What folding a depth update into a book gives.
pub enum UpdateOutcome {
    /// The update is not newer than the book: nothing changes.
    Stale,
    /// The update is folded in.
    Applied { last_update_id: u64, bids: Map<i64, i64>, asks: Map<i64, i64> },
    /// The update is refused: nothing changes.
    Failed(BookError),
}

/// Folds a depth update into a book. The fields are consulted in the order
/// `u`, `U`, `b`, `a`; the ask changes are read before the bid changes, and
/// nothing is changed unless every one of them reads.
pub open spec fn update_outcome(book: BookView, u: UpdateData) -> UpdateOutcome {
    match u.last_update_id {
        JsonField::Present(last) => if last <= book.last_update_id {
            UpdateOutcome::Stale
        } else {
            match u.first_update_id {
                JsonField::Present(first) => if first > book.last_update_id + 1 {
                    UpdateOutcome::Failed(BookError::Update(DepthUpdateError::InvalidBook))
                } else {
                    match (u.bids, u.asks) {
                        (JsonField::Present(b), JsonField::Present(a)) => match levels_read(a@) {
                            Err(e) => UpdateOutcome::Failed(e),
                            Ok(ask_levels) => match levels_read(b@) {
                                Err(e) => UpdateOutcome::Failed(e),
                                Ok(bid_levels) => UpdateOutcome::Applied {
                                    last_update_id: last,
                                    bids: apply_levels(book.bids, bid_levels),
                                    asks: apply_levels(book.asks, ask_levels),
                                },
                            },
                        },
                        _ => UpdateOutcome::Failed(
                            BookError::Update(DepthUpdateError::ParsingError),
                        ),
                    }
                },
                _ => UpdateOutcome::Failed(BookError::Update(DepthUpdateError::ParsingError)),
            }
        },
        _ => UpdateOutcome::Failed(BookError::Update(DepthUpdateError::ParsingError)),
    }
}

/// The book after a depth update.
pub open spec fn book_after(book: BookView, u: UpdateData) -> BookView {
    match update_outcome(book, u) {
        UpdateOutcome::Applied { last_update_id, bids, asks } => BookView {
            last_update_id,
            bids,
            asks,
            symbol: book.symbol,
        },
        _ => book,
    }
}

/// What a depth update call returns.
pub open spec fn update_result(book: BookView, u: UpdateData) -> Result<(), BookError> {
    match update_outcome(book, u) {
        UpdateOutcome::Failed(e) => Err(e),
        _ => Ok(()),
    }
}

impl BookOrder {
    /// Builds a ladder pair and a book from a snapshot, or says why not.
    fn assemble(symbol: &str, snapshot: &Snapshot) -> (r: BookBuild)
        ensures
            match (r, snapshot_outcome(*snapshot)) {
                (BookBuild::Built(b), SnapshotOutcome::Book { last_update_id, bids, asks }) => b@
                    == (BookView { last_update_id, bids, asks, symbol: symbol@ }),
                (BookBuild::Failed(e1), SnapshotOutcome::Failed(e2)) => e1 == e2,
                (BookBuild::Duplicate, SnapshotOutcome::Duplicate) => true,
                _ => false,
            },
    {
        if let JsonField::Missing = snapshot.bids {
            return BookBuild::Failed(BookError::MissingBids);
        }
        if let JsonField::Missing = snapshot.asks {
            return BookBuild::Failed(BookError::MissingAsks);
        }
        let last_update_id = match snapshot.last_update_id {
            JsonField::Present(id) => id,
            JsonField::Missing => return BookBuild::Failed(BookError::MissingLastUpdateId),
            JsonField::Invalid => return BookBuild::Failed(BookError::LastUpdateIdNotU64),
        };
        let bids = match build_orders(&snapshot.bids) {
            LadderBuild::Built(m) => m,
            LadderBuild::Failed(e) => return BookBuild::Failed(e),
            LadderBuild::Duplicate => return BookBuild::Duplicate,
        };
        let asks = match build_orders(&snapshot.asks) {
            LadderBuild::Built(m) => m,
            LadderBuild::Failed(e) => return BookBuild::Failed(e),
            LadderBuild::Duplicate => return BookBuild::Duplicate,
        };
        BookBuild::Built(BookOrder { last_update_id, bids, asks, symbol: symbol.to_owned() })
    }

    /// Builds the book of `symbol` from a snapshot.
    pub fn new(symbol: &str, snapshot: &Snapshot) -> (r: Result<BookOrder, BookError>)
        requires
            !(snapshot_outcome(*snapshot) is Duplicate),
        ensures
            match snapshot_outcome(*snapshot) {
                SnapshotOutcome::Book { last_update_id, bids, asks } => r is Ok && r.unwrap()@
                    == (BookView { last_update_id, bids, asks, symbol: symbol@ }),
                SnapshotOutcome::Failed(e) => r == Err::<BookOrder, BookError>(e),
                SnapshotOutcome::Duplicate => false,
            },
    {
        match Self::assemble(symbol, snapshot) {
            BookBuild::Built(b) => Ok(b),
            BookBuild::Failed(e) => Err(e),
            BookBuild::Duplicate => {
                // Ruled out by the precondition.
                proof {
                    assert(false);
                }
                Err(BookError::OrdersNotArray)
            },
        }
    }

    /// Whether building a book from this snapshot would meet a price listed
    /// twice in one ladder, which a book cannot hold.
    pub fn snapshot_has_duplicate_price(snapshot: &Snapshot) -> (r: bool)
        ensures
            r == (snapshot_outcome(*snapshot) is Duplicate),
    {
        match Self::assemble("", snapshot) {
            BookBuild::Duplicate => true,
            _ => false,
        }
    }

    /// Id of the last event folded into the book.
    pub fn last_update_id(&self) -> (id: UpdateId)
        ensures
            id == self@.last_update_id,
    {
        self.last_update_id
    }

    /// The bid ladder, price to volume.
    pub fn bids(&self) -> (m: &BTreeMap<i64, i64>)
        ensures
            m@ == self@.bids,
    {
        &self.bids
    }

    /// The ask ladder, price to volume.
    pub fn asks(&self) -> (m: &BTreeMap<i64, i64>)
        ensures
            m@ == self@.asks,
    {
        &self.asks
    }

    /// The symbol the book is kept for.
    pub fn symbol(&self) -> (s: &str)
        ensures
            s@ == self@.symbol,
    {
        self.symbol.as_str()
    }

    /// Folds a depth update into the book.
    pub fn depth_update(&mut self, update: &UpdateData) -> (r: Result<(), BookError>)
        ensures
            final(self)@ == book_after(old(self)@, *update),
            r == update_result(old(self)@, *update),
    {
        let last_update = match update.last_update_id {
            JsonField::Present(u) => u,
            _ => return Err(BookError::Update(DepthUpdateError::ParsingError)),
        };
        if last_update <= self.last_update_id {
            return Ok(());
        }
        let first_update = match update.first_update_id {
            JsonField::Present(u) => u,
            _ => return Err(BookError::Update(DepthUpdateError::ParsingError)),
        };
        if first_update > self.last_update_id + 1 {
            return Err(BookError::Update(DepthUpdateError::InvalidBook));
        }
        let bids = match &update.bids {
            JsonField::Present(b) => b,
            _ => return Err(BookError::Update(DepthUpdateError::ParsingError)),
        };
        let asks = match &update.asks {
            JsonField::Present(a) => a,
            _ => return Err(BookError::Update(DepthUpdateError::ParsingError)),
        };
        match self.update_orders(asks, bids) {
            Ok(()) => {},
            Err(e) => return Err(e),
        }
        self.last_update_id = last_update;
        Ok(())
    }

    /// Reads all ask and bid changes, then folds them into the ladders; if
    /// one change does not read, nothing changes.
    fn update_orders(&mut self, asks_updates: &Vec<RawLevel>, bids_update: &Vec<RawLevel>) -> (r:
        Result<(), BookError>)
        ensures
            match levels_read(asks_updates@) {
                Err(e) => r == Err::<(), BookError>(e) && final(self)@ == old(self)@,
                Ok(ask_levels) => match levels_read(bids_update@) {
                    Err(e) => r == Err::<(), BookError>(e) && final(self)@ == old(self)@,
                    Ok(bid_levels) => r is Ok && final(self)@ == (BookView {
                        bids: apply_levels(old(self)@.bids, bid_levels),
                        asks: apply_levels(old(self)@.asks, ask_levels),
                        ..old(self)@
                    }),
                },
            },
    {
        let asks_tmp = match read_levels(asks_updates) {
            Ok(v) => v,
            Err(e) => return Err(e),
        };
        let bids_tmp = match read_levels(bids_update) {
            Ok(v) => v,
            Err(e) => return Err(e),
        };
        apply_to_ladder(&mut self.bids, &bids_tmp);
        apply_to_ladder(&mut self.asks, &asks_tmp);
        Ok(())
    }
}

/// One printed line of a book: the i-th best bid beside the i-th best ask.
#[derive(Debug, Clone, Copy, PartialEq, Eq)]
pub struct BookRow {
    pub bid: Option<(i64, i64)>,
    pub ask: Option<(i64, i64)>,
}

/// `s` lists every level of the ladder `m` once, as (price, volume), in
/// strictly ascending or strictly descending order of price.
pub open spec fn lists_ladder(s: Seq<(i64, i64)>, m: Map<i64, i64>, ascending: bool) -> bool {
    &&& s.len() == m.len()
    &&& forall|i: int| 0 <= i < s.len() ==> #[trigger] m.contains_key(s[i].0) && m[s[i].0] == s[i].1
    &&& forall|p: i64| #[trigger] m.contains_key(p) ==> exists|i: int| 0 <= i < s.len() && s[i].0 == p
    &&& forall|i: int, j: int|
        0 <= i < j < s.len() ==> if ascending {
            #[trigger] s[i].0 < #[trigger] s[j].0
        } else {
            s[i].0 > s[j].0
        }
}

/// The bid column of the first `n` rows.
pub open spec fn bid_column(rows: Seq<BookRow>, n: nat) -> Seq<(i64, i64)> {
    Seq::new(n, |i: int| rows[i].bid.unwrap())
}

/// The ask column of the first `n` rows.
pub open spec fn ask_column(rows: Seq<BookRow>, n: nat) -> Seq<(i64, i64)> {
    Seq::new(n, |i: int| rows[i].ask.unwrap())
}

/// The levels of a ladder in ascending order of price.
fn ladder_ascending(m: &BTreeMap<i64, i64>) -> (r: Vec<(i64, i64)>)
    ensures
        lists_ladder(r@, m@, true),
{
    assert(vstd::laws_cmp::obeys_cmp::<i64>());
    let iter = m.iter();
    let ghost entries = iter.remaining();
    let ghost prices = entries.map_values(|kv: (&i64, &i64)| *kv.0);
    assert(vstd::std_specs::btree::increasing_seq(prices));
    let mut out: Vec<(i64, i64)> = Vec::new();
    for entry in it: iter
        invariant
            it.seq() == entries,
            out@.len() == it.index(),
            forall|i: int| 0 <= i < out@.len() ==> out@[i] == (*entries[i].0, *entries[i].1),
    {
        out.push((*entry.0, *entry.1));
    }
    proof {
        assert(entries == vstd::std_specs::btree::spec_btree_map_iter(m).remaining());
        assert forall|i: int, j: int| 0 <= i < j < out@.len() implies #[trigger] out@[i].0
            < #[trigger] out@[j].0 by {
            assert(prices[i] == out@[i].0);
            assert(prices[j] == out@[j].0);
            assert(prices[i].cmp_spec(&prices[j]) is Less);
        }
        assert forall|i: int| 0 <= i < out@.len() implies #[trigger] m@.contains_key(out@[i].0)
            && m@[out@[i].0] == out@[i].1 by {
            assert(m@.contains_key(*entries[i].0));
        }
        assert forall|p: i64| #[trigger] m@.contains_key(p) implies exists|i: int|
            0 <= i < out@.len() && out@[i].0 == p by {
            assert(entries.contains((&p, &m@[p])));
            let i = choose|i: int| 0 <= i < entries.len() && entries[i] == (&p, &m@[p]);
            assert(out@[i].0 == p);
        }
    }
    out
}

impl BookOrder {
    /// The lines of the printed book: bids from the highest price down,
    /// asks from the lowest price up, side by side; the shorter column is
    /// padded with empty cells.
    pub fn book_rows(&self) -> (rows: Vec<BookRow>)
        ensures
            rows@.len() == if self@.bids.len() >= self@.asks.len() {
                self@.bids.len()
            } else {
                self@.asks.len()
            },
            forall|i: int|
                0 <= i < rows@.len() ==> (#[trigger] rows@[i].bid is Some <==> i < self@.bids.len())
                    && (rows@[i].ask is Some <==> i < self@.asks.len()),
            lists_ladder(bid_column(rows@, self@.bids.len()), self@.bids, false),
            lists_ladder(ask_column(rows@, self@.asks.len()), self@.asks, true),
    {
        let bids = ladder_ascending(&self.bids);
        let asks = ladder_ascending(&self.asks);
        let nb = bids.len();
        let na = asks.len();
        let n = if nb >= na {
            nb
        } else {
            na
        };
        let mut rows: Vec<BookRow> = Vec::new();
        let mut i: usize = 0;
        while i < n
            invariant
                nb == bids@.len(),
                na == asks@.len(),
                n == if nb >= na {
                    nb
                } else {
                    na
                },
                0 <= i <= n,
                rows@.len() == i,
                forall|j: int|
                    0 <= j < i ==> (#[trigger] rows@[j]).bid == (if j < nb {
                        Some(bids@[nb - 1 - j])
                    } else {
                        None
                    }) && rows@[j].ask == (if j < na {
                        Some(asks@[j])
                    } else {
                        None
                    }),
            decreases n - i,
        {
            let bid = if i < nb {
                Some(bids[nb - 1 - i])
            } else {
                None
            };
            let ask = if i < na {
                Some(asks[i])
            } else {
                None
            };
            rows.push(BookRow { bid, ask });
            i = i + 1;
        }
        proof {
            let bc = bid_column(rows@, self@.bids.len());
            assert forall|j: int| 0 <= j < bc.len() implies bc[j] == bids@[nb - 1 - j] by {
                assert(rows@[j].bid == Some(bids@[nb - 1 - j]));
            }
            assert forall|p: i64| #[trigger] self@.bids.contains_key(p) implies exists|j: int|
                0 <= j < bc.len() && bc[j].0 == p by {
                let k = choose|k: int| 0 <= k < bids@.len() && bids@[k].0 == p;
                assert(bc[nb - 1 - k].0 == p);
            }
            let ac = ask_column(rows@, self@.asks.len());
            assert forall|j: int| 0 <= j < ac.len() implies ac[j] == asks@[j] by {
                assert(rows@[j].ask == Some(asks@[j]));
            }
            assert(ac == asks@);
        }
        rows
    }
}


/// The volume of the last change to price `p` in a list of changes, if any.
pub open spec fn last_change(levels: Seq<(i64, i64)>, p: i64) -> Option<i64>
    decreases levels.len(),
{
    if levels.len() == 0 {
        None
    } else if levels.last().0 == p {
        Some(levels.last().1)
    } else {
        last_change(levels.drop_last(), p)
    }
}

/// The volume a ladder holds at price `p`, if any.
pub open spec fn level_at(m: Map<i64, i64>, p: i64) -> Option<i64> {
    if m.contains_key(p) {
        Some(m[p])
    } else {
        None
    }
}

/// A level change replaces the volume at its price: after a list of changes,
/// each price holds the volume of its last change, or is gone if that volume
/// is zero; a price with no change keeps what it had.
pub proof fn lemma_last_change_wins(m: Map<i64, i64>, levels: Seq<(i64, i64)>, p: i64)
    ensures
        level_at(apply_levels(m, levels), p) == match last_change(levels, p) {
            Some(v) => if v != 0 {
                Some(v)
            } else {
                None
            },
            None => level_at(m, p),
        },
    decreases levels.len(),
{
    if levels.len() > 0 {
        lemma_last_change_wins(m, levels.drop_last(), p);
    }
}

/// `r` is a level whose volume the ladder `m` holds at its price.
pub open spec fn ladder_holds(m: Map<i64, i64>, r: RawLevel) -> bool {
    match r {
        RawLevel::Level { price, volume } => m.contains_key(price) && m[price] == volume,
        _ => false,
    }
}

/// `r` is a level at price `p`.
pub open spec fn is_level_at(r: RawLevel, p: i64) -> bool {
    match r {
        RawLevel::Level { price, .. } => price == p,
        _ => false,
    }
}

/// Folding two lists of changes in turn is folding their concatenation:
/// successive updates compose.
pub proof fn lemma_changes_compose(m: Map<i64, i64>, first: Seq<(i64, i64)>, second: Seq<(i64, i64)>)
    ensures
        apply_levels(apply_levels(m, first), second) == apply_levels(m, first + second),
    decreases second.len(),
{
    if second.len() > 0 {
        lemma_changes_compose(m, first, second.drop_last());
        assert((first + second).drop_last() == first + second.drop_last());
        assert((first + second).last() == second.last());
    } else {
        assert(first + second == first);
    }
}

/// A ladder built from a snapshot list holds every listed level, and
/// nothing else.
pub proof fn lemma_snapshot_ladder_holds_listed_levels(raw: Seq<RawLevel>)
    requires
        build_outcome(raw) is Built,
    ensures
        ({
            let m = build_outcome(raw)->Built_0;
            &&& m.dom().finite()
            &&& m.len() == raw.len()
            &&& forall|i: int| 0 <= i < raw.len() ==> ladder_holds(m, #[trigger] raw[i])
            &&& forall|p: i64|
                #[trigger] m.contains_key(p) ==> exists|i: int|
                    0 <= i < raw.len() && is_level_at(#[trigger] raw[i], p)
        }),
    decreases raw.len(),
{
    if raw.len() > 0 {
        let prev = raw.drop_last();
        if !(build_outcome(prev) is Built) {
            assert(!(build_outcome(raw) is Built));
        }
        lemma_snapshot_ladder_holds_listed_levels(prev);
        let m0 = build_outcome(prev)->Built_0;
        let m = build_outcome(raw)->Built_0;
        assert forall|i: int| 0 <= i < raw.len() implies ladder_holds(m, #[trigger] raw[i]) by {
            if i < raw.len() - 1 {
                assert(raw[i] == prev[i]);
            }
        }
        assert forall|p: i64| #[trigger] m.contains_key(p) implies exists|i: int|
            0 <= i < raw.len() && is_level_at(#[trigger] raw[i], p) by {
            if m0.contains_key(p) {
                let i = choose|i: int| 0 <= i < prev.len() && is_level_at(#[trigger] prev[i], p);
                assert(raw[i] == prev[i]);
            } else {
                assert(raw[raw.len() - 1] == raw.last());
            }
        }
    }
}

/// An update that is not newer than the book is accepted and changes
/// nothing.
pub proof fn lemma_stale_update_is_ignored(book: BookView, u: UpdateData)
    requires
        u.last_update_id matches JsonField::Present(last) && last <= book.last_update_id,
    ensures
        book_after(book, u) == book,
        update_result(book, u) == Ok::<(), BookError>(()),
{
}

/// A refused update leaves the book as it was: levels are changed only when
/// the whole update reads.
pub proof fn lemma_refused_update_changes_nothing(book: BookView, u: UpdateData)
    requires
        update_result(book, u) is Err,
    ensures
        book_after(book, u) == book,
{
}

/// Folding the same update twice is the same as folding it once, and the
/// second call answers as the first did.
pub proof fn lemma_update_is_idempotent(book: BookView, u: UpdateData)
    ensures
        book_after(book_after(book, u), u) == book_after(book, u),
        update_result(book_after(book, u), u) == update_result(book, u),
{
}

/// The book's last update id never goes back, and an update that is folded
/// in sets it to the update's last id.
pub proof fn lemma_update_id_never_decreases(book: BookView, u: UpdateData)
    ensures
        book_after(book, u).last_update_id >= book.last_update_id,
        book_after(book, u).symbol == book.symbol,
        update_outcome(book, u) is Applied ==> match u.last_update_id {
            JsonField::Present(last) => book_after(book, u).last_update_id == last
                && last > book.last_update_id,
            _ => false,
        },
{
}

/// Every entry of a list is a level.
pub open spec fn all_levels(raw: Seq<RawLevel>) -> bool {
    forall|i: int| 0 <= i < raw.len() ==> #[trigger] raw[i] is Level
}

/// Every entry of a list is a level, and no two share a price.
pub open spec fn distinct_levels(raw: Seq<RawLevel>) -> bool {
    &&& all_levels(raw)
    &&& forall|i: int, j: int|
        0 <= i < j < raw.len() ==> (#[trigger] raw[i])->price != (#[trigger] raw[j])->price
}

/// The volume of the last entry at price `p` in a raw list, if any.
pub open spec fn raw_last_change(raw: Seq<RawLevel>, p: i64) -> Option<i64>
    decreases raw.len(),
{
    if raw.len() == 0 {
        None
    } else {
        match raw.last() {
            RawLevel::Level { price, volume } => if price == p {
                Some(volume)
            } else {
                raw_last_change(raw.drop_last(), p)
            },
            _ => raw_last_change(raw.drop_last(), p),
        }
    }
}

/// The volume at price `p` after a raw list of changes is folded into a
/// ladder: that of the last change at `p`, gone if it is zero, or what the
/// ladder held if `p` is not changed.
pub open spec fn changed_level(m: Map<i64, i64>, raw: Seq<RawLevel>, p: i64) -> Option<i64> {
    match raw_last_change(raw, p) {
        Some(v) => if v != 0 {
            Some(v)
        } else {
            None
        },
        None => level_at(m, p),
    }
}

/// A list made only of levels reads, and reading keeps each level.
proof fn lemma_levels_read_all_levels(raw: Seq<RawLevel>)
    requires
        all_levels(raw),
    ensures
        levels_read(raw) is Ok,
        forall|p: i64| #[trigger] last_change(levels_read(raw)->Ok_0, p) == raw_last_change(raw, p),
    decreases raw.len(),
{
    if raw.len() > 0 {
        let rest = raw.drop_last();
        assert forall|i: int| 0 <= i < rest.len() implies #[trigger] rest[i] is Level by {
            assert(rest[i] == raw[i]);
        }
        lemma_levels_read_all_levels(rest);
        assert(raw[raw.len() - 1] is Level);
        let s = levels_read(rest)->Ok_0;
        assert forall|p: i64| #[trigger] last_change(levels_read(raw)->Ok_0, p) == raw_last_change(
            raw,
            p,
        ) by {
            let t = levels_read(raw)->Ok_0;
            let price = raw.last()->price;
            let volume = raw.last()->volume;
            assert(t == s.push((price, volume)));
            assert(t.drop_last() == s);
            assert(t.last() == (price, volume));
            assert(last_change(s, p) == raw_last_change(rest, p));
        }
    }
}

/// The bids a depth update lists, as read from the wire.
pub open spec fn bid_list(u: UpdateData) -> Seq<RawLevel> {
    match u.bids {
        JsonField::Present(b) => b@,
        _ => Seq::empty(),
    }
}

/// The asks a depth update lists, as read from the wire.
pub open spec fn ask_list(u: UpdateData) -> Seq<RawLevel> {
    match u.asks {
        JsonField::Present(a) => a@,
        _ => Seq::empty(),
    }
}

/// A depth update that is newer than the book, starts no later than the
/// book's next event, and lists only levels on both sides.
pub open spec fn continues_book(book: BookView, u: UpdateData) -> bool {
    match (u.first_update_id, u.last_update_id, u.bids, u.asks) {
        (
            JsonField::Present(first),
            JsonField::Present(last),
            JsonField::Present(b),
            JsonField::Present(a),
        ) => last > book.last_update_id && first <= book.last_update_id + 1 && all_levels(b@)
            && all_levels(a@),
        _ => false,
    }
}

/// An update that continues the book is accepted; afterwards each side's
/// ladder holds, at every price, the volume of that side's last change
/// there (gone if zero) or what it held before, whatever the other side
/// lists; and the book's id is the update's last id.
pub proof fn lemma_accepted_update_sets_each_level(book: BookView, u: UpdateData)
    requires
        continues_book(book, u),
    ensures
        update_result(book, u) == Ok::<(), BookError>(()),
        u.last_update_id == JsonField::Present(book_after(book, u).last_update_id),
        book_after(book, u).symbol == book.symbol,
        forall|p: i64| #[trigger]
            level_at(book_after(book, u).asks, p) == changed_level(book.asks, ask_list(u), p),
        forall|p: i64| #[trigger]
            level_at(book_after(book, u).bids, p) == changed_level(book.bids, bid_list(u), p),
{
    lemma_levels_read_all_levels(ask_list(u));
    lemma_levels_read_all_levels(bid_list(u));
    let al = levels_read(ask_list(u))->Ok_0;
    let bl = levels_read(bid_list(u))->Ok_0;
    assert forall|p: i64| #[trigger]
        level_at(book_after(book, u).asks, p) == changed_level(book.asks, ask_list(u), p) by {
        lemma_last_change_wins(book.asks, al, p);
    }
    assert forall|p: i64| #[trigger]
        level_at(book_after(book, u).bids, p) == changed_level(book.bids, bid_list(u), p) by {
        lemma_last_change_wins(book.bids, bl, p);
    }
}

/// A snapshot list of levels at distinct prices always builds, into the
/// ladder that holds exactly those levels: only a malformed or overflowing
/// entry, or a repeated price, stops a build.
pub proof fn lemma_distinct_levels_build(raw: Seq<RawLevel>)
    requires
        distinct_levels(raw),
    ensures
        build_outcome(raw) is Built,
        build_outcome(raw)->Built_0.len() == raw.len(),
        forall|i: int| 0 <= i < raw.len() ==> ladder_holds(build_outcome(raw)->Built_0, #[trigger] raw[i]),
        forall|p: i64| #[trigger]
            build_outcome(raw)->Built_0.contains_key(p) ==> exists|i: int|
                0 <= i < raw.len() && is_level_at(#[trigger] raw[i], p),
    decreases raw.len(),
{
    if raw.len() > 0 {
        let rest = raw.drop_last();
        let n = raw.len() - 1;
        assert forall|i: int| 0 <= i < rest.len() implies #[trigger] rest[i] is Level by {
            assert(rest[i] == raw[i]);
        }
        assert forall|i: int, j: int|
            0 <= i < j < rest.len() implies (#[trigger] rest[i])->price != (#[trigger] rest[j])->price by {
            assert(rest[i] == raw[i]);
            assert(rest[j] == raw[j]);
        }
        lemma_distinct_levels_build(rest);
        let m = build_outcome(rest)->Built_0;
        assert(raw[n] is Level);
        assert(raw.last() == raw[n]);
        if m.contains_key(raw[n]->price) {
            let i = choose|i: int| 0 <= i < rest.len() && is_level_at(#[trigger] rest[i], raw[n]->price);
            assert(rest[i] == raw[i]);
            assert(raw[i]->price != raw[n]->price);
        }
        lemma_snapshot_ladder_holds_listed_levels(raw);
    }
}

/// A snapshot with an id and two lists of levels at distinct prices builds
/// a book with that id, holding exactly the listed levels.
pub proof fn lemma_well_formed_snapshot_builds(s: Snapshot)
    requires
        s.last_update_id is Present,
        s.bids is Present && distinct_levels(s.bids->Present_0@),
        s.asks is Present && distinct_levels(s.asks->Present_0@),
    ensures
        snapshot_outcome(s) is Book,
        snapshot_outcome(s)->Book_last_update_id == s.last_update_id->Present_0,
        snapshot_outcome(s)->Book_bids == build_outcome(s.bids->Present_0@)->Built_0,
        snapshot_outcome(s)->Book_asks == build_outcome(s.asks->Present_0@)->Built_0,
{
    lemma_distinct_levels_build(s.bids->Present_0@);
    lemma_distinct_levels_build(s.asks->Present_0@);
}
} // verus!
