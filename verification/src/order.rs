//! Limit orders and the instants at which they were submitted.

use vstd::prelude::*;

verus! {

/// Number of fixed-point units in one currency unit: prices are kept in hundredths.
pub const PRICE_PRECISION_FACTOR: usize = 100;

/// An instant on the UTC time line, as whole seconds since the Unix epoch and
/// the nanoseconds since the last second boundary.
///
/// Instants are ordered by seconds first and nanoseconds second.
#[derive(Clone, Copy, Debug, PartialEq, Eq, Structural)]
pub struct Timestamp {
    /// Non-leap seconds since 1970-01-01 00:00:00 UTC.
    pub secs: i64,
    /// Nanoseconds since the last second boundary.
    pub nanos: u32,
}

impl Timestamp {
    /// Whether `self` lies strictly before `other` on the time line.
    pub open spec fn before(self, other: Timestamp) -> bool {
        self.secs < other.secs || (self.secs == other.secs && self.nanos < other.nanos)
    }

    /// The instant `nanos` nanoseconds after the second `secs`.
    pub fn new(secs: i64, nanos: u32) -> (t: Timestamp)
        ensures
            t == (Timestamp { secs, nanos }),
    {
        Timestamp { secs, nanos }
    }

    /// Reads the system clock: the time that has passed since the Unix epoch.
    ///
    /// There is no reading where the clock stands before the epoch or beyond
    /// the years that a calendar date can hold.
    pub fn now() -> (reading: Option<Timestamp>)
        ensures
            reading is Some ==> reading->0.since_epoch(),
    {
        match since_unix_epoch() {
            Some((secs, nanos)) => {
                if secs <= i64::MAX as u64 {
                    utc_instant(secs as i64, nanos)
                } else {
                    None
                }
            },
            None => None,
        }
    }

    /// Whether the instant is one that a clock reading gives: it lies at or
    /// after the Unix epoch, and its nanoseconds are less than a second.
    pub open spec fn since_epoch(self) -> bool {
        self.secs >= 0 && self.nanos < 1_000_000_000
    }

    /// Whether `self` lies strictly before `other`.
    pub fn is_before(&self, other: &Timestamp) -> (b: bool)
        ensures
            b == self.before(*other),
    {
        self.secs < other.secs || (self.secs == other.secs && self.nanos < other.nanos)
    }
}

/// Trusted: `std::time::SystemTime::elapsed` on `std::time::UNIX_EPOCH`, read
/// through `Duration::as_secs` and `Duration::subsec_nanos`.
///
/// The time that has passed depends on the system clock, and there is none
/// where the clock stands before the epoch. The contract claims what std
/// documents of every `Duration`: its nanoseconds are less than a second.
#[verifier::external_body]
fn since_unix_epoch() -> (passed: Option<(u64, u32)>)
    ensures
        match passed {
            Some(since) => since.1 < 1_000_000_000,
            None => true,
        },
{
    let passed = std::time::UNIX_EPOCH.elapsed().ok()?;
    Some((passed.as_secs(), passed.subsec_nanos()))
}

/// Trusted: `chrono::DateTime::from_timestamp`, read back through
/// `DateTime::timestamp` and `DateTime::timestamp_subsec_nanos`.
///
/// `chrono` makes a `DateTime<Utc>` of the seconds and nanoseconds, or none
/// where they are beyond its calendar. The contract claims what `chrono`
/// documents: an instant that it has made reads back as the seconds and
/// nanoseconds it was made of. `chrono` orders two `DateTime<Utc>` values
/// exactly as `Timestamp::before` orders the pairs read from them.
#[verifier::external_body]
fn utc_instant(secs: i64, nanos: u32) -> (instant: Option<Timestamp>)
    ensures
        instant is Some ==> instant->0 == (Timestamp { secs, nanos }),
{
    let instant = chrono::DateTime::from_timestamp(secs, nanos)?;
    Some(Timestamp { secs: instant.timestamp(), nanos: instant.timestamp_subsec_nanos() })
}

/// A clock that never goes back: it remembers the last instant that it gave
/// and gives no earlier one, whatever the system clock does.
#[derive(Debug)]
pub struct Clock {
    last: Timestamp,
}

impl View for Clock {
    type V = Timestamp;

    closed spec fn view(&self) -> Timestamp {
        self.last
    }
}

/// The instant that a clock gives after `last` on a reading of the system
/// clock: the reading where there is one that is not before `last`, and
/// `last` again where there is not.
pub open spec fn advanced(last: Timestamp, reading: Option<Timestamp>) -> Timestamp {
    match reading {
        Some(instant) => if instant.since_epoch() && !instant.before(last) {
            instant
        } else {
            last
        },
        None => last,
    }
}

impl Clock {
    #[verifier::type_invariant]
    spec fn stands_since_epoch(self) -> bool {
        self.last.since_epoch()
    }

    /// Creates a clock that stands at the Unix epoch.
    pub fn new() -> (clock: Clock)
        ensures
            clock@ == (Timestamp { secs: 0, nanos: 0 }),
    {
        Clock { last: Timestamp { secs: 0, nanos: 0 } }
    }

    /// The last instant that the clock gave.
    pub fn last(&self) -> (instant: Timestamp)
        ensures
            instant == self@,
            instant.since_epoch(),
    {
        proof {
            use_type_invariant(self);
        }
        self.last
    }

    /// Moves the clock on to a reading of the system clock and gives the
    /// instant at which it then stands. A reading that lies before the last
    /// instant, and the lack of one, leave the clock where it stands.
    pub fn advance(&mut self, reading: Option<Timestamp>) -> (instant: Timestamp)
        ensures
            instant == advanced(old(self)@, reading),
            final(self)@ == instant,
            !instant.before(old(self)@),
            instant.since_epoch(),
    {
        proof {
            use_type_invariant(&*self);
        }
        match reading {
            Some(found) => {
                if found.secs >= 0 && found.nanos < 1_000_000_000 && !found.is_before(&self.last) {
                    self.last = found;
                }
            },
            None => {},
        }
        self.last
    }

    /// Reads the system clock and gives the instant: never one before an
    /// instant that this clock gave earlier.
    pub fn now(&mut self) -> (instant: Timestamp)
        ensures
            final(self)@ == instant,
            !instant.before(old(self)@),
            instant.since_epoch(),
    {
        let reading = Timestamp::now();
        self.advance(reading)
    }
}

/// What an order is, as mathematical values.
pub struct OrderView {
    /// Who submitted the order.
    pub creator_id: nat,
    /// Limit price in hundredths.
    pub price: nat,
    /// Quantity that is still unfilled.
    pub quantity: nat,
    /// When the order was submitted.
    pub time: Timestamp,
}

impl OrderView {
    /// The order with `amount` of its quantity filled.
    pub open spec fn filled(self, amount: nat) -> OrderView
        recommends
            amount <= self.quantity,
    {
        OrderView { quantity: (self.quantity - amount) as nat, ..self }
    }

    /// An order with nothing left to fill.
    pub open spec fn spent(self) -> bool {
        self.quantity == 0
    }

    /// Whether the numbers of the order are numbers that an order can hold.
    pub open spec fn fits(self) -> bool {
        self.creator_id <= usize::MAX && self.price <= usize::MAX && self.quantity <= usize::MAX
    }
}

/// An order to buy or sell an instrument at a limit price.
#[derive(Clone, Copy, Debug)]
pub struct Order {
    creator_id: usize,
    price: usize,
    quantity: usize,
    time: Timestamp,
}

impl View for Order {
    type V = OrderView;

    closed spec fn view(&self) -> OrderView {
        OrderView {
            creator_id: self.creator_id as nat,
            price: self.price as nat,
            quantity: self.quantity as nat,
            time: self.time,
        }
    }
}

impl Order {
    /// Creates an order submitted now, at `price` hundredths per unit. The
    /// time is read from `clock`, so an order is never earlier than one that
    /// was made before it with the same clock.
    pub fn new(creator_id: usize, price: usize, quantity: usize, clock: &mut Clock) -> (order:
        Order)
        ensures
            order@ == (OrderView {
                creator_id: creator_id as nat,
                price: price as nat,
                quantity: quantity as nat,
                time: final(clock)@,
            }),
            !final(clock)@.before(old(clock)@),
            final(clock)@.since_epoch(),
    {
        let time = clock.now();
        Order::with_time(creator_id, price, quantity, time)
    }

    /// Creates an order submitted at `time`, at `price` hundredths per unit.
    pub fn with_time(creator_id: usize, price: usize, quantity: usize, time: Timestamp) -> (order:
        Order)
        ensures
            order@ == (OrderView {
                creator_id: creator_id as nat,
                price: price as nat,
                quantity: quantity as nat,
                time,
            }),
    {
        Order { creator_id, price, quantity, time }
    }

    /// The submitter's id.
    pub fn get_creator_id(&self) -> (id: usize)
        ensures
            id == self@.creator_id,
    {
        self.creator_id
    }

    /// The total value of the order, in hundredths: price times quantity.
    pub fn get_value(&self) -> (value: u128)
        ensures
            value == self@.price * self@.quantity,
    {
        let price: u128 = self.price as u128;
        let quantity: u128 = self.quantity as u128;
        assert(price * quantity <= u128::MAX) by (nonlinear_arith)
            requires
                price <= u64::MAX,
                quantity <= u64::MAX,
        ;
        price * quantity
    }

    /// The limit price per unit, in hundredths.
    pub fn get_price(&self) -> (price: usize)
        ensures
            price == self@.price,
    {
        self.price
    }

    /// The quantity that is still unfilled.
    pub fn get_quantity(&self) -> (quantity: usize)
        ensures
            quantity == self@.quantity,
    {
        self.quantity
    }

    /// When the order was submitted.
    pub fn get_time(&self) -> (time: Timestamp)
        ensures
            time == self@.time,
    {
        self.time
    }

    /// Fills `quantity` of the order: the unfilled quantity drops by that
    /// much and nothing else changes.
    pub fn resolve(&mut self, quantity: usize)
        requires
            quantity <= old(self)@.quantity,
        ensures
            final(self)@ == old(self)@.filled(quantity as nat),
    {
        self.quantity = self.quantity - quantity;
    }
}

/// The numbers of every order are numbers that an order can hold.
pub proof fn lemma_order_fits(order: Order)
    ensures
        order@.fits(),
{
}

} // verus!
