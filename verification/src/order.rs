use vstd::prelude::*;

verus! {

/// Side of an order: buyers bid, sellers ask.
#[derive(Debug, Clone, Copy, PartialEq, Eq, Structural)]
pub enum Side {
    Buy,
    Sell,
}

/// Number of price ticks per whole quote unit: prices carry four decimal
/// places, so a price of `1.5` is stored as `15_000` ticks.
pub const PRICE_SCALE: u64 = 10_000;

/// A limit order. Identity is the `id` alone: two orders are the same order
/// exactly when their ids match, however much the quantity has been whittled
/// down by partial fills. Ids are handed out by the caller and must be unique
/// and never reused.
///
/// The price is a count of ticks (see [`PRICE_SCALE`]), which keeps every
/// comparison the book makes a plain integer comparison; a quote with a
/// non-numeric price is rejected at ingestion and never reaches the book.
#[derive(Debug, Clone)]
pub struct Order {
    pub id: u32,
    pub symbol: String,
    pub quantity: u32,
    pub price: u64,
    pub side: Side,
}

/// Mathematical image of an [`Order`]: the same fields with the symbol as a
/// character sequence.
pub ghost struct OrderV {
    pub id: u32,
    pub symbol: Seq<char>,
    pub quantity: u32,
    pub price: u64,
    pub side: Side,
}

impl View for Order {
    type V = OrderV;

    open spec fn view(&self) -> OrderV {
        OrderV {
            id: self.id,
            symbol: self.symbol@,
            quantity: self.quantity,
            price: self.price,
            side: self.side,
        }
    }
}

/// What `cmp` returns: price-time priority within one side. A Buy sorts
/// before another Buy when its price is higher; a Sell sorts before another
/// Sell when its price is lower; equal prices are broken by the lower
/// (earlier-assigned) id. Only `self`'s side picks the direction, as resting
/// orders are only ever compared against orders of the same side.
pub open spec fn spec_order_cmp(a: OrderV, b: OrderV) -> core::cmp::Ordering {
    if a.side == Side::Buy {
        if b.price < a.price {
            core::cmp::Ordering::Less
        } else if b.price > a.price {
            core::cmp::Ordering::Greater
        } else if a.id < b.id {
            core::cmp::Ordering::Less
        } else if a.id > b.id {
            core::cmp::Ordering::Greater
        } else {
            core::cmp::Ordering::Equal
        }
    } else {
        if a.price < b.price {
            core::cmp::Ordering::Less
        } else if a.price > b.price {
            core::cmp::Ordering::Greater
        } else if a.id < b.id {
            core::cmp::Ordering::Less
        } else if a.id > b.id {
            core::cmp::Ordering::Greater
        } else {
            core::cmp::Ordering::Equal
        }
    }
}

impl Order {
    /// Builds an order under the given id. The id comes from an external
    /// sequence owned by the caller, so independent engines (and tests) can
    /// run deterministic id streams.
    pub fn new(id: u32, symbol: &str, quantity: u32, price: u64, side: Side) -> (r: Order)
        ensures
            r@ == (OrderV { id, symbol: symbol@, quantity, price, side }),
    {
        Order { id, symbol: symbol.to_owned(), quantity, price, side }
    }

    /// A field-for-field copy whose abstract value is known to equal the
    /// original's, unlike the derived `Clone`.
    pub fn duplicate(&self) -> (r: Order)
        ensures
            r@ == self@,
    {
        Order {
            id: self.id,
            symbol: self.symbol.clone(),
            quantity: self.quantity,
            price: self.price,
            side: self.side,
        }
    }

    /// Resting priority of `self` against `other`, assumed to sit on the same
    /// side of a book: better price first, then earlier id first.
    pub fn cmp(&self, other: &Order) -> (r: core::cmp::Ordering)
        ensures
            r == spec_order_cmp(self@, other@),
    {
        if self.side == Side::Buy {
            if other.price < self.price {
                core::cmp::Ordering::Less
            } else if other.price > self.price {
                core::cmp::Ordering::Greater
            } else if self.id < other.id {
                core::cmp::Ordering::Less
            } else if self.id > other.id {
                core::cmp::Ordering::Greater
            } else {
                core::cmp::Ordering::Equal
            }
        } else {
            if self.price < other.price {
                core::cmp::Ordering::Less
            } else if self.price > other.price {
                core::cmp::Ordering::Greater
            } else if self.id < other.id {
                core::cmp::Ordering::Less
            } else if self.id > other.id {
                core::cmp::Ordering::Greater
            } else {
                core::cmp::Ordering::Equal
            }
        }
    }
}

impl PartialEq for Order {
    /// Identity equality: the same order iff the same id.
    fn eq(&self, other: &Order) -> (r: bool) {
        self.id == other.id
    }
}

impl vstd::std_specs::cmp::PartialEqSpecImpl for Order {
    open spec fn obeys_eq_spec() -> bool {
        true
    }

    open spec fn eq_spec(&self, other: &Order) -> bool {
        self.id == other.id
    }
}

} // verus!
