//! Orders, trading pairs and the request / response values of the order API.

use vstd::prelude::*;
use vstd::string::StringExecFns;

verus! {

/// Number of integer units in one unit of price or quantity.
pub const PRECISION: u64 = 1_000_000;

/// Side of an order.
#[derive(Debug, Clone, Copy, PartialEq, Eq, Structural)]
pub enum OrderType {
    Buy,
    Sell,
}

/// A market, written `BASE/QUOTE`.
#[derive(Debug)]
pub struct TradingPair {
    pub base: String,
    pub quote: String,
}

/// Number of occurrences of `c` in `s`.
pub open spec fn count_char(s: Seq<char>, c: char) -> nat
    decreases s.len(),
{
    if s.len() == 0 {
        0
    } else {
        count_char(s.drop_last(), c) + if s.last() == c { 1nat } else { 0nat }
    }
}

/// `p` is the pair written by `s`: `s` is `base/quote` and `base` holds no `/`
/// (so the split is the only one when `s` holds exactly one `/`).
pub open spec fn pair_written_as(p: TradingPair, s: Seq<char>) -> bool {
    &&& s == p.base@ + seq!['/'] + p.quote@
    &&& count_char(p.base@, '/') == 0
}

/// The text of the error returned for a pair that is not `BASE/QUOTE`.
pub open spec fn invalid_pair_message() -> Seq<char> {
    "Invalid trading pair format. Use BASE/QUOTE"@
}

proof fn lemma_count_char_concat(a: Seq<char>, b: Seq<char>, c: char)
    ensures
        count_char(a + b, c) == count_char(a, c) + count_char(b, c),
    decreases b.len(),
{
    if b.len() == 0 {
        assert(a + b =~= a);
    } else {
        lemma_count_char_concat(a, b.drop_last(), c);
        assert((a + b).drop_last() =~= a + b.drop_last());
    }
}

/// `String::push`: appends one character.
#[verifier::external_body]
fn push_char(s: &mut String, c: char)
    ensures
        final(s)@ == old(s)@.push(c),
{
    s.push(c)
}

/// A string holding `chars[from..to]`.
fn string_of(chars: &Vec<char>, from: usize, to: usize) -> (r: String)
    requires
        from <= to <= chars.len(),
    ensures
        r@ == chars@.subrange(from as int, to as int),
{
    let mut r = String::new();
    let mut i = from;
    while i < to
        invariant
            from <= i <= to <= chars.len(),
            r@ == chars@.subrange(from as int, i as int),
        decreases to - i,
    {
        push_char(&mut r, chars[i]);
        assert(chars@.subrange(from as int, i + 1) =~= chars@.subrange(from as int, i as int).push(
            chars@[i as int],
        ));
        i = i + 1;
    }
    r
}

impl TradingPair {
    /// The pair `base/quote`.
    pub fn new(base: &str, quote: &str) -> (r: Self)
        ensures
            r.base@ == base@,
            r.quote@ == quote@,
    {
        TradingPair { base: String::from_str(base), quote: String::from_str(quote) }
    }

    /// Parses `BASE/QUOTE`: succeeds exactly when `s` holds one `/`.
    pub fn from_string(s: &str) -> (r: Result<Self, String>)
        ensures
            r is Ok <==> count_char(s@, '/') == 1,
            r matches Ok(p) ==> pair_written_as(p, s@),
            r matches Err(e) ==> e@ == invalid_pair_message(),
    {
        let mut chars: Vec<char> = Vec::new();
        let mut slashes: usize = 0;
        let mut slash_at: usize = 0;
        for c in it: s.chars()
            invariant
                it.seq() == s@,
                chars@ == s@.take(it.index() as int),
                slashes == count_char(chars@, '/'),
                slashes <= chars.len(),
                slashes >= 1 ==> slash_at < chars.len() && chars@[slash_at as int] == '/'
                    && count_char(chars@.take(slash_at as int), '/') == 0,
        {
            proof {
                assert(chars@.push(c).drop_last() =~= chars@);
                if slashes == 0 {
                    assert(chars@.take(chars@.len() as int) =~= chars@);
                } else {
                    assert(chars@.push(c).take(slash_at as int) =~= chars@.take(slash_at as int));
                }
            }
            chars.push(c);
            if c == '/' {
                if slashes == 0 {
                    slash_at = chars.len() - 1;
                }
                slashes = slashes + 1;
            }
        }
        assert(chars@ =~= s@);
        if slashes != 1 {
            return Err(String::from_str("Invalid trading pair format. Use BASE/QUOTE"));
        }
        let base = string_of(&chars, 0, slash_at);
        let quote = string_of(&chars, slash_at + 1, chars.len());
        proof {
            assert(chars@ =~= chars@.subrange(0, slash_at as int) + seq!['/']
                + chars@.subrange(slash_at + 1, chars@.len() as int));
            assert(chars@.take(slash_at as int) =~= chars@.subrange(0, slash_at as int));
        }
        Ok(TradingPair { base, quote })
    }
}

impl Clone for TradingPair {
    fn clone(&self) -> (r: Self)
        ensures
            r == *self,
    {
        TradingPair { base: self.base.clone(), quote: self.quote.clone() }
    }
}

impl TradingPair {
    /// The text `BASE/QUOTE`.
    pub fn to_string(&self) -> (r: String)
        ensures
            r@ == self.base@ + seq!['/'] + self.quote@,
    {
        let mut r = self.base.clone();
        push_char(&mut r, '/');
        r.append(self.quote.as_str());
        r
    }

    /// Whether both pairs name the same base and quote.
    pub fn same_as(&self, other: &TradingPair) -> (r: bool)
        ensures
            r == (self.base@ == other.base@ && self.quote@ == other.quote@),
    {
        self.base == other.base && self.quote == other.quote
    }
}

/// Writing a pair and parsing the text back gives the same pair, for every pair
/// whose base and quote hold no `/`.
pub proof fn lemma_pair_text_round_trip(p: TradingPair)
    requires
        count_char(p.base@, '/') == 0,
        count_char(p.quote@, '/') == 0,
    ensures
        count_char(p.base@ + seq!['/'] + p.quote@, '/') == 1,
        forall|q: TradingPair|
            pair_written_as(q, p.base@ + seq!['/'] + p.quote@) ==> q.base@ == p.base@
                && q.quote@ == p.quote@,
{
    let s = p.base@ + seq!['/'] + p.quote@;
    lemma_count_char_concat(p.base@, seq!['/'], '/');
    lemma_count_char_concat(p.base@ + seq!['/'], p.quote@, '/');
    assert(seq!['/'].drop_last() =~= Seq::<char>::empty());
    assert(count_char(seq!['/'], '/') == 1) by {
        reveal_with_fuel(count_char, 2);
        assert(seq!['/'].last() == '/');
    }
    assert forall|q: TradingPair| pair_written_as(q, s) implies q.base@ == p.base@
        && q.quote@ == p.quote@ by {
        lemma_split_at_only_slash(q.base@, q.quote@, p.base@, p.quote@);
    }
}

proof fn lemma_split_at_only_slash(a: Seq<char>, b: Seq<char>, c: Seq<char>, d: Seq<char>)
    requires
        a + seq!['/'] + b == c + seq!['/'] + d,
        count_char(a, '/') == 0,
        count_char(c, '/') == 0,
    ensures
        a == c,
        b == d,
    decreases a.len() + c.len(),
{
    let s = a + seq!['/'] + b;
    if a.len() < c.len() {
        assert(s[a.len() as int] == '/');
        assert(c[a.len() as int] == '/');
        lemma_count_positive(c, a.len() as int);
    } else if c.len() < a.len() {
        assert(s[c.len() as int] == '/');
        assert(a[c.len() as int] == '/');
        lemma_count_positive(a, c.len() as int);
    } else {
        assert(a =~= s.subrange(0, a.len() as int));
        assert(c =~= s.subrange(0, c.len() as int));
        assert(b =~= s.subrange(a.len() + 1int, s.len() as int));
        assert(d =~= s.subrange(c.len() + 1int, s.len() as int));
    }
}

proof fn lemma_count_positive(s: Seq<char>, i: int)
    requires
        0 <= i < s.len(),
        s[i] == '/',
    ensures
        count_char(s, '/') > 0,
    decreases s.len(),
{
    if i < s.len() - 1 {
        lemma_count_positive(s.drop_last(), i);
    }
}

/// An order as the books hold it: `price` and `quantity` in units of
/// [`PRECISION`].
#[derive(Debug)]
pub struct Order {
    pub id: u64,
    pub trading_pair: TradingPair,
    pub order_type: OrderType,
    pub price: u64,
    pub quantity: u64,
}

impl Clone for Order {
    fn clone(&self) -> (r: Self)
        ensures
            r == *self,
    {
        Order {
            id: self.id,
            trading_pair: self.trading_pair.clone(),
            order_type: self.order_type,
            price: self.price,
            quantity: self.quantity,
        }
    }
}

impl Order {
    pub fn new(
        id: u64,
        trading_pair: TradingPair,
        order_type: OrderType,
        price: u64,
        quantity: u64,
    ) -> (r: Self)
        ensures
            r == (Order { id, trading_pair, order_type, price, quantity }),
    {
        Order { id, trading_pair, order_type, price, quantity }
    }
}

/// What `str::to_lowercase` gives for a text: its Unicode lowercase mapping.
pub uninterp spec fn lowercase(s: Seq<char>) -> Seq<char>;

/// `str::to_lowercase`: the lowercase form of `s`, as Unicode defines it.
#[verifier::external_body]
fn to_lowercase(s: &str) -> (r: String)
    ensures
        r@ == lowercase(s@),
{
    s.to_lowercase()
}

/// The side that an already lowercased order type names: `buy` or `sell`.
pub open spec fn side_named(lower: Seq<char>) -> Option<OrderType> {
    if lower == "buy"@ {
        Some(OrderType::Buy)
    } else if lower == "sell"@ {
        Some(OrderType::Sell)
    } else {
        None
    }
}

/// Reads an order type that has been lowercased already.
pub fn side_from_lowercase(lower: &String) -> (r: Option<OrderType>)
    ensures
        r == side_named(lower@),
{
    if *lower == String::from_str("buy") {
        Some(OrderType::Buy)
    } else if *lower == String::from_str("sell") {
        Some(OrderType::Sell)
    } else {
        None
    }
}

/// Reads an order type in any letter case (`buy`, `Sell`, `SELL`, ...).
pub fn parse_order_type(s: &str) -> (r: Option<OrderType>)
    ensures
        r == side_named(lowercase(s@)),
{
    let lower = to_lowercase(s);
    side_from_lowercase(&lower)
}

/// A request to place an order, with price and quantity already in units of
/// [`PRECISION`].
#[derive(Debug)]
pub struct PlaceOrderRequest {
    pub trading_pair: String,
    pub order_type: String,
    pub price: u64,
    pub quantity: u64,
}

/// The text of the error for prices or quantities that are not positive.
pub open spec fn not_positive_message() -> Seq<char> {
    "Price and quantity must be positive"@
}

/// The text of the error for an unknown order type.
pub open spec fn invalid_type_message(order_type: Seq<char>) -> Seq<char> {
    "Invalid order type: "@ + order_type
}

/// Why a request is refused, checked in this order: a pair that is not
/// `BASE/QUOTE`, an order type that is neither buy nor sell in any letter
/// case, a price or quantity that is not positive. `None` when it is not.
pub open spec fn request_error(req: PlaceOrderRequest) -> Option<Seq<char>> {
    if count_char(req.trading_pair@, '/') != 1 {
        Some(invalid_pair_message())
    } else if side_named(lowercase(req.order_type@)) is None {
        Some(invalid_type_message(req.order_type@))
    } else if req.price == 0 || req.quantity == 0 {
        Some(not_positive_message())
    } else {
        None
    }
}

/// `o` is the order numbered `id` that the request `req` asks for.
pub open spec fn order_requested(o: Order, req: PlaceOrderRequest, id: u64) -> bool {
    &&& pair_written_as(o.trading_pair, req.trading_pair@)
    &&& Some(o.order_type) == side_named(lowercase(req.order_type@))
    &&& o.id == id
    &&& o.price == req.price
    &&& o.quantity == req.quantity
}

impl PlaceOrderRequest {
    /// Checks the request and builds the order `id` from it.
    pub fn to_order(&self, id: u64) -> (r: Result<Order, String>)
        ensures
            match r {
                Ok(o) => request_error(*self) is None && order_requested(o, *self, id),
                Err(e) => request_error(*self) == Some(e@),
            },
    {
        let trading_pair = match TradingPair::from_string(self.trading_pair.as_str()) {
            Ok(p) => p,
            Err(e) => return Err(e),
        };
        let order_type = match parse_order_type(self.order_type.as_str()) {
            Some(t) => t,
            None => {
                let mut msg = String::from_str("Invalid order type: ");
                msg.append(self.order_type.as_str());
                return Err(msg);
            },
        };
        if self.price == 0 || self.quantity == 0 {
            return Err(String::from_str("Price and quantity must be positive"));
        }
        Ok(Order::new(id, trading_pair, order_type, self.price, self.quantity))
    }
}

/// The answer to a request to place an order.
#[derive(Debug)]
pub struct PlaceOrderResponse {
    pub success: bool,
    pub message: String,
}

/// A mid price, counted in halves of a price unit: the mean of two prices is
/// exact there.
#[derive(Debug, Clone, Copy, PartialEq, Eq, Structural)]
pub struct MidPrice {
    pub half_units: u128,
}

/// The mid price of a book whose best bid and best ask are `bid` and `ask`:
/// their mean when both exist, else the one that exists.
pub open spec fn mid_price(bid: Option<u64>, ask: Option<u64>) -> Option<MidPrice> {
    match (bid, ask) {
        (Some(b), Some(a)) => Some(MidPrice { half_units: (b + a) as u128 }),
        (Some(b), None) => Some(MidPrice { half_units: (2 * b) as u128 }),
        (None, Some(a)) => Some(MidPrice { half_units: (2 * a) as u128 }),
        (None, None) => None,
    }
}

/// The mid price of a book that is not crossed lies between its best bid and
/// its best ask (in halves of a unit: between twice the bid and twice the
/// ask).
pub proof fn lemma_mid_price_between(bid: u64, ask: u64)
    requires
        bid <= ask,
    ensures
        mid_price(Some(bid), Some(ask)) matches Some(m) && 2 * bid <= m.half_units <= 2 * ask,
{
}

/// The mid price is the mean of best bid `b` and best ask `a` when both
/// exist (`b + a` half units), the price of the one that exists otherwise,
/// and absent when neither does.
pub proof fn lemma_mid_price(bid: Option<u64>, ask: Option<u64>)
    ensures
        match (bid, ask) {
            (Some(b), Some(a)) => mid_price(bid, ask) matches Some(m) && m.half_units == b + a,
            (Some(b), None) => mid_price(bid, ask) matches Some(m) && m.half_units == 2 * b,
            (None, Some(a)) => mid_price(bid, ask) matches Some(m) && m.half_units == 2 * a,
            (None, None) => mid_price(bid, ask) is None,
        },
{
}

/// Computes [`mid_price`].
pub fn mid_price_of(bid: Option<u64>, ask: Option<u64>) -> (r: Option<MidPrice>)
    ensures
        r == mid_price(bid, ask),
{
    match (bid, ask) {
        (Some(b), Some(a)) => Some(MidPrice { half_units: b as u128 + a as u128 }),
        (Some(b), None) => Some(MidPrice { half_units: 2 * (b as u128) }),
        (None, Some(a)) => Some(MidPrice { half_units: 2 * (a as u128) }),
        (None, None) => None,
    }
}

/// The answer to a price query.
#[derive(Debug)]
pub struct PriceResponse {
    pub trading_pair: String,
    pub price: Option<MidPrice>,
    pub bid: Option<u64>,
    pub ask: Option<u64>,
}

} // verus!
