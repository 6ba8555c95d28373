//! The market: one order book per resource, price discovery over every
//! submitted signal, and a portfolio.

use vstd::prelude::*;

use crate::book_laws::{book_wf, lemma_submit_preserves_wf, lemma_submit_trades_name_order};
use crate::order::OrderSide;
use crate::order_book::{BookView, OrderBook, empty_book, spec_submit};
use crate::portfolio::{Portfolio, Position};
use crate::price_discovery::PriceDiscovery;
use crate::ternary::{Ternary, sign_of, signal_sum};

verus! {

/// What a market holds: the resources that have a book, in the order their
/// books were opened, and the book of each (`books[i]` is the book of
/// `resources[i]`), every signal submitted, and its portfolio.
pub struct MarketView {
    pub resources: Seq<Seq<char>>,
    pub books: Seq<BookView>,
    pub signals: Seq<Ternary>,
    pub portfolio: Seq<Position>,
}

/// The index of the first occurrence of `r` in `keys`, or -1.
pub open spec fn key_index(keys: Seq<Seq<char>>, r: Seq<char>) -> int
    decreases keys.len(),
{
    if keys.len() == 0 {
        -1
    } else {
        let k = key_index(keys.drop_last(), r);
        if k >= 0 {
            k
        } else if keys.last() == r {
            keys.len() - 1
        } else {
            -1
        }
    }
}

/// One book per resource: as many books as resources, and no resource twice.
pub open spec fn keys_ok(m: MarketView) -> bool {
    m.resources.len() == m.books.len() && m.resources.no_duplicates()
}

/// The resources once `r` has a book.
pub open spec fn keys_with(keys: Seq<Seq<char>>, r: Seq<char>) -> Seq<Seq<char>> {
    if key_index(keys, r) >= 0 {
        keys
    } else {
        keys.push(r)
    }
}

/// The books once `r` has one: a new empty book is added when it has none.
pub open spec fn books_with(m: MarketView, r: Seq<char>) -> Seq<BookView> {
    if key_index(m.resources, r) >= 0 {
        m.books
    } else {
        m.books.push(empty_book(r))
    }
}

/// Where the book for `r` stands once `r` has one.
pub open spec fn book_slot(m: MarketView, r: Seq<char>) -> int {
    if key_index(m.resources, r) >= 0 {
        key_index(m.resources, r)
    } else {
        m.resources.len() as int
    }
}

/// The market after an order for resource `r` is submitted: the order goes
/// to that resource's book (a new one if there was none) and its signal to
/// price discovery.
pub open spec fn spec_submit_order(
    m: MarketView,
    r: Seq<char>,
    side: OrderSide,
    quantity: u32,
    signal: Ternary,
    trader: Seq<char>,
) -> MarketView {
    let books = books_with(m, r);
    let i = book_slot(m, r);
    MarketView {
        resources: keys_with(m.resources, r),
        books: books.update(i, spec_submit(books[i], side, quantity, signal, trader)),
        signals: m.signals.push(signal),
        portfolio: m.portfolio,
    }
}

/// The number of trades over all books.
pub open spec fn total_trade_count(books: Seq<BookView>) -> nat
    decreases books.len(),
{
    if books.len() == 0 {
        0
    } else {
        total_trade_count(books.drop_last()) + books.last().trades.len()
    }
}

/// The views of a sequence of books.
pub open spec fn books_view(s: Seq<OrderBook>) -> Seq<BookView> {
    s.map_values(|b: OrderBook| b@)
}

/// The views of a sequence of names.
pub open spec fn names_view(s: Seq<String>) -> Seq<Seq<char>> {
    s.map_values(|k: String| k@)
}

/// `key_index` finds the first occurrence of `r`, or reports that there is
/// none.
proof fn lemma_key_index(keys: Seq<Seq<char>>, r: Seq<char>)
    ensures
        -1 <= key_index(keys, r) < keys.len(),
        key_index(keys, r) >= 0 ==> keys[key_index(keys, r)] == r,
        forall|j: int|
            0 <= j < keys.len() && (key_index(keys, r) < 0 || j < key_index(keys, r))
                ==> #[trigger] keys[j] != r,
    decreases keys.len(),
{
    if keys.len() > 0 {
        let pre = keys.drop_last();
        lemma_key_index(pre, r);
        assert forall|j: int| 0 <= j < pre.len() implies #[trigger] keys[j] == pre[j] by {}
    }
}

/// Whatever is the first occurrence of `r` is the one `key_index` finds,
/// and with no occurrence there is no index.
proof fn lemma_key_index_unique(keys: Seq<Seq<char>>, r: Seq<char>, k: int)
    ensures
        0 <= k < keys.len() && keys[k] == r && (forall|j: int| 0 <= j < k ==> #[trigger] keys[j] != r)
            ==> key_index(keys, r) == k,
        (forall|j: int| 0 <= j < keys.len() ==> #[trigger] keys[j] != r) ==> key_index(keys, r)
            == -1,
{
    lemma_key_index(keys, r);
    let p = key_index(keys, r);
    if 0 <= k < keys.len() && keys[k] == r && (forall|j: int| 0 <= j < k ==> #[trigger] keys[j] != r) {
        if p < 0 {
            assert(keys[k] != r);
        } else if p < k {
            assert(keys[p] != r);
        } else if p > k {
            assert(keys[k] != r);
        }
    }
    if forall|j: int| 0 <= j < keys.len() ==> #[trigger] keys[j] != r {
        if p >= 0 {
            assert(keys[p] != r);
        }
    }
}

/// Opening the book for `r`, if it has none, keeps one book per resource.
proof fn lemma_keys_with(m: MarketView, r: Seq<char>)
    requires
        keys_ok(m),
    ensures
        keys_with(m.resources, r).len() == books_with(m, r).len(),
        keys_with(m.resources, r).no_duplicates(),
        0 <= book_slot(m, r) < books_with(m, r).len(),
        keys_with(m.resources, r)[book_slot(m, r)] == r,
{
    lemma_key_index(m.resources, r);
    let ks = keys_with(m.resources, r);
    if key_index(m.resources, r) < 0 {
        assert forall|i: int, j: int| 0 <= i < ks.len() && 0 <= j < ks.len() && i != j implies ks[i]
            != ks[j] by {
            if i < m.resources.len() && j < m.resources.len() {
                assert(m.resources[i] != m.resources[j]);
            } else if i < m.resources.len() {
                assert(m.resources[i] != r);
            } else {
                assert(m.resources[j] != r);
            }
        }
    }
}

/// The main market structure.
#[derive(Debug)]
pub struct Market {
    resources: Vec<String>,
    books: Vec<OrderBook>,
    price_discovery: PriceDiscovery,
    portfolio: Portfolio,
}

impl View for Market {
    type V = MarketView;

    closed spec fn view(&self) -> MarketView {
        MarketView {
            resources: names_view(self.resources@),
            books: books_view(self.books@),
            signals: self.price_discovery@,
            portfolio: self.portfolio@,
        }
    }
}

impl Market {
    pub fn new() -> (m: Self)
        ensures
            m@ == (MarketView {
                resources: seq![],
                books: seq![],
                signals: seq![],
                portfolio: seq![],
            }),
            keys_ok(m@),
    {
        let m = Market {
            resources: Vec::new(),
            books: Vec::new(),
            price_discovery: PriceDiscovery::new(),
            portfolio: Portfolio::new(),
        };
        assert(m@.resources =~= seq![]);
        assert(m@.books =~= seq![]);
        m
    }

    /// The index of the book for `resource`, if there is one.
    fn find_book(&self, resource: &String) -> (r: Option<usize>)
        ensures
            match r {
                Some(k) => k == key_index(self@.resources, resource@),
                None => key_index(self@.resources, resource@) == -1,
            },
    {
        let mut i: usize = 0;
        while i < self.resources.len()
            invariant
                i <= self.resources.len(),
                forall|j: int| 0 <= j < i ==> #[trigger] self@.resources[j] != resource@,
            decreases self.resources.len() - i,
        {
            assert(self@.resources[i as int] == self.resources@[i as int]@);
            if self.resources[i] == *resource {
                proof {
                    lemma_key_index_unique(self@.resources, resource@, i as int);
                }
                return Some(i);
            }
            i = i + 1;
        }
        proof {
            lemma_key_index_unique(self@.resources, resource@, 0);
        }
        None
    }

    /// Get or create an order book for a resource.
    pub fn book(&mut self, resource: &str) -> (b: &mut OrderBook)
        requires
            keys_ok(old(self)@),
        ensures
            b@ == books_with(old(self)@, resource@)[book_slot(old(self)@, resource@)],
            final(self)@ == (MarketView {
                resources: keys_with(old(self)@.resources, resource@),
                books: books_with(old(self)@, resource@).update(
                    book_slot(old(self)@, resource@),
                    final(b)@,
                ),
                ..old(self)@
            }),
            keys_ok(final(self)@),
            market_wf(old(self)@) ==> book_wf(b@) && b@.resource == resource@,
    {
        proof {
            lemma_key_index(old(self)@.resources, resource@);
            lemma_keys_with(old(self)@, resource@);
        }
        let key = resource.to_owned();
        let idx = match self.find_book(&key) {
            Some(i) => i,
            None => {
                let nb = OrderBook::new(resource);
                let ghost before_books = self.books@;
                let ghost before_keys = self.resources@;
                self.books.push(nb);
                self.resources.push(key);
                proof {
                    assert(books_view(self.books@) =~= books_view(before_books).push(nb@));
                    assert(names_view(self.resources@) =~= names_view(before_keys).push(resource@));
                }
                self.books.len() - 1
            },
        };
        assert(self@.books == books_with(old(self)@, resource@));
        assert(self@.resources == keys_with(old(self)@.resources, resource@));
        assert(self@.books[idx as int] == self.books@[idx as int]@);
        let ghost before = self.books@;
        let b = &mut self.books[idx];
        proof {
            assert(books_view(before.update(idx as int, *final(b))) =~= books_view(before).update(
                idx as int,
                final(b)@,
            ));
        }
        b
    }

    /// Submit an order to a resource's book.
    pub fn submit_order(
        &mut self,
        resource: &str,
        side: OrderSide,
        quantity: u32,
        price_signal: Ternary,
        trader: &str,
    ) -> (id: u64)
        requires
            keys_ok(old(self)@),
            books_with(old(self)@, resource@)[book_slot(old(self)@, resource@)].next_id < u64::MAX,
        ensures
            id == books_with(old(self)@, resource@)[book_slot(old(self)@, resource@)].next_id,
            final(self)@ == spec_submit_order(
                old(self)@,
                resource@,
                side,
                quantity,
                price_signal,
                trader@,
            ),
            keys_ok(final(self)@),
            market_wf(old(self)@) ==> market_wf(final(self)@),
    {
        proof {
            lemma_keys_with(old(self)@, resource@);
            if market_wf(old(self)@) {
                lemma_submit_order_preserves_wf(
                    old(self)@,
                    resource@,
                    side,
                    quantity,
                    price_signal,
                    trader@,
                );
            }
        }
        let id = self.book(resource).submit(side, quantity, price_signal, trader);
        self.price_discovery.push(price_signal);
        id
    }

    pub fn current_signal(&self) -> (r: Ternary)
        ensures
            r == sign_of(signal_sum(self@.signals)),
    {
        self.price_discovery.current_signal()
    }

    pub fn portfolio(&self) -> (p: &Portfolio)
        ensures
            p@ == self@.portfolio,
    {
        &self.portfolio
    }

    pub fn portfolio_mut(&mut self) -> (p: &mut Portfolio)
        ensures
            p@ == old(self)@.portfolio,
            final(self)@ == (MarketView { portfolio: final(p)@, ..old(self)@ }),
            keys_ok(old(self)@) ==> keys_ok(final(self)@),
            market_wf(old(self)@) ==> market_wf(final(self)@),
    {
        &mut self.portfolio
    }

    /// The resources that have a book, in the order their books were opened.
    pub fn resources(&self) -> (r: Vec<&str>)
        ensures
            r@.map_values(|s: &str| s@) == self@.resources,
            keys_ok(self@) ==> r@.map_values(|s: &str| s@).no_duplicates(),
    {
        let mut r: Vec<&str> = Vec::new();
        let mut i: usize = 0;
        while i < self.resources.len()
            invariant
                i <= self.resources.len(),
                r@.map_values(|s: &str| s@) == self@.resources.take(i as int),
            decreases self.resources.len() - i,
        {
            assert(self@.resources[i as int] == self.resources@[i as int]@);
            let ghost before = r@;
            r.push(self.resources[i].as_str());
            assert(r@.map_values(|s: &str| s@) =~= before.map_values(|s: &str| s@).push(
                self@.resources[i as int],
            ));
            assert(self@.resources.take(i + 1) =~= self@.resources.take(i as int).push(
                self@.resources[i as int],
            ));
            i = i + 1;
        }
        assert(self@.resources.take(i as int) =~= self@.resources);
        r
    }

    pub fn total_trades(&self) -> (r: usize)
        requires
            total_trade_count(self@.books) <= usize::MAX,
        ensures
            r == total_trade_count(self@.books),
    {
        let mut sum: usize = 0;
        let mut i: usize = 0;
        while i < self.books.len()
            invariant
                i <= self.books.len(),
                total_trade_count(self@.books) <= usize::MAX,
                sum == total_trade_count(self@.books.take(i as int)),
            decreases self.books.len() - i,
        {
            assert(self@.books[i as int] == self.books@[i as int]@);
            assert(self@.books.take(i + 1).drop_last() =~= self@.books.take(i as int));
            proof {
                lemma_trade_count_prefix(self@.books, i + 1);
            }
            sum = sum + self.books[i].trade_count();
            i = i + 1;
        }
        assert(self@.books.take(i as int) =~= self@.books);
        sum
    }
}

impl Default for Market {
    fn default() -> (m: Self)
        ensures
            m@ == (MarketView { resources: seq![], books: seq![], signals: seq![], portfolio: seq![] }),
            keys_ok(m@),
    {
        Self::new()
    }
}

/// The books of a prefix hold no more trades than all of them.
proof fn lemma_trade_count_prefix(books: Seq<BookView>, n: int)
    requires
        0 <= n <= books.len(),
    ensures
        total_trade_count(books.take(n)) <= total_trade_count(books),
    decreases books.len(),
{
    if n == books.len() {
        assert(books.take(n) =~= books);
    } else {
        assert(books.drop_last().take(n) =~= books.take(n));
        lemma_trade_count_prefix(books.drop_last(), n);
    }
}

/// The invariant of a market: one book per resource, each book for its own
/// resource and well-formed.
pub open spec fn market_wf(m: MarketView) -> bool {
    &&& keys_ok(m)
    &&& forall|i: int| 0 <= i < m.books.len() ==> #[trigger] m.books[i].resource == m.resources[i]
    &&& forall|i: int| 0 <= i < m.books.len() ==> #[trigger] book_wf(m.books[i])
}

proof fn lemma_trade_count_update(books: Seq<BookView>, k: int, b: BookView)
    requires
        0 <= k < books.len(),
    ensures
        total_trade_count(books.update(k, b)) + books[k].trades.len() == total_trade_count(books)
            + b.trades.len(),
    decreases books.len(),
{
    let t = books.update(k, b);
    if k == books.len() - 1 {
        assert(t.drop_last() =~= books.drop_last());
    } else {
        assert(t.drop_last() =~= books.drop_last().update(k, b));
        lemma_trade_count_update(books.drop_last(), k, b);
    }
}

/// Handing out the book for `r` keeps the market well-formed as long as
/// what is done with that book keeps it well-formed and for `r` (as every
/// `OrderBook` method does): the book handed out is well-formed and for `r`,
/// and putting back any such book gives a well-formed market.
pub proof fn lemma_book_keeps_wf(m: MarketView, r: Seq<char>, b: BookView)
    requires
        market_wf(m),
        book_wf(b),
        b.resource == r,
    ensures
        book_wf(books_with(m, r)[book_slot(m, r)]),
        books_with(m, r)[book_slot(m, r)].resource == r,
        market_wf(
            MarketView {
                resources: keys_with(m.resources, r),
                books: books_with(m, r).update(book_slot(m, r), b),
                ..m
            },
        ),
{
    lemma_key_index(m.resources, r);
    lemma_keys_with(m, r);
    let books = books_with(m, r);
    let keys = keys_with(m.resources, r);
    let k = book_slot(m, r);
    let after = MarketView { resources: keys, books: books.update(k, b), ..m };
    assert(book_wf(empty_book(r)));
    assert forall|i: int| 0 <= i < after.books.len() implies #[trigger] after.books[i].resource
        == after.resources[i] && book_wf(after.books[i]) by {
        if i != k {
            assert(book_wf(m.books[i]) && m.books[i].resource == m.resources[i]);
        }
    }
    if key_index(m.resources, r) >= 0 {
        assert(book_wf(m.books[k]) && m.books[k].resource == m.resources[k]);
    }
}

/// Submitting an order keeps the market well-formed: still one book per
/// resource, and every book for its resource and well-formed.  Only the book
/// for the order's resource changes.
pub proof fn lemma_submit_order_preserves_wf(
    m: MarketView,
    r: Seq<char>,
    side: OrderSide,
    quantity: u32,
    signal: Ternary,
    trader: Seq<char>,
)
    requires
        market_wf(m),
        books_with(m, r)[book_slot(m, r)].next_id < u64::MAX,
    ensures
        market_wf(spec_submit_order(m, r, side, quantity, signal, trader)),
        forall|j: int|
            0 <= j < m.books.len() && j != book_slot(m, r) ==> #[trigger] spec_submit_order(
                m,
                r,
                side,
                quantity,
                signal,
                trader,
            ).books[j] == m.books[j],
        spec_submit_order(m, r, side, quantity, signal, trader).books[book_slot(m, r)].resource
            == r,
{
    let books = books_with(m, r);
    let k = book_slot(m, r);
    lemma_key_index(m.resources, r);
    lemma_keys_with(m, r);
    assert(book_wf(empty_book(r)));
    if key_index(m.resources, r) >= 0 {
        assert(book_wf(m.books[k]) && m.books[k].resource == m.resources[k]);
    }
    lemma_submit_preserves_wf(books[k], side, quantity, signal, trader);
    lemma_book_keeps_wf(m, r, spec_submit(books[k], side, quantity, signal, trader));
    assert(spec_submit_order(m, r, side, quantity, signal, trader) == (MarketView {
        resources: keys_with(m.resources, r),
        books: books_with(m, r).update(k, spec_submit(books[k], side, quantity, signal, trader)),
        signals: m.signals.push(signal),
        portfolio: m.portfolio,
    }));
}

/// Submitting an order changes the market's trade count only by the trades
/// that its book gains, and never lowers it; a new book brings none.
pub proof fn lemma_submit_order_trade_count(
    m: MarketView,
    r: Seq<char>,
    side: OrderSide,
    quantity: u32,
    signal: Ternary,
    trader: Seq<char>,
)
    requires
        keys_ok(m),
    ensures
        ({
            let books = books_with(m, r);
            let k = book_slot(m, r);
            let after = spec_submit_order(m, r, side, quantity, signal, trader);
            &&& total_trade_count(after.books) + books[k].trades.len() == total_trade_count(m.books)
                + after.books[k].trades.len()
            &&& total_trade_count(m.books) <= total_trade_count(after.books)
        }),
{
    lemma_key_index(m.resources, r);
    lemma_keys_with(m, r);
    let books = books_with(m, r);
    let k = book_slot(m, r);
    if key_index(m.resources, r) < 0 {
        assert(books.drop_last() =~= m.books);
    }
    lemma_trade_count_update(books, k, spec_submit(books[k], side, quantity, signal, trader));
    lemma_submit_trades_name_order(books[k], side, quantity, signal, trader);
}

impl Clone for Market {
    fn clone(&self) -> (r: Self)
        ensures
            r@ == self@,
    {
        let r = Market {
            resources: self.resources.clone(),
            books: self.books.clone(),
            price_discovery: self.price_discovery.clone(),
            portfolio: self.portfolio.clone(),
        };
        assert(names_view(r.resources@) =~= names_view(self.resources@));
        assert(books_view(r.books@) =~= books_view(self.books@));
        r
    }
}

/// Every submission, whatever its side, adds its signal to price
/// discovery: the signals grow by exactly that one signal, and the market's
/// direction becomes the sign of the old sum plus its value.  No book other
/// than the order's own changes, and the portfolio is untouched.
pub proof fn lemma_submit_order_records_signal(
    m: MarketView,
    r: Seq<char>,
    side: OrderSide,
    quantity: u32,
    signal: Ternary,
    trader: Seq<char>,
)
    ensures
        ({
            let after = spec_submit_order(m, r, side, quantity, signal, trader);
            &&& after.signals == m.signals.push(signal)
            &&& after.signals.len() == m.signals.len() + 1
            &&& sign_of(signal_sum(after.signals)) == sign_of(signal_sum(m.signals) + signal.value())
            &&& after.portfolio == m.portfolio
        }),
{
    crate::ternary::lemma_signal_sum_push(m.signals, signal);
}

} // verus!
