use orderbook::{AddOrderErrors, Book, Order, Queue};

fn sum_queue(book_level: &orderbook::PriceLevel) -> u16 {
    book_level.queue().items().iter().map(|i| i.size).sum::<u16>()
}

fn bid_and_ask_book() -> Book {
    let mut book = Book::new();
    book.add_bid(Order { price: 40, size: 100, id: 1 });
    assert!(book.add_ask(Order { price: 50, size: 100, id: 1 }).is_ok());
    assert_eq!(book.highest_bid(), 40);
    assert_eq!(book.lowest_ask(), 50);
    book
}

fn two_bid_levels_book() -> Book {
    let mut book = Book::new();
    book.add_bid(Order { price: 40, size: 100, id: 1 });
    book.add_bid(Order { price: 39, size: 100, id: 2 });
    assert!(book.add_ask(Order { price: 50, size: 100, id: 3 }).is_ok());
    assert_eq!(book.highest_bid(), 40);
    assert_eq!(book.bid_price_levels_count(), 2);
    book
}

#[test]
fn update_queue() {
    let mut queue = Queue::new();

    let a = Order { id: 1, size: 100, price: 100 };
    let b = Order { id: 2, size: 200, price: 100 };
    let c = Order { id: 3, size: 50, price: 100 };
    let d = Order { id: 4, size: 150, price: 100 };

    queue.add(a);
    queue.add(b);
    queue.add(c);
    queue.add(d);

    let mut buf = vec![];
    queue.consume(375, &mut buf);
    let remaining_item = queue.get().unwrap();

    assert_eq!(buf.len(), 4);
    assert_eq!(buf.iter().map(|item| item.size).sum::<u16>(), 375);

    assert_eq!(remaining_item.id, 4);
    assert_eq!(remaining_item.size, 125);
}

#[test]
fn add_first_bid() {
    let mut book = Book::new();

    let a = Order { id: 1, size: 100, price: 100 };
    let b = Order { id: 2, size: 200, price: 100 };

    book.add_bid(a);
    book.add_bid(b);

    assert_eq!(book.highest_bid(), 100);
    assert_eq!(book.bid_price_levels_count(), 1);

    let price_level = book.bid_levels().first().unwrap();
    assert_eq!(price_level.queue().items().len(), 2);
    assert_eq!(sum_queue(price_level), 300);
}

#[test]
fn higher_bid_price_level() {
    let mut book = Book::new();
    book.add_bid(Order { price: 50, size: 100, id: 1 });
    assert_eq!(book.highest_bid(), 50);

    let a = Order { id: 2, size: 100, price: 100 };
    let b = Order { id: 3, size: 200, price: 100 };

    book.add_bid(a);
    book.add_bid(b);

    assert_eq!(book.highest_bid(), 100);
    assert_eq!(book.bid_price_levels_count(), 2);

    let highest_price_level = book.bid_levels().first().unwrap();
    assert_eq!(highest_price_level.queue().items().len(), 2);
    assert_eq!(sum_queue(highest_price_level), 300);
}

#[test]
fn add_lower_bid_price_level() {
    let mut book = Book::new();
    book.add_bid(Order { price: 500, size: 100, id: 1 });

    let a = Order { id: 2, size: 100, price: 100 };
    let b = Order { id: 3, size: 200, price: 100 };

    book.add_bid(a);
    book.add_bid(b);

    assert_eq!(book.highest_bid(), 500);
    assert_eq!(book.bid_price_levels_count(), 2);

    let lowest_price_level = book.bid_levels().last().unwrap();
    assert_eq!(lowest_price_level.queue().items().len(), 2);
    assert_eq!(sum_queue(lowest_price_level), 300);
}

#[test]
fn add_first_ask() {
    let mut book = Book::new();

    let a = Order { id: 1, size: 100, price: 100 };
    let b = Order { id: 2, size: 200, price: 100 };

    assert!(book.add_ask(a).is_ok());
    assert!(book.add_ask(b).is_ok());

    assert_eq!(book.lowest_ask(), 100);
    assert_eq!(book.ask_price_levels_count(), 1);

    let price_level = book.ask_levels().first().unwrap();
    assert_eq!(price_level.queue().items().len(), 2);
    assert_eq!(sum_queue(price_level), 300);
}

#[test]
fn lower_ask_price_level() {
    let mut book = Book::new();
    assert!(book.add_ask(Order { price: 200, size: 100, id: 1 }).is_ok());
    assert_eq!(book.lowest_ask(), 200);

    let a = Order { id: 2, size: 100, price: 100 };
    let b = Order { id: 3, size: 200, price: 100 };

    assert!(book.add_ask(a).is_ok());
    assert!(book.add_ask(b).is_ok());

    assert_eq!(book.lowest_ask(), 100);
    assert_eq!(book.ask_price_levels_count(), 2);

    let lowest_ask_price_level = book.ask_levels().first().unwrap();
    assert_eq!(lowest_ask_price_level.queue().items().len(), 2);
    assert_eq!(sum_queue(lowest_ask_price_level), 300);

    let old_level = book.ask_levels().last().unwrap();
    assert_eq!(old_level.price(), 200);
    assert_eq!(old_level.volume(), 100);
    assert_eq!(old_level.queue().items().len(), 1);
}

#[test]
fn add_higher_ask_price_level() {
    let mut book = Book::new();
    assert!(book.add_ask(Order { price: 50, size: 100, id: 1 }).is_ok());

    let a = Order { id: 2, size: 100, price: 100 };
    let b = Order { id: 3, size: 200, price: 100 };

    assert!(book.add_ask(a).is_ok());
    assert!(book.add_ask(b).is_ok());

    assert_eq!(book.lowest_ask(), 50);
    assert_eq!(book.ask_price_levels_count(), 2);

    let highest_ask_price_level = book.ask_levels().last().unwrap();
    assert_eq!(highest_ask_price_level.queue().items().len(), 2);
    assert_eq!(sum_queue(highest_ask_price_level), 300);
}

#[test]
fn match_ask() {
    let mut book = bid_and_ask_book();

    let a = Order { id: 3, size: 100, price: 40 };

    assert!(book.add_ask(a).is_ok());

    assert_eq!(book.highest_bid(), 0);
    assert_eq!(book.bid_price_levels_count(), 0);
}

#[test]
fn match_ask_keeping_highest_bid() {
    let mut book = bid_and_ask_book();

    let a = Order { id: 3, size: 90, price: 40 };

    assert!(book.add_ask(a).is_ok());

    assert_eq!(book.highest_bid(), 40);
    assert_eq!(book.bid_price_levels_count(), 1);
    assert_eq!(book.bid_levels()[0].volume(), 10);
}

#[test]
fn match_ask_insufficient_volume() {
    let mut book = bid_and_ask_book();

    let a = Order { id: 3, size: 110, price: 40 };

    let result = book.add_ask(a);

    assert!(matches!(result, Err(AddOrderErrors::InsufficientMatch)));
    assert_eq!(book.highest_bid(), 40);
}

#[test]
fn match_ask_consume_two_levels() {
    let mut book = two_bid_levels_book();

    let a = Order { id: 4, size: 110, price: 38 };

    assert!(book.add_ask(a).is_ok());

    assert_eq!(book.highest_bid(), 39);
    assert_eq!(book.bid_price_levels_count(), 1);
    assert_eq!(book.last_consumed_orders().len(), 2);
    assert_eq!(book.last_consumed_orders().iter().map(|x| x.size).sum::<u16>(), 110);
}

#[test]
fn match_ask_consume_all_levels() {
    let mut book = two_bid_levels_book();

    let a = Order { id: 4, size: 200, price: 38 };

    assert!(book.add_ask(a).is_ok());

    assert_eq!(book.highest_bid(), 0);
    assert_eq!(book.bid_price_levels_count(), 0);
    assert_eq!(book.last_consumed_orders().len(), 2);
}
