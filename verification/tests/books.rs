use matching_engine::account_book::{Account, AccountBook};
use matching_engine::dec::Dec;
use matching_engine::message::{MessageType, Outbox};
use matching_engine::product_book::{Product, ProductBook};

fn books_product(id: &str, base: &str, quote: &str) -> Product {
    Product { id: id.to_string(), base_currency: base.to_string(), quote_currency: quote.to_string() }
}

#[test]
fn a_product_put_is_found_and_published() {
    let mut products = ProductBook::new();
    let mut out = Outbox::new(10);
    products.put_product(&mut out, books_product("BTC-USD", "BTC", "USD"));
    products.put_product(&mut out, books_product("BTC-USD", "BTC", "USDT"));
    products.add_product(books_product("ETH-USD", "ETH", "USD"));
    let p = products.get_product(&"BTC-USD".to_string()).unwrap();
    assert_eq!(p.quote_currency, "USDT");
    assert!(products.get_product(&"XRP-USD".to_string()).is_none());
    let mut ids: Vec<String> = products.get_all_products().into_iter().map(|p| p.id).collect();
    ids.sort();
    assert_eq!(ids, vec!["BTC-USD".to_string(), "ETH-USD".to_string()]);
    assert_eq!(out.sequence, 12);
    assert!(matches!(out.messages[0].message_type, MessageType::Product(_)));
    assert_eq!(out.messages[0].sequence, 11);
}

#[test]
fn an_account_added_replaces_the_one_of_its_user_and_currency() {
    let mut book = AccountBook::new();
    book.add(Account {
        id: "a-USD".to_string(),
        user_id: "a".to_string(),
        currency: "USD".to_string(),
        available: Dec::new(5, 0),
        hold: Dec::new(1, 0),
    });
    book.add(Account {
        id: "a-USD".to_string(),
        user_id: "a".to_string(),
        currency: "USD".to_string(),
        available: Dec::new(7, 0),
        hold: Dec::new(0, 0),
    });
    let a = book.get_account("a", "USD").unwrap();
    assert_eq!(a.available.mantissa, 7);
    assert!(book.get_account("a", "EUR").is_none());
}
