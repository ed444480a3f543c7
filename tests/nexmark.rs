use dbsp::nexmark::{channel_id, classify_channel, q21, Bid, Event};

fn bid(channel: &str) -> Event {
    Event::Bid(Bid { auction: 1, bidder: 1, price: 99, channel: String::from(channel) })
}

#[test]
fn q21_known_channel_ids() {
    let events = vec![(bid("ApPlE"), 1), (bid("FaceBook"), 1), (bid("GooGle"), 1), (bid("Baidu"), 1)];
    let rows = q21::<isize>(&events);
    let expected = vec![
        ((1, 1, 99, String::from("ApPlE"), String::from("0")), 1),
        ((1, 1, 99, String::from("FaceBook"), String::from("2")), 1),
        ((1, 1, 99, String::from("GooGle"), String::from("1")), 1),
        ((1, 1, 99, String::from("Baidu"), String::from("3")), 1),
    ];
    assert_eq!(rows, expected);
}

#[test]
fn q21_unknown_channel_ids() {
    let events = vec![
        (bid("https://example.com/?channel_id=ubuntu"), 1),
        (bid("https://example.com/?channel_id=cherry-pie"), 1),
        (bid("https://example.com/?not_channelid=should-not-appear"), 1),
        (Event::Person, 1),
        (Event::Auction, 1),
    ];
    let rows = q21::<isize>(&events);
    let expected = vec![
        ((1, 1, 99, String::from("https://example.com/?channel_id=ubuntu"), String::from("ubuntu")), 1),
        (
            (1, 1, 99, String::from("https://example.com/?channel_id=cherry-pie"), String::from("cherry-pie")),
            1,
        ),
    ];
    assert_eq!(rows, expected);
}

#[test]
fn channel_id_cases() {
    assert_eq!(channel_id("ApPlE"), Some(String::from("0")));
    assert_eq!(channel_id("FaceBook"), Some(String::from("2")));
    assert_eq!(channel_id("https://x/?a=1&channel_id=ubuntu&b=2"), Some(String::from("ubuntu")));
    assert_eq!(channel_id("channel_id="), Some(String::from("")));
    assert_eq!(channel_id("apple pie"), None);
}

#[test]
fn q21_keeps_weights() {
    let events = vec![(bid("baidu"), -3)];
    let rows = q21::<i64>(&events);
    assert_eq!(rows, vec![((1, 1, 99, String::from("baidu"), String::from("3")), -3)]);
}

#[test]
fn classify_from_lowered() {
    assert_eq!(classify_channel(&String::from("google"), None), Some(String::from("1")));
    assert_eq!(classify_channel(&String::from("other"), Some(String::from("x"))), Some(String::from("x")));
    assert_eq!(classify_channel(&String::from("other"), None), None);
}
