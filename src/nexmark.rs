//! An example query over auction events: tag each bid with the id of the
//! channel it came through.

use vstd::prelude::*;
use crate::algebra::ZRingValue;

verus! {

/// A bid on an auction.
pub struct Bid {
    pub auction: u64,
    pub bidder: u64,
    pub price: usize,
    pub channel: String,
}

/// An auction event; this query reads bids only.
pub enum Event {
    Person,
    Auction,
    Bid(Bid),
}

/// What `str::to_lowercase` makes of a string.
pub uninterp spec fn lower_of(s: Seq<char>) -> Seq<char>;

/// Relies on `str::to_lowercase`: the lowercase form depends on the
/// characters alone.
#[verifier::external_body]
fn lowercase(s: &str) -> (r: String)
    ensures
        r@ == lower_of(s@),
{
    s.to_lowercase()
}

/// The marker that precedes a channel id in a URL.
pub open spec fn marker() -> Seq<char> {
    seq!['c', 'h', 'a', 'n', 'n', 'e', 'l', '_', 'i', 'd', '=']
}

/// The first position at or after `i` where `marker()` occurs in `s`, or
/// `-1`.
pub open spec fn find_marker(s: Seq<char>, i: int) -> int
    decreases s.len() - i,
{
    if i < 0 || i + marker().len() > s.len() {
        -1
    } else if s.subrange(i, i + marker().len()) == marker() {
        i
    } else {
        find_marker(s, i + 1)
    }
}

/// The first position at or after `j` that holds `'&'`, or the length.
pub open spec fn run_end(s: Seq<char>, j: int) -> int
    decreases s.len() - j,
{
    if j < 0 || j >= s.len() || s[j] == '&' {
        j
    } else {
        run_end(s, j + 1)
    }
}

/// What the pattern `channel_id=([^&]*)` captures in `s`: after the first
/// occurrence of the marker, the longest run of characters other than `&`.
pub open spec fn channel_id_capture(s: Seq<char>) -> Option<Seq<char>> {
    let i = find_marker(s, 0);
    if i < 0 {
        None
    } else {
        Some(s.subrange(i + marker().len(), run_end(s, i + marker().len())))
    }
}

/// Relies on regex's `Regex::captures` with the pattern `channel_id=([^&]*)`:
/// the leftmost match starts at the first occurrence of the literal prefix,
/// and the greedy class then takes every character up to the first `&`.
#[verifier::external_body]
fn capture_channel_id(channel: &str) -> (r: Option<String>)
    ensures
        opt_view(&r) == channel_id_capture(channel@),
{
    let pattern = regex::Regex::new(r"channel_id=([^&]*)").unwrap();
    match pattern.captures(channel) {
        Some(caps) => match caps.get(1) {
            Some(m) => Some(m.as_str().to_string()),
            None => None,
        },
        None => None,
    }
}

pub open spec fn opt_view(r: &Option<String>) -> Option<Seq<char>> {
    match r {
        Some(s) => Some(s@),
        None => None,
    }
}

/// The id of a channel known by name, from the lowercase form of the name.
pub open spec fn known_channel_id(lowered: Seq<char>) -> Option<Seq<char>> {
    if lowered == seq!['a', 'p', 'p', 'l', 'e'] {
        Some(seq!['0'])
    } else if lowered == seq!['g', 'o', 'o', 'g', 'l', 'e'] {
        Some(seq!['1'])
    } else if lowered == seq!['f', 'a', 'c', 'e', 'b', 'o', 'o', 'k'] {
        Some(seq!['2'])
    } else if lowered == seq!['b', 'a', 'i', 'd', 'u'] {
        Some(seq!['3'])
    } else {
        None
    }
}

/// The channel id of a bid whose channel is `channel`, where `lowered` is
/// its lowercase form and `captured` what the channel-id pattern captures
/// in it: a known channel's id, else the captured id, else none.
pub open spec fn classify(lowered: Seq<char>, captured: Option<Seq<char>>) -> Option<Seq<char>> {
    match known_channel_id(lowered) {
        Some(id) => Some(id),
        None => captured,
    }
}

/// The channel id of a channel.
pub open spec fn channel_id_of(channel: Seq<char>) -> Option<Seq<char>> {
    classify(lower_of(channel), channel_id_capture(channel))
}

/// Classifies a channel from its lowercase form and the id captured from
/// it, if any.
pub fn classify_channel(lowered: &String, captured: Option<String>) -> (r: Option<String>)
    ensures
        opt_view(&r) == classify(lowered@, opt_view(&captured)),
{
    proof {
        reveal_strlit("apple");
        reveal_strlit("google");
        reveal_strlit("facebook");
        reveal_strlit("baidu");
        reveal_strlit("0");
        reveal_strlit("1");
        reveal_strlit("2");
        reveal_strlit("3");
        assert("apple"@ =~= seq!['a', 'p', 'p', 'l', 'e']);
        assert("google"@ =~= seq!['g', 'o', 'o', 'g', 'l', 'e']);
        assert("facebook"@ =~= seq!['f', 'a', 'c', 'e', 'b', 'o', 'o', 'k']);
        assert("baidu"@ =~= seq!['b', 'a', 'i', 'd', 'u']);
        assert("0"@ =~= seq!['0']);
        assert("1"@ =~= seq!['1']);
        assert("2"@ =~= seq!['2']);
        assert("3"@ =~= seq!['3']);
    }
    if *lowered == "apple".to_owned() {
        Some("0".to_owned())
    } else if *lowered == "google".to_owned() {
        Some("1".to_owned())
    } else if *lowered == "facebook".to_owned() {
        Some("2".to_owned())
    } else if *lowered == "baidu".to_owned() {
        Some("3".to_owned())
    } else {
        captured
    }
}

/// The id of the channel a bid came through: `"0"` to `"3"` for the known
/// channels apple, google, facebook and baidu (in any case), else the value
/// of `channel_id=` in it, else none.
pub fn channel_id(channel: &str) -> (r: Option<String>)
    ensures
        opt_view(&r) == channel_id_of(channel@),
{
    let lowered = lowercase(channel);
    let known = classify_channel(&lowered, None);
    if known.is_some() {
        known
    } else {
        let captured = capture_channel_id(channel);
        classify_channel(&lowered, captured)
    }
}

/// A row of the query's output: auction, bidder, price, channel, channel id.
pub type Q21Row = (u64, u64, usize, String, String);

pub open spec fn row_view(r: Q21Row) -> (u64, u64, usize, Seq<char>, Seq<char>) {
    (r.0, r.1, r.2, r.3@, r.4@)
}

/// The rows that the query makes of `events`, with their weights.
pub open spec fn q21_rows<R>(events: Seq<(Event, R)>) -> Seq<((u64, u64, usize, Seq<char>, Seq<char>), R)>
    decreases events.len(),
{
    if events.len() == 0 {
        seq![]
    } else {
        let rest = q21_rows(events.drop_last());
        match events.last().0 {
            Event::Bid(b) => match channel_id_of(b.channel@) {
                Some(id) => rest.push(((b.auction, b.bidder, b.price, b.channel@, id), events.last().1)),
                None => rest,
            },
            _ => rest,
        }
    }
}

/// Adds a channel id to each bid, and drops the bids whose channel has none.
/// Each row keeps the weight of its bid.
pub fn q21<R: ZRingValue>(events: &Vec<(Event, R)>) -> (r: Vec<(Q21Row, R)>)
    ensures
        r@.len() == q21_rows(events@).len(),
        forall|i: int|
            0 <= i < r@.len() ==> (row_view((#[trigger] r@[i]).0), r@[i].1) == q21_rows(events@)[i],
{
    let mut out: Vec<(Q21Row, R)> = Vec::new();
    let mut i: usize = 0;
    proof {
        assert(events@.take(0) =~= Seq::<(Event, R)>::empty());
    }
    while i < events.len()
        invariant
            i <= events.len(),
            out@.len() == q21_rows(events@.take(i as int)).len(),
            forall|j: int|
                0 <= j < out@.len() ==> (row_view((#[trigger] out@[j]).0), out@[j].1) == q21_rows(
                    events@.take(i as int),
                )[j],
        decreases events.len() - i,
    {
        proof {
            assert(events@.take(i + 1).drop_last() =~= events@.take(i as int));
        }
        match &events[i].0 {
            Event::Bid(b) => {
                let id = channel_id(b.channel.as_str());
                match id {
                    Some(ch_id) => {
                        proof {
                            R::lemma_in_range(&events@[i as int].1);
                            R::lemma_bounds();
                        }
                        let w = R::zero().add_by_ref(&events[i].1);
                        proof {
                            R::lemma_as_int_injective(&w, &events@[i as int].1);
                        }
                        out.push(((b.auction, b.bidder, b.price, b.channel.clone(), ch_id), w));
                    },
                    None => {},
                }
            },
            _ => {},
        }
        i = i + 1;
    }
    proof {
        assert(events@.take(events@.len() as int) =~= events@);
    }
    out
}

} // verus!
