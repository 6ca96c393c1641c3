use vstd::prelude::*;
use vstd::utf8::encode_utf8;

use crate::data::{bytes_eq, lemma_view_all, Data, DataView};
use crate::error::Error;
use crate::typed::{bulk_from, bulk_of, int_from, int_of, FromData};

verus! {

/// Information about a subscription, sent in reply to `(p)(un)subscribe`.
#[derive(Debug, Clone, PartialEq, Eq)]
pub struct Subscription {
    /// The name of this channel or pattern.
    pub name: Vec<u8>,
    /// The number of subscriptions this connection still holds.
    pub count: i64,
}

impl Subscription {
    /// Whether the connection is still in pubsub mode. When this is false, the connection
    /// can be used for other commands again.
    pub fn is_in_pubsub_mode(&self) -> (r: bool)
        ensures
            r == (self.count > 0),
    {
        self.count > 0
    }
}

/// A message received on a subscription.
#[derive(Debug, Clone, PartialEq, Eq)]
pub struct Message {
    /// The pattern which was matched (only for pattern subscriptions).
    pub pattern: Option<Vec<u8>>,
    /// The channel this message was received on.
    pub channel: Vec<u8>,
    /// The data that was published.
    pub data: Vec<u8>,
}

/// A message from a connection in pubsub mode.
#[derive(Debug, Clone, PartialEq, Eq)]
pub enum Response {
    /// Subscribed to a channel or pattern.
    Subscribe(Subscription),
    /// Unsubscribed from a channel or pattern.
    Unsubscribe(Subscription),
    /// Received a message on one of the subscriptions.
    Message(Message),
}

/// The value of a pubsub message.
pub enum ResponseView {
    Subscribe(Seq<u8>, i64),
    Unsubscribe(Seq<u8>, i64),
    Message(Option<Seq<u8>>, Seq<u8>, Seq<u8>),
}

impl Response {
    pub open spec fn view(&self) -> ResponseView {
        match self {
            Response::Subscribe(s) => ResponseView::Subscribe(s.name@, s.count),
            Response::Unsubscribe(s) => ResponseView::Unsubscribe(s.name@, s.count),
            Response::Message(m) => ResponseView::Message(
                match &m.pattern {
                    Some(p) => Some(p@),
                    None => None,
                },
                m.channel@,
                m.data@,
            ),
        }
    }
}

/// Whether the first element of a pubsub message is the tag `t`.
pub open spec fn tagged(xs: Seq<DataView>, t: Seq<char>) -> bool {
    xs.len() > 0 && bulk_of(xs[0]) == Some(encode_utf8(t))
}

/// A pubsub message: an array whose first element names its kind.
///
/// | tag | elements after it |
/// |---|---|
/// | `subscribe`, `psubscribe` | name, count |
/// | `unsubscribe`, `punsubscribe` | name, count |
/// | `message` | channel, data |
/// | `pmessage` | pattern, channel, data |
pub open spec fn pubsub_of(d: DataView) -> Option<ResponseView> {
    match d {
        DataView::Arr(xs) => if xs.len() == 3 && (tagged(xs, seq!['s', 'u', 'b', 's', 'c', 'r', 'i', 'b', 'e'])
            || tagged(xs, seq!['p', 's', 'u', 'b', 's', 'c', 'r', 'i', 'b', 'e'])) {
            if bulk_of(xs[1]) is Some && int_of(xs[2]) is Some {
                Some(ResponseView::Subscribe(bulk_of(xs[1]).unwrap(), int_of(xs[2]).unwrap()))
            } else {
                None
            }
        } else if xs.len() == 3 && (tagged(xs, seq!['u', 'n', 's', 'u', 'b', 's', 'c', 'r', 'i', 'b', 'e'])
            || tagged(xs, seq!['p', 'u', 'n', 's', 'u', 'b', 's', 'c', 'r', 'i', 'b', 'e'])) {
            if bulk_of(xs[1]) is Some && int_of(xs[2]) is Some {
                Some(ResponseView::Unsubscribe(bulk_of(xs[1]).unwrap(), int_of(xs[2]).unwrap()))
            } else {
                None
            }
        } else if xs.len() == 3 && tagged(xs, seq!['m', 'e', 's', 's', 'a', 'g', 'e']) {
            if bulk_of(xs[1]) is Some && bulk_of(xs[2]) is Some {
                Some(ResponseView::Message(None, bulk_of(xs[1]).unwrap(), bulk_of(xs[2]).unwrap()))
            } else {
                None
            }
        } else if xs.len() == 4 && tagged(xs, seq!['p', 'm', 'e', 's', 's', 'a', 'g', 'e']) {
            if bulk_of(xs[1]) is Some && bulk_of(xs[2]) is Some && bulk_of(xs[3]) is Some {
                Some(
                    ResponseView::Message(
                        Some(bulk_of(xs[1]).unwrap()),
                        bulk_of(xs[2]).unwrap(),
                        bulk_of(xs[3]).unwrap(),
                    ),
                )
            } else {
                None
            }
        } else {
            None
        },
        _ => None,
    }
}

fn is_tag(b: &[u8], t: &str) -> (r: bool)
    ensures
        r == (b@ == encode_utf8(t@)),
{
    bytes_eq(b, t.as_bytes())
}

fn subscription(name: &Data, count: &Data) -> (r: Option<Subscription>)
    ensures
        match (bulk_of(name@), int_of(count@)) {
            (Some(n), Some(c)) => r matches Some(s) && s.name@ == n && s.count == c,
            _ => r is None,
        },
{
    match (bulk_from(name), int_from(count)) {
        (Some(n), Some(c)) => Some(Subscription { name: n, count: c }),
        _ => None,
    }
}

impl Response {
    /// The pubsub message that `data` holds, if it has one of the shapes above.
    pub fn try_from_data(data: Data) -> (r: Option<Response>)
        ensures
            match pubsub_of(data@) {
                Some(v) => r matches Some(x) && x@ == v,
                None => r is None,
            },
    {
        proof {
            reveal_strlit("subscribe");
            reveal_strlit("psubscribe");
            reveal_strlit("unsubscribe");
            reveal_strlit("punsubscribe");
            reveal_strlit("message");
            reveal_strlit("pmessage");
            assert("subscribe"@ =~= seq!['s', 'u', 'b', 's', 'c', 'r', 'i', 'b', 'e']);
            assert("psubscribe"@ =~= seq!['p', 's', 'u', 'b', 's', 'c', 'r', 'i', 'b', 'e']);
            assert("unsubscribe"@ =~= seq!['u', 'n', 's', 'u', 'b', 's', 'c', 'r', 'i', 'b', 'e']);
            assert("punsubscribe"@ =~= seq!['p', 'u', 'n', 's', 'u', 'b', 's', 'c', 'r', 'i', 'b', 'e']);
            assert("message"@ =~= seq!['m', 'e', 's', 's', 'a', 'g', 'e']);
            assert("pmessage"@ =~= seq!['p', 'm', 'e', 's', 's', 'a', 'g', 'e']);
        }
        let xs = match &data {
            Data::Array(xs) => xs,
            _ => {
                return None;
            },
        };
        proof {
            lemma_view_all(xs@);
        }
        if xs.len() == 0 {
            return None;
        }
        let tag = match bulk_from(&xs[0]) {
            Some(t) => t,
            None => {
                return None;
            },
        };
        let t = tag.as_slice();
        let n = xs.len();
        assert(data@ == DataView::Arr(crate::data::view_all(xs@)));
        if n == 3 && (is_tag(t, "subscribe") || is_tag(t, "psubscribe")) {
            match subscription(&xs[1], &xs[2]) {
                Some(s) => Some(Response::Subscribe(s)),
                None => None,
            }
        } else if n == 3 && (is_tag(t, "unsubscribe") || is_tag(t, "punsubscribe")) {
            match subscription(&xs[1], &xs[2]) {
                Some(s) => Some(Response::Unsubscribe(s)),
                None => None,
            }
        } else if n == 3 && is_tag(t, "message") {
            match (bulk_from(&xs[1]), bulk_from(&xs[2])) {
                (Some(c), Some(d)) => Some(Response::Message(Message { pattern: None, channel: c, data: d })),
                _ => None,
            }
        } else if n == 4 && is_tag(t, "pmessage") {
            match (bulk_from(&xs[1]), bulk_from(&xs[2]), bulk_from(&xs[3])) {
                (Some(p), Some(c), Some(d)) => Some(
                    Response::Message(Message { pattern: Some(p), channel: c, data: d }),
                ),
                _ => None,
            }
        } else {
            None
        }
    }
}

impl FromData for Response {
    open spec fn accepts(d: DataView) -> bool {
        pubsub_of(d) is Some
    }

    open spec fn decodes(d: DataView, v: Response) -> bool {
        pubsub_of(d) == Some(v@)
    }

    fn from_data(d: Data) -> (r: Result<Response, Error>) {
        match Response::try_from_data(d) {
            Some(v) => Ok(v),
            None => Err(Error::Message("expected a pubsub message".to_owned())),
        }
    }
}

} // verus!
