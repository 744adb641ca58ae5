//! Feed items as the pipeline sees them: three optional fields, of which all
//! must be present for the item to be renderable.

use vstd::prelude::*;

verus! {

/// Why a source's fetch stage failed. Either way the source is lost for
/// this run only: no retry happens before the next scheduled run.
#[derive(Clone, Copy, PartialEq, Eq, Structural, Debug)]
pub enum FetchError {
    /// The transport failed or timed out before a document arrived.
    Network,
    /// Bytes arrived but were not a well-formed feed document.
    Parse,
}

/// One configured feed endpoint: a stable name and the URL to retrieve.
pub struct Source {
    pub name: String,
    pub url: String,
}

/// One item of a fetched feed. A field the feed document did not carry is
/// `None`; an item lacking any of the three is silently skipped.
#[derive(Debug, Clone)]
pub struct FeedItem {
    pub identifier: Option<String>,
    pub title: Option<String>,
    pub body: Option<String>,
}

/// The mathematical shape of a feed item.
pub ghost struct FeedItemView {
    pub identifier: Option<Seq<char>>,
    pub title: Option<Seq<char>>,
    pub body: Option<Seq<char>>,
}

impl View for FeedItem {
    type V = FeedItemView;

    open spec fn view(&self) -> FeedItemView {
        FeedItemView {
            identifier: match self.identifier {
                Some(s) => Some(s@),
                None => None,
            },
            title: match self.title {
                Some(s) => Some(s@),
                None => None,
            },
            body: match self.body {
                Some(s) => Some(s@),
                None => None,
            },
        }
    }
}

impl FeedItemView {
    /// An item can become a document only when identifier, title and body are
    /// all present.
    pub open spec fn renderable(self) -> bool {
        self.identifier is Some && self.title is Some && self.body is Some
    }
}

impl FeedItem {
    /// Decides whether this item carries all three required fields.
    pub fn is_renderable(&self) -> (r: bool)
        ensures
            r == self@.renderable(),
    {
        self.identifier.is_some() && self.title.is_some() && self.body.is_some()
    }
}

/// The views of a vector of feed items.
pub open spec fn item_views(items: Seq<FeedItem>) -> Seq<FeedItemView> {
    items.map_values(|it: FeedItem| it@)
}

/// What parsing some bytes as a feed document yields: `None` when they are
/// not a well-formed document, otherwise the items in document order. Too
/// involved to spell out, the parse depends on the bytes alone, so it is
/// left as a name that the parsing wrapper's contract pins to the call.
pub uninterp spec fn feed_of(bytes: Seq<u8>) -> Option<Seq<FeedItemView>>;

#[verifier::external_type_specification]
#[verifier::external_body]
pub struct ExRssError(rss::Error);

/// Relies on rss::Channel::read_from: it parses the bytes as an RSS
/// document, depending on the bytes alone, and yields the channel's items
/// in document order; each item's guid value, title and description move
/// into a `FeedItem` unchanged.
#[verifier::external_body]
fn read_feed_items(bytes: &Vec<u8>) -> (r: Result<Vec<FeedItem>, rss::Error>)
    ensures
        match r {
            Ok(items) => feed_of(bytes@) == Some(item_views(items@)),
            Err(_) => feed_of(bytes@) is None,
        },
{
    match rss::Channel::read_from(bytes.as_slice()) {
        Ok(channel) => Ok(
            channel.items.into_iter().map(
                |item| FeedItem {
                    identifier: item.guid.map(|g| g.value),
                    title: item.title,
                    body: item.description,
                },
            ).collect(),
        ),
        Err(e) => Err(e),
    }
}

/// Parses fetched bytes as a syndication document: the items in document
/// order exactly when the bytes are a well-formed feed, and a parse error
/// otherwise. No retrieval happens here; the caller supplies the bytes.
pub fn parse_feed(bytes: &Vec<u8>) -> (r: Result<Vec<FeedItem>, FetchError>)
    ensures
        match r {
            Ok(items) => feed_of(bytes@) == Some(item_views(items@)),
            Err(e) => feed_of(bytes@) is None && e == FetchError::Parse,
        },
{
    match read_feed_items(bytes) {
        Ok(items) => Ok(items),
        Err(_) => Err(FetchError::Parse),
    }
}

} // verus!
