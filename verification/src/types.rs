use vstd::prelude::*;
use vstd::string::*;
use crate::text::{chars_of, decimal, find, find_from, push_decimal, same_chars};

verus! {

/// Identifier of an item in the mirrored content graph.
pub type ItemID = u64;

/// The kind of an item.
#[derive(Debug, Clone, Copy, PartialEq, Eq, Structural)]
pub enum ItemType {
    Job,
    Story,
    Comment,
    Poll,
    PollOpt,
}

/// One node of the mirrored content graph.
#[derive(Debug)]
pub struct Item {
    pub id: ItemID,
    pub item_type: Option<ItemType>,
    pub deleted: bool,
    pub by: Option<String>,
    pub time: Option<u64>,
    pub text: Option<String>,
    pub dead: bool,
    pub parent: Option<u32>,
    pub poll: Option<u32>,
    pub kids: Vec<u64>,
    pub url: Option<String>,
    pub score: i32,
    pub title: Option<String>,
    pub parts: Vec<u32>,
    pub descendants: u32,
}

/// The mathematical value of an [`Item`]: texts are sequences of characters
/// and lists are sequences.
pub ghost struct ItemView {
    pub id: u64,
    pub item_type: Option<ItemType>,
    pub deleted: bool,
    pub by: Option<Seq<char>>,
    pub time: Option<u64>,
    pub text: Option<Seq<char>>,
    pub dead: bool,
    pub parent: Option<u32>,
    pub poll: Option<u32>,
    pub kids: Seq<u64>,
    pub url: Option<Seq<char>>,
    pub score: i32,
    pub title: Option<Seq<char>>,
    pub parts: Seq<u32>,
    pub descendants: u32,
}

/// The characters of an optional text.
pub open spec fn text_view(t: Option<String>) -> Option<Seq<char>> {
    match t {
        Some(s) => Some(s@),
        None => None,
    }
}

impl View for Item {
    type V = ItemView;

    open spec fn view(&self) -> ItemView {
        ItemView {
            id: self.id,
            item_type: self.item_type,
            deleted: self.deleted,
            by: text_view(self.by),
            time: self.time,
            text: text_view(self.text),
            dead: self.dead,
            parent: self.parent,
            poll: self.poll,
            kids: self.kids@,
            url: text_view(self.url),
            score: self.score,
            title: text_view(self.title),
            parts: self.parts@,
            descendants: self.descendants,
        }
    }
}

/// A copy of an optional text.
pub fn clone_text(t: &Option<String>) -> (r: Option<String>)
    ensures
        text_view(r) == text_view(*t),
{
    match t {
        Some(s) => Some(s.clone()),
        None => None,
    }
}

impl Clone for Item {
    fn clone(&self) -> (r: Self)
        ensures
            r@ == self@,
    {
        Item {
            id: self.id,
            item_type: self.item_type,
            deleted: self.deleted,
            by: clone_text(&self.by),
            time: self.time,
            text: clone_text(&self.text),
            dead: self.dead,
            parent: self.parent,
            poll: self.poll,
            kids: self.kids.clone(),
            url: clone_text(&self.url),
            score: self.score,
            title: clone_text(&self.title),
            parts: self.parts.clone(),
            descendants: self.descendants,
        }
    }
}

/// The address of item `id` on the site of origin, without a scheme.
pub open spec fn site_path(id: u64) -> Seq<char> {
    "news.ycombinator.com/item?id="@ + decimal(id as nat)
}

/// The address of item `id` on the site of origin.
pub open spec fn site_url(id: u64) -> Seq<char> {
    "https://news.ycombinator.com/item?id="@ + decimal(id as nat)
}

/// The address of item `id` on this site.
pub open spec fn local_path(id: u64) -> Seq<char> {
    "/item/"@ + decimal(id as nat)
}

/// `url` without its scheme: what follows the first `://`, or all of it.
pub open spec fn after_scheme(url: Seq<char>) -> Seq<char> {
    match find_from(url, "://"@, 0) {
        Some(i) => url.skip(i + "://"@.len()),
        None => url,
    }
}

/// What stands before the first `/` of `rest`, or all of it.
pub open spec fn host_of(rest: Seq<char>) -> Seq<char> {
    match find_from(rest, "/"@, 0) {
        Some(i) => rest.take(i),
        None => rest,
    }
}

/// What is shown for a link: its host alone, or for the two hosts that
/// are shown in full, the whole address without its scheme.
pub open spec fn shown_link(url: Seq<char>) -> Seq<char> {
    let rest = after_scheme(url);
    let host = host_of(rest);
    if host == "github.com"@ || host == "news.ycombinator.com"@ {
        rest
    } else {
        host
    }
}

/// What [`Item::display_url`] returns.
pub open spec fn display_url_of(v: ItemView) -> Seq<char> {
    if v.item_type == Some(ItemType::Story) {
        match v.url {
            Some(url) => shown_link(url),
            None => shown_link(site_path(v.id)),
        }
    } else {
        site_path(v.id)
    }
}

/// The words for a span of `secs` seconds and `nanos` nanoseconds, as
/// `timeago`'s English formatter with its default settings writes them.
pub uninterp spec fn elapsed_phrase(secs: u64, nanos: u32) -> Seq<char>;

/// Calls `timeago::Formatter::convert` on a formatter made by
/// `timeago::Formatter::new`, with the span as a `std::time::Duration`.
/// Trusted: the text returned depends on the span alone.
#[verifier::external_body]
fn elapsed_text(secs: u64, nanos: u32) -> (r: String)
    requires
        nanos < 1_000_000_000,
    ensures
        r@ == elapsed_phrase(secs, nanos),
{
    timeago::Formatter::new().convert(std::time::Duration::new(secs, nanos))
}

/// What is shown of `url`.
fn link_text(url: &str) -> (r: String)
    ensures
        r@ == shown_link(url@),
{
    let chars = chars_of(url);
    let sep = chars_of("://");
    let start: usize = match find(&chars, &sep) {
        Some(i) => {
            assert(i + sep@.len() <= chars@.len());
            i + sep.len()
        },
        None => 0,
    };
    let rest_str = url.substring_char(start, chars.len());
    let rest = chars_of(rest_str);
    assert(rest@ =~= after_scheme(url@));
    let slash = chars_of("/");
    let end: usize = match find(&rest, &slash) {
        Some(i) => i,
        None => rest.len(),
    };
    let host_str = rest_str.substring_char(0, end);
    let host = chars_of(host_str);
    assert(host@ =~= host_of(rest@));
    if same_chars(&host, &chars_of("github.com")) || same_chars(
        &host,
        &chars_of("news.ycombinator.com"),
    ) {
        String::from_str(rest_str)
    } else {
        String::from_str(host_str)
    }
}

impl Item {
    /// The address of the item on the site of origin, without a scheme.
    fn site_path(&self) -> (r: String)
        ensures
            r@ == site_path(self.id),
    {
        let mut r = String::from_str("news.ycombinator.com/item?id=");
        push_decimal(&mut r, self.id);
        r
    }

    /// The short form of the item's link, for display. For a story it is
    /// the host of its link, or for a host shown in full the link without
    /// its scheme; a story without a link, and any other item, shows its
    /// address on the site of origin.
    pub fn display_url(&self) -> (r: String)
        ensures
            r@ == display_url_of(self@),
    {
        match self.item_type {
            Some(ItemType::Story) => {
                match &self.url {
                    Some(url) => link_text(url.as_str()),
                    None => {
                        let own = self.site_path();
                        link_text(own.as_str())
                    },
                }
            },
            _ => self.site_path(),
        }
    }

    /// The item's link, or its address on the site of origin.
    pub fn display_url_long(&self) -> (r: String)
        ensures
            r@ == (match self@.url {
                Some(url) => url,
                None => site_url(self.id),
            }),
    {
        match &self.url {
            Some(url) => url.clone(),
            None => self.hn_url(),
        }
    }

    /// How long ago the item was created, in words, at the time `now_secs`
    /// seconds and `now_nanos` nanoseconds after the epoch; `Unknown` for an
    /// item without a time.
    pub fn humantime(&self, now_secs: u64, now_nanos: u32) -> (r: String)
        requires
            now_nanos < 1_000_000_000,
            self.time matches Some(t) ==> t <= now_secs,
        ensures
            r@ == (match self.time {
                Some(t) => elapsed_phrase((now_secs - t) as u64, now_nanos),
                None => "Unknown"@,
            }),
    {
        match self.time {
            Some(t) => elapsed_text(now_secs - t, now_nanos),
            None => String::from_str("Unknown"),
        }
    }

    /// Where the item's title leads: its link, or its page on this site.
    pub fn href_url(&self) -> (r: String)
        ensures
            r@ == (match self@.url {
                Some(url) => url,
                None => local_path(self.id),
            }),
    {
        match &self.url {
            Some(url) => url.clone(),
            None => self.rhxn_url(),
        }
    }

    /// The item's page on this site.
    pub fn rhxn_url(&self) -> (r: String)
        ensures
            r@ == local_path(self.id),
    {
        let mut r = String::from_str("/item/");
        push_decimal(&mut r, self.id);
        r
    }

    /// The item's page on the site of origin.
    pub fn hn_url(&self) -> (r: String)
        ensures
            r@ == site_url(self.id),
    {
        let mut r = String::from_str("https://news.ycombinator.com/item?id=");
        push_decimal(&mut r, self.id);
        r
    }
}

} // verus!
