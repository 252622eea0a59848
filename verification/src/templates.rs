use vstd::prelude::*;
use vstd::string::*;
use crate::types::{Item, ItemType, ItemView};

verus! {

/// What the front page is rendered from.
pub struct IndexTemplate<'a> {
    pub stories: Vec<Item>,
    pub title: &'a str,
    pub static_base: &'a str,
}

/// What the page of one story is rendered from.
pub struct ItemTemplate<'a> {
    pub item: Item,
    pub title: String,
    pub static_base: &'a str,
    pub comments: Option<String>,
}

/// What one comment is rendered from: the comment and the markup of its
/// replies.
pub struct CommentTemplate {
    pub item: Item,
    pub comments: Option<String>,
}

/// Marks a template that is to be sent as a page.
pub struct HtmlTemplate<T>(pub T);

/// `markup`, or nothing if it is empty.
pub fn non_empty(markup: String) -> (r: Option<String>)
    ensures
        markup@.len() == 0 ==> r is None,
        markup@.len() > 0 ==> r == Some(markup),
{
    if markup.as_str().is_empty() {
        None
    } else {
        Some(markup)
    }
}

/// Whether `item` is a story, the one kind of item that has a page.
pub fn is_story(item: &Item) -> (r: bool)
    ensures
        r == (item.item_type == Some(ItemType::Story)),
{
    match item.item_type {
        Some(ItemType::Story) => true,
        _ => false,
    }
}

/// The title a story's page carries.
pub open spec fn page_title(v: ItemView) -> Seq<char> {
    match v.title {
        Some(t) => t,
        None => "Unknown"@,
    }
}

impl IndexTemplate<'static> {
    /// The front page of `stories`.
    pub fn new(stories: Vec<Item>) -> (t: Self)
        ensures
            t.stories == stories,
            t.title@ == "Stories"@,
            t.static_base@ == "/assets"@,
    {
        IndexTemplate { stories, title: "Stories", static_base: "/assets" }
    }
}

impl ItemTemplate<'static> {
    /// The page of the story `item` with the markup of its comments.
    pub fn new(item: Item, comments: Option<String>) -> (t: Self)
        ensures
            t.item == item,
            t.title@ == page_title(item@),
            t.static_base@ == "/assets"@,
            t.comments == comments,
    {
        let title = match &item.title {
            Some(t) => t.clone(),
            None => String::from_str("Unknown"),
        };
        ItemTemplate { item, title, static_base: "/assets", comments }
    }
}

impl CommentTemplate {
    /// The comment `item` about the markup of its replies; empty markup
    /// counts as no replies.
    pub fn new(item: Item, replies: String) -> (t: Self)
        ensures
            t.item == item,
            replies@.len() == 0 ==> t.comments is None,
            replies@.len() > 0 ==> t.comments == Some(replies),
    {
        CommentTemplate { item, comments: non_empty(replies) }
    }
}

} // verus!
