//! What a Markdown text looks like once its markup is read: styled text, the
//! links in it that can be opened and those that cannot.

use crate::style;
use crate::native_chrome;
use crate::style::StyledText;
use crate::text;
use vstd::prelude::*;

verus! {

/// Bytes of a text that open a link.
#[derive(Clone, Debug, PartialEq, Eq)]
pub struct HyperlinkRange {
    pub start_byte: usize,
    pub end_byte: usize,
    pub url: String,
}

pub ghost struct LinkView {
    pub start_byte: usize,
    pub end_byte: usize,
    pub url: Seq<char>,
}

impl View for HyperlinkRange {
    type V = LinkView;

    open spec fn view(&self) -> LinkView {
        LinkView { start_byte: self.start_byte, end_byte: self.end_byte, url: self.url@ }
    }
}

impl HyperlinkRange {
    pub fn copied(&self) -> (r: Self)
        ensures
            r@ == self@,
    {
        HyperlinkRange {
            start_byte: self.start_byte,
            end_byte: self.end_byte,
            url: self.url.clone(),
        }
    }
}

/// What a list of links says.
pub open spec fn link_views(links: Seq<HyperlinkRange>) -> Seq<LinkView> {
    Seq::new(links.len(), |i: int| links[i]@)
}

pub fn copy_links(links: &Vec<HyperlinkRange>) -> (r: Vec<HyperlinkRange>)
    ensures
        link_views(r@) == link_views(links@),
{
    let mut r: Vec<HyperlinkRange> = Vec::new();
    let mut i: usize = 0;
    while i < links.len()
        invariant
            i <= links@.len(),
            r@.len() == i,
            forall|k: int| 0 <= k < i ==> (#[trigger] r@[k])@ == links@[k]@,
        decreases links@.len() - i,
    {
        r.push(links[i].copied());
        i = i + 1;
    }
    assert(link_views(r@) =~= link_views(links@));
    r
}

/// Bytes of a text that look like a link but open none.
#[derive(Clone, Copy, Debug, PartialEq, Eq, Structural)]
pub struct NonClickableLinkRange {
    pub start_byte: usize,
    pub end_byte: usize,
}

/// A Markdown text as it is shown.
#[derive(Clone, Debug, PartialEq, Eq)]
pub struct MarkdownProjection {
    pub styled: StyledText,
    pub hyperlinks: Vec<HyperlinkRange>,
    pub non_clickable_links: Vec<NonClickableLinkRange>,
}

pub ghost struct ProjectionView {
    pub styled: style::StyledView,
    pub hyperlinks: Seq<LinkView>,
    pub non_clickable_links: Seq<NonClickableLinkRange>,
}

impl View for MarkdownProjection {
    type V = ProjectionView;

    open spec fn view(&self) -> ProjectionView {
        ProjectionView {
            styled: self.styled@,
            hyperlinks: link_views(self.hyperlinks@),
            non_clickable_links: self.non_clickable_links@,
        }
    }
}

impl MarkdownProjection {
    pub fn copied(&self) -> (r: Self)
        ensures
            r@ == self@,
    {
        MarkdownProjection {
            styled: self.styled.copied(),
            hyperlinks: copy_links(&self.hyperlinks),
            non_clickable_links: copy_ranges(&self.non_clickable_links),
        }
    }
}

fn copy_ranges(ranges: &Vec<NonClickableLinkRange>) -> (r: Vec<NonClickableLinkRange>)
    ensures
        r@ == ranges@,
{
    let mut r: Vec<NonClickableLinkRange> = Vec::new();
    let mut i: usize = 0;
    while i < ranges.len()
        invariant
            i <= ranges@.len(),
            r@ =~= ranges@.take(i as int),
        decreases ranges@.len() - i,
    {
        r.push(ranges[i]);
        i = i + 1;
    }
    assert(ranges@.take(ranges@.len() as int) =~= ranges@);
    r
}

/// Whether a link may be handed to the terminal: it goes to the web or to a file
/// of this machine, and holds no control character.
pub open spec fn safe_url(url: Seq<char>) -> bool {
    &&& forall|i: int| 0 <= i < url.len() ==> !text::control(#[trigger] url[i])
    &&& "http://"@.is_prefix_of(url) || "https://"@.is_prefix_of(url) || (
    "file:///"@.is_prefix_of(url) && !"file:////"@.is_prefix_of(url))
}

pub fn is_safe_hyperlink_url(url: &str) -> (r: bool)
    ensures
        r == safe_url(url@),
{
    !holds_control(url) && (native_chrome::starts_with(url, "http://")
        || native_chrome::starts_with(url, "https://") || (native_chrome::starts_with(
        url,
        "file:///",
    ) && !native_chrome::starts_with(url, "file:////")))
}

/// Whether a text holds a control character.
pub fn holds_control(s: &str) -> (r: bool)
    ensures
        r == exists|i: int| 0 <= i < s@.len() && text::control(#[trigger] s@[i]),
{
    let chars: Vec<char> = text::chars_of(s);
    let mut i: usize = 0;
    while i < chars.len()
        invariant
            chars@ == s@,
            i <= chars@.len(),
            forall|k: int| 0 <= k < i ==> !text::control(#[trigger] s@[k]),
        decreases chars@.len() - i,
    {
        if text::is_control(chars[i]) {
            assert(text::control(s@[i as int]));
            return true;
        }
        i = i + 1;
    }
    false
}

}
