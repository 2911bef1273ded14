//! The sanitized HTML preview of a note: Markdown to HTML without raw HTML, then cleaned.
use pulldown_cmark::{Event, Options, Parser};
use vstd::prelude::*;

verus! {

/// The kinds of Markdown events the preview tells apart.
pub enum PreviewEvent {
    BlockHtml,
    InlineHtml,
    Other,
}

/// The preview keeps every event but raw HTML, block or inline.
pub fn keeps_event(e: PreviewEvent) -> (r: bool)
    ensures
        r == !(e is BlockHtml || e is InlineHtml),
{
    match e {
        PreviewEvent::BlockHtml => false,
        PreviewEvent::InlineHtml => false,
        PreviewEvent::Other => true,
    }
}

/// The HTML that pulldown-cmark writes for `markdown` (tables, task lists and strikethrough
/// on), with the events that `keeps_event` refuses left out.
pub uninterp spec fn markdown_html(markdown: Seq<char>) -> Seq<char>;

/// What ammonia's default cleaner leaves of `html`, with `<input>` and its `type`, `checked`
/// and `disabled` attributes also allowed.
pub uninterp spec fn cleaned_html(html: Seq<char>) -> Seq<char>;

/// `pulldown_cmark::Parser::new_ext` with tables, task lists and strikethrough, its events
/// filtered by `keeps_event`, written by `pulldown_cmark::html::push_html`: a function of the
/// Markdown.
#[verifier::external_body]
fn markdown_to_html(markdown: &str) -> (r: String)
    ensures
        r@ == markdown_html(markdown@),
{
    let opts = Options::ENABLE_TABLES | Options::ENABLE_TASKLISTS | Options::ENABLE_STRIKETHROUGH;
    let parser = Parser::new_ext(markdown, opts).filter(|e| keeps_event(match e {
        Event::Html(_) => PreviewEvent::BlockHtml,
        Event::InlineHtml(_) => PreviewEvent::InlineHtml,
        _ => PreviewEvent::Other,
    }));
    let mut out = String::new();
    pulldown_cmark::html::push_html(&mut out, parser);
    out
}

/// `ammonia::Builder::default()` with the `input` tag and its `type`, `checked` and
/// `disabled` attributes added, then `clean`: a function of the HTML.
#[verifier::external_body]
fn clean_html(html: &str) -> (r: String)
    ensures
        r@ == cleaned_html(html@),
{
    ammonia::Builder::default().add_tags(&["input"]).add_tag_attributes(
        "input",
        &["type", "checked", "disabled"],
    ).clean(html).to_string()
}

/// The sanitized HTML preview of a note: its Markdown written as HTML without raw HTML, then
/// cleaned.
pub fn render(markdown: &str) -> (html: String)
    ensures
        html@ == cleaned_html(markdown_html(markdown@)),
{
    let raw = markdown_to_html(markdown);
    clean_html(raw.as_str())
}

} // verus!
