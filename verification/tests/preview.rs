use folio::preview::{keeps_event, render, PreviewEvent};

#[test]
fn markdown_removes_active_html_and_unsafe_links() {
    let rendered = render(
        "# Hello\n\n<script>alert(1)</script>\n\n[bad](javascript:alert(1))\n\n| A | B |\n|---|---|\n| 1 | 2 |",
    );
    assert!(!rendered.contains("<script"));
    assert!(!rendered.contains("href=\"javascript:"));
    assert!(rendered.contains("<table>"));
}

#[test]
fn preview_keeps_text_and_task_boxes_but_not_raw_html() {
    assert!(keeps_event(PreviewEvent::Other));
    assert!(!keeps_event(PreviewEvent::BlockHtml));
    assert!(!keeps_event(PreviewEvent::InlineHtml));
    let rendered = render("- [x] done\n\nText <b>bold</b> and ~~gone~~");
    assert!(rendered.contains("<input"));
    assert!(rendered.contains("checked"));
    assert!(!rendered.contains("<b>"));
    assert!(rendered.contains("<del>gone</del>"));
}
