use isahtml::output::{EmitError, HTMLOutput, Tag};
use isahtml::symbols::parse_symbols;

#[test]
fn merged_captions_wrap_one_fragment() {
    let table = parse_symbols("").unwrap();
    let mut w = HTMLOutput::new_nested();
    w.tooltip_html("A").unwrap();
    w.tooltip_html("B").unwrap();
    w.write_text("x", &table).unwrap();
    w.tooltip_end().unwrap();
    w.tooltip_end().unwrap();
    let out = w.finish();
    assert_eq!(
        out,
        "<span class=\"has-tooltip\">x<span class=\"tooltip\">A\nB</span></span>"
    );
}

#[test]
fn second_tooltip_after_shipout_fails() {
    let table = parse_symbols("").unwrap();
    let mut w = HTMLOutput::new_nested();
    w.tooltip_html("A").unwrap();
    w.write_text("x", &table).unwrap();
    assert_eq!(
        w.tooltip_html("B"),
        Err(EmitError::NestedTooltipAfterShipout)
    );
}

#[test]
fn close_without_open_underflows() {
    let mut w = HTMLOutput::new_nested();
    assert_eq!(w.close_tag(), Err(EmitError::StackUnderflow));
}

#[test]
fn newline_inside_tooltip_fails() {
    let table = parse_symbols("").unwrap();
    let mut w = HTMLOutput::new_nested();
    w.tooltip_html("A").unwrap();
    assert_eq!(
        w.write_text("a\nb", &table),
        Err(EmitError::NewlineInsideTooltip)
    );
}

#[test]
fn tooltip_end_before_shipout_fails() {
    let mut w = HTMLOutput::new_nested();
    w.tooltip_html("A").unwrap();
    assert_eq!(w.tooltip_end(), Err(EmitError::TooltipNotShipped));
}

#[test]
fn newline_reopens_open_regions() {
    // A break closes the open region, ends the line container, and reopens
    // the region identically on the next line.
    let table = parse_symbols("").unwrap();
    let mut w = HTMLOutput::new_root();
    w.open_tag(Tag::SpanClass("kw".to_owned())).unwrap();
    w.write_text("a\nb", &table).unwrap();
    w.close_tag().unwrap();
    let out = w.finish();
    assert!(out.contains(
        "<span class=\"kw\">a</span></code><code><span class=\"kw\">b</span>"
    ));
    assert!(out.starts_with("<!DOCTYPE html>"));
    assert!(out.ends_with("</code></pre></body></html>"));
}

#[test]
fn nested_buffer_keeps_plain_newlines() {
    // a nested emitter renders a detached fragment: no line containers
    let table = parse_symbols("").unwrap();
    let mut w = HTMLOutput::new_nested();
    w.write_text("a\nb", &table).unwrap();
    assert_eq!(w.finish(), "a\nb");
}

#[test]
fn text_is_escaped() {
    let table = parse_symbols("").unwrap();
    let mut w = HTMLOutput::new_nested();
    w.write_text("a<b & c>d", &table).unwrap();
    assert_eq!(w.finish(), "a&lt;b &amp; c&gt;d");
}
