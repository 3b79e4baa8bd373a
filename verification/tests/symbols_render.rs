use isahtml::render::{lower_node, processed_ir, render_document, render_to_string, ConvertError};
use isahtml::symbols::{parse_symbols, render_symbols, SymbolsError};
use isahtml::wire::parse;

const TABLE: &str = "\
# test table
\\<alpha> code: 0x03b1 group: greek
\\<Longrightarrow> code: 0x27f9 abbrev: .> abbrev: ==>
\\<^bold> group: control
";

#[test]
fn parse_symbols_builds_table() {
    let table = parse_symbols(TABLE).unwrap();
    assert!(table.lookup("alpha").is_some());
    assert!(table.lookup("Longrightarrow").is_some());
    assert!(table.lookup("^bold").is_some());
    assert!(table.lookup("beta").is_none());
}

#[test]
fn parse_symbols_rejects_duplicates() {
    let data = "\\<a> code: 0x61\n\\<a> code: 0x62\n";
    assert_eq!(parse_symbols(data), Err(SymbolsError::DuplicateSymbol));
}

#[test]
fn parse_symbols_rejects_bad_code() {
    assert_eq!(
        parse_symbols("\\<a> code: 61\n"),
        Err(SymbolsError::BadCode)
    );
    assert_eq!(
        parse_symbols("\\<a> code: 0xzz\n"),
        Err(SymbolsError::BadCode)
    );
    assert_eq!(
        parse_symbols("\\<a> code: 0xd800\n"),
        Err(SymbolsError::BadCode)
    );
}

#[test]
fn parse_symbols_rejects_odd_arguments() {
    assert_eq!(
        parse_symbols("\\<a> code:\n"),
        Err(SymbolsError::MissingArgumentValue)
    );
}

#[test]
fn parse_symbols_rejects_unknown_argument() {
    assert_eq!(
        parse_symbols("\\<a> color: red\n"),
        Err(SymbolsError::UnknownArgument)
    );
}

#[test]
fn render_substitutes_glyphs() {
    let table = parse_symbols(TABLE).unwrap();
    let mut out = String::new();
    render_symbols("x \\<alpha> y", &mut out, false, &table).unwrap();
    assert_eq!(out, "x \u{3b1} y");
}

#[test]
fn render_wraps_symbol_tooltips() {
    let table = parse_symbols(TABLE).unwrap();
    let mut out = String::new();
    render_symbols("\\<Longrightarrow>", &mut out, true, &table).unwrap();
    assert_eq!(
        out,
        "<span class=\"has-tooltip\">\u{27f9}<span class=\"tooltip\">\\&lt;Longrightarrow&gt;\nabbreviation: .&gt;\nabbreviation: ==&gt;</span></span>"
    );
}

#[test]
fn render_escapes_plain_text() {
    let table = parse_symbols("").unwrap();
    let mut out = String::new();
    render_symbols("1 < 2 && 3 > 2", &mut out, true, &table).unwrap();
    assert_eq!(out, "1 &lt; 2 &amp;&amp; 3 &gt; 2");
}

#[test]
fn render_control_symbol() {
    let table = parse_symbols(TABLE).unwrap();
    let mut out = String::new();
    render_symbols("\\<^bold>", &mut out, false, &table).unwrap();
    assert_eq!(out, "<span class=\"control\">bold</span>");
}

#[test]
fn unknown_symbol_is_reported() {
    let table = parse_symbols("").unwrap();
    let nodes = parse("\\<alpha>").unwrap();
    assert_eq!(
        render_to_string(&nodes, &table),
        Err(ConvertError::UnknownSymbol("alpha".to_string()))
    );
}

#[test]
fn end_to_end_keyword_region() {
    // A wire region naming a keyword style produces a span of that class
    // wrapping the text, correctly nested in the document scaffolding.
    let table = parse_symbols("").unwrap();
    let out = render_document("\x05\x06keyword1\x05foo\x05\x06\x05", &table).unwrap();
    assert!(out.contains("<span class=\"keyword1\">foo</span>"));
    assert!(out.starts_with("<!DOCTYPE html>"));
    assert!(out.ends_with("</pre></body></html>"));
    assert!(out.contains("<code><span class=\"keyword1\">foo</span></code>"));
}

#[test]
fn keyword_kind_joins_class() {
    let table = parse_symbols("").unwrap();
    let out = render_document(
        "\x05\x06keyword1\x06kind=command\x05foo\x05\x06\x05",
        &table,
    )
    .unwrap();
    assert!(out.contains("<span class=\"keyword1 command\">foo</span>"));
}

#[test]
fn xml_elem_renders_hover_type() {
    let table = parse_symbols("").unwrap();
    let input = "\x05\x06free\x05\x05\x06xml_elem\x06xml_name=typing\x05x\x05\x06xml_body\x05int\x05\x06\x05\x05\x06\x05\x05\x06\x05";
    let out = render_document(input, &table).unwrap();
    assert!(out.contains("<span class=\"tooltip\">free variable\n:: int</span>"));
    assert!(out.contains("x"));
}

#[test]
fn xml_elem_without_name_fails() {
    let table = parse_symbols("").unwrap();
    assert_eq!(
        render_document("\x05\x06xml_elem\x05x\x05\x06\x05", &table),
        Err(ConvertError::MissingXmlName)
    );
}

#[test]
fn xml_elem_unknown_kind_fails() {
    let table = parse_symbols("").unwrap();
    assert_eq!(
        render_document("\x05\x06xml_elem\x06xml_name=odd\x05x\x05\x06\x05", &table),
        Err(ConvertError::UnknownXmlElem("odd".to_string()))
    );
}

#[test]
fn xml_elem_without_body_fails() {
    let table = parse_symbols("").unwrap();
    assert_eq!(
        render_document(
            "\x05\x06xml_elem\x06xml_name=typing\x05x\x05\x06\x05",
            &table
        ),
        Err(ConvertError::MissingXmlBody)
    );
}

#[test]
fn parse_error_propagates() {
    let table = parse_symbols("").unwrap();
    assert!(matches!(
        render_document("\x05\x06tag", &table),
        Err(ConvertError::Parse(_))
    ));
}

#[test]
fn lower_node_ignores_xml_body() {
    let table = parse_symbols("").unwrap();
    let nodes = parse("\x05\x06xml_body\x05zzz\x05\x06\x05").unwrap();
    assert_eq!(lower_node(&nodes[0], &table).unwrap(), vec![]);
}

#[test]
fn processed_ir_merges_and_prunes() {
    let table = parse_symbols("").unwrap();
    // an empty region disappears; a variable region gets class and caption
    let nodes = parse("\x05\x06free\x05v\x05\x06\x05\x05\x06comment\x05\x05\x06\x05").unwrap();
    let ir = processed_ir(&nodes, &table).unwrap();
    assert_eq!(ir.len(), 1);
}
