//! Rendering of canonicalized annotation forests as nested markup, and the
//! lowering of parsed wire nodes into annotation trees.

use vstd::prelude::*;
use crate::ir::{
    Tag, TagTree, TagV, TreeV, forest_size, tree_size, trees_view, lemma_trees_view,
    lemma_forest_size_first, lemma_trees_view_concat, m_forest, m_scan, trim_v, trim_empty,
    merge_tooltips, split_tree, split_forest, split_lines, lines_view, lemma_split_tree_len,
    lemma_split_forest_len,
};
use crate::text::fuse;
use crate::symbols::{RenderError, SymbolTable, SymV, rs_spec, table_wf};
use crate::wire::{Node, NodeV, ParseError, ParseErrV, forest_view, attrs_views, nsize, nfsize, lemma_nfsize_first};
use crate::text::{str_eq, push_char};

verus! {

/// Whether a forest can be emitted in the given tooltip context: a tooltip
/// region must not stand inside another tooltip's range. Canonicalization
/// guarantees this; the writer requires it.
pub open spec fn emit_ok(f: Seq<TreeV>, in_tt: bool) -> bool
    decreases forest_size(f), 0int,
    via emit_ok_dec
{
    if f.len() == 0 {
        true
    } else {
        let head = match f.first() {
            TreeV::Text(_) => true,
            TreeV::Tag { tag, children } => match tag {
                TagV::Tooltip(_) => !in_tt && emit_ok(children, true),
                TagV::SpanClass(_) => emit_ok(children, in_tt),
            },
        };
        head && emit_ok(f.drop_first(), in_tt)
    }
}

#[via_fn]
proof fn emit_ok_dec(f: Seq<TreeV>, in_tt: bool) {
    if f.len() > 0 {
        lemma_forest_size_first(f);
        match f.first() {
            TreeV::Tag { tag, children } => {
                assert(tree_size(f.first()) == 1 + forest_size(children));
            },
            TreeV::Text(_) => {},
        }
    }
}

pub proof fn lemma_emit_ok_concat(a: Seq<TreeV>, b: Seq<TreeV>, in_tt: bool)
    ensures
        emit_ok(a + b, in_tt) == (emit_ok(a, in_tt) && emit_ok(b, in_tt)),
    decreases a.len(),
{
    if a.len() == 0 {
        assert(a + b =~= b);
    } else {
        lemma_emit_ok_concat(a.drop_first(), b, in_tt);
        assert((a + b).first() == a.first());
        assert((a + b).drop_first() =~= a.drop_first() + b);
    }
}

/// Merging canonicalizes: the returned flag says exactly whether a tooltip
/// survives anywhere in the result, and every surviving tooltip's own range
/// is free of further tooltips.
pub proof fn lemma_merge_canonical(f: Seq<TreeV>, has_acc: bool, acc: Seq<char>)
    ensures
        m_forest(f, has_acc, acc).2 == !emit_ok(m_forest(f, has_acc, acc).0, true),
        emit_ok(m_forest(f, has_acc, acc).0, false),
    decreases forest_size(f), 1int,
{
    crate::ir::lemma_tree_size_pos(if f.len() > 0 { f.first() } else { TreeV::Text(Seq::empty()) });
    if has_acc && f.len() == 1 {
        lemma_forest_size_first(f);
        assert(f.drop_first() =~= Seq::<TreeV>::empty());
        match f.first() {
            TreeV::Tag { tag, children } => match tag {
                TagV::SpanClass(_) => {
                    lemma_merge_canonical(children, true, acc);
                    let r = m_forest(children, true, acc);
                    let w = TreeV::Tag { tag, children: r.0 };
                    assert(seq![w].first() == w);
                    assert(seq![w].drop_first() =~= Seq::<TreeV>::empty());
                    assert(emit_ok(Seq::<TreeV>::empty(), true));
                    assert(emit_ok(Seq::<TreeV>::empty(), false));
                    assert(emit_ok(seq![w], true) == emit_ok(r.0, true));
                    assert(emit_ok(seq![w], false) == emit_ok(r.0, false));
                },
                TagV::Tooltip(s) => {
                    lemma_merge_canonical(children, true, acc.push('\n') + s);
                },
            },
            TreeV::Text(_) => {
                assert(f.first() == f[0]);
                assert(emit_ok(Seq::<TreeV>::empty(), true));
                assert(emit_ok(Seq::<TreeV>::empty(), false));
                assert(emit_ok(f, true));
                assert(emit_ok(f, false));
            },
        }
    } else {
        lemma_scan_canonical(f);
    }
}

pub proof fn lemma_scan_canonical(f: Seq<TreeV>)
    ensures
        m_scan(f).1 == !emit_ok(m_scan(f).0, true),
        emit_ok(m_scan(f).0, false),
    decreases forest_size(f), 0int,
{
    if f.len() == 0 {
    } else {
        lemma_forest_size_first(f);
        lemma_scan_canonical(f.drop_first());
        let rest = m_scan(f.drop_first());
        match f.first() {
            TreeV::Text(_) => {
                let h = f.first();
                assert((seq![h] + rest.0).first() == h);
                assert((seq![h] + rest.0).drop_first() =~= rest.0);
            },
            TreeV::Tag { tag, children } => {
                assert(tree_size(f.first()) == 1 + forest_size(children));
                match tag {
                    TagV::SpanClass(_) => {
                        lemma_merge_canonical(children, false, Seq::empty());
                        let rc = m_forest(children, false, Seq::empty());
                        let w = TreeV::Tag { tag, children: rc.0 };
                        assert((seq![w] + rest.0).first() == w);
                        assert((seq![w] + rest.0).drop_first() =~= rest.0);
                    },
                    TagV::Tooltip(s) => {
                        lemma_merge_canonical(children, true, s);
                        let rc = m_forest(children, true, s);
                        if rc.2 {
                            lemma_emit_ok_concat(rc.0, rest.0, false);
                            lemma_emit_ok_concat(rc.0, rest.0, true);
                        } else {
                            let w = TreeV::Tag { tag: TagV::Tooltip(rc.1), children: rc.0 };
                            assert((seq![w] + rest.0).first() == w);
                            assert((seq![w] + rest.0).drop_first() =~= rest.0);
                        }
                    },
                }
            },
        }
    }
}

/// The markup a forest renders to; the error carries an unknown symbol name.
pub open spec fn render_forest(f: Seq<TreeV>, in_tt: bool, tbl: Seq<SymV>) -> Result<
    Seq<char>,
    Seq<char>,
>
    decreases forest_size(f), 0int,
    via render_forest_dec
{
    if f.len() == 0 {
        Ok(Seq::empty())
    } else {
        let head = match f.first() {
            TreeV::Text(s) => rs_spec(s, !in_tt, tbl),
            TreeV::Tag { tag, children } => match tag {
                TagV::Tooltip(cap) => match render_forest(children, true, tbl) {
                    Ok(t) => Ok(
                        "<span class=\"has-tooltip\">"@ + t + "<span class=\"tooltip\">"@ + cap
                            + "</span></span>"@,
                    ),
                    Err(n) => Err(n),
                },
                TagV::SpanClass(cl) => match render_forest(children, in_tt, tbl) {
                    Ok(t) => Ok("<span class=\""@ + cl + "\">"@ + t + "</span>"@),
                    Err(n) => Err(n),
                },
            },
        };
        match (head, render_forest(f.drop_first(), in_tt, tbl)) {
            (Ok(a), Ok(b)) => Ok(a + b),
            (Err(n), _) => Err(n),
            (_, Err(n)) => Err(n),
        }
    }
}

#[via_fn]
proof fn render_forest_dec(f: Seq<TreeV>, in_tt: bool, tbl: Seq<SymV>) {
    if f.len() > 0 {
        lemma_forest_size_first(f);
        match f.first() {
            TreeV::Tag { tag, children } => {
                assert(tree_size(f.first()) == 1 + forest_size(children));
            },
            TreeV::Text(_) => {},
        }
    }
}

/// Renders the forest from index `from` on.
fn render_nodes(input: &Vec<TagTree>, from: usize, in_tt: bool, table: &SymbolTable) -> (r: Result<
    String,
    RenderError,
>)
    requires
        from <= input@.len(),
        table_wf(table@),
        emit_ok(trees_view(input@).skip(from as int), in_tt),
    ensures
        match (r, render_forest(trees_view(input@).skip(from as int), in_tt, table@)) {
            (Ok(s), Ok(t)) => s@ == t,
            (Err(e), Err(n)) => e matches RenderError::UnknownSymbol(u) && u@ == n,
            _ => false,
        },
    decreases forest_size(trees_view(input@).skip(from as int)), 1int,
{
    let ghost fv = trees_view(input@);
    let ghost g = fv.skip(from as int);
    proof {
        lemma_trees_view(input@);
    }
    if from >= input.len() {
        proof {
            assert(g =~= Seq::<TreeV>::empty());
        }
        return Ok(String::new());
    }
    proof {
        assert(g.first() == fv[from as int]);
        assert(g.drop_first() =~= fv.skip(from as int + 1));
        lemma_forest_size_first(g);
    }
    let node = &input[from];
    let head: String = match node {
        TagTree::Text(s) => {
            proof {
                assert(g.first() == TreeV::Text(s@));
            }
            let mut h = String::new();
            match crate::symbols::render_symbols(s.as_str(), &mut h, !in_tt, table) {
                Err(e) => {
                    return Err(e);
                },
                Ok(()) => {},
            }
            h
        },
        TagTree::Tag { tag, children } => {
            proof {
                assert(g.first() == TreeV::Tag { tag: tag@, children: trees_view(children@) });
                assert(tree_size(g.first()) == 1 + forest_size(trees_view(children@)));
                assert(trees_view(children@).skip(0) =~= trees_view(children@));
            }
            match tag {
                Tag::Tooltip(cap) => {
                    let inner = match render_nodes(children, 0, true, table) {
                        Err(e) => {
                            return Err(e);
                        },
                        Ok(s) => s,
                    };
                    let mut h = String::new();
                    h.append("<span class=\"has-tooltip\">");
                    h.append(inner.as_str());
                    h.append("<span class=\"tooltip\">");
                    h.append(cap.as_str());
                    h.append("</span></span>");
                    h
                },
                Tag::SpanClass(cl) => {
                    let inner = match render_nodes(children, 0, in_tt, table) {
                        Err(e) => {
                            return Err(e);
                        },
                        Ok(s) => s,
                    };
                    let mut h = String::new();
                    h.append("<span class=\"");
                    h.append(cl.as_str());
                    h.append("\">");
                    h.append(inner.as_str());
                    h.append("</span>");
                    h
                },
            }
        },
    };
    let rest = match render_nodes(input, from + 1, in_tt, table) {
        Err(e) => {
            return Err(e);
        },
        Ok(s) => s,
    };
    let mut out = head;
    out.append(rest.as_str());
    Ok(out)
}

/// Appends the forest's markup to the output; on an unknown symbol the
/// output is left untouched and the name is reported.
pub fn write_nodes(out: &mut String, input: &Vec<TagTree>, in_tooltip: bool, table: &SymbolTable)
    -> (r: Result<(), RenderError>)
    requires
        table_wf(table@),
        emit_ok(trees_view(input@), in_tooltip),
    ensures
        match (r, render_forest(trees_view(input@), in_tooltip, table@)) {
            (Ok(()), Ok(t)) => final(out)@ == old(out)@ + t,
            (Err(e), Err(n)) => (e matches RenderError::UnknownSymbol(u) && u@ == n) && final(out)@
                == old(out)@,
            _ => false,
        },
{
    proof {
        assert(trees_view(input@).skip(0) =~= trees_view(input@));
    }
    match render_nodes(input, 0, in_tooltip, table) {
        Err(e) => Err(e),
        Ok(s) => {
            out.append(s.as_str());
            Ok(())
        },
    }
}

// ---------------------------------------------------------------------------
// Lowering: parsed wire nodes become annotation trees via the static name
// table; region names may contribute a style class, a fixed caption, or
// (for hover type information) a caption rendered from an embedded body.
// ---------------------------------------------------------------------------

#[derive(Debug, PartialEq, Eq)]
pub enum ConvertError {
    /// The wire input is malformed.
    Parse(ParseError),
    /// A text leaf names a symbol the table lacks.
    UnknownSymbol(String),
    /// A hover region without the attribute naming its kind.
    MissingXmlName,
    /// A hover region of a kind the lowering does not know.
    UnknownXmlElem(String),
    /// A hover region without an embedded body to render.
    MissingXmlBody,
}

#[verifier::ext_equal]
pub enum ConvErrV {
    Parse(ParseErrV),
    UnknownSymbol(Seq<char>),
    MissingXmlName,
    UnknownXmlElem(Seq<char>),
    MissingXmlBody,
}

impl View for ConvertError {
    type V = ConvErrV;

    open spec fn view(&self) -> ConvErrV {
        match self {
            ConvertError::Parse(p) => ConvErrV::Parse(p@),
            ConvertError::UnknownSymbol(s) => ConvErrV::UnknownSymbol(s@),
            ConvertError::MissingXmlName => ConvErrV::MissingXmlName,
            ConvertError::UnknownXmlElem(s) => ConvErrV::UnknownXmlElem(s@),
            ConvertError::MissingXmlBody => ConvErrV::MissingXmlBody,
        }
    }
}

/// The value of the last attribute of the given key, as a map built in
/// order would hold it.
pub open spec fn attr_lookup(attrs: Seq<(Seq<char>, Seq<char>)>, key: Seq<char>) -> Option<Seq<char>>
    decreases attrs.len(),
{
    if attrs.len() == 0 {
        None
    } else if attrs.last().0 == key {
        Some(attrs.last().1)
    } else {
        attr_lookup(attrs.drop_last(), key)
    }
}

/// Region names styled by their own name.
pub open spec fn is_plain_class(name: Seq<char>) -> bool {
    ||| name == "binding"@
    ||| name == "tfree"@
    ||| name == "tvar"@
    ||| name == "free"@
    ||| name == "skolem"@
    ||| name == "bound"@
    ||| name == "var"@
    ||| name == "literal"@
    ||| name == "inner_numeral"@
    ||| name == "inner_quoted"@
    ||| name == "inner_cartouche"@
    ||| name == "inner_string"@
    ||| name == "antiquoted"@
    ||| name == "comment1"@
    ||| name == "comment2"@
    ||| name == "comment3"@
    ||| name == "dynamic_fact"@
    ||| name == "quasi_keyword"@
    ||| name == "operator"@
    ||| name == "string"@
    ||| name == "alt_string"@
    ||| name == "verbatim"@
    ||| name == "cartouche"@
    ||| name == "comment"@
    ||| name == "improper"@
    ||| name == "antiquote"@
    ||| name == "raw_text"@
    ||| name == "plain_text"@
}

/// The style class a region contributes: keywords add their kind attribute,
/// a fixed set of names style as themselves.
pub open spec fn class_of(name: Seq<char>, attrs: Seq<(Seq<char>, Seq<char>)>) -> Option<Seq<char>> {
    if name == "keyword1"@ || name == "keyword2"@ || name == "keyword3"@ {
        match attr_lookup(attrs, "kind"@) {
            Some(k) => Some(name + seq![' '] + k),
            None => Some(name),
        }
    } else if is_plain_class(name) {
        Some(name)
    } else {
        None
    }
}

/// The fixed captions of variable-like regions.
pub open spec fn simple_tooltip(name: Seq<char>) -> Option<Seq<char>> {
    if name == "citation"@ {
        Some("citation"@)
    } else if name == "token_range"@ {
        Some("inner syntax token"@)
    } else if name == "free"@ {
        Some("free variable"@)
    } else if name == "skolem"@ {
        Some("skolem variable"@)
    } else if name == "bound"@ {
        Some("bound variable"@)
    } else if name == "var"@ {
        Some("schematic variable"@)
    } else if name == "tfree"@ {
        Some("free type variable"@)
    } else if name == "tvar"@ {
        Some("schematic type variable"@)
    } else {
        None
    }
}

/// The children of the first embedded body among the given nodes.
pub open spec fn find_xml_body(f: Seq<NodeV>) -> Option<Seq<NodeV>>
    decreases f.len(),
{
    if f.len() == 0 {
        None
    } else {
        match f.first() {
            NodeV::Tag { name, children, .. } => if name == "xml_body"@ {
                Some(children)
            } else {
                find_xml_body(f.drop_first())
            },
            NodeV::Text(_) => find_xml_body(f.drop_first()),
        }
    }
}

proof fn lemma_find_xml_body_size(f: Seq<NodeV>)
    requires
        find_xml_body(f) is Some,
    ensures
        nfsize(find_xml_body(f)->Some_0) < nfsize(f),
    decreases f.len(),
{
    lemma_nfsize_first(f);
    match f.first() {
        NodeV::Tag { name, children, .. } => {
            if name == "xml_body"@ {
                assert(nsize(f.first()) == 1 + nfsize(children));
            } else {
                lemma_find_xml_body_size(f.drop_first());
            }
        },
        NodeV::Text(_) => {
            lemma_find_xml_body_size(f.drop_first());
        },
    }
}

/// What lowering one node yields: possibly nothing (an embedded body),
/// otherwise its lowered children wrapped in this region's caption and
/// style class, where it has them.
pub open spec fn lower_node_v(n: NodeV, tbl: Seq<SymV>) -> Result<Seq<TreeV>, ConvErrV>
    decreases nsize(n), 0int,
    via lower_node_v_dec
{
    match n {
        NodeV::Text(s) => Ok(seq![TreeV::Text(s)]),
        NodeV::Tag { name, attrs, children } => {
            if name == "xml_body"@ {
                Ok(Seq::empty())
            } else {
                let class = class_of(name, attrs);
                let tooltip_r: Result<Option<Seq<char>>, ConvErrV> = if name == "xml_elem"@ {
                    match attr_lookup(attrs, "xml_name"@) {
                        None => Err(ConvErrV::MissingXmlName),
                        Some(x) => {
                            if x == "ML_typing"@ || x == "typing"@ || x == "sorting"@ || x
                                == "class_parameter"@ {
                                let prefix = if x == "ML_typing"@ {
                                    "ML: "@
                                } else if x == "class_parameter"@ {
                                    Seq::<char>::empty()
                                } else {
                                    ":: "@
                                };
                                match find_xml_body(children) {
                                    None => Err(ConvErrV::MissingXmlBody),
                                    Some(body) => match render_str_v(body, tbl) {
                                        Ok(t) => Ok(Some(prefix + t)),
                                        Err(e) => Err(e),
                                    },
                                }
                            } else {
                                Err(ConvErrV::UnknownXmlElem(x))
                            }
                        },
                    }
                } else {
                    Ok(simple_tooltip(name))
                };
                match tooltip_r {
                    Err(e) => Err(e),
                    Ok(tooltip) => match lower_forest_v(children, tbl) {
                        Err(e) => Err(e),
                        Ok(low) => {
                            let with_tt = match tooltip {
                                Some(s) => seq![TreeV::Tag { tag: TagV::Tooltip(s), children: low }],
                                None => low,
                            };
                            let with_cls = match class {
                                Some(c) => seq![
                                    TreeV::Tag { tag: TagV::SpanClass(c), children: with_tt },
                                ],
                                None => with_tt,
                            };
                            Ok(with_cls)
                        },
                    },
                }
            }
        },
    }
}

#[via_fn]
proof fn lower_node_v_dec(n: NodeV, tbl: Seq<SymV>) {
    match n {
        NodeV::Tag { name, attrs, children } => {
            assert(nsize(n) == 1 + nfsize(children));
            if find_xml_body(children) is Some {
                lemma_find_xml_body_size(children);
            }
        },
        NodeV::Text(_) => {},
    }
}

pub open spec fn lower_forest_v(f: Seq<NodeV>, tbl: Seq<SymV>) -> Result<Seq<TreeV>, ConvErrV>
    decreases nfsize(f), 1int,
    via lower_forest_v_dec
{
    if f.len() == 0 {
        Ok(Seq::empty())
    } else {
        match lower_node_v(f.first(), tbl) {
            Err(e) => Err(e),
            Ok(h) => match lower_forest_v(f.drop_first(), tbl) {
                Err(e) => Err(e),
                Ok(r) => Ok(h + r),
            },
        }
    }
}

#[via_fn]
proof fn lower_forest_v_dec(f: Seq<NodeV>, tbl: Seq<SymV>) {
    if f.len() > 0 {
        lemma_nfsize_first(f);
    }
}

/// Lowered, pruned and merged: the canonical annotation forest of the input.
pub open spec fn processed_v(f: Seq<NodeV>, tbl: Seq<SymV>) -> Result<Seq<TreeV>, ConvErrV>
    decreases nfsize(f), 2int,
{
    match lower_forest_v(f, tbl) {
        Err(e) => Err(e),
        Ok(ir) => Ok(m_forest(trim_v(ir), false, Seq::empty()).0),
    }
}

/// The markup of a canonicalized forest, as one detached fragment.
pub open spec fn render_str_v(f: Seq<NodeV>, tbl: Seq<SymV>) -> Result<Seq<char>, ConvErrV>
    decreases nfsize(f), 3int,
{
    match processed_v(f, tbl) {
        Err(e) => Err(e),
        Ok(ir) => match render_forest(ir, false, tbl) {
            Ok(t) => Ok(t),
            Err(n) => Err(ConvErrV::UnknownSymbol(n)),
        },
    }
}

fn attr_lookup_exec(attrs: &Vec<(String, String)>, key: &str) -> (r: Option<String>)
    ensures
        match r {
            Some(v) => attr_lookup(attrs_views(attrs@), key@) == Some(v@),
            None => attr_lookup(attrs_views(attrs@), key@) is None,
        },
{
    let ghost av = attrs_views(attrs@);
    let mut i = attrs.len();
    proof {
        assert(av.len() == attrs@.len());
        assert(av.take(attrs@.len() as int) =~= av);
    }
    while i > 0
        invariant
            i <= attrs@.len(),
            av == attrs_views(attrs@),
            av.len() == attrs@.len(),
            attr_lookup(av.take(i as int), key@) == attr_lookup(av, key@),
        decreases i,
    {
        i = i - 1;
        proof {
            assert(av.take(i as int + 1).last() == av[i as int]);
            assert(av.take(i as int + 1).drop_last() =~= av.take(i as int));
            assert(av[i as int] == (attrs@[i as int].0@, attrs@[i as int].1@));
        }
        if str_eq(attrs[i].0.as_str(), key) {
            return Some(attrs[i].1.clone());
        }
    }
    proof {
        assert(av.take(0) =~= Seq::<(Seq<char>, Seq<char>)>::empty());
    }
    None
}

fn class_of_exec(name: &str, attrs: &Vec<(String, String)>) -> (r: Option<String>)
    ensures
        match r {
            Some(c) => class_of(name@, attrs_views(attrs@)) == Some(c@),
            None => class_of(name@, attrs_views(attrs@)) is None,
        },
{
    if str_eq(name, "keyword1") || str_eq(name, "keyword2") || str_eq(name, "keyword3") {
        let mut c = name.to_owned();
        match attr_lookup_exec(attrs, "kind") {
            Some(k) => {
                push_char(&mut c, ' ');
                c.append(k.as_str());
                proof {
                    assert(c@ =~= name@ + seq![' '] + k@);
                }
                Some(c)
            },
            None => Some(c),
        }
    } else if str_eq(name, "binding") || str_eq(name, "tfree") || str_eq(name, "tvar") || str_eq(
        name,
        "free",
    ) || str_eq(name, "skolem") || str_eq(name, "bound") || str_eq(name, "var") || str_eq(
        name,
        "literal",
    ) || str_eq(name, "inner_numeral") || str_eq(name, "inner_quoted") || str_eq(
        name,
        "inner_cartouche",
    ) || str_eq(name, "inner_string") || str_eq(name, "antiquoted") || str_eq(name, "comment1")
        || str_eq(name, "comment2") || str_eq(name, "comment3") || str_eq(name, "dynamic_fact")
        || str_eq(name, "quasi_keyword") || str_eq(name, "operator") || str_eq(name, "string")
        || str_eq(name, "alt_string") || str_eq(name, "verbatim") || str_eq(name, "cartouche")
        || str_eq(name, "comment") || str_eq(name, "improper") || str_eq(name, "antiquote")
        || str_eq(name, "raw_text") || str_eq(name, "plain_text") {
        Some(name.to_owned())
    } else {
        None
    }
}

fn simple_tooltip_exec(name: &str) -> (r: Option<String>)
    ensures
        match r {
            Some(c) => simple_tooltip(name@) == Some(c@),
            None => simple_tooltip(name@) is None,
        },
{
    if str_eq(name, "citation") {
        Some("citation".to_owned())
    } else if str_eq(name, "token_range") {
        Some("inner syntax token".to_owned())
    } else if str_eq(name, "free") {
        Some("free variable".to_owned())
    } else if str_eq(name, "skolem") {
        Some("skolem variable".to_owned())
    } else if str_eq(name, "bound") {
        Some("bound variable".to_owned())
    } else if str_eq(name, "var") {
        Some("schematic variable".to_owned())
    } else if str_eq(name, "tfree") {
        Some("free type variable".to_owned())
    } else if str_eq(name, "tvar") {
        Some("schematic type variable".to_owned())
    } else {
        None
    }
}

fn find_xml_body_exec<'a>(children: &'a Vec<Node>) -> (r: Option<&'a Vec<Node>>)
    ensures
        match r {
            Some(b) => find_xml_body(forest_view(children@)) == Some(forest_view(b@)),
            None => find_xml_body(forest_view(children@)) is None,
        },
{
    let ghost fv = forest_view(children@);
    proof {
        crate::wire::lemma_forest_view(children@);
        assert(fv.skip(0) =~= fv);
    }
    let n = children.len();
    let mut i: usize = 0;
    while i < n
        invariant
            i <= n,
            n == children@.len(),
            fv == forest_view(children@),
            fv.len() == n,
            forall|k: int| 0 <= k < n ==> fv[k] == children@[k]@,
            find_xml_body(fv.skip(i as int)) == find_xml_body(fv),
        decreases n - i,
    {
        proof {
            assert(fv.skip(i as int).first() == fv[i as int]);
            assert(fv.skip(i as int).drop_first() =~= fv.skip(i as int + 1));
        }
        match &children[i] {
            Node::Tag { name, children: body, .. } => {
                if str_eq(name.as_str(), "xml_body") {
                    return Some(body);
                }
            },
            Node::Text(_) => {},
        }
        i += 1;
    }
    proof {
        assert(fv.skip(n as int) =~= Seq::<NodeV>::empty());
    }
    None
}

/// Lowers one parsed node to annotation trees.
pub fn lower_node(node: &Node, table: &SymbolTable) -> (r: Result<Vec<TagTree>, ConvertError>)
    requires
        table_wf(table@),
    ensures
        match (r, lower_node_v(node@, table@)) {
            (Ok(ts), Ok(tv)) => trees_view(ts@) == tv,
            (Err(e), Err(ev)) => e@ == ev,
            _ => false,
        },
    decreases nsize(node@), 0int,
{
    let ghost nv = node@;
    match node {
        Node::Text(s) => {
            let mut out: Vec<TagTree> = Vec::new();
            out.push(TagTree::Text(s.clone()));
            proof {
                assert(out@.drop_first() =~= Seq::<TagTree>::empty());
                assert(crate::ir::trees_view(Seq::<TagTree>::empty()) =~= Seq::<TreeV>::empty());
                assert(trees_view(out@) == seq![out@.first().deep()] + crate::ir::trees_view(
                    Seq::<TagTree>::empty(),
                ));
                assert(trees_view(out@) =~= seq![TreeV::Text(s@)]);
            }
            Ok(out)
        },
        Node::Tag { name, attrs, children } => {
            proof {
                assert(nv == NodeV::Tag {
                    name: name@,
                    attrs: attrs_views(attrs@),
                    children: forest_view(children@),
                });
                assert(nsize(nv) == 1 + nfsize(forest_view(children@)));
                assert(forest_view(children@).skip(0) =~= forest_view(children@));
            }
            if str_eq(name.as_str(), "xml_body") {
                let out: Vec<TagTree> = Vec::new();
                proof {
                    assert(trees_view(out@) =~= Seq::<TreeV>::empty());
                }
                return Ok(out);
            }
            let class = class_of_exec(name.as_str(), attrs);
            let tooltip: Option<String> = if str_eq(name.as_str(), "xml_elem") {
                match attr_lookup_exec(attrs, "xml_name") {
                    None => {
                        return Err(ConvertError::MissingXmlName);
                    },
                    Some(x) => {
                        let known = str_eq(x.as_str(), "ML_typing") || str_eq(x.as_str(), "typing")
                            || str_eq(x.as_str(), "sorting") || str_eq(x.as_str(), "class_parameter");
                        if !known {
                            return Err(ConvertError::UnknownXmlElem(x));
                        }
                        let mut cap: String = if str_eq(x.as_str(), "ML_typing") {
                            "ML: ".to_owned()
                        } else if str_eq(x.as_str(), "class_parameter") {
                            String::new()
                        } else {
                            ":: ".to_owned()
                        };
                        match find_xml_body_exec(children) {
                            None => {
                                return Err(ConvertError::MissingXmlBody);
                            },
                            Some(body) => {
                                proof {
                                    lemma_find_xml_body_size(forest_view(children@));
                                }
                                match render_to_string(body, table) {
                                    Err(e) => {
                                        return Err(e);
                                    },
                                    Ok(t) => {
                                        cap.append(t.as_str());
                                    },
                                }
                            },
                        }
                        Some(cap)
                    },
                }
            } else {
                simple_tooltip_exec(name.as_str())
            };
            let low = match lower_forest(children, 0, table) {
                Err(e) => {
                    return Err(e);
                },
                Ok(v) => v,
            };
            let ghost lowv = trees_view(low@);
            let with_tt: Vec<TagTree> = match tooltip {
                Some(s) => {
                    let mut v: Vec<TagTree> = Vec::new();
                    let ghost sv = s@;
                    v.push(TagTree::Tag { tag: Tag::Tooltip(s), children: low });
                    proof {
                        assert(v@.drop_first() =~= Seq::<TagTree>::empty());
                        assert(crate::ir::trees_view(Seq::<TagTree>::empty())
                            =~= Seq::<TreeV>::empty());
                        assert(trees_view(v@) == seq![v@.first().deep()] + crate::ir::trees_view(
                            Seq::<TagTree>::empty(),
                        ));
                        assert(trees_view(v@) =~= seq![
                            TreeV::Tag { tag: TagV::Tooltip(sv), children: lowv },
                        ]);
                    }
                    v
                },
                None => low,
            };
            let ghost ttv = trees_view(with_tt@);
            let out: Vec<TagTree> = match class {
                Some(c) => {
                    let mut v: Vec<TagTree> = Vec::new();
                    let ghost cv = c@;
                    v.push(TagTree::Tag { tag: Tag::SpanClass(c), children: with_tt });
                    proof {
                        assert(v@.drop_first() =~= Seq::<TagTree>::empty());
                        assert(crate::ir::trees_view(Seq::<TagTree>::empty())
                            =~= Seq::<TreeV>::empty());
                        assert(trees_view(v@) == seq![v@.first().deep()] + crate::ir::trees_view(
                            Seq::<TagTree>::empty(),
                        ));
                        assert(trees_view(v@) =~= seq![
                            TreeV::Tag { tag: TagV::SpanClass(cv), children: ttv },
                        ]);
                    }
                    v
                },
                None => with_tt,
            };
            Ok(out)
        },
    }
}

/// Lowers the forest from index `from` on.
fn lower_forest(input: &Vec<Node>, from: usize, table: &SymbolTable) -> (r: Result<
    Vec<TagTree>,
    ConvertError,
>)
    requires
        from <= input@.len(),
        table_wf(table@),
    ensures
        match (r, lower_forest_v(forest_view(input@).skip(from as int), table@)) {
            (Ok(ts), Ok(tv)) => trees_view(ts@) == tv,
            (Err(e), Err(ev)) => e@ == ev,
            _ => false,
        },
    decreases nfsize(forest_view(input@).skip(from as int)), 1int,
{
    let ghost fv = forest_view(input@);
    let ghost g = fv.skip(from as int);
    proof {
        crate::wire::lemma_forest_view(input@);
    }
    if from >= input.len() {
        let out: Vec<TagTree> = Vec::new();
        proof {
            assert(g =~= Seq::<NodeV>::empty());
            assert(trees_view(out@) =~= Seq::<TreeV>::empty());
        }
        return Ok(out);
    }
    proof {
        assert(g.first() == fv[from as int]);
        assert(g.drop_first() =~= fv.skip(from as int + 1));
        lemma_nfsize_first(g);
    }
    let head = match lower_node(&input[from], table) {
        Err(e) => {
            return Err(e);
        },
        Ok(v) => v,
    };
    let rest = match lower_forest(input, from + 1, table) {
        Err(e) => {
            return Err(e);
        },
        Ok(v) => v,
    };
    let ghost hv = head@;
    let ghost rv = rest@;
    let mut out = head;
    let mut rest = rest;
    out.append(&mut rest);
    proof {
        assert(out@ =~= hv + rv);
        lemma_trees_view_concat(hv, rv);
    }
    Ok(out)
}

/// Lowers, prunes, and merges: the canonical annotation forest of the
/// parsed input, ready for line-splitting and emission.
pub fn processed_ir(input: &Vec<Node>, table: &SymbolTable) -> (r: Result<Vec<TagTree>, ConvertError>)
    requires
        table_wf(table@),
    ensures
        match (r, processed_v(forest_view(input@), table@)) {
            (Ok(ir), Ok(iv)) => trees_view(ir@) == iv && emit_ok(trees_view(ir@), false),
            (Err(e), Err(ev)) => e@ == ev,
            _ => false,
        },
    decreases nfsize(forest_view(input@)), 2int,
{
    proof {
        assert(forest_view(input@).skip(0) =~= forest_view(input@));
    }
    let mut ir = match lower_forest(input, 0, table) {
        Err(e) => {
            return Err(e);
        },
        Ok(v) => v,
    };
    trim_empty(&mut ir);
    let ghost trimmed = trees_view(ir@);
    let _has = merge_tooltips(&mut ir, None);
    proof {
        lemma_merge_canonical(trimmed, false, Seq::empty());
    }
    Ok(ir)
}

/// Renders parsed nodes as one detached markup fragment.
pub fn render_to_string(input: &Vec<Node>, table: &SymbolTable) -> (r: Result<String, ConvertError>)
    requires
        table_wf(table@),
    ensures
        match (r, render_str_v(forest_view(input@), table@)) {
            (Ok(s), Ok(t)) => s@ == t,
            (Err(e), Err(ev)) => e@ == ev,
            _ => false,
        },
    decreases nfsize(forest_view(input@)), 3int,
{
    let ir = match processed_ir(input, table) {
        Err(e) => {
            return Err(e);
        },
        Ok(v) => v,
    };
    let mut out = String::new();
    match write_nodes(&mut out, &ir, false, table) {
        Err(RenderError::UnknownSymbol(n)) => Err(ConvertError::UnknownSymbol(n)),
        Ok(()) => Ok(out),
    }
}

// ---------------------------------------------------------------------------
// The whole document: parse, lower, canonicalize, split lines, and emit one
// line container per physical line between a fixed preamble and epilogue.
// ---------------------------------------------------------------------------

/// Splitting lines never breaks emit-readiness: every per-line replica of a
/// node keeps its kind, so a canonical forest yields canonical lines.
pub proof fn lemma_split_tree_ok(t: TreeV, tt: bool)
    requires
        emit_ok(seq![t], tt),
    ensures
        forall|i: int| 0 <= i < split_tree(t).len() ==> emit_ok(seq![#[trigger] split_tree(t)[i]], tt),
    decreases t,
{
    assert(seq![t].first() == t);
    assert(seq![t].drop_first() =~= Seq::<TreeV>::empty());
    assert(emit_ok(Seq::<TreeV>::empty(), tt));
    match t {
        TreeV::Text(_) => {
            assert forall|i: int| 0 <= i < split_tree(t).len() implies emit_ok(
                seq![#[trigger] split_tree(t)[i]],
                tt,
            ) by {
                let u = split_tree(t)[i];
                assert(u is Text);
                assert(seq![u].first() == u);
                assert(seq![u].drop_first() =~= Seq::<TreeV>::empty());
            }
        },
        TreeV::Tag { tag, children } => {
            let inner_tt = match tag {
                TagV::Tooltip(_) => true,
                TagV::SpanClass(_) => tt,
            };
            assert(emit_ok(children, inner_tt));
            lemma_split_forest_ok(children, inner_tt);
            assert forall|i: int| 0 <= i < split_tree(t).len() implies emit_ok(
                seq![#[trigger] split_tree(t)[i]],
                tt,
            ) by {
                let u = split_tree(t)[i];
                assert(u == (TreeV::Tag { tag, children: split_forest(children)[i] }));
                assert(emit_ok(split_forest(children)[i], inner_tt));
                assert(seq![u].first() == u);
                assert(seq![u].drop_first() =~= Seq::<TreeV>::empty());
            }
        },
    }
}

pub proof fn lemma_split_forest_ok(f: Seq<TreeV>, tt: bool)
    requires
        emit_ok(f, tt),
    ensures
        forall|i: int| 0 <= i < split_forest(f).len() ==> emit_ok(#[trigger] split_forest(f)[i], tt),
    decreases f,
{
    if f.len() == 0 {
        assert forall|i: int| 0 <= i < split_forest(f).len() implies emit_ok(
            #[trigger] split_forest(f)[i],
            tt,
        ) by {
            assert(split_forest(f)[i] =~= Seq::<TreeV>::empty());
        }
    } else {
        assert(emit_ok(Seq::<TreeV>::empty(), tt));
        assert(emit_ok(seq![f.first()], tt)) by {
            assert(seq![f.first()].first() == f.first());
            assert(seq![f.first()].drop_first() =~= Seq::<TreeV>::empty());
        }
        lemma_split_tree_ok(f.first(), tt);
        lemma_split_forest_ok(f.drop_first(), tt);
        lemma_split_tree_len(f.first());
        lemma_split_forest_len(f.drop_first());
        let a = split_tree(f.first()).map_values(|t: TreeV| seq![t]);
        let b = split_forest(f.drop_first());
        assert(split_forest(f) == fuse(a, b));
        assert forall|i: int| 0 <= i < split_forest(f).len() implies emit_ok(
            #[trigger] split_forest(f)[i],
            tt,
        ) by {
            let line = split_forest(f)[i];
            if i < a.len() - 1 {
                assert(line == a[i]);
                assert(a[i] == seq![split_tree(f.first())[i]]);
            } else if i == a.len() - 1 {
                assert(line == a.last() + b.first());
                assert(a.last() == seq![split_tree(f.first())[a.len() - 1]]);
                crate::render::lemma_emit_ok_concat(a.last(), b.first(), tt);
                assert(b.first() == b[0]);
            } else {
                assert(line == b.drop_first()[i - a.len()]);
                assert(b.drop_first()[i - a.len()] == b[i - a.len() + 1]);
            }
        }
    }
}

/// The fixed document head: charset, stylesheet, and the open code block.
pub open spec fn preamble_v() -> Seq<char> {
    "<!DOCTYPE html><html><head><meta charset=\"utf-8\"><link rel=\"stylesheet\" type=\"text/css\" href=\"../assets/isabelle.css\"></head><body><pre class=\"isabelle-code\">"@
}

pub open spec fn epilogue_v() -> Seq<char> {
    "</pre></body></html>"@
}

/// Each line renders inside its own inline container.
pub open spec fn render_lines(lines: Seq<Seq<TreeV>>, tbl: Seq<SymV>) -> Result<Seq<char>, Seq<char>>
    decreases lines.len(),
{
    if lines.len() == 0 {
        Ok(Seq::empty())
    } else {
        match render_forest(lines.first(), false, tbl) {
            Err(n) => Err(n),
            Ok(t) => match render_lines(lines.drop_first(), tbl) {
                Err(n) => Err(n),
                Ok(r) => Ok("<code>"@ + t + "</code>"@ + r),
            },
        }
    }
}

/// The whole conversion of one document.
pub open spec fn document_v(input: Seq<char>, tbl: Seq<SymV>) -> Result<Seq<char>, ConvErrV> {
    match crate::wire::spec_parse(input) {
        Err(p) => Err(ConvErrV::Parse(p)),
        Ok(f) => match processed_v(f, tbl) {
            Err(e) => Err(e),
            Ok(canon) => match render_lines(split_forest(canon), tbl) {
                Ok(t) => Ok(preamble_v() + t + epilogue_v()),
                Err(n) => Err(ConvErrV::UnknownSymbol(n)),
            },
        },
    }
}

/// Converts one dump document into a self-contained hypertext document.
pub fn render_document(input: &str, table: &SymbolTable) -> (r: Result<String, ConvertError>)
    requires
        table_wf(table@),
    ensures
        match (r, document_v(input@, table@)) {
            (Ok(s), Ok(t)) => s@ == t,
            (Err(e), Err(ev)) => e@ == ev,
            _ => false,
        },
{
    let nodes = match crate::wire::parse(input) {
        Err(p) => {
            return Err(ConvertError::Parse(p));
        },
        Ok(n) => n,
    };
    let ir = match processed_ir(&nodes, table) {
        Err(e) => {
            return Err(e);
        },
        Ok(v) => v,
    };
    let ghost canon = trees_view(ir@);
    proof {
        lemma_split_forest_ok(canon, false);
    }
    let lines = split_lines(ir);
    let ghost lv = lines_view(lines@);
    let nl = lines.len();
    proof {
        assert(lv.len() == lines@.len());
        assert(lv == split_forest(canon));
    }
    let mut body = String::new();
    let mut i: usize = 0;
    proof {
        assert(lv.skip(0) =~= lv);
    }
    while i < nl
        invariant
            i <= nl,
            nl == lines@.len(),
            nl == lv.len(),
            lv == lines_view(lines@),
            lv == split_forest(canon),
            table_wf(table@),
            forall|k: int| 0 <= k < lv.len() ==> emit_ok(#[trigger] lv[k], false),
            match render_lines(lv.skip(i as int), table@) {
                Ok(t) => render_lines(lv, table@) == Ok::<Seq<char>, Seq<char>>(body@ + t),
                Err(n) => render_lines(lv, table@) == Err::<Seq<char>, Seq<char>>(n),
            },
            match render_lines(lv, table@) {
                Ok(t) => document_v(input@, table@) == Ok::<Seq<char>, ConvErrV>(
                    preamble_v() + t + epilogue_v(),
                ),
                Err(n) => document_v(input@, table@) == Err::<Seq<char>, ConvErrV>(
                    ConvErrV::UnknownSymbol(n),
                ),
            },
        decreases nl - i,
    {
        proof {
            assert(lv.skip(i as int).first() == lv[i as int]);
            assert(lv.skip(i as int).drop_first() =~= lv.skip(i as int + 1));
            assert(lv[i as int] == trees_view(lines@[i as int]@));
        }
        let ghost bodypre = body@;
        body.append("<code>");
        let line = &lines[i];
        match write_nodes(&mut body, line, false, table) {
            Err(RenderError::UnknownSymbol(n)) => {
                return Err(ConvertError::UnknownSymbol(n));
            },
            Ok(()) => {},
        }
        body.append("</code>");
        proof {
            match render_lines(lv.skip(i as int + 1), table@) {
                Ok(t) => {
                    let lt = render_forest(lv[i as int], false, table@)->Ok_0;
                    assert(body@ =~= bodypre + "<code>"@ + lt + "</code>"@);
                    assert(bodypre + ("<code>"@ + lt + "</code>"@ + t) =~= body@ + t);
                },
                Err(_) => {},
            }
        }
        i += 1;
    }
    proof {
        assert(lv.skip(nl as int) =~= Seq::<Seq<TreeV>>::empty());
    }
    let mut out = String::new();
    out.append(
        "<!DOCTYPE html><html><head><meta charset=\"utf-8\"><link rel=\"stylesheet\" type=\"text/css\" href=\"../assets/isabelle.css\"></head><body><pre class=\"isabelle-code\">",
    );
    out.append(body.as_str());
    out.append("</pre></body></html>");
    Ok(out)
}

} // verus!
