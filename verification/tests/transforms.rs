use isahtml::ir::{merge_tooltips, trim_empty, Tag, TagTree};

fn styled(class: &str, children: Vec<TagTree>) -> TagTree {
    TagTree::Tag {
        tag: Tag::SpanClass(class.to_owned()),
        children,
    }
}

fn tooltip(caption: &str, children: Vec<TagTree>) -> TagTree {
    TagTree::Tag {
        tag: Tag::Tooltip(caption.to_owned()),
        children,
    }
}

fn text(s: &str) -> TagTree {
    TagTree::Text(s.to_owned())
}

#[test]
fn split_lines() {
    let input = styled(
        "outer",
        vec![
            text("hi!"),
            text("one\ntwo"),
            styled("inner", vec![text("and a half\nthree")]),
        ],
    );

    let output = vec![
        styled("outer", vec![text("hi!"), text("one")]),
        styled(
            "outer",
            vec![text("two"), styled("inner", vec![text("and a half")])],
        ),
        styled("outer", vec![styled("inner", vec![text("three")])]),
    ];

    assert_eq!(input.split_lines(), output);
}

#[test]
fn merge_tooltips_merges() {
    let mut input = vec![tooltip(
        "outer tooltip",
        vec![tooltip("inner tooltip", vec![text("hi")])],
    )];

    assert_eq!(merge_tooltips(&mut input, None), true);
    assert_eq!(
        input,
        [tooltip("outer tooltip\ninner tooltip", vec![text("hi")])]
    );
}

#[test]
fn merge_tooltips_trims() {
    let mut input = vec![tooltip(
        "outer tooltip",
        vec![
            tooltip("inner tooltip", vec![text("hi")]),
            text("some more text"),
        ],
    )];

    assert_eq!(merge_tooltips(&mut input, None), true);
    assert_eq!(
        input,
        [
            tooltip("inner tooltip", vec![text("hi")]),
            text("some more text")
        ],
    );
}

#[test]
fn merge_tooltips_merges_across_layers() {
    let mut input = vec![tooltip(
        "outer tooltip",
        vec![styled(
            "cls",
            vec![tooltip("inner tooltip", vec![text("hi")])],
        )],
    )];

    assert_eq!(merge_tooltips(&mut input, None), true);
    assert_eq!(
        input,
        [tooltip(
            "outer tooltip\ninner tooltip",
            vec![styled("cls", vec![text("hi")])]
        )]
    );
}

#[test]
fn sibling_independence_keeps_inner_drops_outer() {
    // A branch below the outer tooltip breaks the single-child chain: the
    // inner tooltip survives with its own caption, the outer one is deleted.
    let mut input = vec![tooltip(
        "A",
        vec![styled(
            "cls",
            vec![tooltip("B", vec![text("x")]), text("y")],
        )],
    )];

    assert_eq!(merge_tooltips(&mut input, None), true);
    assert_eq!(
        input,
        [styled(
            "cls",
            vec![tooltip("B", vec![text("x")]), text("y")]
        )]
    );
}

#[test]
fn trim_removes_empty_regions() {
    let mut input = vec![
        styled("a", vec![text(""), styled("b", vec![])]),
        text("keep"),
    ];
    trim_empty(&mut input);
    assert_eq!(input, [text("keep")]);
}

#[test]
fn trim_is_idempotent_on_sample() {
    let mut once = vec![
        styled("a", vec![text(""), text("x"), styled("b", vec![])]),
        text(""),
    ];
    trim_empty(&mut once);
    let mut twice = clone_forest(&once);
    trim_empty(&mut twice);
    assert_eq!(once, twice);
}

fn clone_forest(f: &[TagTree]) -> Vec<TagTree> {
    f.iter().map(clone_tree).collect()
}

fn clone_tree(t: &TagTree) -> TagTree {
    match t {
        TagTree::Text(s) => TagTree::Text(s.clone()),
        TagTree::Tag { tag, children } => TagTree::Tag {
            tag: tag.clone(),
            children: children.iter().map(clone_tree).collect(),
        },
    }
}

#[test]
fn merge_is_idempotent_on_sample() {
    let mut once = vec![
        tooltip("A", vec![tooltip("B", vec![text("hi")])]),
        styled("c", vec![tooltip("D", vec![text("t")]), text("u")]),
    ];
    merge_tooltips(&mut once, None);
    let mut twice = clone_forest(&once);
    merge_tooltips(&mut twice, None);
    assert_eq!(once, twice);
}

#[test]
fn split_lines_fidelity() {
    // The concatenated text of all produced lines equals the original
    // flattened text, with the newlines restored at the line joints.
    let input = vec![
        styled("o", vec![text("ab\ncd"), text("ef")]),
        text("\ngh"),
    ];
    let flat_before = flatten(&input);
    let lines = isahtml::ir::split_lines(input);
    assert_eq!(lines.len(), 3);
    let joined = lines
        .iter()
        .map(|l| flatten(l))
        .collect::<Vec<_>>()
        .join("\n");
    assert_eq!(joined, flat_before);
}

fn flatten(f: &[TagTree]) -> String {
    let mut out = String::new();
    for t in f {
        match t {
            TagTree::Text(s) => out.push_str(s),
            TagTree::Tag { children, .. } => out.push_str(&flatten(children)),
        }
    }
    out
}
