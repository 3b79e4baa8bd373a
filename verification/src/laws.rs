//! The library's global laws: canonicalization is idempotent, merging is
//! innermost-wins with independent siblings, and line-splitting loses no
//! text. Each law is stated over the spec functions that the transforms'
//! own contracts use, so it holds of the executable code through them.

use vstd::prelude::*;
use crate::ir::{
    TagV, TreeV, forest_size, tree_size, trim_v, trim_node_v, is_empty_v, m_forest, m_scan,
    spec_merge, lemma_forest_size_first, split_tree, split_forest,
    lemma_split_tree_len, lemma_split_forest_len,
};
use crate::render::{emit_ok, lemma_emit_ok_concat, lemma_merge_canonical, lemma_scan_canonical};
use crate::text::{split_at, join_with, fuse, lemma_join_fuse, lemma_join_split};

verus! {

// ---------------------------------------------------------------------------
// Merging a forest without tooltips changes nothing.
// ---------------------------------------------------------------------------

pub proof fn lemma_merge_tooltip_free(f: Seq<TreeV>, has_acc: bool, acc: Seq<char>)
    requires
        emit_ok(f, true),
    ensures
        m_forest(f, has_acc, acc) == (f, acc, false),
    decreases forest_size(f), 1int,
{
    if has_acc && f.len() == 1 {
        lemma_forest_size_first(f);
        assert(f.drop_first() =~= Seq::<TreeV>::empty());
        assert(emit_ok(Seq::<TreeV>::empty(), true));
        match f.first() {
            TreeV::Text(_) => {},
            TreeV::Tag { tag, children } => match tag {
                TagV::SpanClass(_) => {
                    assert(emit_ok(children, true));
                    lemma_merge_tooltip_free(children, true, acc);
                    assert(seq![TreeV::Tag { tag, children }] =~= f);
                },
                TagV::Tooltip(_) => {
                    assert(false);
                },
            },
        }
    } else {
        lemma_scan_tooltip_free(f);
    }
}

pub proof fn lemma_scan_tooltip_free(f: Seq<TreeV>)
    requires
        emit_ok(f, true),
    ensures
        m_scan(f) == (f, false),
    decreases forest_size(f), 0int,
{
    if f.len() == 0 {
        assert(m_scan(f).0 =~= f);
    } else {
        lemma_forest_size_first(f);
        assert(emit_ok(f.drop_first(), true));
        lemma_scan_tooltip_free(f.drop_first());
        match f.first() {
            TreeV::Text(_) => {
                assert(seq![f.first()] + f.drop_first() =~= f);
            },
            TreeV::Tag { tag, children } => match tag {
                TagV::SpanClass(_) => {
                    assert(tree_size(f.first()) == 1 + forest_size(children));
                    assert(emit_ok(children, true));
                    lemma_merge_tooltip_free(children, false, Seq::empty());
                    assert(seq![TreeV::Tag { tag, children }] + f.drop_first() =~= f);
                },
                TagV::Tooltip(_) => {
                    assert(false);
                },
            },
        }
    }
}

// ---------------------------------------------------------------------------
// Merging an already-canonicalized forest is a no-op, so merging twice is
// merging once.
// ---------------------------------------------------------------------------

pub proof fn lemma_scan_canonical_noop(g: Seq<TreeV>)
    requires
        emit_ok(g, false),
    ensures
        m_scan(g) == (g, !emit_ok(g, true)),
    decreases forest_size(g),
{
    if g.len() == 0 {
        assert(m_scan(g).0 =~= g);
        assert(emit_ok(g, true));
    } else {
        lemma_forest_size_first(g);
        assert(emit_ok(g.drop_first(), false));
        lemma_scan_canonical_noop(g.drop_first());
        match g.first() {
            TreeV::Text(_) => {
                assert(seq![g.first()] + g.drop_first() =~= g);
            },
            TreeV::Tag { tag, children } => {
                assert(tree_size(g.first()) == 1 + forest_size(children));
                match tag {
                    TagV::SpanClass(_) => {
                        assert(emit_ok(children, false));
                        lemma_scan_canonical_noop(children);
                        assert(m_forest(children, false, Seq::empty()) == (
                            children,
                            Seq::<char>::empty(),
                            !emit_ok(children, true),
                        ));
                        assert(seq![TreeV::Tag { tag, children }] + g.drop_first() =~= g);
                    },
                    TagV::Tooltip(s) => {
                        assert(emit_ok(children, true));
                        lemma_merge_tooltip_free(children, true, s);
                        assert(seq![TreeV::Tag { tag, children }] + g.drop_first() =~= g);
                        assert(!emit_ok(g, true));
                    },
                }
            },
        }
    }
}

/// Merging an already-canonicalized forest is a no-op.
pub proof fn lemma_merge_idempotent(f: Seq<TreeV>)
    ensures
        spec_merge(spec_merge(f).0) == spec_merge(f),
{
    let g = spec_merge(f).0;
    lemma_merge_canonical(f, false, Seq::empty());
    lemma_scan_canonical_noop(g);
}

// ---------------------------------------------------------------------------
// Pruning an already-pruned forest is a no-op.
// ---------------------------------------------------------------------------

pub proof fn lemma_trim_node_idempotent(t: TreeV)
    ensures
        trim_node_v(trim_node_v(t)) == trim_node_v(t),
        is_empty_v(trim_node_v(trim_node_v(t))) == is_empty_v(trim_node_v(t)),
    decreases t,
{
    match t {
        TreeV::Text(_) => {},
        TreeV::Tag { tag, children } => {
            lemma_trim_idempotent(children);
        },
    }
}

/// Pruning twice removes exactly what pruning once removes.
pub proof fn lemma_trim_idempotent(f: Seq<TreeV>)
    ensures
        trim_v(trim_v(f)) == trim_v(f),
    decreases f,
{
    if f.len() == 0 {
        assert(trim_v(trim_v(f)) =~= trim_v(f));
    } else {
        let h = trim_node_v(f.first());
        let rest = trim_v(f.drop_first());
        lemma_trim_node_idempotent(f.first());
        lemma_trim_idempotent(f.drop_first());
        if is_empty_v(h) {
            assert(trim_v(f) == rest);
        } else {
            assert(trim_v(f) == seq![h] + rest);
            assert((seq![h] + rest).first() == h);
            assert((seq![h] + rest).drop_first() =~= rest);
            assert(trim_v(seq![h] + rest) == seq![trim_node_v(h)] + trim_v(rest));
            assert(trim_v(trim_v(f)) =~= trim_v(f));
        }
    }
}

// ---------------------------------------------------------------------------
// Innermost-wins along a single-child chain, and sibling independence at a
// branch.
// ---------------------------------------------------------------------------

/// A tooltip directly over another tooltip merges into one whose caption
/// joins both, newline-separated, over the inner children — provided those
/// children hold no further tooltip to fold or win.
pub proof fn lemma_innermost_wins(a: Seq<char>, b: Seq<char>, ch: Seq<TreeV>)
    requires
        emit_ok(ch, true),
    ensures
        spec_merge(
            seq![
                TreeV::Tag {
                    tag: TagV::Tooltip(a),
                    children: seq![TreeV::Tag { tag: TagV::Tooltip(b), children: ch }],
                },
            ],
        ).0 == seq![TreeV::Tag { tag: TagV::Tooltip(a.push('\n') + b), children: ch }],
{
    let inner = TreeV::Tag { tag: TagV::Tooltip(b), children: ch };
    let outer = TreeV::Tag { tag: TagV::Tooltip(a), children: seq![inner] };
    let f = seq![outer];
    assert(f.first() == outer);
    assert(f.drop_first() =~= Seq::<TreeV>::empty());
    assert(seq![inner].first() == inner);
    assert(seq![inner].drop_first() =~= Seq::<TreeV>::empty());
    lemma_merge_tooltip_free(ch, true, a.push('\n') + b);
    assert(m_forest(seq![inner], true, a) == (ch, a.push('\n') + b, false));
    assert(m_scan(Seq::<TreeV>::empty()) == (Seq::<TreeV>::empty(), false));
    assert(m_scan(f.drop_first()) == (Seq::<TreeV>::empty(), false));
    let w = TreeV::Tag { tag: TagV::Tooltip(a.push('\n') + b), children: ch };
    assert(m_scan(f) == (seq![w] + Seq::<TreeV>::empty(), true));
    assert(spec_merge(f).0 == m_scan(f).0);
    assert(spec_merge(f).0 =~= seq![w]);
}

/// A branch below a tooltip breaks the chain: a tooltip retained anywhere in
/// the branched subtree deletes the outer tooltip, and the siblings keep
/// their own captions untouched.
pub proof fn lemma_sibling_independence(
    a: Seq<char>,
    cls: Seq<char>,
    b: Seq<char>,
    inner: Seq<TreeV>,
    t: Seq<char>,
)
    requires
        emit_ok(inner, true),
    ensures
        ({
            let branch = TreeV::Tag {
                tag: TagV::SpanClass(cls),
                children: seq![
                    TreeV::Tag { tag: TagV::Tooltip(b), children: inner },
                    TreeV::Text(t),
                ],
            };
            spec_merge(seq![TreeV::Tag { tag: TagV::Tooltip(a), children: seq![branch] }]).0
                == seq![branch]
        }),
{
    let tt = TreeV::Tag { tag: TagV::Tooltip(b), children: inner };
    let g = seq![tt, TreeV::Text(t)];
    let branch = TreeV::Tag { tag: TagV::SpanClass(cls), children: g };
    let outer = TreeV::Tag { tag: TagV::Tooltip(a), children: seq![branch] };
    let f = seq![outer];
    assert(f.first() == outer);
    assert(f.drop_first() =~= Seq::<TreeV>::empty());
    assert(seq![branch].first() == branch);
    assert(seq![branch].drop_first() =~= Seq::<TreeV>::empty());
    // inside the branch: two siblings, scanned independently
    assert(g.first() == tt);
    assert(g.drop_first() =~= seq![TreeV::Text(t)]);
    assert(seq![TreeV::Text(t)].first() == TreeV::Text(t));
    assert(seq![TreeV::Text(t)].drop_first() =~= Seq::<TreeV>::empty());
    lemma_merge_tooltip_free(inner, true, b);
    assert(m_forest(inner, true, b) == (inner, b, false));
    assert(m_scan(g) == (g, true)) by {
        assert(m_scan(seq![TreeV::Text(t)]) == (seq![TreeV::Text(t)], false)) by {
            assert(m_scan(Seq::<TreeV>::empty()) == (Seq::<TreeV>::empty(), false));
            assert(seq![TreeV::Text(t)] + Seq::<TreeV>::empty() =~= seq![TreeV::Text(t)]);
        }
        assert(seq![tt] + seq![TreeV::Text(t)] =~= g);
    }
    // the accumulator walk enters the lone styled child, whose scan retains
    // a tooltip, so the outer tooltip is deleted in favour of its children
    assert(m_forest(g, true, a) == (g, a, true));
    assert(m_forest(seq![branch], true, a) == (seq![TreeV::Tag { tag: TagV::SpanClass(cls), children: g }], a, true));
    assert(m_scan(Seq::<TreeV>::empty()) == (Seq::<TreeV>::empty(), false));
    assert(m_scan(f.drop_first()) == (Seq::<TreeV>::empty(), false));
    assert(m_scan(f) == (seq![branch] + Seq::<TreeV>::empty(), true));
    assert(spec_merge(f).0 == m_scan(f).0);
    assert(spec_merge(f).0 =~= seq![branch]);
}

// ---------------------------------------------------------------------------
// Line-splitting loses no text: the flattened texts of the produced lines,
// joined back with newlines, equal the flattened text of the input.
// ---------------------------------------------------------------------------

/// The text of a forest, markup stripped.
pub open spec fn flat_tree(t: TreeV) -> Seq<char>
    decreases t,
{
    match t {
        TreeV::Text(s) => s,
        TreeV::Tag { children, .. } => flat_forest(children),
    }
}

pub open spec fn flat_forest(f: Seq<TreeV>) -> Seq<char>
    decreases f,
{
    if f.len() == 0 {
        Seq::empty()
    } else {
        flat_tree(f.first()) + flat_forest(f.drop_first())
    }
}

pub proof fn lemma_flat_concat(a: Seq<TreeV>, b: Seq<TreeV>)
    ensures
        flat_forest(a + b) == flat_forest(a) + flat_forest(b),
    decreases a,
{
    if a.len() == 0 {
        assert(a + b =~= b);
        assert(flat_forest(a + b) =~= flat_forest(a) + flat_forest(b));
    } else {
        lemma_flat_concat(a.drop_first(), b);
        assert((a + b).first() == a.first());
        assert((a + b).drop_first() =~= a.drop_first() + b);
        assert(flat_forest(a + b) =~= flat_forest(a) + flat_forest(b));
    }
}

pub open spec fn flats(lines: Seq<Seq<TreeV>>) -> Seq<Seq<char>> {
    lines.map_values(|l: Seq<TreeV>| flat_forest(l))
}

pub proof fn lemma_split_fidelity_tree(t: TreeV)
    ensures
        join_with(split_tree(t).map_values(|u: TreeV| flat_tree(u)), '\n') == flat_tree(t),
    decreases t,
{
    let fa = split_tree(t).map_values(|u: TreeV| flat_tree(u));
    match t {
        TreeV::Text(s) => {
            assert(fa =~= split_at(s, '\n')) by {
                assert forall|i: int| 0 <= i < fa.len() implies fa[i] == split_at(s, '\n')[i] by {
                    assert(split_tree(t)[i] == TreeV::Text(split_at(s, '\n')[i]));
                }
            }
            lemma_join_split(s, '\n');
        },
        TreeV::Tag { tag, children } => {
            lemma_split_fidelity_forest(children);
            assert(fa =~= flats(split_forest(children))) by {
                assert forall|i: int| 0 <= i < fa.len() implies fa[i] == flats(
                    split_forest(children),
                )[i] by {
                    assert(split_tree(t)[i] == (TreeV::Tag {
                        tag,
                        children: split_forest(children)[i],
                    }));
                }
            }
        },
    }
}

/// The concatenated text of all produced lines, newlines restored at the
/// joints, equals the original flattened text.
pub proof fn lemma_split_fidelity_forest(f: Seq<TreeV>)
    ensures
        join_with(flats(split_forest(f)), '\n') == flat_forest(f),
    decreases f,
{
    if f.len() == 0 {
        assert(flats(split_forest(f)) =~= seq![Seq::<char>::empty()]) by {
            assert(flat_forest(split_forest(f)[0]) =~= Seq::<char>::empty());
        }
        assert(join_with(seq![Seq::<char>::empty()], '\n') == Seq::<char>::empty());
        assert(flat_forest(f) =~= Seq::<char>::empty());
    } else {
        lemma_split_fidelity_tree(f.first());
        lemma_split_fidelity_forest(f.drop_first());
        lemma_split_tree_len(f.first());
        lemma_split_forest_len(f.drop_first());
        let a = split_tree(f.first()).map_values(|u: TreeV| seq![u]);
        let b = split_forest(f.drop_first());
        let fa = split_tree(f.first()).map_values(|u: TreeV| flat_tree(u));
        let fb = flats(b);
        assert(flats(fuse(a, b)) =~~= fuse(fa, fb)) by {
            assert forall|i: int| 0 <= i < fuse(a, b).len() implies flats(fuse(a, b))[i] =~= fuse(
                fa,
                fb,
            )[i] by {
                if i < a.len() - 1 {
                    assert(fuse(a, b)[i] == a[i]);
                    assert(a[i] == seq![split_tree(f.first())[i]]);
                    assert(flat_forest(seq![split_tree(f.first())[i]]) =~= flat_tree(
                        split_tree(f.first())[i],
                    )) by {
                        lemma_flat_single(split_tree(f.first())[i]);
                    }
                    assert(fuse(fa, fb)[i] == fa[i]);
                } else if i == a.len() - 1 {
                    assert(fuse(a, b)[i] == a.last() + b.first());
                    assert(a.last() == seq![split_tree(f.first()).last()]);
                    lemma_flat_concat(a.last(), b.first());
                    lemma_flat_single(split_tree(f.first()).last());
                    assert(fuse(fa, fb)[i] == fa.last() + fb.first());
                    assert(fb.first() == flat_forest(b.first()));
                } else {
                    assert(fuse(a, b)[i] == b.drop_first()[i - a.len()]);
                    assert(b.drop_first()[i - a.len()] == b[i - a.len() + 1]);
                    assert(fuse(fa, fb)[i] == fb.drop_first()[i - fa.len()]);
                    assert(fb.drop_first()[i - fa.len()] == fb[i - fa.len() + 1]);
                }
            }
        }
        lemma_join_fuse(fa, fb, '\n');
        assert(split_forest(f) == fuse(a, b));
        assert(join_with(flats(split_forest(f)), '\n') == join_with(fa, '\n') + join_with(fb, '\n'));
        assert(flat_forest(f) =~= flat_tree(f.first()) + flat_forest(f.drop_first()));
    }
}

proof fn lemma_flat_single(t: TreeV)
    ensures
        flat_forest(seq![t]) == flat_tree(t),
{
    assert(seq![t].first() == t);
    assert(seq![t].drop_first() =~= Seq::<TreeV>::empty());
    assert(flat_forest(Seq::<TreeV>::empty()) =~= Seq::<char>::empty());
    assert(flat_forest(seq![t]) =~= flat_tree(t));
}

} // verus!
