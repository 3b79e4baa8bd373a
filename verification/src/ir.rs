//! The tree-based intermediate representation of annotated text, and the
//! canonicalizing transforms over it.
//!
//! Markup may attach several hover captions to nested character ranges.
//! There is no good way to display them all, so only the innermost tooltip
//! of a range survives; an ancestor's caption folds into the innermost one
//! only along an unbroken single-child chain. Before emission, empty
//! regions are pruned and every text leaf is split so that no leaf spans a
//! newline.

use vstd::prelude::*;
use crate::text::{split_at, split_str, fuse, push_char};

verus! {

/// An annotation over a range of text.
#[derive(Debug, Clone, PartialEq, Eq)]
pub enum Tag {
    /// An additive visual wrapper, named by its style class.
    SpanClass(String),
    /// A hover caption; the payload is already-rendered markup.
    Tooltip(String),
}

/// A forest node: an annotated region or a text leaf.
#[derive(Debug, PartialEq, Eq)]
pub enum TagTree {
    Tag { tag: Tag, children: Vec<TagTree> },
    Text(String),
}

/// The mathematical model of an annotation.
#[verifier::ext_equal]
pub enum TagV {
    SpanClass(Seq<char>),
    Tooltip(Seq<char>),
}

/// The mathematical model of a forest node.
#[verifier::ext_equal]
pub enum TreeV {
    Tag { tag: TagV, children: Seq<TreeV> },
    Text(Seq<char>),
}

impl Tag {
    pub open spec fn deep(self) -> TagV {
        match self {
            Tag::SpanClass(s) => TagV::SpanClass(s@),
            Tag::Tooltip(s) => TagV::Tooltip(s@),
        }
    }

    /// A structural copy, with its view pinned down.
    pub fn duplicate(&self) -> (r: Tag)
        ensures
            r@ == self@,
    {
        match self {
            Tag::SpanClass(s) => Tag::SpanClass(s.clone()),
            Tag::Tooltip(s) => Tag::Tooltip(s.clone()),
        }
    }
}

impl View for Tag {
    type V = TagV;

    open spec fn view(&self) -> TagV {
        (*self).deep()
    }
}

impl TagTree {
    /// The mathematical value of this node.
    pub open spec fn deep(self) -> TreeV
        decreases self,
    {
        match self {
            TagTree::Tag { tag, children } => TreeV::Tag { tag: tag.deep(), children: trees_view(children@) },
            TagTree::Text(s) => TreeV::Text(s@),
        }
    }
}

impl View for TagTree {
    type V = TreeV;

    open spec fn view(&self) -> TreeV {
        (*self).deep()
    }
}

/// The mathematical value of a forest.
pub open spec fn trees_view(s: Seq<TagTree>) -> Seq<TreeV>
    decreases s,
{
    if s.len() == 0 {
        Seq::empty()
    } else {
        seq![s.first().deep()] + trees_view(s.drop_first())
    }
}

pub proof fn lemma_trees_view(s: Seq<TagTree>)
    ensures
        trees_view(s).len() == s.len(),
        forall|i: int| 0 <= i < s.len() ==> trees_view(s)[i] == s[i]@,
    decreases s,
{
    if s.len() == 0 {
    } else {
        lemma_trees_view(s.drop_first());
        assert forall|i: int| 0 <= i < s.len() implies trees_view(s)[i] == s[i]@ by {
            if i > 0 {
                assert(s.drop_first()[i - 1] == s[i]);
                assert(trees_view(s)[i] == trees_view(s.drop_first())[i - 1]);
            }
        }
    }
}

pub proof fn lemma_trees_view_push(s: Seq<TagTree>, n: TagTree)
    ensures
        trees_view(s.push(n)) == trees_view(s).push(n@),
    decreases s,
{
    if s.len() == 0 {
        assert(s.push(n).drop_first() =~= Seq::<TagTree>::empty());
        assert(s.push(n).first() == n);
        assert(trees_view(Seq::<TagTree>::empty()) =~= Seq::<TreeV>::empty());
        assert(trees_view(s.push(n)) == seq![n.deep()] + trees_view(Seq::<TagTree>::empty()));
        assert(trees_view(s.push(n)) =~= trees_view(s).push(n@));
    } else {
        lemma_trees_view_push(s.drop_first(), n);
        assert(s.push(n).drop_first() =~= s.drop_first().push(n));
        assert(s.push(n).first() == s.first());
        assert(trees_view(s.push(n)) =~= trees_view(s).push(n@));
    }
}

pub proof fn lemma_trees_view_concat(a: Seq<TagTree>, b: Seq<TagTree>)
    ensures
        trees_view(a + b) == trees_view(a) + trees_view(b),
    decreases a,
{
    if a.len() == 0 {
        assert(a + b =~= b);
        assert(trees_view(a) =~= Seq::<TreeV>::empty());
        assert(trees_view(a + b) =~= trees_view(a) + trees_view(b));
    } else {
        lemma_trees_view_concat(a.drop_first(), b);
        assert((a + b).first() == a.first());
        assert((a + b).drop_first() =~= a.drop_first() + b);
        assert((a + b).len() > 0);
        assert(trees_view(a + b) =~= trees_view(a) + trees_view(b));
    }
}

/// The number of nodes of a tree, counting every node once.
pub open spec fn tree_size(t: TreeV) -> nat
    decreases t,
{
    match t {
        TreeV::Tag { children, .. } => 1 + forest_size(children),
        TreeV::Text(_) => 1,
    }
}

pub open spec fn forest_size(f: Seq<TreeV>) -> nat
    decreases f,
{
    if f.len() == 0 {
        0
    } else {
        tree_size(f.first()) + forest_size(f.drop_first())
    }
}

// ---------------------------------------------------------------------------
// Prune: remove regions whose children are empty after recursing; a text
// leaf is empty exactly when it has zero length.
// ---------------------------------------------------------------------------

pub open spec fn is_empty_v(t: TreeV) -> bool {
    match t {
        TreeV::Tag { children, .. } => children.len() == 0,
        TreeV::Text(s) => s.len() == 0,
    }
}

pub open spec fn trim_node_v(t: TreeV) -> TreeV
    decreases t,
{
    match t {
        TreeV::Tag { tag, children } => TreeV::Tag { tag, children: trim_v(children) },
        TreeV::Text(_) => t,
    }
}

/// What `trim_empty` leaves of a forest.
pub open spec fn trim_v(f: Seq<TreeV>) -> Seq<TreeV>
    decreases f,
{
    if f.len() == 0 {
        Seq::empty()
    } else {
        let h = trim_node_v(f.first());
        let rest = trim_v(f.drop_first());
        if is_empty_v(h) {
            rest
        } else {
            seq![h] + rest
        }
    }
}

impl TagTree {
    /// Whether this node is empty: a region with no children, or a
    /// zero-length text leaf.
    pub fn is_empty(&self) -> (r: bool)
        ensures
            r == is_empty_v(self@),
    {
        match self {
            TagTree::Tag { children, .. } => children.len() == 0,
            TagTree::Text(s) => s.as_str().is_empty(),
        }
    }
}

pub proof fn lemma_tree_size_pos(t: TreeV)
    ensures
        tree_size(t) >= 1,
{
    match t {
        TreeV::Tag { .. } => {},
        TreeV::Text(_) => {},
    }
}

fn trim_forest(f: Vec<TagTree>) -> (r: Vec<TagTree>)
    ensures
        trees_view(r@) == trim_v(trees_view(f@)),
    decreases forest_size(trees_view(f@)),
{
    let ghost forig = trees_view(f@);
    let mut f = f;
    if f.len() == 0 {
        let r: Vec<TagTree> = Vec::new();
        proof {
            assert(forig =~= Seq::<TreeV>::empty());
            assert(trees_view(r@) =~= Seq::<TreeV>::empty());
        }
        return r;
    }
    let ghost fpre = f@;
    let node = f.remove(0);
    proof {
        assert(f@ =~= fpre.drop_first());
        assert(node == fpre.first());
        assert(forig.drop_first() =~= trees_view(f@));
        assert(forig.first() == node@);
        lemma_tree_size_pos(forig.first());
        assert(forest_size(forig) == tree_size(forig.first()) + forest_size(forig.drop_first()));
    }
    let rest = trim_forest(f);
    proof {
        assert(trees_view(rest@) == trim_v(forig.drop_first()));
    }
    match node {
        TagTree::Text(s) => {
            proof {
                assert(forig.first() == TreeV::Text(s@));
                assert(trim_node_v(forig.first()) == TreeV::Text(s@));
            }
            if s.as_str().is_empty() {
                rest
            } else {
                prepend(TagTree::Text(s), rest)
            }
        },
        TagTree::Tag { tag, children } => {
            proof {
                assert(forig.first() == TreeV::Tag { tag: tag@, children: trees_view(children@) });
                assert(tree_size(forig.first()) == 1 + forest_size(trees_view(children@)));
                assert(trim_node_v(forig.first()) == TreeV::Tag {
                    tag: tag@,
                    children: trim_v(trees_view(children@)),
                });
            }
            let c2 = trim_forest(children);
            proof {
                lemma_trees_view(c2@);
            }
            if c2.len() == 0 {
                rest
            } else {
                prepend(TagTree::Tag { tag, children: c2 }, rest)
            }
        },
    }
}

/// Puts one node in front of a forest.
fn prepend(t: TagTree, rest: Vec<TagTree>) -> (r: Vec<TagTree>)
    ensures
        trees_view(r@) == seq![t@] + trees_view(rest@),
{
    let ghost tv = t@;
    let ghost rv = rest@;
    let mut out: Vec<TagTree> = Vec::new();
    out.push(t);
    let ghost op = out@;
    let mut rest = rest;
    out.append(&mut rest);
    proof {
        assert(out@ =~= op + rv);
        lemma_trees_view_concat(op, rv);
        assert(op.len() == 1);
        assert(op[0]@ == tv);
        assert(op.drop_first() =~= Seq::<TagTree>::empty());
        assert(trees_view(Seq::<TagTree>::empty()) =~= Seq::<TreeV>::empty());
        assert(trees_view(op) == seq![op.first().deep()] + trees_view(op.drop_first()));
        assert(trees_view(op) =~= seq![tv]);
    }
    out
}

/// Removes every node that is empty after its own children were pruned.
pub fn trim_empty(tree: &mut Vec<TagTree>)
    ensures
        trees_view(final(tree)@) == trim_v(trees_view(old(tree)@)),
{
    let mut tmp: Vec<TagTree> = Vec::new();
    core::mem::swap(tree, &mut tmp);
    let r = trim_forest(tmp);
    *tree = r;
}

// ---------------------------------------------------------------------------
// Merge tooltips, innermost-wins. Entering a tooltip with exactly one child:
// a lone style wrapper is walked through; a lone tooltip folds its caption
// (newline-separated) into the accumulator and is spliced out; anything else
// ends the chain. A subtree that retains a tooltip deletes every tooltip
// strictly above it on that path; branching children are independent.
// ---------------------------------------------------------------------------

pub proof fn lemma_forest_size_first(f: Seq<TreeV>)
    requires
        f.len() > 0,
    ensures
        forest_size(f) == tree_size(f.first()) + forest_size(f.drop_first()),
        forest_size(f) >= 1 + forest_size(f.drop_first()),
{
    lemma_tree_size_pos(f.first());
}

/// The accumulator walk: relevant only while the forest is a single node.
pub open spec fn m_forest(f: Seq<TreeV>, has_acc: bool, acc: Seq<char>) -> (Seq<TreeV>, Seq<char>, bool)
    decreases forest_size(f), 1int,
    via m_forest_dec
{
    if has_acc && f.len() == 1 {
        match f.first() {
            TreeV::Tag { tag, children } => match tag {
                TagV::SpanClass(_) => {
                    let r = m_forest(children, true, acc);
                    (seq![TreeV::Tag { tag, children: r.0 }], r.1, r.2)
                },
                TagV::Tooltip(s) => m_forest(children, true, acc.push('\n') + s),
            },
            TreeV::Text(_) => (f, acc, false),
        }
    } else {
        let r = m_scan(f);
        (r.0, acc, r.1)
    }
}

#[via_fn]
proof fn m_forest_dec(f: Seq<TreeV>, has_acc: bool, acc: Seq<char>) {
    if has_acc && f.len() == 1 {
        lemma_forest_size_first(f);
        assert(f.drop_first() =~= Seq::<TreeV>::empty());
        assert(forest_size(Seq::<TreeV>::empty()) == 0);
    }
}

/// The independent scan of siblings: a tooltip whose merged subtree still
/// retains a tooltip is deleted and replaced by its children.
pub open spec fn m_scan(f: Seq<TreeV>) -> (Seq<TreeV>, bool)
    decreases forest_size(f), 0int,
    via m_scan_dec
{
    if f.len() == 0 {
        (Seq::empty(), false)
    } else {
        let rest = m_scan(f.drop_first());
        match f.first() {
            TreeV::Text(_) => (seq![f.first()] + rest.0, rest.1),
            TreeV::Tag { tag, children } => match tag {
                TagV::SpanClass(_) => {
                    let rc = m_forest(children, false, Seq::empty());
                    (seq![TreeV::Tag { tag, children: rc.0 }] + rest.0, rc.2 || rest.1)
                },
                TagV::Tooltip(s) => {
                    let rc = m_forest(children, true, s);
                    if rc.2 {
                        (rc.0 + rest.0, true)
                    } else {
                        (seq![TreeV::Tag { tag: TagV::Tooltip(rc.1), children: rc.0 }] + rest.0, true)
                    }
                },
            },
        }
    }
}

#[via_fn]
proof fn m_scan_dec(f: Seq<TreeV>) {
    if f.len() > 0 {
        lemma_forest_size_first(f);
        match f.first() {
            TreeV::Tag { tag, children } => {
                assert(tree_size(f.first()) == 1 + forest_size(children));
            },
            TreeV::Text(_) => {},
        }
    }
}

/// What `merge_tooltips` does to a forest, and whether tooltips remain.
pub open spec fn spec_merge(f: Seq<TreeV>) -> (Seq<TreeV>, bool) {
    let r = m_forest(f, false, Seq::empty());
    (r.0, r.2)
}

/// Puts one node into a fresh forest.
fn singleton(t: TagTree) -> (r: Vec<TagTree>)
    ensures
        trees_view(r@) == seq![t@],
{
    let ghost tv = t@;
    let mut out: Vec<TagTree> = Vec::new();
    out.push(t);
    proof {
        assert(out@.len() == 1);
        assert(out@[0]@ == tv);
        assert(out@.drop_first() =~= Seq::<TagTree>::empty());
        assert(trees_view(Seq::<TagTree>::empty()) =~= Seq::<TreeV>::empty());
        assert(trees_view(out@) == seq![out@.first().deep()] + trees_view(out@.drop_first()));
        assert(trees_view(out@) =~= seq![tv]);
    }
    out
}

fn merge_forest(f: Vec<TagTree>, has_acc: bool, acc: String) -> (r: (Vec<TagTree>, String, bool))
    ensures
        (trees_view(r.0@), r.1@, r.2) == m_forest(trees_view(f@), has_acc, acc@),
    decreases forest_size(trees_view(f@)), 1int,
{
    let ghost fv = trees_view(f@);
    proof {
        lemma_trees_view(f@);
    }
    if has_acc && f.len() == 1 {
        let mut f = f;
        let node = f.pop().unwrap();
        proof {
            assert(node@ == fv.first());
            lemma_forest_size_first(fv);
            assert(fv.drop_first() =~= Seq::<TreeV>::empty());
            assert(forest_size(Seq::<TreeV>::empty()) == 0);
        }
        match node {
            TagTree::Text(s) => {
                proof {
                    assert(fv.first() == TreeV::Text(s@));
                }
                let out = singleton(TagTree::Text(s));
                proof {
                    assert(trees_view(out@) =~= fv);
                }
                (out, acc, false)
            },
            TagTree::Tag { tag, children } => {
                proof {
                    assert(fv.first() == TreeV::Tag { tag: tag@, children: trees_view(children@) });
                    assert(tree_size(fv.first()) == 1 + forest_size(trees_view(children@)));
                }
                match tag {
                    Tag::SpanClass(c) => {
                        let ghost cv = c@;
                        let r = merge_forest(children, true, acc);
                        let ghost rv = trees_view(r.0@);
                        let out = singleton(TagTree::Tag { tag: Tag::SpanClass(c), children: r.0 });
                        proof {
                            assert(trees_view(out@) =~= seq![TreeV::Tag { tag: TagV::SpanClass(cv), children: rv }]);
                        }
                        (out, r.1, r.2)
                    },
                    Tag::Tooltip(s) => {
                        let mut acc2 = acc;
                        push_char(&mut acc2, '\n');
                        acc2.append(s.as_str());
                        merge_forest(children, true, acc2)
                    },
                }
            },
        }
    } else {
        let r = scan_forest(f);
        (r.0, acc, r.1)
    }
}

fn scan_forest(f: Vec<TagTree>) -> (r: (Vec<TagTree>, bool))
    ensures
        (trees_view(r.0@), r.1) == m_scan(trees_view(f@)),
    decreases forest_size(trees_view(f@)), 0int,
{
    let ghost fv = trees_view(f@);
    proof {
        lemma_trees_view(f@);
    }
    let mut f = f;
    if f.len() == 0 {
        let out: Vec<TagTree> = Vec::new();
        proof {
            assert(fv =~= Seq::<TreeV>::empty());
            assert(trees_view(out@) =~= Seq::<TreeV>::empty());
        }
        return (out, false);
    }
    let ghost fpre = f@;
    let node = f.remove(0);
    proof {
        assert(f@ =~= fpre.drop_first());
        assert(fv.drop_first() =~= trees_view(f@));
        assert(fv.first() == node@);
        lemma_forest_size_first(fv);
    }
    let (rest, rest_has) = scan_forest(f);
    match node {
        TagTree::Text(s) => {
            proof {
                assert(fv.first() == TreeV::Text(s@));
            }
            let out = prepend(TagTree::Text(s), rest);
            proof {
                assert(trees_view(out@) =~= m_scan(fv).0);
            }
            (out, rest_has)
        },
        TagTree::Tag { tag, children } => {
            proof {
                assert(fv.first() == TreeV::Tag { tag: tag@, children: trees_view(children@) });
                assert(tree_size(fv.first()) == 1 + forest_size(trees_view(children@)));
            }
            match tag {
                Tag::SpanClass(c) => {
                    let ghost cv = c@;
                    let rc = merge_forest(children, false, String::new());
                    let ghost rcv = trees_view(rc.0@);
                    let out = prepend(TagTree::Tag { tag: Tag::SpanClass(c), children: rc.0 }, rest);
                    proof {
                        assert(trees_view(out@) =~= m_scan(fv).0);
                    }
                    (out, rc.2 || rest_has)
                },
                Tag::Tooltip(s) => {
                    let rc = merge_forest(children, true, s);
                    if rc.2 {
                        let mut out = rc.0;
                        let mut rest = rest;
                        let ghost oseq = out@;
                        let ghost rseq = rest@;
                        out.append(&mut rest);
                        proof {
                            assert(out@ =~= oseq + rseq);
                            lemma_trees_view_concat(oseq, rseq);
                            assert(trees_view(out@) =~= m_scan(fv).0);
                        }
                        (out, true)
                    } else {
                        let out = prepend(TagTree::Tag { tag: Tag::Tooltip(rc.1), children: rc.0 }, rest);
                        proof {
                            assert(trees_view(out@) =~= m_scan(fv).0);
                        }
                        (out, true)
                    }
                },
            }
        },
    }
}

/// Merges all tooltips over the same character range into one and removes
/// tooltips whose ranges contain other tooltips. Returns whether the forest
/// still contains tooltips after merging.
pub fn merge_tooltips(tree: &mut Vec<TagTree>, parent_tooltip: Option<String>) -> (r: bool)
    ensures
        ({
            let m = m_forest(
                trees_view(old(tree)@),
                parent_tooltip is Some,
                match parent_tooltip {
                    Some(s) => s@,
                    None => Seq::empty(),
                },
            );
            trees_view(final(tree)@) == m.0 && r == m.2
        }),
{
    let (has, acc): (bool, String) = match parent_tooltip {
        Some(s) => (true, s),
        None => (false, String::new()),
    };
    let mut tmp: Vec<TagTree> = Vec::new();
    core::mem::swap(tree, &mut tmp);
    let r = merge_forest(tmp, has, acc);
    *tree = r.0;
    r.2
}

// ---------------------------------------------------------------------------
// Split lines: a text leaf containing newlines splits into one leaf per
// line; every ancestor of a leaf that split is replicated once per produced
// line, each replica keeping only the children belonging to that line. The
// final (possibly empty) line is always produced.
// ---------------------------------------------------------------------------

/// The per-line trees a single node produces.
pub open spec fn split_tree(t: TreeV) -> Seq<TreeV>
    decreases t,
{
    match t {
        TreeV::Text(s) => split_at(s, '\n').map_values(|l: Seq<char>| TreeV::Text(l)),
        TreeV::Tag { tag, children } => split_forest(children).map_values(
            |line: Seq<TreeV>| TreeV::Tag { tag, children: line },
        ),
    }
}

/// The per-line forests of a forest: each child's first line continues the
/// current output line; each further line starts a new one.
pub open spec fn split_forest(f: Seq<TreeV>) -> Seq<Seq<TreeV>>
    decreases f,
{
    if f.len() == 0 {
        seq![Seq::<TreeV>::empty()]
    } else {
        fuse(
            split_tree(f.first()).map_values(|t: TreeV| seq![t]),
            split_forest(f.drop_first()),
        )
    }
}

pub proof fn lemma_split_tree_len(t: TreeV)
    ensures
        split_tree(t).len() >= 1,
    decreases t,
{
    match t {
        TreeV::Text(s) => {
            crate::text::lemma_split_at_props(s, '\n');
        },
        TreeV::Tag { tag, children } => {
            lemma_split_forest_len(children);
        },
    }
}

pub proof fn lemma_split_forest_len(f: Seq<TreeV>)
    ensures
        split_forest(f).len() >= 1,
    decreases f,
{
    if f.len() == 0 {
    } else {
        lemma_split_tree_len(f.first());
        lemma_split_forest_len(f.drop_first());
    }
}

pub open spec fn lines_view(s: Seq<Vec<TagTree>>) -> Seq<Seq<TreeV>> {
    s.map_values(|v: Vec<TagTree>| trees_view(v@))
}

pub proof fn lemma_lines_view_drop(s: Seq<Vec<TagTree>>)
    requires
        s.len() > 0,
    ensures
        lines_view(s).len() == s.len(),
        lines_view(s).first() == trees_view(s.first()@),
        lines_view(s.drop_first()) == lines_view(s).drop_first(),
{
    assert(lines_view(s.drop_first()) =~= lines_view(s).drop_first()) by {
        assert forall|k: int| 0 <= k < s.len() - 1 implies lines_view(s.drop_first())[k] == lines_view(
            s,
        ).drop_first()[k] by {
            assert(s.drop_first()[k] == s[k + 1]);
        }
    }
}

pub proof fn lemma_trees_view_drop(s: Seq<TagTree>)
    requires
        s.len() > 0,
    ensures
        trees_view(s).len() == s.len(),
        trees_view(s).first() == s.first()@,
        trees_view(s.drop_first()) == trees_view(s).drop_first(),
{
    lemma_trees_view(s);
    lemma_trees_view(s.drop_first());
    assert(trees_view(s.drop_first()) =~= trees_view(s).drop_first()) by {
        assert forall|k: int| 0 <= k < s.len() - 1 implies trees_view(s.drop_first())[k] == trees_view(
            s,
        ).drop_first()[k] by {
            assert(s.drop_first()[k] == s[k + 1]);
        }
    }
}

fn fuse_exec(a: Vec<Vec<TagTree>>, b: Vec<Vec<TagTree>>) -> (r: Vec<Vec<TagTree>>)
    requires
        a@.len() >= 1,
        b@.len() >= 1,
    ensures
        lines_view(r@) == fuse(lines_view(a@), lines_view(b@)),
{
    let ghost av = lines_view(a@);
    let ghost bv = lines_view(b@);
    let mut a = a;
    let mut b = b;
    let mut last = a.pop().unwrap();
    let ghost lastv = trees_view(last@);
    let mut first = b.remove(0);
    let ghost firstv = trees_view(first@);
    let ghost lseq = last@;
    let ghost fseq = first@;
    last.append(&mut first);
    proof {
        assert(last@ =~= lseq + fseq);
        lemma_trees_view_concat(lseq, fseq);
    }
    a.push(last);
    let ghost apre = a@;
    a.append(&mut b);
    proof {
        assert(av.last() == lastv);
        assert(bv.first() == firstv);
        assert(lines_view(a@) =~= fuse(av, bv));
    }
    a
}

fn split_tree_exec(t: TagTree) -> (r: Vec<TagTree>)
    ensures
        trees_view(r@) == split_tree(t@),
    decreases tree_size(t@), 0int,
{
    let ghost tv = t@;
    match t {
        TagTree::Text(s) => {
            let ghost target = split_at(s@, '\n').map_values(|l: Seq<char>| TreeV::Text(l));
            let parts = split_str(s.as_str(), '\n');
            let ghost pv = crate::text::seq_views(parts@);
            let n = parts.len();
            let mut parts = parts;
            let mut out: Vec<TagTree> = Vec::new();
            let mut i: usize = 0;
            proof {
                assert(trees_view(out@) =~= target.take(0));
            }
            while i < n
                invariant
                    i <= n,
                    n == pv.len(),
                    parts@.len() == n - i,
                    crate::text::seq_views(parts@) =~= pv.skip(i as int),
                    target.len() == pv.len(),
                    forall|k: int| 0 <= k < pv.len() ==> target[k] == TreeV::Text(pv[k]),
                    trees_view(out@) == target.take(i as int),
                decreases n - i,
            {
                let ghost ppre = parts@;
                let chunk = parts.remove(0);
                proof {
                    assert(parts@ =~= ppre.drop_first());
                    crate::text::lemma_seq_views_drop(ppre);
                    assert(crate::text::seq_views(ppre) == pv.skip(i as int));
                    assert(pv.skip(i as int).drop_first() =~= pv.skip(i as int + 1));
                    assert(crate::text::seq_views(parts@) =~= pv.skip(i as int + 1));
                    assert(chunk@ == pv.skip(i as int).first());
                    assert(pv.skip(i as int).first() == pv[i as int]);
                    lemma_trees_view_push(out@, TagTree::Text(chunk));
                    assert(target.take(i as int).push(TreeV::Text(chunk@)) =~= target.take(i as int + 1));
                }
                out.push(TagTree::Text(chunk));
                i += 1;
            }
            proof {
                assert(target.take(n as int) =~= target);
                assert(target =~= split_tree(tv));
            }
            out
        },
        TagTree::Tag { tag, children } => {
            proof {
                assert(tv == TreeV::Tag { tag: tag@, children: trees_view(children@) });
                assert(tree_size(tv) == 1 + forest_size(trees_view(children@)));
            }
            let ghost tagv = tag@;
            let ghost target = split_forest(trees_view(children@)).map_values(
                |line: Seq<TreeV>| TreeV::Tag { tag: tagv, children: line },
            );
            let lines = split_forest_exec(children);
            let ghost lv = lines_view(lines@);
            let n = lines.len();
            proof {
                assert(lv.len() == lines@.len());
            }
            let mut lines = lines;
            let mut out: Vec<TagTree> = Vec::new();
            let mut i: usize = 0;
            proof {
                assert(trees_view(out@) =~= target.take(0));
            }
            while i < n
                invariant
                    i <= n,
                    n == lv.len(),
                    lines@.len() == n - i,
                    lines_view(lines@) =~= lv.skip(i as int),
                    tag@ == tagv,
                    target.len() == lv.len(),
                    forall|k: int| 0 <= k < lv.len() ==> target[k] == (TreeV::Tag { tag: tagv, children: lv[k] }),
                    trees_view(out@) == target.take(i as int),
                decreases n - i,
            {
                let ghost lpre = lines@;
                let line = lines.remove(0);
                let node = TagTree::Tag { tag: tag.duplicate(), children: line };
                proof {
                    assert(lines@ =~= lpre.drop_first());
                    lemma_lines_view_drop(lpre);
                    assert(lines_view(lpre) == lv.skip(i as int));
                    assert(lv.skip(i as int).drop_first() =~= lv.skip(i as int + 1));
                    assert(lines_view(lines@) =~= lv.skip(i as int + 1));
                    assert(trees_view(line@) == lv.skip(i as int).first());
                    assert(lv.skip(i as int).first() == lv[i as int]);
                    assert(trees_view(line@) == lv[i as int]);
                    assert(node@ == (TreeV::Tag { tag: tagv, children: lv[i as int] }));
                    lemma_trees_view_push(out@, node);
                    assert(target.take(i as int).push(node@) =~= target.take(i as int + 1));
                }
                out.push(node);
                i += 1;
            }
            proof {
                assert(target.take(n as int) =~= target);
                assert(target =~= split_tree(tv));
            }
            out
        },
    }
}

fn split_forest_exec(f: Vec<TagTree>) -> (r: Vec<Vec<TagTree>>)
    ensures
        lines_view(r@) == split_forest(trees_view(f@)),
    decreases forest_size(trees_view(f@)), 1int,
{
    let ghost fv = trees_view(f@);
    proof {
        lemma_trees_view(f@);
    }
    let mut f = f;
    if f.len() == 0 {
        let mut r: Vec<Vec<TagTree>> = Vec::new();
        r.push(Vec::new());
        proof {
            assert(fv =~= Seq::<TreeV>::empty());
            assert(trees_view(r@[0]@) =~= Seq::<TreeV>::empty());
            assert(lines_view(r@) =~= seq![Seq::<TreeV>::empty()]);
        }
        return r;
    }
    let ghost fpre = f@;
    let node = f.remove(0);
    proof {
        assert(f@ =~= fpre.drop_first());
        assert(fv.drop_first() =~= trees_view(f@));
        assert(fv.first() == node@);
        lemma_forest_size_first(fv);
        lemma_tree_size_pos(fv.first());
    }
    let head_lines = split_tree_exec(node);
    let ghost hv = trees_view(head_lines@);
    let ghost target_a = split_tree(fv.first()).map_values(|t: TreeV| seq![t]);
    // each produced tree becomes a line of its own
    let nh = head_lines.len();
    proof {
        lemma_trees_view(head_lines@);
        assert(hv.len() == head_lines@.len());
        lemma_split_tree_len(fv.first());
    }
    let mut head_lines = head_lines;
    let mut a: Vec<Vec<TagTree>> = Vec::new();
    let mut i: usize = 0;
    proof {
        assert(lines_view(a@) =~= target_a.take(0));
    }
    while i < nh
        invariant
            i <= nh,
            nh == hv.len(),
            head_lines@.len() == nh - i,
            trees_view(head_lines@) =~= hv.skip(i as int),
            target_a.len() == hv.len(),
            forall|k: int| 0 <= k < hv.len() ==> target_a[k] == seq![hv[k]],
            lines_view(a@) == target_a.take(i as int),
        decreases nh - i,
    {
        let ghost hpre = head_lines@;
        let t = head_lines.remove(0);
        let line = singleton(t);
        proof {
            assert(head_lines@ =~= hpre.drop_first());
            lemma_trees_view_drop(hpre);
            assert(trees_view(hpre) == hv.skip(i as int));
            assert(hv.skip(i as int).drop_first() =~= hv.skip(i as int + 1));
            assert(trees_view(head_lines@) =~= hv.skip(i as int + 1));
            assert(t@ == hv.skip(i as int).first());
            assert(hv.skip(i as int).first() == hv[i as int]);
            assert(trees_view(line@) =~= seq![hv[i as int]]);
            assert(lines_view(a@).push(trees_view(line@)) =~= target_a.take(i as int + 1));
            assert(lines_view(a@.push(line)) =~= lines_view(a@).push(trees_view(line@)));
        }
        a.push(line);
        i += 1;
    }
    proof {
        assert(target_a.take(nh as int) =~= target_a);
    }
    let b = split_forest_exec(f);
    proof {
        lemma_split_forest_len(trees_view(f@));
        assert(lines_view(b@).len() >= 1);
        assert(a@.len() == nh);
    }
    let r = fuse_exec(a, b);
    proof {
        assert(lines_view(r@) =~= split_forest(fv));
    }
    r
}

impl TagTree {
    /// The per-line replicas of this node, one per produced output line.
    pub fn split_lines(self) -> (r: Vec<TagTree>)
        ensures
            trees_view(r@) == split_tree(self@),
    {
        split_tree_exec(self)
    }
}

/// Splits a canonicalized forest into newline-free per-line forests.
pub fn split_lines(input: Vec<TagTree>) -> (r: Vec<Vec<TagTree>>)
    ensures
        lines_view(r@) == split_forest(trees_view(input@)),
{
    split_forest_exec(input)
}

} // verus!
