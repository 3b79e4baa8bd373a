//! The wire-format parser. Two non-printable control characters structure the
//! input: OPEN (`'\x05'`) brackets a marker, and within a marker ATTR-SEP
//! (`'\x06'`) separates the (empty) lead, the name, and the attributes. A
//! marker body equal to a single ATTR-SEP closes the innermost open tag. Text
//! between markers becomes a `Text` node.

use vstd::prelude::*;
use crate::text::{
    first_idx, lemma_first_idx, lemma_first_idx_agrees, split_at, split_str, seq_views, find_char,
    fuse, join_with, push_char, lemma_split_concat, lemma_split_sep_free, lemma_split_join,
};

verus! {

/// The marker bracket: splits the input into alternating text and marker chunks.
pub const DELIM_X: char = '\x05';

/// The separator between a marker's name and attributes.
pub const DELIM_Y: char = '\x06';

/// A node of the parsed tree.
#[derive(Debug, PartialEq, Eq)]
pub enum Node {
    Text(String),
    Tag { name: String, attrs: Vec<(String, String)>, children: Vec<Node> },
}

#[derive(Debug, Clone, PartialEq, Eq)]
pub enum ParseError {
    UnclosedTag(String),
    NoClosingX,
    UnexpectedContentBeforeAttributes,
    MissingName,
    MalformedAttribute,
    UnmatchedClosingTag,
}

/// The mathematical model of a parsed node.
#[verifier::ext_equal]
pub enum NodeV {
    Text(Seq<char>),
    Tag { name: Seq<char>, attrs: Seq<(Seq<char>, Seq<char>)>, children: Seq<NodeV> },
}

#[verifier::ext_equal]
pub enum ParseErrV {
    UnclosedTag(Seq<char>),
    NoClosingX,
    UnexpectedContentBeforeAttributes,
    MissingName,
    MalformedAttribute,
    UnmatchedClosingTag,
}

pub open spec fn attrs_views(attrs: Seq<(String, String)>) -> Seq<(Seq<char>, Seq<char>)> {
    attrs.map_values(|p: (String, String)| (p.0@, p.1@))
}

impl Node {
    /// The mathematical value of this node.
    pub open spec fn deep(self) -> NodeV
        decreases self,
    {
        match self {
            Node::Text(s) => NodeV::Text(s@),
            Node::Tag { name, attrs, children } => NodeV::Tag {
                name: name@,
                attrs: attrs_views(attrs@),
                children: forest_view(children@),
            },
        }
    }
}

/// The mathematical value of a forest.
pub open spec fn forest_view(s: Seq<Node>) -> Seq<NodeV>
    decreases s,
{
    if s.len() == 0 {
        Seq::empty()
    } else {
        seq![s.first().deep()] + forest_view(s.drop_first())
    }
}

impl View for Node {
    type V = NodeV;

    open spec fn view(&self) -> NodeV {
        (*self).deep()
    }
}

pub proof fn lemma_forest_view(s: Seq<Node>)
    ensures
        forest_view(s).len() == s.len(),
        forall|i: int| 0 <= i < s.len() ==> forest_view(s)[i] == s[i]@,
    decreases s,
{
    if s.len() == 0 {
    } else {
        lemma_forest_view(s.drop_first());
        assert forall|i: int| 0 <= i < s.len() implies forest_view(s)[i] == s[i]@ by {
            if i > 0 {
                assert(s.drop_first()[i - 1] == s[i]);
                assert(forest_view(s)[i] == forest_view(s.drop_first())[i - 1]);
            }
        }
    }
}

pub proof fn lemma_forest_view_push(s: Seq<Node>, n: Node)
    ensures
        forest_view(s.push(n)) == forest_view(s).push(n@),
    decreases s,
{
    if s.len() == 0 {
        assert(s.push(n).drop_first() =~= Seq::<Node>::empty());
        assert(s.push(n).first() == n);
        assert(forest_view(Seq::<Node>::empty()) =~= Seq::<NodeV>::empty());
        assert(forest_view(s.push(n)) == seq![n.deep()] + forest_view(Seq::<Node>::empty()));
        assert(forest_view(s.push(n)) =~= forest_view(s).push(n@));
    } else {
        lemma_forest_view_push(s.drop_first(), n);
        assert(s.push(n).drop_first() =~= s.drop_first().push(n));
        assert(s.push(n).first() == s.first());
        assert(forest_view(s.push(n)) =~= forest_view(s).push(n@));
    }
}

impl View for ParseError {
    type V = ParseErrV;

    open spec fn view(&self) -> ParseErrV {
        match self {
            ParseError::UnclosedTag(s) => ParseErrV::UnclosedTag(s@),
            ParseError::NoClosingX => ParseErrV::NoClosingX,
            ParseError::UnexpectedContentBeforeAttributes => ParseErrV::UnexpectedContentBeforeAttributes,
            ParseError::MissingName => ParseErrV::MissingName,
            ParseError::MalformedAttribute => ParseErrV::MalformedAttribute,
            ParseError::UnmatchedClosingTag => ParseErrV::UnmatchedClosingTag,
        }
    }
}

/// One open tag whose children are still being collected.
#[verifier::ext_equal]
pub struct FrameV {
    pub name: Seq<char>,
    pub attrs: Seq<(Seq<char>, Seq<char>)>,
    pub nodes: Seq<NodeV>,
}

/// Appends a finished node to the innermost open tag, or to the finished
/// forest when no tag is open.
pub open spec fn push_node_v(stack: Seq<FrameV>, done: Seq<NodeV>, n: NodeV) -> (Seq<FrameV>, Seq<NodeV>) {
    if stack.len() == 0 {
        (stack, done.push(n))
    } else {
        let top = stack.last();
        (stack.update(stack.len() - 1, FrameV { nodes: top.nodes.push(n), ..top }), done)
    }
}

/// The attributes of a marker body: each part must contain `=`; the key is
/// everything before the first `=`, the value everything after it.
pub open spec fn parse_attrs(parts: Seq<Seq<char>>) -> Result<Seq<(Seq<char>, Seq<char>)>, ParseErrV>
    decreases parts.len(),
{
    if parts.len() == 0 {
        Ok(Seq::empty())
    } else {
        let p = parts.first();
        if !p.contains('=') {
            Err(ParseErrV::MalformedAttribute)
        } else {
            let i = first_idx(p, '=');
            match parse_attrs(parts.drop_first()) {
                Ok(rest) => Ok(seq![(p.take(i), p.skip(i + 1))] + rest),
                Err(e) => Err(e),
            }
        }
    }
}

/// A non-close marker body: an empty lead, then the name, then attributes,
/// all separated by ATTR-SEP.
pub open spec fn parse_marker(m: Seq<char>) -> Result<(Seq<char>, Seq<(Seq<char>, Seq<char>)>), ParseErrV> {
    let parts = split_at(m, DELIM_Y);
    if parts.first().len() != 0 {
        Err(ParseErrV::UnexpectedContentBeforeAttributes)
    } else if parts.len() < 2 {
        Err(ParseErrV::MissingName)
    } else {
        match parse_attrs(parts.skip(2)) {
            Ok(attrs) => Ok((parts[1], attrs)),
            Err(e) => Err(e),
        }
    }
}

/// The parser proper: a fold over the chunks that splitting the input at
/// OPEN produces. Chunks alternate between text (`text_next`) and marker
/// positions; a marker chunk that is the last chunk had no terminating OPEN.
pub open spec fn fold_chunks(
    stack: Seq<FrameV>,
    done: Seq<NodeV>,
    chunks: Seq<Seq<char>>,
    text_next: bool,
) -> Result<Seq<NodeV>, ParseErrV>
    decreases chunks.len(),
{
    if chunks.len() == 0 {
        if stack.len() == 0 {
            Ok(done)
        } else {
            Err(ParseErrV::UnclosedTag(stack.last().name))
        }
    } else if text_next {
        let t = chunks.first();
        if t.len() == 0 {
            fold_chunks(stack, done, chunks.drop_first(), false)
        } else {
            let sd = push_node_v(stack, done, NodeV::Text(t));
            fold_chunks(sd.0, sd.1, chunks.drop_first(), false)
        }
    } else if chunks.len() == 1 {
        Err(ParseErrV::NoClosingX)
    } else {
        let m = chunks.first();
        if m == seq![DELIM_Y] {
            if stack.len() == 0 {
                Err(ParseErrV::UnmatchedClosingTag)
            } else {
                let top = stack.last();
                let node = NodeV::Tag { name: top.name, attrs: top.attrs, children: top.nodes };
                let sd = push_node_v(stack.drop_last(), done, node);
                fold_chunks(sd.0, sd.1, chunks.drop_first(), true)
            }
        } else {
            match parse_marker(m) {
                Ok(na) => fold_chunks(
                    stack.push(FrameV { name: na.0, attrs: na.1, nodes: Seq::empty() }),
                    done,
                    chunks.drop_first(),
                    true,
                ),
                Err(e) => Err(e),
            }
        }
    }
}

/// What `parse` returns, for every input.
pub open spec fn spec_parse(input: Seq<char>) -> Result<Seq<NodeV>, ParseErrV> {
    fold_chunks(Seq::empty(), Seq::empty(), split_at(input, DELIM_X), true)
}

struct Frame {
    name: String,
    attrs: Vec<(String, String)>,
    nodes: Vec<Node>,
}

spec fn frame_view(f: Frame) -> FrameV {
    FrameV { name: f.name@, attrs: attrs_views(f.attrs@), nodes: forest_view(f.nodes@) }
}

spec fn stack_views(v: Seq<Frame>) -> Seq<FrameV> {
    v.map_values(|f: Frame| frame_view(f))
}

fn push_node(stack: &mut Vec<Frame>, done: &mut Vec<Node>, n: Node)
    ensures
        (stack_views(final(stack)@), forest_view(final(done)@)) == push_node_v(
            stack_views(old(stack)@),
            forest_view(old(done)@),
            n@,
        ),
{
    if stack.len() == 0 {
        proof {
            lemma_forest_view_push(done@, n);
        }
        done.push(n);
        proof {
            assert(stack_views(stack@) =~= stack_views(old(stack)@));
        }
    } else {
        let mut fr = stack.pop().unwrap();
        proof {
            lemma_forest_view_push(fr.nodes@, n);
        }
        fr.nodes.push(n);
        stack.push(fr);
        proof {
            let sv = stack_views(old(stack)@);
            assert(stack_views(stack@) =~~= sv.update(
                sv.len() - 1,
                FrameV { nodes: sv.last().nodes.push(n@), ..sv.last() },
            ));
        }
    }
}

/// Parses a marker body (already known not to be a close marker).
fn parse_marker_exec(m: &str) -> (r: Result<(String, Vec<(String, String)>), ParseError>)
    ensures
        match (r, parse_marker(m@)) {
            (Ok(na), Ok(nav)) => na.0@ == nav.0 && attrs_views(na.1@) == nav.1,
            (Err(e), Err(ev)) => e@ == ev,
            _ => false,
        },
{
    let parts = split_str(m, DELIM_Y);
    let ghost pv = split_at(m@, DELIM_Y);
    proof {
        assert(parts@[0]@ == pv.first());
    }
    if !parts[0].as_str().is_empty() {
        return Err(ParseError::UnexpectedContentBeforeAttributes);
    }
    if parts.len() < 2 {
        return Err(ParseError::MissingName);
    }
    let name = parts[1].clone();
    let mut attrs: Vec<(String, String)> = Vec::new();
    let mut j: usize = 2;
    let n = parts.len();
    proof {
        assert(pv.len() == parts@.len());
        assert(pv[1] == parts@[1]@);
        assert(name@ == pv[1]);
        assert(attrs_views(attrs@) =~= spec_attr_prefix(pv, 2));
    }
    while j < n
        invariant
            2 <= j <= n,
            n == parts@.len(),
            pv == seq_views(parts@),
            pv == split_at(m@, DELIM_Y),
            pv.len() == n,
            pv.len() >= 2,
            pv.first().len() == 0,
            forall|k: int| 2 <= k < j ==> (#[trigger] pv[k]).contains('='),
            attrs_views(attrs@) == spec_attr_prefix(pv, j as int),
        decreases n - j,
    {
        let part = &parts[j];
        proof {
            assert(part@ == pv[j as int]);
            lemma_first_idx(part@, '=');
        }
        match find_char(part.as_str(), '=') {
            None => {
                proof {
                    lemma_parse_attrs_err(pv, j as int);
                }
                return Err(ParseError::MalformedAttribute);
            },
            Some(k) => {
                let len = part.as_str().unicode_len();
                let key = part.as_str().substring_char(0, k).to_owned();
                let val = part.as_str().substring_char(k + 1, len).to_owned();
                proof {
                    assert(key@ =~= pv[j as int].take(first_idx(pv[j as int], '=')));
                    assert(val@ =~= pv[j as int].skip(first_idx(pv[j as int], '=') + 1));
                }
                attrs.push((key, val));
                proof {
                    assert(attrs_views(attrs@) =~= spec_attr_prefix(pv, j as int).push(
                        (pv[j as int].take(first_idx(pv[j as int], '=')),
                         pv[j as int].skip(first_idx(pv[j as int], '=') + 1)),
                    ));
                    assert(spec_attr_prefix(pv, j as int + 1) =~= spec_attr_prefix(pv, j as int).push(
                        (pv[j as int].take(first_idx(pv[j as int], '=')),
                         pv[j as int].skip(first_idx(pv[j as int], '=') + 1)),
                    ));
                }
            },
        }
        j += 1;
    }
    proof {
        lemma_parse_attrs_ok(pv, 2);
        assert(parse_attrs(pv.skip(2))->Ok_0 =~= spec_attr_prefix(pv, n as int));
    }
    Ok((name, attrs))
}

/// The attribute pairs of `parts[2..j]`, all of which contain `=`.
spec fn spec_attr_prefix(parts: Seq<Seq<char>>, j: int) -> Seq<(Seq<char>, Seq<char>)> {
    Seq::new((j - 2) as nat, |k: int| {
        let p = parts[k + 2];
        (p.take(first_idx(p, '=')), p.skip(first_idx(p, '=') + 1))
    })
}

/// If every part from `j` on contains `=`, `parse_attrs` succeeds with the
/// pointwise key/value split; the first part without `=` makes it fail.
proof fn lemma_parse_attrs_ok(parts: Seq<Seq<char>>, j: int)
    requires
        2 <= j <= parts.len(),
        forall|k: int| j <= k < parts.len() ==> (#[trigger] parts[k]).contains('='),
    ensures
        parse_attrs(parts.skip(j)) == Ok::<_, ParseErrV>(
            Seq::new((parts.len() - j) as nat, |k: int| {
                let p = parts[k + j];
                (p.take(first_idx(p, '=')), p.skip(first_idx(p, '=') + 1))
            }),
        ),
    decreases parts.len() - j,
{
    let tail = parts.skip(j);
    if j == parts.len() {
        assert(tail =~= Seq::<Seq<char>>::empty());
        assert(parse_attrs(tail) == Ok::<_, ParseErrV>(Seq::<(Seq<char>, Seq<char>)>::empty()));
        assert(Seq::new((parts.len() - j) as nat, |k: int| {
            let p = parts[k + j];
            (p.take(first_idx(p, '=')), p.skip(first_idx(p, '=') + 1))
        }) =~= Seq::<(Seq<char>, Seq<char>)>::empty());
    } else {
        lemma_parse_attrs_ok(parts, j + 1);
        assert(tail.first() == parts[j]);
        assert(tail.drop_first() =~= parts.skip(j + 1));
        let p = parts[j];
        let rest = parse_attrs(parts.skip(j + 1))->Ok_0;
        assert(parse_attrs(tail) == Ok::<_, ParseErrV>(seq![(p.take(first_idx(p, '=')), p.skip(first_idx(p, '=') + 1))] + rest));
        assert(seq![(p.take(first_idx(p, '=')), p.skip(first_idx(p, '=') + 1))] + rest =~= Seq::new(
            (parts.len() - j) as nat,
            |k: int| {
                let q = parts[k + j];
                (q.take(first_idx(q, '=')), q.skip(first_idx(q, '=') + 1))
            },
        ));
    }
}

/// If `parts[j]` lacks `=` and every part before it (from 2) has one, the
/// whole attribute list is malformed.
proof fn lemma_parse_attrs_err(parts: Seq<Seq<char>>, j: int)
    requires
        2 <= j < parts.len(),
        forall|k: int| 2 <= k < j ==> (#[trigger] parts[k]).contains('='),
        !parts[j].contains('='),
    ensures
        parse_attrs(parts.skip(2)) == Err::<Seq<(Seq<char>, Seq<char>)>, _>(ParseErrV::MalformedAttribute),
    decreases j,
{
    if j == 2 {
        assert(parts.skip(2).first() == parts[2]);
    } else {
        lemma_parse_attrs_err_from(parts, 2, j);
    }
}

proof fn lemma_parse_attrs_err_from(parts: Seq<Seq<char>>, s: int, j: int)
    requires
        2 <= s <= j < parts.len(),
        forall|k: int| s <= k < j ==> (#[trigger] parts[k]).contains('='),
        !parts[j].contains('='),
    ensures
        parse_attrs(parts.skip(s)) == Err::<Seq<(Seq<char>, Seq<char>)>, _>(ParseErrV::MalformedAttribute),
    decreases j - s,
{
    let tail = parts.skip(s);
    assert(tail.first() == parts[s]);
    if s == j {
    } else {
        assert(tail.drop_first() =~= parts.skip(s + 1));
        lemma_parse_attrs_err_from(parts, s + 1, j);
    }
}

/// Parses the wire format into a forest, exactly as `spec_parse` says.
pub fn parse(input: &str) -> (r: Result<Vec<Node>, ParseError>)
    ensures
        match (r, spec_parse(input@)) {
            (Ok(nodes), Ok(f)) => forest_view(nodes@) == f,
            (Err(e), Err(ev)) => e@ == ev,
            _ => false,
        },
{
    let chunks = split_str(input, DELIM_X);
    let ghost cv = split_at(input@, DELIM_X);
    let n = chunks.len();
    let mut stack: Vec<Frame> = Vec::new();
    let mut done: Vec<Node> = Vec::new();
    let mut i: usize = 0;
    proof {
        assert(stack_views(stack@) =~= Seq::<FrameV>::empty());
        assert(forest_view(done@) =~= Seq::<NodeV>::empty());
        assert(cv.skip(0) =~= cv);
    }
    while i < n
        invariant
            i <= n,
            n == chunks@.len(),
            cv == seq_views(chunks@),
            fold_chunks(stack_views(stack@), forest_view(done@), cv.skip(i as int), i % 2 == 0)
                == spec_parse(input@),
        decreases n - i,
    {
        let ghost rem = cv.skip(i as int);
        proof {
            assert(rem.first() == cv[i as int]);
            assert(rem.drop_first() =~= cv.skip(i as int + 1));
            assert(chunks@[i as int]@ == cv[i as int]);
        }
        let chunk = &chunks[i];
        if i % 2 == 0 {
            if !chunk.as_str().is_empty() {
                push_node(&mut stack, &mut done, Node::Text(chunk.clone()));
            }
        } else {
            if i == n - 1 {
                return Err(ParseError::NoClosingX);
            }
            let is_close = chunk.as_str().unicode_len() == 1 && chunk.as_str().get_char(0) == DELIM_Y;
            proof {
                if is_close {
                    assert(rem.first() =~= seq![DELIM_Y]);
                } else {
                    assert(rem.first() != seq![DELIM_Y]);
                }
            }
            if is_close {
                if stack.len() == 0 {
                    return Err(ParseError::UnmatchedClosingTag);
                }
                let ghost sv_before = stack_views(stack@);
                let fr = stack.pop().unwrap();
                let node = Node::Tag { name: fr.name, attrs: fr.attrs, children: fr.nodes };
                proof {
                    assert(node@ =~= NodeV::Tag {
                        name: sv_before.last().name,
                        attrs: sv_before.last().attrs,
                        children: sv_before.last().nodes,
                    });
                    assert(stack_views(stack@) =~= sv_before.drop_last());
                }
                push_node(&mut stack, &mut done, node);
            } else {
                match parse_marker_exec(chunk.as_str()) {
                    Err(e) => {
                        return Err(e);
                    },
                    Ok((name, attrs)) => {
                        let ghost sv_before = stack_views(stack@);
                        stack.push(Frame { name, attrs, nodes: Vec::new() });
                        proof {
                            let na = parse_marker(rem.first())->Ok_0;
                            assert(forest_view(stack@.last().nodes@) =~= Seq::<NodeV>::empty());
                            assert(frame_view(stack@.last()) =~= FrameV { name: na.0, attrs: na.1, nodes: Seq::empty() });
                            assert(stack_views(stack@) =~= sv_before.push(
                                FrameV { name: na.0, attrs: na.1, nodes: Seq::empty() },
                            ));
                        }
                    },
                }
            }
        }
        i += 1;
    }
    proof {
        assert(cv.skip(n as int) =~= Seq::<Seq<char>>::empty());
    }
    if stack.len() == 0 {
        Ok(done)
    } else {
        let name = stack[stack.len() - 1].name.clone();
        proof {
            assert(stack_views(stack@).last() == frame_view(stack@.last()));
        }
        Err(ParseError::UnclosedTag(name))
    }
}

// ---------------------------------------------------------------------------
// Serialization, the parser's inverse on well-formed forests.
// ---------------------------------------------------------------------------

pub open spec fn nsize(n: NodeV) -> nat
    decreases n,
{
    match n {
        NodeV::Text(_) => 1,
        NodeV::Tag { children, .. } => 1 + nfsize(children),
    }
}

pub open spec fn nfsize(f: Seq<NodeV>) -> nat
    decreases f,
{
    if f.len() == 0 {
        0
    } else {
        nsize(f.first()) + nfsize(f.drop_first())
    }
}

pub proof fn lemma_nsize_pos(n: NodeV)
    ensures
        nsize(n) >= 1,
{
    match n {
        NodeV::Text(_) => {},
        NodeV::Tag { .. } => {},
    }
}

pub proof fn lemma_nfsize_first(f: Seq<NodeV>)
    requires
        f.len() > 0,
    ensures
        nfsize(f) == nsize(f.first()) + nfsize(f.drop_first()),
        nfsize(f) >= 1 + nfsize(f.drop_first()),
        nsize(f.first()) <= nfsize(f),
{
    lemma_nsize_pos(f.first());
}

/// The attribute part of a marker body.
pub open spec fn attrs_text(attrs: Seq<(Seq<char>, Seq<char>)>) -> Seq<char>
    decreases attrs.len(),
{
    if attrs.len() == 0 {
        Seq::empty()
    } else {
        seq![DELIM_Y] + attrs.first().0 + seq!['='] + attrs.first().1 + attrs_text(
            attrs.drop_first(),
        )
    }
}

/// A marker body: the empty lead, the name, and the attributes.
pub open spec fn marker_body(name: Seq<char>, attrs: Seq<(Seq<char>, Seq<char>)>) -> Seq<char> {
    seq![DELIM_Y] + name + attrs_text(attrs)
}

/// The wire text of one node.
pub open spec fn wire_node(n: NodeV) -> Seq<char>
    decreases n,
{
    match n {
        NodeV::Text(s) => s,
        NodeV::Tag { name, attrs, children } => seq![DELIM_X] + marker_body(name, attrs) + seq![
            DELIM_X,
        ] + wire_forest(children) + seq![DELIM_X, DELIM_Y, DELIM_X],
    }
}

/// The wire text of a forest.
pub open spec fn wire_forest(f: Seq<NodeV>) -> Seq<char>
    decreases f,
{
    if f.len() == 0 {
        Seq::empty()
    } else {
        wire_node(f.first()) + wire_forest(f.drop_first())
    }
}

pub open spec fn no_delims(s: Seq<char>) -> bool {
    !s.contains(DELIM_X) && !s.contains(DELIM_Y)
}

/// A forest the wire format can carry faithfully: text leaves are non-empty
/// and hold no structural delimiter, no two text leaves are adjacent, names
/// and attributes hold no delimiter, keys no `=`, and a tag is named or
/// attributed.
pub open spec fn wf_node(n: NodeV) -> bool
    decreases n,
{
    match n {
        NodeV::Text(s) => s.len() > 0 && !s.contains(DELIM_X),
        NodeV::Tag { name, attrs, children } => {
            &&& no_delims(name)
            &&& name.len() > 0 || attrs.len() > 0
            &&& forall|i: int|
                0 <= i < attrs.len() ==> no_delims((#[trigger] attrs[i]).0) && !attrs[i].0.contains(
                    '=',
                ) && no_delims(attrs[i].1)
            &&& wf_forest(children)
        },
    }
}

pub open spec fn wf_forest(f: Seq<NodeV>) -> bool
    decreases f,
{
    if f.len() == 0 {
        true
    } else {
        &&& wf_node(f.first())
        &&& (f.first() is Text && f.len() > 1 ==> !(f[1] is Text))
        &&& wf_forest(f.drop_first())
    }
}

/// Writes the wire text of the forest from index `from` on.
fn serialize_from(nodes: &Vec<Node>, from: usize, out: &mut String)
    requires
        from <= nodes@.len(),
    ensures
        final(out)@ == old(out)@ + wire_forest(forest_view(nodes@).skip(from as int)),
    decreases nfsize(forest_view(nodes@).skip(from as int)), 0int,
{
    let ghost fv = forest_view(nodes@);
    let ghost g = fv.skip(from as int);
    proof {
        lemma_forest_view(nodes@);
    }
    if from >= nodes.len() {
        proof {
            assert(g =~= Seq::<NodeV>::empty());
            assert(old(out)@ + wire_forest(g) =~= old(out)@);
        }
        return ;
    }
    proof {
        assert(g.first() == fv[from as int]);
        assert(g.drop_first() =~= fv.skip(from as int + 1));
        lemma_nfsize_first(g);
    }
    match &nodes[from] {
        Node::Text(s) => {
            out.append(s.as_str());
            proof {
                assert(g.first() == NodeV::Text(s@));
            }
        },
        Node::Tag { name, attrs, children } => {
            proof {
                assert(g.first() == NodeV::Tag {
                    name: name@,
                    attrs: attrs_views(attrs@),
                    children: forest_view(children@),
                });
                assert(nsize(g.first()) == 1 + nfsize(forest_view(children@)));
                assert(forest_view(children@).skip(0) =~= forest_view(children@));
            }
            push_char(out, DELIM_X);
            push_char(out, DELIM_Y);
            out.append(name.as_str());
            let ghost av = attrs_views(attrs@);
            let na = attrs.len();
            let mut j: usize = 0;
            proof {
                assert(av.len() == na);
                assert(av.take(0) =~= Seq::<(Seq<char>, Seq<char>)>::empty());
                assert(attrs_text(av.take(0)) =~= Seq::<char>::empty());
                assert(out@ =~= old(out)@ + seq![DELIM_X] + (seq![DELIM_Y] + name@ + attrs_text(
                    av.take(0),
                )));
            }
            while j < na
                invariant
                    j <= na,
                    na == attrs@.len(),
                    av == attrs_views(attrs@),
                    av.len() == na,
                    out@ == old(out)@ + seq![DELIM_X] + (seq![DELIM_Y] + name@ + attrs_text(
                        av.take(j as int),
                    )),
                decreases na - j,
            {
                push_char(out, DELIM_Y);
                out.append(attrs[j].0.as_str());
                push_char(out, '=');
                out.append(attrs[j].1.as_str());
                proof {
                    assert(av[j as int] == (attrs@[j as int].0@, attrs@[j as int].1@));
                    assert(av.take(j as int + 1) =~= av.take(j as int).push(av[j as int]));
                    lemma_attrs_text_snoc(av.take(j as int), av[j as int]);
                    assert(out@ =~= old(out)@ + seq![DELIM_X] + (seq![DELIM_Y] + name@ + attrs_text(
                        av.take(j as int + 1),
                    )));
                }
                j += 1;
            }
            proof {
                assert(av.take(na as int) =~= av);
            }
            push_char(out, DELIM_X);
            serialize_from(children, 0, out);
            push_char(out, DELIM_X);
            push_char(out, DELIM_Y);
            push_char(out, DELIM_X);
            proof {
                assert(out@ =~= old(out)@ + wire_node(g.first()));
            }
        },
    }
    serialize_from(nodes, from + 1, out);
    proof {
        assert(final(out)@ =~= old(out)@ + wire_forest(g));
    }
}

proof fn lemma_attrs_text_snoc(a: Seq<(Seq<char>, Seq<char>)>, x: (Seq<char>, Seq<char>))
    ensures
        attrs_text(a.push(x)) == attrs_text(a) + (seq![DELIM_Y] + x.0 + seq!['='] + x.1),
    decreases a.len(),
{
    if a.len() == 0 {
        assert(a.push(x).drop_first() =~= Seq::<(Seq<char>, Seq<char>)>::empty());
        assert(a.push(x).first() == x);
        assert(attrs_text(Seq::<(Seq<char>, Seq<char>)>::empty()) =~= Seq::<char>::empty());
        assert(attrs_text(a) =~= Seq::<char>::empty());
        assert(attrs_text(a.push(x)) =~= attrs_text(a) + (seq![DELIM_Y] + x.0 + seq!['='] + x.1));
    } else {
        lemma_attrs_text_snoc(a.drop_first(), x);
        assert(a.push(x).drop_first() =~= a.drop_first().push(x));
        assert(a.push(x).first() == a.first());
        assert(attrs_text(a.push(x)) =~= attrs_text(a) + (seq![DELIM_Y] + x.0 + seq!['='] + x.1));
    }
}

/// Writes a forest in the wire format; parsing the result restores the
/// forest whenever it is well-formed.
pub fn serialize(nodes: &Vec<Node>) -> (r: String)
    ensures
        r@ == wire_forest(forest_view(nodes@)),
{
    let mut out = String::new();
    proof {
        assert(forest_view(nodes@).skip(0) =~= forest_view(nodes@));
    }
    serialize_from(nodes, 0, &mut out);
    out
}

// ---------------------------------------------------------------------------
// The round trip: parsing the serialization of a well-formed forest
// restores the forest exactly.
// ---------------------------------------------------------------------------

proof fn lemma_concat_free(a: Seq<char>, b: Seq<char>, c: char)
    requires
        !a.contains(c),
        !b.contains(c),
    ensures
        !(a + b).contains(c),
{
    assert forall|i: int| 0 <= i < (a + b).len() implies (a + b)[i] != c by {
        if i < a.len() {
            assert((a + b)[i] == a[i]);
        } else {
            assert((a + b)[i] == b[i - a.len()]);
        }
    }
}

/// The word each attribute contributes to a marker body.
pub open spec fn attr_word(p: (Seq<char>, Seq<char>)) -> Seq<char> {
    p.0 + seq!['='] + p.1
}

/// The words of a marker body, in separator-joined order.
pub open spec fn marker_parts(name: Seq<char>, attrs: Seq<(Seq<char>, Seq<char>)>) -> Seq<Seq<char>> {
    seq![Seq::<char>::empty(), name] + attrs.map_values(|p: (Seq<char>, Seq<char>)| attr_word(p))
}

proof fn lemma_marker_join(name: Seq<char>, attrs: Seq<(Seq<char>, Seq<char>)>)
    ensures
        marker_body(name, attrs) == join_with(marker_parts(name, attrs), DELIM_Y),
    decreases attrs.len(),
{
    if attrs.len() == 0 {
        assert(marker_parts(name, attrs) =~= seq![Seq::<char>::empty(), name]);
        crate::text::lemma_join_last(seq![Seq::<char>::empty()], name, DELIM_Y);
        assert(seq![Seq::<char>::empty()].push(name) =~= seq![Seq::<char>::empty(), name]);
        assert(join_with(seq![Seq::<char>::empty()], DELIM_Y) == Seq::<char>::empty());
        assert(attrs_text(attrs) =~= Seq::<char>::empty());
        assert(marker_body(name, attrs) =~= Seq::<char>::empty().push(DELIM_Y) + name);
    } else {
        let a0 = attrs.drop_last();
        let x = attrs.last();
        lemma_marker_join(name, a0);
        lemma_attrs_text_snoc(a0, x);
        assert(a0.push(x) =~= attrs);
        let mp = marker_parts(name, attrs);
        assert(mp =~= marker_parts(name, a0).push(attr_word(x)));
        crate::text::lemma_join_last(marker_parts(name, a0), attr_word(x), DELIM_Y);
        assert(marker_body(name, attrs) =~= join_with(marker_parts(name, a0), DELIM_Y).push(DELIM_Y)
            + attr_word(x)) by {
            assert(attrs_text(attrs) == attrs_text(a0) + (seq![DELIM_Y] + x.0 + seq!['='] + x.1));
        }
    }
}

/// Parsing a well-formed marker body restores its name and attributes.
proof fn lemma_parse_marker_inv(name: Seq<char>, attrs: Seq<(Seq<char>, Seq<char>)>)
    requires
        !name.contains(DELIM_Y),
        forall|i: int|
            0 <= i < attrs.len() ==> !(#[trigger] attrs[i]).0.contains(DELIM_Y)
                && !attrs[i].0.contains('=') && !attrs[i].1.contains(DELIM_Y),
    ensures
        parse_marker(marker_body(name, attrs)) == Ok::<_, ParseErrV>((name, attrs)),
{
    lemma_marker_join(name, attrs);
    let mp = marker_parts(name, attrs);
    assert forall|i: int| 0 <= i < mp.len() implies !(#[trigger] mp[i]).contains(DELIM_Y) by {
        if i == 0 {
        } else if i == 1 {
        } else {
            let p = attrs[i - 2];
            assert(mp[i] == attr_word(p));
            lemma_concat_free(p.0, seq!['='], DELIM_Y);
            lemma_concat_free(p.0 + seq!['='], p.1, DELIM_Y);
        }
    }
    lemma_split_join(mp, DELIM_Y);
    assert(mp.first().len() == 0);
    assert(mp.len() >= 2);
    assert(mp.skip(2) =~= attrs.map_values(|p: (Seq<char>, Seq<char>)| attr_word(p)));
    lemma_parse_attrs_inv(attrs);
    assert(mp[1] == name);
}

proof fn lemma_parse_attrs_inv(attrs: Seq<(Seq<char>, Seq<char>)>)
    requires
        forall|i: int| 0 <= i < attrs.len() ==> !(#[trigger] attrs[i]).0.contains('='),
    ensures
        parse_attrs(attrs.map_values(|p: (Seq<char>, Seq<char>)| attr_word(p))) == Ok::<_, ParseErrV>(attrs),
    decreases attrs.len(),
{
    let words = attrs.map_values(|p: (Seq<char>, Seq<char>)| attr_word(p));
    if attrs.len() == 0 {
        assert(words =~= Seq::<Seq<char>>::empty());
        assert(parse_attrs(words) == Ok::<_, ParseErrV>(Seq::<(Seq<char>, Seq<char>)>::empty()));
        assert(Seq::<(Seq<char>, Seq<char>)>::empty() =~= attrs);
    } else {
        let p = attrs.first();
        let w = attr_word(p);
        assert(words.first() == w);
        assert(w[p.0.len() as int] == '=');
        assert(w.contains('='));
        assert forall|j: int| 0 <= j < p.0.len() implies w[j] != '=' by {
            assert(w[j] == p.0[j]);
        }
        lemma_first_idx_agrees(w, '=', p.0.len() as int);
        assert(w.take(p.0.len() as int) =~= p.0);
        assert(w.skip(p.0.len() as int + 1) =~= p.1);
        assert forall|i: int| 0 <= i < attrs.drop_first().len() implies !(
        #[trigger] attrs.drop_first()[i]).0.contains('=') by {
            assert(attrs.drop_first()[i] == attrs[i + 1]);
        }
        lemma_parse_attrs_inv(attrs.drop_first());
        assert(words.drop_first() =~= attrs.drop_first().map_values(
            |q: (Seq<char>, Seq<char>)| attr_word(q),
        )) by {
            assert forall|i: int| 0 <= i < words.len() - 1 implies words.drop_first()[i]
                == attrs.drop_first().map_values(|q: (Seq<char>, Seq<char>)| attr_word(q))[i] by {
                assert(words.drop_first()[i] == words[i + 1]);
                assert(attrs.drop_first()[i] == attrs[i + 1]);
            }
        }
        assert(seq![(p.0, p.1)] + attrs.drop_first() =~= attrs) by {
            assert(p == (p.0, p.1));
        }
    }
}

proof fn lemma_attrs_text_free(attrs: Seq<(Seq<char>, Seq<char>)>)
    requires
        forall|i: int|
            0 <= i < attrs.len() ==> !(#[trigger] attrs[i]).0.contains(DELIM_X)
                && !attrs[i].1.contains(DELIM_X),
    ensures
        !attrs_text(attrs).contains(DELIM_X),
    decreases attrs.len(),
{
    let c = DELIM_X;
    if attrs.len() == 0 {
        assert(!attrs_text(attrs).contains(c));
    } else {
        assert forall|i: int| 0 <= i < attrs.drop_first().len() implies !(
        #[trigger] attrs.drop_first()[i]).0.contains(c) && !attrs.drop_first()[i].1.contains(c) by {
            assert(attrs.drop_first()[i] == attrs[i + 1]);
        }
        lemma_attrs_text_free(attrs.drop_first());
        let p = attrs.first();
        assert(!seq![DELIM_Y].contains(c));
        assert(!seq!['='].contains(c));
        lemma_concat_free(seq![DELIM_Y], p.0, c);
        lemma_concat_free(seq![DELIM_Y] + p.0, seq!['='], c);
        lemma_concat_free(seq![DELIM_Y] + p.0 + seq!['='], p.1, c);
        lemma_concat_free(
            seq![DELIM_Y] + p.0 + seq!['='] + p.1,
            attrs_text(attrs.drop_first()),
            c,
        );
    }
}

/// The chunk sequence a node's wire text splits into.
pub open spec fn chunks_node(n: NodeV) -> Seq<Seq<char>>
    decreases n,
{
    match n {
        NodeV::Text(s) => seq![s],
        NodeV::Tag { name, attrs, children } => seq![Seq::<char>::empty(), marker_body(name, attrs)]
            + chunks_forest(children) + seq![seq![DELIM_Y], Seq::<char>::empty()],
    }
}

pub open spec fn chunks_forest(f: Seq<NodeV>) -> Seq<Seq<char>>
    decreases f,
{
    if f.len() == 0 {
        seq![Seq::<char>::empty()]
    } else {
        fuse(chunks_node(f.first()), chunks_forest(f.drop_first()))
    }
}

proof fn lemma_chunks_len(f: Seq<NodeV>)
    ensures
        chunks_forest(f).len() >= 1,
        f.len() > 0 ==> chunks_node(f.first()).len() >= 1,
        f.len() > 0 && f.first() is Tag ==> chunks_node(f.first()).len() >= 5
            && chunks_node(f.first()).first() == Seq::<char>::empty(),
    decreases f,
{
    if f.len() > 0 {
        lemma_chunks_len(f.drop_first());
        match f.first() {
            NodeV::Tag { children, .. } => {
                lemma_chunks_len(children);
            },
            NodeV::Text(_) => {},
        }
    }
}

/// Splitting the wire text of a well-formed forest yields its chunks.
proof fn lemma_split_wire_node(n: NodeV)
    requires
        wf_node(n),
    ensures
        split_at(wire_node(n), DELIM_X) == chunks_node(n),
    decreases n,
{
    match n {
        NodeV::Text(s) => {
            lemma_split_sep_free(s, DELIM_X);
        },
        NodeV::Tag { name, attrs, children } => {
            let body = marker_body(name, attrs);
            assert(!body.contains(DELIM_X)) by {
                lemma_attrs_text_free(attrs);
                assert(!seq![DELIM_Y].contains(DELIM_X));
                lemma_concat_free(seq![DELIM_Y], name, DELIM_X);
                lemma_concat_free(seq![DELIM_Y] + name, attrs_text(attrs), DELIM_X);
            }
            lemma_split_wire_forest(children);
            let e = Seq::<char>::empty();
            let sx = seq![DELIM_X];
            // split of the single delimiter
            assert(sx.drop_last() =~= e);
            assert(split_at(e, DELIM_X) =~= seq![e]);
            assert(split_at(sx, DELIM_X) =~= seq![e, e]);
            // the marker: [X] + body + [X]
            lemma_split_sep_free(body, DELIM_X);
            lemma_split_concat(sx, body, DELIM_X);
            assert(split_at(sx + body, DELIM_X) =~~= seq![e, body]);
            lemma_split_concat(sx + body, sx, DELIM_X);
            assert(split_at(sx + body + sx, DELIM_X) =~~= seq![e, body, e]);
            // the children
            lemma_split_concat(sx + body + sx, wire_forest(children), DELIM_X);
            lemma_chunks_len(children);
            let cf = chunks_forest(children);
            assert(split_at(sx + body + sx + wire_forest(children), DELIM_X) =~~= seq![e, body] + cf) by {
                assert(fuse(seq![e, body, e], cf) =~~= seq![e, body] + seq![e + cf.first()]
                    + cf.drop_first());
                assert(e + cf.first() =~= cf.first());
                assert(seq![cf.first()] + cf.drop_first() =~= cf);
            }
            // the close marker: [X, Y, X]
            let close = seq![DELIM_X, DELIM_Y, DELIM_X];
            assert(split_at(close, DELIM_X) =~~= seq![e, seq![DELIM_Y], e]) by {
                assert(close.drop_last() =~= seq![DELIM_X, DELIM_Y]);
                assert(seq![DELIM_X, DELIM_Y].drop_last() =~= sx);
                assert(seq![DELIM_X, DELIM_Y].last() == DELIM_Y);
                assert(split_at(seq![DELIM_X, DELIM_Y], DELIM_X) =~~= seq![e, seq![DELIM_Y]]);
            }
            lemma_split_concat(sx + body + sx + wire_forest(children), close, DELIM_X);
            assert(wire_node(n) == sx + body + sx + wire_forest(children) + close);
            assert(split_at(wire_node(n), DELIM_X) =~~= chunks_node(n)) by {
                let left = seq![e, body] + cf;
                assert(fuse(left, seq![e, seq![DELIM_Y], e]) =~~= left.drop_last() + seq![
                    left.last() + e,
                ] + seq![seq![DELIM_Y], e]);
                assert(left.last() + e =~= left.last());
                assert(left.drop_last().push(left.last()) =~= left);
                assert(chunks_node(n) =~= left + seq![seq![DELIM_Y], e]);
            }
        },
    }
}

proof fn lemma_split_wire_forest(f: Seq<NodeV>)
    requires
        wf_forest(f),
    ensures
        split_at(wire_forest(f), DELIM_X) == chunks_forest(f),
    decreases f,
{
    if f.len() == 0 {
        assert(wire_forest(f) =~= Seq::<char>::empty());
        assert(split_at(wire_forest(f), DELIM_X) =~= seq![Seq::<char>::empty()]);
    } else {
        lemma_split_wire_node(f.first());
        lemma_split_wire_forest(f.drop_first());
        lemma_split_concat(wire_node(f.first()), wire_forest(f.drop_first()), DELIM_X);
    }
}

/// Where a whole forest ends up when its chunks are folded: appended to the
/// innermost open tag, or to the finished forest when none is open.
pub open spec fn append_nodes(stack: Seq<FrameV>, done: Seq<NodeV>, f: Seq<NodeV>) -> (
    Seq<FrameV>,
    Seq<NodeV>,
) {
    if stack.len() == 0 {
        (stack, done + f)
    } else {
        let top = stack.last();
        (stack.update(stack.len() - 1, FrameV { nodes: top.nodes + f, ..top }), done)
    }
}

proof fn lemma_append_nodes_empty(stack: Seq<FrameV>, done: Seq<NodeV>)
    ensures
        append_nodes(stack, done, Seq::empty()) == (stack, done),
{
    if stack.len() == 0 {
        assert(done + Seq::<NodeV>::empty() =~= done);
    } else {
        let top = stack.last();
        assert(top.nodes + Seq::<NodeV>::empty() =~= top.nodes);
        assert(FrameV { nodes: top.nodes + Seq::<NodeV>::empty(), ..top } =~= top);
        assert(stack.update(stack.len() - 1, FrameV {
            nodes: top.nodes + Seq::<NodeV>::empty(),
            ..top
        }) =~= stack);
    }
}

proof fn lemma_append_nodes_step(stack: Seq<FrameV>, done: Seq<NodeV>, n: NodeV, rest: Seq<NodeV>)
    ensures
        ({
            let sd = push_node_v(stack, done, n);
            append_nodes(sd.0, sd.1, rest) == append_nodes(stack, done, seq![n] + rest)
        }),
{
    let sd = push_node_v(stack, done, n);
    if stack.len() == 0 {
        assert(sd.1 + rest =~= done + (seq![n] + rest));
        assert(append_nodes(sd.0, sd.1, rest) =~~= append_nodes(stack, done, seq![n] + rest));
    } else {
        let top = stack.last();
        let top1 = FrameV { nodes: top.nodes.push(n), ..top };
        assert(sd.0 == stack.update(stack.len() - 1, top1));
        assert(sd.0.len() == stack.len());
        assert(sd.0.last() == top1);
        assert(top1.nodes + rest =~= top.nodes + (seq![n] + rest));
        assert(FrameV { nodes: top1.nodes + rest, ..top1 } =~= FrameV {
            nodes: top.nodes + (seq![n] + rest),
            ..top
        });
        assert(sd.0.update(sd.0.len() - 1, FrameV { nodes: top1.nodes + rest, ..top1 })
            =~= stack.update(stack.len() - 1, FrameV { nodes: top.nodes + (seq![n] + rest), ..top }));
        assert(append_nodes(sd.0, sd.1, rest) =~~= append_nodes(stack, done, seq![n] + rest));
    }
}


/// The chunk-by-chunk walk over one tag node, given that folding the
/// children's chunks and the remaining siblings' chunks behaves as the
/// recursion states.
#[verifier::rlimit(100)]
#[verifier::spinoff_prover]
proof fn lemma_fold_wire_tag(
    f: Seq<NodeV>,
    stack: Seq<FrameV>,
    done: Seq<NodeV>,
    tail: Seq<Seq<char>>,
    name: Seq<char>,
    attrs: Seq<(Seq<char>, Seq<char>)>,
    children: Seq<NodeV>,
)
    requires
        wf_forest(f),
        f.len() > 0,
        f.first() == (NodeV::Tag { name, attrs, children }),
        ({
            let frame = FrameV { name, attrs, nodes: Seq::empty() };
            let tailc = seq![seq![DELIM_Y]] + chunks_forest(f.drop_first()) + tail;
            let sd1 = append_nodes(stack.push(frame), done, children);
            fold_chunks(stack.push(frame), done, chunks_forest(children) + tailc, true)
                == fold_chunks(sd1.0, sd1.1, tailc, false)
        }),
        ({
            let sd2 = push_node_v(stack, done, NodeV::Tag { name, attrs, children });
            let sd3 = append_nodes(sd2.0, sd2.1, f.drop_first());
            fold_chunks(sd2.0, sd2.1, chunks_forest(f.drop_first()) + tail, true) == fold_chunks(
                sd3.0,
                sd3.1,
                tail,
                false,
            )
        }),
    ensures
        fold_chunks(stack, done, chunks_forest(f) + tail, true) == fold_chunks(
            append_nodes(stack, done, f).0,
            append_nodes(stack, done, f).1,
            tail,
            false,
        ),
{
    let e = Seq::<char>::empty();
    let rest = f.drop_first();
    lemma_chunks_len(f);
    lemma_chunks_len(rest);
    let cfr = chunks_forest(rest);
    assert(wf_node(f.first()));
                assert(f.first() == (NodeV::Tag { name, attrs, children }));
                assert(wf_node(NodeV::Tag { name, attrs, children }));
                let body = marker_body(name, attrs);
                let cfc = chunks_forest(children);
                assert(chunks_forest(f) =~= seq![e, body] + cfc + seq![seq![DELIM_Y]] + cfr) by {
                    let cn = chunks_node(f.first());
                    assert(cn == seq![e, body] + cfc + seq![seq![DELIM_Y], e]);
                    assert(cn.drop_last() =~= seq![e, body] + cfc + seq![seq![DELIM_Y]]);
                    assert(cn.last() == e);
                    assert(e + cfr.first() =~= cfr.first());
                    assert(fuse(cn, cfr) =~= cn.drop_last() + seq![cfr.first()] + cfr.drop_first());
                    assert(seq![cfr.first()] + cfr.drop_first() =~= cfr);
                }
                // step 1: the empty text chunk before the marker
                let all = chunks_forest(f) + tail;
                assert(all.first() == e);
                let after1 = seq![body] + cfc + seq![seq![DELIM_Y]] + cfr + tail;
                assert(all.drop_first() =~= after1);
                // step 2: the open marker
                assert(after1.len() >= 4);
                assert(after1.first() == body);
                assert(body != seq![DELIM_Y]) by {
                    if name.len() > 0 {
                        assert(body.len() >= 2);
                    } else {
                        assert(attrs.len() > 0);
                        assert(attrs_text(attrs).len() >= 1) by {
                            assert(attrs_text(attrs) == seq![DELIM_Y] + attrs.first().0 + seq!['=']
                                + attrs.first().1 + attrs_text(attrs.drop_first()));
                        }
                        assert(body.len() >= 2);
                    }
                }
                lemma_parse_marker_inv(name, attrs);
                let frame = FrameV { name, attrs, nodes: Seq::empty() };
                let after2 = cfc + (seq![seq![DELIM_Y]] + cfr + tail);
                assert(after1.drop_first() =~= after2);
                // step 3: the children
                assert(nsize(f.first()) == 1 + nfsize(children));
                let sd1 = append_nodes(stack.push(frame), done, children);
                assert(sd1.0 =~= stack.push(FrameV { name, attrs, nodes: children })) by {
                    assert(stack.push(frame).last() == frame);
                    assert(frame.nodes + children =~= children);
                    assert(FrameV { nodes: frame.nodes + children, ..frame } =~= FrameV {
                        name,
                        attrs,
                        nodes: children,
                    });
                    assert(stack.push(frame).update(stack.len() as int, FrameV {
                        nodes: frame.nodes + children,
                        ..frame
                    }) =~= stack.push(FrameV { name, attrs, nodes: children }));
                }
                assert(sd1.1 == done);
                // step 4: the close marker pops the finished tag
                let after3 = seq![seq![DELIM_Y]] + cfr + tail;
                assert(after3.len() >= 2);
                assert(after3.first() == seq![DELIM_Y]);
                let stack2 = stack.push(FrameV { name, attrs, nodes: children });
                assert(stack2.len() > 0);
                assert(stack2.last() == (FrameV { name, attrs, nodes: children }));
                assert(stack2.drop_last() =~= stack);
                let node = NodeV::Tag { name, attrs, children };
                assert(node == f.first());
                let sd2 = push_node_v(stack, done, node);
                assert(after3.drop_first() =~= cfr + tail);
                // step 5: the rest of the forest
                lemma_append_nodes_step(stack, done, node, rest);
                assert(seq![node] + rest =~= f);
                // the chain of fold steps, one per chunk consumed
                assert(fold_chunks(stack, done, all, true) == fold_chunks(stack, done, after1, false));
                assert(fold_chunks(stack, done, after1, false) == fold_chunks(
                    stack.push(frame),
                    done,
                    after2,
                    true,
                ));
                assert(fold_chunks(stack.push(frame), done, after2, true) == fold_chunks(
                    sd1.0,
                    sd1.1,
                    after3,
                    false,
                ));
                assert(fold_chunks(sd1.0, sd1.1, after3, false) == fold_chunks(
                    sd2.0,
                    sd2.1,
                    cfr + tail,
                    true,
                )) by {
                    assert(sd1.0 == stack2);
                    assert(sd1.1 == done);
                    assert(stack2.drop_last() =~= stack);
                    assert(stack2.last().nodes == children);
                }
                assert(fold_chunks(sd2.0, sd2.1, cfr + tail, true) == fold_chunks(
                    append_nodes(sd2.0, sd2.1, rest).0,
                    append_nodes(sd2.0, sd2.1, rest).1,
                    tail,
                    false,
                ));
}

/// Folding the chunks of a well-formed forest, then a tail at marker
/// position, appends exactly the forest's nodes and goes on with the tail.
#[verifier::rlimit(100)]
#[verifier::spinoff_prover]
proof fn lemma_fold_wire(f: Seq<NodeV>, stack: Seq<FrameV>, done: Seq<NodeV>, tail: Seq<Seq<char>>)
    requires
        wf_forest(f),
    ensures
        fold_chunks(stack, done, chunks_forest(f) + tail, true) == fold_chunks(
            append_nodes(stack, done, f).0,
            append_nodes(stack, done, f).1,
            tail,
            false,
        ),
    decreases nfsize(f),
{
    let e = Seq::<char>::empty();
    if f.len() == 0 {
        lemma_append_nodes_empty(stack, done);
        assert(chunks_forest(f) + tail =~= seq![e] + tail);
        assert((seq![e] + tail).first() == e);
        assert((seq![e] + tail).drop_first() =~= tail);
    } else {
        lemma_nfsize_first(f);
        let rest = f.drop_first();
        lemma_chunks_len(f);
        lemma_chunks_len(rest);
        let cfr = chunks_forest(rest);
        assert(wf_node(f.first()));
        match f.first() {
            NodeV::Text(s) => {
                assert(f.first() == NodeV::Text(s));
                assert(wf_node(NodeV::Text(s)));
                assert(cfr.first() == e) by {
                    if rest.len() > 0 {
                        assert(!(f[1] is Text));
                        assert(rest.first() == f[1]);
                        assert(chunks_node(rest.first()).len() >= 5);
                        assert(chunks_node(rest.first()).first() == e);
                        assert(fuse(chunks_node(rest.first()), chunks_forest(rest.drop_first())).first()
                            == chunks_node(rest.first()).drop_last()[0]);
                    }
                }
                assert(chunks_forest(f) =~= seq![s] + cfr.drop_first()) by {
                    assert(chunks_node(f.first()) == seq![s]);
                    assert(fuse(seq![s], cfr) =~= seq![s + cfr.first()] + cfr.drop_first());
                    assert(s + cfr.first() =~= s);
                }
                let sd = push_node_v(stack, done, NodeV::Text(s));
                assert((chunks_forest(f) + tail).first() == s);
                assert(s.len() > 0);
                assert((chunks_forest(f) + tail).drop_first() =~= cfr.drop_first() + tail);
                lemma_fold_wire(rest, sd.0, sd.1, tail);
                assert((cfr + tail).first() == e);
                assert((cfr + tail).drop_first() =~= cfr.drop_first() + tail);
                assert(fold_chunks(sd.0, sd.1, cfr + tail, true) == fold_chunks(
                    sd.0,
                    sd.1,
                    cfr.drop_first() + tail,
                    false,
                ));
                lemma_append_nodes_step(stack, done, NodeV::Text(s), rest);
                assert(seq![NodeV::Text(s)] + rest =~= f);
                assert(fold_chunks(stack, done, chunks_forest(f) + tail, true) == fold_chunks(
                    sd.0,
                    sd.1,
                    cfr.drop_first() + tail,
                    false,
                ));
            },
            NodeV::Tag { name, attrs, children } => {
                assert(nsize(f.first()) == 1 + nfsize(children)) by {
                    assert(f.first() == (NodeV::Tag { name, attrs, children }));
                }
                let frame = FrameV { name, attrs, nodes: Seq::empty() };
                let tailc = seq![seq![DELIM_Y]] + chunks_forest(rest) + tail;
                lemma_fold_wire(children, stack.push(frame), done, tailc);
                let node = NodeV::Tag { name, attrs, children };
                let sd2 = push_node_v(stack, done, node);
                lemma_fold_wire(rest, sd2.0, sd2.1, tail);
                lemma_fold_wire_tag(f, stack, done, tail, name, attrs, children);
            },
        }
    }
}

/// Round trip: a well-formed forest, serialized then parsed, is restored
/// exactly.
pub proof fn lemma_round_trip(f: Seq<NodeV>)
    requires
        wf_forest(f),
    ensures
        spec_parse(wire_forest(f)) == Ok::<_, ParseErrV>(f),
{
    lemma_split_wire_forest(f);
    lemma_fold_wire(f, Seq::empty(), Seq::empty(), Seq::empty());
    assert(chunks_forest(f) + Seq::<Seq<char>>::empty() =~= chunks_forest(f));
    let sd = append_nodes(Seq::empty(), Seq::empty(), f);
    assert(sd.0.len() == 0);
    assert(sd.1 =~= f);
    assert(fold_chunks(sd.0, sd.1, Seq::empty(), false) == Ok::<_, ParseErrV>(sd.1));
}

} // verus!
