//! The incremental emitter. It keeps a stack of open style regions and a
//! single tooltip slot. Each physical output line lives in its own inline
//! container: a line break closes every open region innermost-first, ends
//! the container, opens a new one, and reopens every region outermost-first.
//! At most one caption ships per run of text; a caption arriving after
//! shipout, or a line break inside an open tooltip, is a caller's violation
//! and is reported, never repaired.

use vstd::prelude::*;
use crate::ir::{TagV, TreeV, forest_size, tree_size, lemma_forest_size_first};
use crate::symbols::{RenderError, SymbolTable, SymV, rs_spec, table_wf};
use crate::text::{split_at, push_char, lemma_split_sep_free};

verus! {

/// An open region: a style span with its class.
#[derive(Debug, Clone, PartialEq, Eq)]
pub enum Tag {
    SpanClass(String),
}

impl View for Tag {
    type V = Seq<char>;

    open spec fn view(&self) -> Seq<char> {
        match self {
            Tag::SpanClass(s) => s@,
        }
    }
}

#[derive(Debug, PartialEq, Eq)]
enum TooltipState {
    Inactive,
    Pending(String),
    Emitted,
}

/// The tooltip slot's mathematical state.
#[verifier::ext_equal]
pub enum TooltipV {
    Inactive,
    Pending(Seq<char>),
    Emitted,
}

/// The emitter's mathematical state.
#[verifier::ext_equal]
pub struct EmitterV {
    pub out: Seq<char>,
    pub stack: Seq<Seq<char>>,
    pub tooltip: TooltipV,
    pub depth: nat,
    pub root: bool,
}

#[derive(Debug, PartialEq, Eq)]
pub enum EmitError {
    /// A close without a matching open.
    StackUnderflow,
    /// A second caption after text already shipped under the first.
    NestedTooltipAfterShipout,
    /// A tooltip scope closed before any text shipped its caption.
    TooltipNotShipped,
    /// More tooltip scope closes than opens.
    TooltipDepthUnderflow,
    /// A line break while a tooltip is open.
    NewlineInsideTooltip,
    /// A text fragment names a symbol the table lacks.
    UnknownSymbol(String),
}

#[verifier::ext_equal]
pub enum EmitErrV {
    StackUnderflow,
    NestedTooltipAfterShipout,
    TooltipNotShipped,
    TooltipDepthUnderflow,
    NewlineInsideTooltip,
    UnknownSymbol(Seq<char>),
}

impl View for EmitError {
    type V = EmitErrV;

    open spec fn view(&self) -> EmitErrV {
        match self {
            EmitError::StackUnderflow => EmitErrV::StackUnderflow,
            EmitError::NestedTooltipAfterShipout => EmitErrV::NestedTooltipAfterShipout,
            EmitError::TooltipNotShipped => EmitErrV::TooltipNotShipped,
            EmitError::TooltipDepthUnderflow => EmitErrV::TooltipDepthUnderflow,
            EmitError::NewlineInsideTooltip => EmitErrV::NewlineInsideTooltip,
            EmitError::UnknownSymbol(s) => EmitErrV::UnknownSymbol(s@),
        }
    }
}

pub open spec fn open_markup(class: Seq<char>) -> Seq<char> {
    "<span class=\""@ + class + "\">"@
}

pub open spec fn close_markup() -> Seq<char> {
    "</span>"@
}

/// The closing markup of `n` stacked regions (each region closes alike).
pub open spec fn closes_n(n: nat) -> Seq<char>
    decreases n,
{
    if n == 0 {
        Seq::empty()
    } else {
        close_markup() + closes_n((n - 1) as nat)
    }
}

/// The opening markup of a whole stack, outermost first.
pub open spec fn open_seq(stack: Seq<Seq<char>>) -> Seq<char>
    decreases stack.len(),
{
    if stack.len() == 0 {
        Seq::empty()
    } else {
        open_markup(stack.first()) + open_seq(stack.drop_first())
    }
}

/// One text fragment, written in the current tooltip context: the first
/// fragment under a pending caption ships it; later fragments (and all
/// fragments outside a tooltip) are substituted and escaped plainly.
pub open spec fn step_write_oneline(st: EmitterV, s: Seq<char>, tbl: Seq<SymV>) -> Result<
    EmitterV,
    EmitErrV,
> {
    match st.tooltip {
        TooltipV::Inactive => match rs_spec(s, true, tbl) {
            Ok(t) => Ok(EmitterV { out: st.out + t, ..st }),
            Err(n) => Err(EmitErrV::UnknownSymbol(n)),
        },
        TooltipV::Pending(cap) => match rs_spec(s, false, tbl) {
            Ok(t) => Ok(
                EmitterV {
                    out: st.out + "<span class=\"has-tooltip\">"@ + t + "<span class=\"tooltip\">"@
                        + cap + "</span></span>"@,
                    tooltip: TooltipV::Emitted,
                    ..st
                },
            ),
            Err(n) => Err(EmitErrV::UnknownSymbol(n)),
        },
        TooltipV::Emitted => match rs_spec(s, false, tbl) {
            Ok(t) => Ok(EmitterV { out: st.out + t, ..st }),
            Err(n) => Err(EmitErrV::UnknownSymbol(n)),
        },
    }
}

/// A line break: fatal inside a tooltip; at the root it closes all open
/// regions, starts the next line container, and reopens them; in a nested
/// buffer it is a plain newline.
pub open spec fn step_newline(st: EmitterV) -> Result<EmitterV, EmitErrV> {
    if !(st.tooltip is Inactive) {
        Err(EmitErrV::NewlineInsideTooltip)
    } else if st.root {
        Ok(
            EmitterV {
                out: st.out + closes_n(st.stack.len()) + "</code><code>"@ + open_seq(st.stack),
                ..st
            },
        )
    } else {
        Ok(EmitterV { out: st.out + "\n"@, ..st })
    }
}

/// Writing text: its first line directly, every further line after a break.
pub open spec fn fold_lines(st: EmitterV, chunks: Seq<Seq<char>>, tbl: Seq<SymV>) -> Result<
    EmitterV,
    EmitErrV,
>
    decreases chunks.len(),
{
    if chunks.len() == 0 {
        Ok(st)
    } else {
        match step_newline(st) {
            Err(e) => Err(e),
            Ok(st1) => match step_write_oneline(st1, chunks.first(), tbl) {
                Err(e) => Err(e),
                Ok(st2) => fold_lines(st2, chunks.drop_first(), tbl),
            },
        }
    }
}

pub open spec fn step_write_text(st: EmitterV, s: Seq<char>, tbl: Seq<SymV>) -> Result<
    EmitterV,
    EmitErrV,
> {
    let chunks = split_at(s, '\n');
    match step_write_oneline(st, chunks.first(), tbl) {
        Err(e) => Err(e),
        Ok(st1) => fold_lines(st1, chunks.drop_first(), tbl),
    }
}

/// The document preamble a root emitter starts with, ending inside the
/// first line container.
pub open spec fn preamble_text() -> Seq<char> {
    "<!DOCTYPE html><html><head><meta charset=\"utf-8\"><link rel=\"stylesheet\" type=\"text/css\" href=\"../assets/isabelle.css\"></head><body><pre class=\"isabelle-code\"><code>"@
}

pub open spec fn epilogue_text() -> Seq<char> {
    "</code></pre></body></html>"@
}

/// The streaming emitter.
#[derive(Debug)]
pub struct HTMLOutput {
    out: String,
    tag_stack: Vec<Tag>,
    tooltip: TooltipState,
    tooltip_depth: usize,
    root: bool,
}

impl View for HTMLOutput {
    type V = EmitterV;

    closed spec fn view(&self) -> EmitterV {
        EmitterV {
            out: self.out@,
            stack: self.tag_stack@.map_values(|t: Tag| t@),
            tooltip: match self.tooltip {
                TooltipState::Inactive => TooltipV::Inactive,
                TooltipState::Pending(ref s) => TooltipV::Pending(s@),
                TooltipState::Emitted => TooltipV::Emitted,
            },
            depth: self.tooltip_depth as nat,
            root: self.root,
        }
    }
}

impl HTMLOutput {
    /// A root emitter for a whole document, its preamble already written.
    pub fn new_root() -> (r: HTMLOutput)
        ensures
            r@ == (EmitterV {
                out: preamble_text(),
                stack: Seq::empty(),
                tooltip: TooltipV::Inactive,
                depth: 0,
                root: true,
            }),
    {
        let mut w = HTMLOutput {
            out: String::new(),
            tag_stack: Vec::new(),
            tooltip: TooltipState::Inactive,
            tooltip_depth: 0,
            root: true,
        };
        w.out.append(
            "<!DOCTYPE html><html><head><meta charset=\"utf-8\"><link rel=\"stylesheet\" type=\"text/css\" href=\"../assets/isabelle.css\"></head><body><pre class=\"isabelle-code\"><code>",
        );
        proof {
            assert(w@ =~= EmitterV {
                out: preamble_text(),
                stack: Seq::empty(),
                tooltip: TooltipV::Inactive,
                depth: 0,
                root: true,
            });
        }
        w
    }

    /// A nested emitter writing a detached fragment, as the contents of a
    /// tooltip are rendered: no preamble, no per-line containers.
    pub fn new_nested() -> (r: HTMLOutput)
        ensures
            r@ == (EmitterV {
                out: Seq::empty(),
                stack: Seq::empty(),
                tooltip: TooltipV::Inactive,
                depth: 0,
                root: false,
            }),
    {
        let w = HTMLOutput {
            out: String::new(),
            tag_stack: Vec::new(),
            tooltip: TooltipState::Inactive,
            tooltip_depth: 0,
            root: false,
        };
        proof {
            assert(w@ =~= EmitterV {
                out: Seq::empty(),
                stack: Seq::empty(),
                tooltip: TooltipV::Inactive,
                depth: 0,
                root: false,
            });
        }
        w
    }

    /// Ends the document and hands the buffer out; only a root emitter has
    /// an epilogue to write.
    pub fn finish(self) -> (r: String)
        ensures
            r@ == self@.out + (if self@.root {
                epilogue_text()
            } else {
                Seq::<char>::empty()
            }),
    {
        let mut out = self.out;
        if self.root {
            out.append("</code></pre></body></html>");
        }
        out
    }

    /// Opens a style region and pushes it onto the stack.
    pub fn open_tag(&mut self, tag: Tag) -> (r: Result<(), EmitError>)
        ensures
            r is Ok,
            final(self)@ == (EmitterV {
                out: old(self)@.out + open_markup(tag@),
                stack: old(self)@.stack.push(tag@),
                ..old(self)@
            }),
    {
        let ghost tv = tag@;
        match &tag {
            Tag::SpanClass(class) => {
                self.out.append("<span class=\"");
                self.out.append(class.as_str());
                self.out.append("\">");
            },
        }
        self.tag_stack.push(tag);
        proof {
            assert(self.tag_stack@.map_values(|t: Tag| t@) =~= old(self)@.stack.push(tv));
            assert(self@ =~= EmitterV {
                out: old(self)@.out + open_markup(tv),
                stack: old(self)@.stack.push(tv),
                ..old(self)@
            });
        }
        Ok(())
    }

    /// Closes the innermost open region; closing with none open is the
    /// caller's violation.
    pub fn close_tag(&mut self) -> (r: Result<(), EmitError>)
        ensures
            match r {
                Ok(()) => old(self)@.stack.len() > 0 && final(self)@ == (EmitterV {
                    out: old(self)@.out + close_markup(),
                    stack: old(self)@.stack.drop_last(),
                    ..old(self)@
                }),
                Err(e) => e@ == EmitErrV::StackUnderflow && old(self)@.stack.len() == 0 && final(self)@ == old(self)@,
            },
    {
        if self.tag_stack.len() == 0 {
            proof {
                assert(self@.stack.len() == self.tag_stack@.len());
            }
            return Err(EmitError::StackUnderflow);
        }
        let _t = self.tag_stack.pop().unwrap();
        self.out.append("</span>");
        proof {
            assert(self.tag_stack@.map_values(|t: Tag| t@) =~= old(self)@.stack.drop_last());
            assert(self@ =~= EmitterV {
                out: old(self)@.out + close_markup(),
                stack: old(self)@.stack.drop_last(),
                ..old(self)@
            });
        }
        Ok(())
    }

    /// Opens a tooltip scope: a caption arriving while one is pending joins
    /// it on a new line; one arriving after shipout is the caller's
    /// violation.
    pub fn tooltip_html(&mut self, s: &str) -> (r: Result<(), EmitError>)
        requires
            old(self)@.depth < usize::MAX,
        ensures
            match r {
                Ok(()) => !(old(self)@.tooltip is Emitted) && final(self)@ == (EmitterV {
                    tooltip: match old(self)@.tooltip {
                        TooltipV::Inactive => TooltipV::Pending(s@),
                        TooltipV::Pending(cap) => TooltipV::Pending(cap.push('\n') + s@),
                        TooltipV::Emitted => TooltipV::Emitted,
                    },
                    depth: old(self)@.depth + 1,
                    ..old(self)@
                }),
                Err(e) => e@ == EmitErrV::NestedTooltipAfterShipout && old(self)@.tooltip is Emitted
                    && final(self)@ == old(self)@,
            },
    {
        match &mut self.tooltip {
            TooltipState::Emitted => Err(EmitError::NestedTooltipAfterShipout),
            TooltipState::Inactive => {
                self.tooltip = TooltipState::Pending(s.to_owned());
                self.tooltip_depth = self.tooltip_depth + 1;
                Ok(())
            },
            TooltipState::Pending(buf) => {
                push_char(buf, '\n');
                buf.append(s);
                self.tooltip_depth = self.tooltip_depth + 1;
                Ok(())
            },
        }
    }

    /// Closes a tooltip scope; its caption must have shipped with some text.
    pub fn tooltip_end(&mut self) -> (r: Result<(), EmitError>)
        ensures
            match r {
                Ok(()) => old(self)@.tooltip is Emitted && old(self)@.depth > 0 && final(self)@
                    == (EmitterV {
                    tooltip: if old(self)@.depth == 1 {
                        TooltipV::Inactive
                    } else {
                        TooltipV::Emitted
                    },
                    depth: (old(self)@.depth - 1) as nat,
                    ..old(self)@
                }),
                Err(e) => final(self)@ == old(self)@ && ((e@ == EmitErrV::TooltipNotShipped && !(old(self)@.tooltip is Emitted)) || (e@ == EmitErrV::TooltipDepthUnderflow && old(self)@.tooltip is Emitted && old(self)@.depth == 0)),
            },
    {
        match &self.tooltip {
            TooltipState::Emitted => {},
            _ => {
                return Err(EmitError::TooltipNotShipped);
            },
        }
        if self.tooltip_depth == 0 {
            return Err(EmitError::TooltipDepthUnderflow);
        }
        self.tooltip_depth = self.tooltip_depth - 1;
        if self.tooltip_depth == 0 {
            self.tooltip = TooltipState::Inactive;
        }
        Ok(())
    }

    /// One newline-free fragment.
    fn write_text_oneline(&mut self, s: &str, table: &SymbolTable) -> (r: Result<(), EmitError>)
        requires
            table_wf(table@),
        ensures
            match (r, step_write_oneline(old(self)@, s@, table@)) {
                (Ok(()), Ok(st)) => final(self)@ == st,
                (Err(e), Err(ev)) => e@ == ev && final(self)@ == old(self)@,
                _ => false,
            },
    {
        let with_tooltips = match &self.tooltip {
            TooltipState::Inactive => true,
            _ => false,
        };
        let mut frag = String::new();
        match crate::symbols::render_symbols(s, &mut frag, with_tooltips, table) {
            Err(RenderError::UnknownSymbol(n)) => {
                return Err(EmitError::UnknownSymbol(n));
            },
            Ok(()) => {},
        }
        let mut tt = TooltipState::Inactive;
        core::mem::swap(&mut self.tooltip, &mut tt);
        match tt {
            TooltipState::Pending(cap) => {
                self.tooltip = TooltipState::Emitted;
                self.out.append("<span class=\"has-tooltip\">");
                self.out.append(frag.as_str());
                self.out.append("<span class=\"tooltip\">");
                self.out.append(cap.as_str());
                self.out.append("</span></span>");
                Ok(())
            },
            TooltipState::Inactive => {
                self.out.append(frag.as_str());
                Ok(())
            },
            TooltipState::Emitted => {
                self.tooltip = TooltipState::Emitted;
                self.out.append(frag.as_str());
                Ok(())
            },
        }
    }

    /// A line break between fragments.
    fn handle_newline(&mut self) -> (r: Result<(), EmitError>)
        ensures
            match (r, step_newline(old(self)@)) {
                (Ok(()), Ok(st)) => final(self)@ == st,
                (Err(e), Err(ev)) => e@ == ev && final(self)@ == old(self)@,
                _ => false,
            },
    {
        match &self.tooltip {
            TooltipState::Inactive => {},
            _ => {
                return Err(EmitError::NewlineInsideTooltip);
            },
        }
        if self.root {
            let n = self.tag_stack.len();
            let ghost stack = self@.stack;
            let mut i: usize = n;
            proof {
                assert(stack.len() == n);
                assert(closes_n(0) =~= Seq::<char>::empty());
            }
            while i > 0
                invariant
                    i <= n,
                    n == self.tag_stack@.len(),
                    stack == self.tag_stack@.map_values(|t: Tag| t@),
                    self@ == (EmitterV { out: old(self)@.out + closes_n((n - i) as nat), ..old(self)@ }),
                decreases i,
            {
                self.out.append("</span>");
                i = i - 1;
                proof {
                    lemma_closes_n_snoc((n - i - 1) as nat);
                    assert(self@ =~= EmitterV {
                        out: old(self)@.out + closes_n((n - i) as nat),
                        ..old(self)@
                    });
                }
            }
            self.out.append("</code><code>");
            let ghost base = self@.out;
            let mut j: usize = 0;
            proof {
                assert(open_seq(stack.take(0)) =~= Seq::<char>::empty());
                assert(self@ =~= EmitterV { out: base + open_seq(stack.take(0)), ..old(self)@ });
            }
            while j < n
                invariant
                    j <= n,
                    n == self.tag_stack@.len(),
                    stack == self.tag_stack@.map_values(|t: Tag| t@),
                    stack.len() == n,
                    self@ == (EmitterV { out: base + open_seq(stack.take(j as int)), ..old(self)@ }),
                decreases n - j,
            {
                match &self.tag_stack[j] {
                    Tag::SpanClass(class) => {
                        let cl = class.clone();
                        self.out.append("<span class=\"");
                        self.out.append(cl.as_str());
                        self.out.append("\">");
                    },
                }
                proof {
                    assert(stack[j as int] == self.tag_stack@[j as int]@);
                    lemma_open_seq_snoc(stack.take(j as int), stack[j as int]);
                    assert(stack.take(j as int).push(stack[j as int]) =~= stack.take(j as int + 1));
                    assert(self@ =~= EmitterV {
                        out: base + open_seq(stack.take(j as int + 1)),
                        ..old(self)@
                    });
                }
                j += 1;
            }
            proof {
                assert(stack.take(n as int) =~= stack);
                assert(old(self)@.tooltip is Inactive);
                assert(old(self)@.root);
                assert(old(self)@.stack == stack);
                assert(step_newline(old(self)@) is Ok);
                assert(self@.out =~= old(self)@.out + closes_n(stack.len()) + "</code><code>"@
                    + open_seq(stack));
                assert(self@ =~~= step_newline(old(self)@)->Ok_0);
            }
            Ok(())
        } else {
            push_char(&mut self.out, '\n');
            proof {
                reveal_strlit("\n");
                assert(old(self)@.out + "\n"@ =~= old(self)@.out.push('\n'));
                assert(self@ =~~= step_newline(old(self)@)->Ok_0);
            }
            Ok(())
        }
    }

    /// Writes a fragment that may span lines: each line break closes the
    /// line's regions and reopens them on the next line.
    pub fn write_text(&mut self, s: &str, table: &SymbolTable) -> (r: Result<(), EmitError>)
        requires
            table_wf(table@),
        ensures
            match (r, step_write_text(old(self)@, s@, table@)) {
                (Ok(()), Ok(st)) => final(self)@ == st,
                (Err(e), Err(ev)) => e@ == ev,
                _ => false,
            },
    {
        let ghost chunks = split_at(s@, '\n');
        let lines = crate::text::split_str(s, '\n');
        let nl = lines.len();
        proof {
            assert(crate::text::seq_views(lines@) == chunks);
            assert(lines@[0]@ == chunks.first());
        }
        match self.write_text_oneline(lines[0].as_str(), table) {
            Err(e) => {
                return Err(e);
            },
            Ok(()) => {},
        }
        let mut i: usize = 1;
        proof {
            assert(chunks.skip(1) =~= chunks.drop_first());
        }
        while i < nl
            invariant
                1 <= i <= nl,
                nl == lines@.len(),
                nl == chunks.len(),
                crate::text::seq_views(lines@) == chunks,
                table_wf(table@),
                match fold_lines(self@, chunks.skip(i as int), table@) {
                    Ok(st) => step_write_text(old(self)@, s@, table@) == Ok::<EmitterV, EmitErrV>(st),
                    Err(e) => step_write_text(old(self)@, s@, table@) == Err::<EmitterV, EmitErrV>(e),
                },
            decreases nl - i,
        {
            proof {
                assert(chunks.skip(i as int).first() == chunks[i as int]);
                assert(chunks.skip(i as int).drop_first() =~= chunks.skip(i as int + 1));
                assert(lines@[i as int]@ == chunks[i as int]);
            }
            match self.handle_newline() {
                Err(e) => {
                    return Err(e);
                },
                Ok(()) => {},
            }
            match self.write_text_oneline(lines[i].as_str(), table) {
                Err(e) => {
                    return Err(e);
                },
                Ok(()) => {},
            }
            i += 1;
        }
        proof {
            assert(chunks.skip(nl as int) =~= Seq::<Seq<char>>::empty());
        }
        Ok(())
    }
}

proof fn lemma_closes_n_snoc(n: nat)
    ensures
        closes_n(n + 1) == closes_n(n) + close_markup(),
    decreases n,
{
    if n == 0 {
        assert(closes_n(1) =~= closes_n(0) + close_markup());
    } else {
        lemma_closes_n_snoc((n - 1) as nat);
        assert(closes_n(n + 1) =~= closes_n(n) + close_markup());
    }
}

proof fn lemma_open_seq_snoc(stack: Seq<Seq<char>>, x: Seq<char>)
    ensures
        open_seq(stack.push(x)) == open_seq(stack) + open_markup(x),
    decreases stack.len(),
{
    if stack.len() == 0 {
        assert(stack.push(x).drop_first() =~= Seq::<Seq<char>>::empty());
        assert(stack.push(x).first() == x);
        assert(open_seq(Seq::<Seq<char>>::empty()) =~= Seq::<char>::empty());
        assert(open_seq(stack.push(x)) =~= open_seq(stack) + open_markup(x));
    } else {
        lemma_open_seq_snoc(stack.drop_first(), x);
        assert(stack.push(x).drop_first() =~= stack.drop_first().push(x));
        assert(stack.push(x).first() == stack.first());
        assert(open_seq(stack.push(x)) =~= open_seq(stack) + open_markup(x));
    }
}

// ---------------------------------------------------------------------------
// Well-nested emission: driving the emitter with the operations of one
// canonicalized, newline-free line leaves the region stack exactly as it
// was and the tooltip slot closed — every marker opened within the line is
// closed within it. A marker carried across a line break reopens
// identically on the next line: that is `step_newline`, which closes the
// whole stack and reopens the same stack, unchanged.
// ---------------------------------------------------------------------------

/// One emitter operation.
pub enum EmitOp {
    Open(Seq<char>),
    Close,
    TooltipOpen(Seq<char>),
    TooltipEnd,
    Write(Seq<char>),
}

pub open spec fn step_op(st: EmitterV, op: EmitOp, tbl: Seq<SymV>) -> Result<EmitterV, EmitErrV> {
    match op {
        EmitOp::Open(c) => Ok(
            EmitterV { out: st.out + open_markup(c), stack: st.stack.push(c), ..st },
        ),
        EmitOp::Close => if st.stack.len() == 0 {
            Err(EmitErrV::StackUnderflow)
        } else {
            Ok(EmitterV { out: st.out + close_markup(), stack: st.stack.drop_last(), ..st })
        },
        EmitOp::TooltipOpen(cap) => match st.tooltip {
            TooltipV::Emitted => Err(EmitErrV::NestedTooltipAfterShipout),
            TooltipV::Inactive => Ok(
                EmitterV { tooltip: TooltipV::Pending(cap), depth: st.depth + 1, ..st },
            ),
            TooltipV::Pending(c0) => Ok(
                EmitterV { tooltip: TooltipV::Pending(c0.push('\n') + cap), depth: st.depth + 1, ..st },
            ),
        },
        EmitOp::TooltipEnd => if !(st.tooltip is Emitted) {
            Err(EmitErrV::TooltipNotShipped)
        } else if st.depth == 0 {
            Err(EmitErrV::TooltipDepthUnderflow)
        } else {
            Ok(
                EmitterV {
                    depth: (st.depth - 1) as nat,
                    tooltip: if st.depth == 1 {
                        TooltipV::Inactive
                    } else {
                        TooltipV::Emitted
                    },
                    ..st
                },
            )
        },
        EmitOp::Write(s) => step_write_text(st, s, tbl),
    }
}

pub open spec fn run_ops(st: EmitterV, ops: Seq<EmitOp>, tbl: Seq<SymV>) -> Result<EmitterV, EmitErrV>
    decreases ops.len(),
{
    if ops.len() == 0 {
        Ok(st)
    } else {
        match step_op(st, ops.first(), tbl) {
            Ok(st1) => run_ops(st1, ops.drop_first(), tbl),
            Err(e) => Err(e),
        }
    }
}

/// The operation stream a line's forest drives.
pub open spec fn ops_of_tree(t: TreeV) -> Seq<EmitOp>
    decreases t,
{
    match t {
        TreeV::Text(s) => seq![EmitOp::Write(s)],
        TreeV::Tag { tag, children } => match tag {
            TagV::SpanClass(c) => seq![EmitOp::Open(c)] + ops_of_forest(children) + seq![
                EmitOp::Close,
            ],
            TagV::Tooltip(cap) => seq![EmitOp::TooltipOpen(cap)] + ops_of_forest(children) + seq![
                EmitOp::TooltipEnd,
            ],
        },
    }
}

pub open spec fn ops_of_forest(f: Seq<TreeV>) -> Seq<EmitOp>
    decreases f,
{
    if f.len() == 0 {
        Seq::empty()
    } else {
        ops_of_tree(f.first()) + ops_of_forest(f.drop_first())
    }
}

/// No text leaf spans a newline.
pub open spec fn nl_free(f: Seq<TreeV>) -> bool
    decreases forest_size(f), 0int,
    via nl_free_dec
{
    if f.len() == 0 {
        true
    } else {
        (match f.first() {
            TreeV::Text(s) => !s.contains('\n'),
            TreeV::Tag { children, .. } => nl_free(children),
        }) && nl_free(f.drop_first())
    }
}

#[via_fn]
proof fn nl_free_dec(f: Seq<TreeV>) {
    if f.len() > 0 {
        lemma_forest_size_first(f);
        match f.first() {
            TreeV::Tag { tag, children } => {
                assert(tree_size(f.first()) == 1 + forest_size(children));
            },
            TreeV::Text(_) => {},
        }
    }
}

/// No node is empty: text leaves are non-empty and regions have children,
/// as pruning guarantees.
pub open spec fn solid(f: Seq<TreeV>) -> bool
    decreases forest_size(f), 0int,
    via solid_dec
{
    if f.len() == 0 {
        true
    } else {
        (match f.first() {
            TreeV::Text(s) => s.len() > 0,
            TreeV::Tag { children, .. } => children.len() > 0 && solid(children),
        }) && solid(f.drop_first())
    }
}

#[via_fn]
proof fn solid_dec(f: Seq<TreeV>) {
    if f.len() > 0 {
        lemma_forest_size_first(f);
        match f.first() {
            TreeV::Tag { tag, children } => {
                assert(tree_size(f.first()) == 1 + forest_size(children));
            },
            TreeV::Text(_) => {},
        }
    }
}


proof fn lemma_run_one(st: EmitterV, op: EmitOp, tbl: Seq<SymV>)
    ensures
        run_ops(st, seq![op], tbl) == step_op(st, op, tbl),
{
    assert(seq![op].first() == op);
    assert(seq![op].drop_first() =~= Seq::<EmitOp>::empty());
    match step_op(st, op, tbl) {
        Ok(st1) => {
            assert(run_ops(st1, Seq::<EmitOp>::empty(), tbl) == Ok::<EmitterV, EmitErrV>(st1));
        },
        Err(_) => {},
    }
}

proof fn lemma_run_concat(st: EmitterV, a: Seq<EmitOp>, b: Seq<EmitOp>, tbl: Seq<SymV>)
    ensures
        run_ops(st, a + b, tbl) == (match run_ops(st, a, tbl) {
            Ok(st1) => run_ops(st1, b, tbl),
            Err(e) => Err(e),
        }),
    decreases a.len(),
{
    if a.len() == 0 {
        assert(a + b =~= b);
    } else {
        assert((a + b).first() == a.first());
        assert((a + b).drop_first() =~= a.drop_first() + b);
        match step_op(st, a.first(), tbl) {
            Ok(st1) => {
                lemma_run_concat(st1, a.drop_first(), b, tbl);
            },
            Err(_) => {},
        }
    }
}

/// A newline-free write changes only the output text and ships a pending
/// caption.
proof fn lemma_step_write_nlfree(st: EmitterV, s: Seq<char>, tbl: Seq<SymV>)
    requires
        !s.contains('\n'),
    ensures
        match step_write_text(st, s, tbl) {
            Ok(st1) => st1.stack == st.stack && st1.root == st.root && st1.depth == st.depth
                && st1.tooltip == (match st.tooltip {
                TooltipV::Inactive => TooltipV::Inactive,
                TooltipV::Pending(_) => TooltipV::Emitted,
                TooltipV::Emitted => TooltipV::Emitted,
            }),
            Err(e) => e is UnknownSymbol,
        },
{
    lemma_split_sep_free(s, '\n');
    let chunks = split_at(s, '\n');
    assert(chunks.first() == s);
    assert(chunks.drop_first() =~= Seq::<Seq<char>>::empty());
}

/// Running a tooltip-free subtree preserves the stack and depth; a pending
/// caption ships on the first text, and a shipped state stays shipped.
proof fn lemma_run_tooltip_free(st: EmitterV, f: Seq<TreeV>, tbl: Seq<SymV>)
    requires
        crate::render::emit_ok(f, true),
        nl_free(f),
        solid(f),
    ensures
        match run_ops(st, ops_of_forest(f), tbl) {
            Ok(st1) => st1.stack == st.stack && st1.root == st.root && st1.depth == st.depth && (
            match st.tooltip {
                TooltipV::Inactive => st1.tooltip is Inactive,
                TooltipV::Pending(_) => if f.len() == 0 {
                    st1.tooltip == st.tooltip
                } else {
                    st1.tooltip is Emitted
                },
                TooltipV::Emitted => st1.tooltip is Emitted,
            }),
            Err(e) => e is UnknownSymbol,
        },
    decreases forest_size(f),
{
    if f.len() == 0 {
    } else {
        lemma_forest_size_first(f);
        let opsh = ops_of_tree(f.first());
        let opsr = ops_of_forest(f.drop_first());
        lemma_run_concat(st, opsh, opsr, tbl);
        match f.first() {
            TreeV::Text(s) => {
                assert(opsh == seq![EmitOp::Write(s)]);
                lemma_run_one(st, EmitOp::Write(s), tbl);
                lemma_step_write_nlfree(st, s, tbl);
                match step_write_text(st, s, tbl) {
                    Ok(st1) => {
                        lemma_run_tooltip_free(st1, f.drop_first(), tbl);
                    },
                    Err(_) => {},
                }
            },
            TreeV::Tag { tag, children } => {
                assert(tree_size(f.first()) == 1 + forest_size(children));
                match tag {
                    TagV::SpanClass(c) => {
                        let stO = EmitterV {
                            out: st.out + open_markup(c),
                            stack: st.stack.push(c),
                            ..st
                        };
                        assert(opsh =~= seq![EmitOp::Open(c)] + (ops_of_forest(children) + seq![
                            EmitOp::Close,
                        ]));
                        lemma_run_concat(
                            st,
                            seq![EmitOp::Open(c)],
                            ops_of_forest(children) + seq![EmitOp::Close],
                            tbl,
                        );
                        lemma_run_one(st, EmitOp::Open(c), tbl);
                        assert(run_ops(st, seq![EmitOp::Open(c)], tbl) == Ok::<EmitterV, EmitErrV>(stO));
                        lemma_run_concat(stO, ops_of_forest(children), seq![EmitOp::Close], tbl);
                        lemma_run_tooltip_free(stO, children, tbl);
                        match run_ops(stO, ops_of_forest(children), tbl) {
                            Ok(stC) => {
                                assert(stC.stack == st.stack.push(c));
                                assert(stC.stack.len() > 0);
                                lemma_run_one(stC, EmitOp::Close, tbl);
                                let stD = step_op(stC, EmitOp::Close, tbl)->Ok_0;
                                assert(stD.stack =~= st.stack);
                                match run_ops(st, opsh, tbl) {
                                    Ok(sth) => {
                                        lemma_run_tooltip_free(sth, f.drop_first(), tbl);
                                    },
                                    Err(_) => {},
                                }
                            },
                            Err(_) => {},
                        }
                    },
                    TagV::Tooltip(_) => {
                        assert(false);
                    },
                }
            },
        }
    }
}

/// Every marker opened within a line is closed within that line: running
/// the operations of one canonicalized (no nested tooltips, nothing empty),
/// line-split (newline-free) forest from a state between lines returns the
/// region stack and the tooltip slot to exactly where they were; the only
/// possible failure is an unknown symbol name, never a nesting violation.
/// Markers carried across a line break reopen identically on the next line
/// by `step_newline`, which keeps the stack unchanged.
pub proof fn lemma_line_emission_balanced(st: EmitterV, f: Seq<TreeV>, tbl: Seq<SymV>)
    requires
        crate::render::emit_ok(f, false),
        nl_free(f),
        solid(f),
        st.tooltip is Inactive,
        st.depth == 0,
    ensures
        match run_ops(st, ops_of_forest(f), tbl) {
            Ok(st1) => st1.stack == st.stack && st1.root == st.root && st1.tooltip is Inactive
                && st1.depth == 0,
            Err(e) => e is UnknownSymbol,
        },
    decreases forest_size(f),
{
    if f.len() == 0 {
    } else {
        lemma_forest_size_first(f);
        let opsh = ops_of_tree(f.first());
        let opsr = ops_of_forest(f.drop_first());
        lemma_run_concat(st, opsh, opsr, tbl);
        match f.first() {
            TreeV::Text(s) => {
                assert(opsh == seq![EmitOp::Write(s)]);
                lemma_run_one(st, EmitOp::Write(s), tbl);
                lemma_step_write_nlfree(st, s, tbl);
                match step_write_text(st, s, tbl) {
                    Ok(st1) => {
                        lemma_line_emission_balanced(st1, f.drop_first(), tbl);
                    },
                    Err(_) => {},
                }
            },
            TreeV::Tag { tag, children } => {
                assert(tree_size(f.first()) == 1 + forest_size(children));
                match tag {
                    TagV::SpanClass(c) => {
                        let stO = EmitterV {
                            out: st.out + open_markup(c),
                            stack: st.stack.push(c),
                            ..st
                        };
                        assert(opsh =~= seq![EmitOp::Open(c)] + (ops_of_forest(children) + seq![
                            EmitOp::Close,
                        ]));
                        lemma_run_concat(
                            st,
                            seq![EmitOp::Open(c)],
                            ops_of_forest(children) + seq![EmitOp::Close],
                            tbl,
                        );
                        lemma_run_one(st, EmitOp::Open(c), tbl);
                        assert(run_ops(st, seq![EmitOp::Open(c)], tbl) == Ok::<EmitterV, EmitErrV>(stO));
                        lemma_run_concat(stO, ops_of_forest(children), seq![EmitOp::Close], tbl);
                        lemma_line_emission_balanced(stO, children, tbl);
                        match run_ops(stO, ops_of_forest(children), tbl) {
                            Ok(stC) => {
                                assert(stC.stack.len() > 0);
                                lemma_run_one(stC, EmitOp::Close, tbl);
                                let stD = step_op(stC, EmitOp::Close, tbl)->Ok_0;
                                assert(stD.stack =~= st.stack);
                                match run_ops(st, opsh, tbl) {
                                    Ok(sth) => {
                                        lemma_line_emission_balanced(sth, f.drop_first(), tbl);
                                    },
                                    Err(_) => {},
                                }
                            },
                            Err(_) => {},
                        }
                    },
                    TagV::Tooltip(cap) => {
                        let stO = EmitterV { tooltip: TooltipV::Pending(cap), depth: 1, ..st };
                        assert(opsh =~= seq![EmitOp::TooltipOpen(cap)] + (ops_of_forest(children)
                            + seq![EmitOp::TooltipEnd]));
                        lemma_run_concat(
                            st,
                            seq![EmitOp::TooltipOpen(cap)],
                            ops_of_forest(children) + seq![EmitOp::TooltipEnd],
                            tbl,
                        );
                        lemma_run_one(st, EmitOp::TooltipOpen(cap), tbl);
                        assert(run_ops(st, seq![EmitOp::TooltipOpen(cap)], tbl) == Ok::<
                            EmitterV,
                            EmitErrV,
                        >(stO));
                        lemma_run_concat(stO, ops_of_forest(children), seq![EmitOp::TooltipEnd], tbl);
                        assert(crate::render::emit_ok(children, true));
                        assert(children.len() > 0);
                        lemma_run_tooltip_free(stO, children, tbl);
                        match run_ops(stO, ops_of_forest(children), tbl) {
                            Ok(stC) => {
                                assert(stC.tooltip is Emitted);
                                assert(stC.depth == 1);
                                lemma_run_one(stC, EmitOp::TooltipEnd, tbl);
                                let stD = step_op(stC, EmitOp::TooltipEnd, tbl)->Ok_0;
                                assert(stD.tooltip is Inactive);
                                assert(stD.depth == 0);
                                assert(stD.stack == st.stack);
                                match run_ops(st, opsh, tbl) {
                                    Ok(sth) => {
                                        lemma_line_emission_balanced(sth, f.drop_first(), tbl);
                                    },
                                    Err(_) => {},
                                }
                            },
                            Err(_) => {},
                        }
                    },
                }
            },
        }
    }
}

} // verus!
