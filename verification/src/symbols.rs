//! Symbol-escape substitution: text leaves may contain escaped symbol names
//! written `\<name>`; each is replaced at emission time by its glyph (or a
//! styled control span), optionally wrapped in a hover tooltip naming the
//! symbol and its abbreviations. All other text is escaped for markup.

use vstd::prelude::*;
use crate::text::{push_char, seq_views, str_eq, split_str};

verus! {

// ---------------------------------------------------------------------------
// Escaping.
// ---------------------------------------------------------------------------

/// How one character is written inside markup text.
pub open spec fn esc_char(c: char) -> Seq<char> {
    if c == '&' {
        "&amp;"@
    } else if c == '<' {
        "&lt;"@
    } else if c == '>' {
        "&gt;"@
    } else {
        seq![c]
    }
}

/// Markup-safe text: every `&`, `<`, `>` replaced by its named reference.
pub open spec fn escape_html(s: Seq<char>) -> Seq<char>
    decreases s.len(),
{
    if s.len() == 0 {
        Seq::empty()
    } else {
        esc_char(s.first()) + escape_html(s.drop_first())
    }
}

/// Relies on `html_escape::encode_text`: replaces every `&`, `<` and `>` of
/// the text by `&amp;`, `&lt;` and `&gt;` and keeps every other character.
#[verifier::external_body]
fn escape_text(s: &str) -> (r: String)
    ensures
        r@ == escape_html(s@),
{
    html_escape::encode_text(s).into_owned()
}

// ---------------------------------------------------------------------------
// The symbol table.
// ---------------------------------------------------------------------------

/// A named symbol: its glyph, if it has one, and its input abbreviations.
#[derive(Debug, PartialEq, Eq)]
pub struct Symbol {
    name: String,
    unicode: Option<char>,
    abbrev: Vec<String>,
}

/// The mathematical value of a symbol.
#[verifier::ext_equal]
pub struct SymV {
    pub name: Seq<char>,
    pub unicode: Option<char>,
    pub abbrev: Seq<Seq<char>>,
}

impl View for Symbol {
    type V = SymV;

    closed spec fn view(&self) -> SymV {
        SymV { name: self.name@, unicode: self.unicode, abbrev: seq_views(self.abbrev@) }
    }
}

/// A character allowed in a symbol name.
pub open spec fn is_sym_char(c: char) -> bool {
    ('a' <= c && c <= 'z') || ('A' <= c && c <= 'Z') || c == '_' || c == '^'
}

fn is_sym_char_exec(c: char) -> (r: bool)
    ensures
        r == is_sym_char(c),
{
    ('a' <= c && c <= 'z') || ('A' <= c && c <= 'Z') || c == '_' || c == '^'
}

/// A usable symbol: a non-empty name of symbol characters, and a leading
/// `^` wherever no glyph exists (such names render as control spans).
pub open spec fn sym_wf(s: SymV) -> bool {
    &&& s.name.len() > 0
    &&& forall|i: int| 0 <= i < s.name.len() ==> is_sym_char(#[trigger] s.name[i])
    &&& (s.unicode is None ==> s.name.first() == '^')
}

pub open spec fn table_wf(t: Seq<SymV>) -> bool {
    &&& forall|i: int| 0 <= i < t.len() ==> sym_wf(#[trigger] t[i])
    &&& forall|i: int, j: int| 0 <= i < j < t.len() ==> t[i].name != t[j].name
}

/// The first symbol of the given name.
pub open spec fn lookup_v(t: Seq<SymV>, name: Seq<char>) -> Option<SymV>
    decreases t.len(),
{
    if t.len() == 0 {
        None
    } else if t.first().name == name {
        Some(t.first())
    } else {
        lookup_v(t.drop_first(), name)
    }
}

/// The static name table the renderer consults.
#[derive(Debug, PartialEq, Eq)]
pub struct SymbolTable {
    syms: Vec<Symbol>,
}

impl View for SymbolTable {
    type V = Seq<SymV>;

    closed spec fn view(&self) -> Seq<SymV> {
        self.syms@.map_values(|s: Symbol| s@)
    }
}

impl SymbolTable {
    pub fn new() -> (r: SymbolTable)
        ensures
            r@ == Seq::<SymV>::empty(),
            table_wf(r@),
    {
        let t = SymbolTable { syms: Vec::new() };
        proof {
            assert(t@ =~= Seq::<SymV>::empty());
        }
        t
    }

    pub fn lookup(&self, name: &str) -> (r: Option<&Symbol>)
        ensures
            match r {
                Some(sym) => lookup_v(self@, name@) == Some(sym@),
                None => lookup_v(self@, name@) is None,
            },
    {
        let n = self.syms.len();
        proof {
            assert(self@.len() == n);
        }
        let mut i: usize = 0;
        proof {
            assert(self@.skip(0) =~= self@);
        }
        while i < n
            invariant
                i <= n,
                n == self.syms@.len(),
                self@.len() == n,
                self@ == self.syms@.map_values(|s: Symbol| s@),
                lookup_v(self@.skip(i as int), name@) == lookup_v(self@, name@),
                forall|k: int| 0 <= k < n ==> self@[k] == self.syms@[k]@,
            decreases n - i,
        {
            let sym = &self.syms[i];
            if str_eq(sym.name.as_str(), name) {
                proof {
                    assert(self@.skip(i as int).first() == self@[i as int]);
                    assert(self@[i as int].name == name@);
                }
                return Some(sym);
            }
            proof {
                assert(self@.skip(i as int).first() == self@[i as int]);
                assert(self@.skip(i as int).drop_first() =~= self@.skip(i as int + 1));
            }
            i += 1;
        }
        proof {
            assert(self@.skip(n as int) =~= Seq::<SymV>::empty());
        }
        None
    }
}

// ---------------------------------------------------------------------------
// Symbol markup.
// ---------------------------------------------------------------------------

/// The text of a symbol's own tooltip: its escaped name, then one line per
/// abbreviation.
pub open spec fn abbrevs_text(a: Seq<Seq<char>>) -> Seq<char>
    decreases a.len(),
{
    if a.len() == 0 {
        Seq::empty()
    } else {
        "\nabbreviation: "@ + a.first() + abbrevs_text(a.drop_first())
    }
}

pub open spec fn sym_tooltip_text(sym: SymV) -> Seq<char> {
    escape_html(seq!['\\', '<'] + sym.name + seq!['>'] + abbrevs_text(sym.abbrev))
}

pub open spec fn tooltip_span(sym: SymV) -> Seq<char> {
    "<span class=\"tooltip\">"@ + sym_tooltip_text(sym) + "</span>"@
}

/// The markup a symbol renders to, with or without its own tooltip.
pub open spec fn sym_markup(sym: SymV, with_tooltips: bool) -> Seq<char> {
    if with_tooltips {
        match sym.unicode {
            Some(c) => "<span class=\"has-tooltip\">"@ + seq![c] + tooltip_span(sym) + "</span>"@,
            None => "<span class=\"control has-tooltip\">"@ + sym.name.drop_first() + tooltip_span(sym)
                + "</span>"@,
        }
    } else {
        match sym.unicode {
            Some(c) => seq![c],
            None => "<span class=\"control\">"@ + sym.name.drop_first() + "</span>"@,
        }
    }
}

proof fn lemma_abbrevs_text_push(a: Seq<Seq<char>>, x: Seq<char>)
    ensures
        abbrevs_text(a.push(x)) == abbrevs_text(a) + ("\nabbreviation: "@ + x),
    decreases a.len(),
{
    if a.len() == 0 {
        assert(a.push(x).drop_first() =~= Seq::<Seq<char>>::empty());
        assert(a.push(x).first() == x);
        assert(abbrevs_text(Seq::<Seq<char>>::empty()) =~= Seq::<char>::empty());
        assert(abbrevs_text(a) =~= Seq::<char>::empty());
        assert(abbrevs_text(a.push(x)) =~= abbrevs_text(a) + ("\nabbreviation: "@ + x));
    } else {
        lemma_abbrevs_text_push(a.drop_first(), x);
        assert(a.push(x).drop_first() =~= a.drop_first().push(x));
        assert(a.push(x).first() == a.first());
        assert(abbrevs_text(a.push(x)) =~= abbrevs_text(a) + ("\nabbreviation: "@ + x));
    }
}

impl Symbol {
    /// Appends this symbol's markup to the output.
    pub fn write(&self, out: &mut String, with_tooltips: bool)
        requires
            sym_wf(self@),
        ensures
            final(out)@ == old(out)@ + sym_markup(self@, with_tooltips),
    {
        if with_tooltips {
            let mut t = String::new();
            push_char(&mut t, '\\');
            push_char(&mut t, '<');
            t.append(self.name.as_str());
            push_char(&mut t, '>');
            proof {
                assert(t@ =~= seq!['\\', '<'] + self@.name + seq!['>']);
            }
            let ghost base = t@;
            let na = self.abbrev.len();
            let mut j: usize = 0;
            proof {
                assert(seq_views(self.abbrev@).take(0) =~= Seq::<Seq<char>>::empty());
                assert(t@ =~= base + abbrevs_text(seq_views(self.abbrev@).take(0)));
            }
            while j < na
                invariant
                    j <= na,
                    na == self.abbrev@.len(),
                    t@ == base + abbrevs_text(seq_views(self.abbrev@).take(j as int)),
                decreases na - j,
            {
                let ghost av = seq_views(self.abbrev@);
                t.append("\nabbreviation: ");
                t.append(self.abbrev[j].as_str());
                proof {
                    assert(av.take(j as int + 1) =~= av.take(j as int).push(av[j as int]));
                    lemma_abbrevs_text_push(av.take(j as int), av[j as int]);
                    assert(av[j as int] == self.abbrev@[j as int]@);
                    assert(t@ =~= base + abbrevs_text(av.take(j as int + 1)));
                }
                j += 1;
            }
            proof {
                assert(seq_views(self.abbrev@).take(na as int) =~= seq_views(self.abbrev@));
                assert(t@ == base + abbrevs_text(self@.abbrev));
            }
            let esc = escape_text(t.as_str());
            proof {
                assert(esc@ == sym_tooltip_text(self@));
            }
            match &self.unicode {
                Some(c) => {
                    out.append("<span class=\"has-tooltip\">");
                    push_char(out, *c);
                    out.append("<span class=\"tooltip\">");
                    out.append(esc.as_str());
                    out.append("</span>");
                    out.append("</span>");
                    proof {
                        assert(final(out)@ =~= old(out)@ + sym_markup(self@, with_tooltips));
                    }
                },
                None => {
                    let len = self.name.as_str().unicode_len();
                    let tail = self.name.as_str().substring_char(1, len);
                    out.append("<span class=\"control has-tooltip\">");
                    out.append(tail);
                    out.append("<span class=\"tooltip\">");
                    out.append(esc.as_str());
                    out.append("</span>");
                    out.append("</span>");
                    proof {
                        assert(tail@ =~= self@.name.drop_first());
                        assert(final(out)@ =~= old(out)@ + sym_markup(self@, with_tooltips));
                    }
                },
            }
        } else {
            match &self.unicode {
                Some(c) => {
                    push_char(out, *c);
                    proof {
                        assert(final(out)@ =~= old(out)@ + sym_markup(self@, with_tooltips));
                    }
                },
                None => {
                    let len = self.name.as_str().unicode_len();
                    let tail = self.name.as_str().substring_char(1, len);
                    out.append("<span class=\"control\">");
                    out.append(tail);
                    out.append("</span>");
                    proof {
                        assert(tail@ =~= self@.name.drop_first());
                        assert(final(out)@ =~= old(out)@ + sym_markup(self@, with_tooltips));
                    }
                },
            }
        }
    }
}

// ---------------------------------------------------------------------------
// The scanner: finds each `\<name>` escape, renders its symbol, and escapes
// the text between escapes.
// ---------------------------------------------------------------------------

/// The end of the run of symbol characters starting at `k`.
pub open spec fn run_end(s: Seq<char>, k: int) -> int
    decreases s.len() - k,
{
    if k < 0 || k >= s.len() || !is_sym_char(s[k]) {
        k
    } else {
        run_end(s, k + 1)
    }
}

pub proof fn lemma_run_end(s: Seq<char>, k: int)
    requires
        0 <= k <= s.len(),
    ensures
        k <= run_end(s, k) <= s.len(),
        forall|j: int| k <= j < run_end(s, k) ==> is_sym_char(#[trigger] s[j]),
        run_end(s, k) < s.len() ==> !is_sym_char(s[run_end(s, k)]),
    decreases s.len() - k,
{
    if k >= s.len() || !is_sym_char(s[k]) {
    } else {
        lemma_run_end(s, k + 1);
    }
}

/// Whether a symbol escape `\<name>` begins at position `i`: a backslash,
/// an opening angle, a non-empty greedy run of symbol characters, and a
/// closing angle right after the run.
pub open spec fn match_at(s: Seq<char>, i: int) -> bool {
    &&& 0 <= i
    &&& i + 1 < s.len()
    &&& s[i] == '\\'
    &&& s[i + 1] == '<'
    &&& run_end(s, i + 2) > i + 2
    &&& run_end(s, i + 2) < s.len()
    &&& s[run_end(s, i + 2)] == '>'
}

/// The scan from position `i`, with unflushed plain text starting at `last`.
/// The error carries the name of an unknown symbol.
pub open spec fn rs_from(s: Seq<char>, last: int, i: int, wt: bool, tbl: Seq<SymV>) -> Result<
    Seq<char>,
    Seq<char>,
>
    decreases s.len() - i,
    via rs_from_dec
{
    if !(0 <= last <= i && i <= s.len()) {
        Err(Seq::empty())  // outside the scan's reach; never taken from position zero
    } else if i >= s.len() {
        Ok(escape_html(s.subrange(last, s.len() as int)))
    } else if match_at(s, i) {
        let e = run_end(s, i + 2);
        let name = s.subrange(i + 2, e);
        match lookup_v(tbl, name) {
            None => Err(name),
            Some(sym) => match rs_from(s, e + 1, e + 1, wt, tbl) {
                Ok(t) => Ok(escape_html(s.subrange(last, i)) + sym_markup(sym, wt) + t),
                Err(n) => Err(n),
            },
        }
    } else {
        rs_from(s, last, i + 1, wt, tbl)
    }
}

#[via_fn]
proof fn rs_from_dec(s: Seq<char>, last: int, i: int, wt: bool, tbl: Seq<SymV>) {
    if 0 <= last <= i && i < s.len() && match_at(s, i) {
        lemma_run_end(s, i + 2);
    }
}

/// What `render_symbols` produces for the whole text.
pub open spec fn rs_spec(s: Seq<char>, wt: bool, tbl: Seq<SymV>) -> Result<Seq<char>, Seq<char>> {
    rs_from(s, 0, 0, wt, tbl)
}

#[derive(Debug, PartialEq, Eq)]
pub enum RenderError {
    /// A symbol escape names a symbol absent from the table.
    UnknownSymbol(String),
}

/// In a well-formed table, whatever `lookup_v` finds is itself well-formed.
pub proof fn lemma_lookup_wf(t: Seq<SymV>, name: Seq<char>)
    requires
        forall|i: int| 0 <= i < t.len() ==> sym_wf(#[trigger] t[i]),
        lookup_v(t, name) is Some,
    ensures
        sym_wf(lookup_v(t, name)->Some_0),
    decreases t.len(),
{
    if t.len() == 0 {
    } else if t.first().name == name {
        assert(t.first() == t[0]);
    } else {
        assert forall|i: int| 0 <= i < t.drop_first().len() implies sym_wf(#[trigger] t.drop_first()[i]) by {
            assert(t.drop_first()[i] == t[i + 1]);
        }
        lemma_lookup_wf(t.drop_first(), name);
    }
}

fn run_end_exec(s: &str, k: usize) -> (r: usize)
    requires
        k <= s@.len(),
    ensures
        r as int == run_end(s@, k as int),
        k <= r <= s@.len(),
    decreases s@.len() - k,
{
    proof {
        lemma_run_end(s@, k as int);
    }
    if k >= s.unicode_len() {
        k
    } else if !is_sym_char_exec(s.get_char(k)) {
        k
    } else {
        run_end_exec(s, k + 1)
    }
}

/// Writes `s` with every symbol escape replaced by its symbol's markup and
/// all remaining text escaped; fails on the first unknown symbol name, and
/// then leaves the output untouched.
pub fn render_symbols(s: &str, out: &mut String, with_tooltips: bool, table: &SymbolTable) -> (r:
    Result<(), RenderError>)
    requires
        table_wf(table@),
    ensures
        match (r, rs_spec(s@, with_tooltips, table@)) {
            (Ok(()), Ok(t)) => final(out)@ == old(out)@ + t,
            (Err(e), Err(nv)) => (e matches RenderError::UnknownSymbol(n) && n@ == nv)
                && final(out)@ == old(out)@,
            _ => false,
        },
{
    let ghost target = rs_spec(s@, with_tooltips, table@);
    let mut buf = String::new();
    let n = s.unicode_len();
    let mut last: usize = 0;
    let mut i: usize = 0;
    while i < n
        invariant
            last <= i && i <= n,
            n == s@.len(),
            table_wf(table@),
            target == rs_spec(s@, with_tooltips, table@),
            match rs_from(s@, last as int, i as int, with_tooltips, table@) {
                Ok(t) => target == Ok::<Seq<char>, Seq<char>>(buf@ + t),
                Err(e) => target == Err::<Seq<char>, Seq<char>>(e),
            },
        decreases n - i,
    {
        let c = s.get_char(i);
        let mut is_match = false;
        let mut e: usize = i;
        if c == '\\' && i + 1 < n {
            if s.get_char(i + 1) == '<' {
                e = run_end_exec(s, i + 2);
                is_match = e > i + 2 && e < n && s.get_char(e) == '>';
            }
        }
        proof {
            assert(is_match == match_at(s@, i as int));
        }
        if is_match {
            let name_slice = s.substring_char(i + 2, e);
            let name = name_slice.to_owned();
            proof {
                assert(name@ == s@.subrange(i as int + 2, e as int));
            }
            match table.lookup(name.as_str()) {
                None => {
                    return Err(RenderError::UnknownSymbol(name));
                },
                Some(sym) => {
                    proof {
                        lemma_lookup_wf(table@, name@);
                        lemma_run_end(s@, i as int + 2);
                    }
                    let ghost olast = last as int;
                    let ghost oi = i as int;
                    let seg = s.substring_char(last, i);
                    let esc = escape_text(seg);
                    let ghost bufpre = buf@;
                    buf.append(esc.as_str());
                    sym.write(&mut buf, with_tooltips);
                    i = e + 1;
                    last = i;
                    proof {
                        assert(buf@ =~= bufpre + escape_html(s@.subrange(olast, oi)) + sym_markup(
                            sym@,
                            with_tooltips,
                        ));
                        match rs_from(s@, last as int, i as int, with_tooltips, table@) {
                            Ok(t) => {
                                assert(bufpre + (escape_html(s@.subrange(olast, oi)) + sym_markup(
                                    sym@,
                                    with_tooltips,
                                ) + t) =~= buf@ + t);
                            },
                            Err(_) => {},
                        }
                    }
                },
            }
        } else {
            i += 1;
        }
    }
    let seg = s.substring_char(last, n);
    let esc = escape_text(seg);
    buf.append(esc.as_str());
    proof {
        assert(s@.subrange(last as int, n as int) == s@.subrange(last as int, s@.len() as int));
    }
    out.append(buf.as_str());
    Ok(())
}

// ---------------------------------------------------------------------------
// The table parser. One symbol per line: the escape itself, then
// `argument: value` pairs giving its code point and abbreviations. The
// format is plain data outside the conversion's core; the contract
// guarantees what the renderer needs of the table it builds.
// ---------------------------------------------------------------------------

#[derive(Debug, PartialEq, Eq)]
pub enum SymbolsError {
    /// The first word of a line is not a whole `\<name>` escape.
    MalformedSymbolToken,
    /// A trailing argument name without its value.
    MissingArgumentValue,
    /// An argument name that does not end in a colon.
    MalformedArgument,
    /// An argument name the format does not know.
    UnknownArgument,
    /// A code point that is not `0x` hex digits naming a scalar value.
    BadCode,
    /// Two lines naming the same symbol.
    DuplicateSymbol,
    /// A symbol without a code point whose name lacks the control prefix.
    NoControlPrefix,
}

pub open spec fn hex_digit_val(c: char) -> int {
    if '0' <= c && c <= '9' {
        c as int - '0' as int
    } else if 'a' <= c && c <= 'f' {
        10 + c as int - 'a' as int
    } else if 'A' <= c && c <= 'F' {
        10 + c as int - 'A' as int
    } else {
        -1
    }
}

pub open spec fn all_hex(s: Seq<char>) -> bool {
    forall|i: int| 0 <= i < s.len() ==> hex_digit_val(#[trigger] s[i]) >= 0
}

/// The number the hexadecimal digits denote.
pub open spec fn hex_val(s: Seq<char>) -> int
    decreases s.len(),
{
    if s.len() == 0 {
        0
    } else {
        hex_val(s.drop_last()) * 16 + hex_digit_val(s.last())
    }
}

proof fn lemma_hex_val_bounds(s: Seq<char>)
    requires
        all_hex(s),
    ensures
        hex_val(s) >= 0,
        forall|i: int| 0 <= i <= s.len() ==> hex_val(#[trigger] s.take(i)) <= hex_val(s),
    decreases s.len(),
{
    if s.len() == 0 {
        assert(s.take(0) =~= s);
    } else {
        assert forall|i: int| 0 <= i < s.drop_last().len() implies hex_digit_val(
            #[trigger] s.drop_last()[i],
        ) >= 0 by {
            assert(s.drop_last()[i] == s[i]);
        }
        lemma_hex_val_bounds(s.drop_last());
        assert(s[s.len() - 1] == s.last());
        assert(hex_digit_val(s.last()) >= 0);
        assert forall|i: int| 0 <= i <= s.len() implies hex_val(#[trigger] s.take(i)) <= hex_val(s) by {
            if i == s.len() {
                assert(s.take(i) =~= s);
            } else {
                assert(s.take(i) =~= s.drop_last().take(i));
            }
        }
    }
}

fn hex_digit(c: char) -> (r: Option<u32>)
    ensures
        match r {
            Some(v) => hex_digit_val(c) == v as int && v < 16,
            None => hex_digit_val(c) < 0,
        },
{
    if '0' <= c && c <= '9' {
        Some(c as u32 - '0' as u32)
    } else if 'a' <= c && c <= 'f' {
        Some(10 + c as u32 - 'a' as u32)
    } else if 'A' <= c && c <= 'F' {
        Some(10 + c as u32 - 'A' as u32)
    } else {
        None
    }
}

/// Reads a hexadecimal numeral; fails on an empty or non-hex numeral and on
/// a value above the 32-bit range.
fn parse_hex(s: &str) -> (r: Option<u32>)
    ensures
        match r {
            Some(v) => s@.len() > 0 && all_hex(s@) && v as int == hex_val(s@),
            None => !(s@.len() > 0 && all_hex(s@) && hex_val(s@) <= u32::MAX as int),
        },
{
    let n = s.unicode_len();
    if n == 0 {
        return None;
    }
    let mut acc: u64 = 0;
    let mut i: usize = 0;
    proof {
        assert(hex_val(s@.take(0)) == 0);
    }
    while i < n
        invariant
            i <= n,
            n == s@.len(),
            acc as int == hex_val(s@.take(i as int)),
            acc <= u32::MAX,
            forall|k: int| 0 <= k < i ==> hex_digit_val(#[trigger] s@[k]) >= 0,
        decreases n - i,
    {
        let c = s.get_char(i);
        let ghost pre = s@.take(i as int);
        let ghost pre1 = s@.take(i as int + 1);
        proof {
            assert(pre1.drop_last() =~= pre);
            assert(pre1.last() == s@[i as int]);
        }
        match hex_digit(c) {
            None => {
                return None;
            },
            Some(d) => {
                let next: u64 = acc * 16 + d as u64;
                if next > u32::MAX as u64 {
                    proof {
                        if all_hex(s@) {
                            lemma_hex_val_bounds(s@);
                            assert(hex_val(pre1) == next as int);
                            assert(hex_val(s@) >= hex_val(pre1));
                        }
                    }
                    return None;
                }
                acc = next;
            },
        }
        i += 1;
    }
    proof {
        assert(s@.take(n as int) =~= s@);
    }
    Some(acc as u32)
}

/// Relies on `char::from_u32`: yields the character with this scalar value,
/// and nothing for surrogates or values above the maximum code point.
#[verifier::external_body]
fn char_from_u32(v: u32) -> (r: Option<char>)
    ensures
        match r {
            Some(c) => c as u32 == v,
            None => !(v < 0xD800 || (0xE000 <= v && v <= 0x10FFFF)),
        },
{
    char::from_u32(v)
}

/// Splits at runs of blanks, producing the non-empty words in order.
fn split_ws(s: &str) -> (r: Vec<String>)
    ensures
        forall|k: int| 0 <= k < r@.len() ==> (#[trigger] r@[k])@.len() > 0,
{
    let n = s.unicode_len();
    let mut out: Vec<String> = Vec::new();
    let mut cur = String::new();
    let mut i: usize = 0;
    while i < n
        invariant
            i <= n,
            n == s@.len(),
            forall|k: int| 0 <= k < out@.len() ==> (#[trigger] out@[k])@.len() > 0,
        decreases n - i,
    {
        let c = s.get_char(i);
        if c == ' ' || c == '\t' || c == '\r' {
            if !cur.as_str().is_empty() {
                out.push(cur);
                cur = String::new();
            }
        } else {
            push_char(&mut cur, c);
        }
        i += 1;
    }
    if !cur.as_str().is_empty() {
        out.push(cur);
    }
    out
}

fn contains_name(syms: &Vec<Symbol>, name: &str) -> (r: bool)
    ensures
        r == (exists|k: int| 0 <= k < syms@.len() && (#[trigger] syms@[k])@.name == name@),
{
    let n = syms.len();
    let mut i: usize = 0;
    while i < n
        invariant
            i <= n,
            n == syms@.len(),
            forall|k: int| 0 <= k < i ==> (#[trigger] syms@[k])@.name != name@,
        decreases n - i,
    {
        if str_eq(syms[i].name.as_str(), name) {
            return true;
        }
        i += 1;
    }
    false
}

spec fn syms_views(s: Seq<Symbol>) -> Seq<SymV> {
    s.map_values(|x: Symbol| x@)
}

/// Builds the symbol table from its textual description: one symbol per
/// line (empty and `#` lines skipped), the escape first, then
/// `code:`/`abbrev:` arguments. Every table built here is well-formed: all
/// names are distinct, non-empty runs of symbol characters, and a symbol
/// without a glyph carries the control prefix.
pub fn parse_symbols(data: &str) -> (r: Result<SymbolTable, SymbolsError>)
    ensures
        r matches Ok(t) ==> table_wf(t@),
{
    let lines = split_str(data, '\n');
    let nl = lines.len();
    let mut syms: Vec<Symbol> = Vec::new();
    let mut li: usize = 0;
    while li < nl
        invariant
            li <= nl,
            nl == lines@.len(),
            table_wf(syms_views(syms@)),
            forall|k: int| 0 <= k < syms@.len() ==> syms_views(syms@)[k] == (#[trigger] syms@[k])@,
        decreases nl - li,
    {
        let line = &lines[li];
        li += 1;
        if line.as_str().is_empty() {
            continue;
        }
        if line.as_str().get_char(0) == '#' {
            continue;
        }
        let tokens = split_ws(line.as_str());
        if tokens.len() == 0 {
            return Err(SymbolsError::MalformedSymbolToken);
        }
        let tok = &tokens[0];
        let tlen = tok.as_str().unicode_len();
        if tlen < 4 {
            return Err(SymbolsError::MalformedSymbolToken);
        }
        if tok.as_str().get_char(0) != '\\' || tok.as_str().get_char(1) != '<' || tok.as_str()
            .get_char(tlen - 1) != '>' {
            return Err(SymbolsError::MalformedSymbolToken);
        }
        let name = tok.as_str().substring_char(2, tlen - 1).to_owned();
        let name_len = tlen - 3;
        proof {
            assert(name@.len() == name_len);
        }
        let mut ci: usize = 0;
        while ci < name_len
            invariant
                ci <= name_len,
                name_len == name@.len(),
                forall|k: int| 0 <= k < ci ==> is_sym_char(#[trigger] name@[k]),
            decreases name_len - ci,
        {
            if !is_sym_char_exec(name.as_str().get_char(ci)) {
                return Err(SymbolsError::MalformedSymbolToken);
            }
            ci += 1;
        }
        if contains_name(&syms, name.as_str()) {
            return Err(SymbolsError::DuplicateSymbol);
        }
        let mut unicode: Option<char> = None;
        let mut abbrev: Vec<String> = Vec::new();
        let ntok = tokens.len();
        let mut j: usize = 1;
        while j < ntok
            invariant
                1 <= j,
                ntok == tokens@.len(),
                forall|k: int| 0 <= k < tokens@.len() ==> (#[trigger] tokens@[k])@.len() > 0,
            decreases ntok - j,
        {
            let arg = &tokens[j];
            if j + 1 >= ntok {
                return Err(SymbolsError::MissingArgumentValue);
            }
            let val = &tokens[j + 1];
            let alen = arg.as_str().unicode_len();
            if arg.as_str().get_char(alen - 1) != ':' {
                return Err(SymbolsError::MalformedArgument);
            }
            if str_eq(arg.as_str(), "code:") {
                let vlen = val.as_str().unicode_len();
                if vlen < 3 || val.as_str().get_char(0) != '0' || val.as_str().get_char(1) != 'x' {
                    return Err(SymbolsError::BadCode);
                }
                let digits = val.as_str().substring_char(2, vlen);
                match parse_hex(digits) {
                    None => {
                        return Err(SymbolsError::BadCode);
                    },
                    Some(v) => match char_from_u32(v) {
                        None => {
                            return Err(SymbolsError::BadCode);
                        },
                        Some(c) => {
                            unicode = Some(c);
                        },
                    },
                }
            } else if str_eq(arg.as_str(), "abbrev:") {
                abbrev.push(val.clone());
            } else if str_eq(arg.as_str(), "group:") || str_eq(arg.as_str(), "argument:") || str_eq(
                arg.as_str(),
                "font:",
            ) {
            } else {
                return Err(SymbolsError::UnknownArgument);
            }
            j += 2;
        }
        if unicode.is_none() {
            if name.as_str().get_char(0) != '^' {
                return Err(SymbolsError::NoControlPrefix);
            }
        }
        let sym = Symbol { name, unicode, abbrev };
        proof {
            assert(sym_wf(sym@));
            assert(forall|k: int| 0 <= k < syms@.len() ==> (#[trigger] syms@[k])@.name != sym@.name);
            lemma_trees_like_push(syms@, sym);
        }
        syms.push(sym);
    }
    let t = SymbolTable { syms };
    proof {
        assert(t@ == syms_views(syms@));
    }
    Ok(t)
}

proof fn lemma_trees_like_push(s: Seq<Symbol>, x: Symbol)
    ensures
        syms_views(s.push(x)) == syms_views(s).push(x@),
{
    assert(syms_views(s.push(x)) =~= syms_views(s).push(x@));
}

} // verus!
