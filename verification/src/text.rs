//! Character-sequence utilities: splitting at a separator, joining with a
//! separator, and the algebra connecting the two. These underpin both the
//! wire-format tokenizer and the line-splitting transform.

use vstd::prelude::*;

verus! {

/// Index of the first occurrence of `c` in `s`, or `s.len()` if absent.
pub open spec fn first_idx(s: Seq<char>, c: char) -> int
    decreases s.len(),
{
    if s.len() == 0 {
        0
    } else if s[0] == c {
        0
    } else {
        1 + first_idx(s.drop_first(), c)
    }
}

pub proof fn lemma_first_idx(s: Seq<char>, c: char)
    ensures
        0 <= first_idx(s, c) <= s.len(),
        first_idx(s, c) < s.len() ==> s[first_idx(s, c)] == c,
        forall|j: int| 0 <= j < first_idx(s, c) ==> s[j] != c,
        s.contains(c) ==> first_idx(s, c) < s.len(),
    decreases s.len(),
{
    if s.len() == 0 {
    } else if s[0] == c {
    } else {
        lemma_first_idx(s.drop_first(), c);
        assert forall|j: int| 0 <= j < first_idx(s, c) implies s[j] != c by {
            if j > 0 {
                assert(s.drop_first()[j - 1] == s[j]);
            }
        }
        if s.contains(c) {
            let w = choose|w: int| 0 <= w < s.len() && s[w] == c;
            assert(s.drop_first()[w - 1] == s[w]);
            assert(s.drop_first().contains(c));
        }
    }
}

/// Split `s` at every occurrence of `sep`. Always yields at least one chunk;
/// the separator itself appears in no chunk.
pub open spec fn split_at(s: Seq<char>, sep: char) -> Seq<Seq<char>>
    decreases s.len(),
{
    if s.len() == 0 {
        seq![Seq::<char>::empty()]
    } else {
        let rest = split_at(s.drop_last(), sep);
        if s.last() == sep {
            rest.push(Seq::<char>::empty())
        } else {
            rest.update(rest.len() - 1, rest.last().push(s.last()))
        }
    }
}

pub proof fn lemma_split_at_props(s: Seq<char>, sep: char)
    ensures
        split_at(s, sep).len() >= 1,
        forall|i: int| 0 <= i < split_at(s, sep).len() ==> !(#[trigger] split_at(s, sep)[i]).contains(sep),
    decreases s.len(),
{
    if s.len() == 0 {
        assert forall|i: int| 0 <= i < split_at(s, sep).len() implies !(#[trigger] split_at(s, sep)[i]).contains(sep) by {
            assert(split_at(s, sep)[i] =~= Seq::<char>::empty());
        }
    } else {
        lemma_split_at_props(s.drop_last(), sep);
        let rest = split_at(s.drop_last(), sep);
        assert forall|i: int| 0 <= i < split_at(s, sep).len() implies !(#[trigger] split_at(s, sep)[i]).contains(sep) by {
            if s.last() == sep {
                if i < rest.len() {
                    assert(split_at(s, sep)[i] == rest[i]);
                } else {
                    assert(split_at(s, sep)[i] =~= Seq::<char>::empty());
                }
            } else {
                if i < rest.len() - 1 {
                    assert(split_at(s, sep)[i] == rest[i]);
                } else {
                    let last = rest.last().push(s.last());
                    assert(split_at(s, sep)[i] == last);
                    assert forall|j: int| 0 <= j < last.len() implies last[j] != sep by {
                        if j < last.len() - 1 {
                            assert(!rest[rest.len() - 1].contains(sep));
                            assert(last[j] == rest.last()[j]);
                        }
                    }
                }
            }
        }
    }
}

/// Join chunks with a single `sep` between adjacent chunks.
pub open spec fn join_with(parts: Seq<Seq<char>>, sep: char) -> Seq<char>
    decreases parts.len(),
{
    if parts.len() == 0 {
        Seq::<char>::empty()
    } else if parts.len() == 1 {
        parts[0]
    } else {
        join_with(parts.drop_last(), sep).push(sep) + parts.last()
    }
}

/// Concatenation of two chunk lists, fusing the boundary pair into one chunk.
/// This is how `split_at` distributes over sequence concatenation; the same
/// combinator also splices per-line forests at a line boundary.
pub open spec fn fuse<A>(a: Seq<Seq<A>>, b: Seq<Seq<A>>) -> Seq<Seq<A>> {
    a.drop_last() + seq![a.last() + b.first()] + b.drop_first()
}

pub proof fn lemma_split_concat(a: Seq<char>, b: Seq<char>, sep: char)
    ensures
        split_at(a + b, sep) == fuse(split_at(a, sep), split_at(b, sep)),
    decreases b.len(),
{
    lemma_split_at_props(a, sep);
    lemma_split_at_props(b, sep);
    let sa = split_at(a, sep);
    if b.len() == 0 {
        assert(a + b =~= a);
        assert(split_at(b, sep) == seq![Seq::<char>::empty()]);
        assert(fuse(sa, split_at(b, sep)) =~~= sa);
    } else {
        lemma_split_concat(a, b.drop_last(), sep);
        lemma_split_at_props(b.drop_last(), sep);
        let sb0 = split_at(b.drop_last(), sep);
        assert((a + b).drop_last() =~= a + b.drop_last());
        assert((a + b).last() == b.last());
        if b.last() == sep {
            assert(split_at(a + b, sep) == fuse(sa, sb0).push(Seq::<char>::empty()));
            assert(split_at(b, sep) == sb0.push(Seq::<char>::empty()));
            assert(fuse(sa, sb0.push(Seq::<char>::empty())) =~~= fuse(sa, sb0).push(
                Seq::<char>::empty(),
            ));
        } else {
            let c = b.last();
            let f0 = fuse(sa, sb0);
            assert(split_at(a + b, sep) == f0.update(f0.len() - 1, f0.last().push(c)));
            let sb = sb0.update(sb0.len() - 1, sb0.last().push(c));
            assert(split_at(b, sep) == sb);
            if sb0.len() == 1 {
                assert(f0.last() == sa.last() + sb0.last());
                assert(sb.first() == sb0.first().push(c));
                assert(sa.last() + sb0.last().push(c) =~= (sa.last() + sb0.last()).push(c));
                assert(fuse(sa, sb) =~~= f0.update(f0.len() - 1, f0.last().push(c)));
            } else {
                assert(f0.last() == sb0.last());
                assert(sb.first() == sb0.first());
                assert(fuse(sa, sb) =~~= f0.update(f0.len() - 1, f0.last().push(c)));
            }
        }
    }
}

pub proof fn lemma_split_join(parts: Seq<Seq<char>>, sep: char)
    requires
        parts.len() >= 1,
        forall|i: int| 0 <= i < parts.len() ==> !(#[trigger] parts[i]).contains(sep),
    ensures
        split_at(join_with(parts, sep), sep) == parts,
    decreases parts.len(),
{
    if parts.len() == 1 {
        lemma_split_sep_free(parts[0], sep);
        assert(join_with(parts, sep) == parts[0]);
        assert(split_at(parts[0], sep) =~~= parts);
    } else {
        lemma_split_join(parts.drop_last(), sep);
        let j0 = join_with(parts.drop_last(), sep);
        assert(join_with(parts, sep) == j0.push(sep) + parts.last());
        lemma_split_sep_free(parts.last(), sep);
        lemma_split_concat(j0.push(sep), parts.last(), sep);
        assert(j0.push(sep) =~= j0 + seq![sep]);
        lemma_split_concat(j0, seq![sep], sep);
        assert(seq![sep].drop_last() =~= Seq::<char>::empty());
        assert(split_at(seq![sep], sep) == split_at(Seq::<char>::empty(), sep).push(
            Seq::<char>::empty(),
        ));
        lemma_split_at_props(j0, sep);
        assert(split_at(j0.push(sep), sep) =~~= split_at(j0, sep).push(Seq::<char>::empty()));
        assert(split_at(join_with(parts, sep), sep) =~~= parts);
    }
}

/// Joining what splitting produced restores the original sequence.
pub proof fn lemma_join_split(s: Seq<char>, sep: char)
    ensures
        join_with(split_at(s, sep), sep) == s,
    decreases s.len(),
{
    lemma_split_at_props(s, sep);
    if s.len() == 0 {
        assert(join_with(split_at(s, sep), sep) =~= s);
    } else {
        lemma_join_split(s.drop_last(), sep);
        lemma_split_at_props(s.drop_last(), sep);
        let rest = split_at(s.drop_last(), sep);
        if s.last() == sep {
            let p = rest.push(Seq::<char>::empty());
            assert(p.drop_last() =~= rest);
            assert(p.len() >= 2);
            assert(join_with(p, sep) == join_with(rest, sep).push(sep) + Seq::<char>::empty());
            assert(join_with(p, sep) =~= s);
        } else {
            let c = s.last();
            let u = rest.update(rest.len() - 1, rest.last().push(c));
            if rest.len() == 1 {
                assert(u[0] == rest[0].push(c));
                assert(join_with(u, sep) == u[0]);
                assert(join_with(rest, sep) == rest[0]);
                assert(join_with(u, sep) =~= s);
            } else {
                assert(u.drop_last() =~= rest.drop_last());
                assert(u.last() == rest.last().push(c));
                assert(join_with(u, sep) == join_with(rest.drop_last(), sep).push(sep)
                    + rest.last().push(c));
                assert(join_with(rest, sep) == join_with(rest.drop_last(), sep).push(sep)
                    + rest.last());
                assert(join_with(u, sep) =~= join_with(rest, sep).push(c));
                assert(s.drop_last().push(c) =~= s);
            }
        }
    }
}

/// A separator-free sequence splits into a single chunk.
pub proof fn lemma_split_sep_free(s: Seq<char>, sep: char)
    requires
        !s.contains(sep),
    ensures
        split_at(s, sep) == seq![s],
    decreases s.len(),
{
    if s.len() == 0 {
        assert(split_at(s, sep) =~~= seq![s]);
    } else {
        assert(s[s.len() - 1] == s.last());
        assert(s.last() != sep);
        assert forall|j: int| 0 <= j < s.drop_last().len() implies s.drop_last()[j] != sep by {
            assert(s.drop_last()[j] == s[j]);
        }
        lemma_split_sep_free(s.drop_last(), sep);
        assert(split_at(s, sep) =~~= seq![s.drop_last().push(s.last())]);
        assert(s.drop_last().push(s.last()) =~= s);
    }
}

/// Joining fused chunk lists concatenates the joined halves.
pub proof fn lemma_join_fuse(a: Seq<Seq<char>>, b: Seq<Seq<char>>, sep: char)
    requires
        a.len() >= 1,
        b.len() >= 1,
    ensures
        join_with(fuse(a, b), sep) == join_with(a, sep) + join_with(b, sep),
    decreases b.len(),
{
    if b.len() == 1 {
        let f = fuse(a, b);
        assert(f =~= a.drop_last().push(a.last() + b.first()));
        lemma_join_last(a.drop_last(), a.last() + b.first(), sep);
        lemma_join_last(a.drop_last(), a.last(), sep);
        assert(a.drop_last().push(a.last()) =~= a);
        if a.len() == 1 {
            assert(join_with(f, sep) == a.last() + b.first());
            assert(join_with(a, sep) == a[0]);
            assert(join_with(b, sep) == b[0]);
        } else {
            assert(join_with(f, sep) =~= join_with(a, sep) + join_with(b, sep));
        }
    } else {
        lemma_join_fuse(a, b.drop_last(), sep);
        let f = fuse(a, b);
        let f0 = fuse(a, b.drop_last());
        assert(f.drop_last() =~= f0);
        assert(f.len() >= 2);
        assert(f.last() == b.last());
        assert(join_with(f, sep) == join_with(f0, sep).push(sep) + b.last());
        assert(join_with(b, sep) == join_with(b.drop_last(), sep).push(sep) + b.last());
        assert(join_with(f, sep) =~= join_with(a, sep) + join_with(b, sep));
    }
}

/// Unfolding of `join_with` from the right for a non-empty prefix.
pub proof fn lemma_join_last(pre: Seq<Seq<char>>, last: Seq<char>, sep: char)
    ensures
        pre.len() == 0 ==> join_with(pre.push(last), sep) == last,
        pre.len() >= 1 ==> join_with(pre.push(last), sep) == join_with(pre, sep).push(sep) + last,
{
    let p = pre.push(last);
    if pre.len() == 0 {
        assert(p[0] == last);
    } else {
        assert(p.drop_last() =~= pre);
        assert(p.last() == last);
    }
}

/// The views of a sequence of strings.
pub open spec fn seq_views(v: Seq<String>) -> Seq<Seq<char>> {
    v.map_values(|s: String| s@)
}

pub proof fn lemma_seq_views_drop(v: Seq<String>)
    requires
        v.len() > 0,
    ensures
        seq_views(v).len() == v.len(),
        seq_views(v).first() == v.first()@,
        seq_views(v.drop_first()) == seq_views(v).drop_first(),
{
    assert(seq_views(v.drop_first()) =~= seq_views(v).drop_first()) by {
        assert forall|k: int| 0 <= k < v.len() - 1 implies seq_views(v.drop_first())[k] == seq_views(
            v,
        ).drop_first()[k] by {
            assert(v.drop_first()[k] == v[k + 1]);
        }
    }
}

/// Relies on `String::push`: appends one character at the end.
#[verifier::external_body]
pub fn push_char(s: &mut String, c: char)
    ensures
        final(s)@ == old(s)@.push(c),
{
    s.push(c);
}

/// Splits a string at every occurrence of `sep`, mirroring `split_at`.
pub fn split_str(s: &str, sep: char) -> (r: Vec<String>)
    ensures
        seq_views(r@) == split_at(s@, sep),
        r@.len() >= 1,
{
    let n = s.unicode_len();
    let mut out: Vec<String> = Vec::new();
    let mut cur: String = String::new();
    let mut i: usize = 0;
    assert(s@.take(0int) =~= Seq::<char>::empty());
    assert(seq_views(out@).push(cur@) =~= split_at(s@.take(0int), sep));
    while i < n
        invariant
            i <= n,
            n == s@.len(),
            seq_views(out@).push(cur@) == split_at(s@.take(i as int), sep),
        decreases n - i,
    {
        let c = s.get_char(i);
        let ghost pre = s@.take(i as int);
        let ghost pre1 = s@.take(i as int + 1);
        proof {
            assert(pre1.drop_last() =~= pre);
            assert(pre1.last() == s@[i as int]);
        }
        if c == sep {
            out.push(cur);
            cur = String::new();
            proof {
                assert(seq_views(out@).push(cur@) =~= split_at(pre, sep).push(Seq::<char>::empty()));
            }
        } else {
            push_char(&mut cur, c);
            proof {
                let rest = split_at(pre, sep);
                assert(split_at(pre1, sep) == rest.update(rest.len() - 1, rest.last().push(c)));
                assert(seq_views(out@).push(cur@) =~= split_at(pre1, sep));
            }
        }
        i += 1;
    }
    proof {
        assert(s@.take(n as int) =~= s@);
    }
    out.push(cur);
    proof {
        assert(seq_views(out@) =~= split_at(s@, sep));
    }
    out
}

/// Character-wise string equality.
pub fn str_eq(a: &str, b: &str) -> (r: bool)
    ensures
        r == (a@ == b@),
{
    let na = a.unicode_len();
    let nb = b.unicode_len();
    if na != nb {
        return false;
    }
    let mut i: usize = 0;
    while i < na
        invariant
            i <= na,
            na == a@.len(),
            na == b@.len(),
            forall|j: int| 0 <= j < i ==> a@[j] == b@[j],
        decreases na - i,
    {
        if a.get_char(i) != b.get_char(i) {
            return false;
        }
        i += 1;
    }
    proof {
        assert(a@ =~= b@);
    }
    true
}

/// Index of the first occurrence of `c` in `s`, mirroring `first_idx`.
pub fn find_char(s: &str, c: char) -> (r: Option<usize>)
    ensures
        match r {
            Some(i) => i as int == first_idx(s@, c) && (i as int) < s@.len(),
            None => first_idx(s@, c) == s@.len(),
        },
{
    let n = s.unicode_len();
    let mut i: usize = 0;
    while i < n
        invariant
            i <= n,
            n == s@.len(),
            forall|j: int| 0 <= j < i ==> s@[j] != c,
        decreases n - i,
    {
        if s.get_char(i) == c {
            proof {
                lemma_first_idx_agrees(s@, c, i as int);
            }
            return Some(i);
        }
        i += 1;
    }
    proof {
        lemma_first_idx(s@, c);
        if s@.contains(c) {
            let w = choose|w: int| 0 <= w < s@.len() && s@[w] == c;
            assert(s@[w] != c);
        }
    }
    None
}

/// If `s[i] == c` and no earlier position holds `c`, then `first_idx` is `i`.
pub proof fn lemma_first_idx_agrees(s: Seq<char>, c: char, i: int)
    requires
        0 <= i < s.len(),
        s[i] == c,
        forall|j: int| 0 <= j < i ==> s[j] != c,
    ensures
        first_idx(s, c) == i,
    decreases s.len(),
{
    if i == 0 {
    } else {
        assert(s[0] != c);
        assert(s.drop_first()[i - 1] == s[i]);
        assert forall|j: int| 0 <= j < i - 1 implies s.drop_first()[j] != c by {
            assert(s.drop_first()[j] == s[j + 1]);
        }
        lemma_first_idx_agrees(s.drop_first(), c, i - 1);
    }
}

} // verus!
