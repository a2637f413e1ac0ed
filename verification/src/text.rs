//! Byte-level text scanning for the resolver configuration file:
//! splitting on a separator, whitespace tokenizing, and extraction of
//! the address candidates named by `nameserver` directives.

use vstd::prelude::*;

verus! {

/// ASCII whitespace, as the tokenizer understands it: space, tab,
/// line feed, form feed, carriage return.
pub open spec fn is_ws(b: u8) -> bool {
    b == 32 || b == 9 || b == 10 || b == 12 || b == 13
}

/// The sequences of views of the elements of a vector of byte vectors.
pub open spec fn views(v: Vec<Vec<u8>>) -> Seq<Seq<u8>> {
    Seq::new(v@.len(), |i: int| v@[i]@)
}

/// The parts of `s` between occurrences of the separator `c`.
/// There is always at least one part, and empty parts (between adjacent
/// separators, or at the ends) are kept.
pub open spec fn split_on(s: Seq<u8>, c: u8) -> Seq<Seq<u8>>
    decreases s.len(),
{
    if s.len() == 0 {
        seq![Seq::<u8>::empty()]
    } else if s[0] == c {
        seq![Seq::<u8>::empty()] + split_on(s.skip(1), c)
    } else {
        let rest = split_on(s.skip(1), c);
        seq![seq![s[0]] + rest[0]] + rest.skip(1)
    }
}

pub proof fn lemma_split_on_len(s: Seq<u8>, c: u8)
    ensures
        split_on(s, c).len() >= 1,
    decreases s.len(),
{
    if s.len() == 0 {
    } else if s[0] == c {
    } else {
        lemma_split_on_len(s.skip(1), c);
    }
}

/// A string without the separator splits into just itself.
pub proof fn lemma_split_on_no_sep(s: Seq<u8>, c: u8)
    requires
        forall|i: int| 0 <= i < s.len() ==> s[i] != c,
    ensures
        split_on(s, c) == seq![s],
    decreases s.len(),
{
    if s.len() == 0 {
        assert(split_on(s, c) =~~= seq![s]);
    } else {
        assert(forall|i: int| 0 <= i < s.skip(1).len() ==> s.skip(1)[i] != c);
        lemma_split_on_no_sep(s.skip(1), c);
        assert(seq![s[0]] + s.skip(1) =~= s);
        assert(split_on(s, c) =~~= seq![s]);
    }
}

/// Splitting at the first separator: the part before it, then the
/// split of what follows it.
pub proof fn lemma_split_on_first_sep(s: Seq<u8>, c: u8, i: int)
    requires
        0 <= i < s.len(),
        s[i] == c,
        forall|j: int| 0 <= j < i ==> s[j] != c,
    ensures
        split_on(s, c) == seq![s.take(i)] + split_on(s.skip(i + 1), c),
    decreases i,
{
    if i == 0 {
        assert(s.take(0) =~= Seq::<u8>::empty());
        assert(s.skip(1) =~= s.skip(i + 1));
        assert(split_on(s, c) =~~= seq![s.take(i)] + split_on(s.skip(i + 1), c));
    } else {
        assert(forall|j: int| 0 <= j < i - 1 ==> s.skip(1)[j] != c);
        assert(s.skip(1)[i - 1] == c);
        lemma_split_on_first_sep(s.skip(1), c, i - 1);
        lemma_split_on_len(s.skip(1).skip(i), c);
        assert(s.skip(1).skip(i) =~= s.skip(i + 1));
        assert(seq![s[0]] + s.skip(1).take(i - 1) =~= s.take(i));
        assert(split_on(s, c) =~~= seq![s.take(i)] + split_on(s.skip(i + 1), c));
    }
}

/// Copies `s[a..b]` into a fresh vector.
pub fn sub_to_vec(s: &[u8], a: usize, b: usize) -> (r: Vec<u8>)
    requires
        a <= b <= s@.len(),
    ensures
        r@ == s@.subrange(a as int, b as int),
{
    let mut r: Vec<u8> = Vec::new();
    let mut j: usize = a;
    while j < b
        invariant
            a <= j <= b <= s@.len(),
            r@ == s@.subrange(a as int, j as int),
        decreases b - j,
    {
        r.push(s[j]);
        proof {
            assert(s@.subrange(a as int, j + 1) =~= s@.subrange(a as int, j as int).push(
                s@[j as int],
            ));
        }
        j += 1;
    }
    r
}

/// Splits `s` on the separator `c`, keeping empty parts.
pub fn split_on_exec(s: &[u8], c: u8) -> (r: Vec<Vec<u8>>)
    ensures
        views(r) == split_on(s@, c),
{
    let mut parts: Vec<Vec<u8>> = Vec::new();
    let mut start: usize = 0;
    let mut j: usize = 0;
    proof {
        assert(s@.skip(0) =~= s@);
        assert(views(parts) + split_on(s@, c) =~= split_on(s@, c));
    }
    while j < s.len()
        invariant
            start <= j <= s@.len(),
            forall|k: int| start <= k < j ==> s@[k] != c,
            split_on(s@, c) == views(parts) + split_on(s@.skip(start as int), c),
        decreases s@.len() - j,
    {
        if s[j] == c {
            let piece = sub_to_vec(s, start, j);
            proof {
                let tail = s@.skip(start as int);
                assert(forall|k: int| 0 <= k < j - start ==> tail[k] != c);
                lemma_split_on_first_sep(tail, c, j - start);
                assert(tail.take(j - start) =~= s@.subrange(start as int, j as int));
                assert(tail.skip(j - start + 1) =~= s@.skip(j + 1));
                assert(views(parts).push(piece@) + split_on(s@.skip(j + 1), c) =~~= views(parts)
                    + split_on(s@.skip(start as int), c));
            }
            let ghost old_parts = parts;
            parts.push(piece);
            proof {
                assert(views(parts) =~= views(old_parts).push(piece@));
            }
            start = j + 1;
        }
        j += 1;
    }
    let piece = sub_to_vec(s, start, s.len());
    proof {
        let tail = s@.skip(start as int);
        assert(forall|k: int| 0 <= k < tail.len() ==> tail[k] != c);
        lemma_split_on_no_sep(tail, c);
        assert(tail =~= s@.subrange(start as int, s@.len() as int));
    }
    let ghost old_parts = parts;
    parts.push(piece);
    proof {
        assert(views(parts) =~= views(old_parts).push(piece@));
        assert(views(old_parts).push(piece@) =~~= views(old_parts) + seq![piece@]);
        assert(views(parts) == split_on(s@, c));
    }
    parts
}

/// The whitespace-delimited tokens of `s`, in order; never empty ones.
pub open spec fn tokens(s: Seq<u8>) -> Seq<Seq<u8>>
    decreases s.len(),
{
    if s.len() == 0 {
        seq![]
    } else if is_ws(s[0]) {
        tokens(s.skip(1))
    } else {
        let rest = tokens(s.skip(1));
        if s.len() > 1 && !is_ws(s[1]) {
            seq![seq![s[0]] + rest[0]] + rest.skip(1)
        } else {
            seq![seq![s[0]]] + rest
        }
    }
}

/// A maximal non-whitespace run at the head of `s` is the first token.
pub proof fn lemma_tokens_run(s: Seq<u8>, k: int)
    requires
        1 <= k <= s.len(),
        forall|j: int| 0 <= j < k ==> !is_ws(s[j]),
        k == s.len() || is_ws(s[k]),
    ensures
        tokens(s) == seq![s.take(k)] + tokens(s.skip(k)),
    decreases k,
{
    if k == 1 {
        if s.len() > 1 {
            assert(is_ws(s[1]));
        }
        assert(seq![s[0]] =~= s.take(1));
        assert(s.skip(1) =~= s.skip(k));
        assert(tokens(s) =~~= seq![s.take(k)] + tokens(s.skip(k)));
    } else {
        assert(forall|j: int| 0 <= j < k - 1 ==> !is_ws(s.skip(1)[j]));
        assert(k - 1 == s.skip(1).len() || is_ws(s.skip(1)[k - 1]));
        lemma_tokens_run(s.skip(1), k - 1);
        let rest = tokens(s.skip(1));
        assert(rest[0] == s.skip(1).take(k - 1));
        assert(seq![s[0]] + s.skip(1).take(k - 1) =~= s.take(k));
        assert(s.skip(1).skip(k - 1) =~= s.skip(k));
        assert(rest.skip(1) =~~= tokens(s.skip(k)));
        assert(tokens(s) =~~= seq![s.take(k)] + tokens(s.skip(k)));
    }
}

fn is_ws_exec(b: u8) -> (r: bool)
    ensures
        r == is_ws(b),
{
    b == 32 || b == 9 || b == 10 || b == 12 || b == 13
}

/// Splits `s` into its whitespace-delimited tokens.
pub fn tokens_exec(s: &[u8]) -> (r: Vec<Vec<u8>>)
    ensures
        views(r) == tokens(s@),
{
    let mut toks: Vec<Vec<u8>> = Vec::new();
    let mut i: usize = 0;
    proof {
        assert(s@.skip(0) =~= s@);
        assert(views(toks) + tokens(s@) =~= tokens(s@));
    }
    while i < s.len()
        invariant
            i <= s@.len(),
            tokens(s@) == views(toks) + tokens(s@.skip(i as int)),
        decreases s@.len() - i,
    {
        if is_ws_exec(s[i]) {
            proof {
                assert(s@.skip(i as int).skip(1) =~= s@.skip(i + 1));
            }
            i += 1;
        } else {
            let start = i;
            i += 1;
            while i < s.len() && !is_ws_exec(s[i])
                invariant
                    start < i <= s@.len(),
                    forall|j: int| start <= j < i ==> !is_ws(s@[j]),
                decreases s@.len() - i,
            {
                i += 1;
            }
            let tok = sub_to_vec(s, start, i);
            proof {
                let tail = s@.skip(start as int);
                assert(forall|j: int| 0 <= j < i - start ==> !is_ws(tail[j]));
                assert(i - start == tail.len() || is_ws(tail[i - start]));
                lemma_tokens_run(tail, i - start);
                assert(tail.take(i - start) =~= s@.subrange(start as int, i as int));
                assert(tail.skip(i - start) =~= s@.skip(i as int));
            }
            let ghost old_toks = toks;
            toks.push(tok);
            proof {
                assert(views(toks) =~= views(old_toks).push(tok@));
                assert(views(old_toks).push(tok@) =~~= views(old_toks) + seq![tok@]);
                assert(tokens(s@) == views(toks) + tokens(s@.skip(i as int)));
            }
        }
    }
    proof {
        assert(s@.skip(s@.len() as int) =~= Seq::<u8>::empty());
        assert(views(toks) + tokens(Seq::<u8>::empty()) =~= views(toks));
    }
    toks
}

/// The bytes of the directive keyword `nameserver`.
pub open spec fn nameserver_kw() -> Seq<u8> {
    seq![110u8, 97u8, 109u8, 101u8, 115u8, 101u8, 114u8, 118u8, 101u8, 114u8]
}

pub open spec fn is_prefix_of(p: Seq<u8>, s: Seq<u8>) -> bool {
    p.len() <= s.len() && s.take(p.len() as int) == p
}

/// A line names resolvers when its first token begins with `nameserver`.
pub open spec fn is_nameserver_line(line: Seq<u8>) -> bool {
    tokens(line).len() > 0 && is_prefix_of(nameserver_kw(), tokens(line)[0])
}

/// The address candidates a single line contributes: the second token
/// of a `nameserver` line; nothing from any other line, and nothing
/// from a `nameserver` line without a second token.
pub open spec fn line_candidates(line: Seq<u8>) -> Seq<Seq<u8>> {
    if is_nameserver_line(line) && tokens(line).len() >= 2 {
        seq![tokens(line)[1]]
    } else {
        seq![]
    }
}

pub open spec fn candidates_of_lines(lines: Seq<Seq<u8>>) -> Seq<Seq<u8>>
    decreases lines.len(),
{
    if lines.len() == 0 {
        seq![]
    } else {
        line_candidates(lines[0]) + candidates_of_lines(lines.skip(1))
    }
}

/// The address candidates of a whole configuration text: those of its
/// lines, in order.
pub open spec fn candidates(content: Seq<u8>) -> Seq<Seq<u8>> {
    candidates_of_lines(split_on(content, 10))
}

fn starts_with_nameserver(t: &[u8]) -> (r: bool)
    ensures
        r == is_prefix_of(nameserver_kw(), t@),
{
    if t.len() < 10 {
        return false;
    }
    let r = t[0] == 110 && t[1] == 97 && t[2] == 109 && t[3] == 101 && t[4] == 115 && t[5] == 101
        && t[6] == 114 && t[7] == 118 && t[8] == 101 && t[9] == 114;
    proof {
        let kw = nameserver_kw();
        if r {
            assert(t@.take(10) =~= kw);
        } else {
            if t@.take(10) == kw {
                assert(t@[0] == kw[0] && t@[1] == kw[1] && t@[2] == kw[2] && t@[3] == kw[3]
                    && t@[4] == kw[4] && t@[5] == kw[5] && t@[6] == kw[6] && t@[7] == kw[7]
                    && t@[8] == kw[8] && t@[9] == kw[9]) by {
                    assert(forall|k: int| 0 <= k < 10 ==> t@.take(10)[k] == t@[k]);
                }
            }
        }
    }
    r
}

/// The candidate of one line, if it has one.
fn line_candidate_exec(line: &[u8]) -> (r: Option<Vec<u8>>)
    ensures
        match r {
            Some(v) => line_candidates(line@) == seq![v@],
            None => line_candidates(line@) == Seq::<Seq<u8>>::empty(),
        },
{
    let toks = tokens_exec(line);
    if toks.len() == 0 {
        proof {
            assert(line_candidates(line@) =~~= Seq::<Seq<u8>>::empty());
        }
        return None;
    }
    if !starts_with_nameserver(toks[0].as_slice()) {
        proof {
            assert(line_candidates(line@) =~~= Seq::<Seq<u8>>::empty());
        }
        return None;
    }
    if toks.len() < 2 {
        proof {
            assert(line_candidates(line@) =~~= Seq::<Seq<u8>>::empty());
        }
        return None;
    }
    let mut toks = toks;
    let second = toks.remove(1);
    Some(second)
}

/// A `nameserver` line with no second token is skipped: it contributes
/// no candidate, and so (by `Resolvers::from_conf`'s contract) no
/// error either.
pub proof fn lemma_short_line_skipped(line: Seq<u8>)
    requires
        tokens(line).len() < 2,
    ensures
        line_candidates(line) == Seq::<Seq<u8>>::empty(),
{
    assert(line_candidates(line) =~~= Seq::<Seq<u8>>::empty());
}

/// A line of nothing but whitespace has no tokens.
pub proof fn lemma_blank_line_no_tokens(line: Seq<u8>)
    requires
        forall|i: int| 0 <= i < line.len() ==> is_ws(line[i]),
    ensures
        tokens(line) == Seq::<Seq<u8>>::empty(),
    decreases line.len(),
{
    if line.len() == 0 {
        assert(tokens(line) =~~= Seq::<Seq<u8>>::empty());
    } else {
        assert(forall|i: int| 0 <= i < line.skip(1).len() ==> is_ws(line.skip(1)[i]));
        lemma_blank_line_no_tokens(line.skip(1));
    }
}

/// The first token begins with the first non-whitespace byte.
pub proof fn lemma_first_token_head(line: Seq<u8>, k: int)
    requires
        0 <= k < line.len(),
        !is_ws(line[k]),
        forall|j: int| 0 <= j < k ==> is_ws(line[j]),
    ensures
        tokens(line).len() > 0,
        tokens(line)[0].len() > 0,
        tokens(line)[0][0] == line[k],
    decreases k,
{
    if k == 0 {
    } else {
        assert(forall|j: int| 0 <= j < k - 1 ==> is_ws(line.skip(1)[j]));
        assert(!is_ws(line.skip(1)[k - 1]));
        lemma_first_token_head(line.skip(1), k - 1);
    }
}

/// Comment lines (whose first non-whitespace byte is `#`) and blank
/// lines never contribute candidates.
pub proof fn lemma_comment_blank_skipped(line: Seq<u8>)
    requires
        (forall|i: int| 0 <= i < line.len() ==> is_ws(line[i])) || (exists|k: int|
            0 <= k < line.len() && line[k] == 35 && (forall|j: int| 0 <= j < k ==> is_ws(line[j]))),
    ensures
        line_candidates(line) == Seq::<Seq<u8>>::empty(),
{
    if forall|i: int| 0 <= i < line.len() ==> is_ws(line[i]) {
        lemma_blank_line_no_tokens(line);
        assert(line_candidates(line) =~~= Seq::<Seq<u8>>::empty());
    } else {
        let k = choose|k: int|
            0 <= k < line.len() && line[k] == 35 && (forall|j: int| 0 <= j < k ==> is_ws(line[j]));
        assert(!is_ws(35u8));
        lemma_first_token_head(line, k);
        if is_nameserver_line(line) {
            let t0 = tokens(line)[0];
            assert(t0.take(10) == nameserver_kw());
            assert(t0.take(10)[0] == t0[0]);
            assert(nameserver_kw()[0] == 110);
            assert(false);
        }
        assert(line_candidates(line) =~~= Seq::<Seq<u8>>::empty());
    }
}

/// Extracts every address candidate of the configuration text, in
/// the order the lines give them.
pub fn extract_candidates(content: &[u8]) -> (r: Vec<Vec<u8>>)
    ensures
        views(r) == candidates(content@),
{
    let lines = split_on_exec(content, 10);
    let mut out: Vec<Vec<u8>> = Vec::new();
    let mut i: usize = 0;
    proof {
        assert(views(lines).skip(0) =~= views(lines));
        assert(views(out) + candidates_of_lines(views(lines)) =~= candidates(content@));
    }
    while i < lines.len()
        invariant
            i <= lines@.len(),
            views(lines) == split_on(content@, 10),
            candidates(content@) == views(out) + candidates_of_lines(views(lines).skip(i as int)),
        decreases lines@.len() - i,
    {
        proof {
            assert(views(lines).skip(i as int)[0] == lines@[i as int]@);
            assert(views(lines).skip(i as int).skip(1) =~= views(lines).skip(i + 1));
        }
        match line_candidate_exec(lines[i].as_slice()) {
            Some(v) => {
                let ghost old_out = out;
                out.push(v);
                proof {
                    assert(views(out) =~= views(old_out).push(v@));
                    assert(views(old_out).push(v@) =~~= views(old_out) + seq![v@]);
                    assert(candidates(content@) == views(out) + candidates_of_lines(
                        views(lines).skip(i + 1),
                    ));
                }
            },
            None => {
                proof {
                    assert(line_candidates(lines@[i as int]@) + candidates_of_lines(
                        views(lines).skip(i + 1),
                    ) =~~= candidates_of_lines(views(lines).skip(i + 1)));
                }
            },
        }
        i += 1;
    }
    proof {
        assert(views(lines).skip(lines@.len() as int) =~= Seq::<Seq<u8>>::empty());
        assert(views(out) + candidates_of_lines(Seq::<Seq<u8>>::empty()) =~= views(out));
    }
    out
}

} // verus!
