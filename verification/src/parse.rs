use vstd::prelude::*;

use crate::graph::Graph;

verus! {

/// The bytes that separate tokens within a line: space, tab, carriage
/// return, vertical tab and form feed.
pub open spec fn is_space(b: u8) -> bool {
    b == 32 || b == 9 || b == 13 || b == 11 || b == 12
}

/// The position of the first newline at or after `i`, or the length if none.
pub open spec fn find_nl(data: Seq<u8>, i: int) -> int
    decreases data.len() - i,
{
    if i >= data.len() || i < 0 {
        data.len() as int
    } else if data[i] == 10 {
        i
    } else {
        find_nl(data, i + 1)
    }
}

/// The text split at newlines; a trailing newline closes the last line
/// rather than opening an empty one.
pub open spec fn split_lines(data: Seq<u8>) -> Seq<Seq<u8>>
    decreases data.len(),
{
    if data.len() == 0 {
        Seq::empty()
    } else {
        let j = find_nl(data, 0);
        if 0 <= j && j < data.len() {
            seq![data.take(j)] + split_lines(data.skip(j + 1))
        } else {
            seq![data]
        }
    }
}

/// The position of the first non-space byte at or after `i`, or the length.
pub open spec fn skip_spaces(line: Seq<u8>, i: int) -> int
    decreases line.len() - i,
{
    if i >= line.len() || i < 0 {
        line.len() as int
    } else if is_space(line[i]) {
        skip_spaces(line, i + 1)
    } else {
        i
    }
}

/// The position of the first space at or after `i`, or the length.
pub open spec fn token_end(line: Seq<u8>, i: int) -> int
    decreases line.len() - i,
{
    if i >= line.len() || i < 0 {
        line.len() as int
    } else if is_space(line[i]) {
        i
    } else {
        token_end(line, i + 1)
    }
}

/// The maximal runs of non-space bytes at or after `i`.
pub open spec fn tokens_from(line: Seq<u8>, i: int) -> Seq<Seq<u8>>
    decreases line.len() - i,
{
    let s = skip_spaces(line, i);
    if i <= s && s < line.len() {
        let t = token_end(line, s);
        if s < t && t <= line.len() {
            seq![line.subrange(s, t)] + tokens_from(line, t)
        } else {
            Seq::empty()
        }
    } else {
        Seq::empty()
    }
}

/// The whitespace-separated tokens of a line.
pub open spec fn tokens(line: Seq<u8>) -> Seq<Seq<u8>> {
    tokens_from(line, 0)
}

/// The line opens with `//`.
pub open spec fn is_comment(line: Seq<u8>) -> bool {
    line.len() >= 2 && line[0] == 47 && line[1] == 47
}

/// The numeric value of a run of decimal digits.
pub open spec fn digits_value(tok: Seq<u8>) -> int
    decreases tok.len(),
{
    if tok.len() == 0 {
        0
    } else {
        digits_value(tok.drop_last()) * 10 + (tok.last() - 48)
    }
}

pub open spec fn all_digits(tok: Seq<u8>) -> bool {
    forall|i: int| 0 <= i < tok.len() ==> 48 <= #[trigger] tok[i] <= 57
}

/// An unsigned decimal number with an optional leading `+`, as `parse`
/// accepts it, provided its value fits the machine word.
pub open spec fn parse_usize(tok: Seq<u8>) -> Option<usize> {
    let body = if tok.len() >= 1 && tok[0] == 43 {
        tok.skip(1)
    } else {
        tok
    };
    if body.len() >= 1 && all_digits(body) && digits_value(body) <= usize::MAX {
        Some(digits_value(body) as usize)
    } else {
        None
    }
}

/// What one line contributes: nothing for a comment or for a line without
/// exactly two tokens, one edge for a well-formed pair, and a parse failure
/// for a two-token line whose tokens are not numbers.
pub open spec fn line_pairs(line: Seq<u8>) -> Option<Seq<(usize, usize)>> {
    if is_comment(line) {
        Some(Seq::empty())
    } else if tokens(line).len() == 2 {
        match (parse_usize(tokens(line)[0]), parse_usize(tokens(line)[1])) {
            (Some(a), Some(b)) => Some(seq![(a, b)]),
            _ => None,
        }
    } else {
        Some(Seq::empty())
    }
}

/// The edges contributed by a list of lines, in order; a parse failure on
/// any line fails the whole text.
pub open spec fn pairs_of_lines(ls: Seq<Seq<u8>>) -> Option<Seq<(usize, usize)>>
    decreases ls.len(),
{
    if ls.len() == 0 {
        Some(Seq::empty())
    } else {
        match (line_pairs(ls[0]), pairs_of_lines(ls.skip(1))) {
            (Some(a), Some(b)) => Some(a + b),
            _ => None,
        }
    }
}

/// The edge pairs encoded by an edge-list text.
pub open spec fn parse_pairs(data: Seq<u8>) -> Option<Seq<(usize, usize)>> {
    pairs_of_lines(split_lines(data))
}

/// The largest node id referenced by the pairs, or zero if there are none.
pub open spec fn max_id(pairs: Seq<(usize, usize)>) -> int
    decreases pairs.len(),
{
    if pairs.len() == 0 {
        0
    } else {
        let m = max_id(pairs.drop_last());
        let p = pairs.last();
        if p.0 as int > m && p.0 >= p.1 {
            p.0 as int
        } else if p.1 as int > m {
            p.1 as int
        } else {
            m
        }
    }
}

/// The targets of the pairs whose source is `u`, in order.
pub open spec fn row_of(pairs: Seq<(usize, usize)>, u: int) -> Seq<usize>
    decreases pairs.len(),
{
    if pairs.len() == 0 {
        Seq::empty()
    } else if pairs.last().0 as int == u {
        row_of(pairs.drop_last(), u).push(pairs.last().1)
    } else {
        row_of(pairs.drop_last(), u)
    }
}

/// Digit runs have nonnegative values.
proof fn lemma_digits_nonneg(tok: Seq<u8>)
    requires
        all_digits(tok),
    ensures
        digits_value(tok) >= 0,
    decreases tok.len(),
{
    if tok.len() > 0 {
        assert(all_digits(tok.drop_last()));
        lemma_digits_nonneg(tok.drop_last());
    }
}

/// Extending a digit run never shrinks its value.
proof fn lemma_digits_monotone(tok: Seq<u8>, m: int)
    requires
        all_digits(tok),
        0 <= m <= tok.len(),
    ensures
        digits_value(tok) >= digits_value(tok.take(m)),
    decreases tok.len(),
{
    if m < tok.len() {
        assert(all_digits(tok.drop_last()));
        assert(tok.drop_last().take(m) =~= tok.take(m));
        lemma_digits_monotone(tok.drop_last(), m);
        lemma_digits_nonneg(tok.drop_last());
    } else {
        assert(tok.take(m) =~= tok);
    }
}

/// What one line outcome can be.
enum LineOutcome {
    Skipped,
    Edge(usize, usize),
    Malformed,
}

fn is_space_byte(b: u8) -> (r: bool)
    ensures
        r == is_space(b),
{
    b == 32 || b == 9 || b == 13 || b == 11 || b == 12
}

/// Scans for the first newline at or after `pos`.
fn scan_line_end(data: &[u8], pos: usize) -> (e: usize)
    requires
        pos <= data@.len(),
    ensures
        pos <= e <= data@.len(),
        forall|k: int| pos <= k < e ==> data@[k] != 10,
        e == data@.len() || data@[e as int] == 10,
{
    let n = data.len();
    let mut e = pos;
    while e < n && data[e] != 10
        invariant
            pos <= e <= n,
            n == data@.len(),
            forall|k: int| pos <= k < e ==> data@[k] != 10,
        decreases n - e,
    {
        e = e + 1;
    }
    e
}

/// Reads an unsigned decimal number, with an optional leading `+`, from
/// `data[start .. end]`, exactly as `parse` would accept it.
fn parse_number(data: &[u8], start: usize, end: usize) -> (r: Option<usize>)
    requires
        start <= end,
        end <= data@.len(),
    ensures
        r == parse_usize(data@.subrange(start as int, end as int)),
{
    let ghost tok = data@.subrange(start as int, end as int);
    let mut i = start;
    if i < end && data[i] == 43 {
        i = i + 1;
    }
    let ghost body = data@.subrange(i as int, end as int);
    proof {
        if start < end && data@[start as int] == 43 {
            assert(body =~= tok.skip(1));
        } else {
            assert(body =~= tok);
        }
    }
    if i == end {
        return None;
    }
    let i0 = i;
    let mut val: usize = 0;
    while i < end
        invariant
            i0 <= i <= end,
            end <= data@.len(),
            body == data@.subrange(i0 as int, end as int),
            body.len() > 0,
            all_digits(data@.subrange(i0 as int, i as int)),
            val == digits_value(data@.subrange(i0 as int, i as int)),
            val <= usize::MAX,
        decreases end - i,
    {
        let b = data[i];
        let ghost prefix = data@.subrange(i0 as int, i as int);
        let ghost prefix1 = data@.subrange(i0 as int, i as int + 1);
        proof {
            assert(prefix1.drop_last() =~= prefix);
            assert(prefix1.last() == data@[i as int]);
            assert(prefix1 =~= body.take(i as int + 1 - i0));
        }
        if b < 48 || b > 57 {
            proof {
                assert(body[i as int - i0] == data@[i as int]);
                assert(!all_digits(body));
            }
            return None;
        }
        let d = (b - 48) as usize;
        if val > (usize::MAX - d) / 10 {
            proof {
                // the digits already read are too large, and more digits
                // cannot make the number smaller
                assert(digits_value(prefix1) == val * 10 + d);
                assert(val * 10 >= ((usize::MAX - d) / 10 + 1) * 10);
                assert(digits_value(prefix1) > usize::MAX);
                if all_digits(body) {
                    lemma_digits_monotone(body, i as int + 1 - i0);
                }
            }
            return None;
        }
        proof {
            assert(val * 10 <= ((usize::MAX - d) / 10) * 10);
        }
        val = val * 10 + d;
        i = i + 1;
    }
    proof {
        assert(data@.subrange(i0 as int, i as int) =~= body);
        lemma_digits_nonneg(body);
    }
    Some(val)
}

/// Reads one line of an edge list: a comment or a line without exactly two
/// tokens contributes nothing, a two-token line is an edge or a parse
/// failure.
#[verifier::rlimit(60)]
fn parse_line(data: &[u8], start: usize, end: usize) -> (r: LineOutcome)
    requires
        start <= end,
        end <= data@.len(),
    ensures
        ({
            let lp = line_pairs(data@.subrange(start as int, end as int));
            match r {
                LineOutcome::Skipped => lp == Some(Seq::<(usize, usize)>::empty()),
                LineOutcome::Edge(a, b) => lp == Some(seq![(a, b)]),
                LineOutcome::Malformed => lp.is_none(),
            }
        }),
{
    let ghost line = data@.subrange(start as int, end as int);
    if end - start >= 2 && data[start] == 47 && data[start + 1] == 47 {
        proof {
            assert(line[0] == data@[start as int] && line[1] == data@[start as int + 1]);
            assert(is_comment(line));
        }
        return LineOutcome::Skipped;
    }
    proof {
        assert(!is_comment(line));
    }
    let mut count: usize = 0;
    let mut t0s: usize = 0;
    let mut t0e: usize = 0;
    let mut t1s: usize = 0;
    let mut t1e: usize = 0;
    let mut i = start;
    let ghost mut seen: Seq<Seq<u8>> = Seq::empty();
    proof {
        assert(tokens(line) =~= seen + tokens_from(line, 0));
    }
    loop
        invariant
            start <= i <= end,
            end <= data@.len(),
            line == data@.subrange(start as int, end as int),
            tokens(line) == seen + tokens_from(line, i as int - start),
            count == if seen.len() < 3 {
                seen.len() as usize
            } else {
                3usize
            },
            seen.len() >= 1 ==> start <= t0s <= t0e <= end && seen[0] == data@.subrange(
                t0s as int,
                t0e as int,
            ),
            seen.len() >= 2 ==> start <= t1s <= t1e <= end && seen[1] == data@.subrange(
                t1s as int,
                t1e as int,
            ),
        decreases end - i,
    {
        let ghost i_entry = i as int;
        // skip the separating spaces
        while i < end && is_space_byte(data[i])
            invariant
                i_entry <= i as int,
                start <= i <= end,
                end <= data@.len(),
                line == data@.subrange(start as int, end as int),
                tokens(line) == seen + tokens_from(line, i as int - start),
            decreases end - i,
        {
            proof {
                assert(line[i as int - start] == data@[i as int]);
                assert(skip_spaces(line, i as int - start) == skip_spaces(
                    line,
                    i as int + 1 - start,
                ));
            }
            i = i + 1;
        }
        if i == end {
            proof {
                assert(skip_spaces(line, i as int - start) == line.len() as int) by {
                    lemma_skip_spaces_char(line, i as int - start, line.len() as int);
                }
                assert(tokens_from(line, i as int - start) =~= Seq::<Seq<u8>>::empty());
                assert(tokens(line) =~= seen);
            }
            break ;
        }
        assert(!is_space(data@[i as int]));
        let ts = i;
        while i < end && !is_space_byte(data[i])
            invariant
                start <= ts <= i <= end,
                end <= data@.len(),
                line == data@.subrange(start as int, end as int),
                forall|k: int| ts <= k < i ==> !is_space(data@[k]),
            decreases end - i,
        {
            i = i + 1;
        }
        let te = i;
        proof {
            assert(te > ts);
            assert(forall|k: int|
                ts - start <= k < te - start ==> #[trigger] line[k] == data@[k + start]);
            assert(skip_spaces(line, ts as int - start) == ts - start) by {
                lemma_skip_spaces_char(line, ts as int - start, ts as int - start);
            }
            assert(token_end(line, ts as int - start) == te - start) by {
                lemma_token_end_char(line, ts as int - start, te as int - start);
            }
            assert(ts < te);
            assert(tokens_from(line, ts as int - start) == seq![
                line.subrange(ts - start, te - start),
            ] + tokens_from(line, te as int - start));
            assert(line.subrange(ts - start, te - start) =~= data@.subrange(
                ts as int,
                te as int,
            ));
            seen = seen.push(data@.subrange(ts as int, te as int));
            assert(tokens(line) =~= seen + tokens_from(line, te as int - start));
        }
        if count == 0 {
            t0s = ts;
            t0e = te;
            count = 1;
        } else if count == 1 {
            t1s = ts;
            t1e = te;
            count = 2;
        } else {
            count = 3;
        }
    }
    if count == 2 {
        let a = parse_number(data, t0s, t0e);
        let b = parse_number(data, t1s, t1e);
        proof {
            assert(tokens(line).len() == 2);
            assert(tokens(line)[0] == data@.subrange(t0s as int, t0e as int));
            assert(tokens(line)[1] == data@.subrange(t1s as int, t1e as int));
        }
        match (a, b) {
            (Some(x), Some(y)) => LineOutcome::Edge(x, y),
            _ => LineOutcome::Malformed,
        }
    } else {
        proof {
            assert(tokens(line).len() != 2);
        }
        LineOutcome::Skipped
    }
}

impl Graph {
    /// Builds a graph from a plain-text edge list: one `src dst` pair of
    /// decimal node ids per whitespace-separated line, blank lines and lines
    /// opening with `//` ignored, as are lines without exactly two tokens;
    /// a two-token line that is not a pair of numbers is an error. The node
    /// count is the largest referenced id plus one (one node when no edge is
    /// given); an id that exhausts the machine word is rejected, since no
    /// node count could then be formed.
    #[verifier::rlimit(100)]
    pub fn from_edge_list(data: &[u8]) -> (r: Option<Graph>)
        ensures
            r.is_some() <==> (parse_pairs(data@).is_some() && max_id(parse_pairs(data@).unwrap())
                < usize::MAX),
            r.is_some() ==> ({
                let pairs = parse_pairs(data@).unwrap();
                let g = r.unwrap();
                &&& g.wf()
                &&& g.num_nodes == max_id(pairs) + 1
                &&& g.edges@.len() == g.num_nodes
                &&& forall|u: int|
                    0 <= u < g.edges@.len() ==> (#[trigger] g.edges@[u])@ == row_of(pairs, u)
            }),
    {
        let n = data.len();
        let mut pairs: Vec<(usize, usize)> = Vec::new();
        let mut max_node: usize = 0;
        let mut pos: usize = 0;
        proof {
            assert(data@.skip(0) =~= data@);
            if pairs_of_lines(split_lines(data@)).is_some() {
                let rest = pairs_of_lines(split_lines(data@)).unwrap();
                assert(pairs@ + rest =~= rest);
            }
        }
        while pos < n
            invariant
                pos <= n,
                n == data@.len(),
                max_node == max_id(pairs@),
                forall|k: int|
                    0 <= k < pairs@.len() ==> (#[trigger] pairs@[k]).0 <= max_node
                        && pairs@[k].1 <= max_node,
                parse_pairs(data@) == (match pairs_of_lines(split_lines(data@.skip(pos as int))) {
                    Some(rest) => Some(pairs@ + rest),
                    None => None::<Seq<(usize, usize)>>,
                }),
            decreases n - pos,
        {
            let e = scan_line_end(data, pos);
            let ghost suffix = data@.skip(pos as int);
            let ghost lseq = data@.subrange(pos as int, e as int);
            proof {
                assert forall|k: int| 0 <= k < e - pos implies suffix[k] != 10 by {
                    assert(suffix[k] == data@[k + pos]);
                }
                if e < n {
                    assert(suffix[e - pos] == data@[e as int]);
                }
                lemma_find_nl_char(suffix, 0, e as int - pos);
                assert(suffix.take(e as int - pos) =~= lseq);
                if e < n {
                    assert(suffix.skip(e as int - pos + 1) =~= data@.skip(e as int + 1));
                    assert(split_lines(suffix) == seq![lseq] + split_lines(
                        data@.skip(e as int + 1),
                    ));
                    assert((seq![lseq] + split_lines(data@.skip(e as int + 1))).skip(1)
                        =~= split_lines(data@.skip(e as int + 1)));
                } else {
                    assert(suffix.len() > 0);
                    assert(split_lines(suffix) == seq![lseq]);
                    assert(seq![lseq].skip(1) =~= Seq::<Seq<u8>>::empty());
                    assert(data@.skip(n as int) =~= Seq::<u8>::empty());
                }
            }
            let outcome = parse_line(data, pos, e);
            match outcome {
                LineOutcome::Malformed => {
                    proof {
                        assert(pairs_of_lines(split_lines(suffix)).is_none());
                    }
                    return None;
                },
                LineOutcome::Edge(a, b) => {
                    let ghost pairs0 = pairs@;
                    pairs.push((a, b));
                    if a > max_node {
                        max_node = a;
                    }
                    if b > max_node {
                        max_node = b;
                    }
                    proof {
                        assert(pairs@.drop_last() =~= pairs0);
                        assert(pairs@.last() == (a, b));
                        assert(pairs0 + seq![(a, b)] =~= pairs@);
                    }
                },
                LineOutcome::Skipped => {
                    proof {
                        assert(pairs@ + Seq::<(usize, usize)>::empty() =~= pairs@);
                    }
                },
            }
            proof {
                if e < n {
                    assert((pairs@ + (match line_pairs(lseq) {
                        Some(x) => x,
                        None => Seq::empty(),
                    })) + (match pairs_of_lines(split_lines(data@.skip(e as int + 1))) {
                        Some(y) => y,
                        None => Seq::empty(),
                    }) =~= pairs@ + ((match line_pairs(lseq) {
                        Some(x) => x,
                        None => Seq::empty(),
                    }) + (match pairs_of_lines(split_lines(data@.skip(e as int + 1))) {
                        Some(y) => y,
                        None => Seq::empty(),
                    })));
                } else {
                    assert(pairs_of_lines(Seq::<Seq<u8>>::empty()) == Some(
                        Seq::<(usize, usize)>::empty(),
                    ));
                }
            }
            if e < n {
                pos = e + 1;
            } else {
                pos = n;
            }
        }
        proof {
            assert(data@.skip(n as int) =~= Seq::<u8>::empty());
            assert(split_lines(Seq::<u8>::empty()) =~= Seq::<Seq<u8>>::empty());
            assert(pairs@ + Seq::<(usize, usize)>::empty() =~= pairs@);
            assert(parse_pairs(data@) == Some(pairs@));
        }
        if max_node == usize::MAX {
            return None;
        }
        let num_nodes = max_node + 1;
        let mut edges: Vec<Vec<usize>> = Vec::new();
        let mut u: usize = 0;
        while u < num_nodes
            invariant
                u <= num_nodes,
                edges@.len() == u,
                forall|w: int| 0 <= w < u ==> (#[trigger] edges@[w])@.len() == 0,
            decreases num_nodes - u,
        {
            edges.push(Vec::new());
            u = u + 1;
        }
        proof {
            assert forall|w: int| 0 <= w < num_nodes implies (#[trigger] edges@[w])@ == row_of(
                pairs@.take(0),
                w,
            ) by {
                assert(pairs@.take(0) =~= Seq::<(usize, usize)>::empty());
                assert(edges@[w]@ =~= Seq::<usize>::empty());
            }
        }
        let m = pairs.len();
        let mut k: usize = 0;
        while k < m
            invariant
                k <= m,
                m == pairs@.len(),
                num_nodes == max_node + 1,
                max_node == max_id(pairs@),
                forall|j: int|
                    0 <= j < pairs@.len() ==> (#[trigger] pairs@[j]).0 <= max_node
                        && pairs@[j].1 <= max_node,
                edges@.len() == num_nodes,
                forall|w: int|
                    0 <= w < num_nodes ==> (#[trigger] edges@[w])@ == row_of(
                        pairs@.take(k as int),
                        w,
                    ),
            decreases m - k,
        {
            let (a, b) = pairs[k];
            let ghost edges0 = edges@;
            edges[a].push(b);
            proof {
                assert(pairs@.take(k as int + 1).drop_last() =~= pairs@.take(k as int));
                assert(pairs@.take(k as int + 1).last() == pairs@[k as int]);
                assert forall|w: int| 0 <= w < num_nodes implies (#[trigger] edges@[w])@ == row_of(
                    pairs@.take(k as int + 1),
                    w,
                ) by {
                    if w == a as int {
                        assert(edges@[w]@ =~= edges0[w]@.push(b));
                    } else {
                        assert(edges@[w]@ == edges0[w]@);
                    }
                }
            }
            k = k + 1;
        }
        proof {
            assert(pairs@.take(m as int) =~= pairs@);
            assert forall|w: int, j: int|
                0 <= w < num_nodes && 0 <= j < edges@[w]@.len() implies (#[trigger] edges@[w]@[j])
                < num_nodes by {
                lemma_row_of_bound(pairs@, w, max_node as int);
            }
        }
        Some(Graph { num_nodes, edges })
    }
}

/// Every target stored in a row is bounded by the bound on the pairs.
proof fn lemma_row_of_bound(pairs: Seq<(usize, usize)>, u: int, bound: int)
    requires
        forall|k: int| 0 <= k < pairs.len() ==> (#[trigger] pairs[k]).1 <= bound,
    ensures
        forall|j: int| 0 <= j < row_of(pairs, u).len() ==> #[trigger] row_of(pairs, u)[j] <= bound,
    decreases pairs.len(),
{
    if pairs.len() > 0 {
        assert(forall|k: int|
            0 <= k < pairs.drop_last().len() ==> (#[trigger] pairs.drop_last()[k]).1 <= bound);
        lemma_row_of_bound(pairs.drop_last(), u, bound);
        assert(pairs.last().1 <= bound);
        assert forall|j: int|
            0 <= j < row_of(pairs, u).len() implies #[trigger] row_of(pairs, u)[j] <= bound by {
            if pairs.last().0 as int == u {
                if j < row_of(pairs, u).len() - 1 {
                    assert(row_of(pairs, u)[j] == row_of(pairs.drop_last(), u)[j]);
                } else {
                    assert(row_of(pairs, u)[j] == pairs.last().1);
                }
            } else {
                assert(row_of(pairs, u)[j] == row_of(pairs.drop_last(), u)[j]);
            }
        }
    }
}

proof fn lemma_find_nl_char(data: Seq<u8>, i: int, j: int)
    requires
        0 <= i <= j <= data.len(),
        forall|k: int| i <= k < j ==> data[k] != 10,
        j == data.len() || data[j] == 10,
    ensures
        find_nl(data, i) == j,
    decreases j - i,
{
    if i < j {
        lemma_find_nl_char(data, i + 1, j);
    }
}

proof fn lemma_skip_spaces_char(line: Seq<u8>, i: int, s: int)
    requires
        0 <= i <= s <= line.len(),
        forall|k: int| i <= k < s ==> is_space(line[k]),
        s == line.len() || !is_space(line[s]),
    ensures
        skip_spaces(line, i) == s,
    decreases s - i,
{
    if i < s {
        lemma_skip_spaces_char(line, i + 1, s);
    }
}

proof fn lemma_token_end_char(line: Seq<u8>, i: int, t: int)
    requires
        0 <= i <= t <= line.len(),
        forall|k: int| i <= k < t ==> !is_space(line[k]),
        t == line.len() || is_space(line[t]),
    ensures
        token_end(line, i) == t,
    decreases t - i,
{
    if i < t {
        lemma_token_end_char(line, i + 1, t);
    }
}

} // verus!
