//! `ELSE` and `ELSE IF` chains, rewritten into plain `IF ... E` blocks that
//! jump to a common end label.
use vstd::prelude::*;
use crate::text::{decimal, int_text};
use crate::tokens::{RawToken, RawTok, clone_line, is_kw, raw_is_kw, raw_line_of};
use vstd::slice::slice_subrange;

verus! {

/// The lines of a slice of token lines, as values.
pub open spec fn lines_of(s: Seq<Vec<RawToken>>) -> Seq<Seq<RawTok>> {
    Seq::new(s.len(), |i: int| s[i].deep_view())
}

/// `IF c`
pub open spec fn is_if_line(l: Seq<RawTok>) -> bool {
    l.len() == 2 && is_kw(l[0], "IF"@) && l[1] is Number
}

/// `ELSE IF c`
pub open spec fn is_else_if_line(l: Seq<RawTok>) -> bool {
    l.len() == 3 && is_kw(l[0], "ELSE"@) && is_kw(l[1], "IF"@) && l[2] is Number
}

/// `ELSE`
pub open spec fn is_else_line(l: Seq<RawTok>) -> bool {
    l.len() == 1 && is_kw(l[0], "ELSE"@)
}

/// `E`
pub open spec fn is_end_line(l: Seq<RawTok>) -> bool {
    l.len() == 1 && is_kw(l[0], "E"@)
}

/// The condition of a chain's header line, if it has one.
pub open spec fn header_cond(l: Seq<RawTok>) -> Option<Seq<char>> {
    if is_if_line(l) {
        match l[1] {
            RawTok::Number(c, _) => Some(c),
            _ => None,
        }
    } else if is_else_if_line(l) {
        match l[2] {
            RawTok::Number(c, _) => Some(c),
            _ => None,
        }
    } else {
        None
    }
}

/// The line number of a line: that of its first token, or 0.
pub open spec fn line_num(l: Seq<RawTok>) -> i32 {
    if l.len() > 0 { raw_line_of(l[0]) } else { 0 }
}

/// Scans a block body from `i`, nested `IF`s counted in `depth`: where it
/// stops and why: 0 at the end of the lines, 1 at the `E` that closes it,
/// 2 at an `ELSE` or `ELSE IF` of the same level.
pub open spec fn body_end(t: Seq<Seq<RawTok>>, i: int, depth: int) -> (int, int)
    decreases t.len() - i,
{
    if i < 0 || i >= t.len() {
        (t.len() as int, 0)
    } else if is_if_line(t[i]) {
        body_end(t, i + 1, depth + 1)
    } else if is_end_line(t[i]) {
        if depth == 0 {
            (i, 1)
        } else {
            body_end(t, i + 1, depth - 1)
        }
    } else if depth == 0 && (is_else_if_line(t[i]) || is_else_line(t[i])) {
        (i, 2)
    } else {
        body_end(t, i + 1, depth)
    }
}

/// The `IF` at `pos` has an `ELSE` or `ELSE IF` of its own.
pub open spec fn is_chain_start(t: Seq<Seq<RawTok>>, pos: int) -> bool {
    0 <= pos < t.len() && is_if_line(t[pos]) && body_end(t, pos + 1, 0).1 == 2
}

/// Where the chain goes on after the block whose header stands at `pos`,
/// or -1 where that block is its last.
pub open spec fn next_header(t: Seq<Seq<RawTok>>, pos: int) -> int {
    let (stop, kind) = body_end(t, pos + 1, 0);
    let nxt = if kind == 1 { stop + 1 } else { stop };
    if kind != 0 && nxt < t.len() && (is_else_if_line(t[nxt]) || is_else_line(t[nxt])) {
        nxt
    } else {
        -1
    }
}

/// The blocks of the chain from the header at `pos`: condition, first and
/// one-past-last line of the body.
pub open spec fn chain_blocks(t: Seq<Seq<RawTok>>, pos: int) -> Seq<(Option<Seq<char>>, int, int)>
    decreases t.len() - pos,
{
    if pos < 0 || pos >= t.len() {
        Seq::empty()
    } else {
        let (stop, kind) = body_end(t, pos + 1, 0);
        if kind == 0 {
            Seq::empty()
        } else {
            let b = (header_cond(t[pos]), pos + 1, stop);
            let nxt = next_header(t, pos);
            if nxt > pos {
                seq![b] + chain_blocks(t, nxt)
            } else {
                seq![b]
            }
        }
    }
}

/// The first line after the chain from the header at `pos`.
pub open spec fn chain_end(t: Seq<Seq<RawTok>>, pos: int) -> int
    decreases t.len() - pos,
{
    if pos < 0 || pos >= t.len() {
        t.len() as int
    } else {
        let (stop, kind) = body_end(t, pos + 1, 0);
        if kind == 0 {
            t.len() as int
        } else {
            let nxt = next_header(t, pos);
            if nxt > pos {
                chain_end(t, nxt)
            } else if kind == 1 {
                stop + 1
            } else {
                stop
            }
        }
    }
}

/// `__close_else_<id>`
pub open spec fn close_label(id: int) -> Seq<char> {
    "__close_else_"@ + decimal(id)
}

/// `__else_<id>_<k>`
pub open spec fn else_label(id: int, k: int) -> Seq<char> {
    "__else_"@ + decimal(id) + "_"@ + decimal(k)
}

/// The output of the chain's blocks from the `k`-th on, with `cur` the
/// chain's own label number and `id` the next free one.
pub open spec fn gen_blocks(t: Seq<Seq<RawTok>>, bs: Seq<(Option<Seq<char>>, int, int)>, k: int, cur: int, id: int) -> (Seq<Seq<RawTok>>, int)
    decreases t.len(), 0int, bs.len() - k,
{
    if k < 0 || k >= bs.len() {
        (Seq::empty(), id)
    } else {
        let (cond, bstart, bend) = bs[k];
        if !(0 < bstart <= bend <= t.len() && bstart < t.len()) {
            (Seq::empty(), id)
        } else {
            let l_n = line_num(t[bstart]);
            let label = if k > 0 {
                seq![seq![RawTok::LabelP(else_label(cur, k - 1), l_n)]]
            } else {
                Seq::empty()
            };
            let test = match cond {
                Some(c) => seq![seq![RawTok::Keyword("IF"@, l_n), RawTok::Number(c, l_n)]],
                None => Seq::empty(),
            };
            let (body, id2) = process_from(t.subrange(bstart, bend), 0, id);
            let tail = if k < bs.len() - 1 {
                seq![
                    seq![RawTok::Keyword("G"@, l_n), RawTok::LabelP(close_label(cur), l_n)],
                    seq![RawTok::Keyword("E"@, l_n)],
                ]
            } else {
                let end_l = if bend < t.len() { line_num(t[bend]) } else { l_n };
                seq![seq![RawTok::LabelP(close_label(cur), end_l)]]
            };
            let (rest, id3) = gen_blocks(t, bs, k + 1, cur, id2);
            (label + test + body + tail + rest, id3)
        }
    }
}

/// The output for the lines from `i`, with `id` the next free label number:
/// each `IF` that starts an `ELSE` chain is rewritten, other lines stay.
pub open spec fn process_from(t: Seq<Seq<RawTok>>, i: int, id: int) -> (Seq<Seq<RawTok>>, int)
    decreases t.len(), 1int, t.len() - i,
{
    if i < 0 || i >= t.len() {
        (Seq::empty(), id)
    } else if is_chain_start(t, i) {
        let (out, id2) = gen_blocks(t, chain_blocks(t, i), 0, id, id + 1);
        let e = chain_end(t, i);
        if i < e <= t.len() {
            let (rest, id3) = process_from(t, e, id2);
            (out + rest, id3)
        } else {
            (out, id2)
        }
    } else {
        let (rest, id2) = process_from(t, i + 1, id);
        (seq![t[i]] + rest, id2)
    }
}

/// What `else_processing` gives.
pub open spec fn else_spec(t: Seq<Seq<RawTok>>) -> Seq<Seq<RawTok>> {
    process_from(t, 0, 0).0
}

} // verus!

verus! {

/// The total length of the bodies of blocks `k..` of `bs`.
pub open spec fn bodies_len(bs: Seq<(Option<Seq<char>>, int, int)>, k: int) -> int
    decreases bs.len() - k,
{
    if k < 0 || k >= bs.len() {
        0
    } else {
        (bs[k].2 - bs[k].1) + bodies_len(bs, k + 1)
    }
}

/// Every block's body lies inside the lines, after the header at `pos`.
pub open spec fn blocks_inside(t: Seq<Seq<RawTok>>, bs: Seq<(Option<Seq<char>>, int, int)>, pos: int) -> bool {
    forall|j: int| 0 <= j < bs.len() ==> pos < (#[trigger] bs[j]).1 <= bs[j].2 < t.len()
}

proof fn lemma_body_end(t: Seq<Seq<RawTok>>, i: int, depth: int)
    requires
        0 <= i <= t.len(),
    ensures
        ({
            let (s, k) = body_end(t, i, depth);
            &&& i <= s <= t.len()
            &&& 0 <= k <= 2
            &&& k == 0 <==> s == t.len()
            &&& k == 1 ==> is_end_line(t[s])
            &&& k == 2 ==> (is_else_if_line(t[s]) || is_else_line(t[s]))
        }),
    decreases t.len() - i,
{
    if i < t.len() {
        if is_if_line(t[i]) {
            lemma_body_end(t, i + 1, depth + 1);
        } else if is_end_line(t[i]) {
            if depth != 0 {
                lemma_body_end(t, i + 1, depth - 1);
            }
        } else if !(depth == 0 && (is_else_if_line(t[i]) || is_else_line(t[i]))) {
            lemma_body_end(t, i + 1, depth);
        }
    }
}

proof fn lemma_bodies_shift(b: (Option<Seq<char>>, int, int), rest: Seq<(Option<Seq<char>>, int, int)>, k: int)
    requires
        0 <= k,
    ensures
        bodies_len(seq![b] + rest, k + 1) == bodies_len(rest, k),
    decreases rest.len() - k,
{
    if k < rest.len() {
        assert((seq![b] + rest)[k + 1] == rest[k]);
        lemma_bodies_shift(b, rest, k + 1);
    }
}

proof fn lemma_chain(t: Seq<Seq<RawTok>>, pos: int)
    requires
        0 <= pos < t.len(),
    ensures
        pos < chain_end(t, pos) <= t.len(),
        blocks_inside(t, chain_blocks(t, pos), pos),
        bodies_len(chain_blocks(t, pos), 0) + 1 <= chain_end(t, pos) - pos,
        chain_blocks(t, pos).len() <= t.len() - pos,
    decreases t.len() - pos,
{
    lemma_body_end(t, pos + 1, 0);
    let (stop, kind) = body_end(t, pos + 1, 0);
    if kind != 0 {
        let b = (header_cond(t[pos]), pos + 1, stop);
        let nxt = next_header(t, pos);
        if nxt > pos {
            lemma_chain(t, nxt);
            let rest = chain_blocks(t, nxt);
            let bs = seq![b] + rest;
            assert(chain_blocks(t, pos) == bs);
            lemma_bodies_shift(b, rest, 0);
            assert(bodies_len(bs, 0) == (stop - pos - 1) + bodies_len(rest, 0));
            assert forall|j: int| 0 <= j < bs.len() implies pos < (#[trigger] bs[j]).1 <= bs[j].2 < t.len() by {
                if j > 0 {
                    assert(bs[j] == rest[j - 1]);
                }
            }
        } else {
            let bs = seq![b];
            assert(chain_blocks(t, pos) == bs);
            assert(bodies_len(bs, 1) == 0);
        }
    }
}

proof fn lemma_bodies_nonneg(t: Seq<Seq<RawTok>>, bs: Seq<(Option<Seq<char>>, int, int)>, k: int, pos: int)
    requires
        blocks_inside(t, bs, pos),
    ensures
        bodies_len(bs, k) >= 0,
    decreases bs.len() - k,
{
    if 0 <= k < bs.len() {
        assert(pos < bs[k].1 <= bs[k].2 < t.len());
        lemma_bodies_nonneg(t, bs, k + 1, pos);
    }
}

proof fn lemma_process_ids(t: Seq<Seq<RawTok>>, i: int, id: int)
    requires
        0 <= i <= t.len(),
    ensures
        id <= process_from(t, i, id).1 <= id + t.len() - i,
    decreases t.len(), 1int, t.len() - i,
{
    if i < t.len() {
        if is_chain_start(t, i) {
            lemma_chain(t, i);
            let bs = chain_blocks(t, i);
            lemma_gen_ids(t, bs, 0, id, id + 1, i);
            let e = chain_end(t, i);
            let id2 = gen_blocks(t, bs, 0, id, id + 1).1;
            lemma_process_ids(t, e, id2);
        } else {
            lemma_process_ids(t, i + 1, id);
        }
    }
}

proof fn lemma_gen_ids(t: Seq<Seq<RawTok>>, bs: Seq<(Option<Seq<char>>, int, int)>, k: int, cur: int, x: int, pos: int)
    requires
        0 <= k,
        0 <= pos,
        blocks_inside(t, bs, pos),
    ensures
        x <= gen_blocks(t, bs, k, cur, x).1 <= x + bodies_len(bs, k),
    decreases t.len(), 0int, bs.len() - k,
{
    if k < bs.len() {
        let (cond, bstart, bend) = bs[k];
        assert(pos < bs[k].1 <= bs[k].2 < t.len());
        let sub = t.subrange(bstart, bend);
        lemma_process_ids(sub, 0, x);
        let id2 = process_from(sub, 0, x).1;
        lemma_gen_ids(t, bs, k + 1, cur, id2, pos);
    }
}

} // verus!

verus! {

fn line_view_at(tokens: &[Vec<RawToken>], i: usize) -> (r: &Vec<RawToken>)
    requires
        i < tokens@.len(),
    ensures
        r.deep_view() == lines_of(tokens@)[i as int],
        r == &tokens@[i as int],
{
    &tokens[i]
}

fn is_if(line: &Vec<RawToken>) -> (b: bool)
    ensures
        b == is_if_line(line.deep_view()),
{
    line.len() == 2 && raw_is_kw(&line[0], "IF") && matches!(line[1], RawToken::Number(_, _))
}

fn is_else_if(line: &Vec<RawToken>) -> (b: bool)
    ensures
        b == is_else_if_line(line.deep_view()),
{
    line.len() == 3 && raw_is_kw(&line[0], "ELSE") && raw_is_kw(&line[1], "IF") && matches!(
        line[2],
        RawToken::Number(_, _)
    )
}

fn is_else(line: &Vec<RawToken>) -> (b: bool)
    ensures
        b == is_else_line(line.deep_view()),
{
    line.len() == 1 && raw_is_kw(&line[0], "ELSE")
}

fn is_end(line: &Vec<RawToken>) -> (b: bool)
    ensures
        b == is_end_line(line.deep_view()),
{
    line.len() == 1 && raw_is_kw(&line[0], "E")
}

} // verus!

verus! {

/// Scans a block body from `from`: where it stops and why (see [`body_end`]).
fn find_body_end(tokens: &[Vec<RawToken>], from: usize) -> (r: (usize, u8))
    requires
        from <= tokens@.len() < i32::MAX,
    ensures
        (r.0 as int, r.1 as int) == body_end(lines_of(tokens@), from as int, 0),
{
    let ghost t = lines_of(tokens@);
    let mut i = from;
    let mut depth: i32 = 0;
    while i < tokens.len()
        invariant
            from <= i <= tokens@.len() < i32::MAX,
            t == lines_of(tokens@),
            0 <= depth <= i - from,
            body_end(t, i as int, depth as int) == body_end(t, from as int, 0),
        decreases tokens.len() - i,
    {
        let line = line_view_at(tokens, i);
        if is_if(line) {
            depth = depth + 1;
        } else if is_end(line) {
            if depth == 0 {
                return (i, 1);
            }
            depth = depth - 1;
        } else if depth == 0 && (is_else_if(line) || is_else(line)) {
            return (i, 2);
        }
        i = i + 1;
    }
    (tokens.len(), 0)
}

/// The `IF` at `pos` starts a chain: an `ELSE` or `ELSE IF` of its own
/// follows before its `E`.
fn is_if_with_else(tokens: &[Vec<RawToken>], pos: usize) -> (b: bool)
    requires
        pos < tokens@.len() < i32::MAX,
    ensures
        b == is_chain_start(lines_of(tokens@), pos as int),
{
    if !is_if(line_view_at(tokens, pos)) {
        return false;
    }
    let (_, kind) = find_body_end(tokens, pos + 1);
    kind == 2
}

/// The line number of a line's first token, or 0 for an empty line.
fn get_line_num(line: &Vec<RawToken>) -> (n: i32)
    ensures
        n == line_num(line.deep_view()),
{
    if line.len() == 0 {
        0
    } else {
        match &line[0] {
            RawToken::Bool(_, n) => *n,
            RawToken::Keyword(_, n) => *n,
            RawToken::LabelP(_, n) => *n,
            RawToken::LabelPD(_, n) => *n,
            RawToken::Number(_, n) => *n,
        }
    }
}

/// The text of an optional string.
pub open spec fn opt_text(o: Option<String>) -> Option<Seq<char>> {
    match o {
        Some(c) => Some(c@),
        None => None,
    }
}

/// A line of one label token.
fn label_line(name: String, l_n: i32) -> (r: Vec<RawToken>)
    ensures
        r.deep_view() == seq![RawTok::LabelP(name@, l_n)],
{
    let mut r: Vec<RawToken> = Vec::new();
    r.push(RawToken::LabelP(name, l_n));
    proof {
        assert(r.deep_view() =~= seq![r@[0]@]);
    }
    r
}

/// `__close_else_<id>`
fn close_label_text(id: i32) -> (s: String)
    ensures
        s@ == close_label(id as int),
{
    let mut s = String::from_str("__close_else_");
    let n = int_text(id as i64);
    s.append(n.as_str());
    s
}

/// `__else_<id>_<k>`
fn else_label_text(id: i32, k: usize) -> (s: String)
    requires
        k < i32::MAX,
    ensures
        s@ == else_label(id as int, k as int),
{
    let mut s = String::from_str("__else_");
    let n = int_text(id as i64);
    s.append(n.as_str());
    s.append("_");
    let m = int_text(k as i64);
    s.append(m.as_str());
    proof {
        assert(s@ =~= else_label(id as int, k as int));
    }
    s
}

/// Appends every line of `more` to `out`.
fn append_lines(out: &mut Vec<Vec<RawToken>>, more: &Vec<Vec<RawToken>>)
    ensures
        final(out).deep_view() == old(out).deep_view() + more.deep_view(),
{
    let ghost before = out.deep_view();
    let mut m: usize = 0;
    while m < more.len()
        invariant
            m <= more@.len(),
            out.deep_view() == before + more.deep_view().take(m as int),
        decreases more.len() - m,
    {
        let ghost mid = out.deep_view();
        out.push(clone_line(&more[m]));
        proof {
            assert(out.deep_view() =~= mid.push(more.deep_view()[m as int]));
            assert(more.deep_view().take(m + 1) =~= more.deep_view().take(m as int).push(more.deep_view()[m as int]));
        }
        m = m + 1;
    }
    proof {
        assert(more.deep_view().take(m as int) =~= more.deep_view());
    }
}

/// Rewrites the `ELSE` chain whose `IF` stands at `start`; gives the output
/// and the first line after the chain. Each block becomes an `IF ... E`
/// (a plain `ELSE` block has no test) that jumps to the chain's end label,
/// and the blocks after the first are entered through labels of their own.
fn process_chain(tokens: &[Vec<RawToken>], start: usize, label_id: &mut i32) -> (r: (Vec<Vec<RawToken>>, usize))
    requires
        is_chain_start(lines_of(tokens@), start as int),
        tokens@.len() < i32::MAX,
        0 <= *old(label_id),
        *old(label_id) + (chain_end(lines_of(tokens@), start as int) - start) <= i32::MAX,
    ensures
        ({
            let t = lines_of(tokens@);
            let (out, id) = gen_blocks(t, chain_blocks(t, start as int), 0, *old(label_id) as int, *old(label_id) + 1);
            &&& r.0.deep_view() == out
            &&& *final(label_id) == id
            &&& r.1 == chain_end(t, start as int)
        }),
    decreases tokens@.len(), 0int,
{
    let ghost t = lines_of(tokens@);
    proof {
        lemma_chain(t, start as int);
    }
    let current_end_label_id = *label_id;
    *label_id = *label_id + 1;
    let end_label = close_label_text(current_end_label_id);

    // collect the blocks: condition, first and one-past-last body line
    let mut blocks: Vec<(Option<String>, usize, usize)> = Vec::new();
    let ghost mut bview: Seq<(Option<Seq<char>>, int, int)> = Seq::empty();
    let mut i = start;
    let mut going = true;
    while going
        invariant
            t == lines_of(tokens@),
            tokens@.len() < i32::MAX,
            start <= i <= tokens@.len(),
            going ==> i < tokens@.len() && bview + chain_blocks(t, i as int) == chain_blocks(t, start as int)
                && chain_end(t, i as int) == chain_end(t, start as int),
            !going ==> bview == chain_blocks(t, start as int) && i == chain_end(t, start as int),
            blocks@.len() == bview.len(),
            forall|k: int| 0 <= k < bview.len() ==> (#[trigger] bview[k]).1 == blocks@[k].1 && bview[k].2
                == blocks@[k].2 && bview[k].0 == opt_text(blocks@[k].0),
        decreases tokens@.len() - i, if going { 1int } else { 0int },
    {
        let line = line_view_at(tokens, i);
        let cond: Option<String> = if is_if(line) {
            match &line[1] {
                RawToken::Number(c, _) => Some(c.clone()),
                _ => None,
            }
        } else if is_else_if(line) {
            match &line[2] {
                RawToken::Number(c, _) => Some(c.clone()),
                _ => None,
            }
        } else {
            None
        };
        let ghost cond_v = opt_text(cond);
        assert(cond_v == header_cond(t[i as int]));
        proof {
            lemma_body_end(t, i + 1, 0);
        }
        let (stop, kind) = find_body_end(tokens, i + 1);
        let ghost here = i;
        if kind == 0 {
            i = tokens.len();
            going = false;
            proof {
                assert(chain_blocks(t, here as int) =~= Seq::<(Option<Seq<char>>, int, int)>::empty());
                assert(bview + chain_blocks(t, here as int) =~= bview);
            }
        } else {
            blocks.push((cond, i + 1, stop));
            proof {
                bview = bview.push((cond_v, here + 1, stop as int));
            }
            i = if kind == 1 { stop + 1 } else { stop };
            if i >= tokens.len() || (!is_else_if(line_view_at(tokens, i)) && !is_else(line_view_at(tokens, i))) {
                going = false;
                proof {
                    assert(next_header(t, here as int) == -1);
                    assert(chain_blocks(t, here as int) =~= seq![(cond_v, here + 1, stop as int)]);
                }
            } else {
                proof {
                    assert(next_header(t, here as int) == i);
                    let rest = chain_blocks(t, i as int);
                    assert(chain_blocks(t, here as int) == seq![(cond_v, here + 1, stop as int)] + rest);
                    assert(bview + rest =~= (bview.drop_last() + seq![(cond_v, here + 1, stop as int)]) + rest);
                }
            }
        }
    }
    proof {
        assert(blocks_inside(t, bview, start as int));
    }

    // emit the blocks
    let mut result: Vec<Vec<RawToken>> = Vec::new();
    let n_blocks = blocks.len();
    let mut idx: usize = 0;
    proof {
        assert(result.deep_view() =~= Seq::<Seq<RawTok>>::empty());
        lemma_gen_ids(t, bview, 0, current_end_label_id as int, current_end_label_id + 1, start as int);
    }
    while idx < n_blocks
        invariant
            t == lines_of(tokens@),
            tokens@.len() < i32::MAX,
            n_blocks == blocks@.len() == bview.len(),
            bview == chain_blocks(t, start as int),
            blocks_inside(t, bview, start as int),
            0 <= current_end_label_id,
            end_label@ == close_label(current_end_label_id as int),
            idx <= n_blocks,
            forall|k: int| 0 <= k < bview.len() ==> (#[trigger] bview[k]).1 == blocks@[k].1 && bview[k].2
                == blocks@[k].2 && bview[k].0 == opt_text(blocks@[k].0),
            current_end_label_id < *label_id,
            n_blocks <= tokens@.len(),
            *label_id + bodies_len(bview, idx as int) <= i32::MAX,
            ({
                let (rest, f) = gen_blocks(t, bview, idx as int, current_end_label_id as int, *label_id as int);
                (result.deep_view() + rest, f) == gen_blocks(t, bview, 0, current_end_label_id as int, current_end_label_id + 1)
            }),
        decreases n_blocks - idx,
    {
        let body_start = blocks[idx].1;
        let body_end_at = blocks[idx].2;
        assert(start < bview[idx as int].1 <= bview[idx as int].2 < t.len());
        let is_last = idx == n_blocks - 1;
        let l_n = get_line_num(line_view_at(tokens, body_start));
        let ghost before = result.deep_view();
        let ghost old_id = *label_id as int;
        let ghost (rest0, f0) = gen_blocks(t, bview, idx as int, current_end_label_id as int, old_id);
        let ghost cur = current_end_label_id as int;
        let ghost label_v: Seq<Seq<RawTok>> = if idx > 0 {
            seq![seq![RawTok::LabelP(else_label(cur, idx - 1), l_n)]]
        } else {
            Seq::empty()
        };
        let ghost test_v: Seq<Seq<RawTok>> = match bview[idx as int].0 {
            Some(c) => seq![seq![RawTok::Keyword("IF"@, l_n), RawTok::Number(c, l_n)]],
            None => Seq::empty(),
        };
        if idx > 0 {
            let label = else_label_text(current_end_label_id, idx - 1);
            result.push(label_line(label, l_n));
        }
        assert(result.deep_view() =~= before + label_v);
        match &blocks[idx].0 {
            Some(c) => {
                let mut test_line: Vec<RawToken> = Vec::new();
                test_line.push(RawToken::Keyword(String::from_str("IF"), l_n));
                test_line.push(RawToken::Number(c.clone(), l_n));
                proof {
                    assert(test_line.deep_view() =~= seq![RawTok::Keyword("IF"@, l_n), RawTok::Number(c@, l_n)]);
                }
                result.push(test_line);
            },
            None => {},
        }
        assert(result.deep_view() =~= before + label_v + test_v);
        let ghost sub = t.subrange(body_start as int, body_end_at as int);
        proof {
            lemma_bodies_nonneg(t, bview, idx + 1, start as int);
            assert(bodies_len(bview, idx as int) == (body_end_at - body_start) + bodies_len(bview, idx + 1));
        }
        let body_slice = slice_subrange(tokens, body_start, body_end_at);
        proof {
            assert(lines_of(body_slice@) =~= sub);
            lemma_process_ids(sub, 0, old_id);
        }
        let processed_body = process_tokens(body_slice, label_id);
        append_lines(&mut result, &processed_body);
        let ghost body_v = processed_body.deep_view();
        assert(result.deep_view() =~= before + label_v + test_v + body_v);
        let ghost tail_v: Seq<Seq<RawTok>> = if idx < bview.len() - 1 {
            seq![
                seq![RawTok::Keyword("G"@, l_n), RawTok::LabelP(close_label(cur), l_n)],
                seq![RawTok::Keyword("E"@, l_n)],
            ]
        } else {
            let end_l = if body_end_at < t.len() { line_num(t[body_end_at as int]) } else { l_n };
            seq![seq![RawTok::LabelP(close_label(cur), end_l)]]
        };
        if !is_last {
            let mut go_line: Vec<RawToken> = Vec::new();
            go_line.push(RawToken::Keyword(String::from_str("G"), l_n));
            go_line.push(RawToken::LabelP(end_label.clone(), l_n));
            let mut e_line: Vec<RawToken> = Vec::new();
            e_line.push(RawToken::Keyword(String::from_str("E"), l_n));
            proof {
                assert(go_line.deep_view() =~= seq![RawTok::Keyword("G"@, l_n), RawTok::LabelP(close_label(current_end_label_id as int), l_n)]);
                assert(e_line.deep_view() =~= seq![RawTok::Keyword("E"@, l_n)]);
            }
            result.push(go_line);
            result.push(e_line);
        } else {
            let end_l_n = if body_end_at < tokens.len() {
                get_line_num(line_view_at(tokens, body_end_at))
            } else {
                l_n
            };
            result.push(label_line(end_label.clone(), end_l_n));
        }
        assert(result.deep_view() =~= before + label_v + test_v + body_v + tail_v);
        proof {
            let (body_s, id2) = process_from(sub, 0, old_id);
            assert(body_s == body_v);
            assert(id2 == *label_id);
            let (rest1, f1) = gen_blocks(t, bview, idx + 1, cur, id2);
            assert(rest0 == label_v + test_v + body_v + tail_v + rest1);
            assert(f0 == f1);
            assert(result.deep_view() + rest1 =~= before + rest0);
        }
        idx = idx + 1;
    }
    proof {
        assert(result.deep_view() + Seq::<Seq<RawTok>>::empty() =~= result.deep_view());
    }
    (result, i)
}

/// Rewrites every `ELSE` chain among `tokens`, numbering the labels from
/// `*label_id` on; other lines are copied.
fn process_tokens(tokens: &[Vec<RawToken>], label_id: &mut i32) -> (r: Vec<Vec<RawToken>>)
    requires
        tokens@.len() < i32::MAX,
        0 <= *old(label_id),
        *old(label_id) + tokens@.len() <= i32::MAX,
    ensures
        (r.deep_view(), *final(label_id) as int) == process_from(lines_of(tokens@), 0, *old(label_id) as int),
    decreases tokens@.len(), 1int,
{
    let ghost t = lines_of(tokens@);
    let ghost id0 = *label_id as int;
    let mut result: Vec<Vec<RawToken>> = Vec::new();
    let mut i: usize = 0;
    proof {
        assert(result.deep_view() =~= Seq::<Seq<RawTok>>::empty());
    }
    while i < tokens.len()
        invariant
            t == lines_of(tokens@),
            tokens@.len() < i32::MAX,
            i <= tokens@.len(),
            0 <= id0 <= *label_id <= id0 + i,
            id0 + tokens@.len() <= i32::MAX,
            ({
                let (rest, f) = process_from(t, i as int, *label_id as int);
                (result.deep_view() + rest, f) == process_from(t, 0, id0)
            }),
        decreases tokens.len() - i,
    {
        let ghost before = result.deep_view();
        let ghost old_id = *label_id as int;
        if is_if_with_else(tokens, i) {
            proof {
                lemma_chain(t, i as int);
                lemma_gen_ids(t, chain_blocks(t, i as int), 0, old_id, old_id + 1, i as int);
            }
            let (block, new_i) = process_chain(tokens, i, label_id);
            append_lines(&mut result, &block);
            proof {
                let (out, id2) = gen_blocks(t, chain_blocks(t, i as int), 0, old_id, old_id + 1);
                let (rest, f) = process_from(t, new_i as int, id2);
                assert(result.deep_view() + rest =~= before + (out + rest));
            }
            i = new_i;
        } else {
            result.push(clone_line(line_view_at(tokens, i)));
            proof {
                let (rest, f) = process_from(t, i + 1, old_id);
                assert(result.deep_view() + rest =~= before + (seq![t[i as int]] + rest));
            }
            i = i + 1;
        }
    }
    proof {
        assert(result.deep_view() + Seq::<Seq<RawTok>>::empty() =~= result.deep_view());
    }
    result
}

/// Rewrites every `IF ... ELSE IF ... ELSE ... E` chain into plain `IF`
/// blocks joined by labels `__else_<n>_<k>` and `__close_else_<n>`; all
/// other lines pass unchanged.
pub fn else_processing(tokens: Vec<Vec<RawToken>>) -> (r: Vec<Vec<RawToken>>)
    requires
        tokens@.len() < i32::MAX,
    ensures
        r.deep_view() == else_spec(tokens.deep_view()),
{
    let mut label_counter: i32 = 0;
    let s = tokens.as_slice();
    proof {
        assert(lines_of(s@) =~= tokens.deep_view());
    }
    process_tokens(s, &mut label_counter)
}


/// No line is an `ELSE` or an `ELSE IF`.
pub open spec fn has_no_else(t: Seq<Seq<RawTok>>) -> bool {
    forall|i: int| 0 <= i < t.len() ==> !is_else_if_line(#[trigger] t[i]) && !is_else_line(t[i])
}

proof fn lemma_body_end_no_else(t: Seq<Seq<RawTok>>, i: int, depth: int)
    requires
        has_no_else(t),
    ensures
        body_end(t, i, depth).1 != 2,
    decreases t.len() - i,
{
    if 0 <= i < t.len() {
        assert(!is_else_if_line(t[i]) && !is_else_line(t[i]));
        if is_if_line(t[i]) {
            lemma_body_end_no_else(t, i + 1, depth + 1);
        } else if is_end_line(t[i]) {
            if depth != 0 {
                lemma_body_end_no_else(t, i + 1, depth - 1);
            }
        } else {
            lemma_body_end_no_else(t, i + 1, depth);
        }
    }
}

proof fn lemma_process_no_else(t: Seq<Seq<RawTok>>, i: int, id: int)
    requires
        has_no_else(t),
        0 <= i <= t.len(),
    ensures
        process_from(t, i, id) == (t.skip(i), id),
    decreases t.len() - i,
{
    if i < t.len() {
        lemma_body_end_no_else(t, i + 1, 0);
        assert(!is_chain_start(t, i));
        lemma_process_no_else(t, i + 1, id);
        assert(seq![t[i]] + t.skip(i + 1) =~= t.skip(i));
    } else {
        assert(t.skip(i) =~= Seq::<Seq<RawTok>>::empty());
    }
}

/// Without `ELSE` lines the pass changes nothing.
pub proof fn law_no_else_unchanged(t: Seq<Seq<RawTok>>)
    requires
        has_no_else(t),
    ensures
        else_spec(t) == t,
{
    lemma_process_no_else(t, 0, 0);
    assert(t.skip(0) =~= t);
}


proof fn lemma_body_end_shift(t: Seq<Seq<RawTok>>, k: int, e: int, d: int)
    requires
        0 <= k,
        0 <= e,
        0 <= d,
        body_end(t, k, e).1 == 1,
    ensures
        body_end(t, k, e + d + 1) == body_end(t, body_end(t, k, e).0 + 1, d),
    decreases t.len() - k,
{
    if k < t.len() {
        if is_if_line(t[k]) {
            lemma_body_end_shift(t, k + 1, e + 1, d);
        } else if is_end_line(t[k]) {
            if e > 0 {
                lemma_body_end_shift(t, k + 1, e - 1, d);
            }
        } else if e == 0 && (is_else_if_line(t[k]) || is_else_line(t[k])) {
        } else {
            lemma_body_end_shift(t, k + 1, e, d);
        }
    }
}

/// A nested `IF ... E` is skipped as a whole: scanning from an `IF` line at
/// any depth goes on, at that same depth, after the `E` that closes it. So
/// an `E` closes the enclosing `IF` only once every `IF` opened inside it is
/// closed, and an `ELSE` after a nested block belongs to the enclosing `IF`.
pub proof fn law_nested_if_skipped(t: Seq<Seq<RawTok>>, i: int, d: int)
    requires
        0 <= i < t.len(),
        is_if_line(t[i]),
        body_end(t, i + 1, 0).1 == 1,
        0 <= d,
    ensures
        body_end(t, i, d) == body_end(t, body_end(t, i + 1, 0).0 + 1, d),
{
    lemma_body_end_shift(t, i + 1, 0, d);
}

/// An `IF` whose body holds a complete nested `IF ... E` right at its start,
/// followed by an `ELSE`, starts a chain: the `ELSE` is its alternative.
pub proof fn law_else_after_nested_if(t: Seq<Seq<RawTok>>, i: int)
    requires
        0 <= i,
        i + 1 < t.len(),
        is_if_line(t[i]),
        is_if_line(t[i + 1]),
        body_end(t, i + 2, 0).1 == 1,
        body_end(t, i + 2, 0).0 + 1 < t.len(),
        is_else_line(t[body_end(t, i + 2, 0).0 + 1]),
    ensures
        body_end(t, i + 1, 0) == (body_end(t, i + 2, 0).0 + 1, 2int),
        is_chain_start(t, i),
{
    lemma_body_end(t, i + 2, 0);
    let j = body_end(t, i + 2, 0).0;
    law_nested_if_skipped(t, i + 1, 0);
    reveal_strlit("E");
    reveal_strlit("ELSE");
    reveal_strlit("IF");
    let l = t[j + 1];
    assert(!is_if_line(l));
    assert(!is_end_line(l)) by {
        if is_end_line(l) {
            assert("E"@.len() != "ELSE"@.len());
        }
    }
    assert(body_end(t, j + 1, 0) == (j + 1, 2int));
}

} // verus!
