//! Range expansion: a line that names `a{0..2}` stands for three lines
//! naming `a0`, `a1` and `a2`.
use vstd::prelude::*;
use crate::error::BooplError;
use crate::text::{decimal, int_text};
use crate::tokens::{RawToken, RawTok, clone_line, is_range_text, is_range_token, parse_range_token, range_spec};

verus! {

/// A range found in a line: base, first and last value, and the token's line.
pub type RangeInfo = (Seq<char>, int, int, i32);

/// The number of values a range runs through, both ends included.
pub open spec fn range_len(a: int, b: int) -> int {
    if b >= a { b - a + 1 } else { a - b + 1 }
}

/// The ranges of a line, in order, or the first malformed range token.
pub open spec fn line_ranges(line: Seq<RawTok>) -> Result<Seq<RangeInfo>, (Seq<char>, i32)>
    decreases line.len(),
{
    if line.len() == 0 {
        Ok(Seq::empty())
    } else {
        match line_ranges(line.drop_last()) {
            Err(e) => Err(e),
            Ok(rs) => match line.last() {
                RawTok::Number(s, l) => if is_range_text(s) {
                    match range_spec(s) {
                        Some((b, lo, hi)) => Ok(rs.push((b, lo, hi, l))),
                        None => Err(("Некорректный range токен '"@ + s + "'"@, l)),
                    }
                } else {
                    Ok(rs)
                },
                _ => Ok(rs),
            },
        }
    }
}

/// The first range after the first whose length differs from the first's,
/// searching from position `k`; -1 where there is none.
pub open spec fn first_mismatch(rs: Seq<RangeInfo>, k: int) -> int
    decreases rs.len() - k,
{
    if k < 1 || k >= rs.len() {
        -1
    } else if range_len(rs[k].1, rs[k].2) != range_len(rs[0].1, rs[0].2) {
        k
    } else {
        first_mismatch(rs, k + 1)
    }
}

/// The value a range takes in the `i`-th copy of its line.
pub open spec fn range_value(lo: int, hi: int, i: int) -> int {
    if lo < hi { lo + i } else { lo - i }
}

/// One token in the `i`-th copy: a range token becomes its base followed by
/// its `i`-th value; every other token stays.
pub open spec fn instantiate_token(t: RawTok, i: int) -> RawTok {
    match t {
        RawTok::Number(s, l) => if is_range_text(s) {
            match range_spec(s) {
                Some((b, lo, hi)) => RawTok::Number(b + decimal(range_value(lo, hi, i)), l),
                None => t,
            }
        } else {
            t
        },
        _ => t,
    }
}

/// The `i`-th copy of a line.
pub open spec fn instantiate(line: Seq<RawTok>, i: int) -> Seq<RawTok> {
    Seq::new(line.len(), |j: int| instantiate_token(line[j], i))
}

/// What one line expands to.
pub open spec fn expand_line_spec(line: Seq<RawTok>) -> Result<Seq<Seq<RawTok>>, (Seq<char>, i32)> {
    match line_ranges(line) {
        Err(e) => Err(e),
        Ok(rs) => if rs.len() == 0 {
            Ok(seq![line])
        } else if first_mismatch(rs, 1) >= 0 {
            Err(("Разные длины в range expansion"@, rs[first_mismatch(rs, 1)].3))
        } else {
            Ok(Seq::new(range_len(rs[0].1, rs[0].2) as nat, |i: int| instantiate(line, i)))
        },
    }
}

/// What `expand_ranges` gives: the lines expanded in order, or the first error.
pub open spec fn expand_ranges_spec(lines: Seq<Seq<RawTok>>) -> Result<Seq<Seq<RawTok>>, (Seq<char>, i32)>
    decreases lines.len(),
{
    if lines.len() == 0 {
        Ok(Seq::empty())
    } else {
        match expand_ranges_spec(lines.drop_last()) {
            Err(e) => Err(e),
            Ok(done) => match expand_line_spec(lines.last()) {
                Err(e) => Err(e),
                Ok(more) => Ok(done + more),
            },
        }
    }
}

/// The lengths that the pass counts for a line fit in `i32`: that of the
/// first range, and of each later one up to the first whose length differs.
pub open spec fn line_fits(line: Seq<RawTok>) -> bool {
    match line_ranges(line) {
        Err(_) => true,
        Ok(rs) => forall|k: int| 0 <= k < rs.len() && (first_mismatch(rs, 1) < 0 || k <= first_mismatch(rs, 1))
            ==> range_len((#[trigger] rs[k]).1, rs[k].2) <= i32::MAX,
    }
}

/// Every line that the pass reaches, all before it having expanded,
/// counts its range lengths within `i32`.
pub open spec fn ranges_fit(lines: Seq<Seq<RawTok>>) -> bool {
    forall|i: int| 0 <= i < lines.len() && (forall|j: int| 0 <= j < i ==> expand_line_spec(#[trigger] lines[j]) is Ok)
        ==> line_fits(#[trigger] lines[i])
}

} // verus!

verus! {

proof fn lemma_no_mismatch(rs: Seq<RangeInfo>, k: int)
    requires
        1 <= k,
        first_mismatch(rs, k) == -1,
    ensures
        forall|j: int| k <= j < rs.len() ==> range_len(#[trigger] rs[j].1, rs[j].2) == range_len(rs[0].1, rs[0].2),
    decreases rs.len() - k,
{
    if k < rs.len() {
        lemma_no_mismatch(rs, k + 1);
    }
}

proof fn lemma_first_mismatch_range(rs: Seq<RangeInfo>, k: int)
    requires
        1 <= k,
    ensures
        first_mismatch(rs, k) == -1 || k <= first_mismatch(rs, k) < rs.len(),
    decreases rs.len() - k,
{
    if k < rs.len() && range_len(rs[k].1, rs[k].2) == range_len(rs[0].1, rs[0].2) {
        lemma_first_mismatch_range(rs, k + 1);
    }
}

/// Whether the lengths of a line fit in `i32` and whether the line expands.
fn line_check(line: &Vec<RawToken>) -> (r: (bool, bool))
    ensures
        r.0 == line_fits(line.deep_view()),
        r.1 == expand_line_spec(line.deep_view()) is Ok,
{
    let ghost lv = line.deep_view();
    let mut lens: Vec<i64> = Vec::new();
    let ghost mut rs: Seq<RangeInfo> = Seq::empty();
    let mut j: usize = 0;
    while j < line.len()
        invariant
            j <= line@.len(),
            lv == line.deep_view(),
            line_ranges(lv.take(j as int)) == Ok::<Seq<RangeInfo>, (Seq<char>, i32)>(rs),
            lens@.len() == rs.len(),
            forall|k: int| 0 <= k < rs.len() ==> lens@[k] as int == range_len((#[trigger] rs[k]).1, rs[k].2),
        decreases line.len() - j,
    {
        proof {
            assert(lv.take(j + 1).drop_last() =~= lv.take(j as int));
            assert(lv.take(j + 1).last() == line@[j as int]@);
        }
        if let RawToken::Number(s, l_num) = &line[j] {
            if is_range_token(s.as_str()) {
                match parse_range_token(s.as_str()) {
                    Some((base, lo, hi)) => {
                        let len: i64 = if hi >= lo { hi as i64 - lo as i64 + 1 } else { lo as i64 - hi as i64 + 1 };
                        lens.push(len);
                        proof {
                            rs = rs.push((base@, lo as int, hi as int, *l_num));
                        }
                    },
                    None => {
                        proof {
                            lemma_line_ranges_error_stays(lv, j as int + 1);
                        }
                        return (true, false);
                    },
                }
            }
        }
        j = j + 1;
    }
    proof {
        assert(lv.take(j as int) =~= lv);
    }
    if lens.len() == 0 {
        return (true, true);
    }
    let first = lens[0];
    let fits = first <= 2147483647;
    let mut k: usize = 1;
    while k < lens.len()
        invariant
            1 <= k <= lens@.len(),
            lv == line.deep_view(),
            line_ranges(lv) == Ok::<Seq<RangeInfo>, (Seq<char>, i32)>(rs),
            lens@.len() == rs.len(),
            forall|m: int| 0 <= m < rs.len() ==> lens@[m] as int == range_len((#[trigger] rs[m]).1, rs[m].2),
            first == lens@[0],
            fits == (first <= 2147483647),
            first_mismatch(rs, 1) == first_mismatch(rs, k as int),
            forall|m: int| 0 <= m < k ==> lens@[m] == first,
        decreases lens.len() - k,
    {
        if lens[k] != first {
            let f = fits && lens[k] <= 2147483647;
            proof {
                assert(first_mismatch(rs, 1) == k);
                if f {
                    assert forall|m: int| 0 <= m < rs.len() && (first_mismatch(rs, 1) < 0 || m <= first_mismatch(rs, 1))
                        implies range_len((#[trigger] rs[m]).1, rs[m].2) <= i32::MAX by {
                        assert(lens@[m] as int == range_len(rs[m].1, rs[m].2));
                    }
                } else {
                    if !fits {
                        assert(range_len(rs[0].1, rs[0].2) > i32::MAX);
                    } else {
                        assert(range_len(rs[k as int].1, rs[k as int].2) > i32::MAX);
                    }
                }
            }
            return (f, false);
        }
        k = k + 1;
    }
    proof {
        assert(first_mismatch(rs, k as int) == -1);
        if fits {
            assert forall|m: int| 0 <= m < rs.len() && (first_mismatch(rs, 1) < 0 || m <= first_mismatch(rs, 1))
                implies range_len((#[trigger] rs[m]).1, rs[m].2) <= i32::MAX by {
                assert(lens@[m] as int == range_len(rs[m].1, rs[m].2));
            }
        } else {
            assert(range_len(rs[0].1, rs[0].2) > i32::MAX);
        }
    }
    (fits, true)
}

/// Whether the range lengths of an input fit in `i32` wherever the pass
/// counts them: on each line that it reaches, all before it having
/// expanded.
pub fn ranges_fit_check(tokens: &Vec<Vec<RawToken>>) -> (b: bool)
    ensures
        b == ranges_fit(tokens.deep_view()),
{
    let ghost tv = tokens.deep_view();
    let mut i: usize = 0;
    while i < tokens.len()
        invariant
            tv == tokens.deep_view(),
            i <= tv.len(),
            forall|j: int| 0 <= j < i ==> expand_line_spec(#[trigger] tv[j]) is Ok,
            forall|a: int| 0 <= a < i ==> line_fits(#[trigger] tv[a]),
        decreases tv.len() - i,
    {
        let (fits, ok) = line_check(&tokens[i]);
        proof {
            assert(tv[i as int] == tokens@[i as int].deep_view());
        }
        if !fits {
            return false;
        }
        if !ok {
            proof {
                assert forall|a: int| 0 <= a < tv.len() && (forall|j: int| 0 <= j < a ==> expand_line_spec(#[trigger] tv[j]) is Ok)
                    implies line_fits(#[trigger] tv[a]) by {
                    if a > i {
                        assert(expand_line_spec(tv[i as int]) is Ok);
                    }
                }
            }
            return true;
        }
        i = i + 1;
    }
    true
}

/// `(end - start).abs() + 1`, the number of values from `start` to `end`.
fn range_length(start: i32, end: i32) -> (n: i32)
    requires
        range_len(start as int, end as int) <= i32::MAX,
    ensures
        n == range_len(start as int, end as int),
{
    let d = end - start;
    if d >= 0 { d + 1 } else { -d + 1 }
}

/// The `i`-th copy of one token.
fn instantiate_one(t: &RawToken, i: i64) -> (r: RawToken)
    requires
        0 <= i < 0x1_0000_0000,
    ensures
        r@ == instantiate_token(t@, i as int),
{
    match t {
        RawToken::Number(s, line_num) => {
            if is_range_token(s.as_str()) {
                match parse_range_token(s.as_str()) {
                    Some((base, start, end)) => {
                        let actual_index: i64 = if start < end {
                            start as i64 + i
                        } else {
                            start as i64 - i
                        };
                        let mut name = base;
                        let digits = int_text(actual_index);
                        name.append(digits.as_str());
                        RawToken::Number(name, *line_num)
                    },
                    None => t.clone(),
                }
            } else {
                t.clone()
            }
        },
        _ => t.clone(),
    }
}

/// Expands one line.
#[verifier::loop_isolation(false)]
fn expand_line(line: &Vec<RawToken>) -> (r: Result<Vec<Vec<RawToken>>, BooplError>)
    requires
        line_fits(line.deep_view()),
    ensures
        r matches Ok(v) ==> expand_line_spec(line.deep_view()) == Ok::<Seq<Seq<RawTok>>, (Seq<char>, i32)>(v.deep_view()),
        r matches Err(e) ==> expand_line_spec(line.deep_view()) == Err::<Seq<Seq<RawTok>>, (Seq<char>, i32)>((e.message@, e.line)) && e.file is None,
{
    let ghost lv = line.deep_view();
    // (first value, last value, line) of each range, in order
    let mut ranges_info: Vec<(i32, i32, i32)> = Vec::new();
    let ghost mut rs: Seq<RangeInfo> = Seq::empty();
    let mut j: usize = 0;
    while j < line.len()
        invariant
            j <= line@.len(),
            lv == line.deep_view(),
            line_ranges(lv.take(j as int)) == Ok::<Seq<RangeInfo>, (Seq<char>, i32)>(rs),
            ranges_info@.len() == rs.len(),
            forall|k: int| 0 <= k < rs.len() ==> (#[trigger] rs[k]).1 == ranges_info@[k].0 && rs[k].2
                == ranges_info@[k].1 && rs[k].3 == ranges_info@[k].2,
        decreases line.len() - j,
    {
        proof {
            assert(lv.take(j + 1).drop_last() =~= lv.take(j as int));
            assert(lv.take(j + 1).last() == line@[j as int]@);
        }
        if let RawToken::Number(s, l_num) = &line[j] {
            if is_range_token(s.as_str()) {
                match parse_range_token(s.as_str()) {
                    Some((base, start, end)) => {
                        ranges_info.push((start, end, *l_num));
                        proof {
                            rs = rs.push((base@, start as int, end as int, *l_num));
                        }
                    },
                    None => {
                        let mut m = String::from_str("Некорректный range токен '");
                        m.append(s.as_str());
                        m.append("'");
                        proof {
                            lemma_line_ranges_error_stays(lv, j as int + 1);
                            assert(lv.take(lv.len() as int) =~= lv);
                            assert(m@ =~= "Некорректный range токен '"@ + s@ + "'"@);
                        }
                        return Err(BooplError::new(m, *l_num));
                    },
                }
            }
        }
        j = j + 1;
    }
    proof {
        assert(lv.take(j as int) =~= lv);
    }
    if ranges_info.len() == 0 {
        let mut out: Vec<Vec<RawToken>> = Vec::new();
        out.push(clone_line(line));
        proof {
            assert(out.deep_view() =~= seq![lv]);
        }
        return Ok(out);
    }
    proof {
        lemma_first_mismatch_range(rs, 1);
    }
    let first_len: i32 = range_length(ranges_info[0].0, ranges_info[0].1);
    assert(first_len == range_len(rs[0].1, rs[0].2));
    let mut k: usize = 1;
    while k < ranges_info.len()
        invariant
            1 <= k <= ranges_info@.len(),
            first_mismatch(rs, 1) == first_mismatch(rs, k as int),
        decreases ranges_info.len() - k,
    {
        let (start, end, l_num) = ranges_info[k];
        proof {
            lemma_first_mismatch_range(rs, k as int);
            assert(rs[k as int].1 == start && rs[k as int].2 == end);
        }
        let current_len: i32 = range_length(start, end);
        if current_len != first_len {
            return Err(BooplError::new(String::from_str("Разные длины в range expansion"), l_num));
        }
        k = k + 1;
    }
    let max_iterations: usize = first_len as usize;
    let mut out: Vec<Vec<RawToken>> = Vec::new();
    let mut i: usize = 0;
    while i < max_iterations
        invariant
            i <= max_iterations,
            max_iterations == range_len(rs[0].1, rs[0].2),
            out.deep_view() == Seq::new(i as nat, |ii: int| instantiate(lv, ii)),
        decreases max_iterations - i,
    {
        let mut new_line: Vec<RawToken> = Vec::new();
        let mut t: usize = 0;
        while t < line.len()
            invariant
                t <= line@.len(),
                i < max_iterations,
                new_line.deep_view() == instantiate(lv, i as int).take(t as int),
            decreases line.len() - t,
        {
            let ghost before = new_line.deep_view();
            new_line.push(instantiate_one(&line[t], i as i64));
            proof {
                assert(new_line.deep_view() =~= before.push(instantiate_token(lv[t as int], i as int)));
                assert(new_line.deep_view() =~= instantiate(lv, i as int).take(t + 1));
            }
            t = t + 1;
        }
        proof {
            assert(instantiate(lv, i as int).take(t as int) =~= instantiate(lv, i as int));
        }
        let ghost before = out.deep_view();
        out.push(new_line);
        proof {
            assert(out.deep_view() =~= before.push(instantiate(lv, i as int)));
            assert(out.deep_view() =~= Seq::new((i + 1) as nat, |ii: int| instantiate(lv, ii)));
        }
        i = i + 1;
    }
    Ok(out)
}

proof fn lemma_line_ranges_error_stays(line: Seq<RawTok>, j: int)
    requires
        0 <= j <= line.len(),
        line_ranges(line.take(j)) is Err,
    ensures
        line_ranges(line) == line_ranges(line.take(j)),
    decreases line.len() - j,
{
    if j < line.len() {
        assert(line.take(j + 1).drop_last() =~= line.take(j));
        lemma_line_ranges_error_stays(line, j + 1);
    } else {
        assert(line.take(j) =~= line);
    }
}

/// Expands every line that names ranges into one line per value of the
/// ranges; all ranges of a line must have the same length. A line without
/// ranges stays as it is.
#[verifier::loop_isolation(false)]
pub fn expand_ranges(tokens: Vec<Vec<RawToken>>) -> (r: Result<Vec<Vec<RawToken>>, BooplError>)
    requires
        ranges_fit(tokens.deep_view()),
    ensures
        r matches Ok(v) ==> expand_ranges_spec(tokens.deep_view()) == Ok::<Seq<Seq<RawTok>>, (Seq<char>, i32)>(v.deep_view()),
        r matches Err(e) ==> expand_ranges_spec(tokens.deep_view()) == Err::<Seq<Seq<RawTok>>, (Seq<char>, i32)>((e.message@, e.line)) && e.file is None,
{
    let ghost tv = tokens.deep_view();
    let mut expanded_tokens: Vec<Vec<RawToken>> = Vec::new();
    let mut li: usize = 0;
    proof {
        assert(tv.take(0) =~= Seq::<Seq<RawTok>>::empty());
        assert(expanded_tokens.deep_view() =~= Seq::<Seq<RawTok>>::empty());
    }
    while li < tokens.len()
        invariant
            li <= tokens@.len(),
            tv == tokens.deep_view(),
            expand_ranges_spec(tv.take(li as int)) == Ok::<Seq<Seq<RawTok>>, (Seq<char>, i32)>(expanded_tokens.deep_view()),
            forall|j: int| 0 <= j < li ==> expand_line_spec(#[trigger] tv[j]) is Ok,
        decreases tokens.len() - li,
    {
        proof {
            assert(tv.take(li + 1).drop_last() =~= tv.take(li as int));
            assert(tv.take(li + 1).last() == tv[li as int]);
            assert(line_fits(tv[li as int]));
            assert(tv[li as int] == tokens@[li as int].deep_view());
        }
        match expand_line(&tokens[li]) {
            Ok(more) => {
                let mut m: usize = 0;
                let ghost before = expanded_tokens.deep_view();
                while m < more.len()
                    invariant
                        m <= more@.len(),
                        expanded_tokens.deep_view() == before + more.deep_view().take(m as int),
                    decreases more.len() - m,
                {
                    let ghost mid = expanded_tokens.deep_view();
                    expanded_tokens.push(clone_line(&more[m]));
                    proof {
                        assert(expanded_tokens.deep_view() =~= mid.push(more.deep_view()[m as int]));
                        assert(more.deep_view().take(m + 1) =~= more.deep_view().take(m as int).push(more.deep_view()[m as int]));
                    }
                    m = m + 1;
                }
                proof {
                    assert(more.deep_view().take(m as int) =~= more.deep_view());
                }
            },
            Err(e) => {
                proof {
                    lemma_expand_error_stays(tv, li as int + 1);
                    assert(tv.take(tv.len() as int) =~= tv);
                }
                return Err(e);
            },
        }
        li = li + 1;
    }
    proof {
        assert(tv.take(li as int) =~= tv);
    }
    Ok(expanded_tokens)
}

proof fn lemma_expand_error_stays(lines: Seq<Seq<RawTok>>, j: int)
    requires
        0 <= j <= lines.len(),
        expand_ranges_spec(lines.take(j)) is Err,
    ensures
        expand_ranges_spec(lines) == expand_ranges_spec(lines.take(j)),
    decreases lines.len() - j,
{
    if j < lines.len() {
        assert(lines.take(j + 1).drop_last() =~= lines.take(j));
        lemma_expand_error_stays(lines, j + 1);
    } else {
        assert(lines.take(j) =~= lines);
    }
}


/// No token of the line names a range.
pub open spec fn has_no_range(line: Seq<RawTok>) -> bool {
    forall|j: int| 0 <= j < line.len() ==> !(#[trigger] line[j] matches RawTok::Number(s, _) && is_range_text(s))
}

proof fn lemma_no_range_line(line: Seq<RawTok>)
    requires
        has_no_range(line),
    ensures
        line_ranges(line) == Ok::<Seq<RangeInfo>, (Seq<char>, i32)>(Seq::empty()),
    decreases line.len(),
{
    if line.len() > 0 {
        assert(has_no_range(line.drop_last())) by {
            assert forall|j: int| 0 <= j < line.drop_last().len() implies !(#[trigger] line.drop_last()[j] matches RawTok::Number(s, _) && is_range_text(s)) by {
                assert(line.drop_last()[j] == line[j]);
            }
        }
        lemma_no_range_line(line.drop_last());
        assert(line.last() == line[line.len() - 1]);
    }
}

/// Lines that name no range come out of range expansion as they went in.
pub proof fn law_no_ranges_unchanged(lines: Seq<Seq<RawTok>>)
    requires
        forall|i: int| 0 <= i < lines.len() ==> has_no_range(#[trigger] lines[i]),
    ensures
        expand_ranges_spec(lines) == Ok::<Seq<Seq<RawTok>>, (Seq<char>, i32)>(lines),
    decreases lines.len(),
{
    if lines.len() > 0 {
        assert forall|i: int| 0 <= i < lines.drop_last().len() implies has_no_range(#[trigger] lines.drop_last()[i]) by {
            assert(lines.drop_last()[i] == lines[i]);
        }
        law_no_ranges_unchanged(lines.drop_last());
        assert(has_no_range(lines[lines.len() - 1]));
        lemma_no_range_line(lines.last());
        assert(lines.drop_last() + seq![lines.last()] =~= lines);
    } else {
        assert(lines =~= Seq::<Seq<RawTok>>::empty());
    }
}

} // verus!
