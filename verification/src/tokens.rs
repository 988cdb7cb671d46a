//! The tokenizer: source text to lines of raw tokens.
use vstd::prelude::*;
use crate::preprocessors::parentheses_process;
use crate::text::{all_ws, chars_of, push_char, whitespace, is_ws, decimal, int_text, owned, find_char, find_dots, first_index, first_dots, lemma_first_index_bounds, is_alnum, alnum, string_of, parse_i32_spec, parse_i32_chars};

verus! {

/// A token whose names have been replaced by numeric identifiers.
#[derive(Debug, PartialEq)]
pub enum Token {
    Bool(bool, i32),
    Keyword(String, i32),
    LabelP(i32, i32),
    LabelPD(i32, i32),
    Number(i32, i32),
}

/// A token as the tokenizer reads it: every name is still text.
#[derive(Debug, PartialEq)]
pub enum RawToken {
    Bool(bool, i32),
    Keyword(String, i32),
    LabelP(String, i32),
    LabelPD(String, i32),
    Number(String, i32),
}

/// The mathematical value of a [`RawToken`].
pub enum RawTok {
    Bool(bool, i32),
    Keyword(Seq<char>, i32),
    LabelP(Seq<char>, i32),
    LabelPD(Seq<char>, i32),
    Number(Seq<char>, i32),
}

/// The mathematical value of a [`Token`].
pub enum Tok {
    Bool(bool, i32),
    Keyword(Seq<char>, i32),
    LabelP(i32, i32),
    LabelPD(i32, i32),
    Number(i32, i32),
}

impl View for RawToken {
    type V = RawTok;

    open spec fn view(&self) -> RawTok {
        match self {
            RawToken::Bool(b, l) => RawTok::Bool(*b, *l),
            RawToken::Keyword(s, l) => RawTok::Keyword(s@, *l),
            RawToken::LabelP(s, l) => RawTok::LabelP(s@, *l),
            RawToken::LabelPD(s, l) => RawTok::LabelPD(s@, *l),
            RawToken::Number(s, l) => RawTok::Number(s@, *l),
        }
    }
}

impl DeepView for RawToken {
    type V = RawTok;

    open spec fn deep_view(&self) -> RawTok {
        self@
    }
}

impl View for Token {
    type V = Tok;

    open spec fn view(&self) -> Tok {
        match self {
            Token::Bool(b, l) => Tok::Bool(*b, *l),
            Token::Keyword(s, l) => Tok::Keyword(s@, *l),
            Token::LabelP(n, l) => Tok::LabelP(*n, *l),
            Token::LabelPD(n, l) => Tok::LabelPD(*n, *l),
            Token::Number(n, l) => Tok::Number(*n, *l),
        }
    }
}

impl DeepView for Token {
    type V = Tok;

    open spec fn deep_view(&self) -> Tok {
        self@
    }
}

impl Clone for RawToken {
    fn clone(&self) -> (r: Self)
        ensures
            r@ == self@,
    {
        match self {
            RawToken::Bool(b, l) => RawToken::Bool(*b, *l),
            RawToken::Keyword(s, l) => RawToken::Keyword(s.clone(), *l),
            RawToken::LabelP(s, l) => RawToken::LabelP(s.clone(), *l),
            RawToken::LabelPD(s, l) => RawToken::LabelPD(s.clone(), *l),
            RawToken::Number(s, l) => RawToken::Number(s.clone(), *l),
        }
    }
}

impl Clone for Token {
    fn clone(&self) -> (r: Self)
        ensures
            r@ == self@,
    {
        match self {
            Token::Bool(b, l) => Token::Bool(*b, *l),
            Token::Keyword(s, l) => Token::Keyword(s.clone(), *l),
            Token::LabelP(n, l) => Token::LabelP(*n, *l),
            Token::LabelPD(n, l) => Token::LabelPD(*n, *l),
            Token::Number(n, l) => Token::Number(*n, *l),
        }
    }
}

/// The line number a raw token carries.
pub open spec fn raw_line_of(t: RawTok) -> i32 {
    match t {
        RawTok::Bool(_, n) => n,
        RawTok::Keyword(_, n) => n,
        RawTok::LabelP(_, n) => n,
        RawTok::LabelPD(_, n) => n,
        RawTok::Number(_, n) => n,
    }
}

/// A copy of one line of raw tokens.
pub fn clone_line(line: &Vec<RawToken>) -> (r: Vec<RawToken>)
    ensures
        r.deep_view() == line.deep_view(),
{
    let mut r: Vec<RawToken> = Vec::new();
    let mut i: usize = 0;
    while i < line.len()
        invariant
            i <= line@.len(),
            r.deep_view() == line.deep_view().take(i as int),
        decreases line.len() - i,
    {
        let ghost before = r.deep_view();
        r.push(line[i].clone());
        proof {
            assert(r.deep_view() =~= before.push(line[i as int]@));
            assert(r.deep_view() =~= line.deep_view().take(i + 1));
        }
        i = i + 1;
    }
    proof {
        assert(line.deep_view().take(i as int) =~= line.deep_view());
    }
    r
}

/// `t` is the keyword `k`.
pub open spec fn is_kw(t: RawTok, k: Seq<char>) -> bool {
    t matches RawTok::Keyword(s, _) && s == k
}

/// Text equality of two string slices.
pub fn str_eq(a: &str, b: &str) -> (r: bool)
    ensures
        r == (a@ == b@),
{
    let x = chars_of(a);
    let y = chars_of(b);
    if x.len() != y.len() {
        return false;
    }
    let mut i: usize = 0;
    while i < x.len()
        invariant
            x@ == a@,
            y@ == b@,
            x@.len() == y@.len(),
            i <= x@.len(),
            forall|j: int| 0 <= j < i ==> x@[j] == y@[j],
        decreases x.len() - i,
    {
        if x[i] != y[i] {
            return false;
        }
        i = i + 1;
    }
    proof {
        assert(x@ =~= y@);
    }
    true
}

/// The token is the keyword `k`.
pub fn raw_is_kw(t: &RawToken, k: &str) -> (r: bool)
    ensures
        r == is_kw(t@, k@),
{
    match t {
        RawToken::Keyword(s, _) => str_eq(s.as_str(), k),
        _ => false,
    }
}

} // verus!

verus! {

/// The text names a range, such as `a{0..7}` or `a{3}`: it holds `{` and ends with `}`.
pub open spec fn is_range_text(s: Seq<char>) -> bool {
    s.contains('{') && s.len() > 0 && s.last() == '}'
}

/// A range's base name: not empty, ASCII letters, digits and `_` only.
pub open spec fn is_base_name(b: Seq<char>) -> bool {
    b.len() > 0 && forall|i: int| 0 <= i < b.len() ==> (is_alnum(#[trigger] b[i]) || b[i] == '_')
}

/// What `parse_range_token` gives: the base and the two bounds, both inclusive.
pub open spec fn range_spec(s: Seq<char>) -> Option<(Seq<char>, int, int)> {
    if !is_range_text(s) {
        None
    } else {
        let k = first_index(s, '{');
        let base = s.take(k);
        let part = s.subrange(k + 1, s.len() - 1);
        if !is_base_name(base) {
            None
        } else if first_dots(part) >= 0 {
            let d = first_dots(part);
            let lo = part.take(d);
            let hi = part.skip(d + 2);
            if first_dots(hi) >= 0 {
                None
            } else {
                match (parse_i32_spec(lo), parse_i32_spec(hi)) {
                    (Ok(a), Ok(b)) => Some((base, a, b)),
                    _ => None,
                }
            }
        } else {
            match parse_i32_spec(part) {
                Ok(n) => Some((base, n, n)),
                _ => None,
            }
        }
    }
}

/// The text has the shape of a range token.
pub fn is_range_token(s: &str) -> (b: bool)
    ensures
        b == is_range_text(s@),
{
    let cs = chars_of(s);
    let found = find_char(&cs, 0, cs.len(), '{');
    proof {
        assert(cs@.subrange(0, cs@.len() as int) =~= s@);
        lemma_first_index_bounds(s@, '{');
    }
    found.is_some() && cs.len() > 0 && cs[cs.len() - 1] == '}'
}

/// Reads a range token `base{lo..hi}` or `base{n}` (which stands for
/// `base{n..n}`); `None` where the text is no well-formed range.
#[verifier::loop_isolation(false)]
pub fn parse_range_token(s: &str) -> (r: Option<(String, i32, i32)>)
    ensures
        r matches Some((b, lo, hi)) ==> range_spec(s@) == Some((b@, lo as int, hi as int)),
        r is None ==> range_spec(s@) is None,
{
    if !is_range_token(s) {
        return None;
    }
    let cs = chars_of(s);
    let n = cs.len();
    proof {
        assert(cs@.subrange(0, n as int) =~= s@);
        lemma_first_index_bounds(s@, '{');
    }
    let k = match find_char(&cs, 0, n, '{') {
        Some(k) => k,
        None => {
            return None;
        },
    };
    assert(k < n - 1);
    let ghost part = s@.subrange(k + 1, n - 1);
    let mut i: usize = 0;
    while i < k
        invariant
            k < n == cs@.len(),
            i <= k,
            forall|j: int| 0 <= j < i ==> (is_alnum(#[trigger] cs@[j]) || cs@[j] == '_'),
        decreases k - i,
    {
        if !(alnum(cs[i]) || cs[i] == '_') {
            assert(!(is_alnum(s@.take(k as int)[i as int]) || s@.take(k as int)[i as int] == '_'));
            return None;
        }
        i = i + 1;
    }
    if k == 0 {
        return None;
    }
    assert(is_base_name(s@.take(k as int)));
    let base = string_of(&cs, 0, k);
    assert(base@ =~= s@.take(k as int));
    assert(cs@.subrange(k + 1, n - 1) == part);
    match find_dots(&cs, k + 1, n - 1) {
        Some(d) => {
            let ghost dd = d - (k + 1);
            assert(cs@.subrange(k + 1, d as int) =~= part.take(dd));
            assert(cs@.subrange(d + 2, n - 1) =~= part.skip(dd + 2));
            if find_dots(&cs, d + 2, n - 1).is_some() {
                return None;
            }
            match (parse_i32_chars(&cs, k + 1, d), parse_i32_chars(&cs, d + 2, n - 1)) {
                (Ok(a), Ok(b)) => Some((base, a, b)),
                _ => None,
            }
        },
        None => {
            match parse_i32_chars(&cs, k + 1, n - 1) {
                Ok(v) => Some((base, v, v)),
                _ => None,
            }
        },
    }
}

} // verus!

verus! {

/// The number of bytes that UTF-8 spends on `c`.
pub open spec fn utf8_width(c: char) -> int {
    if (c as u32) < 0x80 {
        1
    } else if (c as u32) < 0x800 {
        2
    } else if (c as u32) < 0x10000 {
        3
    } else {
        4
    }
}

/// The UTF-8 length of a text, which `str::len` gives.
pub open spec fn utf8_len(s: Seq<char>) -> int
    decreases s.len(),
{
    if s.len() == 0 {
        0
    } else {
        utf8_len(s.drop_last()) + utf8_width(s.last())
    }
}

proof fn lemma_utf8_len_grows(s: Seq<char>, i: int)
    requires
        0 <= i <= s.len(),
    ensures
        utf8_len(s.take(i)) <= utf8_len(s),
        utf8_len(s.take(i)) >= i,
    decreases s.len() - i,
{
    if i < s.len() {
        lemma_utf8_len_grows(s, i + 1);
        assert(s.take(i + 1).drop_last() =~= s.take(i));
    } else {
        assert(s.take(i) =~= s);
    }
    lemma_utf8_len_at_least_len(s.take(i));
}

proof fn lemma_utf8_len_at_least_len(s: Seq<char>)
    ensures
        utf8_len(s) >= s.len(),
    decreases s.len(),
{
    if s.len() > 0 {
        lemma_utf8_len_at_least_len(s.drop_last());
    }
}

/// The words that the tokenizer knows as keywords.
pub open spec fn is_keyword_text(s: Seq<char>) -> bool {
    ||| s == "X"@ ||| s == "A"@ ||| s == "O"@ ||| s == "N"@ ||| s == "I"@ ||| s == "G"@
    ||| s == "P"@ ||| s == "E"@ ||| s == "L"@ ||| s == "S"@ ||| s == "U"@
    ||| s == "IN"@ ||| s == "IG"@ ||| s == "BP"@
    ||| s == "INB"@ ||| s == "RET"@ ||| s == "LOG"@
    ||| s == "INBC"@ ||| s == "CALL"@ ||| s == "FUNC"@ ||| s == "STEP"@ ||| s == "ELSE"@
    ||| s == "DEBUG"@ ||| s == "IMPORT"@ ||| s == "DEBUG_ON"@ ||| s == "DEBUG_OFF"@
}

/// A character that may stand in a name.
pub open spec fn is_name_char(c: char) -> bool {
    is_alnum(c) || c == '_' || c == '{' || c == '.' || c == '}'
}

/// The text holds exactly one `.`, so that splitting it at dots gives two parts.
pub open spec fn has_one_dot(s: Seq<char>) -> bool {
    first_index(s, '.') >= 0 && first_index(s.skip(first_index(s, '.') + 1), '.') == -1
}

/// The message for a pointer whose prefix is neither `P` nor `PD`.
pub open spec fn bad_pointer_message(s: Seq<char>, line: i32) -> Seq<char> {
    "   >>  ! не удальсь обработать указатель "@ + s + "  ("@ + decimal(line as int) + ")\n\n"@
}

/// The message for a word that is no token.
pub open spec fn bad_word_message(s: Seq<char>, line: i32) -> Seq<char> {
    "   >>  ! не получилось обработать слово: "@ + s + "  ("@ + decimal(line as int) + ")\n\n"@
}

/// What one word of an instruction reads as.
pub open spec fn token_spec(s: Seq<char>, line: i32) -> Result<RawTok, Seq<char>> {
    if s == "T"@ || s == "F"@ {
        Ok(RawTok::Bool(s == "T"@, line))
    } else if is_keyword_text(s) {
        Ok(RawTok::Keyword(s, line))
    } else if utf8_len(s) >= 3 && has_one_dot(s) {
        let k = first_index(s, '.');
        if s.take(k) == "P"@ {
            Ok(RawTok::LabelP(s.skip(k + 1), line))
        } else if s.take(k) == "PD"@ {
            Ok(RawTok::LabelPD(s.skip(k + 1), line))
        } else {
            Err(bad_pointer_message(s, line))
        }
    } else if forall|i: int| 0 <= i < s.len() ==> is_name_char(#[trigger] s[i]) {
        Ok(RawTok::Number(s, line))
    } else {
        Err(bad_word_message(s, line))
    }
}

fn keyword_text(s: &str) -> (b: bool)
    ensures
        b == is_keyword_text(s@),
{
    str_eq(s, "X") || str_eq(s, "A") || str_eq(s, "O") || str_eq(s, "N") || str_eq(s, "I")
        || str_eq(s, "G") || str_eq(s, "P") || str_eq(s, "E") || str_eq(s, "L") || str_eq(s, "S")
        || str_eq(s, "U") || str_eq(s, "IN") || str_eq(s, "IG") || str_eq(s, "BP") || str_eq(s, "INB")
        || str_eq(s, "RET") || str_eq(s, "LOG") || str_eq(s, "INBC") || str_eq(s, "CALL")
        || str_eq(s, "FUNC") || str_eq(s, "STEP") || str_eq(s, "ELSE") || str_eq(s, "DEBUG")
        || str_eq(s, "IMPORT") || str_eq(s, "DEBUG_ON") || str_eq(s, "DEBUG_OFF")
}

fn char_width(c: char) -> (w: usize)
    ensures
        w == utf8_width(c),
{
    if (c as u32) < 0x80 {
        1
    } else if (c as u32) < 0x800 {
        2
    } else if (c as u32) < 0x10000 {
        3
    } else {
        4
    }
}

/// `str::len(s) >= 3`.
fn at_least_three_bytes(cs: &Vec<char>) -> (b: bool)
    ensures
        b == (utf8_len(cs@) >= 3),
{
    let mut total: usize = 0;
    let mut i: usize = 0;
    while i < cs.len()
        invariant
            i <= cs@.len(),
            total == utf8_len(cs@.take(i as int)),
            total < 3,
        decreases cs.len() - i,
    {
        let c = cs[i];
        let w = char_width(c);
        proof {
            assert(cs@.take(i + 1).drop_last() =~= cs@.take(i as int));
        }
        total = total + w;
        i = i + 1;
        if total >= 3 {
            proof {
                lemma_utf8_len_grows(cs@, i as int);
            }
            return true;
        }
    }
    proof {
        assert(cs@.take(i as int) =~= cs@);
    }
    false
}

/// The message text `pre + s + "  (" + line + ")\n\n"`.
fn located_message(pre: &str, s: &str, line: i32) -> (m: String)
    ensures
        m@ == pre@ + s@ + "  ("@ + decimal(line as int) + ")\n\n"@,
{
    let mut m = String::from_str(pre);
    m.append(s);
    m.append("  (");
    let t = int_text(line as i64);
    m.append(t.as_str());
    m.append(")\n\n");
    proof {
        assert(m@ =~= pre@ + s@ + "  ("@ + decimal(line as int) + ")\n\n"@);
    }
    m
}

/// Reads one word of an instruction: `T`/`F`, a keyword, a pointer `P.x` or
/// `PD.x`, or a name.
#[verifier::loop_isolation(false)]
fn parse_token(s: &str, line_n: &i32) -> (r: Result<RawToken, String>)
    ensures
        r matches Ok(t) ==> token_spec(s@, *line_n) == Ok::<RawTok, Seq<char>>(t@),
        r matches Err(e) ==> token_spec(s@, *line_n) == Err::<RawTok, Seq<char>>(e@),
{
    let line = *line_n;
    if str_eq(s, "T") || str_eq(s, "F") {
        return Ok(RawToken::Bool(str_eq(s, "T"), line));
    }
    if keyword_text(s) {
        return Ok(RawToken::Keyword(owned(s), line));
    }
    let cs = chars_of(s);
    let n = cs.len();
    proof {
        assert(cs@.subrange(0, n as int) =~= s@);
        lemma_first_index_bounds(s@, '.');
    }
    if at_least_three_bytes(&cs) {
        if let Some(k) = find_char(&cs, 0, n, '.') {
            let second = find_char(&cs, k + 1, n, '.');
            proof {
                assert(cs@.subrange(k + 1, n as int) =~= s@.skip(k + 1));
            }
            if second.is_none() {
                let head = string_of(&cs, 0, k);
                let tail = string_of(&cs, k + 1, n);
                assert(head@ =~= s@.take(k as int));
                assert(tail@ =~= s@.skip(k + 1));
                if str_eq(head.as_str(), "P") {
                    return Ok(RawToken::LabelP(tail, line));
                } else if str_eq(head.as_str(), "PD") {
                    return Ok(RawToken::LabelPD(tail, line));
                } else {
                    return Err(located_message("   >>  ! не удальсь обработать указатель ", s, line));
                }
            }
        }
    }
    let mut i: usize = 0;
    while i < n
        invariant
            i <= n,
            forall|j: int| 0 <= j < i ==> is_name_char(#[trigger] cs@[j]),
        decreases n - i,
    {
        let c = cs[i];
        if !(alnum(c) || c == '_' || c == '{' || c == '.' || c == '}') {
            assert(!is_name_char(s@[i as int]));
            return Err(located_message("   >>  ! не получилось обработать слово: ", s, line));
        }
        i = i + 1;
    }
    Ok(RawToken::Number(owned(s), line))
}

} // verus!

verus! {

/// Splitting at white space, left to right: the words completed so far and
/// the word being read.
pub open spec fn split_state(s: Seq<char>) -> (Seq<Seq<char>>, Seq<char>)
    decreases s.len(),
{
    if s.len() == 0 {
        (Seq::empty(), Seq::empty())
    } else {
        let (ws, buf) = split_state(s.drop_last());
        let c = s.last();
        if is_ws(c) {
            if buf.len() > 0 {
                (ws.push(buf), Seq::empty())
            } else {
                (ws, Seq::empty())
            }
        } else {
            (ws, buf.push(c))
        }
    }
}

/// The words of `s`: its maximal runs of characters that are not white space.
pub open spec fn words(s: Seq<char>) -> Seq<Seq<char>> {
    let (ws, buf) = split_state(s);
    if buf.len() > 0 {
        ws.push(buf)
    } else {
        ws
    }
}

/// Reads the words in order; the first word that is no token gives the error.
pub open spec fn tokens_of_words(ws: Seq<Seq<char>>, line: i32) -> Result<Seq<RawTok>, Seq<char>>
    decreases ws.len(),
{
    if ws.len() == 0 {
        Ok(Seq::empty())
    } else {
        match tokens_of_words(ws.drop_last(), line) {
            Err(e) => Err(e),
            Ok(ts) => match token_spec(ws.last(), line) {
                Ok(t) => Ok(ts.push(t)),
                Err(e) => Err(e),
            },
        }
    }
}

/// What an instruction (the text between two `;`) reads as: at most four tokens.
pub open spec fn instruction_spec(s: Seq<char>, line: i32) -> Result<Seq<RawTok>, Seq<char>> {
    match tokens_of_words(words(s), line) {
        Err(e) => Err(e),
        Ok(ts) => if ts.len() > 4 {
            Err("Слишком много токенов: '"@ + s + "'"@)
        } else {
            Ok(ts)
        },
    }
}

/// Splits an instruction at white space and reads each word as a token.
#[verifier::loop_isolation(false)]
fn parse_instruction(instruction: &str, line_num: i32) -> (r: Result<Vec<RawToken>, String>)
    ensures
        r matches Ok(ts) ==> instruction_spec(instruction@, line_num) == Ok::<Seq<RawTok>, Seq<char>>(ts.deep_view()),
        r matches Err(e) ==> instruction_spec(instruction@, line_num) == Err::<Seq<RawTok>, Seq<char>>(e@),
{
    let cs = chars_of(instruction);
    let mut tokens: Vec<RawToken> = Vec::new();
    let mut buffer = String::new();
    let mut i: usize = 0;
    assert(cs@.take(0) =~= Seq::<char>::empty());
    assert(tokens.deep_view() =~= Seq::<RawTok>::empty());
    while i < cs.len()
        invariant
            i <= cs@.len(),
            cs@ == instruction@,
            split_state(cs@.take(i as int)).1 == buffer@,
            tokens_of_words(split_state(cs@.take(i as int)).0, line_num) == Ok::<Seq<RawTok>, Seq<char>>(tokens.deep_view()),
        decreases cs.len() - i,
    {
        let ch = cs[i];
        proof {
            assert(cs@.take(i + 1).drop_last() =~= cs@.take(i as int));
            assert(cs@.take(i + 1).last() == ch);
        }
        if whitespace(ch) {
            if !buffer.as_str().is_empty() {
                let ghost ws = split_state(cs@.take(i as int)).0;
                proof {
                    assert(ws.push(buffer@).drop_last() =~= ws);
                }
                let t = parse_token(buffer.as_str(), &line_num);
                match t {
                    Ok(tok) => {
                        let ghost before = tokens.deep_view();
                        tokens.push(tok);
                        proof {
                            assert(tokens.deep_view() =~= before.push(tokens@.last()@));
                        }
                    },
                    Err(e) => {
                        proof {
                            assert(cs@.take(cs@.len() as int) =~= cs@);
                            lemma_tokens_error_stays(cs@, i as int + 1, line_num);
                        }
                        return Err(e);
                    },
                }
                buffer = String::new();
            }
        } else {
            push_char(&mut buffer, ch);
        }
        i = i + 1;
    }
    assert(cs@.take(i as int) =~= cs@);
    if !buffer.as_str().is_empty() {
        let ghost ws = split_state(cs@).0;
        proof {
            assert(ws.push(buffer@).drop_last() =~= ws);
        }
        let t = parse_token(buffer.as_str(), &line_num);
        match t {
            Ok(tok) => {
                let ghost before = tokens.deep_view();
                tokens.push(tok);
                proof {
                    assert(tokens.deep_view() =~= before.push(tokens@.last()@));
                }
            },
            Err(e) => {
                return Err(e);
            },
        }
    }
    if tokens.len() > 4 {
        let mut m = String::from_str("Слишком много токенов: '");
        m.append(instruction);
        m.append("'");
        return Err(m);
    }
    Ok(tokens)
}

/// Once reading the words of a prefix has failed, reading the words of the
/// whole text fails with the same message.
proof fn lemma_tokens_error_stays(s: Seq<char>, i: int, line: i32)
    requires
        0 <= i <= s.len(),
        tokens_of_words(split_state(s.take(i)).0, line) is Err,
    ensures
        tokens_of_words(words(s), line) == tokens_of_words(split_state(s.take(i)).0, line),
    decreases s.len() - i,
{
    if i < s.len() {
        assert(s.take(i + 1).drop_last() =~= s.take(i));
        let (ws, buf) = split_state(s.take(i));
        assert(ws.push(buf).drop_last() =~= ws);
        lemma_tokens_error_stays(s, i + 1, line);
    } else {
        assert(s.take(i) =~= s);
        let (ws, buf) = split_state(s);
        if buf.len() > 0 {
            assert(ws.push(buf).drop_last() =~= ws);
        }
    }
}

} // verus!

verus! {

/// Where the tokenizer stands after some characters.
pub struct ScanState {
    /// The lines of tokens read so far.
    pub lines: Seq<Seq<RawTok>>,
    /// The line the next character stands on.
    pub current_line: i32,
    /// Inside a `//` comment.
    pub single: bool,
    /// Inside a `/* */` comment.
    pub multi: bool,
    /// The instruction being read (outside parentheses).
    pub instr: Seq<char>,
    /// The line on which that instruction began.
    pub instr_line: i32,
    /// Inside parentheses.
    pub paren: bool,
    /// What stood between the parentheses of this instruction.
    pub paren_chars: Seq<char>,
}

pub open spec fn scan_start() -> ScanState {
    ScanState {
        lines: Seq::empty(),
        current_line: 1,
        single: false,
        multi: false,
        instr: Seq::empty(),
        instr_line: 1,
        paren: false,
        paren_chars: Seq::empty(),
    }
}

/// `n` copies of a line (none where `n <= 0`).
pub open spec fn copies(line: Seq<RawTok>, n: int) -> Seq<Seq<RawTok>> {
    Seq::new(if n > 0 { n as nat } else { 0 }, |k: int| line)
}

/// The end of the text: a last instruction without `;` is read once.
pub open spec fn scan_finish(st: ScanState) -> Result<Seq<Seq<RawTok>>, (Seq<char>, i32)> {
    if !all_ws(st.instr) {
        match instruction_spec(st.instr, st.instr_line) {
            Ok(t) => Ok(st.lines.push(t)),
            Err(e) => Err((e, st.instr_line)),
        }
    } else {
        Ok(st.lines)
    }
}

/// The tokenizer from position `i` of `cs` in state `st`: comments are
/// skipped, `;` ends an instruction, which is read and repeated as often as
/// the text between its parentheses says; a line feed starts a new line.
pub open spec fn scan_from(cs: Seq<char>, i: int, st: ScanState) -> Result<Seq<Seq<RawTok>>, (Seq<char>, i32)>
    decreases cs.len() - i,
{
    if i < 0 || i >= cs.len() {
        scan_finish(st)
    } else {
        let ch = cs[i];
        let st = if ch == '\n' {
            ScanState { current_line: (st.current_line + 1) as i32, single: false, ..st }
        } else {
            st
        };
        let next_is = |c: char| i + 1 < cs.len() && cs[i + 1] == c;
        if st.single {
            scan_from(cs, i + 1, st)
        } else if st.multi {
            if ch == '*' && next_is('/') {
                scan_from(cs, i + 2, ScanState { multi: false, ..st })
            } else {
                scan_from(cs, i + 1, st)
            }
        } else if ch == '/' && next_is('/') {
            scan_from(cs, i + 2, ScanState { single: true, ..st })
        } else if ch == '/' && next_is('*') {
            scan_from(cs, i + 2, ScanState { multi: true, ..st })
        } else if ch == ';' {
            let cleared = ScanState {
                instr: Seq::empty(),
                paren_chars: Seq::empty(),
                instr_line: st.current_line,
                ..st
            };
            if !all_ws(st.instr) {
                match crate::preprocessors::parentheses_preprocessor::paren_count(st.paren_chars) {
                    Err(m) => Err((m, st.instr_line)),
                    Ok(n) => match instruction_spec(st.instr, st.instr_line) {
                        Err(e) => Err((e, st.instr_line)),
                        Ok(t) => scan_from(cs, i + 1, ScanState { lines: st.lines + copies(t, n), ..cleared }),
                    },
                }
            } else {
                scan_from(cs, i + 1, cleared)
            }
        } else if ch == '(' {
            scan_from(cs, i + 1, ScanState { paren: true, ..st })
        } else if ch == ')' {
            scan_from(cs, i + 1, ScanState { paren: false, ..st })
        } else if st.paren {
            scan_from(cs, i + 1, ScanState { paren_chars: st.paren_chars.push(ch), ..st })
        } else {
            let line = if all_ws(st.instr) && !is_ws(ch) { st.current_line } else { st.instr_line };
            scan_from(cs, i + 1, ScanState { instr: st.instr.push(ch), instr_line: line, ..st })
        }
    }
}

/// What the tokenizer gives for a source text.
pub open spec fn tokenize_spec(s: Seq<char>) -> Result<Seq<Seq<RawTok>>, (Seq<char>, i32)> {
    scan_from(s, 0, scan_start())
}

proof fn lemma_all_ws_push(s: Seq<char>, c: char)
    ensures
        all_ws(s.push(c)) == (all_ws(s) && is_ws(c)),
{
    if all_ws(s.push(c)) {
        assert forall|j: int| 0 <= j < s.len() implies is_ws(#[trigger] s[j]) by {
            assert(s.push(c)[j] == s[j]);
        }
        assert(is_ws(s.push(c)[s.len() as int]));
    }
    if all_ws(s) && is_ws(c) {
        assert forall|j: int| 0 <= j < s.push(c).len() implies is_ws(#[trigger] s.push(c)[j]) by {
            if j < s.len() {
                assert(s.push(c)[j] == s[j]);
            }
        }
    }
}

/// Splits the source into instructions at `;`, skipping `//` and `/* */`
/// comments, and reads each instruction into tokens; the number written in
/// its parentheses, if any, repeats it. The error gives a message and the line.
#[verifier::loop_isolation(false)]
pub fn tokenize(input: &str) -> (r: Result<Vec<Vec<RawToken>>, (String, i32)>)
    requires
        input@.len() < i32::MAX,
    ensures
        r matches Ok(v) ==> tokenize_spec(input@) == Ok::<Seq<Seq<RawTok>>, (Seq<char>, i32)>(v.deep_view()),
        r matches Err((m, l)) ==> tokenize_spec(input@) == Err::<Seq<Seq<RawTok>>, (Seq<char>, i32)>((m@, l)),
{
    let cs = chars_of(input);
    let n = cs.len();
    let mut all_tokens: Vec<Vec<RawToken>> = Vec::new();
    let mut current_line: i32 = 1;
    let mut in_single_comment = false;
    let mut in_multi_comment = false;
    let mut current_instruction = String::new();
    let mut instruction_blank = true;
    let mut instruction_line: i32 = 1;
    let mut in_parentheses = false;
    let mut in_parentheses_vec: Vec<char> = Vec::new();
    let mut i: usize = 0;
    proof {
        assert(all_tokens.deep_view() =~= Seq::<Seq<RawTok>>::empty());
        assert(all_ws(Seq::<char>::empty()));
    }
    while i < n
        invariant
            cs@ == input@,
            n == cs@.len(),
            i <= n,
            1 <= current_line <= i + 1,
            instruction_blank == all_ws(current_instruction@),
            tokenize_spec(input@) == scan_from(cs@, i as int, ScanState {
                lines: all_tokens.deep_view(),
                current_line,
                single: in_single_comment,
                multi: in_multi_comment,
                instr: current_instruction@,
                instr_line: instruction_line,
                paren: in_parentheses,
                paren_chars: in_parentheses_vec@,
            }),
        decreases n - i,
    {
        let ch = cs[i];
        if ch == '\n' {
            current_line = current_line + 1;
            in_single_comment = false;
        }
        if in_single_comment {
            i = i + 1;
        } else if in_multi_comment {
            if ch == '*' && i + 1 < n && cs[i + 1] == '/' {
                in_multi_comment = false;
                i = i + 2;
            } else {
                i = i + 1;
            }
        } else if ch == '/' && i + 1 < n && cs[i + 1] == '/' {
            in_single_comment = true;
            i = i + 2;
        } else if ch == '/' && i + 1 < n && cs[i + 1] == '*' {
            in_multi_comment = true;
            i = i + 2;
        } else if ch == ';' {
            if !instruction_blank {
                let count = match parentheses_process(&in_parentheses_vec, instruction_line) {
                    Ok(c) => c,
                    Err(e) => {
                        return Err((e.message, instruction_line));
                    },
                };
                match parse_instruction(current_instruction.as_str(), instruction_line) {
                    Ok(tokens) => {
                        let ghost before = all_tokens.deep_view();
                        let mut k: i32 = 0;
                        while k < count
                            invariant
                                0 <= k,
                                count > 0 ==> k <= count,
                                count <= 0 ==> k == 0,
                                all_tokens.deep_view() == before + copies(tokens.deep_view(), k as int),
                            decreases count - k,
                        {
                            let ghost mid = all_tokens.deep_view();
                            all_tokens.push(clone_line(&tokens));
                            proof {
                                assert(all_tokens.deep_view() =~= mid.push(tokens.deep_view()));
                                assert(before + copies(tokens.deep_view(), k + 1) =~= (before + copies(tokens.deep_view(), k as int)).push(tokens.deep_view()));
                            }
                            k = k + 1;
                        }
                        proof {
                            if count <= 0 {
                                assert(copies(tokens.deep_view(), k as int) =~= copies(tokens.deep_view(), count as int));
                            }
                        }
                    },
                    Err(e) => {
                        return Err((e, instruction_line));
                    },
                }
            }
            current_instruction = String::new();
            instruction_blank = true;
            in_parentheses_vec = Vec::new();
            instruction_line = current_line;
            proof {
                assert(in_parentheses_vec@ =~= Seq::<char>::empty());
            }
            i = i + 1;
        } else if ch == '(' {
            in_parentheses = true;
            i = i + 1;
        } else if ch == ')' {
            in_parentheses = false;
            i = i + 1;
        } else {
            if in_parentheses {
                in_parentheses_vec.push(ch);
            } else {
                if instruction_blank && !whitespace(ch) {
                    instruction_line = current_line;
                }
                proof {
                    lemma_all_ws_push(current_instruction@, ch);
                }
                push_char(&mut current_instruction, ch);
                instruction_blank = instruction_blank && whitespace(ch);
            }
            i = i + 1;
        }
    }
    if !instruction_blank {
        match parse_instruction(current_instruction.as_str(), instruction_line) {
            Ok(tokens) => {
                let ghost before = all_tokens.deep_view();
                all_tokens.push(tokens);
                proof {
                    assert(all_tokens.deep_view() =~= before.push(all_tokens@.last().deep_view()));
                }
            },
            Err(e) => {
                return Err((e, instruction_line));
            },
        }
    }
    Ok(all_tokens)
}

/// Reads the source `content` into lines of raw tokens, as [`tokenize`]
/// does; an error gives its message and line.
pub fn start(content: String) -> (r: Result<Vec<Vec<RawToken>>, (String, i32)>)
    requires
        content@.len() < i32::MAX,
    ensures
        r matches Ok(v) ==> tokenize_spec(content@) == Ok::<Seq<Seq<RawTok>>, (Seq<char>, i32)>(v.deep_view()),
        r matches Err((m, l)) ==> tokenize_spec(content@) == Err::<Seq<Seq<RawTok>>, (Seq<char>, i32)>((m@, l)),
{
    tokenize(content.as_str())
}


/// Every word of the language's keyword set reads as that keyword, on the
/// line where it stands: `X A O N I G P E L S U`, `IN IG BP`, `INB RET LOG`,
/// `INBC CALL FUNC STEP ELSE`, `DEBUG IMPORT DEBUG_ON DEBUG_OFF`.
pub proof fn law_keywords(line: i32)
    ensures
        token_spec("X"@, line) == Ok::<RawTok, Seq<char>>(RawTok::Keyword("X"@, line)),
        token_spec("A"@, line) == Ok::<RawTok, Seq<char>>(RawTok::Keyword("A"@, line)),
        token_spec("O"@, line) == Ok::<RawTok, Seq<char>>(RawTok::Keyword("O"@, line)),
        token_spec("N"@, line) == Ok::<RawTok, Seq<char>>(RawTok::Keyword("N"@, line)),
        token_spec("I"@, line) == Ok::<RawTok, Seq<char>>(RawTok::Keyword("I"@, line)),
        token_spec("G"@, line) == Ok::<RawTok, Seq<char>>(RawTok::Keyword("G"@, line)),
        token_spec("P"@, line) == Ok::<RawTok, Seq<char>>(RawTok::Keyword("P"@, line)),
        token_spec("E"@, line) == Ok::<RawTok, Seq<char>>(RawTok::Keyword("E"@, line)),
        token_spec("L"@, line) == Ok::<RawTok, Seq<char>>(RawTok::Keyword("L"@, line)),
        token_spec("S"@, line) == Ok::<RawTok, Seq<char>>(RawTok::Keyword("S"@, line)),
        token_spec("U"@, line) == Ok::<RawTok, Seq<char>>(RawTok::Keyword("U"@, line)),
        token_spec("IN"@, line) == Ok::<RawTok, Seq<char>>(RawTok::Keyword("IN"@, line)),
        token_spec("IG"@, line) == Ok::<RawTok, Seq<char>>(RawTok::Keyword("IG"@, line)),
        token_spec("BP"@, line) == Ok::<RawTok, Seq<char>>(RawTok::Keyword("BP"@, line)),
        token_spec("INB"@, line) == Ok::<RawTok, Seq<char>>(RawTok::Keyword("INB"@, line)),
        token_spec("RET"@, line) == Ok::<RawTok, Seq<char>>(RawTok::Keyword("RET"@, line)),
        token_spec("LOG"@, line) == Ok::<RawTok, Seq<char>>(RawTok::Keyword("LOG"@, line)),
        token_spec("INBC"@, line) == Ok::<RawTok, Seq<char>>(RawTok::Keyword("INBC"@, line)),
        token_spec("CALL"@, line) == Ok::<RawTok, Seq<char>>(RawTok::Keyword("CALL"@, line)),
        token_spec("FUNC"@, line) == Ok::<RawTok, Seq<char>>(RawTok::Keyword("FUNC"@, line)),
        token_spec("STEP"@, line) == Ok::<RawTok, Seq<char>>(RawTok::Keyword("STEP"@, line)),
        token_spec("ELSE"@, line) == Ok::<RawTok, Seq<char>>(RawTok::Keyword("ELSE"@, line)),
        token_spec("DEBUG"@, line) == Ok::<RawTok, Seq<char>>(RawTok::Keyword("DEBUG"@, line)),
        token_spec("IMPORT"@, line) == Ok::<RawTok, Seq<char>>(RawTok::Keyword("IMPORT"@, line)),
        token_spec("DEBUG_ON"@, line) == Ok::<RawTok, Seq<char>>(RawTok::Keyword("DEBUG_ON"@, line)),
        token_spec("DEBUG_OFF"@, line) == Ok::<RawTok, Seq<char>>(RawTok::Keyword("DEBUG_OFF"@, line)),
{
    reveal_strlit("T");
    reveal_strlit("F");
    reveal_strlit("X");
    reveal_strlit("A");
    reveal_strlit("O");
    reveal_strlit("N");
    reveal_strlit("I");
    reveal_strlit("G");
    reveal_strlit("P");
    reveal_strlit("E");
    reveal_strlit("L");
    reveal_strlit("S");
    reveal_strlit("U");
    reveal_strlit("IN");
    reveal_strlit("IG");
    reveal_strlit("BP");
    reveal_strlit("INB");
    reveal_strlit("RET");
    reveal_strlit("LOG");
    reveal_strlit("INBC");
    reveal_strlit("CALL");
    reveal_strlit("FUNC");
    reveal_strlit("STEP");
    reveal_strlit("ELSE");
    reveal_strlit("DEBUG");
    reveal_strlit("IMPORT");
    reveal_strlit("DEBUG_ON");
    reveal_strlit("DEBUG_OFF");
}

} // verus!
