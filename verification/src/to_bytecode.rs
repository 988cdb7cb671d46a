//! Bytecode generation: each line of renamed tokens becomes one instruction.
use vstd::prelude::*;
use crate::name_map::{IdentNameMap, NameTables};
use crate::text::{decimal, int_text};
use crate::tokens::{Token, Tok, str_eq};
use crate::vm::pre_run::well_formed;

verus! {

/// The token is the keyword `k`.
pub open spec fn is_kw_tok(t: Tok, k: Seq<char>) -> bool {
    t matches Tok::Keyword(s, _) && s == k
}

pub open spec fn num_of(t: Tok) -> i32 {
    match t {
        Tok::Number(n, _) => n,
        Tok::LabelP(n, _) => n,
        Tok::LabelPD(n, _) => n,
        _ => 0,
    }
}

pub open spec fn line_of(t: Tok) -> i32 {
    match t {
        Tok::Bool(_, l) => l,
        Tok::Keyword(_, l) => l,
        Tok::LabelP(_, l) => l,
        Tok::LabelPD(_, l) => l,
        Tok::Number(_, l) => l,
    }
}

/// The instruction of a line of one token.
pub open spec fn encode1(a: Tok) -> Option<Seq<i32>> {
    if is_kw_tok(a, "E"@) {
        Some(seq![50])
    } else if a is LabelP {
        Some(seq![200, num_of(a)])
    } else if a is LabelPD {
        Some(seq![201, num_of(a)])
    } else if is_kw_tok(a, "IN"@) {
        Some(seq![600])
    } else if is_kw_tok(a, "INBC"@) {
        Some(seq![625])
    } else {
        None
    }
}

/// The instruction of a line of two tokens.
pub open spec fn encode2(a: Tok, b: Tok) -> Option<Seq<i32>> {
    if a is Number && b is Bool {
        if b->Bool_0 { Some(seq![101, num_of(a)]) } else { Some(seq![100, num_of(a)]) }
    } else if a is Number && b is Number {
        Some(seq![150, num_of(a), num_of(b)])
    } else if is_kw_tok(a, "G"@) && b is LabelP {
        Some(seq![230, num_of(b)])
    } else if is_kw_tok(a, "G"@) && b is LabelPD {
        Some(seq![231, num_of(b)])
    } else if a is LabelPD && b is LabelP {
        Some(seq![260, num_of(a), num_of(b)])
    } else if a is LabelPD && b is LabelPD {
        Some(seq![261, num_of(a), num_of(b)])
    } else if is_kw_tok(a, "IF"@) && b is Number {
        Some(seq![300, num_of(b)])
    } else if is_kw_tok(a, "P"@) && b is Bool {
        if b->Bool_0 { Some(seq![400]) } else { Some(seq![401]) }
    } else if is_kw_tok(a, "P"@) && b is Number {
        Some(seq![402, num_of(b)])
    } else if is_kw_tok(a, "P"@) && is_kw_tok(b, "N"@) {
        Some(seq![403])
    } else if is_kw_tok(a, "P"@) && is_kw_tok(b, "S"@) {
        Some(seq![404])
    } else if is_kw_tok(a, "IN"@) && is_kw_tok(b, "U"@) {
        Some(seq![601])
    } else if a is Number && is_kw_tok(b, "INBC"@) {
        Some(seq![650, num_of(a)])
    } else if a is Number && is_kw_tok(b, "INB"@) {
        Some(seq![675, num_of(a)])
    } else if is_kw_tok(a, "DEBUG"@) && is_kw_tok(b, "BP"@) {
        Some(seq![700])
    } else if is_kw_tok(a, "DEBUG"@) && is_kw_tok(b, "STOP"@) {
        Some(seq![730])
    } else if is_kw_tok(a, "DEBUG_ON"@) && is_kw_tok(b, "STEP"@) {
        Some(seq![760, 0])
    } else if is_kw_tok(a, "DEBUG_ON"@) && is_kw_tok(b, "LOG"@) {
        Some(seq![760, 1])
    } else if is_kw_tok(a, "DEBUG_OFF"@) && is_kw_tok(b, "STEP"@) {
        Some(seq![761, 0])
    } else if is_kw_tok(a, "DEBUG_OFF"@) && is_kw_tok(b, "LOG"@) {
        Some(seq![761, 1])
    } else {
        None
    }
}

/// `LOG STEP` or `STEP LOG`.
pub open spec fn log_and_step(b: Tok, c: Tok) -> bool {
    (is_kw_tok(b, "LOG"@) && is_kw_tok(c, "STEP"@)) || (is_kw_tok(b, "STEP"@) && is_kw_tok(c, "LOG"@))
}

/// The instruction of a line of three tokens.
pub open spec fn encode3(a: Tok, b: Tok, c: Tok) -> Option<Seq<i32>> {
    if is_kw_tok(a, "IFG"@) && b is Number && c is LabelP {
        Some(seq![302, num_of(b), num_of(c)])
    } else if is_kw_tok(a, "IFG"@) && b is Number && c is LabelPD {
        Some(seq![303, num_of(b), num_of(c)])
    } else if is_kw_tok(a, "P"@) && is_kw_tok(b, "U"@) && c is Number {
        Some(seq![405, num_of(c)])
    } else if a is Number && is_kw_tok(b, "N"@) && c is Number {
        Some(seq![500, num_of(a), num_of(c)])
    } else if a is Number && is_kw_tok(b, "U"@) && is_kw_tok(c, "INB"@) {
        Some(seq![676, num_of(a)])
    } else if is_kw_tok(a, "DEBUG_ON"@) && log_and_step(b, c) {
        Some(seq![760, 2])
    } else if is_kw_tok(a, "DEBUG_OFF"@) && log_and_step(b, c) {
        Some(seq![761, 2])
    } else {
        None
    }
}

/// The instruction of a line of four tokens.
pub open spec fn encode4(a: Tok, b: Tok, c: Tok, d: Tok) -> Option<Seq<i32>> {
    if a is Number && c is Number && d is Number {
        if is_kw_tok(b, "O"@) {
            Some(seq![550, num_of(a), num_of(c), num_of(d)])
        } else if is_kw_tok(b, "A"@) {
            Some(seq![551, num_of(a), num_of(c), num_of(d)])
        } else if is_kw_tok(b, "X"@) {
            Some(seq![552, num_of(a), num_of(c), num_of(d)])
        } else {
            None
        }
    } else {
        None
    }
}

/// The instruction of a line, or `None` for a line of no known form; an
/// empty line gives the empty instruction.
pub open spec fn encode(line: Seq<Tok>) -> Option<Seq<i32>> {
    if line.len() == 0 {
        Some(Seq::empty())
    } else if line.len() == 1 {
        encode1(line[0])
    } else if line.len() == 2 {
        encode2(line[0], line[1])
    } else if line.len() == 3 {
        encode3(line[0], line[1], line[2])
    } else if line.len() == 4 {
        encode4(line[0], line[1], line[2], line[3])
    } else {
        None
    }
}

/// The table knows the name of every identifier of the line.
pub open spec fn names_known(m: NameTables, line: Seq<Tok>) -> bool {
    forall|j: int| 0 <= j < line.len() ==> match #[trigger] line[j] {
        Tok::Number(n, _) => m.n.contains_key(n),
        Tok::LabelP(n, _) => m.p.contains_key(n),
        Tok::LabelPD(n, _) => m.pd.contains_key(n),
        _ => true,
    }
}

/// How a token reads back in an error message.
pub open spec fn token_text(m: NameTables, t: Tok) -> Seq<char> {
    match t {
        Tok::Number(n, _) => m.n[n],
        Tok::LabelP(n, _) => "P."@ + m.p[n],
        Tok::LabelPD(n, _) => "PD."@ + m.pd[n],
        Tok::Bool(b, _) => if b { "T"@ } else { "F"@ },
        Tok::Keyword(k, _) => k,
    }
}

/// The tokens of a line read back, joined by spaces.
pub open spec fn line_text(m: NameTables, line: Seq<Tok>) -> Seq<char>
    decreases line.len(),
{
    if line.len() == 0 {
        Seq::empty()
    } else if line.len() == 1 {
        token_text(m, line[0])
    } else {
        line_text(m, line.drop_last()) + " "@ + token_text(m, line.last())
    }
}

/// What `format!("{:?}", s)` writes for a string `s`: the text in double
/// quotes, with the escapes of `str`'s `Debug`.
pub uninterp spec fn debug_text(s: Seq<char>) -> Seq<char>;

/// The message for a line of no known form.
pub open spec fn bad_line_message(m: NameTables, line: Seq<Tok>) -> Seq<char> {
    "\n   >>  ! Ошибка в обработке последовательности токенов "@ + debug_text(line_text(m, line))
        + "  ("@ + decimal(line_of(line.last()) as int) + ")\n\n"@
}

/// What `to_bytecode` gives: the instruction `0` on line 0, then the
/// instruction of each non-empty line with the line of its first token.
pub open spec fn bytecode_spec(m: NameTables, lines: Seq<Seq<Tok>>) -> Result<Seq<(Seq<i32>, i32)>, Seq<char>>
    decreases lines.len(),
{
    if lines.len() == 0 {
        Ok(seq![(seq![0i32], 0i32)])
    } else {
        match bytecode_spec(m, lines.drop_last()) {
            Err(e) => Err(e),
            Ok(done) => {
                let line = lines.last();
                match encode(line) {
                    None => Err(bad_line_message(m, line)),
                    Some(code) => if code.len() == 0 {
                        Ok(done)
                    } else {
                        Ok(done.push((code, line_of(line[0]))))
                    },
                }
            },
        }
    }
}

/// `format!("{:?}", s)`.
/// Trusted: std's `Debug` for `str` depends on the text alone; its result is
/// named [`debug_text`], and nothing more is claimed of it.
#[verifier::external_body]
fn debug_quoted(s: &str) -> (r: String)
    ensures
        r@ == debug_text(s@),
{
    format!("{:?}", s)
}

} // verus!

verus! {

fn tk_is(t: &Token, k: &str) -> (b: bool)
    ensures
        b == is_kw_tok(t@, k@),
{
    match t {
        Token::Keyword(s, _) => str_eq(s.as_str(), k),
        _ => false,
    }
}

fn tk_num(t: &Token) -> (n: i32)
    ensures
        n == num_of(t@),
{
    match t {
        Token::Number(n, _) => *n,
        Token::LabelP(n, _) => *n,
        Token::LabelPD(n, _) => *n,
        _ => 0,
    }
}

fn tk_line(t: &Token) -> (l: i32)
    ensures
        l == line_of(t@),
{
    match t {
        Token::Bool(_, l) => *l,
        Token::Keyword(_, l) => *l,
        Token::LabelP(_, l) => *l,
        Token::LabelPD(_, l) => *l,
        Token::Number(_, l) => *l,
    }
}

fn code(v: &[i32]) -> (r: Vec<i32>)
    ensures
        r@ == v@,
{
    vstd::slice::slice_to_vec(v)
}

fn encode_one(a: &Token) -> (r: Option<Vec<i32>>)
    ensures
        r matches Some(c) ==> encode1(a@) == Some(c@),
        r is None ==> encode1(a@) is None,
{
    if tk_is(a, "E") {
        Some(code(&[50]))
    } else if matches!(a, Token::LabelP(_, _)) {
        Some(code(&[200, tk_num(a)]))
    } else if matches!(a, Token::LabelPD(_, _)) {
        Some(code(&[201, tk_num(a)]))
    } else if tk_is(a, "IN") {
        Some(code(&[600]))
    } else if tk_is(a, "INBC") {
        Some(code(&[625]))
    } else {
        None
    }
}

fn encode_two(a: &Token, b: &Token) -> (r: Option<Vec<i32>>)
    ensures
        r matches Some(c) ==> encode2(a@, b@) == Some(c@),
        r is None ==> encode2(a@, b@) is None,
{
    let a_num = matches!(a, Token::Number(_, _));
    if a_num && matches!(b, Token::Bool(_, _)) {
        let t = matches!(b, Token::Bool(true, _));
        if t { Some(code(&[101, tk_num(a)])) } else { Some(code(&[100, tk_num(a)])) }
    } else if a_num && matches!(b, Token::Number(_, _)) {
        Some(code(&[150, tk_num(a), tk_num(b)]))
    } else if tk_is(a, "G") && matches!(b, Token::LabelP(_, _)) {
        Some(code(&[230, tk_num(b)]))
    } else if tk_is(a, "G") && matches!(b, Token::LabelPD(_, _)) {
        Some(code(&[231, tk_num(b)]))
    } else if matches!(a, Token::LabelPD(_, _)) && matches!(b, Token::LabelP(_, _)) {
        Some(code(&[260, tk_num(a), tk_num(b)]))
    } else if matches!(a, Token::LabelPD(_, _)) && matches!(b, Token::LabelPD(_, _)) {
        Some(code(&[261, tk_num(a), tk_num(b)]))
    } else if tk_is(a, "IF") && matches!(b, Token::Number(_, _)) {
        Some(code(&[300, tk_num(b)]))
    } else if tk_is(a, "P") && matches!(b, Token::Bool(_, _)) {
        let t = matches!(b, Token::Bool(true, _));
        if t { Some(code(&[400])) } else { Some(code(&[401])) }
    } else if tk_is(a, "P") && matches!(b, Token::Number(_, _)) {
        Some(code(&[402, tk_num(b)]))
    } else if tk_is(a, "P") && tk_is(b, "N") {
        Some(code(&[403]))
    } else if tk_is(a, "P") && tk_is(b, "S") {
        Some(code(&[404]))
    } else if tk_is(a, "IN") && tk_is(b, "U") {
        Some(code(&[601]))
    } else if a_num && tk_is(b, "INBC") {
        Some(code(&[650, tk_num(a)]))
    } else if a_num && tk_is(b, "INB") {
        Some(code(&[675, tk_num(a)]))
    } else if tk_is(a, "DEBUG") && tk_is(b, "BP") {
        Some(code(&[700]))
    } else if tk_is(a, "DEBUG") && tk_is(b, "STOP") {
        Some(code(&[730]))
    } else if tk_is(a, "DEBUG_ON") && tk_is(b, "STEP") {
        Some(code(&[760, 0]))
    } else if tk_is(a, "DEBUG_ON") && tk_is(b, "LOG") {
        Some(code(&[760, 1]))
    } else if tk_is(a, "DEBUG_OFF") && tk_is(b, "STEP") {
        Some(code(&[761, 0]))
    } else if tk_is(a, "DEBUG_OFF") && tk_is(b, "LOG") {
        Some(code(&[761, 1]))
    } else {
        None
    }
}

fn encode_three(a: &Token, b: &Token, c: &Token) -> (r: Option<Vec<i32>>)
    ensures
        r matches Some(v) ==> encode3(a@, b@, c@) == Some(v@),
        r is None ==> encode3(a@, b@, c@) is None,
{
    let log_step = (tk_is(b, "LOG") && tk_is(c, "STEP")) || (tk_is(b, "STEP") && tk_is(c, "LOG"));
    if tk_is(a, "IFG") && matches!(b, Token::Number(_, _)) && matches!(c, Token::LabelP(_, _)) {
        Some(code(&[302, tk_num(b), tk_num(c)]))
    } else if tk_is(a, "IFG") && matches!(b, Token::Number(_, _)) && matches!(c, Token::LabelPD(_, _)) {
        Some(code(&[303, tk_num(b), tk_num(c)]))
    } else if tk_is(a, "P") && tk_is(b, "U") && matches!(c, Token::Number(_, _)) {
        Some(code(&[405, tk_num(c)]))
    } else if matches!(a, Token::Number(_, _)) && tk_is(b, "N") && matches!(c, Token::Number(_, _)) {
        Some(code(&[500, tk_num(a), tk_num(c)]))
    } else if matches!(a, Token::Number(_, _)) && tk_is(b, "U") && tk_is(c, "INB") {
        Some(code(&[676, tk_num(a)]))
    } else if tk_is(a, "DEBUG_ON") && log_step {
        Some(code(&[760, 2]))
    } else if tk_is(a, "DEBUG_OFF") && log_step {
        Some(code(&[761, 2]))
    } else {
        None
    }
}

fn encode_four(a: &Token, b: &Token, c: &Token, d: &Token) -> (r: Option<Vec<i32>>)
    ensures
        r matches Some(v) ==> encode4(a@, b@, c@, d@) == Some(v@),
        r is None ==> encode4(a@, b@, c@, d@) is None,
{
    if matches!(a, Token::Number(_, _)) && matches!(c, Token::Number(_, _)) && matches!(d, Token::Number(_, _)) {
        if tk_is(b, "O") {
            Some(code(&[550, tk_num(a), tk_num(c), tk_num(d)]))
        } else if tk_is(b, "A") {
            Some(code(&[551, tk_num(a), tk_num(c), tk_num(d)]))
        } else if tk_is(b, "X") {
            Some(code(&[552, tk_num(a), tk_num(c), tk_num(d)]))
        } else {
            None
        }
    } else {
        None
    }
}

/// How one token reads back in an error message.
fn token_name(t: &Token, ident_name_map: &IdentNameMap) -> (s: String)
    requires
        match t@ {
            Tok::Number(n, _) => ident_name_map@.n.contains_key(n),
            Tok::LabelP(n, _) => ident_name_map@.p.contains_key(n),
            Tok::LabelPD(n, _) => ident_name_map@.pd.contains_key(n),
            _ => true,
        },
    ensures
        s@ == token_text(ident_name_map@, t@),
{
    match t {
        Token::Number(n, _) => ident_name_map.get_name_n(*n),
        Token::LabelP(n, _) => {
            let mut s = String::from_str("P.");
            let name = ident_name_map.get_name_p(*n);
            s.append(name.as_str());
            s
        },
        Token::LabelPD(n, _) => {
            let mut s = String::from_str("PD.");
            let name = ident_name_map.get_name_pd(*n);
            s.append(name.as_str());
            s
        },
        Token::Bool(b, _) => if *b { String::from_str("T") } else { String::from_str("F") },
        Token::Keyword(k, _) => k.clone(),
    }
}

/// The instruction of one line and the line number of its first token; a
/// line of no known form gives a message that reads its tokens back.
#[verifier::loop_isolation(false)]
fn process_line(tokens: Vec<Token>, ident_name_map: &IdentNameMap) -> (r: Result<(Vec<i32>, i32), String>)
    requires
        encode(tokens.deep_view()) is None ==> names_known(ident_name_map@, tokens.deep_view()),
    ensures
        r matches Ok((c, l)) ==> encode(tokens.deep_view()) == Some(c@) && (c@.len() > 0 ==> l == line_of(tokens.deep_view()[0])),
        r matches Err(m) ==> encode(tokens.deep_view()) is None && m@ == bad_line_message(ident_name_map@, tokens.deep_view()),
{
    let ghost tv = tokens.deep_view();
    let n = tokens.len();
    let found = if n == 0 {
        Some(Vec::new())
    } else if n == 1 {
        encode_one(&tokens[0])
    } else if n == 2 {
        encode_two(&tokens[0], &tokens[1])
    } else if n == 3 {
        encode_three(&tokens[0], &tokens[1], &tokens[2])
    } else if n == 4 {
        encode_four(&tokens[0], &tokens[1], &tokens[2], &tokens[3])
    } else {
        None
    };
    match found {
        Some(c) => {
            assert(c@ =~= encode(tv)->Some_0);
            if n == 0 {
                Ok((c, -1))
            } else {
                Ok((c, tk_line(&tokens[0])))
            }
        },
        None => {
            let mut line = String::new();
            let mut line_num: i32 = -1;
            let mut j: usize = 0;
            while j < n
                invariant
                    j <= n == tv.len(),
                    line@ == line_text(ident_name_map@, tv.take(j as int)),
                    j > 0 ==> line_num == line_of(tv[j - 1]),
                decreases n - j,
            {
                assert(tv.take(j + 1).drop_last() =~= tv.take(j as int));
                let text = token_name(&tokens[j], ident_name_map);
                if j > 0 {
                    line.append(" ");
                }
                line.append(text.as_str());
                line_num = tk_line(&tokens[j]);
                proof {
                    if j == 0 {
                        assert(line@ =~= line_text(ident_name_map@, tv.take(1)));
                    } else {
                        assert(line@ =~= line_text(ident_name_map@, tv.take(j + 1)));
                    }
                }
                j = j + 1;
            }
            assert(tv.take(n as int) =~= tv);
            let mut m = String::from_str("\n   >>  ! Ошибка в обработке последовательности токенов ");
            let q = debug_quoted(line.as_str());
            m.append(q.as_str());
            m.append("  (");
            let l = int_text(line_num as i64);
            m.append(l.as_str());
            m.append(")\n\n");
            assert(m@ =~= bad_line_message(ident_name_map@, tv));
            Err(m)
        },
    }
}

/// Translates lines of tokens into bytecode: the instruction `0` on line 0,
/// then one instruction per non-empty line with its line number.
#[verifier::loop_isolation(false)]
pub fn to_bytecode(tokens: Vec<Vec<Token>>, ident_name_map: &IdentNameMap) -> (r: Result<Vec<(Vec<i32>, i32)>, String>)
    requires
        forall|i: int| 0 <= i < tokens@.len() && encode(#[trigger] tokens@[i].deep_view()) is None
            && (forall|j: int| 0 <= j < i ==> encode(#[trigger] tokens@[j].deep_view()) is Some)
            ==> names_known(ident_name_map@, tokens@[i].deep_view()),
    ensures
        r matches Ok(b) ==> bytecode_spec(ident_name_map@, tokens.deep_view()) == Ok::<Seq<(Seq<i32>, i32)>, Seq<char>>(b@.map_values(|x: (Vec<i32>, i32)| (x.0@, x.1))),
        r matches Err(m) ==> bytecode_spec(ident_name_map@, tokens.deep_view()) == Err::<Seq<(Seq<i32>, i32)>, Seq<char>>(m@),
{
    let ghost tv = tokens.deep_view();
    let mut bytecode: Vec<(Vec<i32>, i32)> = Vec::new();
    let zero = code(&[0]);
    assert(zero@ =~= seq![0i32]);
    bytecode.push((zero, 0));
    proof {
        assert(bytecode@.map_values(|x: (Vec<i32>, i32)| (x.0@, x.1))[0] == (seq![0i32], 0i32));
        assert(bytecode@.map_values(|x: (Vec<i32>, i32)| (x.0@, x.1)) =~= seq![(seq![0i32], 0i32)]);
        assert(tv.take(0) =~= Seq::<Seq<Tok>>::empty());
    }
    let mut tokens = tokens;
    let ghost orig = tokens@;
    let mut k: usize = 0;
    let n = tokens.len();
    // take the lines out in order
    let mut lines: Vec<Vec<Token>> = Vec::new();
    while tokens.len() > 0
        invariant
            tokens@.len() + lines@.len() == n,
            forall|i: int| 0 <= i < lines@.len() ==> lines@[i] == orig[n - 1 - i],
            forall|i: int| 0 <= i < tokens@.len() ==> tokens@[i] == orig[i],
        decreases tokens.len(),
    {
        let last = tokens.pop().unwrap();
        lines.push(last);
    }
    while k < n
        invariant
            k <= n == orig.len(),
            lines@.len() == n - k,
            forall|i: int| 0 <= i < lines@.len() ==> lines@[i] == orig[n - 1 - i],
            tv == Seq::new(orig.len(), |i: int| orig[i].deep_view()),
            bytecode_spec(ident_name_map@, tv.take(k as int)) == Ok::<Seq<(Seq<i32>, i32)>, Seq<char>>(bytecode@.map_values(|x: (Vec<i32>, i32)| (x.0@, x.1))),
        decreases n - k,
    {
        let token_line = lines.pop().unwrap();
        assert(token_line == orig[k as int]);
        proof {
            assert(tv.take(k + 1).drop_last() =~= tv.take(k as int));
            assert(tv.take(k + 1).last() == token_line.deep_view());
        }
        let ghost before = bytecode@.map_values(|x: (Vec<i32>, i32)| (x.0@, x.1));
        proof {
            law_bytecode_closed(ident_name_map@, tv.take(k as int));
            assert forall|j: int| 0 <= j < k implies encode(#[trigger] orig[j].deep_view()) is Some by {
                assert(tv.take(k as int)[j] == orig[j].deep_view());
            }
        }
        match process_line(token_line, ident_name_map) {
            Ok((code_line, line_num)) => {
                if code_line.len() > 0 {
                    bytecode.push((code_line, line_num));
                    proof {
                        assert(bytecode@.map_values(|x: (Vec<i32>, i32)| (x.0@, x.1)) =~= before.push((bytecode@.last().0@, line_num)));
                    }
                }
            },
            Err(e) => {
                proof {
                    lemma_bytecode_error_stays(ident_name_map@, tv, k as int + 1);
                    assert(tv.take(tv.len() as int) =~= tv);
                }
                return Err(e);
            },
        }
        k = k + 1;
    }
    proof {
        assert(tv.take(k as int) =~= tv);
    }
    Ok(bytecode)
}

proof fn lemma_bytecode_error_stays(m: NameTables, lines: Seq<Seq<Tok>>, j: int)
    requires
        0 <= j <= lines.len(),
        bytecode_spec(m, lines.take(j)) is Err,
    ensures
        bytecode_spec(m, lines) == bytecode_spec(m, lines.take(j)),
    decreases lines.len() - j,
{
    if j < lines.len() {
        assert(lines.take(j + 1).drop_last() =~= lines.take(j));
        lemma_bytecode_error_stays(m, lines, j + 1);
    } else {
        assert(lines.take(j) =~= lines);
    }
}


/// The instructions of a bytecode, without their lines.
pub open spec fn codes(q: Seq<(Seq<i32>, i32)>) -> Seq<Seq<i32>> {
    Seq::new(q.len(), |k: int| q[k].0)
}

proof fn lemma_encode_well_formed(line: Seq<Tok>)
    ensures
        encode(line) matches Some(c) ==> c.len() > 0 ==> well_formed(seq![c]),
{
    match encode(line) {
        Some(c) => {
            if c.len() > 0 {
                assert(well_formed(seq![c])) by {
                    assert(seq![c][0] == c);
                }
            }
        },
        None => {},
    }
}

/// Bytecode that `to_bytecode` gives can always be loaded: every
/// instruction has an opcode and the operands that the loader reads.
pub proof fn law_bytecode_well_formed(m: NameTables, lines: Seq<Seq<Tok>>)
    ensures
        bytecode_spec(m, lines) matches Ok(q) ==> well_formed(codes(q)),
    decreases lines.len(),
{
    if lines.len() == 0 {
        assert(well_formed(codes(seq![(seq![0i32], 0i32)]))) by {
            assert(codes(seq![(seq![0i32], 0i32)])[0] == seq![0i32]);
        }
    } else {
        law_bytecode_well_formed(m, lines.drop_last());
        lemma_encode_well_formed(lines.last());
        match bytecode_spec(m, lines.drop_last()) {
            Ok(done) => {
                match encode(lines.last()) {
                    Some(c) => {
                        if c.len() > 0 {
                            let q = done.push((c, line_of(lines.last()[0])));
                            assert forall|k: int| 0 <= k < codes(q).len() implies #[trigger] codes(q)[k] == (if k < done.len() { codes(done)[k] } else { c }) by {}
                            assert(seq![c][0] == c);
                        }
                    },
                    None => {},
                }
            },
            Err(_) => {},
        }
    }
}


/// The number of non-empty lines.
pub open spec fn nonempty_count(lines: Seq<Seq<Tok>>) -> int
    decreases lines.len(),
{
    if lines.len() == 0 {
        0
    } else {
        nonempty_count(lines.drop_last()) + if lines.last().len() > 0 { 1int } else { 0int }
    }
}

/// The instruction of a non-empty line with the line of its first token;
/// nothing for an empty line.
pub open spec fn line_code(l: Seq<Tok>) -> Option<(Seq<i32>, i32)> {
    if l.len() == 0 {
        None
    } else {
        Some((encode(l)->0, line_of(l[0])))
    }
}

/// The first line of no known form.
pub open spec fn first_bad(lines: Seq<Seq<Tok>>, f: int) -> bool {
    &&& 0 <= f < lines.len()
    &&& encode(lines[f]) is None
    &&& forall|g: int| 0 <= g < f ==> encode(#[trigger] lines[g]) is Some
}

proof fn lemma_encode_nonempty(l: Seq<Tok>)
    ensures
        encode(l) matches Some(c) ==> (c.len() > 0 <==> l.len() > 0),
{
}

/// `to_bytecode` in closed form: it succeeds exactly when every line has a
/// known form, and then gives the instruction `0` on line 0 followed by the
/// instruction of each non-empty line, in order, one per such line; else it
/// gives the message of the first line of no known form.
pub proof fn law_bytecode_closed(m: NameTables, lines: Seq<Seq<Tok>>)
    ensures
        bytecode_spec(m, lines) is Ok <==> forall|j: int| 0 <= j < lines.len() ==> encode(#[trigger] lines[j]) is Some,
        bytecode_spec(m, lines) matches Ok(q) ==> q == seq![(seq![0i32], 0i32)] + lines.filter_map(|l: Seq<Tok>| line_code(l))
            && q.len() == 1 + nonempty_count(lines),
        bytecode_spec(m, lines) matches Err(e) ==> exists|f: int| #[trigger] first_bad(lines, f) && e == bad_line_message(m, lines[f]),
    decreases lines.len(),
{
    if lines.len() > 0 {
        let init = lines.drop_last();
        let l = lines.last();
        law_bytecode_closed(m, init);
        lemma_encode_nonempty(l);
        assert forall|j: int| 0 <= j < init.len() implies init[j] == lines[j] by {}
        match bytecode_spec(m, init) {
            Ok(done) => {
                assert(forall|j: int| 0 <= j < init.len() ==> encode(#[trigger] init[j]) is Some);
                match encode(l) {
                    None => {
                        assert(first_bad(lines, lines.len() - 1)) by {
                            assert forall|g: int| 0 <= g < lines.len() - 1 implies encode(#[trigger] lines[g]) is Some by {
                                assert(init[g] == lines[g]);
                            }
                        }
                    },
                    Some(c) => {
                        assert forall|j: int| 0 <= j < lines.len() implies encode(#[trigger] lines[j]) is Some by {
                            if j < lines.len() - 1 {
                                assert(init[j] == lines[j]);
                            }
                        }
                        let fm = lines.filter_map(|x: Seq<Tok>| line_code(x));
                        let fm0 = init.filter_map(|x: Seq<Tok>| line_code(x));
                        if c.len() > 0 {
                            assert(seq![(seq![0i32], 0i32)] + fm =~= (seq![(seq![0i32], 0i32)] + fm0).push((c, line_of(l[0]))));
                        } else {
                            assert(seq![(seq![0i32], 0i32)] + fm =~= seq![(seq![0i32], 0i32)] + fm0);
                        }
                    },
                }
            },
            Err(e) => {
                let f = choose|f: int| #[trigger] first_bad(init, f) && e == bad_line_message(m, init[f]);
                assert(first_bad(lines, f)) by {
                    assert(init[f] == lines[f]);
                    assert forall|g: int| 0 <= g < f implies encode(#[trigger] lines[g]) is Some by {
                        assert(init[g] == lines[g]);
                    }
                }
                assert(encode(init[f]) is None);
            },
        }
    } else {
        assert(lines.filter_map(|l: Seq<Tok>| line_code(l)) =~= Seq::<(Seq<i32>, i32)>::empty());
        assert(seq![(seq![0i32], 0i32)] + Seq::<(Seq<i32>, i32)>::empty() =~= seq![(seq![0i32], 0i32)]);
    }
}


/// The table of instructions: each form of line, whatever its identifiers
/// `n`, `m`, `k`, truth value `b` and line `l`, gives its opcode and
/// operands. Assigning `T` is 101 and `F` 100; `P T` is 400 and `P F` 401.
#[verifier::rlimit(50)]
pub proof fn law_opcode_table(n: i32, m: i32, k: i32, b: bool, l: i32)
    ensures
        encode(seq![Tok::Keyword("E"@, l)]) == Some(seq![50i32]),
        encode(seq![Tok::Number(n, l), Tok::Bool(b, l)]) == Some(seq![if b { 101i32 } else { 100i32 }, n]),
        encode(seq![Tok::Number(n, l), Tok::Number(m, l)]) == Some(seq![150i32, n, m]),
        encode(seq![Tok::LabelP(n, l)]) == Some(seq![200i32, n]),
        encode(seq![Tok::LabelPD(n, l)]) == Some(seq![201i32, n]),
        encode(seq![Tok::Keyword("G"@, l), Tok::LabelP(n, l)]) == Some(seq![230i32, n]),
        encode(seq![Tok::Keyword("G"@, l), Tok::LabelPD(n, l)]) == Some(seq![231i32, n]),
        encode(seq![Tok::LabelPD(n, l), Tok::LabelP(m, l)]) == Some(seq![260i32, n, m]),
        encode(seq![Tok::LabelPD(n, l), Tok::LabelPD(m, l)]) == Some(seq![261i32, n, m]),
        encode(seq![Tok::Keyword("IF"@, l), Tok::Number(n, l)]) == Some(seq![300i32, n]),
        encode(seq![Tok::Keyword("IFG"@, l), Tok::Number(n, l), Tok::LabelP(m, l)]) == Some(seq![302i32, n, m]),
        encode(seq![Tok::Keyword("IFG"@, l), Tok::Number(n, l), Tok::LabelPD(m, l)]) == Some(seq![303i32, n, m]),
        encode(seq![Tok::Keyword("P"@, l), Tok::Bool(b, l)]) == Some(seq![if b { 400i32 } else { 401i32 }]),
        encode(seq![Tok::Keyword("P"@, l), Tok::Number(n, l)]) == Some(seq![402i32, n]),
        encode(seq![Tok::Keyword("P"@, l), Tok::Keyword("N"@, l)]) == Some(seq![403i32]),
        encode(seq![Tok::Keyword("P"@, l), Tok::Keyword("S"@, l)]) == Some(seq![404i32]),
        encode(seq![Tok::Keyword("P"@, l), Tok::Keyword("U"@, l), Tok::Number(n, l)]) == Some(seq![405i32, n]),
        encode(seq![Tok::Number(n, l), Tok::Keyword("N"@, l), Tok::Number(m, l)]) == Some(seq![500i32, n, m]),
        encode(seq![Tok::Number(n, l), Tok::Keyword("O"@, l), Tok::Number(m, l), Tok::Number(k, l)]) == Some(seq![550i32, n, m, k]),
        encode(seq![Tok::Number(n, l), Tok::Keyword("A"@, l), Tok::Number(m, l), Tok::Number(k, l)]) == Some(seq![551i32, n, m, k]),
        encode(seq![Tok::Number(n, l), Tok::Keyword("X"@, l), Tok::Number(m, l), Tok::Number(k, l)]) == Some(seq![552i32, n, m, k]),
        encode(seq![Tok::Keyword("IN"@, l)]) == Some(seq![600i32]),
        encode(seq![Tok::Keyword("IN"@, l), Tok::Keyword("U"@, l)]) == Some(seq![601i32]),
        encode(seq![Tok::Keyword("INBC"@, l)]) == Some(seq![625i32]),
        encode(seq![Tok::Number(n, l), Tok::Keyword("INBC"@, l)]) == Some(seq![650i32, n]),
        encode(seq![Tok::Number(n, l), Tok::Keyword("INB"@, l)]) == Some(seq![675i32, n]),
        encode(seq![Tok::Number(n, l), Tok::Keyword("U"@, l), Tok::Keyword("INB"@, l)]) == Some(seq![676i32, n]),
        encode(seq![Tok::Keyword("DEBUG"@, l), Tok::Keyword("BP"@, l)]) == Some(seq![700i32]),
        encode(seq![Tok::Keyword("DEBUG"@, l), Tok::Keyword("STOP"@, l)]) == Some(seq![730i32]),
        encode(seq![Tok::Keyword("DEBUG_ON"@, l), Tok::Keyword("STEP"@, l)]) == Some(seq![760i32, 0]),
        encode(seq![Tok::Keyword("DEBUG_ON"@, l), Tok::Keyword("LOG"@, l)]) == Some(seq![760i32, 1]),
        encode(seq![Tok::Keyword("DEBUG_ON"@, l), Tok::Keyword("STEP"@, l), Tok::Keyword("LOG"@, l)]) == Some(seq![760i32, 2]),
        encode(seq![Tok::Keyword("DEBUG_ON"@, l), Tok::Keyword("LOG"@, l), Tok::Keyword("STEP"@, l)]) == Some(seq![760i32, 2]),
        encode(seq![Tok::Keyword("DEBUG_OFF"@, l), Tok::Keyword("STEP"@, l)]) == Some(seq![761i32, 0]),
        encode(seq![Tok::Keyword("DEBUG_OFF"@, l), Tok::Keyword("LOG"@, l)]) == Some(seq![761i32, 1]),
        encode(seq![Tok::Keyword("DEBUG_OFF"@, l), Tok::Keyword("STEP"@, l), Tok::Keyword("LOG"@, l)]) == Some(seq![761i32, 2]),
        encode(seq![Tok::Keyword("DEBUG_OFF"@, l), Tok::Keyword("LOG"@, l), Tok::Keyword("STEP"@, l)]) == Some(seq![761i32, 2]),
{
    reveal_strlit("E");
    reveal_strlit("G");
    reveal_strlit("IF");
    reveal_strlit("IFG");
    reveal_strlit("P");
    reveal_strlit("N");
    reveal_strlit("S");
    reveal_strlit("U");
    reveal_strlit("O");
    reveal_strlit("A");
    reveal_strlit("X");
    reveal_strlit("IN");
    reveal_strlit("INBC");
    reveal_strlit("INB");
    reveal_strlit("DEBUG");
    reveal_strlit("BP");
    reveal_strlit("STOP");
    reveal_strlit("DEBUG_ON");
    reveal_strlit("DEBUG_OFF");
    reveal_strlit("STEP");
    reveal_strlit("LOG");
    assert("E"@.len() == 1 && "E"@[0] == 'E');
    assert("G"@.len() == 1 && "G"@[0] == 'G');
    assert("IF"@.len() == 2 && "IF"@[0] == 'I' && "IF"@[1] == 'F');
    assert("IFG"@.len() == 3 && "IFG"@[0] == 'I' && "IFG"@[1] == 'F' && "IFG"@[2] == 'G');
    assert("P"@.len() == 1 && "P"@[0] == 'P');
    assert("N"@.len() == 1 && "N"@[0] == 'N');
    assert("S"@.len() == 1 && "S"@[0] == 'S');
    assert("U"@.len() == 1 && "U"@[0] == 'U');
    assert("O"@.len() == 1 && "O"@[0] == 'O');
    assert("A"@.len() == 1 && "A"@[0] == 'A');
    assert("X"@.len() == 1 && "X"@[0] == 'X');
    assert("IN"@.len() == 2 && "IN"@[0] == 'I' && "IN"@[1] == 'N');
    assert("INBC"@.len() == 4 && "INBC"@[0] == 'I' && "INBC"@[1] == 'N' && "INBC"@[2] == 'B' && "INBC"@[3] == 'C');
    assert("INB"@.len() == 3 && "INB"@[0] == 'I' && "INB"@[1] == 'N' && "INB"@[2] == 'B');
    assert("DEBUG"@.len() == 5 && "DEBUG"@[0] == 'D' && "DEBUG"@[1] == 'E' && "DEBUG"@[2] == 'B' && "DEBUG"@[3] == 'U' && "DEBUG"@[4] == 'G');
    assert("BP"@.len() == 2 && "BP"@[0] == 'B' && "BP"@[1] == 'P');
    assert("STOP"@.len() == 4 && "STOP"@[0] == 'S' && "STOP"@[1] == 'T' && "STOP"@[2] == 'O' && "STOP"@[3] == 'P');
    assert("DEBUG_ON"@.len() == 8 && "DEBUG_ON"@[0] == 'D' && "DEBUG_ON"@[1] == 'E' && "DEBUG_ON"@[2] == 'B' && "DEBUG_ON"@[3] == 'U' && "DEBUG_ON"@[4] == 'G' && "DEBUG_ON"@[5] == '_' && "DEBUG_ON"@[6] == 'O' && "DEBUG_ON"@[7] == 'N');
    assert("DEBUG_OFF"@.len() == 9 && "DEBUG_OFF"@[0] == 'D' && "DEBUG_OFF"@[1] == 'E' && "DEBUG_OFF"@[2] == 'B' && "DEBUG_OFF"@[3] == 'U' && "DEBUG_OFF"@[4] == 'G' && "DEBUG_OFF"@[5] == '_' && "DEBUG_OFF"@[6] == 'O' && "DEBUG_OFF"@[7] == 'F' && "DEBUG_OFF"@[8] == 'F');
    assert("STEP"@.len() == 4 && "STEP"@[0] == 'S' && "STEP"@[1] == 'T' && "STEP"@[2] == 'E' && "STEP"@[3] == 'P');
    assert("LOG"@.len() == 3 && "LOG"@[0] == 'L' && "LOG"@[1] == 'O' && "LOG"@[2] == 'G');
    assert(encode(seq![Tok::Keyword("E"@, l)]) == Some(seq![50i32]));
    assert(encode(seq![Tok::Number(n, l), Tok::Bool(b, l)]) == Some(seq![if b { 101i32 } else { 100i32 }, n]));
    assert(encode(seq![Tok::Number(n, l), Tok::Number(m, l)]) == Some(seq![150i32, n, m]));
    assert(encode(seq![Tok::LabelP(n, l)]) == Some(seq![200i32, n]));
    assert(encode(seq![Tok::LabelPD(n, l)]) == Some(seq![201i32, n]));
    assert(encode(seq![Tok::Keyword("G"@, l), Tok::LabelP(n, l)]) == Some(seq![230i32, n]));
    assert(encode(seq![Tok::Keyword("G"@, l), Tok::LabelPD(n, l)]) == Some(seq![231i32, n]));
    assert(encode(seq![Tok::LabelPD(n, l), Tok::LabelP(m, l)]) == Some(seq![260i32, n, m]));
    assert(encode(seq![Tok::LabelPD(n, l), Tok::LabelPD(m, l)]) == Some(seq![261i32, n, m]));
    assert(encode(seq![Tok::Keyword("IF"@, l), Tok::Number(n, l)]) == Some(seq![300i32, n]));
    assert(encode(seq![Tok::Keyword("IFG"@, l), Tok::Number(n, l), Tok::LabelP(m, l)]) == Some(seq![302i32, n, m]));
    assert(encode(seq![Tok::Keyword("IFG"@, l), Tok::Number(n, l), Tok::LabelPD(m, l)]) == Some(seq![303i32, n, m]));
    assert(encode(seq![Tok::Keyword("P"@, l), Tok::Bool(b, l)]) == Some(seq![if b { 400i32 } else { 401i32 }]));
    assert(encode2(Tok::Keyword("P"@, l), Tok::Number(n, l)) == Some(seq![402i32, n]));
    assert(encode(seq![Tok::Keyword("P"@, l), Tok::Number(n, l)]) == Some(seq![402i32, n]));
    assert(encode(seq![Tok::Keyword("P"@, l), Tok::Keyword("N"@, l)]) == Some(seq![403i32]));
    assert(encode2(Tok::Keyword("P"@, l), Tok::Keyword("S"@, l)) == Some(seq![404i32]));
    assert(encode(seq![Tok::Keyword("P"@, l), Tok::Keyword("S"@, l)]) == Some(seq![404i32]));
    assert(encode(seq![Tok::Keyword("P"@, l), Tok::Keyword("U"@, l), Tok::Number(n, l)]) == Some(seq![405i32, n]));
    assert(encode(seq![Tok::Number(n, l), Tok::Keyword("N"@, l), Tok::Number(m, l)]) == Some(seq![500i32, n, m]));
    assert(encode(seq![Tok::Number(n, l), Tok::Keyword("O"@, l), Tok::Number(m, l), Tok::Number(k, l)]) == Some(seq![550i32, n, m, k]));
    assert(encode(seq![Tok::Number(n, l), Tok::Keyword("A"@, l), Tok::Number(m, l), Tok::Number(k, l)]) == Some(seq![551i32, n, m, k]));
    assert(encode(seq![Tok::Number(n, l), Tok::Keyword("X"@, l), Tok::Number(m, l), Tok::Number(k, l)]) == Some(seq![552i32, n, m, k]));
    assert(encode(seq![Tok::Keyword("IN"@, l)]) == Some(seq![600i32]));
    assert(encode(seq![Tok::Keyword("IN"@, l), Tok::Keyword("U"@, l)]) == Some(seq![601i32]));
    assert(encode(seq![Tok::Keyword("INBC"@, l)]) == Some(seq![625i32]));
    assert(encode(seq![Tok::Number(n, l), Tok::Keyword("INBC"@, l)]) == Some(seq![650i32, n]));
    assert(encode(seq![Tok::Number(n, l), Tok::Keyword("INB"@, l)]) == Some(seq![675i32, n]));
    assert(encode(seq![Tok::Number(n, l), Tok::Keyword("U"@, l), Tok::Keyword("INB"@, l)]) == Some(seq![676i32, n]));
    assert(encode(seq![Tok::Keyword("DEBUG"@, l), Tok::Keyword("BP"@, l)]) == Some(seq![700i32]));
    assert(encode(seq![Tok::Keyword("DEBUG"@, l), Tok::Keyword("STOP"@, l)]) == Some(seq![730i32]));
    assert(encode(seq![Tok::Keyword("DEBUG_ON"@, l), Tok::Keyword("STEP"@, l)]) == Some(seq![760i32, 0]));
    assert(encode(seq![Tok::Keyword("DEBUG_ON"@, l), Tok::Keyword("LOG"@, l)]) == Some(seq![760i32, 1]));
    assert(encode(seq![Tok::Keyword("DEBUG_ON"@, l), Tok::Keyword("STEP"@, l), Tok::Keyword("LOG"@, l)]) == Some(seq![760i32, 2]));
    assert(encode(seq![Tok::Keyword("DEBUG_ON"@, l), Tok::Keyword("LOG"@, l), Tok::Keyword("STEP"@, l)]) == Some(seq![760i32, 2]));
    assert(encode(seq![Tok::Keyword("DEBUG_OFF"@, l), Tok::Keyword("STEP"@, l)]) == Some(seq![761i32, 0]));
    assert(encode(seq![Tok::Keyword("DEBUG_OFF"@, l), Tok::Keyword("LOG"@, l)]) == Some(seq![761i32, 1]));
    assert(encode(seq![Tok::Keyword("DEBUG_OFF"@, l), Tok::Keyword("STEP"@, l), Tok::Keyword("LOG"@, l)]) == Some(seq![761i32, 2]));
    assert(encode(seq![Tok::Keyword("DEBUG_OFF"@, l), Tok::Keyword("LOG"@, l), Tok::Keyword("STEP"@, l)]) == Some(seq![761i32, 2]));
}

} // verus!
