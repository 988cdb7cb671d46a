//! Functions declared with `FUNC name; ... RET E;` and called with
//! `CALL name;`, rewritten into labels and jumps through pointer variables.
use vstd::prelude::*;
use crate::text::{decimal, int_text};
use crate::tokens::{RawToken, RawTok, clone_line, is_kw, raw_is_kw};

verus! {

/// Why the function pass refused the input.
#[derive(Debug)]
pub enum FuncError {
    /// A new `FUNC` began while the named function was not closed.
    MissingRet(String),
    /// A line uses `CALL`, `FUNC` or `RET` in a form the pass does not know.
    Unprocessable(Vec<RawToken>),
}

/// The value of a [`FuncError`].
pub enum FuncErr {
    MissingRet(Seq<char>),
    Unprocessable(Seq<RawTok>),
}

impl View for FuncError {
    type V = FuncErr;

    open spec fn view(&self) -> FuncErr {
        match self {
            FuncError::MissingRet(n) => FuncErr::MissingRet(n@),
            FuncError::Unprocessable(l) => FuncErr::Unprocessable(l.deep_view()),
        }
    }
}

/// The state of the function pass between two lines.
pub struct FuncState {
    /// The number of calls seen.
    pub ident: int,
    /// The number of functions declared.
    pub local_p: int,
    /// A call has saved the return pointer since the last declaration.
    pub need_p: bool,
    /// Some function has been declared.
    pub in_func: bool,
    /// The function open at this point, if any.
    pub name: Option<Seq<char>>,
}

pub open spec fn func_start() -> FuncState {
    FuncState { ident: 0, local_p: 0, need_p: false, in_func: false, name: None }
}

pub open spec fn is_two(line: Seq<RawTok>, k: Seq<char>) -> bool {
    line.len() == 2 && is_kw(line[0], k) && line[1] is Number
}

pub open spec fn number_text(t: RawTok) -> Seq<char> {
    match t {
        RawTok::Number(s, _) => s,
        _ => Seq::empty(),
    }
}

pub open spec fn kw_line(t: RawTok) -> i32 {
    match t {
        RawTok::Keyword(_, l) => l,
        _ => 0,
    }
}

/// The line uses `CALL`, `FUNC` or `RET`.
pub open spec fn mentions_function_words(line: Seq<RawTok>) -> bool {
    exists|j: int| 0 <= j < line.len() && (is_kw(#[trigger] line[j], "CALL"@) || is_kw(line[j], "FUNC"@) || is_kw(line[j], "RET"@))
}

/// `G PD.<return pointer>`: jump back to the caller.
pub open spec fn return_line(st: FuncState, l: i32) -> Seq<RawTok> {
    if st.need_p {
        seq![RawTok::Keyword("G"@, l), RawTok::LabelPD("__func_return_"@ + decimal(st.local_p), l)]
    } else {
        seq![RawTok::Keyword("G"@, l), RawTok::LabelPD("__return"@, l)]
    }
}

/// What one line becomes, and the state after it.
pub open spec fn func_step(st: FuncState, line: Seq<RawTok>) -> Result<(FuncState, Seq<Seq<RawTok>>), FuncErr> {
    if is_two(line, "FUNC"@) {
        if !st.in_func && st.name is Some {
            Err(FuncErr::MissingRet(st.name->0))
        } else {
            let l = kw_line(line[0]);
            let n = number_text(line[1]);
            let st2 = FuncState { name: Some(n), in_func: true, local_p: st.local_p + 1, need_p: false, ..st };
            Ok((st2, seq![
                seq![RawTok::Keyword("G"@, l), RawTok::LabelP("__func_close_"@ + decimal(st2.local_p), l)],
                seq![RawTok::LabelP(n, l)],
            ]))
        }
    } else if is_two(line, "CALL"@) {
        let l = kw_line(line[0]);
        let n = number_text(line[1]);
        let save: Seq<Seq<RawTok>> = if !st.need_p {
            seq![seq![RawTok::LabelPD("__func_return_"@ + decimal(st.local_p), l), RawTok::LabelPD("__return"@, l)]]
        } else {
            Seq::empty()
        };
        let st2 = FuncState { need_p: true, ident: st.ident + 1, ..st };
        let local = "__local_func_"@ + decimal(st2.ident);
        Ok((st2, save + seq![
            seq![RawTok::LabelPD("__return"@, l), RawTok::LabelP(local, l)],
            seq![RawTok::Keyword("G"@, l), RawTok::LabelP(n, l)],
            seq![RawTok::LabelP(local, l)],
        ]))
    } else if line.len() == 2 && is_kw(line[0], "RET"@) && is_kw(line[1], "E"@) {
        let l = kw_line(line[0]);
        Ok((FuncState { in_func: true, name: None, ..st }, seq![
            return_line(st, l),
            seq![RawTok::LabelP("__func_close_"@ + decimal(st.local_p), l)],
        ]))
    } else if line.len() == 1 && is_kw(line[0], "RET"@) {
        let l = kw_line(line[0]);
        if st.in_func {
            Ok((st, seq![return_line(st, l)]))
        } else {
            Ok((st, Seq::empty()))
        }
    } else if mentions_function_words(line) {
        Err(FuncErr::Unprocessable(line))
    } else {
        Ok((st, seq![line]))
    }
}

/// The pass over `lines`: the output begins with the line `PD.__return`.
pub open spec fn func_run(lines: Seq<Seq<RawTok>>) -> Result<(FuncState, Seq<Seq<RawTok>>), FuncErr>
    decreases lines.len(),
{
    if lines.len() == 0 {
        Ok((func_start(), seq![seq![RawTok::LabelPD("__return"@, 0)]]))
    } else {
        match func_run(lines.drop_last()) {
            Err(e) => Err(e),
            Ok((st, out)) => match func_step(st, lines.last()) {
                Err(e) => Err(e),
                Ok((st2, more)) => Ok((st2, out + more)),
            },
        }
    }
}

/// What `expand` gives.
pub open spec fn func_spec(lines: Seq<Seq<RawTok>>) -> Result<Seq<Seq<RawTok>>, FuncErr> {
    match func_run(lines) {
        Ok((_, out)) => Ok(out),
        Err(e) => Err(e),
    }
}

} // verus!

verus! {

/// The state of the function pass.
pub struct Data {
    ident_index: i32,
    local_p_index: i32,
    is_need_label_p: bool,
    is_in_func: bool,
    func_name: Option<String>,
    return_point_prefix: String,
    local_rp_prefix: String,
    return_point_name: String,
    close_func_prefix: String,
}

impl View for Data {
    type V = FuncState;

    closed spec fn view(&self) -> FuncState {
        FuncState {
            ident: self.ident_index as int,
            local_p: self.local_p_index as int,
            need_p: self.is_need_label_p,
            in_func: self.is_in_func,
            name: match self.func_name {
                Some(n) => Some(n@),
                None => None,
            },
        }
    }
}

impl Data {
    /// The names the pass writes: `__func_return_<n>`, `__local_func_<n>`,
    /// `__return` and `__func_close_<n>`.
    pub closed spec fn wf(&self) -> bool {
        &&& self.return_point_prefix@ == "__func_return_"@
        &&& self.local_rp_prefix@ == "__local_func_"@
        &&& self.return_point_name@ == "__return"@
        &&& self.close_func_prefix@ == "__func_close_"@
        &&& 0 <= self.ident_index
        &&& 0 <= self.local_p_index
    }

    /// The state before the first line.
    pub fn new() -> (d: Self)
        ensures
            d.wf(),
            d@ == func_start(),
    {
        Data {
            ident_index: 0,
            local_p_index: 0,
            is_need_label_p: false,
            is_in_func: false,
            func_name: None,
            return_point_prefix: String::from_str("__func_return_"),
            local_rp_prefix: String::from_str("__local_func_"),
            return_point_name: String::from_str("__return"),
            close_func_prefix: String::from_str("__func_close_"),
        }
    }

    fn numbered(prefix: &String, n: i32) -> (s: String)
        ensures
            s@ == prefix@ + decimal(n as int),
    {
        let mut s = prefix.clone();
        let t = int_text(n as i64);
        s.append(t.as_str());
        s
    }

    /// `PD.__func_return_<n> PD.__return`: save the return pointer.
    fn _add_write_pointer(&self, line_n: i32) -> (r: Vec<RawToken>)
        requires
            self.wf(),
        ensures
            r.deep_view() == seq![RawTok::LabelPD("__func_return_"@ + decimal(self@.local_p), line_n), RawTok::LabelPD("__return"@, line_n)],
    {
        let mut r: Vec<RawToken> = Vec::new();
        r.push(RawToken::LabelPD(Self::numbered(&self.return_point_prefix, self.local_p_index), line_n));
        r.push(RawToken::LabelPD(self.return_point_name.clone(), line_n));
        proof {
            assert(r.deep_view() =~= seq![r@[0]@, r@[1]@]);
        }
        r
    }

    /// `PD.__return P.__local_func_<n>`: the return address of this call.
    fn _add_pre_func_l(&self, line_n: i32) -> (r: Vec<RawToken>)
        requires
            self.wf(),
        ensures
            r.deep_view() == seq![RawTok::LabelPD("__return"@, line_n), RawTok::LabelP("__local_func_"@ + decimal(self@.ident), line_n)],
    {
        let mut r: Vec<RawToken> = Vec::new();
        r.push(RawToken::LabelPD(self.return_point_name.clone(), line_n));
        r.push(RawToken::LabelP(Self::numbered(&self.local_rp_prefix, self.ident_index), line_n));
        proof {
            assert(r.deep_view() =~= seq![r@[0]@, r@[1]@]);
        }
        r
    }

    /// `G P.<function>`
    fn _add_goto(&self, func_name: &String, line_n: i32) -> (r: Vec<RawToken>)
        ensures
            r.deep_view() == seq![RawTok::Keyword("G"@, line_n), RawTok::LabelP(func_name@, line_n)],
    {
        let mut r: Vec<RawToken> = Vec::new();
        r.push(RawToken::Keyword(String::from_str("G"), line_n));
        r.push(RawToken::LabelP(func_name.clone(), line_n));
        proof {
            assert(r.deep_view() =~= seq![r@[0]@, r@[1]@]);
        }
        r
    }

    /// `P.__local_func_<n>`: where the call returns to.
    fn _add_post_func_l(&self, line_n: i32) -> (r: Vec<RawToken>)
        requires
            self.wf(),
        ensures
            r.deep_view() == seq![RawTok::LabelP("__local_func_"@ + decimal(self@.ident), line_n)],
    {
        let mut r: Vec<RawToken> = Vec::new();
        r.push(RawToken::LabelP(Self::numbered(&self.local_rp_prefix, self.ident_index), line_n));
        proof {
            assert(r.deep_view() =~= seq![r@[0]@]);
        }
        r
    }

    /// `G PD.<return pointer>`
    fn _add_return_func(&self, line_n: i32) -> (r: Vec<RawToken>)
        requires
            self.wf(),
        ensures
            r.deep_view() == return_line(self@, line_n),
    {
        let mut r: Vec<RawToken> = Vec::new();
        r.push(RawToken::Keyword(String::from_str("G"), line_n));
        if self.is_need_label_p {
            r.push(RawToken::LabelPD(Self::numbered(&self.return_point_prefix, self.local_p_index), line_n));
        } else {
            r.push(RawToken::LabelPD(self.return_point_name.clone(), line_n));
        }
        proof {
            assert(r.deep_view() =~= seq![r@[0]@, r@[1]@]);
        }
        r
    }

    /// `P.__func_close_<n>`: the end of the function's body.
    fn _func_close(&self, line_n: i32) -> (r: Vec<RawToken>)
        requires
            self.wf(),
        ensures
            r.deep_view() == seq![RawTok::LabelP("__func_close_"@ + decimal(self@.local_p), line_n)],
    {
        let mut r: Vec<RawToken> = Vec::new();
        r.push(RawToken::LabelP(Self::numbered(&self.close_func_prefix, self.local_p_index), line_n));
        proof {
            assert(r.deep_view() =~= seq![r@[0]@]);
        }
        r
    }

    /// `G P.__func_close_<n>`: straight-line code jumps over the body.
    fn _go_func_close(&self, line_n: i32) -> (r: Vec<RawToken>)
        requires
            self.wf(),
        ensures
            r.deep_view() == seq![RawTok::Keyword("G"@, line_n), RawTok::LabelP("__func_close_"@ + decimal(self@.local_p), line_n)],
    {
        let mut r: Vec<RawToken> = Vec::new();
        r.push(RawToken::Keyword(String::from_str("G"), line_n));
        r.push(RawToken::LabelP(Self::numbered(&self.close_func_prefix, self.local_p_index), line_n));
        proof {
            assert(r.deep_view() =~= seq![r@[0]@, r@[1]@]);
        }
        r
    }
}

} // verus!

verus! {

fn two_with_name(line: &Vec<RawToken>, k: &str) -> (b: bool)
    ensures
        b == is_two(line.deep_view(), k@),
{
    line.len() == 2 && raw_is_kw(&line[0], k) && matches!(line[1], RawToken::Number(_, _))
}

fn keyword_line_num(t: &RawToken) -> (l: i32)
    ensures
        l == kw_line(t@),
{
    match t {
        RawToken::Keyword(_, l) => *l,
        _ => 0,
    }
}

impl Data {
    /// Rewrites one line onto the end of `out_vec`.
    #[verifier::loop_isolation(false)]
    fn apply_line(&mut self, line: &Vec<RawToken>, out_vec: &mut Vec<Vec<RawToken>>) -> (r: Result<(), FuncError>)
        requires
            old(self).wf(),
            old(self)@.ident < i32::MAX,
            old(self)@.local_p < i32::MAX,
        ensures
            final(self).wf(),
            match func_step(old(self)@, line.deep_view()) {
                Ok((st2, more)) => r is Ok && final(self)@ == st2 && final(out_vec).deep_view() == old(out_vec).deep_view() + more,
                Err(e) => r matches Err(e2) && e2@ == e,
            },
    {
        let ghost lv = line.deep_view();
        let ghost st = self@;
        let ghost before = out_vec.deep_view();
        if two_with_name(line, "FUNC") {
            let l_n = keyword_line_num(&line[0]);
            if !self.is_in_func && self.func_name.is_some() {
                let name = match &self.func_name {
                    Some(n) => n.clone(),
                    None => String::new(),
                };
                return Err(FuncError::MissingRet(name));
            }
            let n = match &line[1] {
                RawToken::Number(n, _) => n.clone(),
                _ => String::new(),
            };
            self.func_name = Some(n.clone());
            self.is_in_func = true;
            self.local_p_index = self.local_p_index + 1;
            self.is_need_label_p = false;
            out_vec.push(self._go_func_close(l_n));
            let mut label: Vec<RawToken> = Vec::new();
            label.push(RawToken::LabelP(n, l_n));
            proof {
                assert(label.deep_view() =~= seq![RawTok::LabelP(number_text(lv[1]), l_n)]);
            }
            out_vec.push(label);
            proof {
                let (st2, more) = func_step(st, lv)->Ok_0;
                assert(st2 == self@);
                assert(out_vec.deep_view() =~= before + more);
            }
            Ok(())
        } else if two_with_name(line, "CALL") {
            let l_n = keyword_line_num(&line[0]);
            let n = match &line[1] {
                RawToken::Number(n, _) => n.clone(),
                _ => String::new(),
            };
            assert(n@ == number_text(lv[1]));
            if !self.is_need_label_p {
                out_vec.push(self._add_write_pointer(l_n));
                self.is_need_label_p = true;
            }
            self.ident_index = self.ident_index + 1;
            out_vec.push(self._add_pre_func_l(l_n));
            out_vec.push(self._add_goto(&n, l_n));
            out_vec.push(self._add_post_func_l(l_n));
            proof {
                let (st2, more) = func_step(st, lv)->Ok_0;
                assert(st2 == self@);
                assert(out_vec.deep_view() =~= before + more);
            }
            Ok(())
        } else if line.len() == 2 && raw_is_kw(&line[0], "RET") && raw_is_kw(&line[1], "E") {
            let l_n = keyword_line_num(&line[0]);
            out_vec.push(self._add_return_func(l_n));
            out_vec.push(self._func_close(l_n));
            self.is_in_func = true;
            self.func_name = None;
            proof {
                let (st2, more) = func_step(st, lv)->Ok_0;
                assert(st2 == self@);
                assert(out_vec.deep_view() =~= before + more);
            }
            Ok(())
        } else if line.len() == 1 && raw_is_kw(&line[0], "RET") {
            let l_n = keyword_line_num(&line[0]);
            if self.is_in_func {
                out_vec.push(self._add_return_func(l_n));
            }
            proof {
                let (st2, more) = func_step(st, lv)->Ok_0;
                assert(st2 == self@);
                assert(out_vec.deep_view() =~= before + more);
            }
            Ok(())
        } else {
            let mut j: usize = 0;
            while j < line.len()
                invariant
                    j <= line@.len(),
                    forall|jj: int| 0 <= jj < j ==> !(is_kw(#[trigger] lv[jj], "CALL"@) || is_kw(lv[jj], "FUNC"@) || is_kw(lv[jj], "RET"@)),
                decreases line.len() - j,
            {
                if raw_is_kw(&line[j], "CALL") || raw_is_kw(&line[j], "FUNC") || raw_is_kw(&line[j], "RET") {
                    proof {
                        assert(is_kw(lv[j as int], "CALL"@) || is_kw(lv[j as int], "FUNC"@) || is_kw(lv[j as int], "RET"@));
                    }
                    return Err(FuncError::Unprocessable(clone_line(line)));
                }
                j = j + 1;
            }
            out_vec.push(clone_line(line));
            proof {
                assert(!mentions_function_words(lv));
                assert(out_vec.deep_view() =~= before + seq![lv]);
            }
            Ok(())
        }
    }

    /// The pass over `tokens`; see [`func_spec`].
    fn expand(&mut self, tokens: Vec<Vec<RawToken>>) -> (r: Result<Vec<Vec<RawToken>>, FuncError>)
        requires
            old(self).wf(),
            old(self)@ == func_start(),
            tokens@.len() < i32::MAX,
        ensures
            r matches Ok(v) ==> func_spec(tokens.deep_view()) == Ok::<Seq<Seq<RawTok>>, FuncErr>(v.deep_view()),
            r matches Err(e) ==> func_spec(tokens.deep_view()) == Err::<Seq<Seq<RawTok>>, FuncErr>(e@),
    {
        let ghost tv = tokens.deep_view();
        let mut out_vec: Vec<Vec<RawToken>> = Vec::new();
        let mut first: Vec<RawToken> = Vec::new();
        first.push(RawToken::LabelPD(self.return_point_name.clone(), 0));
        proof {
            assert(first.deep_view() =~= seq![RawTok::LabelPD("__return"@, 0)]);
        }
        out_vec.push(first);
        proof {
            assert(out_vec.deep_view() =~= seq![seq![RawTok::LabelPD("__return"@, 0)]]);
            assert(tv.take(0) =~= Seq::<Seq<RawTok>>::empty());
        }
        let mut i: usize = 0;
        while i < tokens.len()
            invariant
                i <= tokens@.len() < i32::MAX,
                tv == tokens.deep_view(),
                self.wf(),
                self@.ident <= i,
                self@.local_p <= i,
                func_run(tv.take(i as int)) == Ok::<(FuncState, Seq<Seq<RawTok>>), FuncErr>((self@, out_vec.deep_view())),
            decreases tokens.len() - i,
        {
            proof {
                assert(tv.take(i + 1).drop_last() =~= tv.take(i as int));
                assert(tv.take(i + 1).last() == tokens@[i as int].deep_view());
            }
            match self.apply_line(&tokens[i], &mut out_vec) {
                Ok(()) => {},
                Err(e) => {
                    proof {
                        lemma_func_error_stays(tv, i as int + 1);
                        assert(tv.take(tv.len() as int) =~= tv);
                    }
                    return Err(e);
                },
            }
            i = i + 1;
        }
        proof {
            assert(tv.take(i as int) =~= tv);
        }
        Ok(out_vec)
    }
}

proof fn lemma_func_error_stays(lines: Seq<Seq<RawTok>>, j: int)
    requires
        0 <= j <= lines.len(),
        func_run(lines.take(j)) is Err,
    ensures
        func_run(lines) == func_run(lines.take(j)),
    decreases lines.len() - j,
{
    if j < lines.len() {
        assert(lines.take(j + 1).drop_last() =~= lines.take(j));
        lemma_func_error_stays(lines, j + 1);
    } else {
        assert(lines.take(j) =~= lines);
    }
}

/// Rewrites function declarations, calls and returns into labels and jumps.
/// A line that uses `CALL`, `FUNC` or `RET` in another form is refused.
pub fn expand(tokens: Vec<Vec<RawToken>>) -> (r: Result<Vec<Vec<RawToken>>, FuncError>)
    requires
        tokens@.len() < i32::MAX,
    ensures
        r matches Ok(v) ==> func_spec(tokens.deep_view()) == Ok::<Seq<Seq<RawTok>>, FuncErr>(v.deep_view()),
        r matches Err(e) ==> func_spec(tokens.deep_view()) == Err::<Seq<Seq<RawTok>>, FuncErr>(e@),
{
    let mut fp = Data::new();
    fp.expand(tokens)
}


proof fn lemma_plain_run(lines: Seq<Seq<RawTok>>)
    requires
        forall|i: int| 0 <= i < lines.len() ==> !mentions_function_words(#[trigger] lines[i]),
    ensures
        func_run(lines) == Ok::<(FuncState, Seq<Seq<RawTok>>), FuncErr>((func_start(), seq![seq![RawTok::LabelPD("__return"@, 0)]] + lines)),
    decreases lines.len(),
{
    if lines.len() == 0 {
        assert(seq![seq![RawTok::LabelPD("__return"@, 0)]] + lines =~= seq![seq![RawTok::LabelPD("__return"@, 0)]]);
    } else {
        assert forall|i: int| 0 <= i < lines.drop_last().len() implies !mentions_function_words(#[trigger] lines.drop_last()[i]) by {
            assert(lines.drop_last()[i] == lines[i]);
        }
        lemma_plain_run(lines.drop_last());
        let line = lines.last();
        assert(!mentions_function_words(lines[lines.len() - 1]));
        assert(!is_two(line, "FUNC"@)) by {
            if is_two(line, "FUNC"@) {
                assert(is_kw(line[0], "FUNC"@));
            }
        }
        assert(!is_two(line, "CALL"@)) by {
            if is_two(line, "CALL"@) {
                assert(is_kw(line[0], "CALL"@));
            }
        }
        assert(!(line.len() >= 1 && is_kw(line[0], "RET"@))) by {
            if line.len() >= 1 && is_kw(line[0], "RET"@) {
                assert(is_kw(line[0], "RET"@));
            }
        }
        let head = seq![seq![RawTok::LabelPD("__return"@, 0)]];
        assert(head + lines.drop_last() + seq![line] =~= head + lines);
    }
}

/// A program that uses no `CALL`, `FUNC` or `RET` comes out as it went in,
/// after the line `PD.__return`.
pub proof fn law_plain_program_unchanged(lines: Seq<Seq<RawTok>>)
    requires
        forall|i: int| 0 <= i < lines.len() ==> !mentions_function_words(#[trigger] lines[i]),
    ensures
        func_spec(lines) == Ok::<Seq<Seq<RawTok>>, FuncErr>(seq![seq![RawTok::LabelPD("__return"@, 0)]] + lines),
{
    lemma_plain_run(lines);
}


/// The number of `CALL name` lines among `lines`.
pub open spec fn call_count(lines: Seq<Seq<RawTok>>) -> int
    decreases lines.len(),
{
    if lines.len() == 0 {
        0
    } else {
        call_count(lines.drop_last()) + if is_two(lines.last(), "CALL"@) { 1int } else { 0int }
    }
}

/// The return label of the `c`-th call.
pub open spec fn call_label(c: int) -> Seq<char> {
    "__local_func_"@ + decimal(c)
}

proof fn lemma_ident_counts(lines: Seq<Seq<RawTok>>)
    ensures
        func_run(lines) matches Ok((st, _)) ==> st.ident == call_count(lines),
    decreases lines.len(),
{
    if lines.len() > 0 {
        lemma_ident_counts(lines.drop_last());
        reveal_strlit("FUNC");
        reveal_strlit("CALL");
        assert("FUNC"@[0] != "CALL"@[0]);
        let line = lines.last();
        if is_two(line, "FUNC"@) {
            assert(!is_two(line, "CALL"@));
        }
    }
}

proof fn lemma_call_count_grows(lines: Seq<Seq<RawTok>>, k: int, m: int)
    requires
        0 <= k <= m <= lines.len(),
    ensures
        call_count(lines.take(k)) <= call_count(lines.take(m)),
    decreases m - k,
{
    if k < m {
        lemma_call_count_grows(lines, k, m - 1);
        assert(lines.take(m).drop_last() =~= lines.take(m - 1));
    }
}

/// Each `CALL` gets a return label of its own: after the call at line `a`,
/// the calls so far have been counted one by one, and the lines the call
/// became save and declare the label `__local_func_<n>`, `n` being the
/// number of `CALL` lines up to and including it.
pub proof fn law_call_gets_own_label(lines: Seq<Seq<RawTok>>, a: int)
    requires
        0 <= a < lines.len(),
        is_two(lines[a], "CALL"@),
        func_run(lines.take(a + 1)) is Ok,
    ensures
        ({
            let (st, out) = func_run(lines.take(a + 1))->Ok_0;
            let c = call_count(lines.take(a + 1));
            let l = kw_line(lines[a][0]);
            &&& st.ident == c
            &&& out.len() >= 3
            &&& out[out.len() - 3] == seq![RawTok::LabelPD("__return"@, l), RawTok::LabelP(call_label(c), l)]
            &&& out.last() == seq![RawTok::LabelP(call_label(c), l)]
        }),
{
    let t = lines.take(a + 1);
    assert(t.drop_last() =~= lines.take(a));
    assert(t.last() == lines[a]);
    lemma_ident_counts(t);
    lemma_ident_counts(lines.take(a));
    reveal_strlit("FUNC");
    reveal_strlit("CALL");
    assert("FUNC"@[0] != "CALL"@[0]);
    assert(!is_two(lines[a], "FUNC"@));
}

/// Distinct `CALL` lines get distinct return labels: a later call has
/// counted more calls.
pub proof fn law_call_labels_distinct(lines: Seq<Seq<RawTok>>, a: int, b: int)
    requires
        0 <= a < b < lines.len(),
        is_two(lines[a], "CALL"@),
        is_two(lines[b], "CALL"@),
    ensures
        0 < call_count(lines.take(a + 1)) < call_count(lines.take(b + 1)),
        call_label(call_count(lines.take(a + 1))) != call_label(call_count(lines.take(b + 1))),
{
    let ca = call_count(lines.take(a + 1));
    let cb = call_count(lines.take(b + 1));
    assert(lines.take(a + 1).drop_last() =~= lines.take(a));
    assert(lines.take(b + 1).drop_last() =~= lines.take(b));
    lemma_call_count_grows(lines, 0, a);
    assert(lines.take(0) =~= Seq::<Seq<RawTok>>::empty());
    lemma_call_count_grows(lines, a + 1, b);
    let pre = "__local_func_"@;
    if call_label(ca) == call_label(cb) {
        assert((pre + decimal(ca)).skip(pre.len() as int) =~= decimal(ca));
        assert((pre + decimal(cb)).skip(pre.len() as int) =~= decimal(cb));
        crate::text::lemma_digits_injective(ca as nat, cb as nat);
    }
}

} // verus!
