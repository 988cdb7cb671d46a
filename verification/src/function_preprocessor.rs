//! Functions declared with `FUNC name` and called with `CALL name`: every
//! call becomes a jump that leaves its return label in `PD.__ret`, and the
//! bodies of the functions follow the main code. Calls that can come back
//! to a function still running are refused.
use vstd::prelude::*;
use crate::preprocessors::function_preprocessor::{kw_line, number_text};
use crate::text::{decimal, int_text};
use crate::tokens::{RawToken, RawTok, clone_line, is_kw, raw_is_kw, raw_line_of};

verus! {

/// A declared function: its name, the line of its `FUNC` and the lines
/// that follow it up to the next `FUNC`.
pub struct Decl {
    pub name: Seq<char>,
    pub line: i32,
    pub body: Seq<Seq<RawTok>>,
}

/// The name and line of the function that a line `FUNC name ...` declares.
pub open spec fn func_start(line: Seq<RawTok>) -> Option<(Seq<char>, i32)> {
    if line.len() >= 2 && is_kw(line[0], "FUNC"@) && line[1] is Number {
        Some((number_text(line[1]), kw_line(line[0])))
    } else {
        None
    }
}

/// The line begins with `FUNC`.
pub open spec fn is_declaration(line: Seq<RawTok>) -> bool {
    line.len() >= 1 && is_kw(line[0], "FUNC"@)
}

/// The line is `RET` alone.
pub open spec fn is_bare_ret(line: Seq<RawTok>) -> bool {
    line.len() == 1 && is_kw(line[0], "RET"@)
}

/// The function that a line `CALL name ...` calls.
pub open spec fn call_name(line: Seq<RawTok>) -> Option<Seq<char>> {
    if line.len() >= 2 && is_kw(line[0], "CALL"@) && line[1] is Number {
        Some(number_text(line[1]))
    } else {
        None
    }
}

/// Some line of `body` calls `name`.
pub open spec fn calls_in(body: Seq<Seq<RawTok>>, name: Seq<char>) -> bool {
    exists|j: int| 0 <= j < body.len() && #[trigger] call_name(body[j]) == Some(name)
}

/// A function of that name is declared.
pub open spec fn has_decl(ds: Seq<Decl>, name: Seq<char>) -> bool {
    exists|i: int| 0 <= i < ds.len() && #[trigger] ds[i].name == name
}

/// The declared function `u` calls `v`.
pub open spec fn edge(ds: Seq<Decl>, u: Seq<char>, v: Seq<char>) -> bool {
    exists|i: int| 0 <= i < ds.len() && #[trigger] ds[i].name == u && calls_in(ds[i].body, v)
}

/// The functions collected so far, and the one whose body is being read.
pub struct Collected {
    pub done: Seq<Decl>,
    pub cur: Option<Decl>,
}

/// The collected functions, the one being read included.
pub open spec fn all_decls(c: Collected) -> Seq<Decl> {
    match c.cur {
        Some(d) => c.done.push(d),
        None => c.done,
    }
}

pub open spec fn redefinition_message(name: Seq<char>, l: i32) -> Seq<char> {
    "Строка "@ + decimal(l as int) + ": Переопределение функции '"@ + name + "'"@
}

/// One line read while collecting: `FUNC name` closes the function being
/// read and opens another, unless that name is taken; any other line joins
/// the body of the function being read.
pub open spec fn collect_step(c: Collected, line: Seq<RawTok>) -> Result<Collected, Seq<char>> {
    match func_start(line) {
        Some((name, l)) => {
            let done = all_decls(c);
            if has_decl(done, name) {
                Err(redefinition_message(name, l))
            } else {
                Ok(Collected { done, cur: Some(Decl { name, line: l, body: Seq::empty() }) })
            }
        },
        None => match c.cur {
            Some(d) => Ok(Collected { done: c.done, cur: Some(Decl { body: d.body.push(line), ..d }) }),
            None => Ok(c),
        },
    }
}

/// The collection after the first `k` lines.
pub open spec fn collect_upto(lines: Seq<Seq<RawTok>>, k: int) -> Result<Collected, Seq<char>>
    decreases k,
{
    if k <= 0 {
        Ok(Collected { done: Seq::empty(), cur: None })
    } else {
        match collect_upto(lines, k - 1) {
            Err(e) => Err(e),
            Ok(c) => collect_step(c, lines[k - 1]),
        }
    }
}

/// The functions that the lines declare, in order of declaration.
pub open spec fn declared(lines: Seq<Seq<RawTok>>) -> Result<Seq<Decl>, Seq<char>> {
    match collect_upto(lines, lines.len() as int) {
        Err(e) => Err(e),
        Ok(c) => Ok(all_decls(c)),
    }
}

/// `w` continues the path `p` from `c`: its functions are declared and
/// distinct from each other and from `p`, each calls the next, and the last
/// calls one of `p` or `w`.
pub open spec fn witness(ds: Seq<Decl>, p: Seq<Seq<char>>, c: Seq<char>, w: Seq<Seq<char>>) -> bool {
    &&& w.len() > 0
    &&& w[0] == c
    &&& (p + w).no_duplicates()
    &&& forall|i: int| 0 <= i < w.len() ==> has_decl(ds, #[trigger] w[i])
    &&& forall|i: int| 0 <= i < w.len() - 1 ==> edge(ds, #[trigger] w[i], w[i + 1])
    &&& exists|k: int| 0 <= k < (p + w).len() && edge(ds, w.last(), #[trigger] (p + w)[k])
}

/// From the path `p`, going on to `c` comes back to a function on the way.
pub open spec fn cycle_ahead(ds: Seq<Decl>, p: Seq<Seq<char>>, c: Seq<char>) -> bool {
    p.contains(c) || exists|w: Seq<Seq<char>>| #[trigger] witness(ds, p, c, w)
}

/// `w` is a path of distinct declared functions, each calling the next,
/// whose last calls one of them.
pub open spec fn is_cycle(ds: Seq<Decl>, w: Seq<Seq<char>>) -> bool {
    &&& w.len() > 0
    &&& w.no_duplicates()
    &&& forall|i: int| 0 <= i < w.len() ==> has_decl(ds, #[trigger] w[i])
    &&& forall|i: int| 0 <= i < w.len() - 1 ==> edge(ds, #[trigger] w[i], w[i + 1])
    &&& exists|k: int| 0 <= k < w.len() && edge(ds, w.last(), #[trigger] w[k])
}

/// Some functions call each other round in a cycle.
pub open spec fn has_cycle(ds: Seq<Decl>) -> bool {
    exists|w: Seq<Seq<char>>| #[trigger] is_cycle(ds, w)
}

/// The names joined by ` -> `.
pub open spec fn arrow_joined(w: Seq<Seq<char>>) -> Seq<char>
    decreases w.len(),
{
    if w.len() == 0 {
        Seq::empty()
    } else if w.len() == 1 {
        w[0]
    } else {
        arrow_joined(w.drop_last()) + " -> "@ + w.last()
    }
}

pub open spec fn cycle_message(w: Seq<Seq<char>>) -> Seq<char> {
    "Обнаружена циклическая зависимость: "@ + arrow_joined(w)
}

/// The total length of the bodies.
pub open spec fn body_total(ds: Seq<Decl>) -> int
    decreases ds.len(),
{
    if ds.len() == 0 {
        0
    } else {
        body_total(ds.drop_last()) + ds.last().body.len()
    }
}

/// The label that a call of the main code returns to.
pub open spec fn ret_label(id: int) -> Seq<char> {
    "__ret_"@ + decimal(id)
}

/// The label that a call inside function `f` returns to.
pub open spec fn inner_ret_label(f: Seq<char>, id: int) -> Seq<char> {
    "__ret_"@ + f + "_"@ + decimal(id)
}

/// The label of the body of function `f`.
pub open spec fn body_label(f: Seq<char>) -> Seq<char> {
    "__func_"@ + f + "_body"@
}

/// The pointer that holds where function `f` returns to.
pub open spec fn local_ret(f: Seq<char>) -> Seq<char> {
    "__local_ret_"@ + f
}

/// `PD.__ret P.<ret>`, `G P.<body of target>`, `P.<ret>`.
pub open spec fn call_lines(ret: Seq<char>, target: Seq<char>, l: i32) -> Seq<Seq<RawTok>> {
    seq![
        seq![RawTok::LabelPD("__ret"@, l), RawTok::LabelP(ret, l)],
        seq![RawTok::Keyword("G"@, l), RawTok::LabelP(body_label(target), l)],
        seq![RawTok::LabelP(ret, l)],
    ]
}

pub open spec fn undeclared_message(f: Seq<char>, l: i32) -> Seq<char> {
    "Строка "@ + decimal(l as int) + ": Функция '"@ + f + "' не объявлена"@
}

/// What a line of the main code becomes, the calls counted so far being `n`:
/// declarations and a bare `RET` go, a call of a declared function becomes a
/// jump, a call of another one is an error.
pub open spec fn main_step(ds: Seq<Decl>, n: int, line: Seq<RawTok>) -> Result<(Seq<Seq<RawTok>>, int), Seq<char>> {
    if is_declaration(line) || is_bare_ret(line) {
        Ok((Seq::empty(), n))
    } else {
        match call_name(line) {
            Some(f) => {
                let l = kw_line(line[0]);
                if has_decl(ds, f) {
                    Ok((call_lines(ret_label(n), f, l), n + 1))
                } else {
                    Err(undeclared_message(f, l))
                }
            },
            None => Ok((seq![line], n)),
        }
    }
}

/// The first `k` lines of the main code, and the calls counted after them.
pub open spec fn main_run(ds: Seq<Decl>, lines: Seq<Seq<RawTok>>, k: int) -> Result<(Seq<Seq<RawTok>>, int), Seq<char>>
    decreases k,
{
    if k <= 0 {
        Ok((Seq::empty(), 0))
    } else {
        match main_run(ds, lines, k - 1) {
            Err(e) => Err(e),
            Ok((out, n)) => match main_step(ds, n, lines[k - 1]) {
                Err(e) => Err(e),
                Ok((more, m)) => Ok((out + more, m)),
            },
        }
    }
}

/// What a line of the body of `f` becomes: a call of a declared function a
/// jump, `RET ...` a jump back through `PD.__local_ret_f`.
pub open spec fn body_step(ds: Seq<Decl>, f: Seq<char>, n: int, line: Seq<RawTok>) -> (Seq<Seq<RawTok>>, int) {
    match call_name(line) {
        Some(g) if has_decl(ds, g) => (call_lines(inner_ret_label(f, n), g, raw_line_of(line[1])), n + 1),
        _ => if line.len() >= 1 && is_kw(line[0], "RET"@) {
            let l = kw_line(line[0]);
            (seq![seq![RawTok::Keyword("G"@, l), RawTok::LabelPD(local_ret(f), l)]], n)
        } else {
            (seq![line], n)
        },
    }
}

/// The first `k` lines of the body of `f`, starting at count `n`.
pub open spec fn body_run(ds: Seq<Decl>, f: Seq<char>, body: Seq<Seq<RawTok>>, k: int, n: int) -> (Seq<Seq<RawTok>>, int)
    decreases k,
{
    if k <= 0 {
        (Seq::empty(), n)
    } else {
        let (out, m) = body_run(ds, f, body, k - 1, n);
        let (more, m2) = body_step(ds, f, m, body[k - 1]);
        (out + more, m2)
    }
}

/// The block of one function: its label, the saving of its return label,
/// its body and a final jump back.
pub open spec fn func_block(ds: Seq<Decl>, d: Decl, n: int) -> (Seq<Seq<RawTok>>, int) {
    let (body, m) = body_run(ds, d.name, d.body, d.body.len() as int, n);
    (seq![
        seq![RawTok::LabelP(body_label(d.name), 0)],
        seq![RawTok::LabelPD(local_ret(d.name), 0), RawTok::LabelPD("__ret"@, 0)],
    ] + body + seq![
        seq![RawTok::Keyword("G"@, 0), RawTok::LabelPD(local_ret(d.name), 0)],
        Seq::empty(),
    ], m)
}

/// The line `PD.__ret`, an empty line, then the blocks of the first `k`
/// functions.
pub open spec fn bodies_run(ds: Seq<Decl>, k: int, n: int) -> (Seq<Seq<RawTok>>, int)
    decreases k,
{
    if k <= 0 {
        (seq![seq![RawTok::LabelPD("__ret"@, 0)], Seq::empty()], n)
    } else {
        let (out, m) = bodies_run(ds, k - 1, n);
        let (blk, m2) = func_block(ds, ds[k - 1], m);
        (out + blk, m2)
    }
}

/// The output when the functions `ds` are declared and call round in no
/// cycle: the main code, then, if there are functions, their blocks.
pub open spec fn expanded(ds: Seq<Decl>, lines: Seq<Seq<RawTok>>) -> Result<Seq<Seq<RawTok>>, Seq<char>> {
    match main_run(ds, lines, lines.len() as int) {
        Err(e) => Err(e),
        Ok((out, n)) => Ok(if ds.len() > 0 { out + bodies_run(ds, ds.len() as int, n).0 } else { out }),
    }
}

/// A result of lines or a message, as values.
pub open spec fn result_view(r: Result<Vec<Vec<RawToken>>, String>) -> Result<Seq<Seq<RawTok>>, Seq<char>> {
    match r {
        Ok(v) => Ok(v.deep_view()),
        Err(m) => Err(m@),
    }
}

/// A function as the expander keeps it.
pub struct TokenFunctionInfo {
    pub name: String,
    pub body_tokens: Vec<Vec<RawToken>>,
    pub declared_at_line: i32,
    /// The functions that the body calls, each once.
    pub calls: Vec<String>,
}

impl TokenFunctionInfo {
    pub open spec fn decl(&self) -> Decl {
        Decl { name: self.name@, line: self.declared_at_line, body: self.body_tokens.deep_view() }
    }

    /// `calls` names exactly the functions that the body calls, each once.
    pub open spec fn calls_ok(&self) -> bool {
        &&& self.calls.deep_view().no_duplicates()
        &&& forall|v: Seq<char>| self.calls.deep_view().contains(v) <==> calls_in(self.body_tokens.deep_view(), v)
    }
}

/// Rewrites the calls of functions into jumps, counting the calls as it goes.
pub struct TokenFunctionExpander {
    functions: Vec<TokenFunctionInfo>,
    call_counter: u64,
}

/// Distinct names, all declared, are no more than the declarations.
proof fn lemma_path_len(ds: Seq<Decl>, p: Seq<Seq<char>>)
    requires
        p.no_duplicates(),
        forall|i: int| 0 <= i < p.len() ==> has_decl(ds, #[trigger] p[i]),
    ensures
        p.len() <= ds.len(),
{
    let names = Seq::new(ds.len(), |i: int| ds[i].name);
    p.unique_seq_to_set();
    names.lemma_cardinality_of_set();
    assert forall|x: Seq<char>| p.to_set().contains(x) implies names.to_set().contains(x) by {
        let k = choose|k: int| 0 <= k < p.len() && p[k] == x;
        assert(has_decl(ds, p[k]));
        let i = choose|i: int| 0 <= i < ds.len() && #[trigger] ds[i].name == p[k];
        assert(names[i] == x);
    }
    vstd::set_lib::lemma_len_subset(p.to_set(), names.to_set());
}

/// Going on from `c` comes back, so going on from one of `c`'s callees does.
proof fn lemma_cycle_step(ds: Seq<Decl>, p: Seq<Seq<char>>, c: Seq<char>, w: Seq<Seq<char>>)
    requires
        witness(ds, p, c, w),
    ensures
        exists|v: Seq<char>| edge(ds, c, v) && #[trigger] cycle_ahead(ds, p.push(c), v),
{
    let pc = p.push(c);
    if w.len() == 1 {
        assert(p + w =~= pc);
        let k = choose|k: int| 0 <= k < (p + w).len() && edge(ds, w.last(), #[trigger] (p + w)[k]);
        let v = pc[k];
        assert(pc.contains(v));
        assert(cycle_ahead(ds, pc, v));
    } else {
        let v = w[1];
        let w2 = w.drop_first();
        assert(pc + w2 =~= p + w);
        assert(edge(ds, w[0], w[1]));
        assert forall|i: int| 0 <= i < w2.len() implies has_decl(ds, #[trigger] w2[i]) by {
            assert(w2[i] == w[i + 1]);
        }
        assert forall|i: int| 0 <= i < w2.len() - 1 implies edge(ds, #[trigger] w2[i], w2[i + 1]) by {
            assert(w2[i] == w[i + 1]);
            assert(edge(ds, w[i + 1], w[i + 2]));
        }
        let k = choose|k: int| 0 <= k < (p + w).len() && edge(ds, w.last(), #[trigger] (p + w)[k]);
        assert(w2.last() == w.last());
        assert((pc + w2)[k] == (p + w)[k]);
        assert(witness(ds, pc, v, w2));
        assert(cycle_ahead(ds, pc, v));
    }
}

/// A way back found from a callee of `c` makes one from `c`.
proof fn lemma_found(ds: Seq<Decl>, p: Seq<Seq<char>>, c: Seq<char>, callee: Seq<char>, fin: Seq<Seq<char>>)
    requires
        !p.contains(c),
        has_decl(ds, c),
        p.push(c).no_duplicates(),
        forall|i: int| 0 <= i < p.len() ==> has_decl(ds, #[trigger] p[i]),
        edge(ds, c, callee),
        fin.len() >= p.len() + 1,
        fin.take(p.len() + 1int) == p.push(c),
        fin.len() > p.len() + 1 ==> witness(ds, p.push(c), callee, fin.skip(p.len() + 1int)),
        fin.len() == p.len() + 1 ==> p.push(c).contains(callee),
    ensures
        fin.len() > p.len(),
        fin.take(p.len() as int) == p,
        witness(ds, p, c, fin.skip(p.len() as int)),
{
    let pc = p.push(c);
    assert(pc.take(p.len() as int) =~= p);
    assert(fin.take(pc.len() as int).take(p.len() as int) =~= fin.take(p.len() as int));
    let w = fin.skip(p.len() as int);
    assert(p + w =~= fin) by {
        assert(fin =~= fin.take(p.len() as int) + fin.skip(p.len() as int));
    }
    assert(w[0] == c) by {
        assert(fin[p.len() as int] == fin.take(pc.len() as int)[p.len() as int]);
    }
    if fin.len() > pc.len() {
        let w2 = fin.skip(pc.len() as int);
        assert(pc + w2 =~= fin) by {
            assert(fin =~= fin.take(pc.len() as int) + fin.skip(pc.len() as int));
        }
        assert(w =~= seq![c] + w2);
        assert forall|i: int| 0 <= i < w.len() implies has_decl(ds, #[trigger] w[i]) by {
            if i > 0 {
                assert(w[i] == w2[i - 1]);
            }
        }
        assert forall|i: int| 0 <= i < w.len() - 1 implies edge(ds, #[trigger] w[i], w[i + 1]) by {
            if i > 0 {
                assert(w[i] == w2[i - 1]);
                assert(w[i + 1] == w2[i]);
                assert(edge(ds, w2[i - 1], w2[i]));
            } else {
                assert(w[1] == w2[0]);
            }
        }
        let kk = choose|kk: int| 0 <= kk < (pc + w2).len() && edge(ds, w2.last(), #[trigger] (pc + w2)[kk]);
        assert(w.last() == w2.last());
        assert((p + w)[kk] == (pc + w2)[kk]);
        assert(witness(ds, p, c, w));
    } else {
        assert(fin =~= pc) by {
            assert(fin =~= fin.take(pc.len() as int));
        }
        let kk = choose|kk: int| 0 <= kk < pc.len() && pc[kk] == callee;
        assert(w =~= seq![c]);
        assert((p + w)[kk] == callee);
        assert(witness(ds, p, c, w));
    }
}

impl TokenFunctionExpander {
    /// The declared functions.
    pub closed spec fn decls(&self) -> Seq<Decl> {
        Seq::new(self.functions@.len(), |i: int| self.functions@[i].decl())
    }

    /// The number of calls rewritten so far.
    pub closed spec fn calls_made(&self) -> nat {
        self.call_counter as nat
    }

    /// The names are distinct and each function's calls are right.
    pub closed spec fn wf(&self) -> bool {
        &&& forall|i: int, j: int| 0 <= i < j < self.functions@.len() ==> self.functions@[i].name@ != self.functions@[j].name@
        &&& forall|i: int| 0 <= i < self.functions@.len() ==> (#[trigger] self.functions@[i]).calls_ok()
    }

    /// No functions, no calls yet.
    pub fn new() -> (e: Self)
        ensures
            e.wf(),
            e.decls() == Seq::<Decl>::empty(),
            e.calls_made() == 0,
    {
        let e = TokenFunctionExpander { functions: Vec::new(), call_counter: 0 };
        assert(e.decls() =~= Seq::<Decl>::empty());
        e
    }

    /// The index of the function `name`, if declared.
    fn find(&self, name: &str) -> (r: Option<usize>)
        ensures
            r matches Some(i) ==> i < self.decls().len() && self.decls()[i as int].name == name@,
            r is None ==> !has_decl(self.decls(), name@),
    {
        let mut i: usize = 0;
        while i < self.functions.len()
            invariant
                i <= self.functions@.len(),
                forall|j: int| 0 <= j < i ==> self.decls()[j].name != name@,
            decreases self.functions@.len() - i,
        {
            if crate::tokens::str_eq(self.functions[i].name.as_str(), name) {
                return Some(i);
            }
            i = i + 1;
        }
        None
    }

    /// Looks for a way from the path `stack` through `current` back to a
    /// function on the way. When one is found, `stack` ends up holding the
    /// path to the function that comes back; else it is left as it was.
    fn detect_cycle(&self, current: &String, stack: &mut Vec<String>) -> (r: bool)
        requires
            self.wf(),
            old(stack).deep_view().no_duplicates(),
            forall|i: int| 0 <= i < old(stack)@.len() ==> has_decl(self.decls(), #[trigger] old(stack).deep_view()[i]),
        ensures
            r == cycle_ahead(self.decls(), old(stack).deep_view(), current@),
            !r ==> final(stack).deep_view() == old(stack).deep_view(),
            r ==> final(stack)@.len() >= old(stack)@.len(),
            r ==> final(stack).deep_view().len() > old(stack).deep_view().len() ==> witness(self.decls(),
                old(stack).deep_view(), current@, final(stack).deep_view().skip(old(stack)@.len() as int)),
            r ==> final(stack).deep_view().take(old(stack)@.len() as int) == old(stack).deep_view(),
            r ==> final(stack).deep_view().len() == old(stack).deep_view().len() ==> old(stack).deep_view().contains(current@),
        decreases self.functions@.len() - old(stack)@.len(),
    {
        let ghost ds = self.decls();
        let ghost p = stack.deep_view();
        proof {
            lemma_path_len(ds, p);
        }
        let mut k: usize = 0;
        while k < stack.len()
            invariant
                p == stack.deep_view(),
                k <= stack@.len(),
                forall|j: int| 0 <= j < k ==> p[j] != current@,
            decreases stack@.len() - k,
        {
            if crate::tokens::str_eq(stack[k].as_str(), current.as_str()) {
                proof {
                    assert(p[k as int] == current@);
                    assert(p.take(p.len() as int) =~= p);
                }
                return true;
            }
            k = k + 1;
        }
        proof {
            assert(!p.contains(current@));
        }
        let found = self.find(current.as_str());
        match found {
            None => {
                proof {
                    if exists|w: Seq<Seq<char>>| #[trigger] witness(ds, p, current@, w) {
                        let w = choose|w: Seq<Seq<char>>| #[trigger] witness(ds, p, current@, w);
                        assert(has_decl(ds, w[0]));
                    }
                }
                false
            },
            Some(fi) => {
                stack.push(current.clone());
                let ghost pc = stack.deep_view();
                proof {
                    assert(pc =~= p.push(current@));
                    assert(pc.no_duplicates());
                    assert forall|i: int| 0 <= i < pc.len() implies has_decl(ds, #[trigger] pc[i]) by {
                        if i < p.len() {
                            assert(pc[i] == p[i]);
                        } else {
                            assert(ds[fi as int].name == pc[i]);
                        }
                    }
                    lemma_path_len(ds, pc);
                    assert(self.functions@[fi as int].calls_ok());
                }
                let calls = &self.functions[fi].calls;
                let mut j: usize = 0;
                while j < calls.len()
                    invariant
                        self.wf(),
                        ds == self.decls(),
                        fi < ds.len(),
                        ds[fi as int].name == current@,
                        calls == &self.functions@[fi as int].calls,
                        self.functions@[fi as int].calls_ok(),
                        pc == p.push(current@),
                        pc.no_duplicates(),
                        !p.contains(current@),
                        forall|i: int| 0 <= i < pc.len() ==> has_decl(ds, #[trigger] pc[i]),
                        stack.deep_view() == pc,
                        stack@.len() == pc.len(),
                        p.len() == old(stack)@.len(),
                        p == old(stack).deep_view(),
                        forall|i: int| 0 <= i < p.len() ==> has_decl(ds, #[trigger] p[i]),
                        ds.len() == self.functions@.len(),
                        pc.len() <= ds.len(),
                        j <= calls@.len(),
                        forall|i: int| 0 <= i < j ==> !cycle_ahead(ds, pc, #[trigger] calls.deep_view()[i]),
                    decreases calls@.len() - j,
                {
                    let ghost callee = calls.deep_view()[j as int];
                    proof {
                        assert(calls.deep_view().contains(callee));
                        assert(calls_in(self.functions@[fi as int].body_tokens.deep_view(), callee));
                        assert(ds[fi as int].body == self.functions@[fi as int].body_tokens.deep_view());
                        assert(edge(ds, current@, callee));
                    }
                    if self.detect_cycle(&calls[j], stack) {
                        proof {
                            lemma_found(ds, p, current@, callee, stack.deep_view());
                        }
                        return true;
                    }
                    j = j + 1;
                }
                proof {
                    if exists|w: Seq<Seq<char>>| #[trigger] witness(ds, p, current@, w) {
                        let w = choose|w: Seq<Seq<char>>| #[trigger] witness(ds, p, current@, w);
                        lemma_cycle_step(ds, p, current@, w);
                        let v = choose|v: Seq<char>| edge(ds, current@, v) && #[trigger] cycle_ahead(ds, p.push(current@), v);
                        let i = choose|i: int| 0 <= i < ds.len() && #[trigger] ds[i].name == current@ && calls_in(ds[i].body, v);
                        assert(i == fi);
                        assert(calls.deep_view().contains(v));
                        let m = choose|m: int| 0 <= m < calls.deep_view().len() && calls.deep_view()[m] == v;
                        assert(!cycle_ahead(ds, pc, calls.deep_view()[m]));
                    }
                }
                let ghost before = stack@;
                proof {
                    assert forall|i: int| 0 <= i < before.len() implies #[trigger] pc[i] == before[i].deep_view() by {
                        assert(stack.deep_view()[i] == stack@[i].deep_view());
                    }
                }
                stack.pop();
                proof {
                    assert(stack@ =~= before.drop_last());
                    assert forall|i: int| 0 <= i < p.len() implies stack.deep_view()[i] == p[i] by {
                        assert(stack@[i] == before[i]);
                        assert(pc[i] == before[i].deep_view());
                        assert(pc[i] == p[i]);
                    }
                    assert(stack.deep_view() =~= p);
                }
                false
            },
        }
    }
}

/// The function that a line `CALL name ...` calls.
fn call_target(line: &Vec<RawToken>) -> (r: Option<&String>)
    ensures
        r matches Some(f) ==> call_name(line.deep_view()) == Some(f@),
        r is None ==> call_name(line.deep_view()) is None,
{
    if line.len() >= 2 && raw_is_kw(&line[0], "CALL") {
        match &line[1] {
            RawToken::Number(f, _) => Some(f),
            _ => None,
        }
    } else {
        None
    }
}

/// The name and line of the function that a line `FUNC name ...` declares.
fn func_target(line: &Vec<RawToken>) -> (r: Option<(&String, i32)>)
    ensures
        r matches Some((f, l)) ==> func_start(line.deep_view()) == Some((f@, l)),
        r is None ==> func_start(line.deep_view()) is None,
{
    if line.len() >= 2 && raw_is_kw(&line[0], "FUNC") {
        match (&line[0], &line[1]) {
            (RawToken::Keyword(_, l), RawToken::Number(f, _)) => Some((f, *l)),
            _ => None,
        }
    } else {
        None
    }
}

/// The line begins with the keyword `k`.
fn first_is(line: &Vec<RawToken>, k: &str) -> (r: bool)
    ensures
        r == (line.deep_view().len() >= 1 && is_kw(line.deep_view()[0], k@)),
{
    line.len() >= 1 && raw_is_kw(&line[0], k)
}

/// The line of a keyword token.
fn keyword_line(t: &RawToken) -> (l: i32)
    ensures
        l == kw_line(t@),
{
    match t {
        RawToken::Keyword(_, l) => *l,
        _ => 0,
    }
}

/// `prefix`, then `name`, then `suffix`.
fn label(prefix: &str, name: &str, suffix: &str) -> (s: String)
    ensures
        s@ == prefix@ + name@ + suffix@,
{
    let mut s = String::from_str(prefix);
    s.append(name);
    s.append(suffix);
    s
}

/// `prefix` followed by the decimal digits of `n`.
fn numbered(prefix: &str, n: u64) -> (s: String)
    requires
        n <= i64::MAX,
    ensures
        s@ == prefix@ + decimal(n as int),
{
    let mut s = String::from_str(prefix);
    let d = int_text(n as i64);
    s.append(d.as_str());
    s
}

/// The three lines of a jump to `target` that comes back to `ret`.
fn make_call_lines(ret: &String, target: &str, l: i32) -> (v: Vec<Vec<RawToken>>)
    ensures
        v.deep_view() == call_lines(ret@, target@, l),
{
    let body = label("__func_", target, "_body");
    let v = vec![
        vec![RawToken::LabelPD(String::from_str("__ret"), l), RawToken::LabelP(ret.clone(), l)],
        vec![RawToken::Keyword(String::from_str("G"), l), RawToken::LabelP(body, l)],
        vec![RawToken::LabelP(ret.clone(), l)],
    ];
    proof {
        assert(v.deep_view() =~= call_lines(ret@, target@, l)) by {
            assert(v.deep_view()[0] =~= call_lines(ret@, target@, l)[0]);
            assert(v.deep_view()[1] =~= call_lines(ret@, target@, l)[1]);
            assert(v.deep_view()[2] =~= call_lines(ret@, target@, l)[2]);
        }
    }
    v
}

proof fn lemma_collect_total(lines: Seq<Seq<RawTok>>, k: int)
    requires
        0 <= k <= lines.len(),
    ensures
        collect_upto(lines, k) matches Ok(c) ==> body_total(all_decls(c)) <= k,
    decreases k,
{
    if k > 0 {
        lemma_collect_total(lines, k - 1);
        match collect_upto(lines, k - 1) {
            Ok(c) => {
                let line = lines[k - 1];
                match func_start(line) {
                    Some((name, l)) => {
                        let d = Decl { name, line: l, body: Seq::empty() };
                        assert(all_decls(c).push(d).drop_last() =~= all_decls(c));
                    },
                    None => match c.cur {
                        Some(d) => {
                            let d2 = Decl { body: d.body.push(line), ..d };
                            assert(c.done.push(d2).drop_last() =~= c.done);
                            assert(c.done.push(d).drop_last() =~= c.done);
                        },
                        None => {},
                    },
                }
            },
            Err(_) => {},
        }
    }
}

proof fn lemma_body_total_prefix(ds: Seq<Decl>, i: int, k: int)
    requires
        0 <= i <= k <= ds.len(),
    ensures
        body_total(ds.take(i)) <= body_total(ds.take(k)),
    decreases k - i,
{
    if i < k {
        lemma_body_total_prefix(ds, i, k - 1);
        assert(ds.take(k).drop_last() =~= ds.take(k - 1));
    }
}

impl TokenFunctionExpander {
    /// The functions that the body calls, each once, in order of first call.
    fn extract_calls_from_body(&self, body: &Vec<Vec<RawToken>>) -> (calls: Vec<String>)
        ensures
            calls.deep_view().no_duplicates(),
            forall|v: Seq<char>| calls.deep_view().contains(v) <==> calls_in(body.deep_view(), v),
    {
        let ghost b = body.deep_view();
        let mut calls: Vec<String> = Vec::new();
        let mut i: usize = 0;
        while i < body.len()
            invariant
                b == body.deep_view(),
                i <= b.len(),
                calls.deep_view().no_duplicates(),
                forall|v: Seq<char>| calls.deep_view().contains(v) <==> calls_in(b.take(i as int), v),
            decreases b.len() - i,
        {
            let ghost before = calls.deep_view();
            proof {
                assert forall|v: Seq<char>| calls_in(b.take(i + 1), v) <==> (calls_in(b.take(i as int), v)
                    || call_name(b[i as int]) == Some(v)) by {
                    if calls_in(b.take(i + 1), v) {
                        let j = choose|j: int| 0 <= j < i + 1 && #[trigger] call_name(b.take(i + 1)[j]) == Some(v);
                        if j < i {
                            assert(b.take(i as int)[j] == b.take(i + 1)[j]);
                        }
                    }
                    if calls_in(b.take(i as int), v) {
                        let j = choose|j: int| 0 <= j < i && #[trigger] call_name(b.take(i as int)[j]) == Some(v);
                        assert(b.take(i + 1)[j] == b.take(i as int)[j]);
                    }
                    if call_name(b[i as int]) == Some(v) {
                        assert(b.take(i + 1)[i as int] == b[i as int]);
                    }
                }
            }
            match call_target(&body[i]) {
                Some(f) => {
                    let mut k: usize = 0;
                    let mut seen = false;
                    while k < calls.len()
                        invariant
                            k <= calls@.len(),
                            seen == exists|j: int| 0 <= j < k && calls.deep_view()[j] == f@,
                        decreases calls@.len() - k,
                    {
                        proof {
                            assert(calls.deep_view()[k as int] == calls@[k as int]@);
                        }
                        if crate::tokens::str_eq(calls[k].as_str(), f.as_str()) {
                            seen = true;
                        }
                        k = k + 1;
                    }
                    if !seen {
                        calls.push(f.clone());
                        proof {
                            assert(calls.deep_view() =~= before.push(f@));
                            assert forall|v: Seq<char>| calls.deep_view().contains(v) <==> calls_in(b.take(i + 1), v) by {
                                if before.contains(v) {
                                    let j = choose|j: int| 0 <= j < before.len() && before[j] == v;
                                    assert(calls.deep_view()[j] == v);
                                }
                                if calls.deep_view().contains(v) && v != f@ {
                                    let j = choose|j: int| 0 <= j < calls.deep_view().len() && calls.deep_view()[j] == v;
                                    assert(before[j] == v);
                                }
                                assert(calls.deep_view()[before.len() as int] == f@);
                            }
                        }
                    } else {
                        proof {
                            let j = choose|j: int| 0 <= j < k && calls.deep_view()[j] == f@;
                            assert(before.contains(f@));
                        }
                    }
                },
                None => {},
            }
            i = i + 1;
        }
        proof {
            assert(b.take(b.len() as int) =~= b);
        }
        calls
    }

    /// The line declares a function: it begins with `FUNC`.
    fn is_function_declaration(&self, line: &Vec<RawToken>) -> (r: bool)
        ensures
            r == is_declaration(line.deep_view()),
    {
        first_is(line, "FUNC")
    }

    /// Adds the function `name`, declared on line `l` with `body`.
    fn add_function(&mut self, name: String, l: i32, body: Vec<Vec<RawToken>>)
        requires
            old(self).wf(),
            !has_decl(old(self).decls(), name@),
        ensures
            final(self).wf(),
            final(self).decls() == old(self).decls().push(Decl { name: name@, line: l, body: body.deep_view() }),
            final(self).calls_made() == old(self).calls_made(),
    {
        let calls = self.extract_calls_from_body(&body);
        let info = TokenFunctionInfo { name, body_tokens: body, declared_at_line: l, calls };
        let ghost d = info.decl();
        let ghost before = self.decls();
        proof {
            assert forall|i: int| 0 <= i < self.functions@.len() implies self.functions@[i].name@ != info.name@ by {
                assert(before[i].name == self.functions@[i].name@);
            }
        }
        self.functions.push(info);
        proof {
            assert(self.decls() =~= before.push(d));
        }
    }

    /// Reads the declarations: each `FUNC name` line opens a function whose
    /// body runs to the next `FUNC` line or the end.
    fn collect_functions(&mut self, tokens: &Vec<Vec<RawToken>>) -> (r: Result<(), String>)
        requires
            old(self).wf(),
            old(self).decls() == Seq::<Decl>::empty(),
        ensures
            final(self).wf(),
            final(self).calls_made() == old(self).calls_made(),
            declared(tokens.deep_view()) matches Ok(ds) ==> r is Ok && final(self).decls() == ds,
            declared(tokens.deep_view()) matches Err(e) ==> r matches Err(m) && m@ == e,
    {
        let ghost lines = tokens.deep_view();
        let mut open = false;
        let mut cur_name = String::new();
        let mut cur_line: i32 = 0;
        let mut cur_body: Vec<Vec<RawToken>> = Vec::new();
        let mut i: usize = 0;
        while i < tokens.len()
            invariant
                lines == tokens.deep_view(),
                i <= lines.len(),
                self.wf(),
                self.calls_made() == old(self).calls_made(),
                open ==> !has_decl(self.decls(), cur_name@),
                collect_upto(lines, i as int) == Ok::<Collected, Seq<char>>(Collected {
                    done: self.decls(),
                    cur: if open { Some(Decl { name: cur_name@, line: cur_line, body: cur_body.deep_view() }) } else { None },
                }),
            decreases lines.len() - i,
        {
            let line = &tokens[i];
            match func_target(line) {
                Some((name, l)) => {
                    if open {
                        let body = cur_body;
                        cur_body = Vec::new();
                        self.add_function(cur_name.clone(), cur_line, body);
                    }
                    match self.find(name.as_str()) {
                        Some(_) => {
                            let mut m = String::from_str("Строка ");
                            let t = int_text(l as i64);
                            m.append(t.as_str());
                            m.append(": Переопределение функции '");
                            m.append(name.as_str());
                            m.append("'");
                            proof {
                                assert(collect_upto(lines, i + 1) == Err::<Collected, Seq<char>>(redefinition_message(name@, l)));
                                lemma_collect_err_stays(lines, i + 1, lines.len() as int);
                            }
                            return Err(m);
                        },
                        None => {},
                    }
                    open = true;
                    cur_name = name.clone();
                    cur_line = l;
                    cur_body = Vec::new();
                    proof {
                        assert(cur_body.deep_view() =~= Seq::<Seq<RawTok>>::empty());
                    }
                },
                None => {
                    if open {
                        let ghost before = cur_body.deep_view();
                        cur_body.push(clone_line(line));
                        proof {
                            assert(cur_body.deep_view() =~= before.push(lines[i as int]));
                        }
                    }
                },
            }
            i = i + 1;
        }
        if open {
            self.add_function(cur_name, cur_line, cur_body);
        }
        Ok(())
    }
}

proof fn lemma_collect_err_stays(lines: Seq<Seq<RawTok>>, k: int, m: int)
    requires
        0 <= k <= m,
        collect_upto(lines, k) is Err,
    ensures
        collect_upto(lines, m) == collect_upto(lines, k),
    decreases m - k,
{
    if k < m {
        lemma_collect_err_stays(lines, k, m - 1);
    }
}

/// The names joined by ` -> `.
fn arrow_join(w: &Vec<String>) -> (s: String)
    ensures
        s@ == arrow_joined(w.deep_view()),
{
    let ghost ws = w.deep_view();
    let mut s = String::new();
    let mut k: usize = 0;
    proof {
        assert(ws.take(0) =~= Seq::<Seq<char>>::empty());
    }
    while k < w.len()
        invariant
            ws == w.deep_view(),
            k <= ws.len(),
            s@ == arrow_joined(ws.take(k as int)),
        decreases ws.len() - k,
    {
        proof {
            assert(ws.take(k + 1).drop_last() =~= ws.take(k as int));
            assert(ws.take(k + 1).last() == w@[k as int]@);
        }
        if k > 0 {
            s.append(" -> ");
        }
        s.append(w[k].as_str());
        proof {
            if k == 0 {
                assert(s@ =~= arrow_joined(ws.take(1)));
            } else {
                assert(s@ =~= arrow_joined(ws.take(k + 1)));
            }
        }
        k = k + 1;
    }
    proof {
        assert(ws.take(ws.len() as int) =~= ws);
    }
    s
}

/// Appends the lines of `more` to `out`.
fn append_lines(out: &mut Vec<Vec<RawToken>>, more: Vec<Vec<RawToken>>)
    ensures
        final(out).deep_view() == old(out).deep_view() + more.deep_view(),
{
    let ghost start = out.deep_view();
    let mut k: usize = 0;
    while k < more.len()
        invariant
            k <= more@.len(),
            out.deep_view() == start + more.deep_view().take(k as int),
        decreases more@.len() - k,
    {
        let ghost before = out.deep_view();
        out.push(clone_line(&more[k]));
        proof {
            assert(out.deep_view() =~= before.push(more.deep_view()[k as int]));
            assert(more.deep_view().take(k + 1) =~= more.deep_view().take(k as int).push(more.deep_view()[k as int]));
            assert(out.deep_view() =~= start + more.deep_view().take(k + 1));
        }
        k = k + 1;
    }
    proof {
        assert(more.deep_view().take(more@.len() as int) =~= more.deep_view());
    }
}

impl TokenFunctionExpander {
    /// A cycle of calls, if there is one: a path of functions, each calling
    /// the next, whose last calls one of them.
    fn find_cycles(&self) -> (r: Option<Vec<String>>)
        requires
            self.wf(),
        ensures
            r matches Some(w) ==> is_cycle(self.decls(), w.deep_view()),
            r is None ==> !has_cycle(self.decls()),
    {
        let ghost ds = self.decls();
        let mut i: usize = 0;
        while i < self.functions.len()
            invariant
                self.wf(),
                ds == self.decls(),
                i <= ds.len(),
                forall|j: int| 0 <= j < i ==> !cycle_ahead(ds, Seq::empty(), #[trigger] ds[j].name),
            decreases ds.len() - i,
        {
            let mut stack: Vec<String> = Vec::new();
            proof {
                assert(stack.deep_view() =~= Seq::<Seq<char>>::empty());
            }
            if self.detect_cycle(&self.functions[i].name, &mut stack) {
                proof {
                    let w = stack.deep_view();
                    let e = Seq::<Seq<char>>::empty();
                    assert(!e.contains(self.functions@[i as int].name@));
                    assert(w.skip(0) =~= w);
                    assert(e + w =~= w);
                    assert(witness(ds, e, self.functions@[i as int].name@, w));
                    let k = choose|k: int| 0 <= k < (e + w).len() && edge(ds, w.last(), #[trigger] (e + w)[k]);
                    assert(w[k] == (e + w)[k]);
                    assert(is_cycle(ds, w));
                }
                return Some(stack);
            }
            proof {
                assert(ds[i as int].name == self.functions@[i as int].name@);
            }
            i = i + 1;
        }
        proof {
            if has_cycle(ds) {
                let w = choose|w: Seq<Seq<char>>| #[trigger] is_cycle(ds, w);
                assert(has_decl(ds, w[0]));
                let j = choose|j: int| 0 <= j < ds.len() && #[trigger] ds[j].name == w[0];
                let e = Seq::<Seq<char>>::empty();
                assert(e + w =~= w);
                let k = choose|k: int| 0 <= k < w.len() && edge(ds, w.last(), #[trigger] w[k]);
                assert((e + w)[k] == w[k]);
                assert(witness(ds, e, w[0], w));
                assert(!cycle_ahead(ds, e, ds[j].name));
            }
        }
        None
    }

    /// A call of the main code: `PD.__ret P.__ret_<n>`, `G P.__func_<f>_body`,
    /// `P.__ret_<n>`; `None` for a line that calls nothing.
    fn expand_main_line(&mut self, line: &Vec<RawToken>) -> (r: Result<Option<Vec<Vec<RawToken>>>, String>)
        requires
            old(self).calls_made() < i64::MAX,
        ensures
            final(self).decls() == old(self).decls(),
            old(self).wf() ==> final(self).wf(),
            call_name(line.deep_view()) is None ==> (r matches Ok(None) && final(self).calls_made() == old(self).calls_made()),
            call_name(line.deep_view()) matches Some(f) ==> {
                let l = kw_line(line.deep_view()[0]);
                if has_decl(old(self).decls(), f) {
                    (r matches Ok(Some(v)) && v.deep_view() == call_lines(ret_label(old(self).calls_made() as int), f, l)
                        && final(self).calls_made() == old(self).calls_made() + 1)
                } else {
                    (r matches Err(m) && m@ == undeclared_message(f, l) && final(self).calls_made() == old(self).calls_made())
                }
            },
    {
        match call_target(line) {
            None => Ok(None),
            Some(f) => {
                let l = keyword_line(&line[0]);
                if self.find(f.as_str()).is_none() {
                    let mut m = String::from_str("Строка ");
                    let t = int_text(l as i64);
                    m.append(t.as_str());
                    m.append(": Функция '");
                    m.append(f.as_str());
                    m.append("' не объявлена");
                    return Err(m);
                }
                let call_id = self.call_counter;
                self.call_counter = self.call_counter + 1;
                let ret = numbered("__ret_", call_id);
                Ok(Some(make_call_lines(&ret, f.as_str(), l)))
            },
        }
    }

    /// A line of the body of `current_func`: a call of a declared function
    /// becomes a jump returning to `P.__ret_<current_func>_<n>`, `RET ...` a
    /// jump through `PD.__local_ret_<current_func>`; `None` for a line that
    /// stays as it is.
    fn expand_function_line(&mut self, line: &Vec<RawToken>, current_func: &str) -> (r: Option<Vec<Vec<RawToken>>>)
        requires
            old(self).calls_made() < i64::MAX,
        ensures
            final(self).decls() == old(self).decls(),
            old(self).wf() ==> final(self).wf(),
            r matches Some(v) ==> v.deep_view() == body_step(old(self).decls(), current_func@, old(self).calls_made() as int, line.deep_view()).0,
            r is None ==> body_step(old(self).decls(), current_func@, old(self).calls_made() as int, line.deep_view()).0 == seq![line.deep_view()],
            final(self).calls_made() == body_step(old(self).decls(), current_func@, old(self).calls_made() as int, line.deep_view()).1,
    {
        match call_target(line) {
            Some(g) => {
                if self.find(g.as_str()).is_some() {
                    let l = match &line[1] {
                        RawToken::Number(_, l) => *l,
                        _ => 0,
                    };
                    let call_id = self.call_counter;
                    self.call_counter = self.call_counter + 1;
                    let mut ret = label("__ret_", current_func, "_");
                    let t = int_text(call_id as i64);
                    ret.append(t.as_str());
                    return Some(make_call_lines(&ret, g.as_str(), l));
                }
            },
            None => {},
        }
        if first_is(line, "RET") {
            let l = keyword_line(&line[0]);
            let v = vec![vec![
                RawToken::Keyword(String::from_str("G"), l),
                RawToken::LabelPD(label("__local_ret_", current_func, ""), l),
            ]];
            proof {
                reveal_strlit("");
                assert(v.deep_view()[0] =~= seq![RawTok::Keyword("G"@, l), RawTok::LabelPD(local_ret(current_func@), l)]);
                assert(v.deep_view() =~= seq![seq![RawTok::Keyword("G"@, l), RawTok::LabelPD(local_ret(current_func@), l)]]);
            }
            return Some(v);
        }
        None
    }

    /// `PD.__ret`, an empty line, then for each function its label, the
    /// saving of its return label, its body rewritten and a jump back.
    fn create_function_bodies(&mut self) -> (r: Vec<Vec<RawToken>>)
        requires
            old(self).wf(),
            old(self).calls_made() + body_total(old(self).decls()) < i64::MAX,
        ensures
            final(self).wf(),
            final(self).decls() == old(self).decls(),
            r.deep_view() == bodies_run(old(self).decls(), old(self).decls().len() as int, old(self).calls_made() as int).0,
            final(self).calls_made() == bodies_run(old(self).decls(), old(self).decls().len() as int, old(self).calls_made() as int).1,
    {
        let ghost ds = self.decls();
        let ghost n0 = self.calls_made() as int;
        let mut result: Vec<Vec<RawToken>> = vec![vec![RawToken::LabelPD(String::from_str("__ret"), 0)], Vec::new()];
        proof {
            assert(result.deep_view()[0] =~= seq![RawTok::LabelPD("__ret"@, 0)]);
            assert(result.deep_view()[1] =~= Seq::<RawTok>::empty());
            assert(result.deep_view() =~= bodies_run(ds, 0, n0).0);
            assert(ds.take(0) =~= Seq::<Decl>::empty());
        }
        let mut i: usize = 0;
        while i < self.functions.len()
            invariant
                self.wf(),
                ds == self.decls(),
                i <= ds.len(),
                n0 + body_total(ds) < i64::MAX,
                result.deep_view() == bodies_run(ds, i as int, n0).0,
                self.calls_made() == bodies_run(ds, i as int, n0).1,
                self.calls_made() <= n0 + body_total(ds.take(i as int)),
            decreases ds.len() - i,
        {
            let name = self.functions[i].name.clone();
            let ghost d = ds[i as int];
            let ghost m0 = self.calls_made() as int;
            proof {
                assert(d.name == name@);
                assert(d.body == self.functions@[i as int].body_tokens.deep_view());
                lemma_body_total_prefix(ds, i + 1, ds.len() as int);
                assert(ds.take(ds.len() as int) =~= ds);
                assert(ds.take(i + 1).drop_last() =~= ds.take(i as int));
            }
            let mut block: Vec<Vec<RawToken>> = vec![
                vec![RawToken::LabelP(label("__func_", name.as_str(), "_body"), 0)],
                vec![RawToken::LabelPD(label("__local_ret_", name.as_str(), ""), 0), RawToken::LabelPD(String::from_str("__ret"), 0)],
            ];
            let ghost head = seq![
                seq![RawTok::LabelP(body_label(d.name), 0)],
                seq![RawTok::LabelPD(local_ret(d.name), 0), RawTok::LabelPD("__ret"@, 0)],
            ];
            proof {
                reveal_strlit("");
                assert(block.deep_view()[0] =~= head[0]);
                assert(block.deep_view()[1] =~= head[1]);
                assert(block.deep_view() =~= head + body_run(ds, d.name, d.body, 0, m0).0);
            }
            let mut j: usize = 0;
            while j < self.functions[i].body_tokens.len()
                invariant
                    self.wf(),
                    ds == self.decls(),
                    i < ds.len(),
                    d == ds[i as int],
                    d.name == name@,
                    d.body == self.functions@[i as int].body_tokens.deep_view(),
                    j <= d.body.len(),
                    n0 + body_total(ds) < i64::MAX,
                    body_total(ds.take(i as int)) + d.body.len() <= body_total(ds),
                    m0 <= n0 + body_total(ds.take(i as int)),
                    block.deep_view() == head + body_run(ds, d.name, d.body, j as int, m0).0,
                    self.calls_made() == body_run(ds, d.name, d.body, j as int, m0).1,
                    self.calls_made() <= m0 + j,
                decreases d.body.len() - j,
            {
                let line = clone_line(&self.functions[i].body_tokens[j]);
                let ghost before = block.deep_view();
                let ghost step = body_step(ds, d.name, self.calls_made() as int, line.deep_view());
                proof {
                    assert(line.deep_view() == d.body[j as int]);
                }
                match self.expand_function_line(&line, name.as_str()) {
                    Some(expanded) => {
                        append_lines(&mut block, expanded);
                    },
                    None => {
                        let ghost lv = line.deep_view();
                        block.push(line);
                        proof {
                            assert(block.deep_view() =~= before.push(lv));
                            assert(before.push(lv) =~= before + seq![lv]);
                        }
                    },
                }
                proof {
                    assert(block.deep_view() =~= head + body_run(ds, d.name, d.body, j + 1, m0).0);
                }
                j = j + 1;
            }
            let tail = vec![
                vec![RawToken::Keyword(String::from_str("G"), 0), RawToken::LabelPD(label("__local_ret_", name.as_str(), ""), 0)],
                Vec::new(),
            ];
            let ghost tv = seq![
                seq![RawTok::Keyword("G"@, 0), RawTok::LabelPD(local_ret(d.name), 0)],
                Seq::<RawTok>::empty(),
            ];
            proof {
                reveal_strlit("");
                assert(tail.deep_view()[0] =~= tv[0]);
                assert(tail.deep_view()[1] =~= tv[1]);
                assert(tail.deep_view() =~= tv);
            }
            append_lines(&mut block, tail);
            append_lines(&mut result, block);
            proof {
                assert(d.body.len() == j);
                assert(bodies_run(ds, i + 1, n0).0 =~= bodies_run(ds, i as int, n0).0 + func_block(ds, d, m0).0);
                assert(func_block(ds, d, m0).0 =~= head + body_run(ds, d.name, d.body, j as int, m0).0 + tv);
            }
            i = i + 1;
        }
        result
    }
}

proof fn lemma_main_err_stays(ds: Seq<Decl>, lines: Seq<Seq<RawTok>>, k: int, m: int)
    requires
        0 <= k <= m,
        main_run(ds, lines, k) is Err,
    ensures
        main_run(ds, lines, m) == main_run(ds, lines, k),
    decreases m - k,
{
    if k < m {
        lemma_main_err_stays(ds, lines, k, m - 1);
    }
}

impl TokenFunctionExpander {
    /// Collects the functions, refuses a cycle of calls, rewrites the main
    /// code and appends the bodies of the functions.
    fn expand(&mut self, tokens: Vec<Vec<RawToken>>) -> (r: Result<Vec<Vec<RawToken>>, String>)
        requires
            old(self).wf(),
            old(self).decls() == Seq::<Decl>::empty(),
            old(self).calls_made() == 0,
            tokens@.len() < 0x4000_0000_0000_0000,
        ensures
            declared(tokens.deep_view()) matches Err(e) ==> (r matches Err(m) && m@ == e),
            declared(tokens.deep_view()) matches Ok(ds) ==> (has_cycle(ds) ==> (r matches Err(m)
                && exists|w: Seq<Seq<char>>| is_cycle(ds, w) && m@ == #[trigger] cycle_message(w))),
            declared(tokens.deep_view()) matches Ok(ds) ==> (!has_cycle(ds) ==> result_view(r) == expanded(ds, tokens.deep_view())),
    {
        let ghost lines = tokens.deep_view();
        match self.collect_functions(&tokens) {
            Err(e) => {
                return Err(e);
            },
            Ok(()) => {},
        }
        let ghost ds = self.decls();
        proof {
            lemma_collect_total(lines, lines.len() as int);
        }
        match self.find_cycles() {
            Some(cycle) => {
                let mut m = String::from_str("Обнаружена циклическая зависимость: ");
                let j = arrow_join(&cycle);
                m.append(j.as_str());
                proof {
                    assert(is_cycle(ds, cycle.deep_view()));
                    assert(m@ == cycle_message(cycle.deep_view()));
                }
                return Err(m);
            },
            None => {},
        }
        let mut result: Vec<Vec<RawToken>> = Vec::new();
        let mut i: usize = 0;
        proof {
            assert(result.deep_view() =~= Seq::<Seq<RawTok>>::empty());
        }
        while i < tokens.len()
            invariant
                lines == tokens.deep_view(),
                lines.len() < 0x4000_0000_0000_0000,
                self.wf(),
                ds == self.decls(),
                declared(lines) == Ok::<Seq<Decl>, Seq<char>>(ds),
                !has_cycle(ds),
                body_total(ds) <= lines.len(),
                i <= lines.len(),
                main_run(ds, lines, i as int) == Ok::<(Seq<Seq<RawTok>>, int), Seq<char>>((result.deep_view(), self.calls_made() as int)),
                self.calls_made() <= i,
            decreases lines.len() - i,
        {
            let line = &tokens[i];
            let ghost lv = line.deep_view();
            let ghost before = result.deep_view();
            proof {
                assert(lv == lines[i as int]);
            }
            if self.is_function_declaration(line) || (line.len() == 1 && first_is(line, "RET")) {
                proof {
                    assert(before + Seq::<Seq<RawTok>>::empty() =~= before);
                }
            } else {
                match self.expand_main_line(line) {
                    Err(e) => {
                        proof {
                            lemma_main_err_stays(ds, lines, i + 1, lines.len() as int);
                        }
                        return Err(e);
                    },
                    Ok(Some(expanded)) => {
                        append_lines(&mut result, expanded);
                    },
                    Ok(None) => {
                        result.push(clone_line(line));
                        proof {
                            assert(result.deep_view() =~= before + seq![lv]);
                        }
                    },
                }
            }
            i = i + 1;
        }
        proof {
            assert(lines.len() == i);
        }
        if self.functions.len() > 0 {
            let bodies = self.create_function_bodies();
            append_lines(&mut result, bodies);
        }
        Ok(result)
    }
}

/// Rewrites the functions of `tokens`: each call becomes a jump that leaves
/// its return label in `PD.__ret`, and the bodies follow the main code. It
/// fails on a function declared twice, on calls that go round in a cycle and
/// on a call in the main code of a function never declared.
pub fn expand_tokens(tokens: Vec<Vec<RawToken>>) -> (r: Result<Vec<Vec<RawToken>>, String>)
    requires
        tokens@.len() < 0x4000_0000_0000_0000,
    ensures
        declared(tokens.deep_view()) matches Err(e) ==> (r matches Err(m) && m@ == e),
        declared(tokens.deep_view()) matches Ok(ds) ==> (has_cycle(ds) ==> (r matches Err(m)
            && exists|w: Seq<Seq<char>>| is_cycle(ds, w) && m@ == #[trigger] cycle_message(w))),
        declared(tokens.deep_view()) matches Ok(ds) ==> (!has_cycle(ds) ==> result_view(r) == expanded(ds, tokens.deep_view())),
{
    let mut expander = TokenFunctionExpander::new();
    expander.expand(tokens)
}


/// No line declares a function, calls one or is a bare `RET`.
pub open spec fn plain_lines(lines: Seq<Seq<RawTok>>) -> bool {
    forall|i: int| 0 <= i < lines.len() ==> !is_declaration(#[trigger] lines[i]) && !is_bare_ret(lines[i])
        && call_name(lines[i]) is None
}

proof fn lemma_collect_plain(lines: Seq<Seq<RawTok>>, k: int)
    requires
        plain_lines(lines),
        0 <= k <= lines.len(),
    ensures
        collect_upto(lines, k) == Ok::<Collected, Seq<char>>(Collected { done: Seq::empty(), cur: None }),
    decreases k,
{
    if k > 0 {
        lemma_collect_plain(lines, k - 1);
        assert(!is_declaration(lines[k - 1]));
        assert(func_start(lines[k - 1]) is None);
    }
}

proof fn lemma_main_plain(lines: Seq<Seq<RawTok>>, k: int)
    requires
        plain_lines(lines),
        0 <= k <= lines.len(),
    ensures
        main_run(Seq::empty(), lines, k) == Ok::<(Seq<Seq<RawTok>>, int), Seq<char>>((lines.take(k), 0)),
    decreases k,
{
    if k > 0 {
        lemma_main_plain(lines, k - 1);
        assert(!is_declaration(lines[k - 1]) && !is_bare_ret(lines[k - 1]) && call_name(lines[k - 1]) is None);
        assert(lines.take(k - 1) + seq![lines[k - 1]] =~= lines.take(k));
    } else {
        assert(lines.take(0) =~= Seq::<Seq<RawTok>>::empty());
    }
}

/// A program that declares no function, calls none and has no bare `RET`
/// comes out of the function pass as it went in.
pub proof fn law_plain_unchanged(lines: Seq<Seq<RawTok>>)
    requires
        plain_lines(lines),
    ensures
        declared(lines) == Ok::<Seq<Decl>, Seq<char>>(Seq::empty()),
        !has_cycle(Seq::empty()),
        expanded(Seq::empty(), lines) == Ok::<Seq<Seq<RawTok>>, Seq<char>>(lines),
{
    lemma_collect_plain(lines, lines.len() as int);
    lemma_main_plain(lines, lines.len() as int);
    assert(lines.take(lines.len() as int) =~= lines);
    if has_cycle(Seq::empty()) {
        let w = choose|w: Seq<Seq<char>>| #[trigger] is_cycle(Seq::empty(), w);
        assert(has_decl(Seq::empty(), w[0]));
    }
}


/// The blocks laid end to end, in order.
pub open spec fn concat_blocks(bs: Seq<Seq<Seq<RawTok>>>) -> Seq<Seq<RawTok>>
    decreases bs.len(),
{
    if bs.len() == 0 {
        Seq::empty()
    } else {
        concat_blocks(bs.drop_last()) + bs.last()
    }
}

/// The block of the `i`-th declared function, its calls counted from
/// where the blocks before it left the count.
pub open spec fn block_of(ds: Seq<Decl>, i: int, n: int) -> Seq<Seq<RawTok>> {
    func_block(ds, ds[i], bodies_run(ds, i, n).1).0
}

proof fn lemma_bodies_blocks(ds: Seq<Decl>, k: int, n: int)
    requires
        0 <= k <= ds.len(),
    ensures
        bodies_run(ds, k, n).0 == seq![seq![RawTok::LabelPD("__ret"@, 0)], Seq::<RawTok>::empty()]
            + concat_blocks(Seq::new(k as nat, |i: int| block_of(ds, i, n))),
    decreases k,
{
    let head = seq![seq![RawTok::LabelPD("__ret"@, 0)], Seq::<RawTok>::empty()];
    let bs = Seq::new(k as nat, |i: int| block_of(ds, i, n));
    if k == 0 {
        assert(concat_blocks(bs) =~= Seq::<Seq<RawTok>>::empty());
        assert(head + concat_blocks(bs) =~= head);
    } else {
        lemma_bodies_blocks(ds, k - 1, n);
        assert(bs.drop_last() =~= Seq::new((k - 1) as nat, |i: int| block_of(ds, i, n)));
        assert(bs.last() == block_of(ds, k - 1, n));
        assert(head + concat_blocks(bs) =~= head + concat_blocks(bs.drop_last()) + bs.last());
    }
}

proof fn lemma_collect_distinct(lines: Seq<Seq<RawTok>>, k: int)
    requires
        0 <= k <= lines.len(),
    ensures
        collect_upto(lines, k) matches Ok(c) ==> {
            &&& forall|a: int, b: int| 0 <= a < b < all_decls(c).len() ==> all_decls(c)[a].name != all_decls(c)[b].name
            &&& forall|a: int, b: int| 0 <= a < b < c.done.len() ==> c.done[a].name != c.done[b].name
            &&& c.cur matches Some(d) ==> !has_decl(c.done, d.name)
        },
    decreases k,
{
    if k > 0 {
        lemma_collect_distinct(lines, k - 1);
        match collect_upto(lines, k - 1) {
            Ok(c) => {
                let line = lines[k - 1];
                match func_start(line) {
                    Some((name, l)) => {
                        let done = all_decls(c);
                        if !has_decl(done, name) {
                            let d = Decl { name, line: l, body: Seq::empty() };
                            assert forall|a: int, b: int| 0 <= a < b < done.push(d).len() implies done.push(d)[a].name != done.push(d)[b].name by {
                                if b == done.len() {
                                    assert(done[a].name != name);
                                }
                            }
                        }
                    },
                    None => match c.cur {
                        Some(d) => {
                            let d2 = Decl { body: d.body.push(line), ..d };
                            assert forall|a: int, b: int| 0 <= a < b < c.done.push(d2).len() implies c.done.push(d2)[a].name != c.done.push(d2)[b].name by {
                                if b == c.done.len() {
                                    assert(c.done[a].name != d.name);
                                } else {
                                    assert(c.done.push(d)[a] == c.done[a]);
                                }
                            }
                        },
                        None => {},
                    },
                }
            },
            Err(_) => {},
        }
    }
}

/// The declared functions have distinct names, and the bodies that the
/// pass appends are the line `PD.__ret`, an empty line, then exactly one
/// block per declared function, in order of declaration: its label, the
/// saving of its return label, its body rewritten and a jump back.
pub proof fn law_bodies_each_once(lines: Seq<Seq<RawTok>>, n: int)
    requires
        declared(lines) is Ok,
    ensures
        forall|a: int, b: int| 0 <= a < b < declared(lines)->Ok_0.len()
            ==> declared(lines)->Ok_0[a].name != declared(lines)->Ok_0[b].name,
        bodies_run(declared(lines)->Ok_0, declared(lines)->Ok_0.len() as int, n).0
            == seq![seq![RawTok::LabelPD("__ret"@, 0)], Seq::<RawTok>::empty()]
            + concat_blocks(Seq::new(declared(lines)->Ok_0.len(), |i: int| block_of(declared(lines)->Ok_0, i, n))),
        forall|i: int| 0 <= i < declared(lines)->Ok_0.len() ==> #[trigger] block_of(declared(lines)->Ok_0, i, n)
            == func_block(declared(lines)->Ok_0, declared(lines)->Ok_0[i], bodies_run(declared(lines)->Ok_0, i, n).1).0,
{
    lemma_collect_distinct(lines, lines.len() as int);
    let ds = declared(lines)->Ok_0;
    lemma_bodies_blocks(ds, ds.len() as int, n);
}

} // verus!
