//! The pass before execution: static labels become instruction indices and
//! every `IF` learns where its `E` is.
use vstd::prelude::*;
use std::collections::HashMap;
use crate::name_map::{IdentNameMap, NameTables};
use crate::text::{decimal, int_text};

verus! {

/// Every instruction has an opcode, and the operands its opcode reads.
pub open spec fn well_formed(p: Seq<Seq<i32>>) -> bool {
    forall|k: int| 0 <= k < p.len() ==> {
        &&& (#[trigger] p[k]).len() >= 1
        &&& (p[k][0] == 200 || p[k][0] == 230 || p[k][0] == 300) ==> p[k].len() >= 2
        &&& (p[k][0] == 260 || p[k][0] == 302) ==> p[k].len() >= 3
    }
}

/// The table of static labels declared in `p[..k]`, each bound to the index
/// its declaration will have once the declarations are gone, with the number
/// of declarations; or the position of the first label declared twice.
pub open spec fn label_table(p: Seq<Seq<i32>>, k: int) -> Result<(Map<i32, i32>, int), int>
    decreases k,
{
    if k <= 0 {
        Ok((Map::empty(), 0))
    } else {
        match label_table(p, k - 1) {
            Err(e) => Err(e),
            Ok((m, n)) => if p[k - 1][0] == 200 {
                if m.contains_key(p[k - 1][1]) {
                    Err(k - 1)
                } else {
                    Ok((m.insert(p[k - 1][1], (k - 2 - n) as i32), n + 1))
                }
            } else {
                Ok((m, n))
            },
        }
    }
}

/// An instruction with its static label operand replaced by the label's index;
/// `None` where the label is not declared.
pub open spec fn resolve(m: Map<i32, i32>, instr: Seq<i32>) -> Option<Seq<i32>> {
    if instr[0] == 230 {
        if m.contains_key(instr[1]) { Some(instr.update(1, m[instr[1]])) } else { None }
    } else if instr[0] == 260 || instr[0] == 302 {
        if m.contains_key(instr[2]) { Some(instr.update(2, m[instr[2]])) } else { None }
    } else {
        Some(instr)
    }
}

/// Why the pass before execution refused a program.
#[derive(Debug)]
pub enum PreRunError {
    /// A static label declared a second time: the label and the line.
    Redeclared { label: i32, line: i32 },
    /// `G P.x` to a label never declared: the label, the instruction, the line.
    UndefinedJump { label: i32, instr: Vec<i32>, line: i32 },
    /// `PD.y P.x` with a label never declared.
    UndefinedAssign { label: i32, instr: Vec<i32>, line: i32 },
    /// `IFG c P.x` with a label never declared.
    UndefinedIfJump { label: i32, instr: Vec<i32>, line: i32 },
    /// `IF c` without its `E`: the condition variable and a line number.
    MissingEnd { var: i32, line: i32 },
}

/// The value of a [`PreRunError`].
pub enum PreRunErr {
    Redeclared(i32, i32),
    UndefinedJump(i32, Seq<i32>, i32),
    UndefinedAssign(i32, Seq<i32>, i32),
    UndefinedIfJump(i32, Seq<i32>, i32),
    MissingEnd(i32, i32),
}

impl View for PreRunError {
    type V = PreRunErr;

    open spec fn view(&self) -> PreRunErr {
        match self {
            PreRunError::Redeclared { label, line } => PreRunErr::Redeclared(*label, *line),
            PreRunError::UndefinedJump { label, instr, line } => PreRunErr::UndefinedJump(*label, instr@, *line),
            PreRunError::UndefinedAssign { label, instr, line } => PreRunErr::UndefinedAssign(*label, instr@, *line),
            PreRunError::UndefinedIfJump { label, instr, line } => PreRunErr::UndefinedIfJump(*label, instr@, *line),
            PreRunError::MissingEnd { var, line } => PreRunErr::MissingEnd(*var, *line),
        }
    }
}

/// The error for an instruction whose label operand is not declared.
pub open spec fn unresolved_error(instr: Seq<i32>, line: i32) -> PreRunErr {
    if instr[0] == 230 {
        PreRunErr::UndefinedJump(instr[1], instr, line)
    } else if instr[0] == 260 {
        PreRunErr::UndefinedAssign(instr[2], instr, line)
    } else {
        PreRunErr::UndefinedIfJump(instr[2], instr, line)
    }
}

/// Resolves `p[..k]` against `m` and drops the declarations: the remaining
/// instructions with their lines, or the first unresolved instruction.
pub open spec fn resolve_all(m: Map<i32, i32>, p: Seq<Seq<i32>>, lines: Seq<i32>, k: int) -> Result<(Seq<Seq<i32>>, Seq<i32>), PreRunErr>
    decreases k,
{
    if k <= 0 {
        Ok((Seq::empty(), Seq::empty()))
    } else {
        match resolve_all(m, p, lines, k - 1) {
            Err(e) => Err(e),
            Ok((q, ls)) => match resolve(m, p[k - 1]) {
                None => Err(unresolved_error(p[k - 1], lines[k - 1])),
                Some(r) => if p[k - 1][0] != 200 {
                    Ok((q.push(r), ls.push(lines[k - 1])))
                } else {
                    Ok((q, ls))
                },
            },
        }
    }
}

/// Opcode of an `E`, before (50) or after (51) it was matched to an `IF`.
pub open spec fn is_close(op: i32) -> bool {
    op == 50 || op == 51
}

/// Scanning from `j` with `level` `IF`s open: where the level drops to 0, or -1.
pub open spec fn close_scan(p: Seq<Seq<i32>>, j: int, level: int) -> int
    decreases p.len() - j,
{
    if j < 0 || j >= p.len() {
        -1
    } else {
        let lv = if p[j][0] == 300 {
            level + 1
        } else if is_close(p[j][0]) {
            level - 1
        } else {
            level
        };
        if lv == 0 {
            j
        } else {
            close_scan(p, j + 1, lv)
        }
    }
}

/// `p[i]` is an `IF` still waiting for its `E`.
pub open spec fn needs_end(p: Seq<Seq<i32>>, i: int) -> bool {
    p[i][0] == 300 && p[i].len() == 2
}

/// The index of the `E` that closes the `IF` at `i`, or -1.
pub open spec fn match_of(p: Seq<Seq<i32>>, i: int) -> int {
    close_scan(p, i + 1, 1)
}

/// One of the first `upto` `IF`s scans over `j` on its way to its `E`.
pub open spec fn marked_by(p: Seq<Seq<i32>>, j: int, upto: int) -> bool {
    exists|i: int| 0 <= i < upto && i < j && #[trigger] needs_end(p, i) && match_of(p, i) >= j
}

/// The program once the first `upto` `IF`s have their `E`: each such `IF`
/// gets the index of its `E` as an operand, and every `E` they scanned over
/// becomes 51.
pub open spec fn matched_upto(p: Seq<Seq<i32>>, upto: int) -> Seq<Seq<i32>> {
    Seq::new(p.len(), |j: int|
        if j < upto && needs_end(p, j) {
            p[j].push(match_of(p, j) as i32)
        } else if p[j].len() == 1 && is_close(p[j][0]) && marked_by(p, j, upto) {
            seq![51i32]
        } else {
            p[j]
        })
}

/// The first `IF` without an `E`, or -1.
pub open spec fn first_unclosed(p: Seq<Seq<i32>>, i: int) -> int
    decreases p.len() - i,
{
    if i < 0 || i >= p.len() {
        -1
    } else if needs_end(p, i) && match_of(p, i) < 0 {
        i
    } else {
        first_unclosed(p, i + 1)
    }
}

/// What `pre_run` gives for a program (with the line of each instruction).
pub open spec fn pre_run_spec(p: Seq<Seq<i32>>, lines: Seq<i32>) -> Result<(Seq<Seq<i32>>, Seq<i32>), PreRunErr> {
    match label_table(p, p.len() as int) {
        Err(k) => Err(PreRunErr::Redeclared(p[k][1], lines[k])),
        Ok((m, _)) => match resolve_all(m, p, lines, p.len() as int) {
            Err(e) => Err(e),
            Ok((q, ls)) => {
                let u = first_unclosed(q, 0);
                if u >= 0 {
                    Err(PreRunErr::MissingEnd(q[u][1], lines[u]))
                } else {
                    Ok((matched_upto(q, q.len() as int), ls))
                }
            },
        },
    }
}

} // verus!

verus! {

/// The instructions of a program with lines.
pub open spec fn instrs_of(program: Seq<(Vec<i32>, i32)>) -> Seq<Seq<i32>> {
    Seq::new(program.len(), |k: int| program[k].0@)
}

/// The lines of a program with lines.
pub open spec fn lines_of(program: Seq<(Vec<i32>, i32)>) -> Seq<i32> {
    Seq::new(program.len(), |k: int| program[k].1)
}

/// The instructions of a program without lines.
pub open spec fn code_of(program: Seq<Vec<i32>>) -> Seq<Seq<i32>> {
    Seq::new(program.len(), |k: int| program[k]@)
}

proof fn lemma_label_values(p: Seq<Seq<i32>>, k: int)
    requires
        0 <= k <= p.len(),
        label_table(p, k) is Ok,
    ensures
        0 <= label_table(p, k)->Ok_0.1 <= k,
    decreases k,
{
    if k > 0 {
        lemma_label_values(p, k - 1);
    }
}

proof fn lemma_table_error_stays(p: Seq<Seq<i32>>, k: int)
    requires
        0 <= k <= p.len(),
        label_table(p, k) is Err,
    ensures
        label_table(p, p.len() as int) == label_table(p, k),
    decreases p.len() - k,
{
    if k < p.len() {
        lemma_table_error_stays(p, k + 1);
    }
}

proof fn lemma_resolve_error_stays(m: Map<i32, i32>, p: Seq<Seq<i32>>, lines: Seq<i32>, k: int)
    requires
        0 <= k <= p.len(),
        resolve_all(m, p, lines, k) is Err,
    ensures
        resolve_all(m, p, lines, p.len() as int) == resolve_all(m, p, lines, k),
    decreases p.len() - k,
{
    if k < p.len() {
        lemma_resolve_error_stays(m, p, lines, k + 1);
    }
}

proof fn lemma_resolved_len(m: Map<i32, i32>, p: Seq<Seq<i32>>, lines: Seq<i32>, k: int)
    requires
        0 <= k <= p.len(),
        resolve_all(m, p, lines, k) is Ok,
    ensures
        resolve_all(m, p, lines, k)->Ok_0.0.len() <= k,
        resolve_all(m, p, lines, k)->Ok_0.0.len() == resolve_all(m, p, lines, k)->Ok_0.1.len(),
    decreases k,
{
    if k > 0 {
        lemma_resolve_error_stays_back(m, p, lines, k);
        lemma_resolved_len(m, p, lines, k - 1);
    }
}

proof fn lemma_resolve_error_stays_back(m: Map<i32, i32>, p: Seq<Seq<i32>>, lines: Seq<i32>, k: int)
    requires
        0 < k <= p.len(),
        resolve_all(m, p, lines, k) is Ok,
    ensures
        resolve_all(m, p, lines, k - 1) is Ok,
{
}

/// Replaces static labels by indices, drops their declarations and gives
/// every `IF` the index of its `E` (marking each matched `E` as 51); also
/// gives the line of each remaining instruction.
#[verifier::loop_isolation(false)]
pub fn pre_run(program: Vec<(Vec<i32>, i32)>) -> (r: Result<(Vec<Vec<i32>>, Vec<i32>), PreRunError>)
    requires
        well_formed(instrs_of(program@)),
        program@.len() < i32::MAX,
    ensures
        r matches Ok((q, ls)) ==> pre_run_spec(instrs_of(program@), lines_of(program@))
            == Ok::<(Seq<Seq<i32>>, Seq<i32>), PreRunErr>((code_of(q@), ls@)),
        r matches Err(e) ==> pre_run_spec(instrs_of(program@), lines_of(program@))
            == Err::<(Seq<Seq<i32>>, Seq<i32>), PreRunErr>(e@),
{
    let ghost p = instrs_of(program@);
    let ghost lines = lines_of(program@);
    let n = program.len();

    // static labels
    let mut memory_p: HashMap<i32, i32> = HashMap::new();
    let mut n_pointer: i32 = 0;
    let mut counter: i32 = 0;
    proof {
        assert(memory_p@ =~= Map::<i32, i32>::empty());
    }
    while (counter as usize) < n
        invariant
            0 <= counter <= n < i32::MAX,
            label_table(p, counter as int) == Ok::<(Map<i32, i32>, int), int>((memory_p@, n_pointer as int)),
        decreases n - counter as usize,
    {
        let k = counter as usize;
        let instr = &program[k].0;
        let line_num = program[k].1;
        assert(instr@ == p[k as int]);
        proof {
            lemma_label_values(p, counter as int);
        }
        let ghost old_m = memory_p@;
        counter = counter + 1;
        if instr[0] == 200 {
            if !memory_p.contains_key(&instr[1]) {
                n_pointer = n_pointer + 1;
                memory_p.insert(instr[1], counter - n_pointer - 1);
                assert(memory_p@ == old_m.insert(p[k as int][1], (k - (n_pointer - 1) - 1) as i32));
            } else {
                proof {
                    lemma_table_error_stays(p, counter as int);
                }
                return Err(PreRunError::Redeclared { label: instr[1], line: line_num });
            }
        }
    }

    // resolve the jumps to static labels
    let mut new_program: Vec<Vec<i32>> = Vec::new();
    let mut lines_n: Vec<i32> = Vec::new();
    let ghost m = memory_p@;
    let mut k: usize = 0;
    proof {
        assert(code_of(new_program@) =~= Seq::<Seq<i32>>::empty());
        assert(lines_n@ =~= Seq::<i32>::empty());
    }
    while k < n
        invariant
            k <= n,
            m == memory_p@,
            resolve_all(m, p, lines, k as int) == Ok::<(Seq<Seq<i32>>, Seq<i32>), PreRunErr>((code_of(new_program@), lines_n@)),
        decreases n - k,
    {
        let mut instr = program[k].0.clone();
        let line_num = program[k].1;
        assert(instr@ == p[k as int]);
        let ghost before = code_of(new_program@);
        if instr[0] == 230 {
            match memory_p.get(&instr[1]) {
                Some(v) => {
                    instr.set(1, *v);
                },
                None => {
                    proof {
                        lemma_resolve_error_stays(m, p, lines, k + 1);
                    }
                    return Err(PreRunError::UndefinedJump { label: instr[1], instr, line: line_num });
                },
            }
        } else if instr[0] == 260 {
            match memory_p.get(&instr[2]) {
                Some(v) => {
                    instr.set(2, *v);
                },
                None => {
                    proof {
                        lemma_resolve_error_stays(m, p, lines, k + 1);
                    }
                    return Err(PreRunError::UndefinedAssign { label: instr[2], instr, line: line_num });
                },
            }
        } else if instr[0] == 302 {
            match memory_p.get(&instr[2]) {
                Some(v) => {
                    instr.set(2, *v);
                },
                None => {
                    proof {
                        lemma_resolve_error_stays(m, p, lines, k + 1);
                    }
                    return Err(PreRunError::UndefinedIfJump { label: instr[2], instr, line: line_num });
                },
            }
        }
        if instr[0] != 200 {
            new_program.push(instr);
            lines_n.push(line_num);
            proof {
                assert(code_of(new_program@) =~= before.push(new_program@.last()@));
            }
        }
        k = k + 1;
    }
    proof {
        lemma_resolved_len(m, p, lines, n as int);
        lemma_resolved_ops(m, p, lines, n as int);
    }
    match match_ends(new_program, &program) {
        Ok(q) => Ok((q, lines_n)),
        Err(e) => Err(e),
    }
}

} // verus!

verus! {

/// Every instruction has an opcode, and every `IF` its condition.
pub open spec fn ops_present(q: Seq<Seq<i32>>) -> bool {
    forall|k: int| 0 <= k < q.len() ==> (#[trigger] q[k]).len() >= 1 && (q[k][0] == 300 ==> q[k].len() >= 2)
}

proof fn lemma_resolved_ops(m: Map<i32, i32>, p: Seq<Seq<i32>>, lines: Seq<i32>, k: int)
    requires
        0 <= k <= p.len(),
        well_formed(p),
        resolve_all(m, p, lines, k) is Ok,
    ensures
        ops_present(resolve_all(m, p, lines, k)->Ok_0.0),
    decreases k,
{
    if k > 0 {
        lemma_resolved_ops(m, p, lines, k - 1);
        let q = resolve_all(m, p, lines, k)->Ok_0.0;
        let q0 = resolve_all(m, p, lines, k - 1)->Ok_0.0;
        assert(p[k - 1].len() >= 1);
        assert forall|x: int| 0 <= x < q.len() implies (#[trigger] q[x]).len() >= 1 && (q[x][0] == 300 ==> q[x].len() >= 2) by {
            if x < q0.len() {
                assert(q[x] == q0[x]);
            }
        }
    }
}

/// The program while the `IF` at `i` scans: the first `i` `IF`s done, and
/// the `E`s in `i+1..j` marked.
pub open spec fn matching(p: Seq<Seq<i32>>, i: int, j: int) -> Seq<Seq<i32>> {
    Seq::new(p.len(), |x: int|
        if x < i && needs_end(p, x) {
            p[x].push(match_of(p, x) as i32)
        } else if p[x].len() == 1 && is_close(p[x][0]) && (marked_by(p, x, i) || (i < x < j)) {
            seq![51i32]
        } else {
            p[x]
        })
}

proof fn lemma_scan_bounds(p: Seq<Seq<i32>>, j: int, level: int)
    requires
        0 <= j,
    ensures
        close_scan(p, j, level) == -1 || j <= close_scan(p, j, level) < p.len(),
    decreases p.len() - j,
{
    if j < p.len() {
        let lv = if p[j][0] == 300 {
            level + 1
        } else if is_close(p[j][0]) {
            level - 1
        } else {
            level
        };
        if lv != 0 {
            lemma_scan_bounds(p, j + 1, lv);
        }
    }
}

/// Gives each `IF` still waiting the index of its `E`, marking the `E`s it
/// scans over as 51; refuses an `IF` without an `E`.
#[verifier::loop_isolation(false)]
fn match_ends(new_program: Vec<Vec<i32>>, program: &Vec<(Vec<i32>, i32)>) -> (r: Result<Vec<Vec<i32>>, PreRunError>)
    requires
        ops_present(code_of(new_program@)),
        new_program@.len() <= program@.len() < i32::MAX,
    ensures
        ({
            let q = code_of(new_program@);
            let u = first_unclosed(q, 0);
            &&& r matches Ok(v) ==> u < 0 && code_of(v@) == matched_upto(q, q.len() as int)
            &&& r matches Err(e) ==> u >= 0 && e@ == PreRunErr::MissingEnd(q[u][1], lines_of(program@)[u])
        }),
{
    let ghost q = code_of(new_program@);
    let mut cur = new_program;
    let n = cur.len();
    let mut i: usize = 0;
    proof {
        assert(code_of(cur@) =~= matching(q, 0, 1));
    }
    while i < n
        invariant
            n == q.len() == cur@.len(),
            i <= n,
            code_of(cur@) == matching(q, i as int, i + 1),
            first_unclosed(q, 0) == first_unclosed(q, i as int),
        decreases n - i,
    {
        assert(code_of(cur@)[i as int].len() >= 1);
        assert((code_of(cur@)[i as int][0] == 300 && code_of(cur@)[i as int].len() == 2) == needs_end(q, i as int));
        if cur[i][0] == 300 && cur[i].len() == 2 {
            let mut level: i32 = 1;
            let mut pointer: i32 = 0;
            let mut j: usize = i + 1;
            let mut found = false;
            proof {
                lemma_scan_bounds(q, i + 1, 1);
            }
            while j < n && !found
                invariant
                    n == q.len() == cur@.len(),
                    i < j <= n,
                    needs_end(q, i as int),
                    !found ==> 1 <= level <= j - i,
                    !found ==> close_scan(q, j as int, level as int) == match_of(q, i as int),
                    found ==> match_of(q, i as int) == pointer && pointer == j - 1,
                    code_of(cur@) == matching(q, i as int, j as int),
                decreases n - j, if found { 0int } else { 1int },
            {
                let ghost before = code_of(cur@);
                assert(before[j as int][0] == 300 <==> q[j as int][0] == 300);
                assert(is_close(before[j as int][0]) <==> is_close(q[j as int][0]));
                assert(before[j as int].len() == 1 <==> q[j as int].len() == 1);
                if cur[j][0] == 300 {
                    level = level + 1;
                } else if cur[j][0] == 50 || cur[j][0] == 51 {
                    level = level - 1;
                    if level >= 0 && cur[j].len() == 1 {
                        let mut e = cur[j].clone();
                        e.set(0, 51);
                        assert(e@ =~= seq![51i32]);
                        cur.set(j, e);
                    }
                }
                proof {
                    let target = matching(q, i as int, j + 1);
                    assert forall|x: int| 0 <= x < n && x != j implies #[trigger] target[x] == before[x] by {
                        assert(matching(q, i as int, j as int)[x] == before[x]);
                    }
                    if q[j as int].len() == 1 && is_close(q[j as int][0]) {
                        assert(target[j as int] == seq![51i32]);
                        assert(code_of(cur@)[j as int] == seq![51i32]);
                    } else {
                        assert(target[j as int] == q[j as int]);
                        assert(code_of(cur@)[j as int] == before[j as int]);
                        assert(before[j as int] == matching(q, i as int, j as int)[j as int]);
                        assert(!(q[j as int].len() == 1 && is_close(q[j as int][0])));
                    }
                    assert(code_of(cur@) =~= target);
                }
                if level == 0 {
                    pointer = j as i32;
                    found = true;
                }
                j = j + 1;
            }
            if !found {
                proof {
                    assert(match_of(q, i as int) == -1);
                    assert(code_of(cur@)[i as int] == q[i as int]);
                    assert(first_unclosed(q, i as int) == i);
                }
                return Err(PreRunError::MissingEnd { var: cur[i][1], line: program[i].1 });
            }
            assert(code_of(cur@)[i as int] == q[i as int]);
            let ghost before_set = code_of(cur@);
            let mut head = cur[i].clone();
            head.push(pointer);
            cur.set(i, head);
            proof {
                assert(code_of(cur@) =~= before_set.update(i as int, q[i as int].push(match_of(q, i as int) as i32)));
                assert forall|x: int| 0 <= x < n && q[x].len() == 1 && is_close(q[x][0]) implies
                    (marked_by(q, x, i + 1) <==> (marked_by(q, x, i as int) || (i < x < j))) by {
                    if marked_by(q, x, i + 1) {
                        let w = choose|w: int| 0 <= w < i + 1 && w < x && #[trigger] needs_end(q, w) && match_of(q, w) >= x;
                        if w < i {
                            assert(marked_by(q, x, i as int));
                        }
                    }
                    if i < x < j {
                        assert(needs_end(q, i as int));
                    }
                }
                assert(code_of(cur@) =~= matching(q, i + 1, i + 2));
            }
        } else {
            proof {
                assert forall|x: int| 0 <= x < n && q[x].len() == 1 && is_close(q[x][0]) implies
                    (marked_by(q, x, i + 1) <==> marked_by(q, x, i as int)) by {
                    if marked_by(q, x, i + 1) {
                        let w = choose|w: int| 0 <= w < i + 1 && w < x && #[trigger] needs_end(q, w) && match_of(q, w) >= x;
                        assert(w != i);
                    }
                }
                assert(code_of(cur@) =~= matching(q, i + 1, i + 2));
            }
        }
        i = i + 1;
    }
    proof {
        assert(matching(q, n as int, n + 1) =~= matched_upto(q, n as int));
    }
    Ok(cur)
}

} // verus!

verus! {

/// `format!("{:?}", v)` for a vector of integers: `[a, b, c]`.
pub open spec fn ints_debug(v: Seq<i32>) -> Seq<char> {
    "["@ + ints_joined(v) + "]"@
}

/// The decimals of `v` joined by `", "`.
pub open spec fn ints_joined(v: Seq<i32>) -> Seq<char>
    decreases v.len(),
{
    if v.len() == 0 {
        Seq::empty()
    } else if v.len() == 1 {
        decimal(v[0] as int)
    } else {
        ints_joined(v.drop_last()) + ", "@ + decimal(v.last() as int)
    }
}

/// The table knows the name that the error's message shows.
pub open spec fn error_name_known(e: PreRunErr, m: NameTables) -> bool {
    match e {
        PreRunErr::Redeclared(l, _) => m.p.contains_key(l),
        PreRunErr::UndefinedJump(l, _, _) => m.p.contains_key(l),
        PreRunErr::UndefinedAssign(l, _, _) => m.p.contains_key(l),
        PreRunErr::UndefinedIfJump(l, _, _) => m.p.contains_key(l),
        PreRunErr::MissingEnd(v, _) => m.n.contains_key(v),
    }
}

/// The message the loader prints for an error.
pub open spec fn error_message(e: PreRunErr, m: NameTables) -> Seq<char> {
    let head = "\n ! пре ран-тайм\n\n   >>  ! "@;
    match e {
        PreRunErr::Redeclared(l, line) => head + "переобъявление статического указателя: P."@ + m.p[l]
            + "  ("@ + decimal(line as int) + ")\n\n"@,
        PreRunErr::UndefinedJump(l, instr, line) => head + "попытка перейти по не определённому указателю: P."@
            + m.p[l] + "; в строке: "@ + ints_debug(instr) + "  ("@ + decimal(line as int) + ")\n\n"@,
        PreRunErr::UndefinedAssign(l, instr, line) => head + "попытка присвоить значение неопределённого указателя: P."@
            + m.p[l] + "; динамическому: "@ + ints_debug(instr) + "  ("@ + decimal(line as int) + ")\n\n"@,
        PreRunErr::UndefinedIfJump(l, instr, line) => head + "попытка перейти по неопределённому указателю после if: P."@
            + m.p[l] + "; в строке: "@ + ints_debug(instr) + "  ("@ + decimal(line as int) + ")\n\n"@,
        PreRunErr::MissingEnd(v, line) => head + "не найден end для if: IF "@ + m.n[v] + "  ("@
            + decimal(line as int) + ")\n\n"@,
    }
}

fn ints_text(v: &Vec<i32>) -> (s: String)
    ensures
        s@ == ints_debug(v@),
{
    let mut s = String::from_str("[");
    let mut k: usize = 0;
    while k < v.len()
        invariant
            k <= v@.len(),
            s@ == "["@ + ints_joined(v@.take(k as int)),
        decreases v.len() - k,
    {
        assert(v@.take(k + 1).drop_last() =~= v@.take(k as int));
        if k > 0 {
            s.append(", ");
        }
        let d = int_text(v[k] as i64);
        s.append(d.as_str());
        proof {
            if k == 0 {
                assert(s@ =~= "["@ + ints_joined(v@.take(1)));
            } else {
                assert(s@ =~= "["@ + ints_joined(v@.take(k + 1)));
            }
        }
        k = k + 1;
    }
    s.append("]");
    assert(v@.take(k as int) =~= v@);
    assert(s@ =~= ints_debug(v@));
    s
}

fn p_name(m: &IdentNameMap, id: i32) -> (r: Option<String>)
    ensures
        r matches Some(s) ==> m@.p.contains_key(id) && s@ == m@.p[id],
        r is None ==> !m@.p.contains_key(id),
{
    m.lookup_p(id)
}

impl PreRunError {
    /// The message that the loader prints, or `None` where the table lacks
    /// the name the message shows.
    pub fn describe(&self, ident_name_map: &IdentNameMap) -> (r: Option<String>)
        ensures
            r matches Some(s) ==> error_name_known(self@, ident_name_map@) && s@ == error_message(self@, ident_name_map@),
            r is None ==> !error_name_known(self@, ident_name_map@),
    {
        let mut s = String::from_str("\n ! пре ран-тайм\n\n   >>  ! ");
        let line = match self {
            PreRunError::Redeclared { label, line } => {
                let name = match p_name(ident_name_map, *label) {
                    Some(x) => x,
                    None => {
                        return None;
                    },
                };
                s.append("переобъявление статического указателя: P.");
                s.append(name.as_str());
                *line
            },
            PreRunError::UndefinedJump { label, instr, line } => {
                let name = match p_name(ident_name_map, *label) {
                    Some(x) => x,
                    None => {
                        return None;
                    },
                };
                s.append("попытка перейти по не определённому указателю: P.");
                s.append(name.as_str());
                s.append("; в строке: ");
                let t = ints_text(instr);
                s.append(t.as_str());
                *line
            },
            PreRunError::UndefinedAssign { label, instr, line } => {
                let name = match p_name(ident_name_map, *label) {
                    Some(x) => x,
                    None => {
                        return None;
                    },
                };
                s.append("попытка присвоить значение неопределённого указателя: P.");
                s.append(name.as_str());
                s.append("; динамическому: ");
                let t = ints_text(instr);
                s.append(t.as_str());
                *line
            },
            PreRunError::UndefinedIfJump { label, instr, line } => {
                let name = match p_name(ident_name_map, *label) {
                    Some(x) => x,
                    None => {
                        return None;
                    },
                };
                s.append("попытка перейти по неопределённому указателю после if: P.");
                s.append(name.as_str());
                s.append("; в строке: ");
                let t = ints_text(instr);
                s.append(t.as_str());
                *line
            },
            PreRunError::MissingEnd { var, line } => {
                let name = match ident_name_map.lookup_n(*var) {
                    Some(x) => x,
                    None => {
                        return None;
                    },
                };
                s.append("не найден end для if: IF ");
                s.append(name.as_str());
                *line
            },
        };
        s.append("  (");
        let t = int_text(line as i64);
        s.append(t.as_str());
        s.append(")\n\n");
        assert(s@ =~= error_message(self@, ident_name_map@));
        Some(s)
    }
}


/// The number of `IF`s (opcode 300) among `p[a..b]`.
pub open spec fn ifs_in(p: Seq<Seq<i32>>, a: int, b: int) -> int
    decreases b - a,
{
    if b <= a {
        0
    } else {
        ifs_in(p, a, b - 1) + if p[b - 1][0] == 300 { 1int } else { 0int }
    }
}

/// The number of `E`s (opcode 50 or 51) among `p[a..b]`.
pub open spec fn ends_in(p: Seq<Seq<i32>>, a: int, b: int) -> int
    decreases b - a,
{
    if b <= a {
        0
    } else {
        ends_in(p, a, b - 1) + if is_close(p[b - 1][0]) { 1int } else { 0int }
    }
}

/// How many `IF`s are still open after `p[i+1..k]`, counting the `IF` at `i`.
pub open spec fn open_ifs(p: Seq<Seq<i32>>, i: int, k: int) -> int {
    1 + ifs_in(p, i + 1, k) - ends_in(p, i + 1, k)
}

proof fn lemma_counts_split(p: Seq<Seq<i32>>, a: int, b: int, c: int)
    requires
        a <= b <= c,
    ensures
        ifs_in(p, a, c) == ifs_in(p, a, b) + ifs_in(p, b, c),
        ends_in(p, a, c) == ends_in(p, a, b) + ends_in(p, b, c),
    decreases c - b,
{
    if b < c {
        lemma_counts_split(p, a, b, c - 1);
    }
}

proof fn lemma_scan_balance(p: Seq<Seq<i32>>, i: int, j: int, level: int)
    requires
        0 <= i < j,
        level == open_ifs(p, i, j),
        level >= 1,
    ensures
        close_scan(p, j, level) >= 0 ==> {
            let r = close_scan(p, j, level);
            &&& j <= r < p.len()
            &&& is_close(p[r][0])
            &&& open_ifs(p, i, r + 1) == 0
            &&& forall|k: int| j <= k <= r ==> #[trigger] open_ifs(p, i, k) >= 1
        },
    decreases p.len() - j,
{
    if j < p.len() {
        let lv = if p[j][0] == 300 {
            level + 1
        } else if is_close(p[j][0]) {
            level - 1
        } else {
            level
        };
        assert(open_ifs(p, i, j + 1) == lv);
        if lv != 0 {
            lemma_scan_balance(p, i, j + 1, lv);
        }
    }
}

/// An `IF` at `i` is matched with the first `E` after it at which the
/// `IF`s and `E`s since it balance: the `E`s in `p[i+1..=j]` are one more
/// than the `IF`s, and up to there the `IF` stays open. A nested
/// `IF ... E` is thus skipped.
pub proof fn law_if_matches_balanced_end(p: Seq<Seq<i32>>, i: int)
    requires
        0 <= i < p.len(),
        p[i][0] == 300,
        match_of(p, i) >= 0,
    ensures
        i < match_of(p, i) < p.len(),
        is_close(p[match_of(p, i)][0]),
        open_ifs(p, i, match_of(p, i) + 1) == 0,
        ends_in(p, i + 1, match_of(p, i) + 1) == ifs_in(p, i + 1, match_of(p, i) + 1) + 1,
        forall|k: int| i < k <= match_of(p, i) ==> #[trigger] open_ifs(p, i, k) >= 1,
{
    assert(open_ifs(p, i, i + 1) == 1);
    lemma_scan_balance(p, i, i + 1, 1);
}

/// Distinct `IF`s are matched with distinct `E`s.
pub proof fn law_distinct_ifs_distinct_ends(p: Seq<Seq<i32>>, i1: int, i2: int)
    requires
        0 <= i1 < i2 < p.len(),
        p[i1][0] == 300,
        p[i2][0] == 300,
        match_of(p, i1) >= 0,
        match_of(p, i2) >= 0,
    ensures
        match_of(p, i1) != match_of(p, i2),
{
    law_if_matches_balanced_end(p, i1);
    law_if_matches_balanced_end(p, i2);
    let m = match_of(p, i2);
    if match_of(p, i1) == m {
        // open after i2's own IF, seen from i1
        assert(open_ifs(p, i1, i2) >= 1);
        lemma_counts_split(p, i1 + 1, i2, i2 + 1);
        lemma_counts_split(p, i1 + 1, i2 + 1, m + 1);
        assert(ifs_in(p, i2, i2 + 1) == 1);
        assert(ends_in(p, i2, i2 + 1) == 0);
        assert(open_ifs(p, i1, m + 1) == open_ifs(p, i1, i2) + 1 + open_ifs(p, i2, m + 1) - 1);
    }
}

} // verus!
