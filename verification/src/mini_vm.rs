//! A small machine over whitespace-separated words: `addr val` stores `val`
//! at `addr`, and `I a b` outputs `b` when the cell `a` holds 1.
use vstd::prelude::*;
use crate::text::{chars_of, digit, is_digit, parse_i32, parse_i32_spec, push_char, whitespace};
use crate::tokens::{split_state, str_eq, words};
use std::collections::HashMap;

verus! {

/// The word reads as an address: every character an ASCII digit.
pub open spec fn is_num_spec(s: Seq<char>) -> bool {
    forall|i: int| 0 <= i < s.len() ==> is_digit(#[trigger] s[i])
}

/// The number a word gives, or the message that it is none.
pub open spec fn parse_spec(s: Seq<char>) -> Result<int, Seq<char>> {
    match parse_i32_spec(s) {
        Ok(n) => Ok(n),
        Err(_) => Err("'"@ + s + "' is not a number"@),
    }
}

/// The value of cell `a`: 0 where nothing was stored.
pub open spec fn cell(mem: Map<i32, i32>, a: i32) -> i32 {
    if mem.contains_key(a) { mem[a] } else { 0 }
}

/// Runs the words from the `i`-th on, with memory `mem`, after the outputs
/// `out`: the outputs at the end, and the error that stopped the run, if any.
pub open spec fn mini_run(ws: Seq<Seq<char>>, i: int, mem: Map<i32, i32>, out: Seq<i32>) -> (Seq<i32>, Result<(), Seq<char>>)
    decreases ws.len() - i,
{
    if i < 0 || i >= ws.len() {
        (out, Ok(()))
    } else if ws[i] == "I"@ {
        if i + 2 >= ws.len() {
            (out, Err("I needs two numbers"@))
        } else {
            match parse_spec(ws[i + 1]) {
                Err(e) => (out, Err(e)),
                Ok(a) => match parse_spec(ws[i + 2]) {
                    Err(e) => (out, Err(e)),
                    Ok(b) => mini_run(ws, i + 3, mem, if cell(mem, a as i32) == 1 { out.push(b as i32) } else { out }),
                },
            }
        }
    } else if is_num_spec(ws[i]) {
        if i + 1 >= ws.len() {
            (out, Err("pair needs two numbers"@))
        } else {
            match parse_spec(ws[i]) {
                Err(e) => (out, Err(e)),
                Ok(addr) => match parse_spec(ws[i + 1]) {
                    Err(e) => (out, Err(e)),
                    Ok(val) => mini_run(ws, i + 2, mem.insert(addr as i32, val as i32), out),
                },
            }
        }
    } else {
        (out, Err("unknown token: "@ + ws[i]))
    }
}

/// Every character of `s` is an ASCII digit.
pub fn is_num(s: &str) -> (b: bool)
    ensures
        b == is_num_spec(s@),
{
    let cs = chars_of(s);
    let mut i: usize = 0;
    while i < cs.len()
        invariant
            cs@ == s@,
            i <= cs@.len(),
            forall|j: int| 0 <= j < i ==> is_digit(#[trigger] cs@[j]),
        decreases cs@.len() - i,
    {
        if !digit(cs[i]) {
            return false;
        }
        i = i + 1;
    }
    true
}

/// The `i32` that `s` reads as, or the message that it is no number.
pub fn parse(s: &str) -> (r: Result<i32, String>)
    ensures
        r matches Ok(n) ==> parse_spec(s@) == Ok::<int, Seq<char>>(n as int),
        r matches Err(m) ==> parse_spec(s@) == Err::<int, Seq<char>>(m@),
{
    match parse_i32(s) {
        Ok(n) => Ok(n),
        Err(_) => {
            let mut m = String::from_str("'");
            m.append(s);
            m.append("' is not a number");
            Err(m)
        },
    }
}

/// The words of `s`, split at white space.
pub fn split_words(s: &str) -> (ws: Vec<String>)
    ensures
        ws.deep_view() == words(s@),
{
    let cs = chars_of(s);
    let mut ws: Vec<String> = Vec::new();
    let mut buf = String::new();
    let mut i: usize = 0;
    proof {
        assert(cs@.take(0) =~= Seq::<char>::empty());
        assert(ws.deep_view() =~= Seq::<Seq<char>>::empty());
    }
    while i < cs.len()
        invariant
            cs@ == s@,
            i <= cs@.len(),
            split_state(cs@.take(i as int)).0 == ws.deep_view(),
            split_state(cs@.take(i as int)).1 == buf@,
        decreases cs@.len() - i,
    {
        let c = cs[i];
        proof {
            assert(cs@.take(i + 1).drop_last() =~= cs@.take(i as int));
            assert(cs@.take(i + 1).last() == c);
        }
        if whitespace(c) {
            if !buf.as_str().is_empty() {
                let ghost before = ws.deep_view();
                let ghost b = buf@;
                ws.push(buf);
                buf = String::new();
                proof {
                    assert(ws.deep_view() =~= before.push(b));
                }
            }
        } else {
            push_char(&mut buf, c);
        }
        i = i + 1;
    }
    proof {
        assert(cs@.take(cs@.len() as int) =~= cs@);
    }
    if !buf.as_str().is_empty() {
        let ghost before = ws.deep_view();
        let ghost b = buf@;
        ws.push(buf);
        proof {
            assert(ws.deep_view() =~= before.push(b));
        }
    }
    ws
}

/// Runs the program `src`: the values output, in order, and the error that
/// stopped it, if any.
pub fn run(src: &str) -> (r: (Vec<i32>, Result<(), String>))
    ensures
        r.0@ == mini_run(words(src@), 0, Map::empty(), Seq::empty()).0,
        r.1 is Ok <==> mini_run(words(src@), 0, Map::empty(), Seq::empty()).1 is Ok,
        r.1 matches Err(m) ==> mini_run(words(src@), 0, Map::empty(), Seq::empty()).1 == Err::<(), Seq<char>>(m@),
{
    let tokens = split_words(src);
    let ghost ws = tokens.deep_view();
    let mut mem: HashMap<i32, i32> = HashMap::new();
    let mut out: Vec<i32> = Vec::new();
    let mut i: usize = 0;
    proof {
        assert(mem@ =~= Map::<i32, i32>::empty());
        assert(out@ =~= Seq::<i32>::empty());
    }
    while i < tokens.len()
        invariant
            ws == tokens.deep_view(),
            ws == words(src@),
            i <= ws.len(),
            mini_run(ws, 0, Map::empty(), Seq::empty()) == mini_run(ws, i as int, mem@, out@),
        decreases ws.len() - i,
    {
        proof {
            assert(ws[i as int] == tokens@[i as int]@);
        }
        if str_eq(tokens[i].as_str(), "I") {
            if tokens.len() - i <= 2 {
                return (out, Err(String::from_str("I needs two numbers")));
            }
            proof {
                assert(ws[i + 1] == tokens@[i + 1]@);
                assert(ws[i + 2] == tokens@[i + 2]@);
            }
            let a = match parse(tokens[i + 1].as_str()) {
                Ok(a) => a,
                Err(e) => { return (out, Err(e)); },
            };
            let b = match parse(tokens[i + 2].as_str()) {
                Ok(b) => b,
                Err(e) => { return (out, Err(e)); },
            };
            i = i + 3;
            let on = match mem.get(&a) {
                Some(v) => *v == 1,
                None => false,
            };
            if on {
                out.push(b);
            }
        } else if is_num(tokens[i].as_str()) {
            if i + 1 >= tokens.len() {
                return (out, Err(String::from_str("pair needs two numbers")));
            }
            proof {
                assert(ws[i + 1] == tokens@[i + 1]@);
            }
            let addr = match parse(tokens[i].as_str()) {
                Ok(a) => a,
                Err(e) => { return (out, Err(e)); },
            };
            let val = match parse(tokens[i + 1].as_str()) {
                Ok(v) => v,
                Err(e) => { return (out, Err(e)); },
            };
            i = i + 2;
            mem.insert(addr, val);
        } else {
            let mut m = String::from_str("unknown token: ");
            m.append(tokens[i].as_str());
            return (out, Err(m));
        }
    }
    (out, Ok(()))
}

} // verus!
