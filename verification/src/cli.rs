//! The command line and the debug listings of the compiler.
use vstd::prelude::*;
use crate::text::{decimal, int_text};
use crate::tokens::{RawToken, RawTok, str_eq};

verus! {

/// `--debug` or `-debug`.
pub open spec fn is_debug_flag(a: Seq<char>) -> bool {
    a == "--debug"@ || a == "-debug"@
}

/// Among `args[1..k]`, the last that is no flag (does not begin with `-`).
pub open spec fn last_file(args: Seq<Seq<char>>, k: int) -> Option<Seq<char>>
    decreases k,
{
    if k <= 1 {
        None
    } else {
        let a = args[k - 1];
        if !is_debug_flag(a) && !(a.len() > 0 && a[0] == '-') {
            Some(a)
        } else {
            last_file(args, k - 1)
        }
    }
}

/// What the command line `args` (the program's name first) asks for: the
/// file, and whether to debug.
pub open spec fn args_spec(args: Seq<Seq<char>>) -> Result<(Seq<char>, bool), Seq<char>> {
    if args.len() < 2 {
        Err("Использование: boopl [--debug] <файл>"@)
    } else {
        match last_file(args, args.len() as int) {
            Some(f) => Ok((f, exists|i: int| 1 <= i < args.len() && is_debug_flag(#[trigger] args[i]))),
            None => Err("Ошибка: не указано имя файла"@),
        }
    }
}

/// Reads the command line: the last argument that is not a flag names the
/// file, and `--debug` or `-debug` anywhere turns debugging on.
pub fn parse_args(args: &Vec<String>) -> (r: Result<(String, bool), String>)
    ensures
        r matches Ok((f, d)) ==> args_spec(args.deep_view()) == Ok::<(Seq<char>, bool), Seq<char>>((f@, d)),
        r matches Err(m) ==> args_spec(args.deep_view()) == Err::<(Seq<char>, bool), Seq<char>>(m@),
{
    let ghost av = args.deep_view();
    if args.len() < 2 {
        return Err(String::from_str("Использование: boopl [--debug] <файл>"));
    }
    let mut debug = false;
    let mut file: Option<String> = None;
    let mut i: usize = 1;
    while i < args.len()
        invariant
            av == args.deep_view(),
            1 <= i <= av.len(),
            debug == exists|j: int| 1 <= j < i && is_debug_flag(#[trigger] av[j]),
            file matches Some(f) ==> last_file(av, i as int) == Some(f@),
            file is None ==> last_file(av, i as int) is None,
        decreases av.len() - i,
    {
        let arg = &args[i];
        proof {
            assert(av[i as int] == arg@);
        }
        if str_eq(arg.as_str(), "--debug") || str_eq(arg.as_str(), "-debug") {
            debug = true;
        } else {
            let cs = crate::text::chars_of(arg.as_str());
            if !(cs.len() > 0 && cs[0] == '-') {
                file = Some(arg.clone());
            }
        }
        i = i + 1;
    }
    match file {
        Some(f) => Ok((f, debug)),
        None => Err(String::from_str("Ошибка: не указано имя файла")),
    }
}

/// How a raw token is written in a listing.
pub open spec fn token_display(t: RawTok) -> Seq<char> {
    match t {
        RawTok::Bool(b, _) => if b { "true"@ } else { "false"@ },
        RawTok::Number(n, _) => n,
        RawTok::Keyword(k, _) => k,
        RawTok::LabelP(s, _) => "P."@ + s,
        RawTok::LabelPD(s, _) => "PD."@ + s,
    }
}

/// A raw token as a listing writes it.
pub fn format_token(token: &RawToken) -> (s: String)
    ensures
        s@ == token_display(token@),
{
    match token {
        RawToken::Bool(b, _) => if *b { String::from_str("true") } else { String::from_str("false") },
        RawToken::Number(n, _) => n.clone(),
        RawToken::Keyword(k, _) => k.clone(),
        RawToken::LabelP(s, _) => {
            let mut r = String::from_str("P.");
            r.append(s.as_str());
            r
        },
        RawToken::LabelPD(s, _) => {
            let mut r = String::from_str("PD.");
            r.append(s.as_str());
            r
        },
    }
}

/// The tokens of a line, each followed by a space.
pub open spec fn line_display(line: Seq<RawTok>) -> Seq<char>
    decreases line.len(),
{
    if line.len() == 0 {
        Seq::empty()
    } else {
        line_display(line.drop_last()) + token_display(line.last()) + " "@
    }
}

/// The first `k` lines, each numbered from 1.
pub open spec fn lines_display(lines: Seq<Seq<RawTok>>, k: int) -> Seq<char>
    decreases k,
{
    if k <= 0 {
        Seq::empty()
    } else {
        lines_display(lines, k - 1) + decimal(k) + ": "@ + line_display(lines[k - 1]) + "\n"@
    }
}

/// The listing of the tokens: a title, then each line numbered from 1.
pub open spec fn listing(lines: Seq<Seq<RawTok>>) -> Seq<char> {
    "=== ТОКЕНЫ ===\n\n"@ + lines_display(lines, lines.len() as int)
}

/// The listing that the debug mode saves for `tokens`.
pub fn tokens_listing(tokens: &Vec<Vec<RawToken>>) -> (s: String)
    requires
        tokens@.len() < i64::MAX,
    ensures
        s@ == listing(tokens.deep_view()),
{
    let ghost lines = tokens.deep_view();
    let mut s = String::from_str("=== ТОКЕНЫ ===\n\n");
    let mut i: usize = 0;
    while i < tokens.len()
        invariant
            lines == tokens.deep_view(),
            lines.len() < i64::MAX,
            i <= lines.len(),
            s@ == "=== ТОКЕНЫ ===\n\n"@ + lines_display(lines, i as int),
        decreases lines.len() - i,
    {
        let line = &tokens[i];
        let ghost l = line.deep_view();
        proof {
            assert(lines[i as int] == l);
        }
        let ghost head = s@;
        let n = int_text((i + 1) as i64);
        s.append(n.as_str());
        s.append(": ");
        let mut j: usize = 0;
        proof {
            assert(l.take(0) =~= Seq::<RawTok>::empty());
            assert(s@ =~= head + decimal(i + 1) + ": "@ + line_display(l.take(0)));
        }
        while j < line.len()
            invariant
                l == line.deep_view(),
                j <= l.len(),
                s@ == head + decimal(i + 1) + ": "@ + line_display(l.take(j as int)),
            decreases l.len() - j,
        {
            let t = format_token(&line[j]);
            s.append(t.as_str());
            s.append(" ");
            proof {
                assert(l.take(j + 1).drop_last() =~= l.take(j as int));
                assert(l.take(j + 1).last() == line@[j as int]@);
                assert(s@ =~= head + decimal(i + 1) + ": "@ + line_display(l.take(j + 1)));
            }
            j = j + 1;
        }
        s.append("\n");
        proof {
            assert(l.take(l.len() as int) =~= l);
            assert(s@ =~= "=== ТОКЕНЫ ===\n\n"@ + lines_display(lines, i + 1));
        }
        i = i + 1;
    }
    s
}

} // verus!
