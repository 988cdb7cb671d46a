//! The repeat count written in parentheses inside an instruction.
use vstd::prelude::*;
use crate::error::BooplError;
use crate::text::{alnum, is_alnum, parse_i32_chars, parse_i32_spec, lemma_parse_i32_range};

verus! {

/// `s` without its underscores.
pub open spec fn without_underscores(s: Seq<char>) -> Seq<char>
    decreases s.len(),
{
    if s.len() == 0 {
        Seq::empty()
    } else {
        let r = without_underscores(s.drop_last());
        if s.last() == '_' {
            r
        } else {
            r.push(s.last())
        }
    }
}

/// The count that the text `s` between parentheses gives, or the error message.
pub open spec fn paren_count(s: Seq<char>) -> Result<int, Seq<char>> {
    let c = without_underscores(s);
    if c.len() == 0 {
        Ok(1)
    } else if forall|i: int| 0 <= i < c.len() ==> is_alnum(#[trigger] c[i]) {
        match parse_i32_spec(c) {
            Ok(n) => Ok(n),
            Err(e) => Err("Ошибка парсинга '"@ + s + "' в число: "@ + e.spec_message()),
        }
    } else {
        Err("'"@ + s + "' содержит недопустимые символы"@)
    }
}

/// Reads the repeat count of an instruction from the characters that stood
/// between its parentheses: underscores are ignored, nothing at all means 1,
/// and otherwise the rest must be a decimal `i32`.
pub fn parentheses_process(str: &Vec<char>, line_n: i32) -> (r: Result<i32, BooplError>)
    ensures
        r matches Ok(n) ==> paren_count(str@) == Ok::<int, Seq<char>>(n as int),
        r matches Err(e) ==> paren_count(str@) == Err::<int, Seq<char>>(e.message@) && e.line
            == line_n && e.file is None,
{
    let mut cleaned: Vec<char> = Vec::new();
    let mut i: usize = 0;
    while i < str.len()
        invariant
            i <= str@.len(),
            cleaned@ == without_underscores(str@.take(i as int)),
        decreases str.len() - i,
    {
        proof {
            assert(str@.take(i + 1).drop_last() =~= str@.take(i as int));
        }
        if str[i] != '_' {
            cleaned.push(str[i]);
        }
        i = i + 1;
    }
    proof {
        assert(str@.take(i as int) =~= str@);
    }
    let s = crate::text::string_of(str, 0, str.len());
    proof {
        assert(str@.subrange(0, str@.len() as int) =~= str@);
    }
    if cleaned.len() == 0 {
        return Ok(1);
    }
    let mut j: usize = 0;
    while j < cleaned.len()
        invariant
            j <= cleaned@.len(),
            s@ == str@,
            cleaned@ == without_underscores(str@),
            forall|k: int| 0 <= k < j ==> is_alnum(#[trigger] cleaned@[k]),
        decreases cleaned.len() - j,
    {
        if !alnum(cleaned[j]) {
            let mut m = String::from_str("'");
            m.append(s.as_str());
            m.append("' содержит недопустимые символы");
            assert(!is_alnum(cleaned@[j as int]));
            assert(m@ =~= "'"@ + str@ + "' содержит недопустимые символы"@);
            return Err(BooplError::new(m, line_n));
        }
        j = j + 1;
    }
    proof {
        assert(cleaned@.subrange(0, cleaned@.len() as int) =~= cleaned@);
        lemma_parse_i32_range(cleaned@);
    }
    match parse_i32_chars(&cleaned, 0, cleaned.len()) {
        Ok(num) => Ok(num),
        Err(e) => {
            let mut m = String::from_str("Ошибка парсинга '");
            m.append(s.as_str());
            m.append("' в число: ");
            let t = e.message();
            m.append(t.as_str());
            assert(m@ =~= "Ошибка парсинга '"@ + str@ + "' в число: "@ + e.spec_message());
            Err(BooplError::new(m, line_n))
        },
    }
}

} // verus!
