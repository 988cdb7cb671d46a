//! The repeat count in parentheses, read on its own, without a line.
use vstd::prelude::*;
use crate::preprocessors::parentheses_preprocessor::without_underscores;
use crate::text::{alnum, is_alnum, parse_i32_chars, parse_i32_spec, lemma_parse_i32_range};

verus! {

/// The count that the text `s` between parentheses gives, or the error message.
pub open spec fn bare_paren_count(s: Seq<char>) -> Result<int, Seq<char>> {
    let c = without_underscores(s);
    if c.len() == 0 {
        Ok(1)
    } else if forall|i: int| 0 <= i < c.len() ==> is_alnum(#[trigger] c[i]) {
        match parse_i32_spec(c) {
            Ok(n) => Ok(n),
            Err(e) => Err("Ошибка парсинга '"@ + s + "' в число: "@ + e.spec_message()),
        }
    } else {
        Err("Ошибка: '"@ + s + "' содержит не ASCII-буквенно-цифровые символы"@)
    }
}

/// Reads the repeat count from the characters between parentheses:
/// underscores are ignored, nothing at all means 1, and otherwise the rest
/// must be ASCII letters and digits that read as a decimal `i32`.
pub fn parentheses_process(str: &Vec<char>) -> (r: Result<i32, String>)
    ensures
        r matches Ok(n) ==> bare_paren_count(str@) == Ok::<int, Seq<char>>(n as int),
        r matches Err(m) ==> bare_paren_count(str@) == Err::<int, Seq<char>>(m@),
{
    let mut cleaned: Vec<char> = Vec::new();
    let mut i: usize = 0;
    while i < str.len()
        invariant
            i <= str@.len(),
            cleaned@ == without_underscores(str@.take(i as int)),
        decreases str.len() - i,
    {
        proof {
            assert(str@.take(i + 1).drop_last() =~= str@.take(i as int));
        }
        if str[i] != '_' {
            cleaned.push(str[i]);
        }
        i = i + 1;
    }
    proof {
        assert(str@.take(i as int) =~= str@);
    }
    let s = crate::text::string_of(str, 0, str.len());
    proof {
        assert(str@.subrange(0, str@.len() as int) =~= str@);
    }
    if cleaned.len() == 0 {
        return Ok(1);
    }
    let mut j: usize = 0;
    while j < cleaned.len()
        invariant
            j <= cleaned@.len(),
            s@ == str@,
            cleaned@ == without_underscores(str@),
            forall|k: int| 0 <= k < j ==> is_alnum(#[trigger] cleaned@[k]),
        decreases cleaned.len() - j,
    {
        if !alnum(cleaned[j]) {
            let mut m = String::from_str("Ошибка: '");
            m.append(s.as_str());
            m.append("' содержит не ASCII-буквенно-цифровые символы");
            assert(!is_alnum(cleaned@[j as int]));
            assert(m@ =~= "Ошибка: '"@ + str@ + "' содержит не ASCII-буквенно-цифровые символы"@);
            return Err(m);
        }
        j = j + 1;
    }
    proof {
        assert(cleaned@.subrange(0, cleaned@.len() as int) =~= cleaned@);
        lemma_parse_i32_range(cleaned@);
    }
    match parse_i32_chars(&cleaned, 0, cleaned.len()) {
        Ok(num) => Ok(num),
        Err(e) => {
            let mut m = String::from_str("Ошибка парсинга '");
            m.append(s.as_str());
            m.append("' в число: ");
            let t = e.message();
            m.append(t.as_str());
            assert(m@ =~= "Ошибка парсинга '"@ + str@ + "' в число: "@ + e.spec_message());
            Err(m)
        },
    }
}

} // verus!
