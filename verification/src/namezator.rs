//! Renaming: every name becomes a number. Names are split at `_` into parts
//! (decimal parts read as numbers) and numbered in the order of a walk over
//! the tree of their parts that visits children in order and a node after
//! its children; names on the same node follow in text order.
use vstd::prelude::*;
use crate::name_map::{IdentNameMap, names_of};
use crate::text::{chars_of, parse_i32_chars, parse_i32_spec, string_of};
use crate::tokens::{RawToken, RawTok, Token, Tok, str_eq};
use crate::to_bytecode::names_known;
use std::collections::HashMap;

verus! {

/// One part of a name.
#[derive(Debug)]
pub enum NamePart {
    Text(String),
    Number(i32),
}

/// The value of a [`NamePart`].
pub enum Part {
    Text(Seq<char>),
    Number(int),
}

impl View for NamePart {
    type V = Part;

    open spec fn view(&self) -> Part {
        match self {
            NamePart::Text(s) => Part::Text(s@),
            NamePart::Number(n) => Part::Number(*n as int),
        }
    }
}

impl DeepView for NamePart {
    type V = Part;

    open spec fn deep_view(&self) -> Part {
        self@
    }
}

/// The text between underscores: `split('_')`, empty pieces included.
pub open spec fn segments(s: Seq<char>) -> Seq<Seq<char>>
    decreases s.len(),
{
    if s.len() == 0 {
        seq![Seq::empty()]
    } else {
        let segs = segments(s.drop_last());
        if s.last() == '_' {
            segs.push(Seq::empty())
        } else {
            segs.update(segs.len() - 1, segs.last().push(s.last()))
        }
    }
}

/// The part a piece stands for: an empty piece is `_`, a decimal one a number.
pub open spec fn part_of_segment(seg: Seq<char>) -> Part {
    if seg.len() == 0 {
        Part::Text("_"@)
    } else {
        match parse_i32_spec(seg) {
            Ok(n) => Part::Number(n),
            Err(_) => Part::Text(seg),
        }
    }
}

/// The parts of a name: its pieces, with `_` between each two.
pub open spec fn parts_of(name: Seq<char>) -> Seq<Part> {
    if name.len() == 0 {
        Seq::empty()
    } else {
        let segs = segments(name);
        Seq::new((2 * segs.len() - 1) as nat, |j: int|
            if j % 2 == 0 { part_of_segment(segs[j / 2]) } else { Part::Text("_"@) })
    }
}

/// The order of `String`s: character by character, a prefix first.
pub open spec fn text_lt(a: Seq<char>, b: Seq<char>) -> bool
    decreases a.len(),
{
    if b.len() == 0 {
        false
    } else if a.len() == 0 {
        true
    } else if a[0] != b[0] {
        (a[0] as int) < (b[0] as int)
    } else {
        text_lt(a.drop_first(), b.drop_first())
    }
}

/// The order of parts: texts before numbers.
pub open spec fn part_lt(a: Part, b: Part) -> bool {
    match (a, b) {
        (Part::Text(x), Part::Text(y)) => text_lt(x, y),
        (Part::Text(_), Part::Number(_)) => true,
        (Part::Number(_), Part::Text(_)) => false,
        (Part::Number(x), Part::Number(y)) => x < y,
    }
}

/// The walk visits the node at path `p` before the node at `q`: `p` lies
/// below `q`, or at the first place where they differ `p`'s part is smaller.
pub open spec fn path_before(p: Seq<Part>, q: Seq<Part>) -> bool
    decreases p.len(),
{
    if q.len() == 0 {
        p.len() > 0
    } else if p.len() == 0 {
        false
    } else if p[0] != q[0] {
        part_lt(p[0], q[0])
    } else {
        path_before(p.drop_first(), q.drop_first())
    }
}

/// The number of distinct paths among `ps[..k]` that the walk visits before `p`.
pub open spec fn paths_before(ps: Seq<Seq<Part>>, p: Seq<Part>, k: int) -> int
    decreases k,
{
    if k <= 0 {
        0
    } else {
        let q = ps[k - 1];
        paths_before(ps, p, k - 1) + if path_before(q, p) && !ps.take(k - 1).contains(q) { 1int } else { 0int }
    }
}

/// The number of names among `us[..k]` on the same path as `us[i]` and
/// before it in text order.
pub open spec fn same_path_before(us: Seq<Seq<char>>, i: int, k: int) -> int
    decreases k,
{
    if k <= 0 {
        0
    } else {
        same_path_before(us, i, k - 1) + if parts_of(us[k - 1]) == parts_of(us[i]) && text_lt(us[k - 1], us[i]) { 1int } else { 0int }
    }
}

/// The parts of each name of `us`.
pub open spec fn paths(us: Seq<Seq<char>>) -> Seq<Seq<Part>> {
    Seq::new(us.len(), |k: int| parts_of(us[k]))
}

/// The number the name `us[i]` gets among the distinct names `us`.
pub open spec fn name_id(us: Seq<Seq<char>>, i: int) -> int {
    paths_before(paths(us), parts_of(us[i]), us.len() as int) + same_path_before(us, i, us.len() as int)
}

/// Which kind of name a token carries.
#[derive(Clone, Copy, Debug)]
pub enum NameKind {
    Static,
    Dynamic,
    Var,
}

/// The name a token carries, if it is of kind `k`.
pub open spec fn name_of_kind(t: RawTok, k: NameKind) -> Option<Seq<char>> {
    match (t, k) {
        (RawTok::LabelP(s, _), NameKind::Static) => Some(s),
        (RawTok::LabelPD(s, _), NameKind::Dynamic) => Some(s),
        (RawTok::Number(s, _), NameKind::Var) => Some(s),
        _ => None,
    }
}

/// The names of kind `k` of a line, in order.
pub open spec fn line_names(line: Seq<RawTok>, k: NameKind) -> Seq<Seq<char>>
    decreases line.len(),
{
    if line.len() == 0 {
        Seq::empty()
    } else {
        let rest = line_names(line.drop_last(), k);
        match name_of_kind(line.last(), k) {
            Some(s) => rest.push(s),
            None => rest,
        }
    }
}

/// The names of kind `k`, in order, each once (where it first occurs).
pub open spec fn unique_names(lines: Seq<Seq<RawTok>>, k: NameKind) -> Seq<Seq<char>>
    decreases lines.len(),
{
    if lines.len() == 0 {
        Seq::empty()
    } else {
        add_new(unique_names(lines.drop_last(), k), line_names(lines.last(), k))
    }
}

/// `us` followed by those of `more` it does not hold yet.
pub open spec fn add_new(us: Seq<Seq<char>>, more: Seq<Seq<char>>) -> Seq<Seq<char>>
    decreases more.len(),
{
    if more.len() == 0 {
        us
    } else {
        let u = add_new(us, more.drop_last());
        if u.contains(more.last()) { u } else { u.push(more.last()) }
    }
}

/// The position of `name` in `us`, or -1.
pub open spec fn position(us: Seq<Seq<char>>, name: Seq<char>) -> int
    decreases us.len(),
{
    if us.len() == 0 {
        -1
    } else if us.last() == name {
        us.len() - 1
    } else {
        position(us.drop_last(), name)
    }
}

/// The number of a name of kind `k`.
pub open spec fn id_in(us: Seq<Seq<char>>, name: Seq<char>) -> int {
    name_id(us, position(us, name))
}

/// A token renamed.
pub open spec fn rename(t: RawTok, ups: Seq<Seq<char>>, upds: Seq<Seq<char>>, uns: Seq<Seq<char>>) -> Tok {
    match t {
        RawTok::Bool(b, l) => Tok::Bool(b, l),
        RawTok::Keyword(s, l) => Tok::Keyword(s, l),
        RawTok::Number(s, l) => Tok::Number(id_in(uns, s) as i32, l),
        RawTok::LabelP(s, l) => Tok::LabelP(id_in(ups, s) as i32, l),
        RawTok::LabelPD(s, l) => Tok::LabelPD(id_in(upds, s) as i32, l),
    }
}

/// The lines renamed, empty lines dropped.
pub open spec fn renamed_lines(lines: Seq<Seq<RawTok>>, ups: Seq<Seq<char>>, upds: Seq<Seq<char>>, uns: Seq<Seq<char>>) -> Seq<Seq<Tok>>
    decreases lines.len(),
{
    if lines.len() == 0 {
        Seq::empty()
    } else {
        let rest = renamed_lines(lines.drop_last(), ups, upds, uns);
        let l = lines.last();
        if l.len() == 0 {
            rest
        } else {
            rest.push(Seq::new(l.len(), |j: int| rename(l[j], ups, upds, uns)))
        }
    }
}

/// The table from numbers back to names: where numbers repeat, the later name.
pub open spec fn inverse(us: Seq<Seq<char>>, k: int) -> Map<i32, Seq<char>>
    decreases k,
{
    if k <= 0 {
        Map::empty()
    } else {
        inverse(us, k - 1).insert(name_id(us, k - 1) as i32, us[k - 1])
    }
}

/// The part that `cs[from..to]`, a piece without `_`, stands for.
fn segment_part(cs: &Vec<char>, from: usize, to: usize) -> (p: NamePart)
    requires
        from <= to <= cs@.len(),
    ensures
        p@ == part_of_segment(cs@.subrange(from as int, to as int)),
{
    if from == to {
        return NamePart::Text(String::from_str("_"));
    }
    match parse_i32_chars(cs, from, to) {
        Ok(n) => NamePart::Number(n),
        Err(_) => NamePart::Text(string_of(cs, from, to)),
    }
}

/// The parts of `name`: `split('_')`, each piece a number where it reads as
/// one, an empty piece `_`, and `_` between each two pieces.
pub fn parse_name(name: &str) -> (parts: Vec<NamePart>)
    ensures
        parts.deep_view() == parts_of(name@),
{
    let cs = chars_of(name);
    let mut parts: Vec<NamePart> = Vec::new();
    if cs.len() == 0 {
        proof {
            assert(parts.deep_view() =~= parts_of(name@));
        }
        return parts;
    }
    let ghost s = cs@;
    let mut start: usize = 0;
    let mut i: usize = 0;
    let ghost mut done: int = 0;
    proof {
        assert(s.take(0) =~= Seq::<char>::empty());
        assert(s.subrange(0, 0) =~= Seq::<char>::empty());
        assert(parts.deep_view() =~= Seq::new(0, |j: int|
            if j % 2 == 0 { part_of_segment(segments(s.take(0))[j / 2]) } else { Part::Text("_"@) }));
    }
    while i < cs.len()
        invariant
            s == cs@,
            s == name@,
            start <= i <= s.len(),
            0 <= done,
            segments(s.take(i as int)).len() == done + 1,
            segments(s.take(i as int)).last() == s.subrange(start as int, i as int),
            parts.deep_view() == Seq::new((2 * done) as nat, |j: int|
                if j % 2 == 0 { part_of_segment(segments(s.take(i as int))[j / 2]) } else { Part::Text("_"@) }),
        decreases s.len() - i,
    {
        let ghost segs = segments(s.take(i as int));
        proof {
            assert(s.take(i + 1).drop_last() =~= s.take(i as int));
            assert(s.take(i + 1).last() == s[i as int]);
        }
        if cs[i] == '_' {
            let ghost old_dv = parts.deep_view();
            let p = segment_part(&cs, start, i);
            let ghost pv = p@;
            parts.push(p);
            let sep = NamePart::Text(String::from_str("_"));
            let ghost sv = sep@;
            parts.push(sep);
            proof {
                assert(parts.deep_view() =~= old_dv.push(pv).push(sv));
                let nsegs = segments(s.take(i + 1));
                assert(nsegs == segs.push(Seq::empty()));
                assert(segs[done] == segs.last());
                assert(s.subrange(i + 1, i + 1) =~= Seq::<char>::empty());
                let target = Seq::new((2 * (done + 1)) as nat, |j: int|
                    if j % 2 == 0 { part_of_segment(nsegs[j / 2]) } else { Part::Text("_"@) });
                assert forall|j: int| 0 <= j < 2 * done implies #[trigger] parts.deep_view()[j] == target[j] by {
                    assert(old_dv[j] == parts.deep_view()[j]);
                    assert(j / 2 < done);
                    assert(nsegs[j / 2] == segs[j / 2]);
                }
                assert((2 * done) % 2 == 0 && (2 * done) / 2 == done);
                assert((2 * done + 1) % 2 == 1);
                assert(parts.deep_view()[2 * done] == target[2 * done]);
                assert(parts.deep_view()[2 * done + 1] == target[2 * done + 1]);
                assert(parts.deep_view() =~= target);
                done = done + 1;
            }
            start = i + 1;
        } else {
            proof {
                let nsegs = segments(s.take(i + 1));
                assert(nsegs == segs.update(segs.len() - 1, segs.last().push(s[i as int])));
                assert(s.subrange(start as int, i + 1) =~= s.subrange(start as int, i as int).push(s[i as int]));
                let target = Seq::new((2 * done) as nat, |j: int|
                    if j % 2 == 0 { part_of_segment(nsegs[j / 2]) } else { Part::Text("_"@) });
                assert forall|j: int| 0 <= j < 2 * done implies #[trigger] parts.deep_view()[j] == target[j] by {
                    assert(j / 2 < done);
                    assert(nsegs[j / 2] == segs[j / 2]);
                }
                assert(parts.deep_view() =~= target);
            }
        }
        i = i + 1;
    }
    let ghost old_dv = parts.deep_view();
    let p = segment_part(&cs, start, cs.len());
    let ghost pv = p@;
    parts.push(p);
    proof {
        assert(parts.deep_view() =~= old_dv.push(pv));
        assert(s.take(s.len() as int) =~= s);
        let segs = segments(s);
        assert(segs.len() == done + 1);
        assert(segs[done] == segs.last());
        let target = parts_of(name@);
        assert(target.len() == 2 * done + 1);
        assert forall|j: int| 0 <= j < 2 * done implies #[trigger] parts.deep_view()[j] == target[j] by {
            assert(old_dv[j] == parts.deep_view()[j]);
            assert(j / 2 < done);
        }
        assert((2 * done) % 2 == 0 && (2 * done) / 2 == done);
        assert(parts.deep_view()[2 * done] == target[2 * done]);
        assert(parts.deep_view() =~= target);
    }
    parts
}

/// The two parts are equal.
fn part_eq(a: &NamePart, b: &NamePart) -> (r: bool)
    ensures
        r == (a@ == b@),
{
    match (a, b) {
        (NamePart::Text(x), NamePart::Text(y)) => str_eq(x.as_str(), y.as_str()),
        (NamePart::Number(x), NamePart::Number(y)) => *x == *y,
        _ => false,
    }
}

/// `a < b` for strings.
pub fn text_less(a: &str, b: &str) -> (r: bool)
    ensures
        r == text_lt(a@, b@),
{
    let x = chars_of(a);
    let y = chars_of(b);
    let mut i: usize = 0;
    proof {
        assert(x@.skip(0) =~= x@);
        assert(y@.skip(0) =~= y@);
    }
    loop
        invariant
            x@ == a@,
            y@ == b@,
            i <= x@.len(),
            i <= y@.len(),
            text_lt(a@, b@) == text_lt(x@.skip(i as int), y@.skip(i as int)),
        decreases x@.len() - i,
    {
        if i == y.len() {
            return false;
        }
        if i == x.len() {
            return true;
        }
        proof {
            assert(x@.skip(i as int)[0] == x@[i as int]);
            assert(y@.skip(i as int)[0] == y@[i as int]);
            assert(x@.skip(i as int).drop_first() =~= x@.skip(i + 1));
            assert(y@.skip(i as int).drop_first() =~= y@.skip(i + 1));
        }
        let c = x[i];
        let d = y[i];
        if c != d {
            return c < d;
        }
        i = i + 1;
    }
}

/// The order of parts: texts before numbers.
fn part_less(a: &NamePart, b: &NamePart) -> (r: bool)
    ensures
        r == part_lt(a@, b@),
{
    match (a, b) {
        (NamePart::Text(x), NamePart::Text(y)) => text_less(x.as_str(), y.as_str()),
        (NamePart::Text(_), NamePart::Number(_)) => true,
        (NamePart::Number(_), NamePart::Text(_)) => false,
        (NamePart::Number(x), NamePart::Number(y)) => *x < *y,
    }
}

/// The two paths are equal.
fn path_eq(p: &Vec<NamePart>, q: &Vec<NamePart>) -> (r: bool)
    ensures
        r == (p.deep_view() == q.deep_view()),
{
    if p.len() != q.len() {
        assert(p.deep_view().len() != q.deep_view().len());
        return false;
    }
    let mut i: usize = 0;
    while i < p.len()
        invariant
            p@.len() == q@.len(),
            i <= p@.len(),
            forall|j: int| 0 <= j < i ==> p.deep_view()[j] == q.deep_view()[j],
        decreases p@.len() - i,
    {
        if !part_eq(&p[i], &q[i]) {
            assert(p.deep_view()[i as int] != q.deep_view()[i as int]);
            return false;
        }
        i = i + 1;
    }
    proof {
        assert(p.deep_view() =~= q.deep_view());
    }
    true
}

/// The walk visits the node of path `p` before that of `q`.
fn path_less(p: &Vec<NamePart>, q: &Vec<NamePart>) -> (r: bool)
    ensures
        r == path_before(p.deep_view(), q.deep_view()),
{
    let ghost pv = p.deep_view();
    let ghost qv = q.deep_view();
    let mut i: usize = 0;
    proof {
        assert(pv.skip(0) =~= pv);
        assert(qv.skip(0) =~= qv);
    }
    loop
        invariant
            pv == p.deep_view(),
            qv == q.deep_view(),
            i <= pv.len(),
            i <= qv.len(),
            path_before(pv, qv) == path_before(pv.skip(i as int), qv.skip(i as int)),
        decreases pv.len() - i,
    {
        if i == q.len() {
            return i < p.len();
        }
        if i == p.len() {
            return false;
        }
        proof {
            assert(pv.skip(i as int)[0] == pv[i as int]);
            assert(qv.skip(i as int)[0] == qv[i as int]);
            assert(pv.skip(i as int).drop_first() =~= pv.skip(i + 1));
            assert(qv.skip(i as int).drop_first() =~= qv.skip(i + 1));
        }
        if !part_eq(&p[i], &q[i]) {
            return part_less(&p[i], &q[i]);
        }
        i = i + 1;
    }
}

/// The number of each name of `names`, the names being distinct.
pub fn number_names(names: &Vec<String>) -> (ids: Vec<i32>)
    requires
        names@.len() <= 0x8000_0000,
    ensures
        ids@.len() == names@.len(),
        forall|i: int| 0 <= i < ids@.len() ==> ids@[i] as int == name_id(names.deep_view(), i),
{
    let ghost us = names.deep_view();
    let ghost ps = paths(us);
    let n = names.len();
    let mut parts: Vec<Vec<NamePart>> = Vec::new();
    let mut k: usize = 0;
    while k < n
        invariant
            n == names@.len(),
            us == names.deep_view(),
            ps == paths(us),
            k <= n,
            parts@.len() == k,
            forall|j: int| 0 <= j < k ==> #[trigger] parts@[j].deep_view() == ps[j],
        decreases n - k,
    {
        let p = parse_name(names[k].as_str());
        parts.push(p);
        k = k + 1;
    }
    let mut first: Vec<bool> = Vec::new();
    k = 0;
    while k < n
        invariant
            n == names@.len(),
            ps == paths(us),
            ps.len() == n,
            k <= n,
            parts@.len() == n,
            forall|j: int| 0 <= j < n ==> #[trigger] parts@[j].deep_view() == ps[j],
            first@.len() == k,
            forall|j: int| 0 <= j < k ==> #[trigger] first@[j] == !ps.take(j).contains(ps[j]),
        decreases n - k,
    {
        let mut found = false;
        let mut j: usize = 0;
        while j < k
            invariant
                k < n,
                ps.len() == n,
                parts@.len() == n,
                forall|jj: int| 0 <= jj < n ==> #[trigger] parts@[jj].deep_view() == ps[jj],
                j <= k,
                found == exists|jj: int| 0 <= jj < j && ps[jj] == ps[k as int],
            decreases k - j,
        {
            if path_eq(&parts[j], &parts[k]) {
                found = true;
            }
            j = j + 1;
        }
        proof {
            let t = ps.take(k as int);
            if found {
                let w = choose|jj: int| 0 <= jj < k && ps[jj] == ps[k as int];
                assert(t[w] == ps[k as int]);
            }
            if t.contains(ps[k as int]) {
                let w = choose|jj: int| 0 <= jj < t.len() && t[jj] == ps[k as int];
                assert(ps[w] == ps[k as int]);
            }
        }
        first.push(!found);
        k = k + 1;
    }
    let mut ids: Vec<i32> = Vec::new();
    let mut i: usize = 0;
    while i < n
        invariant
            n == names@.len(),
            n <= 0x8000_0000,
            us == names.deep_view(),
            ps == paths(us),
            ps.len() == n,
            i <= n,
            parts@.len() == n,
            forall|j: int| 0 <= j < n ==> #[trigger] parts@[j].deep_view() == ps[j],
            first@.len() == n,
            forall|j: int| 0 <= j < n ==> #[trigger] first@[j] == !ps.take(j).contains(ps[j]),
            ids@.len() == i,
            forall|j: int| 0 <= j < i ==> ids@[j] as int == name_id(us, j),
        decreases n - i,
    {
        let mut before: u64 = 0;
        let mut same: u64 = 0;
        let mut kk: usize = 0;
        while kk < n
            invariant
                n == names@.len(),
                n <= 0x8000_0000,
                us == names.deep_view(),
                ps == paths(us),
                ps.len() == n,
                i < n,
                kk <= n,
                parts@.len() == n,
                forall|j: int| 0 <= j < n ==> #[trigger] parts@[j].deep_view() == ps[j],
                first@.len() == n,
                forall|j: int| 0 <= j < n ==> #[trigger] first@[j] == !ps.take(j).contains(ps[j]),
                before <= kk,
                same <= kk,
                before as int == paths_before(ps, ps[i as int], kk as int),
                same as int == same_path_before(us, i as int, kk as int),
            decreases n - kk,
        {
            if first[kk] && path_less(&parts[kk], &parts[i]) {
                before = before + 1;
            }
            proof {
                assert(ps[kk as int] == parts_of(us[kk as int]));
                assert(ps[i as int] == parts_of(us[i as int]));
                assert(us[kk as int] == names@[kk as int]@);
                assert(us[i as int] == names@[i as int]@);
            }
            if path_eq(&parts[kk], &parts[i]) && text_less(names[kk].as_str(), names[i].as_str()) {
                same = same + 1;
            }
            kk = kk + 1;
        }
        proof {
            lemma_id_count(us, i as int, n as int);
            assert(ps[i as int] == parts_of(us[i as int]));
        }
        ids.push((before + same) as i32);
        i = i + 1;
    }
    ids
}

/// The name a token carries, if it is of kind `kind`.
fn name_of(t: &RawToken, kind: NameKind) -> (r: Option<&String>)
    ensures
        r matches Some(s) ==> name_of_kind(t@, kind) == Some(s@),
        r is None ==> name_of_kind(t@, kind) is None,
{
    match (t, kind) {
        (RawToken::LabelP(s, _), NameKind::Static) => Some(s),
        (RawToken::LabelPD(s, _), NameKind::Dynamic) => Some(s),
        (RawToken::Number(s, _), NameKind::Var) => Some(s),
        _ => None,
    }
}

/// `names` holds `name`.
fn holds_name(names: &Vec<String>, name: &str) -> (r: bool)
    ensures
        r == names.deep_view().contains(name@),
{
    let mut i: usize = 0;
    while i < names.len()
        invariant
            i <= names@.len(),
            forall|j: int| 0 <= j < i ==> names.deep_view()[j] != name@,
        decreases names@.len() - i,
    {
        if str_eq(names[i].as_str(), name) {
            assert(names.deep_view()[i as int] == name@);
            return true;
        }
        i = i + 1;
    }
    false
}

/// The names of kind `kind` in `raw_tokens`, in order, each once.
pub fn extract_names(raw_tokens: &Vec<Vec<RawToken>>, kind: NameKind) -> (names: Vec<String>)
    ensures
        names.deep_view() == unique_names(raw_tokens.deep_view(), kind),
{
    let ghost lines = raw_tokens.deep_view();
    let mut names: Vec<String> = Vec::new();
    let mut i: usize = 0;
    proof {
        assert(lines.take(0) =~= Seq::<Seq<RawTok>>::empty());
        assert(names.deep_view() =~= unique_names(lines.take(0), kind));
    }
    while i < raw_tokens.len()
        invariant
            lines == raw_tokens.deep_view(),
            i <= lines.len(),
            names.deep_view() == unique_names(lines.take(i as int), kind),
        decreases lines.len() - i,
    {
        let line = &raw_tokens[i];
        let ghost l = line.deep_view();
        let ghost before = unique_names(lines.take(i as int), kind);
        let mut j: usize = 0;
        proof {
            assert(l.take(0) =~= Seq::<RawTok>::empty());
        }
        while j < line.len()
            invariant
                l == line.deep_view(),
                j <= l.len(),
                names.deep_view() == add_new(before, line_names(l.take(j as int), kind)),
            decreases l.len() - j,
        {
            proof {
                assert(l.take(j + 1).drop_last() =~= l.take(j as int));
                assert(l.take(j + 1).last() == l[j as int]);
            }
            let ghost more = line_names(l.take(j as int), kind);
            match name_of(&line[j], kind) {
                Some(name) => {
                    proof {
                        assert(line_names(l.take(j + 1), kind) == more.push(name@));
                        assert(more.push(name@).drop_last() =~= more);
                    }
                    if !holds_name(&names, name.as_str()) {
                        let ghost old_dv = names.deep_view();
                        names.push(name.clone());
                        proof {
                            assert(names.deep_view() =~= old_dv.push(name@));
                        }
                    }
                },
                None => {},
            }
            j = j + 1;
        }
        proof {
            assert(l.take(l.len() as int) =~= l);
            assert(lines.take(i + 1).drop_last() =~= lines.take(i as int));
            assert(lines.take(i + 1).last() == l);
        }
        i = i + 1;
    }
    proof {
        assert(lines.take(lines.len() as int) =~= lines);
    }
    names
}

proof fn lemma_add_new_keeps(us: Seq<Seq<char>>, more: Seq<Seq<char>>, x: Seq<char>)
    requires
        us.contains(x),
    ensures
        add_new(us, more).contains(x),
    decreases more.len(),
{
    if more.len() > 0 {
        lemma_add_new_keeps(us, more.drop_last(), x);
        let u = add_new(us, more.drop_last());
        let w = choose|i: int| 0 <= i < u.len() && u[i] == x;
        assert(u.push(more.last())[w] == x);
    }
}

proof fn lemma_add_new_has(us: Seq<Seq<char>>, more: Seq<Seq<char>>, j: int)
    requires
        0 <= j < more.len(),
    ensures
        add_new(us, more).contains(more[j]),
    decreases more.len(),
{
    let u = add_new(us, more.drop_last());
    if j == more.len() - 1 {
        assert(u.push(more.last())[u.len() as int] == more.last());
    } else {
        lemma_add_new_has(us, more.drop_last(), j);
        assert(more.drop_last()[j] == more[j]);
        let w = choose|i: int| 0 <= i < u.len() && u[i] == more[j];
        assert(u.push(more.last())[w] == more[j]);
    }
}

proof fn lemma_line_names_has(line: Seq<RawTok>, k: NameKind, j: int)
    requires
        0 <= j < line.len(),
        name_of_kind(line[j], k) is Some,
    ensures
        line_names(line, k).contains(name_of_kind(line[j], k)->0),
    decreases line.len(),
{
    let rest = line_names(line.drop_last(), k);
    if j == line.len() - 1 {
        assert(rest.push(name_of_kind(line[j], k)->0)[rest.len() as int] == name_of_kind(line[j], k)->0);
    } else {
        assert(line.drop_last()[j] == line[j]);
        lemma_line_names_has(line.drop_last(), k, j);
        let x = name_of_kind(line[j], k)->0;
        let w = choose|i: int| 0 <= i < rest.len() && rest[i] == x;
        match name_of_kind(line.last(), k) {
            Some(s) => { assert(rest.push(s)[w] == x); },
            None => {},
        }
    }
}

/// Every name of kind `k` in the lines is among their unique names.
proof fn lemma_unique_has(lines: Seq<Seq<RawTok>>, k: NameKind, i: int, j: int)
    requires
        0 <= i < lines.len(),
        0 <= j < lines[i].len(),
        name_of_kind(lines[i][j], k) is Some,
    ensures
        unique_names(lines, k).contains(name_of_kind(lines[i][j], k)->0),
    decreases lines.len(),
{
    let x = name_of_kind(lines[i][j], k)->0;
    let before = unique_names(lines.drop_last(), k);
    let more = line_names(lines.last(), k);
    if i == lines.len() - 1 {
        lemma_line_names_has(lines.last(), k, j);
        let w = choose|m: int| 0 <= m < more.len() && more[m] == x;
        lemma_add_new_has(before, more, w);
    } else {
        assert(lines.drop_last()[i] == lines[i]);
        lemma_unique_has(lines.drop_last(), k, i, j);
        lemma_add_new_keeps(before, more, x);
    }
}

proof fn lemma_position(us: Seq<Seq<char>>, name: Seq<char>)
    ensures
        -1 <= position(us, name) < us.len(),
        position(us, name) >= 0 ==> us[position(us, name)] == name,
        us.contains(name) ==> position(us, name) >= 0,
    decreases us.len(),
{
    if us.len() > 0 {
        lemma_position(us.drop_last(), name);
        if us.contains(name) && us.last() != name {
            let w = choose|i: int| 0 <= i < us.len() && us[i] == name;
            assert(us.drop_last()[w] == name);
        }
    }
}

proof fn lemma_inverse_has(us: Seq<Seq<char>>, k: int, p: int)
    requires
        0 <= p < k <= us.len(),
    ensures
        inverse(us, k).contains_key(name_id(us, p) as i32),
    decreases k,
{
    if p < k - 1 {
        lemma_inverse_has(us, k - 1, p);
    }
}

/// The position of `name` in `names`, looked for from the end.
fn find_name(names: &Vec<String>, name: &str) -> (r: Option<usize>)
    ensures
        r matches Some(p) ==> p as int == position(names.deep_view(), name@),
        r is None ==> position(names.deep_view(), name@) == -1,
{
    let ghost us = names.deep_view();
    let mut i: usize = names.len();
    proof {
        assert(us.take(us.len() as int) =~= us);
    }
    while i > 0
        invariant
            us == names.deep_view(),
            i <= us.len(),
            position(us, name@) == position(us.take(i as int), name@),
        decreases i,
    {
        let ghost t = us.take(i as int);
        proof {
            assert(t.last() == us[i - 1]);
            assert(t.drop_last() =~= us.take(i - 1));
        }
        if str_eq(names[i - 1].as_str(), name) {
            return Some(i - 1);
        }
        i = i - 1;
    }
    None
}

/// A table from each name's number to the name; where numbers repeat,
/// the later name.
fn id_table(names: &Vec<String>, ids: &Vec<i32>) -> (m: HashMap<i32, String>)
    requires
        ids@.len() == names@.len(),
        forall|i: int| 0 <= i < ids@.len() ==> ids@[i] as int == name_id(names.deep_view(), i),
    ensures
        names_of(m@) == inverse(names.deep_view(), names@.len() as int),
{
    let ghost us = names.deep_view();
    let mut m: HashMap<i32, String> = HashMap::new();
    let mut k: usize = 0;
    proof {
        assert(names_of(m@) =~= inverse(us, 0));
    }
    while k < names.len()
        invariant
            us == names.deep_view(),
            ids@.len() == names@.len(),
            forall|i: int| 0 <= i < ids@.len() ==> ids@[i] as int == name_id(us, i),
            k <= names@.len(),
            names_of(m@) == inverse(us, k as int),
        decreases names@.len() - k,
    {
        let ghost before = m@;
        m.insert(ids[k], names[k].clone());
        proof {
            assert(us[k as int] == names@[k as int]@);
            assert(names_of(m@) =~= names_of(before).insert(ids@[k as int], us[k as int]));
        }
        k = k + 1;
    }
    m
}

/// The number of `name`, one of the distinct `names` numbered `ids`.
fn renamed_id(names: &Vec<String>, ids: &Vec<i32>, name: &str) -> (id: i32)
    requires
        ids@.len() == names@.len(),
        forall|i: int| 0 <= i < ids@.len() ==> ids@[i] as int == name_id(names.deep_view(), i),
        names.deep_view().contains(name@),
    ensures
        id as int == id_in(names.deep_view(), name@),
        id == id_in(names.deep_view(), name@) as i32,
        0 <= position(names.deep_view(), name@) < names@.len(),
{
    proof {
        lemma_position(names.deep_view(), name@);
    }
    match find_name(names, name) {
        Some(p) => ids[p],
        None => 0,
    }
}

/// What [`namezating`] makes of the lines.
pub open spec fn namezated(lines: Seq<Seq<RawTok>>) -> Seq<Seq<Tok>> {
    renamed_lines(lines, unique_names(lines, NameKind::Static), unique_names(lines, NameKind::Dynamic),
        unique_names(lines, NameKind::Var))
}

/// The table from numbers to names of kind `k` that [`namezating`] builds.
pub open spec fn name_table(lines: Seq<Seq<RawTok>>, k: NameKind) -> Map<i32, Seq<char>> {
    inverse(unique_names(lines, k), unique_names(lines, k).len() as int)
}

/// Replaces every name by its number, each kind of name numbered apart,
/// drops the lines left empty, and gives the tables from the numbers back
/// to the names.
pub fn namezating(raw_tokens: Vec<Vec<RawToken>>) -> (r: (Vec<Vec<Token>>, IdentNameMap))
    requires
        unique_names(raw_tokens.deep_view(), NameKind::Static).len() <= 0x8000_0000,
        unique_names(raw_tokens.deep_view(), NameKind::Dynamic).len() <= 0x8000_0000,
        unique_names(raw_tokens.deep_view(), NameKind::Var).len() <= 0x8000_0000,
    ensures
        r.0.deep_view() == namezated(raw_tokens.deep_view()),
        r.1@.p == name_table(raw_tokens.deep_view(), NameKind::Static),
        r.1@.pd == name_table(raw_tokens.deep_view(), NameKind::Dynamic),
        r.1@.n == name_table(raw_tokens.deep_view(), NameKind::Var),
        forall|i: int| 0 <= i < r.0@.len() ==> names_known(r.1@, #[trigger] r.0.deep_view()[i]),
{
    let ghost lines = raw_tokens.deep_view();
    let names_p = extract_names(&raw_tokens, NameKind::Static);
    let names_pd = extract_names(&raw_tokens, NameKind::Dynamic);
    let names_n = extract_names(&raw_tokens, NameKind::Var);
    let ghost ups = names_p.deep_view();
    let ghost upds = names_pd.deep_view();
    let ghost uns = names_n.deep_view();
    let ids_p = number_names(&names_p);
    let ids_pd = number_names(&names_pd);
    let ids_n = number_names(&names_n);
    let mut ident_name_map = IdentNameMap::new();
    ident_name_map.load_p(id_table(&names_p, &ids_p));
    ident_name_map.load_pd(id_table(&names_pd, &ids_pd));
    ident_name_map.load_n(id_table(&names_n, &ids_n));
    let ghost m = ident_name_map@;
    let mut result: Vec<Vec<Token>> = Vec::new();
    let mut i: usize = 0;
    proof {
        assert(lines.take(0) =~= Seq::<Seq<RawTok>>::empty());
        assert(result.deep_view() =~= Seq::<Seq<Tok>>::empty());
    }
    while i < raw_tokens.len()
        invariant
            lines == raw_tokens.deep_view(),
            ups == names_p.deep_view(),
            upds == names_pd.deep_view(),
            uns == names_n.deep_view(),
            ups == unique_names(lines, NameKind::Static),
            upds == unique_names(lines, NameKind::Dynamic),
            uns == unique_names(lines, NameKind::Var),
            ids_p@.len() == names_p@.len(),
            forall|k: int| 0 <= k < ids_p@.len() ==> ids_p@[k] as int == name_id(ups, k),
            ids_pd@.len() == names_pd@.len(),
            forall|k: int| 0 <= k < ids_pd@.len() ==> ids_pd@[k] as int == name_id(upds, k),
            ids_n@.len() == names_n@.len(),
            forall|k: int| 0 <= k < ids_n@.len() ==> ids_n@[k] as int == name_id(uns, k),
            m == ident_name_map@,
            m.p == inverse(ups, ups.len() as int),
            m.pd == inverse(upds, upds.len() as int),
            m.n == inverse(uns, uns.len() as int),
            i <= lines.len(),
            result.deep_view() == renamed_lines(lines.take(i as int), ups, upds, uns),
            forall|k: int| 0 <= k < result@.len() ==> names_known(m, #[trigger] result.deep_view()[k]),
        decreases lines.len() - i,
    {
        let line = &raw_tokens[i];
        let ghost l = line.deep_view();
        proof {
            assert(lines[i as int] == l);
        }
        let mut converted: Vec<Token> = Vec::new();
        let mut j: usize = 0;
        while j < line.len()
            invariant
                lines == raw_tokens.deep_view(),
                0 <= i < lines.len(),
                lines[i as int] == l,
                l == line.deep_view(),
                ups == names_p.deep_view(),
                upds == names_pd.deep_view(),
                uns == names_n.deep_view(),
                ups == unique_names(lines, NameKind::Static),
                upds == unique_names(lines, NameKind::Dynamic),
                uns == unique_names(lines, NameKind::Var),
                ids_p@.len() == names_p@.len(),
                forall|k: int| 0 <= k < ids_p@.len() ==> ids_p@[k] as int == name_id(ups, k),
                ids_pd@.len() == names_pd@.len(),
                forall|k: int| 0 <= k < ids_pd@.len() ==> ids_pd@[k] as int == name_id(upds, k),
                ids_n@.len() == names_n@.len(),
                forall|k: int| 0 <= k < ids_n@.len() ==> ids_n@[k] as int == name_id(uns, k),
                m.p == inverse(ups, ups.len() as int),
                m.pd == inverse(upds, upds.len() as int),
                m.n == inverse(uns, uns.len() as int),
                j <= l.len(),
                converted.deep_view() == Seq::new(j as nat, |k: int| rename(l[k], ups, upds, uns)),
                names_known(m, converted.deep_view()),
            decreases l.len() - j,
        {
            let ghost before = converted.deep_view();
            let t = match &line[j] {
                RawToken::Bool(b, n) => Token::Bool(*b, *n),
                RawToken::Keyword(k, n) => Token::Keyword(k.clone(), *n),
                RawToken::Number(name, n) => {
                    proof {
                        lemma_unique_has(lines, NameKind::Var, i as int, j as int);
                    }
                    let id = renamed_id(&names_n, &ids_n, name.as_str());
                    proof {
                        lemma_inverse_has(uns, uns.len() as int, position(uns, name@));
                    }
                    Token::Number(id, *n)
                },
                RawToken::LabelP(name, n) => {
                    proof {
                        lemma_unique_has(lines, NameKind::Static, i as int, j as int);
                    }
                    let id = renamed_id(&names_p, &ids_p, name.as_str());
                    proof {
                        lemma_inverse_has(ups, ups.len() as int, position(ups, name@));
                    }
                    Token::LabelP(id, *n)
                },
                RawToken::LabelPD(name, n) => {
                    proof {
                        lemma_unique_has(lines, NameKind::Dynamic, i as int, j as int);
                    }
                    let id = renamed_id(&names_pd, &ids_pd, name.as_str());
                    proof {
                        lemma_inverse_has(upds, upds.len() as int, position(upds, name@));
                    }
                    Token::LabelPD(id, *n)
                },
            };
            let ghost tv = t@;
            converted.push(t);
            proof {
                assert(tv == rename(l[j as int], ups, upds, uns));
                assert(converted.deep_view() =~= before.push(tv));
                assert(converted.deep_view() =~= Seq::new((j + 1) as nat, |k: int| rename(l[k], ups, upds, uns)));
                assert forall|k: int| 0 <= k < converted.deep_view().len() implies match #[trigger] converted.deep_view()[k] {
                    Tok::Number(n, _) => m.n.contains_key(n),
                    Tok::LabelP(n, _) => m.p.contains_key(n),
                    Tok::LabelPD(n, _) => m.pd.contains_key(n),
                    _ => true,
                } by {
                    if k < j {
                        assert(converted.deep_view()[k] == before[k]);
                    }
                }
            }
            j = j + 1;
        }
        proof {
            assert(lines.take(i + 1).drop_last() =~= lines.take(i as int));
            assert(lines.take(i + 1).last() == l);
            assert(converted.deep_view() =~= Seq::new(l.len(), |k: int| rename(l[k], ups, upds, uns)));
        }
        if converted.len() > 0 {
            let ghost before = result.deep_view();
            let ghost cv = converted.deep_view();
            result.push(converted);
            proof {
                assert(result.deep_view() =~= before.push(cv));
            }
        }
        i = i + 1;
    }
    proof {
        assert(lines.take(lines.len() as int) =~= lines);
    }
    (result, ident_name_map)
}


proof fn lemma_text_irreflexive(a: Seq<char>)
    ensures
        !text_lt(a, a),
    decreases a.len(),
{
    if a.len() > 0 {
        lemma_text_irreflexive(a.drop_first());
    }
}

proof fn lemma_text_transitive(a: Seq<char>, b: Seq<char>, c: Seq<char>)
    requires
        text_lt(a, b),
        text_lt(b, c),
    ensures
        text_lt(a, c),
    decreases a.len(),
{
    if a.len() > 0 && b.len() > 0 && c.len() > 0 && a[0] == b[0] && b[0] == c[0] {
        lemma_text_transitive(a.drop_first(), b.drop_first(), c.drop_first());
    }
}

proof fn lemma_text_total(a: Seq<char>, b: Seq<char>)
    requires
        a != b,
    ensures
        text_lt(a, b) || text_lt(b, a),
    decreases a.len(),
{
    if a.len() > 0 && b.len() > 0 {
        if a[0] == b[0] {
            assert(a =~= seq![a[0]] + a.drop_first());
            assert(b =~= seq![b[0]] + b.drop_first());
            lemma_text_total(a.drop_first(), b.drop_first());
        } else {
            assert(a[0] as int != b[0] as int);
        }
    } else if a.len() == 0 && b.len() == 0 {
        assert(a =~= b);
    }
}

proof fn lemma_part_irreflexive(a: Part)
    ensures
        !part_lt(a, a),
{
    match a {
        Part::Text(x) => lemma_text_irreflexive(x),
        Part::Number(_) => {},
    }
}

proof fn lemma_part_transitive(a: Part, b: Part, c: Part)
    requires
        part_lt(a, b),
        part_lt(b, c),
    ensures
        part_lt(a, c),
{
    match (a, b, c) {
        (Part::Text(x), Part::Text(y), Part::Text(z)) => lemma_text_transitive(x, y, z),
        _ => {},
    }
}

proof fn lemma_part_total(a: Part, b: Part)
    requires
        a != b,
    ensures
        part_lt(a, b) || part_lt(b, a),
{
    match (a, b) {
        (Part::Text(x), Part::Text(y)) => lemma_text_total(x, y),
        _ => {},
    }
}

proof fn lemma_path_irreflexive(p: Seq<Part>)
    ensures
        !path_before(p, p),
    decreases p.len(),
{
    if p.len() > 0 {
        lemma_path_irreflexive(p.drop_first());
    }
}

proof fn lemma_path_transitive(p: Seq<Part>, q: Seq<Part>, r: Seq<Part>)
    requires
        path_before(p, q),
        path_before(q, r),
    ensures
        path_before(p, r),
    decreases p.len(),
{
    if r.len() > 0 && q.len() > 0 && p.len() > 0 {
        if p[0] != q[0] {
            if q[0] != r[0] {
                lemma_part_transitive(p[0], q[0], r[0]);
                if p[0] == r[0] {
                    lemma_part_transitive(p[0], q[0], p[0]);
                    lemma_part_irreflexive(p[0]);
                }
            }
        } else if q[0] != r[0] {
        } else {
            lemma_path_transitive(p.drop_first(), q.drop_first(), r.drop_first());
        }
    }
}

proof fn lemma_path_total(p: Seq<Part>, q: Seq<Part>)
    requires
        p != q,
    ensures
        path_before(p, q) || path_before(q, p),
    decreases p.len(),
{
    if p.len() > 0 && q.len() > 0 {
        if p[0] != q[0] {
            lemma_part_total(p[0], q[0]);
        } else {
            assert(p =~= seq![p[0]] + p.drop_first());
            assert(q =~= seq![q[0]] + q.drop_first());
            lemma_path_total(p.drop_first(), q.drop_first());
        }
    } else if p.len() == 0 && q.len() == 0 {
        assert(p =~= q);
    }
}

proof fn lemma_paths_before_bounds(ps: Seq<Seq<Part>>, p: Seq<Part>, k: int)
    ensures
        0 <= paths_before(ps, p, k),
        k >= 0 ==> paths_before(ps, p, k) <= k,
    decreases k,
{
    if k > 0 {
        lemma_paths_before_bounds(ps, p, k - 1);
    }
}

proof fn lemma_same_path_bounds(us: Seq<Seq<char>>, i: int, k: int)
    ensures
        0 <= same_path_before(us, i, k),
        k >= 0 ==> same_path_before(us, i, k) <= k,
    decreases k,
{
    if k > 0 {
        lemma_same_path_bounds(us, i, k - 1);
    }
}

/// Counting the paths before `q` counts no more than before `p` when all
/// that comes before `q` comes before `p`, and fewer when `q` itself is
/// among them and comes before `p`.
proof fn lemma_paths_before_less(ps: Seq<Seq<Part>>, q: Seq<Part>, p: Seq<Part>, k: int)
    requires
        path_before(q, p),
        0 <= k <= ps.len(),
    ensures
        paths_before(ps, q, k) <= paths_before(ps, p, k),
        ps.take(k).contains(q) ==> paths_before(ps, q, k) < paths_before(ps, p, k),
    decreases k,
{
    if k > 0 {
        lemma_paths_before_less(ps, q, p, k - 1);
        let r = ps[k - 1];
        if path_before(r, q) {
            lemma_path_transitive(r, q, p);
        }
        if r == q {
            lemma_path_irreflexive(q);
        }
        let tk = ps.take(k);
        let tk1 = ps.take(k - 1);
        if tk.contains(q) && !tk1.contains(q) {
            let j = choose|j: int| 0 <= j < tk.len() && tk[j] == q;
            if j < k - 1 {
                assert(tk1[j] == q);
            }
            assert(r == q);
        }
        if tk1.contains(q) {
            let j = choose|j: int| 0 <= j < tk1.len() && tk1[j] == q;
            assert(tk[j] == q);
        }
    }
}

proof fn lemma_same_path_zero(us: Seq<Seq<char>>, i: int, k: int)
    requires
        0 <= i < us.len(),
        k <= us.len(),
        forall|a: int, b: int| 0 <= a < us.len() && 0 <= b < us.len() && a != b ==> parts_of(us[a]) != parts_of(us[b]),
    ensures
        same_path_before(us, i, k) == 0,
    decreases k,
{
    if k > 0 {
        lemma_same_path_zero(us, i, k - 1);
        lemma_text_irreflexive(us[i]);
    }
}

/// The numbers of names that split into distinct parts are distinct and
/// lie in `0..` twice the number of names.
proof fn lemma_ids_distinct(us: Seq<Seq<char>>, i: int, j: int)
    requires
        0 <= i < us.len(),
        0 <= j < us.len(),
        i != j,
        forall|a: int, b: int| 0 <= a < us.len() && 0 <= b < us.len() && a != b ==> parts_of(us[a]) != parts_of(us[b]),
    ensures
        name_id(us, i) != name_id(us, j),
{
    let ps = paths(us);
    let p = parts_of(us[i]);
    let q = parts_of(us[j]);
    lemma_same_path_zero(us, i, us.len() as int);
    lemma_same_path_zero(us, j, us.len() as int);
    lemma_path_total(p, q);
    assert(ps.take(us.len() as int) =~= ps);
    assert(ps[i] == p);
    assert(ps[j] == q);
    if path_before(q, p) {
        lemma_paths_before_less(ps, q, p, us.len() as int);
    } else {
        lemma_paths_before_less(ps, p, q, us.len() as int);
    }
}

/// Among the first `k` names, each counts at most once towards the number of
/// `us[i]`, and `us[i]` itself not at all.
proof fn lemma_id_count(us: Seq<Seq<char>>, i: int, k: int)
    requires
        0 <= i < us.len(),
        0 <= k <= us.len(),
    ensures
        0 <= paths_before(paths(us), parts_of(us[i]), k),
        0 <= same_path_before(us, i, k),
        paths_before(paths(us), parts_of(us[i]), k) + same_path_before(us, i, k) + (if i < k { 1int } else { 0int }) <= k,
    decreases k,
{
    if k > 0 {
        lemma_id_count(us, i, k - 1);
        let ps = paths(us);
        let p = parts_of(us[i]);
        assert(ps[k - 1] == parts_of(us[k - 1]));
        lemma_path_irreflexive(p);
        lemma_text_irreflexive(us[i]);
    }
}

/// The number of a name lies in `0..` the number of names.
proof fn lemma_id_range(us: Seq<Seq<char>>, i: int)
    requires
        0 <= i < us.len(),
    ensures
        0 <= name_id(us, i) < us.len(),
{
    lemma_id_count(us, i, us.len() as int);
}

proof fn lemma_inverse_gives_back(us: Seq<Seq<char>>, k: int, i: int)
    requires
        0 <= i < k <= us.len(),
        us.len() <= 0x8000_0000,
        forall|a: int, b: int| 0 <= a < us.len() && 0 <= b < us.len() && a != b ==> parts_of(us[a]) != parts_of(us[b]),
    ensures
        inverse(us, k).contains_key(name_id(us, i) as i32),
        inverse(us, k)[name_id(us, i) as i32] == us[i],
    decreases k,
{
    if i < k - 1 {
        lemma_inverse_gives_back(us, k - 1, i);
        lemma_ids_distinct(us, i, k - 1);
        lemma_id_range(us, i);
        lemma_id_range(us, k - 1);
    }
}

/// When no two names of kind `k` split into the same parts, distinct names
/// get distinct numbers, and the table that [`namezating`] builds gives each
/// name back from its number.
pub proof fn law_numbers_name_back(lines: Seq<Seq<RawTok>>, k: NameKind, s: Seq<char>, t: Seq<char>)
    requires
        unique_names(lines, k).len() <= 0x8000_0000,
        forall|a: int, b: int| 0 <= a < unique_names(lines, k).len() && 0 <= b < unique_names(lines, k).len() && a != b
            ==> parts_of(#[trigger] unique_names(lines, k)[a]) != parts_of(#[trigger] unique_names(lines, k)[b]),
        unique_names(lines, k).contains(s),
        unique_names(lines, k).contains(t),
    ensures
        name_table(lines, k).contains_key(id_in(unique_names(lines, k), s) as i32),
        name_table(lines, k)[id_in(unique_names(lines, k), s) as i32] == s,
        s != t ==> id_in(unique_names(lines, k), s) != id_in(unique_names(lines, k), t),
{
    let us = unique_names(lines, k);
    lemma_position(us, s);
    lemma_position(us, t);
    lemma_inverse_gives_back(us, us.len() as int, position(us, s));
    if s != t {
        lemma_ids_distinct(us, position(us, s), position(us, t));
    }
}


/// Some name of `us` has the number `x`.
pub open spec fn is_some_id(us: Seq<Seq<char>>, x: int) -> bool {
    exists|i: int| 0 <= i < us.len() && #[trigger] name_id(us, i) == x
}

/// No two of the names split into the same parts.
pub open spec fn distinct_parts(us: Seq<Seq<char>>) -> bool {
    forall|a: int, b: int| 0 <= a < us.len() && 0 <= b < us.len() && a != b
        ==> parts_of(#[trigger] us[a]) != parts_of(#[trigger] us[b])
}

proof fn lemma_inverse_dom(us: Seq<Seq<char>>, k: int, v: i32)
    requires
        0 <= k <= us.len(),
    ensures
        inverse(us, k).contains_key(v) <==> exists|j: int| 0 <= j < k && name_id(us, j) as i32 == v,
    decreases k,
{
    if k > 0 {
        lemma_inverse_dom(us, k - 1, v);
        if inverse(us, k - 1).contains_key(v) {
            let j = choose|j: int| 0 <= j < k - 1 && name_id(us, j) as i32 == v;
            assert(0 <= j < k && name_id(us, j) as i32 == v);
        }
        if exists|j: int| 0 <= j < k && name_id(us, j) as i32 == v {
            let j = choose|j: int| 0 <= j < k && name_id(us, j) as i32 == v;
            if j < k - 1 {
                assert(exists|j2: int| 0 <= j2 < k - 1 && name_id(us, j2) as i32 == v);
            }
        }
    }
}

/// When no two names of kind `k` split into the same parts, their numbers
/// are exactly `0..` the number of names: each in range, no two alike, none
/// left out; and the table that [`namezating`] builds for the kind has just
/// these numbers. Each kind is numbered on its own.
pub proof fn law_ids_exactly_range(lines: Seq<Seq<RawTok>>, k: NameKind)
    requires
        unique_names(lines, k).len() <= 0x8000_0000,
        distinct_parts(unique_names(lines, k)),
    ensures
        forall|i: int| 0 <= i < unique_names(lines, k).len()
            ==> 0 <= #[trigger] name_id(unique_names(lines, k), i) < unique_names(lines, k).len(),
        forall|i: int, j: int| 0 <= i < unique_names(lines, k).len() && 0 <= j < unique_names(lines, k).len() && i != j
            ==> #[trigger] name_id(unique_names(lines, k), i) != #[trigger] name_id(unique_names(lines, k), j),
        forall|x: int| 0 <= x < unique_names(lines, k).len() ==> #[trigger] is_some_id(unique_names(lines, k), x),
        name_table(lines, k).dom() == Set::new(|v: i32| 0 <= v < unique_names(lines, k).len()),
{
    let us = unique_names(lines, k);
    let n = us.len() as int;
    assert forall|i: int| 0 <= i < n implies 0 <= #[trigger] name_id(us, i) < n by {
        lemma_id_range(us, i);
    }
    assert forall|i: int, j: int| 0 <= i < n && 0 <= j < n && i != j implies #[trigger] name_id(us, i) != #[trigger] name_id(us, j) by {
        lemma_ids_distinct(us, i, j);
    }
    let ids = Seq::new(n as nat, |i: int| name_id(us, i));
    assert(ids.no_duplicates()) by {
        assert forall|i: int, j: int| 0 <= i < ids.len() && 0 <= j < ids.len() && i != j implies ids[i] != ids[j] by {
            lemma_ids_distinct(us, i, j);
        }
    }
    ids.unique_seq_to_set();
    assert forall|x: int| 0 <= x < n implies #[trigger] is_some_id(us, x) by {
        if !is_some_id(us, x) {
            vstd::set_lib::lemma_int_range(0, n);
            let r = vstd::set_lib::set_int_range(0, n).remove(x);
            assert forall|y: int| ids.to_set().contains(y) implies r.contains(y) by {
                let i = choose|i: int| 0 <= i < ids.len() && ids[i] == y;
                lemma_id_range(us, i);
            }
            vstd::set_lib::lemma_len_subset(ids.to_set(), r);
        }
    }
    assert forall|v: i32| name_table(lines, k).dom().contains(v) <==> 0 <= v < n by {
        lemma_inverse_dom(us, n, v);
        if 0 <= v < n {
            assert(is_some_id(us, v as int));
            let i = choose|i: int| 0 <= i < n && #[trigger] name_id(us, i) == v as int;
            assert(name_id(us, i) as i32 == v);
        }
        if exists|j: int| 0 <= j < n && name_id(us, j) as i32 == v {
            let j = choose|j: int| 0 <= j < n && name_id(us, j) as i32 == v;
            lemma_id_range(us, j);
        }
    }
    assert(name_table(lines, k).dom() =~= Set::new(|v: i32| 0 <= v < n));
}

/// A line renamed token by token.
pub open spec fn renamed_line(l: Seq<RawTok>, ups: Seq<Seq<char>>, upds: Seq<Seq<char>>, uns: Seq<Seq<char>>) -> Seq<Tok> {
    Seq::new(l.len(), |j: int| rename(l[j], ups, upds, uns))
}

proof fn lemma_renamed_lines_filter(lines: Seq<Seq<RawTok>>, ups: Seq<Seq<char>>, upds: Seq<Seq<char>>, uns: Seq<Seq<char>>)
    ensures
        renamed_lines(lines, ups, upds, uns) == lines.filter_map(|l: Seq<RawTok>|
            if l.len() == 0 { None } else { Some(renamed_line(l, ups, upds, uns)) }),
    decreases lines.len(),
{
    if lines.len() > 0 {
        lemma_renamed_lines_filter(lines.drop_last(), ups, upds, uns);
        let rest = renamed_lines(lines.drop_last(), ups, upds, uns);
        let l = lines.last();
        assert(rest.push(Seq::new(l.len(), |j: int| rename(l[j], ups, upds, uns)))
            =~= rest + seq![renamed_line(l, ups, upds, uns)]);
    }
}

/// What [`namezating`] gives, in closed form: the non-empty lines, in
/// order, each renamed token by token.
pub proof fn law_namezated_lines(lines: Seq<Seq<RawTok>>)
    ensures
        namezated(lines) == lines.filter_map(|l: Seq<RawTok>| if l.len() == 0 { None } else {
            Some(renamed_line(l, unique_names(lines, NameKind::Static), unique_names(lines, NameKind::Dynamic),
                unique_names(lines, NameKind::Var)))
        }),
{
    lemma_renamed_lines_filter(lines, unique_names(lines, NameKind::Static), unique_names(lines, NameKind::Dynamic),
        unique_names(lines, NameKind::Var));
}

/// Each name has a number that the tables of [`namezating`] give back: a
/// truth value and a keyword stay as they are, and a name of each kind
/// becomes a number that the table of its kind maps back to it, the line
/// kept. This holds when no two names of one kind split into the same parts.
pub proof fn law_token_round_trip(lines: Seq<Seq<RawTok>>, i: int, j: int)
    requires
        0 <= i < lines.len(),
        0 <= j < lines[i].len(),
        unique_names(lines, NameKind::Static).len() <= 0x8000_0000,
        unique_names(lines, NameKind::Dynamic).len() <= 0x8000_0000,
        unique_names(lines, NameKind::Var).len() <= 0x8000_0000,
        distinct_parts(unique_names(lines, NameKind::Static)),
        distinct_parts(unique_names(lines, NameKind::Dynamic)),
        distinct_parts(unique_names(lines, NameKind::Var)),
    ensures
        ({
            let r = rename(lines[i][j], unique_names(lines, NameKind::Static), unique_names(lines, NameKind::Dynamic),
                unique_names(lines, NameKind::Var));
            match lines[i][j] {
                RawTok::Bool(b, l) => r == Tok::Bool(b, l),
                RawTok::Keyword(s, l) => r == Tok::Keyword(s, l),
                RawTok::Number(s, l) => r matches Tok::Number(id, l2) && l2 == l
                    && name_table(lines, NameKind::Var).contains_key(id) && name_table(lines, NameKind::Var)[id] == s,
                RawTok::LabelP(s, l) => r matches Tok::LabelP(id, l2) && l2 == l
                    && name_table(lines, NameKind::Static).contains_key(id) && name_table(lines, NameKind::Static)[id] == s,
                RawTok::LabelPD(s, l) => r matches Tok::LabelPD(id, l2) && l2 == l
                    && name_table(lines, NameKind::Dynamic).contains_key(id) && name_table(lines, NameKind::Dynamic)[id] == s,
            }
        }),
{
    match lines[i][j] {
        RawTok::Number(s, _) => {
            lemma_unique_has(lines, NameKind::Var, i, j);
            law_numbers_name_back(lines, NameKind::Var, s, s);
        },
        RawTok::LabelP(s, _) => {
            lemma_unique_has(lines, NameKind::Static, i, j);
            law_numbers_name_back(lines, NameKind::Static, s, s);
        },
        RawTok::LabelPD(s, _) => {
            lemma_unique_has(lines, NameKind::Dynamic, i, j);
            law_numbers_name_back(lines, NameKind::Dynamic, s, s);
        },
        _ => {},
    }
}

} // verus!
