//! `IMPORT name` lines: the lines of the named file take their place, its
//! own imports expanded in turn, and a file already imported is skipped.
//! Finding and reading files is left to the caller: the [`Importer`] says
//! what it needs next and is told what came of it.
use vstd::prelude::*;
use crate::preprocessors::function_preprocessor::{kw_line, number_text};
use crate::text::{decimal, int_text};
use crate::tokens::{RawToken, RawTok, clone_line, is_kw, raw_is_kw, str_eq, tokenize, tokenize_spec};

verus! {

/// The file that a line `IMPORT name` imports, and the line's number.
pub open spec fn import_target(line: Seq<RawTok>) -> Option<(Seq<char>, i32)> {
    if line.len() == 2 && is_kw(line[0], "IMPORT"@) && line[1] is Number {
        Some((number_text(line[1]), kw_line(line[0])))
    } else {
        None
    }
}

/// A file being read: its lines, the next one to read and its directory.
pub struct FrameView {
    pub lines: Seq<Seq<RawTok>>,
    pub next: int,
    pub dir: Seq<char>,
}

/// An import under way: the file's name, the line of the `IMPORT`, and once
/// found, its path and directory.
pub struct PendingView {
    pub name: Seq<char>,
    pub line: i32,
    pub found: Option<(Seq<char>, Seq<char>)>,
}

/// The state of an [`Importer`].
pub struct ImportState {
    pub frames: Seq<FrameView>,
    pub processed: Seq<Seq<char>>,
    pub result: Seq<Seq<RawTok>>,
    pub pending: Option<PendingView>,
}

/// Reads on from the innermost file: lines that import nothing go to the
/// result, a finished file is left; stops at the next `IMPORT` (its name,
/// line and the directory of the file it stands in) or when all are read.
pub open spec fn advance(frames: Seq<FrameView>, result: Seq<Seq<RawTok>>)
    -> (Seq<FrameView>, Seq<Seq<RawTok>>, Option<(Seq<char>, i32, Seq<char>)>)
    decreases frames.len(), if frames.len() > 0 { frames.last().lines.len() - frames.last().next } else { 0 },
{
    if frames.len() == 0 {
        (frames, result, None)
    } else {
        let top = frames.last();
        if top.next < 0 || top.next >= top.lines.len() {
            advance(frames.drop_last(), result)
        } else {
            let line = top.lines[top.next];
            let frames2 = frames.update(frames.len() - 1, FrameView { next: top.next + 1, ..top });
            match import_target(line) {
                Some((n, l)) => (frames2, result, Some((n, l, top.dir))),
                None => advance(frames2, result.push(line)),
            }
        }
    }
}

/// The path of the file found for an import.
pub open spec fn found_path(p: PendingView) -> Seq<char> {
    match p.found {
        Some((path, _)) => path,
        None => Seq::empty(),
    }
}

/// The directory of the file found for an import.
pub open spec fn found_dir(p: PendingView) -> Seq<char> {
    match p.found {
        Some((_, dir)) => dir,
        None => Seq::empty(),
    }
}

pub open spec fn not_found_message(name: Seq<char>, l: i32) -> Seq<char> {
    "Строка "@ + decimal(l as int) + ": Файл '"@ + name + "' не найден"@
}

pub open spec fn unreadable_message(name: Seq<char>, l: i32, e: Seq<char>) -> Seq<char> {
    "Строка "@ + decimal(l as int) + ": Не удалось прочитать файл '"@ + name + "': "@ + e
}

pub open spec fn bad_file_message(name: Seq<char>, e: Seq<char>, l: i32) -> Seq<char> {
    "Строка "@ + decimal(l as int) + " в файле '"@ + name + "': "@ + e
}

/// What the caller must do next.
#[derive(Debug)]
pub enum ImportAction {
    /// Find the file `name`, looking from the directory `dir`.
    Find { name: String, dir: String },
    /// Read the file at `path`.
    Read { path: String },
    /// Every line is read; [`Importer::finish`] gives the result.
    Done,
}

/// What came of an action.
pub enum ImportEvent {
    /// The file is at `path`; `canonical` is its canonical path and `dir`
    /// the directory it lies in.
    Found { path: String, canonical: String, dir: String },
    /// No such file.
    Missing,
    /// The text of the file read.
    Content(String),
    /// Reading failed with this message.
    ReadFailed(String),
}

/// The value of an [`ImportAction`].
pub enum ActionView {
    Find(Seq<char>, Seq<char>),
    Read(Seq<char>),
    Done,
}

/// The value of an [`ImportEvent`].
pub enum EventView {
    Found(Seq<char>, Seq<char>, Seq<char>),
    Missing,
    Content(Seq<char>),
    ReadFailed(Seq<char>),
}

impl View for ImportAction {
    type V = ActionView;

    open spec fn view(&self) -> ActionView {
        match self {
            ImportAction::Find { name, dir } => ActionView::Find(name@, dir@),
            ImportAction::Read { path } => ActionView::Read(path@),
            ImportAction::Done => ActionView::Done,
        }
    }
}

impl View for ImportEvent {
    type V = EventView;

    open spec fn view(&self) -> EventView {
        match self {
            ImportEvent::Found { path, canonical, dir } => EventView::Found(path@, canonical@, dir@),
            ImportEvent::Missing => EventView::Missing,
            ImportEvent::Content(c) => EventView::Content(c@),
            ImportEvent::ReadFailed(e) => EventView::ReadFailed(e@),
        }
    }
}

/// The state of an importer started on `lines`, which lie in `base`.
pub open spec fn start_state(lines: Seq<Seq<RawTok>>, base: Seq<char>) -> ImportState {
    ImportState {
        frames: seq![FrameView { lines, next: 0, dir: base }],
        processed: Seq::empty(),
        result: Seq::empty(),
        pending: None,
    }
}

/// Runs an importer from `s` for at most `fuel` actions, answering them
/// from a file system: `find(name, dir)` gives the path, the canonical path
/// and the directory of the file found, `read(path)` its text or the error
/// of reading it. The result, or the error; `None` if the fuel ran out.
pub open spec fn drive(
    s: ImportState,
    find: spec_fn(Seq<char>, Seq<char>) -> Option<(Seq<char>, Seq<char>, Seq<char>)>,
    read: spec_fn(Seq<char>) -> Result<Seq<char>, Seq<char>>,
    fuel: nat,
) -> Option<Result<Seq<Seq<RawTok>>, Seq<char>>>
    decreases fuel,
{
    if fuel == 0 {
        None
    } else {
        let (s1, a) = action_spec(s);
        match a {
            ActionView::Done => Some(Ok(s1.result)),
            _ => {
                let ev = match a {
                    ActionView::Find(n, d) => match find(n, d) {
                        None => EventView::Missing,
                        Some((p, c, d2)) => EventView::Found(p, c, d2),
                    },
                    ActionView::Read(p) => match read(p) {
                        Ok(t) => EventView::Content(t),
                        Err(e) => EventView::ReadFailed(e),
                    },
                    ActionView::Done => EventView::Missing,
                };
                match step_spec(s1, ev) {
                    Err(m) => Some(Err(m)),
                    Ok(s2) => drive(s2, find, read, (fuel - 1) as nat),
                }
            },
        }
    }
}

/// What [`Importer::next_action`] does to a state, and the action it asks for.
pub open spec fn action_spec(s: ImportState) -> (ImportState, ActionView) {
    match s.pending {
        Some(p) => (s, ActionView::Read(found_path(p))),
        None => {
            let (frames, result, next) = advance(s.frames, s.result);
            match next {
                None => (ImportState { frames, result, ..s }, ActionView::Done),
                Some((n, l, d)) => (ImportState { frames, result, pending: Some(PendingView { name: n, line: l, found: None }), ..s },
                    ActionView::Find(n, d)),
            }
        },
    }
}

/// The event answers the action under way: a file to be found is found or
/// missing, a file found is read or fails to be.
pub open spec fn event_fits(s: ImportState, ev: EventView) -> bool {
    match s.pending {
        None => false,
        Some(p) => match ev {
            EventView::Found(_, _, _) => p.found is None,
            EventView::Missing => p.found is None,
            _ => p.found is Some,
        },
    }
}

/// What [`Importer::step`] makes of a state and an event that answers it:
/// the next state, or the error.
pub open spec fn step_spec(s: ImportState, ev: EventView) -> Result<ImportState, Seq<char>> {
    let p = s.pending->0;
    match ev {
        EventView::Missing => Err(not_found_message(p.name, p.line)),
        EventView::Found(path, canonical, dir) => if s.processed.contains(canonical) {
            Ok(ImportState { pending: None, ..s })
        } else {
            Ok(ImportState { pending: Some(PendingView { found: Some((path, dir)), ..p }), processed: s.processed.push(canonical), ..s })
        },
        EventView::ReadFailed(e) => Err(unreadable_message(p.name, p.line, e)),
        EventView::Content(c) => match tokenize_spec(c) {
            Err((e, l)) => Err(bad_file_message(p.name, e, l)),
            Ok(lines) => Ok(ImportState { pending: None, frames: s.frames.push(FrameView { lines, next: 0, dir: found_dir(p) }), ..s }),
        },
    }
}

struct Frame {
    lines: Vec<Vec<RawToken>>,
    next: usize,
    dir: String,
}

struct Pending {
    name: String,
    line: i32,
    found: Option<(String, String)>,
}

/// Expands the imports of a program, one step at a time.
pub struct Importer {
    frames: Vec<Frame>,
    processed: Vec<String>,
    result: Vec<Vec<RawToken>>,
    pending: Option<Pending>,
}

impl Frame {
    spec fn view(&self) -> FrameView {
        FrameView { lines: self.lines.deep_view(), next: self.next as int, dir: self.dir@ }
    }
}

impl Pending {
    spec fn view(&self) -> PendingView {
        PendingView {
            name: self.name@,
            line: self.line,
            found: match self.found {
                Some((p, d)) => Some((p@, d@)),
                None => None,
            },
        }
    }
}

impl View for Importer {
    type V = ImportState;

    closed spec fn view(&self) -> ImportState {
        ImportState {
            frames: Seq::new(self.frames@.len(), |i: int| self.frames@[i].view()),
            processed: self.processed.deep_view(),
            result: self.result.deep_view(),
            pending: match self.pending {
                Some(p) => Some(p.view()),
                None => None,
            },
        }
    }
}

impl Importer {
    /// The files imported are each named once.
    pub open spec fn wf(&self) -> bool {
        self@.processed.no_duplicates()
    }

    /// Starts on the lines of the main file, which lies in `base_dir`.
    pub fn new(tokens: Vec<Vec<RawToken>>, base_dir: String) -> (imp: Self)
        ensures
            imp.wf(),
            imp@ == start_state(tokens.deep_view(), base_dir@),
            imp@.frames == seq![FrameView { lines: tokens.deep_view(), next: 0, dir: base_dir@ }],
            imp@.processed == Seq::<Seq<char>>::empty(),
            imp@.result == Seq::<Seq<RawTok>>::empty(),
            imp@.pending is None,
    {
        let ghost tv = tokens.deep_view();
        let ghost dv = base_dir@;
        let imp = Importer {
            frames: vec![Frame { lines: tokens, next: 0, dir: base_dir }],
            processed: Vec::new(),
            result: Vec::new(),
            pending: None,
        };
        proof {
            assert(imp@.frames =~= seq![FrameView { lines: tv, next: 0, dir: dv }]);
            assert(imp@.processed =~= Seq::<Seq<char>>::empty());
            assert(imp@.result =~= Seq::<Seq<RawTok>>::empty());
        }
        imp
    }

    /// The file and line of an `IMPORT` line.
    fn target(line: &Vec<RawToken>) -> (r: Option<(String, i32)>)
        ensures
            r matches Some((n, l)) ==> import_target(line.deep_view()) == Some((n@, l)),
            r is None ==> import_target(line.deep_view()) is None,
    {
        if line.len() == 2 && raw_is_kw(&line[0], "IMPORT") {
            match (&line[0], &line[1]) {
                (RawToken::Keyword(_, l), RawToken::Number(n, _)) => Some((n.clone(), *l)),
                _ => None,
            }
        } else {
            None
        }
    }

    /// What to do next. With a file found and not yet imported, read it;
    /// else read on (see [`advance`]) to the next `IMPORT`, whose file is to
    /// be found, or to the end.
    #[verifier::loop_isolation(false)]
    pub fn next_action(&mut self) -> (a: ImportAction)
        requires
            old(self)@.pending matches Some(p) ==> p.found is Some,
        ensures
            final(self)@ == action_spec(old(self)@).0,
            a@ == action_spec(old(self)@).1,
            final(self).wf() == old(self).wf(),
            final(self)@.processed == old(self)@.processed,
            old(self)@.pending matches Some(p) ==> (a matches ImportAction::Read { path } && path@ == found_path(p)
                && final(self)@ == old(self)@),
            old(self)@.pending is None ==> ({
                let (frames, result, next) = advance(old(self)@.frames, old(self)@.result);
                &&& final(self)@.frames == frames
                &&& final(self)@.result == result
                &&& match next {
                    None => a is Done && final(self)@.pending is None,
                    Some((n, l, d)) => (a matches ImportAction::Find { name, dir } && name@ == n && dir@ == d)
                        && final(self)@.pending == Some(PendingView { name: n, line: l, found: None }),
                }
            }),
    {
        match &self.pending {
            Some(p) => {
                match &p.found {
                    Some((path, _)) => {
                        return ImportAction::Read { path: path.clone() };
                    },
                    None => {
                        return ImportAction::Done;
                    },
                }
            },
            None => {},
        }
        let ghost start = self@;
        loop
            invariant
                self.pending is None,
                self@.processed == start.processed,
                advance(self@.frames, self@.result) == advance(start.frames, start.result),
            decreases self.frames@.len(), if self.frames@.len() > 0 {
                self.frames@.last().lines@.len() - self.frames@.last().next } else { 0 },
        {
            let ghost before = self@;
            if self.frames.len() == 0 {
                return ImportAction::Done;
            }
            let last = self.frames.len() - 1;
            let ghost top = before.frames.last();
            proof {
                assert(top == self.frames@[last as int].view());
            }
            if self.frames[last].next >= self.frames[last].lines.len() {
                let ghost fb = self.frames@;
                self.frames.pop();
                proof {
                    assert(self@.frames =~= before.frames.drop_last()) by {
                        assert(self.frames@ =~= fb.drop_last());
                    }
                }
            } else {
                let k = self.frames[last].next;
                let line = clone_line(&self.frames[last].lines[k]);
                proof {
                    assert(line.deep_view() == top.lines[k as int]);
                }
                let ghost fb = self.frames@;
                let mut f = self.frames.pop().unwrap();
                f.next = k + 1;
                self.frames.push(f);
                let ghost frames2 = before.frames.update(before.frames.len() - 1, FrameView { next: top.next + 1, ..top });
                proof {
                    assert(self@.frames =~= frames2) by {
                        assert forall|i: int| 0 <= i < last implies self.frames@[i] == fb[i] by {}
                    }
                }
                match Importer::target(&line) {
                    Some((name, l)) => {
                        let dir = self.frames[last].dir.clone();
                        let ghost nv = name@;
                        self.pending = Some(Pending { name: name.clone(), line: l, found: None });
                        return ImportAction::Find { name, dir };
                    },
                    None => {
                        let ghost rb = self@.result;
                        let ghost lv = line.deep_view();
                        self.result.push(line);
                        proof {
                            assert(self@.result =~= rb.push(lv));
                        }
                    },
                }
            }
        }
    }

    /// Takes in what came of the action asked for. A missing file, a failed
    /// read and a file that does not tokenize are errors; a file already
    /// imported is skipped; a file read is read on from its first line.
    #[verifier::loop_isolation(false)]
    pub fn step(&mut self, event: ImportEvent) -> (r: Result<(), String>)
        requires
            old(self).wf(),
            old(self)@.pending is Some,
            event matches ImportEvent::Content(c) ==> c@.len() < i32::MAX,
        ensures
            final(self).wf(),
            final(self)@.result == old(self)@.result,
            event_fits(old(self)@, event@) ==> match step_spec(old(self)@, event@) {
                Ok(s2) => r is Ok && final(self)@ == s2,
                Err(m) => r matches Err(m2) && m2@ == m,
            },
            ({
                let p = old(self)@.pending->0;
                match event {
                    ImportEvent::Missing => p.found is None ==> (r matches Err(m) && m@ == not_found_message(p.name, p.line)),
                    ImportEvent::Found { path, canonical, dir } => p.found is None ==> (r is Ok && if old(self)@.processed.contains(canonical@) {
                        final(self)@.pending is None && final(self)@.processed == old(self)@.processed
                            && final(self)@.frames == old(self)@.frames
                    } else {
                        final(self)@.pending == Some(PendingView { found: Some((path@, dir@)), ..p })
                            && final(self)@.processed == old(self)@.processed.push(canonical@)
                            && final(self)@.frames == old(self)@.frames
                    }),
                    ImportEvent::ReadFailed(e) => p.found is Some ==> (r matches Err(m) && m@ == unreadable_message(p.name, p.line, e@)),
                    ImportEvent::Content(c) => p.found is Some ==> match tokenize_spec(c@) {
                        Err((e, l)) => r matches Err(m) && m@ == bad_file_message(p.name, e, l),
                        Ok(lines) => r is Ok && final(self)@.pending is None && final(self)@.processed == old(self)@.processed
                            && final(self)@.frames == old(self)@.frames.push(FrameView { lines, next: 0, dir: found_dir(p) }),
                    },
                }
            }),
    {
        let ghost start = self@;
        let p = match self.pending.take() {
            Some(p) => p,
            None => { return Ok(()); },
        };
        let ghost pv = p.view();
        proof {
            assert(self@.result == start.result);
            assert(self@.processed == start.processed);
            assert(self@.frames == start.frames);
        }
        match event {
            ImportEvent::Missing => {
                let mut m = String::from_str("Строка ");
                let t = int_text(p.line as i64);
                m.append(t.as_str());
                m.append(": Файл '");
                m.append(p.name.as_str());
                m.append("' не найден");
                Err(m)
            },
            ImportEvent::Found { path, canonical, dir } => {
                if p.found.is_some() {
                    return Ok(());
                }
                let mut k: usize = 0;
                while k < self.processed.len()
                    invariant
                        k <= self.processed@.len(),
                        forall|j: int| 0 <= j < k ==> self@.processed[j] != canonical@,
                    decreases self.processed@.len() - k,
                {
                    proof {
                        assert(self@.processed[k as int] == self.processed@[k as int]@);
                    }
                    if str_eq(self.processed[k].as_str(), canonical.as_str()) {
                        return Ok(());
                    }
                    k = k + 1;
                }
                let ghost before = self@.processed;
                let ghost cv = canonical@;
                self.processed.push(canonical);
                self.pending = Some(Pending { name: p.name, line: p.line, found: Some((path, dir)) });
                proof {
                    assert(self@.processed =~= before.push(cv));
                    assert(!before.contains(cv));
                }
                Ok(())
            },
            ImportEvent::ReadFailed(e) => {
                let mut m = String::from_str("Строка ");
                let t = int_text(p.line as i64);
                m.append(t.as_str());
                m.append(": Не удалось прочитать файл '");
                m.append(p.name.as_str());
                m.append("': ");
                m.append(e.as_str());
                Err(m)
            },
            ImportEvent::Content(c) => {
                let dir = match p.found {
                    Some((_, d)) => d,
                    None => { return Ok(()); },
                };
                match tokenize(c.as_str()) {
                    Err((e, l)) => {
                        let mut m = String::from_str("Строка ");
                        let t = int_text(l as i64);
                        m.append(t.as_str());
                        m.append(" в файле '");
                        m.append(p.name.as_str());
                        m.append("': ");
                        m.append(e.as_str());
                        Err(m)
                    },
                    Ok(lines) => {
                        let ghost fb = self@.frames;
                        let ghost lv = lines.deep_view();
                        let ghost dv = dir@;
                        self.frames.push(Frame { lines, next: 0, dir });
                        proof {
                            assert(self@.frames =~= fb.push(FrameView { lines: lv, next: 0, dir: dv }));
                        }
                        Ok(())
                    },
                }
            },
        }
    }

    /// The lines with every import expanded.
    pub fn finish(self) -> (r: Vec<Vec<RawToken>>)
        ensures
            r.deep_view() == self@.result,
    {
        self.result
    }
}


/// No line of `lines` is an `IMPORT`.
pub open spec fn no_imports(lines: Seq<Seq<RawTok>>) -> bool {
    forall|i: int| 0 <= i < lines.len() ==> import_target(#[trigger] lines[i]) is None
}

proof fn lemma_advance_plain(lines: Seq<Seq<RawTok>>, k: int, dir: Seq<char>, result: Seq<Seq<RawTok>>)
    requires
        no_imports(lines),
        0 <= k <= lines.len(),
    ensures
        advance(seq![FrameView { lines, next: k, dir }], result) == (Seq::<FrameView>::empty(), result + lines.skip(k), None::<(Seq<char>, i32, Seq<char>)>),
    decreases lines.len() - k,
{
    let frames = seq![FrameView { lines, next: k, dir }];
    if k == lines.len() {
        assert(frames.drop_last() =~= Seq::<FrameView>::empty());
        assert(advance(frames.drop_last(), result) == (frames.drop_last(), result, None::<(Seq<char>, i32, Seq<char>)>));
        assert(result + lines.skip(k) =~= result);
    } else {
        assert(import_target(lines[k]) is None);
        let frames2 = frames.update(0, FrameView { lines, next: k + 1, dir });
        assert(frames2 =~= seq![FrameView { lines, next: k + 1, dir }]);
        lemma_advance_plain(lines, k + 1, dir, result.push(lines[k]));
        assert(result.push(lines[k]) + lines.skip(k + 1) =~= result + lines.skip(k));
    }
}

/// A program without `IMPORT` lines comes out as it went in, asking for no file.
pub proof fn law_no_imports_unchanged(lines: Seq<Seq<RawTok>>, dir: Seq<char>)
    requires
        no_imports(lines),
    ensures
        advance(seq![FrameView { lines, next: 0, dir }], Seq::empty()) == (Seq::<FrameView>::empty(), lines, None::<(Seq<char>, i32, Seq<char>)>),
{
    lemma_advance_plain(lines, 0, dir, Seq::empty());
    assert(Seq::<Seq<RawTok>>::empty() + lines.skip(0) =~= lines);
}


proof fn lemma_advance_plain_top(frames: Seq<FrameView>, result: Seq<Seq<RawTok>>)
    requires
        frames.len() > 0,
        0 <= frames.last().next <= frames.last().lines.len(),
        no_imports(frames.last().lines),
    ensures
        advance(frames, result) == advance(frames.drop_last(), result + frames.last().lines.skip(frames.last().next)),
    decreases frames.last().lines.len() - frames.last().next,
{
    let top = frames.last();
    if top.next == top.lines.len() {
        assert(result + top.lines.skip(top.next) =~= result);
    } else {
        let line = top.lines[top.next];
        assert(import_target(line) is None);
        let frames2 = frames.update(frames.len() - 1, FrameView { next: top.next + 1, ..top });
        assert(frames2.drop_last() =~= frames.drop_last());
        assert(frames2.last() == FrameView { next: top.next + 1, ..top });
        lemma_advance_plain_top(frames2, result.push(line));
        assert(result.push(line) + top.lines.skip(top.next + 1) =~= result + top.lines.skip(top.next));
    }
}

/// Importing a file a second time adds nothing and is no error: a program
/// of two `IMPORT` lines for the same file gives what one of them gives,
/// the text of the file (here one without imports of its own).
pub proof fn law_import_twice_as_once(
    imp: Seq<RawTok>,
    base: Seq<char>,
    find: spec_fn(Seq<char>, Seq<char>) -> Option<(Seq<char>, Seq<char>, Seq<char>)>,
    read: spec_fn(Seq<char>) -> Result<Seq<char>, Seq<char>>,
    m: Seq<char>,
    l: i32,
    p: Seq<char>,
    c: Seq<char>,
    d: Seq<char>,
    text: Seq<char>,
    t: Seq<Seq<RawTok>>,
)
    requires
        import_target(imp) == Some((m, l)),
        find(m, base) == Some((p, c, d)),
        read(p) == Ok::<Seq<char>, Seq<char>>(text),
        tokenize_spec(text) == Ok::<Seq<Seq<RawTok>>, (Seq<char>, i32)>(t),
        no_imports(t),
    ensures
        drive(start_state(seq![imp, imp], base), find, read, 4) == Some(Ok::<Seq<Seq<RawTok>>, Seq<char>>(t)),
        drive(start_state(seq![imp], base), find, read, 4) == Some(Ok::<Seq<Seq<RawTok>>, Seq<char>>(t)),
{
    let e = Seq::<Seq<RawTok>>::empty();
    let pend = PendingView { name: m, line: l, found: None };
    let pend2 = PendingView { name: m, line: l, found: Some((p, d)) };
    let ft = FrameView { lines: t, next: 0, dir: d };
    // twice
    let two = seq![imp, imp];
    let f0 = seq![FrameView { lines: two, next: 0, dir: base }];
    let f1 = seq![FrameView { lines: two, next: 1, dir: base }];
    let f2 = seq![FrameView { lines: two, next: 2, dir: base }];
    assert(f0.update(0, FrameView { next: 1, ..f0.last() }) =~= f1);
    assert(f1.update(0, FrameView { next: 2, ..f1.last() }) =~= f2);
    assert(advance(f0, e) == (f1, e, Some((m, l, base))));
    let s1 = ImportState { frames: f1, processed: Seq::empty(), result: e, pending: Some(pend) };
    assert(action_spec(start_state(two, base)) == (s1, ActionView::Find(m, base)));
    assert(!Seq::<Seq<char>>::empty().contains(c));
    let s2 = ImportState { frames: f1, processed: seq![c], result: e, pending: Some(pend2) };
    assert(Seq::<Seq<char>>::empty().push(c) =~= seq![c]);
    assert(step_spec(s1, EventView::Found(p, c, d)) == Ok::<ImportState, Seq<char>>(s2));
    assert(action_spec(s2) == (s2, ActionView::Read(p)));
    let s3 = ImportState { frames: f1.push(ft), processed: seq![c], result: e, pending: None };
    assert(step_spec(s2, EventView::Content(text)) == Ok::<ImportState, Seq<char>>(s3));
    lemma_advance_plain_top(f1.push(ft), e);
    assert(f1.push(ft).drop_last() =~= f1);
    assert(e + t.skip(0) =~= t);
    assert(advance(f1, t) == (f2, t, Some((m, l, base))));
    let s4 = ImportState { frames: f2, processed: seq![c], result: t, pending: Some(pend) };
    assert(action_spec(s3) == (s4, ActionView::Find(m, base)));
    assert(seq![c].contains(c)) by {
        assert(seq![c][0] == c);
    }
    let s5 = ImportState { frames: f2, processed: seq![c], result: t, pending: None };
    assert(step_spec(s4, EventView::Found(p, c, d)) == Ok::<ImportState, Seq<char>>(s5));
    assert(f2.drop_last() =~= Seq::<FrameView>::empty());
    assert(advance(Seq::<FrameView>::empty(), t) == (Seq::<FrameView>::empty(), t, None::<(Seq<char>, i32, Seq<char>)>));
    assert(advance(f2, t) == (Seq::<FrameView>::empty(), t, None::<(Seq<char>, i32, Seq<char>)>));
    assert(drive(s5, find, read, 1) == Some(Ok::<Seq<Seq<RawTok>>, Seq<char>>(t)));
    assert(drive(s3, find, read, 2) == Some(Ok::<Seq<Seq<RawTok>>, Seq<char>>(t)));
    assert(drive(s2, find, read, 3) == Some(Ok::<Seq<Seq<RawTok>>, Seq<char>>(t)));
    // once
    let one = seq![imp];
    let g0 = seq![FrameView { lines: one, next: 0, dir: base }];
    let g1 = seq![FrameView { lines: one, next: 1, dir: base }];
    assert(g0.update(0, FrameView { next: 1, ..g0.last() }) =~= g1);
    assert(advance(g0, e) == (g1, e, Some((m, l, base))));
    let r1 = ImportState { frames: g1, processed: Seq::empty(), result: e, pending: Some(pend) };
    assert(action_spec(start_state(one, base)) == (r1, ActionView::Find(m, base)));
    let r2 = ImportState { frames: g1, processed: seq![c], result: e, pending: Some(pend2) };
    assert(step_spec(r1, EventView::Found(p, c, d)) == Ok::<ImportState, Seq<char>>(r2));
    assert(action_spec(r2) == (r2, ActionView::Read(p)));
    let r3 = ImportState { frames: g1.push(ft), processed: seq![c], result: e, pending: None };
    assert(step_spec(r2, EventView::Content(text)) == Ok::<ImportState, Seq<char>>(r3));
    lemma_advance_plain_top(g1.push(ft), e);
    assert(g1.push(ft).drop_last() =~= g1);
    assert(g1.drop_last() =~= Seq::<FrameView>::empty());
    assert(advance(g1, t) == (Seq::<FrameView>::empty(), t, None::<(Seq<char>, i32, Seq<char>)>));
    assert(drive(r3, find, read, 2) == Some(Ok::<Seq<Seq<RawTok>>, Seq<char>>(t)));
    assert(drive(r2, find, read, 3) == Some(Ok::<Seq<Seq<RawTok>>, Seq<char>>(t)));
}


/// The text of an optional string.
pub open spec fn opt_view(o: Option<String>) -> Option<Seq<char>> {
    match o {
        Some(x) => Some(x@),
        None => None,
    }
}

/// Where an imported file `name` is looked for, in order: a subdirectory of
/// the importing file's directory (none: that directory itself, then `lib`,
/// then `libs`), and the file name there (as written, then with `.bpl`, then
/// with `.txt` added).
pub open spec fn candidates_spec(name: Seq<char>) -> Seq<(Option<Seq<char>>, Seq<char>)> {
    let files = seq![name, name + ".bpl"@, name + ".txt"@];
    Seq::new(9, |i: int| (if i < 3 { None } else if i < 6 { Some("lib"@) } else { Some("libs"@) }, files[i % 3]))
}

/// The places to look for the imported file `filename`, in the order
/// they are tried: the first that exists is the file.
pub fn file_candidates(filename: &str) -> (r: Vec<(Option<String>, String)>)
    ensures
        r@.map_values(|x: (Option<String>, String)| (opt_view(x.0), x.1@)) == candidates_spec(filename@),
{
    let mut r: Vec<(Option<String>, String)> = Vec::new();
    let mut d: usize = 0;
    while d < 3
        invariant
            d <= 3,
            r@.len() == 3 * d,
            forall|i: int| 0 <= i < r@.len() ==> (opt_view(#[trigger] r@[i].0), r@[i].1@) == candidates_spec(filename@)[i],
        decreases 3 - d,
    {
        let mut f: usize = 0;
        while f < 3
            invariant
                d < 3,
                f <= 3,
                r@.len() == 3 * d + f,
                forall|i: int| 0 <= i < r@.len() ==> (opt_view(#[trigger] r@[i].0), r@[i].1@) == candidates_spec(filename@)[i],
            decreases 3 - f,
        {
            let dir = if d == 0 {
                None
            } else if d == 1 {
                Some(String::from_str("lib"))
            } else {
                Some(String::from_str("libs"))
            };
            let mut file = String::from_str(filename);
            if f == 1 {
                file.append(".bpl");
            } else if f == 2 {
                file.append(".txt");
            }
            let ghost k = r@.len() as int;
            proof {
                assert(k % 3 == f as int && (k < 3 <==> d == 0) && (3 <= k < 6 <==> d == 1)) by (nonlinear_arith)
                    requires
                        k == 3 * d + f,
                        d < 3,
                        f < 3;
                if f == 0 {
                    assert(file@ =~= filename@);
                }
            }
            r.push((dir, file));
            f = f + 1;
        }
        d = d + 1;
    }
    proof {
        assert(r@.map_values(|x: (Option<String>, String)| (opt_view(x.0), x.1@)) =~= candidates_spec(filename@));
    }
    r
}

} // verus!
