use crate::error::{Error, ParseError};
use crate::lexer::{is_space, line_effect, lines_of, scan_run, scanned, scoped, trim_end, trim_start, trimmed, word_scope, word_splice, LineEffect, Stmt, lemma_strip_err_stays, lemma_word_err_stays, col_run, split_at_colon, strip_run, stripped, word_run, words_of, ColState, StripState, WordState};
use crate::text::{blank, chars_of, quote, same_text, string_of, to_lower};
use vstd::prelude::*;

verus! {

proof fn lemma_take_last<A>(s: Seq<A>, i: int)
    requires
        0 <= i < s.len(),
    ensures
        s.take(i + 1).drop_last() == s.take(i),
        s.take(i + 1).last() == s[i],
{
    assert(s.take(i + 1).drop_last() =~= s.take(i));
}

/// One statement of a file: a definition or a record (location, line, label,
/// words), or a directive that splices in the file at `path`.
#[derive(Debug, PartialEq, Eq)]
pub enum Statement {
    Definition((String, u32, String, Vec<String>)),
    Record((String, u32, String, Vec<String>)),
    Include { line: u32, path: String },
}

pub open spec fn strings_view(v: Seq<String>) -> Seq<Seq<char>> {
    v.map_values(|s: String| s@)
}

impl Statement {
    pub open spec fn view(&self) -> Stmt {
        match self {
            Statement::Definition(e) => Stmt::Def(e.0@, e.1, e.2@, strings_view(e.3@)),
            Statement::Record(e) => Stmt::Rec(e.0@, e.1, e.2@, strings_view(e.3@)),
            Statement::Include { line, path } => Stmt::Inc(*line, path@),
        }
    }
}

pub open spec fn stmts_view(v: Seq<Statement>) -> Seq<Stmt> {
    v.map_values(|s: Statement| s.view())
}

enum Effect {
    Skip,
    Scope(Option<String>),
    Emit(Statement),
    Fail(ParseError),
}

spec fn effect_view(e: Effect) -> LineEffect {
    match e {
        Effect::Skip => LineEffect::Skip,
        Effect::Scope(s) => LineEffect::Scope(match s {
            Some(n) => Some(n@),
            None => None,
        }),
        Effect::Emit(st) => LineEffect::Emit(st.view()),
        Effect::Fail(e) => LineEffect::Fail(e),
    }
}

spec fn opt_view(s: Option<String>) -> Option<Seq<char>> {
    match s {
        Some(n) => Some(n@),
        None => None,
    }
}

fn space(c: char) -> (r: bool)
    ensures
        r == is_space(c),
{
    blank(c)
}

proof fn lemma_trim_start_at(s: Seq<char>, a: int)
    requires
        0 <= a < s.len(),
        is_space(s[a]),
    ensures
        trim_start(s.subrange(a, s.len() as int)) == trim_start(s.subrange(a + 1, s.len() as int)),
{
    assert(s.subrange(a, s.len() as int).drop_first() =~= s.subrange(a + 1, s.len() as int));
}

proof fn lemma_trim_end_at(s: Seq<char>, b: int)
    requires
        0 < b <= s.len(),
        is_space(s[b - 1]),
    ensures
        trim_end(s.subrange(0, b)) == trim_end(s.subrange(0, b - 1)),
{
    assert(s.subrange(0, b).drop_last() =~= s.subrange(0, b - 1));
}

fn trim(v: &Vec<char>) -> (r: Vec<char>)
    ensures
        r@ == trimmed(v@),
{
    let n = v.len();
    let mut a: usize = 0;
    assert(v@.subrange(0, n as int) =~= v@);
    while a < n && space(v[a])
        invariant
            0 <= a <= n,
            n == v@.len(),
            trim_start(v@) == trim_start(v@.subrange(a as int, n as int)),
        decreases n - a,
    {
        proof {
            lemma_trim_start_at(v@, a as int);
        }
        a = a + 1;
    }
    let ghost u = v@.subrange(a as int, n as int);
    assert(trim_start(v@) == u);
    let mut b: usize = n - a;
    assert(u.subrange(0, b as int) =~= u);
    while b > 0 && space(v[a + b - 1])
        invariant
            0 <= b <= n - a,
            n == v@.len(),
            u == v@.subrange(a as int, n as int),
            trim_end(u) == trim_end(u.subrange(0, b as int)),
        decreases b,
    {
        proof {
            lemma_trim_end_at(u, b as int);
        }
        b = b - 1;
    }
    let mut out: Vec<char> = Vec::new();
    let mut i: usize = 0;
    while i < b
        invariant
            0 <= i <= b,
            b <= n - a,
            n == v@.len(),
            u == v@.subrange(a as int, n as int),
            out@ == u.subrange(0, i as int),
        decreases b - i,
    {
        out.push(v[a + i]);
        assert(u.subrange(0, i + 1) =~= u.subrange(0, i as int).push(u[i as int]));
        i = i + 1;
    }
    out
}

pub open spec fn lines_view(v: Seq<Vec<char>>) -> Seq<Seq<char>> {
    v.map_values(|l: Vec<char>| l@)
}

fn split_lines(v: &Vec<char>) -> (r: Vec<Vec<char>>)
    ensures
        lines_view(r@) == lines_of(v@),
{
    let mut done: Vec<Vec<char>> = Vec::new();
    let mut cur: Vec<char> = Vec::new();
    let mut i: usize = 0;
    assert(v@.take(0) =~= Seq::<char>::empty());
    assert(lines_view(done@).push(cur@) =~= seq![Seq::<char>::empty()]);
    while i < v.len()
        invariant
            0 <= i <= v@.len(),
            lines_of(v@.take(i as int)) == lines_view(done@).push(cur@),
        decreases v@.len() - i,
    {
        proof {
            lemma_take_last(v@, i as int);
        }
        if v[i] == '\n' {
            let ghost before = lines_view(done@).push(cur@);
            let mut fresh: Vec<char> = Vec::new();
            std::mem::swap(&mut fresh, &mut cur);
            done.push(fresh);
            assert(lines_view(done@).push(cur@) =~= before.push(Seq::empty()));
        } else {
            let ghost before = lines_view(done@).push(cur@);
            cur.push(v[i]);
            assert(lines_view(done@).push(cur@) =~= before.update(before.len() - 1, before.last().push(v@[i as int])));
        }
        i = i + 1;
    }
    assert(v@.take(v@.len() as int) =~= v@);
    done.push(cur);
    done
}

fn scoped_location(loc: &str, scope: &Option<String>) -> (r: String)
    ensures
        r@ == scoped(loc@, opt_view(*scope)),
{
    match scope {
        None => loc.to_owned(),
        Some(n) => {
            let mut v = chars_of(loc);
            let w = chars_of(n.as_str());
            v.push('<');
            let mut i: usize = 0;
            let ghost base = v@;
            while i < w.len()
                invariant
                    0 <= i <= w@.len(),
                    v@ == base + w@.take(i as int),
                decreases w@.len() - i,
            {
                v.push(w[i]);
                assert(w@.take(i + 1) =~= w@.take(i as int).push(w@[i as int]));
                i = i + 1;
            }
            v.push('>');
            assert(w@.take(w@.len() as int) =~= w@);
            assert(v@ =~= loc@ + seq!['<'] + n@ + seq!['>']);
            string_of(v.as_slice())
        },
    }
}

fn line_step(loc: &str, scope: &Option<String>, no: u32, line: &Vec<char>) -> (r: Effect)
    ensures
        effect_view(r) == line_effect(loc@, opt_view(*scope), no, line@),
{
    let t = trim(line);
    if t.len() == 0 {
        return Effect::Skip;
    }
    let ts = string_of(t.as_slice());
    match Pass::split_col(ts.as_str()) {
        Some((label, rest)) => match Pass::split_args(rest.as_str()) {
            Ok(ws) => {
                let lc = chars_of(label.as_str());
                let l = string_of(trim(&lc).as_slice());
                Effect::Emit(Statement::Definition((scoped_location(loc, scope), no, l, ws)))
            },
            Err(e) => Effect::Fail(e),
        },
        None => match Pass::split_args(ts.as_str()) {
            Err(e) => Effect::Fail(e),
            Ok(mut ws) => {
                if ws.len() == 0 {
                    return Effect::Skip;
                }
                let first = to_lower(ws[0].as_str());
                proof {
                    reveal_strlit("include");
                    reveal_strlit("scope");
                    assert("include"@ =~= word_splice());
                    assert("scope"@ =~= word_scope());
                }
                if same_text(first.as_str(), "include") {
                    if ws.len() == 1 {
                        Effect::Fail(ParseError::MissingArguments)
                    } else if ws.len() > 2 {
                        Effect::Fail(ParseError::TooManyArguments)
                    } else {
                        let path = ws.remove(1);
                        Effect::Emit(Statement::Include { line: no, path })
                    }
                } else if same_text(first.as_str(), "scope") {
                    if ws.len() == 1 {
                        Effect::Scope(None)
                    } else if ws.len() == 2 {
                        let n = ws.remove(1);
                        Effect::Scope(Some(n))
                    } else {
                        Effect::Fail(ParseError::TooManyArguments)
                    }
                } else {
                    let ghost all = ws@;
                    let label = ws.remove(0);
                    assert(strings_view(ws@) =~= strings_view(all).drop_first());
                    Effect::Emit(Statement::Record((scoped_location(loc, scope), no, label, ws)))
                }
            },
        },
    }
}

/// Splits the text of one file into two streams: type definitions, read by the
/// schema, and records, typed once every definition is known.
pub struct Pass {
    schema: Vec<(String, u32, String, Vec<String>)>,
    records: Vec<(String, u32, String, Vec<String>)>,
}

pub open spec fn entries_view(v: Seq<(String, u32, String, Vec<String>)>) -> Seq<(Seq<char>, u32, Seq<char>, Seq<Seq<char>>)> {
    v.map_values(|e: (String, u32, String, Vec<String>)| (e.0@, e.1, e.2@, strings_view(e.3@)))
}

impl Pass {
    pub closed spec fn definitions(&self) -> Seq<(Seq<char>, u32, Seq<char>, Seq<Seq<char>>)> {
        entries_view(self.schema@)
    }

    pub closed spec fn records(&self) -> Seq<(Seq<char>, u32, Seq<char>, Seq<Seq<char>>)> {
        entries_view(self.records@)
    }

    /// Two empty streams.
    pub fn new() -> (r: Pass)
        ensures
            r.definitions().len() == 0,
            r.records().len() == 0,
    {
        let r = Pass { schema: Vec::new(), records: Vec::new() };
        assert(r.definitions() =~= Seq::empty());
        assert(r.records() =~= Seq::empty());
        r
    }

    /// Adds a definition or a record to the end of its stream; a directive adds
    /// nothing.
    pub fn push(&mut self, st: Statement)
        ensures
            match st.view() {
                Stmt::Def(l, n, label, ws) => final(self).definitions() == old(self).definitions().push((l, n, label, ws))
                    && final(self).records() == old(self).records(),
                Stmt::Rec(l, n, label, ws) => final(self).records() == old(self).records().push((l, n, label, ws))
                    && final(self).definitions() == old(self).definitions(),
                Stmt::Inc(..) => final(self).definitions() == old(self).definitions() && final(self).records() == old(self).records(),
            },
    {
        match st {
            Statement::Definition(e) => {
                let ghost before = self.schema@;
                self.schema.push(e);
                assert(entries_view(self.schema@) =~= entries_view(before).push((e.0@, e.1, e.2@, strings_view(e.3@))));
            },
            Statement::Record(e) => {
                let ghost before = self.records@;
                self.records.push(e);
                assert(entries_view(self.records@) =~= entries_view(before).push((e.0@, e.1, e.2@, strings_view(e.3@))));
            },
            Statement::Include { .. } => {},
        }
    }

    /// Appends both streams of `other` to those of this pass.
    pub fn append(&mut self, other: Pass)
        ensures
            final(self).definitions() == old(self).definitions() + other.definitions(),
            final(self).records() == old(self).records() + other.records(),
    {
        let mut o = other;
        let ghost (a, b, c, d) = (self.schema@, o.schema@, self.records@, o.records@);
        self.schema.append(&mut o.schema);
        self.records.append(&mut o.records);
        assert(entries_view(self.schema@) =~= entries_view(a) + entries_view(b));
        assert(entries_view(self.records@) =~= entries_view(c) + entries_view(d));
    }

    /// The two streams: definitions, then records.
    pub fn destruct(self) -> (r: (Vec<(String, u32, String, Vec<String>)>, Vec<(String, u32, String, Vec<String>)>))
        ensures
            entries_view(r.0@) == self.definitions(),
            entries_view(r.1@) == self.records(),
    {
        (self.schema, self.records)
    }

    /// Reads the text of one file, labelled `location`: its statements in
    /// order, up to the first failure, which comes second.
    pub fn scan(location: &str, text: &str) -> (r: (Vec<Statement>, Option<Error>))
        requires
            text@.len() < 0xffff_ffff,
        ensures
            stmts_view(r.0@) == scanned(location@, text@).0,
            match (r.1, scanned(location@, text@).1) {
                (None, None) => true,
                (Some(Error::ParseError { location: l, line, reason }), Some((n, e))) => l@ == location@ && line as nat == n && reason == e,
                _ => false,
            },
    {
        let clean = match Pass::clear_comment(text) {
            Ok(c) => c,
            Err((line, reason)) => {
                let v: Vec<Statement> = Vec::new();
                assert(stmts_view(v@) =~= Seq::<Stmt>::empty());
                return (v, Some(Error::ParseError { location: location.to_owned(), line, reason }));
            },
        };
        let cv = chars_of(clean.as_str());
        let ls = split_lines(&cv);
        let ghost lsv = lines_view(ls@);
        let mut stmts: Vec<Statement> = Vec::new();
        let mut scope: Option<String> = None;
        let mut i: usize = 0;
        proof {
            lemma_lines_bound(cv@);
        }
        assert(stmts_view(stmts@) =~= Seq::<Stmt>::empty());
        while i < ls.len()
            invariant
                0 <= i <= ls@.len(),
                ls@.len() <= 0xffff_ffff,
                stripped(text@) == Ok::<Seq<char>, (nat, ParseError)>(cv@),
                lsv == lines_of(cv@),
                lsv == lines_view(ls@),
                scan_run(location@, lsv, i as nat) == (opt_view(scope), stmts_view(stmts@), None::<(u32, ParseError)>),
            decreases ls@.len() - i,
        {
            assert(lsv[i as int] == ls@[i as int]@);
            let no: u32 = (i + 1) as u32;
            match line_step(location, &scope, no, &ls[i]) {
                Effect::Skip => {},
                Effect::Scope(s) => {
                    scope = s;
                },
                Effect::Emit(st) => {
                    let ghost before = stmts@;
                    stmts.push(st);
                    assert(stmts_view(stmts@) =~= stmts_view(before).push(st.view()));
                },
                Effect::Fail(e) => {
                    proof {
                        assert(scan_run(location@, lsv, (i + 1) as nat).2 == Some((no, e)));
                        lemma_scan_fail_stays(location@, lsv, (i + 1) as nat, lsv.len());
                        let run = scan_run(location@, lsv, lsv.len());
                        assert(run.1 == stmts_view(stmts@));
                        assert(scanned(location@, text@).0 == run.1);
                    }
                    return (stmts, Some(Error::ParseError { location: location.to_owned(), line: no, reason: e }));
                },
            }
            i = i + 1;
        }
        (stmts, None)
    }

    /// The comment-free copy of `s`, in which every line end stays in place; or
    /// the line and reason for which `s` is rejected.
    pub fn clear_comment(s: &str) -> (r: Result<String, (u32, ParseError)>)
        requires
            s@.len() < 0xffff_ffff,
        ensures
            match r {
                Ok(t) => stripped(s@) == Ok::<Seq<char>, (nat, ParseError)>(t@) && t@.len() <= s@.len(),
                Err((line, e)) => stripped(s@) == Err::<Seq<char>, (nat, ParseError)>((line as nat, e)),
            },
    {
        let v = chars_of(s);
        let mut out: Vec<char> = Vec::new();
        let mut block = false;
        let mut star = false;
        let mut crossed = false;
        let mut comment = false;
        let mut open: Option<char> = None;
        let mut escaped = false;
        let mut slash = false;
        let mut line: u32 = 1;
        let mut i: usize = 0;
        assert(v@.take(0) =~= Seq::<char>::empty());
        while i < v.len()
            invariant
                v@ == s@,
                0 <= i <= v.len(),
                line as int <= i + 1,
                out@.len() <= i,
                slash ==> out@.len() > 0 && out@.last() == '/',
                block ==> !slash,
                comment ==> !slash,
                v.len() < 0xffff_ffff,
                strip_run(v@.take(i as int)) == Ok::<StripState, (nat, ParseError)>(
                    StripState { block, star, crossed, comment, open, escaped, slash, line: line as nat, out: out@ },
                ),
            decreases v.len() - i,
        {
            let c = v[i];
            proof {
                lemma_take_last(v@, i as int);
            }
            if block {
                if c == '/' && star {
                    block = false;
                    star = false;
                    if !crossed {
                        out.push(' ');
                    }
                    crossed = false;
                } else if c == '\n' {
                    star = false;
                    crossed = true;
                    line = line + 1;
                    out.push('\n');
                } else {
                    star = c == '*';
                }
            } else if comment && c != '\n' {
            } else if !escaped && open.is_none() && c == '#' {
                comment = true;
                slash = false;
            } else if !escaped && open.is_none() && c == '*' && slash {
                block = true;
                star = false;
                slash = false;
                out.pop();
            } else {
                let was_escaped = escaped;
                let was_open = open.is_none();
                escaped = if c == '\\' { !escaped } else { false };
                if c == '\\' || was_escaped {
                } else if let Some(q) = open {
                    if q == c {
                        open = None;
                    }
                } else if quote(c) {
                    open = Some(c);
                }
                slash = c == '/' && !was_escaped && was_open;
                if c == '\n' {
                    if open.is_some() {
                        proof {
                            lemma_strip_err_stays(v@, i + 1);
                            assert(v@.take(v.len() as int) =~= v@);
                        }
                        return Err((line, ParseError::UnclosedString));
                    }
                    comment = false;
                    slash = false;
                    line = line + 1;
                }
                out.push(c);
            }
            i = i + 1;
        }
        assert(v@.take(v.len() as int) =~= v@);
        if block {
            return Err((line, ParseError::UnclosedMultiLineComment));
        }
        if open.is_some() {
            return Err((line, ParseError::UnclosedString));
        }
        Ok(string_of(out.as_slice()))
    }

    /// Splits a definition line at its first colon that is neither quoted nor
    /// escaped; `None` when it has none.
    pub fn split_col(s: &str) -> (r: Option<(String, String)>)
        ensures
            match r {
                Some((a, b)) => split_at_colon(s@) == Some((a@, b@)),
                None => split_at_colon(s@) is None,
            },
    {
        let v = chars_of(s);
        let mut before: Vec<char> = Vec::new();
        let mut after: Vec<char> = Vec::new();
        let mut open: Option<char> = None;
        let mut escaped = false;
        let mut found = false;
        let mut i: usize = 0;
        assert(v@.take(0) =~= Seq::<char>::empty());
        while i < v.len()
            invariant
                v@ == s@,
                0 <= i <= v.len(),
                col_run(v@.take(i as int)) == (ColState { open, escaped, found, before: before@, after: after@ }),
            decreases v.len() - i,
        {
            let c = v[i];
            proof {
                lemma_take_last(v@, i as int);
            }
            if !escaped && c != '\\' && open.is_none() && c == ':' && !found {
                found = true;
            } else {
                let was_escaped = escaped;
                escaped = !escaped && c == '\\';
                if was_escaped || c == '\\' {
                } else if let Some(q) = open {
                    if q == c {
                        open = None;
                    }
                } else if quote(c) {
                    open = Some(c);
                }
                if found {
                    after.push(c);
                } else {
                    before.push(c);
                }
            }
            i = i + 1;
        }
        assert(v@.take(v.len() as int) =~= v@);
        if found {
            Some((string_of(before.as_slice()), string_of(after.as_slice())))
        } else {
            None
        }
    }

    /// Splits `s` into words at blanks outside quotes. Quotes group a word and
    /// are dropped; a backslash takes the next character as it is.
    pub fn split_args(s: &str) -> (r: Result<Vec<String>, ParseError>)
        ensures
            match r {
                Ok(w) => words_of(s@) == Ok::<Seq<Seq<char>>, ParseError>(w@.map_values(|x: String| x@)),
                Err(e) => words_of(s@) == Err::<Seq<Seq<char>>, ParseError>(e),
            },
    {
        let v = chars_of(s);
        let mut word: Vec<char> = Vec::new();
        let mut words: Vec<String> = Vec::new();
        let mut open: Option<char> = None;
        let mut closed = false;
        let mut escaped = false;
        let mut i: usize = 0;
        assert(v@.take(0) =~= Seq::<char>::empty());
        assert(words@.map_values(|x: String| x@) =~= Seq::<Seq<char>>::empty());
        while i < v.len()
            invariant
                v@ == s@,
                0 <= i <= v.len(),
                word_run(v@.take(i as int)) == Ok::<WordState, ParseError>(
                    WordState { word: word@, words: words@.map_values(|x: String| x@), open, closed, escaped },
                ),
            decreases v.len() - i,
        {
            let c = v[i];
            proof {
                lemma_take_last(v@, i as int);
            }
            if !escaped && c == '\\' {
                escaped = true;
            } else if escaped {
                if open.is_none() && (blank(c) || closed) {
                    proof {
                        lemma_word_err_stays(v@, i + 1);
                        assert(v@.take(v.len() as int) =~= v@);
                    }
                    return Err(ParseError::IllegalArgument);
                }
                escaped = false;
                word.push(c);
            } else if let Some(q) = open {
                if q == c {
                    open = None;
                    closed = true;
                } else {
                    word.push(c);
                }
            } else if blank(c) {
                if word.len() > 0 || closed {
                    let w = string_of(word.as_slice());
                    proof {
                        assert(words@.push(w).map_values(|x: String| x@) =~= words@.map_values(|x: String| x@).push(word@));
                    }
                    words.push(w);
                }
                word = Vec::new();
                closed = false;
            } else if closed {
                proof {
                    lemma_word_err_stays(v@, i + 1);
                    assert(v@.take(v.len() as int) =~= v@);
                }
                return Err(ParseError::IllegalArgument);
            } else if quote(c) {
                open = Some(c);
            } else {
                word.push(c);
            }
            i = i + 1;
        }
        assert(v@.take(v.len() as int) =~= v@);
        if word.len() > 0 || closed {
            let w = string_of(word.as_slice());
            proof {
                assert(words@.push(w).map_values(|x: String| x@) =~= words@.map_values(|x: String| x@).push(word@));
            }
            words.push(w);
        }
        Ok(words)
    }
}

proof fn lemma_scan_fail_stays(loc: Seq<char>, lines: Seq<Seq<char>>, j: nat, n: nat)
    requires
        j <= n,
        scan_run(loc, lines, j).2 is Some,
    ensures
        scan_run(loc, lines, n) == scan_run(loc, lines, j),
    decreases n - j,
{
    if j < n {
        lemma_scan_fail_stays(loc, lines, j, (n - 1) as nat);
    }
}

proof fn lemma_lines_bound(s: Seq<char>)
    ensures
        1 <= lines_of(s).len() <= s.len() + 1,
    decreases s.len(),
{
    if s.len() > 0 {
        lemma_lines_bound(s.drop_last());
    }
}

/// Where the last component of the path `p` starts: just after its last `/`.
pub open spec fn name_start(p: Seq<char>) -> int
    decreases p.len(),
{
    if p.len() == 0 {
        0
    } else if p.last() == '/' {
        p.len() as int
    } else {
        name_start(p.drop_last())
    }
}

/// The default extension, with its dot.
pub open spec fn default_extension() -> Seq<char> {
    seq!['.', 'r', 'u', 'l', 'e', 's']
}

/// The label of what is read from the path `p`: the file's name without the
/// default extension where it has that extension, else the whole path.
pub open spec fn location_label(p: Seq<char>) -> Seq<char> {
    let s = name_start(p);
    if p.len() - s > 6 && p.subrange(p.len() - 6, p.len() as int) == default_extension() {
        p.subrange(s, p.len() - 6)
    } else {
        p
    }
}

proof fn lemma_name_start_bound(p: Seq<char>)
    ensures
        0 <= name_start(p) <= p.len(),
    decreases p.len(),
{
    if p.len() > 0 {
        lemma_name_start_bound(p.drop_last());
    }
}

impl Pass {
    /// The label under which the file at `path` is read: its name without the
    /// default extension `.rules` where it has that extension, else the path as
    /// given.
    pub fn location_of(path: &str) -> (r: String)
        ensures
            r@ == location_label(path@),
    {
        let v = chars_of(path);
        let mut start: usize = 0;
        let mut i: usize = 0;
        assert(v@.take(0) =~= Seq::<char>::empty());
        while i < v.len()
            invariant
                0 <= i <= v@.len(),
                v@ == path@,
                start as int == name_start(v@.take(i as int)),
            decreases v@.len() - i,
        {
            proof {
                lemma_take_last(v@, i as int);
            }
            if v[i] == '/' {
                start = i + 1;
            }
            i = i + 1;
        }
        assert(v@.take(v@.len() as int) =~= v@);
        proof {
            lemma_name_start_bound(v@);
        }
        let n = v.len();
        if n - start > 6 && v[n - 6] == '.' && v[n - 5] == 'r' && v[n - 4] == 'u' && v[n - 3] == 'l' && v[n - 2] == 'e' && v[n - 1] == 's' {
            assert(v@.subrange(n - 6, n as int) =~= default_extension());
            let mut out: Vec<char> = Vec::new();
            let mut j: usize = start;
            while j < n - 6
                invariant
                    start <= j <= n - 6,
                    n == v@.len(),
                    out@ == v@.subrange(start as int, j as int),
                decreases n - 6 - j,
            {
                out.push(v[j]);
                assert(v@.subrange(start as int, j + 1) =~= v@.subrange(start as int, j as int).push(v@[j as int]));
                j = j + 1;
            }
            string_of(out.as_slice())
        } else {
            proof {
                if n - start > 6 && v@.subrange(n - 6, n as int) == default_extension() {
                    assert(v@.subrange(n - 6, n as int)[0] == v@[n - 6]);
                    assert(v@.subrange(n - 6, n as int)[1] == v@[n - 5]);
                    assert(v@.subrange(n - 6, n as int)[2] == v@[n - 4]);
                    assert(v@.subrange(n - 6, n as int)[3] == v@[n - 3]);
                    assert(v@.subrange(n - 6, n as int)[4] == v@[n - 2]);
                    assert(v@.subrange(n - 6, n as int)[5] == v@[n - 1]);
                }
            }
            path.to_owned()
        }
    }
}

} // verus!
