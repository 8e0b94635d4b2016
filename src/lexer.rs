use crate::error::ParseError;
use crate::text::{is_blank, is_quote, lower_of};
use vstd::prelude::*;

verus! {

/// Where comment stripping stands after a prefix of the input.
pub struct StripState {
    /// Inside a block comment.
    pub block: bool,
    /// Inside a block comment, right after a `*`.
    pub star: bool,
    /// The open block comment has crossed a line end.
    pub crossed: bool,
    /// Inside a line comment.
    pub comment: bool,
    /// The quote character of the open string, if one is open.
    pub open: Option<char>,
    /// The previous character was an unpaired backslash.
    pub escaped: bool,
    /// The previous character was a `/` that may start a block comment.
    pub slash: bool,
    /// The line being read, counted from one.
    pub line: nat,
    /// What has been kept so far.
    pub out: Seq<char>,
}

pub open spec fn strip_start() -> StripState {
    StripState {
        block: false,
        star: false,
        crossed: false,
        comment: false,
        open: None,
        escaped: false,
        slash: false,
        line: 1,
        out: Seq::empty(),
    }
}

/// One character of comment stripping.
pub open spec fn strip_step(st: StripState, c: char) -> Result<StripState, (nat, ParseError)> {
    if st.block {
        if c == '/' && st.star {
            Ok(StripState {
                block: false,
                star: false,
                crossed: false,
                out: if st.crossed { st.out } else { st.out.push(' ') },
                ..st
            })
        } else if c == '\n' {
            Ok(StripState { star: false, crossed: true, line: st.line + 1, out: st.out.push('\n'), ..st })
        } else {
            Ok(StripState { star: c == '*', ..st })
        }
    } else if st.comment && c != '\n' {
        Ok(st)
    } else if !st.escaped && st.open is None && c == '#' {
        Ok(StripState { comment: true, slash: false, ..st })
    } else if !st.escaped && st.open is None && c == '*' && st.slash {
        Ok(StripState { block: true, star: false, slash: false, out: st.out.drop_last(), ..st })
    } else {
        let escaped = if c == '\\' { !st.escaped } else { false };
        let open = if c == '\\' || st.escaped {
            st.open
        } else if st.open is Some {
            if st.open == Some(c) { None } else { st.open }
        } else if is_quote(c) {
            Some(c)
        } else {
            None
        };
        let slash = c == '/' && !st.escaped && st.open is None;
        if c == '\n' {
            if open is Some {
                Err((st.line, ParseError::UnclosedString))
            } else {
                Ok(StripState {
                    comment: false,
                    open,
                    escaped,
                    slash: false,
                    line: st.line + 1,
                    out: st.out.push(c),
                    ..st
                })
            }
        } else {
            Ok(StripState { open, escaped, slash, out: st.out.push(c), ..st })
        }
    }
}

/// Comment stripping run over all of `s`, before the checks at its end.
pub open spec fn strip_run(s: Seq<char>) -> Result<StripState, (nat, ParseError)>
    decreases s.len(),
{
    if s.len() == 0 {
        Ok(strip_start())
    } else {
        match strip_run(s.drop_last()) {
            Ok(st) => strip_step(st, s.last()),
            Err(e) => Err(e),
        }
    }
}

/// The comment-free copy of `s`, or the line and reason it is rejected.
pub open spec fn stripped(s: Seq<char>) -> Result<Seq<char>, (nat, ParseError)> {
    match strip_run(s) {
        Ok(st) => if st.block {
            Err((st.line, ParseError::UnclosedMultiLineComment))
        } else if st.open is Some {
            Err((st.line, ParseError::UnclosedString))
        } else {
            Ok(st.out)
        },
        Err(e) => Err(e),
    }
}

/// Where the search for a colon stands after a prefix of the line.
pub struct ColState {
    pub open: Option<char>,
    pub escaped: bool,
    pub found: bool,
    pub before: Seq<char>,
    pub after: Seq<char>,
}

pub open spec fn col_step(st: ColState, c: char) -> ColState {
    if !st.escaped && c != '\\' && st.open is None && c == ':' && !st.found {
        ColState { found: true, ..st }
    } else {
        let escaped = !st.escaped && c == '\\';
        let open = if st.escaped || c == '\\' {
            st.open
        } else if st.open is Some {
            if st.open == Some(c) { None } else { st.open }
        } else if is_quote(c) {
            Some(c)
        } else {
            None
        };
        if st.found {
            ColState { escaped, open, after: st.after.push(c), ..st }
        } else {
            ColState { escaped, open, before: st.before.push(c), ..st }
        }
    }
}

pub open spec fn col_run(s: Seq<char>) -> ColState
    decreases s.len(),
{
    if s.len() == 0 {
        ColState { open: None, escaped: false, found: false, before: Seq::empty(), after: Seq::empty() }
    } else {
        col_step(col_run(s.drop_last()), s.last())
    }
}

/// The text before and after the first colon of `s` that is neither quoted nor
/// escaped, if there is one.
pub open spec fn split_at_colon(s: Seq<char>) -> Option<(Seq<char>, Seq<char>)> {
    let st = col_run(s);
    if st.found {
        Some((st.before, st.after))
    } else {
        None
    }
}

/// Where word splitting stands after a prefix of the text.
pub struct WordState {
    /// The word being read.
    pub word: Seq<char>,
    /// The words read so far.
    pub words: Seq<Seq<char>>,
    pub open: Option<char>,
    /// A string has just closed.
    pub closed: bool,
    pub escaped: bool,
}

pub open spec fn word_step(st: WordState, c: char) -> Result<WordState, ParseError> {
    if !st.escaped && c == '\\' {
        Ok(WordState { escaped: true, ..st })
    } else if st.escaped {
        if st.open is Some {
            Ok(WordState { escaped: false, word: st.word.push(c), ..st })
        } else if is_blank(c) || st.closed {
            Err(ParseError::IllegalArgument)
        } else {
            Ok(WordState { escaped: false, word: st.word.push(c), ..st })
        }
    } else if st.open is Some {
        if st.open == Some(c) {
            Ok(WordState { open: None, closed: true, ..st })
        } else {
            Ok(WordState { word: st.word.push(c), ..st })
        }
    } else if is_blank(c) {
        Ok(WordState {
            word: Seq::empty(),
            words: if st.word.len() == 0 && !st.closed { st.words } else { st.words.push(st.word) },
            closed: false,
            ..st
        })
    } else if st.closed {
        Err(ParseError::IllegalArgument)
    } else if is_quote(c) {
        Ok(WordState { open: Some(c), ..st })
    } else {
        Ok(WordState { word: st.word.push(c), ..st })
    }
}

pub open spec fn word_run(s: Seq<char>) -> Result<WordState, ParseError>
    decreases s.len(),
{
    if s.len() == 0 {
        Ok(WordState { word: Seq::empty(), words: Seq::empty(), open: None, closed: false, escaped: false })
    } else {
        match word_run(s.drop_last()) {
            Ok(st) => word_step(st, s.last()),
            Err(e) => Err(e),
        }
    }
}

/// The words of `s`, or why it cannot be split. A quoted word is kept even
/// when it is empty.
pub open spec fn words_of(s: Seq<char>) -> Result<Seq<Seq<char>>, ParseError> {
    match word_run(s) {
        Ok(st) => Ok(if st.word.len() == 0 && !st.closed { st.words } else { st.words.push(st.word) }),
        Err(e) => Err(e),
    }
}

/// How many line ends `s` holds.
pub open spec fn newlines(s: Seq<char>) -> nat
    decreases s.len(),
{
    if s.len() == 0 {
        0
    } else {
        newlines(s.drop_last()) + if s.last() == '\n' { 1nat } else { 0nat }
    }
}

/// Once comment stripping fails on a prefix, it fails on the whole input with
/// the same line and reason.
pub proof fn lemma_strip_err_stays(s: Seq<char>, j: int)
    requires
        0 <= j <= s.len(),
        strip_run(s.take(j)) is Err,
    ensures
        strip_run(s) == strip_run(s.take(j)),
    decreases s.len(),
{
    if j == s.len() {
        assert(s.take(j) =~= s);
    } else {
        assert(s.drop_last().take(j) =~= s.take(j));
        lemma_strip_err_stays(s.drop_last(), j);
    }
}

/// Once word splitting fails on a prefix, it fails on the whole input with the
/// same reason.
pub proof fn lemma_word_err_stays(s: Seq<char>, j: int)
    requires
        0 <= j <= s.len(),
        word_run(s.take(j)) is Err,
    ensures
        word_run(s) == word_run(s.take(j)),
    decreases s.len(),
{
    if j == s.len() {
        assert(s.take(j) =~= s);
    } else {
        assert(s.drop_last().take(j) =~= s.take(j));
        lemma_word_err_stays(s.drop_last(), j);
    }
}

proof fn lemma_newlines_push(s: Seq<char>, c: char)
    ensures
        newlines(s.push(c)) == newlines(s) + if c == '\n' { 1nat } else { 0nat },
{
    assert(s.push(c).drop_last() =~= s);
}

proof fn lemma_strip_run_lines(s: Seq<char>)
    ensures
        strip_run(s) matches Ok(st) ==> {
            &&& newlines(st.out) == newlines(s)
            &&& st.slash ==> st.out.len() > 0 && st.out.last() == '/'
            &&& st.block ==> !st.slash
            &&& st.comment ==> !st.slash
        },
    decreases s.len(),
{
    if s.len() > 0 {
        lemma_strip_run_lines(s.drop_last());
        if let Ok(st) = strip_run(s.drop_last()) {
            let c = s.last();
            lemma_newlines_push(st.out, c);
            lemma_newlines_push(st.out, ' ');
            if st.slash {
                assert(st.out.drop_last().push('/') =~= st.out);
                lemma_newlines_push(st.out.drop_last(), '/');
            }
        }
    }
}

proof fn lemma_strip_run_line(s: Seq<char>)
    ensures
        strip_run(s) matches Ok(st) ==> {
            &&& st.line == newlines(s) + 1
            &&& st.comment ==> st.open is None
            &&& st.block ==> st.open is None
            &&& st.open matches Some(q) ==> is_quote(q)
        },
        strip_run(s) matches Err((l, e)) ==> e == ParseError::UnclosedString && exists|j: int|
            0 <= j < s.len() && s[j] == '\n' && l == newlines(s.take(j)) + 1 && (strip_run(s.take(j)) matches Ok(st)
                && st.open is Some),
    decreases s.len(),
{
    if s.len() > 0 {
        let p = s.drop_last();
        lemma_strip_run_line(p);
        match strip_run(p) {
            Err((l, e)) => {
                let j = choose|j: int|
                    0 <= j < p.len() && p[j] == '\n' && l == newlines(p.take(j)) + 1 && (strip_run(p.take(j)) matches Ok(st)
                        && st.open is Some);
                assert(s.take(j) =~= p.take(j));
                assert(s[j] == p[j]);
            },
            Ok(st) => {
                let j = p.len() as int;
                assert(s.take(j) =~= p);
            },
        }
    }
}

/// An unclosed string is reported on the line where it is open: the first
/// line end reached while a string is open, or the end of the input, counting
/// lines from one.
pub proof fn lemma_unclosed_string_line(s: Seq<char>)
    ensures
        stripped(s) is Err && stripped(s)->Err_0.1 == ParseError::UnclosedString ==> exists|j: int|
            0 <= j <= s.len() && (j == s.len() || s[j] == '\n') && stripped(s)->Err_0.0 == newlines(#[trigger] s.take(j)) + 1 && (strip_run(
                s.take(j),
            ) matches Ok(st) && st.open is Some),
{
    lemma_strip_run_line(s);
    match strip_run(s) {
        Ok(st) => {
            assert(s.take(s.len() as int) =~= s);
            if !st.block && st.open is Some {
                assert(stripped(s) == Err::<Seq<char>, (nat, ParseError)>((st.line, ParseError::UnclosedString)));
                let j = s.len() as int;
                assert(0 <= j <= s.len() && (j == s.len() || s[j] == '\n') && st.line == newlines(#[trigger] s.take(j)) + 1 && (strip_run(
                    s.take(j),
                ) matches Ok(st2) && st2.open is Some));
                assert(exists|j: int|
                0 <= j <= s.len() && (j == s.len() || s[j] == '\n') && stripped(s)->Err_0.0 == newlines(#[trigger] s.take(j)) + 1 && (strip_run(
                    s.take(j),
                ) matches Ok(st3) && st3.open is Some));
            }
        },
        Err((l, e)) => {
            let j = choose|j: int|
                0 <= j < s.len() && s[j] == '\n' && l == newlines(#[trigger] s.take(j)) + 1 && (strip_run(s.take(j)) matches Ok(st)
                    && st.open is Some);
            assert(0 <= j <= s.len() && (j == s.len() || s[j] == '\n'));
            assert(stripped(s) == Err::<Seq<char>, (nat, ParseError)>((l, e)));
            assert(strip_run(s.take(j)) matches Ok(st3) && st3.open is Some);
            assert(exists|j: int|
                0 <= j <= s.len() && (j == s.len() || s[j] == '\n') && stripped(s)->Err_0.0 == newlines(#[trigger] s.take(j)) + 1 && (strip_run(
                    s.take(j),
                ) matches Ok(st3) && st3.open is Some));
        },
    }
}

/// Comment stripping keeps every line end: what it returns holds exactly as
/// many line ends as its input.
pub proof fn lemma_strip_keeps_line_count(s: Seq<char>)
    requires
        stripped(s) is Ok,
    ensures
        newlines(stripped(s)->Ok_0) == newlines(s),
{
    lemma_strip_run_lines(s);
}

/// White space, trimmed from both ends of a line.
pub open spec fn is_space(c: char) -> bool {
    is_blank(c)
}

pub open spec fn trim_start(s: Seq<char>) -> Seq<char>
    decreases s.len(),
{
    if s.len() > 0 && is_space(s[0]) {
        trim_start(s.drop_first())
    } else {
        s
    }
}

pub open spec fn trim_end(s: Seq<char>) -> Seq<char>
    decreases s.len(),
{
    if s.len() > 0 && is_space(s.last()) {
        trim_end(s.drop_last())
    } else {
        s
    }
}

/// `s` without its leading and trailing blanks.
pub open spec fn trimmed(s: Seq<char>) -> Seq<char> {
    trim_end(trim_start(s))
}

/// The lines of `s`: the pieces between line ends.
pub open spec fn lines_of(s: Seq<char>) -> Seq<Seq<char>>
    decreases s.len(),
{
    if s.len() == 0 {
        seq![Seq::empty()]
    } else {
        let ls = lines_of(s.drop_last());
        if s.last() == '\n' {
            ls.push(Seq::empty())
        } else {
            ls.update(ls.len() - 1, ls.last().push(s.last()))
        }
    }
}

/// One statement of a file, as read.
pub enum Stmt {
    /// Location, line, label and kind words of a definition.
    Def(Seq<char>, u32, Seq<char>, Seq<Seq<char>>),
    /// Location, line, label and field words of a record.
    Rec(Seq<char>, u32, Seq<char>, Seq<Seq<char>>),
    /// Line and path of a directive that splices another file in.
    Inc(u32, Seq<char>),
}

/// What one line does.
pub enum LineEffect {
    Skip,
    Scope(Option<Seq<char>>),
    Emit(Stmt),
    Fail(ParseError),
}

/// The location given to what is read at `loc` inside scope `scope`.
pub open spec fn scoped(loc: Seq<char>, scope: Option<Seq<char>>) -> Seq<char> {
    match scope {
        Some(n) => loc + seq!['<'] + n + seq!['>'],
        None => loc,
    }
}

pub open spec fn word_scope() -> Seq<char> {
    seq!['s', 'c', 'o', 'p', 'e']
}

pub open spec fn word_splice() -> Seq<char> {
    seq!['i', 'n', 'c', 'l', 'u', 'd', 'e']
}

/// What line `no` of a file read at `loc` does, inside scope `scope`.
pub open spec fn line_effect(loc: Seq<char>, scope: Option<Seq<char>>, no: u32, line: Seq<char>) -> LineEffect {
    let t = trimmed(line);
    if t.len() == 0 {
        LineEffect::Skip
    } else {
        match split_at_colon(t) {
            Some((label, rest)) => match words_of(rest) {
                Ok(ws) => LineEffect::Emit(Stmt::Def(scoped(loc, scope), no, trimmed(label), ws)),
                Err(e) => LineEffect::Fail(e),
            },
            None => match words_of(t) {
                Err(e) => LineEffect::Fail(e),
                Ok(ws) => if ws.len() == 0 {
                    LineEffect::Skip
                } else if lower_of(ws[0]) == word_splice() {
                    if ws.len() == 1 {
                        LineEffect::Fail(ParseError::MissingArguments)
                    } else if ws.len() > 2 {
                        LineEffect::Fail(ParseError::TooManyArguments)
                    } else {
                        LineEffect::Emit(Stmt::Inc(no, ws[1]))
                    }
                } else if lower_of(ws[0]) == word_scope() {
                    if ws.len() == 1 {
                        LineEffect::Scope(None)
                    } else if ws.len() == 2 {
                        LineEffect::Scope(Some(ws[1]))
                    } else {
                        LineEffect::Fail(ParseError::TooManyArguments)
                    }
                } else {
                    LineEffect::Emit(Stmt::Rec(scoped(loc, scope), no, ws[0], ws.drop_first()))
                },
            },
        }
    }
}

/// Reading the first `n` lines of a file at `loc`: the scope in force, the
/// statements so far, and the first failure with its line, if any.
pub open spec fn scan_run(loc: Seq<char>, lines: Seq<Seq<char>>, n: nat) -> (Option<Seq<char>>, Seq<Stmt>, Option<(u32, ParseError)>)
    decreases n,
{
    if n == 0 {
        (None, Seq::empty(), None)
    } else {
        let prev = scan_run(loc, lines, (n - 1) as nat);
        if prev.2 is Some {
            prev
        } else {
            match line_effect(loc, prev.0, n as u32, lines[n - 1]) {
                LineEffect::Skip => (prev.0, prev.1, None),
                LineEffect::Scope(s) => (s, prev.1, None),
                LineEffect::Emit(st) => (prev.0, prev.1.push(st), None),
                LineEffect::Fail(e) => (prev.0, prev.1, Some((n as u32, e))),
            }
        }
    }
}

/// Reading the file `text` at `loc`: the statements in order up to the first
/// failure, and that failure with its line, if any.
pub open spec fn scanned(loc: Seq<char>, text: Seq<char>) -> (Seq<Stmt>, Option<(nat, ParseError)>) {
    match stripped(text) {
        Err((line, e)) => (Seq::empty(), Some((line, e))),
        Ok(clean) => {
            let ls = lines_of(clean);
            let run = scan_run(loc, ls, ls.len());
            (run.1, match run.2 {
                Some((l, e)) => Some((l as nat, e)),
                None => None,
            })
        },
    }
}

} // verus!
