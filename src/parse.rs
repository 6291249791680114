use vstd::prelude::*;
use std::rc::Rc;
use crate::symtable::{Symbol, SymTable};
use vstd::string::StringExecFns;
use vstd::std_specs::iter::IteratorSpec;

verus! {

/// A parsed expression. Lists are shared, never mutated after construction.
#[derive(Debug, PartialEq, Eq, Clone)]
pub enum SExp {
    Sym(Symbol),
    LString(String),
    List(Rc<Vec<SExp>>),
    Num(i32),
    Boolean(bool),
    Nil,
}

/// Why the reader rejected its input.
#[derive(Debug)]
pub struct ParseError {
    pub msg: String,
}

pub open spec fn is_ws(c: char) -> bool {
    c == ' ' || c == '\n' || c == '\r' || c == '\t'
}

pub open spec fn is_lower(c: char) -> bool {
    'a' <= c && c <= 'z'
}

pub open spec fn is_digit(c: char) -> bool {
    '0' <= c && c <= '9'
}

pub open spec fn digit_value(c: char) -> int {
    c as int - '0' as int
}

/// Where blanks and `;` comments that start at `i` end. `in_comment` says
/// that `i` lies inside a comment, which runs up to and including a newline.
pub open spec fn skip_end(s: Seq<char>, i: int, in_comment: bool) -> int
    decreases s.len() - i,
{
    if i < 0 || i >= s.len() {
        i
    } else if in_comment {
        skip_end(s, i + 1, s[i] != '\n')
    } else if is_ws(s[i]) {
        skip_end(s, i + 1, false)
    } else if s[i] == ';' {
        skip_end(s, i + 1, true)
    } else {
        i
    }
}

/// End of the run of lowercase letters that starts at `i`.
pub open spec fn lower_end(s: Seq<char>, i: int) -> int
    decreases s.len() - i,
{
    if 0 <= i < s.len() && is_lower(s[i]) {
        lower_end(s, i + 1)
    } else {
        i
    }
}

/// End of the run of decimal digits that starts at `i`.
pub open spec fn digit_end(s: Seq<char>, i: int) -> int
    decreases s.len() - i,
{
    if 0 <= i < s.len() && is_digit(s[i]) {
        digit_end(s, i + 1)
    } else {
        i
    }
}

/// The number that a run of decimal digits denotes.
pub open spec fn digits_value(d: Seq<char>) -> int
    decreases d.len(),
{
    if d.len() == 0 {
        0
    } else {
        digits_value(d.drop_last()) * 10 + digit_value(d.last())
    }
}

/// The character that `\c` stands for inside a string literal.
pub open spec fn escaped(c: char) -> Option<char> {
    if c == 'n' {
        Some('\n')
    } else if c == 't' {
        Some('\t')
    } else if c == 'r' {
        Some('\r')
    } else if c == '"' {
        Some('"')
    } else if c == '\\' {
        Some('\\')
    } else {
        None
    }
}

/// What reading the body of a string literal gives.
pub enum StrScan {
    /// The decoded text, and the position just after the closing quote.
    Closed(Seq<char>, int),
    BadEscape,
    Unterminated,
}

pub open spec fn prepend(c: Seq<char>, r: StrScan) -> StrScan {
    match r {
        StrScan::Closed(t, e) => StrScan::Closed(c + t, e),
        other => other,
    }
}

/// Reads a string literal body from `i` (just past the opening quote).
pub open spec fn scan_string(s: Seq<char>, i: int) -> StrScan
    decreases s.len() - i,
{
    if i < 0 || i >= s.len() {
        StrScan::Unterminated
    } else if s[i] == '"' {
        StrScan::Closed(Seq::empty(), i + 1)
    } else if s[i] == '\\' {
        if i + 1 >= s.len() {
            StrScan::Unterminated
        } else {
            match escaped(s[i + 1]) {
                Some(c) => prepend(seq![c], scan_string(s, i + 2)),
                None => StrScan::BadEscape,
            }
        }
    } else {
        prepend(seq![s[i]], scan_string(s, i + 1))
    }
}

/// An expression as text denotes it, with names in place of symbols.
pub enum Form {
    Name(Seq<char>),
    Text(Seq<char>),
    Int(i32),
    Group(Seq<Form>),
}

/// Reads one expression at `i`: its form and the position after it.
pub open spec fn read_form(s: Seq<char>, i: int) -> Option<(Form, int)>
    decreases s.len() - i, 0nat,
{
    if i < 0 || i >= s.len() {
        None
    } else if s[i] == '(' {
        let k = skip_end(s, i + 1, false);
        if k <= i || k > s.len() {
            None
        } else {
            read_items(s, k, Seq::empty())
        }
    } else if s[i] == '"' {
        match scan_string(s, i + 1) {
            StrScan::Closed(text, end) => Some((Form::Text(text), end)),
            _ => None,
        }
    } else if is_lower(s[i]) {
        let end = lower_end(s, i);
        Some((Form::Name(s.subrange(i, end)), end))
    } else if is_digit(s[i]) {
        let end = digit_end(s, i);
        let v = digits_value(s.subrange(i, end));
        if v <= i32::MAX {
            Some((Form::Int(v as i32), end))
        } else {
            None
        }
    } else {
        None
    }
}

/// Reads the rest of a list from `i`, after the items `acc`, up to and
/// including its closing parenthesis.
pub open spec fn read_items(s: Seq<char>, i: int, acc: Seq<Form>) -> Option<(Form, int)>
    decreases s.len() - i, 1nat,
{
    if i < 0 || i >= s.len() {
        None
    } else if s[i] == ')' {
        Some((Form::Group(acc), i + 1))
    } else {
        match read_form(s, i) {
            None => None,
            Some((f, j)) => {
                let k = skip_end(s, j, false);
                if k <= i || k > s.len() {
                    None
                } else {
                    read_items(s, k, acc.push(f))
                }
            },
        }
    }
}

/// `e` is what `f` reads as, with names interned in `t`.
pub open spec fn denotes(t: SymTable, e: SExp, f: Form) -> bool
    decreases f,
{
    match f {
        Form::Name(n) => e is Sym && e->Sym_0.owner() == t.tag() && e->Sym_0.slot() < t.names().len()
            && t.names()[e->Sym_0.slot() as int] == n,
        Form::Text(x) => e is LString && e->LString_0@ == x,
        Form::Int(v) => e == SExp::Num(v),
        Form::Group(fs) => e is List && e->List_0@.len() == fs.len() && forall|k: int|
            0 <= k < fs.len() ==> denotes(t, #[trigger] e->List_0@[k], fs[k]),
    }
}

/// What an expression denotes stays so as its table grows.
proof fn lemma_denotes_grows(t1: SymTable, t2: SymTable, e: SExp, f: Form)
    requires
        denotes(t1, e, f),
        t2.tag() == t1.tag(),
        t1.names().len() <= t2.names().len(),
        t2.names().subrange(0, t1.names().len() as int) == t1.names(),
    ensures
        denotes(t2, e, f),
    decreases f,
{
    match f {
        Form::Name(n) => {
            assert(t2.names()[e->Sym_0.slot() as int] == t2.names().subrange(
                0,
                t1.names().len() as int,
            )[e->Sym_0.slot() as int]);
        },
        Form::Group(fs) => {
            assert forall|k: int| 0 <= k < fs.len() implies denotes(t2, #[trigger] e->List_0@[k], fs[k]) by {
                lemma_denotes_grows(t1, t2, e->List_0@[k], fs[k]);
            }
        },
        _ => {},
    }
}

proof fn lemma_digits_nonneg(d: Seq<char>)
    requires
        forall|k: int| 0 <= k < d.len() ==> is_digit(d[k]),
    ensures
        digits_value(d) >= 0,
    decreases d.len(),
{
    if d.len() > 0 {
        lemma_digits_nonneg(d.drop_last());
    }
}

/// A longer run of digits never denotes a smaller number.
proof fn lemma_digits_monotone(s: Seq<char>, a: int, b: int, c: int)
    requires
        0 <= a <= b <= c <= s.len(),
        forall|k: int| a <= k < c ==> is_digit(s[k]),
    ensures
        digits_value(s.subrange(a, b)) <= digits_value(s.subrange(a, c)),
    decreases c - b,
{
    if b < c {
        lemma_digits_monotone(s, a, b, c - 1);
        assert(s.subrange(a, c).drop_last() =~= s.subrange(a, c - 1));
        lemma_digits_nonneg(s.subrange(a, c - 1));
    }
}

proof fn lemma_digit_end_bounds(s: Seq<char>, i: int)
    requires
        0 <= i <= s.len(),
    ensures
        i <= digit_end(s, i) <= s.len(),
        forall|k: int| i <= k < digit_end(s, i) ==> is_digit(s[k]),
        digit_end(s, i) < s.len() ==> !is_digit(s[digit_end(s, i)]),
    decreases s.len() - i,
{
    if i < s.len() && is_digit(s[i]) {
        lemma_digit_end_bounds(s, i + 1);
    }
}

proof fn lemma_lower_end_bounds(s: Seq<char>, i: int)
    requires
        0 <= i <= s.len(),
    ensures
        i <= lower_end(s, i) <= s.len(),
    decreases s.len() - i,
{
    if i < s.len() && is_lower(s[i]) {
        lemma_lower_end_bounds(s, i + 1);
    }
}

/// The characters of `text`, in order.
fn chars_of(text: &str) -> (r: Vec<char>)
    ensures
        r@ == text@,
{
    broadcast use vstd::string::group_string_axioms;

    let mut it = text.chars();
    let mut v: Vec<char> = Vec::new();
    loop
        invariant
            v@ + it.remaining() == text@,
            it.decrease() is Some,
        ensures
            v@ == text@,
        decreases it.decrease()->0,
    {
        let ghost before = it.remaining();
        match it.next() {
            Some(c) => {
                v.push(c);
                assert(v@ + it.remaining() =~= text@) by {
                    assert(before =~= seq![c] + it.remaining());
                    assert(v@ + it.remaining() =~= (v@.drop_last() + seq![c]) + it.remaining());
                }
            },
            None => {
                assert(v@ =~= text@);
                break;
            },
        }
    }
    v
}

/// Relies on std's `String::push`: appends one character.
#[verifier::external_body]
fn push_char(s: &mut String, c: char)
    ensures
        final(s)@ == old(s)@.push(c),
{
    s.push(c)
}

fn error(msg: &str) -> (r: ParseError) {
    ParseError { msg: msg.to_owned() }
}

/// How a character is shown in a diagnostic: newline, tab and carriage
/// return as their escapes, anything else as itself.
pub open spec fn shown(c: char) -> Seq<char> {
    if c == '\n' {
        seq!['\\', 'n']
    } else if c == '\t' {
        seq!['\\', 't']
    } else if c == '\r' {
        seq!['\\', 'r']
    } else {
        seq![c]
    }
}

fn esc(c: char) -> (r: String)
    ensures
        r@ == shown(c),
{
    let mut s = String::new();
    if c == '\n' || c == '\t' || c == '\r' {
        push_char(&mut s, '\\');
        push_char(&mut s, if c == '\n' { 'n' } else if c == '\t' { 't' } else { 'r' });
    } else {
        push_char(&mut s, c);
    }
    assert(s@ =~= shown(c));
    s
}

/// The diagnostic for finding `found` where `wanted` was due.
fn mismatch(wanted: char, found: char) -> (r: ParseError)
    ensures
        r.msg@ == "expected '"@ + shown(wanted) + "', got '"@ + shown(found) + "'"@,
{
    let mut msg = String::from_str("expected '");
    msg.append(esc(wanted).as_str());
    msg.append("', got '");
    msg.append(esc(found).as_str());
    msg.append("'");
    ParseError { msg }
}

/// `r` is a string literal whose text is `text`.
pub open spec fn holds_text(r: Result<SExp, ParseError>, text: Seq<char>) -> bool {
    match r {
        Ok(SExp::LString(s)) => s@ == text,
        _ => false,
    }
}

/// A recursive-descent reader over a text, with one character of lookahead.
pub struct Parser {
    st: SymTable,
    chars: Vec<char>,
    pos: usize,
}

impl Parser {
    pub closed spec fn input(&self) -> Seq<char> {
        self.chars@
    }

    pub closed spec fn position(&self) -> int {
        self.pos as int
    }

    pub closed spec fn table(&self) -> SymTable {
        self.st
    }

    pub open spec fn wf(&self) -> bool {
        &&& 0 <= self.position() <= self.input().len()
        &&& self.table().wf()
    }

    /// The character at `i`, if the input reaches that far.
    pub open spec fn char_at(&self, i: int) -> Option<char> {
        if 0 <= i < self.input().len() {
            Some(self.input()[i])
        } else {
            None
        }
    }

    /// The run of lowercase letters at the position was read and interned.
    pub open spec fn reads_symbol(before: Parser, after: Parser, r: Result<SExp, ParseError>) -> bool {
        let end = lower_end(before.input(), before.position());
        let name = before.input().subrange(before.position(), end);
        &&& after.position() == end
        &&& exists|sym: Symbol|
            r == Ok::<SExp, ParseError>(SExp::Sym(sym)) && SymTable::interning(
                before.table(),
                name,
                after.table(),
                sym,
            )
    }

    /// The string literal at the position was read, or rejected where its
    /// body is unterminated or holds an unknown escape.
    pub open spec fn reads_string(before: Parser, after: Parser, r: Result<SExp, ParseError>) -> bool {
        &&& after.table() == before.table()
        &&& match scan_string(before.input(), before.position() + 1) {
            StrScan::Closed(text, end) => after.position() == end && holds_text(r, text),
            _ => r is Err,
        }
    }

    /// The run of digits at the position was read as a number, or rejected
    /// where that number does not fit a signed 32-bit integer.
    pub open spec fn reads_number(before: Parser, after: Parser, r: Result<SExp, ParseError>) -> bool {
        let end = digit_end(before.input(), before.position());
        let v = digits_value(before.input().subrange(before.position(), end));
        &&& after.table() == before.table()
        &&& v <= i32::MAX ==> r == Ok::<SExp, ParseError>(SExp::Num(v as i32)) && after.position()
            == end
        &&& v > i32::MAX ==> r is Err
    }

    /// The expression at the position was read as `read_form` says, with its
    /// names interned in `after`'s table; where that gives none, it failed.
    pub open spec fn reads_form(before: Parser, after: Parser, r: Result<SExp, ParseError>) -> bool {
        match read_form(before.input(), before.position()) {
            Some((f, j)) => r is Ok && denotes(after.table(), r->Ok_0, f) && after.position() == j,
            None => r is Err,
        }
    }

    /// `after`'s table extends `before`'s: same tag, earlier names kept.
    pub open spec fn table_grows(before: Parser, after: Parser) -> bool {
        &&& after.table().tag() == before.table().tag()
        &&& before.table().names().len() <= after.table().names().len()
        &&& after.table().names().subrange(0, before.table().names().len() as int)
            == before.table().names()
    }

    pub fn new(st: SymTable, text: &str) -> (r: Parser)
        requires
            st.wf(),
        ensures
            r.wf(),
            r.input() == text@,
            r.position() == 0,
            r.table() == st,
    {
        Parser { st, chars: chars_of(text), pos: 0 }
    }

    /// Gives the symbol table back once reading is done.
    pub fn into_table(self) -> (r: SymTable)
        ensures
            r == self.table(),
    {
        self.st
    }

    fn peek(&self) -> (r: Option<char>)
        requires
            self.wf(),
        ensures
            r == self.char_at(self.position()),
    {
        if self.pos < self.chars.len() {
            Some(self.chars[self.pos])
        } else {
            None
        }
    }

    fn next(&mut self) -> (r: Option<char>)
        requires
            old(self).wf(),
        ensures
            final(self).wf(),
            r == old(self).char_at(old(self).position()),
            final(self).input() == old(self).input(),
            final(self).table() == old(self).table(),
            final(self).position() == if r is Some {
                old(self).position() + 1
            } else {
                old(self).position()
            },
    {
        if self.pos < self.chars.len() {
            let c = self.chars[self.pos];
            self.pos = self.pos + 1;
            Some(c)
        } else {
            None
        }
    }

    /// Skips blanks (space, tab, CR, LF) and `;` comments.
    fn skip_ws(&mut self)
        requires
            old(self).wf(),
        ensures
            final(self).wf(),
            final(self).input() == old(self).input(),
            final(self).table() == old(self).table(),
            final(self).position() == skip_end(old(self).input(), old(self).position(), false),
    {
        let mut in_comment = false;
        while self.pos < self.chars.len()
            invariant
                self.wf(),
                self.input() == old(self).input(),
                self.table() == old(self).table(),
                skip_end(self.input(), self.position(), in_comment) == skip_end(
                    old(self).input(),
                    old(self).position(),
                    false,
                ),
            decreases self.input().len() - self.position(),
        {
            let c = self.chars[self.pos];
            if in_comment {
                in_comment = c != '\n';
            } else if c == ' ' || c == '\n' || c == '\r' || c == '\t' {
            } else if c == ';' {
                in_comment = true;
            } else {
                return;
            }
            self.pos = self.pos + 1;
        }
    }

    /// Consumes `e`, or fails where the next character is anything else.
    fn expect(&mut self, e: char) -> (r: Result<(), ParseError>)
        requires
            old(self).wf(),
        ensures
            final(self).wf(),
            final(self).input() == old(self).input(),
            final(self).table() == old(self).table(),
            r is Ok <==> old(self).char_at(old(self).position()) == Some(e),
            r is Ok ==> final(self).position() == old(self).position() + 1,
    {
        match self.next() {
            Some(c) => {
                if c == e {
                    Ok(())
                } else {
                    Err(mismatch(e, c))
                }
            },
            None => Err(error("unexpected end of input")),
        }
    }

    fn peek_matches(&self, e: char) -> (r: bool)
        requires
            self.wf(),
        ensures
            r == (self.char_at(self.position()) == Some(e)),
    {
        match self.peek() {
            Some(c) => c == e,
            None => false,
        }
    }

    /// Reads the run of lowercase letters at the current position and
    /// interns it.
    fn sym(&mut self) -> (r: Result<SExp, ParseError>)
        requires
            old(self).wf(),
        ensures
            final(self).wf(),
            final(self).input() == old(self).input(),
            Parser::reads_symbol(*old(self), *final(self), r),
    {
        let mut s = String::new();
        let start = self.pos;
        while self.pos < self.chars.len() && 'a' <= self.chars[self.pos] && self.chars[self.pos] <= 'z'
            invariant
                self.wf(),
                self.input() == old(self).input(),
                self.table() == old(self).table(),
                start <= self.pos,
                start == old(self).position(),
                s@ == self.input().subrange(start as int, self.position()),
                lower_end(self.input(), self.position()) == lower_end(self.input(), start as int),
            decreases self.input().len() - self.position(),
        {
            push_char(&mut s, self.chars[self.pos]);
            self.pos = self.pos + 1;
            assert(s@ =~= self.input().subrange(start as int, self.position()));
        }
        let ghost t0 = self.table();
        let sym = self.st.sym_for(s.as_str());
        let r = Ok(SExp::Sym(sym));
        assert(r == Ok::<SExp, ParseError>(SExp::Sym(sym)) && SymTable::interning(
            t0,
            self.input().subrange(start as int, self.position()),
            self.table(),
            sym,
        ));
        r
    }

    /// Reads a string literal, opening quote included, decoding the escapes
    /// `\n \t \r \" \\`.
    fn string(&mut self) -> (r: Result<SExp, ParseError>)
        requires
            old(self).wf(),
            old(self).char_at(old(self).position()) == Some('"'),
        ensures
            final(self).wf(),
            final(self).input() == old(self).input(),
            final(self).table() == old(self).table(),
            Parser::reads_string(*old(self), *final(self), r),
    {
        let _ = self.expect('"');
        let mut s = String::new();
        let ghost start = self.position();
        loop
            invariant
                self.wf(),
                self.input() == old(self).input(),
                self.table() == old(self).table(),
                start == old(self).position() + 1,
                start <= self.position(),
                scan_string(self.input(), start) == prepend(s@, scan_string(self.input(), self.position())),
            decreases self.input().len() - self.position(),
        {
            let ghost i = self.position();
            let chr = match self.peek() {
                None => {
                    assert(scan_string(self.input(), i) == StrScan::Unterminated);
                    assert(scan_string(self.input(), start) == StrScan::Unterminated);
                    return Err(error("end of input within string literal"));
                },
                Some(c) => c,
            };
            if chr == '"' {
                let _ = self.next();
                assert(s@ + Seq::<char>::empty() =~= s@);
                return Ok(SExp::LString(s));
            }
            if chr == '\\' {
                let _ = self.next();
                let e = match self.peek() {
                    Some('n') => '\n',
                    Some('t') => '\t',
                    Some('r') => '\r',
                    Some('"') => '"',
                    Some('\\') => '\\',
                    Some(_) => {
                        assert(scan_string(self.input(), i) == StrScan::BadEscape);
                        assert(scan_string(self.input(), start) == StrScan::BadEscape);
                        return Err(error("invalid escape sequence"));
                    },
                    None => {
                        assert(scan_string(self.input(), i) == StrScan::Unterminated);
                        assert(scan_string(self.input(), start) == StrScan::Unterminated);
                        return Err(error("end of input within string literal"));
                    },
                };
                proof {
                    let t = self.input();
                    let i = self.position() - 1;
                    assert(scan_string(t, i) == prepend(seq![e], scan_string(t, i + 2)));
                    match scan_string(t, i + 2) {
                        StrScan::Closed(x, y) => assert(s@ + (seq![e] + x) =~= s@.push(e) + x),
                        _ => {},
                    }
                }
                push_char(&mut s, e);
            } else {
                proof {
                    let t = self.input();
                    let i = self.position();
                    match scan_string(t, i + 1) {
                        StrScan::Closed(x, y) => assert(s@ + (seq![chr] + x) =~= s@.push(chr) + x),
                        _ => {},
                    }
                }
                push_char(&mut s, chr);
            }
            let _ = self.next();
        }
    }

    /// Reads a decimal integer literal, failing where it leaves the range of
    /// a signed 32-bit integer.
    fn num(&mut self) -> (r: Result<SExp, ParseError>)
        requires
            old(self).wf(),
        ensures
            final(self).wf(),
            final(self).input() == old(self).input(),
            final(self).table() == old(self).table(),
            Parser::reads_number(*old(self), *final(self), r),
    {
        let mut val: i32 = 0;
        let start = self.pos;
        proof {
            lemma_digit_end_bounds(self.input(), start as int);
            assert(self.input().subrange(start as int, start as int) =~= Seq::<char>::empty());
        }
        let ghost end = digit_end(self.input(), start as int);
        assert(old(self).input().subrange(start as int, end) == self.input().subrange(start as int, end));
        while self.pos < self.chars.len() && '0' <= self.chars[self.pos] && self.chars[self.pos] <= '9'
            invariant
                self.wf(),
                self.input() == old(self).input(),
                self.table() == old(self).table(),
                start == old(self).position(),
                start <= self.pos <= end,
                end == digit_end(self.input(), start as int),
                digit_end(self.input(), self.position()) == end,
                forall|k: int| start <= k < end ==> is_digit(self.input()[k]),
                end < self.input().len() ==> !is_digit(self.input()[end]),
                val as int == digits_value(self.input().subrange(start as int, self.position())),
            decreases self.input().len() - self.position(),
        {
            let c = self.chars[self.pos];
            let d = (c as u32 - '0' as u32) as i32;
            let ghost t = self.input();
            let ghost p = self.position();
            proof {
                lemma_digit_end_bounds(t, p + 1);
                assert(digit_end(t, p) == digit_end(t, p + 1));
            }
            assert(t.subrange(start as int, p + 1).drop_last() =~= t.subrange(start as int, p));
            assert(digits_value(t.subrange(start as int, p + 1)) == val * 10 + d);
            let next = match val.checked_mul(10) {
                Some(m) => m.checked_add(d),
                None => None,
            };
            match next {
                Some(v) => {
                    val = v;
                },
                None => {
                    proof {
                        lemma_digits_monotone(t, start as int, p + 1, end);
                        lemma_digits_nonneg(t.subrange(start as int, p));
                    }
                    return Err(error("numeric constant too large"));
                },
            }
            self.pos = self.pos + 1;
        }
        Ok(SExp::Num(val))
    }

    /// Reads one expression: a list, a string, a symbol or a number,
    /// according to its first character.
    pub fn sexp(&mut self) -> (r: Result<SExp, ParseError>)
        requires
            old(self).wf(),
        ensures
            final(self).wf(),
            final(self).input() == old(self).input(),
            Parser::table_grows(*old(self), *final(self)),
            r is Ok ==> final(self).position() > old(self).position(),
            Parser::reads_form(*old(self), *final(self), r),
        decreases old(self).input().len() - old(self).position(), 1nat,
    {
        proof { lemma_grows_same(*old(self), *self); }
        let c = match self.peek() {
            None => {
                return Err(error("end of input while expecting an atom"));
            },
            Some(c) => c,
        };
        if c == '(' {
            self.list()
        } else if c == '"' {
            let r = self.string();
            proof { lemma_scan_closed_after(old(self).input(), old(self).position() + 1); }
            assert(self.table().names().subrange(0, old(self).table().names().len() as int)
                =~= old(self).table().names());
            r
        } else if 'a' <= c && c <= 'z' {
            let r = self.sym();
            proof {
                lemma_lower_end_bounds(old(self).input(), old(self).position() + 1);
                let name = old(self).input().subrange(old(self).position(), self.position());
                let sym = choose|sym: Symbol|
                    r == Ok::<SExp, ParseError>(SExp::Sym(sym)) && SymTable::interning(
                        old(self).table(),
                        name,
                        self.table(),
                        sym,
                    );
                if old(self).table().names().contains(name) {
                    assert(self.table().names() == old(self).table().names());
                } else {
                    assert(self.table().names() == old(self).table().names().push(name));
                }
                assert(self.table().names().subrange(0, old(self).table().names().len() as int)
                    =~= old(self).table().names());
            }
            r
        } else if '0' <= c && c <= '9' {
            let r = self.num();
            assert(digit_end(old(self).input(), old(self).position()) == digit_end(
                old(self).input(),
                old(self).position() + 1,
            ));
            proof { lemma_digit_end_bounds(old(self).input(), old(self).position() + 1); }
            assert(self.table().names().subrange(0, old(self).table().names().len() as int)
                =~= old(self).table().names());
            r
        } else {
            Err(error("expected a list, a string, a symbol or a number"))
        }
    }

    /// Reads a parenthesised list of expressions.
    fn list(&mut self) -> (r: Result<SExp, ParseError>)
        requires
            old(self).wf(),
            old(self).char_at(old(self).position()) == Some('('),
        ensures
            final(self).wf(),
            final(self).input() == old(self).input(),
            Parser::table_grows(*old(self), *final(self)),
            r is Ok ==> final(self).position() > old(self).position(),
            Parser::reads_form(*old(self), *final(self), r),
        decreases old(self).input().len() - old(self).position(), 0nat,
    {
        let ghost s = self.input();
        let ghost start = self.position();
        let _ = self.expect('(');
        let ghost mid = *self;
        self.skip_ws();
        proof {
            lemma_skip_end_bounds(mid.input(), mid.position(), false);
            lemma_grows_same(*old(self), *self);
        }
        let mut v: Vec<SExp> = Vec::new();
        let ghost mut acc: Seq<Form> = Seq::empty();
        while !self.peek_matches(')')
            invariant
                self.wf(),
                self.input() == s,
                s == old(self).input(),
                start == old(self).position(),
                self.position() > start,
                Parser::table_grows(*old(self), *self),
                read_form(s, start) == read_items(s, self.position(), acc),
                v@.len() == acc.len(),
                forall|k: int| 0 <= k < acc.len() ==> denotes(self.table(), #[trigger] v@[k], acc[k]),
            decreases self.input().len() - self.position(),
        {
            let ghost before = *self;
            let e = self.sexp();
            match e {
                Ok(x) => {
                    let ghost fj = read_form(s, before.position())->Some_0;
                    proof {
                        lemma_grows_trans(*old(self), before, *self);
                        assert forall|k: int| 0 <= k < acc.len() implies denotes(
                            self.table(),
                            #[trigger] v@[k],
                            acc[k],
                        ) by {
                            lemma_denotes_grows(before.table(), self.table(), v@[k], acc[k]);
                        }
                    }
                    v.push(x);
                    proof {
                        acc = acc.push(fj.0);
                    }
                },
                Err(err) => {
                    proof { lemma_grows_trans(*old(self), before, *self); }
                    return Err(err);
                },
            }
            let ghost after_item = *self;
            self.skip_ws();
            proof {
                lemma_skip_end_bounds(after_item.input(), after_item.position(), false);
                lemma_grows_same(after_item, *self);
                lemma_grows_trans(*old(self), after_item, *self);
            }
        }
        let _ = self.expect(')');
        let r = Ok(SExp::List(Rc::new(v)));
        assert(denotes(self.table(), r->Ok_0, Form::Group(acc)));
        r
    }

    /// Reads a compilation unit: blanks, then one list of top-level forms.
    pub fn compilation_unit(&mut self) -> (r: Result<SExp, ParseError>)
        requires
            old(self).wf(),
        ensures
            final(self).wf(),
            final(self).input() == old(self).input(),
            Parser::table_grows(*old(self), *final(self)),
            ({
                let k = skip_end(old(self).input(), old(self).position(), false);
                if old(self).char_at(k) == Some('(') {
                    match read_form(old(self).input(), k) {
                        Some((f, j)) => r is Ok && denotes(final(self).table(), r->Ok_0, f)
                            && final(self).position() == j,
                        None => r is Err,
                    }
                } else {
                    r is Err
                }
            }),
    {
        self.skip_ws();
        proof { lemma_grows_same(*old(self), *self); }
        if self.peek_matches('(') {
            let ghost mid = *self;
            let r = self.list();
            proof { lemma_grows_trans(*old(self), mid, *self); }
            r
        } else {
            Err(error("expected a list of top-level forms"))
        }
    }
}

proof fn lemma_grows_same(a: Parser, b: Parser)
    requires
        a.table() == b.table(),
    ensures
        Parser::table_grows(a, b),
{
    assert(b.table().names().subrange(0, a.table().names().len() as int) =~= a.table().names());
}

proof fn lemma_grows_trans(a: Parser, b: Parser, c: Parser)
    requires
        Parser::table_grows(a, b),
        Parser::table_grows(b, c),
    ensures
        Parser::table_grows(a, c),
{
    let na = a.table().names().len() as int;
    let nb = b.table().names().len() as int;
    assert(c.table().names().subrange(0, na) =~= c.table().names().subrange(0, nb).subrange(0, na));
    assert(b.table().names().subrange(0, na) =~= a.table().names());
}

/// A closed string literal ends after it starts.
proof fn lemma_scan_closed_after(s: Seq<char>, i: int)
    ensures
        scan_string(s, i) is Closed ==> scan_string(s, i)->Closed_1 > i,
    decreases s.len() - i,
{
    if 0 <= i < s.len() && s[i] != '"' {
        if s[i] == '\\' {
            if i + 1 < s.len() {
                lemma_scan_closed_after(s, i + 2);
            }
        } else {
            lemma_scan_closed_after(s, i + 1);
        }
    }
}

proof fn lemma_skip_end_bounds(s: Seq<char>, i: int, in_comment: bool)
    requires
        0 <= i <= s.len(),
    ensures
        i <= skip_end(s, i, in_comment) <= s.len(),
    decreases s.len() - i,
{
    if i < s.len() {
        if in_comment {
            lemma_skip_end_bounds(s, i + 1, s[i] != '\n');
        } else if is_ws(s[i]) {
            lemma_skip_end_bounds(s, i + 1, false);
        } else if s[i] == ';' {
            lemma_skip_end_bounds(s, i + 1, true);
        }
    }
}

} // verus!
