//! The scanning engine.
//!
//! One [`Lexer`] is created per input text and pulled for one positioned
//! token (or positioned error) at a time via [`Lexer::next`].  A pushdown
//! stack of [`Context`]s decides which scanning routine runs next; the
//! cursor is a character index into the decoded input, and the current
//! [`Location`] tracks line, column and absolute byte offset exactly.
//!
//! Every pull terminates and never panics, whatever the input text holds.
//! Each emitted item's span lies between the cursor position before the
//! pull and the cursor position after it, and the cursor never moves
//! backwards, so consecutive items cover disjoint, ordered regions.

use crate::chars::char_from_u32;
use crate::chars::class_pred;
use crate::chars::lemma_scan_end;
use crate::chars::scan_end;
use crate::chars::Class;
use crate::chars::digit_val;
use crate::chars::is_bin;
use crate::chars::is_dec;
use crate::chars::is_hex;
use crate::chars::is_ident_continue;
use crate::chars::is_ident_start;
use crate::chars::is_oct;
use crate::chars::is_operator_char;
use crate::chars::chars_vec;
use crate::chars::spec_digit_val;
use crate::chars::spec_is_bin;
use crate::chars::spec_is_dec;
use crate::chars::spec_is_hex;
use crate::chars::spec_is_ident_continue;
use crate::chars::spec_is_oct;
use crate::chars::spec_is_operator_char;
use crate::chars::class_test;
use crate::chars::spec_white_space;
use crate::chars::string_from_chars;
use crate::chars::white_space;
use crate::chars::xid_start;
use crate::error::Error;
use crate::error::SpannedError;
use crate::numeric::dec_int_shape;
use crate::numeric::dec_text_val;
use crate::numeric::digit_run;
use crate::numeric::i64_from_str_radix;
use crate::numeric::parse_dec_int;
use crate::numeric::radix_val;
use crate::numeric::sans_underscores;
use crate::pos::bytes_of;
use crate::pos::char_bytes;
use crate::pos::col_of;
use crate::pos::lemma_bytes_of_bounds;
use crate::pos::lemma_bytes_of_mono;
use crate::pos::lemma_bytes_of_is_encode_len;
use crate::pos::lemma_lines_col_le;
use crate::pos::lemma_loc_at;
use crate::pos::lemma_loc_at_unique;
use crate::pos::lines_of;
use crate::pos::loc_at;
use crate::pos::loc_is;
use crate::pos::Location;
use crate::pos::Span;
use crate::pos::Spanned;
use crate::token::Comment;
use crate::token::CommentType;
use crate::token::StringLiteral;
use crate::token::Token;
use vstd::prelude::*;
use vstd::string::StringSliceAdditionalSpecFns;

verus! {

/// A token paired with its source span.
pub type SpannedToken = Spanned<Token<String>>;

/// What one pull of the scanner yields: a positioned token or a positioned
/// error.
pub type LexerItem = Result<SpannedToken, SpannedError>;

/// A scanning mode.  The current mode is the top of the context stack,
/// defaulting to `General` when the stack is empty.
#[derive(Clone, PartialEq, Eq, Debug)]
pub enum Context {
    /// Plain code.
    General,
    /// Inside a `"…"` string, between the delimiters.
    String,
    /// Inside a heredoc body, carrying the parameters of its header.
    HereDocString { delimiter: String, skip_leading_tabs: bool, quoted_delimiter: bool },
    /// The heredoc body has ended; the closing delimiter token with the
    /// stored span is emitted by the next pull.
    HereDocStringEnd { start: Location, end: Location },
    /// Inside `${…}`, counting unmatched inner braces.
    StringInterpolation { depth: usize },
    /// Inside `%{…}`, counting unmatched inner braces.
    StringDirective { depth: usize },
}

/// The scanner.  One instance is bound to one input text, is pulled
/// forward only, and owns the ordered list of recoverable diagnostics.
pub struct Lexer {
    input: Vec<char>,
    pos: usize,
    loc: Location,
    ctx: Vec<Context>,
    /// Recoverable diagnostics, in source order; append-only.
    pub errors: Vec<SpannedError>,
}

impl Lexer {
    /// The decoded input text.
    pub closed spec fn inp(&self) -> Seq<char> {
        self.input@
    }

    /// The cursor: how many characters have been consumed.
    pub closed spec fn cursor(&self) -> int {
        self.pos as int
    }

    /// The location corresponding to the cursor.
    pub closed spec fn cur_loc(&self) -> Location {
        self.loc
    }

    /// The context stack, bottom first.
    pub closed spec fn contexts(&self) -> Seq<Context> {
        self.ctx@
    }

    /// The diagnostics collected so far, in order.
    pub closed spec fn diags(&self) -> Seq<SpannedError> {
        self.errors@
    }

    /// The current context: top of the stack, `General` when empty.
    pub open spec fn spec_context(&self) -> Context {
        if self.contexts().len() == 0 {
            Context::General
        } else {
            self.contexts().last()
        }
    }

    /// Well-formed scanner state: the cursor is inside the input, the
    /// location is exactly the one reached by consuming the characters
    /// before the cursor, and the whole input's byte length fits the
    /// machine (it came from a real string).
    pub closed spec fn wf(&self) -> bool {
        &&& self.pos <= self.input@.len()
        &&& loc_is(self.input@, self.pos as int, self.loc)
        &&& bytes_of(self.input@, self.input@.len() as int) <= usize::MAX
    }

    /// Create a scanner over `input`.
    pub fn new(input: &str) -> (r: Lexer)
        ensures
            r.wf(),
            r.inp() == input@,
            r.cursor() == 0,
            r.cur_loc() == (Location { line: 0, column: 0, absolute: 0 }),
            r.contexts() == Seq::<Context>::empty(),
            r.diags() == Seq::<SpannedError>::empty(),
    {
        let v = chars_vec(input);
        let b = input.as_bytes();
        let n = b.len();
        proof {
            broadcast use vstd::slice::axiom_spec_len;

            lemma_bytes_of_is_encode_len(v@);
            assert(b@.len() == n);
            assert(bytes_of(v@, v@.len() as int) <= usize::MAX);
        }
        Lexer {
            input: v,
            pos: 0,
            loc: Location { line: 0, column: 0, absolute: 0 },
            ctx: Vec::new(),
            errors: Vec::new(),
        }
    }

    /// The current context (the top of the stack, `General` when the stack
    /// is empty).
    pub fn context(&self) -> (r: &Context)
        ensures
            *r == self.spec_context(),
    {
        if self.ctx.len() == 0 {
            &Context::General
        } else {
            &self.ctx[self.ctx.len() - 1]
        }
    }

    fn push_context(&mut self, c: Context)
        requires
            old(self).wf(),
        ensures
            final(self).wf(),
            final(self).inp() == old(self).inp(),
            final(self).cursor() == old(self).cursor(),
            final(self).cur_loc() == old(self).cur_loc(),
            final(self).diags() == old(self).diags(),
            final(self).contexts() == old(self).contexts().push(c),
    {
        self.ctx.push(c);
    }

    fn pop_context(&mut self) -> (r: Context)
        requires
            old(self).wf(),
            old(self).contexts().len() > 0,
        ensures
            final(self).wf(),
            final(self).inp() == old(self).inp(),
            final(self).cursor() == old(self).cursor(),
            final(self).cur_loc() == old(self).cur_loc(),
            final(self).diags() == old(self).diags(),
            final(self).contexts() == old(self).contexts().drop_last(),
            r == old(self).contexts().last(),
    {
        let r = self.ctx.pop();
        match r {
            Some(c) => c,
            None => {
                proof {
                    assert(false);
                }
                Context::General
            },
        }
    }

    /// Consume one character; the result carries the location before, the
    /// location after, and the character itself.  At end of input nothing
    /// changes and `None` comes back.
    pub fn bump(&mut self) -> (r: Option<(Location, Location, char)>)
        requires
            old(self).wf(),
        ensures
            final(self).wf(),
            final(self).inp() == old(self).inp(),
            final(self).diags() == old(self).diags(),
            final(self).contexts() == old(self).contexts(),
            old(self).cursor() < old(self).inp().len() ==> {
                let c = old(self).inp()[old(self).cursor()];
                &&& final(self).cursor() == old(self).cursor() + 1
                &&& final(self).cur_loc() == old(self).cur_loc().spec_shift(c)
                &&& r == Some((old(self).cur_loc(), final(self).cur_loc(), c))
            },
            old(self).cursor() == old(self).inp().len() ==> {
                &&& final(self).cursor() == old(self).cursor()
                &&& final(self).cur_loc() == old(self).cur_loc()
                &&& r is None
            },
    {
        if self.pos < self.input.len() {
            let c = self.input[self.pos];
            let prev = self.loc;
            proof {
                self.lemma_shift_ok();
            }
            self.loc.shift(c);
            self.pos = self.pos + 1;
            Some((prev, self.loc, c))
        } else {
            None
        }
    }

    /// With the cursor strictly inside the input, shifting the location
    /// over the next character neither overflows nor breaks `loc_is`.
    proof fn lemma_shift_ok(&self)
        requires
            self.wf(),
            self.cursor() < self.inp().len(),
        ensures
            self.cur_loc().absolute + char_bytes(self.inp()[self.cursor()]) <= usize::MAX,
            self.cur_loc().line < usize::MAX,
            self.cur_loc().column < usize::MAX,
            loc_is(
                self.inp(),
                self.cursor() + 1,
                self.cur_loc().spec_shift(self.inp()[self.cursor()]),
            ),
    {
        let s = self.inp();
        let k = self.cursor();
        lemma_lines_col_le(s, k);
        lemma_bytes_of_mono(s, k + 1, s.len() as int);
        lemma_bytes_of_bounds(s, s.len() as int);
    }

    /// Look at the next character without consuming it; the location
    /// returned is the one just after it.
    pub fn peek(&self) -> (r: Option<(Location, char)>)
        requires
            self.wf(),
        ensures
            self.cursor() < self.inp().len() ==> {
                let c = self.inp()[self.cursor()];
                r == Some((self.cur_loc().spec_shift(c), c))
            },
            self.cursor() == self.inp().len() ==> r is None,
    {
        if self.pos < self.input.len() {
            let c = self.input[self.pos];
            proof {
                self.lemma_shift_ok();
            }
            let mut l = self.loc;
            l.shift(c);
            Some((l, c))
        } else {
            None
        }
    }

    /// The character at `k` positions past the cursor, if any.
    fn peek_at(&self, k: usize) -> (r: Option<char>)
        requires
            self.wf(),
        ensures
            self.cursor() + k < self.inp().len() ==> r == Some(
                self.inp()[self.cursor() + k],
            ),
            self.cursor() + k >= self.inp().len() ==> r is None,
    {
        if k < self.input.len() && self.pos < self.input.len() - k {
            Some(self.input[self.pos + k])
        } else {
            None
        }
    }

    /// Copy the characters between two cursor positions.
    fn slice_chars(&self, from: usize, to: usize) -> (v: Vec<char>)
        requires
            self.wf(),
            from <= to <= self.inp().len(),
        ensures
            v@ == self.inp().subrange(from as int, to as int),
    {
        let mut v: Vec<char> = Vec::new();
        let mut i: usize = from;
        while i < to
            invariant
                from <= i <= to <= self.inp().len(),
                self.wf(),
                v@ == self.inp().subrange(from as int, i as int),
            decreases to - i,
        {
            v.push(self.input[i]);
            proof {
                assert(self.inp().subrange(from as int, i + 1) =~= self.inp().subrange(
                    from as int,
                    i as int,
                ).push(self.inp()[i as int]));
            }
            i = i + 1;
        }
        v
    }
}


impl Lexer {
    /// Consume the maximal run of class `cl` characters at the cursor and
    /// return it.
    fn take_class(&mut self, cl: Class) -> (run: Vec<char>)
        requires
            old(self).wf(),
        ensures
            final(self).wf(),
            final(self).inp() == old(self).inp(),
            final(self).diags() == old(self).diags(),
            final(self).contexts() == old(self).contexts(),
            final(self).cursor() >= old(self).cursor(),
            final(self).cursor() == scan_end(old(self).inp(), old(self).cursor(), cl),
            run@ == old(self).inp().subrange(old(self).cursor(), final(self).cursor()),
    {
        let ghost i0 = self.cursor();
        let mut run: Vec<char> = Vec::new();
        proof {
            assert(self.inp().subrange(i0, i0) =~= Seq::<char>::empty());
        }
        while self.pos < self.input.len() && class_test(cl, self.input[self.pos])
            invariant
                self.wf(),
                self.inp() == old(self).inp(),
                self.diags() == old(self).diags(),
                self.contexts() == old(self).contexts(),
                0 <= i0 <= self.cursor() <= self.inp().len(),
                scan_end(self.inp(), self.cursor(), cl) == scan_end(self.inp(), i0, cl),
                run@ == self.inp().subrange(i0, self.cursor()),
            decreases self.inp().len() - self.cursor(),
        {
            let c = self.input[self.pos];
            proof {
                self.lemma_shift_ok();
                let s = self.inp();
                let j = self.cursor();
                assert(0 <= i0 <= j < s.len());
                assert(c == s[j]);
                assert(s.subrange(i0, j + 1) =~= s.subrange(i0, j).push(s[j]));
            }
            self.loc.shift(c);
            self.pos = self.pos + 1;
            run.push(c);
        }
        run
    }

    /// Skip the horizontal white space at the cursor.
    fn skip_hwhite(&mut self)
        requires
            old(self).wf(),
        ensures
            final(self).wf(),
            final(self).inp() == old(self).inp(),
            final(self).diags() == old(self).diags(),
            final(self).contexts() == old(self).contexts(),
            final(self).cursor() >= old(self).cursor(),
            final(self).cursor() == scan_end(old(self).inp(), old(self).cursor(), Class::HWhite),
    {
        let ghost i0 = self.cursor();
        while self.pos < self.input.len() && class_test(Class::HWhite, self.input[self.pos])
            invariant
                self.wf(),
                self.inp() == old(self).inp(),
                self.diags() == old(self).diags(),
                self.contexts() == old(self).contexts(),
                0 <= i0 <= self.cursor() <= self.inp().len(),
                scan_end(self.inp(), self.cursor(), Class::HWhite) == scan_end(
                    self.inp(),
                    i0,
                    Class::HWhite,
                ),
            decreases self.inp().len() - self.cursor(),
        {
            let c = self.input[self.pos];
            proof {
                self.lemma_shift_ok();
            }
            self.loc.shift(c);
            self.pos = self.pos + 1;
        }
    }
}

/// The token an exact operator spelling maps to, `None` for a maximal run
/// of operator characters that spells no operator of the language.
pub open spec fn operator_token(run: Seq<char>) -> Option<Token<String>> {
    if run.len() == 1 {
        let c = run[0];
        if c == '!' {
            Some(Token::LogicalNot)
        } else if c == '~' {
            Some(Token::BitwiseNot)
        } else if c == '&' {
            Some(Token::BitwiseAnd)
        } else if c == '|' {
            Some(Token::BitwiseOr)
        } else if c == '^' {
            Some(Token::BitwiseXOr)
        } else if c == '*' {
            Some(Token::Multiplication)
        } else if c == '/' {
            Some(Token::Division)
        } else if c == '%' {
            Some(Token::Modulo)
        } else if c == '+' {
            Some(Token::Addition)
        } else if c == '-' {
            Some(Token::Subtraction)
        } else if c == '<' {
            Some(Token::Less)
        } else if c == '>' {
            Some(Token::Greater)
        } else if c == '.' {
            Some(Token::Dot)
        } else if c == '=' {
            Some(Token::Assign)
        } else {
            None
        }
    } else if run.len() == 2 {
        let a = run[0];
        let b = run[1];
        if a == '&' && b == '&' {
            Some(Token::LogicalAnd)
        } else if a == '|' && b == '|' {
            Some(Token::LogicalOr)
        } else if a == '<' && b == ':' {
            Some(Token::BitwiseShiftLeft)
        } else if a == ':' && b == '>' {
            Some(Token::BitwiseShiftRight)
        } else if a == '=' && b == '=' {
            Some(Token::Equal)
        } else if a == '!' && b == '=' {
            Some(Token::NotEqual)
        } else if a == '<' && b == '=' {
            Some(Token::LessOrEqual)
        } else if a == '>' && b == '=' {
            Some(Token::GreaterOrEqual)
        } else if a == '.' && b == '.' {
            Some(Token::DotDot)
        } else if a == '-' && b == '>' {
            Some(Token::RArrow)
        } else {
            None
        }
    } else {
        None
    }
}

/// `tok` is the token for the word `run`: the keyword or boolean literal
/// of that exact spelling, or an identifier carrying the word itself.
pub open spec fn word_token(run: Seq<char>, tok: Token<String>) -> bool {
    if run == "true"@ {
        tok == Token::<String>::BoolLiteral(true)
    } else if run == "false"@ {
        tok == Token::<String>::BoolLiteral(false)
    } else if run == "resource"@ {
        tok == Token::<String>::Resource
    } else if run == "data"@ {
        tok == Token::<String>::Data
    } else if run == "provider"@ {
        tok == Token::<String>::Provider
    } else if run == "module"@ {
        tok == Token::<String>::Module
    } else if run == "let"@ {
        tok == Token::<String>::Let
    } else if run == "if"@ {
        tok == Token::<String>::If
    } else if run == "else"@ {
        tok == Token::<String>::Else
    } else if run == "for"@ {
        tok == Token::<String>::Forall
    } else if run == "in"@ {
        tok == Token::<String>::In
    } else if run == "while"@ {
        tok == Token::<String>::Do
    } else if run == "break"@ {
        tok == Token::<String>::Break
    } else if run == "continue"@ {
        tok == Token::<String>::Continue
    } else if run == "match"@ {
        tok == Token::<String>::Match
    } else if run == "return"@ {
        tok == Token::<String>::Return
    } else {
        tok matches Token::Identifier(w) && w@ == run
    }
}

/// First position at or after `i` (and at most `j`) holding a character
/// that is not white space.
pub open spec fn trim_start_idx(s: Seq<char>, i: int, j: int) -> int
    decreases j - i,
    when i <= j
{
    if i < j && spec_white_space(s[i]) {
        trim_start_idx(s, i + 1, j)
    } else {
        i
    }
}

/// Last position at or before `j` (and at least `i`) such that everything
/// from it to `j` is white space.
pub open spec fn trim_end_idx(s: Seq<char>, i: int, j: int) -> int
    decreases j - i,
    when i <= j
{
    if i < j && spec_white_space(s[j - 1]) {
        trim_end_idx(s, i, j - 1)
    } else {
        j
    }
}

/// The region of `s` between `i` and `j` with white space removed from
/// both ends.
pub open spec fn spec_trimmed(s: Seq<char>, i: int, j: int) -> Seq<char> {
    let a = trim_start_idx(s, i, j);
    let b = trim_end_idx(s, a, j);
    s.subrange(a, b)
}

/// The position of the `*` of the first `*/` at or after `i`, or the text
/// length when there is none.
pub open spec fn block_end(s: Seq<char>, i: int) -> int
    decreases s.len() - i,
    when i <= s.len()
{
    if i + 1 < s.len() && s[i] == '*' && s[i + 1] == '/' {
        i
    } else if i < s.len() {
        block_end(s, i + 1)
    } else {
        i
    }
}

/// `block_end` stays inside the text and grows monotonically from its
/// starting point.
pub proof fn lemma_block_end(s: Seq<char>, i: int)
    requires
        0 <= i <= s.len(),
    ensures
        i <= block_end(s, i) <= s.len(),
        block_end(s, i) + 1 < s.len() ==> s[block_end(s, i)] == '*' && s[block_end(s, i) + 1]
            == '/',
    decreases s.len() - i,
{
    if !(i + 1 < s.len() && s[i] == '*' && s[i + 1] == '/') && i < s.len() {
        lemma_block_end(s, i + 1);
    }
}

impl Lexer {
    /// Remove the white space at both ends of `v[from..]` and return the
    /// rest as an owned string.
    fn trimmed_content(v: &Vec<char>, from: usize) -> (s: String)
        requires
            from <= v@.len(),
        ensures
            s@ == spec_trimmed(v@, from as int, v@.len() as int),
    {
        let len = v.len();
        let mut a: usize = from;
        while a < len && white_space(v[a])
            invariant
                from <= a <= len == v@.len(),
                trim_start_idx(v@, a as int, len as int) == trim_start_idx(
                    v@,
                    from as int,
                    len as int,
                ),
            decreases len - a,
        {
            a = a + 1;
        }
        let mut b: usize = len;
        while b > a && white_space(v[b - 1])
            invariant
                a <= b <= len == v@.len(),
                a == trim_start_idx(v@, from as int, len as int),
                trim_end_idx(v@, a as int, b as int) == trim_end_idx(v@, a as int, len as int),
            decreases b,
        {
            b = b - 1;
        }
        let mut out: Vec<char> = Vec::new();
        let mut k: usize = a;
        proof {
            assert(v@.subrange(a as int, a as int) =~= Seq::<char>::empty());
        }
        while k < b
            invariant
                a <= k <= b <= v@.len(),
                out@ == v@.subrange(a as int, k as int),
            decreases b - k,
        {
            out.push(v[k]);
            proof {
                assert(v@.subrange(a as int, k + 1) =~= v@.subrange(a as int, k as int).push(
                    v@[k as int],
                ));
            }
            k = k + 1;
        }
        string_from_chars(out.as_slice())
    }

    /// Scan a maximal run of operator characters at the cursor and map the
    /// exact spelling to its operator token.  A run that spells no
    /// operator of the language is rejected as an unexpected character.
    fn operator(&mut self, start: Location) -> (r: LexerItem)
        requires
            old(self).wf(),
            old(self).cursor() < old(self).inp().len(),
            spec_is_operator_char(old(self).inp()[old(self).cursor()]),
            start == old(self).cur_loc(),
        ensures
            final(self).wf(),
            final(self).inp() == old(self).inp(),
            final(self).diags() == old(self).diags(),
            final(self).contexts() == old(self).contexts(),
            final(self).cursor() >= old(self).cursor(),
            final(self).cursor() == scan_end(old(self).inp(), old(self).cursor(), Class::Op),
            ({
                let run = old(self).inp().subrange(old(self).cursor(), final(self).cursor());
                match operator_token(run) {
                    Some(tok) => r == Ok::<SpannedToken, SpannedError>(
                        Spanned {
                            span: Span { start, end: final(self).cur_loc() },
                            value: tok,
                        },
                    ),
                    None => r == Err::<SpannedToken, SpannedError>(
                        Spanned {
                            span: Span { start, end: final(self).cur_loc() },
                            value: Error::UnexpectedChar(run[0]),
                        },
                    ),
                }
            }),
    {
        proof {
            lemma_scan_end(self.inp(), self.cursor(), Class::Op);
        }
        let run = self.take_class(Class::Op);
        let end = self.loc;
        let tok: Option<Token<String>> = if run.len() == 1 {
            match run[0] {
                '!' => Some(Token::LogicalNot),
                '~' => Some(Token::BitwiseNot),
                '&' => Some(Token::BitwiseAnd),
                '|' => Some(Token::BitwiseOr),
                '^' => Some(Token::BitwiseXOr),
                '*' => Some(Token::Multiplication),
                '/' => Some(Token::Division),
                '%' => Some(Token::Modulo),
                '+' => Some(Token::Addition),
                '-' => Some(Token::Subtraction),
                '<' => Some(Token::Less),
                '>' => Some(Token::Greater),
                '.' => Some(Token::Dot),
                '=' => Some(Token::Assign),
                _ => None,
            }
        } else if run.len() == 2 {
            match (run[0], run[1]) {
                ('&', '&') => Some(Token::LogicalAnd),
                ('|', '|') => Some(Token::LogicalOr),
                ('<', ':') => Some(Token::BitwiseShiftLeft),
                (':', '>') => Some(Token::BitwiseShiftRight),
                ('=', '=') => Some(Token::Equal),
                ('!', '=') => Some(Token::NotEqual),
                ('<', '=') => Some(Token::LessOrEqual),
                ('>', '=') => Some(Token::GreaterOrEqual),
                ('.', '.') => Some(Token::DotDot),
                ('-', '>') => Some(Token::RArrow),
                _ => None,
            }
        } else {
            None
        };
        match tok {
            Some(t) => Ok(Spanned { span: Span { start, end }, value: t }),
            None => Err(
                Spanned { span: Span { start, end }, value: Error::UnexpectedChar(run[0]) },
            ),
        }
    }

    /// Scan an identifier at the cursor: its first character, then the
    /// maximal run of identifier-continuation characters.  The exact
    /// spelling decides between a keyword, a boolean literal, and an
    /// identifier carrying the word.
    fn identifier(&mut self, start: Location) -> (r: LexerItem)
        requires
            old(self).wf(),
            old(self).cursor() < old(self).inp().len(),
            start == old(self).cur_loc(),
        ensures
            final(self).wf(),
            final(self).inp() == old(self).inp(),
            final(self).diags() == old(self).diags(),
            final(self).contexts() == old(self).contexts(),
            final(self).cursor() >= old(self).cursor(),
            final(self).cursor() == scan_end(
                old(self).inp(),
                old(self).cursor() + 1,
                Class::IdentCont,
            ),
            ({
                let run = old(self).inp().subrange(old(self).cursor(), final(self).cursor());
                &&& r matches Ok(st)
                &&& st.span == (Span { start, end: final(self).cur_loc() })
                &&& word_token(run, st.value)
            }),
    {
        let ghost i0 = self.cursor();
        let c0 = match self.bump() {
            Some((_, _, c)) => c,
            None => {
                proof {
                    assert(false);
                }
                ' '
            },
        };
        proof {
            lemma_scan_end(self.inp(), self.cursor(), Class::IdentCont);
        }
        let rest = self.take_class(Class::IdentCont);
        let mut run: Vec<char> = Vec::new();
        run.push(c0);
        let mut k: usize = 0;
        while k < rest.len()
            invariant
                k <= rest@.len(),
                run@ == seq![c0].add(rest@.take(k as int)),
            decreases rest@.len() - k,
        {
            run.push(rest[k]);
            proof {
                assert(seq![c0].add(rest@.take(k + 1)) =~= seq![c0].add(rest@.take(k as int)).push(
                    rest@[k as int],
                ));
            }
            k = k + 1;
        }
        proof {
            assert(rest@.take(rest@.len() as int) =~= rest@);
            assert(run@ =~= old(self).inp().subrange(i0, self.cursor()));
        }
        let end = self.loc;
        let word = string_from_chars(run.as_slice());
        let tok: Token<String> = if string_eq_lit(&word, "true") {
            Token::BoolLiteral(true)
        } else if string_eq_lit(&word, "false") {
            Token::BoolLiteral(false)
        } else if string_eq_lit(&word, "resource") {
            Token::Resource
        } else if string_eq_lit(&word, "data") {
            Token::Data
        } else if string_eq_lit(&word, "provider") {
            Token::Provider
        } else if string_eq_lit(&word, "module") {
            Token::Module
        } else if string_eq_lit(&word, "let") {
            Token::Let
        } else if string_eq_lit(&word, "if") {
            Token::If
        } else if string_eq_lit(&word, "else") {
            Token::Else
        } else if string_eq_lit(&word, "for") {
            Token::Forall
        } else if string_eq_lit(&word, "in") {
            Token::In
        } else if string_eq_lit(&word, "while") {
            Token::Do
        } else if string_eq_lit(&word, "break") {
            Token::Break
        } else if string_eq_lit(&word, "continue") {
            Token::Continue
        } else if string_eq_lit(&word, "match") {
            Token::Match
        } else if string_eq_lit(&word, "return") {
            Token::Return
        } else {
            Token::Identifier(word)
        };
        Ok(Spanned { span: Span { start, end }, value: tok })
    }
}

/// Compare an owned string's contents with a literal's.
fn string_eq_lit(s: &String, lit: &str) -> (r: bool)
    ensures
        r == (s@ == lit@),
{
    let other = lit.to_owned();
    s.eq(&other)
}

/// A numeric literal begins at `i`: a decimal digit, or a sign directly
/// followed by one.
pub open spec fn num_lit_start(s: Seq<char>, i: int) -> bool {
    i < s.len() && (spec_is_dec(s[i]) || ((s[i] == '-' || s[i] == '+') && i + 1 < s.len()
        && spec_is_dec(s[i + 1])))
}

/// End of the integer part of a numeric literal beginning at `i` (the
/// first character, sign included, then the maximal run of decimal digits
/// and separators).
pub open spec fn num_int_end(s: Seq<char>, i: int) -> int {
    scan_end(s, i + 1, Class::DecUnd)
}

/// Where the digits of an exponent start: after the marker at `j` and an
/// optional sign.
pub open spec fn exp_digits_start(s: Seq<char>, j: int) -> int {
    if j + 1 < s.len() && (s[j + 1] == '-' || s[j + 1] == '+') {
        j + 2
    } else {
        j + 1
    }
}

/// A radix literal's integer prefix must be exactly `0` or `-0`.
pub open spec fn good_radix_prefix(t: Seq<char>) -> bool {
    (t.len() == 1 && t[0] == '0') || (t.len() == 2 && t[0] == '-' && t[1] == '0')
}

/// The digit class of a radix literal's digits, separators included.
pub open spec fn radix_digit_class(radix: u32) -> Class {
    if radix == 2 {
        Class::BinUnd
    } else if radix == 8 {
        Class::OctUnd
    } else {
        Class::HexUnd
    }
}

/// The wrong-prefix error of each radix.
pub open spec fn radix_prefix_err(radix: u32) -> Error {
    if radix == 2 {
        Error::BinLiteralWrongPrefix
    } else if radix == 8 {
        Error::OctLiteralWrongPrefix
    } else {
        Error::HexLiteralWrongPrefix
    }
}

/// The item and diagnostics a float literal covering `s[i..end_]` yields:
/// its text with separators removed, or — when an exponent marker has no
/// digits — a placeholder of value zero beside a diagnostic.
pub open spec fn float_item(
    s: Seq<char>,
    i: int,
    end_: int,
    exp_empty: bool,
    start: Location,
    endloc: Location,
    r: LexerItem,
    d0: Seq<SpannedError>,
    d1: Seq<SpannedError>,
) -> bool {
    let span = Span { start, end: endloc };
    if exp_empty {
        &&& r matches Ok(st) && st.span == span && (st.value matches Token::FloatLiteral(t) && (t@
            == seq!['0']))
        &&& d1 == d0.push(Spanned { span, value: Error::NonParseableFloat })
    } else {
        &&& r matches Ok(st) && st.span == span && (st.value matches Token::FloatLiteral(t) && (t@
            == sans_underscores(s.subrange(i, end_))))
        &&& d1 == d0
    }
}

/// The item and diagnostics a decimal integer literal covering `s[i..ie]`
/// yields: exactly the literal's arithmetic value (underscores ignored,
/// sign applied), or a placeholder zero beside a diagnostic when the value
/// does not fit a 64-bit signed integer.
pub open spec fn dec_item(
    s: Seq<char>,
    i: int,
    ie: int,
    start: Location,
    endloc: Location,
    r: LexerItem,
    d0: Seq<SpannedError>,
    d1: Seq<SpannedError>,
) -> bool {
    let v = dec_text_val(s.subrange(i, ie));
    let span = Span { start, end: endloc };
    if i64::MIN <= v <= i64::MAX {
        &&& r == Ok::<SpannedToken, SpannedError>(
            Spanned { span, value: Token::<String>::IntLiteral(v as i64) },
        )
        &&& d1 == d0
    } else {
        &&& r == Ok::<SpannedToken, SpannedError>(
            Spanned { span, value: Token::<String>::IntLiteral(0) },
        )
        &&& d1 == d0.push(Spanned { span, value: Error::NonParseableInt })
    }
}

/// The item and diagnostics a radix-prefixed literal yields, its integer
/// prefix covering `s[i..ie]` and its digits following the radix letter at
/// `ie`.  A prefix other than `0`/`-0` is flagged; an empty digit run is
/// incomplete; the value is the digit run read in the radix, negated for
/// the `-0` prefix, with overflow and underflow flagged and zero emitted.
pub open spec fn radix_item(
    s: Seq<char>,
    i: int,
    ie: int,
    radix: u32,
    start: Location,
    endloc: Location,
    r: LexerItem,
    d0: Seq<SpannedError>,
    d1: Seq<SpannedError>,
) -> bool {
    let de = scan_end(s, ie + 1, radix_digit_class(radix));
    let digits = sans_underscores(s.subrange(ie + 1, de));
    let int_text = s.subrange(i, ie);
    let is_pos = int_text.len() == 1 && int_text[0] == '0';
    let span = Span { start, end: endloc };
    let d0b = if good_radix_prefix(int_text) {
        d0
    } else {
        d0.push(Spanned { span, value: radix_prefix_err(radix) })
    };
    if s.subrange(ie + 1, de).len() == 0 {
        &&& r == Ok::<SpannedToken, SpannedError>(
            Spanned { span, value: Token::<String>::IntLiteral(0) },
        )
        &&& d1 == d0b.push(Spanned { span, value: Error::LiteralIncomplete })
    } else {
        let m = radix_val(digits, radix as int);
        if is_pos {
            if m <= i64::MAX {
                &&& r == Ok::<SpannedToken, SpannedError>(
                    Spanned { span, value: Token::<String>::IntLiteral(m as i64) },
                )
                &&& d1 == d0b
            } else {
                &&& r == Ok::<SpannedToken, SpannedError>(
                    Spanned { span, value: Token::<String>::IntLiteral(0) },
                )
                &&& d1 == d0b.push(Spanned { span, value: Error::HexLiteralOverflow })
            }
        } else {
            if m <= i64::MAX as int + 1 {
                &&& r == Ok::<SpannedToken, SpannedError>(
                    Spanned { span, value: Token::<String>::IntLiteral((-m) as i64) },
                )
                &&& d1 == d0b
            } else {
                &&& r == Ok::<SpannedToken, SpannedError>(
                    Spanned { span, value: Token::<String>::IntLiteral(0) },
                )
                &&& d1 == d0b.push(Spanned { span, value: Error::HexLiteralUnderflow })
            }
        }
    }
}

/// `tok` is the token for the line comment whose raw text is `run`
/// (`run` starts with `//` and holds no newline): a doc comment when a
/// third slash follows, the marker stripped and the rest trimmed.
pub open spec fn line_comment_token(run: Seq<char>, tok: Token<String>) -> bool {
    if run.len() >= 3 && run[2] == '/' {
        tok matches Token::DocComment(c) && c.typ == CommentType::Line && c.content@
            == spec_trimmed(run, 3, run.len() as int)
    } else {
        tok matches Token::Comment(c) && c.typ == CommentType::Line && c.content@ == spec_trimmed(
            run,
            2,
            run.len() as int,
        )
    }
}

/// `tok` is the token for the block comment whose text up to (not
/// including) the closing `*/` is `run` (`run` starts with `/*`): a doc
/// comment when the opening is `/**` and the body is non-empty.
pub open spec fn block_comment_token(run: Seq<char>, tok: Token<String>) -> bool {
    if run.len() > 3 && run[2] == '*' {
        tok matches Token::DocComment(c) && c.typ == CommentType::Block && c.content@
            == spec_trimmed(run, 3, run.len() as int)
    } else {
        tok matches Token::Comment(c) && c.typ == CommentType::Block && c.content@ == spec_trimmed(
            run,
            2,
            run.len() as int,
        )
    }
}

impl Lexer {
    /// Scan a `//` line comment at the cursor: everything up to (not
    /// including) the next newline or the end of the text.
    fn line_comment(&mut self, start: Location) -> (r: LexerItem)
        requires
            old(self).wf(),
            old(self).cursor() + 1 < old(self).inp().len(),
            old(self).inp()[old(self).cursor()] == '/',
            old(self).inp()[old(self).cursor() + 1] == '/',
            start == old(self).cur_loc(),
        ensures
            final(self).wf(),
            final(self).inp() == old(self).inp(),
            final(self).diags() == old(self).diags(),
            final(self).contexts() == old(self).contexts(),
            final(self).cursor() >= old(self).cursor(),
            final(self).cursor() == scan_end(
                old(self).inp(),
                old(self).cursor(),
                Class::NotNewline,
            ),
            ({
                let run = old(self).inp().subrange(old(self).cursor(), final(self).cursor());
                &&& r matches Ok(st)
                &&& st.span == (Span { start, end: final(self).cur_loc() })
                &&& line_comment_token(run, st.value)
            }),
    {
        proof {
            lemma_scan_end(self.inp(), self.cursor(), Class::NotNewline);
            assert(scan_end(self.inp(), self.cursor(), Class::NotNewline) == scan_end(
                self.inp(),
                self.cursor() + 1,
                Class::NotNewline,
            ));
            assert(scan_end(self.inp(), self.cursor() + 1, Class::NotNewline) == scan_end(
                self.inp(),
                self.cursor() + 2,
                Class::NotNewline,
            ));
            lemma_scan_end(self.inp(), self.cursor() + 2, Class::NotNewline);
        }
        let run = self.take_class(Class::NotNewline);
        let end = self.loc;
        let doc = run.len() >= 3 && run[2] == '/';
        let content = Lexer::trimmed_content(&run, if doc {
            3
        } else {
            2
        });
        let tok: Token<String> = if doc {
            Token::DocComment(Comment { typ: CommentType::Line, content })
        } else {
            Token::Comment(Comment { typ: CommentType::Line, content })
        };
        Ok(Spanned { span: Span { start, end }, value: tok })
    }

    /// Scan a `/* … */` block comment at the cursor, consuming through the
    /// first closing `*/`.  Reaching the end of the text first is a fatal
    /// unexpected-end-of-input error.
    fn block_comment(&mut self, start: Location) -> (r: LexerItem)
        requires
            old(self).wf(),
            old(self).cursor() + 1 < old(self).inp().len(),
            old(self).inp()[old(self).cursor()] == '/',
            old(self).inp()[old(self).cursor() + 1] == '*',
            start == old(self).cur_loc(),
        ensures
            final(self).wf(),
            final(self).inp() == old(self).inp(),
            final(self).diags() == old(self).diags(),
            final(self).contexts() == old(self).contexts(),
            final(self).cursor() >= old(self).cursor(),
            ({
                let be = block_end(old(self).inp(), old(self).cursor() + 2);
                let run = old(self).inp().subrange(old(self).cursor(), be);
                if be + 1 < old(self).inp().len() {
                    &&& final(self).cursor() == be + 2
                    &&& r matches Ok(st)
                    &&& st.span == (Span { start, end: final(self).cur_loc() })
                    &&& block_comment_token(run, st.value)
                } else {
                    &&& final(self).cursor() == old(self).inp().len()
                    &&& r == Err::<SpannedToken, SpannedError>(
                        Spanned {
                            span: Span { start, end: final(self).cur_loc() },
                            value: Error::UnexpectedEof,
                        },
                    )
                }
            }),
    {
        let pos0 = self.pos;
        self.bump();
        self.bump();
        let ghost i2 = self.cursor();
        proof {
            lemma_block_end(self.inp(), i2);
        }
        while self.pos < self.input.len() && !(self.input[self.pos] == '*' && self.pos + 1
            < self.input.len() && self.input[self.pos + 1] == '/')
            invariant
                self.wf(),
                self.inp() == old(self).inp(),
                self.diags() == old(self).diags(),
                self.contexts() == old(self).contexts(),
                0 <= i2 <= self.cursor() <= self.inp().len(),
                block_end(self.inp(), self.cursor()) == block_end(self.inp(), i2),
            decreases self.inp().len() - self.cursor(),
        {
            let c = self.input[self.pos];
            proof {
                self.lemma_shift_ok();
            }
            self.loc.shift(c);
            self.pos = self.pos + 1;
        }
        if self.pos < self.input.len() {
            let run = self.slice_chars(pos0, self.pos);
            self.bump();
            self.bump();
            let end = self.loc;
            let doc = run.len() > 3 && run[2] == '*';
            let content = Lexer::trimmed_content(&run, if doc {
                3
            } else {
                2
            });
            let tok: Token<String> = if doc {
                Token::DocComment(Comment { typ: CommentType::Block, content })
            } else {
                Token::Comment(Comment { typ: CommentType::Block, content })
            };
            Ok(Spanned { span: Span { start, end }, value: tok })
        } else {
            Err(
                Spanned {
                    span: Span { start, end: self.loc },
                    value: Error::UnexpectedEof,
                },
            )
        }
    }

    /// Finish a radix-prefixed literal: the cursor stands on the radix
    /// letter, the integer prefix began at `pos0`.
    fn radix_tail(&mut self, start: Location, pos0: usize, radix: u32) -> (r: LexerItem)
        requires
            old(self).wf(),
            radix == 2 || radix == 8 || radix == 16,
            pos0 <= old(self).cursor() < old(self).inp().len(),
        ensures
            final(self).wf(),
            final(self).inp() == old(self).inp(),
            final(self).contexts() == old(self).contexts(),
            final(self).cursor() >= old(self).cursor(),
            final(self).cursor() == scan_end(
                old(self).inp(),
                old(self).cursor() + 1,
                radix_digit_class(radix),
            ),
            radix_item(
                old(self).inp(),
                pos0 as int,
                old(self).cursor(),
                radix,
                start,
                final(self).cur_loc(),
                r,
                old(self).diags(),
                final(self).diags(),
            ),
    {
        let ghost s = self.inp();
        let ghost ie = self.cursor();
        let int_run = self.slice_chars(pos0, self.pos);
        self.bump();
        let cl = if radix == 2 {
            Class::BinUnd
        } else if radix == 8 {
            Class::OctUnd
        } else {
            Class::HexUnd
        };
        proof {
            lemma_scan_end(s, ie + 1, cl);
        }
        let digits_run = self.take_class(cl);
        let end = self.loc;
        let span = Span { start, end };
        let is_pos = int_run.len() == 1 && int_run[0] == '0';
        let good = is_pos || (int_run.len() == 2 && int_run[0] == '-' && int_run[1] == '0');
        if !good {
            let e = if radix == 2 {
                Error::BinLiteralWrongPrefix
            } else if radix == 8 {
                Error::OctLiteralWrongPrefix
            } else {
                Error::HexLiteralWrongPrefix
            };
            self.errors.push(Spanned { span, value: e });
        }
        if digits_run.len() == 0 {
            self.errors.push(Spanned { span, value: Error::LiteralIncomplete });
            return Ok(Spanned { span, value: Token::IntLiteral(0) });
        }
        proof {
            let de = scan_end(s, ie + 1, cl);
            assert forall|k: int| 0 <= k < digits_run@.len() implies crate::numeric::spec_is_digit(
                #[trigger] digits_run@[k],
                radix,
            ) || digits_run@[k] == '_' by {
                assert(digits_run@[k] == s[ie + 1 + k]);
                assert(class_pred(cl, s[ie + 1 + k]));
            }
        }
        match i64_from_str_radix(digits_run.as_slice(), is_pos, radix) {
            Ok(v) => Ok(Spanned { span, value: Token::IntLiteral(v) }),
            Err(e) => {
                self.errors.push(Spanned { span, value: e });
                Ok(Spanned { span, value: Token::IntLiteral(0) })
            },
        }
    }

    /// Emit the float token for the literal text from `pos0` to the
    /// cursor: its text with separators removed, or a placeholder zero
    /// beside a diagnostic when `exp_empty` says the exponent had no
    /// digits.
    fn float_token(&mut self, start: Location, pos0: usize, exp_empty: bool) -> (r: LexerItem)
        requires
            old(self).wf(),
            pos0 <= old(self).cursor(),
        ensures
            final(self).wf(),
            final(self).inp() == old(self).inp(),
            final(self).contexts() == old(self).contexts(),
            final(self).cursor() == old(self).cursor(),
            final(self).cur_loc() == old(self).cur_loc(),
            float_item(
                old(self).inp(),
                pos0 as int,
                old(self).cursor(),
                exp_empty,
                start,
                final(self).cur_loc(),
                r,
                old(self).diags(),
                final(self).diags(),
            ),
    {
        let end = self.loc;
        let span = Span { start, end };
        if exp_empty {
            self.errors.push(Spanned { span, value: Error::NonParseableFloat });
            let mut zero: Vec<char> = Vec::new();
            zero.push('0');
            proof {
                assert(zero@ =~= seq!['0']);
            }
            let text = string_from_chars(zero.as_slice());
            Ok(Spanned { span, value: Token::FloatLiteral(text) })
        } else {
            let raw = self.slice_chars(pos0, self.pos);
            let cleaned = crate::numeric::strip_underscores(raw.as_slice());
            let text = string_from_chars(cleaned.as_slice());
            Ok(Spanned { span, value: Token::FloatLiteral(text) })
        }
    }

    /// Scan a numeric literal at the cursor: an optional sign and a run of
    /// decimal digits, then a fraction or exponent (a float), a radix
    /// letter (a prefixed integer), or nothing more (a decimal integer).
    fn numeric_literal(&mut self, start: Location) -> (r: LexerItem)
        requires
            old(self).wf(),
            num_lit_start(old(self).inp(), old(self).cursor()),
            start == old(self).cur_loc(),
        ensures
            final(self).wf(),
            final(self).inp() == old(self).inp(),
            final(self).contexts() == old(self).contexts(),
            final(self).cursor() >= old(self).cursor(),
            numeric_case(
                old(self).inp(),
                old(self).cursor(),
                start,
                final(self).cur_loc(),
                final(self).cursor(),
                r,
                old(self).diags(),
                final(self).diags(),
            ),
    {
        let ghost s = self.inp();
        let ghost i = self.cursor();
        let pos0 = self.pos;
        self.bump();
        proof {
            lemma_scan_end(s, i + 1, Class::DecUnd);
        }
        let _int_run = self.take_class(Class::DecUnd);
        let ghost ie = self.cursor();
        match self.peek_at(0) {
            Some('.') => {
                self.bump();
                proof {
                    lemma_scan_end(s, ie + 1, Class::Dec);
                }
                let _frac = self.take_class(Class::Dec);
                let has_exp = match self.peek_at(0) {
                    Some('e') => true,
                    Some('E') => true,
                    _ => false,
                };
                if has_exp {
                    self.bump();
                    match self.peek_at(0) {
                        Some('-') => {
                            self.bump();
                        },
                        Some('+') => {
                            self.bump();
                        },
                        _ => {},
                    }
                    let ghost es = self.cursor();
                    proof {
                        lemma_scan_end(s, es, Class::DecUnd);
                    }
                    let exp_run = self.take_class(Class::DecUnd);
                    let cleaned_exp = crate::numeric::strip_underscores(exp_run.as_slice());
                    self.float_token(start, pos0, cleaned_exp.len() == 0)
                } else {
                    self.float_token(start, pos0, false)
                }
            },
            Some('e') | Some('E') => {
                self.bump();
                match self.peek_at(0) {
                    Some('-') => {
                        self.bump();
                    },
                    Some('+') => {
                        self.bump();
                    },
                    _ => {},
                }
                let ghost es = self.cursor();
                proof {
                    lemma_scan_end(s, es, Class::DecUnd);
                }
                let exp_run = self.take_class(Class::DecUnd);
                let cleaned_exp = crate::numeric::strip_underscores(exp_run.as_slice());
                self.float_token(start, pos0, cleaned_exp.len() == 0)
            },
            Some('x') => self.radix_tail(start, pos0, 16),
            Some('b') => self.radix_tail(start, pos0, 2),
            Some('o') => self.radix_tail(start, pos0, 8),
            _ => {
                let text = self.slice_chars(pos0, self.pos);
                let end = self.loc;
                let span = Span { start, end };
                proof {
                    assert(spec_is_dec(s[i]) || ((s[i] == '-' || s[i] == '+') && spec_is_dec(
                        s[i + 1],
                    )));
                    if s[i] == '-' || s[i] == '+' {
                        assert(class_pred(Class::DecUnd, s[i + 1]));
                        assert(ie >= i + 2);
                    }
                    assert(dec_int_shape(text@));
                }
                match parse_dec_int(text.as_slice()) {
                    Ok(v) => Ok(Spanned { span, value: Token::IntLiteral(v) }),
                    Err(_) => {
                        self.errors.push(Spanned { span, value: Error::NonParseableInt });
                        Ok(Spanned { span, value: Token::IntLiteral(0) })
                    },
                }
            },
        }
    }
}

/// Everything one pull on a numeric literal beginning at `i` yields:
/// the final cursor `cf`, the item `r`, and the diagnostics growing from
/// `d0` to `d1`, with `endloc` the location reached.
pub open spec fn numeric_case(
    s: Seq<char>,
    i: int,
    start: Location,
    endloc: Location,
    cf: int,
    r: LexerItem,
    d0: Seq<SpannedError>,
    d1: Seq<SpannedError>,
) -> bool {
    let ie = num_int_end(s, i);
    (
                if ie < s.len() && s[ie] == '.' {
                    let fe = scan_end(s, ie + 1, Class::Dec);
                    if fe < s.len() && (s[fe] == 'e' || s[fe] == 'E') {
                        let es = exp_digits_start(s, fe);
                        let ee = scan_end(s, es, Class::DecUnd);
                        &&& cf == ee
                        &&& float_item(
                            s,
                            i,
                            ee,
                            sans_underscores(s.subrange(es, ee)).len() == 0,
                            start,
                            endloc,
                            r,
                            d0,
                            d1,
                        )
                    } else {
                        &&& cf == fe
                        &&& float_item(s, i, fe, false, start, endloc, r, d0, d1)
                    }
                } else if ie < s.len() && (s[ie] == 'e' || s[ie] == 'E') {
                    let es = exp_digits_start(s, ie);
                    let ee = scan_end(s, es, Class::DecUnd);
                    &&& cf == ee
                    &&& float_item(
                        s,
                        i,
                        ee,
                        sans_underscores(s.subrange(es, ee)).len() == 0,
                        start,
                        endloc,
                        r,
                        d0,
                        d1,
                    )
                } else if ie < s.len() && s[ie] == 'x' {
                    &&& cf == scan_end(s, ie + 1, Class::HexUnd)
                    &&& radix_item(s, i, ie, 16, start, endloc, r, d0, d1)
                } else if ie < s.len() && s[ie] == 'b' {
                    &&& cf == scan_end(s, ie + 1, Class::BinUnd)
                    &&& radix_item(s, i, ie, 2, start, endloc, r, d0, d1)
                } else if ie < s.len() && s[ie] == 'o' {
                    &&& cf == scan_end(s, ie + 1, Class::OctUnd)
                    &&& radix_item(s, i, ie, 8, start, endloc, r, d0, d1)
                } else {
                    &&& cf == ie
                    &&& dec_item(s, i, ie, start, endloc, r, d0, d1)
                }
)
}

/// `v` is a Unicode scalar value: a code point that is not a surrogate.
pub open spec fn cp_valid(v: int) -> bool {
    (0 <= v < 0xD800) || (0xE000 <= v <= 0x10FFFF)
}

/// End of the hex digit run of a `u{…}` escape whose brace stands at `j`.
pub open spec fn cp_hex_end(s: Seq<char>, j: int) -> int {
    scan_end(s, j + 1, Class::Hex)
}

/// The cursor position after parsing a `u{…}` escape whose brace is
/// expected at `j`: nothing is consumed when the brace is missing; the
/// closing brace is consumed when present.
pub open spec fn cp_after(s: Seq<char>, j: int) -> int {
    if j >= s.len() || s[j] != '{' {
        j
    } else {
        let he = cp_hex_end(s, j);
        if he < s.len() && s[he] != '}' {
            he
        } else if he < s.len() {
            he + 1
        } else {
            he
        }
    }
}

/// The `u{…}` escape at `j` succeeds: a brace, a non-empty hex run, no
/// stray character in place of the closing brace, and a scalar value.
pub open spec fn cp_ok(s: Seq<char>, j: int) -> bool {
    &&& j < s.len() && s[j] == '{'
    &&& !(cp_hex_end(s, j) < s.len() && s[cp_hex_end(s, j)] != '}')
    &&& cp_hex_end(s, j) > j + 1
    &&& cp_valid(radix_val(s.subrange(j + 1, cp_hex_end(s, j)), 16))
}

/// The scalar value a successful `u{…}` escape denotes.
pub open spec fn cp_value(s: Seq<char>, j: int) -> int {
    radix_val(s.subrange(j + 1, cp_hex_end(s, j)), 16)
}

/// The error kind of a failing `u{…}` escape.
pub open spec fn cp_err_kind(s: Seq<char>, j: int) -> Error {
    if j >= s.len() || s[j] != '{' {
        Error::MalformedUnicodeEscape
    } else {
        let he = cp_hex_end(s, j);
        if he < s.len() && s[he] != '}' {
            Error::MalformedUnicodeEscape
        } else if he == j + 1 {
            Error::EmptyUnicodeEscape
        } else {
            Error::InvalidUnicodeEscape
        }
    }
}

/// Where the span of a failing `u{…}` escape ends: `-1` stands for the
/// escape's own start (nothing was consumed).
pub open spec fn cp_err_end(s: Seq<char>, j: int) -> int {
    if j >= s.len() || s[j] != '{' {
        -1
    } else {
        cp_hex_end(s, j)
    }
}

/// The cursor position after parsing an escape code whose first character
/// (the one after the backslash) stands at `i`.
pub open spec fn esc_after(s: Seq<char>, i: int, delim: char) -> int {
    if i >= s.len() {
        i
    } else if s[i] == 'u' && delim != 'u' {
        cp_after(s, i + 1)
    } else {
        i + 1
    }
}

/// The escape code at `i` is valid.
pub open spec fn esc_ok(s: Seq<char>, i: int, delim: char) -> bool {
    i < s.len() && {
        let x = s[i];
        ||| x == 'n'
        ||| x == 'r'
        ||| x == 't'
        ||| x == '\\'
        ||| x == delim
        ||| (x == 'u' && cp_ok(s, i + 1))
    }
}

/// The character a valid escape code at `i` denotes.
pub open spec fn esc_gives(s: Seq<char>, i: int, delim: char, c: char) -> bool {
    i < s.len() && {
        let x = s[i];
        if x == 'n' {
            c == '\n'
        } else if x == 'r' {
            c == '\r'
        } else if x == 't' {
            c == '\t'
        } else if x == '\\' {
            c == '\\'
        } else if x == delim {
            c == delim
        } else if x == 'u' {
            c as u32 == cp_value(s, i + 1)
        } else {
            false
        }
    }
}

/// The error kind of an invalid escape code at `i`.
pub open spec fn esc_err_kind(s: Seq<char>, i: int, delim: char) -> Error {
    if i >= s.len() {
        Error::UnexpectedEof
    } else if s[i] == 'u' {
        cp_err_kind(s, i + 1)
    } else {
        Error::UnexpectedEscapeCode(s[i])
    }
}

/// Where the span of an invalid escape code at `i` ends (`-1` stands for
/// the construct's start).
pub open spec fn esc_err_end(s: Seq<char>, i: int, delim: char) -> int {
    if i >= s.len() {
        -1
    } else if s[i] == 'u' {
        cp_err_end(s, i + 1)
    } else {
        i + 1
    }
}

/// The spanned error of a failing escape at `i` inside a literal that
/// began at `start`.
pub open spec fn esc_err_item(s: Seq<char>, i: int, delim: char, start: Location) -> SpannedError {
    Spanned {
        span: Span {
            start,
            end: if esc_err_end(s, i, delim) == -1 {
                start
            } else {
                loc_at(s, esc_err_end(s, i, delim))
            },
        },
        value: esc_err_kind(s, i, delim),
    }
}

/// What closing a character literal at position `k` yields, the parsed
/// character being `ch` and `extra` the diagnostics the body already
/// produced: the closing quote gives the character token; end of input
/// gives a placeholder and an end-of-input diagnostic; any other
/// character is consumed and flagged as an unterminated literal, the
/// parsed character kept.
pub open spec fn char_close_item(
    s: Seq<char>,
    k: int,
    start: Location,
    ch: char,
    extra: Seq<SpannedError>,
    r: LexerItem,
    d0: Seq<SpannedError>,
    d1: Seq<SpannedError>,
    cf: int,
) -> bool {
    if k >= s.len() {
        &&& cf == k
        &&& r == Ok::<SpannedToken, SpannedError>(
            Spanned {
                span: Span { start, end: start },
                value: Token::<String>::CharLiteral('\0'),
            },
        )
        &&& d1 == (d0 + extra).push(
            Spanned { span: Span { start, end: start }, value: Error::UnexpectedEof },
        )
    } else if s[k] == '\'' {
        &&& cf == k + 1
        &&& r == Ok::<SpannedToken, SpannedError>(
            Spanned {
                span: Span { start, end: loc_at(s, k + 1) },
                value: Token::<String>::CharLiteral(ch),
            },
        )
        &&& d1 == d0 + extra
    } else {
        &&& cf == k + 1
        &&& r == Ok::<SpannedToken, SpannedError>(
            Spanned {
                span: Span { start, end: loc_at(s, k + 1) },
                value: Token::<String>::CharLiteral(ch),
            },
        )
        &&& d1 == (d0 + extra).push(
            Spanned {
                span: Span { start, end: loc_at(s, k + 1) },
                value: Error::UnterminatedCharLiteral,
            },
        )
    }
}

/// Everything one pull on a character literal whose opening quote stands
/// at `i` yields.
pub open spec fn char_case(
    s: Seq<char>,
    i: int,
    start: Location,
    cf: int,
    r: LexerItem,
    d0: Seq<SpannedError>,
    d1: Seq<SpannedError>,
) -> bool {
    let j = i + 1;
    (
                if j >= s.len() {
                    &&& cf == j
                    &&& r == Ok::<SpannedToken, SpannedError>(
                        Spanned {
                            span: Span { start, end: start },
                            value: Token::<String>::CharLiteral('\0'),
                        },
                    )
                    &&& d1 == d0.push(
                        Spanned { span: Span { start, end: start }, value: Error::UnexpectedEof },
                    )
                } else if s[j] == '\'' {
                    &&& cf == j + 1
                    &&& r == Ok::<SpannedToken, SpannedError>(
                        Spanned {
                            span: Span { start, end: loc_at(s, j + 1) },
                            value: Token::<String>::CharLiteral('\0'),
                        },
                    )
                    &&& d1 == d0.push(
                        Spanned {
                            span: Span { start, end: loc_at(s, j + 1) },
                            value: Error::EmptyCharLiteral,
                        },
                    )
                } else if s[j] == '\\' {
                    if esc_ok(s, j + 1, '\'') {
                        exists|ch: char|
                            #[trigger] esc_gives(s, j + 1, '\'', ch) && char_close_item(
                                s,
                                esc_after(s, j + 1, '\''),
                                start,
                                ch,
                                Seq::empty(),
                                r,
                                d0,
                                d1,
                                cf,
                            )
                    } else {
                        char_close_item(
                            s,
                            scan_end(s, esc_after(s, j + 1, '\''), Class::NotQuote),
                            start,
                            '\0',
                            seq![esc_err_item(s, j + 1, '\'', start)],
                            r,
                            d0,
                            d1,
                            cf,
                        )
                    }
                } else {
                    char_close_item(s, j + 1, start, s[j], Seq::empty(), r, d0, d1, cf)
                }
)
}

impl Lexer {
    /// Parse the `u{…}` part of a Unicode escape; the cursor stands just
    /// after the `u`.  The escape must hold a brace-enclosed, non-empty
    /// run of hex digits forming a Unicode scalar value.
    pub fn parse_codepoint(&mut self, start: Location) -> (r: Result<char, SpannedError>)
        requires
            old(self).wf(),
        ensures
            final(self).wf(),
            final(self).inp() == old(self).inp(),
            final(self).diags() == old(self).diags(),
            final(self).contexts() == old(self).contexts(),
            final(self).cursor() >= old(self).cursor(),
            final(self).cursor() == cp_after(old(self).inp(), old(self).cursor()),
            ({
                let s = old(self).inp();
                let j = old(self).cursor();
                if cp_ok(s, j) {
                    r matches Ok(c) && c as u32 == cp_value(s, j)
                } else {
                    r == Err::<char, SpannedError>(
                        Spanned {
                            span: Span {
                                start,
                                end: if cp_err_end(s, j) == -1 {
                                    start
                                } else {
                                    loc_at(s, cp_err_end(s, j))
                                },
                            },
                            value: cp_err_kind(s, j),
                        },
                    )
                }
            }),
    {
        let ghost s = self.inp();
        let ghost j = self.cursor();
        let brace = match self.peek_at(0) {
            Some('{') => true,
            _ => false,
        };
        if !brace {
            return Err(
                Spanned { span: Span { start, end: start }, value: Error::MalformedUnicodeEscape },
            );
        }
        self.bump();
        proof {
            lemma_scan_end(s, j + 1, Class::Hex);
        }
        let hexes = self.take_class(Class::Hex);
        let end = self.loc;
        proof {
            lemma_loc_at_unique(s, self.cursor(), self.cur_loc());
        }
        let stray = match self.peek_at(0) {
            Some('}') => false,
            None => false,
            _ => true,
        };
        if stray {
            return Err(
                Spanned { span: Span { start, end }, value: Error::MalformedUnicodeEscape },
            );
        }
        self.bump();
        if hexes.len() == 0 {
            return Err(Spanned { span: Span { start, end }, value: Error::EmptyUnicodeEscape });
        }
        let mut acc: u32 = 0;
        let mut k: usize = 0;
        proof {
            assert(hexes@.take(0) =~= Seq::<char>::empty());
        }
        while k < hexes.len()
            invariant
                k <= hexes@.len(),
                forall|q: int| 0 <= q < hexes@.len() ==> spec_is_hex(#[trigger] hexes@[q]),
                radix_val(hexes@.take(k as int), 16) <= 0x10FFFF ==> acc == radix_val(
                    hexes@.take(k as int),
                    16,
                ),
                radix_val(hexes@.take(k as int), 16) > 0x10FFFF ==> acc > 0x10FFFF,
                acc <= 0x10FFFF * 16 + 15,
            decreases hexes@.len() - k,
        {
            proof {
                crate::numeric::lemma_radix_val_push(hexes@.take(k as int), hexes@[k as int], 16);
                assert(hexes@.take(k + 1).drop_last() =~= hexes@.take(k as int));
                assert(hexes@.take(k + 1).last() == hexes@[k as int]);
                assert(hexes@.take(k + 1) =~= hexes@.take(k as int).push(hexes@[k as int]));
                crate::numeric::lemma_radix_val_nonneg(hexes@.take(k as int), 16);
            }
            let d = digit_val(hexes[k]);
            if acc > 0x10FFFF {
                acc = 0x110000;
            } else {
                acc = acc * 16 + d;
            }
            k = k + 1;
        }
        proof {
            assert(hexes@.take(hexes@.len() as int) =~= hexes@);
            crate::numeric::lemma_radix_val_nonneg(hexes@, 16);
            assert(hexes@ == s.subrange(j + 1, cp_hex_end(s, j)));
            if radix_val(hexes@, 16) <= 0x10FFFF {
                assert(acc == cp_value(s, j));
                assert(vstd::utf8::is_scalar(acc) == cp_valid(cp_value(s, j)));
            } else {
                assert(!vstd::utf8::is_scalar(acc));
                assert(!cp_valid(cp_value(s, j)));
            }
        }
        match char_from_u32(acc) {
            Some(c) => Ok(c),
            None => Err(Spanned { span: Span { start, end }, value: Error::InvalidUnicodeEscape }),
        }
    }

    /// Parse an escape code: the cursor stands just after the backslash,
    /// `delim` is the enclosing quote character (which escapes to itself).
    fn parse_escape_code(&mut self, start: Location, delim: char) -> (r: Result<
        char,
        SpannedError,
    >)
        requires
            old(self).wf(),
        ensures
            final(self).wf(),
            final(self).inp() == old(self).inp(),
            final(self).diags() == old(self).diags(),
            final(self).contexts() == old(self).contexts(),
            final(self).cursor() >= old(self).cursor(),
            final(self).cursor() == esc_after(old(self).inp(), old(self).cursor(), delim),
            ({
                let s = old(self).inp();
                let i = old(self).cursor();
                if esc_ok(s, i, delim) {
                    r matches Ok(c) && esc_gives(s, i, delim, c)
                } else {
                    r == Err::<char, SpannedError>(
                        Spanned {
                            span: Span {
                                start,
                                end: if esc_err_end(s, i, delim) == -1 {
                                    start
                                } else {
                                    loc_at(s, esc_err_end(s, i, delim))
                                },
                            },
                            value: esc_err_kind(s, i, delim),
                        },
                    )
                }
            }),
    {
        let ghost s = self.inp();
        let ghost i = self.cursor();
        match self.bump() {
            None => Err(Spanned { span: Span { start, end: start }, value: Error::UnexpectedEof }),
            Some((_, end, c)) => {
                proof {
                    lemma_loc_at_unique(s, i + 1, end);
                }
                if c == 'n' {
                    Ok('\n')
                } else if c == 'r' {
                    Ok('\r')
                } else if c == 't' {
                    Ok('\t')
                } else if c == '\\' {
                    Ok('\\')
                } else if c == delim {
                    Ok(c)
                } else if c == 'u' {
                    self.parse_codepoint(start)
                } else {
                    Err(Spanned { span: Span { start, end }, value: Error::UnexpectedEscapeCode(c) })
                }
            },
        }
    }

    /// Scan a character literal at the cursor (which stands on the opening
    /// quote): one character or escape sequence, then the closing quote.
    /// Failures are recoverable: a diagnostic is pushed and a placeholder
    /// token emitted, so scanning continues.
    fn char_literal(&mut self, start: Location) -> (r: LexerItem)
        requires
            old(self).wf(),
            old(self).cursor() < old(self).inp().len(),
            old(self).inp()[old(self).cursor()] == '\'',
            start == old(self).cur_loc(),
        ensures
            final(self).wf(),
            final(self).inp() == old(self).inp(),
            final(self).contexts() == old(self).contexts(),
            final(self).cursor() >= old(self).cursor(),
            char_case(
                old(self).inp(),
                old(self).cursor(),
                start,
                final(self).cursor(),
                r,
                old(self).diags(),
                final(self).diags(),
            ),
    {
        let ghost s = self.inp();
        let ghost i = self.cursor();
        let ghost d0 = self.diags();
        let ghost mut extra: Seq<SpannedError> = Seq::empty();
        self.bump();
        let first = self.bump();
        let ch: char = match first {
            None => {
                self.errors.push(
                    Spanned { span: Span { start, end: start }, value: Error::UnexpectedEof },
                );
                return Ok(
                    Spanned {
                        span: Span { start, end: start },
                        value: Token::CharLiteral('\0'),
                    },
                );
            },
            Some((_, end1, c)) => {
                proof {
                    lemma_loc_at_unique(s, i + 2, end1);
                }
                if c == '\'' {
                    let span = Span { start, end: end1 };
                    self.errors.push(Spanned { span, value: Error::EmptyCharLiteral });
                    return Ok(Spanned { span, value: Token::CharLiteral('\0') });
                } else if c == '\\' {
                    match self.parse_escape_code(start, '\'') {
                        Ok(ch) => ch,
                        Err(e) => {
                            self.errors.push(e);
                            proof {
                                extra = seq![esc_err_item(s, i + 2, '\'', start)];
                                lemma_scan_end(s, self.cursor(), Class::NotQuote);
                            }
                            let _skipped = self.take_class(Class::NotQuote);
                            '\0'
                        },
                    }
                } else {
                    c
                }
            },
        };
        proof {
            assert(self.diags() =~= d0 + extra);
        }
        match self.bump() {
            None => {
                self.errors.push(
                    Spanned { span: Span { start, end: start }, value: Error::UnexpectedEof },
                );
                Ok(
                    Spanned {
                        span: Span { start, end: start },
                        value: Token::CharLiteral('\0'),
                    },
                )
            },
            Some((_, end, cc)) => {
                proof {
                    lemma_loc_at_unique(s, self.cursor(), end);
                }
                let span = Span { start, end };
                if cc == '\'' {
                    Ok(Spanned { span, value: Token::CharLiteral(ch) })
                } else {
                    self.errors.push(Spanned { span, value: Error::UnterminatedCharLiteral });
                    Ok(Spanned { span, value: Token::CharLiteral(ch) })
                }
            },
        }
    }
}

/// Escape parsing starting at `x` never moves backwards and stays inside
/// the text.
pub proof fn lemma_esc_after_bounds(s: Seq<char>, x: int, delim: char)
    requires
        0 <= x <= s.len(),
    ensures
        x <= esc_after(s, x, delim) <= s.len(),
{
    if x < s.len() && s[x] == 'u' && delim != 'u' {
        if x + 1 < s.len() && s[x + 1] == '{' {
            lemma_scan_end(s, x + 2, Class::Hex);
        }
    }
}

/// Where the literal run of a quoted string beginning at `i` ends: at an
/// unescaped closing quote, an unescaped `${` or `%{`, or the end of the
/// text.  `$$` and `%%` are literal-escaped doubles; a backslash consumes
/// the escape sequence it begins.
pub open spec fn str_run_end(s: Seq<char>, i: int) -> int
    decreases s.len() - i,
    when 0 <= i <= s.len()
    via str_run_end_decreases
{
    if i >= s.len() {
        i
    } else if s[i] == '"' {
        i
    } else if s[i] == '$' && i + 1 < s.len() && s[i + 1] == '$' {
        str_run_end(s, i + 2)
    } else if s[i] == '%' && i + 1 < s.len() && s[i + 1] == '%' {
        str_run_end(s, i + 2)
    } else if s[i] == '$' && i + 1 < s.len() && s[i + 1] == '{' {
        i
    } else if s[i] == '%' && i + 1 < s.len() && s[i + 1] == '{' {
        i
    } else if s[i] == '\\' {
        str_run_end(s, esc_after(s, i + 1, '"'))
    } else {
        str_run_end(s, i + 1)
    }
}

#[via_fn]
proof fn str_run_end_decreases(s: Seq<char>, i: int) {
    if 0 <= i < s.len() && s[i] == '\\' {
        lemma_esc_after_bounds(s, i + 1, '"');
    }
}

/// The diagnostics the escape validation of that run produces, in order:
/// one for each invalid escape sequence, all spanning from the run's
/// start.
pub open spec fn str_run_diags(s: Seq<char>, i: int, start: Location) -> Seq<SpannedError>
    decreases s.len() - i,
    when 0 <= i <= s.len()
    via str_run_diags_decreases
{
    if i >= s.len() {
        Seq::empty()
    } else if s[i] == '"' {
        Seq::empty()
    } else if s[i] == '$' && i + 1 < s.len() && s[i + 1] == '$' {
        str_run_diags(s, i + 2, start)
    } else if s[i] == '%' && i + 1 < s.len() && s[i + 1] == '%' {
        str_run_diags(s, i + 2, start)
    } else if s[i] == '$' && i + 1 < s.len() && s[i + 1] == '{' {
        Seq::empty()
    } else if s[i] == '%' && i + 1 < s.len() && s[i + 1] == '{' {
        Seq::empty()
    } else if s[i] == '\\' {
        if esc_ok(s, i + 1, '"') {
            str_run_diags(s, esc_after(s, i + 1, '"'), start)
        } else {
            seq![esc_err_item(s, i + 1, '"', start)] + str_run_diags(
                s,
                esc_after(s, i + 1, '"'),
                start,
            )
        }
    } else {
        str_run_diags(s, i + 1, start)
    }
}

#[via_fn]
proof fn str_run_diags_decreases(s: Seq<char>, i: int, start: Location) {
    if 0 <= i < s.len() && s[i] == '\\' {
        lemma_esc_after_bounds(s, i + 1, '"');
    }
}

/// The run end lies between its start and the end of the text.
pub proof fn lemma_str_run_end_bounds(s: Seq<char>, i: int)
    requires
        0 <= i <= s.len(),
    ensures
        i <= str_run_end(s, i) <= s.len(),
    decreases s.len() - i,
{
    if i < s.len() && s[i] == '\\' {
        lemma_esc_after_bounds(s, i + 1, '"');
        lemma_str_run_end_bounds(s, esc_after(s, i + 1, '"'));
    } else if i < s.len() && ((s[i] == '$' && i + 1 < s.len() && s[i + 1] == '$') || (s[i] == '%'
        && i + 1 < s.len() && s[i + 1] == '%')) {
        lemma_str_run_end_bounds(s, i + 2);
    } else if i < s.len() && !(s[i] == '"' || (s[i] == '$' && i + 1 < s.len() && s[i + 1] == '{')
        || (s[i] == '%' && i + 1 < s.len() && s[i + 1] == '{')) {
        lemma_str_run_end_bounds(s, i + 1);
    }
}

/// Everything one pull inside a quoted string yields, the cursor moving
/// from `i` to `cf`, the diagnostics from `d0` to `d1`, and the context
/// stack from `c0` to `c1`.
pub open spec fn string_case(
    s: Seq<char>,
    i: int,
    start: Location,
    cf: int,
    r: LexerItem,
    d0: Seq<SpannedError>,
    d1: Seq<SpannedError>,
    c0: Seq<Context>,
    c1: Seq<Context>,
) -> bool {
    (
                if i < s.len() && s[i] == '"' {
                    &&& cf == i + 1
                    &&& c1 == c0.drop_last()
                    &&& d1 == d0
                    &&& r == Ok::<SpannedToken, SpannedError>(
                        Spanned {
                            span: Span { start, end: loc_at(s, i + 1) },
                            value: Token::<String>::StringDelimiter,
                        },
                    )
                } else if i + 1 < s.len() && s[i] == '$' && s[i + 1] == '{' {
                    &&& cf == i + 2
                    &&& c1 == c0.push(
                        Context::StringInterpolation { depth: 0 },
                    )
                    &&& d1 == d0
                    &&& r == Ok::<SpannedToken, SpannedError>(
                        Spanned {
                            span: Span { start, end: loc_at(s, i + 2) },
                            value: Token::<String>::StringInterpolation,
                        },
                    )
                } else if i + 1 < s.len() && s[i] == '%' && s[i + 1] == '{' {
                    &&& cf == i + 2
                    &&& c1 == c0.push(
                        Context::StringDirective { depth: 0 },
                    )
                    &&& d1 == d0
                    &&& r == Ok::<SpannedToken, SpannedError>(
                        Spanned {
                            span: Span { start, end: loc_at(s, i + 2) },
                            value: Token::<String>::StringDirective,
                        },
                    )
                } else {
                    let j = str_run_end(s, i);
                    &&& cf == j
                    &&& c1 == c0
                    &&& d1 == d0 + str_run_diags(s, i, start)
                    &&& if j < s.len() {
                        r matches Ok(st) && st.span == (Span { start, end: loc_at(s, j) }) && (
                        st.value matches Token::String(StringLiteral::Escaped(t)) && (t@
                            == s.subrange(i, j)))
                    } else {
                        r == Err::<SpannedToken, SpannedError>(
                            Spanned {
                                span: Span { start, end: loc_at(s, s.len() as int) },
                                value: Error::UnexpectedEof,
                            },
                        )
                    }
                }
)
}

impl Lexer {
    /// The string-run token covering the input from `pos0` to the cursor.
    fn emit_str_run(&self, start: Location, pos0: usize) -> (r: LexerItem)
        requires
            self.wf(),
            pos0 as int <= self.cursor(),
        ensures
            r matches Ok(st) && st.span == (Span { start, end: self.cur_loc() }) && (st.value
                matches Token::String(StringLiteral::Escaped(t)) && (t@ == self.inp().subrange(
                pos0 as int,
                self.cursor(),
            ))),
    {
        let text_run = self.slice_chars(pos0, self.pos);
        let text = string_from_chars(text_run.as_slice());
        Ok(
            Spanned {
                span: Span { start, end: self.loc },
                value: Token::String(StringLiteral::Escaped(text)),
            },
        )
    }

    /// One pull inside a `"…"` string: the closing quote pops the context
    /// and is emitted as a delimiter; `${` and `%{` push and emit their
    /// markers; anything else is a run of literal text, emitted raw (with
    /// its escape sequences validated, invalid ones flagged as
    /// diagnostics, and the raw text retained).  Reaching the end of the
    /// text without a terminator is fatal.
    fn iter_single_line_string(&mut self) -> (r: LexerItem)
        requires
            old(self).wf(),
            old(self).contexts().len() > 0,
        ensures
            final(self).wf(),
            final(self).inp() == old(self).inp(),
            final(self).cursor() >= old(self).cursor(),
            string_case(
                old(self).inp(),
                old(self).cursor(),
                old(self).cur_loc(),
                final(self).cursor(),
                r,
                old(self).diags(),
                final(self).diags(),
                old(self).contexts(),
                final(self).contexts(),
            ),
    {
        let ghost s = self.inp();
        let ghost i0 = self.cursor();
        let ghost d0 = self.diags();
        let start = self.loc;
        match self.peek_at(0) {
            Some('"') => {
                self.bump();
                self.pop_context();
                proof {
                    lemma_loc_at_unique(s, self.cursor(), self.cur_loc());
                }
                return Ok(
                    Spanned {
                        span: Span { start, end: self.loc },
                        value: Token::StringDelimiter,
                    },
                );
            },
            _ => {},
        }
        let two = (self.peek_at(0), self.peek_at(1));
        match two {
            (Some('$'), Some('{')) => {
                self.bump();
                self.bump();
                self.push_context(Context::StringInterpolation { depth: 0 });
                proof {
                    lemma_loc_at_unique(s, self.cursor(), self.cur_loc());
                }
                return Ok(
                    Spanned {
                        span: Span { start, end: self.loc },
                        value: Token::StringInterpolation,
                    },
                );
            },
            (Some('%'), Some('{')) => {
                self.bump();
                self.bump();
                self.push_context(Context::StringDirective { depth: 0 });
                proof {
                    lemma_loc_at_unique(s, self.cursor(), self.cur_loc());
                }
                return Ok(
                    Spanned {
                        span: Span { start, end: self.loc },
                        value: Token::StringDirective,
                    },
                );
            },
            _ => {},
        }
        let pos0 = self.pos;
        loop
            invariant
                self.wf(),
                s == old(self).inp(),
                d0 == old(self).diags(),
                i0 == old(self).cursor(),
                self.inp() == s,
                self.contexts() == old(self).contexts(),
                0 <= i0 <= self.cursor() <= s.len(),
                pos0 as int == i0,
                start == old(self).cur_loc(),
                !(i0 < s.len() && s[i0] == '"'),
                !(i0 + 1 < s.len() && s[i0] == '$' && s[i0 + 1] == '{'),
                !(i0 + 1 < s.len() && s[i0] == '%' && s[i0 + 1] == '{'),
                str_run_end(s, self.cursor()) == str_run_end(s, i0),
                self.diags() + str_run_diags(s, self.cursor(), start) == d0 + str_run_diags(
                    s,
                    i0,
                    start,
                ),
            decreases s.len() - self.cursor(),
        {
            let ghost p = self.cursor();
            if self.pos >= self.input.len() {
                proof {
                    assert(self.diags() =~= d0 + str_run_diags(s, i0, start));
                    lemma_loc_at_unique(s, self.cursor(), self.cur_loc());
                }
                return Err(
                    Spanned {
                        span: Span { start, end: self.loc },
                        value: Error::UnexpectedEof,
                    },
                );
            }
            let c = self.input[self.pos];
            let nxt = self.peek_at(1);
            let n_dollar = match nxt {
                Some('$') => true,
                _ => false,
            };
            let n_percent = match nxt {
                Some('%') => true,
                _ => false,
            };
            let n_brace = match nxt {
                Some('{') => true,
                _ => false,
            };
            if c == '"' || (c == '$' && n_brace) || (c == '%' && n_brace) {
                proof {
                    assert(str_run_end(s, p) == p);
                    assert(self.diags() =~= d0 + str_run_diags(s, i0, start));
                    lemma_loc_at_unique(s, self.cursor(), self.cur_loc());
                }
                return self.emit_str_run(start, pos0);
            } else if (c == '$' && n_dollar) || (c == '%' && n_percent) {
                self.bump();
                self.bump();
                proof {
                    assert(self.diags() + str_run_diags(s, self.cursor(), start) =~= d0
                        + str_run_diags(s, i0, start));
                }
            } else if c == '\\' {
                self.bump();
                proof {
                    lemma_esc_after_bounds(s, p + 1, '"');
                }
                match self.parse_escape_code(start, '"') {
                    Ok(_) => {},
                    Err(e) => {
                        self.errors.push(e);
                    },
                }
                proof {
                    assert(str_run_diags(s, p, start) == if esc_ok(s, p + 1, '"') {
                        str_run_diags(s, esc_after(s, p + 1, '"'), start)
                    } else {
                        seq![esc_err_item(s, p + 1, '"', start)] + str_run_diags(
                            s,
                            esc_after(s, p + 1, '"'),
                            start,
                        )
                    });
                    assert(self.diags() + str_run_diags(s, self.cursor(), start) =~= d0
                        + str_run_diags(s, i0, start));
                }
            } else {
                self.bump();
                proof {
                    assert(self.diags() + str_run_diags(s, self.cursor(), start) =~= d0
                        + str_run_diags(s, i0, start));
                }
            }
        }
    }
}

/// The lines of the region `s[i..j)`, each including its terminating
/// newline; the last line has none when the region does not end at one.
pub open spec fn split_lines(s: Seq<char>, i: int, j: int) -> Seq<Seq<char>>
    decreases j - i,
    when 0 <= i <= j <= s.len()
    via split_lines_decreases
{
    if i >= j {
        Seq::empty()
    } else {
        let e = scan_end(s, i, Class::NotNewline);
        if e < j {
            seq![s.subrange(i, e + 1)] + split_lines(s, e + 1, j)
        } else {
            seq![s.subrange(i, j)]
        }
    }
}

#[via_fn]
proof fn split_lines_decreases(s: Seq<char>, i: int, j: int) {
    if 0 <= i && i < j && j <= s.len() {
        lemma_scan_end(s, i, Class::NotNewline);
    }
}

/// Appending one newline-terminated line at a line boundary extends the
/// split by that line.
pub proof fn lemma_split_lines_snoc(s: Seq<char>, i: int, j: int, j2: int)
    requires
        0 <= i <= j < j2 <= s.len(),
        j == i || s[j - 1] == '\n',
        s[j2 - 1] == '\n',
        forall|q: int| j <= q < j2 - 1 ==> s[q] != '\n',
    ensures
        split_lines(s, i, j2) == split_lines(s, i, j).push(s.subrange(j, j2)),
    decreases j - i,
{
    lemma_scan_end(s, i, Class::NotNewline);
    let e = scan_end(s, i, Class::NotNewline);
    if i == j {
        assert(e == j2 - 1);
        assert(split_lines(s, j2, j2) =~= Seq::<Seq<char>>::empty());
        assert(split_lines(s, i, j2) =~= seq![s.subrange(i, j2)]);
        assert(split_lines(s, i, j) =~= Seq::<Seq<char>>::empty());
        assert(split_lines(s, i, j2) =~= split_lines(s, i, j).push(s.subrange(j, j2)));
    } else {
        assert(e <= j - 1) by {
            if e > j - 1 {
                assert(s[j - 1] == '\n');
            }
        }
        assert(e < j);
        lemma_split_lines_snoc(s, e + 1, j, j2);
        assert(split_lines(s, i, j2) =~= seq![s.subrange(i, e + 1)] + split_lines(s, e + 1, j2));
        assert(split_lines(s, i, j) =~= seq![s.subrange(i, e + 1)] + split_lines(s, e + 1, j));
        assert(seq![s.subrange(i, e + 1)] + split_lines(s, e + 1, j).push(s.subrange(j, j2)) =~= (
        seq![s.subrange(i, e + 1)] + split_lines(s, e + 1, j)).push(s.subrange(j, j2)));
    }
}

/// Appending a trailing partial line (no newline) at a line boundary
/// extends the split by that line.
pub proof fn lemma_split_lines_snoc_partial(s: Seq<char>, i: int, j: int, j2: int)
    requires
        0 <= i <= j < j2 <= s.len(),
        j == i || s[j - 1] == '\n',
        forall|q: int| j <= q < j2 ==> s[q] != '\n',
    ensures
        split_lines(s, i, j2) == split_lines(s, i, j).push(s.subrange(j, j2)),
    decreases j - i,
{
    lemma_scan_end(s, i, Class::NotNewline);
    let e = scan_end(s, i, Class::NotNewline);
    if i == j {
        assert(e >= j2);
        assert(split_lines(s, i, j2) =~= seq![s.subrange(i, j2)]);
        assert(split_lines(s, i, j) =~= Seq::<Seq<char>>::empty());
        assert(split_lines(s, i, j2) =~= split_lines(s, i, j).push(s.subrange(j, j2)));
    } else {
        assert(e <= j - 1) by {
            if e > j - 1 {
                assert(s[j - 1] == '\n');
            }
        }
        lemma_split_lines_snoc_partial(s, e + 1, j, j2);
        assert(split_lines(s, i, j2) =~= seq![s.subrange(i, e + 1)] + split_lines(s, e + 1, j2));
        assert(split_lines(s, i, j) =~= seq![s.subrange(i, e + 1)] + split_lines(s, e + 1, j));
        assert(seq![s.subrange(i, e + 1)] + split_lines(s, e + 1, j).push(s.subrange(j, j2)) =~= (
        seq![s.subrange(i, e + 1)] + split_lines(s, e + 1, j)).push(s.subrange(j, j2)));
    }
}

/// Scanning a heredoc body from position `p`, the current line having
/// begun at `ls`: the result `(kind, d, pe)` says how the chunk ends.
/// Kind 0 is a delimiter line terminated by a newline and `d` its start,
/// `pe` the position after its newline; kind 1 is a delimiter line at the
/// very end of the text; kind 2 is an unescaped interpolation or
/// directive opener at `pe` (only when the delimiter is unquoted); kind 4
/// is the end of the text with no delimiter line.
pub open spec fn hd_scan(s: Seq<char>, p: int, ls: int, delim: Seq<char>, quoted: bool) -> (
    int,
    int,
    int,
)
    decreases s.len() - p,
    when 0 <= ls <= p <= s.len()
{
    if p >= s.len() {
        if ls < p && s.subrange(ls, p) == delim {
            (1, ls, p)
        } else {
            (4, ls, p)
        }
    } else if s[p] == '\n' {
        if s.subrange(ls, p) == delim {
            (0, ls, p + 1)
        } else {
            hd_scan(s, p + 1, p + 1, delim, quoted)
        }
    } else if !quoted && p + 1 < s.len() && ((s[p] == '$' && s[p + 1] == '$') || (s[p] == '%'
        && s[p + 1] == '%')) {
        hd_scan(s, p + 2, ls, delim, quoted)
    } else if !quoted && p + 1 < s.len() && s[p] == '$' && s[p + 1] == '{' {
        (2, ls, p)
    } else if !quoted && p + 1 < s.len() && s[p] == '%' && s[p + 1] == '{' {
        (2, ls, p)
    } else {
        hd_scan(s, p + 1, ls, delim, quoted)
    }
}

/// The lines a heredoc body chunk covering `s[i..d)` emits: the raw
/// lines, with the minimal indentation stripped when the header asked
/// for it.
pub open spec fn heredoc_lines(s: Seq<char>, i: int, d: int, skip: bool) -> Seq<Seq<char>> {
    if skip {
        crate::heredoc::strip_indent(split_lines(s, i, d))
    } else {
        split_lines(s, i, d)
    }
}

/// The owned strings `v` spell out exactly the character sequences
/// `lines`.
pub open spec fn strings_match(v: Seq<String>, lines: Seq<Seq<char>>) -> bool {
    v.len() == lines.len() && forall|k: int| 0 <= k < lines.len() ==> #[trigger] v[k]@ == lines[k]
}

/// Everything one pull inside a heredoc body yields.  An unescaped
/// interpolation or directive opener at the cursor emits its marker and
/// pushes its context; otherwise the body is scanned up to the delimiter
/// line, an opener, or the end of the text.
pub open spec fn heredoc_case(
    s: Seq<char>,
    i: int,
    delim: Seq<char>,
    skip: bool,
    quoted: bool,
    start: Location,
    cf: int,
    r: LexerItem,
    d0: Seq<SpannedError>,
    d1: Seq<SpannedError>,
    c0: Seq<Context>,
    c1: Seq<Context>,
) -> bool {
    if !quoted && i + 1 < s.len() && s[i] == '$' && s[i + 1] == '{' {
        &&& cf == i + 2
        &&& d1 == d0
        &&& c1 == c0.push(Context::StringInterpolation { depth: 0 })
        &&& r == Ok::<SpannedToken, SpannedError>(
            Spanned {
                span: Span { start, end: loc_at(s, i + 2) },
                value: Token::<String>::StringInterpolation,
            },
        )
    } else if !quoted && i + 1 < s.len() && s[i] == '%' && s[i + 1] == '{' {
        &&& cf == i + 2
        &&& d1 == d0
        &&& c1 == c0.push(Context::StringDirective { depth: 0 })
        &&& r == Ok::<SpannedToken, SpannedError>(
            Spanned {
                span: Span { start, end: loc_at(s, i + 2) },
                value: Token::<String>::StringDirective,
            },
        )
    } else {
        let t = hd_scan(s, i, i, delim, quoted);
        if t.0 == 0 || t.0 == 1 {
            &&& cf == t.2
            &&& d1 == d0
            &&& c1 == c0.push(
                Context::HereDocStringEnd { start: loc_at(s, t.1), end: loc_at(s, t.2) },
            )
            &&& (r matches Ok(st) && st.span == (Span { start, end: loc_at(s, t.1) }) && (st.value
                matches Token::HeredocString(v) && strings_match(
                v@,
                heredoc_lines(s, i, t.1, skip),
            )))
        } else if t.0 == 2 {
            &&& cf == t.2
            &&& d1 == d0
            &&& c1 == c0
            &&& (r matches Ok(st) && st.span == (Span { start, end: loc_at(s, t.2) }) && (st.value
                matches Token::HeredocString(v) && strings_match(
                v@,
                heredoc_lines(s, i, t.2, skip),
            )))
        } else {
            &&& cf == s.len()
            &&& d1 == d0
            &&& c1 == c0
            &&& r == Err::<SpannedToken, SpannedError>(
                Spanned {
                    span: Span { start, end: loc_at(s, s.len() as int) },
                    value: Error::UnexpectedEof,
                },
            )
        }
    }
}

impl Lexer {
    /// The characters between two cursor positions equal `w`.
    fn range_eq(&self, from: usize, to: usize, w: &Vec<char>) -> (r: bool)
        requires
            self.wf(),
            from <= to <= self.inp().len(),
        ensures
            r == (self.inp().subrange(from as int, to as int) == w@),
    {
        let n = to - from;
        if n != w.len() {
            proof {
                assert(self.inp().subrange(from as int, to as int).len() == n);
            }
            return false;
        }
        let mut k: usize = 0;
        while k < n
            invariant
                self.wf(),
                from <= to <= self.inp().len(),
                n == to - from,
                n == w@.len(),
                k <= n,
                forall|q: int| 0 <= q < k ==> self.inp().subrange(from as int, to as int)[q]
                    == w@[q],
            decreases n - k,
        {
            if self.input[from + k] != w[k] {
                proof {
                    assert(self.inp().subrange(from as int, to as int)[k as int] != w@[k as int]);
                }
                return false;
            }
            proof {
                assert(self.inp().subrange(from as int, to as int)[k as int] == w@[k as int]);
            }
            k = k + 1;
        }
        proof {
            assert(self.inp().subrange(from as int, to as int) =~= w@);
        }
        true
    }
}

impl Lexer {
    /// One pull inside a heredoc body: scan line by line until a line
    /// exactly equal to the delimiter ends the body (pushing the
    /// pending-closing-delimiter context), until an unescaped `${` or
    /// `%{` interrupts it (the collected lines are emitted and the next
    /// pull opens the marker), or until the end of the text (fatal).
    /// When the header asked for it, the minimal indentation is stripped
    /// from the emitted lines.
    fn iter_heredoc_string(
        &mut self,
        delimiter: String,
        skip_leading_tabs: bool,
        quoted_delimiter: bool,
    ) -> (r: LexerItem)
        requires
            old(self).wf(),
        ensures
            final(self).wf(),
            final(self).inp() == old(self).inp(),
            final(self).cursor() >= old(self).cursor(),
            heredoc_case(
                old(self).inp(),
                old(self).cursor(),
                delimiter@,
                skip_leading_tabs,
                quoted_delimiter,
                old(self).cur_loc(),
                final(self).cursor(),
                r,
                old(self).diags(),
                final(self).diags(),
                old(self).contexts(),
                final(self).contexts(),
            ),
    {
        let ghost s = self.inp();
        let ghost i0 = self.cursor();
        let start = self.loc;
        if !quoted_delimiter {
            let two = (self.peek_at(0), self.peek_at(1));
            match two {
                (Some('$'), Some('{')) => {
                    self.bump();
                    self.bump();
                    self.push_context(Context::StringInterpolation { depth: 0 });
                    proof {
                        lemma_loc_at_unique(s, self.cursor(), self.cur_loc());
                    }
                    return Ok(
                        Spanned {
                            span: Span { start, end: self.loc },
                            value: Token::StringInterpolation,
                        },
                    );
                },
                (Some('%'), Some('{')) => {
                    self.bump();
                    self.bump();
                    self.push_context(Context::StringDirective { depth: 0 });
                    proof {
                        lemma_loc_at_unique(s, self.cursor(), self.cur_loc());
                    }
                    return Ok(
                        Spanned {
                            span: Span { start, end: self.loc },
                            value: Token::StringDirective,
                        },
                    );
                },
                _ => {},
            }
        }
        let dvec = chars_vec(delimiter.as_str());
        let mut lines: Vec<Vec<char>> = Vec::new();
        let mut ls: usize = self.pos;
        let mut ls_loc = self.loc;
        proof {
            assert(lines@.map_values(|l: Vec<char>| l@) =~= Seq::<Seq<char>>::empty());
            assert(split_lines(s, i0, i0) =~= Seq::<Seq<char>>::empty());
        }
        loop
            invariant
                self.wf(),
                s == old(self).inp(),
                i0 == old(self).cursor(),
                self.inp() == s,
                self.diags() == old(self).diags(),
                self.contexts() == old(self).contexts(),
                start == old(self).cur_loc(),
                dvec@ == delimiter@,
                quoted_delimiter || !(i0 + 1 < s.len() && s[i0] == '$' && s[i0 + 1] == '{'),
                quoted_delimiter || !(i0 + 1 < s.len() && s[i0] == '%' && s[i0 + 1] == '{'),
                0 <= i0 <= ls as int <= self.cursor() <= s.len(),
                ls as int == i0 || s[ls as int - 1] == '\n',
                forall|q: int| ls as int <= q < self.cursor() ==> s[q] != '\n',
                ls_loc == crate::pos::loc_at(s, ls as int),
                lines@.map_values(|l: Vec<char>| l@) == split_lines(s, i0, ls as int),
                hd_scan(s, self.cursor(), ls as int, delimiter@, quoted_delimiter) == hd_scan(
                    s,
                    i0,
                    i0,
                    delimiter@,
                    quoted_delimiter,
                ),
            decreases s.len() - self.cursor(),
        {
            let ghost p = self.cursor();
            if self.pos >= self.input.len() {
                let is_delim = ls < self.pos && self.range_eq(ls, self.pos, &dvec);
                if is_delim {
                    proof {
                        lemma_loc_at_unique(s, self.cursor(), self.cur_loc());
                    }
                    return self.finish_heredoc(
                        start,
                        ls_loc,
                        lines,
                        skip_leading_tabs,
                        Ghost(i0),
                        Ghost(ls as int),
                    );
                } else {
                    proof {
                        lemma_loc_at_unique(s, self.cursor(), self.cur_loc());
                    }
                    return Err(
                        Spanned {
                            span: Span { start, end: self.loc },
                            value: Error::UnexpectedEof,
                        },
                    );
                }
            }
            let c = self.input[self.pos];
            if c == '\n' {
                let p_nl = self.pos;
                let is_delim = self.range_eq(ls, p_nl, &dvec);
                self.bump();
                if is_delim {
                    proof {
                        lemma_loc_at_unique(s, self.cursor(), self.cur_loc());
                    }
                    return self.finish_heredoc(
                        start,
                        ls_loc,
                        lines,
                        skip_leading_tabs,
                        Ghost(i0),
                        Ghost(ls as int),
                    );
                }
                let line = self.slice_chars(ls, self.pos);
                proof {
                    lemma_split_lines_snoc(s, i0, ls as int, self.cursor());
                    assert(lines@.push(line).map_values(|l: Vec<char>| l@) =~= lines@.map_values(
                        |l: Vec<char>| l@,
                    ).push(line@));
                }
                lines.push(line);
                ls = self.pos;
                ls_loc = self.loc;
                proof {
                    lemma_loc_at_unique(s, self.cursor(), self.cur_loc());
                }
            } else {
                let nxt = self.peek_at(1);
                let n_dollar = match nxt {
                    Some('$') => true,
                    _ => false,
                };
                let n_percent = match nxt {
                    Some('%') => true,
                    _ => false,
                };
                let n_brace = match nxt {
                    Some('{') => true,
                    _ => false,
                };
                if !quoted_delimiter && ((c == '$' && n_dollar) || (c == '%' && n_percent)) {
                    self.bump();
                    self.bump();
                } else if !quoted_delimiter && ((c == '$' && n_brace) || (c == '%' && n_brace)) {
                    // interpolation interrupt: emit the chunk collected so far
                    if ls < self.pos {
                        let line = self.slice_chars(ls, self.pos);
                        proof {
                            lemma_split_lines_snoc_partial(s, i0, ls as int, self.cursor());
                            assert(lines@.push(line).map_values(|l: Vec<char>| l@)
                                =~= lines@.map_values(|l: Vec<char>| l@).push(line@));
                        }
                        lines.push(line);
                    }
                    let end = self.loc;
                    proof {
                        lemma_loc_at_unique(s, self.cursor(), self.cur_loc());
                    }
                    let toks = heredoc_token_lines(lines, skip_leading_tabs);
                    return Ok(
                        Spanned {
                            span: Span { start, end },
                            value: Token::HeredocString(toks),
                        },
                    );
                } else {
                    self.bump();
                }
            }
        }
    }

    /// The body is complete: push the pending closing-delimiter context
    /// (its span runs from the delimiter line's start to the cursor) and
    /// emit the collected lines.
    fn finish_heredoc(
        &mut self,
        start: Location,
        ls_loc: Location,
        lines: Vec<Vec<char>>,
        skip_leading_tabs: bool,
        i0: Ghost<int>,
        d: Ghost<int>,
    ) -> (r: LexerItem)
        requires
            old(self).wf(),
            0 <= i0@ <= d@ <= s_len(old(self)),
            ls_loc == crate::pos::loc_at(old(self).inp(), d@),
            lines@.map_values(|l: Vec<char>| l@) == split_lines(old(self).inp(), i0@, d@),
        ensures
            final(self).wf(),
            final(self).inp() == old(self).inp(),
            final(self).cursor() == old(self).cursor(),
            final(self).cur_loc() == old(self).cur_loc(),
            final(self).diags() == old(self).diags(),
            final(self).contexts() == old(self).contexts().push(
                Context::HereDocStringEnd {
                    start: ls_loc,
                    end: crate::pos::loc_at(old(self).inp(), old(self).cursor()),
                },
            ),
            (r matches Ok(st) && st.span == (Span { start, end: ls_loc }) && (st.value
                matches Token::HeredocString(v) && strings_match(
                v@,
                heredoc_lines(old(self).inp(), i0@, d@, skip_leading_tabs),
            ))),
    {
        proof {
            lemma_loc_at_unique(self.inp(), self.cursor(), self.cur_loc());
        }
        let end_loc = self.loc;
        self.push_context(Context::HereDocStringEnd { start: ls_loc, end: end_loc });
        let toks = heredoc_token_lines(lines, skip_leading_tabs);
        Ok(Spanned { span: Span { start, end: ls_loc }, value: Token::HeredocString(toks) })
    }

}

/// The emitted form of collected body lines: stripped of the minimal
/// indentation when asked, then turned into owned strings.
fn heredoc_token_lines(lines: Vec<Vec<char>>, skip: bool) -> (r: Vec<String>)
    ensures
        strings_match(
            r@,
            if skip {
                crate::heredoc::strip_indent(lines@.map_values(|l: Vec<char>| l@))
            } else {
                lines@.map_values(|l: Vec<char>| l@)
            },
        ),
{
    let ghost model = lines@.map_values(|l: Vec<char>| l@);
    let out = if skip {
        crate::heredoc::strip_heredoc_indent(&lines)
    } else {
        lines
    };
    proof {
        if skip {
            assert(crate::heredoc::strip_indent(model).len() == model.len());
        }
    }
    let r = lines_to_strings(out);
    r
}

/// The input length of a scanner (a shorthand for contracts).
pub open spec fn s_len(l: &Lexer) -> int {
    l.inp().len() as int
}

/// One context-stack entry is sound at cursor position `cur`: brace
/// depths count braces already consumed, so they lie below the cursor.
pub open spec fn ctx_entry_ok(c: Context, cur: int) -> bool {
    match c {
        Context::StringInterpolation { depth } => depth < cur,
        Context::StringDirective { depth } => depth < cur,
        _ => true,
    }
}

/// The token of a single punctuation character.
pub open spec fn punct_token(c: char) -> Token<String> {
    if c == ',' {
        Token::Comma
    } else if c == '{' {
        Token::LBrace
    } else if c == '[' {
        Token::LBracket
    } else if c == '(' {
        Token::LParen
    } else if c == '}' {
        Token::RBrace
    } else if c == ']' {
        Token::RBracket
    } else {
        Token::RParen
    }
}

/// `c` is a punctuation character.
pub open spec fn is_punct(c: char) -> bool {
    c == ',' || c == '{' || c == '[' || c == '(' || c == '}' || c == ']' || c == ')'
}

/// Everything one General-mode pull yields: horizontal white space is
/// skipped, then the next character decides between the end-of-input
/// marker, punctuation, comments, string and heredoc openers, character
/// and numeric literals, operators, identifiers and keywords; anything
/// else is an unexpected character.
pub open spec fn base_case(
    s: Seq<char>,
    i: int,
    cf: int,
    r: LexerItem,
    d0: Seq<SpannedError>,
    d1: Seq<SpannedError>,
    c0: Seq<Context>,
    c1: Seq<Context>,
) -> bool {
    let w = scan_end(s, i, Class::HWhite);
    let start = loc_at(s, w);
    if w >= s.len() {
        &&& cf == w
        &&& c1 == c0
        &&& d1 == d0
        &&& r == Ok::<SpannedToken, SpannedError>(
            Spanned { span: Span { start, end: start }, value: Token::<String>::EOF },
        )
    } else {
        let c = s[w];
        if is_punct(c) {
            &&& cf == w + 1
            &&& c1 == c0
            &&& d1 == d0
            &&& r == Ok::<SpannedToken, SpannedError>(
                Spanned { span: Span { start, end: loc_at(s, w + 1) }, value: punct_token(c) },
            )
        } else if c == '/' && w + 1 < s.len() && s[w + 1] == '/' {
            &&& cf == scan_end(s, w, Class::NotNewline)
            &&& c1 == c0
            &&& d1 == d0
            &&& (r matches Ok(st) && st.span == (Span { start, end: loc_at(s, cf) })
                && line_comment_token(s.subrange(w, cf), st.value))
        } else if c == '/' && w + 1 < s.len() && s[w + 1] == '*' {
            let be = block_end(s, w + 2);
            if be + 1 < s.len() {
                &&& cf == be + 2
                &&& c1 == c0
                &&& d1 == d0
                &&& (r matches Ok(st) && st.span == (Span { start, end: loc_at(s, cf) })
                    && block_comment_token(s.subrange(w, be), st.value))
            } else {
                &&& cf == s.len()
                &&& c1 == c0
                &&& d1 == d0
                &&& r == Err::<SpannedToken, SpannedError>(
                    Spanned {
                        span: Span { start, end: loc_at(s, s.len() as int) },
                        value: Error::UnexpectedEof,
                    },
                )
            }
        } else if c == '"' {
            &&& cf == w + 1
            &&& d1 == d0
            &&& c1 == c0.push(Context::String)
            &&& r == Ok::<SpannedToken, SpannedError>(
                Spanned {
                    span: Span { start, end: loc_at(s, w + 1) },
                    value: Token::<String>::StringDelimiter,
                },
            )
        } else if c == '<' && w + 1 < s.len() && s[w + 1] == '<' {
            &&& d1 == d0
            &&& hd_header_case(s, w, start, cf, r, c0, c1)
        } else if c == '\'' {
            &&& c1 == c0
            &&& char_case(s, w, start, cf, r, d0, d1)
        } else if num_lit_start(s, w) {
            &&& c1 == c0
            &&& numeric_case(s, w, start, loc_at(s, cf), cf, r, d0, d1)
        } else if spec_is_operator_char(c) {
            &&& cf == scan_end(s, w, Class::Op)
            &&& c1 == c0
            &&& d1 == d0
            &&& ({
                let run = s.subrange(w, cf);
                match operator_token(run) {
                    Some(tok) => r == Ok::<SpannedToken, SpannedError>(
                        Spanned { span: Span { start, end: loc_at(s, cf) }, value: tok },
                    ),
                    None => r == Err::<SpannedToken, SpannedError>(
                        Spanned {
                            span: Span { start, end: loc_at(s, cf) },
                            value: Error::UnexpectedChar(run[0]),
                        },
                    ),
                }
            })
        } else if xid_start(c) {
            &&& cf == scan_end(s, w + 1, Class::IdentCont)
            &&& c1 == c0
            &&& d1 == d0
            &&& (r matches Ok(st) && st.span == (Span { start, end: loc_at(s, cf) }) && word_token(
                s.subrange(w, cf),
                st.value,
            ))
        } else {
            &&& cf == w + 1
            &&& c1 == c0
            &&& d1 == d0
            &&& r == Err::<SpannedToken, SpannedError>(
                Spanned {
                    span: Span { start, end: loc_at(s, w + 1) },
                    value: Error::UnexpectedChar(c),
                },
            )
        }
    }
}

/// Everything one pull inside `${…}` or `%{…}` yields: an unmatched `}`
/// closes the construct with its marker token, inner braces are counted
/// and emitted as punctuation, and everything else is scanned exactly as
/// in General mode.
pub open spec fn interp_case(
    s: Seq<char>,
    i: int,
    depth: int,
    directive: bool,
    cf: int,
    r: LexerItem,
    d0: Seq<SpannedError>,
    d1: Seq<SpannedError>,
    c0: Seq<Context>,
    c1: Seq<Context>,
) -> bool {
    let w = scan_end(s, i, Class::HWhite);
    let start = loc_at(s, w);
    if w < s.len() && s[w] == '}' && depth == 0 {
        &&& cf == w + 1
        &&& d1 == d0
        &&& c1 == c0.drop_last()
        &&& r == Ok::<SpannedToken, SpannedError>(
            Spanned {
                span: Span { start, end: loc_at(s, w + 1) },
                value: if directive {
                    Token::<String>::StringDirective
                } else {
                    Token::<String>::StringInterpolation
                },
            },
        )
    } else if w < s.len() && s[w] == '}' {
        &&& cf == w + 1
        &&& d1 == d0
        &&& c1 == c0.drop_last().push(
            if directive {
                Context::StringDirective { depth: (depth - 1) as usize }
            } else {
                Context::StringInterpolation { depth: (depth - 1) as usize }
            },
        )
        &&& r == Ok::<SpannedToken, SpannedError>(
            Spanned {
                span: Span { start, end: loc_at(s, w + 1) },
                value: Token::<String>::RBrace,
            },
        )
    } else if w < s.len() && s[w] == '{' {
        &&& cf == w + 1
        &&& d1 == d0
        &&& c1 == c0.drop_last().push(
            if directive {
                Context::StringDirective { depth: (depth + 1) as usize }
            } else {
                Context::StringInterpolation { depth: (depth + 1) as usize }
            },
        )
        &&& r == Ok::<SpannedToken, SpannedError>(
            Spanned {
                span: Span { start, end: loc_at(s, w + 1) },
                value: Token::<String>::LBrace,
            },
        )
    } else {
        base_case(s, i, cf, r, d0, d1, c0, c1)
    }
}

impl Lexer {
    /// The pending closing delimiter of a heredoc: emit the stored span
    /// as the closing delimiter token and pop both this pseudo-context
    /// and the enclosing body context.
    fn iter_heredoc_end(&mut self, start: Location, end: Location) -> (r: LexerItem)
        requires
            old(self).wf(),
            old(self).contexts().len() >= 2,
            old(self).contexts().last() == (Context::HereDocStringEnd { start, end }),
            old(self).contexts()[old(self).contexts().len() - 2] is HereDocString,
        ensures
            final(self).wf(),
            final(self).inp() == old(self).inp(),
            final(self).cursor() == old(self).cursor(),
            final(self).cur_loc() == old(self).cur_loc(),
            final(self).diags() == old(self).diags(),
            final(self).contexts() == old(self).contexts().drop_last().drop_last(),
            r == Ok::<SpannedToken, SpannedError>(
                Spanned { span: Span { start, end }, value: Token::<String>::StringDelimiter },
            ),
    {
        self.pop_context();
        self.pop_context();
        Ok(Spanned { span: Span { start, end }, value: Token::StringDelimiter })
    }

    /// One pull inside an interpolation or directive: intercept the brace
    /// bookkeeping, then scan as in General mode.
    fn iter_interpolation(&mut self, depth: usize, directive: bool) -> (r: LexerItem)
        requires
            old(self).wf(),
            old(self).contexts().len() > 0,
            old(self).contexts().last() == (if directive {
                Context::StringDirective { depth }
            } else {
                Context::StringInterpolation { depth }
            }),
            depth < old(self).cursor(),
        ensures
            final(self).wf(),
            final(self).inp() == old(self).inp(),
            final(self).cursor() >= old(self).cursor(),
            final(self).diags().len() >= old(self).diags().len(),
            forall|k: int|
                0 <= k < old(self).diags().len() ==> final(self).diags()[k] == old(
                    self,
                ).diags()[k],
            interp_case(
                old(self).inp(),
                old(self).cursor(),
                depth as int,
                directive,
                final(self).cursor(),
                r,
                old(self).diags(),
                final(self).diags(),
                old(self).contexts(),
                final(self).contexts(),
            ),
    {
        let ghost s = self.inp();
        let ghost i0 = self.cursor();
        proof {
            lemma_scan_end(s, i0, Class::HWhite);
            lemma_bytes_of_bounds(s, s.len() as int);
        }
        self.skip_hwhite();
        let start = self.loc;
        proof {
            lemma_loc_at_unique(s, self.cursor(), self.cur_loc());
        }
        match self.peek_at(0) {
            Some('}') => {
                self.bump();
                proof {
                    lemma_loc_at_unique(s, self.cursor(), self.cur_loc());
                }
                let end = self.loc;
                if depth == 0 {
                    self.pop_context();
                    Ok(
                        Spanned {
                            span: Span { start, end },
                            value: if directive {
                                Token::StringDirective
                            } else {
                                Token::StringInterpolation
                            },
                        },
                    )
                } else {
                    self.pop_context();
                    self.push_context(
                        if directive {
                            Context::StringDirective { depth: depth - 1 }
                        } else {
                            Context::StringInterpolation { depth: depth - 1 }
                        },
                    );
                    Ok(Spanned { span: Span { start, end }, value: Token::RBrace })
                }
            },
            Some('{') => {
                self.bump();
                proof {
                    lemma_loc_at_unique(s, self.cursor(), self.cur_loc());
                }
                let end = self.loc;
                self.pop_context();
                self.push_context(
                    if directive {
                        Context::StringDirective { depth: depth + 1 }
                    } else {
                        Context::StringInterpolation { depth: depth + 1 }
                    },
                );
                Ok(Spanned { span: Span { start, end }, value: Token::LBrace })
            },
            _ => {
                proof {
                    assert(scan_end(s, self.cursor(), Class::HWhite) == self.cursor());
                }
                self.iter_base()
            },
        }
    }

    /// The context stack is sound: a pending heredoc-end marker stands
    /// only at the top, directly above the body context it closes, and
    /// every brace depth lies below the cursor.
    pub open spec fn ctx_wf(&self) -> bool {
        &&& forall|k: int|
            0 <= k < self.contexts().len() ==> ctx_entry_ok(
                #[trigger] self.contexts()[k],
                self.cursor(),
            )
        &&& forall|k: int|
            0 <= k < self.contexts().len() && (#[trigger] self.contexts()[k])
                is HereDocStringEnd ==> k == self.contexts().len() - 1 && k >= 1
                && self.contexts()[k - 1] is HereDocString
    }

    /// Pull the next item: a positioned token, a positioned error, or the
    /// idempotent end-of-input marker.  The current context decides which
    /// scanning routine runs; its exact outcome is given by the
    /// per-context case predicates.  The cursor never moves backwards,
    /// every span lies between the cursor positions before and after the
    /// pull, and the diagnostics list only ever grows at its end.
    #[verifier::rlimit(60)]
    pub fn next(&mut self) -> (r: Option<LexerItem>)
        requires
            old(self).wf(),
            old(self).ctx_wf(),
        ensures
            final(self).wf(),
            final(self).ctx_wf(),
            final(self).inp() == old(self).inp(),
            final(self).cursor() >= old(self).cursor(),
            final(self).diags().len() >= old(self).diags().len(),
            forall|k: int|
                0 <= k < old(self).diags().len() ==> final(self).diags()[k] == old(
                    self,
                ).diags()[k],
            r is Some,
            ({
                let s = old(self).inp();
                let i = old(self).cursor();
                let start = old(self).cur_loc();
                let cf = final(self).cursor();
                let d0 = old(self).diags();
                let d1 = final(self).diags();
                let c0 = old(self).contexts();
                let c1 = final(self).contexts();
                let item = r->0;
                match old(self).spec_context() {
                    Context::General => base_case(s, i, cf, item, d0, d1, c0, c1),
                    Context::String => string_case(s, i, start, cf, item, d0, d1, c0, c1),
                    Context::HereDocString { delimiter, skip_leading_tabs, quoted_delimiter } =>
                        heredoc_case(
                        s,
                        i,
                        delimiter@,
                        skip_leading_tabs,
                        quoted_delimiter,
                        start,
                        cf,
                        item,
                        d0,
                        d1,
                        c0,
                        c1,
                    ),
                    Context::HereDocStringEnd { start: hs, end: he } => {
                        &&& cf == i
                        &&& d1 == d0
                        &&& c1 == c0.drop_last().drop_last()
                        &&& item == Ok::<SpannedToken, SpannedError>(
                            Spanned {
                                span: Span { start: hs, end: he },
                                value: Token::<String>::StringDelimiter,
                            },
                        )
                    },
                    Context::StringInterpolation { depth } => interp_case(
                        s,
                        i,
                        depth as int,
                        false,
                        cf,
                        item,
                        d0,
                        d1,
                        c0,
                        c1,
                    ),
                    Context::StringDirective { depth } => interp_case(
                        s,
                        i,
                        depth as int,
                        true,
                        cf,
                        item,
                        d0,
                        d1,
                        c0,
                        c1,
                    ),
                }
            }),
    {
        let c: Context = {
            let b = self.context();
            match b {
                Context::General => Context::General,
                Context::String => Context::String,
                Context::HereDocString { delimiter, skip_leading_tabs, quoted_delimiter } =>
                    Context::HereDocString {
                    delimiter: delimiter.clone(),
                    skip_leading_tabs: *skip_leading_tabs,
                    quoted_delimiter: *quoted_delimiter,
                },
                Context::HereDocStringEnd { start, end } => Context::HereDocStringEnd {
                    start: *start,
                    end: *end,
                },
                Context::StringInterpolation { depth } => Context::StringInterpolation {
                    depth: *depth,
                },
                Context::StringDirective { depth } => Context::StringDirective { depth: *depth },
            }
        };
        proof {
            assert(c == old(self).spec_context());
        }
        match c {
            Context::General => {
                let r = self.iter_base();
                proof {
                    let c0 = old(self).contexts();
                    let c1 = self.contexts();
                    if c1.len() == c0.len() + 1 && c1.drop_last() == c0 {
                        assert(c1 =~= c0.push(c1.last()));
                    }
                    if c0.len() > 0 && c1.len() == c0.len() && c1.drop_last() == c0.drop_last() {
                        assert(c1 =~= c0.drop_last().push(c1.last()));
                    }
                    self.lemma_ctx_after(old(self));
                }
                Some(r)
            },
            Context::String => {
                let r = self.iter_single_line_string();
                proof {
                    self.lemma_ctx_after(old(self));
                }
                Some(r)
            },
            Context::HereDocString { delimiter, skip_leading_tabs, quoted_delimiter } => {
                let r = self.iter_heredoc_string(delimiter, skip_leading_tabs, quoted_delimiter);
                proof {
                    self.lemma_ctx_after(old(self));
                }
                Some(r)
            },
            Context::HereDocStringEnd { start, end } => {
                proof {
                    let c0 = self.contexts();
                    assert(c0[c0.len() - 1] is HereDocStringEnd);
                    assert(c0.len() >= 2 && c0[c0.len() - 2] is HereDocString);
                }
                let r = self.iter_heredoc_end(start, end);
                proof {
                    self.lemma_ctx_after(old(self));
                }
                Some(r)
            },
            Context::StringInterpolation { depth } => {
                proof {
                    let c0 = self.contexts();
                    assert(ctx_entry_ok(c0[c0.len() - 1], self.cursor()));
                }
                let r = self.iter_interpolation(depth, false);
                proof {
                    lemma_scan_end(old(self).inp(), old(self).cursor(), Class::HWhite);
                    let c0 = old(self).contexts();
                    let c1 = self.contexts();
                    if c1.len() == c0.len() + 1 && c1.drop_last() == c0 {
                        assert(c1 =~= c0.push(c1.last()));
                    }
                    if c0.len() > 0 && c1.len() == c0.len() && c1.drop_last() == c0.drop_last() {
                        assert(c1 =~= c0.drop_last().push(c1.last()));
                    }
                    self.lemma_ctx_after(old(self));
                }
                Some(r)
            },
            Context::StringDirective { depth } => {
                proof {
                    let c0 = self.contexts();
                    assert(ctx_entry_ok(c0[c0.len() - 1], self.cursor()));
                }
                let r = self.iter_interpolation(depth, true);
                proof {
                    lemma_scan_end(old(self).inp(), old(self).cursor(), Class::HWhite);
                    let c0 = old(self).contexts();
                    let c1 = self.contexts();
                    if c1.len() == c0.len() + 1 && c1.drop_last() == c0 {
                        assert(c1 =~= c0.push(c1.last()));
                    }
                    if c0.len() > 0 && c1.len() == c0.len() && c1.drop_last() == c0.drop_last() {
                        assert(c1 =~= c0.drop_last().push(c1.last()));
                    }
                    self.lemma_ctx_after(old(self));
                }
                Some(r)
            },
        }
    }

    /// After one pull, the context stack is still sound: it changed only
    /// by the pushes and pops the case predicates describe, every one of
    /// which respects the stacking discipline, and the cursor never moved
    /// backwards.
    proof fn lemma_ctx_after(&self, pre: &Lexer)
        requires
            pre.wf(),
            pre.ctx_wf(),
            self.cursor() >= pre.cursor(),
            ({
                let c0 = pre.contexts();
                let c1 = self.contexts();
                ||| c1 == c0
                ||| (c1 == c0.drop_last() && c0.len() > 0 && !(c0.last() is HereDocStringEnd))
                ||| (c0.len() >= 2 && c0.last() is HereDocStringEnd && c1 == c0.drop_last().drop_last())
                ||| (exists|e: Context|
                    c1 == #[trigger] c0.push(e) && ctx_entry_ok(e, self.cursor()) && (
                    e is HereDocStringEnd ==> c0.len() > 0 && c0.last() is HereDocString) && (!(
                    e is HereDocStringEnd) ==> !(c0.len() > 0 && c0.last() is HereDocStringEnd)))
                ||| (exists|e: Context|
                    c0.len() > 0 && !(c0.last() is HereDocStringEnd) && c1
                        == #[trigger] c0.drop_last().push(e) && ctx_entry_ok(e, self.cursor())
                        && !(e is HereDocStringEnd))
            }),
        ensures
            self.ctx_wf(),
    {
        let c0 = pre.contexts();
        let c1 = self.contexts();
        let cur = self.cursor();
        assert forall|k: int| 0 <= k < c0.len() implies ctx_entry_ok(#[trigger] c0[k], cur) by {
            assert(ctx_entry_ok(c0[k], pre.cursor()));
        }
        if c1 == c0 {
        } else if exists|e: Context|
            c1 == #[trigger] c0.push(e) && ctx_entry_ok(e, cur) && (e is HereDocStringEnd
                ==> c0.len() > 0 && c0.last() is HereDocString) && (!(e is HereDocStringEnd) ==> !(
            c0.len() > 0 && c0.last() is HereDocStringEnd)) {
            let e = choose|e: Context|
                c1 == #[trigger] c0.push(e) && ctx_entry_ok(e, cur) && (e is HereDocStringEnd
                    ==> c0.len() > 0 && c0.last() is HereDocString) && (!(e is HereDocStringEnd)
                    ==> !(c0.len() > 0 && c0.last() is HereDocStringEnd));
            assert forall|k: int| 0 <= k < c1.len() implies ctx_entry_ok(#[trigger] c1[k], cur) by {
                if k < c0.len() {
                    assert(c1[k] == c0[k]);
                } else {
                    assert(c1[k] == e);
                }
            }
            assert forall|k: int|
                0 <= k < c1.len() && (#[trigger] c1[k]) is HereDocStringEnd implies k == c1.len()
                - 1 && k >= 1 && c1[k - 1] is HereDocString by {
                if k < c0.len() {
                    assert(c1[k] == c0[k]);
                    assert(k == c0.len() - 1 && !(e is HereDocStringEnd));
                    assert(false);
                } else {
                    assert(c1[k - 1] == c0[c0.len() - 1]);
                }
            }
        } else if c0.len() > 0 && exists|e: Context|
            c1 == #[trigger] c0.drop_last().push(e) && ctx_entry_ok(e, cur) && !(
            e is HereDocStringEnd) {
            let e = choose|e: Context|
                c1 == #[trigger] c0.drop_last().push(e) && ctx_entry_ok(e, cur) && !(
                e is HereDocStringEnd);
            assert(c1.len() == c0.len());
            assert forall|k: int| 0 <= k < c1.len() implies ctx_entry_ok(#[trigger] c1[k], cur) by {
                if k < c1.len() - 1 {
                    assert(c1[k] == c0.drop_last()[k]);
                    assert(c1[k] == c0[k]);
                } else {
                    assert(c1[k] == e);
                }
            }
            assert forall|k: int|
                0 <= k < c1.len() && (#[trigger] c1[k]) is HereDocStringEnd implies k == c1.len()
                - 1 && k >= 1 && c1[k - 1] is HereDocString by {
                if k < c1.len() - 1 {
                    assert(c1[k] == c0[k]);
                    assert(k == c0.len() - 1);
                    assert(false);
                } else {
                    assert(c1[k] == e);
                    assert(false);
                }
            }
        } else {
            assert(c1.len() < c0.len());
            assert forall|k: int| 0 <= k < c1.len() implies ctx_entry_ok(#[trigger] c1[k], cur) by {
                if c1 == c0.drop_last() {
                    assert(c1[k] == c0[k]);
                } else {
                    assert(c1 == c0.drop_last().drop_last());
                    assert(c1[k] == c0.drop_last()[k]);
                    assert(c1[k] == c0[k]);
                }
            }
            assert forall|k: int|
                0 <= k < c1.len() && (#[trigger] c1[k]) is HereDocStringEnd implies k == c1.len()
                - 1 && k >= 1 && c1[k - 1] is HereDocString by {
                if c1 == c0.drop_last() {
                    assert(c1[k] == c0[k]);
                } else {
                    assert(c1 == c0.drop_last().drop_last());
                    assert(c1[k] == c0[k]);
                }
                assert(k == c0.len() - 1);
                assert(false);
            }
        }
    }

    /// One pull in General mode.
    pub fn iter_base(&mut self) -> (r: LexerItem)
        requires
            old(self).wf(),
        ensures
            final(self).wf(),
            final(self).inp() == old(self).inp(),
            final(self).cursor() >= old(self).cursor(),
            final(self).diags().len() >= old(self).diags().len(),
            forall|k: int|
                0 <= k < old(self).diags().len() ==> final(self).diags()[k] == old(
                    self,
                ).diags()[k],
            base_case(
                old(self).inp(),
                old(self).cursor(),
                final(self).cursor(),
                r,
                old(self).diags(),
                final(self).diags(),
                old(self).contexts(),
                final(self).contexts(),
            ),
    {
        let ghost s = self.inp();
        let ghost i0 = self.cursor();
        proof {
            lemma_scan_end(s, i0, Class::HWhite);
        }
        self.skip_hwhite();
        let start = self.loc;
        let ghost w = self.cursor();
        proof {
            lemma_loc_at_unique(s, w, self.cur_loc());
        }
        let c = match self.peek_at(0) {
            Some(c) => c,
            None => {
                return Ok(Spanned { span: Span { start, end: start }, value: Token::EOF });
            },
        };
        let nxt = self.peek_at(1);
        let n_slash = match nxt {
            Some('/') => true,
            _ => false,
        };
        let n_star = match nxt {
            Some('*') => true,
            _ => false,
        };
        let n_lt = match nxt {
            Some('<') => true,
            _ => false,
        };
        let n_dec = match nxt {
            Some(d) => is_dec(d),
            _ => false,
        };
        if c == ',' || c == '{' || c == '[' || c == '(' || c == '}' || c == ']' || c == ')' {
            self.bump();
            proof {
                lemma_loc_at_unique(s, self.cursor(), self.cur_loc());
            }
            let tok = match c {
                ',' => Token::Comma,
                '{' => Token::LBrace,
                '[' => Token::LBracket,
                '(' => Token::LParen,
                '}' => Token::RBrace,
                ']' => Token::RBracket,
                _ => Token::RParen,
            };
            Ok(Spanned { span: Span { start, end: self.loc }, value: tok })
        } else if c == '/' && n_slash {
            proof {
                lemma_loc_at_unique(s, w, self.cur_loc());
            }
            let r = self.line_comment(start);
            proof {
                lemma_loc_at_unique(s, self.cursor(), self.cur_loc());
            }
            r
        } else if c == '/' && n_star {
            let r = self.block_comment(start);
            proof {
                lemma_loc_at_unique(s, self.cursor(), self.cur_loc());
            }
            r
        } else if c == '"' {
            self.bump();
            self.push_context(Context::String);
            proof {
                lemma_loc_at_unique(s, self.cursor(), self.cur_loc());
            }
            Ok(Spanned { span: Span { start, end: self.loc }, value: Token::StringDelimiter })
        } else if c == '<' && n_lt {
            self.heredoc_start(start)
        } else if c == '\'' {
            self.char_literal(start)
        } else if is_dec(c) || ((c == '-' || c == '+') && n_dec) {
            let r = self.numeric_literal(start);
            proof {
                lemma_loc_at_unique(s, self.cursor(), self.cur_loc());
            }
            r
        } else if is_operator_char(c) {
            let r = self.operator(start);
            proof {
                lemma_loc_at_unique(s, self.cursor(), self.cur_loc());
            }
            r
        } else if is_ident_start(c) {
            let r = self.identifier(start);
            proof {
                lemma_loc_at_unique(s, self.cursor(), self.cur_loc());
            }
            r
        } else {
            self.bump();
            proof {
                lemma_loc_at_unique(s, self.cursor(), self.cur_loc());
            }
            Err(
                Spanned {
                    span: Span { start, end: self.loc },
                    value: Error::UnexpectedChar(c),
                },
            )
        }
    }
}

/// Turn character-vector lines into owned strings, one for one.
fn lines_to_strings(v: Vec<Vec<char>>) -> (r: Vec<String>)
    ensures
        r@.len() == v@.len(),
        forall|k: int| 0 <= k < v@.len() ==> #[trigger] r@[k]@ == v@[k]@,
{
    let mut r: Vec<String> = Vec::new();
    let mut k: usize = 0;
    while k < v.len()
        invariant
            k <= v@.len(),
            r@.len() == k,
            forall|q: int| 0 <= q < k ==> #[trigger] r@[q]@ == v@[q]@,
        decreases v@.len() - k,
    {
        r.push(string_from_chars(v[k].as_slice()));
        k = k + 1;
    }
    r
}

/// Whether a heredoc header at `i` strips leading tabs: a `-` directly
/// after the `<<`.
pub open spec fn hd_skip_tabs(s: Seq<char>, i: int) -> bool {
    i + 2 < s.len() && s[i + 2] == '-'
}

/// Where a heredoc header's delimiter text begins: after `<<`, the
/// optional `-`, a run of horizontal white space, and the optional
/// opening quote.
pub open spec fn hd_ws_end(s: Seq<char>, i: int) -> int {
    scan_end(
        s,
        if hd_skip_tabs(s, i) {
            i + 3
        } else {
            i + 2
        },
        Class::HWhite,
    )
}

/// The header's opening quote character, if one stands before the
/// delimiter text.
pub open spec fn hd_quote(s: Seq<char>, i: int) -> Option<char> {
    let w = hd_ws_end(s, i);
    if w < s.len() && (s[w] == '"' || s[w] == '\'') {
        Some(s[w])
    } else {
        None
    }
}

/// Where the delimiter text begins.
pub open spec fn hd_delim_start(s: Seq<char>, i: int) -> int {
    if hd_quote(s, i) is Some {
        hd_ws_end(s, i) + 1
    } else {
        hd_ws_end(s, i)
    }
}

/// Where the delimiter text ends: at the next newline, or at the closing
/// quote of the same kind the header opened with.
pub open spec fn hd_delim_end(s: Seq<char>, i: int) -> int {
    let cl = match hd_quote(s, i) {
        Some(q) => if q == '"' {
            Class::HdDq
        } else {
            Class::HdSq
        },
        None => Class::NotNewline,
    };
    scan_end(s, hd_delim_start(s, i), cl)
}

/// Everything a heredoc header pull yields: on success the body context
/// is pushed, carrying the delimiter text and the header's flags.
pub open spec fn hd_header_case(
    s: Seq<char>,
    i: int,
    start: Location,
    cf: int,
    r: LexerItem,
    c0: Seq<Context>,
    c1: Seq<Context>,
) -> bool {
    let ds = hd_delim_start(s, i);
    let de = hd_delim_end(s, i);
    if de == ds {
        &&& cf == de
        &&& c1 == c0
        &&& r == Err::<SpannedToken, SpannedError>(
            Spanned {
                span: Span { start, end: loc_at(s, de) },
                value: Error::MissingHeredocDelimiter,
            },
        )
    } else {
        match hd_quote(s, i) {
            Some(q) => {
                if de < s.len() && s[de] == q {
                    &&& cf == if de + 1 < s.len() {
                        de + 2
                    } else {
                        de + 1
                    }
                    &&& hd_pushed(s, i, true, c0, c1)
                    &&& r == Ok::<SpannedToken, SpannedError>(
                        Spanned {
                            span: Span { start, end: loc_at(s, de + 1) },
                            value: Token::<String>::StringDelimiter,
                        },
                    )
                } else {
                    &&& cf == if de < s.len() {
                        de + 1
                    } else {
                        de
                    }
                    &&& c1 == c0
                    &&& r == Err::<SpannedToken, SpannedError>(
                        Spanned {
                            span: Span { start, end: loc_at(s, de) },
                            value: Error::UnterminatedHeredocDelimiter,
                        },
                    )
                }
            },
            None => {
                &&& cf == if de < s.len() {
                    de + 1
                } else {
                    de
                }
                &&& hd_pushed(s, i, false, c0, c1)
                &&& r == Ok::<SpannedToken, SpannedError>(
                    Spanned {
                        span: Span { start, end: loc_at(s, de) },
                        value: Token::<String>::StringDelimiter,
                    },
                )
            },
        }
    }
}

/// The context stack grew by exactly the body context the header asked
/// for.
pub open spec fn hd_pushed(s: Seq<char>, i: int, q: bool, c0: Seq<Context>, c1: Seq<Context>) -> bool {
    &&& c1.len() == c0.len() + 1
    &&& c1.drop_last() == c0
    &&& (c1.last() matches Context::HereDocString { delimiter, skip_leading_tabs, quoted_delimiter }
        && (delimiter@ == s.subrange(hd_delim_start(s, i), hd_delim_end(s, i))
        && skip_leading_tabs == hd_skip_tabs(s, i) && quoted_delimiter == q))
}

impl Lexer {
    /// Scan a heredoc header at the cursor (which stands on the first of
    /// the two `<`): `<<`, an optional `-` (strip leading tabs), optional
    /// horizontal white space, and a delimiter, bare or quoted.  An empty
    /// delimiter is missing; a quoted delimiter whose closing quote is not
    /// found on the line (or does not match the opening kind) is
    /// unterminated.  Both failures are fatal and leave no new context, so
    /// the header pushes its body context exactly on success.
    fn heredoc_start(&mut self, start: Location) -> (r: LexerItem)
        requires
            old(self).wf(),
            old(self).cursor() + 1 < old(self).inp().len(),
            old(self).inp()[old(self).cursor()] == '<',
            old(self).inp()[old(self).cursor() + 1] == '<',
            start == old(self).cur_loc(),
        ensures
            final(self).wf(),
            final(self).inp() == old(self).inp(),
            final(self).diags() == old(self).diags(),
            final(self).cursor() >= old(self).cursor(),
            hd_header_case(
                old(self).inp(),
                old(self).cursor(),
                start,
                final(self).cursor(),
                r,
                old(self).contexts(),
                final(self).contexts(),
            ),
    {
        let ghost s = self.inp();
        let ghost i = self.cursor();
        self.bump();
        self.bump();
        let skip_leading_tabs = match self.peek_at(0) {
            Some('-') => true,
            _ => false,
        };
        if skip_leading_tabs {
            self.bump();
        }
        proof {
            lemma_scan_end(s, self.cursor(), Class::HWhite);
        }
        self.skip_hwhite();
        let quote_char: Option<char> = match self.peek_at(0) {
            Some('"') => Some('"'),
            Some('\'') => Some('\''),
            _ => None,
        };
        let cl = match quote_char {
            Some(q) => {
                self.bump();
                if q == '"' {
                    Class::HdDq
                } else {
                    Class::HdSq
                }
            },
            None => Class::NotNewline,
        };
        let ghost ds = self.cursor();
        proof {
            lemma_scan_end(s, ds, cl);
        }
        let delim_run = self.take_class(cl);
        let end = self.loc;
        proof {
            lemma_loc_at_unique(s, self.cursor(), end);
        }
        if delim_run.len() == 0 {
            return Err(
                Spanned {
                    span: Span { start, end },
                    value: Error::MissingHeredocDelimiter,
                },
            );
        }
        if quote_char.is_some() {
            let q = match quote_char {
                Some(q) => q,
                None => ' ',
            };
            let closed = match self.bump() {
                Some((_, l, ch)) => if ch == q {
                    Some(l)
                } else {
                    None
                },
                None => None,
            };
            match closed {
                Some(l) => {
                    self.bump();
                    let delimiter = string_from_chars(delim_run.as_slice());
                    self.push_context(
                        Context::HereDocString {
                            delimiter,
                            skip_leading_tabs,
                            quoted_delimiter: true,
                        },
                    );
                    proof {
                        assert(self.contexts().drop_last() =~= old(self).contexts());
                    }
                    Ok(
                        Spanned {
                            span: Span { start, end: l },
                            value: Token::StringDelimiter,
                        },
                    )
                },
                None => Err(
                    Spanned {
                        span: Span { start, end },
                        value: Error::UnterminatedHeredocDelimiter,
                    },
                ),
            }
        } else {
            self.bump();
            let delimiter = string_from_chars(delim_run.as_slice());
            self.push_context(
                Context::HereDocString { delimiter, skip_leading_tabs, quoted_delimiter: false },
            );
            proof {
                assert(self.contexts().drop_last() =~= old(self).contexts());
            }
            Ok(Spanned { span: Span { start, end }, value: Token::StringDelimiter })
        }
    }

}


/// The span round-trip law for a General-mode pull: the cursor never
/// moves backwards and stays inside the text, and the emitted item's span
/// runs between the byte offsets of the cursor before and after the pull
/// with its start not past its end — so consecutive items cover ordered,
/// non-overlapping regions.
pub proof fn lemma_base_case_spans(
    s: Seq<char>,
    i: int,
    cf: int,
    r: LexerItem,
    d0: Seq<SpannedError>,
    d1: Seq<SpannedError>,
    c0: Seq<Context>,
    c1: Seq<Context>,
)
    requires
        0 <= i <= s.len(),
        bytes_of(s, s.len() as int) <= usize::MAX,
        base_case(s, i, cf, r, d0, d1, c0, c1),
    ensures
        i <= cf <= s.len(),
        ({
            let span = match r {
                Ok(st) => st.span,
                Err(se) => se.span,
            };
            &&& bytes_of(s, i) <= span.start.absolute
            &&& span.start.absolute <= span.end.absolute
            &&& span.end.absolute <= bytes_of(s, cf)
        }),
{
    lemma_scan_end(s, i, Class::HWhite);
    let w = scan_end(s, i, Class::HWhite);
    lemma_loc_at(s, i);
    lemma_loc_at(s, w);
    assert forall|a: int, b: int| 0 <= a <= b <= s.len() implies bytes_of(s, a) <= bytes_of(
        s,
        b,
    ) by {
        lemma_bytes_of_mono(s, a, b);
    }
    if w >= s.len() {
    } else {
        let c = s[w];
        if is_punct(c) {
            lemma_loc_at(s, w + 1);
        } else if c == '/' && w + 1 < s.len() && s[w + 1] == '/' {
            lemma_scan_end(s, w, Class::NotNewline);
            lemma_loc_at(s, cf);
        } else if c == '/' && w + 1 < s.len() && s[w + 1] == '*' {
            lemma_block_end(s, w + 2);
            lemma_loc_at(s, cf);
            lemma_loc_at(s, s.len() as int);
        } else if c == '"' {
            lemma_loc_at(s, w + 1);
        } else if c == '<' && w + 1 < s.len() && s[w + 1] == '<' {
            lemma_hd_header_spans(s, w, cf, r, c0, c1);
        } else if c == '\'' {
            lemma_char_case_spans(s, w, cf, r, d0, d1);
        } else if num_lit_start(s, w) {
            lemma_numeric_case_spans(s, w, cf, r, d0, d1);
        } else if spec_is_operator_char(c) {
            lemma_scan_end(s, w, Class::Op);
            lemma_loc_at(s, cf);
        } else if xid_start(c) {
            lemma_scan_end(s, w + 1, Class::IdentCont);
            lemma_loc_at(s, cf);
        } else {
            lemma_loc_at(s, w + 1);
        }
    }
}

/// Span bounds of a heredoc header pull.
proof fn lemma_hd_header_spans(
    s: Seq<char>,
    w: int,
    cf: int,
    r: LexerItem,
    c0: Seq<Context>,
    c1: Seq<Context>,
)
    requires
        0 <= w,
        w + 1 < s.len(),
        bytes_of(s, s.len() as int) <= usize::MAX,
        hd_header_case(s, w, loc_at(s, w), cf, r, c0, c1),
    ensures
        w <= cf <= s.len(),
        ({
            let span = match r {
                Ok(st) => st.span,
                Err(se) => se.span,
            };
            &&& bytes_of(s, w) <= span.start.absolute
            &&& span.start.absolute <= span.end.absolute
            &&& span.end.absolute <= bytes_of(s, cf)
        }),
{
    let ds = hd_delim_start(s, w);
    let de = hd_delim_end(s, w);
    lemma_scan_end(
        s,
        if hd_skip_tabs(s, w) {
            w + 3
        } else {
            w + 2
        },
        Class::HWhite,
    );
    match hd_quote(s, w) {
        Some(q) => {
            lemma_scan_end(s, ds, if q == '"' {
                Class::HdDq
            } else {
                Class::HdSq
            });
        },
        None => {
            lemma_scan_end(s, ds, Class::NotNewline);
        },
    }
    lemma_loc_at(s, w);
    lemma_loc_at(s, de);
    if de + 1 <= s.len() {
        lemma_loc_at(s, de + 1);
    }
    assert forall|a: int, b: int| 0 <= a <= b <= s.len() implies bytes_of(s, a) <= bytes_of(
        s,
        b,
    ) by {
        lemma_bytes_of_mono(s, a, b);
    }
}

/// Span bounds of a character-literal pull.
proof fn lemma_char_case_spans(
    s: Seq<char>,
    w: int,
    cf: int,
    r: LexerItem,
    d0: Seq<SpannedError>,
    d1: Seq<SpannedError>,
)
    requires
        0 <= w < s.len(),
        bytes_of(s, s.len() as int) <= usize::MAX,
        char_case(s, w, loc_at(s, w), cf, r, d0, d1),
    ensures
        w <= cf <= s.len(),
        ({
            let span = match r {
                Ok(st) => st.span,
                Err(se) => se.span,
            };
            &&& bytes_of(s, w) <= span.start.absolute
            &&& span.start.absolute <= span.end.absolute
            &&& span.end.absolute <= bytes_of(s, cf)
        }),
{
    let j = w + 1;
    lemma_loc_at(s, w);
    assert forall|a: int, b: int| 0 <= a <= b <= s.len() implies bytes_of(s, a) <= bytes_of(
        s,
        b,
    ) by {
        lemma_bytes_of_mono(s, a, b);
    }
    if j >= s.len() {
    } else if s[j] == '\'' {
        lemma_loc_at(s, j + 1);
    } else if s[j] == '\\' {
        lemma_esc_after_bounds(s, j + 1, '\'');
        let a = esc_after(s, j + 1, '\'');
        if esc_ok(s, j + 1, '\'') {
            lemma_char_close_spans(s, w, a, cf, r);
        } else {
            lemma_scan_end(s, a, Class::NotQuote);
            lemma_char_close_spans(s, w, scan_end(s, a, Class::NotQuote), cf, r);
        }
    } else {
        lemma_char_close_spans(s, w, j + 1, cf, r);
    }
}

/// Span bounds of the closing step of a character literal.
proof fn lemma_char_close_spans(s: Seq<char>, w: int, k: int, cf: int, r: LexerItem)
    requires
        0 <= w <= k <= s.len(),
        bytes_of(s, s.len() as int) <= usize::MAX,
        exists|ch: char, extra: Seq<SpannedError>, d0: Seq<SpannedError>, d1: Seq<SpannedError>|
            #[trigger] char_close_item(s, k, loc_at(s, w), ch, extra, r, d0, d1, cf),
    ensures
        w <= cf <= s.len(),
        ({
            let span = match r {
                Ok(st) => st.span,
                Err(se) => se.span,
            };
            &&& bytes_of(s, w) <= span.start.absolute
            &&& span.start.absolute <= span.end.absolute
            &&& span.end.absolute <= bytes_of(s, cf)
        }),
{
    lemma_loc_at(s, w);
    if k < s.len() {
        lemma_loc_at(s, k + 1);
        lemma_bytes_of_mono(s, w, k + 1);
    }
    lemma_bytes_of_mono(s, w, k);
}

/// Span bounds of a numeric-literal pull.
proof fn lemma_numeric_case_spans(
    s: Seq<char>,
    w: int,
    cf: int,
    r: LexerItem,
    d0: Seq<SpannedError>,
    d1: Seq<SpannedError>,
)
    requires
        0 <= w < s.len(),
        bytes_of(s, s.len() as int) <= usize::MAX,
        numeric_case(s, w, loc_at(s, w), loc_at(s, cf), cf, r, d0, d1),
    ensures
        w <= cf <= s.len(),
        ({
            let span = match r {
                Ok(st) => st.span,
                Err(se) => se.span,
            };
            &&& bytes_of(s, w) <= span.start.absolute
            &&& span.start.absolute <= span.end.absolute
            &&& span.end.absolute <= bytes_of(s, cf)
        }),
{
    let ie = num_int_end(s, w);
    lemma_scan_end(s, w + 1, Class::DecUnd);
    lemma_loc_at(s, w);
    assert forall|a: int, b: int| 0 <= a <= b <= s.len() implies bytes_of(s, a) <= bytes_of(
        s,
        b,
    ) by {
        lemma_bytes_of_mono(s, a, b);
    }
    if ie < s.len() && s[ie] == '.' {
        let fe = scan_end(s, ie + 1, Class::Dec);
        lemma_scan_end(s, ie + 1, Class::Dec);
        if fe < s.len() && (s[fe] == 'e' || s[fe] == 'E') {
            lemma_scan_end(s, exp_digits_start(s, fe), Class::DecUnd);
        }
    } else if ie < s.len() && (s[ie] == 'e' || s[ie] == 'E') {
        lemma_scan_end(s, exp_digits_start(s, ie), Class::DecUnd);
    } else if ie < s.len() && (s[ie] == 'x' || s[ie] == 'b' || s[ie] == 'o') {
        lemma_scan_end(s, ie + 1, Class::HexUnd);
        lemma_scan_end(s, ie + 1, Class::BinUnd);
        lemma_scan_end(s, ie + 1, Class::OctUnd);
    }
    lemma_loc_at(s, cf);
}


/// In string mode the spans tile exactly: every pull's item spans from
/// the cursor position before the pull to the cursor position after it,
/// so consecutive items inside a quoted string leave no gap and no
/// overlap.
pub proof fn lemma_string_case_spans(
    s: Seq<char>,
    i: int,
    cf: int,
    r: LexerItem,
    d0: Seq<SpannedError>,
    d1: Seq<SpannedError>,
    c0: Seq<Context>,
    c1: Seq<Context>,
)
    requires
        0 <= i <= s.len(),
        string_case(s, i, loc_at(s, i), cf, r, d0, d1, c0, c1),
    ensures
        i <= cf <= s.len(),
        ({
            let span = match r {
                Ok(st) => st.span,
                Err(se) => se.span,
            };
            span == (Span { start: loc_at(s, i), end: loc_at(s, cf) })
        }),
{
    if i < s.len() && s[i] == '"' {
    } else if i + 1 < s.len() && s[i] == '$' && s[i + 1] == '{' {
    } else if i + 1 < s.len() && s[i] == '%' && s[i + 1] == '{' {
    } else {
        lemma_str_run_end_bounds(s, i);
    }
}

} // verus!
