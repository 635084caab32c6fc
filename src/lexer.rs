//! A tokenizer for a small language of arithmetic, assignment, `if`/`else`,
//! comparisons and boolean operators, with its behaviour stated as a model
//! over the source characters.
use vstd::prelude::*;

verus! {

/// One lexical unit of the expression language.
#[derive(Debug, PartialEq, Clone)]
pub enum Token {
    /// A decimal literal; a literal past `i32::MAX` reads as `i32::MAX`.
    Number(i32),
    Plus,
    Minus,
    Multiply,
    Divide,
    Lparen,
    Rparen,
    /// A name: a lowercase letter, then alphanumeric characters.
    Id(String),
    Assign,
    If,
    Else,
    CurlyL,
    CurlyR,
    Equals,
    SmallerThan,
    GreaterThan,
    SmallerEquals,
    GreaterEquals,
    Not,
    And,
    Or,
}

/// The mathematical value of a token: an identifier's name as a sequence of characters.
pub ghost enum TokenView {
    Number(i32),
    Plus,
    Minus,
    Multiply,
    Divide,
    Lparen,
    Rparen,
    Id(Seq<char>),
    Assign,
    If,
    Else,
    CurlyL,
    CurlyR,
    Equals,
    SmallerThan,
    GreaterThan,
    SmallerEquals,
    GreaterEquals,
    Not,
    And,
    Or,
}

impl View for Token {
    type V = TokenView;

    open spec fn view(&self) -> TokenView {
        match self {
            Token::Number(n) => TokenView::Number(*n),
            Token::Plus => TokenView::Plus,
            Token::Minus => TokenView::Minus,
            Token::Multiply => TokenView::Multiply,
            Token::Divide => TokenView::Divide,
            Token::Lparen => TokenView::Lparen,
            Token::Rparen => TokenView::Rparen,
            Token::Id(name) => TokenView::Id(name@),
            Token::Assign => TokenView::Assign,
            Token::If => TokenView::If,
            Token::Else => TokenView::Else,
            Token::CurlyL => TokenView::CurlyL,
            Token::CurlyR => TokenView::CurlyR,
            Token::Equals => TokenView::Equals,
            Token::SmallerThan => TokenView::SmallerThan,
            Token::GreaterThan => TokenView::GreaterThan,
            Token::SmallerEquals => TokenView::SmallerEquals,
            Token::GreaterEquals => TokenView::GreaterEquals,
            Token::Not => TokenView::Not,
            Token::And => TokenView::And,
            Token::Or => TokenView::Or,
        }
    }
}

/// The views of a sequence of tokens, element by element.
pub open spec fn views(ts: Seq<Token>) -> Seq<TokenView> {
    ts.map_values(|t: Token| t@)
}

pub open spec fn is_digit(c: char) -> bool {
    '0' <= c && c <= '9'
}

pub open spec fn is_lower(c: char) -> bool {
    'a' <= c && c <= 'z'
}

pub open spec fn digit_value(c: char) -> int {
    c as int - '0' as int
}

/// What `char::is_alphanumeric` answers for `c`.
pub uninterp spec fn alphanumeric(c: char) -> bool;

/// Relies on `char::is_alphanumeric`: the answer depends on the character alone.
#[verifier::external_body]
fn is_alphanumeric(c: char) -> (r: bool)
    ensures
        r == alphanumeric(c),
{
    c.is_alphanumeric()
}

/// The index just past the run of decimal digits of `s` that starts at `i`.
pub open spec fn digits_end(s: Seq<char>, i: int) -> int
    decreases s.len() - i,
{
    if 0 <= i < s.len() && is_digit(s[i]) {
        digits_end(s, i + 1)
    } else {
        i
    }
}

/// The index just past the run of alphanumeric characters of `s` that starts at `i`.
pub open spec fn word_end(s: Seq<char>, i: int) -> int
    decreases s.len() - i,
{
    if 0 <= i < s.len() && alphanumeric(s[i]) {
        word_end(s, i + 1)
    } else {
        i
    }
}

/// The index of the first character at or after `i` that is not a space.
pub open spec fn skip_spaces(s: Seq<char>, i: int) -> int
    decreases s.len() - i,
{
    if 0 <= i < s.len() && s[i] == ' ' {
        skip_spaces(s, i + 1)
    } else {
        i
    }
}

/// The value of a sequence of decimal digits, most significant first.
pub open spec fn decimal_value(d: Seq<char>) -> int
    decreases d.len(),
{
    if d.len() == 0 {
        0
    } else {
        decimal_value(d.drop_last()) * 10 + digit_value(d.last())
    }
}

/// A number that does not fit in `i32` becomes `i32::MAX`.
pub open spec fn saturate(v: int) -> i32 {
    if v > i32::MAX {
        i32::MAX
    } else {
        v as i32
    }
}

/// A completed name: a keyword, or else an identifier.
pub open spec fn keyword_or_id(w: Seq<char>) -> TokenView {
    if w == seq!['i', 'f'] {
        TokenView::If
    } else if w == seq!['e', 'l', 's', 'e'] {
        TokenView::Else
    } else {
        TokenView::Id(w)
    }
}

/// An operator of one character, or of two when `s[i + 1]` is `second`.
pub open spec fn pair_or_single(
    s: Seq<char>,
    i: int,
    second: char,
    pair: TokenView,
    single: Option<TokenView>,
) -> Option<(TokenView, int)> {
    if i + 1 < s.len() && s[i + 1] == second {
        Some((pair, i + 2))
    } else {
        match single {
            Some(t) => Some((t, i + 1)),
            None => None,
        }
    }
}

/// The token that starts exactly at `i`, with the index just past it;
/// `None` at the end of `s` or at a character that starts no token.
pub open spec fn scan_at(s: Seq<char>, i: int) -> Option<(TokenView, int)> {
    if i < 0 || i >= s.len() {
        None
    } else {
        let c = s[i];
        if is_digit(c) {
            let e = digits_end(s, i + 1);
            Some((TokenView::Number(saturate(decimal_value(s.subrange(i, e)))), e))
        } else if is_lower(c) {
            let e = word_end(s, i + 1);
            Some((keyword_or_id(s.subrange(i, e)), e))
        } else if c == '+' {
            Some((TokenView::Plus, i + 1))
        } else if c == '-' {
            Some((TokenView::Minus, i + 1))
        } else if c == '*' {
            Some((TokenView::Multiply, i + 1))
        } else if c == '/' {
            Some((TokenView::Divide, i + 1))
        } else if c == '(' {
            Some((TokenView::Lparen, i + 1))
        } else if c == ')' {
            Some((TokenView::Rparen, i + 1))
        } else if c == '{' {
            Some((TokenView::CurlyL, i + 1))
        } else if c == '}' {
            Some((TokenView::CurlyR, i + 1))
        } else if c == '!' {
            Some((TokenView::Not, i + 1))
        } else if c == '=' {
            pair_or_single(s, i, '=', TokenView::Equals, Some(TokenView::Assign))
        } else if c == '<' {
            pair_or_single(s, i, '=', TokenView::SmallerEquals, Some(TokenView::SmallerThan))
        } else if c == '>' {
            pair_or_single(s, i, '=', TokenView::GreaterEquals, Some(TokenView::GreaterThan))
        } else if c == '&' {
            pair_or_single(s, i, '&', TokenView::And, None)
        } else if c == '|' {
            pair_or_single(s, i, '|', TokenView::Or, None)
        } else {
            None
        }
    }
}

/// The next token from cursor `i`, spaces skipped, with the cursor just past it.
pub open spec fn next_at(s: Seq<char>, i: int) -> Option<(TokenView, int)> {
    scan_at(s, skip_spaces(s, i))
}

/// Where the cursor stands once scanning from `i` finds no token: past the
/// spaces, and past the character that starts no token if there is one.
pub open spec fn stop_at(s: Seq<char>, i: int) -> int {
    let k = skip_spaces(s, i);
    if k < s.len() {
        k + 1
    } else {
        k
    }
}

/// The tokens from cursor `i` on, until the input ends or a character starts no token.
pub open spec fn tokens_from(s: Seq<char>, i: int) -> Seq<TokenView>
    decreases s.len() - i,
{
    match next_at(s, i) {
        Some((t, e)) => if i < e <= s.len() {
            seq![t] + tokens_from(s, e)
        } else {
            Seq::empty()
        },
        None => Seq::empty(),
    }
}

/// The tokens of a whole source text.
pub open spec fn tokens_of(s: Seq<char>) -> Seq<TokenView> {
    tokens_from(s, 0)
}

/// The cursor after every token of `s` has been read from cursor `i`.
pub open spec fn end_from(s: Seq<char>, i: int) -> int
    decreases s.len() - i,
{
    match next_at(s, i) {
        Some((t, e)) => if i < e <= s.len() {
            end_from(s, e)
        } else {
            i
        },
        None => stop_at(s, i),
    }
}

/// The run of digits from `i` lies within `s` and stops at a non-digit or at the end.
pub proof fn lemma_digits_end(s: Seq<char>, i: int)
    requires
        0 <= i <= s.len(),
    ensures
        i <= digits_end(s, i) <= s.len(),
        forall|k: int| i <= k < digits_end(s, i) ==> is_digit(#[trigger] s[k]),
        digits_end(s, i) < s.len() ==> !is_digit(s[digits_end(s, i)]),
    decreases s.len() - i,
{
    if i < s.len() && is_digit(s[i]) {
        lemma_digits_end(s, i + 1);
    }
}

/// The run of alphanumeric characters from `i` lies within `s` and stops at
/// another character or at the end.
pub proof fn lemma_word_end(s: Seq<char>, i: int)
    requires
        0 <= i <= s.len(),
    ensures
        i <= word_end(s, i) <= s.len(),
        forall|k: int| i <= k < word_end(s, i) ==> alphanumeric(#[trigger] s[k]),
        word_end(s, i) < s.len() ==> !alphanumeric(s[word_end(s, i)]),
    decreases s.len() - i,
{
    if i < s.len() && alphanumeric(s[i]) {
        lemma_word_end(s, i + 1);
    }
}

/// Skipping spaces from `i` stays within `s` and stops at a non-space or at the end.
pub proof fn lemma_skip_spaces(s: Seq<char>, i: int)
    requires
        0 <= i <= s.len(),
    ensures
        i <= skip_spaces(s, i) <= s.len(),
        skip_spaces(s, i) < s.len() ==> s[skip_spaces(s, i)] != ' ',
    decreases s.len() - i,
{
    if i < s.len() && s[i] == ' ' {
        lemma_skip_spaces(s, i + 1);
    }
}

/// A token read from cursor `i` ends past `i` and within `s`.
pub proof fn lemma_next_at_advances(s: Seq<char>, i: int)
    requires
        0 <= i <= s.len(),
    ensures
        next_at(s, i) matches Some((_, e)) ==> i < e <= s.len(),
        i <= stop_at(s, i) <= s.len(),
{
    lemma_skip_spaces(s, i);
    let k = skip_spaces(s, i);
    if k < s.len() {
        lemma_digits_end(s, k + 1);
        lemma_word_end(s, k + 1);
    }
}

/// Relies on `String::push`: appends `c` to the end of `s`.
#[verifier::external_body]
fn push_char(s: &mut String, c: char)
    ensures
        final(s)@ == old(s)@.push(c),
{
    s.push(c)
}

/// The value of a decimal digit.
fn digit_of(c: char) -> (r: i32)
    requires
        is_digit(c),
    ensures
        r == digit_value(c),
{
    (c as u32 - '0' as u32) as i32
}

/// `total` followed by the digit `d`, saturated at `i32::MAX`.
fn append_digit(total: i32, d: i32) -> (r: i32)
    requires
        0 <= total,
        0 <= d <= 9,
    ensures
        r == saturate(total * 10 + d),
{
    let v: i64 = total as i64 * 10 + d as i64;
    if v > i32::MAX as i64 {
        i32::MAX
    } else {
        v as i32
    }
}

proof fn lemma_decimal_nonneg(d: Seq<char>)
    requires
        forall|k: int| 0 <= k < d.len() ==> is_digit(#[trigger] d[k]),
    ensures
        decimal_value(d) >= 0,
    decreases d.len(),
{
    if d.len() > 0 {
        lemma_decimal_nonneg(d.drop_last());
    }
}

/// Extending a run of digits by one digit, with the value saturated.
proof fn lemma_decimal_step(s: Seq<char>, start: int, i: int)
    requires
        0 <= start <= i < s.len(),
        forall|k: int| start <= k <= i ==> is_digit(#[trigger] s[k]),
    ensures
        decimal_value(s.subrange(start, i + 1)) == decimal_value(s.subrange(start, i)) * 10
            + digit_value(s[i]),
        saturate(decimal_value(s.subrange(start, i + 1))) == saturate(
            saturate(decimal_value(s.subrange(start, i))) * 10 + digit_value(s[i]),
        ),
{
    let w = s.subrange(start, i + 1);
    assert(w.drop_last() =~= s.subrange(start, i));
    let v = decimal_value(s.subrange(start, i));
    lemma_decimal_nonneg(s.subrange(start, i));
    if v > i32::MAX {
        assert(v * 10 + digit_value(s[i]) > i32::MAX);
    }
}

/// A source text with a cursor over its characters. The cursor only moves forward.
pub struct Lexer {
    input: Vec<char>,
    position: usize,
}

impl Lexer {
    /// The characters of the source text.
    pub closed spec fn source(&self) -> Seq<char> {
        self.input@
    }

    /// How many characters have been consumed.
    pub closed spec fn cursor(&self) -> int {
        self.position as int
    }

    /// The cursor stands within the source.
    pub open spec fn wf(&self) -> bool {
        0 <= self.cursor() <= self.source().len() <= usize::MAX
    }

    /// A lexer over `input`, with nothing consumed yet.
    pub fn new(input: &str) -> (r: Lexer)
        ensures
            r.source() == input@,
            r.cursor() == 0,
            r.wf(),
    {
        let mut chars: Vec<char> = Vec::new();
        for c in it: input.chars()
            invariant
                chars@ == it.seq().take(it.index() as int),
        {
            chars.push(c);
        }
        assert(chars@ =~= input@);
        assert(chars@.len() == chars.len());
        Lexer { input: chars, position: 0 }
    }

    /// The next character, without consuming it.
    fn lookahead(&self) -> (r: Option<char>)
        requires
            self.wf(),
        ensures
            r == (if self.cursor() < self.source().len() {
                Some(self.source()[self.cursor()])
            } else {
                None
            }),
    {
        if self.position < self.input.len() {
            Some(self.input[self.position])
        } else {
            None
        }
    }

    /// Consumes the run of alphanumeric characters at the cursor and returns it.
    fn read_string(&mut self) -> (r: String)
        requires
            old(self).wf(),
        ensures
            final(self).wf(),
            final(self).source() == old(self).source(),
            final(self).cursor() == word_end(old(self).source(), old(self).cursor()),
            r@ == old(self).source().subrange(old(self).cursor(), final(self).cursor()),
    {
        let ghost s = self.source();
        let ghost start = self.cursor();
        let mut name = String::new();
        loop
            invariant
                self.wf(),
                self.source() == s,
                0 <= start <= self.cursor(),
                word_end(s, start) == word_end(s, self.cursor()),
                name@ == s.subrange(start, self.cursor()),
            ensures
                word_end(s, self.cursor()) == self.cursor(),
            decreases s.len() - self.cursor(),
        {
            match self.lookahead() {
                Some(c) => {
                    if is_alphanumeric(c) {
                        push_char(&mut name, c);
                        self.position = self.position + 1;
                        assert(name@ =~= s.subrange(start, self.cursor()));
                    } else {
                        break;
                    }
                },
                None => break,
            }
        }
        name
    }

    /// Consumes the run of decimal digits at the cursor, after the digit `first`
    /// that was consumed just before it, and returns the value of the whole run.
    fn read_number(&mut self, first: char) -> (r: i32)
        requires
            old(self).wf(),
            1 <= old(self).cursor(),
            old(self).source()[old(self).cursor() - 1] == first,
            is_digit(first),
        ensures
            final(self).wf(),
            final(self).source() == old(self).source(),
            final(self).cursor() == digits_end(old(self).source(), old(self).cursor()),
            r == saturate(
                decimal_value(
                    old(self).source().subrange(old(self).cursor() - 1, final(self).cursor()),
                ),
            ),
    {
        let ghost s = self.source();
        let ghost start = self.cursor() - 1;
        proof {
            lemma_decimal_step(s, start, start);
        }
        let mut total: i32 = digit_of(first);
        loop
            invariant
                self.wf(),
                self.source() == s,
                0 <= start < self.cursor(),
                forall|k: int| start <= k < self.cursor() ==> is_digit(#[trigger] s[k]),
                0 <= total,
                digits_end(s, start + 1) == digits_end(s, self.cursor()),
                total == saturate(decimal_value(s.subrange(start, self.cursor()))),
            ensures
                digits_end(s, self.cursor()) == self.cursor(),
            decreases s.len() - self.cursor(),
        {
            match self.lookahead() {
                Some(c) => {
                    if '0' <= c && c <= '9' {
                        proof {
                            lemma_decimal_step(s, start, self.cursor());
                        }
                        total = append_digit(total, digit_of(c));
                        self.position = self.position + 1;
                    } else {
                        break;
                    }
                },
                None => break,
            }
        }
        total
    }
    /// Consumes the next character if it is `expected`, and says whether it did.
    fn eat(&mut self, expected: char) -> (r: bool)
        requires
            old(self).wf(),
        ensures
            final(self).wf(),
            final(self).source() == old(self).source(),
            r == (old(self).cursor() < old(self).source().len() && old(self).source()[old(
                self,
            ).cursor()] == expected),
            final(self).cursor() == if r {
                old(self).cursor() + 1
            } else {
                old(self).cursor()
            },
    {
        match self.lookahead() {
            Some(c) => {
                if c == expected {
                    self.position = self.position + 1;
                    true
                } else {
                    false
                }
            },
            None => false,
        }
    }

    /// The keyword spelt by the characters from `start` to `end`, if they spell one.
    fn keyword_at(&self, start: usize, end: usize) -> (r: Option<Token>)
        requires
            self.wf(),
            start <= end <= self.source().len(),
        ensures
            match keyword_or_id(self.source().subrange(start as int, end as int)) {
                TokenView::Id(_) => r is None,
                t => r matches Some(k) && k@ == t,
            },
    {
        let ghost w = self.source().subrange(start as int, end as int);
        let n = end - start;
        if n == 2 && self.input[start] == 'i' && self.input[start + 1] == 'f' {
            assert(w =~= seq!['i', 'f']);
            Some(Token::If)
        } else if n == 4 && self.input[start] == 'e' && self.input[start + 1] == 'l'
            && self.input[start + 2] == 's' && self.input[start + 3] == 'e' {
            assert(w =~= seq!['e', 'l', 's', 'e']);
            Some(Token::Else)
        } else {
            assert(w != seq!['i', 'f'] && w != seq!['e', 'l', 's', 'e']) by {
                assert(w.len() == n);
                if w == seq!['i', 'f'] {
                    assert(w[0] == 'i' && w[1] == 'f');
                    assert(w[0] == self.input[start as int] && w[1] == self.input[start + 1]);
                }
                if w == seq!['e', 'l', 's', 'e'] {
                    assert(w[0] == 'e' && w[1] == 'l' && w[2] == 's' && w[3] == 'e');
                    assert(w[0] == self.input[start as int] && w[1] == self.input[start + 1]);
                    assert(w[2] == self.input[start + 2] && w[3] == self.input[start + 3]);
                }
            }
            None
        }
    }

    /// Reads one token: skips spaces, then consumes the token at the cursor.
    /// Returns `None` at the end of the input, and at a character that starts
    /// no token, which is consumed.
    fn next_token(&mut self) -> (r: Option<Token>)
        requires
            old(self).wf(),
        ensures
            final(self).wf(),
            final(self).source() == old(self).source(),
            match next_at(old(self).source(), old(self).cursor()) {
                Some((t, e)) => r matches Some(tok) && tok@ == t && final(self).cursor() == e,
                None => r is None && final(self).cursor() == stop_at(
                    old(self).source(),
                    old(self).cursor(),
                ),
            },
    {
        let ghost s = self.source();
        let ghost start = self.cursor();
        while self.position < self.input.len() && self.input[self.position] == ' '
            invariant
                self.wf(),
                self.source() == s,
                0 <= start <= self.cursor(),
                skip_spaces(s, start) == skip_spaces(s, self.cursor()),
            decreases s.len() - self.cursor(),
        {
            self.position = self.position + 1;
        }
        if self.position >= self.input.len() {
            return None;
        }
        let begin = self.position;
        let c = self.input[begin];
        self.position = self.position + 1;
        proof {
            lemma_digits_end(s, begin + 1);
            lemma_word_end(s, begin + 1);
        }
        if '0' <= c && c <= '9' {
            Some(Token::Number(self.read_number(c)))
        } else if 'a' <= c && c <= 'z' {
            let mut id = String::new();
            push_char(&mut id, c);
            let rest = self.read_string();
            id.append(rest.as_str());
            assert(id@ =~= s.subrange(begin as int, self.cursor()));
            match self.keyword_at(begin, self.position) {
                Some(k) => Some(k),
                None => Some(Token::Id(id)),
            }
        } else if c == '+' {
            Some(Token::Plus)
        } else if c == '-' {
            Some(Token::Minus)
        } else if c == '*' {
            Some(Token::Multiply)
        } else if c == '/' {
            Some(Token::Divide)
        } else if c == '(' {
            Some(Token::Lparen)
        } else if c == ')' {
            Some(Token::Rparen)
        } else if c == '{' {
            Some(Token::CurlyL)
        } else if c == '}' {
            Some(Token::CurlyR)
        } else if c == '!' {
            Some(Token::Not)
        } else if c == '=' {
            if self.eat('=') {
                Some(Token::Equals)
            } else {
                Some(Token::Assign)
            }
        } else if c == '<' {
            if self.eat('=') {
                Some(Token::SmallerEquals)
            } else {
                Some(Token::SmallerThan)
            }
        } else if c == '>' {
            if self.eat('=') {
                Some(Token::GreaterEquals)
            } else {
                Some(Token::GreaterThan)
            }
        } else if c == '&' {
            if self.eat('&') {
                Some(Token::And)
            } else {
                None
            }
        } else if c == '|' {
            if self.eat('|') {
                Some(Token::Or)
            } else {
                None
            }
        } else {
            None
        }
    }
    /// Reads every token from the cursor on, in source order, until the input
    /// ends or a character starts no token; what follows such a character is
    /// never read.
    pub fn tokenize(&mut self) -> (r: Vec<Token>)
        requires
            old(self).wf(),
        ensures
            final(self).wf(),
            final(self).source() == old(self).source(),
            views(r@) == tokens_from(old(self).source(), old(self).cursor()),
            final(self).cursor() == end_from(old(self).source(), old(self).cursor()),
    {
        let ghost s = self.source();
        let ghost start = self.cursor();
        let mut tokens: Vec<Token> = Vec::new();
        loop
            invariant_except_break
                views(tokens@) + tokens_from(s, self.cursor()) == tokens_from(s, start),
                end_from(s, self.cursor()) == end_from(s, start),
            invariant
                self.wf(),
                self.source() == s,
            ensures
                views(tokens@) == tokens_from(s, start),
                self.cursor() == end_from(s, start),
            decreases s.len() - self.cursor(),
        {
            let ghost before = self.cursor();
            proof {
                lemma_next_at_advances(s, before);
            }
            match self.next_token() {
                Some(t) => {
                    assert(views(tokens@.push(t)) =~= views(tokens@).push(t@));
                    tokens.push(t);
                    assert(views(tokens@) + tokens_from(s, self.cursor()) =~= views(tokens@)
                        .drop_last() + tokens_from(s, before));
                },
                None => {
                    assert(views(tokens@) + tokens_from(s, before) =~= views(tokens@));
                    break;
                },
            }
        }
        tokens
    }
}

/// A non-empty text of decimal digits alone is one `Number` token, whose value
/// is the text's decimal value, or `i32::MAX` where that value does not fit.
pub proof fn lemma_digits_only(s: Seq<char>)
    requires
        s.len() > 0,
        forall|k: int| 0 <= k < s.len() ==> is_digit(#[trigger] s[k]),
    ensures
        tokens_of(s) == seq![TokenView::Number(saturate(decimal_value(s)))],
        decimal_value(s) <= i32::MAX ==> saturate(decimal_value(s)) as int == decimal_value(s),
{
    lemma_digits_end(s, 1);
    lemma_decimal_nonneg(s);
    assert(s.subrange(0, s.len() as int) =~= s);
    assert(tokens_from(s, s.len() as int) == Seq::<TokenView>::empty());
    assert(tokens_of(s) =~= seq![TokenView::Number(saturate(decimal_value(s)))]);
}

/// Tokenizing the same text with two fresh lexers gives the same tokens.
pub proof fn lemma_tokenize_deterministic(a: Lexer, b: Lexer, ta: Seq<Token>, tb: Seq<Token>)
    requires
        a.source() == b.source(),
        a.cursor() == 0,
        b.cursor() == 0,
        views(ta) == tokens_from(a.source(), a.cursor()),
        views(tb) == tokens_from(b.source(), b.cursor()),
    ensures
        views(ta) == views(tb),
        views(ta) == tokens_of(a.source()),
{
}

} // verus!
