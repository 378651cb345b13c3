use crate::literal::{bool_of, is_digit, literal_ok, number_of, number_value};
use crate::types::{Token, TokenType, TokenView, UnsignedInt};
use vstd::prelude::*;
use vstd::std_specs::iter::IteratorSpec;

verus! {

/// Whether `c` is a letter or a digit in the sense of Unicode
/// (`char::is_alphanumeric`).
pub uninterp spec fn alphanumeric(c: char) -> bool;

/// ASCII letters and digits.
pub open spec fn ascii_alphanumeric(c: char) -> bool {
    (97 <= c as u32 <= 122) || (65 <= c as u32 <= 90) || (48 <= c as u32 <= 57)
}

/// Relies on `char::is_alphanumeric`: whether `c` is alphabetic or numeric
/// in Unicode's sense.
#[verifier::external_body]
fn is_alphanumeric(c: char) -> (r: bool)
    ensures
        r == alphanumeric(c),
{
    c.is_alphanumeric()
}

/// A letter or a digit: on ASCII the letters `a`-`z`, `A`-`Z` and the digits,
/// elsewhere what Unicode counts as alphabetic or numeric.
pub open spec fn letter_or_digit(c: char) -> bool {
    if (c as u32) < 128 {
        ascii_alphanumeric(c)
    } else {
        alphanumeric(c)
    }
}

fn is_letter_or_digit(c: char) -> (r: bool)
    ensures
        r == letter_or_digit(c),
{
    let u = c as u32;
    if u < 128 {
        (97 <= u && u <= 122) || (65 <= u && u <= 90) || (48 <= u && u <= 57)
    } else {
        is_alphanumeric(c)
    }
}

/// The characters of `s`, in order.
pub(crate) fn chars_of(s: &str) -> (r: Vec<char>)
    ensures
        r@ == s@,
{
    broadcast use vstd::string::axiom_spec_iter, vstd::string::next_postcondition;

    let mut it = s.chars();
    let mut v: Vec<char> = Vec::new();
    loop
        invariant
            it.obeys_prophetic_iter_laws(),
            v@ + it.remaining() == s@,
            it.decrease() is Some,
        decreases it.decrease()->0,
    {
        match it.next() {
            Some(c) => {
                v.push(c);
            },
            None => {
                return v;
            },
        }
    }
}

/// Relies on `String`'s `FromIterator<char>`: the characters in order.
#[verifier::external_body]
fn string_of(v: Vec<char>) -> (r: String)
    ensures
        r@ == v@,
{
    v.into_iter().collect()
}

/// A character that can begin a keyword or number.
pub open spec fn starts_word(c: char) -> bool {
    letter_or_digit(c) || c == '-'
}

/// A character that can continue a keyword or number.
pub open spec fn continues_word(c: char) -> bool {
    letter_or_digit(c) || c == '.'
}

/// The token kind of a character that is a token by itself.
pub open spec fn punct_kind(c: char) -> Option<TokenType> {
    if c == ',' {
        Some(TokenType::Comma)
    } else if c == ':' {
        Some(TokenType::Colon)
    } else if c == '[' {
        Some(TokenType::OpeningBrace)
    } else if c == ']' {
        Some(TokenType::ClosingBrace)
    } else if c == '{' {
        Some(TokenType::OpeningSquirly)
    } else if c == '}' {
        Some(TokenType::ClosingSquirly)
    } else {
        None
    }
}

/// The first index at or after `k` that holds a quote or a newline, or the
/// length of `s` if there is none.
pub open spec fn string_end(s: Seq<char>, k: int) -> int
    decreases s.len() - k,
{
    if k < 0 || k >= s.len() {
        s.len() as int
    } else if s[k] == '"' || s[k] == '\n' {
        k
    } else {
        string_end(s, k + 1)
    }
}

/// The first index at or after `k` whose character cannot continue a word, or
/// the length of `s` if there is none.
pub open spec fn word_end(s: Seq<char>, k: int) -> int
    decreases s.len() - k,
{
    if k < 0 || k >= s.len() {
        s.len() as int
    } else if !continues_word(s[k]) {
        k
    } else {
        word_end(s, k + 1)
    }
}

/// The first index at or after `k` that holds a newline, or the length of `s`.
pub open spec fn line_end(s: Seq<char>, k: int) -> int
    decreases s.len() - k,
{
    if k < 0 || k >= s.len() {
        s.len() as int
    } else if s[k] == '\n' {
        k
    } else {
        line_end(s, k + 1)
    }
}

/// How many `.` characters `w` holds.
pub open spec fn dot_count(w: Seq<char>) -> nat
    decreases w.len(),
{
    if w.len() == 0 {
        0
    } else {
        dot_count(w.drop_last()) + if w.last() == '.' { 1nat } else { 0nat }
    }
}

/// The lexical faults the scanner reports.
#[derive(Debug, Clone, Copy, PartialEq, Eq, Structural)]
pub enum ScanErrorKind {
    /// A string met a newline or the end of the input before its closing quote.
    UnterminatedString,
    /// A number-like word holds more than one `.`.
    TooManyDecimalPoints,
    /// A word that is neither `true`, `false`, `null` nor a number.
    UnknownKeyword,
    /// A word of digits, `-` and at most one `.` that is not a run of digits
    /// whose value fits in an [`UnsignedInt`]: a sign, a fraction, or a value
    /// too large.
    UnsupportedNumber,
}

/// What a word of letters, digits, `-` and `.` becomes: a token kind or a fault.
pub open spec fn classify_word(w: Seq<char>) -> Result<TokenType, ScanErrorKind> {
    if w == seq!['t', 'r', 'u', 'e'] || w == seq!['f', 'a', 'l', 's', 'e'] {
        Ok(TokenType::Bool)
    } else if w == seq!['n', 'u', 'l', 'l'] {
        Ok(TokenType::Null)
    } else if dot_count(w) > 1 {
        Err(ScanErrorKind::TooManyDecimalPoints)
    } else if forall|i: int| 0 <= i < w.len() ==> is_digit(#[trigger] w[i]) || w[i] == '.' || w[i]
        == '-' {
        if number_of(w) is Some {
            Ok(TokenType::Number)
        } else {
            Err(ScanErrorKind::UnsupportedNumber)
        }
    } else {
        Err(ScanErrorKind::UnknownKeyword)
    }
}

/// A lexical fault and the line and column where the offending text starts.
#[derive(Debug, Clone, Copy, PartialEq, Eq, Structural)]
pub struct ScannerError {
    pub line: UnsignedInt,
    pub column: UnsignedInt,
    pub kind: ScanErrorKind,
}

/// The mathematical form of a [`ScannerError`].
pub ghost struct ScannerErrorView {
    pub line: int,
    pub column: int,
    pub kind: ScanErrorKind,
}

impl View for ScannerError {
    type V = ScannerErrorView;

    open spec fn view(&self) -> ScannerErrorView {
        ScannerErrorView { line: self.line as int, column: self.column as int, kind: self.kind }
    }
}

pub open spec fn token_view(kind: TokenType, lexeme: Seq<char>, line: int, column: int) -> TokenView {
    TokenView { kind, lexeme, line, column }
}

pub open spec fn error_view(kind: ScanErrorKind, line: int, column: int) -> ScannerErrorView {
    ScannerErrorView { line, column, kind }
}

/// What scanning `s` from index `i`, with the cursor at `line` and `column`,
/// produces: the tokens and the faults, each in order of occurrence.
///
/// Every character moves the column on by one and a newline starts the next
/// line. After a fault the rest of the line, its newline included, is skipped.
pub open spec fn scan_from(s: Seq<char>, i: int, line: int, column: int) -> (Seq<TokenView>, Seq<ScannerErrorView>)
    decreases s.len() - i,
    via scan_from_decreases
{
    if i < 0 || i >= s.len() {
        (Seq::empty(), Seq::empty())
    } else {
        let c = s[i];
        if punct_kind(c) is Some {
            let rest = scan_from(s, i + 1, line, column + 1);
            (seq![token_view(punct_kind(c)->0, seq![c], line, column)] + rest.0, rest.1)
        } else if c == '\n' {
            scan_from(s, i + 1, line + 1, 1)
        } else if c == '"' {
            let j = string_end(s, i + 1);
            if j < s.len() && s[j] == '"' {
                let rest = scan_from(s, j + 1, line, column + (j + 1 - i));
                (seq![token_view(TokenType::String, s.subrange(i + 1, j), line, column)] + rest.0, rest.1)
            } else {
                let rest = resume_after_line(s, i, line);
                (rest.0, seq![error_view(ScanErrorKind::UnterminatedString, line, column)] + rest.1)
            }
        } else if starts_word(c) {
            let j = word_end(s, i + 1);
            let w = s.subrange(i, j);
            match classify_word(w) {
                Ok(kind) => {
                    let rest = scan_from(s, j, line, column + (j - i));
                    (seq![token_view(kind, w, line, column)] + rest.0, rest.1)
                },
                Err(e) => {
                    let rest = resume_after_line(s, i, line);
                    (rest.0, seq![error_view(e, line, column)] + rest.1)
                },
            }
        } else {
            scan_from(s, i + 1, line, column + 1)
        }
    }
}

#[via_fn]
proof fn scan_from_decreases(s: Seq<char>, i: int, line: int, column: int) {
    if 0 <= i < s.len() {
        lemma_string_end_bounds(s, i + 1);
        lemma_word_end_bounds(s, i + 1);
    }
}

pub proof fn lemma_string_end_bounds(s: Seq<char>, k: int)
    requires
        0 <= k <= s.len(),
    ensures
        k <= string_end(s, k) <= s.len(),
    decreases s.len() - k,
{
    if k < s.len() {
        lemma_string_end_bounds(s, k + 1);
    }
}

pub proof fn lemma_word_end_bounds(s: Seq<char>, k: int)
    requires
        0 <= k <= s.len(),
    ensures
        k <= word_end(s, k) <= s.len(),
    decreases s.len() - k,
{
    if k < s.len() {
        lemma_word_end_bounds(s, k + 1);
    }
}

/// Where a string is cut short, the line ends there too.
pub proof fn lemma_string_end_line_end(s: Seq<char>, k: int)
    requires
        0 <= k <= s.len(),
        !(string_end(s, k) < s.len() && s[string_end(s, k)] == '"'),
    ensures
        line_end(s, k) == string_end(s, k),
    decreases s.len() - k,
{
    if k < s.len() && s[k] != '"' && s[k] != '\n' {
        lemma_string_end_line_end(s, k + 1);
    }
}

/// Scanning resumed after the first newline at or after `i` (on the next
/// line), or nothing if the input ends first.
pub open spec fn resume_after_line(s: Seq<char>, i: int, line: int) -> (Seq<TokenView>, Seq<ScannerErrorView>)
    decreases s.len() - i, 0int,
{
    let k = line_end(s, i);
    if 0 <= i && i < k && k < s.len() {
        scan_from(s, k + 1, line + 1, 1)
    } else {
        (Seq::empty(), Seq::empty())
    }
}

/// The tokens of `s` scanned from its start.
pub open spec fn scan_tokens(s: Seq<char>) -> Seq<TokenView> {
    scan_from(s, 0, 1, 1).0
}

/// The lexical faults of `s`, in order of occurrence.
pub open spec fn scan_errors(s: Seq<char>) -> Seq<ScannerErrorView> {
    scan_from(s, 0, 1, 1).1
}

pub proof fn lemma_line_end_bounds(s: Seq<char>, k: int)
    requires
        0 <= k <= s.len(),
    ensures
        k <= line_end(s, k) <= s.len(),
    decreases s.len() - k,
{
    if k < s.len() {
        lemma_line_end_bounds(s, k + 1);
    }
}

/// The token kind of a character that is a token by itself.
fn punct(c: char) -> (r: Option<TokenType>)
    ensures
        r == punct_kind(c),
{
    match c {
        ',' => Some(TokenType::Comma),
        ':' => Some(TokenType::Colon),
        '[' => Some(TokenType::OpeningBrace),
        ']' => Some(TokenType::ClosingBrace),
        '{' => Some(TokenType::OpeningSquirly),
        '}' => Some(TokenType::ClosingSquirly),
        _ => None,
    }
}

/// The kind a word becomes, or the fault it is.
fn classify(w: &Vec<char>) -> (r: Result<TokenType, ScanErrorKind>)
    ensures
        r == classify_word(w@),
{
    let n = w.len();
    if n == 4 && w[0] == 't' && w[1] == 'r' && w[2] == 'u' && w[3] == 'e' {
        assert(w@ =~= seq!['t', 'r', 'u', 'e']);
        return Ok(TokenType::Bool);
    }
    if n == 5 && w[0] == 'f' && w[1] == 'a' && w[2] == 'l' && w[3] == 's' && w[4] == 'e' {
        assert(w@ =~= seq!['f', 'a', 'l', 's', 'e']);
        return Ok(TokenType::Bool);
    }
    if n == 4 && w[0] == 'n' && w[1] == 'u' && w[2] == 'l' && w[3] == 'l' {
        assert(w@ =~= seq!['n', 'u', 'l', 'l']);
        return Ok(TokenType::Null);
    }
    assert(w@ != seq!['t', 'r', 'u', 'e']);
    assert(w@ != seq!['f', 'a', 'l', 's', 'e']);
    assert(w@ != seq!['n', 'u', 'l', 'l']);
    let mut dots: usize = 0;
    let mut numeric = true;
    let mut i: usize = 0;
    while i < n
        invariant
            n == w.len(),
            0 <= i <= n,
            dots as nat == dot_count(w@.take(i as int)),
            dots <= i,
            numeric == (forall|k: int| 0 <= k < i ==> is_digit(#[trigger] w@[k]) || w@[k] == '.' || w@[k] == '-'),
        decreases n - i,
    {
        let c = w[i];
        assert(w@.take(i + 1).drop_last() =~= w@.take(i as int));
        if c == '.' {
            dots = dots + 1;
        }
        if !((48 <= c as u32 && c as u32 <= 57) || c == '.' || c == '-') {
            numeric = false;
        }
        i = i + 1;
        assert(numeric == (forall|k: int| 0 <= k < i ==> is_digit(#[trigger] w@[k]) || w@[k] == '.' || w@[k] == '-')) by {
            if numeric {
                assert forall|k: int| 0 <= k < i implies is_digit(#[trigger] w@[k]) || w@[k] == '.' || w@[k] == '-' by {
                    if k < i - 1 {
                    }
                }
            }
        }
    }
    assert(w@.take(n as int) =~= w@);
    if dots > 1 {
        Err(ScanErrorKind::TooManyDecimalPoints)
    } else if numeric {
        if number_value(w).is_some() {
            Ok(TokenType::Number)
        } else {
            Err(ScanErrorKind::UnsupportedNumber)
        }
    } else {
        Err(ScanErrorKind::UnknownKeyword)
    }
}

/// The faults met while scanning, in order of occurrence.
pub struct ScannerErrorHandler {
    errors: Vec<ScannerError>,
}

impl View for ScannerErrorHandler {
    type V = Seq<ScannerErrorView>;

    closed spec fn view(&self) -> Seq<ScannerErrorView> {
        self.errors@.map_values(|e: ScannerError| e@)
    }
}

impl ScannerErrorHandler {
    /// A collector that holds no fault.
    pub fn new() -> (r: Self)
        ensures
            r@ == Seq::<ScannerErrorView>::empty(),
    {
        let r = Self { errors: Vec::new() };
        assert(r@ =~= Seq::<ScannerErrorView>::empty());
        r
    }

    /// Whether any fault was collected.
    pub fn has_errored(&self) -> (r: bool)
        ensures
            r == (self@.len() > 0),
    {
        self.errors.len() > 0
    }

    /// The collected faults, in order of occurrence.
    pub fn errors(&self) -> (r: &Vec<ScannerError>)
        ensures
            r@.map_values(|e: ScannerError| e@) == self@,
    {
        &self.errors
    }

    fn add_error(&mut self, kind: ScanErrorKind, location: (UnsignedInt, UnsignedInt))
        ensures
            final(self)@ == old(self)@.push(error_view(kind, location.0 as int, location.1 as int)),
    {
        let (line, column) = location;
        self.errors.push(ScannerError { line, column, kind });
        assert(self@ =~= old(self)@.push(error_view(kind, location.0 as int, location.1 as int)));
    }
}

/// Turns source text into tokens. A scanner is used for one input only.
pub struct Scanner {
    line: UnsignedInt,
    column: UnsignedInt,
    error_handler: ScannerErrorHandler,
}

impl Scanner {
    /// The line the cursor is on.
    pub closed spec fn line(&self) -> int {
        self.line as int
    }

    /// The column the cursor is on.
    pub closed spec fn column(&self) -> int {
        self.column as int
    }

    /// The faults collected so far.
    pub closed spec fn handler(&self) -> Seq<ScannerErrorView> {
        self.error_handler@
    }

    /// A scanner at line 1, column 1, that adds its faults to `error_handler`.
    pub fn new(error_handler: ScannerErrorHandler) -> (r: Self)
        ensures
            r.line() == 1,
            r.column() == 1,
            r.handler() == error_handler@,
    {
        Self { line: 1, column: 1, error_handler }
    }

    /// The cursor's line and column.
    pub fn position(&self) -> (r: (UnsignedInt, UnsignedInt))
        ensures
            r.0 as int == self.line(),
            r.1 as int == self.column(),
    {
        (self.line, self.column)
    }

    /// Reads a string whose opening quote stands just before `start`. Gives
    /// its characters and the index after the closing quote, the column
    /// moving on by the characters consumed. A newline before the closing
    /// quote cuts the string short: it is consumed, the cursor goes to the
    /// start of the next line, and the fault comes with the index after it.
    /// The end of the input cuts it short too, with the input's length.
    pub fn json_string(&mut self, chars: &Vec<char>, start: usize) -> (r: (Result<String, ScanErrorKind>, usize))
        requires
            start <= chars.len(),
            old(self).column() + chars@.len() - start < u32::MAX,
            old(self).line() < u32::MAX,
        ensures
            ({
                let j = string_end(chars@, start as int);
                if j < chars@.len() && chars@[j] == '"' {
                    &&& r.0 is Ok
                    &&& r.0->Ok_0@ == chars@.subrange(start as int, j)
                    &&& r.1 == j + 1
                    &&& final(self).column() == old(self).column() + (r.1 - start)
                    &&& final(self).line() == old(self).line()
                } else if j < chars@.len() {
                    &&& r.0 == Err::<String, ScanErrorKind>(ScanErrorKind::UnterminatedString)
                    &&& r.1 == j + 1
                    &&& final(self).column() == 1
                    &&& final(self).line() == old(self).line() + 1
                } else {
                    &&& r.0 == Err::<String, ScanErrorKind>(ScanErrorKind::UnterminatedString)
                    &&& r.1 == j
                    &&& final(self).column() == old(self).column() + (r.1 - start)
                    &&& final(self).line() == old(self).line()
                }
            }),
            final(self).handler() == old(self).handler(),
    {
        let mut text: Vec<char> = Vec::new();
        let mut j: usize = start;
        while j < chars.len() && chars[j] != '"' && chars[j] != '\n'
            invariant
                start <= j <= chars.len(),
                string_end(chars@, start as int) == string_end(chars@, j as int),
                text@ == chars@.subrange(start as int, j as int),
            decreases chars.len() - j,
        {
            text.push(chars[j]);
            j = j + 1;
            assert(text@ =~= chars@.subrange(start as int, j as int));
        }
        if j < chars.len() && chars[j] == '"' {
            self.column = self.column + (j + 1 - start) as u32;
            (Ok(string_of(text)), j + 1)
        } else if j < chars.len() {
            self.line = self.line + 1;
            self.column = 1;
            (Err(ScanErrorKind::UnterminatedString), j + 1)
        } else {
            self.column = self.column + (j - start) as u32;
            (Err(ScanErrorKind::UnterminatedString), j)
        }
    }

    /// Reads the word that starts at `start`: the character there and the
    /// letters, digits and `.` that follow it. Gives the token it makes, at
    /// the cursor's position, or its fault, and the index after the word.
    /// The column moves on by the characters consumed.
    pub fn json_alphanumeric(&mut self, chars: &Vec<char>, start: usize) -> (r: (Result<Token, ScanErrorKind>, usize))
        requires
            start < chars.len(),
            starts_word(chars@[start as int]),
            old(self).column() + chars@.len() - start < u32::MAX,
        ensures
            r.1 == word_end(chars@, start + 1),
            ({
                let w = chars@.subrange(start as int, r.1 as int);
                match classify_word(w) {
                    Ok(kind) => r.0 is Ok && r.0->Ok_0@ == token_view(
                        kind,
                        w,
                        old(self).line(),
                        old(self).column(),
                    ),
                    Err(e) => r.0 is Err && r.0->Err_0 == e,
                }
            }),
            final(self).column() == old(self).column() + (r.1 - start),
            final(self).line() == old(self).line(),
            final(self).handler() == old(self).handler(),
    {
        let mut word: Vec<char> = Vec::new();
        word.push(chars[start]);
        let mut j: usize = start + 1;
        while j < chars.len() && (is_letter_or_digit(chars[j]) || chars[j] == '.')
            invariant
                start + 1 <= j <= chars.len(),
                word_end(chars@, start + 1) == word_end(chars@, j as int),
                word@ == chars@.subrange(start as int, j as int),
            decreases chars.len() - j,
        {
            word.push(chars[j]);
            j = j + 1;
            assert(word@ =~= chars@.subrange(start as int, j as int));
        }
        let line = self.line;
        let column = self.column;
        self.column = self.column + (j - start) as u32;
        match classify(&word) {
            Ok(kind) => (Ok(Token { lexeme: string_of(word), token_type: kind, line, column }), j),
            Err(e) => (Err(e), j),
        }
    }

    /// Skips past the first newline at or after `from`, moving the cursor to
    /// the start of the next line; gives the index after it, or the length of
    /// the input if no newline is left.
    pub fn synch_after_newline(&mut self, chars: &Vec<char>, from: usize) -> (r: usize)
        requires
            from <= chars.len(),
            old(self).line() < u32::MAX,
        ensures
            ({
                let k = line_end(chars@, from as int);
                if k < chars@.len() {
                    &&& r == k + 1
                    &&& final(self).line() == old(self).line() + 1
                    &&& final(self).column() == 1
                } else {
                    &&& r == chars@.len()
                    &&& final(self).line() == old(self).line()
                    &&& final(self).column() == old(self).column()
                }
            }),
            final(self).handler() == old(self).handler(),
    {
        let mut k: usize = from;
        while k < chars.len() && chars[k] != '\n'
            invariant
                from <= k <= chars.len(),
                line_end(chars@, from as int) == line_end(chars@, k as int),
            decreases chars.len() - k,
        {
            k = k + 1;
        }
        if k < chars.len() {
            self.line = self.line + 1;
            self.column = 1;
            k + 1
        } else {
            k
        }
    }

    /// Scans `chars` from the cursor. Gives the tokens when neither this scan
    /// nor the collector handed to [`Scanner::new`] holds a fault, and the
    /// collector with this scan's faults added otherwise.
    pub fn scan(self, chars: String) -> (r: Result<Vec<Token>, ScannerErrorHandler>)
        requires
            self.line() + chars@.len() < u32::MAX,
            self.column() + chars@.len() < u32::MAX,
        ensures
            ({
                let (toks, errs) = scan_from(chars@, 0, self.line(), self.column());
                match r {
                    Ok(t) => {
                        &&& self.handler().len() == 0
                        &&& errs.len() == 0
                        &&& t@.map_values(|t: Token| t@) == toks
                        &&& forall|k: int| 0 <= k < t@.len() ==> literal_ok(#[trigger] t@[k]@)
                    },
                    Err(h) => {
                        &&& h@ == self.handler() + errs
                        &&& h@.len() > 0
                    },
                }
            }),
    {
        let mut sc = self;
        let ghost s = chars@;
        let ghost l0 = sc.line();
        let ghost c0 = sc.column();
        let ghost h0 = sc.handler();
        let ghost all = scan_from(s, 0, l0, c0);
        let v = chars_of(chars.as_str());
        let mut tokens: Vec<Token> = Vec::new();
        let mut i: usize = 0;
        assert(tokens@.map_values(|t: Token| t@) =~= Seq::<TokenView>::empty());
        assert(h0 + all.1 =~= sc.handler() + all.1);
        while i < v.len()
            invariant
                v@ == s,
                0 <= i <= v.len(),
                sc.line() <= l0 + i,
                sc.column() <= c0 + i,
                l0 + s.len() < u32::MAX,
                c0 + s.len() < u32::MAX,
                all == scan_from(s, 0, l0, c0),
                ({
                    let rest = scan_from(s, i as int, sc.line(), sc.column());
                    &&& all.0 == tokens@.map_values(|t: Token| t@) + rest.0
                    &&& h0 + all.1 == sc.handler() + rest.1
                }),
            decreases v.len() - i,
        {
            let ghost line = sc.line();
            let ghost column = sc.column();
            let ghost before = tokens@.map_values(|t: Token| t@);
            let ghost hb = sc.handler();
            let ghost here = scan_from(s, i as int, line, column);
            let (at_line, at_column) = sc.position();
            let c = v[i];
            if let Some(kind) = punct(c) {
                let mut text: Vec<char> = Vec::new();
                text.push(c);
                let t = Token { lexeme: string_of(text), token_type: kind, line: sc.line, column: sc.column };
                assert(t@ == token_view(kind, seq![c], line, column));
                tokens.push(t);
                sc.column = sc.column + 1;
                i = i + 1;
                assert(tokens@.map_values(|t: Token| t@) =~= before.push(t@));
                assert(all.0 =~= tokens@.map_values(|t: Token| t@) + scan_from(s, i as int, sc.line(), sc.column()).0);
            } else if c == '\n' {
                sc.line = sc.line + 1;
                sc.column = 1;
                i = i + 1;
            } else if c == '"' {
                sc.column = sc.column + 1;
                let (res, next) = sc.json_string(&v, i + 1);
                proof {
                    lemma_string_end_bounds(s, i + 1);
                }
                match res {
                    Ok(lexeme) => {
                        let t = Token { lexeme, token_type: TokenType::String, line: at_line, column: at_column };
                        tokens.push(t);
                        i = next;
                        assert(tokens@.map_values(|t: Token| t@) =~= before.push(t@));
                        assert(all.0 =~= tokens@.map_values(|t: Token| t@) + scan_from(s, i as int, sc.line(), sc.column()).0);
                    },
                    Err(e) => {
                        sc.error_handler.add_error(e, (at_line, at_column));
                        proof {
                            lemma_line_end_bounds(s, i + 1);
                            assert(line_end(s, i as int) == line_end(s, i + 1));
                            assert(here == (
                                resume_after_line(s, i as int, line).0,
                                seq![error_view(ScanErrorKind::UnterminatedString, line, column)]
                                    + resume_after_line(s, i as int, line).1,
                            ));
                        }
                        let ghost from = i as int;
                        proof {
                            lemma_string_end_line_end(s, i + 1);
                        }
                        i = next;
                        assert(resume_after_line(s, from, line) == scan_from(s, i as int, sc.line(), sc.column()));
                        assert(h0 + all.1 =~= sc.handler() + scan_from(s, i as int, sc.line(), sc.column()).1);
                    },
                }
            } else if is_letter_or_digit(c) || c == '-' {
                let (res, next) = sc.json_alphanumeric(&v, i);
                proof {
                    lemma_word_end_bounds(s, i + 1);
                }
                match res {
                    Ok(t) => {
                        tokens.push(t);
                        i = next;
                        assert(tokens@.map_values(|t: Token| t@) =~= before.push(t@));
                        assert(all.0 =~= tokens@.map_values(|t: Token| t@) + scan_from(s, i as int, sc.line(), sc.column()).0);
                    },
                    Err(e) => {
                        sc.error_handler.add_error(e, (at_line, at_column));
                        proof {
                            lemma_line_end_bounds(s, i + 1);
                            assert(line_end(s, i as int) == line_end(s, i + 1));
                            assert(here == (
                                resume_after_line(s, i as int, line).0,
                                seq![error_view(e, line, column)]
                                    + resume_after_line(s, i as int, line).1,
                            ));
                        }
                        let ghost from = i as int;
                        i = sc.synch_after_newline(&v, i);
                        assert(resume_after_line(s, from, line) == scan_from(s, i as int, sc.line(), sc.column()));
                        assert(h0 + all.1 =~= sc.handler() + scan_from(s, i as int, sc.line(), sc.column()).1);
                    },
                }
            } else {
                sc.column = sc.column + 1;
                i = i + 1;
            }
        }
        assert(all.0 =~= tokens@.map_values(|t: Token| t@));
        assert(h0 + all.1 =~= sc.handler());
        proof {
            lemma_scan_literals(s, 0, l0, c0);
            assert forall|k: int| 0 <= k < tokens@.len() implies literal_ok(#[trigger] tokens@[k]@) by {
                assert(tokens@.map_values(|t: Token| t@)[k] == tokens@[k]@);
                assert(literal_ok(all.0[k]));
            }
        }
        if sc.error_handler.has_errored() {
            Err(sc.error_handler)
        } else {
            Ok(tokens)
        }
    }
}

/// Every token that scanning gives denotes a value of its kind.
pub proof fn lemma_scan_literals(s: Seq<char>, i: int, line: int, column: int)
    ensures
        forall|k: int|
            0 <= k < scan_from(s, i, line, column).0.len() ==> literal_ok(
                #[trigger] scan_from(s, i, line, column).0[k],
            ),
    decreases s.len() - i,
{
    if 0 <= i < s.len() {
        lemma_string_end_bounds(s, i + 1);
        lemma_word_end_bounds(s, i + 1);
        lemma_line_end_bounds(s, i);
        let c = s[i];
        let r = scan_from(s, i, line, column).0;
        if punct_kind(c) is Some {
            let rest = scan_from(s, i + 1, line, column + 1).0;
            lemma_scan_literals(s, i + 1, line, column + 1);
            lemma_prepend_literals(token_view(punct_kind(c)->0, seq![c], line, column), rest);
            assert(r == seq![token_view(punct_kind(c)->0, seq![c], line, column)] + rest);
        } else if c == '\n' {
            lemma_scan_literals(s, i + 1, line + 1, 1);
            assert(r == scan_from(s, i + 1, line + 1, 1).0);
        } else if c == '"' {
            let j = string_end(s, i + 1);
            if j < s.len() && s[j] == '"' {
                let nc = column + (j + 1 - i);
                lemma_scan_literals(s, j + 1, line, nc);
                lemma_prepend_literals(
                    token_view(TokenType::String, s.subrange(i + 1, j), line, column),
                    scan_from(s, j + 1, line, nc).0,
                );
                assert(r == seq![token_view(TokenType::String, s.subrange(i + 1, j), line, column)] + scan_from(s, j + 1, line, nc).0);
            } else {
                let k = line_end(s, i);
                assert(r == resume_after_line(s, i, line).0);
                if i < k && k < s.len() {
                    lemma_scan_literals(s, k + 1, line + 1, 1);
                    assert(r == scan_from(s, k + 1, line + 1, 1).0);
                } else {
                    assert(r.len() == 0);
                }
            }
        } else if starts_word(c) {
            let j = word_end(s, i + 1);
            let w = s.subrange(i, j);
            match classify_word(w) {
                Ok(kind) => {
                    let nc = column + (j - i);
                    lemma_scan_literals(s, j, line, nc);
                    lemma_prepend_literals(token_view(kind, w, line, column), scan_from(s, j, line, nc).0);
                    assert(r == seq![token_view(kind, w, line, column)] + scan_from(s, j, line, nc).0);
                },
                Err(_) => {
                    let k = line_end(s, i);
                    assert(r == resume_after_line(s, i, line).0);
                    if i < k && k < s.len() {
                        lemma_scan_literals(s, k + 1, line + 1, 1);
                        assert(r == scan_from(s, k + 1, line + 1, 1).0);
                    } else {
                        assert(r.len() == 0);
                    }
                },
            }
        } else {
            lemma_scan_literals(s, i + 1, line, column + 1);
            assert(r == scan_from(s, i + 1, line, column + 1).0);
        }
    }
}

proof fn lemma_prepend_literals(t: TokenView, rest: Seq<TokenView>)
    requires
        literal_ok(t),
        forall|k: int| 0 <= k < rest.len() ==> literal_ok(#[trigger] rest[k]),
    ensures
        forall|k: int| 0 <= k < (seq![t] + rest).len() ==> literal_ok(#[trigger] (seq![t] + rest)[k]),
{
    assert forall|k: int| 0 <= k < (seq![t] + rest).len() implies literal_ok(#[trigger] (seq![t] + rest)[k]) by {
        if k > 0 {
            assert((seq![t] + rest)[k] == rest[k - 1]);
        }
    }
}

/// Scanning is a function of the text: the same text gives the same tokens
/// and the same faults in the same order.
pub proof fn lemma_scan_deterministic(s1: Seq<char>, s2: Seq<char>)
    requires
        s1 == s2,
    ensures
        scan_errors(s1) == scan_errors(s2),
        scan_tokens(s1) == scan_tokens(s2),
{
}

proof fn lemma_string_end_is_line_end(s: Seq<char>, i: int)
    requires
        1 <= i <= s.len(),
        forall|k: int| 1 <= k < s.len() ==> s[k] != '"',
    ensures
        string_end(s, i) == line_end(s, i),
        line_end(s, i) < s.len() ==> s[line_end(s, i)] == '\n',
    decreases s.len() - i,
{
    if i < s.len() {
        lemma_string_end_is_line_end(s, i + 1);
    }
}

/// A text that opens a string and never closes it, ending either there or
/// at the first newline, gives no token and exactly one fault: an
/// unterminated string at line 1, column 1.
pub proof fn lemma_unterminated_string(s: Seq<char>)
    requires
        s.len() > 0,
        s[0] == '"',
        forall|k: int| 1 <= k < s.len() ==> s[k] != '"',
        forall|k: int| 1 <= k < s.len() && s[k] == '\n' ==> k == s.len() - 1,
    ensures
        scan_errors(s) == seq![error_view(ScanErrorKind::UnterminatedString, 1, 1)],
        scan_tokens(s) == Seq::<TokenView>::empty(),
{
    lemma_string_end_is_line_end(s, 1);
    lemma_line_end_bounds(s, 1);
    assert(line_end(s, 0) == line_end(s, 1));
    let j = string_end(s, 1);
    assert(!(j < s.len() && s[j] == '"'));
    let rest = resume_after_line(s, 0, 1);
    assert(rest == (Seq::<TokenView>::empty(), Seq::<ScannerErrorView>::empty()));
    assert(scan_errors(s) =~= seq![error_view(ScanErrorKind::UnterminatedString, 1, 1)]);
}

/// A word that runs from `k` up to a character that cannot continue it
/// ends there.
pub proof fn lemma_word_end_at(s: Seq<char>, k: int, e: int)
    requires
        0 <= k <= e <= s.len(),
        forall|i: int| k <= i < e ==> continues_word(#[trigger] s[i]),
        e == s.len() || !continues_word(s[e]),
    ensures
        word_end(s, k) == e,
    decreases e - k,
{
    if k < e {
        lemma_word_end_at(s, k + 1, e);
    }
}

proof fn lemma_line_end_at(s: Seq<char>, k: int, e: int)
    requires
        0 <= k <= e <= s.len(),
        forall|i: int| k <= i < e ==> #[trigger] s[i] != '\n',
        e == s.len() || s[e] == '\n',
    ensures
        line_end(s, k) == e,
    decreases e - k,
{
    if k < e {
        lemma_line_end_at(s, k + 1, e);
    }
}

/// A malformed word: what could be a keyword or number, but is neither.
pub open spec fn is_bad_word(w: Seq<char>) -> bool {
    &&& w.len() > 0
    &&& starts_word(w[0])
    &&& forall|i: int| 1 <= i < w.len() ==> continues_word(#[trigger] w[i])
    &&& classify_word(w) is Err
}

/// Scanning `s` from the start of bad word `w` at index `at`, on `line`,
/// where `w` fills the rest of its line and a newline follows it, reports
/// `w` and goes on at the next line.
proof fn lemma_bad_word_line(s: Seq<char>, w: Seq<char>, at: int, line: int)
    requires
        is_bad_word(w),
        0 <= at,
        at + w.len() < s.len(),
        s.subrange(at, at + w.len()) == w,
        s[at + w.len()] == '\n',
    ensures
        scan_from(s, at, line, 1) == ({
            let rest = scan_from(s, at + w.len() + 1, line + 1, 1);
            (rest.0, seq![error_view(classify_word(w)->Err_0, line, 1)] + rest.1)
        }),
{
    let e = at + w.len();
    assert(s[at] == w[0]);
    assert forall|i: int| at + 1 <= i < e implies continues_word(#[trigger] s[i]) by {
        assert(s[i] == w[i - at]);
    }
    lemma_word_end_at(s, at + 1, e);
    assert forall|i: int| at <= i < e implies #[trigger] s[i] != '\n' by {
        assert(s[i] == w[i - at]);
    }
    lemma_line_end_at(s, at, e);
    let c = s[at];
    assert(punct_kind(c) is None);
    assert(c != '\n' && c != '"');
    assert(s.subrange(at, e) == w);
    assert(resume_after_line(s, at, line) == scan_from(s, e + 1, line + 1, 1));
}

/// Two malformed words, each alone on its line, give exactly two faults, on
/// lines 1 and 2, and no token.
pub proof fn lemma_two_bad_lines(w1: Seq<char>, w2: Seq<char>)
    requires
        is_bad_word(w1),
        is_bad_word(w2),
    ensures
        ({
            let s = w1 + seq!['\n'] + w2 + seq!['\n'];
            &&& scan_errors(s) == seq![
                error_view(classify_word(w1)->Err_0, 1, 1),
                error_view(classify_word(w2)->Err_0, 2, 1),
            ]
            &&& scan_tokens(s) == Seq::<TokenView>::empty()
        }),
{
    let s = w1 + seq!['\n'] + w2 + seq!['\n'];
    let n1 = w1.len() as int;
    let n2 = w2.len() as int;
    assert(s.subrange(0, n1) =~= w1);
    assert(s.subrange(n1 + 1, n1 + 1 + n2) =~= w2);
    assert(s[n1] == '\n');
    assert(s[n1 + 1 + n2] == '\n');
    lemma_bad_word_line(s, w1, 0, 1);
    lemma_bad_word_line(s, w2, n1 + 1, 2);
    assert(scan_errors(s) =~= seq![
        error_view(classify_word(w1)->Err_0, 1, 1),
        error_view(classify_word(w2)->Err_0, 2, 1),
    ]);
}

} // verus!
