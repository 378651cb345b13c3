use crate::literal::{bool_of, bool_value, literal_ok, number_of, number_value};
use crate::scan::chars_of;
use crate::types::{views, Token, TokenType, TokenView, UnsignedInt};
use vstd::prelude::*;

verus! {

/// A JSON value. Object members keep the order in which their keys first
/// appeared; a key that appears again replaces the earlier member's value.
#[derive(Debug, PartialEq)]
pub enum Value {
    Null,
    Bool(bool),
    Number(UnsignedInt),
    String(String),
    Array(Vec<Value>),
    Object(Vec<(String, Value)>),
}

/// The mathematical form of a [`Value`].
pub ghost enum ValueView {
    Null,
    Bool(bool),
    Number(UnsignedInt),
    Str(Seq<char>),
    Array(Seq<ValueView>),
    Object(Seq<(Seq<char>, ValueView)>),
}

impl View for Value {
    type V = ValueView;

    open spec fn view(&self) -> ValueView
        decreases self,
    {
        match self {
            Value::Null => ValueView::Null,
            Value::Bool(b) => ValueView::Bool(*b),
            Value::Number(n) => ValueView::Number(*n),
            Value::String(s) => ValueView::Str(s@),
            Value::Array(items) => ValueView::Array(
                Seq::new(
                    items.len() as nat,
                    |i: int|
                        if 0 <= i < items.len() {
                            items[i].view()
                        } else {
                            ValueView::Null
                        },
                ),
            ),
            Value::Object(members) => ValueView::Object(
                Seq::new(
                    members.len() as nat,
                    |i: int|
                        if 0 <= i < members.len() {
                            (members[i].0@, members[i].1.view())
                        } else {
                            (Seq::empty(), ValueView::Null)
                        },
                ),
            ),
        }
    }
}

/// The first index at or after `i` of a member whose key is `k`, or the
/// number of members if there is none.
pub open spec fn key_index(m: Seq<(Seq<char>, ValueView)>, k: Seq<char>, i: int) -> int
    decreases m.len() - i,
{
    if i < 0 || i >= m.len() {
        m.len() as int
    } else if m[i].0 == k {
        i
    } else {
        key_index(m, k, i + 1)
    }
}

/// The members `m` with `k` bound to `v`: a key already present keeps its
/// place and takes the new value; a new key goes last.
pub open spec fn put(m: Seq<(Seq<char>, ValueView)>, k: Seq<char>, v: ValueView) -> Seq<(Seq<char>, ValueView)> {
    let i = key_index(m, k, 0);
    if 0 <= i < m.len() {
        m.update(i, (k, v))
    } else {
        m.push((k, v))
    }
}

/// How deeply arrays and objects may nest.
pub const MAX_DEPTH: usize = 128;

/// Why a token sequence is not a JSON value.
#[derive(Debug)]
pub enum ParseError {
    /// A token of the wrong kind for its place.
    BadToken(Token),
    /// The tokens ended where one more was needed.
    EndOfFile,
    /// An array or object opened past the nesting limit.
    TooDeep(Token),
    /// A boolean or number token whose lexeme does not convert to its value:
    /// the scanner's classification and the value model disagree.
    InvalidLiteral(Token),
}

/// The mathematical form of a [`ParseError`].
pub ghost enum ParseErrorView {
    BadToken(TokenView),
    EndOfFile,
    TooDeep(TokenView),
    InvalidLiteral(TokenView),
}

impl View for ParseError {
    type V = ParseErrorView;

    open spec fn view(&self) -> ParseErrorView {
        match self {
            ParseError::BadToken(t) => ParseErrorView::BadToken(t@),
            ParseError::EndOfFile => ParseErrorView::EndOfFile,
            ParseError::TooDeep(t) => ParseErrorView::TooDeep(t@),
            ParseError::InvalidLiteral(t) => ParseErrorView::InvalidLiteral(t@),
        }
    }
}

/// The value that starts at token `p`, with the index after it, when arrays
/// and objects may still nest `d` levels deep.
pub open spec fn value_at(t: Seq<TokenView>, p: int, d: nat) -> Result<(ValueView, int), ParseErrorView>
    decreases d, 1int, 0int,
{
    if p < 0 || p >= t.len() {
        Err(ParseErrorView::EndOfFile)
    } else {
        let tok = t[p];
        match tok.kind {
            TokenType::Null => Ok((ValueView::Null, p + 1)),
            TokenType::Bool => match bool_of(tok.lexeme) {
                Some(b) => Ok((ValueView::Bool(b), p + 1)),
                None => Err(ParseErrorView::InvalidLiteral(tok)),
            },
            TokenType::Number => match number_of(tok.lexeme) {
                Some(n) => Ok((ValueView::Number(n), p + 1)),
                None => Err(ParseErrorView::InvalidLiteral(tok)),
            },
            TokenType::String => Ok((ValueView::Str(tok.lexeme), p + 1)),
            TokenType::OpeningBrace => if d == 0 {
                Err(ParseErrorView::TooDeep(tok))
            } else if p + 1 < t.len() && t[p + 1].kind == TokenType::ClosingBrace {
                Ok((ValueView::Array(Seq::empty()), p + 2))
            } else {
                items_at(t, p + 1, (d - 1) as nat, Seq::empty())
            },
            TokenType::OpeningSquirly => if d == 0 {
                Err(ParseErrorView::TooDeep(tok))
            } else if p + 1 < t.len() && t[p + 1].kind == TokenType::ClosingSquirly {
                Ok((ValueView::Object(Seq::empty()), p + 2))
            } else {
                members_at(t, p + 1, (d - 1) as nat, Seq::empty())
            },
            _ => Err(ParseErrorView::BadToken(tok)),
        }
    }
}

/// The rest of a non-empty array from token `p`, after the elements `acc`:
/// `value (',' value)* ']'`, the values nesting at most `inner` levels.
pub open spec fn items_at(t: Seq<TokenView>, p: int, inner: nat, acc: Seq<ValueView>) -> Result<(ValueView, int), ParseErrorView>
    decreases inner, 2int, t.len() - p,
{
    // A value takes at least one token, so `q <= p` never holds; the test
    // bounds the recursion.
    match value_at(t, p, inner) {
        Err(e) => Err(e),
        Ok((v, q)) => if q <= p || q >= t.len() {
            Err(ParseErrorView::EndOfFile)
        } else if t[q].kind == TokenType::Comma {
            items_at(t, q + 1, inner, acc.push(v))
        } else if t[q].kind == TokenType::ClosingBrace {
            Ok((ValueView::Array(acc.push(v)), q + 1))
        } else {
            Err(ParseErrorView::BadToken(t[q]))
        },
    }
}

/// The rest of a non-empty object from token `p`, after the members `acc`:
/// `string ':' value (',' string ':' value)* '}'`.
pub open spec fn members_at(
    t: Seq<TokenView>,
    p: int,
    inner: nat,
    acc: Seq<(Seq<char>, ValueView)>,
) -> Result<(ValueView, int), ParseErrorView>
    decreases inner, 2int, t.len() - p,
{
    if p < 0 || p >= t.len() {
        Err(ParseErrorView::EndOfFile)
    } else if t[p].kind != TokenType::String {
        Err(ParseErrorView::BadToken(t[p]))
    } else if p + 1 >= t.len() {
        Err(ParseErrorView::EndOfFile)
    } else if t[p + 1].kind != TokenType::Colon {
        Err(ParseErrorView::BadToken(t[p + 1]))
    } else {
        match value_at(t, p + 2, inner) {
            Err(e) => Err(e),
            Ok((v, q)) => if q <= p || q >= t.len() {
                Err(ParseErrorView::EndOfFile)
            } else if t[q].kind == TokenType::Comma {
                members_at(t, q + 1, inner, put(acc, t[p].lexeme, v))
            } else if t[q].kind == TokenType::ClosingSquirly {
                Ok((ValueView::Object(put(acc, t[p].lexeme, v)), q + 1))
            } else {
                Err(ParseErrorView::BadToken(t[q]))
            },
        }
    }
}

/// The value that the whole token sequence `t` spells.
pub open spec fn parse_tokens(t: Seq<TokenView>) -> Result<ValueView, ParseErrorView> {
    match value_at(t, 0, MAX_DEPTH as nat) {
        Err(e) => Err(e),
        Ok((v, q)) => if q < t.len() {
            Err(ParseErrorView::BadToken(t[q]))
        } else {
            Ok(v)
        },
    }
}

/// The view of a parse result.
pub open spec fn result_view(r: Result<Value, ParseError>) -> Result<ValueView, ParseErrorView> {
    match r {
        Ok(v) => Ok(v@),
        Err(e) => Err(e@),
    }
}

/// The views of a sequence of values.
pub open spec fn value_views(s: Seq<Value>) -> Seq<ValueView> {
    s.map_values(|x: Value| x@)
}

/// The views of a sequence of object members.
pub open spec fn member_views(s: Seq<(String, Value)>) -> Seq<(Seq<char>, ValueView)> {
    s.map_values(|m: (String, Value)| (m.0@, m.1@))
}

proof fn lemma_array_view(items: Vec<Value>)
    ensures
        Value::Array(items)@ == ValueView::Array(value_views(items@)),
{
    let v = Value::Array(items);
    reveal_with_fuel(<Value as View>::view, 2);
    assert(v@->Array_0.len() == items.len());
    assert forall|i: int| 0 <= i < items.len() implies v@->Array_0[i] == value_views(items@)[i] by {
        assert(items[i] == items@[i]);
    }
    assert(v@->Array_0 =~= value_views(items@));
}

proof fn lemma_object_view(members: Vec<(String, Value)>)
    ensures
        Value::Object(members)@ == ValueView::Object(member_views(members@)),
{
    let v = Value::Object(members);
    reveal_with_fuel(<Value as View>::view, 2);
    assert(v@->Object_0.len() == members.len());
    assert forall|i: int| 0 <= i < members.len() implies v@->Object_0[i] == member_views(members@)[i] by {
        assert(members[i] == members@[i]);
    }
    assert(v@->Object_0 =~= member_views(members@));
}

/// Binds `key` to `value` among `members`, as [`put`] says.
fn put_member(members: &mut Vec<(String, Value)>, key: String, value: Value)
    ensures
        member_views(final(members)@) == put(member_views(old(members)@), key@, value@),
{
    let ghost m = member_views(members@);
    let mut j: usize = 0;
    while j < members.len() && !(members[j].0 == key)
        invariant
            0 <= j <= members.len(),
            m == member_views(members@),
            key_index(m, key@, 0) == key_index(m, key@, j as int),
        decreases members.len() - j,
    {
        j = j + 1;
    }
    let ghost kv = (key@, value@);
    if j < members.len() {
        members.set(j, (key, value));
        assert(member_views(members@) =~= m.update(j as int, kv));
    } else {
        members.push((key, value));
        assert(member_views(members@) =~= m.push(kv));
    }
}

/// A recursive-descent parser over a token sequence, with a cursor into it.
pub struct Parser<'a> {
    cursor: usize,
    tokens: &'a Vec<Token>,
}

impl<'a> Parser<'a> {
    /// The tokens being parsed.
    pub closed spec fn toks(&self) -> Seq<TokenView> {
        views(self.tokens@)
    }

    /// The index of the next token.
    pub closed spec fn pos(&self) -> int {
        self.cursor as int
    }

    /// The cursor is at a token or just past the last one.
    pub closed spec fn wf(&self) -> bool {
        self.cursor <= self.tokens.len() < usize::MAX
    }

    /// Parses the whole of `tokens` as one value: a value followed by more
    /// tokens is refused at the first of them.
    pub fn parse(tokens: &Vec<Token>) -> (r: Result<Value, ParseError>)
        requires
            tokens@.len() < usize::MAX,
        ensures
            result_view(r) == parse_tokens(views(tokens@)),
            r is Ok ==> objects_unique(r->Ok_0@),
            (forall|k: int| 0 <= k < tokens@.len() ==> literal_ok(#[trigger] tokens@[k]@)) ==> !(r is Err
                && r->Err_0 is InvalidLiteral),
    {
        proof {
            let t = views(tokens@);
            lemma_parse_facts(t);
            assert(forall|k: int| 0 <= k < tokens@.len() ==> t[k] == #[trigger] tokens@[k]@);
        }
        let mut parser = Parser { cursor: 0, tokens };
        let result = parser.value(MAX_DEPTH);
        match result {
            Ok(v) => match parser.peek() {
                Some(t) => Err(ParseError::BadToken(t.clone())),
                None => Ok(v),
            },
            Err(e) => Err(e),
        }
    }

    /// Parses the value at the cursor, letting arrays and objects nest
    /// `depth` levels deep.
    fn value(&mut self, depth: usize) -> (r: Result<Value, ParseError>)
        requires
            old(self).wf(),
        ensures
            r is Ok ==> final(self).wf(),
            final(self).toks() == old(self).toks(),
            match value_at(old(self).toks(), old(self).pos(), depth as nat) {
                Ok((v, q)) => r is Ok && r->Ok_0@ == v && final(self).pos() == q,
                Err(e) => r is Err && r->Err_0@ == e,
            },
            r is Ok ==> final(self).pos() > old(self).pos(),
        decreases depth, 1int, 0int,
    {
        let tok = match self.advance() {
            Some(t) => t,
            None => return Err(ParseError::EndOfFile),
        };
        match tok.token_type {
            TokenType::Null => Ok(Value::Null),
            TokenType::Bool => match bool_value(&chars_of(tok.lexeme.as_str())) {
                Some(b) => Ok(Value::Bool(b)),
                None => Err(ParseError::InvalidLiteral(tok.clone())),
            },
            TokenType::Number => match number_value(&chars_of(tok.lexeme.as_str())) {
                Some(n) => Ok(Value::Number(n)),
                None => Err(ParseError::InvalidLiteral(tok.clone())),
            },
            TokenType::String => Ok(Value::String(tok.lexeme.clone())),
            TokenType::OpeningBrace => {
                if depth == 0 {
                    return Err(ParseError::TooDeep(tok.clone()));
                }
                self.array(depth - 1)
            },
            TokenType::OpeningSquirly => {
                if depth == 0 {
                    return Err(ParseError::TooDeep(tok.clone()));
                }
                self.object(depth - 1)
            },
            _ => Err(ParseError::BadToken(tok.clone())),
        }
    }

    /// Parses the rest of an array whose `[` was just consumed.
    fn array(&mut self, inner: usize) -> (r: Result<Value, ParseError>)
        requires
            old(self).wf(),
        ensures
            r is Ok ==> final(self).wf(),
            final(self).toks() == old(self).toks(),
            ({
                let t = old(self).toks();
                let p = old(self).pos();
                let spec_r = if p < t.len() && t[p].kind == TokenType::ClosingBrace {
                    Ok((ValueView::Array(Seq::empty()), p + 1))
                } else {
                    items_at(t, p, inner as nat, Seq::empty())
                };
                match spec_r {
                    Ok((v, q)) => r is Ok && r->Ok_0@ == v && final(self).pos() == q,
                    Err(e) => r is Err && r->Err_0@ == e,
                }
            }),
            r is Ok ==> final(self).pos() > old(self).pos(),
        decreases inner, 2int, 0int,
    {
        let ghost t = self.toks();
        let ghost p0 = self.pos();
        if let Some(t) = self.peek() {
            if t.token_type == TokenType::ClosingBrace {
                self.advance();
                let items: Vec<Value> = Vec::new();
                proof {
                    lemma_array_view(items);
                    assert(value_views(items@) =~= Seq::<ValueView>::empty());
                }
                return Ok(Value::Array(items));
            }
        }
        let mut items: Vec<Value> = Vec::new();
        assert(value_views(items@) =~= Seq::<ValueView>::empty());
        loop
            invariant
                self.wf(),
                self.toks() == t,
                t == old(self).toks(),
                p0 == old(self).pos(),
                self.pos() >= p0,
                items_at(t, p0, inner as nat, Seq::empty()) == items_at(t, self.pos(), inner as nat, value_views(items@)),
                !(p0 < t.len() && t[p0].kind == TokenType::ClosingBrace),
            decreases t.len() - self.pos(),
        {
            let ghost p = self.pos();
            let v = match self.value(inner) {
                Ok(v) => v,
                Err(e) => return Err(e),
            };
            let ghost vv = v@;
            let ghost before = value_views(items@);
            items.push(v);
            assert(value_views(items@) =~= before.push(vv));
            let sep = match self.advance() {
                Some(sep) => sep,
                None => return Err(ParseError::EndOfFile),
            };
            if sep.token_type == TokenType::Comma {
            } else if sep.token_type == TokenType::ClosingBrace {
                proof {
                    lemma_array_view(items);
                }
                return Ok(Value::Array(items));
            } else {
                return Err(ParseError::BadToken(sep.clone()));
            }
        }
    }

    /// Parses the rest of an object whose `{` was just consumed.
    fn object(&mut self, inner: usize) -> (r: Result<Value, ParseError>)
        requires
            old(self).wf(),
        ensures
            r is Ok ==> final(self).wf(),
            final(self).toks() == old(self).toks(),
            ({
                let t = old(self).toks();
                let p = old(self).pos();
                let spec_r = if p < t.len() && t[p].kind == TokenType::ClosingSquirly {
                    Ok((ValueView::Object(Seq::empty()), p + 1))
                } else {
                    members_at(t, p, inner as nat, Seq::empty())
                };
                match spec_r {
                    Ok((v, q)) => r is Ok && r->Ok_0@ == v && final(self).pos() == q,
                    Err(e) => r is Err && r->Err_0@ == e,
                }
            }),
            r is Ok ==> final(self).pos() > old(self).pos(),
        decreases inner, 2int, 0int,
    {
        let ghost t = self.toks();
        let ghost p0 = self.pos();
        if let Some(t) = self.peek() {
            if t.token_type == TokenType::ClosingSquirly {
                self.advance();
                let members: Vec<(String, Value)> = Vec::new();
                proof {
                    lemma_object_view(members);
                    assert(member_views(members@) =~= Seq::<(Seq<char>, ValueView)>::empty());
                }
                return Ok(Value::Object(members));
            }
        }
        let mut members: Vec<(String, Value)> = Vec::new();
        assert(member_views(members@) =~= Seq::<(Seq<char>, ValueView)>::empty());
        loop
            invariant
                self.wf(),
                self.toks() == t,
                t == old(self).toks(),
                p0 == old(self).pos(),
                self.pos() >= p0,
                members_at(t, p0, inner as nat, Seq::empty()) == members_at(t, self.pos(), inner as nat, member_views(members@)),
                !(p0 < t.len() && t[p0].kind == TokenType::ClosingSquirly),
            decreases t.len() - self.pos(),
        {
            let ghost p = self.pos();
            let key = match self.advance() {
                Some(key) => key,
                None => return Err(ParseError::EndOfFile),
            };
            if key.token_type != TokenType::String {
                return Err(ParseError::BadToken(key.clone()));
            }
            let colon = match self.advance() {
                Some(colon) => colon,
                None => return Err(ParseError::EndOfFile),
            };
            if colon.token_type != TokenType::Colon {
                return Err(ParseError::BadToken(colon.clone()));
            }
            let v = match self.value(inner) {
                Ok(v) => v,
                Err(e) => return Err(e),
            };
            put_member(&mut members, key.lexeme.clone(), v);
            let sep = match self.advance() {
                Some(sep) => sep,
                None => return Err(ParseError::EndOfFile),
            };
            if sep.token_type == TokenType::Comma {
            } else if sep.token_type == TokenType::ClosingSquirly {
                proof {
                    lemma_object_view(members);
                }
                return Ok(Value::Object(members));
            } else {
                return Err(ParseError::BadToken(sep.clone()));
            }
        }
    }

    /// Moves the cursor on by one, giving the token it passed, if there was one.
    fn advance(&mut self) -> (r: Option<&'a Token>)
        requires
            old(self).wf(),
        ensures
            final(self).toks() == old(self).toks(),
            final(self).pos() == old(self).pos() + 1,
            old(self).pos() < old(self).toks().len() ==> {
                &&& r is Some
                &&& r->Some_0@ == old(self).toks()[old(self).pos()]
                &&& final(self).wf()
            },
            old(self).pos() >= old(self).toks().len() ==> r is None,
    {
        let r = self.tokens.get(self.cursor);
        self.cursor = self.cursor + 1;
        r
    }

    /// The token at the cursor, if there is one.
    fn peek(&self) -> (r: Option<&'a Token>)
        requires
            self.wf(),
        ensures
            self.pos() < self.toks().len() ==> r is Some && r->Some_0@ == self.toks()[self.pos()],
            self.pos() >= self.toks().len() ==> r is None,
    {
        if self.cursor < self.tokens.len() {
            Some(&self.tokens[self.cursor])
        } else {
            None
        }
    }
}

/// A token that is a whole value by itself.
pub open spec fn is_scalar(t: TokenView) -> bool {
    ||| t.kind == TokenType::Null
    ||| t.kind == TokenType::String
    ||| (t.kind == TokenType::Bool && bool_of(t.lexeme) is Some)
    ||| (t.kind == TokenType::Number && number_of(t.lexeme) is Some)
}

/// The value of a scalar token.
pub open spec fn scalar_value(t: TokenView) -> ValueView {
    if t.kind == TokenType::Null {
        ValueView::Null
    } else if t.kind == TokenType::String {
        ValueView::Str(t.lexeme)
    } else if t.kind == TokenType::Bool {
        ValueView::Bool(bool_of(t.lexeme)->0)
    } else {
        ValueView::Number(number_of(t.lexeme)->0)
    }
}

/// `t` is `[`, the scalar tokens `elems` separated by commas, and `]`.
pub open spec fn is_flat_array(t: Seq<TokenView>, elems: Seq<TokenView>) -> bool {
    let n = elems.len() as int;
    &&& t.len() == if n == 0 { 2 } else { 2 * n + 1 }
    &&& t[0].kind == TokenType::OpeningBrace
    &&& t[t.len() - 1].kind == TokenType::ClosingBrace
    &&& forall|k: int| 0 <= k < n ==> is_scalar(#[trigger] elems[k]) && t[2 * k + 1] == elems[k]
    &&& forall|k: int| 0 <= k < n - 1 ==> (#[trigger] t[2 * k + 2]).kind == TokenType::Comma
}

proof fn lemma_flat_items(t: Seq<TokenView>, elems: Seq<TokenView>, k: int, inner: nat, acc: Seq<ValueView>)
    requires
        is_flat_array(t, elems),
        0 <= k < elems.len(),
        acc == elems.take(k).map_values(|e: TokenView| scalar_value(e)),
    ensures
        items_at(t, 2 * k + 1, inner, acc) == Ok::<(ValueView, int), ParseErrorView>((
            ValueView::Array(elems.map_values(|e: TokenView| scalar_value(e))),
            t.len() as int,
        )),
    decreases elems.len() - k,
{
    let n = elems.len() as int;
    let e = elems[k];
    assert(is_scalar(e) && t[2 * k + 1] == e);
    assert(value_at(t, 2 * k + 1, inner) == Ok::<(ValueView, int), ParseErrorView>((scalar_value(e), 2 * k + 2)));
    let next = acc.push(scalar_value(e));
    assert(next =~= elems.take(k + 1).map_values(|e: TokenView| scalar_value(e)));
    if k < n - 1 {
        assert(t[2 * k + 2].kind == TokenType::Comma);
        lemma_flat_items(t, elems, k + 1, inner, next);
        assert(2 * (k + 1) + 1 == 2 * k + 3);
    } else {
        assert(elems.take(k + 1) =~= elems);
    }
}

/// A flat array of scalars parses to an array with one element per scalar,
/// each the scalar's value, in source order.
pub proof fn lemma_flat_array_parses(t: Seq<TokenView>, elems: Seq<TokenView>)
    requires
        is_flat_array(t, elems),
    ensures
        parse_tokens(t) == Ok::<ValueView, ParseErrorView>(
            ValueView::Array(elems.map_values(|e: TokenView| scalar_value(e))),
        ),
{
    if elems.len() == 0 {
        assert(elems.map_values(|e: TokenView| scalar_value(e)) =~= Seq::<ValueView>::empty());
    } else {
        assert(is_scalar(elems[0]) && t[1] == elems[0]);
        assert(elems.take(0).map_values(|e: TokenView| scalar_value(e)) =~= Seq::<ValueView>::empty());
        lemma_flat_items(t, elems, 0, (MAX_DEPTH - 1) as nat, Seq::empty());
    }
}

/// No two members share a key.
pub open spec fn unique_keys(m: Seq<(Seq<char>, ValueView)>) -> bool {
    forall|i: int, j: int| 0 <= i < j < m.len() ==> #[trigger] m[i].0 != #[trigger] m[j].0
}

/// Every object inside `v`, `v` included, has unique keys.
pub open spec fn objects_unique(v: ValueView) -> bool
    decreases v,
{
    match v {
        ValueView::Array(items) => forall|i: int| 0 <= i < items.len() ==> objects_unique(#[trigger] items[i]),
        ValueView::Object(m) => unique_keys(m) && forall|i: int| 0 <= i < m.len() ==> objects_unique(#[trigger] m[i].1),
        _ => true,
    }
}

proof fn lemma_key_index(m: Seq<(Seq<char>, ValueView)>, k: Seq<char>, i: int)
    requires
        0 <= i <= m.len(),
    ensures
        i <= key_index(m, k, i) <= m.len(),
        key_index(m, k, i) < m.len() ==> m[key_index(m, k, i)].0 == k,
        forall|j: int| i <= j < key_index(m, k, i) ==> m[j].0 != k,
    decreases m.len() - i,
{
    if i < m.len() {
        lemma_key_index(m, k, i + 1);
    }
}

/// Binding a key keeps the keys unique.
pub proof fn lemma_put_unique(m: Seq<(Seq<char>, ValueView)>, k: Seq<char>, v: ValueView)
    requires
        unique_keys(m),
    ensures
        unique_keys(put(m, k, v)),
        put(m, k, v).len() == if key_index(m, k, 0) < m.len() { m.len() } else { m.len() + 1 },
        forall|i: int| 0 <= i < put(m, k, v).len() ==> #[trigger] put(m, k, v)[i] == (k, v) || put(m, k, v)[i] == m[i],
{
    lemma_key_index(m, k, 0);
    let r = put(m, k, v);
    assert forall|i: int, j: int| 0 <= i < j < r.len() implies #[trigger] r[i].0 != #[trigger] r[j].0 by {
        if j == m.len() {
            assert(r[i] == m[i]);
        }
    }
}

proof fn lemma_value_at_facts(t: Seq<TokenView>, p: int, d: nat)
    ensures
        value_at(t, p, d) is Ok ==> objects_unique(value_at(t, p, d)->Ok_0.0),
        (forall|k: int| 0 <= k < t.len() ==> literal_ok(#[trigger] t[k])) ==> !(value_at(t, p, d) is Err
            && value_at(t, p, d)->Err_0 is InvalidLiteral),
    decreases d, 1int, 0int,
{
    if 0 <= p < t.len() {
        let tok = t[p];
        if tok.kind == TokenType::OpeningBrace && d > 0 && !(p + 1 < t.len() && t[p + 1].kind
            == TokenType::ClosingBrace) {
            lemma_items_at_facts(t, p + 1, (d - 1) as nat, Seq::empty());
        } else if tok.kind == TokenType::OpeningSquirly && d > 0 && !(p + 1 < t.len() && t[p
            + 1].kind == TokenType::ClosingSquirly) {
            lemma_members_at_facts(t, p + 1, (d - 1) as nat, Seq::empty());
        }
        if forall|k: int| 0 <= k < t.len() ==> literal_ok(#[trigger] t[k]) {
            assert(literal_ok(t[p]));
        }
    }
}

proof fn lemma_items_at_facts(t: Seq<TokenView>, p: int, inner: nat, acc: Seq<ValueView>)
    requires
        forall|i: int| 0 <= i < acc.len() ==> objects_unique(#[trigger] acc[i]),
    ensures
        items_at(t, p, inner, acc) is Ok ==> objects_unique(items_at(t, p, inner, acc)->Ok_0.0),
        (forall|k: int| 0 <= k < t.len() ==> literal_ok(#[trigger] t[k])) ==> !(items_at(t, p, inner, acc) is Err
            && items_at(t, p, inner, acc)->Err_0 is InvalidLiteral),
    decreases inner, 2int, t.len() - p,
{
    lemma_value_at_facts(t, p, inner);
    match value_at(t, p, inner) {
        Err(_) => {},
        Ok((v, q)) => {
            let next = acc.push(v);
            assert(forall|i: int| 0 <= i < next.len() ==> objects_unique(#[trigger] next[i])) by {
                assert(forall|i: int| 0 <= i < acc.len() ==> next[i] == acc[i]);
            }
            if q > p && q < t.len() && t[q].kind == TokenType::Comma {
                lemma_items_at_facts(t, q + 1, inner, next);
            }
        },
    }
}

proof fn lemma_members_at_facts(t: Seq<TokenView>, p: int, inner: nat, acc: Seq<(Seq<char>, ValueView)>)
    requires
        unique_keys(acc),
        forall|i: int| 0 <= i < acc.len() ==> objects_unique(#[trigger] acc[i].1),
    ensures
        members_at(t, p, inner, acc) is Ok ==> objects_unique(members_at(t, p, inner, acc)->Ok_0.0),
        (forall|k: int| 0 <= k < t.len() ==> literal_ok(#[trigger] t[k])) ==> !(members_at(t, p, inner, acc) is Err
            && members_at(t, p, inner, acc)->Err_0 is InvalidLiteral),
    decreases inner, 2int, t.len() - p,
{
    if 0 <= p && p + 1 < t.len() && t[p].kind == TokenType::String && t[p + 1].kind == TokenType::Colon {
        lemma_value_at_facts(t, p + 2, inner);
        match value_at(t, p + 2, inner) {
            Err(_) => {},
            Ok((v, q)) => {
                let k = t[p].lexeme;
                let next = put(acc, k, v);
                lemma_put_unique(acc, k, v);
                assert(forall|i: int| 0 <= i < next.len() ==> objects_unique(#[trigger] next[i].1)) by {
                    assert forall|i: int| 0 <= i < next.len() implies objects_unique(#[trigger] next[i].1) by {
                        if next[i] != (k, v) {
                            assert(next[i] == acc[i]);
                        }
                    }
                }
                if q > p && q < t.len() && t[q].kind == TokenType::Comma {
                    lemma_members_at_facts(t, q + 1, inner, next);
                }
            },
        }
    }
}

/// Every object in a parsed value has unique keys, and tokens whose lexemes
/// all denote values of their kinds never give an invalid literal.
pub proof fn lemma_parse_facts(t: Seq<TokenView>)
    ensures
        parse_tokens(t) is Ok ==> objects_unique(parse_tokens(t)->Ok_0),
        (forall|k: int| 0 <= k < t.len() ==> literal_ok(#[trigger] t[k])) ==> !(parse_tokens(t) is Err
            && parse_tokens(t)->Err_0 is InvalidLiteral),
{
    lemma_value_at_facts(t, 0, MAX_DEPTH as nat);
}

} // verus!
