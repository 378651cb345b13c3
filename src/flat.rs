use crate::literal::{is_digit, number_of};
use crate::parser::{is_flat_array, is_scalar, lemma_flat_array_parses, parse_tokens, scalar_value, ParseErrorView, ValueView};
use crate::scan::{
    classify_word, continues_word, dot_count, lemma_line_end_bounds, lemma_string_end_bounds,
    lemma_word_end_at, lemma_word_end_bounds, scan_errors, scan_from, scan_tokens, string_end, word_end, ScanErrorKind, ScannerErrorView,
};
use crate::types::{TokenType, TokenView};
use vstd::prelude::*;

verus! {

/// A quoted string with no quote or newline inside.
pub open spec fn string_text(e: Seq<char>) -> bool {
    &&& e.len() >= 2
    &&& e[0] == '"'
    &&& e[e.len() - 1] == '"'
    &&& forall|j: int| 1 <= j < e.len() - 1 ==> #[trigger] e[j] != '"' && e[j] != '\n'
}

/// The text of a scalar: `null`, `true`, `false`, a digit run that fits, or a
/// quoted string with no quote or newline inside.
pub open spec fn scalar_text(e: Seq<char>) -> bool {
    ||| e == seq!['n', 'u', 'l', 'l']
    ||| e == seq!['t', 'r', 'u', 'e']
    ||| e == seq!['f', 'a', 'l', 's', 'e']
    ||| number_of(e) is Some
    ||| string_text(e)
}

/// The value a scalar text denotes.
pub open spec fn text_value(e: Seq<char>) -> ValueView {
    if e == seq!['n', 'u', 'l', 'l'] {
        ValueView::Null
    } else if e == seq!['t', 'r', 'u', 'e'] {
        ValueView::Bool(true)
    } else if e == seq!['f', 'a', 'l', 's', 'e'] {
        ValueView::Bool(false)
    } else if number_of(e) is Some {
        ValueView::Number(number_of(e)->0)
    } else {
        ValueView::Str(e.subrange(1, e.len() - 1))
    }
}

/// The elements from the `k`-th on, separated by commas, then `]`.
pub open spec fn tail_text(es: Seq<Seq<char>>, k: int) -> Seq<char>
    decreases es.len() - k,
{
    if k < 0 || k >= es.len() {
        seq![']']
    } else if k + 1 < es.len() {
        es[k] + seq![','] + tail_text(es, k + 1)
    } else {
        es[k] + tail_text(es, k + 1)
    }
}

/// The text of a flat array: `[`, the elements separated by commas, `]`.
pub open spec fn flat_text(es: Seq<Seq<char>>) -> Seq<char> {
    seq!['['] + tail_text(es, 0)
}

proof fn lemma_dot_count_digits(w: Seq<char>)
    requires
        forall|j: int| 0 <= j < w.len() ==> is_digit(#[trigger] w[j]),
    ensures
        dot_count(w) == 0,
    decreases w.len(),
{
    if w.len() > 0 {
        lemma_dot_count_digits(w.drop_last());
    }
}

proof fn lemma_string_end_at(s: Seq<char>, k: int, e: int)
    requires
        0 <= k <= e < s.len(),
        forall|i: int| k <= i < e ==> #[trigger] s[i] != '"' && s[i] != '\n',
        s[e] == '"',
    ensures
        string_end(s, k) == e,
    decreases e - k,
{
    if k < e {
        lemma_string_end_at(s, k + 1, e);
    }
}

/// Scanning a scalar text followed by `,` or `]` gives one scalar token for it.
proof fn lemma_scan_scalar(s: Seq<char>, e: Seq<char>, i: int, col: int)
    requires
        scalar_text(e),
        0 <= i,
        i + e.len() < s.len(),
        s.subrange(i, i + e.len()) == e,
        s[i + e.len()] == ',' || s[i + e.len()] == ']',
    ensures
        ({
            let r = scan_from(s, i, 1, col);
            let rest = scan_from(s, i + e.len(), 1, col + e.len());
            &&& r.1 == rest.1
            &&& r.0.len() == rest.0.len() + 1
            &&& is_scalar(r.0[0])
            &&& scalar_value(r.0[0]) == text_value(e)
            &&& r.0.drop_first() == rest.0
        }),
{
    let n = i + e.len();
    assert(e.len() > 0);
    assert(s[i] == e[0]);
    assert forall|j: int| 0 <= j < e.len() implies s[i + j] == #[trigger] e[j] by {
        assert(s.subrange(i, n)[j] == s[i + j]);
    }
    lemma_string_end_bounds(s, i + 1);
    lemma_word_end_bounds(s, i + 1);
    lemma_line_end_bounds(s, i);
    if string_text(e) && !(e == seq!['n', 'u', 'l', 'l'] || e == seq!['t', 'r', 'u', 'e'] || e == seq![
        'f',
        'a',
        'l',
        's',
        'e',
    ] || number_of(e) is Some) {
        assert forall|j: int| i + 1 <= j < n - 1 implies #[trigger] s[j] != '"' && s[j] != '\n' by {
            assert(s[j] == e[j - i]);
        }
        assert(s[n - 1] == e[e.len() - 1]);
        lemma_string_end_at(s, i + 1, n - 1);
        assert(s.subrange(i + 1, n - 1) =~= e.subrange(1, e.len() - 1));
    } else {
        if number_of(e) is Some && !(e == seq!['n', 'u', 'l', 'l'] || e == seq!['t', 'r', 'u', 'e'] || e == seq!['f', 'a', 'l', 's', 'e']) {
            lemma_dot_count_digits(e);
            assert(is_digit(e[0]));
        }
        assert(e[0] != '"');
        assert forall|j: int| i + 1 <= j < n implies continues_word(#[trigger] s[j]) by {
            assert(s[j] == e[j - i]);
            if number_of(e) is Some {
                assert(is_digit(e[j - i]));
            }
        }
        lemma_word_end_at(s, i + 1, n);
        assert(s.subrange(i, n) == e);
        if number_of(e) is Some && !(e == seq!['n', 'u', 'l', 'l'] || e == seq!['t', 'r', 'u', 'e'] || e == seq!['f', 'a', 'l', 's', 'e']) {
            assert(classify_word(e) == Ok::<TokenType, ScanErrorKind>(TokenType::Number));
        }
    }
    let r = scan_from(s, i, 1, col);
    let rest = scan_from(s, n, 1, col + e.len());
    assert(r.0.drop_first() =~= rest.0);
}

/// The tokens of `tail_text(es, k)`: the scalars at even places, commas
/// between them, and `]` last.
pub open spec fn tail_shape(r: Seq<TokenView>, es: Seq<Seq<char>>, k: int) -> bool {
    let n = es.len() - k;
    &&& r.len() == if n == 0 { 1 } else { 2 * n }
    &&& r[r.len() - 1].kind == TokenType::ClosingBrace
    &&& forall|m: int| 0 <= m < n ==> is_scalar(#[trigger] r[2 * m]) && scalar_value(r[2 * m]) == text_value(es[k + m])
    &&& forall|m: int| 0 <= m < n - 1 ==> (#[trigger] r[2 * m + 1]).kind == TokenType::Comma
}

proof fn lemma_scan_tail(s: Seq<char>, es: Seq<Seq<char>>, k: int, i: int, col: int)
    requires
        forall|j: int| 0 <= j < es.len() ==> scalar_text(#[trigger] es[j]),
        0 <= k <= es.len(),
        0 <= i <= s.len(),
        s.subrange(i, s.len() as int) == tail_text(es, k),
    ensures
        scan_from(s, i, 1, col).1 == Seq::<ScannerErrorView>::empty(),
        tail_shape(scan_from(s, i, 1, col).0, es, k),
    decreases es.len() - k,
{
    let x = s.subrange(i, s.len() as int);
    let r = scan_from(s, i, 1, col);
    if k == es.len() {
        assert(x.len() == 1);
        assert(s[i] == x[0]);
        assert(scan_from(s, i + 1, 1, col + 1) == (Seq::<TokenView>::empty(), Seq::<ScannerErrorView>::empty()));
        assert(r.0.len() == 1);
    } else {
        let e = es[k];
        let l = e.len() as int;
        assert(scalar_text(e));
        let t = tail_text(es, k + 1);
        if k + 1 < es.len() {
            assert(x == e + seq![','] + t);
        } else {
            assert(t == seq![']']);
            assert(x == e + t);
        }
        assert(x.len() >= l + 1);
        assert forall|j: int| 0 <= j < l implies x[j] == #[trigger] e[j] by {
            if k + 1 < es.len() {
                assert((e + seq![','] + t)[j] == e[j]);
            } else {
                assert((e + t)[j] == e[j]);
            }
        }
        assert forall|j: int| 0 <= j < l implies s.subrange(i, i + l)[j] == #[trigger] e[j] by {
            assert(s.subrange(i, i + l)[j] == x[j]);
        }
        assert(s.subrange(i, i + l) =~= e);
        assert(l > 0);
        if k + 1 < es.len() {
            assert(x == e + seq![','] + t);
            assert(s[i + l] == x[l]);
            assert(s.subrange(i + l + 1, s.len() as int) =~= x.subrange(l + 1, x.len() as int));
            assert(x.subrange(l + 1, x.len() as int) =~= t);
            lemma_scan_scalar(s, e, i, col);
            lemma_scan_tail(s, es, k + 1, i + l + 1, col + l + 1);
            let rest = scan_from(s, i + l, 1, col + l);
            let r2 = scan_from(s, i + l + 1, 1, col + l + 1);
            assert(rest.0 == seq![rest.0[0]] + r2.0);
            assert(rest.1 == r2.1);
            assert(rest.0[0].kind == TokenType::Comma);
            let n = es.len() - k;
            assert(r.0.len() == 2 * n);
            assert forall|m: int| 0 <= m < n implies is_scalar(#[trigger] r.0[2 * m]) && scalar_value(r.0[2 * m]) == text_value(es[k + m]) by {
                if m > 0 {
                    assert(r.0[2 * m] == r.0.drop_first()[2 * m - 1]);
                    assert(rest.0[2 * m - 1] == (seq![rest.0[0]] + r2.0)[2 * m - 1]);
                    assert(r.0[2 * m] == r2.0[2 * (m - 1)]);
                }
            }
            assert forall|m: int| 0 <= m < n - 1 implies (#[trigger] r.0[2 * m + 1]).kind == TokenType::Comma by {
                if m > 0 {
                    assert(r.0[2 * m + 1] == r.0.drop_first()[2 * m]);
                    assert(rest.0[2 * m] == (seq![rest.0[0]] + r2.0)[2 * m]);
                    assert(r.0[2 * m + 1] == r2.0[2 * (m - 1) + 1]);
                }
            }
            assert(r.0[1] == r.0.drop_first()[0]);
            assert(r.0[r.0.len() - 1] == r.0.drop_first()[r.0.len() - 2]);
            assert(rest.0[r.0.len() - 2] == (seq![rest.0[0]] + r2.0)[r.0.len() - 2]);
            assert(r.0[r.0.len() - 1] == r2.0[r2.0.len() - 1]);
        } else {
            assert(t == seq![']']);
            assert(x == e + t);
            assert(s[i + l] == x[l]);
            assert(s.subrange(i + l, s.len() as int) =~= x.subrange(l, x.len() as int));
            assert(x.subrange(l, x.len() as int) =~= t);
            lemma_scan_scalar(s, e, i, col);
            lemma_scan_tail(s, es, k + 1, i + l, col + l);
            let rest = scan_from(s, i + l, 1, col + l);
            assert(r.0.len() == 2);
            assert(r.0[1] == rest.0[0]);
        }
    }
}

/// The text of a flat array of N scalars scans without fault and parses to
/// an array of exactly N elements, each the value of its scalar, in source
/// order.
pub proof fn lemma_flat_text_parses(es: Seq<Seq<char>>)
    requires
        forall|j: int| 0 <= j < es.len() ==> scalar_text(#[trigger] es[j]),
    ensures
        scan_errors(flat_text(es)) == Seq::<ScannerErrorView>::empty(),
        parse_tokens(scan_tokens(flat_text(es))) == Ok::<ValueView, ParseErrorView>(
            ValueView::Array(es.map_values(|e: Seq<char>| text_value(e))),
        ),
{
    let s = flat_text(es);
    let n = es.len() as int;
    assert(s.subrange(1, s.len() as int) =~= tail_text(es, 0));
    lemma_scan_tail(s, es, 0, 1, 2);
    let r2 = scan_from(s, 1, 1, 2).0;
    let t = scan_tokens(s);
    assert(s[0] == '[');
    assert(t == seq![t[0]] + r2);
    let elems = Seq::new(n as nat, |m: int| r2[2 * m]);
    assert forall|m: int| 0 <= m < n implies is_scalar(#[trigger] elems[m]) && t[2 * m + 1] == elems[m] by {
        assert(t[2 * m + 1] == r2[2 * m]);
    }
    assert forall|m: int| 0 <= m < n - 1 implies (#[trigger] t[2 * m + 2]).kind == TokenType::Comma by {
        assert(t[2 * m + 2] == r2[2 * m + 1]);
    }
    assert(t[t.len() - 1] == r2[r2.len() - 1]);
    assert(is_flat_array(t, elems));
    lemma_flat_array_parses(t, elems);
    assert(elems.map_values(|e: TokenView| scalar_value(e)) =~= es.map_values(|e: Seq<char>| text_value(e)));
}

} // verus!
