//! How the text of a pattern reads: what a token is, and how tokens stand together.

use crate::pattern;
use vstd::prelude::*;

verus! {

/// The byte is the hexadecimal digit of this value, in either case.
pub open spec fn digit(c: u8, d: int) -> bool {
    ||| 0 <= d < 10 && c == 48 + d
    ||| 10 <= d < 16 && (c == 55 + d || c == 87 + d)
}

/// One or two digits that make up this value.
pub open spec fn digits(body: Seq<u8>, v: u8) -> bool {
    ||| body.len() == 1 && digit(body[0], v as int)
    ||| body.len() == 2 && digit(body[0], v as int / 16) && digit(body[1], v as int % 16)
}

/// The token is the digits of this value, with or without the prefix `0x`.
pub open spec fn spells(t: Seq<u8>, v: u8) -> bool {
    ||| digits(t, v)
    ||| t.len() > 2 && t[0] == 48 && (t[1] == 120 || t[1] == 88) && digits(t.skip(2), v)
}

/// One or two question marks.
pub open spec fn questions(t: Seq<u8>) -> bool {
    (t.len() == 1 && t[0] == 63) || (t.len() == 2 && t[0] == 63 && t[1] == 63)
}

proof fn digit_has_value(c: u8)
    ensures
        pattern::hex_value(c) matches Some(d) ==> digit(c, d) && 0 <= d < 16,
        forall|d: int| #[trigger] digit(c, d) ==> pattern::hex_value(c) == Some(d),
{
}

/// A token is one or two question marks for any byte, or one or two hexadecimal digits for a byte, which
/// may have `0x` before them; anything else is no token.
pub proof fn tokens_are_bytes_or_wildcards(t: Seq<u8>)
    ensures
        pattern::token(t) == Some(None::<u8>) <==> questions(t),
        forall|v: u8| pattern::token(t) == Some(Some(v)) <==> #[trigger] spells(t, v),
{
    let d = pattern::unprefixed(t);
    assert((t == seq![0x3Fu8] || t == seq![0x3Fu8, 0x3Fu8]) <==> questions(t)) by {
        if t.len() == 1 && t[0] == 63 {
            assert(t =~= seq![0x3Fu8]);
        }
        if t.len() == 2 && t[0] == 63 && t[1] == 63 {
            assert(t =~= seq![0x3Fu8, 0x3Fu8]);
        }
    }
    if d.len() > 0 {
        digit_has_value(d[0]);
    }
    if d.len() > 1 {
        digit_has_value(d[1]);
    }
    if t.len() > 0 {
        digit_has_value(t[0]);
    }
    if t.len() > 1 {
        digit_has_value(t[1]);
    }
    assert forall|v: u8| pattern::token(t) == Some(Some(v)) <==> #[trigger] spells(t, v) by {
        assert((16 * (v as int / 16) + v as int % 16) == v);
        if t.len() >= 2 && t[0] == 0x30 && (t[1] == 0x78 || t[1] == 0x58) {
            assert(!digit(t[1], v as int % 16));
            assert(d == t.skip(2));
        }
        if pattern::token(t) == Some(Some(v)) && d.len() == 2 {
            let x = pattern::hex_value(d[0])->0;
            let y = pattern::hex_value(d[1])->0;
            assert(v == 16 * x + y);
            assert(v as int / 16 == x && v as int % 16 == y);
        }
    }
}

/// The blank, the comma, the tab and the ends of lines part tokens.
pub open spec fn parts(c: u8) -> bool {
    c == 32 || c == 44 || c == 9 || c == 10 || c == 11 || c == 12 || c == 13
}

proof fn ends_move(p: Seq<u8>, y: Seq<u8>, j: int)
    requires
        0 <= j,
    ensures
        pattern::token_end(p + y, p.len() + j) == p.len() + pattern::token_end(y, j),
    decreases y.len() - j,
{
    let b = p + y;
    if j < y.len() {
        assert(b[p.len() + j] == y[j]);
        if !pattern::is_separator(y[j]) {
            ends_move(p, y, j + 1);
        }
    }
}

proof fn end_is_behind(b: Seq<u8>, i: int)
    requires
        0 <= i,
    ensures
        pattern::token_end(b, i) >= i,
        i <= b.len() ==> pattern::token_end(b, i) <= b.len(),
    decreases b.len() - i,
{
    if i < b.len() && !pattern::is_separator(b[i]) {
        end_is_behind(b, i + 1);
    }
}

proof fn tokens_move(p: Seq<u8>, y: Seq<u8>, j: int)
    requires
        0 <= j,
    ensures
        pattern::tokens_from(p + y, p.len() + j) == pattern::tokens_from(y, j),
    decreases y.len() - j,
{
    let b = p + y;
    if j < y.len() {
        assert(b[p.len() + j] == y[j]);
        if pattern::is_separator(y[j]) {
            tokens_move(p, y, j + 1);
        } else {
            ends_move(p, y, j);
            end_is_behind(y, j);
            let e = pattern::token_end(y, j);
            if j < e {
                tokens_move(p, y, e);
                assert(b.subrange(p.len() + j, p.len() + e) =~= y.subrange(j, e));
            }
        }
    }
}

proof fn end_within(x: Seq<u8>, c: u8, y: Seq<u8>, i: int)
    requires
        parts(c),
        0 <= i <= x.len(),
    ensures
        pattern::token_end(x + seq![c] + y, i) == pattern::token_end(x, i),
    decreases x.len() - i,
{
    let b = x + seq![c] + y;
    if i < x.len() {
        assert(b[i] == x[i]);
        if !pattern::is_separator(x[i]) {
            end_within(x, c, y, i + 1);
        }
    } else {
        assert(b[i] == c);
    }
}

/// The tokens of both, where both read.
pub open spec fn both(
    a: Option<Seq<Option<u8>>>,
    b: Option<Seq<Option<u8>>>,
) -> Option<Seq<Option<u8>>> {
    match (a, b) {
        (Some(x), Some(y)) => Some(x + y),
        _ => None,
    }
}

proof fn tokens_join_from(x: Seq<u8>, c: u8, y: Seq<u8>, i: int)
    requires
        parts(c),
        0 <= i <= x.len(),
    ensures
        pattern::tokens_from(x + seq![c] + y, i) == both(
            pattern::tokens_from(x, i),
            pattern::tokens_from(y, 0),
        ),
    decreases x.len() - i,
{
    let b = x + seq![c] + y;
    let rest = pattern::tokens_from(y, 0);
    if i == x.len() {
        assert(b[i] == c);
        assert(b == (x + seq![c]) + y);
        tokens_move(x + seq![c], y, 0);
        assert(pattern::tokens_from(x, i) == Some(Seq::<Option<u8>>::empty()));
        if let Some(r) = rest {
            assert(Seq::<Option<u8>>::empty() + r =~= r);
        }
    } else {
        assert(b[i] == x[i]);
        if pattern::is_separator(x[i]) {
            tokens_join_from(x, c, y, i + 1);
        } else {
            end_within(x, c, y, i);
            end_is_behind(x, i);
            let e = pattern::token_end(x, i);
            assert(e > i) by {
                end_is_behind(x, i + 1);
            }
            tokens_join_from(x, c, y, e);
            assert(b.subrange(i, e) =~= x.subrange(i, e));
            if let (Some(t), Some(more), Some(r)) = (
                pattern::token(x.subrange(i, e)),
                pattern::tokens_from(x, e),
                rest,
            ) {
                assert((seq![t] + more) + r =~= seq![t] + (more + r));
            }
        }
    }
}

/// Two texts that are parted by a blank, a comma, a tab or the end of a line read as the tokens of the
/// first and then those of the second; if one of them does not read, nor do both.
pub proof fn parted_texts_read_one_by_one(x: Seq<u8>, c: u8, y: Seq<u8>)
    requires
        parts(c),
    ensures
        pattern::tokens_from(x + seq![c] + y, 0) == both(
            pattern::tokens_from(x, 0),
            pattern::tokens_from(y, 0),
        ),
{
    tokens_join_from(x, c, y, 0);
}

proof fn whole_is_one(t: Seq<u8>, i: int)
    requires
        0 <= i <= t.len(),
        forall|k: int| i <= k < t.len() ==> !parts(#[trigger] t[k]),
    ensures
        pattern::token_end(t, i) == t.len(),
    decreases t.len() - i,
{
    if i < t.len() {
        whole_is_one(t, i + 1);
    }
}

/// A text without anything that parts tokens is one token.
pub proof fn unparted_text_is_one_token(t: Seq<u8>)
    requires
        t.len() > 0,
        forall|k: int| 0 <= k < t.len() ==> !parts(#[trigger] t[k]),
    ensures
        pattern::tokens_from(t, 0) == (match pattern::token(t) {
            Some(x) => Some(seq![x]),
            None => None,
        }),
{
    whole_is_one(t, 0);
    assert(!parts(t[0]));
    assert(t.subrange(0, t.len() as int) =~= t);
    assert(pattern::tokens_from(t, t.len() as int) == Some(Seq::<Option<u8>>::empty()));
    if let Some(x) = pattern::token(t) {
        assert(seq![x] + Seq::<Option<u8>>::empty() =~= seq![x]);
    }
}

}
