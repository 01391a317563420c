//! Text: numbers written out, strings joined and ordered.

use vstd::prelude::*;
use vstd::string::*;
use vstd::utf8::*;

verus! {

/// `String::push` of the standard library: the character is added at the end.
pub assume_specification[ String::push ](s: &mut String, c: char)
    ensures
        final(s)@ == old(s)@.push(c),
;

/// `std::str::from_utf8` of the standard library: whether the bytes are UTF-8.
#[verifier::external_body]
pub(crate) fn is_utf8(b: &[u8]) -> (r: bool)
    ensures
        r == valid_utf8(b@),
{
    std::str::from_utf8(b).is_ok()
}

/// The character of a digit below sixteen, letters in upper case.
pub open spec fn digit_upper(d: int) -> char {
    if d < 10 {
        (0x30 + d) as char
    } else {
        (0x37 + d) as char
    }
}

/// The character of a digit below sixteen, letters in lower case.
pub open spec fn digit_lower(d: int) -> char {
    if d < 10 {
        (0x30 + d) as char
    } else {
        (0x57 + d) as char
    }
}

/// `n` in decimal, without leading zeros.
pub open spec fn dec(n: nat) -> Seq<char>
    decreases n,
{
    if n < 10 {
        seq![digit_upper(n as int)]
    } else {
        dec(n / 10).push(digit_upper((n % 10) as int))
    }
}

/// `n` in upper-case hexadecimal, without leading zeros.
pub open spec fn hex_upper(n: nat) -> Seq<char>
    decreases n,
{
    if n < 16 {
        seq![digit_upper(n as int)]
    } else {
        hex_upper(n / 16).push(digit_upper((n % 16) as int))
    }
}

/// `n` in lower-case hexadecimal, without leading zeros.
pub open spec fn hex_lower(n: nat) -> Seq<char>
    decreases n,
{
    if n < 16 {
        seq![digit_lower(n as int)]
    } else {
        hex_lower(n / 16).push(digit_lower((n % 16) as int))
    }
}

/// The low `width` upper-case hexadecimal digits of `n`, zeros included.
pub open spec fn hex_fixed(n: nat, width: nat) -> Seq<char>
    decreases width,
{
    if width == 0 {
        Seq::empty()
    } else {
        hex_fixed(n / 16, (width - 1) as nat).push(digit_upper((n % 16) as int))
    }
}

/// The low `width` lower-case hexadecimal digits of `n`, zeros included.
pub open spec fn hex_lower_fixed(n: nat, width: nat) -> Seq<char>
    decreases width,
{
    if width == 0 {
        Seq::empty()
    } else {
        hex_lower_fixed(n / 16, (width - 1) as nat).push(digit_lower((n % 16) as int))
    }
}

fn push_digit_upper(s: &mut String, d: u64)
    requires
        d < 16,
    ensures
        final(s)@ == old(s)@.push(digit_upper(d as int)),
{
    let c: u8 = if d < 10 {
        0x30 + d as u8
    } else {
        0x37 + d as u8
    };
    s.push(c as char);
}

fn push_digit_lower(s: &mut String, d: u64)
    requires
        d < 16,
    ensures
        final(s)@ == old(s)@.push(digit_lower(d as int)),
{
    let c: u8 = if d < 10 {
        0x30 + d as u8
    } else {
        0x57 + d as u8
    };
    s.push(c as char);
}

/// Add `n` in decimal.
pub fn push_dec(s: &mut String, n: u64)
    ensures
        final(s)@ == old(s)@ + dec(n as nat),
    decreases n,
{
    if n >= 10 {
        push_dec(s, n / 10);
    }
    push_digit_upper(s, n % 10);
    assert(s@ =~= old(s)@ + dec(n as nat));
}

/// Add `n` in upper-case hexadecimal.
pub fn push_hex_upper(s: &mut String, n: u64)
    ensures
        final(s)@ == old(s)@ + hex_upper(n as nat),
    decreases n,
{
    if n >= 16 {
        push_hex_upper(s, n / 16);
    }
    push_digit_upper(s, n % 16);
    assert(s@ =~= old(s)@ + hex_upper(n as nat));
}

/// Add `n` in lower-case hexadecimal.
pub fn push_hex_lower(s: &mut String, n: u64)
    ensures
        final(s)@ == old(s)@ + hex_lower(n as nat),
    decreases n,
{
    if n >= 16 {
        push_hex_lower(s, n / 16);
    }
    push_digit_lower(s, n % 16);
    assert(s@ =~= old(s)@ + hex_lower(n as nat));
}

/// Add the low `width` hexadecimal digits of `n`.
pub fn push_hex_fixed(s: &mut String, n: u64, width: usize)
    ensures
        final(s)@ == old(s)@ + hex_fixed(n as nat, width as nat),
    decreases width,
{
    if width == 0 {
        assert(s@ =~= old(s)@ + hex_fixed(n as nat, 0));
        return;
    }
    push_hex_fixed(s, n / 16, width - 1);
    push_digit_upper(s, n % 16);
    assert(s@ =~= old(s)@ + hex_fixed(n as nat, width as nat));
}

/// Add the low `width` lower-case hexadecimal digits of `n`, zeros included.
pub fn push_hex_lower_fixed(s: &mut String, n: u64, width: usize)
    ensures
        final(s)@ == old(s)@ + hex_lower_fixed(n as nat, width as nat),
    decreases width,
{
    if width == 0 {
        assert(s@ =~= old(s)@ + hex_lower_fixed(n as nat, 0));
        return;
    }
    push_hex_lower_fixed(s, n / 16, width - 1);
    push_digit_lower(s, n % 16);
    assert(s@ =~= old(s)@ + hex_lower_fixed(n as nat, width as nat));
}

/// Bytes as two lower-case hexadecimal digits each.
pub open spec fn hex_run(b: Seq<u8>) -> Seq<char>
    decreases b.len(),
{
    if b.len() == 0 {
        Seq::empty()
    } else {
        hex_run(b.drop_last()) + hex_lower_fixed(b.last() as nat, 2)
    }
}

/// Bytes as two lower-case hexadecimal digits each.
pub fn run_of_hex(b: &[u8]) -> (s: String)
    ensures
        s@ == hex_run(b@),
{
    let mut s = String::new();
    let mut i: usize = 0;
    assert(b@.take(0) =~= Seq::<u8>::empty());
    while i < b.len()
        invariant
            i <= b@.len(),
            s@ == hex_run(b@.take(i as int)),
        decreases b@.len() - i,
    {
        assert(b@.take(i + 1).drop_last() =~= b@.take(i as int));
        push_hex_lower_fixed(&mut s, b[i] as u64, 2);
        i += 1;
    }
    assert(b@.take(i as int) =~= b@);
    s
}

/// The strings joined with `sep` between neighbours.
pub open spec fn joined(v: Seq<Seq<char>>, sep: Seq<char>) -> Seq<char>
    decreases v.len(),
{
    if v.len() == 0 {
        Seq::empty()
    } else if v.len() == 1 {
        v[0]
    } else {
        joined(v.drop_last(), sep) + sep + v.last()
    }
}

/// Join the strings with `sep` between neighbours.
pub fn join(v: &Vec<String>, sep: &str) -> (s: String)
    ensures
        s@ == joined(v.deep_view(), sep@),
{
    let mut s = String::new();
    let mut i: usize = 0;
    assert(v.deep_view().take(0) =~= Seq::<Seq<char>>::empty());
    while i < v.len()
        invariant
            i <= v@.len(),
            s@ == joined(v.deep_view().take(i as int), sep@),
        decreases v@.len() - i,
    {
        if i > 0 {
            s.append(sep);
        }
        s.append(v[i].as_str());
        i += 1;
        proof {
            let now = v.deep_view().take(i as int);
            assert(now.drop_last() =~= v.deep_view().take(i - 1));
            assert(s@ =~= joined(now, sep@));
        }
    }
    assert(v.deep_view().take(i as int) =~= v.deep_view());
    s
}

/// Each byte as two upper-case hexadecimal digits.
pub open spec fn hex_bytes(b: Seq<u8>) -> Seq<Seq<char>> {
    Seq::new(b.len(), |k: int| hex_fixed(b[k] as nat, 2))
}

/// Bytes as two upper-case hexadecimal digits each, parted by blanks.
pub fn spaced_hex(b: &[u8]) -> (s: String)
    ensures
        s@ == joined(hex_bytes(b@), " "@),
{
    let ghost all = hex_bytes(b@);
    let mut s = String::new();
    let mut i: usize = 0;
    assert(all.take(0) =~= Seq::<Seq<char>>::empty());
    while i < b.len()
        invariant
            all == hex_bytes(b@),
            i <= b@.len(),
            s@ == joined(all.take(i as int), " "@),
        decreases b@.len() - i,
    {
        let ghost now = all.take(i + 1);
        if i > 0 {
            s.append(" ");
        }
        push_hex_fixed(&mut s, b[i] as u64, 2);
        i += 1;
        proof {
            assert(now.drop_last() =~= all.take(i - 1));
            assert(s@ =~= joined(now, " "@));
        }
    }
    assert(all.take(i as int) =~= all);
    s
}

/// Whether two strings hold the same text.
pub fn same_text(a: &str, b: &str) -> (r: bool)
    ensures
        r == (a@ == b@),
{
    let n: usize = a.unicode_len();
    if n != b.unicode_len() {
        return false;
    }
    let x = a.as_bytes();
    let y = b.as_bytes();
    if x.len() != y.len() {
        return false;
    }
    let mut i: usize = 0;
    while i < x.len()
        invariant
            i <= x@.len(),
            x@.len() == y@.len(),
            x@ == encode_utf8(a@),
            y@ == encode_utf8(b@),
            forall|k: int| 0 <= k < i ==> x@[k] == y@[k],
        decreases x@.len() - i,
    {
        if x[i] != y[i] {
            assert(encode_utf8(a@)[i as int] != encode_utf8(b@)[i as int]);
            return false;
        }
        i += 1;
    }
    assert(x@ =~= y@);
    proof {
        encode_utf8_decode_utf8(a@);
        encode_utf8_decode_utf8(b@);
    }
    true
}

/// Byte sequences in lexicographic order: whether `a` comes strictly before `b`.
pub open spec fn bytes_before(a: Seq<u8>, b: Seq<u8>) -> bool
    decreases a.len(),
{
    if b.len() == 0 {
        false
    } else if a.len() == 0 {
        true
    } else if a[0] != b[0] {
        a[0] < b[0]
    } else {
        bytes_before(a.skip(1), b.skip(1))
    }
}

/// The lexicographic order is one: never both ways, and whatever lies between two sequences parts them.
pub proof fn bytes_are_ordered(a: Seq<u8>, b: Seq<u8>, c: Seq<u8>)
    ensures
        !(bytes_before(a, b) && bytes_before(b, a)),
        bytes_before(a, c) ==> bytes_before(a, b) || bytes_before(b, c),
    decreases a.len() + b.len(),
{
    if a.len() > 0 && b.len() > 0 {
        bytes_are_ordered(a.skip(1), b.skip(1), if c.len() > 0 { c.skip(1) } else { c });
    }
}

/// Texts in the order of their encoded bytes.
pub open spec fn text_before(a: Seq<char>, b: Seq<char>) -> bool {
    bytes_before(encode_utf8(a), encode_utf8(b))
}

/// Whether `a` comes strictly before `b`.
pub fn is_before(a: &str, b: &str) -> (r: bool)
    ensures
        r == text_before(a@, b@),
{
    let x = a.as_bytes();
    let y = b.as_bytes();
    let mut i: usize = 0;
    assert(x@.skip(0) =~= x@);
    assert(y@.skip(0) =~= y@);
    while i < x.len() && i < y.len()
        invariant
            x@ == encode_utf8(a@),
            y@ == encode_utf8(b@),
            i <= x@.len(),
            i <= y@.len(),
            bytes_before(x@, y@) == bytes_before(x@.skip(i as int), y@.skip(i as int)),
        decreases x@.len() - i,
    {
        if x[i] != y[i] {
            return x[i] < y[i];
        }
        assert(x@.skip(i as int).skip(1) =~= x@.skip(i + 1));
        assert(y@.skip(i as int).skip(1) =~= y@.skip(i + 1));
        i += 1;
    }
    i < y.len()
}

/// A text in double quotes, with a backslash before each quote and backslash in it.
pub open spec fn quoted(s: Seq<char>) -> Seq<char> {
    seq!['"'] + escaped(s) + seq!['"']
}

/// A text with a backslash before each quote and backslash in it.
pub open spec fn escaped(s: Seq<char>) -> Seq<char>
    decreases s.len(),
{
    if s.len() == 0 {
        Seq::empty()
    } else {
        let c = s.last();
        if c == '"' || c == '\\' {
            escaped(s.drop_last()).push('\\').push(c)
        } else {
            escaped(s.drop_last()).push(c)
        }
    }
}

/// Add a text in double quotes.
pub fn push_quoted(out: &mut String, t: &str)
    ensures
        final(out)@ == old(out)@ + quoted(t@),
{
    let ghost start = out@;
    out.push('"');
    let n: usize = t.unicode_len();
    let mut i: usize = 0;
    assert(t@.take(0) =~= Seq::<char>::empty());
    assert(out@ =~= start + seq!['"'] + escaped(t@.take(0)));
    while i < n
        invariant
            n == t@.len(),
            i <= n,
            out@ == start + seq!['"'] + escaped(t@.take(i as int)),
        decreases n - i,
    {
        assert(t@.take(i + 1).drop_last() =~= t@.take(i as int));
        let c: char = t.get_char(i);
        if c == '"' || c == '\\' {
            out.push('\\');
        }
        out.push(c);
        i += 1;
        assert(out@ =~= start + seq!['"'] + escaped(t@.take(i as int)));
    }
    assert(t@.take(i as int) =~= t@);
    out.push('"');
    assert(out@ =~= start + quoted(t@));
}

/// The characters of a text.
pub fn chars_of(t: &str) -> (v: Vec<char>)
    ensures
        v@ == t@,
{
    let mut v: Vec<char> = Vec::new();
    for c in it: t.chars()
        invariant
            it.seq() == t@,
            v@ == t@.take(it.index()),
    {
        v.push(c);
        assert(v@ =~= t@.take(it.index() + 1));
    }
    assert(v@ =~= t@);
    v
}

/// The text of some characters.
pub fn text_of(v: &[char]) -> (s: String)
    ensures
        s@ == v@,
{
    let mut s = String::new();
    let mut i: usize = 0;
    while i < v.len()
        invariant
            i <= v@.len(),
            s@ == v@.take(i as int),
        decreases v@.len() - i,
    {
        s.push(v[i]);
        i += 1;
        assert(s@ =~= v@.take(i as int));
    }
    assert(s@ =~= v@);
    s
}

/// Whether a text starts with another.
pub open spec fn starts(s: Seq<char>, head: Seq<char>) -> bool {
    head.len() <= s.len() && s.take(head.len() as int) == head
}

/// Whether the characters start with a text.
pub fn starts_with(v: &[char], head: &str) -> (r: bool)
    ensures
        r == starts(v@, head@),
{
    let h = chars_of(head);
    if h.len() > v.len() {
        return false;
    }
    let mut i: usize = 0;
    while i < h.len()
        invariant
            h@ == head@,
            h@.len() <= v@.len(),
            i <= h@.len(),
            forall|k: int| 0 <= k < i ==> v@[k] == h@[k],
        decreases h@.len() - i,
    {
        if v[i] != h[i] {
            assert(v@.take(h@.len() as int)[i as int] != h@[i as int]);
            return false;
        }
        i += 1;
    }
    assert(v@.take(h@.len() as int) =~= h@);
    true
}

/// White space, as Unicode has it.
pub open spec fn is_white(c: char) -> bool {
    let n = c as u32;
    0x9 <= n <= 0xD || n == 0x20 || n == 0x85 || n == 0xA0 || n == 0x1680 || 0x2000 <= n <= 0x200A || n
        == 0x2028 || n == 0x2029 || n == 0x202F || n == 0x205F || n == 0x3000
}

/// Whether a character is white space.
pub fn white(c: char) -> (r: bool)
    ensures
        r == is_white(c),
{
    let n: u32 = c as u32;
    (n >= 0x9 && n <= 0xD) || n == 0x20 || n == 0x85 || n == 0xA0 || n == 0x1680 || (n >= 0x2000
        && n <= 0x200A) || n == 0x2028 || n == 0x2029 || n == 0x202F || n == 0x205F || n == 0x3000
}

/// A text without the white space before it.
pub open spec fn unindented(s: Seq<char>) -> Seq<char>
    decreases s.len(),
{
    if s.len() > 0 && is_white(s[0]) {
        unindented(s.skip(1))
    } else {
        s
    }
}

/// Where the text starts behind the white space before it.
pub fn skip_white(v: &[char]) -> (i: usize)
    ensures
        i <= v@.len(),
        v@.skip(i as int) == unindented(v@),
{
    let mut i: usize = 0;
    assert(v@.skip(0) =~= v@);
    while i < v.len() && white(v[i])
        invariant
            i <= v@.len(),
            unindented(v@.skip(i as int)) == unindented(v@),
        decreases v@.len() - i,
    {
        assert(v@.skip(i as int).skip(1) =~= v@.skip(i + 1));
        i += 1;
    }
    i
}

/// How many characters come before the first white space.
pub open spec fn word_len(s: Seq<char>) -> int
    decreases s.len(),
{
    if s.len() == 0 || is_white(s[0]) {
        0
    } else {
        1 + word_len(s.skip(1))
    }
}

/// A word is no longer than its text.
pub proof fn word_fits(s: Seq<char>)
    ensures
        0 <= word_len(s) <= s.len(),
        s.len() > 0 && !is_white(s[0]) ==> word_len(s) > 0,
    decreases s.len(),
{
    if s.len() > 0 && !is_white(s[0]) {
        word_fits(s.skip(1));
    }
}

/// The words of a text: its longest runs without white space.
pub open spec fn words(s: Seq<char>) -> Seq<Seq<char>>
    decreases s.len(),
    via words_shrink
{
    if s.len() == 0 {
        Seq::empty()
    } else if is_white(s[0]) {
        words(s.skip(1))
    } else {
        seq![s.take(word_len(s))] + words(s.skip(word_len(s)))
    }
}

#[via_fn]
proof fn words_shrink(s: Seq<char>) {
    word_fits(s);
}

/// Where the word at the front of the characters ends.
pub fn word_end(v: &[char]) -> (n: usize)
    ensures
        n == word_len(v@),
        n <= v@.len(),
{
    let mut n: usize = 0;
    assert(v@.skip(0) =~= v@);
    while n < v.len() && !white(v[n])
        invariant
            n <= v@.len(),
            word_len(v@) == n + word_len(v@.skip(n as int)),
        decreases v@.len() - n,
    {
        assert(v@.skip(n as int).skip(1) =~= v@.skip(n + 1));
        n += 1;
    }
    n
}

/// A run without white space at the front of a text, with white space or nothing behind it, is the first
/// word.
pub proof fn first_word(a: Seq<char>, rest: Seq<char>)
    requires
        a.len() > 0,
        forall|k: int| 0 <= k < a.len() ==> !is_white(#[trigger] a[k]),
        rest.len() == 0 || is_white(rest[0]),
    ensures
        words(a + rest) == seq![a] + words(rest),
{
    word_ends_with(a, rest);
    assert((a + rest).take(a.len() as int) =~= a);
    assert((a + rest).skip(a.len() as int) =~= rest);
    assert((a + rest)[0] == a[0]);
}

proof fn word_ends_with(a: Seq<char>, rest: Seq<char>)
    requires
        forall|k: int| 0 <= k < a.len() ==> !is_white(#[trigger] a[k]),
        rest.len() == 0 || is_white(rest[0]),
    ensures
        word_len(a + rest) == a.len(),
    decreases a.len(),
{
    if a.len() > 0 {
        assert((a + rest).skip(1) =~= a.skip(1) + rest);
        assert((a + rest)[0] == a[0]);
        assert forall|k: int| 0 <= k < a.skip(1).len() implies !is_white(#[trigger] a.skip(1)[k]) by {
            assert(!is_white(a[k + 1]));
        }
        word_ends_with(a.skip(1), rest);
    } else {
        assert(a + rest =~= rest);
    }
}

/// The value of a digit in either case, below sixteen.
pub open spec fn digit_value(c: char) -> Option<int> {
    if '0' <= c <= '9' {
        Some(c as int - '0' as int)
    } else if 'a' <= c <= 'f' {
        Some(c as int - 'a' as int + 10)
    } else if 'A' <= c <= 'F' {
        Some(c as int - 'A' as int + 10)
    } else {
        None
    }
}

/// The value of some digits to the base `radix`; `None` where one is no digit.
pub open spec fn digits_value(s: Seq<char>, radix: int) -> Option<int>
    decreases s.len(),
{
    if s.len() == 0 {
        Some(0)
    } else {
        match (digits_value(s.drop_last(), radix), digit_value(s.last())) {
            (Some(n), Some(d)) => if d < radix {
                Some(n * radix + d)
            } else {
                None
            },
            _ => None,
        }
    }
}

/// A text without the plus sign before it.
pub open spec fn unsigned(s: Seq<char>) -> Seq<char> {
    if s.len() > 0 && s[0] == '+' {
        s.skip(1)
    } else {
        s
    }
}

/// The number a text holds: digits, with or without a plus sign before them, of a value up to `max`.
pub open spec fn number(s: Seq<char>, radix: int, max: int) -> Option<int> {
    let digits = unsigned(s);
    match digits_value(digits, radix) {
        Some(n) => if digits.len() > 0 && n <= max {
            Some(n)
        } else {
            None
        },
        None => None,
    }
}

proof fn digits_outgrow(s: Seq<char>, i: int, radix: int, max: int)
    requires
        0 <= i <= s.len(),
        radix >= 1,
        max >= 0,
        digits_value(s.take(i), radix) matches Some(n) ==> n > max,
    ensures
        digits_value(s, radix) matches Some(n) ==> n > max,
    decreases s.len() - i,
{
    if i == s.len() {
        assert(s.take(i) =~= s);
    } else {
        let next = s.take(i + 1);
        assert(next.drop_last() =~= s.take(i));
        if let Some(n) = digits_value(s.take(i), radix) {
            assert(n * radix >= n) by (nonlinear_arith)
                requires
                    n > max,
                    max >= 0,
                    radix >= 1,
            ;
        }
        digits_outgrow(s, i + 1, radix, max);
    }
}

fn read_digit(c: char) -> (r: Option<u64>)
    ensures
        match r {
            Some(d) => digit_value(c) == Some(d as int) && d < 16,
            None => digit_value(c) is None,
        },
{
    let n: u32 = c as u32;
    if n >= 0x30 && n <= 0x39 {
        Some((n - 0x30) as u64)
    } else if n >= 0x61 && n <= 0x66 {
        Some((n - 0x61 + 10) as u64)
    } else if n >= 0x41 && n <= 0x46 {
        Some((n - 0x41 + 10) as u64)
    } else {
        None
    }
}

/// The number that the characters hold, to the base `radix` and up to `max`.
pub fn read_number(v: &[char], radix: u64, max: u64) -> (r: Option<u64>)
    requires
        1 <= radix <= 16,
    ensures
        match r {
            Some(n) => number(v@, radix as int, max as int) == Some(n as int),
            None => number(v@, radix as int, max as int) is None,
        },
{
    let from: usize = if v.len() > 0 && v[0] == '+' {
        1
    } else {
        0
    };
    let ghost digits = unsigned(v@);
    assert(digits =~= v@.skip(from as int));
    if from == v.len() {
        return None;
    }
    let mut n: u64 = 0;
    let mut i: usize = from;
    assert(digits.take(0) =~= Seq::<char>::empty());
    while i < v.len()
        invariant
            1 <= radix <= 16,
            from <= i <= v@.len(),
            from < v@.len(),
            digits == unsigned(v@),
            digits == v@.skip(from as int),
            n <= max,
            digits_value(digits.take(i - from), radix as int) == Some(n as int),
        decreases v@.len() - i,
    {
        proof {
            let next = digits.take(i - from + 1);
            assert(next.drop_last() =~= digits.take(i - from));
            assert(next.last() == v@[i as int]);
            assert(n * radix <= 0xFFFF_FFFF_FFFF_FFFF * 16) by (nonlinear_arith)
                requires
                    0 <= n <= 0xFFFF_FFFF_FFFF_FFFF,
                    1 <= radix <= 16,
            ;
        }
        match read_digit(v[i]) {
            Some(d) if d < radix => {
                let wide: u128 = n as u128 * radix as u128 + d as u128;
                if wide > max as u128 {
                    proof {
                        digits_outgrow(digits, i - from + 1, radix as int, max as int);
                    }
                    return None;
                }
                n = wide as u64;
            },
            _ => {
                proof {
                    digits_outgrow(digits, i - from + 1, radix as int, max as int);
                }
                return None;
            },
        }
        i += 1;
    }
    assert(digits.take(i - from) =~= digits);
    Some(n)
}

/// A number written in decimal is read back.
pub proof fn dec_reads_back(n: nat)
    ensures
        digits_value(dec(n), 10) == Some(n as int),
        dec(n).len() > 0,
        forall|k: int| 0 <= k < dec(n).len() ==> '0' <= #[trigger] dec(n)[k] <= '9',
    decreases n,
{
    let last = digit_upper((n % 10) as int);
    if n < 10 {
        assert(dec(n).drop_last() =~= Seq::<char>::empty());
        assert(digits_value(Seq::<char>::empty(), 10) == Some(0int));
    } else {
        dec_reads_back(n / 10);
        assert(dec(n).drop_last() =~= dec(n / 10));
    }
}

/// The `width` digits of a number below sixteen to that power are read back.
pub proof fn hex_fixed_reads_back(n: nat, width: nat)
    requires
        n < vstd::arithmetic::power::pow(16, width),
    ensures
        digits_value(hex_fixed(n, width), 16) == Some(n as int),
        hex_fixed(n, width).len() == width,
        forall|k: int|
            0 <= k < width ==> '0' <= #[trigger] hex_fixed(n, width)[k] <= '9' || 'A' <= hex_fixed(
                n,
                width,
            )[k] <= 'F',
    decreases width,
{
    reveal(vstd::arithmetic::power::pow);
    if width > 0 {
        let w = (width - 1) as nat;
        assert(n / 16 < vstd::arithmetic::power::pow(16, w)) by (nonlinear_arith)
            requires
                n < 16 * vstd::arithmetic::power::pow(16, w),
        ;
        hex_fixed_reads_back(n / 16, w);
        assert(hex_fixed(n, width).drop_last() =~= hex_fixed(n / 16, w));
    }
}

}
