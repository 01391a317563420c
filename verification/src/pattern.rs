//! Byte signatures and their text form: hexadecimal bytes and `??` wildcards, separated by blanks or
//! commas.

use crate::text;
use crate::text::push_hex_fixed;
use vstd::prelude::*;
use vstd::string::*;
use vstd::utf8::*;

verus! {

/// The instruction set of an image.
#[derive(Clone, Copy, PartialEq, Eq, Debug, Structural)]
pub enum Arch {
    X64,
    X86,
}

/// A byte pattern; `mask` is `true` where the byte is fixed and `false` where anything matches.
#[derive(Clone, Debug)]
pub struct Signature {
    pub bytes: Vec<u8>,
    pub mask: Vec<bool>,
}

/// Blanks and commas separate the bytes of a signature.
pub open spec fn is_separator(b: u8) -> bool {
    b == 0x20 || b == 0x2C || (0x09 <= b <= 0x0D)
}

/// The value of a hexadecimal digit.
pub open spec fn hex_value(b: u8) -> Option<int> {
    if 0x30 <= b <= 0x39 {
        Some(b - 0x30)
    } else if 0x41 <= b <= 0x46 {
        Some(b - 0x37)
    } else if 0x61 <= b <= 0x66 {
        Some(b - 0x57)
    } else {
        None
    }
}

/// A token without its optional `0x`.
pub open spec fn unprefixed(t: Seq<u8>) -> Seq<u8> {
    if t.len() >= 2 && t[0] == 0x30 && (t[1] == 0x78 || t[1] == 0x58) {
        t.skip(2)
    } else {
        t
    }
}

/// What one token stands for: a wildcard (`Some(None)`), a byte, or nothing valid (`None`).
pub open spec fn token(t: Seq<u8>) -> Option<Option<u8>> {
    let d = unprefixed(t);
    if t == seq![0x3Fu8] || t == seq![0x3Fu8, 0x3Fu8] {
        Some(None)
    } else if d.len() == 1 && hex_value(d[0]) is Some {
        Some(Some(hex_value(d[0])->0 as u8))
    } else if d.len() == 2 && hex_value(d[0]) is Some && hex_value(d[1]) is Some {
        Some(Some((16 * hex_value(d[0])->0 + hex_value(d[1])->0) as u8))
    } else {
        None
    }
}

/// The end of the token that starts at `i`.
pub open spec fn token_end(b: Seq<u8>, i: int) -> int
    decreases b.len() - i,
{
    if i >= b.len() || is_separator(b[i]) {
        i
    } else {
        token_end(b, i + 1)
    }
}

/// The tokens of the text from `i` on, or `None` if one of them is invalid.
pub open spec fn tokens_from(b: Seq<u8>, i: int) -> Option<Seq<Option<u8>>>
    decreases b.len() - i,
{
    if i >= b.len() {
        Some(Seq::empty())
    } else if is_separator(b[i]) {
        tokens_from(b, i + 1)
    } else if !(i < token_end(b, i) <= b.len()) {
        None
    } else {
        match (token(b.subrange(i, token_end(b, i))), tokens_from(b, token_end(b, i))) {
            (Some(t), Some(rest)) => Some(seq![t] + rest),
            _ => None,
        }
    }
}

/// The bytes of a token sequence; a wildcard's byte is zero.
pub open spec fn bytes_of(tokens: Seq<Option<u8>>) -> Seq<u8> {
    tokens.map_values(
        |t: Option<u8>|
            match t {
                Some(v) => v,
                None => 0u8,
            },
    )
}

/// Where a token sequence is fixed.
pub open spec fn mask_of(tokens: Seq<Option<u8>>) -> Seq<bool> {
    tokens.map_values(|t: Option<u8>| t is Some)
}

/// The tokens that a text describes; `None` where it describes no signature.
pub open spec fn parsed(text: Seq<char>) -> Option<Seq<Option<u8>>> {
    match tokens_from(encode_utf8(text), 0) {
        Some(t) => if t.len() > 0 {
            Some(t)
        } else {
            None
        },
        None => None,
    }
}

/// The text of one position.
pub open spec fn piece(b: u8, fixed: bool) -> Seq<char> {
    if fixed {
        text::hex_fixed(b as nat, 2)
    } else {
        seq!['?', '?']
    }
}

/// The text of a pattern: two characters per byte, a blank between neighbours.
pub open spec fn aob_text(bytes: Seq<u8>, mask: Seq<bool>) -> Seq<char>
    decreases bytes.len(),
{
    if bytes.len() == 0 {
        Seq::empty()
    } else if bytes.len() == 1 {
        piece(bytes[0], mask[0])
    } else {
        aob_text(bytes.drop_last(), mask.drop_last()).push(' ') + piece(
            bytes.last(),
            mask[bytes.len() - 1],
        )
    }
}

fn digit(b: u8) -> (r: Option<u8>)
    ensures
        match r {
            Some(v) => hex_value(b) == Some(v as int) && v < 16,
            None => hex_value(b) is None,
        },
{
    if 0x30 <= b && b <= 0x39 {
        Some(b - 0x30)
    } else if 0x41 <= b && b <= 0x46 {
        Some(b - 0x37)
    } else if 0x61 <= b && b <= 0x66 {
        Some(b - 0x57)
    } else {
        None
    }
}

/// Read the token `b[i..e]`.
fn read_token(b: &[u8], i: usize, e: usize) -> (r: Option<Option<u8>>)
    requires
        i < e <= b@.len(),
    ensures
        r == token(b@.subrange(i as int, e as int)),
{
    let ghost t = b@.subrange(i as int, e as int);
    if b[i] == 0x3F && (e == i + 1 || (e == i + 2 && b[i + 1] == 0x3F)) {
        assert(t =~= seq![0x3Fu8] || t =~= seq![0x3Fu8, 0x3Fu8]);
        return Some(None);
    }
    assert(t[0] == b@[i as int]);
    assert(t != seq![0x3Fu8] && t != seq![0x3Fu8, 0x3Fu8]) by {
        if t == seq![0x3Fu8] {
            assert(t.len() == 1);
        }
        if t == seq![0x3Fu8, 0x3Fu8] {
            assert(t.len() == 2 && t[1] == 0x3F && t[1] == b@[i + 1]);
        }
    }
    let prefixed: bool = e - i >= 2 && b[i] == 0x30 && (b[i + 1] == 0x78 || b[i + 1] == 0x58);
    let s: usize = if prefixed {
        i + 2
    } else {
        i
    };
    assert(unprefixed(t) =~= b@.subrange(s as int, e as int)) by {
        if e - i >= 2 {
            assert(t[1] == b@[i + 1]);
        }
    }
    if e - s == 1 {
        match digit(b[s]) {
            Some(v) => Some(Some(v)),
            None => None,
        }
    } else if e - s == 2 {
        match (digit(b[s]), digit(b[s + 1])) {
            (Some(h), Some(l)) => Some(Some(16 * h + l)),
            _ => None,
        }
    } else {
        None
    }
}

/// The tokens read so far and the rest, where it could be read.
pub open spec fn after(done: Seq<Option<u8>>, rest: Option<Seq<Option<u8>>>) -> Option<
    Seq<Option<u8>>,
> {
    match rest {
        Some(r) => Some(done + r),
        None => None,
    }
}

/// Read a signature from its text. A text without bytes, or with a token that is neither a
/// hexadecimal byte nor a wildcard, describes none.
pub fn try_signature_from_aob(aob: &str) -> (r: Result<Signature, String>)
    ensures
        match r {
            Ok(sig) => parsed(aob@) is Some && sig.bytes@ == bytes_of(parsed(aob@)->0)
                && sig.mask@ == mask_of(parsed(aob@)->0),
            Err(reason) => parsed(aob@) is None && reason@ == (if tokens_from(
                encode_utf8(aob@),
                0,
            ) is None {
                "not a hexadecimal byte or a wildcard"@
            } else {
                "signature is empty"@
            }),
        },
{
    let b = aob.as_bytes();
    let mut bytes: Vec<u8> = Vec::new();
    let mut mask: Vec<bool> = Vec::new();
    let mut i: usize = 0;
    let ghost mut done: Seq<Option<u8>> = Seq::empty();
    let whole: usize = b.len();
    proof {
        match tokens_from(b@, 0) {
            Some(t) => assert(Seq::<Option<u8>>::empty() + t =~= t),
            None => {},
        }
        assert(bytes@ =~= bytes_of(done));
        assert(mask@ =~= mask_of(done));
    }
    while i < b.len()
        invariant
            whole == b@.len(),
            i <= b@.len(),
            b@ == encode_utf8(aob@),
            bytes@ == bytes_of(done),
            mask@ == mask_of(done),
            tokens_from(b@, 0) == after(done, tokens_from(b@, i as int)),
        decreases b@.len() - i,
    {
        if b[i] == 0x20 || b[i] == 0x2C || (0x09 <= b[i] && b[i] <= 0x0D) {
            i += 1;
            continue ;
        }
        let mut e: usize = i;
        while e < b.len() && !(b[e] == 0x20 || b[e] == 0x2C || (0x09 <= b[e] && b[e] <= 0x0D))
            invariant
                whole == b@.len(),
                i <= e <= b@.len(),
                token_end(b@, i as int) == token_end(b@, e as int),
            decreases b@.len() - e,
        {
            e += 1;
        }
        assert(!is_separator(b@[i as int]));
        proof {
            token_end_grows(b@, i + 1);
        }
        match read_token(b, i, e) {
            Some(t) => {
                proof {
                    let next = done.push(t);
                    match tokens_from(b@, e as int) {
                        Some(rest) => assert(done + (seq![t] + rest) =~= next + rest),
                        None => {},
                    }
                    done = next;
                }
                match t {
                    Some(v) => {
                        bytes.push(v);
                        mask.push(true);
                    },
                    None => {
                        bytes.push(0);
                        mask.push(false);
                    },
                }
                assert(bytes@ =~= bytes_of(done));
                assert(mask@ =~= mask_of(done));
            },
            None => {
                return Err("not a hexadecimal byte or a wildcard".to_string());
            },
        }
        i = e;
    }
    assert(done + Seq::<Option<u8>>::empty() =~= done);
    if bytes.len() == 0 {
        return Err("signature is empty".to_string());
    }
    Ok(Signature { bytes, mask })
}

proof fn token_end_grows(b: Seq<u8>, i: int)
    ensures
        token_end(b, i) >= i,
    decreases b.len() - i,
{
    if !(i >= b.len() || is_separator(b[i])) {
        token_end_grows(b, i + 1);
    }
}

impl Signature {
    /// As many mask entries as bytes.
    pub open spec fn wf(&self) -> bool {
        self.bytes@.len() == self.mask@.len()
    }

    /// The text of the signature.
    pub fn to_aob(&self) -> (s: String)
        requires
            self.wf(),
        ensures
            s@ == aob_text(self.bytes@, self.mask@),
    {
        let mut s = String::new();
        let mut i: usize = 0;
        while i < self.bytes.len()
            invariant
                i <= self.bytes@.len(),
                self.wf(),
                s@ == aob_text(self.bytes@.take(i as int), self.mask@.take(i as int)),
            decreases self.bytes@.len() - i,
        {
            if i > 0 {
                s.push(' ');
            }
            let ghost before = s@;
            if self.mask[i] {
                push_hex_fixed(&mut s, self.bytes[i] as u64, 2);
            } else {
                s.push('?');
                s.push('?');
                assert(s@ =~= before + seq!['?', '?']);
            }
            i += 1;
            proof {
                let b = self.bytes@.take(i as int);
                let m = self.mask@.take(i as int);
                assert(b.drop_last() =~= self.bytes@.take(i - 1));
                assert(m.drop_last() =~= self.mask@.take(i - 1));
                assert(s@ =~= aob_text(b, m));
            }
        }
        assert(self.bytes@.take(i as int) =~= self.bytes@);
        assert(self.mask@.take(i as int) =~= self.mask@);
        s
    }
}

/// The tokens of a pattern.
pub open spec fn tokens_of(bytes: Seq<u8>, mask: Seq<bool>) -> Seq<Option<u8>> {
    Seq::new(
        bytes.len(),
        |i: int|
            if mask[i] {
                Some(bytes[i])
            } else {
                None
            },
    )
}

proof fn hex_fixed_two(b: u8)
    ensures
        text::hex_fixed(b as nat, 2) == seq![text::digit_upper((b / 16) as int), text::digit_upper((b % 16) as int)],
{
    reveal_with_fuel(text::hex_fixed, 3);
    assert(text::hex_fixed(b as nat, 2) =~= seq![text::digit_upper((b / 16) as int), text::digit_upper((b % 16) as int)]);
}

proof fn aob_text_shape(bytes: Seq<u8>, mask: Seq<bool>)
    requires
        bytes.len() == mask.len(),
        bytes.len() > 0,
    ensures
        aob_text(bytes, mask).len() == 3 * bytes.len() - 1,
        forall|k: int|
            0 <= k < bytes.len() ==> #[trigger] aob_text(bytes, mask)[3 * k] == piece(
                bytes[k],
                mask[k],
            )[0],
        forall|k: int|
            0 <= k < bytes.len() ==> #[trigger] aob_text(bytes, mask)[3 * k + 1] == piece(
                bytes[k],
                mask[k],
            )[1],
        forall|k: int|
            0 <= k < bytes.len() - 1 ==> #[trigger] aob_text(bytes, mask)[3 * k + 2] == ' ',
    decreases bytes.len(),
{
    let n = bytes.len() as int;
    hex_fixed_two(bytes[n - 1]);
    hex_fixed_two(bytes[0]);
    if n > 1 {
        aob_text_shape(bytes.drop_last(), mask.drop_last());
        let shorter = aob_text(bytes.drop_last(), mask.drop_last());
        let whole = aob_text(bytes, mask);
        assert(whole == shorter.push(' ') + piece(bytes[n - 1], mask[n - 1]));
        assert forall|k: int| 0 <= k < n implies #[trigger] whole[3 * k] == piece(
            bytes[k],
            mask[k],
        )[0] by {
            if k < n - 1 {
                assert(shorter[3 * k] == piece(bytes.drop_last()[k], mask.drop_last()[k])[0]);
            }
        }
        assert forall|k: int| 0 <= k < n implies #[trigger] whole[3 * k + 1] == piece(
            bytes[k],
            mask[k],
        )[1] by {
            if k < n - 1 {
                assert(shorter[3 * k + 1] == piece(bytes.drop_last()[k], mask.drop_last()[k])[1]);
            }
        }
        assert forall|k: int| 0 <= k < n - 1 implies #[trigger] whole[3 * k + 2] == ' ' by {
            if k < n - 2 {
                assert(shorter[3 * k + 2] == ' ');
            }
        }
    }
}

proof fn tokens_read_back(bytes: Seq<u8>, mask: Seq<bool>, b: Seq<u8>, k: int)
    requires
        bytes.len() == mask.len(),
        0 <= k < bytes.len(),
        b.len() == 3 * bytes.len() - 1,
        forall|j: int|
            0 <= j < bytes.len() ==> #[trigger] b[3 * j] == piece(bytes[j], mask[j])[0] as u8,
        forall|j: int|
            0 <= j < bytes.len() ==> #[trigger] b[3 * j + 1] == piece(bytes[j], mask[j])[1] as u8,
        forall|j: int| 0 <= j < bytes.len() - 1 ==> #[trigger] b[3 * j + 2] == 0x20,
    ensures
        tokens_from(b, 3 * k) == Some(tokens_of(bytes, mask).skip(k)),
    decreases bytes.len() - k,
{
    let n = bytes.len() as int;
    hex_fixed_two(bytes[k]);
    let p = piece(bytes[k], mask[k]);
    let c0 = b[3 * k];
    let c1 = b[3 * k + 1];
    assert(c0 == p[0] as u8 && c1 == p[1] as u8);
    assert(!is_separator(c0) && !is_separator(c1));
    if k < n - 1 {
        assert(b[3 * k + 2] == 0x20);
    }
    reveal_with_fuel(token_end, 4);
    assert(token_end(b, 3 * k) == 3 * k + 2);
    let t = b.subrange(3 * k, 3 * k + 2);
    assert(t.len() == 2 && t[0] == c0 && t[1] == c1);
    assert(token(t) == Some(tokens_of(bytes, mask)[k])) by {
        if mask[k] {
            assert(t[0] != 0x3F);
            assert(t != seq![0x3Fu8, 0x3Fu8]) by {
                if t == seq![0x3Fu8, 0x3Fu8] {
                    assert(t[0] == 0x3F);
                }
            }
            assert(t != seq![0x3Fu8]) by {
                if t == seq![0x3Fu8] {
                    assert(t.len() == 1);
                }
            }
            assert(t[1] != 0x78 && t[1] != 0x58);
            assert(unprefixed(t) == t);
            assert(hex_value(c0) == Some((bytes[k] / 16) as int));
            assert(hex_value(c1) == Some((bytes[k] % 16) as int));
        } else {
            assert(t =~= seq![0x3Fu8, 0x3Fu8]);
        }
    }
    let rest = tokens_of(bytes, mask).skip(k + 1);
    assert(tokens_from(b, 3 * k + 2) == Some(rest)) by {
        if k < n - 1 {
            tokens_read_back(bytes, mask, b, k + 1);
            assert(tokens_from(b, 3 * k + 2) == tokens_from(b, 3 * (k + 1)));
        } else {
            assert(rest =~= Seq::<Option<u8>>::empty());
        }
    }
    assert(seq![tokens_of(bytes, mask)[k]] + rest =~= tokens_of(bytes, mask).skip(k));
}

/// The text of a signature reads back as that signature: every fixed byte, every wildcard, in order.
pub proof fn aob_round_trip(bytes: Seq<u8>, mask: Seq<bool>)
    requires
        bytes.len() == mask.len(),
        bytes.len() > 0,
    ensures
        parsed(aob_text(bytes, mask)) == Some(tokens_of(bytes, mask)),
{
    let text = aob_text(bytes, mask);
    aob_text_shape(bytes, mask);
    assert forall|i: int| 0 <= i < text.len() implies '\0' <= #[trigger] text[i] <= '\u{7f}' by {
        let k = i / 3;
        assert(0 <= k < bytes.len());
        hex_fixed_two(bytes[k]);
        assert(text[3 * k] == piece(bytes[k], mask[k])[0]);
        assert(text[3 * k + 1] == piece(bytes[k], mask[k])[1]);
        if k < bytes.len() - 1 {
            assert(text[3 * k + 2] == ' ');
        }
    }
    is_ascii_chars_encode_utf8(text);
    let b = encode_utf8(text);
    assert(b =~= Seq::new(text.len(), |i: int| text[i] as u8));
    assert forall|j: int| 0 <= j < bytes.len() implies #[trigger] b[3 * j] == piece(
        bytes[j],
        mask[j],
    )[0] as u8 by {
        assert(text[3 * j] == piece(bytes[j], mask[j])[0]);
    }
    assert forall|j: int| 0 <= j < bytes.len() implies #[trigger] b[3 * j + 1] == piece(
        bytes[j],
        mask[j],
    )[1] as u8 by {
        assert(text[3 * j + 1] == piece(bytes[j], mask[j])[1]);
    }
    assert forall|j: int| 0 <= j < bytes.len() - 1 implies #[trigger] b[3 * j + 2] == 0x20 by {
        assert(text[3 * j + 2] == ' ');
    }
    tokens_read_back(bytes, mask, b, 0);
    assert(tokens_of(bytes, mask).skip(0) =~= tokens_of(bytes, mask));
}

}
