//! A window of code, instruction by instruction, with the bytes a signature may fix.

use crate::fileimage::RelocKind;
use crate::le::tail_of;
use crate::sigmaker::decode;
use crate::sigmaker::decode::bitness;
use crate::sigmaker::types::ImageInput;
use crate::x86;
use crate::x86::Constants;
use vstd::prelude::*;

verus! {

/// One instruction: its length, which of its bytes a signature may fix, which are operand bytes, and
/// the first relocation in it that is not supported.
pub struct InstrMask {
    pub len: usize,
    pub fixed: Vec<bool>,
    pub operand: Vec<bool>,
    pub unsupported: Option<(usize, u8)>,
}

/// An [`InstrMask`] by its content.
#[verifier::ext_equal]
pub struct InstrMaskV {
    pub len: usize,
    pub fixed: Seq<bool>,
    pub operand: Seq<bool>,
    pub unsupported: Option<(usize, u8)>,
}

impl DeepView for InstrMask {
    type V = InstrMaskV;

    open spec fn deep_view(&self) -> InstrMaskV {
        InstrMaskV {
            len: self.len,
            fixed: self.fixed@,
            operand: self.operand@,
            unsupported: self.unsupported,
        }
    }
}

/// Whether byte `k` of the encoding belongs to a displacement or an immediate.
pub open spec fn is_operand(c: Constants, k: int) -> bool {
    ||| c.displacement_at <= k < c.displacement_at + c.displacement_len
    ||| c.immediate_at <= k < c.immediate_at + c.immediate_len
    ||| c.second_at <= k < c.second_at + c.second_len
}

/// The first relocation from byte `k` on that is not supported, in an instruction of `len` bytes at
/// `rva`.
pub open spec fn unsupported_from(img: &ImageInput, rva: int, len: int, k: int) -> Option<(usize, u8)>
    decreases len - k,
{
    if k >= len {
        None
    } else {
        match img.patch_at((rva + k) as usize) {
            Some(RelocKind::Unsupported(t)) => Some(((rva + k) as usize, t)),
            _ => unsupported_from(img, rva, len, k + 1),
        }
    }
}

/// The mask of an instruction at `rva`: operand bytes are volatile, and a relocated byte is patched at
/// load, so neither stays fixed.
pub open spec fn mask_of(img: &ImageInput, rva: int, len: int, c: Constants) -> InstrMaskV {
    InstrMaskV {
        len: len as usize,
        fixed: Seq::new(
            len as nat,
            |k: int| !is_operand(c, k) && img.patch_at((rva + k) as usize) is None,
        ),
        operand: Seq::new(len as nat, |k: int| is_operand(c, k)),
        unsupported: unsupported_from(img, rva, len, 0),
    }
}

/// The masks of the next `left` instructions of `b`, which sits at `rva`.
pub open spec fn masks_from(img: &ImageInput, b: Seq<u8>, rva: int, pos: int, left: nat) -> Seq<
    InstrMaskV,
>
    decreases left,
{
    if left == 0 || !(0 <= pos < b.len()) {
        Seq::empty()
    } else {
        let bits = decode::mode(img.arch);
        let rest = b.skip(pos);
        let ip = (img.base + rva + pos) as u64;
        let h = x86::head_of(bits, rest, ip);
        if !decode::decodable(h, rest) {
            Seq::empty()
        } else {
            seq![mask_of(img, rva + pos, h.len as int, x86::constants_of(bits, rest, ip))]
                + masks_from(img, b, rva, pos + h.len, (left - 1) as nat)
        }
    }
}

/// How many instructions a window of at most `max_len` bytes is decoded to.
pub open spec fn instruction_limit(max_len: usize) -> nat {
    (max_len / 2 + 8) as nat
}

/// The masks of the window `b` at `rva`.
pub open spec fn masks_of(img: &ImageInput, b: Seq<u8>, rva: int, max_len: usize) -> Seq<InstrMaskV> {
    masks_from(img, b, rva, 0, instruction_limit(max_len))
}

/// Each mask covers its instruction, and the instructions lie within `total` bytes.
pub open spec fn masks_fit(masks: Seq<InstrMaskV>, total: int) -> bool {
    &&& forall|i: int|
        0 <= i < masks.len() ==> 0 < (#[trigger] masks[i]).len && masks[i].fixed.len()
            == masks[i].len && masks[i].operand.len() == masks[i].len
    &&& span(masks) <= total
}

/// How many bytes the instructions take.
pub open spec fn span(masks: Seq<InstrMaskV>) -> int
    decreases masks.len(),
{
    if masks.len() == 0 {
        0
    } else {
        span(masks.drop_last()) + masks.last().len
    }
}

fn covers(at: usize, len: usize, k: usize) -> (r: bool)
    ensures
        r == (at <= k < at + len),
{
    at <= k && k - at < len
}

fn mask_instruction(img: &ImageInput, rva: usize, len: usize, c: Constants) -> (m: InstrMask)
    requires
        rva + len <= usize::MAX,
    ensures
        m.deep_view() == mask_of(img, rva as int, len as int, c),
{
    let mut fixed: Vec<bool> = Vec::new();
    let mut operand: Vec<bool> = Vec::new();
    let mut unsupported: Option<(usize, u8)> = None;
    let ghost whole = mask_of(img, rva as int, len as int, c);
    let mut k: usize = 0;
    while k < len
        invariant
            rva + len <= usize::MAX,
            whole == mask_of(img, rva as int, len as int, c),
            k <= len,
            fixed@ == whole.fixed.take(k as int),
            operand@ == whole.operand.take(k as int),
            match unsupported {
                Some(u) => whole.unsupported == Some(u),
                None => whole.unsupported == unsupported_from(
                    img,
                    rva as int,
                    len as int,
                    k as int,
                ),
            },
        decreases len - k,
    {
        let o: bool = covers(c.displacement_at, c.displacement_len, k) || covers(
            c.immediate_at,
            c.immediate_len,
            k,
        ) || covers(c.second_at, c.second_len, k);
        let kind = img.reloc_at(rva + k);
        operand.push(o);
        fixed.push(!o && kind.is_none());
        if unsupported.is_none() {
            if let Some(RelocKind::Unsupported(t)) = kind {
                unsupported = Some((rva + k, t));
            }
        }
        k += 1;
        proof {
            assert(operand@ =~= whole.operand.take(k as int));
            assert(fixed@ =~= whole.fixed.take(k as int));
        }
    }
    assert(operand@ =~= whole.operand);
    assert(fixed@ =~= whole.fixed);
    InstrMask { len, fixed, operand, unsupported }
}

/// Decode a window and mask the operand and relocated bytes of each instruction.
pub fn decode_masked(img: &ImageInput, bytes: &[u8], rva: usize, max_len: usize) -> (out: Vec<
    InstrMask,
>)
    requires
        img.base + rva + bytes@.len() <= usize::MAX,
    ensures
        out.deep_view() == masks_of(img, bytes@, rva as int, max_len),
        masks_fit(out.deep_view(), bytes@.len() as int),
{
    let bits: u32 = bitness(img.arch);
    let mut out: Vec<InstrMask> = Vec::new();
    let mut pos: usize = 0;
    let mut left: usize = max_len / 2 + 8;
    let ghost all = masks_of(img, bytes@, rva as int, max_len);
    assert(out.deep_view() =~= Seq::<InstrMaskV>::empty());
    assert(out.deep_view() + all =~= all);
    while left > 0 && pos < bytes.len()
        invariant
            img.base + rva + bytes@.len() <= usize::MAX,
            bits == decode::mode(img.arch),
            x86::is_mode(bits),
            pos <= bytes@.len(),
            all == masks_of(img, bytes@, rva as int, max_len),
            all == out.deep_view() + masks_from(img, bytes@, rva as int, pos as int, left as nat),
            masks_fit(out.deep_view(), pos as int),
            span(out.deep_view()) == pos,
        decreases left,
    {
        let rest = tail_of(bytes, pos);
        let ip: u64 = (img.base + rva + pos) as u64;
        let h = x86::head(bits, rest, ip);
        if h.invalid || h.len == 0 || h.len > rest.len() {
            assert(out.deep_view() =~= all);
            return out;
        }
        let c = x86::constants(bits, rest, ip);
        let ghost before = out.deep_view();
        let ghost more = masks_from(img, bytes@, rva as int, pos + h.len, (left - 1) as nat);
        let m = mask_instruction(img, rva + pos, h.len, c);
        let ghost mv = m.deep_view();
        out.push(m);
        proof {
            let now = out.deep_view();
            assert(now =~= before.push(mv));
            assert(now.drop_last() =~= before);
            assert(now + more =~= before + (seq![mv] + more));
        }
        pos += h.len;
        left -= 1;
    }
    assert(out.deep_view() =~= all);
    out
}

/// Which bytes the instructions fix, one after the other.
pub open spec fn all_fixed(masks: Seq<InstrMaskV>) -> Seq<bool>
    decreases masks.len(),
{
    if masks.len() == 0 {
        Seq::empty()
    } else {
        all_fixed(masks.drop_last()) + masks.last().fixed
    }
}

/// Which bytes are operand bytes, one instruction after the other.
pub open spec fn all_operand(masks: Seq<InstrMaskV>) -> Seq<bool>
    decreases masks.len(),
{
    if masks.len() == 0 {
        Seq::empty()
    } else {
        all_operand(masks.drop_last()) + masks.last().operand
    }
}

/// The first `len` entries, and `fill` where there are fewer.
pub open spec fn fitted(s: Seq<bool>, len: int, fill: bool) -> Seq<bool> {
    Seq::new(
        len as nat,
        |k: int|
            if k < s.len() {
                s[k]
            } else {
                fill
            },
    )
}

/// Which of the first `len` bytes the window fixes.
pub open spec fn fixed_in(masks: Seq<InstrMaskV>, len: int) -> Seq<bool> {
    fitted(all_fixed(masks), len, true)
}

/// Which of the first `len` bytes of the window are operand bytes.
pub open spec fn operand_in(masks: Seq<InstrMaskV>, len: int) -> Seq<bool> {
    fitted(all_operand(masks), len, false)
}

/// The first relocation that is not supported among the first `len` bytes of a window at `rva`.
pub open spec fn unsupported_in(masks: Seq<InstrMaskV>, rva: int, len: int, i: int) -> Option<
    (usize, u8),
>
    decreases masks.len() - i,
{
    if !(0 <= i < masks.len()) {
        None
    } else {
        match masks[i].unsupported {
            Some((at, t)) => if at - rva < len {
                Some((at, t))
            } else {
                unsupported_in(masks, rva, len, i + 1)
            },
            None => unsupported_in(masks, rva, len, i + 1),
        }
    }
}

/// The bytes of the window that a signature of `len` bytes may fix, and its operand bytes.
pub fn lay_out(masks: &Vec<InstrMask>, len: usize) -> (r: (Vec<bool>, Vec<bool>))
    requires
        masks_fit(masks.deep_view(), span(masks.deep_view())),
    ensures
        r.0@ == fixed_in(masks.deep_view(), len as int),
        r.1@ == operand_in(masks.deep_view(), len as int),
        r.0@.len() == len,
        r.1@.len() == len,
{
    let ghost mv = masks.deep_view();
    let mut fixed: Vec<bool> = Vec::new();
    let mut operand: Vec<bool> = Vec::new();
    let mut i: usize = 0;
    assert(mv.take(0) =~= Seq::<InstrMaskV>::empty());
    while i < masks.len()
        invariant
            mv == masks.deep_view(),
            masks_fit(mv, span(mv)),
            i <= masks@.len(),
            fixed@ == all_fixed(mv.take(i as int)),
            operand@ == all_operand(mv.take(i as int)),
        decreases masks@.len() - i,
    {
        let ghost f0 = fixed@;
        let ghost o0 = operand@;
        let m = &masks[i];
        proof {
            assert(mv.take(i + 1).drop_last() =~= mv.take(i as int));
            assert(mv[i as int] == m.deep_view());
        }
        let mut k: usize = 0;
        assert(f0 + m.fixed@.take(0) =~= f0);
        assert(o0 + m.operand@.take(0) =~= o0);
        while k < m.len
            invariant
                m.fixed@.len() == m.len,
                m.operand@.len() == m.len,
                k <= m.len,
                fixed@ == f0 + m.fixed@.take(k as int),
                operand@ == o0 + m.operand@.take(k as int),
            decreases m.len - k,
        {
            fixed.push(m.fixed[k]);
            operand.push(m.operand[k]);
            k += 1;
            proof {
                assert(fixed@ =~= f0 + m.fixed@.take(k as int));
                assert(operand@ =~= o0 + m.operand@.take(k as int));
            }
        }
        assert(m.fixed@.take(k as int) =~= m.fixed@);
        assert(m.operand@.take(k as int) =~= m.operand@);
        i += 1;
    }
    assert(mv.take(i as int) =~= mv);
    (fit(fixed, len, true), fit(operand, len, false))
}

fn fit(v: Vec<bool>, len: usize, fill: bool) -> (r: Vec<bool>)
    ensures
        r@ == fitted(v@, len as int, fill),
{
    let mut r: Vec<bool> = v;
    let ghost s = r@;
    if r.len() > len {
        r.truncate(len);
        assert(r@ =~= fitted(s, len as int, fill));
        return r;
    }
    while r.len() < len
        invariant
            s.len() <= r@.len() <= len,
            forall|k: int|
                0 <= k < r@.len() ==> #[trigger] r@[k] == (if k < s.len() {
                    s[k]
                } else {
                    fill
                }),
        decreases len - r@.len(),
    {
        r.push(fill);
    }
    assert(r@ =~= fitted(s, len as int, fill));
    r
}

/// The first relocation that is not supported among the first `len` bytes of a window at `rva`.
pub fn find_unsupported(masks: &Vec<InstrMask>, rva: usize, len: usize) -> (r: Option<(usize, u8)>)
    ensures
        r == unsupported_in(masks.deep_view(), rva as int, len as int, 0),
{
    let ghost mv = masks.deep_view();
    let mut i: usize = 0;
    while i < masks.len()
        invariant
            mv == masks.deep_view(),
            i <= masks@.len(),
            unsupported_in(mv, rva as int, len as int, 0) == unsupported_in(
                mv,
                rva as int,
                len as int,
                i as int,
            ),
        decreases masks@.len() - i,
    {
        assert(mv[i as int] == masks@[i as int].deep_view());
        if let Some((at, t)) = masks[i].unsupported {
            if at < rva || at - rva < len {
                if at < rva {
                    assert(at - rva < len as int);
                }
                return Some((at, t));
            }
        }
        i += 1;
    }
    None
}

/// The ends of the instructions, up to `max_len`, behind `lens` and without repeating it.
pub open spec fn ends_from(
    masks: Seq<InstrMaskV>,
    max_len: int,
    i: int,
    acc: int,
    lens: Seq<usize>,
) -> Seq<usize>
    decreases masks.len() - i,
{
    if !(0 <= i < masks.len()) {
        lens
    } else {
        let end = acc + masks[i].len;
        if end > max_len {
            lens
        } else if lens.contains(end as usize) {
            ends_from(masks, max_len, i + 1, end, lens)
        } else {
            ends_from(masks, max_len, i + 1, end, lens.push(end as usize))
        }
    }
}

/// The lengths to try: that of the seed, as far as the window goes, then the end of each instruction.
pub open spec fn lengths(
    masks: Seq<InstrMaskV>,
    max_len: usize,
    seed: Option<int>,
    window: int,
) -> Seq<usize> {
    let first = match seed {
        Some(n) => seq![if n < window { n as usize } else { window as usize }],
        None => Seq::empty(),
    };
    ends_from(masks, max_len as int, 0, 0, first)
}

/// The lengths to try.
pub fn list_lengths(
    masks: &Vec<InstrMask>,
    max_len: usize,
    seed: Option<usize>,
    window: usize,
) -> (lens: Vec<usize>)
    requires
        masks_fit(masks.deep_view(), window as int),
    ensures
        lens@ == lengths(
            masks.deep_view(),
            max_len,
            match seed {
                Some(n) => Some(n as int),
                None => None,
            },
            window as int,
        ),
{
    let ghost mv = masks.deep_view();
    let mut lens: Vec<usize> = Vec::new();
    if let Some(n) = seed {
        lens.push(
            if n < window {
                n
            } else {
                window
            },
        );
    }
    let ghost first = lens@;
    let ghost sv = match seed {
        Some(n) => Some(n as int),
        None => None,
    };
    let ghost all = lengths(mv, max_len, sv, window as int);
    assert(first =~= match sv {
        Some(n) => seq![if n < window { n as usize } else { window }],
        None => Seq::empty(),
    });
    let mut acc: usize = 0;
    let mut i: usize = 0;
    assert(mv.take(0) =~= Seq::<InstrMaskV>::empty());
    while i < masks.len()
        invariant
            mv == masks.deep_view(),
            masks_fit(mv, window as int),
            i <= masks@.len(),
            acc == span(mv.take(i as int)),
            sv == (match seed {
                Some(n) => Some(n as int),
                None => None,
            }),
            all == lengths(mv, max_len, sv, window as int),
            all == ends_from(
                mv,
                max_len as int,
                i as int,
                acc as int,
                lens@,
            ),
        decreases masks@.len() - i,
    {
        proof {
            assert(mv[i as int] == masks@[i as int].deep_view());
            assert(mv.take(i + 1).drop_last() =~= mv.take(i as int));
            span_grows(mv, i + 1);
        }
        acc += masks[i].len;
        if acc > max_len {
            return lens;
        }
        if !crate::ordered::holds_usize(lens.as_slice(), acc) {
            lens.push(acc);
        }
        i += 1;
    }
    lens
}

proof fn span_grows(masks: Seq<InstrMaskV>, i: int)
    requires
        0 <= i <= masks.len(),
    ensures
        span(masks.take(i)) <= span(masks),
    decreases masks.len() - i,
{
    if i == masks.len() {
        assert(masks.take(i) =~= masks);
    } else {
        span_grows(masks, i + 1);
        assert(masks.take(i + 1).drop_last() =~= masks.take(i));
    }
}

/// How many entries are set.
pub open spec fn trues(s: Seq<bool>) -> nat
    decreases s.len(),
{
    if s.len() == 0 {
        0
    } else {
        trues(s.drop_last()) + if s.last() {
            1nat
        } else {
            0nat
        }
    }
}

/// How many entries are set.
pub fn count_true(v: &Vec<bool>) -> (n: usize)
    ensures
        n == trues(v@),
        n <= v@.len(),
{
    let mut n: usize = 0;
    let mut i: usize = 0;
    assert(v@.take(0) =~= Seq::<bool>::empty());
    while i < v.len()
        invariant
            i <= v@.len(),
            n <= i,
            n == trues(v@.take(i as int)),
        decreases v@.len() - i,
    {
        assert(v@.take(i + 1).drop_last() =~= v@.take(i as int));
        if v[i] {
            n += 1;
        }
        i += 1;
    }
    assert(v@.take(i as int) =~= v@);
    n
}

/// The positions at which the first is set and the second is not.
pub open spec fn but_not(a: Seq<bool>, b: Seq<bool>) -> Seq<bool> {
    Seq::new(a.len(), |k: int| a[k] && !(k < b.len() && b[k]))
}

/// How many positions are set in the first and not in the second.
pub fn count_but_not(a: &Vec<bool>, b: &Vec<bool>) -> (n: usize)
    ensures
        n == trues(but_not(a@, b@)),
        n <= a@.len(),
{
    let mut r: Vec<bool> = Vec::new();
    let ghost all = but_not(a@, b@);
    let mut i: usize = 0;
    while i < a.len()
        invariant
            all == but_not(a@, b@),
            i <= a@.len(),
            r@ == all.take(i as int),
        decreases a@.len() - i,
    {
        r.push(a[i] && !(i < b.len() && b[i]));
        i += 1;
        assert(r@ =~= all.take(i as int));
    }
    assert(r@ =~= all);
    count_true(&r)
}

}
