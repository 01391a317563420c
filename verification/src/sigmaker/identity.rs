//! Recompile-stable function identities, and anchors on the strings a function refers to.

use crate::le;
use crate::le::{tail_of, u32_bytes};
use crate::ordered;
use crate::ordered::{insert_text, insert_u64};
use crate::pattern::Arch;
use crate::sigmaker::blends;
use crate::sigmaker::blends::{
    add_numbers,
    add_texts,
    blend_of,
    count_share,
    stream_share,
    Part,
    PartV,
};
use crate::sigmaker::decode;
use crate::sigmaker::decode::{bitness, referenced_values};
use crate::sigmaker::rivals;
use crate::sigmaker::rivals::{find_rival, Scored};
use crate::sigmaker::similarity;
use crate::sigmaker::similarity::{are_apart, SIM_ONE};
use crate::sigmaker::types::{ImageInput, READ_AHEAD};
use crate::text;
use crate::text::{push_dec, push_hex_fixed};
use crate::x86;
use crate::x86::Flow;
use vstd::prelude::*;
use vstd::string::*;
use vstd::utf8::*;

verus! {

/// How many bytes an identity looks at.
pub const ID_WINDOW: usize = 256;

/// How many instructions an identity looks at.
pub const ID_MAX_INSTRS: usize = 24;

/// Recompile-stable identity of a function entry: mnemonic stream, CFG-lite block count, distinctive
/// constants, and referenced strings. The cross-build consistency check compares these.
#[derive(Clone, Debug, Default, PartialEq, Eq)]
pub struct FnIdentity {
    pub instr_count: usize,
    pub blocks: usize,
    pub calls: usize,
    pub branches: usize,
    pub returns: usize,
    pub constants: Vec<u64>,
    pub strings: Vec<String>,
    pub mnemonics: Vec<u32>,
}

/// An identity by its content.
#[verifier::ext_equal]
pub struct IdentityV {
    pub instr_count: usize,
    pub blocks: usize,
    pub calls: usize,
    pub branches: usize,
    pub returns: usize,
    pub constants: Seq<u64>,
    pub strings: Seq<Seq<char>>,
    pub mnemonics: Seq<u32>,
}

impl DeepView for FnIdentity {
    type V = IdentityV;

    open spec fn deep_view(&self) -> IdentityV {
        IdentityV {
            instr_count: self.instr_count,
            blocks: self.blocks,
            calls: self.calls,
            branches: self.branches,
            returns: self.returns,
            constants: self.constants@,
            strings: self.strings.deep_view(),
            mnemonics: self.mnemonics@,
        }
    }
}

/// A printable ASCII character.
pub open spec fn printable(b: u8) -> bool {
    0x20 <= b <= 0x7E
}

/// The longest a referenced string is read.
pub const STRING_MAX: usize = 48;

/// The leading printable characters from `i` on, `left` at most.
pub open spec fn ascii_run(b: Seq<u8>, i: int, left: nat) -> Seq<char>
    decreases left,
{
    if left == 0 || i >= b.len() || !printable(b[i]) {
        Seq::empty()
    } else {
        seq![b[i] as char] + ascii_run(b, i + 1, (left - 1) as nat)
    }
}

/// The leading printable UTF-16 characters from `i` on, `left` at most.
pub open spec fn wide_run(b: Seq<u8>, i: int, left: nat) -> Seq<char>
    decreases left,
{
    if left == 0 || i + 1 >= b.len() || b[i + 1] != 0 || !printable(b[i]) {
        Seq::empty()
    } else {
        seq![b[i] as char] + wide_run(b, i + 2, (left - 1) as nat)
    }
}

/// The string at the front of `b`: at least four printable characters, one or two bytes each.
pub open spec fn string_in(b: Seq<u8>) -> Option<Seq<char>> {
    let narrow = ascii_run(b, 0, STRING_MAX as nat);
    let wide = wide_run(b, 0, STRING_MAX as nat);
    if narrow.len() >= 4 {
        Some(narrow)
    } else if wide.len() >= 4 {
        Some(wide)
    } else {
        None
    }
}

/// The string at an address of the image.
pub open spec fn string_ref(img: &ImageInput, abs: int) -> Option<Seq<char>> {
    if img.in_image(abs) {
        string_in(img.bytes(abs, 64))
    } else {
        None
    }
}

/// The string at the front of `b`.
pub fn leading_string(b: &[u8]) -> (r: Option<String>)
    ensures
        r.deep_view() == string_in(b@),
{
    let mut narrow = String::new();
    let mut n: usize = 0;
    let ghost all = ascii_run(b@, 0, STRING_MAX as nat);
    assert(narrow@ + all =~= all);
    while n < STRING_MAX && n < b.len() && 0x20 <= b[n] && b[n] <= 0x7E
        invariant
            n <= STRING_MAX,
            n <= b@.len(),
            narrow@.len() == n,
            narrow@ + ascii_run(b@, n as int, (STRING_MAX - n) as nat) == all,
        decreases STRING_MAX - n,
    {
        let ghost before = narrow@;
        let ghost rest = ascii_run(b@, n + 1, (STRING_MAX - n - 1) as nat);
        narrow.push(b[n] as char);
        n += 1;
        assert(before + (seq![b@[n - 1] as char] + rest) =~= narrow@ + rest);
    }
    assert(narrow@ =~= all);
    if n >= 4 {
        return Some(narrow);
    }
    let mut wide = String::new();
    let mut w: usize = 0;
    let ghost all = wide_run(b@, 0, STRING_MAX as nat);
    assert(wide@ + all =~= all);
    while w < STRING_MAX && 2 * w + 1 < b.len() && b[2 * w + 1] == 0 && 0x20 <= b[2 * w] && b[2 * w]
        <= 0x7E
        invariant
            w <= STRING_MAX,
            wide@.len() == w,
            wide@ + wide_run(b@, 2 * w, (STRING_MAX - w) as nat) == all,
        decreases STRING_MAX - w,
    {
        let ghost before = wide@;
        let ghost rest = wide_run(b@, 2 * w + 2, (STRING_MAX - w - 1) as nat);
        wide.push(b[2 * w] as char);
        w += 1;
        assert(before + (seq![b@[2 * (w - 1)] as char] + rest) =~= wide@ + rest);
    }
    assert(wide@ =~= all);
    if w >= 4 {
        Some(wide)
    } else {
        None
    }
}

/// The string at an address of the image.
pub fn read_string_ref(img: &ImageInput, abs: usize) -> (r: Option<String>)
    requires
        img.wf(),
    ensures
        r.deep_view() == string_ref(img, abs as int),
{
    if abs < img.base || abs - img.base >= img.size {
        return None;
    }
    let b = img.read(abs, 64);
    leading_string(b.as_slice())
}

/// An immediate too far from zero to be a stack or struct offset.
pub open spec fn distinctive(v: u64) -> bool {
    let magnitude = if v < 0x8000_0000_0000_0000 {
        v as int
    } else {
        0x1_0000_0000_0000_0000 - v
    };
    magnitude > 0xFFFF && v != u64::MAX
}

/// Whether an immediate is a magic number rather than an offset.
pub fn is_distinctive_const(v: u64) -> (r: bool)
    ensures
        r == distinctive(v),
{
    if v < 0x8000_0000_0000_0000 {
        v > 0xFFFF
    } else {
        u64::MAX - v >= 0xFFFF && v != u64::MAX
    }
}

/// What an identity takes from one instruction.
#[verifier::ext_equal]
pub struct FeatV {
    pub ip: u64,
    pub len: u64,
    pub mnemonic: u32,
    pub flow: Flow,
    pub branch_target: u64,
    pub next_ip: u64,
    pub strings: Seq<Seq<char>>,
    pub constants: Seq<u64>,
}

/// What an identity takes from one instruction.
pub struct InstrFeat {
    pub ip: u64,
    pub len: u64,
    pub mnemonic: u32,
    pub flow: Flow,
    pub branch_target: u64,
    pub next_ip: u64,
    pub strings: Vec<String>,
    pub constants: Vec<u64>,
}

impl DeepView for InstrFeat {
    type V = FeatV;

    open spec fn deep_view(&self) -> FeatV {
        FeatV {
            ip: self.ip,
            len: self.len,
            mnemonic: self.mnemonic,
            flow: self.flow,
            branch_target: self.branch_target,
            next_ip: self.next_ip,
            strings: self.strings.deep_view(),
            constants: self.constants@,
        }
    }
}

/// The strings that the values point at.
pub open spec fn strings_at(img: &ImageInput, values: Seq<u64>) -> Seq<Seq<char>>
    decreases values.len(),
{
    if values.len() == 0 {
        Seq::empty()
    } else {
        let before = strings_at(img, values.drop_last());
        match string_ref(img, values.last() as usize as int) {
            Some(s) => before.push(s),
            None => before,
        }
    }
}

/// The values that point at no string, lie outside the image and are distinctive.
pub open spec fn constants_among(img: &ImageInput, values: Seq<u64>) -> Seq<u64>
    decreases values.len(),
{
    if values.len() == 0 {
        Seq::empty()
    } else {
        let v = values.last();
        let before = constants_among(img, values.drop_last());
        if string_ref(img, v as usize as int) is None && !img.in_image(v as int) && distinctive(v) {
            before.push(v)
        } else {
            before
        }
    }
}

/// What an identity takes from the instruction at the front of `b`, which sits at `ip`.
pub open spec fn feat(img: &ImageInput, b: Seq<u8>, ip: u64) -> FeatV {
    let bits = decode::mode(img.arch);
    let h = x86::head_of(bits, b, ip);
    let values = decode::references(bits, b, ip, img.arch);
    FeatV {
        ip,
        len: h.len as u64,
        mnemonic: h.mnemonic,
        flow: x86::flow_of(bits, b, ip),
        branch_target: h.target,
        next_ip: (ip + h.len) as u64,
        strings: strings_at(img, values),
        constants: constants_among(img, values),
    }
}

/// What an identity takes from the instruction at the front of `b`.
pub fn instr_feat(img: &ImageInput, b: &[u8], ip: u64) -> (f: InstrFeat)
    requires
        img.wf(),
        ip + b@.len() <= u64::MAX,
    ensures
        f.deep_view() == feat(img, b@, ip),
{
    let bits: u32 = bitness(img.arch);
    let h = x86::head(bits, b, ip);
    let values = referenced_values(bits, b, ip, img.arch);
    let mut strings: Vec<String> = Vec::new();
    let mut constants: Vec<u64> = Vec::new();
    let mut i: usize = 0;
    assert(strings.deep_view() =~= Seq::<Seq<char>>::empty());
    while i < values.len()
        invariant
            img.wf(),
            i <= values@.len(),
            strings.deep_view() == strings_at(img, values@.take(i as int)),
            constants@ == constants_among(img, values@.take(i as int)),
        decreases values@.len() - i,
    {
        assert(values@.take(i + 1).drop_last() =~= values@.take(i as int));
        let v: u64 = values[i];
        if let Some(s) = read_string_ref(img, v as usize) {
            let ghost before = strings.deep_view();
            let ghost text = s@;
            strings.push(s);
            assert(strings.deep_view() =~= before.push(text));
        } else if !(img.base as u64 <= v && v - (img.base as u64) < img.size as u64)
            && is_distinctive_const(v) {
            constants.push(v);
        }
        i += 1;
    }
    assert(values@.take(i as int) =~= values@);
    InstrFeat {
        ip,
        len: h.len as u64,
        mnemonic: h.mnemonic,
        flow: x86::flow(bits, b, ip),
        branch_target: h.target,
        next_ip: ip + h.len as u64,
        strings,
        constants,
    }
}

/// An identity being gathered.
#[verifier::ext_equal]
pub struct GatherV {
    pub mnemonics: Seq<u32>,
    pub constants: Seq<u64>,
    pub strings: Seq<Seq<char>>,
    pub blocks: Seq<u64>,
    pub calls: int,
    pub branches: int,
    pub returns: int,
}

/// Nothing gathered yet but the entry block.
pub open spec fn gather_start(ip0: u64) -> GatherV {
    GatherV {
        mnemonics: Seq::empty(),
        constants: Seq::empty(),
        strings: Seq::empty(),
        blocks: seq![ip0],
        calls: 0,
        branches: 0,
        returns: 0,
    }
}

/// The blocks after a branch: the target if it lies in the window, and for a conditional branch the
/// instruction after it.
pub open spec fn blocks_after(blocks: Seq<u64>, f: FeatV, ip0: int, end_ip: int) -> Seq<u64> {
    let order = ordered::ascending();
    let jumped = if ip0 <= f.branch_target < end_ip {
        ordered::ins(blocks, f.branch_target, order)
    } else {
        blocks
    };
    match f.flow {
        Flow::ConditionalBranch => ordered::ins(jumped, f.next_ip, order),
        Flow::UnconditionalBranch => jumped,
        _ => blocks,
    }
}

/// What is gathered once the instruction `f` is added.
pub open spec fn absorbed(g: GatherV, f: FeatV, ip0: int, end_ip: int) -> GatherV {
    let is_call = f.flow == Flow::Call || f.flow == Flow::IndirectCall;
    let is_branch = f.flow == Flow::ConditionalBranch || f.flow == Flow::UnconditionalBranch;
    GatherV {
        mnemonics: g.mnemonics.push(f.mnemonic),
        constants: ordered::ins_all(g.constants, f.constants, ordered::ascending()),
        strings: ordered::ins_all(g.strings, f.strings, ordered::alphabetical()),
        blocks: blocks_after(g.blocks, f, ip0, end_ip),
        calls: g.calls + if is_call {
            1int
        } else {
            0int
        },
        branches: g.branches + if is_branch {
            1int
        } else {
            0int
        },
        returns: g.returns + if f.flow == Flow::Return {
            1int
        } else {
            0int
        },
    }
}

/// The finished identity.
pub open spec fn gathered(g: GatherV) -> IdentityV {
    IdentityV {
        instr_count: g.mnemonics.len() as usize,
        blocks: g.blocks.len() as usize,
        calls: g.calls as usize,
        branches: g.branches as usize,
        returns: g.returns as usize,
        constants: g.constants,
        strings: g.strings,
        mnemonics: g.mnemonics,
    }
}

/// Gather along the instruction stream of `b`, which sits at `ip0`, from `pos` on: to the first return,
/// the first bytes that are no instruction, or the instruction limit.
pub open spec fn gather_from(img: &ImageInput, b: Seq<u8>, ip0: u64, pos: int, g: GatherV) -> GatherV
    decreases b.len() - pos,
{
    let ip = (ip0 + pos) as u64;
    let rest = b.skip(pos);
    let h = x86::head_of(decode::mode(img.arch), rest, ip);
    if !(0 <= pos < b.len()) || g.mnemonics.len() >= ID_MAX_INSTRS || !decode::decodable(h, rest) {
        g
    } else {
        let f = feat(img, rest, ip);
        let next = absorbed(g, f, ip0 as int, ip0 + b.len());
        if f.flow == Flow::Return {
            next
        } else {
            gather_from(img, b, ip0, pos + h.len, next)
        }
    }
}

/// The identity of the function at `rva`.
pub open spec fn identity_at(img: &ImageInput, rva: int) -> IdentityV {
    let ip0 = (img.base + rva) as u64;
    gathered(
        gather_from(img, img.bytes(img.base + rva, ID_WINDOW as nat), ip0, 0, gather_start(ip0)),
    )
}

/// An identity being gathered.
struct Gather {
    mnemonics: Vec<u32>,
    constants: Vec<u64>,
    strings: Vec<String>,
    blocks: Vec<u64>,
    calls: usize,
    branches: usize,
    returns: usize,
}

impl Gather {
    spec fn content(&self) -> GatherV {
        GatherV {
            mnemonics: self.mnemonics@,
            constants: self.constants@,
            strings: self.strings.deep_view(),
            blocks: self.blocks@,
            calls: self.calls as int,
            branches: self.branches as int,
            returns: self.returns as int,
        }
    }

    spec fn counted(&self) -> bool {
        self.calls <= self.mnemonics@.len() && self.branches <= self.mnemonics@.len()
            && self.returns <= self.mnemonics@.len()
    }

    fn start(ip0: u64) -> (g: Gather)
        ensures
            g.content() == gather_start(ip0),
            g.counted(),
    {
        let mut blocks: Vec<u64> = Vec::new();
        blocks.push(ip0);
        let g = Gather {
            mnemonics: Vec::new(),
            constants: Vec::new(),
            strings: Vec::new(),
            blocks,
            calls: 0,
            branches: 0,
            returns: 0,
        };
        assert(g.content() =~= gather_start(ip0));
        g
    }

    fn absorb(&mut self, f: &InstrFeat, ip0: u64, end_ip: u64)
        requires
            old(self).counted(),
            old(self).mnemonics@.len() < ID_MAX_INSTRS,
        ensures
            final(self).content() == absorbed(
                old(self).content(),
                f.deep_view(),
                ip0 as int,
                end_ip as int,
            ),
            final(self).counted(),
    {
        self.mnemonics.push(f.mnemonic);
        let mut i: usize = 0;
        while i < f.constants.len()
            invariant
                i <= f.constants@.len(),
                self.mnemonics@ == old(self).mnemonics@.push(f.mnemonic),
                self.constants@ == ordered::ins_all(
                    old(self).constants@,
                    f.constants@.take(i as int),
                    ordered::ascending(),
                ),
                self.strings == old(self).strings,
                self.blocks == old(self).blocks,
                self.calls == old(self).calls,
                self.branches == old(self).branches,
                self.returns == old(self).returns,
            decreases f.constants@.len() - i,
        {
            assert(f.constants@.take(i + 1).drop_last() =~= f.constants@.take(i as int));
            insert_u64(&mut self.constants, f.constants[i]);
            i += 1;
        }
        assert(f.constants@.take(i as int) =~= f.constants@);
        let mut k: usize = 0;
        assert(f.strings.deep_view().take(0) =~= Seq::<Seq<char>>::empty());
        while k < f.strings.len()
            invariant
                k <= f.strings@.len(),
                self.mnemonics@ == old(self).mnemonics@.push(f.mnemonic),
                self.constants@ == ordered::ins_all(
                    old(self).constants@,
                    f.constants@,
                    ordered::ascending(),
                ),
                self.strings.deep_view() == ordered::ins_all(
                    old(self).strings.deep_view(),
                    f.strings.deep_view().take(k as int),
                    ordered::alphabetical(),
                ),
                self.blocks == old(self).blocks,
                self.calls == old(self).calls,
                self.branches == old(self).branches,
                self.returns == old(self).returns,
            decreases f.strings@.len() - k,
        {
            assert(f.strings.deep_view().take(k + 1).drop_last() =~= f.strings.deep_view().take(
                k as int,
            ));
            assert(f.strings.deep_view().take(k + 1).last() == f.strings@[k as int]@);
            insert_text(&mut self.strings, f.strings[k].clone());
            k += 1;
        }
        assert(f.strings.deep_view().take(k as int) =~= f.strings.deep_view());
        match f.flow {
            Flow::Call | Flow::IndirectCall => {
                self.calls += 1;
            },
            Flow::ConditionalBranch => {
                self.branches += 1;
                if ip0 <= f.branch_target && f.branch_target < end_ip {
                    insert_u64(&mut self.blocks, f.branch_target);
                }
                insert_u64(&mut self.blocks, f.next_ip);
            },
            Flow::UnconditionalBranch => {
                self.branches += 1;
                if ip0 <= f.branch_target && f.branch_target < end_ip {
                    insert_u64(&mut self.blocks, f.branch_target);
                }
            },
            Flow::Return => {
                self.returns += 1;
            },
            _ => {},
        }
        assert(self.content() =~= absorbed(
            old(self).content(),
            f.deep_view(),
            ip0 as int,
            end_ip as int,
        ));
    }

    fn finish(self) -> (id: FnIdentity)
        ensures
            id.deep_view() == gathered(self.content()),
    {
        FnIdentity {
            instr_count: self.mnemonics.len(),
            blocks: self.blocks.len(),
            calls: self.calls,
            branches: self.branches,
            returns: self.returns,
            constants: self.constants,
            strings: self.strings,
            mnemonics: self.mnemonics,
        }
    }
}

/// The identity of the function at `target_rva`.
pub fn fn_identity(img: &ImageInput, target_rva: usize) -> (id: FnIdentity)
    requires
        img.wf(),
        img.reaches(target_rva as int),
    ensures
        id.deep_view() == identity_at(img, target_rva as int),
{
    let bits: u32 = bitness(img.arch);
    let b = img.read(img.base + target_rva, ID_WINDOW);
    let ip0: u64 = (img.base + target_rva) as u64;
    let end_ip: u64 = ip0 + b.len() as u64;
    let mut g = Gather::start(ip0);
    let mut pos: usize = 0;
    let mut open: bool = true;
    let ghost whole = gather_from(img, b@, ip0, 0, gather_start(ip0));
    while open && pos < b.len() && g.mnemonics.len() < ID_MAX_INSTRS
        invariant
            img.wf(),
            bits == decode::mode(img.arch),
            x86::is_mode(bits),
            b@.len() <= ID_WINDOW,
            pos <= b@.len(),
            ip0 + ID_WINDOW <= u64::MAX,
            end_ip == ip0 + b@.len(),
            g.counted(),
            open ==> whole == gather_from(img, b@, ip0, pos as int, g.content()),
            !open ==> whole == g.content(),
        decreases (if open { 1int } else { 0int }), b@.len() - pos,
    {
        let rest = tail_of(b.as_slice(), pos);
        let ip: u64 = ip0 + pos as u64;
        let h = x86::head(bits, rest, ip);
        if h.invalid || h.len == 0 {
            open = false;
        } else {
            let f = instr_feat(img, rest, ip);
            let last: bool = f.flow == Flow::Return;
            g.absorb(&f, ip0, end_ip);
            if last {
                open = false;
            } else {
                pos += h.len;
            }
        }
    }
    g.finish()
}

/// The similarity of two identities: mnemonic stream, shape, distinctive constants and referenced
/// strings in the weights forty, twenty-five, twenty and fifteen. Constants and strings weigh in only
/// where one side has any.
pub open spec fn likeness(a: IdentityV, b: IdentityV) -> int {
    blends::blended(parts_of(a, b))
}

/// What the likeness is blended from.
pub open spec fn parts_of(a: IdentityV, b: IdentityV) -> Seq<PartV> {
    seq![
        blends::stream_part(160, a.mnemonics, b.mnemonics),
        blends::count_part(25, a.blocks as int, b.blocks as int),
        blends::count_part(25, a.calls as int, b.calls as int),
        blends::count_part(25, a.branches as int, b.branches as int),
        blends::count_part(25, a.returns as int, b.returns as int),
    ] + blends::set_part(80, a.constants, b.constants) + blends::set_part(60, a.strings, b.strings)
}

/// A prime of the FNV hash.
pub const FNV_PRIME: u64 = 0x0000_0100_0000_01b3;

/// The start of the FNV hash.
pub const FNV_OFFSET: u64 = 0xcbf2_9ce4_8422_2325;

/// One step of the FNV hash.
pub open spec fn fold(h: u64, x: u64) -> u64 {
    (h ^ x).wrapping_mul(FNV_PRIME)
}

/// The FNV hash continued over `bytes`.
pub open spec fn folded(h: u64, bytes: Seq<u8>) -> u64
    decreases bytes.len(),
{
    if bytes.len() == 0 {
        h
    } else {
        fold(folded(h, bytes.drop_last()), bytes.last() as u64)
    }
}

/// The FNV hash continued over `bytes`.
pub fn fnv_fold(h: u64, bytes: &[u8]) -> (r: u64)
    ensures
        r == folded(h, bytes@),
{
    let mut r: u64 = h;
    let mut i: usize = 0;
    while i < bytes.len()
        invariant
            i <= bytes@.len(),
            r == folded(h, bytes@.take(i as int)),
        decreases bytes@.len() - i,
    {
        assert(bytes@.take(i + 1).drop_last() =~= bytes@.take(i as int));
        r = (r ^ (bytes[i] as u64)).wrapping_mul(FNV_PRIME);
        i += 1;
    }
    assert(bytes@.take(i as int) =~= bytes@);
    r
}

/// The inverse of [`FNV_PRIME`] modulo two to the sixty-fourth.
pub const FNV_INVERSE: u64 = 0xce96_5057_aff6_957b;

/// Multiplying by the prime loses nothing.
proof fn prime_is_odd(a: u64, b: u64)
    requires
        a.wrapping_mul(FNV_PRIME) == b.wrapping_mul(FNV_PRIME),
    ensures
        a == b,
{
    let m: int = 0x1_0000_0000_0000_0000;
    let p = FNV_PRIME as int;
    let k = (a * p) / m - (b * p) / m;
    vstd::arithmetic::div_mod::lemma_fundamental_div_mod(a * p, m);
    vstd::arithmetic::div_mod::lemma_fundamental_div_mod(b * p, m);
    assert((a * p) % m == (b * p) % m);
    let d = a - b;
    assert(a * p - b * p == m * k) by (nonlinear_arith)
        requires
            a * p == m * ((a * p) / m) + (a * p) % m,
            b * p == m * ((b * p) / m) + (b * p) % m,
            (a * p) % m == (b * p) % m,
            k == (a * p) / m - (b * p) / m,
    ;
    assert(d * p == m * k) by (nonlinear_arith)
        requires
            a * p - b * p == m * k,
            d == a - b,
    ;
    assert(p * FNV_INVERSE == 0xce_9650_590f * m + 1);
    let j = k * FNV_INVERSE - d * 0xce_9650_590f;
    assert(d == m * j) by (nonlinear_arith)
        requires
            d * p == m * k,
            p * FNV_INVERSE == 0xce_9650_590f * m + 1,
            j == k * FNV_INVERSE - d * 0xce_9650_590f,
    ;
    assert(j == 0) by (nonlinear_arith)
        requires
            d == m * j,
            -m < d < m,
            m > 0,
    ;
}

/// One changed byte changes the hash.
pub proof fn hash_feels_each_byte(h: u64, a: Seq<u8>, b: Seq<u8>, i: int)
    requires
        a.len() == b.len(),
        0 <= i < a.len(),
        a[i] != b[i],
        forall|k: int| 0 <= k < a.len() && k != i ==> a[k] == b[k],
    ensures
        folded(h, a) != folded(h, b),
    decreases a.len(),
{
    let fa = folded(h, a.drop_last());
    let fb = folded(h, b.drop_last());
    let x = a.last() as u64;
    let y = b.last() as u64;
    if i == a.len() - 1 {
        assert(a.drop_last() =~= b.drop_last());
        if folded(h, a) == folded(h, b) {
            prime_is_odd(fa ^ x, fb ^ y);
            assert(x == y) by (bit_vector)
                requires
                    fa ^ x == fa ^ y,
            ;
        }
    } else {
        hash_feels_each_byte(h, a.drop_last(), b.drop_last(), i);
        if folded(h, a) == folded(h, b) {
            prime_is_odd(fa ^ x, fb ^ y);
            assert(fa == fb) by (bit_vector)
                requires
                    fa ^ x == fb ^ x,
            ;
        }
    }
}

/// The bytes that an identity's fingerprint hashes: mnemonics, constants, then each string and a zero.
pub open spec fn mnemonic_bytes(m: Seq<u32>) -> Seq<u8>
    decreases m.len(),
{
    if m.len() == 0 {
        Seq::empty()
    } else {
        mnemonic_bytes(m.drop_last()) + le::le32_bytes(m.last())
    }
}

/// The constants as they enter the hash.
pub open spec fn constant_bytes(c: Seq<u64>) -> Seq<u8>
    decreases c.len(),
{
    if c.len() == 0 {
        Seq::empty()
    } else {
        constant_bytes(c.drop_last()) + le::le64_bytes(c.last())
    }
}

/// The strings as they enter the hash, each closed by a zero.
pub open spec fn string_bytes(s: Seq<Seq<char>>) -> Seq<u8>
    decreases s.len(),
{
    if s.len() == 0 {
        Seq::empty()
    } else {
        string_bytes(s.drop_last()) + encode_utf8(s.last()).push(0u8)
    }
}

/// The text form of an identity: instruction count, hash of the content, and the shape.
pub open spec fn fingerprint_text(id: IdentityV) -> Seq<char> {
    let h = folded(
        FNV_OFFSET,
        mnemonic_bytes(id.mnemonics) + constant_bytes(id.constants) + string_bytes(id.strings),
    );
    text::dec(id.instr_count as nat) + ":"@ + text::hex_fixed(h as nat, 16) + ":b"@ + text::dec(
        id.blocks as nat,
    ) + "c"@ + text::dec(id.calls as nat) + "j"@ + text::dec(id.branches as nat) + "r"@ + text::dec(
        id.returns as nat,
    )
}

impl FnIdentity {
    /// The similarity to another function identity, in trillionths. Unlike equality it degrades
    /// gracefully, so a callee that shifted or gained one instruction across a build still scores
    /// high.
    pub fn similarity(&self, other: &FnIdentity) -> (r: u64)
        ensures
            r == likeness(self.deep_view(), other.deep_view()),
            r <= SIM_ONE,
    {
        let mut parts: Vec<Part> = Vec::new();
        parts.push(stream_share(160, self.mnemonics.as_slice(), other.mnemonics.as_slice()));
        parts.push(count_share(25, self.blocks, other.blocks));
        parts.push(count_share(25, self.calls, other.calls));
        parts.push(count_share(25, self.branches, other.branches));
        parts.push(count_share(25, self.returns, other.returns));
        let ghost x = self.deep_view();
        let ghost y = other.deep_view();
        assert(parts.deep_view() =~= seq![
            blends::stream_part(160, x.mnemonics, y.mnemonics),
            blends::count_part(25, x.blocks as int, y.blocks as int),
            blends::count_part(25, x.calls as int, y.calls as int),
            blends::count_part(25, x.branches as int, y.branches as int),
            blends::count_part(25, x.returns as int, y.returns as int),
        ]);
        proof {
            parts_are_fair(x, y);
            assert(parts@.len() == 5);
        }
        add_numbers(&mut parts, 80, self.constants.as_slice(), other.constants.as_slice());
        add_texts(&mut parts, 60, &self.strings, &other.strings);
        blend_of(&parts)
    }

    /// The text form of the identity, the same for the same content.
    pub fn fingerprint(&self) -> (s: String)
        ensures
            s@ == fingerprint_text(self.deep_view()),
    {
        let mut bytes: Vec<u8> = Vec::new();
        let mut i: usize = 0;
        while i < self.mnemonics.len()
            invariant
                i <= self.mnemonics@.len(),
                bytes@ == mnemonic_bytes(self.mnemonics@.take(i as int)),
            decreases self.mnemonics@.len() - i,
        {
            assert(self.mnemonics@.take(i + 1).drop_last() =~= self.mnemonics@.take(i as int));
            let mut piece = u32_bytes(self.mnemonics[i]);
            bytes.append(&mut piece);
            i += 1;
        }
        assert(self.mnemonics@.take(i as int) =~= self.mnemonics@);
        let ghost first = bytes@;
        i = 0;
        assert(first + constant_bytes(self.constants@.take(0)) =~= first);
        while i < self.constants.len()
            invariant
                i <= self.constants@.len(),
                bytes@ == first + constant_bytes(self.constants@.take(i as int)),
            decreases self.constants@.len() - i,
        {
            assert(self.constants@.take(i + 1).drop_last() =~= self.constants@.take(i as int));
            let ghost before = bytes@;
            let mut piece = le::u64_bytes(self.constants[i]);
            bytes.append(&mut piece);
            assert(bytes@ =~= first + constant_bytes(self.constants@.take(i + 1)));
            i += 1;
        }
        assert(self.constants@.take(i as int) =~= self.constants@);
        let ghost second = bytes@;
        let ghost names = self.strings.deep_view();
        i = 0;
        assert(second + string_bytes(names.take(0)) =~= second);
        while i < self.strings.len()
            invariant
                i <= self.strings@.len(),
                names == self.strings.deep_view(),
                bytes@ == second + string_bytes(names.take(i as int)),
            decreases self.strings@.len() - i,
        {
            assert(names.take(i + 1).drop_last() =~= names.take(i as int));
            assert(names.take(i + 1).last() == self.strings@[i as int]@);
            let raw = self.strings[i].as_str().as_bytes();
            bytes.extend_from_slice(raw);
            bytes.push(0);
            assert(bytes@ =~= second + string_bytes(names.take(i + 1)));
            i += 1;
        }
        assert(names.take(i as int) =~= names);
        let h: u64 = fnv_fold(FNV_OFFSET, bytes.as_slice());
        let mut s = String::new();
        push_dec(&mut s, self.instr_count as u64);
        assert(s@ =~= text::dec(self.instr_count as nat));
        s.append(":");
        push_hex_fixed(&mut s, h, 16);
        s.append(":b");
        push_dec(&mut s, self.blocks as u64);
        s.append("c");
        push_dec(&mut s, self.calls as u64);
        s.append("j");
        push_dec(&mut s, self.branches as u64);
        s.append("r");
        push_dec(&mut s, self.returns as u64);
        s
    }

    /// A copy of the identity.
    pub fn copy(&self) -> (r: FnIdentity)
        ensures
            r.deep_view() == self.deep_view(),
    {
        let constants = self.constants.clone();
        let strings = self.strings.clone();
        let mnemonics = self.mnemonics.clone();
        assert(constants@ =~= self.constants@);
        assert(strings.deep_view() =~= self.strings.deep_view());
        assert(mnemonics@ =~= self.mnemonics@);
        FnIdentity {
            instr_count: self.instr_count,
            blocks: self.blocks,
            calls: self.calls,
            branches: self.branches,
            returns: self.returns,
            constants,
            strings,
            mnemonics,
        }
    }
}

proof fn parts_are_fair(a: IdentityV, b: IdentityV)
    ensures
        blends::all_fair(parts_of(a, b)),
        parts_of(a, b).len() > 0,
{
    similarity::lcs_is_bounded(a.mnemonics, b.mnemonics);
    similarity::shares_are_bounded(a.constants, b.constants);
    similarity::shares_are_bounded(a.strings, b.strings);
}

/// Two identities are alike to at most one whole, whatever they are.
pub proof fn likeness_is_a_share(a: IdentityV, b: IdentityV)
    ensures
        0 <= likeness(a, b) <= SIM_ONE,
{
    parts_are_fair(a, b);
    blends::blend_is_a_share(parts_of(a, b));
}

/// An identity is exactly like itself.
pub proof fn likeness_with_itself(a: IdentityV)
    ensures
        likeness(a, a) == SIM_ONE,
{
    parts_are_fair(a, a);
    similarity::lcs_with_itself(a.mnemonics);
    blends::set_part_with_itself(80, a.constants);
    blends::set_part_with_itself(60, a.strings);
    let parts = parts_of(a, a);
    assert forall|i: int| 0 <= i < parts.len() implies (#[trigger] parts[i]).num == parts[i].den by {
        let c = blends::set_part(80, a.constants, a.constants);
        let t = blends::set_part(60, a.strings, a.strings);
        if i >= 5 + c.len() {
            assert(parts[i] == t[i - 5 - c.len()]);
        } else if i >= 5 {
            assert(parts[i] == c[i - 5]);
        }
    }
    blends::blend_is_a_share(parts);
}

/// The likeness does not depend on which function is asked.
pub proof fn likeness_is_symmetric(a: IdentityV, b: IdentityV)
    ensures
        likeness(a, b) == likeness(b, a),
{
    similarity::lcs_is_symmetric(a.mnemonics, b.mnemonics);
    blends::set_part_is_symmetric(80, a.constants, b.constants);
    blends::set_part_is_symmetric(60, a.strings, b.strings);
}

/// The positions of a region that a linear sweep stops at, each with what the instruction there
/// contributes; a byte that starts no instruction contributes nothing and is stepped over.
pub open spec fn events_from(img: &ImageInput, b: Seq<u8>, region_base: int, pos: int) -> Seq<
    (usize, Option<FeatV>),
>
    decreases b.len() - pos,
{
    if !(0 <= pos < b.len()) {
        Seq::empty()
    } else {
        let rva = (region_base - img.base + pos) as usize;
        let ip = (region_base + pos) as u64;
        let h = x86::head_of(decode::mode(img.arch), b.skip(pos), ip);
        if decode::decodable(h, b.skip(pos)) {
            seq![(rva, Some(feat(img, b.skip(pos), ip)))] + events_from(
                img,
                b,
                region_base,
                pos + h.len,
            )
        } else {
            seq![(rva, None)] + events_from(img, b, region_base, pos + 1)
        }
    }
}

/// The sweep of a whole region.
pub open spec fn events_of(img: &ImageInput, region_base: int, region_size: int) -> Seq<
    (usize, Option<FeatV>),
> {
    events_from(img, img.bytes(region_base, region_size as nat), region_base, 0)
}

/// Every position of the sweep can be read at.
pub open spec fn all_reach(img: &ImageInput, events: Seq<(usize, Option<FeatV>)>) -> bool {
    forall|i: int| 0 <= i < events.len() ==> img.reaches((#[trigger] events[i]).0 as int)
}

/// Sweep a region once, keeping what each instruction contributes to an identity.
pub fn region_events(img: &ImageInput, region_base: usize, region_size: usize) -> (out: Vec<
    (usize, Option<InstrFeat>),
>)
    requires
        img.wf(),
        img.base <= region_base,
        region_base + region_size + READ_AHEAD <= usize::MAX,
    ensures
        out.deep_view() == events_of(img, region_base as int, region_size as int),
        all_reach(img, out.deep_view()),
{
    let bits: u32 = bitness(img.arch);
    let b = img.read(region_base, region_size);
    let mut out: Vec<(usize, Option<InstrFeat>)> = Vec::new();
    let mut pos: usize = 0;
    let ghost all = events_from(img, b@, region_base as int, 0);
    assert(out.deep_view() + all =~= all);
    while pos < b.len()
        invariant
            img.wf(),
            bits == decode::mode(img.arch),
            x86::is_mode(bits),
            img.base <= region_base,
            region_base + region_size + READ_AHEAD <= usize::MAX,
            b@.len() <= region_size,
            pos <= b@.len(),
            all == out.deep_view() + events_from(img, b@, region_base as int, pos as int),
            all_reach(img, out.deep_view()),
        decreases b@.len() - pos,
    {
        let ghost before = out.deep_view();
        let rva: usize = region_base - img.base + pos;
        let ip: u64 = (region_base + pos) as u64;
        let rest = tail_of(b.as_slice(), pos);
        let h = x86::head(bits, rest, ip);
        if h.invalid || h.len == 0 {
            let ghost more = events_from(img, b@, region_base as int, pos + 1);
            out.push((rva, None));
            pos += 1;
            assert(out.deep_view() =~= before.push((rva, None::<FeatV>)));
            assert(before + (seq![(rva, None::<FeatV>)] + more) =~= out.deep_view() + more);
        } else {
            let f = instr_feat(img, rest, ip);
            let ghost fv = f.deep_view();
            let ghost more = events_from(img, b@, region_base as int, pos + h.len);
            out.push((rva, Some(f)));
            pos += h.len;
            assert(out.deep_view() =~= before.push((rva, Some(fv))));
            assert(before + (seq![(rva, Some(fv))] + more) =~= out.deep_view() + more);
        }
        assert(all_reach(img, out.deep_view())) by {
            assert forall|i: int| 0 <= i < out.deep_view().len() implies img.reaches(
                (#[trigger] out.deep_view()[i]).0 as int,
            ) by {
                if i < before.len() {
                    assert(out.deep_view()[i] == before[i]);
                }
            }
        }
    }
    assert(out.deep_view() =~= all);
    out
}

/// Gather along the sweep from event `j` on: as long as the events are instructions that follow each
/// other and fit the window.
pub open spec fn replay_from(
    events: Seq<(usize, Option<FeatV>)>,
    j: int,
    expected: int,
    ip0: int,
    end_ip: int,
    g: GatherV,
) -> GatherV
    decreases events.len() - j,
{
    if !(0 <= j < events.len()) || g.mnemonics.len() >= ID_MAX_INSTRS {
        g
    } else {
        match events[j].1 {
            None => g,
            Some(f) => if f.ip != expected || f.ip + f.len > end_ip {
                g
            } else {
                let next = absorbed(g, f, ip0, end_ip);
                if f.flow == Flow::Return {
                    next
                } else {
                    replay_from(events, j + 1, expected + f.len, ip0, end_ip, next)
                }
            },
        }
    }
}

/// The identity at event `e` of a sweep whose region ends at `region_end`: read off the sweep, or for a
/// window that reaches past the region, decoded there.
pub open spec fn replayed(
    img: &ImageInput,
    region_end: int,
    events: Seq<(usize, Option<FeatV>)>,
    e: int,
) -> IdentityV {
    let rva = events[e].0;
    let ip0 = (img.base + rva) as u64;
    if ip0 + ID_WINDOW > region_end {
        identity_at(img, rva as int)
    } else if events[e].1 is None {
        IdentityV { blocks: 1, ..gathered(gather_start(ip0)) }
    } else {
        gathered(
            replay_from(
                events,
                e,
                ip0 as int,
                ip0 as int,
                ip0 + ID_WINDOW,
                gather_start(ip0),
            ),
        )
    }
}

/// The identity at event `e` of a sweep, without decoding the window again.
pub fn identity_from_events(
    img: &ImageInput,
    region_end_ip: u64,
    events: &Vec<(usize, Option<InstrFeat>)>,
    e: usize,
) -> (id: FnIdentity)
    requires
        img.wf(),
        e < events@.len(),
        all_reach(img, events.deep_view()),
    ensures
        id.deep_view() == replayed(img, region_end_ip as int, events.deep_view(), e as int),
{
    let ghost ev = events.deep_view();
    assert(img.reaches(ev[e as int].0 as int));
    let rva: usize = events[e].0;
    let ip0: u64 = (img.base + rva) as u64;
    if ip0 + ID_WINDOW as u64 > region_end_ip {
        return fn_identity(img, rva);
    }
    let end_ip: u64 = ip0 + ID_WINDOW as u64;
    let mut g = Gather::start(ip0);
    if events[e].1.is_none() {
        return g.finish();
    }
    let mut expected: u64 = ip0;
    let mut j: usize = e;
    let mut open: bool = true;
    let ghost whole = replay_from(
        ev,
        e as int,
        ip0 as int,
        ip0 as int,
        end_ip as int,
        gather_start(ip0),
    );
    while open && j < events.len() && g.mnemonics.len() < ID_MAX_INSTRS
        invariant
            ev == events.deep_view(),
            j <= events@.len(),
            ip0 <= expected <= end_ip,
            g.counted(),
            open ==> whole == replay_from(
                ev,
                j as int,
                expected as int,
                ip0 as int,
                end_ip as int,
                g.content(),
            ),
            !open ==> whole == g.content(),
        decreases (if open { 1int } else { 0int }), events@.len() - j,
    {
        match &events[j].1 {
            None => {
                assert(ev[j as int].1 is None);
                open = false;
            },
            Some(f) => {
                assert(ev[j as int].1 == Some(f.deep_view()));
                if f.ip != expected || f.len > end_ip - f.ip {
                    open = false;
                } else {
                    g.absorb(f, ip0, end_ip);
                    if f.flow == Flow::Return {
                        open = false;
                    } else {
                        expected += f.len;
                        j += 1;
                    }
                }
            },
        }
    }
    g.finish()
}

/// The identities at all positions of one region's sweep.
pub open spec fn region_identities(img: &ImageInput, region_base: int, region_size: int) -> Seq<
    (usize, IdentityV),
> {
    let events = events_of(img, region_base, region_size);
    Seq::new(
        events.len(),
        |e: int| (events[e].0, replayed(img, region_base + region_size, events, e)),
    )
}

/// The identities at all positions of the sweeps of the first `n` code regions.
pub open spec fn boundary_identities(img: &ImageInput, n: int) -> Seq<(usize, IdentityV)>
    decreases n,
{
    if n <= 0 {
        Seq::empty()
    } else {
        let r = img.code_regions@[n - 1];
        boundary_identities(img, n - 1) + region_identities(img, r.base as int, r.size as int)
    }
}

/// The best match and the likeness of the best of its distinct rivals.
#[verifier::ext_equal]
pub struct BestV {
    pub best: Option<(usize, u64, IdentityV)>,
    pub runner_up: u64,
}

/// Two windows closer than this are the same match shifted, not distinct rivals.
pub const DISTINCT_GAP: usize = 16;

/// The windows with their likeness to the reference.
pub open spec fn scored(windows: Seq<(usize, IdentityV)>, reference: IdentityV) -> Scored {
    Seq::new(
        windows.len(),
        |i: int| (windows[i].0, likeness(reference, windows[i].1) as u64),
    )
}

/// The best match among the windows, the first among equals, and the greatest likeness of any window that
/// is far enough from it.
pub open spec fn best_among(windows: Seq<(usize, IdentityV)>, reference: IdentityV) -> BestV {
    let s = scored(windows, reference);
    match rivals::top(s) {
        None => BestV { best: None, runner_up: 0 },
        Some(b) => BestV {
            best: Some((windows[b].0, s[b].1, windows[b].1)),
            runner_up: rivals::rival(s, windows[b].0, DISTINCT_GAP as int),
        },
    }
}

/// The best fingerprint match for `reference` among every instruction-boundary code window of an
/// image: its rva, its similarity, the similarity of its best distinct rival, and its identity. `None`
/// only where the image has no code to sweep. x86 only.
pub fn best_fingerprint_match(img: &ImageInput, reference: &FnIdentity) -> (r: Option<
    (usize, u64, u64, FnIdentity),
>)
    requires
        img.wf(),
    ensures
        img.arch != Arch::X86 ==> r is None,
        img.arch == Arch::X86 ==> ({
            let b = best_among(
                boundary_identities(img, img.code_regions@.len() as int),
                reference.deep_view(),
            );
            match r {
                Some((rva, sim, runner, id)) => b.best == Some((rva, sim, id.deep_view()))
                    && b.runner_up == runner,
                None => b.best is None,
            }
        }),
        match r {
            Some((rva, sim, runner, id)) => img.reaches(rva as int) && sim <= SIM_ONE && runner
                <= SIM_ONE,
            None => true,
        },
{
    if img.arch != Arch::X86 {
        return None;
    }
    let mut best: Option<(usize, u64, FnIdentity)> = None;
    let mut seen: Vec<(usize, u64)> = Vec::new();
    let mut i: usize = 0;
    let ghost rv = reference.deep_view();
    assert(seen@ =~= scored(boundary_identities(img, 0), rv));
    while i < img.code_regions.len()
        invariant
            img.wf(),
            rv == reference.deep_view(),
            i <= img.code_regions@.len(),
            seen@ == scored(boundary_identities(img, i as int), rv),
            is_best(best.deep_view(), boundary_identities(img, i as int), rv),
            best matches Some((rva, sim, id)) ==> img.reaches(rva as int) && sim <= SIM_ONE,
        decreases img.code_regions@.len() - i,
    {
        let region = img.code_regions[i];
        let end_ip: u64 = (region.base + region.size) as u64;
        let events = region_events(img, region.base, region.size);
        let ghost here = region_identities(img, region.base as int, region.size as int);
        let ghost before = boundary_identities(img, i as int);
        let mut e: usize = 0;
        assert(before + here.take(0) =~= before);
        while e < events.len()
            invariant
                img.wf(),
                rv == reference.deep_view(),
                e <= events@.len(),
                end_ip == region.base + region.size,
                events.deep_view() == events_of(img, region.base as int, region.size as int),
                all_reach(img, events.deep_view()),
                here == region_identities(img, region.base as int, region.size as int),
                seen@ == scored(before + here.take(e as int), rv),
                is_best(best.deep_view(), before + here.take(e as int), rv),
                best matches Some((rva, sim, id)) ==> img.reaches(rva as int) && sim <= SIM_ONE,
            decreases events@.len() - e,
        {
            let ghost ev = events.deep_view();
            assert(img.reaches(ev[e as int].0 as int));
            let rva: usize = events[e].0;
            let id = identity_from_events(img, end_ip, &events, e);
            let sim: u64 = reference.similarity(&id);
            let ghost done = before + here.take(e as int);
            let ghost all = before + here.take(e + 1);
            seen.push((rva, sim));
            proof {
                assert(all.drop_last() =~= done);
                assert(all.last() == (rva, id.deep_view()));
                assert(seen@ =~= scored(all, rv));
                assert(scored(all, rv).drop_last() =~= scored(done, rv));
                rivals::top_is_greatest(scored(done, rv));
            }
            let better: bool = match &best {
                None => true,
                Some((_, bsim, _)) => sim > *bsim,
            };
            if better {
                best = Some((rva, sim, id));
            }
            e += 1;
        }
        assert(here.take(e as int) =~= here);
        i += 1;
    }
    match best {
        None => None,
        Some((rva, sim, id)) => {
            let runner: u64 = find_rival(&seen, rva, DISTINCT_GAP);
            proof {
                rivals::rival_is_greatest(seen@, rva, DISTINCT_GAP as int);
                assert forall|k: int| 0 <= k < seen@.len() implies (#[trigger] seen@[k]).1 <= SIM_ONE by {
                    likeness_is_a_share(
                        rv,
                        boundary_identities(img, img.code_regions@.len() as int)[k].1,
                    );
                }
            }
            Some((rva, sim, runner, id))
        },
    }
}

/// The best match among the windows.
pub open spec fn is_best(
    best: Option<(usize, u64, IdentityV)>,
    windows: Seq<(usize, IdentityV)>,
    reference: IdentityV,
) -> bool {
    best == best_among(windows, reference).best
}

/// A window and its similarity put behind all that are at least as similar.
pub open spec fn ranked_in(s: Seq<(usize, u64)>, x: (usize, u64)) -> Seq<(usize, u64)>
    decreases s.len(),
{
    if s.len() == 0 || s.last().1 >= x.1 {
        s.push(x)
    } else {
        ranked_in(s.drop_last(), x).push(s.last())
    }
}

/// The windows at least `floor` similar, most similar first, earlier ones before later ones.
pub open spec fn ranked(
    windows: Seq<(usize, IdentityV)>,
    reference: IdentityV,
    floor: int,
) -> Seq<(usize, u64)>
    decreases windows.len(),
{
    if windows.len() == 0 {
        Seq::empty()
    } else {
        let before = ranked(windows.drop_last(), reference, floor);
        let sim = likeness(reference, windows.last().1);
        if sim >= floor {
            ranked_in(before, (windows.last().0, sim as u64))
        } else {
            before
        }
    }
}

/// Whether a window is close to one that is listed.
pub open spec fn crowded(out: Seq<(usize, u64)>, rva: usize) -> bool {
    exists|i: int|
        0 <= i < out.len() && !similarity::apart(
            (#[trigger] out[i]).0 as int,
            rva as int,
            DISTINCT_GAP as int,
        )
}

/// List the windows from `i` on, leaving out those close to a listed one, until `k` are listed.
pub open spec fn spread_from(
    s: Seq<(usize, u64)>,
    i: int,
    out: Seq<(usize, u64)>,
    k: int,
) -> Seq<(usize, u64)>
    decreases s.len() - i,
{
    if !(0 <= i < s.len()) {
        out
    } else if crowded(out, s[i].0) {
        spread_from(s, i + 1, out, k)
    } else if out.len() + 1 >= k {
        out.push(s[i])
    } else {
        spread_from(s, i + 1, out.push(s[i]), k)
    }
}

/// Put a window behind all that are at least as similar.
fn rank_in(v: &mut Vec<(usize, u64)>, x: (usize, u64))
    ensures
        final(v)@ == ranked_in(old(v)@, x),
{
    let mut i: usize = v.len();
    let ghost s = v@;
    assert(s.take(i as int) =~= s);
    assert(ranked_in(s, x) =~= ranked_in(s.take(i as int), x) + s.skip(i as int));
    while i > 0 && v[i - 1].1 < x.1
        invariant
            i <= v@.len(),
            v@ == s,
            ranked_in(s, x) == ranked_in(s.take(i as int), x) + s.skip(i as int),
        decreases i,
    {
        proof {
            let t = s.take(i as int);
            assert(t.drop_last() =~= s.take(i - 1));
            assert(ranked_in(t, x) == ranked_in(t.drop_last(), x).push(t.last()));
            assert(ranked_in(t, x) + s.skip(i as int) =~= ranked_in(s.take(i - 1), x) + s.skip(
                i - 1,
            ));
        }
        i -= 1;
    }
    v.insert(i, x);
    assert(v@ =~= s.take(i as int).push(x) + s.skip(i as int));
}

/// The top `k` instruction-boundary windows by similarity to `reference`, at least `floor` similar and
/// each apart from the others. x86 only; empty on another image.
pub fn fingerprint_topk(
    img: &ImageInput,
    reference: &FnIdentity,
    k: usize,
    floor: u64,
) -> (out: Vec<(usize, u64)>)
    requires
        img.wf(),
    ensures
        out@ == (if img.arch == Arch::X86 {
            spread_from(
                ranked(
                    boundary_identities(img, img.code_regions@.len() as int),
                    reference.deep_view(),
                    floor as int,
                ),
                0,
                Seq::empty(),
                k as int,
            )
        } else {
            Seq::empty()
        }),
        forall|i: int| 0 <= i < out@.len() ==> img.reaches((#[trigger] out@[i]).0 as int),
{
    let mut out: Vec<(usize, u64)> = Vec::new();
    if img.arch != Arch::X86 {
        return out;
    }
    let mut scored: Vec<(usize, u64)> = Vec::new();
    let mut i: usize = 0;
    let ghost rv = reference.deep_view();
    while i < img.code_regions.len()
        invariant
            img.wf(),
            rv == reference.deep_view(),
            i <= img.code_regions@.len(),
            scored@ == ranked(boundary_identities(img, i as int), rv, floor as int),
            forall|q: int| 0 <= q < scored@.len() ==> img.reaches((#[trigger] scored@[q]).0 as int),
        decreases img.code_regions@.len() - i,
    {
        let region = img.code_regions[i];
        let end_ip: u64 = (region.base + region.size) as u64;
        let events = region_events(img, region.base, region.size);
        let ghost here = region_identities(img, region.base as int, region.size as int);
        let ghost before = boundary_identities(img, i as int);
        let mut e: usize = 0;
        assert(before + here.take(0) =~= before);
        while e < events.len()
            invariant
                img.wf(),
                rv == reference.deep_view(),
                e <= events@.len(),
                end_ip == region.base + region.size,
                events.deep_view() == events_of(img, region.base as int, region.size as int),
                all_reach(img, events.deep_view()),
                here == region_identities(img, region.base as int, region.size as int),
                scored@ == ranked(before + here.take(e as int), rv, floor as int),
                forall|q: int|
                    0 <= q < scored@.len() ==> img.reaches((#[trigger] scored@[q]).0 as int),
            decreases events@.len() - e,
        {
            let ghost ev = events.deep_view();
            assert(img.reaches(ev[e as int].0 as int));
            let rva: usize = events[e].0;
            let id = identity_from_events(img, end_ip, &events, e);
            let sim: u64 = reference.similarity(&id);
            proof {
                let seen = before + here.take(e + 1);
                assert(seen.drop_last() =~= before + here.take(e as int));
                assert(seen.last() == (rva, id.deep_view()));
            }
            if sim >= floor {
                let ghost earlier = scored@;
                rank_in(&mut scored, (rva, sim));
                proof {
                    ranked_in_members(earlier, (rva, sim));
                }
            }
            e += 1;
        }
        assert(here.take(e as int) =~= here);
        i += 1;
    }
    let mut j: usize = 0;
    let ghost whole = spread_from(scored@, 0, Seq::empty(), k as int);
    while j < scored.len()
        invariant_except_break
            out@.len() <= j,
            whole == spread_from(scored@, j as int, out@, k as int),
        invariant
            j <= scored@.len(),
            forall|q: int| 0 <= q < scored@.len() ==> img.reaches((#[trigger] scored@[q]).0 as int),
            forall|q: int| 0 <= q < out@.len() ==> img.reaches((#[trigger] out@[q]).0 as int),
        ensures
            whole == out@,
        decreases scored@.len() - j,
    {
        let (rva, sim) = scored[j];
        if !is_crowded(&out, rva) {
            out.push((rva, sim));
            if out.len() >= k {
                break;
            }
        }
        j += 1;
    }
    out
}

proof fn ranked_in_members(s: Seq<(usize, u64)>, x: (usize, u64))
    ensures
        ranked_in(s, x).len() == s.len() + 1,
        forall|i: int|
            0 <= i <= s.len() ==> #[trigger] ranked_in(s, x)[i] == x || exists|k: int|
                0 <= k < s.len() && s[k] == ranked_in(s, x)[i],
    decreases s.len(),
{
    if !(s.len() == 0 || s.last().1 >= x.1) {
        let d = s.drop_last();
        ranked_in_members(d, x);
        assert forall|i: int| 0 <= i <= s.len() implies #[trigger] ranked_in(s, x)[i] == x
            || exists|k: int| 0 <= k < s.len() && s[k] == ranked_in(s, x)[i] by {
            if i < s.len() {
                assert(ranked_in(s, x)[i] == ranked_in(d, x)[i]);
                if ranked_in(d, x)[i] != x {
                    let k = choose|k: int| 0 <= k < d.len() && d[k] == ranked_in(d, x)[i];
                    assert(s[k] == ranked_in(s, x)[i]);
                }
            } else {
                assert(s[s.len() - 1] == ranked_in(s, x)[i]);
            }
        }
    } else {
        assert forall|i: int| 0 <= i <= s.len() implies #[trigger] ranked_in(s, x)[i] == x
            || exists|k: int| 0 <= k < s.len() && s[k] == ranked_in(s, x)[i] by {
            if i < s.len() {
                assert(s[i] == ranked_in(s, x)[i]);
            }
        }
    }
}

fn is_crowded(out: &Vec<(usize, u64)>, rva: usize) -> (r: bool)
    ensures
        r == crowded(out@, rva),
{
    let mut i: usize = 0;
    while i < out.len()
        invariant
            i <= out@.len(),
            forall|k: int|
                0 <= k < i ==> similarity::apart(
                    (#[trigger] out@[k]).0 as int,
                    rva as int,
                    DISTINCT_GAP as int,
                ),
        decreases out@.len() - i,
    {
        if !are_apart(out[i].0, rva, DISTINCT_GAP) {
            assert(!similarity::apart(out@[i as int].0 as int, rva as int, DISTINCT_GAP as int));
            return true;
        }
        i += 1;
    }
    false
}

/// The best match is a window, and no window is more like the reference. The runner-up is the greatest
/// likeness of any window far enough from the best one: none of them is more like the reference.
pub proof fn best_match_is_greatest(windows: Seq<(usize, IdentityV)>, reference: IdentityV)
    ensures
        match best_among(windows, reference).best {
            None => windows.len() == 0,
            Some((rva, sim, id)) => {
                let runner = best_among(windows, reference).runner_up;
                &&& windows.contains((rva, id))
                &&& sim == likeness(reference, id)
                &&& forall|i: int|
                    0 <= i < windows.len() ==> likeness(reference, (#[trigger] windows[i]).1) <= sim
                &&& forall|i: int|
                    0 <= i < windows.len() && similarity::apart(
                        (#[trigger] windows[i]).0 as int,
                        rva as int,
                        DISTINCT_GAP as int,
                    ) ==> likeness(reference, windows[i].1) <= runner
                &&& runner == 0 || exists|i: int|
                    0 <= i < windows.len() && similarity::apart(
                        (#[trigger] windows[i]).0 as int,
                        rva as int,
                        DISTINCT_GAP as int,
                    ) && likeness(reference, windows[i].1) == runner
            },
        },
{
    let s = scored(windows, reference);
    rivals::top_is_greatest(s);
    if let Some(b) = rivals::top(s) {
        let rva = windows[b].0;
        rivals::rival_is_greatest(s, rva, DISTINCT_GAP as int);
        assert forall|i: int| 0 <= i < windows.len() implies (#[trigger] s[i]).0 == windows[i].0
            && s[i].1 == likeness(reference, windows[i].1) by {
            likeness_is_a_share(reference, windows[i].1);
        }
        assert(windows[b] == (rva, windows[b].1));
        assert forall|i: int| 0 <= i < windows.len() implies likeness(
            reference,
            (#[trigger] windows[i]).1,
        ) <= s[b].1 by {
            assert(s[i].1 <= s[b].1);
        }
        let runner = rivals::rival(s, rva, DISTINCT_GAP as int);
        assert forall|i: int|
            0 <= i < windows.len() && similarity::apart(
                (#[trigger] windows[i]).0 as int,
                rva as int,
                DISTINCT_GAP as int,
            ) implies likeness(reference, windows[i].1) <= runner by {
            assert(s[i].1 <= runner);
        }
        if runner != 0 {
            let k = choose|k: int|
                0 <= k < s.len() && similarity::apart(
                    (#[trigger] s[k]).0 as int,
                    rva as int,
                    DISTINCT_GAP as int,
                ) && s[k].1 == runner;
            assert(windows[k].0 == s[k].0);
        }
    }
}

/// Most similar first.
pub open spec fn descending(s: Seq<(usize, u64)>) -> bool {
    forall|i: int, j: int| 0 <= i <= j < s.len() ==> (#[trigger] s[i]).1 >= (#[trigger] s[j]).1
}

proof fn ranking_in_descends(s: Seq<(usize, u64)>, x: (usize, u64), floor: int)
    requires
        descending(s),
        x.1 >= floor,
        forall|i: int| 0 <= i < s.len() ==> (#[trigger] s[i]).1 >= floor,
    ensures
        descending(ranked_in(s, x)),
        ranked_in(s, x).len() > 0,
        forall|i: int| 0 <= i < ranked_in(s, x).len() ==> (#[trigger] ranked_in(s, x)[i]).1 >= floor,
        forall|i: int|
            0 <= i < ranked_in(s, x).len() ==> (#[trigger] ranked_in(s, x)[i]).1 <= x.1 || (s.len()
                > 0 && ranked_in(s, x)[i].1 <= s[0].1),
        s.len() > 0 ==> ranked_in(s, x).last().1 <= s.last().1,
    decreases s.len(),
{
    if s.len() > 0 && s.last().1 < x.1 {
        let d = s.drop_last();
        ranking_in_descends(d, x, floor);
        let r = ranked_in(d, x);
        assert(ranked_in(s, x) == r.push(s.last()));
        assert(r.last().1 >= s.last().1) by {
            if d.len() > 0 {
                assert(s[s.len() - 2].1 >= s[s.len() - 1].1);
            }
            ranked_last(d, x);
        }
        assert forall|i: int, j: int| 0 <= i <= j < ranked_in(s, x).len() implies (
        #[trigger] ranked_in(s, x)[i]).1 >= (#[trigger] ranked_in(s, x)[j]).1 by {
            if i < r.len() {
                assert(r[i].1 >= r[r.len() - 1].1);
            }
        }
    }
}

proof fn ranked_last(s: Seq<(usize, u64)>, x: (usize, u64))
    ensures
        ranked_in(s, x).len() == s.len() + 1,
        ranked_in(s, x).last() == x || (s.len() > 0 && ranked_in(s, x).last() == s.last()),
    decreases s.len(),
{
    if s.len() > 0 && s.last().1 < x.1 {
        ranked_last(s.drop_last(), x);
    }
}

proof fn ranking_descends(windows: Seq<(usize, IdentityV)>, reference: IdentityV, floor: int)
    requires
        floor >= 0,
    ensures
        descending(ranked(windows, reference, floor)),
        forall|i: int|
            0 <= i < ranked(windows, reference, floor).len() ==> (#[trigger] ranked(
                windows,
                reference,
                floor,
            )[i]).1 >= floor,
    decreases windows.len(),
{
    if windows.len() > 0 {
        ranking_descends(windows.drop_last(), reference, floor);
        let sim = likeness(reference, windows.last().1);
        likeness_is_a_share(reference, windows.last().1);
        if sim >= floor {
            ranking_in_descends(
                ranked(windows.drop_last(), reference, floor),
                (windows.last().0, sim as u64),
                floor,
            );
        }
    }
}

/// No two listed windows are close.
pub open spec fn spread_out(s: Seq<(usize, u64)>) -> bool {
    forall|i: int, j: int|
        0 <= i < j < s.len() ==> similarity::apart(
            (#[trigger] s[i]).0 as int,
            (#[trigger] s[j]).0 as int,
            DISTINCT_GAP as int,
        )
}

proof fn spreading_keeps(s: Seq<(usize, u64)>, i: int, out: Seq<(usize, u64)>, k: int, floor: int)
    requires
        descending(s),
        forall|q: int| 0 <= q < s.len() ==> (#[trigger] s[q]).1 >= floor,
        0 <= i,
        out.len() < k,
        descending(out),
        spread_out(out),
        forall|q: int| 0 <= q < out.len() ==> (#[trigger] out[q]).1 >= floor,
        forall|q: int, m: int|
            0 <= q < out.len() && i <= m < s.len() ==> (#[trigger] out[q]).1 >= (#[trigger] s[m]).1,
    ensures
        descending(spread_from(s, i, out, k)),
        spread_out(spread_from(s, i, out, k)),
        spread_from(s, i, out, k).len() <= k,
        forall|q: int|
            0 <= q < spread_from(s, i, out, k).len() ==> (#[trigger] spread_from(s, i, out, k)[q]).1
                >= floor,
    decreases s.len() - i,
{
    if i < s.len() {
        if crowded(out, s[i].0) {
            spreading_keeps(s, i + 1, out, k, floor);
        } else {
            let more = out.push(s[i]);
            assert(spread_out(more)) by {
                assert forall|a: int, b: int| 0 <= a < b < more.len() implies similarity::apart(
                    (#[trigger] more[a]).0 as int,
                    (#[trigger] more[b]).0 as int,
                    DISTINCT_GAP as int,
                ) by {
                    assert(more[a] == out[a]);
                    if b < out.len() {
                        assert(more[b] == out[b]);
                    }
                }
            }
            assert(descending(more));
            if out.len() + 1 < k {
                spreading_keeps(s, i + 1, more, k, floor);
            }
        }
    }
}

/// The shortlist is in order, most similar first; it holds at most as many windows as asked for, none
/// less like the reference than the floor, and no two that are close to each other.
pub proof fn shortlist_is_spread_out(
    windows: Seq<(usize, IdentityV)>,
    reference: IdentityV,
    floor: int,
    k: int,
)
    requires
        floor >= 0,
        k > 0,
    ensures
        ({
            let out = spread_from(ranked(windows, reference, floor), 0, Seq::empty(), k);
            &&& out.len() <= k
            &&& descending(out)
            &&& spread_out(out)
            &&& forall|i: int| 0 <= i < out.len() ==> (#[trigger] out[i]).1 >= floor
        }),
{
    ranking_descends(windows, reference, floor);
    spreading_keeps(ranked(windows, reference, floor), 0, Seq::empty(), k, floor);
}

}
