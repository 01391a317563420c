//! One decoded x86 instruction as plain values. The decoding itself is done by `iced-x86`; the
//! functions here that call it decode the instruction at the front of `bytes`, which sits at `ip`, in
//! 32-bit or 64-bit mode.

use iced_x86::{Decoder, DecoderOptions, FlowControl, Formatter, InstructionInfoFactory, Mnemonic};
use iced_x86::{NasmFormatter, OpAccess, OpKind, Register};
use vstd::prelude::*;

verus! {

/// The longest an instruction can be.
pub const MAX_INSTRUCTION: usize = 15;

/// What every decoded instruction has.
#[derive(Clone, Copy, PartialEq, Eq, Debug, Structural)]
pub struct Head {
    /// Bytes consumed, also for bytes that are no instruction.
    pub len: usize,
    /// The bytes are no complete instruction.
    pub invalid: bool,
    /// The number `iced-x86` gives the mnemonic.
    pub mnemonic: u32,
    /// The target of a near branch; zero for other instructions.
    pub target: u64,
    /// The number of operands.
    pub operands: u32,
    /// The immediate's low half.
    pub immediate32: u32,
    /// The immediate as 64 bits.
    pub immediate64: u64,
}

/// How an instruction passes control on.
#[derive(Clone, Copy, PartialEq, Eq, Debug, Structural)]
pub enum Flow {
    Next,
    UnconditionalBranch,
    IndirectBranch,
    ConditionalBranch,
    Return,
    Call,
    IndirectCall,
    Interrupt,
    Transaction,
    Exception,
}

/// The kind of an operand.
#[derive(Clone, Copy, PartialEq, Eq, Debug, Structural)]
pub enum Operand {
    Register,
    Memory,
    Immediate8,
    Immediate8Second,
    Immediate16,
    Immediate32,
    Immediate64,
    Immediate8to16,
    Immediate8to32,
    Immediate8to64,
    Immediate32to64,
    Other,
}

/// The memory operand's addressing form; meaningful where an operand is [`Operand::Memory`].
#[derive(Clone, Copy, PartialEq, Eq, Debug, Structural)]
pub struct MemoryForm {
    pub ip_relative: bool,
    /// The address of an ip-relative operand.
    pub ip_address: u64,
    pub no_base: bool,
    pub no_index: bool,
    /// The numbers `iced-x86` gives the registers.
    pub base: u32,
    pub index: u32,
    pub scale: u32,
    /// Bytes the displacement is encoded in.
    pub width: u32,
    pub displacement: u64,
}

/// Where displacement and immediates sit in the encoding; a length of zero where there is none.
#[derive(Clone, Copy, PartialEq, Eq, Debug, Structural)]
pub struct Constants {
    pub displacement_at: usize,
    pub displacement_len: usize,
    pub immediate_at: usize,
    pub immediate_len: usize,
    pub second_at: usize,
    pub second_len: usize,
}

/// How a register or memory location is accessed.
#[derive(Clone, Copy, PartialEq, Eq, Debug, Structural)]
pub enum Access {
    Nothing,
    Read,
    CondRead,
    Write,
    CondWrite,
    ReadWrite,
    ReadCondWrite,
    NoMemAccess,
}

/// A register an instruction touches, widened to its full size.
#[derive(Clone, Copy, PartialEq, Eq, Debug, Structural)]
pub struct UsedRegister {
    /// The number `iced-x86` gives the full register.
    pub full: u32,
    /// The full register is the accumulator.
    pub accumulator: bool,
    pub access: Access,
}

/// The two arithmetic mnemonics an adjustor thunk starts with.
#[derive(Clone, Copy, PartialEq, Eq, Debug, Structural)]
pub enum Arithmetic {
    Add,
    Sub,
    Other,
}

/// A decoding mode.
pub open spec fn is_mode(bits: u32) -> bool {
    bits == 32 || bits == 64
}

/// What `iced-x86` decodes the head of the instruction at the front of `bytes` to.
pub uninterp spec fn head_of(bits: u32, bytes: Seq<u8>, ip: u64) -> Head;

/// `iced_x86::Decoder::decode` after `Decoder::with_ip`, read through the accessors of
/// `Instruction`. Claimed: the result depends on mode, bytes and address alone; at most fifteen of the
/// given bytes are consumed, and at least one where there is one; there are at most five operands.
#[verifier::external_body]
pub(crate) fn head(bits: u32, bytes: &[u8], ip: u64) -> (r: Head)
    requires
        is_mode(bits),
    ensures
        r == head_of(bits, bytes@, ip),
        r.len <= MAX_INSTRUCTION,
        r.len <= bytes@.len(),
        bytes@.len() > 0 ==> r.len > 0,
        r.operands <= 5,
{
    let i = Decoder::with_ip(bits, bytes, ip, DecoderOptions::NONE).decode();
    Head {
        len: i.len(),
        invalid: i.is_invalid(),
        mnemonic: i.mnemonic() as u32,
        target: i.near_branch_target(),
        operands: i.op_count(),
        immediate32: i.immediate32(),
        immediate64: i.immediate64(),
    }
}

/// What `iced-x86` says of the control flow of the instruction at the front of `bytes`.
pub uninterp spec fn flow_of(bits: u32, bytes: Seq<u8>, ip: u64) -> Flow;

/// `iced_x86::Instruction::flow_control` of the decoded instruction, one variant each. Claimed: it
/// depends on mode, bytes and address alone.
#[verifier::external_body]
pub(crate) fn flow(bits: u32, bytes: &[u8], ip: u64) -> (r: Flow)
    requires
        is_mode(bits),
    ensures
        r == flow_of(bits, bytes@, ip),
{
    match Decoder::with_ip(bits, bytes, ip, DecoderOptions::NONE).decode().flow_control() {
        FlowControl::Next => Flow::Next,
        FlowControl::UnconditionalBranch => Flow::UnconditionalBranch,
        FlowControl::IndirectBranch => Flow::IndirectBranch,
        FlowControl::ConditionalBranch => Flow::ConditionalBranch,
        FlowControl::Return => Flow::Return,
        FlowControl::Call => Flow::Call,
        FlowControl::IndirectCall => Flow::IndirectCall,
        FlowControl::Interrupt => Flow::Interrupt,
        FlowControl::XbeginXabortXend => Flow::Transaction,
        FlowControl::Exception => Flow::Exception,
    }
}

/// What `iced-x86` says of the kind of operand `n`.
pub uninterp spec fn operand_of(bits: u32, bytes: Seq<u8>, ip: u64, n: u32) -> Operand;

/// `iced_x86::Instruction::op_kind` of the decoded instruction, one variant each, with every kind
/// that is no register, memory or immediate operand as `Other`. Claimed: it depends on mode, bytes,
/// address and operand number alone.
#[verifier::external_body]
pub(crate) fn operand(bits: u32, bytes: &[u8], ip: u64, n: u32) -> (r: Operand)
    requires
        is_mode(bits),
        n < 5,
    ensures
        r == operand_of(bits, bytes@, ip, n),
{
    match Decoder::with_ip(bits, bytes, ip, DecoderOptions::NONE).decode().op_kind(n) {
        OpKind::Register => Operand::Register,
        OpKind::Memory => Operand::Memory,
        OpKind::Immediate8 => Operand::Immediate8,
        OpKind::Immediate8_2nd => Operand::Immediate8Second,
        OpKind::Immediate16 => Operand::Immediate16,
        OpKind::Immediate32 => Operand::Immediate32,
        OpKind::Immediate64 => Operand::Immediate64,
        OpKind::Immediate8to16 => Operand::Immediate8to16,
        OpKind::Immediate8to32 => Operand::Immediate8to32,
        OpKind::Immediate8to64 => Operand::Immediate8to64,
        OpKind::Immediate32to64 => Operand::Immediate32to64,
        _ => Operand::Other,
    }
}

/// The value `iced-x86` gives for the immediate operand `n`.
pub uninterp spec fn immediate_of(bits: u32, bytes: Seq<u8>, ip: u64, n: u32) -> u64;

/// `iced_x86::Instruction::immediate` of the decoded instruction. Claimed: it depends on mode, bytes,
/// address and operand number alone.
#[verifier::external_body]
pub(crate) fn immediate(bits: u32, bytes: &[u8], ip: u64, n: u32) -> (r: u64)
    requires
        is_mode(bits),
        n < 5,
        is_immediate_kind_spec(operand_of(bits, bytes@, ip, n)),
    ensures
        r == immediate_of(bits, bytes@, ip, n),
{
    Decoder::with_ip(bits, bytes, ip, DecoderOptions::NONE).decode().immediate(n)
}

/// The number `iced-x86` gives the register of operand `n`.
pub uninterp spec fn register_of(bits: u32, bytes: Seq<u8>, ip: u64, n: u32) -> u32;

/// `iced_x86::Instruction::op_register` of the decoded instruction. Claimed: it depends on mode,
/// bytes, address and operand number alone.
#[verifier::external_body]
pub(crate) fn register(bits: u32, bytes: &[u8], ip: u64, n: u32) -> (r: u32)
    requires
        is_mode(bits),
        n < 5,
    ensures
        r == register_of(bits, bytes@, ip, n),
{
    Decoder::with_ip(bits, bytes, ip, DecoderOptions::NONE).decode().op_register(n) as u32
}

/// What `iced-x86` says of the memory operand of the instruction at the front of `bytes`.
pub uninterp spec fn memory_of(bits: u32, bytes: Seq<u8>, ip: u64) -> MemoryForm;

/// The memory accessors of `iced_x86::Instruction` on the decoded instruction. Claimed: they depend on
/// mode, bytes and address alone.
#[verifier::external_body]
pub(crate) fn memory(bits: u32, bytes: &[u8], ip: u64) -> (r: MemoryForm)
    requires
        is_mode(bits),
    ensures
        r == memory_of(bits, bytes@, ip),
{
    let i = Decoder::with_ip(bits, bytes, ip, DecoderOptions::NONE).decode();
    MemoryForm {
        ip_relative: i.is_ip_rel_memory_operand(),
        ip_address: i.ip_rel_memory_address(),
        no_base: i.memory_base() == Register::None,
        no_index: i.memory_index() == Register::None,
        base: i.memory_base() as u32,
        index: i.memory_index() as u32,
        scale: i.memory_index_scale(),
        width: i.memory_displ_size(),
        displacement: i.memory_displacement64(),
    }
}

/// What `iced-x86` says of the constants in the encoding.
pub uninterp spec fn constants_of(bits: u32, bytes: Seq<u8>, ip: u64) -> Constants;

/// `iced_x86::Decoder::get_constant_offsets` for the instruction just decoded. Claimed: it depends on
/// mode, bytes and address alone.
#[verifier::external_body]
pub(crate) fn constants(bits: u32, bytes: &[u8], ip: u64) -> (r: Constants)
    requires
        is_mode(bits),
    ensures
        r == constants_of(bits, bytes@, ip),
{
    let mut d = Decoder::with_ip(bits, bytes, ip, DecoderOptions::NONE);
    let i = d.decode();
    let c = d.get_constant_offsets(&i);
    Constants {
        displacement_at: c.displacement_offset(),
        displacement_len: c.displacement_size(),
        immediate_at: c.immediate_offset(),
        immediate_len: c.immediate_size(),
        second_at: c.immediate_offset2(),
        second_len: c.immediate_size2(),
    }
}

/// Whether `iced-x86` takes the instruction for an addition or a subtraction.
pub uninterp spec fn arithmetic_of(bits: u32, bytes: Seq<u8>, ip: u64) -> Arithmetic;

/// `iced_x86::Instruction::mnemonic` of the decoded instruction, telling `add` and `sub` apart from
/// the rest. Claimed: it depends on mode, bytes and address alone.
#[verifier::external_body]
pub(crate) fn arithmetic(bits: u32, bytes: &[u8], ip: u64) -> (r: Arithmetic)
    requires
        is_mode(bits),
    ensures
        r == arithmetic_of(bits, bytes@, ip),
{
    match Decoder::with_ip(bits, bytes, ip, DecoderOptions::NONE).decode().mnemonic() {
        Mnemonic::Add => Arithmetic::Add,
        Mnemonic::Sub => Arithmetic::Sub,
        _ => Arithmetic::Other,
    }
}

/// The NASM text of the instruction at the front of `bytes`.
pub uninterp spec fn nasm_of(bits: u32, bytes: Seq<u8>, ip: u64) -> Seq<char>;

/// `iced_x86::NasmFormatter` with its default options on the decoded instruction. Claimed: the text
/// depends on mode, bytes and address alone.
#[verifier::external_body]
pub(crate) fn nasm(bits: u32, bytes: &[u8], ip: u64) -> (r: String)
    requires
        is_mode(bits),
    ensures
        r@ == nasm_of(bits, bytes@, ip),
{
    let i = Decoder::with_ip(bits, bytes, ip, DecoderOptions::NONE).decode();
    let mut text = String::new();
    NasmFormatter::new().format(&i, &mut text);
    text
}

/// How many registers and how many memory locations `iced-x86` says the instruction uses.
pub uninterp spec fn used_counts_of(bits: u32, bytes: Seq<u8>, ip: u64) -> (usize, usize);

/// The lengths of `iced_x86::InstructionInfo::used_registers` and `used_memory` of the decoded
/// instruction. Claimed: they depend on mode, bytes and address alone.
#[verifier::external_body]
pub(crate) fn used_counts(bits: u32, bytes: &[u8], ip: u64) -> (r: (usize, usize))
    requires
        is_mode(bits),
    ensures
        r == used_counts_of(bits, bytes@, ip),
{
    let i = Decoder::with_ip(bits, bytes, ip, DecoderOptions::NONE).decode();
    let mut factory = InstructionInfoFactory::new();
    let info = factory.info(&i);
    (info.used_registers().len(), info.used_memory().len())
}

/// The `n`-th register `iced-x86` says the instruction uses.
pub uninterp spec fn used_register_of(bits: u32, bytes: Seq<u8>, ip: u64, n: usize) -> UsedRegister;

/// Entry `n` of `iced_x86::InstructionInfo::used_registers` of the decoded instruction, its register
/// widened by `Register::full_register`. Claimed: it depends on mode, bytes, address and `n` alone.
#[verifier::external_body]
pub(crate) fn used_register(bits: u32, bytes: &[u8], ip: u64, n: usize) -> (r: UsedRegister)
    requires
        is_mode(bits),
        n < used_counts_of(bits, bytes@, ip).0,
    ensures
        r == used_register_of(bits, bytes@, ip, n),
{
    let i = Decoder::with_ip(bits, bytes, ip, DecoderOptions::NONE).decode();
    let u = InstructionInfoFactory::new().info(&i).used_registers()[n];
    let full = u.register().full_register();
    let access = match u.access() {
        OpAccess::None => Access::Nothing,
        OpAccess::Read => Access::Read,
        OpAccess::CondRead => Access::CondRead,
        OpAccess::Write => Access::Write,
        OpAccess::CondWrite => Access::CondWrite,
        OpAccess::ReadWrite => Access::ReadWrite,
        OpAccess::ReadCondWrite => Access::ReadCondWrite,
        OpAccess::NoMemAccess => Access::NoMemAccess,
    };
    UsedRegister { full: full as u32, accumulator: full == Register::RAX, access }
}

/// How `iced-x86` says the instruction accesses the `n`-th memory location it uses.
pub uninterp spec fn used_memory_of(bits: u32, bytes: Seq<u8>, ip: u64, n: usize) -> Access;

/// The access of entry `n` of `iced_x86::InstructionInfo::used_memory` of the decoded instruction.
/// Claimed: it depends on mode, bytes, address and `n` alone.
#[verifier::external_body]
pub(crate) fn used_memory(bits: u32, bytes: &[u8], ip: u64, n: usize) -> (r: Access)
    requires
        is_mode(bits),
        n < used_counts_of(bits, bytes@, ip).1,
    ensures
        r == used_memory_of(bits, bytes@, ip, n),
{
    let i = Decoder::with_ip(bits, bytes, ip, DecoderOptions::NONE).decode();
    match InstructionInfoFactory::new().info(&i).used_memory()[n].access() {
        OpAccess::None => Access::Nothing,
        OpAccess::Read => Access::Read,
        OpAccess::CondRead => Access::CondRead,
        OpAccess::Write => Access::Write,
        OpAccess::CondWrite => Access::CondWrite,
        OpAccess::ReadWrite => Access::ReadWrite,
        OpAccess::ReadCondWrite => Access::ReadCondWrite,
        OpAccess::NoMemAccess => Access::NoMemAccess,
    }
}

/// Whether an operand kind is an immediate.
pub open spec fn is_immediate_kind_spec(k: Operand) -> bool {
    match k {
        Operand::Register => false,
        Operand::Memory => false,
        Operand::Other => false,
        _ => true,
    }
}

/// Whether an operand kind is an immediate.
pub fn is_immediate_kind(k: Operand) -> (r: bool)
    ensures
        r == is_immediate_kind_spec(k),
{
    match k {
        Operand::Register => false,
        Operand::Memory => false,
        Operand::Other => false,
        _ => true,
    }
}

}
