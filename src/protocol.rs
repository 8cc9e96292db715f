use vstd::prelude::*;

use crate::bytes::{copy_range, push_all};
use crate::command::CommandError;

verus! {

#[derive(Clone, Copy, Debug, PartialEq, Eq, Structural)]
pub enum DeserializeError {
    /// The bytes ran out.
    InsufficientData,
    /// A value broke a rule of the protocol.
    InvalidData,
}

pub open spec fn enc_u16(v: u16) -> Seq<u8> {
    seq![v as u8, (v >> 8u16) as u8]
}

pub open spec fn enc_u32(v: u32) -> Seq<u8> {
    seq![v as u8, (v >> 8u32) as u8, (v >> 16u32) as u8, (v >> 24u32) as u8]
}

pub open spec fn enc_u64(v: u64) -> Seq<u8> {
    seq![
        v as u8, (v >> 8u64) as u8, (v >> 16u64) as u8, (v >> 24u64) as u8,
        (v >> 32u64) as u8, (v >> 40u64) as u8, (v >> 48u64) as u8, (v >> 56u64) as u8,
    ]
}

pub open spec fn dec_u16(s: Seq<u8>) -> u16 {
    (s[0] as u16) | ((s[1] as u16) << 8u16)
}

pub open spec fn dec_u32(s: Seq<u8>) -> u32 {
    (s[0] as u32) | ((s[1] as u32) << 8u32) | ((s[2] as u32) << 16u32) | ((s[3] as u32) << 24u32)
}

pub open spec fn dec_u64(s: Seq<u8>) -> u64 {
    (s[0] as u64) | ((s[1] as u64) << 8u64) | ((s[2] as u64) << 16u64) | ((s[3] as u64) << 24u64)
        | ((s[4] as u64) << 32u64) | ((s[5] as u64) << 40u64) | ((s[6] as u64) << 48u64) | ((s[7] as u64) << 56u64)
}

pub proof fn lemma_u16_round_trip(v: u16)
    ensures
        dec_u16(enc_u16(v)) == v,
{
    let s = enc_u16(v);
    let b0 = v as u8;
    let b1 = (v >> 8u16) as u8;
    assert(s[0] == b0 && s[1] == b1);
    assert(((b0 as u16) | ((b1 as u16) << 8u16)) == v) by (bit_vector)
        requires
            b0 == v as u8,
            b1 == (v >> 8u16) as u8,
    ;
}

pub proof fn lemma_u32_round_trip(v: u32)
    ensures
        dec_u32(enc_u32(v)) == v,
{
    let s = enc_u32(v);
    let b0 = v as u8;
    let b1 = (v >> 8u32) as u8;
    let b2 = (v >> 16u32) as u8;
    let b3 = (v >> 24u32) as u8;
    assert(s[0] == b0 && s[1] == b1 && s[2] == b2 && s[3] == b3);
    assert(((b0 as u32) | ((b1 as u32) << 8u32) | ((b2 as u32) << 16u32) | ((b3 as u32) << 24u32)) == v) by (bit_vector)
        requires
            b0 == v as u8,
            b1 == (v >> 8u32) as u8,
            b2 == (v >> 16u32) as u8,
            b3 == (v >> 24u32) as u8,
    ;
}

pub proof fn lemma_u64_round_trip(v: u64)
    ensures
        dec_u64(enc_u64(v)) == v,
{
    let s = enc_u64(v);
    let b0 = v as u8;
    let b1 = (v >> 8u64) as u8;
    let b2 = (v >> 16u64) as u8;
    let b3 = (v >> 24u64) as u8;
    let b4 = (v >> 32u64) as u8;
    let b5 = (v >> 40u64) as u8;
    let b6 = (v >> 48u64) as u8;
    let b7 = (v >> 56u64) as u8;
    assert(s[0] == b0 && s[1] == b1 && s[2] == b2 && s[3] == b3 && s[4] == b4 && s[5] == b5 && s[6] == b6 && s[7] == b7);
    assert(((b0 as u64) | ((b1 as u64) << 8u64) | ((b2 as u64) << 16u64) | ((b3 as u64) << 24u64)
        | ((b4 as u64) << 32u64) | ((b5 as u64) << 40u64) | ((b6 as u64) << 48u64) | ((b7 as u64) << 56u64)) == v) by (bit_vector)
        requires
            b0 == v as u8,
            b1 == (v >> 8u64) as u8,
            b2 == (v >> 16u64) as u8,
            b3 == (v >> 24u64) as u8,
            b4 == (v >> 32u64) as u8,
            b5 == (v >> 40u64) as u8,
            b6 == (v >> 48u64) as u8,
            b7 == (v >> 56u64) as u8,
    ;
}

pub fn serialize_u8(v: u8, out: &mut Vec<u8>)
    ensures
        final(out)@ == old(out)@.push(v),
{
    out.push(v);
}

/// Little-endian.
pub fn serialize_u16(v: u16, out: &mut Vec<u8>)
    ensures
        final(out)@ == old(out)@ + enc_u16(v),
{
    out.push(v as u8);
    out.push((v >> 8) as u8);
    assert(out@ =~= old(out)@ + enc_u16(v));
}

/// Little-endian.
pub fn serialize_u32(v: u32, out: &mut Vec<u8>)
    ensures
        final(out)@ == old(out)@ + enc_u32(v),
{
    out.push(v as u8);
    out.push((v >> 8) as u8);
    out.push((v >> 16) as u8);
    out.push((v >> 24) as u8);
    assert(out@ =~= old(out)@ + enc_u32(v));
}

/// Little-endian.
pub fn serialize_u64(v: u64, out: &mut Vec<u8>)
    ensures
        final(out)@ == old(out)@ + enc_u64(v),
{
    out.push(v as u8);
    out.push((v >> 8) as u8);
    out.push((v >> 16) as u8);
    out.push((v >> 24) as u8);
    out.push((v >> 32) as u8);
    out.push((v >> 40) as u8);
    out.push((v >> 48) as u8);
    out.push((v >> 56) as u8);
    assert(out@ =~= old(out)@ + enc_u64(v));
}

/// Reads values from a byte buffer, front to back.
pub struct Deserializer {
    bytes: Vec<u8>,
    pos: usize,
}

impl Deserializer {
    /// The bytes not read yet.
    pub closed spec fn rest(&self) -> Seq<u8> {
        self.bytes@.subrange(self.pos as int, self.bytes@.len() as int)
    }

    pub closed spec fn wf(&self) -> bool {
        self.pos <= self.bytes@.len()
    }

    pub fn new(bytes: Vec<u8>) -> (r: Self)
        ensures
            r.wf(),
            r.rest() == bytes@,
    {
        let r = Deserializer { bytes, pos: 0 };
        assert(r.rest() =~= r.bytes@);
        r
    }

    /// The next `len` bytes.
    pub fn read(&mut self, len: usize) -> (r: Result<Vec<u8>, DeserializeError>)
        requires
            old(self).wf(),
        ensures
            final(self).wf(),
            len > old(self).rest().len() ==> r == Err::<Vec<u8>, DeserializeError>(DeserializeError::InsufficientData)
                && final(self).rest() == old(self).rest(),
            len <= old(self).rest().len() ==> r is Ok && r->Ok_0@ == old(self).rest().subrange(0, len as int)
                && final(self).rest() == old(self).rest().subrange(len as int, old(self).rest().len() as int),
    {
        if len > self.bytes.len() - self.pos {
            return Err(DeserializeError::InsufficientData);
        }
        let r = copy_range(self.bytes.as_slice(), self.pos, self.pos + len);
        self.pos = self.pos + len;
        assert(r@ =~= old(self).rest().subrange(0, len as int));
        assert(self.rest() =~= old(self).rest().subrange(len as int, old(self).rest().len() as int));
        Ok(r)
    }

    pub fn read_u8(&mut self) -> (r: Result<u8, DeserializeError>)
        requires
            old(self).wf(),
        ensures
            final(self).wf(),
            old(self).rest().len() < 1 ==> r == Err::<u8, DeserializeError>(DeserializeError::InsufficientData),
            old(self).rest().len() >= 1 ==> r == Ok::<u8, DeserializeError>(old(self).rest()[0])
                && final(self).rest() == old(self).rest().subrange(1, old(self).rest().len() as int),
    {
        let b = self.read(1)?;
        Ok(b[0])
    }

    pub fn read_u16(&mut self) -> (r: Result<u16, DeserializeError>)
        requires
            old(self).wf(),
        ensures
            final(self).wf(),
            old(self).rest().len() < 2 ==> r == Err::<u16, DeserializeError>(DeserializeError::InsufficientData),
            old(self).rest().len() >= 2 ==> r == Ok::<u16, DeserializeError>(dec_u16(old(self).rest()))
                && final(self).rest() == old(self).rest().subrange(2, old(self).rest().len() as int),
    {
        let b = self.read(2)?;
        Ok((b[0] as u16) | ((b[1] as u16) << 8))
    }

    pub fn read_u32(&mut self) -> (r: Result<u32, DeserializeError>)
        requires
            old(self).wf(),
        ensures
            final(self).wf(),
            old(self).rest().len() < 4 ==> r == Err::<u32, DeserializeError>(DeserializeError::InsufficientData),
            old(self).rest().len() >= 4 ==> r == Ok::<u32, DeserializeError>(dec_u32(old(self).rest()))
                && final(self).rest() == old(self).rest().subrange(4, old(self).rest().len() as int),
    {
        let b = self.read(4)?;
        Ok((b[0] as u32) | ((b[1] as u32) << 8) | ((b[2] as u32) << 16) | ((b[3] as u32) << 24))
    }

    pub fn read_u64(&mut self) -> (r: Result<u64, DeserializeError>)
        requires
            old(self).wf(),
        ensures
            final(self).wf(),
            old(self).rest().len() < 8 ==> r == Err::<u64, DeserializeError>(DeserializeError::InsufficientData),
            old(self).rest().len() >= 8 ==> r == Ok::<u64, DeserializeError>(dec_u64(old(self).rest()))
                && final(self).rest() == old(self).rest().subrange(8, old(self).rest().len() as int),
    {
        let b = self.read(8)?;
        Ok((b[0] as u64) | ((b[1] as u64) << 8) | ((b[2] as u64) << 16) | ((b[3] as u64) << 24)
            | ((b[4] as u64) << 32) | ((b[5] as u64) << 40) | ((b[6] as u64) << 48) | ((b[7] as u64) << 56))
    }
}

/// What talking to the debugger can fail with.
pub enum ProtocolError {
    DeserializeError(DeserializeError),
    RemedybgCommandResult(RemedybgCommandResult),
    CommandError(CommandError),
}

impl ProtocolError {
    /// A short description; for a command error, see its own display.
    pub fn message(&self) -> (r: &'static str)
        ensures
            r == match self {
                ProtocolError::DeserializeError(DeserializeError::InvalidData) => "deserialize error: invalid data",
                ProtocolError::DeserializeError(DeserializeError::InsufficientData) => "deserialize error: insufficient data",
                ProtocolError::RemedybgCommandResult(result) => command_result_name(*result),
                ProtocolError::CommandError(_) => "command error",
            },
    {
        match self {
            ProtocolError::DeserializeError(DeserializeError::InvalidData) => "deserialize error: invalid data",
            ProtocolError::DeserializeError(DeserializeError::InsufficientData) => "deserialize error: insufficient data",
            ProtocolError::RemedybgCommandResult(result) => result.name(),
            ProtocolError::CommandError(_) => "command error",
        }
    }
}

/// The rest of `s` after its first `n` bytes.
pub open spec fn after(s: Seq<u8>, n: int) -> Seq<u8> {
    s.subrange(n, s.len() as int)
}

/// A string on the wire: a `u16` length, then that many bytes.
pub open spec fn spec_decode_str(s: Seq<u8>) -> Result<(Seq<u8>, int), DeserializeError> {
    if s.len() < 2 {
        Err(DeserializeError::InsufficientData)
    } else if s.len() < 2 + dec_u16(s) {
        Err(DeserializeError::InsufficientData)
    } else {
        Ok((s.subrange(2, 2 + dec_u16(s)), 2 + dec_u16(s)))
    }
}

pub open spec fn enc_str(b: Seq<u8>) -> Seq<u8> {
    enc_u16(b.len() as u16) + b
}

#[derive(Clone, Copy, Debug, PartialEq, Eq, Structural)]
pub struct RemedybgBool(pub bool);

impl RemedybgBool {
    /// One byte: 1 for true, 0 for false.
    pub fn serialize(&self, out: &mut Vec<u8>)
        ensures
            final(out)@ == old(out)@.push(if self.0 { 1u8 } else { 0u8 }),
    {
        serialize_u8(if self.0 { 1 } else { 0 }, out);
    }

    /// Any byte but 0 reads as true.
    pub fn deserialize(d: &mut Deserializer) -> (r: Result<Self, DeserializeError>)
        requires
            old(d).wf(),
        ensures
            final(d).wf(),
            old(d).rest().len() < 1 ==> r == Err::<Self, DeserializeError>(DeserializeError::InsufficientData),
            old(d).rest().len() >= 1 ==> r == Ok::<Self, DeserializeError>(RemedybgBool(old(d).rest()[0] != 0))
                && final(d).rest() == after(old(d).rest(), 1),
    {
        let b = d.read_u8()?;
        Ok(RemedybgBool(b != 0))
    }
}

/// An id of the debugger; 0 is never one.
#[derive(Clone, Copy, Debug, PartialEq, Eq, Structural)]
pub struct RemedybgId(pub u32);

impl RemedybgId {
    pub fn serialize(&self, out: &mut Vec<u8>)
        ensures
            final(out)@ == old(out)@ + enc_u32(self.0),
    {
        serialize_u32(self.0, out);
    }

    pub fn deserialize(d: &mut Deserializer) -> (r: Result<Self, DeserializeError>)
        requires
            old(d).wf(),
        ensures
            final(d).wf(),
            match spec_decode_id(old(d).rest()) {
                Ok((id, n)) => r == Ok::<Self, DeserializeError>(RemedybgId(id)) && final(d).rest() == after(old(d).rest(), n),
                Err(e) => r == Err::<Self, DeserializeError>(e),
            },
    {
        let id = d.read_u32()?;
        if id == 0 {
            Err(DeserializeError::InvalidData)
        } else {
            Ok(RemedybgId(id))
        }
    }
}

pub open spec fn spec_decode_id(s: Seq<u8>) -> Result<(u32, int), DeserializeError> {
    if s.len() < 4 {
        Err(DeserializeError::InsufficientData)
    } else if dec_u32(s) == 0 {
        Err(DeserializeError::InvalidData)
    } else {
        Ok((dec_u32(s), 4))
    }
}

/// Bytes of a string of the debugger, UTF-8 by its documentation.
#[derive(Debug)]
pub struct RemedybgStr(pub Vec<u8>);

impl RemedybgStr {
    /// The length as a `u16`, then the bytes.
    pub fn serialize(&self, out: &mut Vec<u8>)
        requires
            self.0@.len() <= u16::MAX,
        ensures
            final(out)@ == old(out)@ + enc_str(self.0@),
    {
        serialize_u16(self.0.len() as u16, out);
        push_all(out, self.0.as_slice());
        assert(final(out)@ =~= old(out)@ + enc_str(self.0@));
    }

    pub fn deserialize(d: &mut Deserializer) -> (r: Result<Self, DeserializeError>)
        requires
            old(d).wf(),
        ensures
            final(d).wf(),
            match spec_decode_str(old(d).rest()) {
                Ok((b, n)) => r is Ok && r->Ok_0.0@ == b && final(d).rest() == after(old(d).rest(), n),
                Err(e) => r == Err::<Self, DeserializeError>(e),
            },
    {
        let bytes = deserialize_remedybg_bytes(d)?;
        Ok(RemedybgStr(bytes))
    }
}

/// A length-prefixed run of bytes.
pub fn deserialize_remedybg_bytes(d: &mut Deserializer) -> (r: Result<Vec<u8>, DeserializeError>)
    requires
        old(d).wf(),
    ensures
        final(d).wf(),
        match spec_decode_str(old(d).rest()) {
            Ok((b, n)) => r is Ok && r->Ok_0@ == b && final(d).rest() == after(old(d).rest(), n),
            Err(e) => r == Err::<Vec<u8>, DeserializeError>(e),
        },
{
    let ghost s = d.rest();
    let len = d.read_u16()?;
    let bytes = d.read(len as usize)?;
    assert(after(after(s, 2), len as int) =~= after(s, 2 + len));
    assert(after(s, 2).subrange(0, len as int) =~= s.subrange(2, 2 + len));
    Ok(bytes)
}

#[derive(Clone, Copy, Debug, PartialEq, Eq, Structural)]
pub enum RemedybgCommandResult {
    Unknown,
    Success,
    Fail,
    Aborted,
    InvalidCommand,
    BufferTooSmall,
    FailedOpeningFile,
    FailedSavingSession,
    InvalidId,
    InvalidTargetState,
    NoActiveConfig,
    InvalidBreakpointKind,
}

pub open spec fn command_result_of(d: u16) -> Option<RemedybgCommandResult> {
    if d == 0 { Some(RemedybgCommandResult::Unknown) }
    else if d == 1 { Some(RemedybgCommandResult::Success) }
    else if d == 2 { Some(RemedybgCommandResult::Fail) }
    else if d == 3 { Some(RemedybgCommandResult::Aborted) }
    else if d == 4 { Some(RemedybgCommandResult::InvalidCommand) }
    else if d == 5 { Some(RemedybgCommandResult::BufferTooSmall) }
    else if d == 6 { Some(RemedybgCommandResult::FailedOpeningFile) }
    else if d == 7 { Some(RemedybgCommandResult::FailedSavingSession) }
    else if d == 8 { Some(RemedybgCommandResult::InvalidId) }
    else if d == 9 { Some(RemedybgCommandResult::InvalidTargetState) }
    else if d == 10 { Some(RemedybgCommandResult::NoActiveConfig) }
    else if d == 11 { Some(RemedybgCommandResult::InvalidBreakpointKind) }
    else { None }
}

/// The name shown for each command result.
pub open spec fn command_result_name(v: RemedybgCommandResult) -> &'static str {
    match v {
        RemedybgCommandResult::Unknown => "unknown",
        RemedybgCommandResult::Success => "ok",
        RemedybgCommandResult::Fail => "fail",
        RemedybgCommandResult::Aborted => "aborted",
        RemedybgCommandResult::InvalidCommand => "invalid command",
        RemedybgCommandResult::BufferTooSmall => "buffer too small",
        RemedybgCommandResult::FailedOpeningFile => "failed opening file",
        RemedybgCommandResult::FailedSavingSession => "failed saving session",
        RemedybgCommandResult::InvalidId => "invalid id",
        RemedybgCommandResult::InvalidTargetState => "invalid target state",
        RemedybgCommandResult::NoActiveConfig => "no active config",
        RemedybgCommandResult::InvalidBreakpointKind => "invalid breakpoint kind",
    }
}

impl RemedybgCommandResult {
    /// A `u16` code from 0 to 11; any other is invalid.
    pub fn deserialize(d: &mut Deserializer) -> (r: Result<Self, DeserializeError>)
        requires
            old(d).wf(),
        ensures
            final(d).wf(),
            old(d).rest().len() < 2 ==> r == Err::<Self, DeserializeError>(DeserializeError::InsufficientData),
            old(d).rest().len() >= 2 ==> match command_result_of(dec_u16(old(d).rest())) {
                Some(v) => r == Ok::<Self, DeserializeError>(v) && final(d).rest() == after(old(d).rest(), 2),
                None => r == Err::<Self, DeserializeError>(DeserializeError::InvalidData),
            },
    {
        let discriminant = d.read_u16()?;
        match discriminant {
            0 => Ok(RemedybgCommandResult::Unknown),
            1 => Ok(RemedybgCommandResult::Success),
            2 => Ok(RemedybgCommandResult::Fail),
            3 => Ok(RemedybgCommandResult::Aborted),
            4 => Ok(RemedybgCommandResult::InvalidCommand),
            5 => Ok(RemedybgCommandResult::BufferTooSmall),
            6 => Ok(RemedybgCommandResult::FailedOpeningFile),
            7 => Ok(RemedybgCommandResult::FailedSavingSession),
            8 => Ok(RemedybgCommandResult::InvalidId),
            9 => Ok(RemedybgCommandResult::InvalidTargetState),
            10 => Ok(RemedybgCommandResult::NoActiveConfig),
            11 => Ok(RemedybgCommandResult::InvalidBreakpointKind),
            _ => Err(DeserializeError::InvalidData),
        }
    }

    /// The result's name, as shown to the user.
    pub fn name(&self) -> (r: &'static str)
        ensures
            r == command_result_name(*self),
    {
        match self {
            RemedybgCommandResult::Unknown => "unknown",
            RemedybgCommandResult::Success => "ok",
            RemedybgCommandResult::Fail => "fail",
            RemedybgCommandResult::Aborted => "aborted",
            RemedybgCommandResult::InvalidCommand => "invalid command",
            RemedybgCommandResult::BufferTooSmall => "buffer too small",
            RemedybgCommandResult::FailedOpeningFile => "failed opening file",
            RemedybgCommandResult::FailedSavingSession => "failed saving session",
            RemedybgCommandResult::InvalidId => "invalid id",
            RemedybgCommandResult::InvalidTargetState => "invalid target state",
            RemedybgCommandResult::NoActiveConfig => "no active config",
            RemedybgCommandResult::InvalidBreakpointKind => "invalid breakpoint kind",
        }
    }
}

#[derive(Clone, Copy, Debug, PartialEq, Eq, Structural)]
pub enum RemedybgProcessorBreakpointAccessKind {
    Write,
    ReadWrite,
    Execute,
}

pub enum RemedybgProtocolBreakpoint {
    FunctionName { function_name: RemedybgStr, overload_id: u32 },
    FilenameLine { filename: RemedybgStr, line_num: u32 },
    Address { address: u64 },
    Processor { addr_expression: RemedybgStr, num_bytes: u8, access_kind: RemedybgProcessorBreakpointAccessKind },
}

/// A breakpoint with its strings as byte sequences.
pub enum BreakpointView {
    FunctionName { function_name: Seq<u8>, overload_id: u32 },
    FilenameLine { filename: Seq<u8>, line_num: u32 },
    Address { address: u64 },
    Processor { addr_expression: Seq<u8>, num_bytes: u8, access_kind: RemedybgProcessorBreakpointAccessKind },
}

impl View for RemedybgProtocolBreakpoint {
    type V = BreakpointView;

    open spec fn view(&self) -> BreakpointView {
        match self {
            RemedybgProtocolBreakpoint::FunctionName { function_name, overload_id } =>
                BreakpointView::FunctionName { function_name: function_name.0@, overload_id: *overload_id },
            RemedybgProtocolBreakpoint::FilenameLine { filename, line_num } =>
                BreakpointView::FilenameLine { filename: filename.0@, line_num: *line_num },
            RemedybgProtocolBreakpoint::Address { address } => BreakpointView::Address { address: *address },
            RemedybgProtocolBreakpoint::Processor { addr_expression, num_bytes, access_kind } =>
                BreakpointView::Processor { addr_expression: addr_expression.0@, num_bytes: *num_bytes, access_kind: *access_kind },
        }
    }
}

pub open spec fn access_kind_of(b: u8) -> Option<RemedybgProcessorBreakpointAccessKind> {
    if b == 1 {
        Some(RemedybgProcessorBreakpointAccessKind::Write)
    } else if b == 2 {
        Some(RemedybgProcessorBreakpointAccessKind::ReadWrite)
    } else if b == 3 {
        Some(RemedybgProcessorBreakpointAccessKind::Execute)
    } else {
        None
    }
}

/// The breakpoint at the front of `s`, with how many bytes it takes: a `u8`
/// kind from 1 to 4, then a string and a `u32` (kinds 1 and 2), a `u64`
/// (kind 3), or a string, a `u8` and an access kind from 1 to 3 (kind 4).
pub open spec fn spec_decode_breakpoint(s: Seq<u8>) -> Result<(BreakpointView, int), DeserializeError> {
    if s.len() < 1 {
        Err(DeserializeError::InsufficientData)
    } else {
        let k = s[0];
        let r = after(s, 1);
        if k == 1 || k == 2 {
            match spec_decode_str(r) {
                Err(e) => Err(e),
                Ok((name, n)) => {
                    let r2 = after(r, n);
                    if r2.len() < 4 {
                        Err(DeserializeError::InsufficientData)
                    } else if k == 1 {
                        Ok((BreakpointView::FunctionName { function_name: name, overload_id: dec_u32(r2) }, 1 + n + 4))
                    } else {
                        Ok((BreakpointView::FilenameLine { filename: name, line_num: dec_u32(r2) }, 1 + n + 4))
                    }
                },
            }
        } else if k == 3 {
            if r.len() < 8 {
                Err(DeserializeError::InsufficientData)
            } else {
                Ok((BreakpointView::Address { address: dec_u64(r) }, 9))
            }
        } else if k == 4 {
            match spec_decode_str(r) {
                Err(e) => Err(e),
                Ok((expr, n)) => {
                    let r2 = after(r, n);
                    if r2.len() < 2 {
                        Err(DeserializeError::InsufficientData)
                    } else {
                        match access_kind_of(r2[1]) {
                            None => Err(DeserializeError::InvalidData),
                            Some(kind) => Ok((BreakpointView::Processor { addr_expression: expr, num_bytes: r2[0], access_kind: kind }, 1 + n + 2)),
                        }
                    }
                },
            }
        } else {
            Err(DeserializeError::InvalidData)
        }
    }
}

impl RemedybgProtocolBreakpoint {
    /// A `u8` kind from 1 to 4, then the fields of that kind.
    pub fn deserialize(d: &mut Deserializer) -> (r: Result<Self, DeserializeError>)
        requires
            old(d).wf(),
        ensures
            final(d).wf(),
            match spec_decode_breakpoint(old(d).rest()) {
                Ok((v, n)) => r is Ok && r->Ok_0@ == v && final(d).rest() == after(old(d).rest(), n),
                Err(e) => r is Err && r->Err_0 == e,
            },
    {
        let ghost s = d.rest();
        let kind = d.read_u8()?;
        let ghost r0 = d.rest();
        assert(r0 == after(s, 1));
        match kind {
            1 | 2 => {
                let name = RemedybgStr::deserialize(d)?;
                let ghost r2 = d.rest();
                let value = d.read_u32()?;
                proof {
                    let n = spec_decode_str(r0)->Ok_0.1;
                    assert(r2 == after(r0, n));
                    assert(d.rest() =~= after(s, 1 + n + 4));
                }
                if kind == 1 {
                    Ok(RemedybgProtocolBreakpoint::FunctionName { function_name: name, overload_id: value })
                } else {
                    Ok(RemedybgProtocolBreakpoint::FilenameLine { filename: name, line_num: value })
                }
            },
            3 => {
                let address = d.read_u64()?;
                assert(d.rest() =~= after(s, 9));
                Ok(RemedybgProtocolBreakpoint::Address { address })
            },
            4 => {
                let addr_expression = RemedybgStr::deserialize(d)?;
                let ghost r2 = d.rest();
                proof {
                    let n = spec_decode_str(r0)->Ok_0.1;
                    assert(r2 == after(r0, n));
                }
                let num_bytes = d.read_u8()?;
                let access = d.read_u8()?;
                let access_kind = match access {
                    1 => RemedybgProcessorBreakpointAccessKind::Write,
                    2 => RemedybgProcessorBreakpointAccessKind::ReadWrite,
                    3 => RemedybgProcessorBreakpointAccessKind::Execute,
                    _ => return Err(DeserializeError::InvalidData),
                };
                proof {
                    let n = spec_decode_str(r0)->Ok_0.1;
                    assert(r2[1] == access);
                    assert(d.rest() =~= after(s, 1 + n + 2));
                }
                Ok(RemedybgProtocolBreakpoint::Processor { addr_expression, num_bytes, access_kind })
            },
            _ => Err(DeserializeError::InvalidData),
        }
    }
}

pub const RDBG_IF_DEBUGGING_TARGET_STOP_DEBUGGING: u8 = 1;

#[derive(Clone, Copy, Debug, PartialEq, Eq, Structural)]
pub enum RemedybgCommandKind {
    StartDebugging,
    StopDebugging,
    AttachToProcessByPid,
    AttachToProcessByName,
    StepIntoByLine,
    StepOverByLine,
    StepOut,
    ContinueExecution,
    RunToFileAtLine,
    BreakExecution,
    GetBreakpoints,
    AddBreakpointAtFilenameLine,
    UpdateBreakpointLine,
    DeleteBreakpoint,
    GetBreakpoint,
}

/// The code that the protocol gives each command.
pub open spec fn command_code(k: RemedybgCommandKind) -> u16 {
    match k {
        RemedybgCommandKind::StartDebugging => 301,
        RemedybgCommandKind::StopDebugging => 302,
        RemedybgCommandKind::AttachToProcessByPid => 304,
        RemedybgCommandKind::AttachToProcessByName => 305,
        RemedybgCommandKind::StepIntoByLine => 307,
        RemedybgCommandKind::StepOverByLine => 309,
        RemedybgCommandKind::StepOut => 311,
        RemedybgCommandKind::ContinueExecution => 312,
        RemedybgCommandKind::RunToFileAtLine => 313,
        RemedybgCommandKind::BreakExecution => 314,
        RemedybgCommandKind::GetBreakpoints => 600,
        RemedybgCommandKind::AddBreakpointAtFilenameLine => 604,
        RemedybgCommandKind::UpdateBreakpointLine => 608,
        RemedybgCommandKind::DeleteBreakpoint => 610,
        RemedybgCommandKind::GetBreakpoint => 612,
    }
}

impl RemedybgCommandKind {
    pub fn code(self) -> (r: u16)
        ensures
            r == command_code(self),
    {
        match self {
            RemedybgCommandKind::StartDebugging => 301,
            RemedybgCommandKind::StopDebugging => 302,
            RemedybgCommandKind::AttachToProcessByPid => 304,
            RemedybgCommandKind::AttachToProcessByName => 305,
            RemedybgCommandKind::StepIntoByLine => 307,
            RemedybgCommandKind::StepOverByLine => 309,
            RemedybgCommandKind::StepOut => 311,
            RemedybgCommandKind::ContinueExecution => 312,
            RemedybgCommandKind::RunToFileAtLine => 313,
            RemedybgCommandKind::BreakExecution => 314,
            RemedybgCommandKind::GetBreakpoints => 600,
            RemedybgCommandKind::AddBreakpointAtFilenameLine => 604,
            RemedybgCommandKind::UpdateBreakpointLine => 608,
            RemedybgCommandKind::DeleteBreakpoint => 610,
            RemedybgCommandKind::GetBreakpoint => 612,
        }
    }

    /// The command's code as a `u16`.
    pub fn serialize(self, out: &mut Vec<u8>)
        ensures
            final(out)@ == old(out)@ + enc_u16(command_code(self)),
    {
        serialize_u16(self.code(), out);
    }
}

#[derive(Clone, Copy, Debug, PartialEq, Eq, Structural)]
pub enum RemedybgSourceLocationChangedReason {
    Unspecified,
    ByCommandLine,
    ByDriver,
    BreakpointSelected,
    CurrentFrameChanged,
    ActiveThreadChanged,
    BreakpointHit,
    ExceptionHit,
    StepOver,
    StepIn,
    StepOut,
    NonUserBreakpoint,
    DebugBreak,
}

pub open spec fn reason_code(r: RemedybgSourceLocationChangedReason) -> u16 {
    match r {
        RemedybgSourceLocationChangedReason::Unspecified => 0,
        RemedybgSourceLocationChangedReason::ByCommandLine => 1,
        RemedybgSourceLocationChangedReason::ByDriver => 2,
        RemedybgSourceLocationChangedReason::BreakpointSelected => 3,
        RemedybgSourceLocationChangedReason::CurrentFrameChanged => 4,
        RemedybgSourceLocationChangedReason::ActiveThreadChanged => 5,
        RemedybgSourceLocationChangedReason::BreakpointHit => 6,
        RemedybgSourceLocationChangedReason::ExceptionHit => 7,
        RemedybgSourceLocationChangedReason::StepOver => 8,
        RemedybgSourceLocationChangedReason::StepIn => 9,
        RemedybgSourceLocationChangedReason::StepOut => 10,
        RemedybgSourceLocationChangedReason::NonUserBreakpoint => 11,
        RemedybgSourceLocationChangedReason::DebugBreak => 12,
    }
}

pub open spec fn reason_of(d: u16) -> Option<RemedybgSourceLocationChangedReason> {
    if d == 0 { Some(RemedybgSourceLocationChangedReason::Unspecified) }
    else if d == 1 { Some(RemedybgSourceLocationChangedReason::ByCommandLine) }
    else if d == 2 { Some(RemedybgSourceLocationChangedReason::ByDriver) }
    else if d == 3 { Some(RemedybgSourceLocationChangedReason::BreakpointSelected) }
    else if d == 4 { Some(RemedybgSourceLocationChangedReason::CurrentFrameChanged) }
    else if d == 5 { Some(RemedybgSourceLocationChangedReason::ActiveThreadChanged) }
    else if d == 6 { Some(RemedybgSourceLocationChangedReason::BreakpointHit) }
    else if d == 7 { Some(RemedybgSourceLocationChangedReason::ExceptionHit) }
    else if d == 8 { Some(RemedybgSourceLocationChangedReason::StepOver) }
    else if d == 9 { Some(RemedybgSourceLocationChangedReason::StepIn) }
    else if d == 10 { Some(RemedybgSourceLocationChangedReason::StepOut) }
    else if d == 11 { Some(RemedybgSourceLocationChangedReason::NonUserBreakpoint) }
    else if d == 12 { Some(RemedybgSourceLocationChangedReason::DebugBreak) }
    else { None }
}

pub open spec fn spec_decode_reason(s: Seq<u8>) -> Result<(RemedybgSourceLocationChangedReason, int), DeserializeError> {
    if s.len() < 2 {
        Err(DeserializeError::InsufficientData)
    } else {
        match reason_of(dec_u16(s)) {
            Some(r) => Ok((r, 2)),
            None => Err(DeserializeError::InvalidData),
        }
    }
}

impl RemedybgSourceLocationChangedReason {
    pub fn serialize(self, out: &mut Vec<u8>)
        ensures
            final(out)@ == old(out)@ + enc_u16(reason_code(self)),
    {
        let code: u16 = match self {
            RemedybgSourceLocationChangedReason::Unspecified => 0,
            RemedybgSourceLocationChangedReason::ByCommandLine => 1,
            RemedybgSourceLocationChangedReason::ByDriver => 2,
            RemedybgSourceLocationChangedReason::BreakpointSelected => 3,
            RemedybgSourceLocationChangedReason::CurrentFrameChanged => 4,
            RemedybgSourceLocationChangedReason::ActiveThreadChanged => 5,
            RemedybgSourceLocationChangedReason::BreakpointHit => 6,
            RemedybgSourceLocationChangedReason::ExceptionHit => 7,
            RemedybgSourceLocationChangedReason::StepOver => 8,
            RemedybgSourceLocationChangedReason::StepIn => 9,
            RemedybgSourceLocationChangedReason::StepOut => 10,
            RemedybgSourceLocationChangedReason::NonUserBreakpoint => 11,
            RemedybgSourceLocationChangedReason::DebugBreak => 12,
        };
        serialize_u16(code, out);
    }

    /// A `u16` code from 0 to 12; any other is invalid.
    pub fn deserialize(d: &mut Deserializer) -> (r: Result<Self, DeserializeError>)
        requires
            old(d).wf(),
        ensures
            final(d).wf(),
            match spec_decode_reason(old(d).rest()) {
                Ok((v, n)) => r == Ok::<Self, DeserializeError>(v) && final(d).rest() == after(old(d).rest(), n),
                Err(e) => r == Err::<Self, DeserializeError>(e),
            },
    {
        let discriminant = d.read_u16()?;
        match discriminant {
            0 => Ok(Self::Unspecified),
            1 => Ok(Self::ByCommandLine),
            2 => Ok(Self::ByDriver),
            3 => Ok(Self::BreakpointSelected),
            4 => Ok(Self::CurrentFrameChanged),
            5 => Ok(Self::ActiveThreadChanged),
            6 => Ok(Self::BreakpointHit),
            7 => Ok(Self::ExceptionHit),
            8 => Ok(Self::StepOver),
            9 => Ok(Self::StepIn),
            10 => Ok(Self::StepOut),
            11 => Ok(Self::NonUserBreakpoint),
            12 => Ok(Self::DebugBreak),
            _ => Err(DeserializeError::InvalidData),
        }
    }
}

/// The short description of each event.
pub open spec fn event_name(e: EventView) -> &'static str {
    match e {
        EventView::ExitProcess { .. } => "exit process",
        EventView::SourceLocationChanged { .. } => "source location changed",
        EventView::Breakpoint { code, .. } => if code == 600 {
            "breakpoint hit"
        } else if code == 601 {
            "breakpoint resolved"
        } else if code == 602 {
            "breakpoint added"
        } else if code == 603 {
            "breakpoint modified"
        } else {
            "breakpoint removed"
        },
        EventView::OutputDebugString { .. } => "output debug string",
    }
}

pub enum RemedybgEvent {
    ExitProcess { exit_code: u32 },
    SourceLocationChanged { filename: RemedybgStr, line_num: u32, reason: RemedybgSourceLocationChangedReason },
    BreakpointHit { breakpoint_id: RemedybgId },
    BreakpointResolved { breakpoint_id: RemedybgId },
    BreakpointAdded { breakpoint_id: RemedybgId },
    BreakpointModified { breakpoint_id: RemedybgId },
    BreakpointRemoved { breakpoint_id: RemedybgId },
    OutputDebugString { string: RemedybgStr },
}

/// An event with its strings as byte sequences.
pub enum EventView {
    ExitProcess { exit_code: u32 },
    SourceLocationChanged { filename: Seq<u8>, line_num: u32, reason: RemedybgSourceLocationChangedReason },
    /// One of the five breakpoint events, by its code (600 to 604).
    Breakpoint { code: u16, id: u32 },
    OutputDebugString { string: Seq<u8> },
}

impl View for RemedybgEvent {
    type V = EventView;

    open spec fn view(&self) -> EventView {
        match self {
            RemedybgEvent::ExitProcess { exit_code } => EventView::ExitProcess { exit_code: *exit_code },
            RemedybgEvent::SourceLocationChanged { filename, line_num, reason } => EventView::SourceLocationChanged { filename: filename.0@, line_num: *line_num, reason: *reason },
            RemedybgEvent::BreakpointHit { breakpoint_id } => EventView::Breakpoint { code: 600, id: breakpoint_id.0 },
            RemedybgEvent::BreakpointResolved { breakpoint_id } => EventView::Breakpoint { code: 601, id: breakpoint_id.0 },
            RemedybgEvent::BreakpointAdded { breakpoint_id } => EventView::Breakpoint { code: 602, id: breakpoint_id.0 },
            RemedybgEvent::BreakpointModified { breakpoint_id } => EventView::Breakpoint { code: 603, id: breakpoint_id.0 },
            RemedybgEvent::BreakpointRemoved { breakpoint_id } => EventView::Breakpoint { code: 604, id: breakpoint_id.0 },
            RemedybgEvent::OutputDebugString { string } => EventView::OutputDebugString { string: string.0@ },
        }
    }
}

/// An event the protocol can carry: ids are not 0, strings fit a `u16` length,
/// breakpoint codes are 600 to 604.
pub open spec fn event_valid(e: EventView) -> bool {
    match e {
        EventView::ExitProcess { .. } => true,
        EventView::SourceLocationChanged { filename, .. } => filename.len() <= u16::MAX,
        EventView::Breakpoint { code, id } => 600 <= code <= 604 && id != 0,
        EventView::OutputDebugString { string } => string.len() <= u16::MAX,
    }
}

/// The bytes of an event: its `u16` code, then its fields.
pub open spec fn spec_encode_event(e: EventView) -> Seq<u8> {
    match e {
        EventView::ExitProcess { exit_code } => enc_u16(100) + enc_u32(exit_code),
        EventView::SourceLocationChanged { filename, line_num, reason } => enc_u16(200) + enc_str(filename) + enc_u32(line_num) + enc_u16(reason_code(reason)),
        EventView::Breakpoint { code, id } => enc_u16(code) + enc_u32(id),
        EventView::OutputDebugString { string } => enc_u16(800) + enc_str(string),
    }
}

/// The event at the front of `s`, with how many bytes it takes.
pub open spec fn spec_decode_event(s: Seq<u8>) -> Result<(EventView, int), DeserializeError> {
    if s.len() < 2 {
        Err(DeserializeError::InsufficientData)
    } else {
        let d = dec_u16(s);
        let r = after(s, 2);
        if d == 100 {
            if r.len() < 4 { Err(DeserializeError::InsufficientData) } else { Ok((EventView::ExitProcess { exit_code: dec_u32(r) }, 6)) }
        } else if d == 200 {
            match spec_decode_str(r) {
                Err(e) => Err(e),
                Ok((filename, n)) => {
                    let r2 = after(r, n);
                    if r2.len() < 4 {
                        Err(DeserializeError::InsufficientData)
                    } else {
                        match spec_decode_reason(after(r2, 4)) {
                            Err(e) => Err(e),
                            Ok((reason, _)) => Ok((EventView::SourceLocationChanged { filename, line_num: dec_u32(r2), reason }, 2 + n + 4 + 2)),
                        }
                    }
                },
            }
        } else if 600 <= d <= 604 {
            match spec_decode_id(r) {
                Err(e) => Err(e),
                Ok((id, _)) => Ok((EventView::Breakpoint { code: d, id }, 6)),
            }
        } else if d == 800 {
            match spec_decode_str(r) {
                Err(e) => Err(e),
                Ok((string, n)) => Ok((EventView::OutputDebugString { string }, 2 + n)),
            }
        } else {
            Err(DeserializeError::InvalidData)
        }
    }
}

impl RemedybgEvent {
    pub fn serialize(&self, out: &mut Vec<u8>)
        requires
            event_valid(self@),
        ensures
            final(out)@ == old(out)@ + spec_encode_event(self@),
    {
        match self {
            RemedybgEvent::ExitProcess { exit_code } => {
                serialize_u16(100, out);
                serialize_u32(*exit_code, out);
            },
            RemedybgEvent::SourceLocationChanged { filename, line_num, reason } => {
                serialize_u16(200, out);
                filename.serialize(out);
                serialize_u32(*line_num, out);
                reason.serialize(out);
            },
            RemedybgEvent::BreakpointHit { breakpoint_id } => {
                serialize_u16(600, out);
                breakpoint_id.serialize(out);
            },
            RemedybgEvent::BreakpointResolved { breakpoint_id } => {
                serialize_u16(601, out);
                breakpoint_id.serialize(out);
            },
            RemedybgEvent::BreakpointAdded { breakpoint_id } => {
                serialize_u16(602, out);
                breakpoint_id.serialize(out);
            },
            RemedybgEvent::BreakpointModified { breakpoint_id } => {
                serialize_u16(603, out);
                breakpoint_id.serialize(out);
            },
            RemedybgEvent::BreakpointRemoved { breakpoint_id } => {
                serialize_u16(604, out);
                breakpoint_id.serialize(out);
            },
            RemedybgEvent::OutputDebugString { string } => {
                serialize_u16(800, out);
                string.serialize(out);
            },
        }
        assert(final(out)@ =~= old(out)@ + spec_encode_event(self@));
    }

    pub fn deserialize(d: &mut Deserializer) -> (r: Result<Self, DeserializeError>)
        requires
            old(d).wf(),
        ensures
            final(d).wf(),
            match spec_decode_event(old(d).rest()) {
                Ok((v, n)) => r is Ok && r->Ok_0@ == v && final(d).rest() == after(old(d).rest(), n),
                Err(e) => r is Err && r->Err_0 == e,
            },
    {
        let ghost s = d.rest();
        let discriminant = d.read_u16()?;
        let ghost r0 = d.rest();
        assert(r0 == after(s, 2));
        match discriminant {
            100 => {
                let exit_code = d.read_u32()?;
                assert(d.rest() =~= after(s, 6));
                Ok(RemedybgEvent::ExitProcess { exit_code })
            },
            200 => {
                let filename = RemedybgStr::deserialize(d)?;
                let ghost r2 = d.rest();
                let line_num = d.read_u32()?;
                let reason = RemedybgSourceLocationChangedReason::deserialize(d)?;
                proof {
                    let n = spec_decode_str(r0)->Ok_0.1;
                    assert(r2 == after(r0, n));
                    assert(d.rest() =~= after(s, 2 + n + 4 + 2));
                }
                Ok(RemedybgEvent::SourceLocationChanged { filename, line_num, reason })
            },
            600 => {
                let breakpoint_id = RemedybgId::deserialize(d)?;
                assert(d.rest() =~= after(s, 6));
                Ok(RemedybgEvent::BreakpointHit { breakpoint_id })
            },
            601 => {
                let breakpoint_id = RemedybgId::deserialize(d)?;
                assert(d.rest() =~= after(s, 6));
                Ok(RemedybgEvent::BreakpointResolved { breakpoint_id })
            },
            602 => {
                let breakpoint_id = RemedybgId::deserialize(d)?;
                assert(d.rest() =~= after(s, 6));
                Ok(RemedybgEvent::BreakpointAdded { breakpoint_id })
            },
            603 => {
                let breakpoint_id = RemedybgId::deserialize(d)?;
                assert(d.rest() =~= after(s, 6));
                Ok(RemedybgEvent::BreakpointModified { breakpoint_id })
            },
            604 => {
                let breakpoint_id = RemedybgId::deserialize(d)?;
                assert(d.rest() =~= after(s, 6));
                Ok(RemedybgEvent::BreakpointRemoved { breakpoint_id })
            },
            800 => {
                let string = RemedybgStr::deserialize(d)?;
                proof {
                    let n = spec_decode_str(r0)->Ok_0.1;
                    assert(d.rest() =~= after(s, 2 + n));
                }
                Ok(RemedybgEvent::OutputDebugString { string })
            },
            _ => Err(DeserializeError::InvalidData),
        }
    }

    /// A short description of the event.
    pub fn name(&self) -> (r: &'static str)
        ensures
            r == event_name(self@),
    {
        match self {
            RemedybgEvent::ExitProcess { .. } => "exit process",
            RemedybgEvent::SourceLocationChanged { .. } => "source location changed",
            RemedybgEvent::BreakpointHit { .. } => "breakpoint hit",
            RemedybgEvent::BreakpointResolved { .. } => "breakpoint resolved",
            RemedybgEvent::BreakpointAdded { .. } => "breakpoint added",
            RemedybgEvent::BreakpointModified { .. } => "breakpoint modified",
            RemedybgEvent::BreakpointRemoved { .. } => "breakpoint removed",
            RemedybgEvent::OutputDebugString { .. } => "output debug string",
        }
    }
}

proof fn lemma_str_round_trip(b: Seq<u8>, rest: Seq<u8>)
    requires
        b.len() <= u16::MAX,
    ensures
        spec_decode_str(enc_str(b) + rest) == Ok::<(Seq<u8>, int), DeserializeError>((b, 2 + b.len() as int)),
        after(enc_str(b) + rest, 2 + b.len() as int) == rest,
{
    let s = enc_str(b) + rest;
    lemma_u16_round_trip(b.len() as u16);
    assert(s.subrange(0, 2) =~= enc_u16(b.len() as u16));
    assert(dec_u16(s) == dec_u16(enc_u16(b.len() as u16)));
    assert(s.subrange(2, 2 + b.len() as int) =~= b);
    assert(after(s, 2 + b.len() as int) =~= rest);
}

/// Deserializing the bytes of a serialized event gives the event back, and
/// consumes exactly those bytes.
pub proof fn lemma_event_round_trip(e: EventView, rest: Seq<u8>)
    requires
        event_valid(e),
    ensures
        spec_decode_event(spec_encode_event(e) + rest) == Ok::<(EventView, int), DeserializeError>((e, spec_encode_event(e).len() as int)),
        after(spec_encode_event(e) + rest, spec_encode_event(e).len() as int) == rest,
{
    let s = spec_encode_event(e) + rest;
    let enc = spec_encode_event(e);
    assert(after(s, enc.len() as int) =~= rest);
    match e {
        EventView::ExitProcess { exit_code } => {
            lemma_u16_round_trip(100);
            lemma_u32_round_trip(exit_code);
            assert(dec_u16(s) == dec_u16(enc_u16(100)));
            assert(dec_u32(after(s, 2)) == dec_u32(enc_u32(exit_code)));
        },
        EventView::SourceLocationChanged { filename, line_num, reason } => {
            lemma_u16_round_trip(200);
            assert(dec_u16(s) == dec_u16(enc_u16(200)));
            let r = after(s, 2);
            assert(r =~= enc_str(filename) + (enc_u32(line_num) + enc_u16(reason_code(reason)) + rest));
            lemma_str_round_trip(filename, enc_u32(line_num) + enc_u16(reason_code(reason)) + rest);
            let r2 = after(r, 2 + filename.len() as int);
            assert(r2 =~= enc_u32(line_num) + (enc_u16(reason_code(reason)) + rest));
            lemma_u32_round_trip(line_num);
            assert(dec_u32(r2) == dec_u32(enc_u32(line_num)));
            let r3 = after(r2, 4);
            assert(r3 =~= enc_u16(reason_code(reason)) + rest);
            lemma_u16_round_trip(reason_code(reason));
            assert(dec_u16(r3) == dec_u16(enc_u16(reason_code(reason))));
        },
        EventView::Breakpoint { code, id } => {
            lemma_u16_round_trip(code);
            lemma_u32_round_trip(id);
            assert(dec_u16(s) == dec_u16(enc_u16(code)));
            assert(dec_u32(after(s, 2)) == dec_u32(enc_u32(id)));
        },
        EventView::OutputDebugString { string } => {
            lemma_u16_round_trip(800);
            assert(dec_u16(s) == dec_u16(enc_u16(800)));
            let r = after(s, 2);
            assert(r =~= enc_str(string) + rest);
            lemma_str_round_trip(string, rest);
        },
    }
}

} // verus!
