use vstd::prelude::*;

verus! {

/// Frame opcodes with their wire values.
#[derive(Clone, Copy, Debug, PartialEq, Eq, Structural)]
pub enum Opcode {
    Continuation,
    Text,
    Binary,
    Close,
    Ping,
    Pong,
}

/// The 4-bit wire value of an opcode.
pub open spec fn opcode_value(op: Opcode) -> u8 {
    match op {
        Opcode::Continuation => 0x0,
        Opcode::Text => 0x1,
        Opcode::Binary => 0x2,
        Opcode::Close => 0x8,
        Opcode::Ping => 0x9,
        Opcode::Pong => 0xA,
    }
}

/// The opcode with wire value `v`, if `v` is not reserved.
pub open spec fn opcode_of(v: u8) -> Option<Opcode> {
    if v == 0x0 {
        Some(Opcode::Continuation)
    } else if v == 0x1 {
        Some(Opcode::Text)
    } else if v == 0x2 {
        Some(Opcode::Binary)
    } else if v == 0x8 {
        Some(Opcode::Close)
    } else if v == 0x9 {
        Some(Opcode::Ping)
    } else if v == 0xA {
        Some(Opcode::Pong)
    } else {
        None
    }
}

pub open spec fn is_control_spec(op: Opcode) -> bool {
    opcode_value(op) >= 0x8
}

pub open spec fn is_data_spec(op: Opcode) -> bool {
    op is Text || op is Binary
}

/// Every opcode is recovered from its wire value.
pub proof fn lemma_opcode_value_round_trip(op: Opcode)
    ensures
        opcode_of(opcode_value(op)) == Some(op),
        opcode_value(op) < 16,
{
}

impl Opcode {
    /// The opcode for a 4-bit field; `None` for the reserved values
    /// 0x3..=0x7 and 0xB..=0xF.
    pub fn from_u8(v: u8) -> (r: Option<Opcode>)
        ensures
            r == opcode_of(v),
    {
        match v {
            0x0 => Some(Opcode::Continuation),
            0x1 => Some(Opcode::Text),
            0x2 => Some(Opcode::Binary),
            0x8 => Some(Opcode::Close),
            0x9 => Some(Opcode::Ping),
            0xA => Some(Opcode::Pong),
            _ => None,
        }
    }

    pub fn as_u8(self) -> (r: u8)
        ensures
            r == opcode_value(self),
    {
        match self {
            Opcode::Continuation => 0x0,
            Opcode::Text => 0x1,
            Opcode::Binary => 0x2,
            Opcode::Close => 0x8,
            Opcode::Ping => 0x9,
            Opcode::Pong => 0xA,
        }
    }

    /// Close, Ping and Pong: the opcodes whose value is at least 0x8.
    pub fn is_control(self) -> (r: bool)
        ensures
            r == is_control_spec(self),
            r == (self is Close || self is Ping || self is Pong),
    {
        self.as_u8() >= 0x8
    }

    /// Text and Binary.
    pub fn is_data(self) -> (r: bool)
        ensures
            r == is_data_spec(self),
    {
        matches!(self, Opcode::Text | Opcode::Binary)
    }
}

/// Close status codes with a defined meaning.
#[derive(Clone, Copy, Debug, PartialEq, Eq, Structural)]
pub enum CloseCode {
    Normal,
    GoingAway,
    ProtocolError,
    UnsupportedData,
    NoStatus,
    Abnormal,
    InvalidData,
    PolicyViolation,
    MessageTooBig,
    MandatoryExtension,
    InternalError,
    TlsFailure,
}

pub open spec fn close_code_value(c: CloseCode) -> u16 {
    match c {
        CloseCode::Normal => 1000,
        CloseCode::GoingAway => 1001,
        CloseCode::ProtocolError => 1002,
        CloseCode::UnsupportedData => 1003,
        CloseCode::NoStatus => 1005,
        CloseCode::Abnormal => 1006,
        CloseCode::InvalidData => 1007,
        CloseCode::PolicyViolation => 1008,
        CloseCode::MessageTooBig => 1009,
        CloseCode::MandatoryExtension => 1010,
        CloseCode::InternalError => 1011,
        CloseCode::TlsFailure => 1015,
    }
}

/// A status code that may appear in a received close frame: 1000..=1011
/// except the reserved 1004, 1005 and 1006, and 3000..=4999.
pub open spec fn valid_on_wire(code: u16) -> bool {
    (1000 <= code <= 1011 && code != 1004 && code != 1005 && code != 1006) || (3000 <= code
        <= 4999)
}

impl CloseCode {
    pub fn as_u16(self) -> (r: u16)
        ensures
            r == close_code_value(self),
    {
        match self {
            CloseCode::Normal => 1000,
            CloseCode::GoingAway => 1001,
            CloseCode::ProtocolError => 1002,
            CloseCode::UnsupportedData => 1003,
            CloseCode::NoStatus => 1005,
            CloseCode::Abnormal => 1006,
            CloseCode::InvalidData => 1007,
            CloseCode::PolicyViolation => 1008,
            CloseCode::MessageTooBig => 1009,
            CloseCode::MandatoryExtension => 1010,
            CloseCode::InternalError => 1011,
            CloseCode::TlsFailure => 1015,
        }
    }

    pub fn is_valid_on_wire(code: u16) -> (r: bool)
        ensures
            r == valid_on_wire(code),
    {
        (1000 <= code && code <= 1011 && code != 1004 && code != 1005 && code != 1006) || (3000
            <= code && code <= 4999)
    }
}

} // verus!
