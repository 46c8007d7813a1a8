use vstd::prelude::*;

use crate::strutil::str_eq;

verus! {

/// How many tags the vocabulary has; field tables are indexed by
/// [`FixTag::rank`], which runs from `0` to `TAG_COUNT - 1`.
pub const TAG_COUNT: usize = 19;

/// The closed tag vocabulary of the message format. Declaration order is the
/// order fields are emitted in on encode; it is not the numeric wire-tag
/// order (`CheckSum` is declared last but has wire tag 10).
#[derive(Debug, Clone, Copy, PartialEq, Eq, Hash, PartialOrd, Ord, Structural)]
pub enum FixTag {
    BeginString,
    BodyLength,
    MsgType,
    SenderCompID,
    TargetCompID,
    MsgSeqNum,
    SendingTime,
    Symbol,
    Side,
    OrderQty,
    Price,
    OrdType,
    OrderID,
    ExecID,
    LeavesQty,
    CumQty,
    AvgPx,
    Text,
    CheckSum,
}

/// Position of a tag in the declaration order.
pub open spec fn spec_rank(t: FixTag) -> int {
    match t {
        FixTag::BeginString => 0,
        FixTag::BodyLength => 1,
        FixTag::MsgType => 2,
        FixTag::SenderCompID => 3,
        FixTag::TargetCompID => 4,
        FixTag::MsgSeqNum => 5,
        FixTag::SendingTime => 6,
        FixTag::Symbol => 7,
        FixTag::Side => 8,
        FixTag::OrderQty => 9,
        FixTag::Price => 10,
        FixTag::OrdType => 11,
        FixTag::OrderID => 12,
        FixTag::ExecID => 13,
        FixTag::LeavesQty => 14,
        FixTag::CumQty => 15,
        FixTag::AvgPx => 16,
        FixTag::Text => 17,
        FixTag::CheckSum => 18,
    }
}

/// Tag at a given declaration-order position.
pub open spec fn spec_tag_of_rank(i: int) -> FixTag {
    if i == 0 { FixTag::BeginString }
    else if i == 1 { FixTag::BodyLength }
    else if i == 2 { FixTag::MsgType }
    else if i == 3 { FixTag::SenderCompID }
    else if i == 4 { FixTag::TargetCompID }
    else if i == 5 { FixTag::MsgSeqNum }
    else if i == 6 { FixTag::SendingTime }
    else if i == 7 { FixTag::Symbol }
    else if i == 8 { FixTag::Side }
    else if i == 9 { FixTag::OrderQty }
    else if i == 10 { FixTag::Price }
    else if i == 11 { FixTag::OrdType }
    else if i == 12 { FixTag::OrderID }
    else if i == 13 { FixTag::ExecID }
    else if i == 14 { FixTag::LeavesQty }
    else if i == 15 { FixTag::CumQty }
    else if i == 16 { FixTag::AvgPx }
    else if i == 17 { FixTag::Text }
    else { FixTag::CheckSum }
}

/// Numeric wire tag of each field.
pub open spec fn spec_tag_value(t: FixTag) -> u32 {
    match t {
        FixTag::BeginString => 8,
        FixTag::BodyLength => 9,
        FixTag::MsgType => 35,
        FixTag::SenderCompID => 49,
        FixTag::TargetCompID => 56,
        FixTag::MsgSeqNum => 34,
        FixTag::SendingTime => 52,
        FixTag::CheckSum => 10,
        FixTag::Symbol => 55,
        FixTag::Side => 54,
        FixTag::OrderQty => 38,
        FixTag::Price => 44,
        FixTag::OrdType => 40,
        FixTag::OrderID => 37,
        FixTag::ExecID => 17,
        FixTag::LeavesQty => 151,
        FixTag::CumQty => 14,
        FixTag::AvgPx => 6,
        FixTag::Text => 58,
    }
}

/// The numeric wire tag written out in decimal, as it appears on the wire.
pub open spec fn spec_wire(t: FixTag) -> Seq<char> {
    match t {
        FixTag::BeginString => "8"@,
        FixTag::BodyLength => "9"@,
        FixTag::MsgType => "35"@,
        FixTag::SenderCompID => "49"@,
        FixTag::TargetCompID => "56"@,
        FixTag::MsgSeqNum => "34"@,
        FixTag::SendingTime => "52"@,
        FixTag::CheckSum => "10"@,
        FixTag::Symbol => "55"@,
        FixTag::Side => "54"@,
        FixTag::OrderQty => "38"@,
        FixTag::Price => "44"@,
        FixTag::OrdType => "40"@,
        FixTag::OrderID => "37"@,
        FixTag::ExecID => "17"@,
        FixTag::LeavesQty => "151"@,
        FixTag::CumQty => "14"@,
        FixTag::AvgPx => "6"@,
        FixTag::Text => "58"@,
    }
}

/// Which tag, if any, a wire token names.
pub open spec fn spec_parse_tag(s: Seq<char>) -> Option<FixTag> {
    if s == "8"@ { Some(FixTag::BeginString) }
    else if s == "9"@ { Some(FixTag::BodyLength) }
    else if s == "35"@ { Some(FixTag::MsgType) }
    else if s == "49"@ { Some(FixTag::SenderCompID) }
    else if s == "56"@ { Some(FixTag::TargetCompID) }
    else if s == "34"@ { Some(FixTag::MsgSeqNum) }
    else if s == "52"@ { Some(FixTag::SendingTime) }
    else if s == "10"@ { Some(FixTag::CheckSum) }
    else if s == "55"@ { Some(FixTag::Symbol) }
    else if s == "54"@ { Some(FixTag::Side) }
    else if s == "38"@ { Some(FixTag::OrderQty) }
    else if s == "44"@ { Some(FixTag::Price) }
    else if s == "40"@ { Some(FixTag::OrdType) }
    else if s == "37"@ { Some(FixTag::OrderID) }
    else if s == "17"@ { Some(FixTag::ExecID) }
    else if s == "151"@ { Some(FixTag::LeavesQty) }
    else if s == "14"@ { Some(FixTag::CumQty) }
    else if s == "6"@ { Some(FixTag::AvgPx) }
    else if s == "58"@ { Some(FixTag::Text) }
    else { None }
}

impl FixTag {
    /// Position of this tag in the declaration order; indexes field tables.
    pub fn rank(&self) -> (r: usize)
        ensures
            r == spec_rank(*self),
    {
        match self {
            FixTag::BeginString => 0,
            FixTag::BodyLength => 1,
            FixTag::MsgType => 2,
            FixTag::SenderCompID => 3,
            FixTag::TargetCompID => 4,
            FixTag::MsgSeqNum => 5,
            FixTag::SendingTime => 6,
            FixTag::Symbol => 7,
            FixTag::Side => 8,
            FixTag::OrderQty => 9,
            FixTag::Price => 10,
            FixTag::OrdType => 11,
            FixTag::OrderID => 12,
            FixTag::ExecID => 13,
            FixTag::LeavesQty => 14,
            FixTag::CumQty => 15,
            FixTag::AvgPx => 16,
            FixTag::Text => 17,
            FixTag::CheckSum => 18,
        }
    }

    /// The tag at a declaration-order position.
    pub fn of_rank(i: usize) -> (t: FixTag)
        requires
            i < TAG_COUNT,
        ensures
            t == spec_tag_of_rank(i as int),
    {
        if i == 0 { FixTag::BeginString }
        else if i == 1 { FixTag::BodyLength }
        else if i == 2 { FixTag::MsgType }
        else if i == 3 { FixTag::SenderCompID }
        else if i == 4 { FixTag::TargetCompID }
        else if i == 5 { FixTag::MsgSeqNum }
        else if i == 6 { FixTag::SendingTime }
        else if i == 7 { FixTag::Symbol }
        else if i == 8 { FixTag::Side }
        else if i == 9 { FixTag::OrderQty }
        else if i == 10 { FixTag::Price }
        else if i == 11 { FixTag::OrdType }
        else if i == 12 { FixTag::OrderID }
        else if i == 13 { FixTag::ExecID }
        else if i == 14 { FixTag::LeavesQty }
        else if i == 15 { FixTag::CumQty }
        else if i == 16 { FixTag::AvgPx }
        else if i == 17 { FixTag::Text }
        else { FixTag::CheckSum }
    }

    /// Numeric wire tag of this field.
    pub fn tag_value(&self) -> (r: u32)
        ensures
            r == spec_tag_value(*self),
    {
        match self {
            FixTag::BeginString => 8,
            FixTag::BodyLength => 9,
            FixTag::MsgType => 35,
            FixTag::SenderCompID => 49,
            FixTag::TargetCompID => 56,
            FixTag::MsgSeqNum => 34,
            FixTag::SendingTime => 52,
            FixTag::CheckSum => 10,
            FixTag::Symbol => 55,
            FixTag::Side => 54,
            FixTag::OrderQty => 38,
            FixTag::Price => 44,
            FixTag::OrdType => 40,
            FixTag::OrderID => 37,
            FixTag::ExecID => 17,
            FixTag::LeavesQty => 151,
            FixTag::CumQty => 14,
            FixTag::AvgPx => 6,
            FixTag::Text => 58,
        }
    }

    /// The numeric wire tag in decimal, as written on the wire.
    pub fn wire_str(&self) -> (r: &'static str)
        ensures
            r@ == spec_wire(*self),
    {
        match self {
            FixTag::BeginString => "8",
            FixTag::BodyLength => "9",
            FixTag::MsgType => "35",
            FixTag::SenderCompID => "49",
            FixTag::TargetCompID => "56",
            FixTag::MsgSeqNum => "34",
            FixTag::SendingTime => "52",
            FixTag::CheckSum => "10",
            FixTag::Symbol => "55",
            FixTag::Side => "54",
            FixTag::OrderQty => "38",
            FixTag::Price => "44",
            FixTag::OrdType => "40",
            FixTag::OrderID => "37",
            FixTag::ExecID => "17",
            FixTag::LeavesQty => "151",
            FixTag::CumQty => "14",
            FixTag::AvgPx => "6",
            FixTag::Text => "58",
        }
    }

    /// Parses a wire token into a tag; any token outside the vocabulary gives
    /// `None`.
    pub fn from_wire(s: &str) -> (r: Option<FixTag>)
        ensures
            r == spec_parse_tag(s@),
    {
        if str_eq(s, "8") { Some(FixTag::BeginString) }
        else if str_eq(s, "9") { Some(FixTag::BodyLength) }
        else if str_eq(s, "35") { Some(FixTag::MsgType) }
        else if str_eq(s, "49") { Some(FixTag::SenderCompID) }
        else if str_eq(s, "56") { Some(FixTag::TargetCompID) }
        else if str_eq(s, "34") { Some(FixTag::MsgSeqNum) }
        else if str_eq(s, "52") { Some(FixTag::SendingTime) }
        else if str_eq(s, "10") { Some(FixTag::CheckSum) }
        else if str_eq(s, "55") { Some(FixTag::Symbol) }
        else if str_eq(s, "54") { Some(FixTag::Side) }
        else if str_eq(s, "38") { Some(FixTag::OrderQty) }
        else if str_eq(s, "44") { Some(FixTag::Price) }
        else if str_eq(s, "40") { Some(FixTag::OrdType) }
        else if str_eq(s, "37") { Some(FixTag::OrderID) }
        else if str_eq(s, "17") { Some(FixTag::ExecID) }
        else if str_eq(s, "151") { Some(FixTag::LeavesQty) }
        else if str_eq(s, "14") { Some(FixTag::CumQty) }
        else if str_eq(s, "6") { Some(FixTag::AvgPx) }
        else if str_eq(s, "58") { Some(FixTag::Text) }
        else { None }
    }
}

impl core::str::FromStr for FixTag {
    type Err = ();

    /// Same parse as [`FixTag::from_wire`], packaged for `str::parse`.
    fn from_str(s: &str) -> Result<FixTag, ()> {
        match FixTag::from_wire(s) {
            Some(t) => Ok(t),
            None => Err(()),
        }
    }
}

} // verus!
