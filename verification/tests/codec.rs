use fix_engine::fixmessage::FixMessage;
use fix_engine::fixtag::FixTag;
use fix_engine::order::Side;

#[test]
fn test_fix_tag_from_str() {
    assert_eq!("8".parse::<FixTag>().unwrap(), FixTag::BeginString);
    assert_eq!("9".parse::<FixTag>().unwrap(), FixTag::BodyLength);
    assert_eq!("35".parse::<FixTag>().unwrap(), FixTag::MsgType);
    assert_eq!("49".parse::<FixTag>().unwrap(), FixTag::SenderCompID);
    assert_eq!("56".parse::<FixTag>().unwrap(), FixTag::TargetCompID);
    assert_eq!("34".parse::<FixTag>().unwrap(), FixTag::MsgSeqNum);
    assert_eq!("52".parse::<FixTag>().unwrap(), FixTag::SendingTime);
    assert_eq!("10".parse::<FixTag>().unwrap(), FixTag::CheckSum);
    assert_eq!("55".parse::<FixTag>().unwrap(), FixTag::Symbol);
    assert_eq!("54".parse::<FixTag>().unwrap(), FixTag::Side);
    assert_eq!("38".parse::<FixTag>().unwrap(), FixTag::OrderQty);
    assert_eq!("44".parse::<FixTag>().unwrap(), FixTag::Price);
    assert_eq!("40".parse::<FixTag>().unwrap(), FixTag::OrdType);
    assert_eq!("37".parse::<FixTag>().unwrap(), FixTag::OrderID);
    assert_eq!("17".parse::<FixTag>().unwrap(), FixTag::ExecID);
    assert_eq!("151".parse::<FixTag>().unwrap(), FixTag::LeavesQty);
    assert_eq!("14".parse::<FixTag>().unwrap(), FixTag::CumQty);
    assert_eq!("6".parse::<FixTag>().unwrap(), FixTag::AvgPx);
    assert_eq!("58".parse::<FixTag>().unwrap(), FixTag::Text);
    assert_eq!("".parse::<FixTag>().is_err(), true);
}

#[test]
fn test_fix_tag_to_string() {
    assert_eq!(FixTag::BeginString.wire_str(), "8");
    assert_eq!(FixTag::BodyLength.wire_str(), "9");
    assert_eq!(FixTag::MsgType.wire_str(), "35");
    assert_eq!(FixTag::SenderCompID.wire_str(), "49");
    assert_eq!(FixTag::TargetCompID.wire_str(), "56");
    assert_eq!(FixTag::MsgSeqNum.wire_str(), "34");
    assert_eq!(FixTag::SendingTime.wire_str(), "52");
    assert_eq!(FixTag::CheckSum.wire_str(), "10");
    assert_eq!(FixTag::Symbol.wire_str(), "55");
    assert_eq!(FixTag::Side.wire_str(), "54");
    assert_eq!(FixTag::OrderQty.wire_str(), "38");
    assert_eq!(FixTag::Price.wire_str(), "44");
    assert_eq!(FixTag::OrdType.wire_str(), "40");
    assert_eq!(FixTag::OrderID.wire_str(), "37");
    assert_eq!(FixTag::ExecID.wire_str(), "17");
    assert_eq!(FixTag::LeavesQty.wire_str(), "151");
    assert_eq!(FixTag::CumQty.wire_str(), "14");
    assert_eq!(FixTag::AvgPx.wire_str(), "6");
    assert_eq!(FixTag::Text.wire_str(), "58");
}

#[test]
fn test_fix_tag_cmp() {
    assert_eq!(FixTag::BeginString < FixTag::BodyLength, true);
    assert_eq!(FixTag::BodyLength < FixTag::MsgType, true);
    assert_eq!(FixTag::MsgType < FixTag::SenderCompID, true);
    assert_eq!(FixTag::SenderCompID < FixTag::TargetCompID, true);
    assert_eq!(FixTag::TargetCompID < FixTag::MsgSeqNum, true);
    assert_eq!(FixTag::MsgSeqNum < FixTag::SendingTime, true);
    assert_eq!(FixTag::SendingTime < FixTag::Symbol, true);
    assert_eq!(FixTag::Symbol < FixTag::Side, true);
    assert_eq!(FixTag::Side < FixTag::OrderQty, true);
    assert_eq!(FixTag::OrderQty < FixTag::Price, true);
    assert_eq!(FixTag::Price < FixTag::OrdType, true);
    assert_eq!(FixTag::OrdType < FixTag::OrderID, true);
    assert_eq!(FixTag::OrderID < FixTag::ExecID, true);
    assert_eq!(FixTag::ExecID < FixTag::LeavesQty, true);
    assert_eq!(FixTag::LeavesQty < FixTag::CumQty, true);
    assert_eq!(FixTag::CumQty < FixTag::AvgPx, true);
    assert_eq!(FixTag::AvgPx < FixTag::Text, true);
    assert_eq!(FixTag::Text < FixTag::CheckSum, true);
}

#[test]
fn test_new_fix_message() {
    let fix_message = FixMessage::new();
    assert_eq!(fix_message.field_count(), 0);
}

#[test]
fn test_add_field() {
    let mut fix_message = FixMessage::new();
    fix_message.add_field(FixTag::BeginString, "FIX.4.2");
    assert_eq!(fix_message.field_count(), 1);
    assert_eq!(fix_message.get_field(FixTag::BeginString).unwrap(), "FIX.4.2");
}

#[test]
fn test_encode_fix_message() {
    let mut fix_message = FixMessage::new();
    fix_message.add_field(FixTag::BeginString, "FIX.4.2");
    fix_message.add_field(FixTag::MsgType, "A");
    fix_message.add_field(FixTag::SenderCompID, "SENDER");
    fix_message.add_field(FixTag::TargetCompID, "TARGET");
    let encoded = fix_message.encode();
    let stamped = fix_message.get_field(FixTag::SendingTime).unwrap().clone();
    assert_eq!(
        encoded,
        format!("8=FIX.4.2|35=A|49=SENDER|56=TARGET|52={}|\x01", stamped)
    );
}

#[test]
fn test_decode_fix_message() {
    let fix_message = FixMessage::decode(&format!("8=FIX.4.2|35=A|49=SENDER|56=TARGET|\x01"), "|");
    assert_eq!(fix_message.field_count(), 4);
    assert_eq!(fix_message.get_field(FixTag::BeginString).unwrap(), "FIX.4.2");
    assert_eq!(fix_message.get_field(FixTag::MsgType).unwrap(), "A");
    assert_eq!(fix_message.get_field(FixTag::SenderCompID).unwrap(), "SENDER");
    assert_eq!(fix_message.get_field(FixTag::TargetCompID).unwrap(), "TARGET");
}

#[test]
fn test_get_time() {
    let now = chrono::Utc::now();
    assert_eq!(
        FixMessage::get_time(),
        now.format("%Y%m%d-%H:%M:%S%.3f").to_string()
    );
}

#[test]
fn test_to_order() {
    let mut fix_message = FixMessage::new();
    fix_message.add_field(FixTag::Symbol, "AAPL");
    fix_message.add_field(FixTag::OrderQty, "100");
    fix_message.add_field(FixTag::Price, "100.00");
    fix_message.add_field(FixTag::Side, "1");
    let order = fix_message.to_order(0).unwrap();
    assert_eq!(order.symbol, "AAPL");
    assert_eq!(order.quantity, 100);
    assert_eq!(order.price, 100 * 10_000);
    assert_eq!(order.side, Side::Buy);
}

#[test]
fn to_order_rejects_bad_fields() {
    // missing symbol
    let mut m = FixMessage::new();
    m.add_field(FixTag::OrderQty, "100");
    m.add_field(FixTag::Price, "1.5");
    m.add_field(FixTag::Side, "1");
    assert!(m.to_order(0).is_none());
    // unreadable quantity
    let mut m = FixMessage::new();
    m.add_field(FixTag::Symbol, "AAPL");
    m.add_field(FixTag::OrderQty, "ten");
    m.add_field(FixTag::Price, "1.5");
    m.add_field(FixTag::Side, "1");
    assert!(m.to_order(0).is_none());
    // unreadable price
    let mut m = FixMessage::new();
    m.add_field(FixTag::Symbol, "AAPL");
    m.add_field(FixTag::OrderQty, "100");
    m.add_field(FixTag::Price, "NaN");
    m.add_field(FixTag::Side, "1");
    assert!(m.to_order(0).is_none());
    // side that is neither 1 nor 2
    let mut m = FixMessage::new();
    m.add_field(FixTag::Symbol, "AAPL");
    m.add_field(FixTag::OrderQty, "100");
    m.add_field(FixTag::Price, "1.5");
    m.add_field(FixTag::Side, "3");
    assert!(m.to_order(0).is_none());
}

#[test]
fn to_order_reads_sell_and_fractions() {
    let mut m = FixMessage::new();
    m.add_field(FixTag::Symbol, "GOOG");
    m.add_field(FixTag::OrderQty, "+25");
    m.add_field(FixTag::Price, "1.5");
    m.add_field(FixTag::Side, "2");
    let order = m.to_order(7).unwrap();
    assert_eq!(order.id, 7);
    assert_eq!(order.symbol, "GOOG");
    assert_eq!(order.quantity, 25);
    assert_eq!(order.price, 15_000);
    assert_eq!(order.side, Side::Sell);
}

#[test]
fn decode_skips_malformed_and_unknown() {
    // an unknown tag, a token without '=', and a token with two '='s are all
    // skipped; the rest land
    let m = FixMessage::decode("8=FIX.4.2|98=0|nonsense|55=AAPL=X|35=A|\x01", "|");
    assert_eq!(m.field_count(), 2);
    assert_eq!(m.get_field(FixTag::BeginString).unwrap(), "FIX.4.2");
    assert_eq!(m.get_field(FixTag::MsgType).unwrap(), "A");
}

#[test]
fn decode_later_token_wins() {
    let m = FixMessage::decode("35=A|35=B", "|");
    assert_eq!(m.field_count(), 1);
    assert_eq!(m.get_field(FixTag::MsgType).unwrap(), "B");
}

#[test]
fn encode_decode_round_trip() {
    // every field except SendingTime (regenerated on encode) survives a
    // decode of the encoded frame
    let mut m = FixMessage::new();
    m.add_field(FixTag::BeginString, "FIX.4.2");
    m.add_field(FixTag::MsgType, "D");
    m.add_field(FixTag::Symbol, "AAPL");
    m.add_field(FixTag::OrderQty, "100");
    m.add_field(FixTag::Price, "150.25");
    m.add_field(FixTag::Side, "1");
    m.add_field(FixTag::Text, "");
    let encoded = m.encode();
    let back = FixMessage::decode(&encoded, "|");
    assert_eq!(back.field_count(), 8);
    assert_eq!(back.get_field(FixTag::BeginString).unwrap(), "FIX.4.2");
    assert_eq!(back.get_field(FixTag::MsgType).unwrap(), "D");
    assert_eq!(back.get_field(FixTag::Symbol).unwrap(), "AAPL");
    assert_eq!(back.get_field(FixTag::OrderQty).unwrap(), "100");
    assert_eq!(back.get_field(FixTag::Price).unwrap(), "150.25");
    assert_eq!(back.get_field(FixTag::Side).unwrap(), "1");
    assert_eq!(back.get_field(FixTag::Text).unwrap(), "");
    assert_eq!(
        back.get_field(FixTag::SendingTime).unwrap(),
        m.get_field(FixTag::SendingTime).unwrap()
    );
}

#[test]
fn test_extract_tag_value() {
    let raw = "8=FIX.4.2\u{1}35=A\u{1}";
    assert_eq!(FixMessage::extract_tag_value(raw, "8"), Some("FIX.4.2"));
    assert_eq!(FixMessage::extract_tag_value(raw, "35"), Some("A"));
    assert_eq!(FixMessage::extract_tag_value(raw, "55"), None);
}

#[test]
fn remove_field_clears_a_slot() {
    let mut m = FixMessage::new();
    m.add_field(FixTag::MsgType, "A");
    m.add_field(FixTag::Text, "hello");
    m.remove_field(&FixTag::MsgType);
    assert_eq!(m.field_count(), 1);
    assert!(m.get_field(FixTag::MsgType).is_none());
    assert_eq!(m.get_field(FixTag::Text).unwrap(), "hello");
}
