use contract_abi::{
    coin, mock_params, BlockInfo, Coin, ContractInfo, ContractMsg, CosmosMsg, MessageInfo, Msg,
    OpaqueMsg, Params, SendMsg,
};

#[test]
fn coin_round_trip() {
    let c = Coin { denom: "earth".to_string(), amount: "1015".to_string() };
    assert_eq!(Coin::decode(&c.encode()), Ok(c));
}

#[test]
fn coin_has_the_expected_bytes() {
    let c = Coin { denom: "earth".to_string(), amount: "1015".to_string() };
    assert_eq!(
        c.encode(),
        vec![0x0a, 0x05, 0x65, 0x61, 0x72, 0x74, 0x68, 0x12, 0x04, 0x31, 0x30, 0x31, 0x35],
    );
}

#[test]
fn coin_with_empty_texts_round_trip() {
    let c = Coin { denom: String::new(), amount: String::new() };
    assert_eq!(c.encode(), vec![0x0a, 0x00, 0x12, 0x00]);
    assert_eq!(Coin::decode(&c.encode()), Ok(c));
}

#[test]
fn text_outside_ascii_round_trip() {
    let c = Coin { denom: "h\u{e9}llo \u{2713}".to_string(), amount: "\u{1f600}".to_string() };
    let bin = c.encode();
    assert_eq!(
        &bin[..12],
        &[0x0a, 0x0a, 0x68, 0xc3, 0xa9, 0x6c, 0x6c, 0x6f, 0x20, 0xe2, 0x9c, 0x93][..],
    );
    assert_eq!(Coin::decode(&bin), Ok(c));
}

#[test]
fn encode_into_appends() {
    let c = Coin { denom: "a".to_string(), amount: "1".to_string() };
    let mut buf: Vec<u8> = vec![0xde, 0xad];
    c.encode_into(&mut buf);
    assert_eq!(buf, vec![0xde, 0xad, 0x0a, 0x01, b'a', 0x12, 0x01, b'1']);
}

#[test]
fn block_info_round_trip() {
    let b = BlockInfo {
        height: 12_345,
        time: 1_571_797_419,
        chain_id: "cosmos-testnet-14002".to_string(),
    };
    let expected: Vec<u8> = vec![
        0x08, 0xb9, 0x60, 0x10, 0xab, 0xf3, 0xbe, 0xed, 0x05, 0x1a, 0x14, 0x63, 0x6f, 0x73, 0x6d,
        0x6f, 0x73, 0x2d, 0x74, 0x65, 0x73, 0x74, 0x6e, 0x65, 0x74, 0x2d, 0x31, 0x34, 0x30, 0x30,
        0x32,
    ];
    assert_eq!(b.encode(), expected);
    assert_eq!(BlockInfo::decode(&expected), Ok(b));
}

#[test]
fn block_info_zero_is_written_out() {
    let b = BlockInfo { height: 0, time: 0, chain_id: String::new() };
    assert_eq!(b.encode(), vec![0x08, 0x00, 0x10, 0x00, 0x1a, 0x00]);
    assert_eq!(BlockInfo::decode(&b.encode()), Ok(b));
}

#[test]
fn negative_integers_take_ten_bytes() {
    let b = BlockInfo { height: -1, time: i64::MIN, chain_id: String::new() };
    let expected: Vec<u8> = vec![
        0x08, 0xff, 0xff, 0xff, 0xff, 0xff, 0xff, 0xff, 0xff, 0xff, 0x01, 0x10, 0x80, 0x80, 0x80,
        0x80, 0x80, 0x80, 0x80, 0x80, 0x80, 0x01, 0x1a, 0x00,
    ];
    assert_eq!(b.encode(), expected);
    assert_eq!(BlockInfo::decode(&expected), Ok(b));
}

#[test]
fn largest_integer_round_trip() {
    let b = BlockInfo { height: i64::MAX, time: -2, chain_id: "x".to_string() };
    let bin = b.encode();
    assert_eq!(&bin[..10], &[0x08, 0xff, 0xff, 0xff, 0xff, 0xff, 0xff, 0xff, 0xff, 0x7f][..]);
    assert_eq!(BlockInfo::decode(&bin), Ok(b));
}

#[test]
fn message_info_round_trip() {
    let m = MessageInfo {
        signer: "signer".to_string(),
        sent_funds: vec![
            Coin { denom: "a".to_string(), amount: "1".to_string() },
            Coin { denom: "b".to_string(), amount: "2".to_string() },
        ],
    };
    let expected: Vec<u8> = vec![
        0x0a, 0x06, 0x73, 0x69, 0x67, 0x6e, 0x65, 0x72, 0x12, 0x06, 0x0a, 0x01, 0x61, 0x12, 0x01,
        0x31, 0x12, 0x06, 0x0a, 0x01, 0x62, 0x12, 0x01, 0x32,
    ];
    assert_eq!(m.encode(), expected);
    assert_eq!(MessageInfo::decode(&expected), Ok(m));
}

#[test]
fn message_info_without_funds_round_trip() {
    let m = MessageInfo { signer: "s".to_string(), sent_funds: vec![] };
    assert_eq!(m.encode(), vec![0x0a, 0x01, b's']);
    assert_eq!(MessageInfo::decode(&m.encode()), Ok(m));
}

#[test]
fn contract_info_round_trip() {
    let c = ContractInfo {
        address: "cosmos2contract".to_string(),
        balance: vec![
            Coin { denom: "atom".to_string(), amount: "7".to_string() },
            Coin { denom: "earth".to_string(), amount: "1015".to_string() },
            Coin { denom: "atom".to_string(), amount: "7".to_string() },
        ],
    };
    let back = ContractInfo::decode(&c.encode()).unwrap();
    assert_eq!(back.balance.len(), 3);
    assert_eq!(back, c);
}

#[test]
fn params_round_trip() {
    let p = mock_params("alice", &coin("7", "atom"), &[]);
    let expected: Vec<u8> = vec![
        0x0a, 0x1f, 0x08, 0xb9, 0x60, 0x10, 0xab, 0xf3, 0xbe, 0xed, 0x05, 0x1a, 0x14, 0x63, 0x6f,
        0x73, 0x6d, 0x6f, 0x73, 0x2d, 0x74, 0x65, 0x73, 0x74, 0x6e, 0x65, 0x74, 0x2d, 0x31, 0x34,
        0x30, 0x30, 0x32, 0x12, 0x12, 0x0a, 0x05, 0x61, 0x6c, 0x69, 0x63, 0x65, 0x12, 0x09, 0x0a,
        0x04, 0x61, 0x74, 0x6f, 0x6d, 0x12, 0x01, 0x37, 0x1a, 0x11, 0x0a, 0x0f, 0x63, 0x6f, 0x73,
        0x6d, 0x6f, 0x73, 0x32, 0x63, 0x6f, 0x6e, 0x74, 0x72, 0x61, 0x63, 0x74,
    ];
    assert_eq!(p.encode(), expected);
    assert_eq!(Params::decode(&expected), Ok(p));
}

#[test]
fn params_with_balance_round_trip() {
    let p = mock_params("bob", &[], &coin("1000", "earth"));
    assert_eq!(Params::decode(&p.encode()), Ok(p));
}

#[test]
fn mock_params_has_the_fixed_context() {
    let sent = coin("7", "atom");
    let balance = coin("1015", "earth");
    let p = mock_params("alice", &sent, &balance);
    assert_eq!(p.block.height, 12_345);
    assert_eq!(p.block.time, 1_571_797_419);
    assert_eq!(p.block.chain_id, "cosmos-testnet-14002");
    assert_eq!(p.message.signer, "alice");
    assert_eq!(p.message.sent_funds, sent);
    assert_eq!(p.contract.address, "cosmos2contract");
    assert_eq!(p.contract.balance, balance);
}

#[test]
fn coin_builds_a_list_of_one() {
    let coins = coin("1015", "earth");
    assert_eq!(coins, vec![Coin { denom: "earth".to_string(), amount: "1015".to_string() }]);
}

#[test]
fn send_msg_round_trip() {
    let s = SendMsg {
        from_address: "me".to_string(),
        to_address: "you".to_string(),
        amount: coin("1015", "earth"),
    };
    let expected: Vec<u8> = vec![
        0x0a, 0x02, 0x6d, 0x65, 0x12, 0x03, 0x79, 0x6f, 0x75, 0x1a, 0x0d, 0x0a, 0x05, 0x65, 0x61,
        0x72, 0x74, 0x68, 0x12, 0x04, 0x31, 0x30, 0x31, 0x35,
    ];
    assert_eq!(s.encode(), expected);
    assert_eq!(SendMsg::decode(&expected), Ok(s));
}

#[test]
fn contract_msg_round_trip() {
    let c = ContractMsg {
        contract_addr: "addr".to_string(),
        msg: "{\"release\":{}}".to_string(),
    };
    let bin = c.encode();
    assert_eq!(&bin[..6], &[0x0a, 0x04, b'a', b'd', b'd', b'r'][..]);
    assert_eq!(ContractMsg::decode(&bin), Ok(c));
}

#[test]
fn opaque_msg_round_trip() {
    let o = OpaqueMsg { data: "anything at all".to_string() };
    assert_eq!(OpaqueMsg::decode(&o.encode()), Ok(o));
}

#[test]
fn msg_round_trip_for_each_variant() {
    let send = Msg {
        msg: Some(CosmosMsg::Send(SendMsg {
            from_address: "a".to_string(),
            to_address: "b".to_string(),
            amount: vec![],
        })),
    };
    let call = Msg {
        msg: Some(CosmosMsg::Contract(ContractMsg {
            contract_addr: "c".to_string(),
            msg: "m".to_string(),
        })),
    };
    let opaque = Msg { msg: Some(CosmosMsg::Opaque(OpaqueMsg { data: "d".to_string() })) };
    assert_eq!(send.encode()[0], 0x0a);
    assert_eq!(call.encode()[0], 0x12);
    assert_eq!(opaque.encode(), vec![0x1a, 0x03, 0x0a, 0x01, b'd']);
    assert_eq!(Msg::decode(&send.encode()), Ok(send));
    assert_eq!(Msg::decode(&call.encode()), Ok(call));
    assert_eq!(Msg::decode(&opaque.encode()), Ok(opaque));
}

#[test]
fn msg_without_request_round_trip() {
    let unset = Msg { msg: None };
    assert_eq!(unset.encode(), Vec::<u8>::new());
    assert_eq!(Msg::decode(&[]), Ok(unset));
}

#[test]
fn decoded_variant_is_the_written_one() {
    let opaque = Msg { msg: Some(CosmosMsg::Opaque(OpaqueMsg { data: "d".to_string() })) };
    match Msg::decode(&opaque.encode()).unwrap().msg {
        Some(CosmosMsg::Opaque(o)) => assert_eq!(o.data, "d"),
        other => panic!("unexpected request: {:?}", other),
    }
}

#[test]
fn last_request_stands() {
    let first = Msg { msg: Some(CosmosMsg::Opaque(OpaqueMsg { data: "1".to_string() })) };
    let second = Msg {
        msg: Some(CosmosMsg::Contract(ContractMsg {
            contract_addr: "c".to_string(),
            msg: "m".to_string(),
        })),
    };
    let mut bin = first.encode();
    bin.extend_from_slice(&second.encode());
    assert_eq!(Msg::decode(&bin), Ok(second.clone()));
    let mut bin = second.encode();
    bin.extend_from_slice(&first.encode());
    assert_eq!(Msg::decode(&bin), Ok(first));
}

#[test]
fn long_text_takes_a_two_byte_length() {
    let o = OpaqueMsg { data: "x".repeat(300) };
    let bin = o.encode();
    assert_eq!(bin.len(), 303);
    assert_eq!(&bin[..3], &[0x0a, 0xac, 0x02][..]);
    assert_eq!(OpaqueMsg::decode(&bin), Ok(o));
}
