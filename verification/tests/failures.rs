use contract_abi::wire::{next_field, put_bytes_field, put_varint_field};
use contract_abi::{
    coin, mock_params, BlockInfo, Coin, ContractInfo, ContractMsg, ContractResult, CosmosMsg,
    DecodeError, MessageInfo, Msg, OpaqueMsg, Params, Response, Result, SendMsg,
};

/// The lengths at which `bytes` can be cut between two fields.
fn boundaries(bytes: &[u8]) -> Vec<usize> {
    let mut cuts = vec![0];
    let mut rest = bytes;
    while !rest.is_empty() {
        let (_, after) = next_field(rest).unwrap();
        cuts.push(bytes.len() - after.len());
        rest = after;
    }
    cuts
}

fn sample_params() -> Params {
    mock_params("alice", &coin("7", "atom"), &coin("1015", "earth"))
}

fn sample_result() -> ContractResult {
    ContractResult {
        res: Some(Result::Success(Response {
            messages: vec![Msg {
                msg: Some(CosmosMsg::Send(SendMsg {
                    from_address: "me".to_string(),
                    to_address: "you".to_string(),
                    amount: coin("1015", "earth"),
                })),
            }],
            log: Some("released funds!".to_string()),
            data: None,
        })),
    }
}

#[test]
fn params_without_block_is_missing_a_field() {
    let p = sample_params();
    let mut bin: Vec<u8> = Vec::new();
    put_bytes_field(2, &p.message.encode(), &mut bin);
    put_bytes_field(3, &p.contract.encode(), &mut bin);
    assert_eq!(Params::decode(&bin), Err(DecodeError::MissingField));
}

#[test]
fn params_without_message_is_missing_a_field() {
    let p = sample_params();
    let mut bin: Vec<u8> = Vec::new();
    put_bytes_field(1, &p.block.encode(), &mut bin);
    put_bytes_field(3, &p.contract.encode(), &mut bin);
    assert_eq!(Params::decode(&bin), Err(DecodeError::MissingField));
}

#[test]
fn params_without_contract_is_missing_a_field() {
    let p = sample_params();
    let mut bin: Vec<u8> = Vec::new();
    put_bytes_field(1, &p.block.encode(), &mut bin);
    put_bytes_field(2, &p.message.encode(), &mut bin);
    assert_eq!(Params::decode(&bin), Err(DecodeError::MissingField));
}

#[test]
fn params_from_its_three_parts_decodes() {
    let p = sample_params();
    let mut bin: Vec<u8> = Vec::new();
    put_bytes_field(1, &p.block.encode(), &mut bin);
    put_bytes_field(2, &p.message.encode(), &mut bin);
    put_bytes_field(3, &p.contract.encode(), &mut bin);
    assert_eq!(bin, p.encode());
    assert_eq!(Params::decode(&bin), Ok(p));
}

#[test]
fn empty_input_is_missing_every_required_field() {
    assert_eq!(Params::decode(&[]), Err(DecodeError::MissingField));
    assert_eq!(Coin::decode(&[]), Err(DecodeError::MissingField));
    assert_eq!(BlockInfo::decode(&[]), Err(DecodeError::MissingField));
    assert_eq!(MessageInfo::decode(&[]), Err(DecodeError::MissingField));
    assert_eq!(ContractInfo::decode(&[]), Err(DecodeError::MissingField));
    assert_eq!(SendMsg::decode(&[]), Err(DecodeError::MissingField));
    assert_eq!(ContractMsg::decode(&[]), Err(DecodeError::MissingField));
    assert_eq!(OpaqueMsg::decode(&[]), Err(DecodeError::MissingField));
}

#[test]
fn each_required_text_is_asked_for() {
    assert_eq!(Coin::decode(&[0x0a, 0x01, b'a']), Err(DecodeError::MissingField));
    assert_eq!(Coin::decode(&[0x12, 0x01, b'1']), Err(DecodeError::MissingField));
    assert_eq!(BlockInfo::decode(&[0x08, 0x01, 0x10, 0x02]), Err(DecodeError::MissingField));
    assert_eq!(BlockInfo::decode(&[0x08, 0x01, 0x1a, 0x00]), Err(DecodeError::MissingField));
    assert_eq!(BlockInfo::decode(&[0x10, 0x02, 0x1a, 0x00]), Err(DecodeError::MissingField));
    assert_eq!(SendMsg::decode(&[0x0a, 0x00]), Err(DecodeError::MissingField));
    assert_eq!(SendMsg::decode(&[0x12, 0x00]), Err(DecodeError::MissingField));
    assert_eq!(ContractMsg::decode(&[0x0a, 0x00]), Err(DecodeError::MissingField));
    assert_eq!(ContractMsg::decode(&[0x12, 0x00]), Err(DecodeError::MissingField));
    assert_eq!(
        MessageInfo::decode(&[0x12, 0x04, 0x0a, 0x00, 0x12, 0x00]),
        Err(DecodeError::MissingField),
    );
    assert_eq!(
        ContractInfo::decode(&[0x12, 0x04, 0x0a, 0x00, 0x12, 0x00]),
        Err(DecodeError::MissingField),
    );
}

#[test]
fn missing_field_inside_a_part_fails_the_whole() {
    let mut bin: Vec<u8> = Vec::new();
    put_bytes_field(1, &[], &mut bin);
    put_bytes_field(2, &[0x0a, 0x01, b'a'], &mut bin);
    assert_eq!(bin, vec![0x0a, 0x00, 0x12, 0x03, 0x0a, 0x01, b'a']);
    assert_eq!(MessageInfo::decode(&bin), Err(DecodeError::MissingField));
    let p = sample_params();
    let mut bin: Vec<u8> = Vec::new();
    put_bytes_field(1, &[0x08, 0x01, 0x10, 0x02], &mut bin);
    put_bytes_field(2, &p.message.encode(), &mut bin);
    put_bytes_field(3, &p.contract.encode(), &mut bin);
    assert_eq!(Params::decode(&bin), Err(DecodeError::MissingField));
}

#[test]
fn text_that_is_not_utf8_is_malformed() {
    assert_eq!(Coin::decode(&[0x0a, 0x01, 0xff, 0x12, 0x00]), Err(DecodeError::Malformed));
    assert_eq!(Coin::decode(&[0x0a, 0x00, 0x12, 0x02, 0xc3, 0x28]), Err(DecodeError::Malformed));
    assert_eq!(OpaqueMsg::decode(&[0x0a, 0x03, 0xed, 0xa0, 0x80]), Err(DecodeError::Malformed));
    assert_eq!(ContractResult::decode(&[0x12, 0x01, 0x80]), Err(DecodeError::Malformed));
    assert_eq!(Response::decode(&[0x12, 0x02, 0xc0, 0xaf]), Err(DecodeError::Malformed));
}

#[test]
fn value_of_the_wrong_shape_is_malformed() {
    assert_eq!(Coin::decode(&[0x08, 0x01, 0x12, 0x00]), Err(DecodeError::Malformed));
    assert_eq!(BlockInfo::decode(&[0x0a, 0x00]), Err(DecodeError::Malformed));
    assert_eq!(
        BlockInfo::decode(&[0x08, 0x01, 0x10, 0x02, 0x18, 0x03]),
        Err(DecodeError::Malformed),
    );
    assert_eq!(Msg::decode(&[0x08, 0x01]), Err(DecodeError::Malformed));
    assert_eq!(Msg::decode(&[0x1d, 1, 2, 3, 4]), Err(DecodeError::Malformed));
    assert_eq!(ContractResult::decode(&[0x10, 0x01]), Err(DecodeError::Malformed));
    assert_eq!(
        ContractResult::decode(&[0x09, 1, 2, 3, 4, 5, 6, 7, 8]),
        Err(DecodeError::Malformed),
    );
    assert_eq!(Params::decode(&[0x08, 0x01]), Err(DecodeError::Malformed));
    assert_eq!(MessageInfo::decode(&[0x0a, 0x00, 0x10, 0x07]), Err(DecodeError::Malformed));
}

#[test]
fn shape_that_does_not_exist_is_malformed() {
    assert_eq!(Coin::decode(&[0x0b]), Err(DecodeError::Malformed));
    assert_eq!(Coin::decode(&[0x0c]), Err(DecodeError::Malformed));
    assert_eq!(Coin::decode(&[0x0e, 0x00]), Err(DecodeError::Malformed));
    assert_eq!(Coin::decode(&[0x0f, 0x00]), Err(DecodeError::Malformed));
    assert_eq!(Response::decode(&[0x23, 0x24]), Err(DecodeError::Malformed));
}

#[test]
fn integer_that_is_too_long_is_malformed() {
    let eleven = [0x80, 0x80, 0x80, 0x80, 0x80, 0x80, 0x80, 0x80, 0x80, 0x80, 0x00];
    assert_eq!(Response::decode(&eleven), Err(DecodeError::Malformed));
    let ten = [0xff, 0xff, 0xff, 0xff, 0xff, 0xff, 0xff, 0xff, 0xff, 0xff];
    assert_eq!(Response::decode(&ten), Err(DecodeError::Malformed));
    let overflow = [0x08, 0xff, 0xff, 0xff, 0xff, 0xff, 0xff, 0xff, 0xff, 0xff, 0x02];
    assert_eq!(BlockInfo::decode(&overflow), Err(DecodeError::Malformed));
    let top = [0x08, 0xff, 0xff, 0xff, 0xff, 0xff, 0xff, 0xff, 0xff, 0xff, 0x7f];
    assert_eq!(BlockInfo::decode(&top), Err(DecodeError::Malformed));
}

#[test]
fn input_that_ends_inside_a_field_is_truncated() {
    assert_eq!(Coin::decode(&[0x80]), Err(DecodeError::Truncated));
    assert_eq!(Coin::decode(&[0x0a]), Err(DecodeError::Truncated));
    assert_eq!(Coin::decode(&[0x0a, 0x80]), Err(DecodeError::Truncated));
    assert_eq!(Coin::decode(&[0x0a, 0x05, b'a']), Err(DecodeError::Truncated));
    assert_eq!(Coin::decode(&[0x0a, 0x01, b'a', 0x12, 0x02, b'1']), Err(DecodeError::Truncated));
    assert_eq!(BlockInfo::decode(&[0x08]), Err(DecodeError::Truncated));
    assert_eq!(BlockInfo::decode(&[0x08, 0x80]), Err(DecodeError::Truncated));
    assert_eq!(Response::decode(&[0x49, 1, 2, 3, 4, 5, 6, 7]), Err(DecodeError::Truncated));
    assert_eq!(Response::decode(&[0x4d, 1, 2, 3]), Err(DecodeError::Truncated));
    let nine = [0x80, 0x80, 0x80, 0x80, 0x80, 0x80, 0x80, 0x80, 0x80];
    assert_eq!(Response::decode(&nine), Err(DecodeError::Truncated));
}

#[test]
fn length_beyond_the_input_is_truncated() {
    let huge = [0x0a, 0xff, 0xff, 0xff, 0xff, 0xff, 0xff, 0xff, 0xff, 0xff, 0x01, 0x00];
    assert_eq!(Coin::decode(&huge), Err(DecodeError::Truncated));
}

#[test]
fn part_that_ends_inside_a_field_is_truncated() {
    let mut bin: Vec<u8> = Vec::new();
    put_bytes_field(1, &[0x08, 0x80], &mut bin);
    assert_eq!(Params::decode(&bin), Err(DecodeError::Truncated));
    let mut bin: Vec<u8> = Vec::new();
    put_bytes_field(1, &[0x0a, 0x03, b'a'], &mut bin);
    assert_eq!(ContractResult::decode(&bin), Err(DecodeError::Truncated));
}

#[test]
fn input_that_does_not_cut_into_fields_fails_before_any_field_is_read() {
    let bin = [0x0a, 0x01, 0xff, 0x12, 0x05, b'a'];
    assert_eq!(Coin::decode(&bin), Err(DecodeError::Truncated));
    let bin = [0x0a, 0x01, 0xff, 0x0b];
    assert_eq!(Coin::decode(&bin), Err(DecodeError::Malformed));
}

#[test]
fn first_refused_field_gives_the_error() {
    let bin = [0x22, 0x00, 0x08, 0x01];
    assert_eq!(Msg::decode(&bin), Err(DecodeError::UnknownVariant));
    let bin = [0x08, 0x01, 0x22, 0x00];
    assert_eq!(Msg::decode(&bin), Err(DecodeError::Malformed));
    let bin = [0x0a, 0x01, 0xff];
    assert_eq!(Coin::decode(&bin), Err(DecodeError::Malformed));
}

#[test]
fn prefix_of_a_result_is_truncated() {
    let bin = sample_result().encode();
    assert_eq!(boundaries(&bin), vec![0, bin.len()]);
    for k in 1..bin.len() {
        assert_eq!(ContractResult::decode(&bin[..k]), Err(DecodeError::Truncated), "cut at {}", k);
    }
    assert_eq!(ContractResult::decode(&bin[..0]), Ok(ContractResult { res: None }));
}

#[test]
fn prefix_of_params_is_truncated_or_lacks_a_field() {
    let bin = sample_params().encode();
    let cuts = boundaries(&bin);
    assert_eq!(cuts.len(), 4);
    for k in 0..bin.len() {
        let want =
            if cuts.contains(&k) { DecodeError::MissingField } else { DecodeError::Truncated };
        assert_eq!(Params::decode(&bin[..k]), Err(want), "cut at {}", k);
    }
}

#[test]
fn prefix_of_a_response_is_truncated_or_a_shorter_response() {
    let response = Response {
        messages: vec![
            Msg { msg: Some(CosmosMsg::Opaque(OpaqueMsg { data: "1".to_string() })) },
            Msg { msg: Some(CosmosMsg::Opaque(OpaqueMsg { data: "2".to_string() })) },
        ],
        log: Some("log".to_string()),
        data: Some("data".to_string()),
    };
    let bin = response.encode();
    let cuts = boundaries(&bin);
    assert_eq!(cuts.len(), 5);
    for k in 0..bin.len() {
        let got = Response::decode(&bin[..k]);
        if cuts.contains(&k) {
            let shorter = got.expect("a cut between fields decodes");
            assert_ne!(shorter, response);
        } else {
            assert_eq!(got, Err(DecodeError::Truncated), "cut at {}", k);
        }
    }
    let first = Response {
        messages: vec![Msg { msg: Some(CosmosMsg::Opaque(OpaqueMsg { data: "1".to_string() })) }],
        log: None,
        data: None,
    };
    assert_eq!(Response::decode(&bin[..cuts[1]]), Ok(first));
}

#[test]
fn prefix_of_every_kind_of_value_is_never_taken_for_the_value() {
    let coin_bytes = Coin { denom: "earth".to_string(), amount: "1015".to_string() }.encode();
    for k in 0..coin_bytes.len() {
        assert!(Coin::decode(&coin_bytes[..k]).is_err(), "cut at {}", k);
    }
    let block = BlockInfo { height: -7, time: 9, chain_id: "c".to_string() }.encode();
    for k in 0..block.len() {
        assert!(BlockInfo::decode(&block[..k]).is_err(), "cut at {}", k);
    }
    let send = SendMsg {
        from_address: "me".to_string(),
        to_address: "you".to_string(),
        amount: coin("1", "a"),
    };
    let bin = send.encode();
    let cuts = boundaries(&bin);
    for k in 0..bin.len() {
        let got = SendMsg::decode(&bin[..k]);
        if cuts.contains(&k) {
            assert!(got != Err(DecodeError::Truncated) && got != Err(DecodeError::Malformed));
            assert_ne!(got, Ok(send.clone()));
        } else {
            assert_eq!(got, Err(DecodeError::Truncated), "cut at {}", k);
        }
    }
}

#[test]
fn request_under_an_unknown_number_is_an_unknown_variant() {
    let opaque = Msg { msg: Some(CosmosMsg::Opaque(OpaqueMsg { data: "d".to_string() })) };
    let payload = OpaqueMsg { data: "d".to_string() }.encode();
    let mut known: Vec<u8> = Vec::new();
    put_bytes_field(3, &payload, &mut known);
    assert_eq!(known, opaque.encode());
    for tag in [0u64, 4, 5, 15, 16, 100, 536_870_911, 536_870_912, contract_abi::wire::MAX_TAG] {
        let mut moved: Vec<u8> = Vec::new();
        put_bytes_field(tag, &payload, &mut moved);
        assert_eq!(Msg::decode(&moved), Err(DecodeError::UnknownVariant), "number {}", tag);
    }
    assert_eq!(Msg::decode(&[0x22, 0x00]), Err(DecodeError::UnknownVariant));
    assert_eq!(Msg::decode(&[0x20, 0x01]), Err(DecodeError::UnknownVariant));
}

#[test]
fn outcome_under_an_unknown_number_is_an_unknown_variant() {
    let payload: Vec<u8> = b"foobar".to_vec();
    for tag in [0u64, 3, 4, 15, 16, 1000, contract_abi::wire::MAX_TAG] {
        let mut moved: Vec<u8> = Vec::new();
        put_bytes_field(tag, &payload, &mut moved);
        assert_eq!(
            ContractResult::decode(&moved),
            Err(DecodeError::UnknownVariant),
            "number {}",
            tag,
        );
    }
    let mut moved: Vec<u8> = Vec::new();
    put_varint_field(3, 1, &mut moved);
    assert_eq!(ContractResult::decode(&moved), Err(DecodeError::UnknownVariant));
    let mut mixed = ContractResult { res: Some(Result::Failure("e".to_string())) }.encode();
    put_bytes_field(9, &payload, &mut mixed);
    assert_eq!(ContractResult::decode(&mixed), Err(DecodeError::UnknownVariant));
}

#[test]
fn unknown_request_inside_a_response_fails_the_response() {
    let mut inner: Vec<u8> = Vec::new();
    put_bytes_field(7, &[], &mut inner);
    let mut bin: Vec<u8> = Vec::new();
    put_bytes_field(1, &inner, &mut bin);
    assert_eq!(Response::decode(&bin), Err(DecodeError::UnknownVariant));
}

#[test]
fn every_error_has_its_own_message() {
    let all = [
        DecodeError::MissingField,
        DecodeError::Malformed,
        DecodeError::Truncated,
        DecodeError::UnknownVariant,
        DecodeError::InvalidEncoding,
    ];
    assert_eq!(DecodeError::MissingField.message(), "required field is missing");
    assert_eq!(DecodeError::Malformed.message(), "malformed value");
    assert_eq!(DecodeError::Truncated.message(), "input ends inside a field");
    assert_eq!(DecodeError::UnknownVariant.message(), "unknown union variant");
    assert_eq!(DecodeError::InvalidEncoding.message(), "union has no variant set");
    for (i, a) in all.iter().enumerate() {
        for (j, b) in all.iter().enumerate() {
            assert_eq!(i == j, a.message() == b.message());
        }
    }
}
