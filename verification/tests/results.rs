use contract_abi::{coin, ContractResult, CosmosMsg, Msg, Response, Result, SendMsg};

#[test]
fn can_deser_error_result() {
    let fail = ContractResult { res: Some(Result::Failure("foobar".to_string())) };
    let bin = fail.encode();
    assert!(!bin.is_empty(), "encode contract result");
    println!("error: {}", std::str::from_utf8(&bin).unwrap());
    let back: ContractResult = ContractResult::decode(&bin).expect("decode contract result");
    assert_eq!(fail, back);
}

#[test]
fn can_deser_ok_result() {
    let send = ContractResult {
        res: Some(Result::Success(Response {
            messages: vec![Msg {
                msg: Some(CosmosMsg::Send(SendMsg {
                    from_address: "me".to_string(),
                    to_address: "you".to_string(),
                    amount: coin("1015", "earth"),
                })),
            }],
            log: Some("released funds!".to_string()),
            data: None,
        })),
    };
    let bin = send.encode();
    assert!(!bin.is_empty(), "encode contract result");
    println!("ok: {}", std::str::from_utf8(&bin).unwrap());
    let back: ContractResult = ContractResult::decode(&bin).expect("decode contract result");
    assert_eq!(send, back);
}

#[test]
fn error_result_has_the_expected_bytes() {
    let fail = ContractResult { res: Some(Result::Failure("foobar".to_string())) };
    assert_eq!(fail.encode(), vec![0x12, 0x06, b'f', b'o', b'o', b'b', b'a', b'r']);
}

#[test]
fn ok_result_has_the_expected_bytes() {
    let send = ContractResult {
        res: Some(Result::Success(Response {
            messages: vec![Msg {
                msg: Some(CosmosMsg::Send(SendMsg {
                    from_address: "me".to_string(),
                    to_address: "you".to_string(),
                    amount: coin("1015", "earth"),
                })),
            }],
            log: Some("released funds!".to_string()),
            data: None,
        })),
    };
    let expected: Vec<u8> = vec![
        0x0a, 0x2d, 0x0a, 0x1a, 0x0a, 0x18, 0x0a, 0x02, 0x6d, 0x65, 0x12, 0x03, 0x79, 0x6f, 0x75,
        0x1a, 0x0d, 0x0a, 0x05, 0x65, 0x61, 0x72, 0x74, 0x68, 0x12, 0x04, 0x31, 0x30, 0x31, 0x35,
        0x12, 0x0f, 0x72, 0x65, 0x6c, 0x65, 0x61, 0x73, 0x65, 0x64, 0x20, 0x66, 0x75, 0x6e, 0x64,
        0x73, 0x21,
    ];
    assert_eq!(send.encode(), expected);
}

#[test]
fn decoded_error_result_is_the_error_variant() {
    let bin = vec![0x12, 0x06, b'f', b'o', b'o', b'b', b'a', b'r'];
    let back = ContractResult::decode(&bin).unwrap();
    assert!(back.is_err());
    match back.res {
        Some(Result::Failure(text)) => assert_eq!(text, "foobar"),
        other => panic!("unexpected outcome: {:?}", other),
    }
}

#[test]
fn unwrap_gives_the_response() {
    let response = Response { messages: vec![], log: Some("done".to_string()), data: None };
    let answer = ContractResult { res: Some(Result::Success(response.clone())) };
    assert!(!answer.is_err());
    assert_eq!(answer.unwrap(), response);
}

#[test]
fn outcome_refuses_an_answer_without_one() {
    let unset = ContractResult { res: None };
    assert_eq!(unset.outcome(), Err(contract_abi::DecodeError::InvalidEncoding));
    let set = ContractResult { res: Some(Result::Failure("no".to_string())) };
    assert_eq!(set.outcome(), Ok(&Result::Failure("no".to_string())));
}

#[test]
fn request_refuses_a_message_without_one() {
    let unset = Msg { msg: None };
    assert_eq!(unset.request(), Err(contract_abi::DecodeError::InvalidEncoding));
    let inner = CosmosMsg::Opaque(contract_abi::OpaqueMsg { data: "x".to_string() });
    let set = Msg { msg: Some(inner.clone()) };
    assert_eq!(set.request(), Ok(&inner));
}

#[test]
fn answer_without_outcome_is_empty_on_the_wire() {
    let unset = ContractResult { res: None };
    assert_eq!(unset.encode(), Vec::<u8>::new());
    assert_eq!(ContractResult::decode(&[]), Ok(unset));
}

#[test]
fn last_outcome_stands() {
    let mut bin = ContractResult { res: Some(Result::Failure("first".to_string())) }.encode();
    let second = ContractResult {
        res: Some(Result::Success(Response { messages: vec![], log: None, data: None })),
    };
    bin.extend_from_slice(&second.encode());
    assert_eq!(ContractResult::decode(&bin), Ok(second));

    let mut bin = ContractResult {
        res: Some(Result::Success(Response { messages: vec![], log: None, data: None })),
    }
    .encode();
    let last = ContractResult { res: Some(Result::Failure("last".to_string())) };
    bin.extend_from_slice(&last.encode());
    assert_eq!(ContractResult::decode(&bin), Ok(last));
}

#[test]
fn only_the_written_variant_comes_back() {
    let failure = ContractResult { res: Some(Result::Failure("boom".to_string())) };
    match ContractResult::decode(&failure.encode()).unwrap().res {
        Some(Result::Failure(text)) => assert_eq!(text, "boom"),
        other => panic!("unexpected outcome: {:?}", other),
    }
    let success = ContractResult {
        res: Some(Result::Success(Response {
            messages: vec![],
            log: None,
            data: Some("d".to_string()),
        })),
    };
    match ContractResult::decode(&success.encode()).unwrap().res {
        Some(Result::Success(r)) => assert_eq!(r.data, Some("d".to_string())),
        other => panic!("unexpected outcome: {:?}", other),
    }
}

#[test]
fn response_without_data_differs_from_response_with_empty_data() {
    let absent = Response { messages: vec![], log: None, data: None };
    let empty = Response { messages: vec![], log: None, data: Some(String::new()) };
    assert_eq!(absent.encode(), Vec::<u8>::new());
    assert_eq!(empty.encode(), vec![0x1a, 0x00]);
    assert_eq!(Response::decode(&absent.encode()).unwrap().data, None);
    assert_eq!(Response::decode(&empty.encode()).unwrap().data, Some(String::new()));
    assert_ne!(Response::decode(&absent.encode()), Response::decode(&empty.encode()));
}

#[test]
fn response_without_log_differs_from_response_with_empty_log() {
    let absent = Response { messages: vec![], log: None, data: None };
    let empty = Response { messages: vec![], log: Some(String::new()), data: None };
    assert_eq!(empty.encode(), vec![0x12, 0x00]);
    assert_eq!(Response::decode(&empty.encode()), Ok(empty));
    assert_eq!(Response::decode(&[]), Ok(absent));
}

#[test]
fn response_keeps_the_order_of_its_messages() {
    let messages: Vec<Msg> = vec![
        Msg { msg: Some(CosmosMsg::Opaque(contract_abi::OpaqueMsg { data: "1".to_string() })) },
        Msg {
            msg: Some(CosmosMsg::Contract(contract_abi::ContractMsg {
                contract_addr: "c".to_string(),
                msg: "{}".to_string(),
            })),
        },
        Msg { msg: None },
        Msg { msg: Some(CosmosMsg::Opaque(contract_abi::OpaqueMsg { data: "2".to_string() })) },
    ];
    let response = Response { messages: messages.clone(), log: None, data: None };
    let back = Response::decode(&response.encode()).unwrap();
    assert_eq!(back.messages, messages);
}

#[test]
fn decode_outcome_refuses_input_without_an_outcome() {
    assert_eq!(
        ContractResult::decode_outcome(&[]),
        Err(contract_abi::DecodeError::InvalidEncoding),
    );
    let bin = vec![0x12, 0x06, b'f', b'o', b'o', b'b', b'a', b'r'];
    assert_eq!(ContractResult::decode_outcome(&bin), Ok(Result::Failure("foobar".to_string())));
    assert_eq!(
        ContractResult::decode_outcome(&bin[..3]),
        Err(contract_abi::DecodeError::Truncated),
    );
    assert_eq!(
        ContractResult::decode_outcome(&[0x1a, 0x00]),
        Err(contract_abi::DecodeError::UnknownVariant),
    );
}

#[test]
fn decode_request_refuses_input_without_a_request() {
    assert_eq!(Msg::decode_request(&[]), Err(contract_abi::DecodeError::InvalidEncoding));
    let opaque = CosmosMsg::Opaque(contract_abi::OpaqueMsg { data: "d".to_string() });
    assert_eq!(Msg::decode_request(&[0x1a, 0x03, 0x0a, 0x01, b'd']), Ok(opaque));
    assert_eq!(
        Msg::decode_request(&[0x1a, 0x00]),
        Err(contract_abi::DecodeError::MissingField),
    );
}

#[test]
fn requests_gives_every_request_or_refuses() {
    let first = CosmosMsg::Opaque(contract_abi::OpaqueMsg { data: "1".to_string() });
    let second = CosmosMsg::Opaque(contract_abi::OpaqueMsg { data: "2".to_string() });
    let full = Response {
        messages: vec![Msg { msg: Some(first.clone()) }, Msg { msg: Some(second.clone()) }],
        log: None,
        data: None,
    };
    assert_eq!(full.requests(), Ok(vec![&first, &second]));
    let empty = Response { messages: vec![], log: None, data: None };
    assert_eq!(empty.requests(), Ok(vec![]));
    let holed = Response {
        messages: vec![Msg { msg: Some(first.clone()) }, Msg { msg: None }],
        log: None,
        data: None,
    };
    assert_eq!(holed.requests(), Err(contract_abi::DecodeError::InvalidEncoding));
    let back = Response::decode(&holed.encode()).unwrap();
    assert_eq!(back.requests(), Err(contract_abi::DecodeError::InvalidEncoding));
}
