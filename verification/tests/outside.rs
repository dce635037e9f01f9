use contract_abi::value::{put_int_field, put_text_field};
use contract_abi::varint::decode_varint;
use contract_abi::wire::{next_field, put_bytes_field, put_varint_field, RawField, RawValue};
use contract_abi::{BlockInfo, Coin};

#[test]
fn varint_field_matches_the_outside_encoder() {
    for value in [0u64, 1, 127, 128, 300, 16_383, 16_384, 1 << 32, 1 << 63, u64::MAX] {
        for tag in [1u32, 2, 15, 16, 2047, 2048, (1 << 29) - 1] {
            let mut ours: Vec<u8> = Vec::new();
            put_varint_field(tag as u64, value, &mut ours);
            let mut theirs: Vec<u8> = Vec::new();
            prost::encoding::encode_key(tag, prost::encoding::WireType::Varint, &mut theirs);
            prost::encoding::encode_varint(value, &mut theirs);
            assert_eq!(ours, theirs, "number {} value {}", tag, value);
        }
    }
}

#[test]
fn text_field_matches_the_outside_encoder() {
    for text in ["", "earth", "h\u{e9}llo", "cosmos-testnet-14002"] {
        let mut ours: Vec<u8> = Vec::new();
        put_text_field(3, text, &mut ours);
        let mut theirs: Vec<u8> = Vec::new();
        prost::encoding::string::encode(3, &text.to_string(), &mut theirs);
        assert_eq!(ours, theirs);
    }
}

#[test]
fn int_field_matches_the_outside_encoder() {
    for value in [0i64, 1, -1, 12_345, 1_571_797_419, i64::MIN, i64::MAX, -300] {
        let mut ours: Vec<u8> = Vec::new();
        put_int_field(2, value, &mut ours);
        let mut theirs: Vec<u8> = Vec::new();
        prost::encoding::int64::encode(2, &value, &mut theirs);
        assert_eq!(ours, theirs, "value {}", value);
    }
}

#[test]
fn bytes_field_matches_the_outside_encoder() {
    let payload: Vec<u8> = (0..200u8).collect();
    let mut ours: Vec<u8> = Vec::new();
    put_bytes_field(5, &payload, &mut ours);
    let mut theirs: Vec<u8> = Vec::new();
    prost::encoding::bytes::encode(5, &payload, &mut theirs);
    assert_eq!(ours, theirs);
}

#[test]
fn varint_decoder_agrees_with_the_outside_decoder() {
    let inputs: Vec<Vec<u8>> = vec![
        vec![],
        vec![0x00],
        vec![0x7f, 0x01],
        vec![0x80],
        vec![0x80, 0x00],
        vec![0xac, 0x02, 0x03],
        vec![0xff; 9],
        vec![0xff, 0xff, 0xff, 0xff, 0xff, 0xff, 0xff, 0xff, 0xff, 0x01],
        vec![0xff, 0xff, 0xff, 0xff, 0xff, 0xff, 0xff, 0xff, 0xff, 0x02],
        vec![0xff, 0xff, 0xff, 0xff, 0xff, 0xff, 0xff, 0xff, 0xff, 0x01, 0x55],
        vec![0xff; 10],
        vec![0xff; 11],
        vec![0x80, 0x80, 0x80, 0x80, 0x80, 0x80, 0x80, 0x80, 0x80, 0x80, 0x00],
        vec![0x81, 0x82, 0x83, 0x04, 0x85],
    ];
    for input in inputs {
        let mut rest: &[u8] = &input;
        let theirs = prost::encoding::decode_varint(&mut rest);
        match decode_varint(&input) {
            Ok((value, after)) => {
                assert_eq!(theirs.ok(), Some(value), "input {:?}", input);
                assert_eq!(after, rest, "input {:?}", input);
            },
            Err(_) => assert!(theirs.is_err(), "input {:?}", input),
        }
    }
}

#[test]
fn fields_of_the_outside_encoder_are_read() {
    let mut bin: Vec<u8> = Vec::new();
    prost::encoding::string::encode(1, &"earth".to_string(), &mut bin);
    prost::encoding::string::encode(2, &"1015".to_string(), &mut bin);
    assert_eq!(
        Coin::decode(&bin),
        Ok(Coin { denom: "earth".to_string(), amount: "1015".to_string() }),
    );
    let mut bin: Vec<u8> = Vec::new();
    prost::encoding::int64::encode(1, &-12, &mut bin);
    prost::encoding::int64::encode(2, &34, &mut bin);
    prost::encoding::string::encode(3, &"chain".to_string(), &mut bin);
    prost::encoding::fixed64::encode(9, &77, &mut bin);
    prost::encoding::float::encode(10, &1.5, &mut bin);
    assert_eq!(
        BlockInfo::decode(&bin),
        Ok(BlockInfo { height: -12, time: 34, chain_id: "chain".to_string() }),
    );
}

#[test]
fn keys_of_the_outside_encoder_are_read() {
    let mut bin: Vec<u8> = Vec::new();
    prost::encoding::encode_key(300, prost::encoding::WireType::ThirtyTwoBit, &mut bin);
    bin.extend_from_slice(&[1, 2, 3, 4]);
    let (field, rest) = next_field(&bin).unwrap();
    assert_eq!(field, RawField { tag: 300, value: RawValue::Fixed32(&[1, 2, 3, 4]) });
    assert!(rest.is_empty());
}
