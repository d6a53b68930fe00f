use swap_quoter::address::Address;
use swap_quoter::amount::BigAmount;
use swap_quoter::codec::{
    decode_address, decode_decimals, decode_scalar, encode_call, parse_string_return, CallArg,
};
use swap_quoter::errors::UniswapError;
use swap_quoter::uniswap::UniswapV2Client;

fn addr(s: &str) -> Address {
    Address::from_hex_str(s).unwrap()
}

#[test]
fn test_parse_string_return() {
    // The encoded string "USDC": an offset word, a length word, the bytes.
    let mut data = vec![0u8; 96];
    data[31] = 32;
    data[63] = 4;
    data[64..68].copy_from_slice(b"USDC");

    let result = parse_string_return(&data);
    assert_eq!(result, Some("USDC".to_string()));
}

#[test]
fn test_parse_string_return_rejects_bad_shapes() {
    // Too short for even the two header words.
    assert_eq!(parse_string_return(&vec![0u8; 63]), None);

    // An offset pointing past the end of the buffer.
    let mut data = vec![0u8; 96];
    data[31] = 96;
    assert_eq!(parse_string_return(&data), None);

    // A length running past the end of the buffer.
    let mut data = vec![0u8; 96];
    data[31] = 32;
    data[63] = 64;
    assert_eq!(parse_string_return(&data), None);

    // Invalid UTF-8 content.
    let mut data = vec![0u8; 96];
    data[31] = 32;
    data[63] = 2;
    data[64] = 0xff;
    data[65] = 0xfe;
    assert_eq!(parse_string_return(&data), None);
}

#[test]
fn test_decode_scalar_exact_word() {
    let mut word = vec![0u8; 32];
    word[30] = 0x01;
    word[31] = 0x02;
    let value = decode_scalar(&word).unwrap();
    assert_eq!(value, BigAmount::from_u64(258));

    let err = decode_scalar(&vec![0u8; 31]).unwrap_err();
    assert!(matches!(
        err,
        UniswapError::MalformedReturn {
            expected: 32,
            actual: 31
        }
    ));
}

#[test]
fn test_decode_address_low_bytes() {
    let mut word = vec![0u8; 32];
    word[12] = 0xC0;
    word[31] = 0xc2;
    let a = decode_address(&word).unwrap();
    let hex = a.to_hex_string();
    assert_eq!(hex, "0xc0000000000000000000000000000000000000c2");
}

#[test]
fn test_decode_decimals_tolerates_both_widths() {
    let mut word = vec![0u8; 32];
    word[31] = 18;
    assert_eq!(decode_decimals(&word).unwrap(), 18);

    assert_eq!(decode_decimals(&vec![6u8]).unwrap(), 6);

    assert!(decode_decimals(&vec![0u8; 2]).is_err());
    assert!(decode_decimals(&Vec::new()).is_err());
}

#[test]
fn test_encode_call_layout() {
    let selector = vec![0x70u8, 0xa0, 0x82, 0x31];
    let owner = addr("0x1111111111111111111111111111111111111111");
    let args = vec![
        CallArg::Addr(owner),
        CallArg::Uint(BigAmount::from_u64(7)),
    ];
    let data = encode_call(&selector, &args);

    assert_eq!(data.len(), 4 + 32 + 32);
    assert_eq!(&data[0..4], &[0x70, 0xa0, 0x82, 0x31]);
    assert_eq!(&data[4..16], &[0u8; 12]);
    assert_eq!(&data[16..36], &[0x11u8; 20]);
    assert_eq!(data[67], 7);
    assert!(data[36..67].iter().all(|b| *b == 0));
}

#[test]
fn test_get_pair_calldata_layout() {
    let client = UniswapV2Client::new();
    let a = addr("0x1111111111111111111111111111111111111111");
    let b = addr("0x2222222222222222222222222222222222222222");
    let data = client.get_pair_calldata(&a, &b);

    assert_eq!(data.len(), 68);
    assert_eq!(&data[0..4], &[0xe6, 0xa4, 0x39, 0x05]);
    assert_eq!(&data[16..36], &[0x11u8; 20]);
    assert_eq!(&data[48..68], &[0x22u8; 20]);
}

#[test]
fn test_get_reserves_calldata_is_bare_selector() {
    let client = UniswapV2Client::new();
    assert_eq!(client.get_reserves_calldata(), vec![0x09, 0x02, 0xf1, 0xac]);
}

#[test]
fn test_swap_calldata_layout() {
    let client = UniswapV2Client::new();
    let from = addr("0x1111111111111111111111111111111111111111");
    let to = addr("0x2222222222222222222222222222222222222222");
    let recipient = addr("0x3333333333333333333333333333333333333333");
    let path = vec![from, to];
    let data = client.encode_swap_call(
        &BigAmount::from_u64(1000),
        &BigAmount::from_u64(990),
        &path,
        &recipient,
    );

    // selector, then eight words: amountIn, amountOutMin, the array offset,
    // the recipient, the deadline, the element count, and two path entries.
    assert_eq!(data.len(), 4 + 32 * 8);
    assert_eq!(&data[0..4], &[0x38, 0xed, 0x17, 0x39]);
    assert_eq!(u64::from_be_bytes(data[28..36].try_into().unwrap()), 1000);
    assert_eq!(u64::from_be_bytes(data[60..68].try_into().unwrap()), 990);
    // The array offset word points at byte 160.
    assert_eq!(data[99], 0xa0);
    assert_eq!(&data[112..132], &[0x33u8; 20]);
    // The deadline sentinel: all ones.
    assert!(data[132..164].iter().all(|b| *b == 0xff));
    // The element count, then the two addresses.
    assert_eq!(data[195], 2);
    assert_eq!(&data[208..228], &[0x11u8; 20]);
    assert_eq!(&data[240..260], &[0x22u8; 20]);
}

#[test]
fn test_pair_missing_surfaces_as_error() {
    let client = UniswapV2Client::new();

    // The all-zero address word means the factory knows no such pool.
    let zero_word = vec![0u8; 32];
    let result = client.decode_pair_address(&zero_word);
    assert!(matches!(result.unwrap_err(), UniswapError::PairNotFound));

    let mut word = vec![0u8; 32];
    word[31] = 1;
    assert!(client.decode_pair_address(&word).is_ok());

    let short = vec![0u8; 20];
    assert!(matches!(
        client.decode_pair_address(&short).unwrap_err(),
        UniswapError::MalformedReturn {
            expected: 32,
            actual: 20
        }
    ));
}

#[test]
fn test_decode_reserves_return() {
    let client = UniswapV2Client::new();

    let mut data = vec![0u8; 96];
    data[31] = 10;
    data[63] = 20;
    let (r0, r1) = client.decode_reserves_return(&data).unwrap();
    assert_eq!(r0, BigAmount::from_u64(10));
    assert_eq!(r1, BigAmount::from_u64(20));

    // A zero reserve is unusable liquidity.
    let mut empty = vec![0u8; 64];
    empty[31] = 10;
    assert!(matches!(
        client.decode_reserves_return(&empty).unwrap_err(),
        UniswapError::InsufficientLiquidity
    ));

    assert!(matches!(
        client.decode_reserves_return(&vec![0u8; 63]).unwrap_err(),
        UniswapError::MalformedReturn {
            expected: 64,
            actual: 63
        }
    ));
}

#[test]
fn test_address_hex_roundtrip() {
    let text = "0xC02aaA39b223FE8D0A0e5C4F27eAD9083C756Cc2";
    let a = Address::from_hex_str(text).unwrap();
    assert_eq!(a.to_hex_string(), text.to_lowercase());

    assert!(Address::from_hex_str("0x123").is_none());
    assert!(Address::from_hex_str("C02aaA39b223FE8D0A0e5C4F27eAD9083C756Cc2").is_none());
    assert!(Address::from_hex_str("0xZZ2aaA39b223FE8D0A0e5C4F27eAD9083C756Cc2").is_none());
}

#[test]
fn test_amount_word_roundtrip() {
    let v = BigAmount::from_dec_str("340282366920938463463374607431768211456").unwrap();
    let word = v.to_be_bytes32();
    assert_eq!(word.len(), 32);
    let back = BigAmount::from_be_bytes(&word, 0, 32);
    assert_eq!(back, v);
}

#[test]
fn test_client_contract_addresses() {
    let client = UniswapV2Client::new();
    assert_eq!(
        client.factory().to_hex_string(),
        "0x5c69bee701ef814a2b6a3edd4b1652cb9cc5aa6f"
    );
    assert_eq!(
        client.router_address().to_hex_string(),
        "0x7a250d5630b4cf539739df2c5dacb4c659f2488d"
    );
    assert_eq!(
        client.weth_address().to_hex_string(),
        "0xc02aaa39b223fe8d0a0e5c4f27ead9083c756cc2"
    );
}
