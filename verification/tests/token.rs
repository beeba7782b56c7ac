use cw4_stake::token::{InstantiateMsg, MinterResponse};

#[test]
fn validate_instantiatemsg_name() {
    // name length allowed [3,50]
    // Too short
    let mut msg = InstantiateMsg {
        name: str::repeat("a", 2),
        ..InstantiateMsg::default()
    };
    assert!(!msg.has_valid_name());

    // In the correct length range
    msg.name = str::repeat("a", 3);
    assert!(msg.has_valid_name());

    // Too long
    msg.name = str::repeat("a", 51);
    assert!(!msg.has_valid_name());
}

#[test]
fn validate_instantiatemsg_symbol() {
    // symbol length allowed [3,12]
    // Too short
    let mut msg = InstantiateMsg {
        symbol: str::repeat("a", 2),
        ..InstantiateMsg::default()
    };
    assert!(!msg.has_valid_symbol());

    // In the correct length range
    msg.symbol = str::repeat("a", 3);
    assert!(msg.has_valid_symbol());

    // Too long
    msg.symbol = str::repeat("a", 13);
    assert!(!msg.has_valid_symbol());

    // Legal chars [65,90] U [97,122] U {45}
    // Has illegal char.
    let illegal_chars = [[64u8], [91u8], [123u8]];
    illegal_chars.iter().for_each(|c| {
        let c = std::str::from_utf8(c).unwrap();
        // the character has to be repeated at least three times so length
        // does not already refuse it
        msg.symbol = str::repeat(c, 3);
        assert!(!msg.has_valid_symbol());
    });
}

#[test]
fn validate_whole_message() {
    let mut msg = InstantiateMsg {
        name: "Staking Token".to_string(),
        symbol: "STAKE".to_string(),
        decimals: 6,
        ..InstantiateMsg::default()
    };
    assert!(msg.validate().is_ok());

    msg.decimals = 19;
    assert!(msg.validate().is_err());

    msg.decimals = 18;
    assert!(msg.validate().is_ok());

    msg.symbol = "st akes".to_string();
    assert!(msg.validate().is_err());

    msg.symbol = "-STAKE-".to_string();
    msg.name = "ab".to_string();
    assert!(msg.validate().is_err());
}

#[test]
fn cap_is_forwarded() {
    let mut msg = InstantiateMsg::default();
    assert_eq!(msg.get_cap(), None);

    msg.mint = Some(MinterResponse {
        minter: "minter".to_string(),
        cap: None,
    });
    assert_eq!(msg.get_cap(), None);

    msg.mint = Some(MinterResponse {
        minter: "minter".to_string(),
        cap: Some(1_000_000u128),
    });
    assert_eq!(msg.get_cap(), Some(1_000_000u128));
}
