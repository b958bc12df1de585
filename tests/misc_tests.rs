use basset::allocator::{
    choose_validator, deregister_validator, register_validator, spread_undelegate, validator_index,
};
use basset::epoch::{compute_current_epoch, get_past_epoch, EpocId, TokenState, EPOCH};
use basset::error::HubError;
use basset::token::{is_valid_name, is_valid_symbol, InitMsg};

#[test]
fn past_epoch() {
    assert_eq!(get_past_epoch(0), 0);
    assert_eq!(get_past_epoch(1), 0);
    assert_eq!(get_past_epoch(2), 0);
    assert_eq!(get_past_epoch(5), 3);
}

#[test]
fn current_epoch() {
    assert_eq!(compute_current_epoch(3, 100, 100 + 2 * EPOCH + 5), 5);
    assert_eq!(compute_current_epoch(3, 100, 100 + EPOCH - 1), 3);
    let mut clock = TokenState { current_epoc: 1, current_block_time: 10 };
    assert!(!clock.is_epoc_passed(10 + EPOCH - 1));
    // the clock moved to 10 + EPOCH - 1; exactly one epoch later is not enough
    assert!(!clock.is_epoc_passed(10 + 2 * EPOCH - 1));
    assert!(clock.is_epoc_passed(10 + 3 * EPOCH));
    assert_eq!(clock.current_epoc, 1);
    // the last move was to 10 + 3 epochs: one more epoch passes
    clock.compute_current_epoc(10 + 4 * EPOCH);
    assert_eq!(clock.current_epoc, 2);
    assert_eq!(clock.current_block_time, 10 + 4 * EPOCH);
    assert!(EpocId { epoc_id: 1 } < EpocId { epoc_id: 2 });
}

#[test]
fn names_and_symbols() {
    assert!(!is_valid_name("ab"));
    assert!(is_valid_name("bluna"));
    assert!(is_valid_name(&"x".repeat(30)));
    assert!(!is_valid_name(&"x".repeat(31)));
    assert!(is_valid_symbol("BLUNA"));
    assert!(!is_valid_symbol("BLuna"));
    assert!(!is_valid_symbol("AB"));
    assert!(!is_valid_symbol("ABCDEFG"));
}

#[test]
fn init_msg_validation() {
    let mut msg = InitMsg { name: "bonded luna".to_string(), symbol: "BLUNA".to_string(), decimals: 6, code_id: 1 };
    assert_eq!(msg.validate(), Ok(()));
    msg.decimals = 7;
    assert_eq!(msg.validate(), Err(HubError::InvalidDecimals));
    msg.symbol = "bl".to_string();
    assert_eq!(msg.validate(), Err(HubError::InvalidSymbol));
    msg.name = "b".to_string();
    assert_eq!(msg.validate(), Err(HubError::InvalidName));
}

#[test]
fn storage_key_concat() {
    assert_eq!(basset::token::concat(b"ab", b"cd"), b"abcd".to_vec());
    assert_eq!(basset::token::concat(b"", b""), Vec::<u8>::new());
}

#[test]
fn undelegation_is_spread_within_delegations() {
    let delegations = vec![100u128, 0, 100];
    for seed in 0..20u64 {
        let orders = spread_undelegate(150, &delegations, seed).unwrap();
        let total: u128 = orders.iter().map(|o| o.amount).sum();
        assert_eq!(total, 150);
        for v in 0..3 {
            let taken: u128 = orders.iter().filter(|o| o.validator == v).map(|o| o.amount).sum();
            assert!(taken <= delegations[v]);
        }
        assert!(orders.iter().all(|o| o.amount > 0 && o.validator != 1));
    }
    assert_eq!(spread_undelegate(201, &delegations, 1), Err(HubError::InsufficientDelegations));
    assert_eq!(spread_undelegate(0, &vec![], 1), Ok(vec![]));
}

#[test]
fn whitelist_membership() {
    let mut list = vec!["a".to_string(), "b".to_string(), "c".to_string()];
    let known = vec!["a".to_string(), "b".to_string(), "c".to_string(), "d".to_string()];
    assert_eq!(validator_index(&list, &"c".to_string()), Ok(2));
    assert_eq!(validator_index(&list, &"z".to_string()), Err(HubError::UnknownValidator));
    assert_eq!(register_validator(&mut list, "z".to_string(), &known), Err(HubError::UnknownValidator));
    assert_eq!(register_validator(&mut list, "d".to_string(), &known), Ok(()));
    assert_eq!(register_validator(&mut list, "d".to_string(), &known), Ok(()));
    assert_eq!(list.len(), 4);
    let target = deregister_validator(&mut list, &"b".to_string(), 99).unwrap();
    assert_eq!(list, vec!["a".to_string(), "c".to_string(), "d".to_string()]);
    assert!(target < 3);
    assert_eq!(deregister_validator(&mut list, &"b".to_string(), 99), Err(HubError::UnknownValidator));
    let mut single = vec!["a".to_string(), "a".to_string()];
    assert_eq!(deregister_validator(&mut single, &"a".to_string(), 1), Err(HubError::NoValidators));
    assert_eq!(single.len(), 2);
    // a listed duplicate is removed with the rest, never picked as destination
    for seed in 0..10u64 {
        let mut dup = vec!["a".to_string(), "b".to_string(), "a".to_string()];
        assert_eq!(deregister_validator(&mut dup, &"a".to_string(), seed), Ok(0));
        assert_eq!(dup, vec!["b".to_string()]);
    }
}

#[test]
fn epoch_claim_totals_wait_list() {
    let mut u = basset::ledger::Undelegation { claim: 5, undelegated_wait_list_map: vec![(1, 10), (2, 20)] };
    assert_eq!(u.compute_claim(), Ok(()));
    assert_eq!(u.claim, 35);
    let mut full = basset::ledger::Undelegation { claim: u128::MAX, undelegated_wait_list_map: vec![(1, 1)] };
    assert_eq!(full.compute_claim(), Err(HubError::Overflow));
    assert_eq!(full.claim, u128::MAX);
}

#[test]
fn spread_draws_each_validator_once() {
    let delegations = vec![30u128, 30, 30, 30];
    for seed in 0..20u64 {
        let orders = spread_undelegate(100, &delegations, seed).unwrap();
        assert_eq!(orders.len(), 4);
        let mut seen: Vec<usize> = orders.iter().map(|o| o.validator).collect();
        seen.sort();
        assert_eq!(seen, vec![0, 1, 2, 3]);
    }
}

#[test]
fn single_validator_choice() {
    let delegations = vec![10u128, 500, 20];
    for seed in 0..10u64 {
        assert_eq!(choose_validator(&delegations, 100, seed), Ok(1));
    }
    assert_eq!(choose_validator(&delegations, 500, 3), Err(HubError::InsufficientDelegations));
    assert_eq!(choose_validator(&vec![], 0, 3), Err(HubError::InsufficientDelegations));
}
