//! Each reason for which the pool refuses a transaction, and the order of
//! the checks.

use txpool_core::collision_manager::basic::BasicCollisionManager;
use txpool_core::config::{BlackList, Config, PoolLimits};
use txpool_core::error::{Error, InputValidationError};
use txpool_core::pool::Pool;
use txpool_core::ports::PersistentView;
use txpool_core::selection_algorithms::ratio_tip_gas::RatioTipGasSelection;
use txpool_core::storage::graph::{GraphConfig, GraphStorage};
use txpool_core::types::{Bytes32, Input, Output, PoolTx, TxKind, UtxoId};

fn id(n: u8) -> Bytes32 {
    Bytes32::from_bytes([n; 32])
}

fn config(utxo_validation: bool) -> Config {
    Config {
        utxo_validation,
        max_block_gas: 1_000_000,
        max_txs_chain_count: 10,
        pool_limits: PoolLimits { max_txs: 100, max_gas: 1_000_000, max_bytes_size: 1_000_000 },
        black_list: BlackList::new(),
    }
}

fn pool(config: Config) -> Pool {
    Pool::new(
        GraphStorage::new(GraphConfig { max_txs_chain_count: config.max_txs_chain_count }),
        BasicCollisionManager::new(),
        RatioTipGasSelection::new(),
        config,
    )
}

fn coin(tx: u8, output_index: u16) -> Input {
    Input::Coin {
        utxo_id: UtxoId::new(id(tx), output_index),
        owner: id(200),
        asset_id: id(210),
    }
}

fn message(nonce: u8) -> Input {
    Input::Message { nonce: id(nonce), sender: id(201), recipient: id(202) }
}

fn contract(n: u8) -> Input {
    Input::Contract { contract_id: id(n) }
}

fn tx(n: u8, tip: u64, max_gas: u64, inputs: Vec<Input>) -> PoolTx {
    PoolTx {
        id: id(n),
        kind: TxKind::Script,
        max_gas,
        tip,
        metered_bytes_size: 10,
        max_gas_price: u64::MAX,
        inputs,
        outputs: vec![Output::Coin, Output::Contract, Output::Change],
    }
}

#[test]
fn zero_max_gas_is_refused_first() {
    let mut pool = pool(config(false));
    let view = PersistentView::new();
    pool.insert(tx(1, 1, 100, vec![coin(90, 0)]), &view, 1).unwrap();
    // Also where the id is a duplicate.
    assert_eq!(pool.insert(tx(1, 1, 0, vec![coin(90, 0)]), &view, 2), Err(Error::ZeroMaxGas));
    assert_eq!(pool.insert(tx(2, 1, 0, vec![]), &view, 2), Err(Error::ZeroMaxGas));
    assert_eq!(pool.tx_count(), 1);
}

#[test]
fn duplicate_id_is_refused_and_the_pool_stays_as_it_was() {
    let mut pool = pool(config(false));
    let view = PersistentView::new();
    let first = tx(1, 1, 100, vec![coin(90, 0)]);
    pool.insert(first.clone(), &view, 1).unwrap();
    let again = tx(1, 50, 70, vec![coin(91, 0)]);
    assert_eq!(pool.insert(again, &view, 2), Err(Error::DuplicateTxId(id(1))));
    assert_eq!(pool.find_one(&id(1)), Some(&first));
    assert_eq!(pool.tx_count(), 1);
    assert_eq!(pool.current_gas, 100);
    assert_eq!(pool.current_bytes_size, 10);
    assert_eq!(pool.collision_manager.claims.len(), 1);
    assert_eq!(pool.selection_algorithm.executable_transactions_sorted_tip_gas_ratio.len(), 1);
}

#[test]
fn banned_inputs_are_refused() {
    let mut config = config(false);
    config.black_list.coins.push(UtxoId::new(id(90), 3));
    config.black_list.owners.push(id(201));
    config.black_list.contracts.push(id(50));
    config.black_list.messages.push(id(60));
    config.black_list.asset_ids.push(id(211));
    let mut pool = pool(config);
    let mut view = PersistentView::new();
    view.messages.push(id(61));
    view.messages.push(id(60));
    view.contracts.push(id(50));
    view.contracts.push(id(51));

    assert_eq!(pool.insert(tx(1, 1, 100, vec![coin(90, 3)]), &view, 1), Err(Error::Blacklisted));
    // The sender of the message is banned.
    assert_eq!(pool.insert(tx(2, 1, 100, vec![message(61)]), &view, 1), Err(Error::Blacklisted));
    assert_eq!(pool.insert(tx(3, 1, 100, vec![contract(50)]), &view, 1), Err(Error::Blacklisted));
    let banned_asset = Input::Coin {
        utxo_id: UtxoId::new(id(90), 0),
        owner: id(200),
        asset_id: id(211),
    };
    assert_eq!(pool.insert(tx(4, 1, 100, vec![banned_asset]), &view, 1), Err(Error::Blacklisted));
    let banned_nonce = Input::Message { nonce: id(60), sender: id(1), recipient: id(2) };
    assert_eq!(pool.insert(tx(5, 1, 100, vec![banned_nonce]), &view, 1), Err(Error::Blacklisted));
    // What is not banned passes.
    assert!(pool.insert(tx(6, 1, 100, vec![coin(90, 0), contract(51)]), &view, 1).is_ok());
    assert_eq!(pool.tx_count(), 1);
}

#[test]
fn blob_that_exists_is_refused() {
    let mut pool = pool(config(false));
    let mut view = PersistentView::new();
    view.blobs.push(id(33));
    let mut blob = tx(1, 1, 100, vec![coin(90, 0)]);
    blob.kind = TxKind::Blob { blob_id: id(33) };
    assert_eq!(pool.insert(blob, &view, 1), Err(Error::BlobIdAlreadyTaken(id(33))));
    let mut other = tx(2, 1, 100, vec![coin(90, 0)]);
    other.kind = TxKind::Blob { blob_id: id(34) };
    assert!(pool.insert(other, &view, 1).is_ok());
}

#[test]
fn two_uploads_of_one_blob_collide() {
    let mut pool = pool(config(false));
    let view = PersistentView::new();
    let mut first = tx(1, 1, 100, vec![coin(90, 0)]);
    first.kind = TxKind::Blob { blob_id: id(34) };
    let mut second = tx(2, 1, 100, vec![coin(91, 0)]);
    second.kind = TxKind::Blob { blob_id: id(34) };
    pool.insert(first, &view, 1).unwrap();
    assert_eq!(pool.insert(second, &view, 2), Err(Error::Collided(id(1))));
}

#[test]
fn two_deployments_of_one_contract_collide() {
    let mut pool = pool(config(false));
    let view = PersistentView::new();
    let mut first = tx(1, 1, 100, vec![coin(90, 0)]);
    first.kind = TxKind::Create;
    first.outputs = vec![Output::ContractCreated { contract_id: id(70) }];
    let mut second = tx(2, 5, 100, vec![coin(91, 0)]);
    second.kind = TxKind::Create;
    second.outputs = vec![Output::Change, Output::ContractCreated { contract_id: id(70) }];
    pool.insert(first.clone(), &view, 1).unwrap();
    assert_eq!(pool.insert(second, &view, 2), Ok(vec![first]));
}

#[test]
fn unknown_coin_is_refused_when_coins_are_validated() {
    let mut pool = pool(config(true));
    let mut view = PersistentView::new();
    view.coins.push(UtxoId::new(id(90), 0));
    assert_eq!(
        pool.insert(tx(1, 1, 100, vec![coin(90, 0), coin(90, 1)]), &view, 1),
        Err(Error::NotInsertedInputsInvalid(InputValidationError::UtxoNotFound(UtxoId::new(
            id(90),
            1
        ))))
    );
    assert!(pool.insert(tx(2, 1, 100, vec![coin(90, 0)]), &view, 1).is_ok());
    // The output of a pool transaction needs no confirmation.
    assert!(pool.insert(tx(3, 1, 100, vec![coin(2, 2)]), &view, 1).is_ok());
}

#[test]
fn output_that_cannot_be_spent_is_refused() {
    let mut pool = pool(config(false));
    let view = PersistentView::new();
    pool.insert(tx(1, 1, 100, vec![coin(90, 0)]), &view, 1).unwrap();
    // Slot 1 is a contract output, slot 3 does not exist.
    assert_eq!(
        pool.insert(tx(2, 1, 100, vec![coin(1, 1)]), &view, 1),
        Err(Error::NotInsertedInputsInvalid(InputValidationError::NotSpendableOutput(
            UtxoId::new(id(1), 1)
        )))
    );
    assert_eq!(
        pool.insert(tx(3, 1, 100, vec![coin(1, 3)]), &view, 1),
        Err(Error::NotInsertedInputsInvalid(InputValidationError::NotSpendableOutput(
            UtxoId::new(id(1), 3)
        )))
    );
    assert!(pool.insert(tx(4, 1, 100, vec![coin(1, 2)]), &view, 1).is_ok());
}

#[test]
fn unknown_and_spent_messages_and_unknown_contracts_are_refused() {
    let mut pool = pool(config(false));
    let mut view = PersistentView::new();
    view.messages.push(id(60));
    view.messages.push(id(61));
    view.spent_messages.push(id(61));
    view.contracts.push(id(50));
    assert_eq!(
        pool.insert(tx(1, 1, 100, vec![message(62)]), &view, 1),
        Err(Error::NotInsertedInputsInvalid(InputValidationError::MessageNotFound(id(62))))
    );
    assert_eq!(
        pool.insert(tx(2, 1, 100, vec![message(60), message(61)]), &view, 1),
        Err(Error::NotInsertedInputsInvalid(InputValidationError::MessageSpent(id(61))))
    );
    assert_eq!(
        pool.insert(tx(3, 1, 100, vec![contract(51), message(62)]), &view, 1),
        Err(Error::NotInsertedInputsInvalid(InputValidationError::ContractNotFound(id(51))))
    );
    assert!(pool.insert(tx(4, 1, 100, vec![message(60), contract(50)]), &view, 1).is_ok());
}

#[test]
fn collision_with_a_dependency_is_refused() {
    let mut pool = pool(config(false));
    let mut view = PersistentView::new();
    view.messages.push(id(60));
    pool.insert(tx(1, 1, 100, vec![message(60)]), &view, 1).unwrap();
    pool.insert(tx(2, 1, 100, vec![coin(1, 0)]), &view, 2).unwrap();
    // Spends an output of 2, whose parent spends the message too.
    let candidate = tx(3, 1_000, 100, vec![coin(2, 0), message(60)]);
    assert_eq!(pool.insert(candidate, &view, 3), Err(Error::NotInsertedCollisionIsDependency));
    assert_eq!(pool.tx_count(), 2);
}

#[test]
fn dependent_candidate_displaces_nothing() {
    let mut pool = pool(config(false));
    let mut view = PersistentView::new();
    view.messages.push(id(60));
    pool.insert(tx(1, 1, 100, vec![message(60)]), &view, 1).unwrap();
    pool.insert(tx(2, 1, 100, vec![coin(92, 0)]), &view, 2).unwrap();
    let candidate = tx(3, 1_000, 100, vec![coin(2, 0), message(60)]);
    assert_eq!(pool.insert(candidate, &view, 3), Err(Error::Collided(id(1))));
}

#[test]
fn double_spend_of_a_pool_output_collides_with_the_spender_not_the_parent() {
    let mut pool = pool(config(false));
    let view = PersistentView::new();
    let parent = tx(1, 1, 100, vec![coin(90, 0)]);
    let spender = tx(2, 1, 100, vec![coin(1, 0)]);
    pool.insert(parent.clone(), &view, 1).unwrap();
    pool.insert(spender.clone(), &view, 2).unwrap();
    let rival = tx(3, 10, 100, vec![coin(1, 0)]);
    // The rival depends on the parent, so it may not displace the spender.
    assert_eq!(pool.insert(rival, &view, 3), Err(Error::Collided(id(2))));
    // Another output of the parent is free.
    assert!(pool.insert(tx(4, 1, 100, vec![coin(1, 2)]), &view, 4).unwrap().is_empty());
    assert_eq!(pool.find_one(&id(1)), Some(&parent));
}

#[test]
fn chain_limit_bounds_the_longest_chain_not_the_number_of_dependents() {
    let mut config = config(false);
    config.max_txs_chain_count = 3;
    let mut pool = pool(config);
    let view = PersistentView::new();
    pool.insert(tx(1, 1, 100, vec![coin(90, 0)]), &view, 1).unwrap();
    // Three dependents side by side make chains of two.
    pool.insert(tx(2, 1, 100, vec![coin(1, 0)]), &view, 2).unwrap();
    pool.insert(tx(3, 1, 100, vec![coin(1, 2)]), &view, 3).unwrap();
    let mut other = tx(4, 1, 100, vec![coin(1, 0)]);
    other.inputs = vec![Input::Coin {
        utxo_id: UtxoId::new(id(1), 2),
        owner: id(7),
        asset_id: id(210),
    }];
    assert_eq!(pool.insert(other, &view, 4), Err(Error::Collided(id(3))));
    let root = pool.tx_id_to_storage_id.get(&id(1)).unwrap();
    assert_eq!(pool.storage.get(root).unwrap().number_dependents_in_chain, 3);
    // A third link is allowed, a fourth is not.
    pool.insert(tx(5, 1, 100, vec![coin(3, 0)]), &view, 5).unwrap();
    assert_eq!(pool.storage.get(root).unwrap().number_dependents_in_chain, 4);
    assert_eq!(pool.insert(tx(6, 1, 100, vec![coin(5, 0)]), &view, 6), Err(Error::ChainTooLong));
    // The longest chain counts, whichever parent it ends with.
    assert_eq!(
        pool.insert(tx(7, 1, 100, vec![coin(2, 0), coin(5, 2)]), &view, 7),
        Err(Error::ChainTooLong)
    );
    assert!(pool.insert(tx(8, 1, 100, vec![coin(2, 0), coin(3, 2)]), &view, 8).is_ok());
    // A transaction without stored ancestors starts a chain of its own.
    assert!(pool.insert(tx(9, 1, 100, vec![coin(91, 0)]), &view, 9).is_ok());
}

#[test]
fn chain_gets_shorter_when_its_first_transaction_is_extracted() {
    let mut config = config(false);
    config.max_txs_chain_count = 3;
    config.max_block_gas = 100;
    let mut pool = pool(config);
    let view = PersistentView::new();
    pool.insert(tx(1, 1, 100, vec![coin(90, 0)]), &view, 1).unwrap();
    pool.insert(tx(2, 1, 100, vec![coin(1, 0)]), &view, 2).unwrap();
    pool.insert(tx(3, 1, 100, vec![coin(2, 0)]), &view, 3).unwrap();
    assert_eq!(pool.insert(tx(4, 1, 100, vec![coin(3, 0)]), &view, 4), Err(Error::ChainTooLong));
    assert_eq!(pool.extract_transactions_for_block(0).len(), 1);
    assert!(pool.insert(tx(4, 1, 100, vec![coin(3, 0)]), &view, 5).is_ok());
    assert_eq!(pool.insert(tx(5, 1, 100, vec![coin(4, 0)]), &view, 6), Err(Error::ChainTooLong));
}

#[test]
fn chain_limit_of_zero_refuses_everything() {
    let mut config = config(false);
    config.max_txs_chain_count = 0;
    let mut pool = pool(config);
    let view = PersistentView::new();
    assert_eq!(pool.insert(tx(1, 1, 100, vec![coin(90, 0)]), &view, 1), Err(Error::ChainTooLong));
}

#[test]
fn limit_on_bytes_is_enforced() {
    let mut config = config(false);
    config.pool_limits.max_bytes_size = 25;
    let mut pool = pool(config);
    let view = PersistentView::new();
    pool.insert(tx(1, 5, 100, vec![coin(91, 0)]), &view, 1).unwrap();
    pool.insert(tx(2, 5, 100, vec![coin(92, 0)]), &view, 2).unwrap();
    assert_eq!(
        pool.insert(tx(3, 4, 100, vec![coin(93, 0)]), &view, 3),
        Err(Error::NotInsertedLimitHit)
    );
    assert_eq!(pool.insert(tx(4, 6, 100, vec![coin(94, 0)]), &view, 4).unwrap().len(), 1);
    assert_eq!(pool.current_bytes_size, 20);
}

#[test]
fn decision_leaves_the_pool_alone_and_gives_the_candidate_back() {
    let mut pool = pool(config(false));
    let mut view = PersistentView::new();
    view.messages.push(id(60));
    pool.insert(tx(1, 1, 100, vec![message(60)]), &view, 1).unwrap();
    let candidate = tx(2, 2, 100, vec![message(60)]);
    let plan = pool.can_insert_transaction(candidate.clone(), &view).unwrap();
    assert_eq!(plan.collisions.colliders.len(), 1);
    assert!(plan.transactions_to_remove.is_empty());
    assert_eq!(plan.into_transaction(), candidate);
    assert_eq!(pool.tx_count(), 1);
    assert!(pool.find_one(&id(1)).is_some());
}
