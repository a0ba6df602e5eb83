//! End-to-end scenarios of the pool.

use txpool_core::collision_manager::basic::BasicCollisionManager;
use txpool_core::config::{BlackList, Config, PoolLimits};
use txpool_core::error::Error;
use txpool_core::pool::Pool;
use txpool_core::ports::PersistentView;
use txpool_core::selection_algorithms::ratio_tip_gas::RatioTipGasSelection;
use txpool_core::storage::graph::{GraphConfig, GraphStorage};
use txpool_core::types::{Bytes32, Input, Output, PoolTx, TxKind, UtxoId};

fn id(n: u8) -> Bytes32 {
    Bytes32::from_bytes([n; 32])
}

fn config(max_txs_chain_count: usize, limits: PoolLimits, max_block_gas: u64) -> Config {
    Config {
        utxo_validation: false,
        max_block_gas,
        max_txs_chain_count,
        pool_limits: limits,
        black_list: BlackList::new(),
    }
}

fn wide_limits() -> PoolLimits {
    PoolLimits { max_txs: 10_000, max_gas: 100_000_000_000, max_bytes_size: 1_000_000_000 }
}

fn pool(config: Config) -> Pool {
    Pool::new(
        GraphStorage::new(GraphConfig { max_txs_chain_count: config.max_txs_chain_count }),
        BasicCollisionManager::new(),
        RatioTipGasSelection::new(),
        config,
    )
}

fn coin(tx: u8, output_index: u16) -> Input {
    Input::Coin {
        utxo_id: UtxoId::new(id(tx), output_index),
        owner: id(200),
        asset_id: Bytes32::zeroed(),
    }
}

fn message(nonce: u8) -> Input {
    Input::Message { nonce: id(nonce), sender: id(201), recipient: id(202) }
}

fn tx(n: u8, tip: u64, max_gas: u64, bytes: usize, inputs: Vec<Input>) -> PoolTx {
    PoolTx {
        id: id(n),
        kind: TxKind::Script,
        max_gas,
        tip,
        metered_bytes_size: bytes,
        max_gas_price: u64::MAX,
        inputs,
        outputs: vec![Output::Coin, Output::Coin],
    }
}

fn view_with_messages(nonces: &[u8]) -> PersistentView {
    let mut view = PersistentView::new();
    for n in nonces {
        view.messages.push(id(*n));
    }
    view
}

#[test]
fn single_transaction_is_stored_and_extracted() {
    let mut pool = pool(config(1_000, wide_limits(), 1_000));
    let view = PersistentView::new();
    let single = tx(1, 10, 100, 50, vec![coin(90, 0)]);

    let removed = pool.insert(single.clone(), &view, 7).unwrap();
    assert!(removed.is_empty());
    assert_eq!(pool.current_gas, 100);
    assert_eq!(pool.current_bytes_size, 50);
    assert_eq!(pool.tx_count(), 1);
    assert_eq!(pool.storage.len(), 1);
    assert_eq!(pool.find_one(&id(1)), Some(&single));

    let extracted = pool.extract_transactions_for_block(0);
    assert_eq!(extracted, vec![single]);
    assert_eq!(pool.current_gas, 0);
    assert_eq!(pool.current_bytes_size, 0);
    assert_eq!(pool.tx_count(), 0);
    assert!(pool.storage.is_empty());
    assert!(pool.selection_algorithm.is_empty());
    assert!(pool.collision_manager.is_empty());
    assert_eq!(pool.find_one(&id(1)), None);
}

#[test]
fn child_is_promoted_after_its_parent_is_extracted() {
    let mut pool = pool(config(1_000, wide_limits(), 100));
    let view = PersistentView::new();
    let parent = tx(1, 5, 100, 10, vec![coin(90, 0)]);
    let child = tx(2, 10, 100, 10, vec![coin(1, 0)]);

    assert!(pool.insert(parent.clone(), &view, 1).unwrap().is_empty());
    assert!(pool.insert(child.clone(), &view, 2).unwrap().is_empty());

    // Only the parent is executable.
    assert_eq!(pool.selection_algorithm.executable_transactions_sorted_tip_gas_ratio.len(), 1);
    let parent_slot = pool.tx_id_to_storage_id.get(&id(1)).unwrap();
    let child_slot = pool.tx_id_to_storage_id.get(&id(2)).unwrap();
    assert_eq!(
        pool.selection_algorithm.executable_transactions_sorted_tip_gas_ratio[0].storage_id,
        parent_slot
    );
    assert!(!pool.storage.has_dependencies(parent_slot));
    assert!(pool.storage.has_dependencies(child_slot));
    let record = pool.storage.get(parent_slot).unwrap();
    assert_eq!(record.dependents_cumulative_tip, 15);
    assert_eq!(record.dependents_cumulative_gas, 200);
    assert_eq!(record.dependents_cumulative_bytes_size, 20);
    assert_eq!(record.number_dependents_in_chain, 2);

    // The block has room for one of them: the parent goes first.
    assert_eq!(pool.extract_transactions_for_block(0), vec![parent]);
    assert_eq!(pool.selection_algorithm.executable_transactions_sorted_tip_gas_ratio.len(), 1);
    assert_eq!(
        pool.selection_algorithm.executable_transactions_sorted_tip_gas_ratio[0].storage_id,
        child_slot
    );
    assert!(!pool.storage.has_dependencies(child_slot));
    assert_eq!(pool.extract_transactions_for_block(0), vec![child]);
    assert!(pool.storage.is_empty());
    assert_eq!(pool.current_gas, 0);
}

#[test]
fn parent_and_child_leave_in_one_block_parent_first() {
    let mut pool = pool(config(1_000, wide_limits(), 1_000));
    let view = PersistentView::new();
    let parent = tx(1, 5, 100, 10, vec![coin(90, 0)]);
    let child = tx(2, 10, 100, 10, vec![coin(1, 1)]);
    pool.insert(parent.clone(), &view, 1).unwrap();
    pool.insert(child.clone(), &view, 2).unwrap();
    assert_eq!(pool.extract_transactions_for_block(0), vec![parent, child]);
    assert!(pool.storage.is_empty());
}

#[test]
fn colliding_candidate_with_higher_ratio_displaces() {
    let mut pool = pool(config(1_000, wide_limits(), 1_000));
    let view = view_with_messages(&[77]);
    let a = tx(1, 1, 100, 10, vec![message(77)]);
    let b = tx(2, 2, 100, 10, vec![message(77)]);
    assert!(pool.insert(a.clone(), &view, 1).unwrap().is_empty());
    let removed = pool.insert(b.clone(), &view, 2).unwrap();
    assert_eq!(removed, vec![a]);
    assert_eq!(pool.find_one(&id(1)), None);
    assert_eq!(pool.find_one(&id(2)), Some(&b));
    assert_eq!(pool.tx_count(), 1);
    assert_eq!(pool.current_gas, 100);
    assert_eq!(pool.collision_manager.claims.len(), 1);
}

#[test]
fn colliding_candidate_with_equal_ratio_is_refused() {
    let mut pool = pool(config(1_000, wide_limits(), 1_000));
    let view = view_with_messages(&[77]);
    let a = tx(1, 1, 100, 10, vec![message(77)]);
    let b = tx(2, 1, 100, 10, vec![message(77)]);
    pool.insert(a.clone(), &view, 1).unwrap();
    assert_eq!(pool.insert(b, &view, 2), Err(Error::Collided(id(1))));
    assert_eq!(pool.find_one(&id(1)), Some(&a));
    assert_eq!(pool.tx_count(), 1);
    assert_eq!(pool.current_gas, 100);
}

#[test]
fn colliding_candidate_displaces_the_dependents_too() {
    let mut pool = pool(config(1_000, wide_limits(), 1_000));
    let view = view_with_messages(&[77]);
    let a = tx(1, 1, 100, 10, vec![message(77)]);
    let child = tx(3, 1, 100, 10, vec![coin(1, 0)]);
    // Against the two together the candidate needs more than 2 / 200.
    let weak = tx(4, 2, 200, 10, vec![message(77)]);
    let strong = tx(2, 3, 200, 10, vec![message(77)]);
    pool.insert(a.clone(), &view, 1).unwrap();
    pool.insert(child.clone(), &view, 2).unwrap();
    assert_eq!(pool.insert(weak, &view, 3), Err(Error::Collided(id(1))));
    let removed = pool.insert(strong, &view, 4).unwrap();
    assert_eq!(removed.len(), 2);
    assert!(removed.contains(&a));
    assert!(removed.contains(&child));
    assert_eq!(pool.tx_count(), 1);
    assert_eq!(pool.current_gas, 200);
}

#[test]
fn full_pool_evicts_the_least_worth() {
    let limits = PoolLimits { max_txs: 3, max_gas: 100_000, max_bytes_size: 100_000 };
    let mut pool = pool(config(1_000, limits, 1_000));
    let view = PersistentView::new();
    for n in 1..=3u8 {
        pool.insert(tx(n, 100, 100, 10, vec![coin(90 + n, 0)]), &view, n as u64).unwrap();
    }
    assert_eq!(pool.tx_count(), 3);
    let better = tx(9, 200, 100, 10, vec![coin(99, 0)]);
    let removed = pool.insert(better.clone(), &view, 10).unwrap();
    // Among equal ratios the one admitted last is the least worth.
    assert_eq!(removed, vec![tx(3, 100, 100, 10, vec![coin(93, 0)])]);
    assert_eq!(pool.tx_count(), 3);
    assert_eq!(pool.find_one(&id(9)), Some(&better));
    assert_eq!(pool.current_gas, 300);
}

#[test]
fn full_pool_refuses_what_is_worth_less() {
    let limits = PoolLimits { max_txs: 2, max_gas: 100_000, max_bytes_size: 100_000 };
    let mut pool = pool(config(1_000, limits, 1_000));
    let view = PersistentView::new();
    pool.insert(tx(1, 100, 100, 10, vec![coin(91, 0)]), &view, 1).unwrap();
    pool.insert(tx(2, 100, 100, 10, vec![coin(92, 0)]), &view, 2).unwrap();
    let worse = tx(9, 99, 100, 10, vec![coin(99, 0)]);
    assert_eq!(pool.insert(worse, &view, 3), Err(Error::NotInsertedLimitHit));
    assert_eq!(pool.tx_count(), 2);
    // At an equal ratio the stored transaction leaves.
    let equal = tx(8, 100, 100, 10, vec![coin(98, 0)]);
    assert_eq!(pool.insert(equal, &view, 4).unwrap().len(), 1);
}

#[test]
fn full_pool_refuses_a_dependent_candidate() {
    let limits = PoolLimits { max_txs: 1, max_gas: 100_000, max_bytes_size: 100_000 };
    let mut pool = pool(config(1_000, limits, 1_000));
    let view = PersistentView::new();
    pool.insert(tx(1, 1, 100, 10, vec![coin(91, 0)]), &view, 1).unwrap();
    let child = tx(2, 1_000, 100, 10, vec![coin(1, 0)]);
    assert_eq!(pool.insert(child, &view, 2), Err(Error::NotInsertedLimitHit));
    assert_eq!(pool.tx_count(), 1);
}

#[test]
fn gas_limit_of_the_pool_evicts_by_subtree_sums() {
    let limits = PoolLimits { max_txs: 100, max_gas: 300, max_bytes_size: 100_000 };
    let mut pool = pool(config(1_000, limits, 1_000));
    let view = PersistentView::new();
    pool.insert(tx(1, 10, 100, 10, vec![coin(91, 0)]), &view, 1).unwrap();
    pool.insert(tx(2, 10, 100, 10, vec![coin(1, 0)]), &view, 2).unwrap();
    pool.insert(tx(3, 50, 100, 10, vec![coin(93, 0)]), &view, 3).unwrap();
    assert_eq!(pool.current_gas, 300);
    // The chain of 1 and 2 is worth 20 / 200, the candidate 30 / 100.
    let removed = pool.insert(tx(4, 30, 100, 10, vec![coin(94, 0)]), &view, 4).unwrap();
    assert_eq!(removed.len(), 2);
    assert_eq!(pool.current_gas, 200);
    assert_eq!(pool.tx_count(), 2);
    assert!(pool.find_one(&id(3)).is_some());
    assert!(pool.find_one(&id(4)).is_some());
}

#[test]
fn fourth_link_of_a_chain_of_three_is_refused() {
    let mut pool = pool(config(3, wide_limits(), 1_000));
    let view = PersistentView::new();
    pool.insert(tx(1, 1, 100, 10, vec![coin(90, 0)]), &view, 1).unwrap();
    pool.insert(tx(2, 1, 100, 10, vec![coin(1, 0)]), &view, 2).unwrap();
    pool.insert(tx(3, 1, 100, 10, vec![coin(2, 0)]), &view, 3).unwrap();
    assert_eq!(
        pool.insert(tx(4, 1, 100, 10, vec![coin(3, 0)]), &view, 4),
        Err(Error::ChainTooLong)
    );
    assert_eq!(pool.tx_count(), 3);
    let root = pool.tx_id_to_storage_id.get(&id(1)).unwrap();
    assert_eq!(pool.storage.get(root).unwrap().number_dependents_in_chain, 3);
}

#[test]
fn removal_by_id_takes_the_dependents_along() {
    let mut pool = pool(config(1_000, wide_limits(), 1_000));
    let view = PersistentView::new();
    let a = tx(1, 1, 100, 10, vec![coin(90, 0)]);
    let b = tx(2, 1, 100, 10, vec![coin(1, 0)]);
    let c = tx(3, 1, 100, 10, vec![coin(2, 0), coin(1, 1)]);
    let other = tx(4, 1, 100, 10, vec![coin(91, 0)]);
    for (n, t) in [a.clone(), b.clone(), c.clone(), other.clone()].into_iter().enumerate() {
        pool.insert(t, &view, n as u64).unwrap();
    }
    let root = pool.tx_id_to_storage_id.get(&id(1)).unwrap();
    assert_eq!(pool.storage.get(root).unwrap().number_dependents_in_chain, 3);
    assert_eq!(pool.storage.get(root).unwrap().dependents_cumulative_gas, 300);

    let removed = pool.remove_transaction(vec![id(2)]);
    assert_eq!(removed.len(), 2);
    assert!(removed.contains(&b));
    assert!(removed.contains(&c));
    assert_eq!(pool.find_one(&id(1)), Some(&a));
    assert_eq!(pool.find_one(&id(4)), Some(&other));
    assert_eq!(pool.storage.get(root).unwrap().number_dependents_in_chain, 1);
    assert_eq!(pool.storage.get(root).unwrap().dependents_cumulative_gas, 100);
    assert_eq!(pool.current_gas, 200);
    assert_eq!(pool.current_bytes_size, 20);

    // An id that is not in the pool removes nothing.
    assert!(pool.remove_transaction(vec![id(2), id(99)]).is_empty());
    assert_eq!(pool.tx_count(), 2);
}

#[test]
fn extraction_prefers_the_higher_ratio() {
    let mut pool = pool(config(1_000, wide_limits(), 200));
    let view = PersistentView::new();
    let low = tx(1, 1, 100, 10, vec![coin(91, 0)]);
    let high = tx(2, 3, 100, 10, vec![coin(92, 0)]);
    let middle = tx(3, 2, 100, 10, vec![coin(93, 0)]);
    pool.insert(low.clone(), &view, 1).unwrap();
    pool.insert(high.clone(), &view, 2).unwrap();
    pool.insert(middle.clone(), &view, 3).unwrap();
    assert_eq!(pool.extract_transactions_for_block(0), vec![high, middle]);
    assert_eq!(pool.extract_transactions_for_block(0), vec![low]);
    assert!(pool.extract_transactions_for_block(0).is_empty());
}

#[test]
fn extraction_breaks_ties_by_instant_then_by_id() {
    let mut pool = pool(config(1_000, wide_limits(), 1_000));
    let view = PersistentView::new();
    let late = tx(1, 1, 100, 10, vec![coin(91, 0)]);
    let early_high_id = tx(3, 2, 200, 10, vec![coin(93, 0)]);
    let early_low_id = tx(2, 1, 100, 10, vec![coin(92, 0)]);
    pool.insert(late.clone(), &view, 9).unwrap();
    pool.insert(early_high_id.clone(), &view, 5).unwrap();
    pool.insert(early_low_id.clone(), &view, 5).unwrap();
    assert_eq!(
        pool.extract_transactions_for_block(0),
        vec![early_low_id, early_high_id, late]
    );
}

#[test]
fn extraction_passes_over_what_does_not_fit_or_pays_too_little() {
    let mut pool = pool(config(1_000, wide_limits(), 150));
    let view = PersistentView::new();
    let big = tx(1, 100, 200, 10, vec![coin(91, 0)]);
    let mut cheap = tx(2, 50, 100, 10, vec![coin(92, 0)]);
    cheap.max_gas_price = 3;
    let small = tx(3, 1, 100, 10, vec![coin(93, 0)]);
    pool.insert(big.clone(), &view, 1).unwrap();
    pool.insert(cheap.clone(), &view, 2).unwrap();
    pool.insert(small.clone(), &view, 3).unwrap();
    // At gas price 4 only the last one both fits and pays enough.
    assert_eq!(pool.extract_transactions_for_block(4), vec![small]);
    assert_eq!(pool.extract_transactions_for_block(3), vec![cheap]);
    // The first one never fits into a block of 150.
    assert!(pool.extract_transactions_for_block(0).is_empty());
    assert_eq!(pool.find_one(&id(1)), Some(&big));
    assert_eq!(pool.current_gas, 200);
}

#[test]
fn repeated_extraction_returns_every_transaction_once() {
    let mut pool = pool(config(1_000, wide_limits(), 250));
    let view = PersistentView::new();
    let mut expected = Vec::new();
    for n in 1..=20u8 {
        let parent = if n % 3 == 0 { n - 1 } else { 100 + n };
        let t = tx(n, (n as u64 * 7) % 11, 100, 10, vec![coin(parent, 0)]);
        expected.push(t.clone());
        pool.insert(t, &view, n as u64).unwrap();
    }
    let mut got = Vec::new();
    loop {
        let block = pool.extract_transactions_for_block(0);
        if block.is_empty() {
            break;
        }
        assert!(block.len() <= 2);
        got.extend(block);
    }
    assert_eq!(got.len(), expected.len());
    for t in &expected {
        assert_eq!(got.iter().filter(|g| *g == t).count(), 1);
    }
    assert!(pool.storage.is_empty());
    assert!(pool.selection_algorithm.is_empty());
    assert!(pool.collision_manager.is_empty());
    assert!(pool.tx_id_to_storage_id.is_empty());
    assert_eq!(pool.current_gas, 0);
    assert_eq!(pool.current_bytes_size, 0);
}

#[test]
fn slots_are_reused_after_removal() {
    let mut pool = pool(config(1_000, wide_limits(), 1_000));
    let view = PersistentView::new();
    pool.insert(tx(1, 1, 100, 10, vec![coin(91, 0)]), &view, 1).unwrap();
    pool.insert(tx(2, 1, 100, 10, vec![coin(92, 0)]), &view, 2).unwrap();
    let first = pool.tx_id_to_storage_id.get(&id(1)).unwrap();
    pool.remove_transaction(vec![id(1)]);
    pool.insert(tx(3, 1, 100, 10, vec![coin(93, 0)]), &view, 3).unwrap();
    assert_eq!(pool.tx_id_to_storage_id.get(&id(3)), Some(first));
    assert_eq!(pool.storage.nodes.len(), 2);
}
