//! The parts of the pool on their own: identifiers, ratios and keys, the
//! storage graph, the selection index, the collision manager and the
//! decisions of the service.

use txpool_core::collision_manager::basic::BasicCollisionManager;
use txpool_core::collision_manager::Claim;
use txpool_core::config::{BlackList, Config, PoolLimits};
use txpool_core::error::Error;
use txpool_core::pool::Pool;
use txpool_core::ports::PersistentView;
use txpool_core::ratio::Order;
use txpool_core::selection_algorithms::ratio_tip_gas::{Key, RatioTipGasSelection};
use txpool_core::selection_algorithms::Constraints;
use txpool_core::service::{
    manage_imported_block, next_action, prune_old_transactions, should_continue, take_expired,
    Action, Event, ImportedBlock, Submission,
};
use txpool_core::storage::graph::{GraphConfig, GraphStorage};
use txpool_core::types::{Bytes32, Input, Output, PoolTx, Resource, TxKind, UtxoId};

fn id(n: u8) -> Bytes32 {
    Bytes32::from_bytes([n; 32])
}

fn coin(tx: u8, output_index: u16) -> Input {
    Input::Coin {
        utxo_id: UtxoId::new(id(tx), output_index),
        owner: id(200),
        asset_id: Bytes32::zeroed(),
    }
}

fn tx(n: u8, tip: u64, max_gas: u64, bytes: usize, inputs: Vec<Input>) -> PoolTx {
    PoolTx {
        id: id(n),
        kind: TxKind::Script,
        max_gas,
        tip,
        metered_bytes_size: bytes,
        max_gas_price: 100,
        inputs,
        outputs: vec![Output::Coin, Output::Coin, Output::Coin],
    }
}

fn key(tip: u64, gas: u64, creation_instant: u64, n: u8) -> Key {
    Key { tip, gas, creation_instant, tx_id: id(n) }
}

fn store(storage: &mut GraphStorage, t: PoolTx, instant: u64) -> usize {
    let checked = storage.can_store_transaction(t).unwrap();
    storage.store_transaction(checked, instant)
}

#[test]
fn identifiers_are_read_big_endian() {
    let mut bytes = [0u8; 32];
    bytes[0] = 0x01;
    bytes[15] = 0x02;
    bytes[16] = 0x03;
    bytes[31] = 0x04;
    let x = Bytes32::from_bytes(bytes);
    assert_eq!(x.hi, (1u128 << 120) | 2);
    assert_eq!(x.lo, (3u128 << 120) | 4);
    assert_eq!(x.to_bytes(), bytes);
    assert_eq!(Bytes32::new(7, 9), Bytes32 { hi: 7, lo: 9 });
    assert_eq!(Bytes32::zeroed().to_bytes(), [0u8; 32]);
    assert_eq!(Bytes32::from_bytes([0xff; 32]), Bytes32 { hi: u128::MAX, lo: u128::MAX });
}

#[test]
fn identifiers_are_ordered_like_their_bytes() {
    let mut low = [0u8; 32];
    low[31] = 9;
    let mut high = [0u8; 32];
    high[0] = 1;
    assert!(Bytes32::from_bytes(low).lt(&Bytes32::from_bytes(high)));
    assert!(!Bytes32::from_bytes(high).lt(&Bytes32::from_bytes(low)));
    assert!(!id(5).lt(&id(5)));
    assert!(Bytes32::new(1, u128::MAX).lt(&Bytes32::new(2, 0)));
    assert!(Bytes32::new(1, 3).lt(&Bytes32::new(1, 4)));
}

#[test]
fn keys_compare_by_exact_ratio() {
    // 1 / 3 < 1 / 2
    assert_eq!(key(1, 3, 0, 1).cmp(&key(1, 2, 0, 1)), Order::Less);
    assert_eq!(key(1, 2, 0, 1).cmp(&key(1, 3, 0, 1)), Order::Greater);
    // 2 / 4 == 1 / 2
    assert_eq!(key(2, 4, 0, 1).cmp(&key(1, 2, 0, 1)), Order::Equal);
    // Operands whose products do not fit into 64 bits.
    let big = u64::MAX;
    assert_eq!(key(big - 1, big, 0, 1).cmp(&key(big - 2, big - 1, 0, 1)), Order::Greater);
    assert_eq!(key(big, big, 0, 1).cmp(&key(1, 1, 0, 1)), Order::Equal);
    assert_eq!(key(0, 5, 0, 1).cmp(&key(0, big, 0, 1)), Order::Equal);
    assert_eq!(key(0, 1, 0, 1).cmp(&key(1, big, 0, 1)), Order::Less);
    assert_eq!(key(1, 2, 0, 1).partial_cmp(&key(3, 4, 0, 1)), Some(Order::Less));
}

#[test]
fn keys_break_ties_by_instant_then_by_id() {
    // The earlier one is the greater.
    assert_eq!(key(1, 2, 5, 1).cmp(&key(2, 4, 6, 1)), Order::Greater);
    assert_eq!(key(1, 2, 7, 1).cmp(&key(2, 4, 6, 1)), Order::Less);
    // At equal instants the lower id is the greater.
    assert_eq!(key(1, 2, 5, 1).cmp(&key(1, 2, 5, 2)), Order::Greater);
    assert_eq!(key(1, 2, 5, 3).cmp(&key(1, 2, 5, 2)), Order::Less);
    assert!(key(1, 2, 5, 1).is_before(&key(1, 2, 5, 2)));
    assert!(!key(1, 2, 5, 1).is_before(&key(1, 2, 5, 1)));
    assert!(key(1, 2, 5, 1).is_equal(&key(3, 6, 5, 1)));
}

#[test]
fn storage_keeps_subtree_sums_through_insertion_and_removal() {
    let mut storage = GraphStorage::new(GraphConfig { max_txs_chain_count: 100 });
    //   a   b
    //    \ / \
    //     c   d
    //     |
    //     e
    let a = store(&mut storage, tx(1, 1, 10, 100, vec![coin(90, 0)]), 1);
    let b = store(&mut storage, tx(2, 2, 20, 200, vec![coin(91, 0)]), 2);
    let c = store(&mut storage, tx(3, 4, 40, 400, vec![coin(1, 0), coin(2, 0)]), 3);
    let d = store(&mut storage, tx(4, 8, 80, 800, vec![coin(2, 1)]), 4);
    let e = store(&mut storage, tx(5, 16, 160, 1_600, vec![coin(3, 0)]), 5);
    assert_eq!(storage.len(), 5);

    let check = |s: &GraphStorage, slot: usize, tip: u128, gas: u128, bytes: u128, n: usize| {
        let data = s.get(slot).unwrap();
        assert_eq!(data.dependents_cumulative_tip, tip);
        assert_eq!(data.dependents_cumulative_gas, gas);
        assert_eq!(data.dependents_cumulative_bytes_size, bytes);
        assert_eq!(data.number_dependents_in_chain, n);
    };
    check(&storage, a, 1 + 4 + 16, 10 + 40 + 160, 100 + 400 + 1_600, 3);
    check(&storage, b, 2 + 4 + 8 + 16, 20 + 40 + 80 + 160, 200 + 400 + 800 + 1_600, 4);
    check(&storage, c, 4 + 16, 40 + 160, 400 + 1_600, 2);
    check(&storage, d, 8, 80, 800, 1);
    check(&storage, e, 16, 160, 1_600, 1);
    assert_eq!(storage.get(c).unwrap().parents, vec![a, b]);
    assert_eq!(storage.get(b).unwrap().children, vec![c, d]);
    assert!(storage.has_dependencies(c));
    assert!(!storage.has_dependencies(a));
    assert!(!storage.has_dependencies(77));
    assert_eq!(storage.get_dependents(b), vec![c, d]);
    assert!(storage.get_dependents(77).is_empty());
    assert_eq!(storage.find(&id(4)), Some(d));
    assert_eq!(storage.find(&id(9)), None);

    // Without the subtree of c.
    let removed = storage.remove_transaction_and_dependents_subtree(c);
    assert_eq!(removed.len(), 2);
    assert_eq!(removed[0].transaction.id, id(5));
    assert_eq!(removed[1].transaction.id, id(3));
    check(&storage, a, 1, 10, 100, 1);
    check(&storage, b, 2 + 8, 20 + 80, 200 + 800, 2);
    assert!(storage.get(c).is_none());
    assert!(storage.get(e).is_none());
    assert_eq!(storage.get(b).unwrap().children, vec![d]);
    assert!(storage.remove_transaction_and_dependents_subtree(c).is_empty());

    // Without the root b, d has no parents.
    let root = storage.remove(b).unwrap();
    assert_eq!(root.transaction.id, id(2));
    assert!(!storage.has_dependencies(d));
    check(&storage, d, 8, 80, 800, 1);
    assert!(storage.remove(b).is_none());
    assert_eq!(storage.len(), 2);
    assert!(!storage.is_empty());
}

#[test]
fn shared_dependent_counts_once_under_a_common_ancestor() {
    let mut storage = GraphStorage::new(GraphConfig { max_txs_chain_count: 100 });
    //     a
    //    / \
    //   b   c
    //    \ /
    //     d
    let a = store(&mut storage, tx(1, 1, 10, 1, vec![coin(90, 0)]), 1);
    let b = store(&mut storage, tx(2, 1, 10, 1, vec![coin(1, 0)]), 2);
    let c = store(&mut storage, tx(3, 1, 10, 1, vec![coin(1, 1)]), 3);
    let d = store(&mut storage, tx(4, 1, 10, 1, vec![coin(2, 0), coin(3, 0)]), 4);
    assert_eq!(storage.get(a).unwrap().number_dependents_in_chain, 4);
    assert_eq!(storage.get(a).unwrap().dependents_cumulative_gas, 40);
    assert_eq!(storage.get(b).unwrap().number_dependents_in_chain, 2);
    assert_eq!(storage.get(c).unwrap().number_dependents_in_chain, 2);
    let mut ancestors = storage.collect_ancestors(&vec![d]);
    ancestors.sort();
    assert_eq!(ancestors, vec![a, b, c, d]);
    let leaf = storage.remove_leaf(d);
    assert_eq!(leaf.transaction.id, id(4));
    assert_eq!(storage.get(a).unwrap().number_dependents_in_chain, 3);
    assert_eq!(storage.get(b).unwrap().number_dependents_in_chain, 1);
}

#[test]
fn storage_refuses_a_full_chain() {
    let mut storage = GraphStorage::new(GraphConfig { max_txs_chain_count: 2 });
    store(&mut storage, tx(1, 1, 10, 1, vec![coin(90, 0)]), 1);
    store(&mut storage, tx(2, 1, 10, 1, vec![coin(1, 0)]), 2);
    let refused = storage.can_store_transaction(tx(3, 1, 10, 1, vec![coin(2, 0)]));
    assert_eq!(refused.err(), Some(Error::ChainTooLong));
    let checked = storage.can_store_transaction(tx(4, 1, 10, 1, vec![coin(91, 0)])).unwrap();
    assert!(!checked.has_dependencies());
    assert!(checked.all_dependencies().is_empty());
    assert_eq!(checked.tx().id, id(4));
    assert_eq!(checked.into_tx().id, id(4));
}

#[test]
fn selection_index_is_sorted_best_first() {
    let mut storage = GraphStorage::new(GraphConfig { max_txs_chain_count: 100 });
    let mut selection = RatioTipGasSelection::new();
    assert!(selection.is_empty());
    let low = store(&mut storage, tx(1, 1, 10, 1, vec![coin(90, 0)]), 1);
    let high = store(&mut storage, tx(2, 9, 10, 1, vec![coin(91, 0)]), 2);
    let middle = store(&mut storage, tx(3, 5, 10, 1, vec![coin(92, 0)]), 3);
    for slot in [low, high, middle] {
        selection.new_executable_transaction(slot, storage.get(slot).unwrap());
    }
    let order: Vec<usize> = selection
        .executable_transactions_sorted_tip_gas_ratio
        .iter()
        .map(|e| e.storage_id)
        .collect();
    assert_eq!(order, vec![high, middle, low]);
    assert_eq!(selection.get_less_worth_txs(), vec![low, middle, high]);
    assert_eq!(
        RatioTipGasSelection::key(storage.get(high).unwrap()),
        Key { tip: 9, gas: 10, creation_instant: 2, tx_id: id(2) }
    );

    selection.on_removed_transaction(storage.get(middle).unwrap());
    assert_eq!(selection.get_less_worth_txs(), vec![low, high]);
    // A key that is not in the index removes nothing.
    selection.on_removed_transaction_inner(key(5, 10, 3, 3));
    selection.on_removed_transaction_inner(key(1, 10, 1, 7));
    assert_eq!(selection.get_less_worth_txs(), vec![low, high]);
    // An equal key is replaced.
    selection.new_executable_transaction(42, storage.get(low).unwrap());
    assert_eq!(selection.get_less_worth_txs(), vec![42, high]);
}

#[test]
fn gathering_respects_every_budget() {
    let mut storage = GraphStorage::new(GraphConfig { max_txs_chain_count: 100 });
    let mut selection = RatioTipGasSelection::new();
    for n in 1..=6u8 {
        let slot = store(&mut storage, tx(n, n as u64, 10, 7, vec![coin(90 + n, 0)]), n as u64);
        selection.new_executable_transaction(slot, storage.get(slot).unwrap());
    }
    let ids = |records: &Vec<txpool_core::storage::StorageData>| -> Vec<Bytes32> {
        records.iter().map(|r| r.transaction.id).collect()
    };
    // Gas for two.
    let got = selection.gather_best_txs(
        Constraints { minimal_gas_price: 0, max_gas: 25, maximum_txs: 100, maximum_block_size: 1_000 },
        &mut storage,
    );
    assert_eq!(ids(&got), vec![id(6), id(5)]);
    // Room for one.
    let got = selection.gather_best_txs(
        Constraints { minimal_gas_price: 0, max_gas: 1_000, maximum_txs: 100, maximum_block_size: 13 },
        &mut storage,
    );
    assert_eq!(ids(&got), vec![id(4)]);
    // No gas, no room, no place, or too high a price: nothing leaves.
    for constraints in [
        Constraints { minimal_gas_price: 0, max_gas: 0, maximum_txs: 100, maximum_block_size: 100 },
        Constraints { minimal_gas_price: 0, max_gas: 100, maximum_txs: 0, maximum_block_size: 100 },
        Constraints { minimal_gas_price: 0, max_gas: 100, maximum_txs: 100, maximum_block_size: 0 },
        Constraints { minimal_gas_price: 101, max_gas: 100, maximum_txs: 100, maximum_block_size: 100 },
    ] {
        assert!(selection.gather_best_txs(constraints, &mut storage).is_empty());
    }
    assert_eq!(storage.len(), 3);
    let got = selection.gather_best_txs(
        Constraints { minimal_gas_price: 100, max_gas: 100, maximum_txs: 100, maximum_block_size: 100 },
        &mut storage,
    );
    assert_eq!(ids(&got), vec![id(3), id(2), id(1)]);
    assert!(selection.is_empty());
    assert!(storage.is_empty());
}

#[test]
fn gathering_stops_when_the_block_has_no_place_left() {
    let mut storage = GraphStorage::new(GraphConfig { max_txs_chain_count: 100 });
    let mut selection = RatioTipGasSelection::new();
    for n in 1..=6u8 {
        let slot = store(&mut storage, tx(n, n as u64, 10, 7, vec![coin(90 + n, 0)]), n as u64);
        selection.new_executable_transaction(slot, storage.get(slot).unwrap());
    }
    let child = store(&mut storage, tx(7, 100, 10, 7, vec![coin(6, 0)]), 7);
    let got = selection.gather_best_txs(
        Constraints { minimal_gas_price: 0, max_gas: 1_000, maximum_txs: 2, maximum_block_size: 1_000 },
        &mut storage,
    );
    assert_eq!(got.len(), 2);
    assert_eq!(got[0].transaction.id, id(6));
    assert_eq!(got[1].transaction.id, id(5));
    assert_eq!(storage.len(), 5);
    // The dependent of the first was promoted, and is the best now.
    assert!(!storage.has_dependencies(child));
    let got = selection.gather_best_txs(
        Constraints { minimal_gas_price: 0, max_gas: 1_000, maximum_txs: 3, maximum_block_size: 1_000 },
        &mut storage,
    );
    assert_eq!(got.len(), 3);
    assert_eq!(got[0].transaction.id, id(7));
    assert_eq!(got[1].transaction.id, id(4));
    assert_eq!(got[2].transaction.id, id(3));
}

#[test]
fn gathering_drops_entries_of_transactions_that_are_gone() {
    let mut storage = GraphStorage::new(GraphConfig { max_txs_chain_count: 100 });
    let mut selection = RatioTipGasSelection::new();
    let a = store(&mut storage, tx(1, 1, 10, 1, vec![coin(90, 0)]), 1);
    let b = store(&mut storage, tx(2, 2, 10, 1, vec![coin(91, 0)]), 2);
    selection.new_executable_transaction(a, storage.get(a).unwrap());
    selection.new_executable_transaction(b, storage.get(b).unwrap());
    storage.remove(b);
    let got = selection.gather_best_txs(
        Constraints { minimal_gas_price: 0, max_gas: 100, maximum_txs: 10, maximum_block_size: 100 },
        &mut storage,
    );
    assert_eq!(got.len(), 1);
    assert_eq!(got[0].transaction.id, id(1));
    assert!(selection.is_empty());
}

#[test]
fn collision_manager_lists_one_owner_for_each_resource() {
    let mut manager = BasicCollisionManager::new();
    assert!(manager.is_empty());
    let mut first = tx(1, 1, 10, 1, vec![coin(90, 0), coin(90, 0), coin(90, 1)]);
    first.inputs.push(Input::Message { nonce: id(60), sender: id(1), recipient: id(2) });
    first.inputs.push(Input::Contract { contract_id: id(50) });
    first.outputs.push(Output::ContractCreated { contract_id: id(70) });
    first.kind = TxKind::Blob { blob_id: id(80) };
    let claimed = first.claimed_resources();
    assert_eq!(
        claimed,
        vec![
            Resource::Coin(UtxoId::new(id(90), 0)),
            Resource::Coin(UtxoId::new(id(90), 0)),
            Resource::Coin(UtxoId::new(id(90), 1)),
            Resource::Message(id(60)),
            Resource::Contract(id(70)),
            Resource::Blob(id(80)),
        ]
    );
    manager.on_stored_transaction(4, &first);
    assert_eq!(manager.claims.len(), 5);
    assert_eq!(manager.owner_of(&Resource::Message(id(60))), Some(4));
    assert_eq!(manager.owner_of(&Resource::Message(id(61))), None);
    assert!(manager.claims.contains(&Claim { resource: Resource::Blob(id(80)), owner: 4 }));

    let other = tx(2, 1, 10, 1, vec![coin(90, 1), coin(91, 0)]);
    let collisions = manager.find_collisions(&other);
    assert_eq!(collisions.colliders.len(), 1);
    assert_eq!(collisions.colliders[0].storage_id, 4);
    assert_eq!(collisions.colliders[0].resource, Resource::Coin(UtxoId::new(id(90), 1)));
    assert!(collisions.contains(4));
    assert!(!collisions.contains(5));
    assert_eq!(collisions.storage_ids(), vec![4]);
    assert!(manager.find_collisions(&tx(3, 1, 10, 1, vec![coin(92, 0)])).is_empty());

    manager.on_removed_transaction(&first);
    assert!(manager.is_empty());
}

#[test]
fn service_decides_by_event() {
    let block = ImportedBlock { tx_ids: vec![id(1)], height: 9 };
    assert_eq!(next_action(Event::Shutdown), Action::Stop);
    assert_eq!(next_action(Event::TtlTick), Action::PruneOldTransactions);
    assert_eq!(next_action(Event::BlockImported(Some(block.clone()))), Action::ApplyBlock(block));
    assert_eq!(next_action(Event::BlockImported(None)), Action::Stop);
    assert_eq!(next_action(Event::Gossip(Some(true))), Action::InsertGossiped);
    assert_eq!(next_action(Event::Gossip(Some(false))), Action::Stop);
    assert_eq!(next_action(Event::Gossip(None)), Action::Stop);
    assert_eq!(next_action(Event::NewPeer(Some(true))), Action::GreetPeer);
    assert_eq!(next_action(Event::NewPeer(None)), Action::Stop);
    assert!(!should_continue(&Action::Stop));
    assert!(should_continue(&Action::PruneOldTransactions));
    assert!(should_continue(&Action::GreetPeer));
}

#[test]
fn service_applies_blocks_and_prunes_by_age() {
    let config = Config {
        utxo_validation: false,
        max_block_gas: 1_000,
        max_txs_chain_count: 10,
        pool_limits: PoolLimits { max_txs: 100, max_gas: 10_000, max_bytes_size: 10_000 },
        black_list: BlackList::new(),
    };
    let mut pool = Pool::new(
        GraphStorage::new(GraphConfig { max_txs_chain_count: 10 }),
        BasicCollisionManager::new(),
        RatioTipGasSelection::new(),
        config,
    );
    let view = PersistentView::new();
    let mut queue = Vec::new();
    for n in 1..=4u8 {
        pool.insert(tx(n, 1, 10, 1, vec![coin(90 + n, 0)]), &view, n as u64 * 10).unwrap();
        queue.push(Submission { instant: n as u64 * 10, tx_id: id(n) });
    }
    pool.insert(tx(5, 1, 10, 1, vec![coin(1, 0)]), &view, 50).unwrap();
    queue.push(Submission { instant: 50, tx_id: id(5) });

    let mut height = 3u32;
    let removed = manage_imported_block(
        &mut pool,
        &mut height,
        ImportedBlock { tx_ids: vec![id(3), id(77)], height: 4 },
    );
    assert_eq!(removed.len(), 1);
    assert_eq!(height, 4);
    assert_eq!(pool.tx_count(), 4);

    // At 45 with a time to live of 25 the first two have outlived it.
    let removed = prune_old_transactions(&mut pool, &mut queue, 45, 25);
    let mut gone: Vec<Bytes32> = removed.iter().map(|t| t.id).collect();
    gone.sort_by_key(|i| i.lo);
    assert_eq!(gone, vec![id(1), id(2), id(5)]);
    assert_eq!(queue.len(), 3);
    assert_eq!(queue[0].tx_id, id(3));
    assert_eq!(pool.tx_count(), 1);

    let mut late = vec![Submission { instant: u64::MAX - 1, tx_id: id(9) }];
    assert!(take_expired(&mut late, u64::MAX, 5).is_empty());
    assert_eq!(take_expired(&mut late, u64::MAX, 1), vec![id(9)]);
    assert!(late.is_empty());
}

#[test]
fn default_configuration_validates_coins_and_bans_nothing() {
    let config = Config::default();
    assert!(config.utxo_validation);
    assert_eq!(config.max_block_gas, 100_000_000);
    assert_eq!(config.max_txs_chain_count, 1_000);
    assert_eq!(
        config.pool_limits,
        PoolLimits { max_txs: 10_000, max_gas: 100_000_000_000, max_bytes_size: 1_000_000_000 }
    );
    assert!(config.black_list.check_blacklisting(&tx(1, 1, 1, 1, vec![coin(1, 0)])).is_ok());
}
