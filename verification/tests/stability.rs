//! Many random transactions go into the pool and out again; at the end
//! nothing may be left in any of its parts.
#![allow(non_snake_case)]

use rand::rngs::StdRng;
use rand::seq::SliceRandom;
use rand::{Rng, SeedableRng};
use txpool_core::collision_manager::basic::BasicCollisionManager;
use txpool_core::config::{BlackList, Config, PoolLimits};
use txpool_core::pool::Pool;
use txpool_core::ports::PersistentView;
use txpool_core::selection_algorithms::ratio_tip_gas::RatioTipGasSelection;
use txpool_core::storage::graph::{GraphConfig, GraphStorage};
use txpool_core::types::{Bytes32, Input, Output, PoolTx, TxKind, UtxoId};

#[derive(Debug, Clone, Copy)]
struct Limits {
    max_inputs: usize,
    min_outputs: u16,
    max_outputs: u16,
    utxo_id_range: u8,
    gas_limit_range: u64,
}

fn default_config() -> Config {
    Config {
        utxo_validation: false,
        max_block_gas: 100_000_000,
        max_txs_chain_count: 1_000,
        pool_limits: PoolLimits {
            max_txs: 10_000,
            max_gas: 100_000_000_000,
            max_bytes_size: 1_000_000_000,
        },
        black_list: BlackList::new(),
    }
}

fn some_transaction(limits: Limits, tip: u64, rng: &mut StdRng) -> PoolTx {
    let owner = Bytes32::from_bytes([123; 32]);

    let mut random_ids = (0..limits.utxo_id_range)
        .map(|_| rng.gen_range(0..limits.utxo_id_range))
        .collect::<Vec<_>>();
    random_ids.sort();
    random_ids.dedup();
    random_ids.shuffle(rng);

    let tx_id_byte = random_ids.pop().expect("No random ids");
    let tx_id = Bytes32::from_bytes([tx_id_byte; 32]);
    let max_gas = rng.gen_range(0..limits.gas_limit_range);

    let inputs_count = limits.max_inputs.min(random_ids.len()).max(2);
    let inputs_count = rng.gen_range(1..inputs_count);
    let mut inputs = Vec::new();
    for input_utxo_id in random_ids.into_iter().take(inputs_count) {
        let output_index = rng.gen_range(0..limits.max_outputs);
        inputs.push(Input::Coin {
            utxo_id: UtxoId::new(Bytes32::from_bytes([input_utxo_id; 32]), output_index),
            owner,
            asset_id: Bytes32::zeroed(),
        });
    }

    // We can't have more outputs than inputs.
    let outputs = rng
        .gen_range(limits.min_outputs..limits.max_outputs)
        .min(inputs_count as u16);
    let size = 100 + 50 * inputs.len() + 30 * outputs as usize;

    PoolTx {
        id: tx_id,
        kind: TxKind::Script,
        max_gas,
        tip,
        metered_bytes_size: size,
        max_gas_price: u64::MAX,
        inputs,
        outputs: (0..outputs).map(|_| Output::Coin).collect(),
    }
}

fn stability_test(limits: Limits, config: Config) {
    for seed in 0..ROUNDS_PER_TEST {
        stability_test_with_seed(seed, limits, config.clone());
    }
}

fn stability_test_with_seed(seed: u64, limits: Limits, config: Config) {
    let mut rng = StdRng::seed_from_u64(seed);

    let mut errors = 0;
    let view = PersistentView::new();
    let mut txpool = Pool::new(
        GraphStorage::new(GraphConfig { max_txs_chain_count: config.max_txs_chain_count }),
        BasicCollisionManager::new(),
        RatioTipGasSelection::new(),
        config,
    );

    for tip in 0..ROUNDS_PER_TXPOOL {
        let pool_tx = some_transaction(limits, tip as u64, &mut rng);
        let result = txpool.insert(pool_tx, &view, tip as u64);
        errors += result.is_err() as usize;

        // The parts of the pool agree after every step.
        let stored = txpool.storage.nodes.iter().flatten().count();
        assert_eq!(txpool.storage.len(), stored);
        assert_eq!(txpool.tx_count(), stored);
        let gas: u128 =
            txpool.storage.nodes.iter().flatten().map(|d| d.transaction.max_gas as u128).sum();
        assert_eq!(txpool.current_gas, gas);
        let executable =
            txpool.storage.nodes.iter().flatten().filter(|d| d.parents.is_empty()).count();
        assert_eq!(
            txpool.selection_algorithm.executable_transactions_sorted_tip_gas_ratio.len(),
            executable
        );
    }

    assert_ne!(ROUNDS_PER_TXPOOL, errors);

    loop {
        let result = txpool.extract_transactions_for_block(0);

        if result.is_empty() {
            break
        }
    }

    assert_eq!(txpool.current_gas, 0);
    assert_eq!(txpool.current_bytes_size, 0);
    assert!(txpool.tx_id_to_storage_id.is_empty());
    assert!(txpool.selection_algorithm.is_empty());
    assert!(txpool.storage.is_empty());
    assert!(txpool.collision_manager.is_empty());
}

const ROUNDS_PER_TEST: u64 = 3;
const ROUNDS_PER_TXPOOL: usize = 1500;

#[test]
fn stability_test__average_transactions() {
    let config = Config { utxo_validation: false, ..default_config() };

    let limit = Limits {
        max_inputs: 4,
        min_outputs: 1,
        max_outputs: 4,
        utxo_id_range: 12,
        gas_limit_range: 1000,
    };

    stability_test(limit, config);
}

#[test]
fn stability_test__many_non_conflicting_dependencies() {
    let config = Config {
        utxo_validation: false,
        max_block_gas: 100_000,
        max_txs_chain_count: 32,
        ..default_config()
    };

    let limit = Limits {
        max_inputs: 3,
        min_outputs: 2,
        max_outputs: 3,
        utxo_id_range: 128,
        gas_limit_range: 10_000,
    };

    stability_test(limit, config);
}

#[test]
fn stability_test__many_dependencies() {
    let config = Config { utxo_validation: false, max_block_gas: 10_000, ..default_config() };

    let limit = Limits {
        max_inputs: 200,
        min_outputs: 1,
        max_outputs: 10,
        utxo_id_range: 255,
        gas_limit_range: 1_000,
    };

    stability_test(limit, config);
}

#[test]
fn stability_test__many_conflicting_transactions_with_different_priority() {
    let config = Config {
        utxo_validation: false,
        max_block_gas: 10_000,
        pool_limits: PoolLimits { max_txs: 32, max_gas: 80_000, max_bytes_size: 1_000_000 },
        ..default_config()
    };

    let limit = Limits {
        max_inputs: 200,
        min_outputs: 1,
        max_outputs: 10,
        utxo_id_range: 255,
        gas_limit_range: 10_000,
    };

    stability_test(limit, config);
}

#[test]
fn stability_test__long_chain_of_transactions() {
    let config = Config {
        utxo_validation: false,
        max_block_gas: 10_000,
        max_txs_chain_count: 128,
        pool_limits: PoolLimits { max_txs: 1_000, max_gas: 80_000, max_bytes_size: 1_000_000_000 },
        ..default_config()
    };

    let limit = Limits {
        max_inputs: 2,
        min_outputs: 1,
        max_outputs: 2,
        utxo_id_range: 255,
        gas_limit_range: 100,
    };

    stability_test(limit, config);
}

#[test]
fn stability_test__long_chain_of_transactions_with_conflicts() {
    let config = Config {
        utxo_validation: false,
        max_block_gas: 10_000,
        max_txs_chain_count: 32,
        pool_limits: PoolLimits { max_txs: 1_000, max_gas: 80_000, max_bytes_size: 1_000_000_000 },
        ..default_config()
    };

    let limit = Limits {
        max_inputs: 2,
        min_outputs: 1,
        max_outputs: 2,
        utxo_id_range: 255,
        gas_limit_range: 10_000,
    };

    stability_test(limit, config);
}

#[test]
fn stability_test__wide_chain_of_transactions_with_conflicts() {
    let config = Config {
        utxo_validation: false,
        max_block_gas: 10_000,
        max_txs_chain_count: 32,
        pool_limits: PoolLimits { max_txs: 1_000, max_gas: 80_000, max_bytes_size: 1_000_000_000 },
        ..default_config()
    };

    let limit = Limits {
        max_inputs: 5,
        min_outputs: 1,
        max_outputs: 5,
        utxo_id_range: 255,
        gas_limit_range: 10_000,
    };

    stability_test(limit, config);
}
