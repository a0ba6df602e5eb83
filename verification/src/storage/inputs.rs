//! Validation of the inputs of a candidate transaction.

use vstd::prelude::*;
use crate::error::{Error, InputValidationError};
use crate::ports::PersistentView;
use crate::storage::graph::GraphStorage;
use crate::storage::steps::contains_id;
use crate::storage::{live, node, Nodes};
use crate::types::{Input, PoolTx, StorageIndex, TxId};

verus! {

/// The slot of the stored transaction with the given id.
pub open spec fn slot_of_id(g: Nodes, id: TxId) -> Option<StorageIndex> {
    if contains_id(g, id) {
        Some(choose|i: StorageIndex| #[trigger] live(g, i) && node(g, i).transaction.id == id)
    } else {
        None
    }
}

/// Why the input cannot be spent or read, if it cannot.
///
/// A coin is looked for among the outputs of the pool transactions first:
/// if a pool transaction has the id that the coin names, the slot must
/// exist and be spendable. Otherwise the coin must be confirmed, when
/// `utxo_validation` asks for that. A message must be known and not spent,
/// and a contract must exist.
pub open spec fn input_error(
    g: Nodes,
    view: PersistentView,
    utxo_validation: bool,
    input: Input,
) -> Option<InputValidationError> {
    match input {
        Input::Coin { utxo_id, .. } => match slot_of_id(g, utxo_id.tx_id) {
            Some(p) => {
                let outputs = node(g, p).transaction.outputs@;
                if utxo_id.output_index < outputs.len()
                    && outputs[utxo_id.output_index as int].spec_is_spendable() {
                    None
                } else {
                    Some(InputValidationError::NotSpendableOutput(utxo_id))
                }
            },
            None => {
                if utxo_validation && !view.coins@.contains(utxo_id) {
                    Some(InputValidationError::UtxoNotFound(utxo_id))
                } else {
                    None
                }
            },
        },
        Input::Message { nonce, .. } => {
            if !view.messages@.contains(nonce) {
                Some(InputValidationError::MessageNotFound(nonce))
            } else if view.spent_messages@.contains(nonce) {
                Some(InputValidationError::MessageSpent(nonce))
            } else {
                None
            }
        },
        Input::Contract { contract_id } => {
            if !view.contracts@.contains(contract_id) {
                Some(InputValidationError::ContractNotFound(contract_id))
            } else {
                None
            }
        },
    }
}

/// The error of the first input, from position `from` on, that cannot be
/// spent or read.
pub open spec fn inputs_error_from(
    g: Nodes,
    view: PersistentView,
    utxo_validation: bool,
    inputs: Seq<Input>,
    from: int,
) -> Option<InputValidationError>
    decreases inputs.len() - from,
{
    if from < 0 || from >= inputs.len() {
        None
    } else {
        match input_error(g, view, utxo_validation, inputs[from]) {
            Some(e) => Some(e),
            None => inputs_error_from(g, view, utxo_validation, inputs, from + 1),
        }
    }
}

/// The error of the first input that cannot be spent or read.
pub open spec fn inputs_error(
    g: Nodes,
    view: PersistentView,
    utxo_validation: bool,
    tx: PoolTx,
) -> Option<InputValidationError> {
    inputs_error_from(g, view, utxo_validation, tx.inputs@, 0)
}

impl GraphStorage {
    /// The slot of the stored transaction with the given id.
    pub fn find(&self, id: &TxId) -> (slot: Option<StorageIndex>)
        requires
            self.wf(),
        ensures
            slot == slot_of_id(self@, *id),
            slot matches Some(i) ==> live(self@, i) && node(self@, i).transaction.id == *id,
            slot is None ==> !contains_id(self@, *id),
    {
        let mut i: usize = 0;
        while i < self.nodes.len()
            invariant
                self.wf(),
                0 <= i <= self@.len(),
                forall|j: StorageIndex|
                    j < i && #[trigger] live(self@, j) ==> node(self@, j).transaction.id != *id,
            decreases self@.len() - i,
        {
            let hit = match &self.nodes[i] {
                Some(data) => data.transaction.id == *id,
                None => false,
            };
            if hit {
                proof {
                    assert(live(self@, i) && node(self@, i).transaction.id == *id);
                    assert(contains_id(self@, *id));
                    let c = choose|c: StorageIndex| #[trigger]
                        live(self@, c) && node(self@, c).transaction.id == *id;
                    assert(live(self@, c) && live(self@, i));
                    assert(c == i);
                }
                return Some(i);
            }
            i += 1;
        }
        proof {
            if contains_id(self@, *id) {
                let c = choose|c: StorageIndex| #[trigger]
                    live(self@, c) && node(self@, c).transaction.id == *id;
                assert(live(self@, c));
            }
        }
        None
    }

    /// Why the input cannot be spent or read, if it cannot.
    fn check_input(&self, input: &Input, view: &PersistentView, utxo_validation: bool) -> (r:
        Option<InputValidationError>)
        requires
            self.wf(),
        ensures
            r == input_error(self@, *view, utxo_validation, *input),
    {
        match input {
            Input::Coin { utxo_id, .. } => {
                match self.find(&utxo_id.tx_id) {
                    Some(p) => {
                        let spendable = match &self.nodes[p] {
                            Some(data) => {
                                let index = utxo_id.output_index as usize;
                                index < data.transaction.outputs.len()
                                    && data.transaction.outputs[index].is_spendable()
                            },
                            None => false,
                        };
                        if spendable {
                            None
                        } else {
                            Some(InputValidationError::NotSpendableOutput(*utxo_id))
                        }
                    },
                    None => {
                        if utxo_validation && !view.utxo(utxo_id) {
                            Some(InputValidationError::UtxoNotFound(*utxo_id))
                        } else {
                            None
                        }
                    },
                }
            },
            Input::Message { nonce, .. } => {
                if !view.message(nonce) {
                    Some(InputValidationError::MessageNotFound(*nonce))
                } else if view.spent_message(nonce) {
                    Some(InputValidationError::MessageSpent(*nonce))
                } else {
                    None
                }
            },
            Input::Contract { contract_id } => {
                if !view.contract_exist(contract_id) {
                    Some(InputValidationError::ContractNotFound(*contract_id))
                } else {
                    None
                }
            },
        }
    }

    /// Checks the inputs of `tx` against the pool and the chain's state,
    /// and reports the first that cannot be spent or read.
    pub fn validate_inputs(&self, tx: &PoolTx, view: &PersistentView, utxo_validation: bool) -> (r:
        Result<(), Error>)
        requires
            self.wf(),
        ensures
            r is Ok <==> inputs_error(self@, *view, utxo_validation, *tx) is None,
            r matches Err(e) ==> inputs_error(self@, *view, utxo_validation, *tx) == Some(
                e->NotInsertedInputsInvalid_0,
            ) && e is NotInsertedInputsInvalid,
    {
        let mut k: usize = 0;
        while k < tx.inputs.len()
            invariant
                self.wf(),
                0 <= k <= tx.inputs@.len(),
                inputs_error(self@, *view, utxo_validation, *tx) == inputs_error_from(
                    self@,
                    *view,
                    utxo_validation,
                    tx.inputs@,
                    k as int,
                ),
            decreases tx.inputs@.len() - k,
        {
            match self.check_input(&tx.inputs[k], view, utxo_validation) {
                Some(e) => {
                    return Err(Error::NotInsertedInputsInvalid(e));
                },
                None => {},
            }
            k += 1;
        }
        Ok(())
    }
}

} // verus!
