//! State updates, and the records that a committed block keeps of them.

use crate::abi::{
    abi_decoding, abi_encoding, decode, encode, kind_views, lemma_kind_views_push,
    lemma_token_views, lemma_tokens_weight_push, lemma_word_round_trip, token_views,
    tokens_weight, uint_word, value_of, word_of, word_value, AbiToken, KindView, ParamKind,
    TokenView, MAX_ENCODED,
};
use crate::double_layer_tree::{
    verifies, DoubleLayerTree, DoubleLayerTreeLeaf, InclusionProof, LeafView, ProofView,
};
use crate::error::Error;
use crate::hash::{sha3_256, digest_of};
use crate::merkle::{views, Node};
use crate::primitives::{copy_bytes, zero_digest, Address, Digest, Range};
use crate::transaction::{
    lemma_range_round_trip, range_from_tuple, range_kind, range_of_tokens, range_to_tuple,
    range_tokens, TransactionParams,
};
use vstd::prelude::*;

verus! {

/// The state that an owner holds over a range, and whether the block
/// commits to it or marks the range as left out.
#[derive(Debug)]
pub struct StateUpdate {
    deposit_contract_address: Address,
    range: Range,
    state_object: Vec<u8>,
    is_included: bool,
}

/// What a state update stands for.
pub struct StateUpdateView {
    pub deposit_contract_address: Seq<u8>,
    pub range: Range,
    pub state_object: Seq<u8>,
    pub is_included: bool,
}

impl View for StateUpdate {
    type V = StateUpdateView;

    closed spec fn view(&self) -> StateUpdateView {
        StateUpdateView {
            deposit_contract_address: self.deposit_contract_address@,
            range: self.range,
            state_object: self.state_object@,
            is_included: self.is_included,
        }
    }
}

/// The word of a flag: that of one where it is set, of zero where not.
pub open spec fn flag_word(flag: bool) -> Seq<u8> {
    uint_word(if flag { 1 } else { 0 })
}

/// The tuple of a state update.
pub open spec fn state_update_tokens(update: StateUpdateView) -> Seq<TokenView> {
    seq![
        TokenView::Address(update.deposit_contract_address),
        TokenView::Tuple(range_tokens(update.range)),
        TokenView::Bytes(update.state_object),
        TokenView::Uint(flag_word(update.is_included)),
    ]
}

/// The state update that a tuple holds, if it is the tuple of one.
pub open spec fn state_update_of_tokens(tokens: Seq<TokenView>) -> Option<StateUpdateView> {
    if tokens.len() == 4 {
        match (tokens[0], tokens[1], tokens[2], tokens[3]) {
            (
                TokenView::Address(address),
                TokenView::Tuple(range),
                TokenView::Bytes(state_object),
                TokenView::Uint(flag),
            ) => match (range_of_tokens(range), word_value(flag)) {
                (Some(range), Some(f)) if f <= 1 => Some(
                    StateUpdateView {
                        deposit_contract_address: address,
                        range,
                        state_object,
                        is_included: f == 1,
                    },
                ),
                _ => None,
            },
            _ => None,
        }
    } else {
        None
    }
}

/// The types of the tuple of a state update.
pub open spec fn state_update_kinds() -> Seq<KindView> {
    seq![KindView::Address, range_kind(), KindView::Bytes, KindView::Uint(8)]
}

/// The bytes of a state update.
pub open spec fn state_update_encoding(update: StateUpdateView) -> Seq<u8> {
    abi_encoding(state_update_tokens(update))
}

/// The state update that bytes hold, if they hold one.
pub open spec fn state_update_decoding(data: Seq<u8>) -> Option<StateUpdateView> {
    match abi_decoding(state_update_kinds(), data) {
        Some(tokens) => state_update_of_tokens(tokens),
        None => None,
    }
}

/// The tuple of a state update holds that state update.
pub proof fn lemma_state_update_tuple_round_trip(update: StateUpdateView)
    ensures
        state_update_of_tokens(state_update_tokens(update)) == Some(update),
{
    lemma_range_round_trip(update.range);
    lemma_word_round_trip(1);
    lemma_word_round_trip(0);
}

/// Where the decoder returns the tokens that the encoder was given, the
/// bytes of a state update hold that state update.
pub proof fn lemma_state_update_round_trip(update: StateUpdateView)
    requires
        abi_decoding(state_update_kinds(), abi_encoding(state_update_tokens(update))) == Some(
            state_update_tokens(update),
        ),
    ensures
        state_update_decoding(state_update_encoding(update)) == Some(update),
{
    lemma_state_update_tuple_round_trip(update);
}

/// The leaf that commits to a state update: it ends where the range ends
/// and holds the digest of the state, or zeros where the range is left out.
pub open spec fn leaf_of(update: StateUpdateView) -> LeafView {
    LeafView {
        address: update.deposit_contract_address,
        end: update.range.end,
        data: if update.is_included {
            digest_of(update.state_object)
        } else {
            zero_digest()
        },
    }
}

impl StateUpdate {
    pub fn new(
        deposit_contract_address: Address,
        range: Range,
        state_object: Vec<u8>,
        is_included: bool,
    ) -> (update: StateUpdate)
        ensures
            update@ == (StateUpdateView {
                deposit_contract_address: deposit_contract_address@,
                range,
                state_object: state_object@,
                is_included,
            }),
    {
        StateUpdate { deposit_contract_address, range, state_object, is_included }
    }

    pub fn get_deposit_contract_address(&self) -> (address: Address)
        ensures
            address@ == self@.deposit_contract_address,
    {
        self.deposit_contract_address
    }

    pub fn get_range(&self) -> (range: Range)
        ensures
            range == self@.range,
    {
        self.range
    }

    pub fn get_state_object(&self) -> (state_object: &Vec<u8>)
        ensures
            state_object@ == self@.state_object,
    {
        &self.state_object
    }

    pub fn get_is_included(&self) -> (is_included: bool)
        ensures
            is_included == self@.is_included,
    {
        self.is_included
    }

    /// A copy of the state update.
    pub fn duplicate(&self) -> (copy: StateUpdate)
        ensures
            copy@ == self@,
    {
        StateUpdate {
            deposit_contract_address: self.deposit_contract_address,
            range: self.range,
            state_object: copy_bytes(self.state_object.as_slice()),
            is_included: self.is_included,
        }
    }

    /// The leaf that commits to the state update.
    pub fn leaf(&self) -> (leaf: DoubleLayerTreeLeaf)
        ensures
            leaf@ == leaf_of(self@),
    {
        let data = if self.is_included {
            sha3_256(self.state_object.as_slice())
        } else {
            Digest::zero()
        };
        DoubleLayerTreeLeaf {
            address: self.deposit_contract_address,
            end: self.range.end,
            data: copy_bytes(data.as_bytes()),
        }
    }

    /// The tuple of the state update.
    pub fn to_tuple(&self) -> (tokens: Vec<AbiToken>)
        ensures
            token_views(tokens@) == state_update_tokens(self@),
            tokens_weight(token_views(tokens@)) == 256 + self@.state_object.len(),
    {
        let mut tokens = TransactionParams::new(
            self.deposit_contract_address,
            self.range,
            copy_bytes(self.state_object.as_slice()),
        ).to_tuple();
        let ghost body = token_views(tokens@);
        let ghost t3 = TokenView::Uint(flag_word(self.is_included));
        proof {
            lemma_token_views(tokens@);
        }
        tokens.push(AbiToken::Uint(word_of(if self.is_included { 1 } else { 0 })));
        proof {
            lemma_token_views(tokens@);
            assert(token_views(tokens@) =~= state_update_tokens(self@));
            lemma_tokens_weight_push(body, t3);
            assert(body.push(t3) =~= state_update_tokens(self@));
        }
        tokens
    }

    /// The state update that a tuple holds. Fails with `EncodingError`
    /// unless the tuple is an address, the tuple of a range, a byte string
    /// and a flag of zero or one.
    pub fn from_tuple(tuple: &Vec<AbiToken>) -> (update: Result<StateUpdate, Error>)
        ensures
            match update {
                Ok(u) => state_update_of_tokens(token_views(tuple@)) == Some(u@),
                Err(e) => e == Error::EncodingError && state_update_of_tokens(token_views(tuple@))
                    is None,
            },
    {
        proof {
            lemma_token_views(tuple@);
        }
        if tuple.len() != 4 {
            return Err(Error::EncodingError);
        }
        match (&tuple[0], &tuple[1], &tuple[2], &tuple[3]) {
            (
                AbiToken::Address(address),
                AbiToken::Tuple(range),
                AbiToken::Bytes(state_object),
                AbiToken::Uint(flag),
            ) => {
                match (range_from_tuple(range), value_of(flag)) {
                    (Ok(range), Some(f)) => {
                        if f <= 1 {
                            Ok(
                                StateUpdate {
                                    deposit_contract_address: *address,
                                    range,
                                    state_object: copy_bytes(state_object.as_slice()),
                                    is_included: f == 1,
                                },
                            )
                        } else {
                            Err(Error::EncodingError)
                        }
                    },
                    _ => Err(Error::EncodingError),
                }
            },
            _ => Err(Error::EncodingError),
        }
    }

    /// The types of the tuple of a state update.
    pub fn get_param_types() -> (kinds: Vec<ParamKind>)
        ensures
            kind_views(kinds@) == state_update_kinds(),
    {
        let mut kinds = TransactionParams::get_param_types();
        proof {
            lemma_kind_views_push(kinds@, ParamKind::Uint(8));
        }
        kinds.push(ParamKind::Uint(8));
        assert(kind_views(kinds@) =~= state_update_kinds());
        kinds
    }

    /// The bytes of the state update. Fails with `EncodingError` where it is
    /// too long to encode.
    pub fn to_abi(&self) -> (bytes: Result<Vec<u8>, Error>)
        ensures
            match bytes {
                Ok(b) => 256 + self@.state_object.len() <= MAX_ENCODED && b@
                    == state_update_encoding(self@),
                Err(e) => e == Error::EncodingError && 256 + self@.state_object.len()
                    > MAX_ENCODED,
            },
    {
        encode(&self.to_tuple())
    }

    /// The state update that bytes hold. Fails with `EncodingError` unless
    /// the bytes decode into the tuple of a state update.
    pub fn from_abi(data: &[u8]) -> (update: Result<StateUpdate, Error>)
        ensures
            match update {
                Ok(u) => state_update_decoding(data@) == Some(u@),
                Err(e) => e == Error::EncodingError && state_update_decoding(data@) is None,
            },
    {
        match decode(&StateUpdate::get_param_types(), data) {
            Ok(tokens) => StateUpdate::from_tuple(&tokens),
            Err(e) => Err(e),
        }
    }
}

/// A copy of a list of nodes.
fn copy_nodes(nodes: &Vec<Node>) -> (copy: Vec<Node>)
    ensures
        views(copy@) == views(nodes@),
{
    let mut copy: Vec<Node> = Vec::new();
    let mut i: usize = 0;
    while i < nodes.len()
        invariant
            i <= nodes.len(),
            copy.len() == i,
            forall|k: int| 0 <= k < i ==> (#[trigger] copy[k])@ == nodes[k]@,
        decreases nodes.len() - i,
    {
        copy.push(nodes[i]);
        i += 1;
    }
    assert(views(copy@) =~= views(nodes@));
    copy
}

/// A copy of a proof.
pub fn copy_proof(proof: &InclusionProof) -> (copy: InclusionProof)
    ensures
        copy@ == proof@,
{
    InclusionProof {
        inner_position: proof.inner_position,
        inner_siblings: copy_nodes(&proof.inner_siblings),
        outer_position: proof.outer_position,
        outer_siblings: copy_nodes(&proof.outer_siblings),
    }
}

/// What a committed block says of one range: the state update and the root
/// of the block that holds it.
#[derive(Debug)]
pub struct PlasmaDataBlock {
    state_update: StateUpdate,
    root: Digest,
    block_number: u64,
}

/// What a data block stands for.
pub struct DataBlockView {
    pub state_update: StateUpdateView,
    pub root: Seq<u8>,
    pub block_number: u64,
}

impl View for PlasmaDataBlock {
    type V = DataBlockView;

    closed spec fn view(&self) -> DataBlockView {
        DataBlockView {
            state_update: self.state_update@,
            root: self.root@,
            block_number: self.block_number,
        }
    }
}

impl PlasmaDataBlock {
    pub fn new(state_update: StateUpdate, root: Digest, block_number: u64) -> (block:
        PlasmaDataBlock)
        ensures
            block@ == (DataBlockView { state_update: state_update@, root: root@, block_number }),
    {
        PlasmaDataBlock { state_update, root, block_number }
    }

    pub fn get_deposit_contract_address(&self) -> (address: Address)
        ensures
            address@ == self@.state_update.deposit_contract_address,
    {
        self.state_update.get_deposit_contract_address()
    }

    pub fn get_updated_range(&self) -> (range: Range)
        ensures
            range == self@.state_update.range,
    {
        self.state_update.get_range()
    }

    pub fn get_root(&self) -> (root: &Digest)
        ensures
            root@ == self@.root,
    {
        &self.root
    }

    pub fn get_is_included(&self) -> (is_included: bool)
        ensures
            is_included == self@.state_update.is_included,
    {
        self.state_update.get_is_included()
    }

    pub fn get_block_number(&self) -> (block_number: u64)
        ensures
            block_number == self@.block_number,
    {
        self.block_number
    }

    /// The state update that the data block holds.
    pub fn get_state_update(&self) -> (update: &StateUpdate)
        ensures
            update@ == self@.state_update,
    {
        &self.state_update
    }

    /// A copy of the data block.
    pub fn duplicate(&self) -> (copy: PlasmaDataBlock)
        ensures
            copy@ == self@,
    {
        PlasmaDataBlock {
            state_update: self.state_update.duplicate(),
            root: self.root,
            block_number: self.block_number,
        }
    }
}

/// The record that the store keeps of one range of a committed block: the
/// data block and the proof that the block's tree holds its leaf.
#[derive(Debug)]
pub struct RangeAtBlockRecord {
    pub plasma_data_block: PlasmaDataBlock,
    pub inclusion_proof: InclusionProof,
}

/// What a record stands for.
pub struct RecordView {
    pub plasma_data_block: DataBlockView,
    pub inclusion_proof: ProofView,
}

impl View for RangeAtBlockRecord {
    type V = RecordView;

    open spec fn view(&self) -> RecordView {
        RecordView {
            plasma_data_block: self.plasma_data_block@,
            inclusion_proof: self.inclusion_proof@,
        }
    }
}

impl RangeAtBlockRecord {
    pub fn new(plasma_data_block: PlasmaDataBlock, inclusion_proof: InclusionProof) -> (record:
        RangeAtBlockRecord)
        ensures
            record@ == (RecordView {
                plasma_data_block: plasma_data_block@,
                inclusion_proof: inclusion_proof@,
            }),
    {
        RangeAtBlockRecord { plasma_data_block, inclusion_proof }
    }
}

} // verus!
