//! Transactions and their wire tuples.
//!
//! A transaction goes over the wire as the tuple of its contract address,
//! its range as a tuple of two integers, its parameters, its signature and
//! its metadata, in this order. The parameters of a transaction, which is
//! what gets signed, are the first three of these.

use crate::abi::{
    abi_decoding, abi_encoding, decode, encode, kind_views, lemma_kind_views_push,
    lemma_token_views, lemma_tokens_weight_push, lemma_word_round_trip, token_views,
    tokens_weight, uint_word, value_of, word_of, word_value, AbiToken, KindView, ParamKind,
    TokenView, MAX_ENCODED,
};
use crate::error::Error;
use crate::hash::{sha3_256, digest_of};
use crate::primitives::{copy_bytes, zero_address, Address, Range};
use vstd::prelude::*;

verus! {

/// The tuple of a range: its start and its end.
pub open spec fn range_tokens(range: Range) -> Seq<TokenView> {
    seq![TokenView::Uint(uint_word(range.start)), TokenView::Uint(uint_word(range.end))]
}

/// The range that a tuple holds, if it is the tuple of a range.
pub open spec fn range_of_tokens(tokens: Seq<TokenView>) -> Option<Range> {
    if tokens.len() == 2 {
        match (tokens[0], tokens[1]) {
            (TokenView::Uint(a), TokenView::Uint(b)) => match (word_value(a), word_value(b)) {
                (Some(start), Some(end)) => Some(Range { start, end }),
                _ => None,
            },
            _ => None,
        }
    } else {
        None
    }
}

/// The tuple of a range holds that range.
pub proof fn lemma_range_round_trip(range: Range)
    ensures
        range_of_tokens(range_tokens(range)) == Some(range),
{
    lemma_word_round_trip(range.start);
    lemma_word_round_trip(range.end);
}

/// The tuple of a range.
pub fn range_to_tuple(range: &Range) -> (tokens: Vec<AbiToken>)
    ensures
        token_views(tokens@) == range_tokens(*range),
        tokens_weight(token_views(tokens@)) == 64,
{
    let mut tokens: Vec<AbiToken> = Vec::new();
    tokens.push(AbiToken::Uint(word_of(range.start)));
    tokens.push(AbiToken::Uint(word_of(range.end)));
    proof {
        lemma_token_views(tokens@);
        assert(token_views(tokens@) =~= range_tokens(*range));
        let one = seq![TokenView::Uint(uint_word(range.start))];
        lemma_tokens_weight_push(Seq::empty(), one[0]);
        lemma_tokens_weight_push(one, TokenView::Uint(uint_word(range.end)));
        assert(Seq::<TokenView>::empty().push(one[0]) =~= one);
        assert(one.push(TokenView::Uint(uint_word(range.end))) =~= range_tokens(*range));
    }
    tokens
}

/// The range that a tuple holds. Fails with `EncodingError` unless the tuple
/// is two unsigned integers of at most 64 bits.
pub fn range_from_tuple(tuple: &Vec<AbiToken>) -> (range: Result<Range, Error>)
    ensures
        match range {
            Ok(r) => range_of_tokens(token_views(tuple@)) == Some(r),
            Err(e) => e == Error::EncodingError && range_of_tokens(token_views(tuple@)) is None,
        },
{
    proof {
        lemma_token_views(tuple@);
    }
    if tuple.len() != 2 {
        return Err(Error::EncodingError);
    }
    match (&tuple[0], &tuple[1]) {
        (AbiToken::Uint(a), AbiToken::Uint(b)) => match (value_of(a), value_of(b)) {
            (Some(start), Some(end)) => Ok(Range { start, end }),
            _ => Err(Error::EncodingError),
        },
        _ => Err(Error::EncodingError),
    }
}

/// Who sends a transaction and who receives it.
#[derive(Clone, Copy, Debug)]
pub struct Metadata {
    pub from: Address,
    pub to: Address,
}

/// What the metadata of a transaction stands for.
pub struct MetadataView {
    pub from: Seq<u8>,
    pub to: Seq<u8>,
}

impl View for Metadata {
    type V = MetadataView;

    open spec fn view(&self) -> MetadataView {
        MetadataView { from: self.from@, to: self.to@ }
    }
}

/// The tuple of the metadata.
pub open spec fn metadata_tokens(metadata: MetadataView) -> Seq<TokenView> {
    seq![TokenView::Address(metadata.from), TokenView::Address(metadata.to)]
}

/// The metadata that a tuple holds, if it is the tuple of metadata.
pub open spec fn metadata_of_tokens(tokens: Seq<TokenView>) -> Option<MetadataView> {
    if tokens.len() == 2 {
        match (tokens[0], tokens[1]) {
            (TokenView::Address(from), TokenView::Address(to)) => Some(MetadataView { from, to }),
            _ => None,
        }
    } else {
        None
    }
}

/// The types of the tuple of the metadata.
pub open spec fn metadata_kinds() -> Seq<KindView> {
    seq![KindView::Address, KindView::Address]
}

/// The bytes of the metadata.
pub open spec fn metadata_encoding(metadata: MetadataView) -> Seq<u8> {
    abi_encoding(metadata_tokens(metadata))
}

/// The metadata that bytes hold, if they hold metadata.
pub open spec fn metadata_decoding(data: Seq<u8>) -> Option<MetadataView> {
    match abi_decoding(metadata_kinds(), data) {
        Some(tokens) => metadata_of_tokens(tokens),
        None => None,
    }
}

impl Metadata {
    pub fn new(from: Address, to: Address) -> (metadata: Metadata)
        ensures
            metadata@ == (MetadataView { from: from@, to: to@ }),
    {
        Metadata { from, to }
    }

    /// The metadata of a transaction from nobody to nobody.
    pub fn default() -> (metadata: Metadata)
        ensures
            metadata@ == (MetadataView { from: zero_address(), to: zero_address() }),
    {
        Metadata { from: Address::zero(), to: Address::zero() }
    }

    /// The tuple of the metadata.
    pub fn to_tuple(&self) -> (tokens: Vec<AbiToken>)
        ensures
            token_views(tokens@) == metadata_tokens(self@),
            tokens_weight(token_views(tokens@)) == 64,
    {
        let mut tokens: Vec<AbiToken> = Vec::new();
        tokens.push(AbiToken::Address(self.from));
        tokens.push(AbiToken::Address(self.to));
        proof {
            lemma_token_views(tokens@);
            assert(token_views(tokens@) =~= metadata_tokens(self@));
            let one = seq![TokenView::Address(self.from@)];
            lemma_tokens_weight_push(Seq::empty(), one[0]);
            lemma_tokens_weight_push(one, TokenView::Address(self.to@));
            assert(Seq::<TokenView>::empty().push(one[0]) =~= one);
            assert(one.push(TokenView::Address(self.to@)) =~= metadata_tokens(self@));
        }
        tokens
    }

    /// The metadata that a tuple holds. Fails with `EncodingError` unless
    /// the tuple is two addresses.
    pub fn from_tuple(tuple: &Vec<AbiToken>) -> (metadata: Result<Metadata, Error>)
        ensures
            match metadata {
                Ok(m) => metadata_of_tokens(token_views(tuple@)) == Some(m@),
                Err(e) => e == Error::EncodingError && metadata_of_tokens(token_views(tuple@))
                    is None,
            },
    {
        proof {
            lemma_token_views(tuple@);
        }
        if tuple.len() != 2 {
            return Err(Error::EncodingError);
        }
        match (&tuple[0], &tuple[1]) {
            (AbiToken::Address(from), AbiToken::Address(to)) => Ok(
                Metadata { from: *from, to: *to },
            ),
            _ => Err(Error::EncodingError),
        }
    }

    /// The types of the tuple of the metadata.
    pub fn get_param_types() -> (kinds: Vec<ParamKind>)
        ensures
            kind_views(kinds@) == metadata_kinds(),
    {
        let mut kinds: Vec<ParamKind> = Vec::new();
        proof {
            lemma_kind_views_push(kinds@, ParamKind::Address);
        }
        kinds.push(ParamKind::Address);
        proof {
            lemma_kind_views_push(kinds@, ParamKind::Address);
        }
        kinds.push(ParamKind::Address);
        assert(kind_views(kinds@) =~= metadata_kinds());
        kinds
    }

    /// The bytes of the metadata.
    pub fn to_abi(&self) -> (bytes: Vec<u8>)
        ensures
            bytes@ == metadata_encoding(self@),
    {
        match encode(&self.to_tuple()) {
            Ok(bytes) => bytes,
            Err(_) => Vec::new(),
        }
    }

    /// The metadata that bytes hold. Fails with `EncodingError` unless the
    /// bytes decode into two addresses.
    pub fn from_abi(data: &[u8]) -> (metadata: Result<Metadata, Error>)
        ensures
            match metadata {
                Ok(m) => metadata_decoding(data@) == Some(m@),
                Err(e) => e == Error::EncodingError && metadata_decoding(data@) is None,
            },
    {
        match decode(&Metadata::get_param_types(), data) {
            Ok(tokens) => Metadata::from_tuple(&tokens),
            Err(e) => Err(e),
        }
    }
}

/// A transaction without its signature.
#[derive(Debug)]
pub struct TransactionParams {
    plasma_contract_address: Address,
    range: Range,
    parameters: Vec<u8>,
}

/// What the parameters of a transaction stand for.
pub struct ParamsView {
    pub plasma_contract_address: Seq<u8>,
    pub range: Range,
    pub parameters: Seq<u8>,
}

impl View for TransactionParams {
    type V = ParamsView;

    closed spec fn view(&self) -> ParamsView {
        ParamsView {
            plasma_contract_address: self.plasma_contract_address@,
            range: self.range,
            parameters: self.parameters@,
        }
    }
}

/// The tuple of the parameters of a transaction.
pub open spec fn params_tokens(params: ParamsView) -> Seq<TokenView> {
    seq![
        TokenView::Address(params.plasma_contract_address),
        TokenView::Tuple(range_tokens(params.range)),
        TokenView::Bytes(params.parameters),
    ]
}

/// The parameters that a tuple holds, if it is the tuple of parameters.
pub open spec fn params_of_tokens(tokens: Seq<TokenView>) -> Option<ParamsView> {
    if tokens.len() == 3 {
        match (tokens[0], tokens[1], tokens[2]) {
            (
                TokenView::Address(address),
                TokenView::Tuple(range),
                TokenView::Bytes(parameters),
            ) => match range_of_tokens(range) {
                Some(range) => Some(
                    ParamsView { plasma_contract_address: address, range, parameters },
                ),
                None => None,
            },
            _ => None,
        }
    } else {
        None
    }
}

/// The types of the tuple of a range.
pub open spec fn range_kind() -> KindView {
    KindView::Tuple(seq![KindView::Uint(8), KindView::Uint(8)])
}

/// The types of the tuple of the parameters of a transaction.
pub open spec fn params_kinds() -> Seq<KindView> {
    seq![KindView::Address, range_kind(), KindView::Bytes]
}

/// The bytes of the parameters of a transaction.
pub open spec fn params_encoding(params: ParamsView) -> Seq<u8> {
    abi_encoding(params_tokens(params))
}

/// The parameters that bytes hold, if they hold parameters.
pub open spec fn params_decoding(data: Seq<u8>) -> Option<ParamsView> {
    match abi_decoding(params_kinds(), data) {
        Some(tokens) => params_of_tokens(tokens),
        None => None,
    }
}

/// The tuple of the parameters of a transaction holds those parameters.
pub proof fn lemma_params_tuple_round_trip(params: ParamsView)
    ensures
        params_of_tokens(params_tokens(params)) == Some(params),
{
    lemma_range_round_trip(params.range);
}

/// Where the decoder returns the tokens that the encoder was given, the
/// bytes of the parameters of a transaction hold those parameters.
pub proof fn lemma_params_round_trip(params: ParamsView)
    requires
        abi_decoding(params_kinds(), abi_encoding(params_tokens(params))) == Some(
            params_tokens(params),
        ),
    ensures
        params_decoding(params_encoding(params)) == Some(params),
{
    lemma_params_tuple_round_trip(params);
}

/// The type of the tuple of a range.
fn range_param_type() -> (kind: ParamKind)
    ensures
        kind@ == range_kind(),
{
    let mut inner: Vec<ParamKind> = Vec::new();
    proof {
        lemma_kind_views_push(inner@, ParamKind::Uint(8));
    }
    inner.push(ParamKind::Uint(8));
    proof {
        lemma_kind_views_push(inner@, ParamKind::Uint(8));
    }
    inner.push(ParamKind::Uint(8));
    assert(kind_views(inner@) =~= seq![KindView::Uint(8), KindView::Uint(8)]);
    ParamKind::Tuple(inner)
}

/// The first three tokens of the tuple of a transaction.
fn body_tokens(address: &Address, range: &Range, parameters: &Vec<u8>) -> (tokens: Vec<AbiToken>)
    ensures
        token_views(tokens@) == params_tokens(
            ParamsView {
                plasma_contract_address: address@,
                range: *range,
                parameters: parameters@,
            },
        ),
        tokens_weight(token_views(tokens@)) == 224 + parameters@.len(),
{
    let ghost view = ParamsView {
        plasma_contract_address: address@,
        range: *range,
        parameters: parameters@,
    };
    let mut tokens: Vec<AbiToken> = Vec::new();
    tokens.push(AbiToken::Address(*address));
    tokens.push(AbiToken::Tuple(range_to_tuple(range)));
    tokens.push(AbiToken::Bytes(copy_bytes(parameters.as_slice())));
    proof {
        lemma_token_views(tokens@);
        assert(token_views(tokens@) =~= params_tokens(view));
        let t0 = TokenView::Address(address@);
        let t1 = TokenView::Tuple(range_tokens(*range));
        let t2 = TokenView::Bytes(parameters@);
        lemma_tokens_weight_push(Seq::empty(), t0);
        lemma_tokens_weight_push(seq![t0], t1);
        lemma_tokens_weight_push(seq![t0, t1], t2);
        assert(Seq::<TokenView>::empty().push(t0) =~= seq![t0]);
        assert(seq![t0].push(t1) =~= seq![t0, t1]);
        assert(seq![t0, t1].push(t2) =~= params_tokens(view));
    }
    tokens
}

impl TransactionParams {
    pub fn new(plasma_contract_address: Address, range: Range, parameters: Vec<u8>) -> (params:
        TransactionParams)
        ensures
            params@ == (ParamsView {
                plasma_contract_address: plasma_contract_address@,
                range,
                parameters: parameters@,
            }),
    {
        TransactionParams { plasma_contract_address, range, parameters }
    }

    pub fn get_plasma_contract_address(&self) -> (address: Address)
        ensures
            address@ == self@.plasma_contract_address,
    {
        self.plasma_contract_address
    }

    pub fn get_range(&self) -> (range: Range)
        ensures
            range == self@.range,
    {
        self.range
    }

    pub fn get_parameters(&self) -> (parameters: &Vec<u8>)
        ensures
            parameters@ == self@.parameters,
    {
        &self.parameters
    }

    /// The tuple of the parameters.
    pub fn to_tuple(&self) -> (tokens: Vec<AbiToken>)
        ensures
            token_views(tokens@) == params_tokens(self@),
            tokens_weight(token_views(tokens@)) == 224 + self@.parameters.len(),
    {
        body_tokens(&self.plasma_contract_address, &self.range, &self.parameters)
    }

    /// The parameters that a tuple holds. Fails with `EncodingError` unless
    /// the tuple is an address, the tuple of a range and a byte string.
    pub fn from_tuple(tuple: &Vec<AbiToken>) -> (params: Result<TransactionParams, Error>)
        ensures
            match params {
                Ok(p) => params_of_tokens(token_views(tuple@)) == Some(p@),
                Err(e) => e == Error::EncodingError && params_of_tokens(token_views(tuple@))
                    is None,
            },
    {
        proof {
            lemma_token_views(tuple@);
        }
        if tuple.len() != 3 {
            return Err(Error::EncodingError);
        }
        match (&tuple[0], &tuple[1], &tuple[2]) {
            (AbiToken::Address(address), AbiToken::Tuple(range), AbiToken::Bytes(parameters)) => {
                match range_from_tuple(range) {
                    Ok(range) => Ok(
                        TransactionParams {
                            plasma_contract_address: *address,
                            range,
                            parameters: copy_bytes(parameters.as_slice()),
                        },
                    ),
                    Err(e) => Err(e),
                }
            },
            _ => Err(Error::EncodingError),
        }
    }

    /// The types of the tuple of the parameters.
    pub fn get_param_types() -> (kinds: Vec<ParamKind>)
        ensures
            kind_views(kinds@) == params_kinds(),
    {
        let mut kinds: Vec<ParamKind> = Vec::new();
        proof {
            lemma_kind_views_push(kinds@, ParamKind::Address);
        }
        kinds.push(ParamKind::Address);
        let range = range_param_type();
        proof {
            lemma_kind_views_push(kinds@, range);
        }
        kinds.push(range);
        proof {
            lemma_kind_views_push(kinds@, ParamKind::Bytes);
        }
        kinds.push(ParamKind::Bytes);
        assert(kind_views(kinds@) =~= params_kinds());
        kinds
    }

    /// The bytes of the parameters: what a signer signs. Fails with
    /// `EncodingError` where they are too long to encode.
    pub fn to_abi(&self) -> (bytes: Result<Vec<u8>, Error>)
        ensures
            match bytes {
                Ok(b) => 224 + self@.parameters.len() <= MAX_ENCODED && b@ == params_encoding(
                    self@,
                ),
                Err(e) => e == Error::EncodingError && 224 + self@.parameters.len()
                    > MAX_ENCODED,
            },
    {
        encode(&self.to_tuple())
    }

    /// The parameters that bytes hold. Fails with `EncodingError` unless the
    /// bytes decode into the tuple of parameters.
    pub fn from_abi(data: &[u8]) -> (params: Result<TransactionParams, Error>)
        ensures
            match params {
                Ok(p) => params_decoding(data@) == Some(p@),
                Err(e) => e == Error::EncodingError && params_decoding(data@) is None,
            },
    {
        match decode(&TransactionParams::get_param_types(), data) {
            Ok(tokens) => TransactionParams::from_tuple(&tokens),
            Err(e) => Err(e),
        }
    }
}

/// A signed request to change who owns a range.
#[derive(Debug)]
pub struct Transaction {
    plasma_contract_address: Address,
    range: Range,
    parameters: Vec<u8>,
    signature: Vec<u8>,
    metadata: Metadata,
}

/// What a transaction stands for.
pub struct TransactionView {
    pub plasma_contract_address: Seq<u8>,
    pub range: Range,
    pub parameters: Seq<u8>,
    pub signature: Seq<u8>,
    pub metadata: MetadataView,
}

impl View for Transaction {
    type V = TransactionView;

    closed spec fn view(&self) -> TransactionView {
        TransactionView {
            plasma_contract_address: self.plasma_contract_address@,
            range: self.range,
            parameters: self.parameters@,
            signature: self.signature@,
            metadata: self.metadata@,
        }
    }
}

/// The parameters of a transaction: the transaction without its signature
/// and metadata.
pub open spec fn body_of(tx: TransactionView) -> ParamsView {
    ParamsView {
        plasma_contract_address: tx.plasma_contract_address,
        range: tx.range,
        parameters: tx.parameters,
    }
}

/// The tuple of a transaction.
pub open spec fn transaction_tokens(tx: TransactionView) -> Seq<TokenView> {
    seq![
        TokenView::Address(tx.plasma_contract_address),
        TokenView::Tuple(range_tokens(tx.range)),
        TokenView::Bytes(tx.parameters),
        TokenView::Bytes(tx.signature),
        TokenView::Bytes(metadata_encoding(tx.metadata)),
    ]
}

/// The transaction that a tuple holds, if it is the tuple of a transaction.
pub open spec fn transaction_of_tokens(tokens: Seq<TokenView>) -> Option<TransactionView> {
    if tokens.len() == 5 {
        match (tokens[0], tokens[1], tokens[2], tokens[3], tokens[4]) {
            (
                TokenView::Address(address),
                TokenView::Tuple(range),
                TokenView::Bytes(parameters),
                TokenView::Bytes(signature),
                TokenView::Bytes(metadata),
            ) => match (range_of_tokens(range), metadata_decoding(metadata)) {
                (Some(range), Some(metadata)) => Some(
                    TransactionView {
                        plasma_contract_address: address,
                        range,
                        parameters,
                        signature,
                        metadata,
                    },
                ),
                _ => None,
            },
            _ => None,
        }
    } else {
        None
    }
}

/// The types of the tuple of a transaction.
pub open spec fn transaction_kinds() -> Seq<KindView> {
    seq![KindView::Address, range_kind(), KindView::Bytes, KindView::Bytes, KindView::Bytes]
}

/// The bytes of a transaction.
pub open spec fn transaction_encoding(tx: TransactionView) -> Seq<u8> {
    abi_encoding(transaction_tokens(tx))
}

/// The transaction that bytes hold, if they hold one.
pub open spec fn transaction_decoding(data: Seq<u8>) -> Option<TransactionView> {
    match abi_decoding(transaction_kinds(), data) {
        Some(tokens) => transaction_of_tokens(tokens),
        None => None,
    }
}

/// A bound on the number of bytes that the encoding of a transaction takes.
pub open spec fn transaction_weight(tx: TransactionView) -> nat {
    416 + tx.parameters.len() + tx.signature.len() + metadata_encoding(tx.metadata).len()
}

/// Where the decoder returns the metadata that the encoder was given, the
/// tuple of a transaction holds that transaction.
pub proof fn lemma_transaction_tuple_round_trip(tx: TransactionView)
    requires
        metadata_decoding(metadata_encoding(tx.metadata)) == Some(tx.metadata),
    ensures
        transaction_of_tokens(transaction_tokens(tx)) == Some(tx),
{
    lemma_range_round_trip(tx.range);
}

/// Where the decoder returns the tokens that the encoder was given, the
/// bytes of a transaction hold that transaction.
pub proof fn lemma_transaction_round_trip(tx: TransactionView)
    requires
        abi_decoding(metadata_kinds(), abi_encoding(metadata_tokens(tx.metadata))) == Some(
            metadata_tokens(tx.metadata),
        ),
        abi_decoding(transaction_kinds(), abi_encoding(transaction_tokens(tx))) == Some(
            transaction_tokens(tx),
        ),
    ensures
        transaction_decoding(transaction_encoding(tx)) == Some(tx),
{
    lemma_transaction_tuple_round_trip(tx);
}

/// A tuple that does not have the five fields of a transaction holds none.
pub proof fn lemma_wrong_arity_is_refused(tokens: Seq<TokenView>)
    requires
        tokens.len() != 5,
    ensures
        transaction_of_tokens(tokens) is None,
{
}

impl Transaction {
    pub fn new(
        plasma_contract_address: Address,
        range: Range,
        parameters: Vec<u8>,
        signature: Vec<u8>,
        metadata: Metadata,
    ) -> (tx: Transaction)
        ensures
            tx@ == (TransactionView {
                plasma_contract_address: plasma_contract_address@,
                range,
                parameters: parameters@,
                signature: signature@,
                metadata: metadata@,
            }),
    {
        Transaction { plasma_contract_address, range, parameters, signature, metadata }
    }

    /// The transaction with the given parameters, signature and metadata.
    pub fn from_params(
        transaction_params: TransactionParams,
        signature: Vec<u8>,
        metadata: Metadata,
    ) -> (tx: Transaction)
        ensures
            body_of(tx@) == transaction_params@,
            tx@.signature == signature@,
            tx@.metadata == metadata@,
    {
        Transaction::new(
            transaction_params.plasma_contract_address,
            transaction_params.range,
            transaction_params.parameters,
            signature,
            metadata,
        )
    }

    /// The bytes of the transaction without its signature and metadata.
    /// Fails with `EncodingError` where they are too long to encode.
    pub fn to_body_abi(&self) -> (bytes: Result<Vec<u8>, Error>)
        ensures
            match bytes {
                Ok(b) => 224 + self@.parameters.len() <= MAX_ENCODED && b@ == params_encoding(
                    body_of(self@),
                ),
                Err(e) => e == Error::EncodingError && 224 + self@.parameters.len()
                    > MAX_ENCODED,
            },
    {
        encode(&body_tokens(&self.plasma_contract_address, &self.range, &self.parameters))
    }

    /// The method identifier of `value`: the first byte of its digest.
    pub fn create_method_id(value: &[u8]) -> (id: u8)
        ensures
            digest_of(value@).len() == 32,
            id == digest_of(value@)[0],
    {
        let digest = sha3_256(value);
        digest.bytes[0]
    }

    pub fn get_range(&self) -> (range: Range)
        ensures
            range == self@.range,
    {
        self.range
    }

    pub fn get_parameters(&self) -> (parameters: &Vec<u8>)
        ensures
            parameters@ == self@.parameters,
    {
        &self.parameters
    }

    pub fn get_plasma_contract_address(&self) -> (address: Address)
        ensures
            address@ == self@.plasma_contract_address,
    {
        self.plasma_contract_address
    }

    pub fn get_signature(&self) -> (signature: &Vec<u8>)
        ensures
            signature@ == self@.signature,
    {
        &self.signature
    }

    pub fn get_metadata(&self) -> (metadata: &Metadata)
        ensures
            metadata@ == self@.metadata,
    {
        &self.metadata
    }

    /// A copy of the transaction.
    pub fn duplicate(&self) -> (copy: Transaction)
        ensures
            copy@ == self@,
    {
        Transaction {
            plasma_contract_address: self.plasma_contract_address,
            range: self.range,
            parameters: copy_bytes(self.parameters.as_slice()),
            signature: copy_bytes(self.signature.as_slice()),
            metadata: self.metadata,
        }
    }

    /// The tuple of the transaction.
    pub fn to_tuple(&self) -> (tokens: Vec<AbiToken>)
        ensures
            token_views(tokens@) == transaction_tokens(self@),
            tokens_weight(token_views(tokens@)) == transaction_weight(self@),
    {
        let mut tokens = body_tokens(&self.plasma_contract_address, &self.range, &self.parameters);
        let ghost body = token_views(tokens@);
        let ghost t3 = TokenView::Bytes(self.signature@);
        let ghost t4 = TokenView::Bytes(metadata_encoding(self.metadata@));
        proof {
            lemma_token_views(tokens@);
        }
        tokens.push(AbiToken::Bytes(copy_bytes(self.signature.as_slice())));
        tokens.push(AbiToken::Bytes(self.metadata.to_abi()));
        proof {
            lemma_token_views(tokens@);
            assert(token_views(tokens@) =~= transaction_tokens(self@));
            lemma_tokens_weight_push(body, t3);
            lemma_tokens_weight_push(body.push(t3), t4);
            assert(body.push(t3).push(t4) =~= transaction_tokens(self@));
        }
        tokens
    }

    /// The transaction that a tuple holds. Fails with `EncodingError` unless
    /// the tuple is an address, the tuple of a range, and three byte strings
    /// of which the last holds metadata.
    pub fn from_tuple(tuple: &Vec<AbiToken>) -> (tx: Result<Transaction, Error>)
        ensures
            match tx {
                Ok(t) => transaction_of_tokens(token_views(tuple@)) == Some(t@),
                Err(e) => e == Error::EncodingError && transaction_of_tokens(token_views(tuple@))
                    is None,
            },
    {
        proof {
            lemma_token_views(tuple@);
        }
        if tuple.len() != 5 {
            return Err(Error::EncodingError);
        }
        match (&tuple[0], &tuple[1], &tuple[2], &tuple[3], &tuple[4]) {
            (
                AbiToken::Address(address),
                AbiToken::Tuple(range),
                AbiToken::Bytes(parameters),
                AbiToken::Bytes(signature),
                AbiToken::Bytes(metadata),
            ) => {
                match (range_from_tuple(range), Metadata::from_abi(metadata.as_slice())) {
                    (Ok(range), Ok(metadata)) => Ok(
                        Transaction {
                            plasma_contract_address: *address,
                            range,
                            parameters: copy_bytes(parameters.as_slice()),
                            signature: copy_bytes(signature.as_slice()),
                            metadata,
                        },
                    ),
                    _ => Err(Error::EncodingError),
                }
            },
            _ => Err(Error::EncodingError),
        }
    }

    /// The types of the tuple of a transaction.
    pub fn get_param_types() -> (kinds: Vec<ParamKind>)
        ensures
            kind_views(kinds@) == transaction_kinds(),
    {
        let mut kinds = TransactionParams::get_param_types();
        proof {
            lemma_kind_views_push(kinds@, ParamKind::Bytes);
        }
        kinds.push(ParamKind::Bytes);
        proof {
            lemma_kind_views_push(kinds@, ParamKind::Bytes);
        }
        kinds.push(ParamKind::Bytes);
        assert(kind_views(kinds@) =~= transaction_kinds());
        kinds
    }

    /// The bytes of the transaction. Fails with `EncodingError` where it is
    /// too long to encode.
    pub fn to_abi(&self) -> (bytes: Result<Vec<u8>, Error>)
        ensures
            match bytes {
                Ok(b) => transaction_weight(self@) <= MAX_ENCODED && b@ == transaction_encoding(
                    self@,
                ),
                Err(e) => e == Error::EncodingError && transaction_weight(self@) > MAX_ENCODED,
            },
    {
        encode(&self.to_tuple())
    }

    /// The transaction that bytes hold. Fails with `EncodingError` unless
    /// the bytes decode into the tuple of a transaction.
    pub fn from_abi(data: &[u8]) -> (tx: Result<Transaction, Error>)
        ensures
            match tx {
                Ok(t) => transaction_decoding(data@) == Some(t@),
                Err(e) => e == Error::EncodingError && transaction_decoding(data@) is None,
            },
    {
        match decode(&Transaction::get_param_types(), data) {
            Ok(tokens) => Transaction::from_tuple(&tokens),
            Err(e) => Err(e),
        }
    }
}

} // verus!
