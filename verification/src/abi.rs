//! The tokens of the contract ABI and their byte encoding.

use crate::error::Error;
use crate::primitives::{be_bytes, from_be_bytes, lemma_be_round_trip, Address};
use vstd::prelude::*;

verus! {

/// A value of the contract ABI.
#[derive(Debug)]
pub enum AbiToken {
    /// An address.
    Address(Address),
    /// An unsigned integer, as a word of 32 bytes, most significant first.
    Uint([u8; 32]),
    /// A byte string of any length.
    Bytes(Vec<u8>),
    /// A tuple of values.
    Tuple(Vec<AbiToken>),
}

/// What a token stands for.
pub enum TokenView {
    Address(Seq<u8>),
    Uint(Seq<u8>),
    Bytes(Seq<u8>),
    Tuple(Seq<TokenView>),
}

/// The views of the first `n` tokens of a sequence.
pub open spec fn token_views_upto(tokens: Seq<AbiToken>, n: nat) -> Seq<TokenView>
    decreases tokens, n,
{
    if n == 0 || n > tokens.len() {
        Seq::empty()
    } else {
        token_views_upto(tokens, (n - 1) as nat).push(token_view(tokens[n - 1]))
    }
}

/// What a token stands for.
pub open spec fn token_view(token: AbiToken) -> TokenView
    decreases token, 0nat,
{
    match token {
        AbiToken::Address(a) => TokenView::Address(a@),
        AbiToken::Uint(w) => TokenView::Uint(w@),
        AbiToken::Bytes(b) => TokenView::Bytes(b@),
        AbiToken::Tuple(ts) => TokenView::Tuple(token_views_upto(ts@, ts@.len())),
    }
}

/// The views of a sequence of tokens.
pub open spec fn token_views(tokens: Seq<AbiToken>) -> Seq<TokenView> {
    token_views_upto(tokens, tokens.len())
}

impl View for AbiToken {
    type V = TokenView;

    open spec fn view(&self) -> TokenView {
        token_view(*self)
    }
}

/// The view of a sequence of tokens has the view of each token at its
/// place.
pub proof fn lemma_token_views(tokens: Seq<AbiToken>)
    ensures
        token_views(tokens).len() == tokens.len(),
        forall|i: int| 0 <= i < tokens.len() ==> (#[trigger] token_views(tokens)[i]) == tokens[i]@,
{
    lemma_token_views_upto(tokens, tokens.len());
}

proof fn lemma_token_views_upto(tokens: Seq<AbiToken>, n: nat)
    requires
        n <= tokens.len(),
    ensures
        token_views_upto(tokens, n).len() == n,
        forall|i: int| 0 <= i < n ==> (#[trigger] token_views_upto(tokens, n)[i]) == tokens[i]@,
    decreases n,
{
    if n > 0 {
        lemma_token_views_upto(tokens, (n - 1) as nat);
    }
}

/// A bound on the number of bytes that the encoding of a token takes.
pub open spec fn token_weight(token: TokenView) -> nat
    decreases token, 0nat,
{
    match token {
        TokenView::Address(_) => 32,
        TokenView::Uint(_) => 32,
        TokenView::Bytes(b) => 96 + b.len(),
        TokenView::Tuple(ts) => 32 + tokens_weight_upto(ts, ts.len()),
    }
}

/// A bound on the number of bytes that the encoding of the first `n` tokens
/// of a sequence takes.
pub open spec fn tokens_weight_upto(tokens: Seq<TokenView>, n: nat) -> nat
    decreases tokens, n,
{
    if n == 0 || n > tokens.len() {
        0
    } else {
        tokens_weight_upto(tokens, (n - 1) as nat) + token_weight(tokens[n - 1])
    }
}

/// A bound on the number of bytes that the encoding of a sequence of tokens
/// takes.
pub open spec fn tokens_weight(tokens: Seq<TokenView>) -> nat {
    tokens_weight_upto(tokens, tokens.len())
}

proof fn lemma_weight_upto_prefix(tokens: Seq<TokenView>, token: TokenView, n: nat)
    requires
        n <= tokens.len(),
    ensures
        tokens_weight_upto(tokens.push(token), n) == tokens_weight_upto(tokens, n),
    decreases n,
{
    if n > 0 {
        lemma_weight_upto_prefix(tokens, token, (n - 1) as nat);
    }
}

/// The weight of a sequence with one more token at its end.
pub proof fn lemma_tokens_weight_push(tokens: Seq<TokenView>, token: TokenView)
    ensures
        tokens_weight(tokens.push(token)) == tokens_weight(tokens) + token_weight(token),
        tokens_weight(Seq::<TokenView>::empty()) == 0,
{
    lemma_weight_upto_prefix(tokens, token, tokens.len());
}

/// The largest weight of a sequence of tokens that can be encoded.
pub const MAX_ENCODED: u64 = 0xffff_ffff;

/// The type of a value of the contract ABI.
#[derive(Debug)]
pub enum ParamKind {
    Address,
    /// An unsigned integer of the given number of bits.
    Uint(usize),
    Bytes,
    Tuple(Vec<ParamKind>),
}

/// What a type stands for.
pub enum KindView {
    Address,
    Uint(usize),
    Bytes,
    Tuple(Seq<KindView>),
}

/// The views of the first `n` types of a sequence.
pub open spec fn kind_views_upto(kinds: Seq<ParamKind>, n: nat) -> Seq<KindView>
    decreases kinds, n,
{
    if n == 0 || n > kinds.len() {
        Seq::empty()
    } else {
        kind_views_upto(kinds, (n - 1) as nat).push(kind_view(kinds[n - 1]))
    }
}

/// What a type stands for.
pub open spec fn kind_view(kind: ParamKind) -> KindView
    decreases kind, 0nat,
{
    match kind {
        ParamKind::Address => KindView::Address,
        ParamKind::Uint(bits) => KindView::Uint(bits),
        ParamKind::Bytes => KindView::Bytes,
        ParamKind::Tuple(ks) => KindView::Tuple(kind_views_upto(ks@, ks@.len())),
    }
}

/// The views of a sequence of types.
pub open spec fn kind_views(kinds: Seq<ParamKind>) -> Seq<KindView> {
    kind_views_upto(kinds, kinds.len())
}

impl View for ParamKind {
    type V = KindView;

    open spec fn view(&self) -> KindView {
        kind_view(*self)
    }
}

proof fn lemma_kind_views_upto(kinds: Seq<ParamKind>, n: nat)
    requires
        n <= kinds.len(),
    ensures
        kind_views_upto(kinds, n).len() == n,
        forall|i: int| 0 <= i < n ==> (#[trigger] kind_views_upto(kinds, n)[i]) == kinds[i]@,
    decreases n,
{
    if n > 0 {
        lemma_kind_views_upto(kinds, (n - 1) as nat);
    }
}

/// The view of a sequence of types has the view of each type at its place.
pub proof fn lemma_kind_views(kinds: Seq<ParamKind>)
    ensures
        kind_views(kinds).len() == kinds.len(),
        forall|i: int| 0 <= i < kinds.len() ==> (#[trigger] kind_views(kinds)[i]) == kinds[i]@,
{
    lemma_kind_views_upto(kinds, kinds.len());
}

/// A copy of a type.
pub fn duplicate_kind(kind: &ParamKind) -> (copy: ParamKind)
    ensures
        copy@ == kind@,
    decreases kind,
{
    match kind {
        ParamKind::Address => ParamKind::Address,
        ParamKind::Uint(bits) => ParamKind::Uint(*bits),
        ParamKind::Bytes => ParamKind::Bytes,
        ParamKind::Tuple(ks) => {
            let inner = duplicate_kinds(ks);
            assert(kind@ == KindView::Tuple(kind_views(ks@)));
            ParamKind::Tuple(inner)
        },
    }
}

/// A copy of a sequence of types.
pub fn duplicate_kinds(kinds: &Vec<ParamKind>) -> (copy: Vec<ParamKind>)
    ensures
        kind_views(copy@) == kind_views(kinds@),
    decreases kinds,
{
    let mut copy: Vec<ParamKind> = Vec::new();
    let mut i: usize = 0;
    while i < kinds.len()
        invariant
            i <= kinds.len(),
            copy.len() == i,
            forall|k: int| 0 <= k < i ==> (#[trigger] copy[k])@ == kinds[k]@,
        decreases kinds.len() - i,
    {
        copy.push(duplicate_kind(&kinds[i]));
        i += 1;
    }
    proof {
        lemma_kind_views(copy@);
        lemma_kind_views(kinds@);
        assert(kind_views(copy@) =~= kind_views(kinds@));
    }
    copy
}

/// The views of a sequence of types with one more type at its end.
pub proof fn lemma_kind_views_push(kinds: Seq<ParamKind>, kind: ParamKind)
    ensures
        kind_views(kinds.push(kind)) == kind_views(kinds).push(kind@),
        kind_views(Seq::<ParamKind>::empty()) == Seq::<KindView>::empty(),
{
    lemma_kind_views_upto(kinds, kinds.len());
    lemma_kind_views_upto(kinds.push(kind), kinds.len() + 1);
    assert(kind_views(kinds.push(kind)) =~= kind_views(kinds).push(kind@));
}

/// The bytes that `ethabi` encodes a sequence of tokens into.
pub uninterp spec fn abi_encoding(tokens: Seq<TokenView>) -> Seq<u8>;

/// The tokens that `ethabi` decodes bytes into, read as the given types, or
/// `None` where it refuses the bytes.
pub uninterp spec fn abi_decoding(kinds: Seq<KindView>, data: Seq<u8>) -> Option<Seq<TokenView>>;

#[verifier::external_type_specification]
#[verifier::external_body]
pub struct ExAbiToken(ethabi::Token);

#[verifier::external_type_specification]
#[verifier::external_body]
pub struct ExAbiParamType(ethabi::ParamType);

/// Makes the `ethabi::Token` that holds what `token` holds, variant by
/// variant. Trusted: nothing is stated of the result.
#[verifier::external_body]
fn token_to_ethabi(token: &AbiToken) -> ethabi::Token {
    match token {
        AbiToken::Address(a) => ethabi::Token::Address(ethabi::Address::from(a.bytes)),
        AbiToken::Uint(w) => ethabi::Token::Uint(ethabi::Uint::from_big_endian(w)),
        AbiToken::Bytes(b) => ethabi::Token::Bytes(b.clone()),
        AbiToken::Tuple(ts) => ethabi::Token::Tuple(ts.iter().map(token_to_ethabi).collect()),
    }
}

/// Makes the token that holds what an `ethabi::Token` holds, variant by
/// variant; `None` for a variant that this library has no token for.
/// Trusted: nothing is stated of the result.
#[verifier::external_body]
fn token_from_ethabi(token: ethabi::Token) -> Option<AbiToken> {
    match token {
        ethabi::Token::Address(a) => Some(AbiToken::Address(Address { bytes: a.0 })),
        ethabi::Token::Uint(u) => Some(AbiToken::Uint(u.into())),
        ethabi::Token::Bytes(b) => Some(AbiToken::Bytes(b)),
        ethabi::Token::Tuple(ts) => ts.into_iter().map(token_from_ethabi).collect::<Option<_>>().map(
            AbiToken::Tuple,
        ),
        _ => None,
    }
}

/// Makes the `ethabi::ParamType` that names the type `kind` names. Trusted:
/// nothing is stated of the result.
#[verifier::external_body]
fn kind_to_ethabi(kind: &ParamKind) -> ethabi::ParamType {
    match kind {
        ParamKind::Address => ethabi::ParamType::Address,
        ParamKind::Uint(bits) => ethabi::ParamType::Uint(*bits),
        ParamKind::Bytes => ethabi::ParamType::Bytes,
        ParamKind::Tuple(ks) => ethabi::ParamType::Tuple(ks.iter().map(kind_to_ethabi).collect()),
    }
}

/// Calls `ethabi::encode`. Trusted: the bytes returned are a function of the
/// tokens alone. The encoder counts bytes in 32 bits, so the tokens must
/// weigh less than that.
#[verifier::external_body]
fn abi_encode(tokens: &Vec<AbiToken>) -> (bytes: Vec<u8>)
    requires
        tokens_weight(token_views(tokens@)) <= MAX_ENCODED,
    ensures
        bytes@ == abi_encoding(token_views(tokens@)),
{
    let outside: Vec<ethabi::Token> = tokens.iter().map(token_to_ethabi).collect();
    ethabi::encode(&outside)
}

/// Calls `ethabi::decode`. Trusted: whether it accepts the bytes, and the
/// tokens it then returns, are a function of the types and the bytes alone.
#[verifier::external_body]
fn abi_decode(kinds: &Vec<ParamKind>, data: &[u8]) -> (tokens: Option<Vec<AbiToken>>)
    ensures
        match tokens {
            Some(ts) => abi_decoding(kind_views(kinds@), data@) == Some(token_views(ts@)),
            None => abi_decoding(kind_views(kinds@), data@) is None,
        },
{
    let outside: Vec<ethabi::ParamType> = kinds.iter().map(kind_to_ethabi).collect();
    let found = ethabi::decode(&outside, data).ok()?;
    found.into_iter().map(token_from_ethabi).collect()
}

/// A weight, or one more than the largest that can be encoded where it is
/// larger than that.
pub open spec fn capped(weight: nat) -> u64 {
    if weight <= MAX_ENCODED {
        weight as u64
    } else {
        (MAX_ENCODED + 1) as u64
    }
}

/// The weight of a token, capped.
fn weigh_token(token: &AbiToken) -> (weight: u64)
    ensures
        weight == capped(token_weight(token@)),
    decreases token,
{
    match token {
        AbiToken::Address(_) => 32,
        AbiToken::Uint(_) => 32,
        AbiToken::Bytes(b) => {
            if b.len() > 0xffff_ff9f {
                MAX_ENCODED + 1
            } else {
                96 + b.len() as u64
            }
        },
        AbiToken::Tuple(ts) => {
            let inner = weigh_tokens(ts);
            proof {
                lemma_token_views(ts@);
            }
            if inner + 32 > MAX_ENCODED {
                MAX_ENCODED + 1
            } else {
                inner + 32
            }
        },
    }
}

/// The weight of a sequence of tokens, capped.
fn weigh_tokens(tokens: &Vec<AbiToken>) -> (weight: u64)
    ensures
        weight == capped(tokens_weight(token_views(tokens@))),
    decreases tokens,
{
    let ghost all = token_views(tokens@);
    proof {
        lemma_token_views(tokens@);
    }
    let mut weight: u64 = 0;
    let mut i: usize = 0;
    while i < tokens.len()
        invariant
            i <= tokens.len(),
            all == token_views(tokens@),
            all.len() == tokens.len(),
            forall|k: int| 0 <= k < tokens.len() ==> (#[trigger] all[k]) == tokens[k]@,
            weight == capped(tokens_weight_upto(all, i as nat)),
        decreases tokens.len() - i,
    {
        let w = weigh_token(&tokens[i]);
        assert(all[i as int] == tokens[i as int]@);
        assert(tokens_weight_upto(all, (i + 1) as nat) == tokens_weight_upto(all, i as nat)
            + token_weight(all[i as int]));
        weight = if weight + w > MAX_ENCODED {
            MAX_ENCODED + 1
        } else {
            weight + w
        };
        i += 1;
    }
    weight
}

/// The encoding of a sequence of tokens. Fails with `EncodingError` where
/// the tokens weigh more than can be encoded.
pub fn encode(tokens: &Vec<AbiToken>) -> (bytes: Result<Vec<u8>, Error>)
    ensures
        match bytes {
            Ok(b) => tokens_weight(token_views(tokens@)) <= MAX_ENCODED && b@ == abi_encoding(
                token_views(tokens@),
            ),
            Err(e) => e == Error::EncodingError && tokens_weight(token_views(tokens@))
                > MAX_ENCODED,
        },
{
    if weigh_tokens(tokens) > MAX_ENCODED {
        Err(Error::EncodingError)
    } else {
        Ok(abi_encode(tokens))
    }
}

/// The tokens that bytes decode into, read as the given types. Fails with
/// `EncodingError` where the bytes do not hold values of these types.
pub fn decode(kinds: &Vec<ParamKind>, data: &[u8]) -> (tokens: Result<Vec<AbiToken>, Error>)
    ensures
        match tokens {
            Ok(ts) => abi_decoding(kind_views(kinds@), data@) == Some(token_views(ts@)),
            Err(e) => e == Error::EncodingError && abi_decoding(kind_views(kinds@), data@) is None,
        },
{
    match abi_decode(kinds, data) {
        Some(tokens) => Ok(tokens),
        None => Err(Error::EncodingError),
    }
}

/// Twenty-four zero bytes, then the eight bytes of `x`: the word of an
/// unsigned integer.
pub open spec fn uint_word(x: u64) -> Seq<u8> {
    Seq::new(24, |i: int| 0u8) + be_bytes(x)
}

/// The integer that a word holds, if it fits in 64 bits.
pub open spec fn word_value(word: Seq<u8>) -> Option<u64> {
    if word.len() == 32 && word.subrange(0, 24) == Seq::new(24, |i: int| 0u8) {
        Some(from_be_bytes(word.subrange(24, 32)))
    } else {
        None
    }
}

/// The word of an integer holds that integer.
pub proof fn lemma_word_round_trip(x: u64)
    ensures
        word_value(uint_word(x)) == Some(x),
{
    lemma_be_round_trip(x);
    assert(uint_word(x).subrange(0, 24) =~= Seq::new(24, |i: int| 0u8));
    assert(uint_word(x).subrange(24, 32) =~= be_bytes(x));
}

/// The word of an unsigned integer.
pub fn word_of(x: u64) -> (word: [u8; 32])
    ensures
        word@ == uint_word(x),
{
    let word = [
        0u8, 0u8, 0u8, 0u8, 0u8, 0u8, 0u8, 0u8, 0u8, 0u8, 0u8, 0u8, 0u8, 0u8, 0u8, 0u8, 0u8, 0u8, 0u8,
        0u8, 0u8, 0u8, 0u8, 0u8, (x >> 56) as u8, (x >> 48) as u8, (x >> 40) as u8, (x >> 32) as u8,
        (x >> 24) as u8, (x >> 16) as u8, (x >> 8) as u8, x as u8,
    ];
    assert(word@ =~= uint_word(x));
    word
}

/// The integer that a word holds, if it fits in 64 bits.
pub fn value_of(word: &[u8; 32]) -> (value: Option<u64>)
    ensures
        value == word_value(word@),
{
    let mut i: usize = 0;
    while i < 24
        invariant
            i <= 24,
            forall|k: int| 0 <= k < i ==> word@[k] == 0u8,
        decreases 24 - i,
    {
        if word[i] != 0 {
            assert(word@.subrange(0, 24)[i as int] != 0u8);
            return None;
        }
        i += 1;
    }
    assert(word@.subrange(0, 24) =~= Seq::new(24, |i: int| 0u8));
    let x = crate::primitives::read_be_bytes(word.as_slice(), 24);
    Some(x)
}

} // verus!
