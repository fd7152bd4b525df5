//! What the watcher of contract events decides: which logs are new, what
//! their data decodes into, and up to which block the logs were seen.

use crate::abi::{
    abi_decoding, decode, duplicate_kind, kind_views, lemma_kind_views, lemma_token_views,
    token_views, AbiToken, KindView, ParamKind, TokenView,
};
use crate::error::Error;
use crate::primitives::{copy_bytes, Digest};
use vstd::prelude::*;

verus! {

/// A log of the chain, as far as the watcher reads it: the block it was
/// mined in, if it was, and its data.
#[derive(Debug)]
pub struct Log {
    pub block_number: Option<u64>,
    pub data: Vec<u8>,
}

/// What a log stands for.
pub struct LogView {
    pub block_number: Option<u64>,
    pub data: Seq<u8>,
}

impl View for Log {
    type V = LogView;

    open spec fn view(&self) -> LogView {
        LogView { block_number: self.block_number, data: self.data@ }
    }
}

/// The views of a sequence of logs.
pub open spec fn log_views(logs: Seq<Log>) -> Seq<LogView> {
    logs.map_values(|l: Log| l@)
}

/// Whether a log was mined in a block after `last`. A log that was not
/// mined is not newer than any block.
pub open spec fn is_newer(log: LogView, last: u64) -> bool {
    log.block_number matches Some(n) && n > last
}

/// The logs that were mined after the last block whose logs were seen, in
/// their order; all of them where none was seen yet.
pub open spec fn newer_logs(logs: Seq<LogView>, last: Option<u64>) -> Seq<LogView>
    decreases logs.len(),
{
    match last {
        None => logs,
        Some(n) => if logs.len() == 0 {
            Seq::empty()
        } else if is_newer(logs.last(), n) {
            newer_logs(logs.drop_last(), last).push(logs.last())
        } else {
            newer_logs(logs.drop_last(), last)
        },
    }
}

/// The block from which the watcher asks for logs: the last one whose logs
/// were seen, or the first where none was.
pub fn from_block(last_logged_block: Option<u64>) -> (block: u64)
    ensures
        block == match last_logged_block {
            Some(n) => n,
            None => 0,
        },
{
    match last_logged_block {
        Some(n) => n,
        None => 0,
    }
}

/// Copies of the logs that were mined after the last block whose logs were
/// seen.
pub fn filter_logs(last_logged_block: Option<u64>, logs: &Vec<Log>) -> (kept: Vec<Log>)
    ensures
        log_views(kept@) == newer_logs(log_views(logs@), last_logged_block),
{
    let ghost all = log_views(logs@);
    let mut kept: Vec<Log> = Vec::new();
    let mut i: usize = 0;
    assert(all.take(0) =~= Seq::<LogView>::empty());
    while i < logs.len()
        invariant
            i <= logs.len(),
            all == log_views(logs@),
            last_logged_block is Some ==> log_views(kept@) == newer_logs(
                all.take(i as int),
                last_logged_block,
            ),
            last_logged_block is None ==> log_views(kept@) == all.take(i as int),
        decreases logs.len() - i,
    {
        let log = &logs[i];
        let ghost before = log_views(kept@);
        let keep = match (last_logged_block, log.block_number) {
            (None, _) => true,
            (Some(last), Some(n)) => n > last,
            (Some(_), None) => false,
        };
        proof {
            assert(all.take(i + 1).drop_last() =~= all.take(i as int));
            assert(all.take(i + 1).last() == log@);
        }
        if keep {
            kept.push(Log { block_number: log.block_number, data: copy_bytes(log.data.as_slice()) });
            assert(log_views(kept@) =~= before.push(log@));
            assert(all.take(i + 1) =~= all.take(i as int).push(log@));
        }
        i += 1;
    }
    assert(all.take(logs@.len() as int) =~= all);
    kept
}

/// A parameter of an event.
#[derive(Debug)]
pub struct EventParam {
    pub name: String,
    pub kind: ParamKind,
    pub indexed: bool,
}

/// What a parameter of an event stands for.
pub struct EventParamView {
    pub name: Seq<char>,
    pub kind: KindView,
    pub indexed: bool,
}

impl View for EventParam {
    type V = EventParamView;

    open spec fn view(&self) -> EventParamView {
        EventParamView { name: self.name@, kind: self.kind@, indexed: self.indexed }
    }
}

/// The views of a sequence of parameters.
pub open spec fn param_views(params: Seq<EventParam>) -> Seq<EventParamView> {
    params.map_values(|p: EventParam| p@)
}

/// The types of a sequence of parameters.
pub open spec fn param_kinds(params: Seq<EventParamView>) -> Seq<KindView> {
    params.map_values(|p: EventParamView| p.kind)
}

/// An event of a contract.
#[derive(Debug)]
pub struct Event {
    pub signature: Digest,
    pub inputs: Vec<EventParam>,
}

/// A parameter of an event with the value that a log gives it.
#[derive(Debug)]
pub struct DecodedParam {
    pub event_param: EventParam,
    pub token: AbiToken,
}

/// What a decoded parameter stands for.
pub struct DecodedParamView {
    pub event_param: EventParamView,
    pub token: TokenView,
}

impl View for DecodedParam {
    type V = DecodedParamView;

    open spec fn view(&self) -> DecodedParamView {
        DecodedParamView { event_param: self.event_param@, token: self.token@ }
    }
}

/// The views of a sequence of decoded parameters.
pub open spec fn decoded_views(params: Seq<DecodedParam>) -> Seq<DecodedParamView> {
    params.map_values(|p: DecodedParam| p@)
}

/// The parameters with the tokens, pair by pair, where there are as many of
/// the ones as of the others.
pub open spec fn paired(inputs: Seq<EventParamView>, tokens: Seq<TokenView>) -> Option<
    Seq<DecodedParamView>,
> {
    if inputs.len() == tokens.len() {
        Some(
            Seq::new(
                inputs.len(),
                |i: int| DecodedParamView { event_param: inputs[i], token: tokens[i] },
            ),
        )
    } else {
        None
    }
}

/// What the data of a log decodes into, read as the parameters of an
/// event.
pub open spec fn decoded_params(inputs: Seq<EventParamView>, data: Seq<u8>) -> Option<
    Seq<DecodedParamView>,
> {
    match abi_decoding(param_kinds(inputs), data) {
        Some(tokens) => paired(inputs, tokens),
        None => None,
    }
}

/// A copy of a parameter.
pub fn duplicate_param(param: &EventParam) -> (copy: EventParam)
    ensures
        copy@ == param@,
{
    EventParam {
        name: param.name.clone(),
        kind: duplicate_kind(&param.kind),
        indexed: param.indexed,
    }
}

/// The parameters with the tokens, pair by pair. Fails with
/// `EncodingError` where there are not as many tokens as parameters.
pub fn pair_params(inputs: &Vec<EventParam>, tokens: Vec<AbiToken>) -> (made: Result<
    Vec<DecodedParam>,
    Error,
>)
    ensures
        match made {
            Ok(params) => paired(param_views(inputs@), token_views(tokens@)) == Some(
                decoded_views(params@),
            ),
            Err(e) => e == Error::EncodingError && paired(
                param_views(inputs@),
                token_views(tokens@),
            ) is None,
        },
{
    let ghost all = token_views(tokens@);
    proof {
        lemma_token_views(tokens@);
    }
    if inputs.len() != tokens.len() {
        return Err(Error::EncodingError);
    }
    let mut rest = tokens;
    let mut params: Vec<DecodedParam> = Vec::new();
    while rest.len() > 0
        invariant
            rest.len() <= inputs.len(),
            all == token_views(tokens@),
            all.len() == inputs.len(),
            tokens@.len() == inputs.len(),
            params.len() == inputs.len() - rest.len(),
            rest@ == tokens@.take(rest.len() as int),
            forall|k: int| 0 <= k < tokens@.len() ==> (#[trigger] all[k]) == tokens@[k]@,
            forall|k: int|
                0 <= k < params.len() ==> (#[trigger] params[k])@ == (DecodedParamView {
                    event_param: inputs[rest.len() + k]@,
                    token: all[rest.len() + k],
                }),
        decreases rest.len(),
    {
        let ghost before = params@;
        let token = rest.pop().unwrap();
        let at = rest.len();
        assert(token == tokens@[at as int]);
        assert(rest@ =~= tokens@.take(at as int));
        params.insert(0, DecodedParam { event_param: duplicate_param(&inputs[at]), token });
        assert forall|k: int| 0 <= k < params.len() implies (#[trigger] params[k])@ == (
        DecodedParamView { event_param: inputs[at + k]@, token: all[at + k] }) by {
            if k > 0 {
                assert(params[k] == before[k - 1]);
            }
        }
    }
    assert(decoded_views(params@) =~= paired(param_views(inputs@), all)->0);
    Ok(params)
}

/// The types of the parameters of an event.
pub fn input_kinds(inputs: &Vec<EventParam>) -> (kinds: Vec<ParamKind>)
    ensures
        kind_views(kinds@) == param_kinds(param_views(inputs@)),
{
    let mut kinds: Vec<ParamKind> = Vec::new();
    let mut i: usize = 0;
    while i < inputs.len()
        invariant
            i <= inputs.len(),
            kinds.len() == i,
            forall|k: int| 0 <= k < i ==> (#[trigger] kinds[k])@ == inputs[k]@.kind,
        decreases inputs.len() - i,
    {
        kinds.push(duplicate_kind(&inputs[i].kind));
        i += 1;
    }
    proof {
        lemma_kind_views(kinds@);
        assert(kind_views(kinds@) =~= param_kinds(param_views(inputs@)));
    }
    kinds
}

/// What the data of `log` decodes into, read as the parameters of
/// `event`. Fails with `EncodingError` where the data does not hold values
/// of the parameters' types.
pub fn decode_params(event: &Event, log: &Log) -> (made: Result<Vec<DecodedParam>, Error>)
    ensures
        match made {
            Ok(params) => decoded_params(param_views(event.inputs@), log.data@) == Some(
                decoded_views(params@),
            ),
            Err(e) => e == Error::EncodingError && decoded_params(
                param_views(event.inputs@),
                log.data@,
            ) is None,
        },
{
    match decode(&input_kinds(&event.inputs), log.data.as_slice()) {
        Err(e) => Err(e),
        Ok(tokens) => pair_params(&event.inputs, tokens),
    }
}

/// The block up to which the logs are seen once `logs` were handled: that
/// of the last log, where there is a log and it was mined; else the one up
/// to which they were seen before.
pub open spec fn logged_after(last: Option<u64>, logs: Seq<LogView>) -> Option<u64> {
    if logs.len() > 0 && logs.last().block_number is Some {
        logs.last().block_number
    } else {
        last
    }
}

/// The block up to which the logs are seen once `logs` were handled.
pub fn last_logged_after(last_logged_block: Option<u64>, logs: &Vec<Log>) -> (last: Option<u64>)
    ensures
        last == logged_after(last_logged_block, log_views(logs@)),
{
    if logs.len() > 0 {
        match logs[logs.len() - 1].block_number {
            Some(n) => Some(n),
            None => last_logged_block,
        }
    } else {
        last_logged_block
    }
}

/// A log with the event it belongs to and what its data decodes into.
#[derive(Debug)]
pub struct LogEntity {
    pub event_signature: Digest,
    pub log: Log,
    pub params: Vec<DecodedParam>,
}

/// What the logs that a poll returned for an event make: one entity for
/// each log that is newer than the last block seen, and the block up to
/// which the logs are then seen. Fails with `EncodingError` where the data
/// of a newer log does not decode.
pub fn collect_entities(event: &Event, last_logged_block: Option<u64>, logs: &Vec<Log>) -> (made:
    Result<(Vec<LogEntity>, Option<u64>), Error>)
    ensures
        ({
            let newer = newer_logs(log_views(logs@), last_logged_block);
            match made {
                Ok((entities, last)) => {
                    &&& entities.len() == newer.len()
                    &&& last == logged_after(last_logged_block, newer)
                    &&& forall|i: int|
                        0 <= i < entities.len() ==> {
                            &&& (#[trigger] entities[i]).event_signature@ == event.signature@
                            &&& entities[i].log@ == newer[i]
                            &&& decoded_params(param_views(event.inputs@), newer[i].data) == Some(
                                decoded_views(entities[i].params@),
                            )
                        }
                },
                Err(e) => e == Error::EncodingError && exists|i: int|
                    0 <= i < newer.len() && decoded_params(
                        param_views(event.inputs@),
                        (#[trigger] newer[i]).data,
                    ) is None,
            }
        }),
{
    let kept = filter_logs(last_logged_block, logs);
    let last = last_logged_after(last_logged_block, &kept);
    let ghost newer = log_views(kept@);
    let mut rest = kept;
    let mut entities: Vec<LogEntity> = Vec::new();
    while rest.len() > 0
        invariant
            newer == newer_logs(log_views(logs@), last_logged_block),
            last == logged_after(last_logged_block, newer),
            rest.len() <= newer.len(),
            entities.len() == newer.len() - rest.len(),
            log_views(rest@) == newer.take(rest.len() as int),
            forall|i: int|
                0 <= i < entities.len() ==> {
                    &&& (#[trigger] entities[i]).event_signature@ == event.signature@
                    &&& entities[i].log@ == newer[rest.len() + i]
                    &&& decoded_params(
                        param_views(event.inputs@),
                        newer[rest.len() + i].data,
                    ) == Some(decoded_views(entities[i].params@))
                },
        decreases rest.len(),
    {
        let ghost before = entities@;
        let ghost longer = log_views(rest@);
        let log = rest.pop().unwrap();
        let at = rest.len();
        proof {
            assert(log@ == longer[at as int]);
            assert(log_views(rest@) =~= newer.take(at as int));
        }
        match decode_params(event, &log) {
            Err(e) => {
                assert(decoded_params(param_views(event.inputs@), newer[at as int].data) is None);
                return Err(e);
            },
            Ok(params) => {
                entities.insert(0, LogEntity { event_signature: event.signature, log, params });
                assert forall|i: int| 0 <= i < entities.len() implies {
                    &&& (#[trigger] entities[i]).event_signature@ == event.signature@
                    &&& entities[i].log@ == newer[at + i]
                    &&& decoded_params(param_views(event.inputs@), newer[at + i].data) == Some(
                        decoded_views(entities[i].params@),
                    )
                } by {
                    if i > 0 {
                        assert(entities[i] == before[i - 1]);
                    }
                }
            },
        }
    }
    Ok((entities, last))
}

} // verus!
