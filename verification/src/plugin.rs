//! The host-to-plugin request model and the one-shot exchange protocol.
//!
//! A plugin process receives exactly one `PluginAction`, answers with one
//! sequence of results, and then stops taking part in the protocol.  The
//! exchange is modeled as a two-phase state machine; reading and writing
//! the process streams is the caller's business.

use vstd::prelude::*;

use crate::codec::{
    decode_plugin_action, encode_results, spec_enc_plugin_action, spec_enc_results_msg,
};
use crate::results::{TUIResult, results_model};

verus! {

/// Description of one registered plugin.
#[derive(Debug, PartialEq)]
pub struct Plugin {
    pub id: String,
    pub name: String,
    pub description: String,
    pub settings_file: Option<String>,
}

/// One request to a plugin: either "give me results for this text" or
/// "run this pre-selected action with its auxiliary data".
#[derive(Debug, PartialEq)]
pub enum PluginAction {
    Results { text: String },
    Run { custom_action: String, info: Option<Vec<String>> },
}

/// Ghost model of a `PluginAction`: every string as its character
/// sequence.
pub enum PluginActionModel {
    Results { text: Seq<char> },
    Run { custom_action: Seq<char>, info: Option<Seq<Seq<char>>> },
}

pub open spec fn plugin_action_model(a: PluginAction) -> PluginActionModel {
    match a {
        PluginAction::Results { text } => PluginActionModel::Results { text: text@ },
        PluginAction::Run { custom_action, info } => PluginActionModel::Run {
            custom_action: custom_action@,
            info: info.deep_view(),
        },
    }
}

/// Why a plugin could not take a request from its input: the stream held
/// nothing at all, or what it held was no encoded request.
#[derive(Debug, Clone, Copy, PartialEq, Eq)]
pub enum ProtocolError {
    EmptyInput,
    MalformedRequest,
}

/// Parses the bytes a plugin read from its input stream.  The empty
/// stream and every buffer that encodes no request are rejected; an
/// accepted buffer is, in full, the encoding of the returned request.
pub fn parse_plugin_request(data: &[u8]) -> (r: Result<PluginAction, ProtocolError>)
    ensures
        r matches Ok(a) ==> data@ == spec_enc_plugin_action(plugin_action_model(a)),
        forall|m: PluginActionModel| #[trigger] spec_enc_plugin_action(m) == data@ ==> (
        r matches Ok(a) && plugin_action_model(a) == m),
        data@.len() == 0 <==> r == Result::<PluginAction, ProtocolError>::Err(
            ProtocolError::EmptyInput,
        ),
{
    if data.len() == 0 {
        return Err(ProtocolError::EmptyInput);
    }
    match decode_plugin_action(data) {
        Ok(a) => Ok(a),
        Err(_) => Err(ProtocolError::MalformedRequest),
    }
}

/// Where one exchange stands: still owing a response, or done.
#[derive(Debug, Clone, Copy, PartialEq, Eq, Structural)]
pub enum ExchangePhase {
    AwaitingRequest,
    Responded,
}

/// One plugin-side exchange: exactly one response per invocation.
/// `respond` demands the awaiting phase and ends it, so a verified
/// caller can never answer twice.
#[derive(Debug, Clone, Copy, PartialEq, Eq, Structural)]
pub struct PluginExchange {
    pub phase: ExchangePhase,
}

impl PluginExchange {
    /// A fresh exchange, still owing its response.
    pub fn new() -> (e: Self)
        ensures
            e.phase == ExchangePhase::AwaitingRequest,
    {
        PluginExchange { phase: ExchangePhase::AwaitingRequest }
    }

    /// Takes the request out of the bytes read from the input stream.
    /// Does not answer, so the phase stays unchanged.
    pub fn receive_request(&self, data: &[u8]) -> (r: Result<PluginAction, ProtocolError>)
        requires
            self.phase == ExchangePhase::AwaitingRequest,
        ensures
            r matches Ok(a) ==> data@ == spec_enc_plugin_action(plugin_action_model(a)),
            forall|m: PluginActionModel| #[trigger] spec_enc_plugin_action(m) == data@ ==> (
            r matches Ok(a) && plugin_action_model(a) == m),
            data@.len() == 0 <==> r == Result::<PluginAction, ProtocolError>::Err(
                ProtocolError::EmptyInput,
            ),
    {
        parse_plugin_request(data)
    }

    /// Encodes the one response of this exchange and closes it: the
    /// phase moves to `Responded` and no further response can be built.
    pub fn respond(&mut self, results: &Vec<TUIResult>) -> (out: Vec<u8>)
        requires
            old(self).phase == ExchangePhase::AwaitingRequest,
        ensures
            final(self).phase == ExchangePhase::Responded,
            out@ == spec_enc_results_msg(results_model(results@)),
    {
        self.phase = ExchangePhase::Responded;
        encode_results(results)
    }
}

} // verus!
