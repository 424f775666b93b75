//! Which validators may connect to the block engine, and which servers are used together.

use vstd::prelude::*;

use crate::keys::{contains_key, Pubkey};

verus! {

/// Where it is looked up which validators may connect.
#[derive(Debug)]
pub enum ValidatorStore {
    /// Those that are in the leader schedule.
    LeaderSchedule,
    /// Those that were named.
    UserDefined(Vec<Pubkey>),
}

impl ValidatorStore {
    /// The named validators, where some were named; otherwise the leader schedule.
    pub fn from_allowed(allowed_validators: Option<Vec<Pubkey>>) -> (store: Self)
        ensures
            store == (match allowed_validators {
                Some(pubkeys) => ValidatorStore::UserDefined(pubkeys),
                None => ValidatorStore::LeaderSchedule,
            }),
    {
        match allowed_validators {
            Some(pubkeys) => ValidatorStore::UserDefined(pubkeys),
            None => ValidatorStore::LeaderSchedule,
        }
    }
}

/// Decides which validators may connect.
#[derive(Debug)]
pub struct ValidatorAutherImpl {
    pub store: ValidatorStore,
}

impl ValidatorAutherImpl {
    /// Whether the validator may connect. The leader schedule is asked only where no validators
    /// were named.
    pub fn is_authorized<F: FnOnce(&Pubkey) -> bool>(
        &self,
        pubkey: &Pubkey,
        is_scheduled_validator: F,
    ) -> (authorized: bool)
        requires
            self.store is LeaderSchedule ==> call_requires(is_scheduled_validator, (pubkey,)),
        ensures
            match self.store {
                ValidatorStore::LeaderSchedule => call_ensures(
                    is_scheduled_validator,
                    (pubkey,),
                    authorized,
                ),
                ValidatorStore::UserDefined(pubkeys) => authorized == pubkeys@.contains(*pubkey),
            },
    {
        match &self.store {
            ValidatorStore::LeaderSchedule => is_scheduled_validator(pubkey),
            ValidatorStore::UserDefined(pubkeys) => contains_key(pubkeys, pubkey),
        }
    }
}

/// The first servers of both lists in pairs, as far as both lists go.
pub open spec fn paired(rpc_servers: Seq<String>, websocket_servers: Seq<String>) -> Seq<
    (String, String),
> {
    Seq::new(
        if rpc_servers.len() < websocket_servers.len() {
            rpc_servers.len()
        } else {
            websocket_servers.len()
        },
        |i: int| (rpc_servers[i], websocket_servers[i]),
    )
}

/// Pairs each server for requests with the one for subscriptions; servers without a partner are
/// left out.
pub fn pair_servers(rpc_servers: &Vec<String>, websocket_servers: &Vec<String>) -> (servers: Vec<
    (String, String),
>)
    ensures
        servers@ == paired(rpc_servers@, websocket_servers@),
{
    let mut servers: Vec<(String, String)> = Vec::new();
    let mut i: usize = 0;
    while i < rpc_servers.len() && i < websocket_servers.len()
        invariant
            i <= rpc_servers@.len(),
            i <= websocket_servers@.len(),
            servers@ == paired(
                rpc_servers@.take(i as int),
                websocket_servers@.take(i as int),
            ),
        decreases rpc_servers.len() - i,
    {
        servers.push((rpc_servers[i].clone(), websocket_servers[i].clone()));
        i += 1;
        assert(servers@ =~= paired(
            rpc_servers@.take(i as int),
            websocket_servers@.take(i as int),
        ));
    }
    assert(servers@ =~= paired(rpc_servers@, websocket_servers@));
    servers
}

/// The servers stand in pairs as long as both lists go: each pair holds the servers of one place, and no
/// place of both lists is left out.
pub proof fn law_servers_are_paired_by_place(rpc_servers: Seq<String>, websocket_servers: Seq<String>)
    ensures
        ({
            let servers = paired(rpc_servers, websocket_servers);
            &&& servers.len() <= rpc_servers.len()
            &&& servers.len() <= websocket_servers.len()
            &&& servers.len() == rpc_servers.len() || servers.len() == websocket_servers.len()
            &&& forall|i: int|
                0 <= i < servers.len() ==> (#[trigger] servers[i]).0 == rpc_servers[i] && servers[i].1
                    == websocket_servers[i]
        }),
{
}

} // verus!
