//! Synthetic OSC dispatch — the routing path a packet takes at arrival,
//! without a socket. The input address is normalised first, so a bare
//! parameter name and a full OSC path reach the same rules.

use crate::osc_haptics::config::{spec_normalize_address, normalize_address, HapticConfig, HapticRule};
use crate::osc_haptics::mapping::{matching_indices, matching_rules, rule_addresses};
use vstd::prelude::*;

verus! {

/// Outcome of a simulated dispatch.
#[derive(Debug, Clone, PartialEq)]
pub struct TestFireOutcome<A> {
    /// Address that was actually used for matching (after normalisation).
    pub normalised_address: String,
    /// Actions every matching rule produced.
    pub actions: Vec<A>,
}

impl<A> TestFireOutcome<A> {
    pub fn matched(&self) -> (b: bool)
        ensures
            b == (self.actions@.len() > 0),
    {
        self.actions.len() > 0
    }
}

/// Where a simulated packet goes: the normalised address and the indices of
/// the rules it reaches, in rule order.
#[derive(Debug, Clone, PartialEq)]
pub struct DispatchRoute {
    pub normalised_address: String,
    pub rule_indices: Vec<usize>,
}

/// The rules that a packet to `address` reaches once the address is
/// normalised; an address that normalises to nothing reaches none.
pub open spec fn spec_route(addrs: Seq<Seq<char>>, address: Seq<char>) -> Seq<int> {
    let normalised = spec_normalize_address(address);
    if normalised.len() == 0 {
        seq![]
    } else {
        matching_indices(addrs, normalised)
    }
}

/// Route one simulated packet with the given address against `rules`.
pub fn route_dispatch<M>(rules: &[HapticRule<M>], address: &str) -> (r: DispatchRoute)
    ensures
        r.normalised_address@ == spec_normalize_address(address@),
        r.rule_indices@.map_values(|i: usize| i as int) == spec_route(
            rule_addresses(rules@),
            address@,
        ),
{
    let normalised = normalize_address(address);
    let rule_indices = if normalised.as_str().is_empty() {
        let v: Vec<usize> = Vec::new();
        assert(v@.map_values(|i: usize| i as int) =~= Seq::<int>::empty());
        v
    } else {
        matching_rules(rules, normalised.as_str())
    };
    DispatchRoute { normalised_address: normalised, rule_indices }
}

/// [`route_dispatch`] against the rules of a whole configuration.
pub fn route_against_config<M>(config: &HapticConfig<M>, address: &str) -> (r: DispatchRoute)
    ensures
        r.normalised_address@ == spec_normalize_address(address@),
        r.rule_indices@.map_values(|i: usize| i as int) == spec_route(
            rule_addresses(config.rules@),
            address@,
        ),
{
    route_dispatch(config.rules.as_slice(), address)
}

} // verus!

verus! {

/// A packet reaches every rule whose address equals its normalised address,
/// and no other; an address that normalises to nothing reaches no rule. The
/// reached rules come in rule order, each once.
pub proof fn lemma_route_reaches_every_match(addrs: Seq<Seq<char>>, address: Seq<char>, i: int)
    ensures
        spec_route(addrs, address).contains(i) <==> (spec_normalize_address(address).len() > 0
            && 0 <= i < addrs.len() && addrs[i] == spec_normalize_address(address)),
        forall|a: int, b: int|
            0 <= a < b < spec_route(addrs, address).len() ==> #[trigger] spec_route(
                addrs,
                address,
            )[a] < #[trigger] spec_route(addrs, address)[b],
{
    let n = spec_normalize_address(address);
    if n.len() > 0 {
        crate::osc_haptics::mapping::lemma_matching_indices_exact(addrs, n, i);
        crate::osc_haptics::mapping::lemma_matching_indices_increasing(addrs, n);
    }
}

/// The addresses `rule_addresses` lists are the rules' own addresses.
pub proof fn lemma_rule_addresses<M>(rules: Seq<HapticRule<M>>, i: int)
    requires
        0 <= i < rules.len(),
    ensures
        rule_addresses(rules).len() == rules.len(),
        rule_addresses(rules)[i] == rules[i].osc_address@,
{
}

} // verus!
