//! Routing of one OSC message to the rules it drives. Turning the value into
//! an intensity is the rule mode's business; what is decided here is which
//! rules a message reaches, in rule order.

use crate::osc_haptics::config::HapticRule;
use crate::text::same_text;
use vstd::prelude::*;

verus! {

/// The addresses of `rules`, in order.
pub open spec fn rule_addresses<M>(rules: Seq<HapticRule<M>>) -> Seq<Seq<char>> {
    rules.map_values(|r: HapticRule<M>| r.osc_address@)
}

/// Positions, in increasing order, of the entries of `addrs` equal to
/// `address`.
pub open spec fn matching_indices(addrs: Seq<Seq<char>>, address: Seq<char>) -> Seq<int>
    decreases addrs.len(),
{
    if addrs.len() == 0 {
        seq![]
    } else {
        let rest = matching_indices(addrs.drop_last(), address);
        if addrs.last() == address {
            rest.push(addrs.len() - 1)
        } else {
            rest
        }
    }
}

/// Indices of every rule whose address is exactly `address`, in rule order.
/// One address may drive several devices.
pub fn matching_rules<M>(rules: &[HapticRule<M>], address: &str) -> (r: Vec<usize>)
    ensures
        r@.map_values(|i: usize| i as int) == matching_indices(rule_addresses(rules@), address@),
{
    let mut out: Vec<usize> = Vec::new();
    let mut k: usize = 0;
    while k < rules.len()
        invariant
            k <= rules@.len(),
            out@.map_values(|i: usize| i as int) == matching_indices(
                rule_addresses(rules@.take(k as int)),
                address@,
            ),
        decreases rules@.len() - k,
    {
        let ghost before = out@;
        let ghost addrs = rule_addresses(rules@.take(k + 1));
        assert(rules@.take(k + 1).drop_last() =~= rules@.take(k as int));
        assert(addrs.drop_last() =~= rule_addresses(rules@.take(k as int)));
        assert(addrs.last() == rules@[k as int].osc_address@);
        if same_text(rules[k].osc_address.as_str(), address) {
            out.push(k);
            assert(out@.map_values(|i: usize| i as int) =~= before.map_values(|i: usize| i as int).push(
                k as int,
            ));
        }
        k = k + 1;
    }
    assert(rules@.take(k as int) =~= rules@);
    out
}

/// Every matching index names a rule with that address, and every rule with
/// that address is matched.
pub proof fn lemma_matching_indices_exact(addrs: Seq<Seq<char>>, address: Seq<char>, i: int)
    ensures
        matching_indices(addrs, address).contains(i) <==> (0 <= i < addrs.len() && addrs[i]
            == address),
    decreases addrs.len(),
{
    if addrs.len() > 0 {
        lemma_matching_indices_exact(addrs.drop_last(), address, i);
        let rest = matching_indices(addrs.drop_last(), address);
        if addrs.last() == address {
            if i == addrs.len() - 1 {
                assert(rest.push(i)[rest.len() as int] == i);
            } else {
                assert(rest.push(addrs.len() - 1).contains(i) <==> rest.contains(i)) by {
                        let ext = rest.push(addrs.len() - 1);
                    if ext.contains(i) {
                        let j = choose|j: int| 0 <= j < ext.len() && ext[j] == i;
                        assert(j < rest.len());
                        assert(rest[j] == i);
                    }
                    if rest.contains(i) {
                        let j = choose|j: int| 0 <= j < rest.len() && rest[j] == i;
                        assert(rest.push(addrs.len() - 1)[j] == i);
                    }
                }
            }
        }
    }
}

/// Matches come out in rule order, each rule at most once.
pub proof fn lemma_matching_indices_increasing(addrs: Seq<Seq<char>>, address: Seq<char>)
    ensures
        forall|a: int, b: int|
            0 <= a < b < matching_indices(addrs, address).len() ==> #[trigger] matching_indices(
                addrs,
                address,
            )[a] < #[trigger] matching_indices(addrs, address)[b],
        forall|a: int|
            0 <= a < matching_indices(addrs, address).len() ==> 0 <= #[trigger] matching_indices(
                addrs,
                address,
            )[a] < addrs.len(),
    decreases addrs.len(),
{
    if addrs.len() > 0 {
        let init = addrs.drop_last();
        lemma_matching_indices_increasing(init, address);
        let rest = matching_indices(init, address);
        let m = matching_indices(addrs, address);
        if addrs.last() == address {
            assert(m == rest.push(addrs.len() - 1));
            assert forall|a: int| 0 <= a < m.len() implies 0 <= #[trigger] m[a] < addrs.len() by {
                if a < rest.len() {
                    assert(m[a] == rest[a]);
                }
            }
            assert forall|a: int, b: int| 0 <= a < b < m.len() implies #[trigger] m[a] < #[trigger] m[b] by {
                assert(m[a] == rest[a]);
                if b < rest.len() {
                    assert(m[b] == rest[b]);
                }
            }
        } else {
            assert(m == rest);
        }
    }
}

} // verus!
