//! Haptic bridge configuration — the address→device mapping.

use crate::text::{lemma_trim_ws_ends, lemma_trim_ws_fixed, trim, trim_ws};
use vstd::prelude::*;

verus! {

/// VRChat's default outgoing OSC port. The bridge binds here to receive
/// avatar parameter updates.
pub const DEFAULT_OSC_PORT: u16 = 9001;

/// Default VRChat avatar-parameter address prefix.
///
/// Users frequently type just the parameter name (`Haptics_Chest`);
/// [`normalize_address`] applies this prefix when the input lacks a
/// leading slash.
pub const VRCHAT_PARAM_PREFIX: &'static str = "/avatar/parameters/";

/// The characters of [`VRCHAT_PARAM_PREFIX`].
pub open spec fn vrchat_prefix() -> Seq<char> {
    seq![
        '/', 'a', 'v', 'a', 't', 'a', 'r', '/', 'p', 'a', 'r', 'a', 'm', 'e', 't', 'e', 'r', 's',
        '/',
    ]
}

/// A user-entered OSC address after normalisation: trimmed; empty stays
/// empty; a bare parameter name gets [`VRCHAT_PARAM_PREFIX`]; anything that
/// starts with `/` is kept verbatim.
pub open spec fn spec_normalize_address(raw: Seq<char>) -> Seq<char> {
    let t = trim_ws(raw);
    if t.len() == 0 {
        t
    } else if t[0] == '/' {
        t
    } else {
        vrchat_prefix() + t
    }
}

/// Normalise a user-entered OSC address.
///
/// - Empty / whitespace-only → empty string (caller may reject the rule).
/// - Bare parameter name without a leading `/` → prefixed with
///   [`VRCHAT_PARAM_PREFIX`].
/// - Starts with `/` → passed through verbatim (senders such as Resonite or
///   VirtualMotionCapture use their own roots).
pub fn normalize_address(raw: &str) -> (r: String)
    ensures
        r@ == spec_normalize_address(raw@),
{
    let trimmed = trim(raw);
    if trimmed.unicode_len() == 0 {
        return String::new();
    }
    if trimmed.get_char(0) == '/' {
        return trimmed.to_owned();
    }
    proof {
        reveal_strlit("/avatar/parameters/");
    }
    assert(VRCHAT_PARAM_PREFIX@ =~= vrchat_prefix());
    let mut out = VRCHAT_PARAM_PREFIX.to_owned();
    out.append(trimmed);
    out
}

/// Normalising an address twice gives the same address as normalising it
/// once.
pub proof fn lemma_normalize_idempotent(raw: Seq<char>)
    ensures
        spec_normalize_address(spec_normalize_address(raw)) == spec_normalize_address(raw),
{
    let t = trim_ws(raw);
    lemma_trim_ws_ends(raw);
    let n = spec_normalize_address(raw);
    if t.len() == 0 {
        lemma_trim_ws_fixed(n);
    } else if t[0] == '/' {
        lemma_trim_ws_fixed(t);
    } else {
        assert(n[0] == '/');
        assert(n.last() == t.last());
        lemma_trim_ws_fixed(n);
    }
}

/// The addresses of a rule list after every address is normalised.
pub open spec fn normalized_addresses(addrs: Seq<Seq<char>>) -> Seq<Seq<char>> {
    addrs.map_values(|a: Seq<char>| spec_normalize_address(a))
}

/// Normalising every rule of a configuration twice leaves the same
/// addresses as normalising once.
pub proof fn lemma_normalize_rules_idempotent(addrs: Seq<Seq<char>>)
    ensures
        normalized_addresses(normalized_addresses(addrs)) == normalized_addresses(addrs),
{
    assert forall|k: int| 0 <= k < addrs.len() implies #[trigger] normalized_addresses(
        normalized_addresses(addrs),
    )[k] == normalized_addresses(addrs)[k] by {
        lemma_normalize_idempotent(addrs[k]);
    }
    assert(normalized_addresses(normalized_addresses(addrs)) =~= normalized_addresses(addrs));
}

/// A normalised address is empty or starts with `/`.
pub proof fn lemma_normalized_is_rooted(raw: Seq<char>)
    ensures
        spec_normalize_address(raw).len() == 0 || spec_normalize_address(raw)[0] == '/',
{
}

/// One OSC-address → device binding; `mode` says how the parameter value
/// drives the device's motor.
#[derive(Debug, Clone, PartialEq)]
pub struct HapticRule<M> {
    /// Full OSC address, e.g. `/avatar/parameters/bHaptics_Vest_Front`.
    pub osc_address: String,
    /// Target device MAC (the same identity SlimeVR uses).
    pub device_mac: [u8; 6],
    pub mode: M,
}

impl<M> HapticRule<M> {
    /// Construct a rule, applying [`normalize_address`] to the address.
    pub fn new(osc_address: &str, device_mac: [u8; 6], mode: M) -> (r: Self)
        ensures
            r.osc_address@ == spec_normalize_address(osc_address@),
            r.device_mac == device_mac,
            r.mode == mode,
    {
        Self { osc_address: normalize_address(osc_address), device_mac, mode }
    }

    /// Re-normalise the address in place; idempotent.
    pub fn normalize(&mut self)
        ensures
            final(self).osc_address@ == spec_normalize_address(old(self).osc_address@),
            final(self).device_mac == old(self).device_mac,
            final(self).mode == old(self).mode,
    {
        let next = normalize_address(self.osc_address.as_str());
        self.osc_address = next;
    }
}

/// Full haptic bridge configuration.
#[derive(Debug, Clone, PartialEq)]
pub struct HapticConfig<M> {
    pub enabled: bool,
    pub listen_port: u16,
    pub rules: Vec<HapticRule<M>>,
}

impl<M> HapticConfig<M> {
    /// Normalise every rule's address in place, keeping order, devices and
    /// modes.
    pub fn normalize_rules(&mut self)
        ensures
            final(self).enabled == old(self).enabled,
            final(self).listen_port == old(self).listen_port,
            final(self).rules@.len() == old(self).rules@.len(),
            forall|k: int|
                0 <= k < old(self).rules@.len() ==> {
                    &&& (#[trigger] final(self).rules@[k]).osc_address@ == spec_normalize_address(
                        old(self).rules@[k].osc_address@,
                    )
                    &&& final(self).rules@[k].device_mac == old(self).rules@[k].device_mac
                    &&& final(self).rules@[k].mode == old(self).rules@[k].mode
                },
    {
        let n = self.rules.len();
        let mut k: usize = 0;
        while k < n
            invariant
                n == self.rules@.len(),
                n == old(self).rules@.len(),
                k <= n,
                self.enabled == old(self).enabled,
                self.listen_port == old(self).listen_port,
                forall|j: int|
                    0 <= j < k ==> {
                        &&& (#[trigger] self.rules@[j]).osc_address@ == spec_normalize_address(
                            old(self).rules@[j].osc_address@,
                        )
                        &&& self.rules@[j].device_mac == old(self).rules@[j].device_mac
                        &&& self.rules@[j].mode == old(self).rules@[j].mode
                    },
                forall|j: int| k <= j < n ==> #[trigger] self.rules@[j] == old(self).rules@[j],
            decreases n - k,
        {
            let next = normalize_address(self.rules[k].osc_address.as_str());
            self.rules[k].osc_address = next;
            k = k + 1;
        }
    }
}

impl<M> Default for HapticConfig<M> {
    fn default() -> (c: Self)
        ensures
            !c.enabled,
            c.listen_port == DEFAULT_OSC_PORT,
            c.rules@.len() == 0,
    {
        Self { enabled: false, listen_port: DEFAULT_OSC_PORT, rules: Vec::new() }
    }
}

} // verus!
