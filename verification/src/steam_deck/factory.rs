//! Steam Deck device factory: identity derivation, listing of paired
//! controllers, and the bookkeeping of the enumeration loop. Talking to
//! hidapi and to the device channel is the application's part; it hands
//! the interface descriptions in and performs what is decided here.

use crate::steam_deck::ids::{is_gamepad_interface, spec_is_gamepad_interface};
use crate::text::same_text;
use vstd::prelude::*;

verus! {

/// FNV-1a 64-bit offset basis.
pub const FNV_OFFSET: u64 = 0xcbf29ce484222325;

/// FNV-1a 64-bit prime.
pub const FNV_PRIME: u64 = 0x00000100000001b3;

/// FNV-1a 64-bit hash of `bytes`: for each byte, xor it in, then multiply by
/// the prime modulo 2^64.
pub open spec fn spec_fnv1a_64(bytes: Seq<u8>) -> u64
    decreases bytes.len(),
{
    if bytes.len() == 0 {
        FNV_OFFSET
    } else {
        (spec_fnv1a_64(bytes.drop_last()) ^ (bytes.last() as u64)).wrapping_mul(FNV_PRIME)
    }
}

pub fn fnv1a_64(bytes: &[u8]) -> (h: u64)
    ensures
        h == spec_fnv1a_64(bytes@),
{
    let mut hash: u64 = FNV_OFFSET;
    let mut i: usize = 0;
    assert(bytes@.take(0) =~= Seq::<u8>::empty());
    while i < bytes.len()
        invariant
            i <= bytes@.len(),
            hash == spec_fnv1a_64(bytes@.take(i as int)),
        decreases bytes@.len() - i,
    {
        assert(bytes@.take(i + 1).drop_last() =~= bytes@.take(i as int));
        hash = hash ^ (bytes[i] as u64);
        hash = hash.wrapping_mul(FNV_PRIME);
        i = i + 1;
    }
    assert(bytes@.take(i as int) =~= bytes@);
    hash
}

/// The MAC a Deck with serial `serial` gets: a locally-administered unicast
/// prefix `02`, Valve's `28:DE` marker, and the three low bytes (little
/// endian) of the FNV-1a hash of the serial's UTF-8 bytes.
pub open spec fn spec_mac_from_serial(serial: Seq<char>) -> Seq<u8> {
    let h = spec_fnv1a_64(vstd::utf8::encode_utf8(serial));
    seq![
        0x02u8,
        0x28u8,
        0xDEu8,
        (h % 0x100) as u8,
        ((h / 0x100) % 0x100) as u8,
        ((h / 0x1_0000) % 0x100) as u8,
    ]
}

/// Stable MAC for a Deck, derived from its serial.
pub fn mac_from_serial(serial: &str) -> (mac: [u8; 6])
    ensures
        mac@ == spec_mac_from_serial(serial@),
{
    let h = fnv1a_64(serial.as_bytes());
    let b0 = (h & 0xFF) as u8;
    let b1 = ((h >> 8) & 0xFF) as u8;
    let b2 = ((h >> 16) & 0xFF) as u8;
    assert(h & 0xFF == h % 0x100 && (h >> 8) & 0xFF == (h / 0x100) % 0x100 && (h >> 16) & 0xFF == (h
        / 0x1_0000) % 0x100) by (bit_vector);
    let mac = [0x02, 0x28, 0xDE, b0, b1, b2];
    assert(mac@ =~= spec_mac_from_serial(serial@));
    mac
}

/// Every derived MAC is a locally-administered unicast address carrying
/// Valve's `28:DE` marker.
pub proof fn lemma_mac_marked(serial: Seq<char>)
    ensures
        spec_mac_from_serial(serial).len() == 6,
        spec_mac_from_serial(serial)[0] & 0x02 == 0x02,
        spec_mac_from_serial(serial)[0] & 0x01 == 0,
        spec_mac_from_serial(serial)[1] == 0x28,
        spec_mac_from_serial(serial)[2] == 0xDE,
{
    assert(0x02u8 & 0x02 == 0x02 && 0x02u8 & 0x01 == 0) by (bit_vector);
}

/// Where the factory gets its devices from.
#[derive(Debug, Clone, Copy, PartialEq, Eq)]
pub enum FactoryMode {
    /// Real hardware, found through hidapi.
    Real,
    /// `count` synthetic Decks emitting a deterministic sample stream.
    Synthetic { count: u8 },
}

pub struct SteamDeckFactory {
    mode: FactoryMode,
}

impl SteamDeckFactory {
    /// Where this factory gets its devices from.
    pub closed spec fn spec_mode(&self) -> FactoryMode {
        self.mode
    }

    pub fn new() -> (f: Self)
        ensures
            f.spec_mode() == FactoryMode::Real,
    {
        Self { mode: FactoryMode::Real }
    }

    pub fn real_devices() -> (f: Self)
        ensures
            f.spec_mode() == FactoryMode::Real,
    {
        Self::new()
    }

    pub fn synthetic(count: u8) -> (f: Self)
        ensures
            f.spec_mode() == (FactoryMode::Synthetic { count }),
    {
        Self { mode: FactoryMode::Synthetic { count } }
    }

    pub fn mode(&self) -> (m: FactoryMode)
        ensures
            m == self.spec_mode(),
    {
        self.mode
    }
}

impl Default for SteamDeckFactory {
    fn default() -> (f: Self)
        ensures
            f.spec_mode() == FactoryMode::Real,
    {
        Self::new()
    }
}

/// What hidapi reports of one HID interface, as plain values. `path` is the
/// device path as the application renders it.
#[derive(Debug, Clone)]
pub struct HidInterfaceInfo {
    pub vendor_id: u16,
    pub product_id: u16,
    pub usage_page: u16,
    pub usage: u16,
    pub serial_number: Option<String>,
    pub path: String,
}

/// A Deck gamepad interface that is present.
#[derive(Debug, Clone)]
pub struct PairedSteamDeck {
    pub serial: String,
    pub path: String,
    pub mac: [u8; 6],
}

/// The serial of an interface; an interface without one has the empty serial.
pub open spec fn serial_of(info: HidInterfaceInfo) -> Seq<char> {
    match info.serial_number {
        Some(s) => s@,
        None => Seq::empty(),
    }
}

/// `info` is a Deck gamepad interface.
pub open spec fn is_deck_gamepad(info: HidInterfaceInfo) -> bool {
    spec_is_gamepad_interface(info.vendor_id, info.product_id, info.usage_page, info.usage)
}

/// `d` is the listing entry for interface `info`.
pub open spec fn lists(d: PairedSteamDeck, info: HidInterfaceInfo) -> bool {
    &&& d.serial@ == serial_of(info)
    &&& d.path@ == info.path@
    &&& d.mac@ == spec_mac_from_serial(serial_of(info))
}

impl SteamDeckFactory {
    /// The Deck gamepad interfaces among `infos`, in order, with their
    /// serial, path and derived MAC; every other interface is skipped.
    pub fn list_paired(infos: &[HidInterfaceInfo]) -> (out: Vec<PairedSteamDeck>)
        ensures
            out@.len() == infos@.filter(|i: HidInterfaceInfo| is_deck_gamepad(i)).len(),
            forall|k: int|
                0 <= k < out@.len() ==> lists(
                    #[trigger] out@[k],
                    infos@.filter(|i: HidInterfaceInfo| is_deck_gamepad(i))[k],
                ),
    {
        let ghost pred = |i: HidInterfaceInfo| is_deck_gamepad(i);
        let mut out: Vec<PairedSteamDeck> = Vec::new();
        let mut k: usize = 0;
        while k < infos.len()
            invariant
                k <= infos@.len(),
                pred == (|i: HidInterfaceInfo| is_deck_gamepad(i)),
                out@.len() == infos@.take(k as int).filter(pred).len(),
                forall|j: int|
                    0 <= j < out@.len() ==> lists(
                        #[trigger] out@[j],
                        infos@.take(k as int).filter(pred)[j],
                    ),
            decreases infos@.len() - k,
        {
            let info = &infos[k];
            assert(infos@.take(k + 1) =~= infos@.take(k as int).push(infos@[k as int]));
            proof {
                infos@.take(k as int).lemma_filter_push(infos@[k as int], pred);
            }
            if is_gamepad_interface(info.vendor_id, info.product_id, info.usage_page, info.usage) {
                let serial = match &info.serial_number {
                    Some(s) => s.clone(),
                    None => String::new(),
                };
                let mac = mac_from_serial(serial.as_str());
                let entry = PairedSteamDeck { serial, path: info.path.clone(), mac };
                out.push(entry);
            }
            k = k + 1;
        }
        assert(infos@.take(k as int) =~= infos@);
        out
    }
}

} // verus!

verus! {

/// The text of each key, in order.
pub open spec fn key_texts(keys: Seq<String>) -> Seq<Seq<char>> {
    keys.map_values(|k: String| k@)
}

proof fn lemma_push_contains(s: Seq<Seq<char>>, a: Seq<char>, x: Seq<char>)
    ensures
        s.push(a).contains(x) <==> (s.contains(x) || x == a),
{
    if s.push(a).contains(x) {
        let j = choose|j: int| 0 <= j < s.push(a).len() && s.push(a)[j] == x;
        if j < s.len() {
            assert(s[j] == x);
        }
    }
    if s.contains(x) {
        let j = choose|j: int| 0 <= j < s.len() && s[j] == x;
        assert(s.push(a)[j] == x);
    }
    if x == a {
        assert(s.push(a)[s.len() as int] == x);
    }
}

/// Keys of the interfaces the enumeration loop has already handed out.
///
/// Each poll first keeps only the keys of interfaces still present; a key
/// inserted for the first time means the interface is new and should be
/// opened; a key whose interface failed to open is forgotten so that a later
/// entry of the same poll, or the next poll, tries it again.
///
/// The keys are held in a `Vec` rather than a hash set: only a handful of
/// interfaces are present at a time, and the type invariant keeps every key
/// in it once.
pub struct KnownDevices {
    keys: Vec<String>,
}

impl KnownDevices {
    /// No key is held twice.
    #[verifier::type_invariant]
    spec fn keys_distinct(self) -> bool {
        key_texts(self.keys@).no_duplicates()
    }

    /// The set of known keys.
    pub closed spec fn known(&self) -> Set<Seq<char>> {
        key_texts(self.keys@).to_set()
    }

    pub fn new() -> (k: Self)
        ensures
            k.known() == Set::<Seq<char>>::empty(),
    {
        let k = Self { keys: Vec::new() };
        assert(k.known() =~= Set::<Seq<char>>::empty());
        k
    }

    /// Whether `key` is known.
    pub fn contains(&self, key: &str) -> (b: bool)
        ensures
            b == self.known().contains(key@),
    {
        let mut i: usize = 0;
        while i < self.keys.len()
            invariant
                i <= self.keys@.len(),
                forall|j: int| 0 <= j < i ==> self.keys@[j]@ != key@,
            decreases self.keys@.len() - i,
        {
            if same_text(self.keys[i].as_str(), key) {
                assert(key_texts(self.keys@)[i as int] == key@);
                return true;
            }
            i = i + 1;
        }
        assert(!key_texts(self.keys@).contains(key@)) by {
            if key_texts(self.keys@).contains(key@) {
                let j = choose|j: int|
                    0 <= j < key_texts(self.keys@).len() && key_texts(self.keys@)[j] == key@;
                assert(self.keys@[j]@ == key@);
            }
        }
        false
    }

    /// Record `key`; returns true when it was not known before (as
    /// `HashSet::insert`).
    pub fn insert(&mut self, key: &str) -> (inserted: bool)
        ensures
            inserted == !old(self).known().contains(key@),
            final(self).known() == old(self).known().insert(key@),
    {
        if self.contains(key) {
            assert(self.known() =~= self.known().insert(key@));
            return false;
        }
        proof {
            use_type_invariant(&*self);
        }
        let ghost before = key_texts(self.keys@);
        let mut keys: Vec<String> = Vec::new();
        std::mem::swap(&mut keys, &mut self.keys);
        keys.push(key.to_owned());
        assert(key_texts(keys@) =~= before.push(key@));
        assert(key_texts(keys@).no_duplicates()) by {
            assert forall|i: int, j: int|
                0 <= i < j < key_texts(keys@).len() implies key_texts(keys@)[i] != key_texts(
                keys@,
            )[j] by {
                if j == before.len() {
                    assert(before[i] == key_texts(keys@)[i]);
                    assert(before.contains(before[i]));
                }
            }
        }
        self.keys = keys;
        assert forall|x: Seq<char>| #[trigger] self.known().contains(x) <==> old(self).known().insert(
            key@,
        ).contains(x) by {
            lemma_push_contains(before, key@, x);
        }
        assert(self.known() =~= old(self).known().insert(key@));
        true
    }

    /// Keep only the keys accepted by `keep`, the rest dropped.
    fn retain_where(
        &mut self,
        Ghost(keep): Ghost<spec_fn(Seq<char>) -> bool>,
        present: &[String],
        drop: &str,
        by_presence: bool,
    )
        requires
            by_presence ==> keep == (|x: Seq<char>| key_texts(present@).contains(x)),
            !by_presence ==> keep == (|x: Seq<char>| x != drop@),
        ensures
            final(self).known() == old(self).known().filter(keep),
    {
        proof {
            use_type_invariant(&*self);
        }
        let ghost old_keys = key_texts(self.keys@);
        let mut kept: Vec<String> = Vec::new();
        let mut i: usize = 0;
        while i < self.keys.len()
            invariant
                i <= self.keys@.len(),
                old_keys == key_texts(self.keys@),
                old_keys.no_duplicates(),
                key_texts(kept@).no_duplicates(),
                by_presence ==> keep == (|x: Seq<char>| key_texts(present@).contains(x)),
                !by_presence ==> keep == (|x: Seq<char>| x != drop@),
                forall|x: Seq<char>|
                    key_texts(kept@).contains(x) <==> (old_keys.take(i as int).contains(x) && keep(
                        x,
                    )),
            decreases self.keys@.len() - i,
        {
            let k = &self.keys[i];
            let stays = if by_presence {
                let mut found = false;
                let mut j: usize = 0;
                while j < present.len()
                    invariant
                        j <= present@.len(),
                        found <==> key_texts(present@).take(j as int).contains(k@),
                    decreases present@.len() - j,
                {
                    let ghost pre = key_texts(present@).take(j as int);
                    assert(key_texts(present@).take(j + 1) =~= pre.push(present@[j as int]@));
                    proof {
                        lemma_push_contains(pre, present@[j as int]@, k@);
                    }
                    if !found && same_text(present[j].as_str(), k.as_str()) {
                        found = true;
                    }
                    j = j + 1;
                }
                assert(key_texts(present@).take(j as int) =~= key_texts(present@));
                found
            } else {
                !same_text(k.as_str(), drop)
            };
            assert(stays == keep(k@));
            let ghost before = key_texts(kept@);
            assert(old_keys.take(i + 1) =~= old_keys.take(i as int).push(k@));
            assert(!old_keys.take(i as int).contains(k@)) by {
                if old_keys.take(i as int).contains(k@) {
                    let j = choose|j: int|
                        0 <= j < old_keys.take(i as int).len() && old_keys.take(i as int)[j] == k@;
                    assert(old_keys[j] == old_keys[i as int]);
                }
            }
            if stays {
                kept.push(k.clone());
                assert(key_texts(kept@) =~= before.push(k@));
                assert(!before.contains(k@));
                assert forall|a: int, b: int|
                    0 <= a < b < key_texts(kept@).len() implies key_texts(kept@)[a] != key_texts(
                    kept@,
                )[b] by {
                    if b == before.len() {
                        assert(before[a] == key_texts(kept@)[a]);
                        assert(before.contains(before[a]));
                    }
                }
            }
            assert forall|x: Seq<char>|
                key_texts(kept@).contains(x) <==> (old_keys.take(i + 1).contains(x) && keep(x)) by {
                lemma_push_contains(old_keys.take(i as int), k@, x);
                if stays {
                    lemma_push_contains(before, k@, x);
                }
            }
            i = i + 1;
        }
        assert(old_keys.take(i as int) =~= old_keys);
        self.keys = kept;
        assert(self.known() =~= old(self).known().filter(keep));
    }

    /// One entry of a poll: the interface with key `key` was opened
    /// (`opened`) or failed to open. An unknown key whose interface opened
    /// becomes known and is handed out (returns true); a known key, or one
    /// whose open failed, leaves the known keys unchanged, so a failed key is
    /// tried again by a later entry or poll.
    pub fn handle_entry(&mut self, key: &str, opened: bool) -> (sent: bool)
        ensures
            final(self).known() == after_entry(old(self).known(), key@, opened),
            sent == entry_sent(old(self).known(), key@, opened),
    {
        let fresh = self.insert(key);
        if !fresh {
            assert(self.known() =~= old(self).known());
        }
        if fresh && !opened {
            self.forget(key);
        }
        fresh && opened
    }

    /// Forget `key`, so that the next poll treats its interface as new.
    pub fn forget(&mut self, key: &str)
        ensures
            final(self).known() == old(self).known().remove(key@),
    {
        let ghost keep = |x: Seq<char>| x != key@;
        let empty: Vec<String> = Vec::new();
        self.retain_where(Ghost(keep), empty.as_slice(), key, false);
        assert(self.known() =~= old(self).known().remove(key@));
    }

    /// Keep only the keys that are among `present`.
    pub fn retain_present(&mut self, present: &[String])
        ensures
            final(self).known() == old(self).known().intersect(key_texts(present@).to_set()),
    {
        let ghost keep = |x: Seq<char>| key_texts(present@).contains(x);
        self.retain_where(Ghost(keep), present, "", true);
        assert(self.known() =~= old(self).known().intersect(key_texts(present@).to_set()));
    }
}

} // verus!

verus! {

/// What the enumeration loop does with one entry `key` of a poll, given
/// whether opening it succeeds (as [`KnownDevices::handle_entry`] does): an
/// unknown key is inserted and its interface opened; on a failed open the
/// key is forgotten again. Returns the known keys afterwards.
pub open spec fn after_entry(known: Set<Seq<char>>, key: Seq<char>, opened: bool) -> Set<
    Seq<char>,
> {
    if !known.contains(key) {
        if opened {
            known.insert(key)
        } else {
            known.insert(key).remove(key)
        }
    } else {
        known
    }
}

/// The entry is handed out: its key was unknown and its interface opened.
pub open spec fn entry_sent(known: Set<Seq<char>>, key: Seq<char>, opened: bool) -> bool {
    !known.contains(key) && opened
}

/// Known keys after the entries `keys` of a poll, in order, with open
/// outcomes `opened`, starting from `known`.
pub open spec fn after_entries(known: Set<Seq<char>>, keys: Seq<Seq<char>>, opened: Seq<bool>) -> Set<
    Seq<char>,
>
    decreases keys.len(),
{
    if keys.len() == 0 {
        known
    } else {
        after_entry(
            after_entries(known, keys.drop_last(), opened),
            keys.last(),
            opened[keys.len() - 1],
        )
    }
}

/// Known keys before the entries of a poll: those still present.
pub open spec fn poll_start(known: Set<Seq<char>>, keys: Seq<Seq<char>>) -> Set<Seq<char>> {
    known.intersect(keys.to_set())
}

/// Known keys after a whole poll over present entries `keys`.
pub open spec fn after_poll(known: Set<Seq<char>>, keys: Seq<Seq<char>>, opened: Seq<bool>) -> Set<
    Seq<char>,
> {
    after_entries(poll_start(known, keys), keys, opened)
}

/// Entry `i` of a poll is handed out.
pub open spec fn sent_in_poll(
    known: Set<Seq<char>>,
    keys: Seq<Seq<char>>,
    opened: Seq<bool>,
    i: int,
) -> bool {
    entry_sent(
        after_entries(poll_start(known, keys), keys.take(i), opened),
        keys[i],
        opened[i],
    )
}

/// During a poll a key becomes known exactly when one of its entries so far
/// opened (or it was known at the start).
proof fn lemma_after_entries_contains(
    start: Set<Seq<char>>,
    keys: Seq<Seq<char>>,
    opened: Seq<bool>,
    x: Seq<char>,
)
    requires
        opened.len() >= keys.len(),
    ensures
        after_entries(start, keys, opened).contains(x) <==> (start.contains(x) || exists|j: int|
            0 <= j < keys.len() && keys[j] == x && opened[j]),
    decreases keys.len(),
{
    if keys.len() > 0 {
        let init = keys.drop_last();
        lemma_after_entries_contains(start, init, opened, x);
        if exists|j: int| 0 <= j < init.len() && init[j] == x && opened[j] {
            let j = choose|j: int| 0 <= j < init.len() && init[j] == x && opened[j];
            assert(keys[j] == x);
        }
        if exists|j: int| 0 <= j < keys.len() && keys[j] == x && opened[j] {
            let j = choose|j: int| 0 <= j < keys.len() && keys[j] == x && opened[j];
            if j < init.len() {
                assert(init[j] == x);
            }
        }
    }
}

proof fn lemma_take_prefix(keys: Seq<Seq<char>>, i: int, j: int)
    requires
        0 <= j < i <= keys.len(),
    ensures
        keys.take(i)[j] == keys[j],
        keys.take(i).len() == i,
{
}

/// Within one poll a key is handed out at most once.
pub proof fn lemma_sent_once_per_poll(
    known: Set<Seq<char>>,
    keys: Seq<Seq<char>>,
    opened: Seq<bool>,
    i: int,
    j: int,
)
    requires
        opened.len() == keys.len(),
        0 <= i < j < keys.len(),
        keys[i] == keys[j],
        sent_in_poll(known, keys, opened, i),
    ensures
        !sent_in_poll(known, keys, opened, j),
{
    let start = poll_start(known, keys);
    lemma_after_entries_contains(start, keys.take(j), opened, keys[j]);
    lemma_take_prefix(keys, j, i);
}

/// A key known at the start of a poll and still present is not handed out
/// again: a device is handed out once for as long as it stays present.
pub proof fn lemma_known_present_not_resent(
    known: Set<Seq<char>>,
    keys: Seq<Seq<char>>,
    opened: Seq<bool>,
    i: int,
)
    requires
        opened.len() == keys.len(),
        0 <= i < keys.len(),
        known.contains(keys[i]),
    ensures
        !sent_in_poll(known, keys, opened, i),
{
    assert(keys.to_set().contains(keys[i]));
    lemma_after_entries_contains(poll_start(known, keys), keys.take(i), opened, keys[i]);
}

/// After a poll, a key is known exactly when it is present and was either
/// known before or had one of its entries opened.
pub proof fn lemma_after_poll_contains(
    known: Set<Seq<char>>,
    keys: Seq<Seq<char>>,
    opened: Seq<bool>,
    x: Seq<char>,
)
    requires
        opened.len() == keys.len(),
    ensures
        after_poll(known, keys, opened).contains(x) <==> (keys.contains(x) && (known.contains(x)
            || exists|j: int| 0 <= j < keys.len() && keys[j] == x && opened[j])),
{
    lemma_after_entries_contains(poll_start(known, keys), keys, opened, x);
    if exists|j: int| 0 <= j < keys.len() && keys[j] == x && opened[j] {
        let j = choose|j: int| 0 <= j < keys.len() && keys[j] == x && opened[j];
        assert(keys.contains(x));
    }
}

/// An unknown key is handed out at the first of its entries in a poll whose
/// open succeeds; entries of the same key whose open failed before it do
/// not stop it.
pub proof fn lemma_first_successful_open_sent(
    known: Set<Seq<char>>,
    keys: Seq<Seq<char>>,
    opened: Seq<bool>,
    i: int,
)
    requires
        opened.len() == keys.len(),
        0 <= i < keys.len(),
        !known.contains(keys[i]),
        opened[i],
        forall|j: int| 0 <= j < i && keys[j] == keys[i] ==> !opened[j],
    ensures
        sent_in_poll(known, keys, opened, i),
{
    lemma_after_entries_contains(poll_start(known, keys), keys.take(i), opened, keys[i]);
    if exists|j: int| 0 <= j < keys.take(i).len() && keys.take(i)[j] == keys[i] && opened[j] {
        let j = choose|j: int| 0 <= j < keys.take(i).len() && keys.take(i)[j] == keys[i] && opened[j];
        lemma_take_prefix(keys, i, j);
    }
}

/// A failed open leaves the known keys as they were: `insert` followed by
/// `forget` of a key that was not known.
pub proof fn lemma_failed_open_restores(known: Set<Seq<char>>, key: Seq<char>)
    requires
        !known.contains(key),
    ensures
        known.insert(key).remove(key) == known,
{
    assert(known.insert(key).remove(key) =~= known);
}

} // verus!

verus! {

/// FNV-1a starts from the offset basis and folds in every byte, whatever the
/// length: appending byte `b` xors it into the hash and multiplies by the
/// prime modulo 2^64.
pub proof fn lemma_fnv1a_step(bytes: Seq<u8>, b: u8)
    ensures
        spec_fnv1a_64(Seq::<u8>::empty()) == FNV_OFFSET,
        spec_fnv1a_64(bytes.push(b)) == (spec_fnv1a_64(bytes) ^ (b as u64)).wrapping_mul(
            FNV_PRIME,
        ),
{
    assert(bytes.push(b).drop_last() =~= bytes);
}

/// Every byte of the serial reaches the MAC: the MAC of a serial is the
/// Valve-marked prefix followed by the three low bytes of the FNV-1a hash of
/// the serial's whole UTF-8 encoding.
pub proof fn lemma_mac_uses_whole_serial(serial: Seq<char>)
    ensures
        ({
            let h = spec_fnv1a_64(vstd::utf8::encode_utf8(serial));
            &&& spec_mac_from_serial(serial)[3] == h % 0x100
            &&& spec_mac_from_serial(serial)[4] == (h / 0x100) % 0x100
            &&& spec_mac_from_serial(serial)[5] == (h / 0x1_0000) % 0x100
        }),
{
}

} // verus!
