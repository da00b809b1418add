//! The run-scoped mapping store: the same value always maps to the
//! same index (correlation preservation) for the life of one anonymizer, and
//! distinct values get distinct indices.
//!
//! Every table lists values in first-seen order; a value's index is its
//! position (1-based for hosts, devices and pseudonyms, 0-based for subnet
//! labels, which are shared between IPv4 and IPv6).

use vstd::prelude::*;
use crate::recognizers::EntityType;

verus! {

/// A subnet: address family, network address, prefix length.
#[derive(Debug, Clone, Copy, PartialEq, Eq, Structural)]
pub struct SubnetKey {
    pub v6: bool,
    pub network: u128,
    pub prefix: u8,
}

/// An explicit prefix length for one address.
#[derive(Debug, Clone, Copy, PartialEq, Eq, Structural)]
pub struct PrefixHint {
    pub v6: bool,
    pub addr: u128,
    pub prefix: u8,
}

/// MAC device names seen under one OUI.
pub struct MacGroup {
    pub oui: String,
    pub macs: Vec<String>,
}

/// The characters of each string.
pub open spec fn names_view(v: Seq<String>) -> Seq<Seq<char>> {
    v.map_values(|s: String| s@)
}

/// Looks `x` up in a first-seen-order table, appending it when new: the
/// table afterwards and the 1-based position of `x` in it.
pub open spec fn intern_spec<T>(t: Seq<T>, x: T) -> (Seq<T>, nat) {
    if t.contains(x) {
        (t, (t.index_of(x) + 1) as nat)
    } else {
        (t.push(x), (t.len() + 1) as nat)
    }
}

/// Slot of each entity type in the pseudonym tables.
pub open spec fn entity_slot(e: EntityType) -> int {
    match e {
        EntityType::Ipv4 => 0,
        EntityType::Ipv6 => 1,
        EntityType::Mac => 2,
        EntityType::Guid => 3,
        EntityType::Email => 4,
        EntityType::Hostname => 5,
        EntityType::AzureResourceId => 6,
        EntityType::Secret => 7,
    }
}

fn slot_of(e: EntityType) -> (r: usize)
    ensures
        r == entity_slot(e),
{
    match e {
        EntityType::Ipv4 => 0,
        EntityType::Ipv6 => 1,
        EntityType::Mac => 2,
        EntityType::Guid => 3,
        EntityType::Email => 4,
        EntityType::Hostname => 5,
        EntityType::AzureResourceId => 6,
        EntityType::Secret => 7,
    }
}

/// The mathematical content of a [`MappingStore`].
#[verifier::ext_equal]
pub struct StoreView {
    /// Subnets in first-seen order; a subnet's label index is its position.
    pub subnets: Seq<SubnetKey>,
    /// For each subnet label, its host addresses in first-seen order.
    pub hosts: Seq<Seq<u128>>,
    /// Explicit prefix lengths, at most one per address.
    pub hints: Seq<PrefixHint>,
    /// For each entity slot, its pseudonymized values in first-seen order.
    pub pseudonyms: Seq<Seq<Seq<char>>>,
    /// MAC devices grouped by OUI, both in first-seen order.
    pub macs: Seq<(Seq<char>, Seq<Seq<char>>)>,
    /// Azure resource and resource-group names in first-seen order.
    pub azure_names: Seq<Seq<char>>,
}

/// A store that has seen nothing.
pub open spec fn empty_store() -> StoreView {
    StoreView {
        subnets: Seq::empty(),
        hosts: Seq::empty(),
        hints: Seq::empty(),
        pseudonyms: Seq::new(8, |k: int| Seq::<Seq<char>>::empty()),
        macs: Seq::empty(),
        azure_names: Seq::empty(),
    }
}

/// The address key of each hint.
pub open spec fn hint_keys(h: Seq<PrefixHint>) -> Seq<(bool, u128)> {
    h.map_values(|x: PrefixHint| (x.v6, x.addr))
}

/// The OUI of each MAC group.
pub open spec fn mac_ouis(m: Seq<(Seq<char>, Seq<Seq<char>>)>) -> Seq<Seq<char>> {
    m.map_values(|g: (Seq<char>, Seq<Seq<char>>)| g.0)
}

impl StoreView {
    /// Tables hold no duplicates, one host table per subnet, eight pseudonym
    /// slots, one group per OUI.
    pub open spec fn wf(self) -> bool {
        &&& self.subnets.no_duplicates()
        &&& self.hosts.len() == self.subnets.len()
        &&& forall|l: int| 0 <= l < self.hosts.len() ==> (#[trigger] self.hosts[l]).no_duplicates()
        &&& hint_keys(self.hints).no_duplicates()
        &&& self.pseudonyms.len() == 8
        &&& forall|k: int|
            0 <= k < self.pseudonyms.len() ==> (#[trigger] self.pseudonyms[k]).no_duplicates()
        &&& mac_ouis(self.macs).no_duplicates()
        &&& forall|g: int| 0 <= g < self.macs.len() ==> (#[trigger] self.macs[g]).1.no_duplicates()
        &&& self.azure_names.no_duplicates()
    }

    /// The explicit prefix recorded for an address.
    pub open spec fn hint_for(self, v6: bool, addr: u128) -> Option<u8> {
        let keys = hint_keys(self.hints);
        if keys.contains((v6, addr)) {
            Some(self.hints[keys.index_of((v6, addr))].prefix)
        } else {
            None
        }
    }

    /// Records (or replaces) the explicit prefix for an address.
    pub open spec fn with_hint(self, v6: bool, addr: u128, prefix: u8) -> StoreView {
        let keys = hint_keys(self.hints);
        let h = PrefixHint { v6, addr, prefix };
        StoreView {
            hints: if keys.contains((v6, addr)) {
                self.hints.update(keys.index_of((v6, addr)), h)
            } else {
                self.hints.push(h)
            },
            ..self
        }
    }

    /// Label index of a subnet, assigning the next one when new.
    pub open spec fn subnet_label(self, key: SubnetKey) -> (StoreView, nat) {
        if self.subnets.contains(key) {
            (self, self.subnets.index_of(key) as nat)
        } else {
            (
                StoreView {
                    subnets: self.subnets.push(key),
                    hosts: self.hosts.push(Seq::empty()),
                    ..self
                },
                self.subnets.len(),
            )
        }
    }

    /// 1-based host index of `addr` within subnet `label`.
    pub open spec fn host_index(self, label: nat, addr: u128) -> (StoreView, nat) {
        let (t, i) = intern_spec(self.hosts[label as int], addr);
        (StoreView { hosts: self.hosts.update(label as int, t), ..self }, i)
    }

    /// 1-based pseudonym index of `value` among the values of `entity`.
    pub open spec fn pseudonym(self, entity: EntityType, value: Seq<char>) -> (StoreView, nat) {
        let k = entity_slot(entity);
        let (t, i) = intern_spec(self.pseudonyms[k], value);
        (StoreView { pseudonyms: self.pseudonyms.update(k, t), ..self }, i)
    }

    /// 1-based device index of `mac` within its `oui`.
    pub open spec fn mac_index(self, oui: Seq<char>, mac: Seq<char>) -> (StoreView, nat) {
        let ouis = mac_ouis(self.macs);
        if ouis.contains(oui) {
            let g = ouis.index_of(oui);
            let (t, i) = intern_spec(self.macs[g].1, mac);
            (StoreView { macs: self.macs.update(g, (oui, t)), ..self }, i)
        } else {
            (StoreView { macs: self.macs.push((oui, seq![mac])), ..self }, 1)
        }
    }

    /// 1-based index of an Azure resource / resource-group name.
    pub open spec fn azure_name(self, name: Seq<char>) -> (StoreView, nat) {
        let (t, i) = intern_spec(self.azure_names, name);
        (StoreView { azure_names: t, ..self }, i)
    }
}

/// The first-seen position of `x` in a duplicate-free sequence.
pub proof fn lemma_index_of_unique<T>(t: Seq<T>, i: int, x: T)
    requires
        t.no_duplicates(),
        0 <= i < t.len(),
        t[i] == x,
    ensures
        t.contains(x),
        t.index_of(x) == i,
{
    assert(t.contains(x));
    let j = t.index_of(x);
    assert(t[j] == x);
}

/// Appending an absent value keeps a sequence duplicate-free.
pub proof fn lemma_push_no_duplicates<T>(t: Seq<T>, x: T)
    requires
        t.no_duplicates(),
        !t.contains(x),
    ensures
        t.push(x).no_duplicates(),
{
    let u = t.push(x);
    assert forall|i: int, j: int| 0 <= i < u.len() && 0 <= j < u.len() && i != j implies u[i]
        != u[j] by {
        if i < t.len() && j < t.len() {
            assert(u[i] == t[i] && u[j] == t[j]);
        } else if i == t.len() {
            assert(u[j] == t[j]);
        } else {
            assert(u[i] == t[i]);
        }
    }
}

/// Interning into a string table.
fn intern_name(table: &mut Vec<String>, name: &str) -> (r: usize)
    requires
        names_view(old(table)@).no_duplicates(),
    ensures
        (names_view(final(table)@), r as nat) == intern_spec(names_view(old(table)@), name@),
        names_view(final(table)@).no_duplicates(),
{
    let ghost t = names_view(table@);
    let key = name.to_owned();
    let mut i: usize = 0;
    while i < table.len()
        invariant
            t == names_view(table@),
            t.no_duplicates(),
            key@ == name@,
            i <= table@.len(),
            forall|j: int| 0 <= j < i ==> t[j] != name@,
        decreases table@.len() - i,
    {
        if table[i] == key {
            proof {
                lemma_index_of_unique(t, i as int, name@);
            }
            return i + 1;
        }
        i = i + 1;
    }
    assert(!t.contains(name@));
    table.push(key);
    assert(names_view(table@) =~= t.push(name@));
    proof {
        lemma_push_no_duplicates(t, name@);
    }
    table.len()
}

/// Interning into an address table.
fn intern_addr(table: &mut Vec<u128>, addr: u128) -> (r: usize)
    requires
        old(table)@.no_duplicates(),
    ensures
        (final(table)@, r as nat) == intern_spec(old(table)@, addr),
        final(table)@.no_duplicates(),
{
    let mut i: usize = 0;
    while i < table.len()
        invariant
            table@.no_duplicates(),
            i <= table@.len(),
            forall|j: int| 0 <= j < i ==> table@[j] != addr,
        decreases table@.len() - i,
    {
        if table[i] == addr {
            proof {
                lemma_index_of_unique(table@, i as int, addr);
            }
            return i + 1;
        }
        i = i + 1;
    }
    assert(!table@.contains(addr));
    proof {
        lemma_push_no_duplicates(table@, addr);
    }
    table.push(addr);
    table.len()
}

/// Run-scoped state behind the anonymizer's tokens.
pub struct MappingStore {
    subnets: Vec<SubnetKey>,
    hosts: Vec<Vec<u128>>,
    hints: Vec<PrefixHint>,
    pseudonyms: Vec<Vec<String>>,
    mac_devices: Vec<MacGroup>,
    azure_names: Vec<String>,
}

impl View for MappingStore {
    type V = StoreView;

    closed spec fn view(&self) -> StoreView {
        StoreView {
            subnets: self.subnets@,
            hosts: self.hosts@.map_values(|h: Vec<u128>| h@),
            hints: self.hints@,
            pseudonyms: self.pseudonyms@.map_values(|p: Vec<String>| names_view(p@)),
            macs: self.mac_devices@.map_values(|g: MacGroup| (g.oui@, names_view(g.macs@))),
            azure_names: names_view(self.azure_names@),
        }
    }
}

impl MappingStore {
    /// An empty store.
    pub fn new() -> (r: Self)
        ensures
            r@.wf(),
            r@ == empty_store(),
    {
        let mut pseudonyms: Vec<Vec<String>> = Vec::new();
        let mut k: usize = 0;
        while k < 8
            invariant
                k <= 8,
                pseudonyms@.len() == k,
                forall|j: int| 0 <= j < k ==> (#[trigger] pseudonyms@[j])@.len() == 0,
            decreases 8 - k,
        {
            pseudonyms.push(Vec::new());
            k = k + 1;
        }
        let r = MappingStore {
            subnets: Vec::new(),
            hosts: Vec::new(),
            hints: Vec::new(),
            pseudonyms,
            mac_devices: Vec::new(),
            azure_names: Vec::new(),
        };
        assert forall|j: int| 0 <= j < 8 implies #[trigger] r@.pseudonyms[j] =~= Seq::<
            Seq<char>,
        >::empty() by {
            assert(r@.pseudonyms[j] == names_view(r.pseudonyms@[j]@));
        }
        assert(r@.pseudonyms =~= Seq::new(8, |k: int| Seq::<Seq<char>>::empty()));
        assert(hint_keys(r@.hints) =~= Seq::<(bool, u128)>::empty());
        assert(mac_ouis(r@.macs) =~= Seq::<Seq<char>>::empty());
        assert(r@ =~= empty_store());
        r
    }

    /// Stable 1-based index for `value` under `entity`.
    pub fn pseudonym(&mut self, entity: EntityType, value: &str) -> (r: usize)
        requires
            old(self)@.wf(),
        ensures
            (final(self)@, r as nat) == old(self)@.pseudonym(entity, value@),
            final(self)@.wf(),
            r >= 1,
    {
        let k = slot_of(entity);
        let ghost old_v = self@;
        assert(old_v.pseudonyms[k as int] == names_view(self.pseudonyms@[k as int]@));
        let r = intern_name(&mut self.pseudonyms[k], value);
        let ghost t = intern_spec(old_v.pseudonyms[k as int], value@).0;
        assert(self@.pseudonyms =~= old_v.pseudonyms.update(k as int, t));
        assert(self@.subnets == old_v.subnets);
        assert(self@.hosts == old_v.hosts);
        assert(self@.hints == old_v.hints);
        assert(self@.macs == old_v.macs);
        assert(self@.azure_names == old_v.azure_names);
        assert(r == intern_spec(old_v.pseudonyms[k as int], value@).1);
        assert(self@ =~= old_v.pseudonym(entity, value@).0);
        r
    }

    /// Label index shared by every address of one subnet, assigning the
    /// next label (shared between IPv4 and IPv6) when the subnet is new.
    fn subnet_label(&mut self, key: SubnetKey) -> (r: usize)
        requires
            old(self)@.wf(),
        ensures
            (final(self)@, r as nat) == old(self)@.subnet_label(key),
            final(self)@.wf(),
            r < final(self)@.subnets.len(),
    {
        let ghost old_v = self@;
        let mut i: usize = 0;
        while i < self.subnets.len()
            invariant
                self@ == old_v,
                old_v.wf(),
                i <= self.subnets@.len(),
                forall|j: int| 0 <= j < i ==> self.subnets@[j] != key,
            decreases self.subnets@.len() - i,
        {
            if self.subnets[i] == key {
                proof {
                    lemma_index_of_unique(old_v.subnets, i as int, key);
                }
                return i;
            }
            i = i + 1;
        }
        assert(!old_v.subnets.contains(key));
        proof {
            lemma_push_no_duplicates(old_v.subnets, key);
        }
        let label = self.subnets.len();
        self.subnets.push(key);
        self.hosts.push(Vec::new());
        assert(self@.hosts =~= old_v.hosts.push(Seq::empty()));
        assert(self@ =~= old_v.subnet_label(key).0);
        label
    }

    /// Shared subnet label index for an IPv4 network.
    pub fn subnet_label_v4(&mut self, network: u32, prefix: u8) -> (r: usize)
        requires
            old(self)@.wf(),
        ensures
            (final(self)@, r as nat) == old(self)@.subnet_label(
                SubnetKey { v6: false, network: network as u128, prefix },
            ),
            final(self)@.wf(),
            r < final(self)@.subnets.len(),
    {
        self.subnet_label(SubnetKey { v6: false, network: network as u128, prefix })
    }

    /// Shared subnet label index for an IPv6 network.
    pub fn subnet_label_v6(&mut self, network: u128, prefix: u8) -> (r: usize)
        requires
            old(self)@.wf(),
        ensures
            (final(self)@, r as nat) == old(self)@.subnet_label(
                SubnetKey { v6: true, network, prefix },
            ),
            final(self)@.wf(),
            r < final(self)@.subnets.len(),
    {
        self.subnet_label(SubnetKey { v6: true, network, prefix })
    }

    /// Stable 1-based host index for `addr` within subnet `label`.
    pub fn host_index(&mut self, label: usize, addr: u128) -> (r: usize)
        requires
            old(self)@.wf(),
            label < old(self)@.subnets.len(),
        ensures
            (final(self)@, r as nat) == old(self)@.host_index(label as nat, addr),
            final(self)@.wf(),
            r >= 1,
    {
        let ghost old_v = self@;
        assert(old_v.hosts[label as int] == self.hosts@[label as int]@);
        assert(old_v.hosts[label as int].no_duplicates());
        let r = intern_addr(&mut self.hosts[label], addr);
        let ghost t = intern_spec(old_v.hosts[label as int], addr).0;
        assert(self@.hosts =~= old_v.hosts.update(label as int, t));
        assert(self@.pseudonyms == old_v.pseudonyms);
        assert(self@.macs == old_v.macs);
        assert(self@ =~= old_v.host_index(label as nat, addr).0);
        r
    }

    /// Position of the MAC group of `oui`.
    fn mac_group_position(&self, oui: &String) -> (r: Option<usize>)
        requires
            self@.wf(),
        ensures
            match r {
                Some(g) => mac_ouis(self@.macs).contains(oui@) && g == mac_ouis(self@.macs).index_of(
                    oui@,
                ) && g < self@.macs.len(),
                None => !mac_ouis(self@.macs).contains(oui@),
            },
    {
        let ghost ouis = mac_ouis(self@.macs);
        let mut g: usize = 0;
        while g < self.mac_devices.len()
            invariant
                ouis == mac_ouis(self@.macs),
                ouis.no_duplicates(),
                g <= self.mac_devices@.len(),
                forall|j: int| 0 <= j < g ==> ouis[j] != oui@,
            decreases self.mac_devices@.len() - g,
        {
            if self.mac_devices[g].oui == *oui {
                assert(ouis[g as int] == oui@);
                proof {
                    lemma_index_of_unique(ouis, g as int, oui@);
                }
                return Some(g);
            }
            g = g + 1;
        }
        assert(!ouis.contains(oui@));
        None
    }

    /// Stable 1-based device index for `mac` within its `oui`.
    pub fn mac_index(&mut self, oui: &str, mac: &str) -> (r: usize)
        requires
            old(self)@.wf(),
        ensures
            (final(self)@, r as nat) == old(self)@.mac_index(oui@, mac@),
            final(self)@.wf(),
            r >= 1,
    {
        let ghost old_v = self@;
        let ghost ouis = mac_ouis(old_v.macs);
        let key = oui.to_owned();
        match self.mac_group_position(&key) {
            Some(g) => {
                assert(old_v.macs[g as int].1 == names_view(self.mac_devices@[g as int].macs@));
                assert(self.mac_devices@[g as int].oui@ == oui@);
                let r = intern_name(&mut self.mac_devices[g].macs, mac);
                let ghost t = intern_spec(old_v.macs[g as int].1, mac@).0;
                assert(self@.macs =~= old_v.macs.update(g as int, (oui@, t)));
                assert(mac_ouis(self@.macs) =~= ouis);
                assert forall|q: int| 0 <= q < self@.macs.len() implies (
                #[trigger] self@.macs[q]).1.no_duplicates() by {
                    if q != g {
                        assert(self@.macs[q] == old_v.macs[q]);
                    }
                }
                assert(self@ =~= old_v.mac_index(oui@, mac@).0);
                r
            },
            None => {
                let mut macs: Vec<String> = Vec::new();
                macs.push(mac.to_owned());
                assert(names_view(macs@) =~= seq![mac@]);
                self.mac_devices.push(MacGroup { oui: key, macs });
                assert(self@.macs =~= old_v.macs.push((oui@, seq![mac@])));
                assert(mac_ouis(self@.macs) =~= ouis.push(oui@));
                proof {
                    lemma_push_no_duplicates(ouis, oui@);
                }
                assert(self@ =~= old_v.mac_index(oui@, mac@).0);
                1
            },
        }
    }

    /// Stable 1-based index for an Azure resource / resource-group name.
    pub fn azure_name(&mut self, name: &str) -> (r: usize)
        requires
            old(self)@.wf(),
        ensures
            (final(self)@, r as nat) == old(self)@.azure_name(name@),
            final(self)@.wf(),
            r >= 1,
    {
        let ghost old_v = self@;
        let r = intern_name(&mut self.azure_names, name);
        assert(self@ =~= old_v.azure_name(name@).0);
        r
    }

    /// The explicit prefix recorded for an address.
    pub fn hint_for(&self, v6: bool, addr: u128) -> (r: Option<u8>)
        requires
            self@.wf(),
        ensures
            r == self@.hint_for(v6, addr),
    {
        match self.hint_position(v6, addr) {
            Some(i) => Some(self.hints[i].prefix),
            None => None,
        }
    }

    /// Position of the hint for an address.
    fn hint_position(&self, v6: bool, addr: u128) -> (r: Option<usize>)
        requires
            self@.wf(),
        ensures
            match r {
                Some(i) => hint_keys(self@.hints).contains((v6, addr)) && i == hint_keys(
                    self@.hints,
                ).index_of((v6, addr)) && i < self@.hints.len(),
                None => !hint_keys(self@.hints).contains((v6, addr)),
            },
    {
        let ghost keys = hint_keys(self.hints@);
        let mut i: usize = 0;
        while i < self.hints.len()
            invariant
                keys == hint_keys(self.hints@),
                keys.no_duplicates(),
                i <= self.hints@.len(),
                forall|j: int| 0 <= j < i ==> keys[j] != (v6, addr),
            decreases self.hints@.len() - i,
        {
            if self.hints[i].v6 == v6 && self.hints[i].addr == addr {
                assert(keys[i as int] == (v6, addr));
                proof {
                    lemma_index_of_unique(keys, i as int, (v6, addr));
                }
                return Some(i);
            }
            i = i + 1;
        }
        assert(!keys.contains((v6, addr)));
        None
    }

    /// Records (or replaces) the explicit prefix for an address.
    pub fn set_hint(&mut self, v6: bool, addr: u128, prefix: u8)
        requires
            old(self)@.wf(),
        ensures
            final(self)@ == old(self)@.with_hint(v6, addr, prefix),
            final(self)@.wf(),
    {
        let ghost old_v = self@;
        let ghost keys = hint_keys(old_v.hints);
        let h = PrefixHint { v6, addr, prefix };
        match self.hint_position(v6, addr) {
            Some(i) => {
                self.hints.set(i, h);
                assert forall|j: int| 0 <= j < keys.len() implies #[trigger] hint_keys(self@.hints)[j]
                    == keys[j] by {
                    if j != i {
                        assert(self.hints@[j] == old_v.hints[j]);
                    } else {
                        assert(keys[j] == (v6, addr));
                    }
                }
                assert(hint_keys(self@.hints) =~= keys);
                assert(self@ =~= old_v.with_hint(v6, addr, prefix));
            },
            None => {
                proof {
                    lemma_push_no_duplicates(keys, (v6, addr));
                }
                self.hints.push(h);
                assert(hint_keys(self@.hints) =~= keys.push((v6, addr)));
                assert(self@ =~= old_v.with_hint(v6, addr, prefix));
            },
        }
    }
}

} // verus!

verus! {

/// `old` is a prefix of `new`: every entry keeps its position.
pub open spec fn keeps_entries<T>(new: Seq<T>, old: Seq<T>) -> bool {
    &&& old.len() <= new.len()
    &&& forall|i: int| 0 <= i < old.len() ==> #[trigger] new[i] == old[i]
}

impl StoreView {
    /// Every mapping of `old` is still here, unchanged: each table of `old`
    /// is a prefix of the same table here (explicit prefix hints may be
    /// replaced, but an address once hinted stays hinted).
    pub open spec fn grows_from(self, old: StoreView) -> bool {
        &&& keeps_entries(self.subnets, old.subnets)
        &&& old.hosts.len() <= self.hosts.len()
        &&& forall|l: int| 0 <= l < old.hosts.len() ==> keeps_entries(#[trigger] self.hosts[l], old.hosts[l])
        &&& keeps_entries(hint_keys(self.hints), hint_keys(old.hints))
        &&& old.pseudonyms.len() <= self.pseudonyms.len()
        &&& forall|k: int|
            0 <= k < old.pseudonyms.len() ==> keeps_entries(#[trigger] self.pseudonyms[k], old.pseudonyms[k])
        &&& keeps_entries(mac_ouis(self.macs), mac_ouis(old.macs))
        &&& old.macs.len() <= self.macs.len()
        &&& forall|g: int| 0 <= g < old.macs.len() ==> keeps_entries(#[trigger] self.macs[g].1, old.macs[g].1)
        &&& keeps_entries(self.azure_names, old.azure_names)
    }
}

/// A store grows from itself.
pub proof fn lemma_grows_refl(st: StoreView)
    ensures
        st.grows_from(st),
{
}

/// Growth composes.
pub proof fn lemma_grows_trans(a: StoreView, b: StoreView, c: StoreView)
    requires
        b.grows_from(a),
        c.grows_from(b),
    ensures
        c.grows_from(a),
{
    assert forall|l: int| 0 <= l < a.hosts.len() implies keeps_entries(#[trigger] c.hosts[l], a.hosts[l]) by {
        assert(keeps_entries(b.hosts[l], a.hosts[l]));
        assert(keeps_entries(c.hosts[l], b.hosts[l]));
    }
    assert forall|k: int| 0 <= k < a.pseudonyms.len() implies keeps_entries(
        #[trigger] c.pseudonyms[k],
        a.pseudonyms[k],
    ) by {
        assert(keeps_entries(b.pseudonyms[k], a.pseudonyms[k]));
        assert(keeps_entries(c.pseudonyms[k], b.pseudonyms[k]));
    }
    assert forall|g: int| 0 <= g < a.macs.len() implies keeps_entries(#[trigger] c.macs[g].1, a.macs[g].1) by {
        assert(keeps_entries(b.macs[g].1, a.macs[g].1));
        assert(keeps_entries(c.macs[g].1, b.macs[g].1));
    }
}

/// Interning keeps the table's entries, keeps it duplicate-free, and
/// returns the 1-based position of the value.
pub proof fn lemma_intern_grows<T>(t: Seq<T>, x: T)
    requires
        t.no_duplicates(),
    ensures
        keeps_entries(intern_spec(t, x).0, t),
        intern_spec(t, x).0.no_duplicates(),
        1 <= intern_spec(t, x).1 <= intern_spec(t, x).0.len(),
        intern_spec(t, x).0[intern_spec(t, x).1 - 1] == x,
{
    if t.contains(x) {
        let i = t.index_of(x);
        assert(t[i] == x);
    } else {
        lemma_push_no_duplicates(t, x);
    }
}

/// Once a value is interned, any duplicate-free table that keeps the
/// entries gives it the same position and is left as it is.
pub proof fn lemma_intern_stable<T>(t: Seq<T>, x: T, t2: Seq<T>)
    requires
        t.no_duplicates(),
        t2.no_duplicates(),
        keeps_entries(t2, intern_spec(t, x).0),
    ensures
        intern_spec(t2, x) == (t2, intern_spec(t, x).1),
{
    lemma_intern_grows(t, x);
    let i = intern_spec(t, x).1 - 1;
    assert(t2[i] == x);
    lemma_index_of_unique(t2, i, x);
}

impl StoreView {
    /// Recording a hint keeps every mapping and the store's shape.
    pub proof fn lemma_with_hint_grows(self, v6: bool, addr: u128, prefix: u8)
        requires
            self.wf(),
        ensures
            self.with_hint(v6, addr, prefix).wf(),
            self.with_hint(v6, addr, prefix).grows_from(self),
            self.with_hint(v6, addr, prefix).hint_for(v6, addr) == Some(prefix),
            forall|w: bool, a: u128|
                #![trigger self.with_hint(v6, addr, prefix).hint_for(w, a)]
                (w, a) != (v6, addr) ==> self.with_hint(v6, addr, prefix).hint_for(w, a)
                    == self.hint_for(w, a),
    {
        let keys = hint_keys(self.hints);
        let s2 = self.with_hint(v6, addr, prefix);
        let keys2 = hint_keys(s2.hints);
        if keys.contains((v6, addr)) {
            let i = keys.index_of((v6, addr));
            assert(keys2 =~= keys) by {
                assert forall|j: int| 0 <= j < keys.len() implies keys2[j] == keys[j] by {
                    if j == i {
                        assert(keys[j] == (v6, addr));
                    }
                }
            }
        } else {
            assert(keys2 =~= keys.push((v6, addr)));
            lemma_push_no_duplicates(keys, (v6, addr));
        }
        assert(keys2.contains((v6, addr))) by {
            let i = if keys.contains((v6, addr)) {
                keys.index_of((v6, addr))
            } else {
                keys.len() as int
            };
            assert(keys2[i] == (v6, addr));
        }
        let j2 = keys2.index_of((v6, addr));
        assert(keys2[j2] == (v6, addr));
        assert forall|w: bool, a: u128|
            #![trigger s2.hint_for(w, a)]
            (w, a) != (v6, addr) implies s2.hint_for(w, a) == self.hint_for(w, a) by {
            if keys.contains((w, a)) {
                let j = keys.index_of((w, a));
                assert(keys[j] == (w, a));
                assert(keys2[j] == (w, a));
                lemma_index_of_unique(keys2, j, (w, a));
            } else if keys2.contains((w, a)) {
                let j = keys2.index_of((w, a));
                assert(keys2[j] == (w, a));
                if j < keys.len() {
                    assert(keys[j] == (w, a));
                }
            }
        }
    }

    /// Labelling a subnet keeps every mapping and the store's shape, and
    /// gives a label that has a host table.
    pub proof fn lemma_subnet_label_grows(self, key: SubnetKey)
        requires
            self.wf(),
        ensures
            self.subnet_label(key).0.wf(),
            self.subnet_label(key).0.grows_from(self),
            self.subnet_label(key).1 < self.subnet_label(key).0.subnets.len(),
            self.subnet_label(key).0.subnets[self.subnet_label(key).1 as int] == key,
            self.subnet_label(key).0.hints == self.hints,
    {
        if self.subnets.contains(key) {
            let i = self.subnets.index_of(key);
            assert(self.subnets[i] == key);
        } else {
            lemma_push_no_duplicates(self.subnets, key);
            let s2 = self.subnet_label(key).0;
            assert forall|l: int| 0 <= l < s2.hosts.len() implies (#[trigger] s2.hosts[l]).no_duplicates() by {
                if l < self.hosts.len() {
                    assert(s2.hosts[l] == self.hosts[l]);
                }
            }
        }
    }

    /// A subnet once labelled keeps its label in any store grown from it.
    pub proof fn lemma_subnet_label_stable(self, key: SubnetKey, st2: StoreView)
        requires
            self.wf(),
            st2.wf(),
            st2.grows_from(self.subnet_label(key).0),
        ensures
            st2.subnet_label(key) == (st2, self.subnet_label(key).1),
    {
        self.lemma_subnet_label_grows(key);
        let s1 = self.subnet_label(key).0;
        let l = self.subnet_label(key).1 as int;
        assert(s1.subnets[l] == key);
        assert(st2.subnets[l] == key);
        lemma_index_of_unique(st2.subnets, l, key);
    }

    /// Numbering a host keeps every mapping and the store's shape.
    pub proof fn lemma_host_index_grows(self, label: nat, addr: u128)
        requires
            self.wf(),
            label < self.hosts.len(),
        ensures
            self.host_index(label, addr).0.wf(),
            self.host_index(label, addr).0.grows_from(self),
            self.host_index(label, addr).0.subnets == self.subnets,
            self.host_index(label, addr).0.hints == self.hints,
            self.host_index(label, addr).1 >= 1,
    {
        let t = self.hosts[label as int];
        lemma_intern_grows(t, addr);
        let s2 = self.host_index(label, addr).0;
        assert forall|l: int| 0 <= l < s2.hosts.len() implies (#[trigger] s2.hosts[l]).no_duplicates() by {
            if l != label {
                assert(s2.hosts[l] == self.hosts[l]);
            }
        }
        assert forall|l: int| 0 <= l < self.hosts.len() implies keeps_entries(
            #[trigger] s2.hosts[l],
            self.hosts[l],
        ) by {
            if l != label {
                assert(s2.hosts[l] == self.hosts[l]);
            }
        }
    }

    /// A host once numbered keeps its number in any store grown from it.
    pub proof fn lemma_host_index_stable(self, label: nat, addr: u128, st2: StoreView)
        requires
            self.wf(),
            st2.wf(),
            label < self.hosts.len(),
            st2.grows_from(self.host_index(label, addr).0),
        ensures
            st2.host_index(label, addr) == (st2, self.host_index(label, addr).1),
    {
        let t = self.hosts[label as int];
        let s1 = self.host_index(label, addr).0;
        assert(s1.hosts[label as int] == intern_spec(t, addr).0);
        assert(keeps_entries(st2.hosts[label as int], s1.hosts[label as int]));
        lemma_intern_stable(t, addr, st2.hosts[label as int]);
        assert(st2.hosts.update(label as int, st2.hosts[label as int]) =~= st2.hosts);
    }

    /// Numbering a pseudonym keeps every mapping and the store's shape.
    pub proof fn lemma_pseudonym_grows(self, entity: EntityType, value: Seq<char>)
        requires
            self.wf(),
        ensures
            self.pseudonym(entity, value).0.wf(),
            self.pseudonym(entity, value).0.grows_from(self),
            self.pseudonym(entity, value).1 >= 1,
    {
        let k = entity_slot(entity);
        let t = self.pseudonyms[k];
        lemma_intern_grows(t, value);
        let s2 = self.pseudonym(entity, value).0;
        assert forall|j: int| 0 <= j < s2.pseudonyms.len() implies (#[trigger] s2.pseudonyms[j]).no_duplicates() by {
            if j != k {
                assert(s2.pseudonyms[j] == self.pseudonyms[j]);
            }
        }
        assert forall|j: int| 0 <= j < self.pseudonyms.len() implies keeps_entries(
            #[trigger] s2.pseudonyms[j],
            self.pseudonyms[j],
        ) by {
            if j != k {
                assert(s2.pseudonyms[j] == self.pseudonyms[j]);
            }
        }
    }

    /// A value once numbered keeps its number in any store grown from it.
    pub proof fn lemma_pseudonym_stable(self, entity: EntityType, value: Seq<char>, st2: StoreView)
        requires
            self.wf(),
            st2.wf(),
            st2.grows_from(self.pseudonym(entity, value).0),
        ensures
            st2.pseudonym(entity, value) == (st2, self.pseudonym(entity, value).1),
    {
        let k = entity_slot(entity);
        let t = self.pseudonyms[k];
        let s1 = self.pseudonym(entity, value).0;
        assert(s1.pseudonyms[k] == intern_spec(t, value).0);
        assert(keeps_entries(st2.pseudonyms[k], s1.pseudonyms[k]));
        lemma_intern_stable(t, value, st2.pseudonyms[k]);
        assert(st2.pseudonyms.update(k, st2.pseudonyms[k]) =~= st2.pseudonyms);
    }

    /// Numbering an Azure name keeps every mapping and the store's shape.
    pub proof fn lemma_azure_name_grows(self, name: Seq<char>)
        requires
            self.wf(),
        ensures
            self.azure_name(name).0.wf(),
            self.azure_name(name).0.grows_from(self),
            self.azure_name(name).1 >= 1,
    {
        lemma_intern_grows(self.azure_names, name);
    }

    /// A name once numbered keeps its number in any store grown from it.
    pub proof fn lemma_azure_name_stable(self, name: Seq<char>, st2: StoreView)
        requires
            self.wf(),
            st2.wf(),
            st2.grows_from(self.azure_name(name).0),
        ensures
            st2.azure_name(name) == (st2, self.azure_name(name).1),
    {
        lemma_intern_stable(self.azure_names, name, st2.azure_names);
    }

    /// Numbering a MAC device keeps every mapping and the store's shape.
    pub proof fn lemma_mac_index_grows(self, oui: Seq<char>, mac: Seq<char>)
        requires
            self.wf(),
        ensures
            self.mac_index(oui, mac).0.wf(),
            self.mac_index(oui, mac).0.grows_from(self),
    {
        let ouis = mac_ouis(self.macs);
        let s2 = self.mac_index(oui, mac).0;
        if ouis.contains(oui) {
            let g = ouis.index_of(oui);
            assert(ouis[g] == oui);
            lemma_intern_grows(self.macs[g].1, mac);
            assert(mac_ouis(s2.macs) =~= ouis) by {
                assert forall|j: int| 0 <= j < ouis.len() implies mac_ouis(s2.macs)[j] == ouis[j] by {
                    if j != g {
                        assert(s2.macs[j] == self.macs[j]);
                    }
                }
            }
            assert forall|j: int| 0 <= j < s2.macs.len() implies (#[trigger] s2.macs[j]).1.no_duplicates() by {
                if j != g {
                    assert(s2.macs[j] == self.macs[j]);
                }
            }
            assert forall|j: int| 0 <= j < self.macs.len() implies keeps_entries(
                #[trigger] s2.macs[j].1,
                self.macs[j].1,
            ) by {
                if j != g {
                    assert(s2.macs[j] == self.macs[j]);
                }
            }
        } else {
            assert(mac_ouis(s2.macs) =~= ouis.push(oui));
            lemma_push_no_duplicates(ouis, oui);
            assert forall|j: int| 0 <= j < s2.macs.len() implies (#[trigger] s2.macs[j]).1.no_duplicates() by {
                if j < self.macs.len() {
                    assert(s2.macs[j] == self.macs[j]);
                } else {
                    assert(s2.macs[j].1 =~= seq![mac]);
                }
            }
            assert forall|j: int| 0 <= j < self.macs.len() implies keeps_entries(
                #[trigger] s2.macs[j].1,
                self.macs[j].1,
            ) by {
                assert(s2.macs[j] == self.macs[j]);
            }
        }
    }

    /// After numbering a MAC device, its OUI has a group whose entry at the
    /// device's number is the device.
    pub proof fn lemma_mac_index_position(self, oui: Seq<char>, mac: Seq<char>)
        requires
            self.wf(),
        ensures
            ({
                let (s1, i) = self.mac_index(oui, mac);
                exists|g: int|
                    0 <= g < s1.macs.len() && #[trigger] s1.macs[g].0 == oui && 1 <= i <= s1.macs[g].1.len()
                        && s1.macs[g].1[i - 1] == mac
            }),
    {
        let ouis = mac_ouis(self.macs);
        let (s1, i) = self.mac_index(oui, mac);
        if ouis.contains(oui) {
            let g = ouis.index_of(oui);
            assert(ouis[g] == oui);
            lemma_intern_grows(self.macs[g].1, mac);
            assert(s1.macs[g].0 == oui);
        } else {
            let g = self.macs.len() as int;
            assert(s1.macs[g] == (oui, seq![mac]));
            assert(s1.macs[g].0 == oui);
        }
    }

    /// A MAC once numbered keeps its number in any store grown from it.
    pub proof fn lemma_mac_index_stable(self, oui: Seq<char>, mac: Seq<char>, st2: StoreView)
        requires
            self.wf(),
            st2.wf(),
            st2.grows_from(self.mac_index(oui, mac).0),
        ensures
            st2.mac_index(oui, mac) == (st2, self.mac_index(oui, mac).1),
    {
        self.lemma_mac_index_grows(oui, mac);
        let ouis = mac_ouis(self.macs);
        let s1 = self.mac_index(oui, mac).0;
        let ouis1 = mac_ouis(s1.macs);
        let ouis2 = mac_ouis(st2.macs);
        let g = if ouis.contains(oui) {
            ouis.index_of(oui)
        } else {
            self.macs.len() as int
        };
        if ouis.contains(oui) {
            assert(ouis[g] == oui);
            lemma_intern_grows(self.macs[g].1, mac);
        } else {
            assert(s1.macs[g] == (oui, seq![mac]));
        }
        assert(ouis1[g] == oui);
        assert(ouis2[g] == oui);
        lemma_index_of_unique(ouis2, g, oui);
        let t2 = st2.macs[g].1;
        assert(keeps_entries(t2, s1.macs[g].1));
        if ouis.contains(oui) {
            lemma_intern_stable(self.macs[g].1, mac, t2);
        } else {
            assert(t2[0] == mac);
            lemma_index_of_unique(t2, 0, mac);
        }
        assert(st2.macs[g] == (oui, t2));
        assert(st2.macs.update(g, (oui, t2)) =~= st2.macs);
    }
}

} // verus!
