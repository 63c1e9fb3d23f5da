use vstd::prelude::*;

use crate::amm::{address_eq, Address, Amm};

verus! {

/// No two AMMs of the sequence share an address.
pub open spec fn addresses_distinct(s: Seq<Amm>) -> bool {
    forall|i: int, j: int|
        0 <= i < s.len() && 0 <= j < s.len() && i != j ==> #[trigger] s[i].address
            != #[trigger] s[j].address
}

/// Whether some AMM of the sequence has the address.
pub open spec fn holds_address(s: Seq<Amm>, a: Address) -> bool {
    exists|i: int| 0 <= i < s.len() && #[trigger] s[i].address == a
}

/// The map from each address held in the sequence to the AMM that has it.
pub open spec fn amm_map(s: Seq<Amm>) -> Map<Address, Amm> {
    Map::new(
        |a: Address| holds_address(s, a),
        |a: Address| s[choose|i: int| 0 <= i < s.len() && #[trigger] s[i].address == a],
    )
}

/// Every AMM of the state is held under its own address.
pub open spec fn keyed_by_address(state: Map<Address, Amm>) -> bool {
    forall|a: Address| #[trigger] state.contains_key(a) ==> state[a].address == a
}

/// The map of a sequence holds each AMM under its own address.
pub proof fn lemma_amm_map_keyed(s: Seq<Amm>)
    ensures
        keyed_by_address(amm_map(s)),
{
    assert forall|a: Address| #[trigger] amm_map(s).contains_key(a) implies amm_map(s)[a].address
        == a by {
        let i = choose|i: int| 0 <= i < s.len() && #[trigger] s[i].address == a;
    }
}

/// In a sequence with distinct addresses, each AMM is what the map gives
/// for its address.
pub proof fn lemma_amm_map_index(s: Seq<Amm>, i: int)
    requires
        addresses_distinct(s),
        0 <= i < s.len(),
    ensures
        amm_map(s).contains_key(s[i].address),
        amm_map(s)[s[i].address] == s[i],
{
    let a = s[i].address;
    assert(holds_address(s, a));
    let j = choose|j: int| 0 <= j < s.len() && #[trigger] s[j].address == a;
    assert(s[j].address == a);
    assert(j == i);
}

/// Appending an AMM with a new address adds it to the map.
pub proof fn lemma_amm_map_push(s: Seq<Amm>, x: Amm)
    requires
        addresses_distinct(s),
        !holds_address(s, x.address),
    ensures
        addresses_distinct(s.push(x)),
        amm_map(s.push(x)) == amm_map(s).insert(x.address, x),
{
    let t = s.push(x);
    assert(addresses_distinct(t)) by {
        assert forall|i: int, j: int|
            0 <= i < t.len() && 0 <= j < t.len() && i != j implies #[trigger] t[i].address
            != #[trigger] t[j].address by {
            if i == s.len() {
                assert(t[j] == s[j]);
            } else if j == s.len() {
                assert(t[i] == s[i]);
            } else {
                assert(t[i] == s[i] && t[j] == s[j]);
            }
        }
    }
    assert forall|a: Address| #[trigger] holds_address(t, a) == (holds_address(s, a) || a == x.address) by {
        if holds_address(s, a) {
            let i = choose|i: int| 0 <= i < s.len() && #[trigger] s[i].address == a;
            assert(t[i] == s[i]);
        }
        if a == x.address {
            assert(t[s.len() as int] == x);
        }
        if holds_address(t, a) && a != x.address {
            let i = choose|i: int| 0 <= i < t.len() && #[trigger] t[i].address == a;
            assert(i != s.len());
            assert(s[i] == t[i]);
        }
    }
    assert forall|a: Address| #[trigger] amm_map(t).contains_key(a) implies amm_map(t)[a] == amm_map(
        s,
    ).insert(x.address, x)[a] by {
        let i = choose|i: int| 0 <= i < t.len() && #[trigger] t[i].address == a;
        lemma_amm_map_index(t, i);
        if i < s.len() {
            assert(t[i] == s[i]);
            lemma_amm_map_index(s, i);
        } else {
            assert(t[i] == x);
        }
    }
    assert(amm_map(t) =~= amm_map(s).insert(x.address, x));
}

/// Replacing an AMM by one of the same address updates the map there.
pub proof fn lemma_amm_map_update(s: Seq<Amm>, k: int, x: Amm)
    requires
        addresses_distinct(s),
        0 <= k < s.len(),
        s[k].address == x.address,
    ensures
        addresses_distinct(s.update(k, x)),
        amm_map(s.update(k, x)) == amm_map(s).insert(x.address, x),
{
    let t = s.update(k, x);
    assert(addresses_distinct(t)) by {
        assert forall|i: int, j: int|
            0 <= i < t.len() && 0 <= j < t.len() && i != j implies #[trigger] t[i].address
            != #[trigger] t[j].address by {
            assert(t[i].address == s[i].address);
            assert(t[j].address == s[j].address);
        }
    }
    assert forall|a: Address| #[trigger] holds_address(t, a) == holds_address(s, a) by {
        if holds_address(s, a) {
            let i = choose|i: int| 0 <= i < s.len() && #[trigger] s[i].address == a;
            assert(t[i].address == s[i].address);
        }
        if holds_address(t, a) {
            let i = choose|i: int| 0 <= i < t.len() && #[trigger] t[i].address == a;
            assert(t[i].address == s[i].address);
        }
    }
    assert forall|a: Address| #[trigger] amm_map(t).contains_key(a) implies amm_map(t)[a] == amm_map(
        s,
    ).insert(x.address, x)[a] by {
        let i = choose|i: int| 0 <= i < t.len() && #[trigger] t[i].address == a;
        lemma_amm_map_index(t, i);
        if i != k {
            assert(t[i] == s[i]);
            lemma_amm_map_index(s, i);
        }
    }
    assert(amm_map(t) =~= amm_map(s).insert(x.address, x));
}

/// The position of the AMM with the address in the sequence (meaningful when
/// the sequence holds the address, and then the only one when addresses are
/// distinct).
pub open spec fn position_of(s: Seq<Amm>, a: Address) -> int {
    choose|i: int| 0 <= i < s.len() && #[trigger] s[i].address == a
}

/// The sequence after the AMM is put under its address: it replaces the AMM
/// with that address in place, or, when there is none, goes at the end.
pub open spec fn entries_after_insert(s: Seq<Amm>, amm: Amm) -> Seq<Amm> {
    if holds_address(s, amm.address) {
        s.update(position_of(s, amm.address), amm)
    } else {
        s.push(amm)
    }
}

/// The AMMs being tracked, each found by its address: a map from address to
/// AMM. It is kept as a sequence with distinct addresses, in the order in
/// which the addresses were first inserted: vstd specifies `HashMap` only for
/// keys of integer type, and an address is 20 bytes.
pub struct StateSpace {
    amms: Vec<Amm>,
}

impl View for StateSpace {
    type V = Map<Address, Amm>;

    closed spec fn view(&self) -> Map<Address, Amm> {
        amm_map(self.amms@)
    }
}

impl StateSpace {
    /// The AMMs held, in the order in which their addresses were first
    /// inserted.
    pub closed spec fn entries(self) -> Seq<Amm> {
        self.amms@
    }

    #[verifier::type_invariant]
    spec fn wf(self) -> bool {
        addresses_distinct(self.amms@)
    }

    /// The state holds each AMM under its own address.
    pub proof fn lemma_keyed(self)
        ensures
            keyed_by_address(self@),
    {
        lemma_amm_map_keyed(self.amms@);
    }

    /// An empty state space.
    pub fn new() -> (r: StateSpace)
        ensures
            r@ == Map::<Address, Amm>::empty(),
            r.entries() == Seq::<Amm>::empty(),
    {
        let r = StateSpace { amms: Vec::new() };
        assert(r@ =~= Map::<Address, Amm>::empty());
        r
    }

    /// The position of the AMM with the address, if one is held.
    fn position(&self, address: &Address) -> (r: Option<usize>)
        ensures
            match r {
                Some(i) => i < self.amms@.len() && self.amms@[i as int].address == *address,
                None => !holds_address(self.amms@, *address),
            },
    {
        let mut i: usize = 0;
        while i < self.amms.len()
            invariant
                0 <= i <= self.amms@.len(),
                forall|j: int| 0 <= j < i ==> #[trigger] self.amms@[j].address != *address,
            decreases self.amms@.len() - i,
        {
            if address_eq(&self.amms[i].address, address) {
                return Some(i);
            }
            i = i + 1;
        }
        None
    }

    /// Whether an AMM with the address is held.
    pub fn contains_key(&self, address: &Address) -> (r: bool)
        ensures
            r == self@.contains_key(*address),
    {
        self.position(address).is_some()
    }

    /// The AMM with the address, if one is held.
    pub fn get(&self, address: &Address) -> (r: Option<&Amm>)
        ensures
            match r {
                Some(amm) => self@.contains_key(*address) && *amm == self@[*address],
                None => !self@.contains_key(*address),
            },
    {
        proof {
            use_type_invariant(self);
        }
        match self.position(address) {
            Some(i) => {
                proof {
                    lemma_amm_map_index(self.amms@, i as int);
                }
                Some(&self.amms[i])
            },
            None => None,
        }
    }

    /// Puts the AMM under its address, replacing and returning the AMM held
    /// there before, if any.
    pub fn insert(&mut self, amm: Amm) -> (r: Option<Amm>)
        ensures
            final(self)@ == old(self)@.insert(amm.address, amm),
            final(self).entries() == entries_after_insert(old(self).entries(), amm),
            r == (if old(self)@.contains_key(amm.address) {
                Some(old(self)@[amm.address])
            } else {
                None
            }),
    {
        proof {
            use_type_invariant(&*self);
        }
        let ghost s = self.amms@;
        let ghost a = amm.address;
        match self.position(&amm.address) {
            Some(i) => {
                proof {
                    lemma_amm_map_index(s, i as int);
                    lemma_amm_map_update(s, i as int, amm);
                    assert(holds_address(s, a));
                    assert(position_of(s, a) == i);
                    assert(s.remove(i as int).insert(i as int, amm) =~= s.update(i as int, amm));
                }
                let mut amms = Vec::new();
                std::mem::swap(&mut amms, &mut self.amms);
                let previous = amms.remove(i);
                amms.insert(i, amm);
                self.amms = amms;
                Some(previous)
            },
            None => {
                proof {
                    lemma_amm_map_push(s, amm);
                }
                let mut amms = Vec::new();
                std::mem::swap(&mut amms, &mut self.amms);
                amms.push(amm);
                self.amms = amms;
                None
            },
        }
    }

    /// The AMMs held, each once, in the order in which their addresses were
    /// first inserted.
    pub fn amms(&self) -> (r: &Vec<Amm>)
        ensures
            r@ == self.entries(),
            addresses_distinct(r@),
            amm_map(r@) == self@,
    {
        proof {
            use_type_invariant(self);
        }
        &self.amms
    }
}

} // verus!
