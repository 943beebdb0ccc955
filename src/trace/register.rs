use vstd::prelude::*;
use std::collections::BTreeMap;

use super::{Error, RegisterInfo};
use crate::text::{le_hex, push_le_hex};

verus! {

/// A byte buffer after `value` is written over it: the bytes that `value` covers take its
/// bytes, the others keep theirs, and the width stays.
pub open spec fn overwrite(old: Seq<u8>, value: Seq<u8>) -> Seq<u8> {
    Seq::new(old.len(), |i: int| if i < value.len() { value[i] } else { old[i] })
}

/// The byte widths that a register may have.
pub open spec fn supported_width(n: int) -> bool {
    n == 1 || n == 2 || n == 3 || n == 4 || n == 6 || n == 8 || n == 16
}

/// A register that is stored on its own, not an alias of another.
pub open spec fn is_full(r: RegisterInfo) -> bool {
    r.full_register is None
}

pub open spec fn distinct_indices(info: Seq<RegisterInfo>) -> bool {
    forall|i: int, j: int|
        0 <= i < j < info.len() ==> #[trigger] info[i].register != #[trigger] info[j].register
}

pub open spec fn widths_supported(info: Seq<RegisterInfo>) -> bool {
    forall|i: int|
        0 <= i < info.len() && is_full(#[trigger] info[i]) ==> supported_width(info[i].size as int)
}

/// The position of the entry with index `r`, if there is one.
pub open spec fn entry_of(info: Seq<RegisterInfo>, r: u32) -> Option<int> {
    if exists|j: int| 0 <= j < info.len() && #[trigger] info[j].register == r {
        Some(choose|j: int| 0 <= j < info.len() && #[trigger] info[j].register == r)
    } else {
        None
    }
}

/// The index of the full register reached from index `r` by following aliases at most `n`
/// times; none when the chain leaves the metadata or is longer, as a cycle is.
pub open spec fn chase(info: Seq<RegisterInfo>, r: u32, n: nat) -> Option<u32>
    decreases n,
{
    match entry_of(info, r) {
        None => None,
        Some(j) => match info[j].full_register {
            None => Some(r),
            Some(f) => if n == 0 {
                None
            } else {
                chase(info, f, (n - 1) as nat)
            },
        },
    }
}

/// The full register that the register at index `r` is stored in.
pub open spec fn storage_of(info: Seq<RegisterInfo>, r: u32) -> Option<u32> {
    chase(info, r, info.len())
}

/// Every alias reaches a full register, directly or through other aliases.
pub open spec fn aliases_resolve(info: Seq<RegisterInfo>) -> bool {
    forall|i: int|
        0 <= i < info.len() && !is_full(#[trigger] info[i]) ==> storage_of(
            info,
            info[i].register,
        ) is Some
}

/// In metadata with distinct indices, an index names the one entry that has it.
pub proof fn lemma_entry_of(info: Seq<RegisterInfo>, j: int)
    requires
        distinct_indices(info),
        0 <= j < info.len(),
    ensures
        entry_of(info, info[j].register) == Some(j),
{
    let c = choose|c: int| 0 <= c < info.len() && #[trigger] info[c].register == info[j].register;
    if c < j {
        assert(info[c].register != info[j].register);
    } else if j < c {
        assert(info[j].register != info[c].register);
    }
}

/// Why metadata cannot make a bank, if it cannot: two registers with one index, then a
/// full register of an unsupported width, then an alias that reaches no full register.
pub open spec fn bank_error(info: Seq<RegisterInfo>) -> Option<Error> {
    if !distinct_indices(info) {
        Some(Error::DuplicateRegister)
    } else if !widths_supported(info) {
        Some(Error::UnsupportedRegisterSize)
    } else if !aliases_resolve(info) {
        Some(Error::UnresolvedAlias)
    } else {
        None
    }
}

/// One stored register: its name and its bytes, least significant first.
pub struct Register {
    pub name: String,
    pub value: Vec<u8>,
}

impl Register {
    /// A register of `size` bytes, all zero.
    pub fn new(name: String, size: usize) -> (r: Self)
        ensures
            r.name == name,
            r.value@ == Seq::new(size as nat, |i: int| 0u8),
    {
        let mut value: Vec<u8> = Vec::new();
        while value.len() < size
            invariant
                value.len() <= size,
                forall|i: int| 0 <= i < value.len() ==> value@[i] == 0u8,
            decreases size - value.len(),
        {
            value.push(0u8);
        }
        assert(value@ =~= Seq::new(size as nat, |i: int| 0u8));
        Register { name, value }
    }

    /// Writes `value` over the register's bytes, from the first byte on.
    pub fn write(&mut self, value: &[u8])
        ensures
            final(self).name == old(self).name,
            final(self).value@ == overwrite(old(self).value@, value@),
    {
        let n = self.value.len();
        let mut i: usize = 0;
        while i < n && i < value.len()
            invariant
                i <= n,
                i <= value.len(),
                n == old(self).value.len(),
                self.name == old(self).name,
                self.value.len() == n,
                forall|k: int| 0 <= k < i ==> self.value@[k] == value@[k],
                forall|k: int| i <= k < n ==> self.value@[k] == old(self).value@[k],
            decreases n - i,
        {
            self.value.set(i, value[i]);
            i = i + 1;
        }
        assert forall|k: int| 0 <= k < n implies self.value@[k] == overwrite(
            old(self).value@,
            value@,
        )[k] by {
            if k < i {
            } else {
                assert(k >= value@.len());
            }
        }
        assert(self.value@ =~= overwrite(old(self).value@, value@));
    }

    /// "name : value", the value in hexadecimal with two digits per byte.
    pub fn to_string(&self) -> (r: String)
        ensures
            r@ == self.name@ + " : "@ + le_hex(self.value@),
    {
        let mut s = self.name.clone();
        s.append(" : ");
        push_le_hex(&mut s, self.value.as_slice());
        s
    }
}

/// The register bank: the full registers, and for every register index the position of the
/// full register that stores it.
pub struct Registers {
    pub registers: Vec<Register>,
    pub lookup: BTreeMap<usize, usize>,
}

impl Registers {
    pub open spec fn wf(&self) -> bool {
        &&& forall|k: usize| #[trigger]
            self.lookup@.contains_key(k) ==> self.lookup@[k] < self.registers.len()
        &&& forall|p: int|
            0 <= p < self.registers.len() ==> supported_width(
                #[trigger] self.registers@[p].value.len() as int,
            )
    }

    /// The bytes of every full register.
    pub open spec fn values(&self) -> Seq<Seq<u8>> {
        self.registers@.map_values(|r: Register| r.value@)
    }

    /// The names of the full registers.
    pub open spec fn names(&self) -> Seq<String> {
        self.registers@.map_values(|r: Register| r.name)
    }

    /// Builds the bank from register metadata: full registers start at zero, aliases share
    /// the storage of the register they name.
    pub fn new(info: &[RegisterInfo]) -> (r: Result<Self, Error>)
        ensures
            match bank_error(info@) {
                Some(e) => r == Err::<Self, Error>(e),
                None => r matches Ok(b) && b.wf() && b.built_from(info@),
            },
    {
        if !Self::check_distinct(info) {
            return Err(Error::DuplicateRegister);
        }
        if !Self::check_widths(info) {
            return Err(Error::UnsupportedRegisterSize);
        }
        let mut registers: Vec<Register> = Vec::new();
        let mut lookup: BTreeMap<usize, usize> = BTreeMap::new();
        let mut links: BTreeMap<u32, u32> = BTreeMap::new();
        let ghost mut owner: Seq<int> = Seq::empty();
        let mut i: usize = 0;
        while i < info.len()
            invariant
                i <= info.len(),
                distinct_indices(info@),
                widths_supported(info@),
                owner.len() == registers.len(),
                forall|p: int|
                    0 <= p < owner.len() ==> 0 <= #[trigger] owner[p] < i && is_full(
                        info@[owner[p]],
                    ) && lookup@[info@[owner[p]].register as usize] == p,
                forall|k: usize|
                    lookup@.contains_key(k) <==> exists|j: int|
                        0 <= j < i && is_full(info@[j]) && #[trigger] info@[j].register as usize
                            == k,
                forall|j: int|
                    0 <= j < i && is_full(#[trigger] info@[j]) ==> slot_holds(
                        lookup@,
                        registers@,
                        info@[j],
                    ),
                forall|a: int, b: int|
                    0 <= a < b < i && is_full(#[trigger] info@[a]) && is_full(#[trigger] info@[b])
                        ==> lookup@[info@[a].register as usize] < lookup@[info@[b].register as usize],
                forall|k: u32|
                    links@.contains_key(k) <==> exists|j: int|
                        0 <= j < i && !is_full(info@[j]) && #[trigger] info@[j].register == k,
                forall|j: int|
                    0 <= j < i && !is_full(#[trigger] info@[j]) ==> links@[info@[j].register]
                        == info@[j].full_register->0,
            decreases info.len() - i,
        {
            let r = &info[i];
            match r.full_register {
                Some(f) => {
                    links.insert(r.register, f);
                    proof {
                        assert forall|j: int| 0 <= j < i implies #[trigger] info@[j].register
                            != r.register by {
                            assert(info@[j].register != info@[i as int].register);
                        }
                        assert forall|k: u32|
                            links@.contains_key(k) <==> exists|j: int|
                                0 <= j < i + 1 && !is_full(info@[j]) && #[trigger] info@[j].register
                                    == k by {
                            if links@.contains_key(k) && k == r.register {
                                assert(info@[i as int].register == k);
                            }
                        }
                    }
                },
                None => {},
            }
            if r.full_register.is_none() {
                let pos = registers.len();
                registers.push(Register::new(r.name.clone(), r.size as usize));
                lookup.insert(r.register as usize, pos);
                proof {
                    owner = owner.push(i as int);
                    assert forall|j: int| 0 <= j < i implies #[trigger] info@[j].register as usize
                        != r.register as usize by {
                        assert(info@[j].register != info@[i as int].register);
                    }
                }
            }
            proof {
                assert forall|k: usize|
                    lookup@.contains_key(k) <==> exists|j: int|
                        0 <= j < i + 1 && is_full(info@[j]) && #[trigger] info@[j].register as usize
                            == k by {
                    if lookup@.contains_key(k) && !(exists|j: int|
                        0 <= j < i && is_full(info@[j]) && #[trigger] info@[j].register as usize
                            == k) {
                        assert(info@[i as int].register as usize == k);
                    }
                }
            }
            i = i + 1;
        }
        let full = lookup.clone();
        let mut i: usize = 0;
        while i < info.len()
            invariant
                i <= info.len(),
                distinct_indices(info@),
                widths_supported(info@),
                owner.len() == registers.len(),
                forall|p: int|
                    0 <= p < owner.len() ==> 0 <= #[trigger] owner[p] < info.len() && is_full(
                        info@[owner[p]],
                    ) && lookup@[info@[owner[p]].register as usize] == p,
                forall|j: int|
                    0 <= j < info.len() && is_full(#[trigger] info@[j]) ==> slot_holds(
                        lookup@,
                        registers@,
                        info@[j],
                    ),
                forall|a: int, b: int|
                    0 <= a < b < info.len() && is_full(#[trigger] info@[a]) && is_full(
                        #[trigger] info@[b],
                    ) ==> lookup@[info@[a].register as usize] < lookup@[info@[b].register as usize],
                forall|k: usize|
                    full@.contains_key(k) <==> exists|j: int|
                        0 <= j < info.len() && is_full(info@[j]) && #[trigger] info@[j].register as usize
                            == k,
                forall|k: usize|
                    #[trigger] full@.contains_key(k) ==> lookup@.contains_key(k) && lookup@[k]
                        == full@[k],
                forall|k: usize| #[trigger] full@.contains_key(k) ==> full@[k] < registers.len(),
                forall|k: u32|
                    links@.contains_key(k) <==> exists|j: int|
                        0 <= j < info.len() && !is_full(info@[j]) && #[trigger] info@[j].register
                            == k,
                forall|j: int|
                    0 <= j < info.len() && !is_full(#[trigger] info@[j]) ==> links@[info@[j].register]
                        == info@[j].full_register->0,
                forall|k: usize|
                    lookup@.contains_key(k) <==> exists|j: int|
                        0 <= j < info.len() && (is_full(info@[j]) || j < i) && #[trigger] info@[j].register as usize
                            == k,
                forall|j: int|
                    0 <= j < i && !is_full(#[trigger] info@[j]) ==> storage_of(
                        info@,
                        info@[j].register,
                    ) is Some && full@.contains_key(
                        storage_of(info@, info@[j].register)->0 as usize,
                    ) && lookup@[info@[j].register as usize] == full@[storage_of(
                        info@,
                        info@[j].register,
                    )->0 as usize],
            decreases info.len() - i,
        {
            let r = &info[i];
            if r.full_register.is_some() {
                match Self::resolve(info, &full, &links, r.register, info.len()) {
                    Some(pos) => {
                        lookup.insert(r.register as usize, pos);
                        proof {
                            assert forall|j: int| 0 <= j < info.len() && j != i implies
                                #[trigger] info@[j].register as usize != r.register as usize by {
                                if j < i {
                                    assert(info@[j].register != info@[i as int].register);
                                } else {
                                    assert(info@[i as int].register != info@[j].register);
                                }
                            }
                        }
                    },
                    None => {
                        return Err(Error::UnresolvedAlias);
                    },
                }
            }
            proof {
                assert forall|k: usize|
                    lookup@.contains_key(k) <==> exists|j: int|
                        0 <= j < info.len() && (is_full(info@[j]) || j < i + 1) && #[trigger] info@[j].register as usize
                            == k by {
                    if lookup@.contains_key(k) && !(exists|j: int|
                        0 <= j < info.len() && (is_full(info@[j]) || j < i) && #[trigger] info@[j].register as usize
                            == k) {
                        assert(info@[i as int].register as usize == k);
                    }
                }
            }
            i = i + 1;
        }
        let b = Registers { registers, lookup };
        proof {
            assert forall|p: int| 0 <= p < b.registers.len() implies #[trigger] b.owned(info@, p) by {
                assert(is_full(info@[owner[p]]));
            }
            assert forall|k: usize| #[trigger] b.lookup@.contains_key(k) implies b.lookup@[k] < b.registers.len() by {
                let j = choose|j: int| 0 <= j < info.len() && (is_full(info@[j]) || j < info.len()) && #[trigger] info@[j].register as usize == k;
                if !is_full(info@[j]) {
                } else {
                    assert(slot_holds(b.lookup@, b.registers@, info@[j]));
                }
            }
            assert forall|p: int| 0 <= p < b.registers.len() implies supported_width(
                #[trigger] b.registers@[p].value.len() as int) by {
                assert(slot_holds(b.lookup@, b.registers@, info@[owner[p]]));
            }
        }
        Ok(b)
    }

    /// The bank holds what `info` describes: every index of `info` and no other resolves; a
    /// full register's slot holds its name and as many zero bytes as its width; an alias
    /// shares the slot of the full register that its chain of aliases reaches; slots follow the order of the full
    /// registers in `info`, and each slot belongs to one of them.
    pub open spec fn built_from(&self, info: Seq<RegisterInfo>) -> bool {
        &&& forall|k: usize|
            self.lookup@.contains_key(k) <==> exists|i: int|
                0 <= i < info.len() && #[trigger] info[i].register as usize == k
        &&& forall|i: int|
            0 <= i < info.len() && is_full(#[trigger] info[i]) ==> slot_holds(
                self.lookup@,
                self.registers@,
                info[i],
            )
        &&& forall|i: int|
            0 <= i < info.len() && !is_full(#[trigger] info[i]) ==> storage_of(
                info,
                info[i].register,
            ) is Some && self.lookup@.contains_key(storage_of(info, info[i].register)->0 as usize)
                && self.lookup@[info[i].register as usize] == self.lookup@[storage_of(
                info,
                info[i].register,
            )->0 as usize]
        &&& forall|a: int, b: int|
            0 <= a < b < info.len() && is_full(#[trigger] info[a]) && is_full(#[trigger] info[b])
                ==> self.lookup@[info[a].register as usize] < self.lookup@[info[b].register as usize]
        &&& forall|p: int| 0 <= p < self.registers.len() ==> #[trigger] self.owned(info, p)
    }

    /// Slot `p` is the slot of some full register of `info`.
    pub open spec fn owned(&self, info: Seq<RegisterInfo>, p: int) -> bool {
        exists|i: int|
            0 <= i < info.len() && is_full(#[trigger] info[i]) && self.lookup@[info[i].register as usize] == p
    }

    /// Follows aliases from index `start`, at most `hops` times, to a full register, and
    /// gives its slot.
    fn resolve(
        info: &[RegisterInfo],
        full: &BTreeMap<usize, usize>,
        links: &BTreeMap<u32, u32>,
        start: u32,
        hops: usize,
    ) -> (r: Option<usize>)
        requires
            distinct_indices(info@),
            forall|k: usize|
                full@.contains_key(k) <==> exists|j: int|
                    0 <= j < info.len() && is_full(info@[j]) && #[trigger] info@[j].register as usize
                        == k,
            forall|k: u32|
                links@.contains_key(k) <==> exists|j: int|
                    0 <= j < info.len() && !is_full(info@[j]) && #[trigger] info@[j].register
                        == k,
            forall|j: int|
                0 <= j < info.len() && !is_full(#[trigger] info@[j]) ==> links@[info@[j].register]
                    == info@[j].full_register->0,
        ensures
            match chase(info@, start, hops as nat) {
                Some(t) => full@.contains_key(t as usize) && r == Some(full@[t as usize]),
                None => r is None,
            },
    {
        let mut cur: u32 = start;
        let mut budget: usize = hops;
        loop
            invariant
                chase(info@, start, hops as nat) == chase(info@, cur, budget as nat),
                distinct_indices(info@),
                forall|k: usize|
                    full@.contains_key(k) <==> exists|j: int|
                        0 <= j < info.len() && is_full(info@[j]) && #[trigger] info@[j].register as usize
                            == k,
                forall|k: u32|
                    links@.contains_key(k) <==> exists|j: int|
                        0 <= j < info.len() && !is_full(info@[j]) && #[trigger] info@[j].register
                            == k,
                forall|j: int|
                    0 <= j < info.len() && !is_full(#[trigger] info@[j]) ==> links@[info@[j].register]
                        == info@[j].full_register->0,
            decreases budget,
        {
            if let Some(pos) = full.get(&(cur as usize)) {
                proof {
                    let j = choose|j: int|
                        0 <= j < info.len() && is_full(info@[j]) && #[trigger] info@[j].register as usize
                            == cur as usize;
                    lemma_entry_of(info@, j);
                }
                return Some(*pos);
            }
            match links.get(&cur) {
                Some(next) => {
                    proof {
                        let j = choose|j: int|
                            0 <= j < info.len() && !is_full(info@[j]) && #[trigger] info@[j].register
                                == cur;
                        lemma_entry_of(info@, j);
                    }
                    if budget == 0 {
                        return None;
                    }
                    cur = *next;
                    budget = budget - 1;
                },
                None => {
                    proof {
                        assert forall|j: int| 0 <= j < info.len() implies #[trigger] info@[j].register
                            != cur by {
                            if is_full(info@[j]) {
                                assert(info@[j].register as usize != cur as usize);
                            }
                        }
                    }
                    return None;
                },
            }
        }
    }

    fn check_distinct(info: &[RegisterInfo]) -> (r: bool)
        ensures
            r == distinct_indices(info@),
    {
        let mut seen: BTreeMap<u32, usize> = BTreeMap::new();
        let mut i: usize = 0;
        while i < info.len()
            invariant
                i <= info.len(),
                forall|a: int, b: int|
                    0 <= a < b < i ==> #[trigger] info@[a].register != #[trigger] info@[b].register,
                forall|j: int| 0 <= j < i ==> #[trigger] seen@.contains_key(info@[j].register),
                forall|k: u32|
                    #[trigger] seen@.contains_key(k) ==> seen@[k] < i && info@[seen@[k] as int].register
                        == k,
            decreases info.len() - i,
        {
            let reg = info[i].register;
            match seen.get(&reg) {
                Some(j) => {
                    assert(info@[*j as int].register == info@[i as int].register);
                    return false;
                },
                None => {},
            }
            seen.insert(reg, i);
            i = i + 1;
        }
        true
    }

    fn check_widths(info: &[RegisterInfo]) -> (r: bool)
        ensures
            r == widths_supported(info@),
    {
        let mut i: usize = 0;
        while i < info.len()
            invariant
                i <= info.len(),
                forall|j: int|
                    0 <= j < i && is_full(#[trigger] info@[j]) ==> supported_width(
                        info@[j].size as int,
                    ),
            decreases info.len() - i,
        {
            let r = &info[i];
            if r.full_register.is_none() {
                let w = r.size;
                if !(w == 1 || w == 2 || w == 3 || w == 4 || w == 6 || w == 8 || w == 16) {
                    return false;
                }
            }
            i = i + 1;
        }
        true
    }

    /// Writes `value` into the register that stores index `idx`; an index that no register
    /// has changes nothing.
    pub fn write(&mut self, idx: usize, value: &[u8])
        requires
            old(self).wf(),
        ensures
            final(self).wf(),
            final(self).lookup@ == old(self).lookup@,
            final(self).names() == old(self).names(),
            final(self).values() == write_values(old(self).lookup@, old(self).values(), idx, value@),
    {
        match self.lookup.get(&idx) {
            Some(pos) => {
                let pos = *pos;
                self.registers[pos].write(value);
                proof {
                    assert forall|p: int| 0 <= p < self.registers.len() implies supported_width(
                        #[trigger] self.registers@[p].value.len() as int) by {
                        assert(self.registers@[p].value.len() == old(self).registers@[p].value.len());
                    }
                    assert(self.values() =~= write_values(old(self).lookup@, old(self).values(), idx, value@));
                    assert(self.names() =~= old(self).names());
                }
            },
            None => {},
        }
    }

    /// Puts back the whole content of the register in slot `pos`.
    pub fn restore(&mut self, pos: usize, value: Vec<u8>)
        requires
            old(self).wf(),
            pos < old(self).registers.len(),
            value.len() == old(self).registers@[pos as int].value.len(),
        ensures
            final(self).wf(),
            final(self).lookup@ == old(self).lookup@,
            final(self).names() == old(self).names(),
            final(self).values() == old(self).values().update(pos as int, value@),
    {
        self.registers[pos].value = value;
        proof {
            assert forall|p: int| 0 <= p < self.registers.len() implies supported_width(
                #[trigger] self.registers@[p].value.len() as int) by {
                assert(self.registers@[p].value.len() == old(self).registers@[p].value.len());
            }
            assert(self.values() =~= old(self).values().update(pos as int, value@));
            assert(self.names() =~= old(self).names());
        }
    }

    /// The bytes now held in slot `pos`.
    pub fn slot_value(&self, pos: usize) -> (r: Vec<u8>)
        requires
            pos < self.registers.len(),
        ensures
            r@ == self.values()[pos as int],
    {
        let r = self.registers[pos].value.clone();
        assert(r@ =~= self.registers@[pos as int].value@);
        r
    }

    /// The full registers, in the order of the metadata.
    pub fn iter(&self) -> (r: &[Register])
        ensures
            r@ == self.registers@,
    {
        self.registers.as_slice()
    }
}

/// The slot of full register `r` exists and holds its name and as many zero bytes as its width.
pub open spec fn slot_holds(lookup: Map<usize, usize>, regs: Seq<Register>, r: RegisterInfo) -> bool {
    let k = r.register as usize;
    &&& lookup.contains_key(k)
    &&& lookup[k] < regs.len()
    &&& regs[lookup[k] as int].name == r.name
    &&& regs[lookup[k] as int].value@ == Seq::new(r.size as nat, |i: int| 0u8)
}

/// The register contents after `value` is written through index `idx`.
pub open spec fn write_values(
    lookup: Map<usize, usize>,
    vals: Seq<Seq<u8>>,
    idx: usize,
    value: Seq<u8>,
) -> Seq<Seq<u8>> {
    if lookup.contains_key(idx) && lookup[idx] < vals.len() {
        vals.update(lookup[idx] as int, overwrite(vals[lookup[idx] as int], value))
    } else {
        vals
    }
}

/// In a bank built from `info`, a write through an alias changes the same bytes as the same
/// write through the full register that stores it.
pub proof fn lemma_alias_write_is_direct_write(
    b: Registers,
    info: Seq<RegisterInfo>,
    i: int,
    vals: Seq<Seq<u8>>,
    value: Seq<u8>,
)
    requires
        bank_error(info) is None,
        b.built_from(info),
        0 <= i < info.len(),
        !is_full(info[i]),
    ensures
        write_values(b.lookup@, vals, info[i].register as usize, value) == write_values(
            b.lookup@,
            vals,
            storage_of(info, info[i].register)->0 as usize,
            value,
        ),
{
}

/// In a bank built from `info`, two writes through two aliases of one full register land in
/// that register in program order: the second write goes over the first.
pub proof fn lemma_alias_writes_in_order(
    b: Registers,
    info: Seq<RegisterInfo>,
    i: int,
    j: int,
    first: Seq<u8>,
    second: Seq<u8>,
)
    requires
        bank_error(info) is None,
        b.wf(),
        b.built_from(info),
        0 <= i < info.len(),
        0 <= j < info.len(),
        !is_full(info[i]),
        !is_full(info[j]),
        storage_of(info, info[i].register) == storage_of(info, info[j].register),
    ensures
        ({
            let p = b.lookup@[storage_of(info, info[i].register)->0 as usize] as int;
            let after = write_values(
                b.lookup@,
                write_values(b.lookup@, b.values(), info[i].register as usize, first),
                info[j].register as usize,
                second,
            );
            &&& 0 <= p < b.registers.len()
            &&& after == b.values().update(p, overwrite(overwrite(b.values()[p], first), second))
        }),
{
    let p = b.lookup@[storage_of(info, info[i].register)->0 as usize] as int;
    assert(b.lookup@.contains_key(info[i].register as usize));
    assert(b.lookup@.contains_key(info[j].register as usize));
    assert(b.values().update(p, overwrite(b.values()[p], first)).update(
        p,
        overwrite(overwrite(b.values()[p], first), second),
    ) =~= b.values().update(p, overwrite(overwrite(b.values()[p], first), second)));
}

} // verus!
