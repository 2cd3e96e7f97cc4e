//! The symbol table: names mapped to 16-bit addresses, seeded with the
//! predefined architecture symbols, extended by the two passes and never
//! shrunk.

use vstd::prelude::*;
use vstd::string::StringExecFns;
use crate::scan::str_eq;

verus! {

broadcast use vstd::string::group_string_axioms;

/// The mapping that a list of name/address entries denotes: a later entry
/// for the same name overrides an earlier one.
pub open spec fn entries_map(s: Seq<(String, u16)>) -> Map<Seq<char>, u16>
    decreases s.len(),
{
    if s.len() == 0 {
        Map::empty()
    } else {
        entries_map(s.drop_last()).insert(s.last().0@, s.last().1)
    }
}

/// What a lookup in mapping `m` returns for name `k`.
pub open spec fn spec_lookup(m: Map<Seq<char>, u16>, k: Seq<char>) -> Option<u16> {
    if m.contains_key(k) {
        Some(m[k])
    } else {
        None
    }
}

/// A mapping from symbol names to 16-bit addresses. Entries are appended and
/// never removed; an insert for a present name overrides it.
pub struct SymbolTable {
    entries: Vec<(String, u16)>,
}

impl View for SymbolTable {
    type V = Map<Seq<char>, u16>;

    closed spec fn view(&self) -> Map<Seq<char>, u16> {
        entries_map(self.entries@)
    }
}

/// The symbols present before any scanning: the five named pointers, the
/// sixteen numbered registers (the first five sharing the pointers'
/// addresses), and the two memory-mapped devices.
pub open spec fn spec_predefined() -> Map<Seq<char>, u16> {
    Map::empty().insert("SP"@, 0).insert("LCL"@, 1).insert("ARG"@, 2).insert("THIS"@, 3).insert(
        "THAT"@,
        4,
    ).insert("R0"@, 0).insert("R1"@, 1).insert("R2"@, 2).insert("R3"@, 3).insert("R4"@, 4).insert(
        "R5"@,
        5,
    ).insert("R6"@, 6).insert("R7"@, 7).insert("R8"@, 8).insert("R9"@, 9).insert(
        "R10"@,
        10,
    ).insert("R11"@, 11).insert("R12"@, 12).insert("R13"@, 13).insert("R14"@, 14).insert(
        "R15"@,
        15,
    ).insert("SCREEN"@, 16384).insert("KBD"@, 24576)
}

impl SymbolTable {
    /// A table with no entries.
    pub fn new() -> (t: SymbolTable)
        ensures
            t@ == Map::<Seq<char>, u16>::empty(),
    {
        SymbolTable { entries: Vec::new() }
    }

    /// Maps `name` to `address`, overriding any earlier entry for `name`.
    pub fn insert(&mut self, name: &str, address: u16)
        ensures
            final(self)@ == old(self)@.insert(name@, address),
    {
        self.entries.push((String::from_str(name), address));
        proof {
            assert(self.entries@.drop_last() =~= old(self).entries@);
        }
    }

    /// The address of `name`, if the table holds one.
    pub fn lookup(&self, name: &str) -> (r: Option<u16>)
        ensures
            r == spec_lookup(self@, name@),
    {
        let n: usize = self.entries.len();
        let mut i: usize = n;
        proof {
            assert(self.entries@.take(n as int) =~= self.entries@);
        }
        while i > 0
            invariant
                0 <= i <= n,
                n == self.entries@.len(),
                spec_lookup(entries_map(self.entries@), name@) == spec_lookup(
                    entries_map(self.entries@.take(i as int)),
                    name@,
                ),
            decreases i,
        {
            let hit = str_eq(self.entries[i - 1].0.as_str(), name);
            proof {
                assert(self.entries@.take(i as int).drop_last() =~= self.entries@.take(i - 1));
                assert(self.entries@.take(i as int).last() == self.entries@[i - 1]);
            }
            if hit {
                return Some(self.entries[i - 1].1);
            }
            i = i - 1;
        }
        proof {
            assert(self.entries@.take(0) =~= Seq::<(String, u16)>::empty());
        }
        None
    }

    /// The table holding exactly the predefined symbols.
    pub fn predefined() -> (t: SymbolTable)
        ensures
            t@ == spec_predefined(),
    {
        let mut t = SymbolTable::new();
        t.insert("SP", 0);
        t.insert("LCL", 1);
        t.insert("ARG", 2);
        t.insert("THIS", 3);
        t.insert("THAT", 4);
        t.insert("R0", 0);
        t.insert("R1", 1);
        t.insert("R2", 2);
        t.insert("R3", 3);
        t.insert("R4", 4);
        t.insert("R5", 5);
        t.insert("R6", 6);
        t.insert("R7", 7);
        t.insert("R8", 8);
        t.insert("R9", 9);
        t.insert("R10", 10);
        t.insert("R11", 11);
        t.insert("R12", 12);
        t.insert("R13", 13);
        t.insert("R14", 14);
        t.insert("R15", 15);
        t.insert("SCREEN", 16384);
        t.insert("KBD", 24576);
        t
    }
}

/// The numbered registers 0 to 4 share the addresses of the five named
/// pointers: both names of each pair resolve to the same place, by design of
/// the architecture.
pub proof fn lemma_predefined_aliases()
    ensures
        spec_predefined().contains_key("SP"@) && spec_predefined()["SP"@] == 0,
        spec_predefined().contains_key("LCL"@) && spec_predefined()["LCL"@] == 1,
        spec_predefined().contains_key("ARG"@) && spec_predefined()["ARG"@] == 2,
        spec_predefined().contains_key("THIS"@) && spec_predefined()["THIS"@] == 3,
        spec_predefined().contains_key("THAT"@) && spec_predefined()["THAT"@] == 4,
        spec_predefined()["R0"@] == spec_predefined()["SP"@],
        spec_predefined()["R1"@] == spec_predefined()["LCL"@],
        spec_predefined()["R2"@] == spec_predefined()["ARG"@],
        spec_predefined()["R3"@] == spec_predefined()["THIS"@],
        spec_predefined()["R4"@] == spec_predefined()["THAT"@],
        spec_predefined().contains_key("SCREEN"@) && spec_predefined()["SCREEN"@] == 16384,
        spec_predefined().contains_key("KBD"@) && spec_predefined()["KBD"@] == 24576,
{
    reveal_strlit("SP");
    reveal_strlit("LCL");
    reveal_strlit("ARG");
    reveal_strlit("THIS");
    reveal_strlit("THAT");
    reveal_strlit("R0");
    reveal_strlit("R1");
    reveal_strlit("R2");
    reveal_strlit("R3");
    reveal_strlit("R4");
    reveal_strlit("R5");
    reveal_strlit("R6");
    reveal_strlit("R7");
    reveal_strlit("R8");
    reveal_strlit("R9");
    reveal_strlit("R10");
    reveal_strlit("R11");
    reveal_strlit("R12");
    reveal_strlit("R13");
    reveal_strlit("R14");
    reveal_strlit("R15");
    reveal_strlit("SCREEN");
    reveal_strlit("KBD");
    assert("SP"@ =~= seq!['S', 'P']);
    assert("LCL"@ =~= seq!['L', 'C', 'L']);
    assert("ARG"@ =~= seq!['A', 'R', 'G']);
    assert("THIS"@ =~= seq!['T', 'H', 'I', 'S']);
    assert("THAT"@ =~= seq!['T', 'H', 'A', 'T']);
    assert("R0"@ =~= seq!['R', '0']);
    assert("R1"@ =~= seq!['R', '1']);
    assert("R2"@ =~= seq!['R', '2']);
    assert("R3"@ =~= seq!['R', '3']);
    assert("R4"@ =~= seq!['R', '4']);
    assert("R5"@ =~= seq!['R', '5']);
    assert("R6"@ =~= seq!['R', '6']);
    assert("R7"@ =~= seq!['R', '7']);
    assert("R8"@ =~= seq!['R', '8']);
    assert("R9"@ =~= seq!['R', '9']);
    assert("R10"@ =~= seq!['R', '1', '0']);
    assert("R11"@ =~= seq!['R', '1', '1']);
    assert("R12"@ =~= seq!['R', '1', '2']);
    assert("R13"@ =~= seq!['R', '1', '3']);
    assert("R14"@ =~= seq!['R', '1', '4']);
    assert("R15"@ =~= seq!['R', '1', '5']);
    assert("SCREEN"@ =~= seq!['S', 'C', 'R', 'E', 'E', 'N']);
    assert("KBD"@ =~= seq!['K', 'B', 'D']);
}


} // verus!
