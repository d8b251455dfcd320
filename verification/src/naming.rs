//! The prefix rule: one pure function of the original symbol name.
//!
//! Both the archive rewrite and the binding generation derive the new name
//! of a symbol through this module, so the two paths agree by construction.

use vstd::prelude::*;

verus! {

/// The bytes of the global symbol prefix, `BSSL` in ASCII.
pub open spec fn prefix_spec() -> Seq<u8> {
    seq![66u8, 83u8, 83u8, 76u8]
}

/// The renaming rule: `prefixed(n) == "BSSL" + "_" + n`.
pub open spec fn prefixed(name: Seq<u8>) -> Seq<u8> {
    prefix_spec() + seq![95u8] + name
}

/// The global symbol prefix as bytes.
pub fn prefix_bytes() -> (p: Vec<u8>)
    ensures
        p@ == prefix_spec(),
{
    let mut p: Vec<u8> = Vec::new();
    p.push(66);
    p.push(83);
    p.push(83);
    p.push(76);
    proof {
        assert(p@ =~= prefix_spec());
    }
    p
}

/// Derives the prefixed name of a symbol: the prefix, an underscore, and
/// the original name.
pub fn prefixed_name(name: &[u8]) -> (r: Vec<u8>)
    ensures
        r@ == prefixed(name@),
{
    let mut r = prefix_bytes();
    r.push(95);
    let mut i: usize = 0;
    while i < name.len()
        invariant
            i <= name.len(),
            r@ == prefix_spec() + seq![95u8] + name@.take(i as int),
        decreases name.len() - i,
    {
        r.push(name[i]);
        i = i + 1;
        proof {
            assert(r@ =~= prefix_spec() + seq![95u8] + name@.take(i as int));
        }
    }
    proof {
        assert(name@.take(name@.len() as int) =~= name@);
    }
    r
}

/// Naming hook handed to the binding generator: rewrites every generated
/// link name with the same rule the archive rewrite uses.
pub struct SymbolPrefixCallbacks;

impl SymbolPrefixCallbacks {
    /// The override the binding generator applies to a declared symbol
    /// name: always the prefixed name.
    pub fn generated_link_name_override(&self, name: &[u8]) -> (r: Option<Vec<u8>>)
        ensures
            r matches Some(p) && p@ == prefixed(name@),
    {
        Some(prefixed_name(name))
    }
}

} // verus!
