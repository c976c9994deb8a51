//! Newtype string identifiers.
//!
//! A tradable `Symbol` and a graph-node `EntityId` are both, structurally,
//! strings, but they are never interchangeable: distinct newtypes make
//! passing one where the other is expected fail to compile.

use vstd::prelude::*;

verus! {

/// A tradable instrument identifier (e.g. an equity ticker).
#[derive(Debug, Clone, Eq, Hash, PartialOrd, Ord)]
pub struct Symbol(pub String);

/// A financial entity identifier: a company, sector, or any other node a
/// graph can reference. Distinct from [`Symbol`] because not every entity
/// is directly tradable (e.g. a sector rollup).
#[derive(Debug, Clone, Eq, Hash, PartialOrd, Ord)]
pub struct EntityId(pub String);

impl Symbol {
    pub open spec fn view(&self) -> Seq<char> {
        self.0@
    }

    pub fn new(s: &str) -> (r: Self)
        ensures
            r@ == s@,
    {
        Symbol(s.to_owned())
    }

    pub fn as_str(&self) -> (r: &str)
        ensures
            r@ == self@,
    {
        self.0.as_str()
    }

    /// The entity identifier with the same text.
    pub fn to_entity(&self) -> (r: EntityId)
        ensures
            r@ == self@,
    {
        EntityId(self.0.clone())
    }
}

impl EntityId {
    pub open spec fn view(&self) -> Seq<char> {
        self.0@
    }

    pub fn new(s: &str) -> (r: Self)
        ensures
            r@ == s@,
    {
        EntityId(s.to_owned())
    }

    pub fn as_str(&self) -> (r: &str)
        ensures
            r@ == self@,
    {
        self.0.as_str()
    }

    /// A copy with the same text.
    pub fn copied(&self) -> (r: Self)
        ensures
            r@ == self@,
    {
        EntityId(self.0.clone())
    }
}

impl PartialEq for Symbol {
    fn eq(&self, other: &Self) -> (r: bool) {
        self.0 == other.0
    }
}

impl vstd::std_specs::cmp::PartialEqSpecImpl for Symbol {
    open spec fn obeys_eq_spec() -> bool {
        true
    }

    open spec fn eq_spec(&self, other: &Self) -> bool {
        self@ == other@
    }
}

impl PartialEq for EntityId {
    fn eq(&self, other: &Self) -> (r: bool) {
        self.0 == other.0
    }
}

impl vstd::std_specs::cmp::PartialEqSpecImpl for EntityId {
    open spec fn obeys_eq_spec() -> bool {
        true
    }

    open spec fn eq_spec(&self, other: &Self) -> bool {
        self@ == other@
    }
}

/// Byte-wise lexicographic order, the order in which identifiers compare.
pub open spec fn bytes_le(x: Seq<u8>, y: Seq<u8>) -> bool
    decreases x.len(),
{
    if x.len() == 0 {
        true
    } else if y.len() == 0 {
        false
    } else if x[0] < y[0] {
        true
    } else if x[0] > y[0] {
        false
    } else {
        bytes_le(x.drop_first(), y.drop_first())
    }
}

/// The UTF-8 bytes of an identifier's text.
pub open spec fn entity_bytes(e: &EntityId) -> Seq<u8> {
    vstd::utf8::encode_utf8(e@)
}

/// Whether `a` sorts at or before `b` (byte-wise, as identifiers order).
pub fn entity_le(a: &EntityId, b: &EntityId) -> (r: bool)
    ensures
        r == bytes_le(entity_bytes(a), entity_bytes(b)),
{
    let x = a.0.as_str().as_bytes();
    let y = b.0.as_str().as_bytes();
    let mut i: usize = 0;
    assert(x@.skip(0) == x@);
    assert(y@.skip(0) == y@);
    while i < x.len() && i < y.len()
        invariant
            x@ == entity_bytes(a),
            y@ == entity_bytes(b),
            0 <= i <= x@.len(),
            i <= y@.len(),
            bytes_le(x@, y@) == bytes_le(x@.skip(i as int), y@.skip(i as int)),
        decreases x@.len() - i,
    {
        let xi = x[i];
        let yi = y[i];
        assert(x@.skip(i as int)[0] == xi);
        assert(y@.skip(i as int)[0] == yi);
        if xi < yi {
            return true;
        }
        if xi > yi {
            return false;
        }
        assert(x@.skip(i as int).drop_first() == x@.skip(i + 1));
        assert(y@.skip(i as int).drop_first() == y@.skip(i + 1));
        i = i + 1;
    }
    if i == x.len() {
        assert(x@.skip(i as int).len() == 0);
        true
    } else {
        assert(y@.skip(i as int).len() == 0);
        false
    }
}

} // verus!
