use vstd::prelude::*;
use vstd::std_specs::cmp::PartialEqSpecImpl;

verus! {

/// The entity to which stake is delegated and which may lead slots: an opaque
/// key of 32 bytes. Identities are totally ordered as byte strings, the first
/// byte being the most significant.
#[derive(Clone, Copy, Debug, Eq, Hash)]
pub struct Identity {
    pub bytes: [u8; 32],
}

impl View for Identity {
    type V = Seq<u8>;

    open spec fn view(&self) -> Seq<u8> {
        self.bytes@
    }
}

/// `a` comes strictly before `b` in the byte-wise order: they agree up to some
/// position, where `a` holds the smaller byte.
pub open spec fn bytes_before(a: Seq<u8>, b: Seq<u8>) -> bool {
    exists|k: int| differ_first_at(a, b, k) && a[k] < b[k]
}

/// `k` is the first position at which `a` and `b` differ.
pub open spec fn differ_first_at(a: Seq<u8>, b: Seq<u8>, k: int) -> bool {
    &&& 0 <= k < a.len()
    &&& k < b.len()
    &&& a[k] != b[k]
    &&& forall|j: int| 0 <= j < k ==> a[j] == b[j]
}

impl Identity {
    /// The identity made of the given bytes.
    pub fn new(bytes: [u8; 32]) -> (id: Identity)
        ensures
            id.bytes == bytes,
            id@ == bytes@,
    {
        Identity { bytes }
    }

    /// The bytes of this identity.
    pub fn to_bytes(&self) -> (bytes: [u8; 32])
        ensures
            bytes == self.bytes,
    {
        self.bytes
    }

    /// `self` is strictly smaller than `other`.
    pub open spec fn before(&self, other: &Identity) -> bool {
        bytes_before(self@, other@)
    }

    /// Tells whether `self` is strictly smaller than `other`.
    pub fn precedes(&self, other: &Identity) -> (r: bool)
        ensures
            r == self.before(other),
    {
        let mut i: usize = 0;
        while i < 32
            invariant
                i <= 32,
                forall|j: int| 0 <= j < i ==> self@[j] == other@[j],
            decreases 32 - i,
        {
            if self.bytes[i] < other.bytes[i] {
                assert(differ_first_at(self@, other@, i as int));
                return true;
            }
            if self.bytes[i] > other.bytes[i] {
                return false;
            }
            i += 1;
        }
        false
    }

    /// Two identities with the same bytes are the same identity.
    pub proof fn lemma_view_injective(a: Identity, b: Identity)
        requires
            a@ == b@,
        ensures
            a == b,
    {
        assert(a.bytes =~= b.bytes);
    }

    /// Of two different identities, one comes before the other, and only
    /// one; no identity comes before itself.
    pub proof fn lemma_before_total(a: Identity, b: Identity)
        ensures
            a == b || a.before(&b) || b.before(&a),
            !(a.before(&b) && b.before(&a)),
            !a.before(&a),
    {
        if a != b {
            if a@ == b@ {
                Self::lemma_view_injective(a, b);
            }
            let k = lemma_first_difference(a@, b@, 0);
            assert(differ_first_at(b@, a@, k));
        }
    }

    /// The order of identities is transitive.
    pub proof fn lemma_before_transitive(a: Identity, b: Identity, c: Identity)
        requires
            a.before(&b),
            b.before(&c),
        ensures
            a.before(&c),
    {
        let k1 = choose|k: int| differ_first_at(a@, b@, k) && a@[k] < b@[k];
        let k2 = choose|k: int| differ_first_at(b@, c@, k) && b@[k] < c@[k];
        let k = if k1 <= k2 { k1 } else { k2 };
        assert(differ_first_at(a@, c@, k));
    }
}

impl PartialEq for Identity {
    fn eq(&self, other: &Identity) -> (r: bool) {
        let mut i: usize = 0;
        while i < 32
            invariant
                i <= 32,
                forall|j: int| 0 <= j < i ==> self.bytes[j] == other.bytes[j],
            decreases 32 - i,
        {
            if self.bytes[i] != other.bytes[i] {
                return false;
            }
            i += 1;
        }
        assert(self.bytes =~= other.bytes);
        true
    }
}

impl PartialEqSpecImpl for Identity {
    open spec fn obeys_eq_spec() -> bool {
        true
    }

    open spec fn eq_spec(&self, other: &Identity) -> bool {
        *self == *other
    }
}

/// Where two byte strings of one length differ, there is a first position at
/// which they do.
proof fn lemma_first_difference(a: Seq<u8>, b: Seq<u8>, from: int) -> (k: int)
    requires
        a.len() == b.len(),
        a != b,
        0 <= from <= a.len(),
        forall|j: int| 0 <= j < from ==> a[j] == b[j],
    ensures
        differ_first_at(a, b, k),
    decreases a.len() - from,
{
    if from == a.len() {
        assert(a =~= b);
        from
    } else if a[from] != b[from] {
        from
    } else {
        lemma_first_difference(a, b, from + 1)
    }
}

} // verus!
