use vstd::prelude::*;

verus! {

/// Lexicographic order on byte strings of one length.
pub open spec fn bytes_lt(a: Seq<u8>, b: Seq<u8>) -> bool
    decreases a.len(),
{
    if a.len() == 0 || b.len() == 0 {
        false
    } else if a[0] < b[0] {
        true
    } else if a[0] > b[0] {
        false
    } else {
        bytes_lt(a.drop_first(), b.drop_first())
    }
}

/// The order of principals: the shorter first, then by bytes.
pub open spec fn principal_lt(a: Seq<u8>, b: Seq<u8>) -> bool {
    a.len() < b.len() || (a.len() == b.len() && bytes_lt(a, b))
}

proof fn lemma_bytes_lt_total(a: Seq<u8>, b: Seq<u8>)
    requires
        a.len() == b.len(),
    ensures
        !bytes_lt(a, a),
        a == b || bytes_lt(a, b) || bytes_lt(b, a),
        !(bytes_lt(a, b) && bytes_lt(b, a)),
    decreases a.len(),
{
    if a.len() > 0 {
        lemma_bytes_lt_total(a.drop_first(), b.drop_first());
        if a[0] == b[0] && a.drop_first() == b.drop_first() {
            assert forall|i: int| 0 <= i < a.len() implies a[i] == b[i] by {
                if i > 0 {
                    assert(a[i] == a.drop_first()[i - 1]);
                    assert(b[i] == b.drop_first()[i - 1]);
                }
            }
            assert(a =~= b);
        }
    }
}

proof fn lemma_bytes_lt_trans(a: Seq<u8>, b: Seq<u8>, c: Seq<u8>)
    requires
        a.len() == b.len(),
        b.len() == c.len(),
        bytes_lt(a, b),
        bytes_lt(b, c),
    ensures
        bytes_lt(a, c),
    decreases a.len(),
{
    if a[0] == b[0] && b[0] == c[0] {
        lemma_bytes_lt_trans(a.drop_first(), b.drop_first(), c.drop_first());
    }
}

/// `principal_lt` is a strict total order.
pub proof fn lemma_principal_order(a: Seq<u8>, b: Seq<u8>, c: Seq<u8>)
    ensures
        !principal_lt(a, a),
        a == b || principal_lt(a, b) || principal_lt(b, a),
        !(principal_lt(a, b) && principal_lt(b, a)),
        principal_lt(a, b) && principal_lt(b, c) ==> principal_lt(a, c),
{
    lemma_bytes_lt_total(a, a);
    if a.len() == b.len() {
        lemma_bytes_lt_total(a, b);
    }
    if a.len() == b.len() && b.len() == c.len() && bytes_lt(a, b) && bytes_lt(b, c) {
        lemma_bytes_lt_trans(a, b, c);
    }
}

/// An authenticated caller identity, held as the raw bytes of the principal.
#[derive(Clone, Debug)]
pub struct Principal {
    bytes: Vec<u8>,
}

impl View for Principal {
    type V = Seq<u8>;

    closed spec fn view(&self) -> Seq<u8> {
        self.bytes@
    }
}

impl Principal {
    pub fn from_bytes(bytes: Vec<u8>) -> (r: Principal)
        ensures
            r@ == bytes@,
    {
        Principal { bytes }
    }

    pub fn to_bytes(&self) -> (r: Vec<u8>)
        ensures
            r@ == self@,
    {
        let r = self.bytes.clone();
        assert(r@ =~= self.bytes@);
        r
    }

    pub fn duplicate(&self) -> (r: Principal)
        ensures
            r@ == self@,
    {
        Principal { bytes: self.to_bytes() }
    }

    /// Whether this principal comes before `other` in `principal_lt`.
    pub fn precedes(&self, other: &Principal) -> (r: bool)
        ensures
            r == principal_lt(self@, other@),
    {
        let n = self.bytes.len();
        if n != other.bytes.len() {
            return n < other.bytes.len();
        }
        let ghost a = self.bytes@;
        let ghost b = other.bytes@;
        assert(a.subrange(0, n as int) =~= a);
        assert(b.subrange(0, n as int) =~= b);
        let mut i: usize = 0;
        while i < n
            invariant
                n == a.len(),
                n == b.len(),
                a == self.bytes@,
                b == other.bytes@,
                0 <= i <= n,
                bytes_lt(a, b) == bytes_lt(a.subrange(i as int, n as int), b.subrange(i as int, n as int)),
            decreases n - i,
        {
            let x = self.bytes[i];
            let y = other.bytes[i];
            proof {
                let sa = a.subrange(i as int, n as int);
                let sb = b.subrange(i as int, n as int);
                assert(sa[0] == x && sb[0] == y);
                assert(sa.drop_first() =~= a.subrange(i + 1, n as int));
                assert(sb.drop_first() =~= b.subrange(i + 1, n as int));
            }
            if x < y {
                return true;
            }
            if x > y {
                return false;
            }
            i = i + 1;
        }
        false
    }

    /// Whether two principals are the same identity.
    pub fn same_as(&self, other: &Principal) -> (r: bool)
        ensures
            r == (self@ == other@),
    {
        let n = self.bytes.len();
        if n != other.bytes.len() {
            return false;
        }
        let mut i: usize = 0;
        while i < n
            invariant
                n == self.bytes@.len(),
                n == other.bytes@.len(),
                0 <= i <= n,
                forall|j: int| 0 <= j < i ==> self.bytes@[j] == other.bytes@[j],
            decreases n - i,
        {
            if self.bytes[i] != other.bytes[i] {
                return false;
            }
            i = i + 1;
        }
        assert(self.bytes@ =~= other.bytes@);
        true
    }
}

} // verus!
