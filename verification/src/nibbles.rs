use vstd::prelude::*;

verus! {

/// Length of the longest common leading subsequence of two nibble sequences.
pub open spec fn common_prefix_len(a: Seq<u8>, b: Seq<u8>) -> nat
    decreases a.len(),
{
    if a.len() == 0 || b.len() == 0 || a[0] != b[0] {
        0
    } else {
        1 + common_prefix_len(a.subrange(1, a.len() as int), b.subrange(1, b.len() as int))
    }
}

/// The common prefix length never exceeds either sequence, the two sequences
/// agree on every position below it, and they differ right at it while both
/// continue.
pub proof fn lemma_common_prefix_len(a: Seq<u8>, b: Seq<u8>)
    ensures
        common_prefix_len(a, b) <= a.len(),
        common_prefix_len(a, b) <= b.len(),
        forall|i: int| 0 <= i < common_prefix_len(a, b) ==> a[i] == b[i],
        common_prefix_len(a, b) < a.len() && common_prefix_len(a, b) < b.len()
            ==> a[common_prefix_len(a, b) as int] != b[common_prefix_len(a, b) as int],
    decreases a.len(),
{
    if a.len() == 0 || b.len() == 0 || a[0] != b[0] {
    } else {
        let a1 = a.subrange(1, a.len() as int);
        let b1 = b.subrange(1, b.len() as int);
        lemma_common_prefix_len(a1, b1);
        let d = common_prefix_len(a1, b1);
        assert forall|i: int| 0 <= i < common_prefix_len(a, b) implies a[i] == b[i] by {
            if i > 0 {
                assert(a1[i - 1] == b1[i - 1]);
            }
        }
    }
}

/// A sequence shares a full-length prefix only with itself.
pub proof fn lemma_common_prefix_self(a: Seq<u8>)
    ensures
        common_prefix_len(a, a) == a.len(),
{
    lemma_common_prefix_len(a, a);
}

/// When `a` is a leading subsequence of `b`, their common prefix is all of `a`.
pub proof fn lemma_common_prefix_of_prefix(a: Seq<u8>, b: Seq<u8>)
    requires
        a.len() <= b.len(),
        a == b.subrange(0, a.len() as int),
    ensures
        common_prefix_len(a, b) == a.len(),
{
    lemma_common_prefix_len(a, b);
    let d = common_prefix_len(a, b);
    if d < a.len() {
        assert(a[d as int] == b.subrange(0, a.len() as int)[d as int]);
    }
}

/// An ordered, immutable sequence of nibble values: the key alphabet of the
/// 16-ary trie. One element per input byte; each element used as a branch
/// selector must lie in [0, 16).
#[derive(Clone, Debug)]
pub struct NibbleKey(Vec<u8>);

impl View for NibbleKey {
    type V = Seq<u8>;

    closed spec fn view(&self) -> Seq<u8> {
        self.0@
    }
}

impl NibbleKey {
    /// Wrap a raw sequence, one nibble per input byte.
    pub fn new(v: Vec<u8>) -> (r: NibbleKey)
        ensures
            r@ == v@,
    {
        NibbleKey(v)
    }

    /// Number of nibbles in the key.
    pub fn len(&self) -> (n: usize)
        ensures
            n == self@.len(),
    {
        self.0.len()
    }

    /// The nibble at position `i`.
    pub fn get(&self, i: usize) -> (b: u8)
        requires
            i < self@.len(),
        ensures
            b == self@[i as int],
    {
        self.0[i]
    }

    /// Length of the longest common leading subsequence of `self` and `other`.
    pub fn common_prefix_length(&self, other: &NibbleKey) -> (n: usize)
        ensures
            n == common_prefix_len(self@, other@),
    {
        common_prefix(&self.0, &other.0)
    }

    /// Length of the longest common leading subsequence of `self` and a raw
    /// nibble sequence.
    pub fn common_prefix_with_bytes(&self, other: &Vec<u8>) -> (n: usize)
        ensures
            n == common_prefix_len(self@, other@),
    {
        common_prefix(&self.0, other)
    }

    /// The nibbles of the key as a fresh byte vector.
    pub fn to_vec(&self) -> (r: Vec<u8>)
        ensures
            r@ == self@,
    {
        duplicate_bytes(&self.0)
    }

    /// The subsequence starting at offset `n`.
    pub fn drop_prefix(&self, n: usize) -> (r: NibbleKey)
        requires
            n <= self@.len(),
        ensures
            r@ == self@.subrange(n as int, self@.len() as int),
    {
        let mut out: Vec<u8> = Vec::new();
        let mut i: usize = n;
        while i < self.0.len()
            invariant
                n <= i <= self.0.len(),
                out@ == self.0@.subrange(n as int, i as int),
            decreases self.0.len() - i,
        {
            out.push(self.0[i]);
            i = i + 1;
            proof {
                assert(out@ =~= self.0@.subrange(n as int, i as int));
            }
        }
        proof {
            assert(out@ =~= self@.subrange(n as int, self@.len() as int));
        }
        NibbleKey(out)
    }

    /// The last `n` elements; the whole key when it has fewer than `n`.
    pub fn take_suffix(&self, n: usize) -> (r: NibbleKey)
        ensures
            n <= self@.len() ==> r@ == self@.subrange(self@.len() - n, self@.len() as int),
            n > self@.len() ==> r@ == self@,
    {
        if n >= self.0.len() {
            NibbleKey(duplicate_bytes(&self.0))
        } else {
            self.drop_prefix(self.0.len() - n)
        }
    }
}

/// Exact byte-for-byte copy of a byte vector.
pub fn duplicate_bytes(v: &Vec<u8>) -> (r: Vec<u8>)
    ensures
        r@ == v@,
{
    let mut out: Vec<u8> = Vec::new();
    let mut i: usize = 0;
    while i < v.len()
        invariant
            i <= v.len(),
            out@ == v@.subrange(0, i as int),
        decreases v.len() - i,
    {
        out.push(v[i]);
        i = i + 1;
        proof {
            assert(out@ =~= v@.subrange(0, i as int));
        }
    }
    proof {
        assert(out@ =~= v@);
    }
    out
}

/// Whether two byte vectors hold the same bytes.
pub fn bytes_equal(a: &Vec<u8>, b: &Vec<u8>) -> (r: bool)
    ensures
        r == (a@ == b@),
{
    if a.len() != b.len() {
        proof {
            assert(a@.len() != b@.len());
        }
        return false;
    }
    let mut i: usize = 0;
    while i < a.len()
        invariant
            i <= a.len(),
            a@.len() == b@.len(),
            forall|j: int| 0 <= j < i ==> a@[j] == b@[j],
        decreases a.len() - i,
    {
        if a[i] != b[i] {
            return false;
        }
        i = i + 1;
    }
    proof {
        assert(a@ =~= b@);
    }
    true
}

/// Length of the longest common leading subsequence of two byte vectors.
pub fn common_prefix(a: &Vec<u8>, b: &Vec<u8>) -> (n: usize)
    ensures
        n == common_prefix_len(a@, b@),
{
    let min: usize = if a.len() < b.len() { a.len() } else { b.len() };
    proof {
        assert(a@.subrange(0, a@.len() as int) =~= a@);
        assert(b@.subrange(0, b@.len() as int) =~= b@);
    }
    let mut i: usize = 0;
    while i < min
        invariant
            i <= min,
            min <= a@.len(),
            min <= b@.len(),
            min == a@.len() || min == b@.len(),
            forall|j: int| 0 <= j < i ==> a@[j] == b@[j],
            common_prefix_len(a@, b@) == i + common_prefix_len(
                a@.subrange(i as int, a@.len() as int),
                b@.subrange(i as int, b@.len() as int),
            ),
        decreases min - i,
    {
        if a[i] != b[i] {
            proof {
                let ai = a@.subrange(i as int, a@.len() as int);
                let bi = b@.subrange(i as int, b@.len() as int);
                assert(ai[0] != bi[0]);
            }
            return i;
        }
        proof {
            let ai = a@.subrange(i as int, a@.len() as int);
            let bi = b@.subrange(i as int, b@.len() as int);
            assert(ai[0] == bi[0]);
            assert(ai.subrange(1, ai.len() as int) =~= a@.subrange(
                i + 1,
                a@.len() as int,
            ));
            assert(bi.subrange(1, bi.len() as int) =~= b@.subrange(
                i + 1,
                b@.len() as int,
            ));
        }
        i = i + 1;
    }
    proof {
        let ai = a@.subrange(min as int, a@.len() as int);
        let bi = b@.subrange(min as int, b@.len() as int);
        assert(ai.len() == 0 || bi.len() == 0);
    }
    min
}

impl PartialEq for NibbleKey {
    fn eq(&self, other: &NibbleKey) -> (r: bool) {
        bytes_equal(&self.0, &other.0)
    }
}

impl vstd::std_specs::cmp::PartialEqSpecImpl for NibbleKey {
    open spec fn obeys_eq_spec() -> bool {
        true
    }

    open spec fn eq_spec(&self, other: &NibbleKey) -> bool {
        self@ == other@
    }
}

} // verus!
