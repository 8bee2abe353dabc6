//! A byte buffer read as a sequence of 4-bit nibbles.
//!
//! A `NibbleSlice` borrows its buffer and remembers how many leading nibbles to
//! pass over, so that every suffix of a path is had without copying.

use vstd::prelude::*;

verus! {

/// The nibbles of `bytes`, high half of each byte first.
pub open spec fn nibbles_of(bytes: Seq<u8>) -> Seq<u8> {
    Seq::new(
        2 * bytes.len(),
        |i: int|
            if i % 2 == 0 {
                bytes[i / 2] / 16
            } else {
                bytes[i / 2] % 16
            },
    )
}

/// Whether every element of `nibbles` is below 16.
pub open spec fn all_nibbles(nibbles: Seq<u8>) -> bool {
    forall|i: int| 0 <= i < nibbles.len() ==> #[trigger] nibbles[i] < 16
}

/// The number of leading positions on which `a` and `b` agree.
pub open spec fn common_prefix_len(a: Seq<u8>, b: Seq<u8>) -> nat
    decreases a.len(),
{
    if a.len() > 0 && b.len() > 0 && a[0] == b[0] {
        1 + common_prefix_len(a.skip(1), b.skip(1))
    } else {
        0
    }
}

/// The packed form of a path inside a node: one byte of flags, which also holds
/// the first nibble of a path of odd length, then the other nibbles two to a
/// byte. The flag 32 marks a leaf, the flag 16 an odd length.
pub open spec fn hex_prefix(nibbles: Seq<u8>, leaf: bool) -> Seq<u8> {
    let odd = nibbles.len() % 2;
    let flags: int = if leaf {
        32
    } else {
        0
    };
    let first: u8 = if odd == 1 {
        (flags + 16 + nibbles[0]) as u8
    } else {
        flags as u8
    };
    seq![first] + Seq::new(
        nibbles.len() / 2,
        |j: int| (nibbles[odd + 2 * j] * 16 + nibbles[odd + 2 * j + 1]) as u8,
    )
}

/// The path that a packed form holds.
pub open spec fn hex_prefix_path(data: Seq<u8>) -> Seq<u8> {
    if (data[0] / 16) % 2 == 1 {
        nibbles_of(data).skip(1)
    } else {
        nibbles_of(data).skip(2)
    }
}

/// Whether a packed form carries the leaf flag.
pub open spec fn hex_prefix_is_leaf(data: Seq<u8>) -> bool {
    (data[0] / 32) % 2 == 1
}

/// `<[u8]>::len`. A slice never spans more than `isize::MAX` bytes, so twice
/// its length still fits in a `usize`: that bound is what this states beyond
/// the length itself.
#[verifier::external_body]
fn byte_len(bytes: &[u8]) -> (n: usize)
    ensures
        n == bytes@.len(),
        n <= isize::MAX,
{
    bytes.len()
}

/// A view of a byte buffer as nibbles, from some nibble offset to the end.
#[derive(Clone, Copy, Debug)]
pub struct NibbleSlice<'a> {
    data: &'a [u8],
    offset: usize,
}

impl<'a> View for NibbleSlice<'a> {
    type V = Seq<u8>;

    closed spec fn view(&self) -> Seq<u8> {
        if self.offset <= 2 * self.data@.len() {
            nibbles_of(self.data@).skip(self.offset as int)
        } else {
            Seq::empty()
        }
    }
}

impl<'a> NibbleSlice<'a> {
    #[verifier::type_invariant]
    closed spec fn inv(self) -> bool {
        self.offset <= 2 * self.data@.len() <= usize::MAX
    }

    /// All the nibbles of `data`.
    pub fn new(data: &'a [u8]) -> (r: Self)
        ensures
            r@ == nibbles_of(data@),
    {
        let _bytes: usize = byte_len(data);
        let r = NibbleSlice { data, offset: 0 };
        assert(r@ =~= nibbles_of(data@));
        r
    }

    /// The nibbles of `data` from the nibble at `offset` on.
    pub fn new_offset(data: &'a [u8], offset: usize) -> (r: Self)
        requires
            offset <= 2 * data@.len(),
        ensures
            r@ == nibbles_of(data@).skip(offset as int),
    {
        let _bytes: usize = byte_len(data);
        NibbleSlice { data, offset }
    }

    /// Every nibble of a view is below 16.
    pub proof fn lemma_nibbles(self)
        ensures
            all_nibbles(self@),
    {
        assert forall|i: int| 0 <= i < self@.len() implies #[trigger] self@[i] < 16 by {
            let k = self.offset + i;
            assert(self@[i] == nibbles_of(self.data@)[k]);
        }
    }

    /// The number of nibbles.
    pub fn len(&self) -> (n: usize)
        ensures
            n == self@.len(),
    {
        proof {
            use_type_invariant(self);
        }
        self.data.len() * 2 - self.offset
    }

    /// Whether there is no nibble.
    pub fn is_empty(&self) -> (r: bool)
        ensures
            r == (self@.len() == 0),
    {
        self.len() == 0
    }

    /// The nibble at position `i`.
    pub fn at(&self, i: usize) -> (r: u8)
        requires
            i < self@.len(),
        ensures
            r == self@[i as int],
            r < 16,
    {
        proof {
            use_type_invariant(self);
        }
        let k: usize = self.offset + i;
        let b: u8 = self.data[k / 2];
        if k % 2 == 0 {
            b / 16
        } else {
            b % 16
        }
    }

    /// The view without its first `n` nibbles.
    pub fn mid(&self, n: usize) -> (r: NibbleSlice<'a>)
        requires
            n <= self@.len(),
        ensures
            r@ == self@.skip(n as int),
    {
        proof {
            use_type_invariant(self);
        }
        let r = NibbleSlice { data: self.data, offset: self.offset + n };
        assert(r@ =~= self@.skip(n as int));
        r
    }

    /// The length of the longest common prefix of `self` and `other`.
    pub fn common_prefix(&self, other: &NibbleSlice<'_>) -> (n: usize)
        ensures
            n == common_prefix_len(self@, other@),
    {
        let a: usize = self.len();
        let b: usize = other.len();
        let m: usize = if a < b {
            a
        } else {
            b
        };
        let mut i: usize = 0;
        assert(self@.skip(0) =~= self@);
        assert(other@.skip(0) =~= other@);
        while i < m
            invariant
                i <= m,
                m <= self@.len(),
                m <= other@.len(),
                common_prefix_len(self@, other@) == i + common_prefix_len(
                    self@.skip(i as int),
                    other@.skip(i as int),
                ),
            decreases m - i,
        {
            let ghost sa = self@.skip(i as int);
            let ghost sb = other@.skip(i as int);
            assert(sa[0] == self@[i as int]);
            assert(sb[0] == other@[i as int]);
            if self.at(i) != other.at(i) {
                return i;
            }
            assert(sa.skip(1) =~= self@.skip(i + 1));
            assert(sb.skip(1) =~= other@.skip(i + 1));
            i += 1;
        }
        i
    }

    /// Whether `self` begins with all of `other`.
    pub fn starts_with(&self, other: &NibbleSlice<'_>) -> (r: bool)
        ensures
            r == other@.is_prefix_of(self@),
    {
        let n: usize = self.common_prefix(other);
        proof {
            lemma_common_prefix(self@, other@);
        }
        n == other.len()
    }

    /// Whether `self` and `other` hold the same nibbles, wherever in their
    /// buffers those stand.
    pub fn equals(&self, other: &NibbleSlice<'_>) -> (r: bool)
        ensures
            r == (self@ == other@),
    {
        let n: usize = self.common_prefix(other);
        proof {
            lemma_common_prefix(self@, other@);
            if n == self@.len() && n == other@.len() {
                assert(self@ =~= other@);
            }
        }
        n == other.len() && n == self.len()
    }

    /// The nibbles, one to a byte.
    pub fn to_vec(&self) -> (v: Vec<u8>)
        ensures
            v@ == self@,
    {
        let n: usize = self.len();
        let mut v: Vec<u8> = Vec::new();
        let mut i: usize = 0;
        while i < n
            invariant
                i <= n,
                n == self@.len(),
                v@ == self@.take(i as int),
            decreases n - i,
        {
            v.push(self.at(i));
            assert(v@ =~= self@.take(i + 1));
            i += 1;
        }
        assert(v@ =~= self@);
        v
    }

    /// Packs nibbles that stand one to a byte into a buffer and the offset of
    /// the first of them in it: the low halves of `nibbles`, two to a byte, after
    /// one nibble of padding where their number is odd.
    pub fn from_vec(nibbles: &Vec<u8>) -> (r: (Vec<u8>, usize))
        ensures
            r.1 == nibbles@.len() % 2,
            r.1 <= 2 * r.0@.len(),
            nibbles_of(r.0@).skip(r.1 as int) == Seq::new(
                nibbles@.len(),
                |i: int| nibbles@[i] % 16,
            ),
    {
        let n: usize = nibbles.len();
        let odd: usize = n % 2;
        let mut out: Vec<u8> = Vec::new();
        if odd == 1 {
            out.push(nibbles[0] % 16);
        }
        let mut i: usize = odd;
        while i < n
            invariant
                odd <= i <= n,
                n == nibbles@.len(),
                odd == n % 2,
                (i - odd) % 2 == 0,
                2 * out@.len() == i + odd,
                forall|k: int|
                    odd <= k < i + odd ==> #[trigger] nibbles_of(out@)[k] == nibbles@[k - odd]
                        % 16,
            decreases n - i,
        {
            let ghost before = out@;
            let hi: u8 = nibbles[i] % 16;
            let lo: u8 = nibbles[i + 1] % 16;
            out.push(hi * 16 + lo);
            assert forall|k: int| odd <= k < i + 2 + odd implies #[trigger] nibbles_of(out@)[k]
                == nibbles@[k - odd] % 16 by {
                if k < i + odd {
                    assert(nibbles_of(before)[k] == nibbles@[k - odd] % 16);
                    assert(out@[k / 2] == before[k / 2]);
                } else {
                    assert(out@[k / 2] == hi * 16 + lo);
                }
            }
            i += 2;
        }
        assert(nibbles_of(out@).skip(odd as int) =~= Seq::new(
            nibbles@.len(),
            |i: int| nibbles@[i] % 16,
        ));
        (out, odd)
    }

    /// The packed form of the whole path.
    pub fn encoded(&self, is_leaf: bool) -> (r: Vec<u8>)
        ensures
            r@ == hex_prefix(self@, is_leaf),
    {
        let n: usize = self.len();
        let r = self.encoded_leftmost(n, is_leaf);
        assert(self@.take(n as int) =~= self@);
        r
    }

    /// The packed form of the first `n` nibbles of the path, or of all of it
    /// where it has fewer.
    pub fn encoded_leftmost(&self, n: usize, is_leaf: bool) -> (r: Vec<u8>)
        ensures
            n <= self@.len() ==> r@ == hex_prefix(self@.take(n as int), is_leaf),
            n > self@.len() ==> r@ == hex_prefix(self@, is_leaf),
    {
        let len: usize = self.len();
        let l: usize = if n < len {
            n
        } else {
            len
        };
        let ghost path = self@.take(l as int);
        proof {
            if n > self@.len() {
                assert(path =~= self@);
            }
        }
        let odd: usize = l % 2;
        let flags: u8 = if is_leaf {
            32
        } else {
            0
        };
        let mut r: Vec<u8> = Vec::new();
        if odd == 1 {
            assert(path[0] == self@[0]);
            r.push(flags + 16 + self.at(0));
        } else {
            r.push(flags);
        }
        assert(hex_prefix(path, is_leaf).len() == 1 + l / 2);
        let mut i: usize = odd;
        while i < l
            invariant
                odd <= i <= l,
                l <= self@.len(),
                odd == l % 2,
                (i - odd) % 2 == 0,
                path == self@.take(l as int),
                r@.len() == 1 + (i - odd) / 2,
                r@[0] == hex_prefix(path, is_leaf)[0],
                forall|j: int|
                    0 <= j < (i - odd) / 2 ==> #[trigger] r@[1 + j] == hex_prefix(
                        path,
                        is_leaf,
                    )[1 + j],
            decreases l - i,
        {
            let hi: u8 = self.at(i);
            let lo: u8 = self.at(i + 1);
            let ghost j0 = (i - odd) / 2;
            assert(path[odd + 2 * j0] == hi);
            assert(path[odd + 2 * j0 + 1] == lo);
            r.push(hi * 16 + lo);
            i += 2;
        }
        assert(r@.len() == 1 + l / 2);
        assert forall|k: int| 0 <= k < r@.len() implies r@[k] == hex_prefix(path, is_leaf)[k] by {
            if k > 0 {
                assert(r@[1 + (k - 1)] == hex_prefix(path, is_leaf)[1 + (k - 1)]);
            }
        }
        assert(r@ =~= hex_prefix(path, is_leaf));
        r
    }

    /// Reads a packed form: the path in it, and whether it carries the leaf flag.
    pub fn from_encoded(data: &'a [u8]) -> (r: (NibbleSlice<'a>, bool))
        requires
            data@.len() > 0,
        ensures
            r.0@ == hex_prefix_path(data@),
            r.1 == hex_prefix_is_leaf(data@),
    {
        let first: u8 = data[0];
        let offset: usize = if (first / 16) % 2 == 1 {
            1
        } else {
            2
        };
        (NibbleSlice::new_offset(data, offset), (first / 32) % 2 == 1)
    }
}

/// `common_prefix_len` is at most either length, the two sequences agree below
/// it, and they differ at it where both go on.
pub proof fn lemma_common_prefix(a: Seq<u8>, b: Seq<u8>)
    ensures
        common_prefix_len(a, b) <= a.len(),
        common_prefix_len(a, b) <= b.len(),
        a.take(common_prefix_len(a, b) as int) == b.take(common_prefix_len(a, b) as int),
        common_prefix_len(a, b) < a.len() && common_prefix_len(a, b) < b.len() ==> a[common_prefix_len(
            a,
            b,
        ) as int] != b[common_prefix_len(a, b) as int],
        common_prefix_len(a, b) == b.len() <==> b.is_prefix_of(a),
        common_prefix_len(a, b) == a.len() <==> a.is_prefix_of(b),
    decreases a.len(),
{
    let c = common_prefix_len(a, b);
    if a.len() > 0 && b.len() > 0 && a[0] == b[0] {
        let a1 = a.skip(1);
        let b1 = b.skip(1);
        lemma_common_prefix(a1, b1);
        let c1 = common_prefix_len(a1, b1);
        assert(a.take(c as int) =~= seq![a[0]] + a1.take(c1 as int));
        assert(b.take(c as int) =~= seq![b[0]] + b1.take(c1 as int));
        if c1 < a1.len() && c1 < b1.len() {
            assert(a[c as int] == a1[c1 as int]);
            assert(b[c as int] == b1[c1 as int]);
        }
        if b1.is_prefix_of(a1) {
            assert(b =~= seq![b[0]] + b1);
            assert(a.subrange(0, b.len() as int) =~= seq![a[0]] + a1.subrange(0, b1.len() as int));
        }
        if b.is_prefix_of(a) {
            assert(a1.subrange(0, b1.len() as int) =~= a.subrange(0, b.len() as int).skip(1));
        }
        if a1.is_prefix_of(b1) {
            assert(a =~= seq![a[0]] + a1);
            assert(b.subrange(0, a.len() as int) =~= seq![b[0]] + b1.subrange(0, a1.len() as int));
        }
        if a.is_prefix_of(b) {
            assert(b1.subrange(0, a1.len() as int) =~= b.subrange(0, a.len() as int).skip(1));
        }
    } else {
        assert(a.take(0) =~= b.take(0));
        if b.len() == 0 {
            assert(b =~= a.subrange(0, 0));
        }
        if a.len() == 0 {
            assert(a =~= b.subrange(0, 0));
        }
        if b.len() > 0 && b.is_prefix_of(a) {
            assert(a.subrange(0, b.len() as int)[0] == b[0]);
        }
        if a.len() > 0 && a.is_prefix_of(b) {
            assert(b.subrange(0, a.len() as int)[0] == a[0]);
        }
    }
}

/// Unpacking a packed path gives the path and the flag back.
pub proof fn lemma_hex_prefix_round_trip(nibbles: Seq<u8>, leaf: bool)
    requires
        all_nibbles(nibbles),
    ensures
        hex_prefix(nibbles, leaf).len() == 1 + nibbles.len() / 2,
        hex_prefix_path(hex_prefix(nibbles, leaf)) == nibbles,
        hex_prefix_is_leaf(hex_prefix(nibbles, leaf)) == leaf,
{
    let data = hex_prefix(nibbles, leaf);
    let odd = nibbles.len() % 2;
    if odd == 1 {
        assert(nibbles[0] < 16);
    }
    assert forall|i: int| 0 <= i < nibbles.len() implies #[trigger] hex_prefix_path(data)[i]
        == nibbles[i] by {
        let k = i + 2 - odd;
        assert(nibbles[i] < 16);
        if k >= 2 {
            let j = k / 2 - 1;
            assert(nibbles[odd + 2 * j] < 16);
            assert(nibbles[odd + 2 * j + 1] < 16);
            assert(data[k / 2] == (nibbles[odd + 2 * j] * 16 + nibbles[odd + 2 * j + 1]) as u8);
        }
    }
    assert(hex_prefix_path(data) =~= nibbles);
}

} // verus!
