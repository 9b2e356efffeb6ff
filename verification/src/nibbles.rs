//! Nibble paths: the keys of the trie, split into 4-bit digits.
//!
//! A path is a sequence of nibbles (values 0 to 15). A path that leads to a
//! value carries one more entry at its end, the terminator, written as 16.
use vstd::prelude::*;
use vstd::slice::slice_subrange;
use vstd::slice::slice_to_vec;

verus! {

/// The terminator entry that closes a path which reaches a value.
pub const TERMINATOR: u8 = 16;

/// The nibbles of a byte string: two per byte, the high one first.
pub open spec fn unpack(raw: Seq<u8>) -> Seq<u8> {
    Seq::new(
        2 * raw.len(),
        |i: int|
            if i % 2 == 0 {
                raw[i / 2] / 16
            } else {
                raw[i / 2] % 16
            },
    )
}

/// The bytes that hold the nibbles of `hex` two by two, the high one first.
/// A nibble left over at the end of a sequence of odd length is dropped.
pub open spec fn pack(hex: Seq<u8>) -> Seq<u8> {
    Seq::new(hex.len() / 2, |i: int| (hex[2 * i] * 16 + hex[2 * i + 1]) as u8)
}

/// Every entry is a nibble.
pub open spec fn all_nibbles(hex: Seq<u8>) -> bool {
    forall|i: int| 0 <= i < hex.len() ==> #[trigger] hex[i] < 16
}

/// The path ends with the terminator.
pub open spec fn terminated(hex: Seq<u8>) -> bool {
    hex.len() > 0 && hex.last() == 16
}

/// The path without its terminator, if it has one.
pub open spec fn body(hex: Seq<u8>) -> Seq<u8> {
    if terminated(hex) {
        hex.drop_last()
    } else {
        hex
    }
}

/// A well-formed path: nibbles only, but for a terminator that may close it.
pub open spec fn is_path(hex: Seq<u8>) -> bool {
    all_nibbles(body(hex))
}

/// A well-formed path that reaches a value.
pub open spec fn is_leaf_path(hex: Seq<u8>) -> bool {
    terminated(hex) && all_nibbles(hex.drop_last())
}

/// A well-formed path that does not reach a value: nibbles only.
pub open spec fn is_inner_path(hex: Seq<u8>) -> bool {
    all_nibbles(hex)
}

/// The path of a byte string, closed by the terminator where `is_leaf` holds.
pub open spec fn path_of(raw: Seq<u8>, is_leaf: bool) -> Seq<u8> {
    if is_leaf {
        unpack(raw).push(16)
    } else {
        unpack(raw)
    }
}

/// The first byte of the compact form of a path: bit 5 says that the path is
/// terminated, bit 4 that its body has odd length, in which case the low half
/// holds the body's first nibble.
pub open spec fn compact_flag(hex: Seq<u8>) -> u8 {
    let b = body(hex);
    let odd: int = if b.len() % 2 == 1 {
        0x10 + b[0]
    } else {
        0
    };
    let leaf: int = if terminated(hex) {
        0x20
    } else {
        0
    };
    (odd + leaf) as u8
}

/// The compact (hex-prefix) form of a path.
pub open spec fn compact_of(hex: Seq<u8>) -> Seq<u8> {
    let b = body(hex);
    seq![compact_flag(hex)] + pack(b.skip((b.len() % 2) as int))
}

/// The compact form is one that `from_compact` reads: it has a first byte,
/// whose high half is one of 0, 1, 2, 3.
pub open spec fn compact_readable(compact: Seq<u8>) -> bool {
    compact.len() > 0 && compact[0] / 16 < 4
}

/// The path that a compact form stands for.
pub open spec fn path_of_compact(compact: Seq<u8>) -> Seq<u8> {
    let flag = compact[0];
    let head = if (flag / 16) % 2 == 1 {
        seq![flag % 16]
    } else {
        Seq::<u8>::empty()
    };
    let tail = if flag / 16 >= 2 {
        seq![16u8]
    } else {
        Seq::<u8>::empty()
    };
    head + unpack(compact.skip(1)) + tail
}

/// The length of the longest common prefix of two sequences.
pub open spec fn common_prefix_len(a: Seq<u8>, b: Seq<u8>) -> nat
    decreases a.len(),
{
    if a.len() > 0 && b.len() > 0 && a[0] == b[0] {
        1 + common_prefix_len(a.skip(1), b.skip(1))
    } else {
        0
    }
}

/// The common prefix is as long as it says: the two sequences agree below it,
/// and part at it where both go on.
pub proof fn lemma_common_prefix(a: Seq<u8>, b: Seq<u8>)
    ensures
        common_prefix_len(a, b) <= a.len(),
        common_prefix_len(a, b) <= b.len(),
        a.take(common_prefix_len(a, b) as int) == b.take(common_prefix_len(a, b) as int),
        common_prefix_len(a, b) < a.len() && common_prefix_len(a, b) < b.len() ==> a[common_prefix_len(
            a,
            b,
        ) as int] != b[common_prefix_len(a, b) as int],
    decreases a.len(),
{
    if a.len() > 0 && b.len() > 0 && a[0] == b[0] {
        lemma_common_prefix(a.skip(1), b.skip(1));
        let m = common_prefix_len(a.skip(1), b.skip(1));
        assert(a.take(m as int + 1) =~= seq![a[0]] + a.skip(1).take(m as int));
        assert(b.take(m as int + 1) =~= seq![b[0]] + b.skip(1).take(m as int));
    } else {
        assert(a.take(0) =~= b.take(0));
    }
}

/// A number below which two sequences agree, and at which they part or one
/// ends, is the length of their common prefix.
pub proof fn lemma_common_prefix_unique(a: Seq<u8>, b: Seq<u8>, m: nat)
    requires
        m <= a.len(),
        m <= b.len(),
        forall|i: int| 0 <= i < m ==> a[i] == b[i],
        m < a.len() && m < b.len() ==> a[m as int] != b[m as int],
    ensures
        common_prefix_len(a, b) == m,
    decreases m,
{
    if m > 0 {
        assert forall|i: int| 0 <= i < m - 1 implies a.skip(1)[i] == b.skip(1)[i] by {
            assert(a[i + 1] == b[i + 1]);
        }
        lemma_common_prefix_unique(a.skip(1), b.skip(1), (m - 1) as nat);
    }
}

/// A path of nibbles, with the terminator at its end where it reaches a value.
#[derive(Debug)]
pub struct Nibbles {
    hex_data: Vec<u8>,
}

impl View for Nibbles {
    type V = Seq<u8>;

    closed spec fn view(&self) -> Seq<u8> {
        self.hex_data@
    }
}

impl Clone for Nibbles {
    fn clone(&self) -> (r: Self)
        ensures
            r@ == self@,
    {
        Nibbles { hex_data: slice_to_vec(self.hex_data.as_slice()) }
    }
}

impl Nibbles {
    /// The path that holds the given entries.
    pub fn from_hex(hex: Vec<u8>) -> (r: Nibbles)
        ensures
            r@ == hex@,
    {
        Nibbles { hex_data: hex }
    }

    /// The path of a byte string, two nibbles per byte, closed by the
    /// terminator where `is_leaf` holds.
    pub fn from_raw(raw: &[u8], is_leaf: bool) -> (r: Nibbles)
        ensures
            r@ == path_of(raw@, is_leaf),
            is_leaf ==> is_leaf_path(r@),
            !is_leaf ==> is_inner_path(r@),
    {
        let mut hex_data: Vec<u8> = Vec::new();
        let mut i: usize = 0;
        while i < raw.len()
            invariant
                i <= raw.len(),
                hex_data@.len() == 2 * i,
                forall|j: int| 0 <= j < 2 * i ==> hex_data@[j] == unpack(raw@)[j],
            decreases raw.len() - i,
        {
            hex_data.push(raw[i] / 16);
            hex_data.push(raw[i] % 16);
            i += 1;
        }
        assert(hex_data@ =~= unpack(raw@));
        if is_leaf {
            hex_data.push(TERMINATOR);
            assert(hex_data@.drop_last() =~= unpack(raw@));
        }
        Nibbles { hex_data }
    }

    /// The path that a compact form stands for.
    pub fn from_compact(compact: &[u8]) -> (r: Nibbles)
        requires
            compact_readable(compact@),
        ensures
            r@ == path_of_compact(compact@),
            is_path(r@),
            terminated(r@) == (compact@[0] / 16 >= 2),
    {
        let mut hex: Vec<u8> = Vec::new();
        let flag: u8 = compact[0];
        let is_leaf: bool = flag / 16 >= 2;
        if (flag / 16) % 2 == 1 {
            hex.push(flag % 16);
        }
        let ghost head = hex@;
        let rest = slice_subrange(compact, 1, compact.len());
        assert(rest@ =~= compact@.skip(1));
        let mut i: usize = 0;
        while i < rest.len()
            invariant
                i <= rest.len(),
                head.len() <= 1,
                hex@.len() == head.len() + 2 * i,
                forall|j: int| 0 <= j < head.len() ==> hex@[j] == head[j],
                forall|j: int| 0 <= j < 2 * i ==> hex@[head.len() + j] == unpack(rest@)[j],
            decreases rest.len() - i,
        {
            hex.push(rest[i] / 16);
            hex.push(rest[i] % 16);
            i += 1;
        }
        assert(hex@ =~= head + unpack(rest@));
        if is_leaf {
            hex.push(TERMINATOR);
            assert(hex@.drop_last() =~= head + unpack(rest@));
        }
        assert(hex@ =~= path_of_compact(compact@));
        Nibbles { hex_data: hex }
    }

    /// Whether the path ends with the terminator.
    pub fn is_leaf(&self) -> (r: bool)
        ensures
            r == terminated(self@),
    {
        let n: usize = self.hex_data.len();
        n > 0 && self.hex_data[n - 1] == TERMINATOR
    }

    /// The compact form of the path.
    pub fn encode_compact(&self) -> (r: Vec<u8>)
        requires
            is_path(self@),
        ensures
            r@ == compact_of(self@),
    {
        let is_leaf: bool = self.is_leaf();
        let n: usize = if is_leaf {
            self.hex_data.len() - 1
        } else {
            self.hex_data.len()
        };
        let hex = slice_subrange(self.hex_data.as_slice(), 0, n);
        assert(hex@ =~= body(self@));
        let mut compact: Vec<u8> = Vec::new();
        let odd: usize = n % 2;
        let mut flag: u8 = if is_leaf {
            0x20
        } else {
            0x00
        };
        if odd == 1 {
            assert(hex@[0] < 16);
            flag = flag + 0x10 + hex[0];
        }
        compact.push(flag);
        let rest = slice_subrange(hex, odd, n);
        assert(rest@ =~= body(self@).skip(odd as int));
        let mut i: usize = 0;
        while i < rest.len() / 2
            invariant
                i <= rest.len() / 2,
                all_nibbles(rest@),
                compact@.len() == 1 + i,
                compact@[0] == flag,
                forall|j: int| 0 <= j < i ==> compact@[1 + j] == pack(rest@)[j],
            decreases rest.len() / 2 - i,
        {
            assert(rest@[2 * i as int] < 16 && rest@[2 * i + 1] < 16);
            compact.push(rest[i * 2] * 16 + rest[i * 2 + 1]);
            i += 1;
        }
        assert(compact@ =~= compact_of(self@));
        compact
    }

    /// The bytes that hold the path's nibbles two by two, and whether the path
    /// is terminated. A nibble left over at the end of a body of odd length
    /// is dropped.
    pub fn encode_raw(&self) -> (r: (Vec<u8>, bool))
        requires
            is_path(self@),
        ensures
            r.0@ == pack(body(self@)),
            r.1 == terminated(self@),
    {
        let is_leaf: bool = self.is_leaf();
        let n: usize = if is_leaf {
            self.hex_data.len() - 1
        } else {
            self.hex_data.len()
        };
        let hex = slice_subrange(self.hex_data.as_slice(), 0, n);
        assert(hex@ =~= body(self@));
        let mut raw: Vec<u8> = Vec::new();
        let mut i: usize = 0;
        while i < hex.len() / 2
            invariant
                i <= hex.len() / 2,
                all_nibbles(hex@),
                raw@.len() == i,
                forall|j: int| 0 <= j < i ==> raw@[j] == pack(hex@)[j],
            decreases hex.len() / 2 - i,
        {
            assert(hex@[2 * i as int] < 16 && hex@[2 * i + 1] < 16);
            raw.push(hex[i * 2] * 16 + hex[i * 2 + 1]);
            i += 1;
        }
        assert(raw@ =~= pack(hex@));
        (raw, is_leaf)
    }

    /// A path is no longer than a machine word can count.
    pub proof fn lemma_fits(&self)
        ensures
            self@.len() <= usize::MAX,
    {
        assert(self.hex_data@.len() == self.hex_data.len());
    }

    /// The number of entries, the terminator included.
    pub fn len(&self) -> (r: usize)
        ensures
            r == self@.len(),
    {
        self.hex_data.len()
    }

    /// Whether the path has no entry.
    pub fn is_empty(&self) -> (r: bool)
        ensures
            r == (self@.len() == 0),
    {
        self.hex_data.len() == 0
    }

    /// The entry at position `i`.
    pub fn at(&self, i: usize) -> (r: usize)
        requires
            i < self@.len(),
        ensures
            r == self@[i as int],
    {
        self.hex_data[i] as usize
    }

    /// The length of the longest prefix that the two paths share.
    pub fn common_prefix(&self, other: &Nibbles) -> (r: usize)
        ensures
            r == common_prefix_len(self@, other@),
            r <= self@.len(),
            r <= other@.len(),
    {
        let s: usize = if self.hex_data.len() < other.hex_data.len() {
            self.hex_data.len()
        } else {
            other.hex_data.len()
        };
        let mut i: usize = 0;
        while i < s && self.hex_data[i] == other.hex_data[i]
            invariant
                i <= s,
                s <= self.hex_data@.len(),
                s <= other.hex_data@.len(),
                forall|j: int| 0 <= j < i ==> self.hex_data@[j] == other.hex_data@[j],
            decreases s - i,
        {
            i += 1;
        }
        proof {
            lemma_common_prefix_unique(self@, other@, i as nat);
        }
        i
    }

    /// The path from position `index` on.
    pub fn offset(&self, index: usize) -> (r: Nibbles)
        requires
            index <= self@.len(),
        ensures
            r@ == self@.skip(index as int),
    {
        self.slice(index, self.hex_data.len())
    }

    /// The entries from position `start` up to, not including, `end`.
    pub fn slice(&self, start: usize, end: usize) -> (r: Nibbles)
        requires
            start <= end <= self@.len(),
        ensures
            r@ == self@.subrange(start as int, end as int),
    {
        Nibbles { hex_data: slice_to_vec(slice_subrange(self.hex_data.as_slice(), start, end)) }
    }

    /// The entries of the path.
    pub fn get_data(&self) -> (r: &[u8])
        ensures
            r@ == self@,
    {
        self.hex_data.as_slice()
    }

    /// This path followed by `b`.
    pub fn join(&self, b: &Nibbles) -> (r: Nibbles)
        ensures
            r@ == self@ + b@,
    {
        let mut hex_data: Vec<u8> = slice_to_vec(self.hex_data.as_slice());
        let mut tail: Vec<u8> = slice_to_vec(b.hex_data.as_slice());
        hex_data.append(&mut tail);
        Nibbles { hex_data }
    }

    /// Appends the entries of `b`.
    pub fn extend(&mut self, b: &Nibbles)
        ensures
            final(self)@ == old(self)@ + b@,
    {
        let mut tail: Vec<u8> = slice_to_vec(b.hex_data.as_slice());
        self.hex_data.append(&mut tail);
    }

    /// Keeps the first `len` entries; a path that is not longer stays as it is.
    pub fn truncate(&mut self, len: usize)
        ensures
            len <= old(self)@.len() ==> final(self)@ == old(self)@.take(len as int),
            len > old(self)@.len() ==> final(self)@ == old(self)@,
    {
        self.hex_data.truncate(len)
    }

    /// Removes the last entry and returns it, if there is one.
    pub fn pop(&mut self) -> (r: Option<u8>)
        ensures
            old(self)@.len() > 0 ==> r == Some(old(self)@.last()) && final(self)@ == old(
                self,
            )@.drop_last(),
            old(self)@.len() == 0 ==> r.is_none() && final(self)@ == old(self)@,
    {
        self.hex_data.pop()
    }

    /// Appends one entry.
    pub fn push(&mut self, e: u8)
        ensures
            final(self)@ == old(self)@.push(e),
    {
        self.hex_data.push(e)
    }

    /// Whether the two paths hold the same entries.
    pub fn equals(&self, other: &Nibbles) -> (r: bool)
        ensures
            r == (self@ == other@),
    {
        if self.hex_data.len() != other.hex_data.len() {
            return false;
        }
        let mut i: usize = 0;
        while i < self.hex_data.len()
            invariant
                i <= self.hex_data@.len(),
                self.hex_data@.len() == other.hex_data@.len(),
                forall|j: int| 0 <= j < i ==> self.hex_data@[j] == other.hex_data@[j],
            decreases self.hex_data@.len() - i,
        {
            if self.hex_data[i] != other.hex_data[i] {
                return false;
            }
            i += 1;
        }
        assert(self@ =~= other@);
        true
    }
}

/// What a readable compact form stands for is a well-formed path, terminated
/// where the flag says so.
pub proof fn lemma_path_of_compact(compact: Seq<u8>)
    requires
        compact_readable(compact),
    ensures
        is_path(path_of_compact(compact)),
        terminated(path_of_compact(compact)) == (compact[0] / 16 >= 2),
{
    let p = path_of_compact(compact);
    let flag = compact[0];
    let head = if (flag / 16) % 2 == 1 {
        seq![(flag % 16) as u8]
    } else {
        Seq::<u8>::empty()
    };
    let middle = head + unpack(compact.skip(1));
    assert(all_nibbles(middle));
    if flag / 16 >= 2 {
        assert(p =~= middle.push(16u8));
        assert(p.drop_last() =~= middle);
    } else {
        assert(p =~= middle);
        if p.len() > 0 {
            assert(p.last() < 16);
        }
    }
}

/// Packing an even number of nibbles into bytes and splitting the bytes
/// again gives the nibbles back.
pub proof fn lemma_unpack_pack(hex: Seq<u8>)
    requires
        all_nibbles(hex),
        hex.len() % 2 == 0,
    ensures
        unpack(pack(hex)) == hex,
{
    assert(pack(hex).len() == hex.len() / 2);
    assert(unpack(pack(hex)).len() == hex.len());
    assert forall|j: int| 0 <= j < hex.len() implies #[trigger] unpack(pack(hex))[j] == hex[j] by {
        let i = j / 2;
        let high = hex[2 * i];
        let low = hex[2 * i + 1];
        assert(high < 16 && low < 16);
        let byte = pack(hex)[i];
        assert(byte == high * 16 + low);
        assert(byte / 16 == high);
        assert(byte % 16 == low);
        if j % 2 == 0 {
            assert(j == 2 * i);
        } else {
            assert(j == 2 * i + 1);
        }
    }
    assert(unpack(pack(hex)) =~= hex);
}

/// Reading the compact form of a well-formed path gives the path back.
pub proof fn lemma_compact_round_trip(hex: Seq<u8>)
    requires
        is_path(hex),
    ensures
        compact_readable(compact_of(hex)),
        path_of_compact(compact_of(hex)) == hex,
{
    let b = body(hex);
    let c = compact_of(hex);
    let odd = (b.len() % 2) as int;
    let rest = b.skip(odd);
    let flag = compact_flag(hex);
    if odd == 1 {
        assert(b[0] < 16);
    }
    assert(c[0] == flag);
    assert(c.skip(1) =~= pack(rest));
    assert(all_nibbles(rest)) by {
        assert forall|i: int| 0 <= i < rest.len() implies #[trigger] rest[i] < 16 by {
            assert(b[i + odd] < 16);
        }
    }
    lemma_unpack_pack(rest);
    let head = if (flag / 16) % 2 == 1 {
        seq![(flag % 16) as u8]
    } else {
        Seq::<u8>::empty()
    };
    assert(head + rest =~= b);
    assert(path_of_compact(c) =~= hex);
}

} // verus!
