use vstd::prelude::*;
use vstd::string::StringExecFns;

use crate::span::Span;
use crate::text::{ascii_chars, ascii_to_string, decimal, is_ascii, lemma_decimal_ascii, push_decimal};

verus! {

/// Number of high bits of an [`Id`] that name its [`Group`].
pub const GROUP_BITS: u64 = 8;

/// Number of low bits of an [`Id`] that give its offset within its group.
pub const OFFSET_BITS: u64 = 56;

/// Number of distinct offsets within one group: `2^56`.
pub const GROUP_SIZE: u64 = 0x0100_0000_0000_0000;

/// The largest valid id: the last id of the last group, `2^57 - 1`.
pub const MAX_ID: u64 = 0x01ff_ffff_ffff_ffff;

/// An integer id of a vertex in the graph. Ids are topologically sorted.
#[derive(Copy, Clone, Debug, PartialEq, Eq, Structural, PartialOrd, Ord, Hash)]
pub struct Id(pub u64);

/// A partition of the id space into fixed, contiguous ranges.
#[derive(Copy, Clone, Debug, PartialEq, Eq, Structural, PartialOrd, Ord, Hash)]
pub enum Group {
    /// Expected to hold most commits, as one unfragmented span.
    Master,
    /// Everything else: release and feature branches; fragmented.
    NonMaster,
}

impl Group {
    /// The "master" group.
    pub const MASTER: Group = Group::Master;

    /// The "non-master" group.
    pub const NON_MASTER: Group = Group::NonMaster;

    /// Every group, in order.
    pub const ALL: [Group; 2] = [Group::Master, Group::NonMaster];

    /// The number of groups.
    pub const COUNT: usize = 2;

    /// The number of high bits of an id that name its group.
    pub const BITS: u64 = GROUP_BITS;

    /// The index of this group: the top byte of each of its ids.
    pub open spec fn index(self) -> int {
        match self {
            Group::Master => 0,
            Group::NonMaster => 1,
        }
    }

    /// The first id of this group, as an integer.
    pub open spec fn min_of(self) -> int {
        self.index() * GROUP_SIZE
    }

    /// The last id of this group, as an integer.
    pub open spec fn max_of(self) -> int {
        self.index() * GROUP_SIZE + GROUP_SIZE - 1
    }

    /// The first [`Id`] in this group.
    pub fn min_id(self) -> (r: Id)
        ensures
            r.0 == self.min_of(),
    {
        match self {
            Group::Master => Id(0),
            Group::NonMaster => Id(GROUP_SIZE),
        }
    }

    /// The last [`Id`] in this group.
    pub fn max_id(self) -> (r: Id)
        ensures
            r.0 == self.max_of(),
    {
        Id(self.min_id().0 + (GROUP_SIZE - 1))
    }

    /// The name of this group, as shown to people.
    pub fn to_string(&self) -> (r: String)
        ensures
            r@ == match self {
                Group::Master => "Group Master"@,
                Group::NonMaster => "Group Non-Master"@,
            },
    {
        match self {
            Group::Master => String::from_str("Group Master"),
            Group::NonMaster => String::from_str("Group Non-Master"),
        }
    }

    /// The span from the first to the last id of this group.
    pub fn span(self) -> (r: Span)
        ensures
            r.wf(),
            r.low.0 == self.min_of(),
            r.high.0 == self.max_of(),
    {
        Span::new(self.min_id(), self.max_id())
    }
}

impl Id {
    /// The smallest valid id: the first id of the first group.
    pub fn lowest() -> (r: Id)
        ensures
            r.0 == 0,
    {
        Id(0)
    }

    /// The largest valid id: the last id of the last group.
    pub fn highest() -> (r: Id)
        ensures
            r.0 == MAX_ID,
            r.valid(),
    {
        Id(MAX_ID)
    }

    /// The id `n` places above this one, which must be a valid id.
    pub fn add(self, n: u64) -> (r: Id)
        requires
            self.0 + n <= MAX_ID,
        ensures
            r.0 == self.0 + n,
    {
        Id(self.0 + n)
    }

    /// The id `n` places below this one, which must not go below zero.
    pub fn sub(self, n: u64) -> (r: Id)
        requires
            n <= self.0,
        ensures
            r.0 == self.0 - n,
    {
        Id(self.0 - n)
    }

    /// The group that an integer `x` falls in.
    pub open spec fn group_of(x: int) -> int {
        x / GROUP_SIZE as int
    }

    /// Whether this id lies in one of the groups.
    pub open spec fn valid(self) -> bool {
        self.0 <= MAX_ID
    }

    /// The [`Group`] of this id: its top byte.
    pub fn group(self) -> (r: Group)
        requires
            self.valid(),
        ensures
            r.index() == Id::group_of(self.0 as int),
            r.min_of() <= self.0 <= r.max_of(),
    {
        let v: u64 = self.0;
        let g = v >> OFFSET_BITS;
        assert(v >> 56u64 == v / 0x0100_0000_0000_0000u64) by (bit_vector);
        if g == 0 {
            Group::Master
        } else {
            Group::NonMaster
        }
    }
}

/// Byte `k` of the big-endian encoding of `v`.
pub open spec fn be_byte(v: u64, k: int) -> u8 {
    ((v as int / pow256(7 - k)) % 256) as u8
}

/// `256` to the power `e`.
pub open spec fn pow256(e: int) -> int
    decreases e,
{
    if e <= 0 {
        1
    } else {
        256 * pow256(e - 1)
    }
}

impl Id {
    /// Iterate the ids from `self` up to `other`, both included.
    pub fn to(self, other: Id) -> (r: IdIter)
        requires
            other.valid(),
        ensures
            r.wf(),
            r.remaining() == Seq::new(
                if self.0 <= other.0 {
                    (other.0 - self.0 + 1) as nat
                } else {
                    0
                },
                |k: int| self.0 + k,
            ),
    {
        IdIter { current: self, end: other }
    }

    /// The big-endian bytes of this id: byte order matches integer order,
    /// which range queries over encoded keys rely on.
    pub fn to_bytearray(self) -> (r: [u8; 8])
        ensures
            forall|k: int| 0 <= k < 8 ==> #[trigger] r@[k] == be_byte(self.0, k),
    {
        let v: u64 = self.0;
        let r = [
            (v >> 56u64) as u8,
            ((v >> 48u64) & 0xff) as u8,
            ((v >> 40u64) & 0xff) as u8,
            ((v >> 32u64) & 0xff) as u8,
            ((v >> 24u64) & 0xff) as u8,
            ((v >> 16u64) & 0xff) as u8,
            ((v >> 8u64) & 0xff) as u8,
            (v & 0xff) as u8,
        ];
        proof {
            reveal_with_fuel(pow256, 8);
            assert(v >> 56u64 == v / 0x100_0000_0000_0000u64) by (bit_vector);
            assert((v >> 48u64) & 0xff == (v / 0x1_0000_0000_0000u64) % 256) by (bit_vector);
            assert((v >> 40u64) & 0xff == (v / 0x100_0000_0000u64) % 256) by (bit_vector);
            assert((v >> 32u64) & 0xff == (v / 0x1_0000_0000u64) % 256) by (bit_vector);
            assert((v >> 24u64) & 0xff == (v / 0x100_0000u64) % 256) by (bit_vector);
            assert((v >> 16u64) & 0xff == (v / 0x1_0000u64) % 256) by (bit_vector);
            assert((v >> 8u64) & 0xff == (v / 0x100u64) % 256) by (bit_vector);
            assert(v & 0xff == v % 256) by (bit_vector);
            assert(v / 0x100_0000_0000_0000u64 < 256) by (bit_vector);
        }
        r
    }

    /// `prefix` followed by the big-endian bytes of this id.
    pub fn to_prefixed_bytearray(self, prefix: u8) -> (r: [u8; 9])
        ensures
            r@[0] == prefix,
            forall|k: int| 1 <= k < 9 ==> #[trigger] r@[k] == be_byte(self.0, k - 1),
    {
        let a = self.to_bytearray();
        [prefix, a[0], a[1], a[2], a[3], a[4], a[5], a[6], a[7]]
    }
}

/// Iterator over consecutive ids, ascending, both ends included.
pub struct IdIter {
    current: Id,
    end: Id,
}

impl IdIter {
    /// The end is a valid id, so stepping past it cannot overflow.
    pub closed spec fn wf(&self) -> bool {
        self.end.valid()
    }

    /// The ids not yet handed out, ascending.
    pub closed spec fn remaining(&self) -> Seq<int> {
        Seq::new(
            if self.current.0 <= self.end.0 {
                (self.end.0 - self.current.0 + 1) as nat
            } else {
                0
            },
            |k: int| self.current.0 + k,
        )
    }

    /// Take the next id.
    pub fn next(&mut self) -> (r: Option<Id>)
        requires
            old(self).wf(),
        ensures
            final(self).wf(),
            old(self).remaining().len() == 0 ==> r.is_none() && final(self).remaining().len() == 0,
            old(self).remaining().len() > 0 ==> r == Some(Id(old(self).remaining()[0] as u64))
                && final(self).remaining() == old(self).remaining().drop_first(),
    {
        if self.current.0 > self.end.0 {
            None
        } else {
            let result = self.current;
            self.current = Id(self.current.0 + 1);
            proof {
                assert(self.remaining() =~= old(self).remaining().drop_first());
            }
            Some(result)
        }
    }
}

/// How the valid id `x` is shown: its offset within its group, after an
/// `N` in the non-master group.
pub open spec fn id_text(x: u64) -> Seq<u8> {
    if x < GROUP_SIZE {
        decimal(x as nat)
    } else {
        seq![78u8] + decimal((x - GROUP_SIZE) as nat)
    }
}

/// The text of an id is ASCII and not empty.
pub proof fn lemma_id_text_ascii(x: u64)
    ensures
        is_ascii(id_text(x)),
        id_text(x).len() > 0,
{
    lemma_decimal_ascii(x as nat);
    if x >= GROUP_SIZE {
        lemma_decimal_ascii((x - GROUP_SIZE) as nat);
    }
}

/// Append the text of the valid id `id` to `out`.
pub fn push_id_text(out: &mut Vec<u8>, id: Id)
    requires
        id.valid(),
    ensures
        final(out)@ == old(out)@ + id_text(id.0),
{
    let g = id.group();
    if g == Group::NonMaster {
        out.push(78u8);
        push_decimal(out, id.0 - GROUP_SIZE);
        proof {
            assert(final(out)@ =~= old(out)@ + id_text(id.0));
        }
    } else {
        push_decimal(out, id.0);
    }
}

impl Id {
    /// The text of this id: its offset within its group, after an `N` in
    /// the non-master group, so the two numbering spaces are told apart.
    pub fn to_string(&self) -> (r: String)
        requires
            self.valid(),
        ensures
            r@ == ascii_chars(id_text(self.0)),
    {
        let mut out: Vec<u8> = Vec::new();
        push_id_text(&mut out, *self);
        proof {
            lemma_id_text_ascii(self.0);
            assert(out@ =~= id_text(self.0));
        }
        ascii_to_string(out)
    }
}

} // verus!
