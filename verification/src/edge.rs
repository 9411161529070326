//! Edge weights of flow graphs: which argument positions of the target a
//! source flows into, and whether it governs the target's control flow.

use vstd::prelude::*;

verus! {

/// Number of argument positions that an edge can record.
pub const MAX_ARGUMENTS: u32 = 16;

/// One way in which a source influences a target.
#[derive(Clone, Copy, PartialEq, Eq, Structural, Debug, Hash)]
pub enum EdgeType {
    /// The source flows into the argument at this position.
    Data(u32),
    /// The source decides whether the target executes.
    Control,
}

impl EdgeType {
    /// Position of the type in the order in which an edge lists its types:
    /// data by argument position, control last.
    pub open spec fn rank(self) -> int {
        match self {
            EdgeType::Data(i) => i as int,
            EdgeType::Control => u32::MAX as int + 1,
        }
    }

    /// Whether an edge can carry this type.
    pub open spec fn representable(self) -> bool {
        match self {
            EdgeType::Data(i) => i < MAX_ARGUMENTS,
            EdgeType::Control => true,
        }
    }
}

/// Whether bit `i` of `bits` is set.
pub open spec fn bit(bits: u16, i: u32) -> bool {
    i < 16 && bits & (1u16 << (i as u16)) != 0
}

/// Number of set bits among the lowest `n`.
pub open spec fn count_below(bits: u16, n: nat) -> nat
    decreases n,
{
    if n == 0 {
        0
    } else {
        count_below(bits, (n - 1) as nat) + if bit(bits, (n - 1) as u32) {
            1nat
        } else {
            0nat
        }
    }
}

proof fn lemma_bit_zero(i: u16)
    requires
        i < 16,
    ensures
        0u16 & (1u16 << i) == 0,
{
    assert(0u16 & (1u16 << i) == 0) by (bit_vector);
}

proof fn lemma_bit_set(bits: u16, i: u16, j: u16)
    requires
        i < 16,
        j < 16,
    ensures
        ((bits | (1u16 << i)) & (1u16 << j) != 0) == (j == i || bits & (1u16 << j) != 0),
{
    assert(((bits | (1u16 << i)) & (1u16 << j) != 0) == (j == i || bits & (1u16 << j) != 0))
        by (bit_vector)
        requires
            i < 16,
            j < 16,
    ;
}

proof fn lemma_bit_clear(bits: u16, i: u16, j: u16)
    requires
        i < 16,
        j < 16,
    ensures
        ((bits & !(1u16 << i)) & (1u16 << j) != 0) == (j != i && bits & (1u16 << j) != 0),
{
    assert(((bits & !(1u16 << i)) & (1u16 << j) != 0) == (j != i && bits & (1u16 << j) != 0))
        by (bit_vector)
        requires
            i < 16,
            j < 16,
    ;
}

proof fn lemma_bit_or(a: u16, b: u16, j: u16)
    requires
        j < 16,
    ensures
        ((a | b) & (1u16 << j) != 0) == (a & (1u16 << j) != 0 || b & (1u16 << j) != 0),
{
    assert(((a | b) & (1u16 << j) != 0) == (a & (1u16 << j) != 0 || b & (1u16 << j) != 0))
        by (bit_vector)
        requires
            j < 16,
    ;
}

proof fn lemma_bits_equal(a: u16, b: u16)
    requires
        forall|j: u16| j < 16 ==> (#[trigger] (a & (1u16 << j)) != 0) == (b & (1u16 << j) != 0),
    ensures
        a == b,
{
    assert((a & (1u16 << 0u16) != 0) == (b & (1u16 << 0u16) != 0));
    assert((a & (1u16 << 1u16) != 0) == (b & (1u16 << 1u16) != 0));
    assert((a & (1u16 << 2u16) != 0) == (b & (1u16 << 2u16) != 0));
    assert((a & (1u16 << 3u16) != 0) == (b & (1u16 << 3u16) != 0));
    assert((a & (1u16 << 4u16) != 0) == (b & (1u16 << 4u16) != 0));
    assert((a & (1u16 << 5u16) != 0) == (b & (1u16 << 5u16) != 0));
    assert((a & (1u16 << 6u16) != 0) == (b & (1u16 << 6u16) != 0));
    assert((a & (1u16 << 7u16) != 0) == (b & (1u16 << 7u16) != 0));
    assert((a & (1u16 << 8u16) != 0) == (b & (1u16 << 8u16) != 0));
    assert((a & (1u16 << 9u16) != 0) == (b & (1u16 << 9u16) != 0));
    assert((a & (1u16 << 10u16) != 0) == (b & (1u16 << 10u16) != 0));
    assert((a & (1u16 << 11u16) != 0) == (b & (1u16 << 11u16) != 0));
    assert((a & (1u16 << 12u16) != 0) == (b & (1u16 << 12u16) != 0));
    assert((a & (1u16 << 13u16) != 0) == (b & (1u16 << 13u16) != 0));
    assert((a & (1u16 << 14u16) != 0) == (b & (1u16 << 14u16) != 0));
    assert((a & (1u16 << 15u16) != 0) == (b & (1u16 << 15u16) != 0));
    assert(a == b) by (bit_vector)
        requires
            (a & (1u16 << 0u16) != 0) == (b & (1u16 << 0u16) != 0),
            (a & (1u16 << 1u16) != 0) == (b & (1u16 << 1u16) != 0),
            (a & (1u16 << 2u16) != 0) == (b & (1u16 << 2u16) != 0),
            (a & (1u16 << 3u16) != 0) == (b & (1u16 << 3u16) != 0),
            (a & (1u16 << 4u16) != 0) == (b & (1u16 << 4u16) != 0),
            (a & (1u16 << 5u16) != 0) == (b & (1u16 << 5u16) != 0),
            (a & (1u16 << 6u16) != 0) == (b & (1u16 << 6u16) != 0),
            (a & (1u16 << 7u16) != 0) == (b & (1u16 << 7u16) != 0),
            (a & (1u16 << 8u16) != 0) == (b & (1u16 << 8u16) != 0),
            (a & (1u16 << 9u16) != 0) == (b & (1u16 << 9u16) != 0),
            (a & (1u16 << 10u16) != 0) == (b & (1u16 << 10u16) != 0),
            (a & (1u16 << 11u16) != 0) == (b & (1u16 << 11u16) != 0),
            (a & (1u16 << 12u16) != 0) == (b & (1u16 << 12u16) != 0),
            (a & (1u16 << 13u16) != 0) == (b & (1u16 << 13u16) != 0),
            (a & (1u16 << 14u16) != 0) == (b & (1u16 << 14u16) != 0),
            (a & (1u16 << 15u16) != 0) == (b & (1u16 << 15u16) != 0),
    ;
}

/// A set of argument positions below [`MAX_ARGUMENTS`], one bit each.
#[derive(Clone, Copy, PartialEq, Eq, Structural, Debug, Hash)]
pub struct TinyBitSet {
    bits: u16,
}

impl TinyBitSet {
    /// The positions in the set.
    pub closed spec fn view(self) -> Set<u32> {
        Set::new(|i: u32| bit(self.bits, i))
    }

    /// The bits of the set, position `i` at bit `i`.
    pub closed spec fn bits(self) -> u16 {
        self.bits
    }

    /// A position is in the set exactly if its bit is set.
    pub proof fn lemma_view(self, i: u32)
        ensures
            self@.contains(i) == bit(self.bits(), i),
    {
    }

    /// Only positions below [`MAX_ARGUMENTS`] are in a set.
    pub proof fn lemma_bounded(self, i: u32)
        requires
            self@.contains(i),
        ensures
            i < MAX_ARGUMENTS,
    {
    }

    /// Sets with the same positions are equal.
    pub proof fn lemma_ext(self, other: Self)
        requires
            self@ == other@,
        ensures
            self == other,
    {
        assert forall|j: u16| j < 16 implies (#[trigger] (self.bits & (1u16 << j)) != 0) == (
        other.bits & (1u16 << j) != 0) by {
            assert(self@.contains(j as u32) == bit(self.bits, j as u32));
            assert(other@.contains(j as u32) == bit(other.bits, j as u32));
            assert((j as u32) as u16 == j);
        }
        lemma_bits_equal(self.bits, other.bits);
    }

    /// The set without positions.
    pub fn new_empty() -> (s: Self)
        ensures
            s@ == Set::<u32>::empty(),
            s.bits() == 0,
    {
        let s = TinyBitSet { bits: 0 };
        proof {
            assert forall|i: u32| !bit(0u16, i) by {
                if i < 16 {
                    lemma_bit_zero(i as u16);
                }
            }
            assert(s@ =~= Set::<u32>::empty());
        }
        s
    }

    /// Wraps the given bits.
    pub fn from_bits(bits: u16) -> (s: Self)
        ensures
            s.bits() == bits,
    {
        TinyBitSet { bits }
    }

    /// The bits of the set.
    pub fn to_bits(self) -> (bits: u16)
        ensures
            bits == self.bits(),
    {
        self.bits
    }

    /// Whether the set has no position.
    pub fn is_empty(self) -> (b: bool)
        ensures
            b == (self@ == Set::<u32>::empty()),
    {
        proof {
            if self.bits == 0 {
                assert forall|i: u32| !bit(0u16, i) by {
                    if i < 16 {
                        lemma_bit_zero(i as u16);
                    }
                }
                assert(self@ =~= Set::<u32>::empty());
            } else {
                if self@ == Set::<u32>::empty() {
                    assert forall|j: u16| j < 16 implies (#[trigger] (self.bits & (1u16 << j))
                        != 0) == (0u16 & (1u16 << j) != 0) by {
                        lemma_bit_zero(j);
                        assert(!self@.contains(j as u32));
                        assert(!bit(self.bits, j as u32));
                        assert((j as u32) as u16 == j);
                    }
                    lemma_bits_equal(self.bits, 0u16);
                }
            }
        }
        self.bits == 0
    }

    /// Whether the position is in the set.
    pub fn is_set(self, index: u32) -> (b: bool)
        ensures
            b == self@.contains(index),
    {
        index < 16 && (self.bits & (1u16 << (index as u16))) != 0
    }

    /// Puts the position into the set.
    pub fn set(&mut self, index: u32)
        requires
            index < MAX_ARGUMENTS,
        ensures
            final(self)@ == old(self)@.insert(index),
    {
        let ghost before = self.bits;
        self.bits = self.bits | (1u16 << (index as u16));
        proof {
            assert forall|j: u32| bit(self.bits, j) == (j == index || bit(before, j)) by {
                if j < 16 {
                    lemma_bit_set(before, index as u16, j as u16);
                }
            }
            assert forall|j: u32| self@.contains(j) == old(self)@.insert(index).contains(j) by {
                assert(self@.contains(j) == bit(self.bits, j));
                assert(old(self)@.contains(j) == bit(before, j));
            }
            assert(self@ =~= old(self)@.insert(index));
        }
    }

    /// Takes the position out of the set.
    pub fn clear(&mut self, index: u32)
        ensures
            final(self)@ == old(self)@.remove(index),
    {
        if index < 16 {
            let ghost before = self.bits;
            self.bits = self.bits & !(1u16 << (index as u16));
            proof {
                assert forall|j: u32| bit(self.bits, j) == (j != index && bit(before, j)) by {
                    if j < 16 {
                        lemma_bit_clear(before, index as u16, j as u16);
                    }
                }
                assert(self@ =~= old(self)@.remove(index));
            }
        } else {
            proof {
                assert(self@ =~= old(self)@.remove(index));
            }
        }
    }

    /// Adds the positions of `other`.
    pub fn union(&mut self, other: Self)
        ensures
            final(self)@ == old(self)@.union(other@),
    {
        let ghost before = self.bits;
        self.bits = self.bits | other.bits;
        proof {
            assert forall|j: u32| bit(self.bits, j) == (bit(before, j) || bit(other.bits, j)) by {
                if j < 16 {
                    lemma_bit_or(before, other.bits, j as u16);
                }
            }
            assert(self@ =~= old(self)@.union(other@));
        }
    }

    /// The positions in the set, in ascending order.
    pub fn into_iter_set_in_domain(self) -> (v: Vec<u32>)
        ensures
            v@.to_set() == self@,
            forall|i: int, j: int| 0 <= i < j < v.len() ==> v[i] < v[j],
    {
        let mut v: Vec<u32> = Vec::new();
        let mut i: u32 = 0;
        while i < 16
            invariant
                i <= 16,
                forall|k: int| 0 <= k < v.len() ==> v[k] < i && bit(self.bits, #[trigger] v[k]),
                forall|j: u32| j < i && bit(self.bits, j) ==> v@.contains(j),
                forall|a: int, b: int| 0 <= a < b < v.len() ==> v[a] < v[b],
            decreases 16 - i,
        {
            if self.is_set(i) {
                let ghost prev = v@;
                v.push(i);
                proof {
                    assert forall|j: u32| j < i + 1 && bit(self.bits, j) implies v@.contains(
                        j,
                    ) by {
                        if j < i {
                            let k = choose|k: int| 0 <= k < prev.len() && prev[k] == j;
                            assert(v@[k] == j);
                        } else {
                            assert(v@[v.len() - 1] == j);
                        }
                    }
                }
            }
            i = i + 1;
        }
        proof {
            assert(v@.to_set() =~= self@);
        }
        v
    }

    /// The positions of the set among the lowest `n`.
    spec fn positions_below(self, n: nat) -> Set<u32> {
        Set::new(|i: u32| i < n && bit(self.bits, i))
    }

    /// There are as many positions among the lowest `n` as bits are set
    /// there.
    proof fn lemma_positions_below(self, n: nat)
        requires
            n <= 16,
        ensures
            self.positions_below(n).finite(),
            self.positions_below(n).len() == count_below(self.bits, n),
        decreases n,
    {
        if n == 0 {
            assert(self.positions_below(0) =~= Set::<u32>::empty());
        } else {
            let m = (n - 1) as nat;
            self.lemma_positions_below(m);
            if bit(self.bits, m as u32) {
                assert(self.positions_below(n) =~= self.positions_below(m).insert(m as u32));
            } else {
                assert(self.positions_below(n) =~= self.positions_below(m));
            }
        }
    }

    /// Number of positions in the set.
    pub fn count(self) -> (c: u32)
        ensures
            self@.finite(),
            c == self@.len(),
            c == count_below(self.bits(), 16),
            c <= 16,
    {
        proof {
            self.lemma_positions_below(16);
            assert(self.positions_below(16) =~= self@);
        }
        let mut c: u32 = 0;
        let mut i: u32 = 0;
        while i < 16
            invariant
                i <= 16,
                c == count_below(self.bits, i as nat),
                c <= i,
            decreases 16 - i,
        {
            if self.is_set(i) {
                c = c + 1;
            }
            i = i + 1;
        }
        c
    }
}

/// The weight of an edge of a flow graph.
#[derive(Clone, Copy, PartialEq, Eq, Structural, Debug, Hash)]
pub struct Edge {
    data: TinyBitSet,
    control: bool,
}

impl Edge {
    /// The ways in which the source influences the target.
    pub closed spec fn types(self) -> Set<EdgeType> {
        Set::new(
            |t: EdgeType|
                match t {
                    EdgeType::Data(i) => self.data@.contains(i),
                    EdgeType::Control => self.control,
                },
        )
    }

    /// The edge as a pair of plain values: the bits of the argument
    /// positions, and the control flag.
    pub closed spec fn key(self) -> (u16, bool) {
        (self.data.bits(), self.control)
    }

    /// An edge carries only types that it can represent.
    pub proof fn lemma_representable(self, t: EdgeType)
        requires
            self.types().contains(t),
        ensures
            t.representable(),
    {
    }

    /// Edges with the same types are equal.
    pub proof fn lemma_ext(self, other: Self)
        requires
            self.types() == other.types(),
        ensures
            self == other,
    {
        assert forall|i: u32| self.data@.contains(i) == other.data@.contains(i) by {
            assert(self.types().contains(EdgeType::Data(i)) == self.data@.contains(i));
            assert(other.types().contains(EdgeType::Data(i)) == other.data@.contains(i));
        }
        assert(self.data@ =~= other.data@);
        self.data.lemma_ext(other.data);
        assert(self.types().contains(EdgeType::Control) == self.control);
        assert(other.types().contains(EdgeType::Control) == other.control);
    }

    /// The edge that a pair of plain values stands for.
    pub closed spec fn of_key(k: (u16, bool)) -> Edge {
        Edge { data: TinyBitSet { bits: k.0 }, control: k.1 }
    }

    /// An edge is found again from its plain values.
    pub broadcast proof fn lemma_of_key(self)
        ensures
            Edge::of_key(#[trigger] self.key()) == self,
    {
    }

    /// Plain values are found again from the edge they stand for.
    pub broadcast proof fn lemma_key_of(k: (u16, bool))
        ensures
            (#[trigger] Edge::of_key(k)).key() == k,
    {
    }

    /// The types of a merged edge are those of either edge.
    pub open spec fn merged(self, other: Self) -> Set<EdgeType> {
        self.types().union(other.types())
    }

    /// Whether the edge has no type, so that it stands for no influence.
    pub fn is_empty(self) -> (b: bool)
        ensures
            b == (self.types() == Set::<EdgeType>::empty()),
    {
        let data_empty = self.data.is_empty();
        proof {
            if !self.control && data_empty {
                assert(self.types() =~= Set::<EdgeType>::empty());
            } else if self.control {
                assert(self.types().contains(EdgeType::Control));
            } else {
                if self.types() == Set::<EdgeType>::empty() {
                    assert forall|i: u32| !self.data@.contains(i) by {
                        assert(!self.types().contains(EdgeType::Data(i)));
                    }
                    assert(self.data@ =~= Set::<u32>::empty());
                }
            }
        }
        !self.control && data_empty
    }

    /// Gives the edge the type.
    pub fn add_type(&mut self, t: EdgeType)
        requires
            t.representable(),
        ensures
            final(self).types() == old(self).types().insert(t),
    {
        match t {
            EdgeType::Control => {
                self.control = true;
            },
            EdgeType::Data(i) => {
                self.data.set(i);
            },
        }
        proof {
            assert(self.types() =~= old(self).types().insert(t));
        }
    }

    /// The edge without types.
    pub fn empty() -> (e: Self)
        ensures
            e.types() == Set::<EdgeType>::empty(),
    {
        let e = Edge { control: false, data: TinyBitSet::new_empty() };
        proof {
            assert(e.types() =~= Set::<EdgeType>::empty());
        }
        e
    }

    /// Gives the edge the types of the other edge too.
    pub fn merge(&mut self, other: Self)
        ensures
            final(self).types() == old(self).types().union(other.types()),
    {
        self.control = self.control || other.control;
        self.data.union(other.data);
        proof {
            assert(self.types() =~= old(self).types().union(other.types()));
        }
    }

    /// The types of the edge: data by ascending argument position, then
    /// control.
    pub fn into_types_iter(self) -> (v: Vec<EdgeType>)
        ensures
            v@.to_set() == self.types(),
            forall|i: int, j: int| 0 <= i < j < v.len() ==> v[i].rank() < v[j].rank(),
    {
        let positions = self.data.into_iter_set_in_domain();
        let mut v: Vec<EdgeType> = Vec::new();
        let mut k: usize = 0;
        while k < positions.len()
            invariant
                k <= positions.len(),
                v.len() == k,
                forall|i: int| 0 <= i < k ==> v[i] == EdgeType::Data(positions[i]),
            decreases positions.len() - k,
        {
            v.push(EdgeType::Data(positions[k]));
            k = k + 1;
        }
        if self.control {
            v.push(EdgeType::Control);
        }
        proof {
            assert forall|t: EdgeType| v@.to_set().contains(t) == self.types().contains(t) by {
                match t {
                    EdgeType::Data(i) => {
                        if self.data@.contains(i) {
                            assert(positions@.to_set().contains(i));
                            let p = choose|p: int| 0 <= p < positions.len() && positions[p] == i;
                            assert(v@[p] == t);
                        }
                        if v@.contains(t) {
                            let p = choose|p: int| 0 <= p < v.len() && v[p] == t;
                            assert(positions@.contains(positions[p]));
                        }
                    },
                    EdgeType::Control => {
                        if self.control {
                            assert(v@[v.len() - 1] == t);
                        }
                    },
                }
            }
            assert(v@.to_set() =~= self.types());
        }
        v
    }

    /// Number of types on the edge.
    pub fn count(self) -> (c: u32)
        ensures
            self.types().finite(),
            c == self.types().len(),
    {
        let c = self.data.count();
        proof {
            self.lemma_count();
        }
        c + if self.control {
            1
        } else {
            0
        }
    }

    /// Removes a type from the edge and says whether the edge had it.
    pub fn remove_type(&mut self, t: EdgeType) -> (changed: bool)
        ensures
            changed == old(self).types().contains(t),
            final(self).types() == old(self).types().remove(t),
    {
        let changed;
        match t {
            EdgeType::Control => {
                changed = self.control;
                self.control = false;
            },
            EdgeType::Data(i) => {
                changed = self.data.is_set(i);
                self.data.clear(i);
            },
        }
        proof {
            assert(self.types() =~= old(self).types().remove(t));
        }
        changed
    }

    /// Whether the source flows into an argument of the target.
    pub fn is_data(self) -> (b: bool)
        ensures
            b == exists|i: u32| self.types().contains(EdgeType::Data(i)),
    {
        let e = self.data.is_empty();
        proof {
            if !e {
                assert(!(self.data@ =~= Set::<u32>::empty()));
                let i = choose|i: u32| self.data@.contains(i);
                assert(self.types().contains(EdgeType::Data(i)));
            } else {
                assert forall|i: u32| !self.types().contains(EdgeType::Data(i)) by {}
            }
        }
        !e
    }

    /// Whether the source decides whether the target executes.
    pub fn is_control(self) -> (b: bool)
        ensures
            b == self.types().contains(EdgeType::Control),
    {
        self.control
    }

    /// Whether the edge has the type.
    pub fn has_type(self, t: EdgeType) -> (b: bool)
        ensures
            b == self.types().contains(t),
    {
        match t {
            EdgeType::Control => self.control,
            EdgeType::Data(i) => self.data.is_set(i),
        }
    }

    /// The edge as a pair of plain values.
    pub fn to_key(self) -> (k: (u16, bool))
        ensures
            k == self.key(),
    {
        (self.data.to_bits(), self.control)
    }

    /// The edge that the pair of plain values stands for.
    pub fn from_key(k: (u16, bool)) -> (e: Self)
        ensures
            e == Edge::of_key(k),
    {
        Edge { data: TinyBitSet::from_bits(k.0), control: k.1 }
    }

    /// The data types among the lowest `n` argument positions.
    spec fn data_types_below(self, n: nat) -> Set<EdgeType> {
        Set::new(|t: EdgeType| t matches EdgeType::Data(i) && i < n && self.data@.contains(i))
    }

    proof fn lemma_data_types_below(self, n: nat)
        requires
            n <= 16,
        ensures
            self.data_types_below(n).finite(),
            self.data_types_below(n).len() == count_below(self.data.bits(), n),
        decreases n,
    {
        if n == 0 {
            assert(self.data_types_below(0) =~= Set::<EdgeType>::empty());
        } else {
            let m = (n - 1) as nat;
            self.lemma_data_types_below(m);
            if bit(self.data.bits(), m as u32) {
                assert(self.data_types_below(n) =~= self.data_types_below(m).insert(
                    EdgeType::Data(m as u32),
                ));
            } else {
                assert(self.data_types_below(n) =~= self.data_types_below(m));
            }
        }
    }

    proof fn lemma_count(self)
        ensures
            self.types().finite(),
            self.types().len() == count_below(self.data.bits(), 16) + if self.control {
                1nat
            } else {
                0nat
            },
    {
        self.lemma_data_types_below(16);
        if self.control {
            assert(self.types() =~= self.data_types_below(16).insert(EdgeType::Control));
        } else {
            assert(self.types() =~= self.data_types_below(16));
        }
    }
}

} // verus!
