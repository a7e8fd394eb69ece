//! Schema masks, columns, and archetypes.
//!
//! A schema mask is a fixed-width bitset over component identities; an
//! archetype pairs one mask with one byte column per component identity in
//! the schema and a row-parallel list of entity identities.

use vstd::prelude::*;
use vstd::pervasive::VecAdditionalExecFns;
use crate::component::{ComponentId, ComponentKind, ComponentMeta, ErasedComponent, needs_drop};

verus! {

/// Ceiling on distinct component identities a schema can name.
pub const MAX_COMPONENTS: usize = 256;

/// Opaque, monotonically increasing handle for one stored record.
pub type EntityId = u32;

/// A fixed-capacity bitset over component identities: bit `i` set means
/// component identity `i` is part of the schema. Capacity is
/// `MAX_COMPONENTS` bits, held in four 64-bit words.
#[derive(Debug, Clone, Copy, PartialEq, Eq, Structural)]
pub struct ArchetypeMask {
    pub word0: u64,
    pub word1: u64,
    pub word2: u64,
    pub word3: u64,
}

impl ArchetypeMask {
    /// Bit `id` of the mask.
    pub open spec fn spec_has(self, id: u32) -> bool {
        if id < 64 {
            (self.word0 >> (id as u64)) & 1 == 1
        } else if id < 128 {
            (self.word1 >> ((id - 64) as u64)) & 1 == 1
        } else if id < 192 {
            (self.word2 >> ((id - 128) as u64)) & 1 == 1
        } else if id < 256 {
            (self.word3 >> ((id - 192) as u64)) & 1 == 1
        } else {
            false
        }
    }

    /// Word-wise containment: every bit set in `other` is also set in
    /// `self`.
    pub open spec fn spec_contains(self, other: ArchetypeMask) -> bool {
        &&& self.word0 & other.word0 == other.word0
        &&& self.word1 & other.word1 == other.word1
        &&& self.word2 & other.word2 == other.word2
        &&& self.word3 & other.word3 == other.word3
    }

    /// The mask with no bit set.
    pub open spec fn spec_empty() -> ArchetypeMask {
        ArchetypeMask { word0: 0, word1: 0, word2: 0, word3: 0 }
    }

    /// The mask with bit `id` added.
    pub open spec fn spec_set(self, id: u32) -> ArchetypeMask
        recommends
            id < 256,
    {
        if id < 64 {
            ArchetypeMask { word0: self.word0 | (1u64 << (id as u64)), ..self }
        } else if id < 128 {
            ArchetypeMask { word1: self.word1 | (1u64 << ((id - 64) as u64)), ..self }
        } else if id < 192 {
            ArchetypeMask { word2: self.word2 | (1u64 << ((id - 128) as u64)), ..self }
        } else if id < 256 {
            ArchetypeMask { word3: self.word3 | (1u64 << ((id - 192) as u64)), ..self }
        } else {
            self
        }
    }

    /// Builds the mask whose set bits are exactly the listed identities.
    /// The schema capacity is a hard limit: identities at or above
    /// `MAX_COMPONENTS`, or more of them than the capacity, are outside
    /// this subsystem's configuration space.
    pub fn from_ids(ids: &[ComponentId]) -> (mask: ArchetypeMask)
        requires
            ids@.len() <= MAX_COMPONENTS,
            forall|i: int| 0 <= i < ids@.len() ==> ids@[i] < 256,
        ensures
            mask == mask_of(ids@),
    {
        let mut mask = ArchetypeMask { word0: 0, word1: 0, word2: 0, word3: 0 };
        let n = ids.len();
        let mut i: usize = 0;
        while i < n
            invariant
                i <= n,
                mask == mask_of(ids@.subrange(0, i as int)),
            decreases n - i,
        {
            let id = ids[i];
            if id < 64 {
                mask.word0 = mask.word0 | (1u64 << (id as u64));
            } else if id < 128 {
                mask.word1 = mask.word1 | (1u64 << ((id - 64) as u64));
            } else if id < 192 {
                mask.word2 = mask.word2 | (1u64 << ((id - 128) as u64));
            } else {
                mask.word3 = mask.word3 | (1u64 << ((id - 192) as u64));
            }
            proof {
                assert(ids@.subrange(0, i + 1).drop_last() =~= ids@.subrange(0, i as int));
                assert(ids@.subrange(0, i + 1).last() == ids@[i as int]);
            }
            i = i + 1;
        }
        proof {
            assert(ids@.subrange(0, n as int) =~= ids@);
        }
        mask
    }

    /// Word-wise bitwise containment test.
    pub fn contains(&self, other: &ArchetypeMask) -> (r: bool)
        ensures
            r == self.spec_contains(*other),
    {
        (self.word0 & other.word0) == other.word0
            && (self.word1 & other.word1) == other.word1
            && (self.word2 & other.word2) == other.word2
            && (self.word3 & other.word3) == other.word3
    }
}

/// The mask whose set bits are the identities of `ids`.
pub open spec fn mask_of(ids: Seq<u32>) -> ArchetypeMask
    decreases ids.len(),
{
    if ids.len() == 0 {
        ArchetypeMask::spec_empty()
    } else {
        mask_of(ids.drop_last()).spec_set(ids.last())
    }
}

/// Adding bit `id` sets that bit and leaves every other bit as it was.
pub proof fn lemma_spec_set_bits(m: ArchetypeMask, id: u32, j: u32)
    requires
        id < 256,
    ensures
        m.spec_set(id).spec_has(j) <==> (j == id || m.spec_has(j)),
{
    let k: u64 = if id < 64 {
        id as u64
    } else if id < 128 {
        (id - 64) as u64
    } else if id < 192 {
        (id - 128) as u64
    } else {
        (id - 192) as u64
    };
    let jj: u64 = if j < 64 {
        j as u64
    } else if j < 128 {
        (j - 64) as u64
    } else if j < 192 {
        (j - 128) as u64
    } else {
        (j - 192) as u64
    };
    let w: u64 = if id < 64 {
        m.word0
    } else if id < 128 {
        m.word1
    } else if id < 192 {
        m.word2
    } else {
        m.word3
    };
    assert(forall|x: u64, b: u64|
        b < 64 ==> ((x | (1u64 << b)) >> b) & 1 == 1) by (bit_vector);
    assert(forall|x: u64, b: u64, c: u64|
        b < 64 && c < 64 && b != c ==> ((x | (1u64 << b)) >> c) & 1 == (x >> c) & 1)
        by (bit_vector);
    assert(k < 64);
    assert(jj < 64 || j >= 256);
}

/// The empty mask has no bit set.
pub proof fn lemma_spec_empty_bits(j: u32)
    ensures
        !ArchetypeMask::spec_empty().spec_has(j),
{
    assert(forall|b: u64| b < 64 ==> (0u64 >> b) & 1 == 0) by (bit_vector);
}

/// A mask built from an identity list has exactly one bit per listed
/// identity.
pub proof fn lemma_mask_of_has(ids: Seq<u32>, j: u32)
    requires
        forall|i: int| 0 <= i < ids.len() ==> ids[i] < 256,
    ensures
        mask_of(ids).spec_has(j) <==> ids.contains(j),
    decreases ids.len(),
{
    if ids.len() == 0 {
        lemma_spec_empty_bits(j);
    } else {
        let rest = ids.drop_last();
        lemma_mask_of_has(rest, j);
        lemma_spec_set_bits(mask_of(rest), ids.last(), j);
        if ids.contains(j) {
            let w = choose|i: int| 0 <= i < ids.len() && ids[i] == j;
            if w < ids.len() - 1 {
                assert(rest[w] == j);
                assert(rest.contains(j));
            }
        }
        if rest.contains(j) {
            let w = choose|i: int| 0 <= i < rest.len() && rest[i] == j;
            assert(ids[w] == j);
        }
    }
}

proof fn lemma_u64_ext_step(a: u64, b: u64, n: u64)
    by (bit_vector)
    requires
        1 <= n < 64,
        a << ((64 - n) as u64) == b << ((64 - n) as u64),
        (a >> n) & 1 == (b >> n) & 1,
    ensures
        a << ((63 - n) as u64) == b << ((63 - n) as u64),
{
}

proof fn lemma_u64_ext_rec(a: u64, b: u64, n: u64)
    requires
        1 <= n <= 64,
        forall|j: u64| j < n ==> (a >> j) & 1 == (b >> j) & 1,
    ensures
        a << ((64 - n) as u64) == b << ((64 - n) as u64),
    decreases n,
{
    if n == 1 {
        assert((a >> 0) & 1 == (b >> 0) & 1);
        assert((a >> 0u64) & 1 == (b >> 0u64) & 1 ==> a << 63u64 == b << 63u64)
            by (bit_vector);
    } else {
        lemma_u64_ext_rec(a, b, (n - 1) as u64);
        assert((a >> ((n - 1) as u64)) & 1 == (b >> ((n - 1) as u64)) & 1);
        lemma_u64_ext_step(a, b, (n - 1) as u64);
    }
}

/// Two words that agree on every bit are equal.
pub proof fn lemma_u64_bit_ext(a: u64, b: u64)
    requires
        forall|j: u64| j < 64 ==> (a >> j) & 1 == (b >> j) & 1,
    ensures
        a == b,
{
    lemma_u64_ext_rec(a, b, 64);
    assert(a << 0u64 == a) by (bit_vector);
    assert(b << 0u64 == b) by (bit_vector);
}

/// Two masks that agree on every component identity are equal.
pub proof fn lemma_mask_ext(a: ArchetypeMask, b: ArchetypeMask)
    requires
        forall|id: u32| a.spec_has(id) == b.spec_has(id),
    ensures
        a == b,
{
    assert(forall|x: u64, j: u64| (x >> j) & 1 == 0 || (x >> j) & 1 == 1) by (bit_vector);
    assert forall|j: u64| j < 64 implies (a.word0 >> j) & 1 == (b.word0 >> j) & 1 by {
        let id = j as u32;
        assert(a.spec_has(id) == b.spec_has(id));
    }
    assert forall|j: u64| j < 64 implies (a.word1 >> j) & 1 == (b.word1 >> j) & 1 by {
        let id = (j + 64) as u32;
        assert(a.spec_has(id) == b.spec_has(id));
        assert((id - 64) as u64 == j);
    }
    assert forall|j: u64| j < 64 implies (a.word2 >> j) & 1 == (b.word2 >> j) & 1 by {
        let id = (j + 128) as u32;
        assert(a.spec_has(id) == b.spec_has(id));
        assert((id - 128) as u64 == j);
    }
    assert forall|j: u64| j < 64 implies (a.word3 >> j) & 1 == (b.word3 >> j) & 1 by {
        let id = (j + 192) as u32;
        assert(a.spec_has(id) == b.spec_has(id));
        assert((id - 192) as u64 == j);
    }
    lemma_u64_bit_ext(a.word0, b.word0);
    lemma_u64_bit_ext(a.word1, b.word1);
    lemma_u64_bit_ext(a.word2, b.word2);
    lemma_u64_bit_ext(a.word3, b.word3);
}

/// Containment is reflexive: every mask contains itself.
pub proof fn lemma_contains_refl(a: ArchetypeMask)
    ensures
        a.spec_contains(a),
{
    assert(forall|x: u64| x & x == x) by (bit_vector);
}

/// Containment is transitive.
pub proof fn lemma_contains_trans(a: ArchetypeMask, b: ArchetypeMask, c: ArchetypeMask)
    requires
        a.spec_contains(b),
        b.spec_contains(c),
    ensures
        a.spec_contains(c),
{
    assert(forall|x: u64, y: u64, z: u64|
        x & y == y && y & z == z ==> x & z == z) by (bit_vector);
}

/// The empty mask is contained in every mask.
pub proof fn lemma_contains_empty(a: ArchetypeMask)
    ensures
        a.spec_contains(ArchetypeMask::spec_empty()),
{
    assert(forall|x: u64| x & 0 == 0) by (bit_vector);
}

/// Containment is bitwise: a bit of the contained mask is a bit of the
/// containing one.
pub proof fn lemma_contains_has(a: ArchetypeMask, b: ArchetypeMask, id: u32)
    requires
        a.spec_contains(b),
        b.spec_has(id),
    ensures
        a.spec_has(id),
{
    assert(forall|x: u64, y: u64, j: u64|
        x & y == y && (y >> j) & 1 == 1 ==> (x >> j) & 1 == 1) by (bit_vector);
}

/// Containment is antisymmetric: masks that contain each other are equal.
/// Together with reflexivity and transitivity, containment is a partial
/// order.
pub proof fn lemma_contains_antisym(a: ArchetypeMask, b: ArchetypeMask)
    requires
        a.spec_contains(b),
        b.spec_contains(a),
    ensures
        a == b,
{
    assert forall|id: u32| a.spec_has(id) == b.spec_has(id) by {
        if a.spec_has(id) {
            lemma_contains_has(b, a, id);
        }
        if b.spec_has(id) {
            lemma_contains_has(a, b, id);
        }
    }
    lemma_mask_ext(a, b);
}

/// One component type's storage within one archetype: a single contiguous,
/// manually grown byte buffer, a logical element count, an allocated
/// capacity in elements, and the component's metadata.
#[derive(Debug)]
pub struct Column {
    pub data: Vec<u8>,
    pub len: usize,
    pub capacity: usize,
    pub meta: ComponentMeta,
}

impl Column {
    /// The buffer holds exactly `capacity` slots of `meta.size` bytes, and
    /// the first `len` of them are live.
    pub open spec fn wf(self) -> bool {
        &&& 1 <= self.capacity
        &&& self.len <= self.capacity
        &&& self.capacity * self.meta.size <= usize::MAX
        &&& self.data@.len() == self.capacity * self.meta.size
    }

    /// The bytes of the element in row `i`.
    pub open spec fn element(self, i: int) -> Seq<u8> {
        self.data@.subrange(i * self.meta.size, (i + 1) * self.meta.size)
    }

    /// One more element fits the address space: pushing may double the
    /// capacity, and the doubled buffer must still have a representable
    /// byte size.
    pub open spec fn can_push(self) -> bool {
        self.len == self.capacity ==> {
            &&& 2 * self.capacity <= usize::MAX
            &&& 2 * self.capacity * self.meta.size <= usize::MAX
        }
    }

    /// A fresh column with no live element and room for `capacity` values
    /// of the described component type.
    pub fn new(capacity: usize, id: ComponentId, size: usize, kind: ComponentKind) -> (c: Column)
        requires
            1 <= capacity,
            capacity * size <= usize::MAX,
        ensures
            c.wf(),
            c.len == 0,
            c.capacity == capacity,
            c.meta == (ComponentMeta { id, kind, size }),
    {
        let total = capacity * size;
        let data = alloc_bytes(total);
        Column { data, len: 0, capacity, meta: ComponentMeta { id, kind, size } }
    }

    /// Appends one element's raw bytes, doubling the buffer first when it
    /// is full. Every element already stored keeps its bytes.
    pub fn push(&mut self, bytes: &[u8])
        requires
            old(self).wf(),
            bytes@.len() == old(self).meta.size,
            old(self).can_push(),
        ensures
            final(self).wf(),
            final(self).meta == old(self).meta,
            final(self).len == old(self).len + 1,
            final(self).capacity == if old(self).len == old(self).capacity {
                2 * old(self).capacity
            } else {
                old(self).capacity as int
            },
            forall|i: int|
                0 <= i < old(self).len ==> final(self).element(i) == old(self).element(i),
            final(self).element(old(self).len as int) == bytes@,
    {
        let size = self.meta.size;
        proof {
            assert(self.len * size <= self.capacity * size) by (nonlinear_arith)
                requires
                    self.len <= self.capacity,
                    size >= 0,
            ;
        }
        if self.len == self.capacity {
            let new_capacity = self.capacity * 2;
            let total = new_capacity * size;
            let mut new_data = alloc_bytes(total);
            let live = self.len * size;
            proof {
                assert(live <= total) by (nonlinear_arith)
                    requires
                        live == self.len * size,
                        total == new_capacity * size,
                        self.len <= new_capacity,
                        size >= 0,
                ;
            }
            let mut i: usize = 0;
            while i < live
                invariant
                    i <= live,
                    new_data@.len() == total,
                    forall|j: int| 0 <= j < i ==> new_data@[j] == self.data@[j],
                decreases live - i,
            {
                let b = self.data[i];
                new_data.set(i, b);
                i = i + 1;
            }
            self.data = new_data;
            self.capacity = new_capacity;
        }
        proof {
            assert(self.len * size + size <= self.capacity * size) by (nonlinear_arith)
                requires
                    self.len < self.capacity,
                    size >= 0,
            ;
        }
        let offset = self.len * size;
        let ghost grown_capacity = self.capacity as int;
        proof {
            assert(forall|t: int| 0 <= t < offset ==> self.data@[t] == old(self).data@[t]);
        }
        let mut j: usize = 0;
        while j < size
            invariant
                j <= size,
                self.data@.len() == self.capacity * self.meta.size,
                self.meta.size == size,
                self.capacity == grown_capacity,
                offset == self.len * size,
                offset + size <= self.data@.len(),
                bytes@.len() == size,
                forall|t: int| 0 <= t < offset ==> self.data@[t] == old(self).data@[t],
                forall|t: int| 0 <= t < j ==> self.data@[offset + t] == bytes@[t],
                self.len == old(self).len,
                self.meta == old(self).meta,
            decreases size - j,
        {
            let b = bytes[j];
            self.data.set(offset + j, b);
            j = j + 1;
        }
        self.len = self.len + 1;
        proof {
            let olen = old(self).len as int;
            assert((olen + 1) * size == olen * size + size) by (nonlinear_arith);
            assert forall|i: int|
                0 <= i < olen implies self.element(i) == old(self).element(i) by {
                assert((i + 1) * size <= olen * size && 0 <= i * size
                    && i * size + size == (i + 1) * size) by (nonlinear_arith)
                    requires
                        0 <= i,
                        i + 1 <= olen,
                        size >= 0,
                ;
                assert(self.element(i) =~= old(self).element(i));
            }
            assert(self.element(olen) =~= bytes@);
        }
    }

    /// Appends one element from a runtime-typed record. Identical to
    /// `push`, with the source taken from the record's bytes; the caller
    /// guarantees the record matches the column's component type.
    pub fn push_erased(&mut self, component: &ErasedComponent)
        requires
            old(self).wf(),
            component.data@.len() == old(self).meta.size,
            old(self).can_push(),
        ensures
            final(self).wf(),
            final(self).meta == old(self).meta,
            final(self).len == old(self).len + 1,
            final(self).capacity == if old(self).len == old(self).capacity {
                2 * old(self).capacity
            } else {
                old(self).capacity as int
            },
            forall|i: int|
                0 <= i < old(self).len ==> final(self).element(i) == old(self).element(i),
            final(self).element(old(self).len as int) == component.data@,
    {
        self.push(component.data.as_slice());
    }

    /// A copy of the bytes of the element in row `row`.
    pub fn read(&self, row: usize) -> (bytes: Vec<u8>)
        requires
            self.wf(),
            row < self.len,
        ensures
            bytes@ == self.element(row as int),
    {
        let size = self.meta.size;
        proof {
            assert(row * size + size <= self.capacity * size && 0 <= row * size
                && (row + 1) * size == row * size + size) by (nonlinear_arith)
                requires
                    0 <= row,
                    row < self.capacity,
                    size >= 0,
            ;
        }
        let offset = row * size;
        let mut bytes: Vec<u8> = Vec::new();
        let mut j: usize = 0;
        while j < size
            invariant
                j <= size,
                bytes@.len() == j,
                forall|t: int| 0 <= t < j ==> bytes@[t] == self.data@[offset + t],
            decreases size - j,
        {
            bytes.push(self.data[offset + j]);
            j = j + 1;
        }
        proof {
            assert(bytes@ =~= self.element(row as int));
        }
        bytes
    }

    /// Overwrites the bytes of the element in row `row`. Every other
    /// element keeps its bytes.
    pub fn write(&mut self, row: usize, bytes: &[u8])
        requires
            old(self).wf(),
            row < old(self).len,
            bytes@.len() == old(self).meta.size,
        ensures
            final(self).wf(),
            final(self).meta == old(self).meta,
            final(self).len == old(self).len,
            final(self).capacity == old(self).capacity,
            final(self).element(row as int) == bytes@,
            forall|i: int|
                0 <= i < old(self).len && i != row ==> final(self).element(i) == old(
                    self,
                ).element(i),
    {
        let size = self.meta.size;
        proof {
            assert(row * size + size <= self.capacity * size && 0 <= row * size
                && (row + 1) * size == row * size + size) by (nonlinear_arith)
                requires
                    0 <= row,
                    row < self.capacity,
                    size >= 0,
            ;
        }
        let offset = row * size;
        let mut j: usize = 0;
        while j < size
            invariant
                j <= size,
                self.data@.len() == self.capacity * self.meta.size,
                self.meta.size == size,
                self.meta == old(self).meta,
                self.len == old(self).len,
                self.capacity == old(self).capacity,
                offset == row * size,
                offset + size <= self.data@.len(),
                bytes@.len() == size,
                forall|t: int|
                    0 <= t < self.data@.len() && !(offset <= t < offset + j)
                        ==> self.data@[t] == old(self).data@[t],
                forall|t: int| 0 <= t < j ==> self.data@[offset + t] == bytes@[t],
            decreases size - j,
        {
            let b = bytes[j];
            self.data.set(offset + j, b);
            j = j + 1;
        }
        proof {
            let olen = old(self).len as int;
            let r = row as int;
            assert(self.element(r) =~= bytes@);
            let cap = self.capacity as int;
            assert forall|i: int|
                0 <= i < olen && i != r implies self.element(i) == old(self).element(i) by {
                assert((i + 1) * size <= olen * size && 0 <= i * size
                    && i * size + size == (i + 1) * size
                    && olen * size <= cap * size
                    && (i < r ==> (i + 1) * size <= r * size)
                    && (i > r ==> r * size + size <= i * size)) by (nonlinear_arith)
                    requires
                        0 <= i,
                        i + 1 <= olen,
                        olen <= cap,
                        0 <= r,
                        i != r,
                        size >= 0,
                ;
                assert(self.element(i) =~= old(self).element(i));
            }
        }
    }

    /// Tears the column down: hands back, in row order, the bytes of every
    /// live element whose type owns external resources, so the embedding
    /// application can run its destructor on each exactly once.
    /// Plain-data elements are simply dropped as bytes. This is the only
    /// cleanup path; a column that never reaches it leaks its resources.
    pub fn destroy(self) -> (drops: Vec<Vec<u8>>)
        requires
            self.wf(),
        ensures
            needs_drop(self.meta.kind) ==> {
                &&& drops@.len() == self.len
                &&& forall|i: int| 0 <= i < self.len ==> drops@[i]@ == self.element(i)
            },
            !needs_drop(self.meta.kind) ==> drops@.len() == 0,
    {
        let mut drops: Vec<Vec<u8>> = Vec::new();
        let run = match self.meta.kind {
            ComponentKind::Extern => true,
            ComponentKind::Pod => false,
        };
        if run {
            let mut i: usize = 0;
            while i < self.len
                invariant
                    i <= self.len,
                    drops@.len() == i,
                    forall|t: int| 0 <= t < i ==> drops@[t]@ == self.element(t),
                decreases self.len - i,
            {
                drops.push(self.read(i));
                i = i + 1;
            }
        }
        drops
    }
}

/// The index of the first column holding component identity `id`, or `-1`
/// when the archetype has no such column.
pub open spec fn col_index_of(columns: Seq<Column>, id: u32) -> int
    decreases columns.len(),
{
    if columns.len() == 0 {
        -1
    } else if columns[0].meta.id == id {
        0
    } else {
        let r = col_index_of(columns.subrange(1, columns.len() as int), id);
        if r < 0 {
            -1
        } else {
            r + 1
        }
    }
}

/// `col_index_of` finds the first column of an identity: at its result the
/// identity matches, before it it does not, and `-1` means no column
/// matches.
pub proof fn lemma_col_index_of(columns: Seq<Column>, id: u32)
    ensures
        col_index_of(columns, id) < 0 ==> forall|i: int|
            0 <= i < columns.len() ==> columns[i].meta.id != id,
        col_index_of(columns, id) >= 0 ==> {
            &&& col_index_of(columns, id) < columns.len()
            &&& columns[col_index_of(columns, id)].meta.id == id
            &&& forall|i: int| 0 <= i < col_index_of(columns, id) ==> columns[i].meta.id != id
        },
    decreases columns.len(),
{
    if columns.len() == 0 {
    } else if columns[0].meta.id == id {
    } else {
        let rest = columns.subrange(1, columns.len() as int);
        lemma_col_index_of(rest, id);
        let r = col_index_of(rest, id);
        if r < 0 {
            assert forall|i: int| 0 <= i < columns.len() implies columns[i].meta.id != id by {
                if i >= 1 {
                    assert(rest[i - 1] == columns[i]);
                }
            }
        } else {
            assert(columns[r + 1] == rest[r]);
            assert forall|i: int| 0 <= i < r + 1 implies columns[i].meta.id != id by {
                if i >= 1 {
                    assert(rest[i - 1] == columns[i]);
                }
            }
        }
    }
}

/// The identities of a record list, in order.
pub open spec fn ids_of(components: Seq<ErasedComponent>) -> Seq<u32> {
    components.map_values(|c: ErasedComponent| c.id)
}

/// The index of the first record carrying identity `id`, or `-1` when none
/// does.
pub open spec fn rec_index_of(components: Seq<ErasedComponent>, id: u32) -> int
    decreases components.len(),
{
    if components.len() == 0 {
        -1
    } else if components[0].id == id {
        0
    } else {
        let r = rec_index_of(components.subrange(1, components.len() as int), id);
        if r < 0 {
            -1
        } else {
            r + 1
        }
    }
}

/// `rec_index_of` finds the first record of an identity.
pub proof fn lemma_rec_index_of(components: Seq<ErasedComponent>, id: u32)
    ensures
        rec_index_of(components, id) < 0 ==> forall|i: int|
            0 <= i < components.len() ==> components[i].id != id,
        rec_index_of(components, id) >= 0 ==> {
            &&& rec_index_of(components, id) < components.len()
            &&& components[rec_index_of(components, id)].id == id
            &&& forall|i: int|
                0 <= i < rec_index_of(components, id) ==> components[i].id != id
        },
    decreases components.len(),
{
    if components.len() == 0 {
    } else if components[0].id == id {
    } else {
        let rest = components.subrange(1, components.len() as int);
        lemma_rec_index_of(rest, id);
        let r = rec_index_of(rest, id);
        if r < 0 {
            assert forall|i: int| 0 <= i < components.len() implies components[i].id != id by {
                if i >= 1 {
                    assert(rest[i - 1] == components[i]);
                }
            }
        } else {
            assert(components[r + 1] == rest[r]);
            assert forall|i: int| 0 <= i < r + 1 implies components[i].id != id by {
                if i >= 1 {
                    assert(rest[i - 1] == components[i]);
                }
            }
        }
    }
}

/// A record position is pinned by a match with no earlier match.
pub proof fn lemma_rec_index_unique(components: Seq<ErasedComponent>, id: u32, k: int)
    requires
        0 <= k < components.len(),
        components[k].id == id,
        forall|j: int| 0 <= j < k ==> components[j].id != id,
    ensures
        rec_index_of(components, id) == k,
{
    lemma_rec_index_of(components, id);
    let r = rec_index_of(components, id);
    if r < 0 {
        assert(components[k].id != id);
    }
}

/// The bytes of the first record carrying identity `id`; the empty
/// sequence when none does.
pub open spec fn record_data(components: Seq<ErasedComponent>, id: u32) -> Seq<u8> {
    if rec_index_of(components, id) >= 0 {
        components[rec_index_of(components, id)].data@
    } else {
        Seq::empty()
    }
}

/// One schema and its storage: the schema mask, one column per component
/// identity in the schema, and the ordered list of entity identities, one
/// per row, advanced in lockstep with every column.
#[derive(Debug)]
pub struct Archetype {
    pub mask: ArchetypeMask,
    pub columns: Vec<Column>,
    pub entities: Vec<EntityId>,
}

impl Archetype {
    /// Every column is well formed and in row lockstep with the entity
    /// list, column identities are distinct, and the mask has exactly one
    /// bit per column identity.
    pub open spec fn wf(self) -> bool {
        &&& forall|i: int| 0 <= i < self.columns@.len() ==> (#[trigger] self.columns@[i]).wf()
        &&& forall|i: int|
            0 <= i < self.columns@.len() ==> (#[trigger] self.columns@[i]).len
                == self.entities@.len()
        &&& forall|i: int, j: int|
            0 <= i < j < self.columns@.len() ==> self.columns@[i].meta.id
                != self.columns@[j].meta.id
        &&& forall|id: u32| #[trigger]
            self.mask.spec_has(id) == (col_index_of(self.columns@, id) >= 0)
    }

    /// Every column can take one more row.
    pub open spec fn can_push_row(self) -> bool {
        forall|i: int| 0 <= i < self.columns@.len() ==> (#[trigger] self.columns@[i]).can_push()
    }

    /// Pairs a schema mask with its columns. The caller is responsible for
    /// the columns' identities being exactly the mask's bits; the pairing
    /// is not re-derived here.
    pub fn new(mask: ArchetypeMask, columns: Vec<Column>) -> (a: Archetype)
        ensures
            a.mask == mask,
            a.columns@ == columns@,
            a.entities@.len() == 0,
    {
        Archetype { mask, columns, entities: Vec::new() }
    }

    /// Whether this archetype's schema includes every listed identity:
    /// builds a probe mask and tests containment.
    pub fn has_components(&self, ids: &[ComponentId]) -> (r: bool)
        requires
            ids@.len() <= MAX_COMPONENTS,
            forall|i: int| 0 <= i < ids@.len() ==> ids@[i] < 256,
        ensures
            r == self.mask.spec_contains(mask_of(ids@)),
    {
        let mask = ArchetypeMask::from_ids(ids);
        self.mask.contains(&mask)
    }

    /// The column holding component identity `id`, by linear scan; nothing
    /// when the schema lacks the identity.
    pub fn get_column_with_component(&self, id: ComponentId) -> (r: Option<&Column>)
        ensures
            (r is Some) == (col_index_of(self.columns@, id) >= 0),
            r matches Some(c) ==> *c == self.columns@[col_index_of(self.columns@, id)],
    {
        proof {
            lemma_col_index_of(self.columns@, id);
        }
        let n = self.columns.len();
        let mut k: usize = 0;
        while k < n
            invariant
                k <= n,
                forall|i: int| 0 <= i < k ==> self.columns@[i].meta.id != id,
            decreases n - k,
        {
            if self.columns[k].meta.id == id {
                proof {
                    lemma_col_index_of(self.columns@, id);
                }
                return Some(&self.columns[k]);
            }
            k = k + 1;
        }
        proof {
            lemma_col_index_of(self.columns@, id);
        }
        None
    }

    /// The position of the column holding component identity `id`, for
    /// in-place update; nothing when the schema lacks the identity.
    pub fn get_column_with_component_mut(&mut self, id: ComponentId) -> (r: Option<usize>)
        ensures
            *final(self) == *old(self),
            (r is Some) == (col_index_of(old(self).columns@, id) >= 0),
            r matches Some(k) ==> k == col_index_of(old(self).columns@, id),
    {
        proof {
            lemma_col_index_of(self.columns@, id);
        }
        let n = self.columns.len();
        let mut k: usize = 0;
        while k < n
            invariant
                k <= n,
                forall|i: int| 0 <= i < k ==> self.columns@[i].meta.id != id,
            decreases n - k,
        {
            if self.columns[k].meta.id == id {
                proof {
                    lemma_col_index_of(self.columns@, id);
                }
                return Some(k);
            }
            k = k + 1;
        }
        proof {
            lemma_col_index_of(self.columns@, id);
        }
        None
    }

    /// Appends one entity identity to the row list. Must happen exactly
    /// once per stored row, alongside the pushes that give every column
    /// that row's value, to preserve row lockstep.
    pub fn add_entity(&mut self, id: EntityId)
        ensures
            final(self).mask == old(self).mask,
            final(self).columns@ == old(self).columns@,
            final(self).entities@ == old(self).entities@.push(id),
    {
        self.entities.push(id);
    }
}

/// A column position is pinned by a match with no earlier match.
pub proof fn lemma_col_index_unique(columns: Seq<Column>, id: u32, k: int)
    requires
        0 <= k < columns.len(),
        columns[k].meta.id == id,
        forall|j: int| 0 <= j < k ==> columns[j].meta.id != id,
    ensures
        col_index_of(columns, id) == k,
{
    lemma_col_index_of(columns, id);
    let r = col_index_of(columns, id);
    if r < 0 {
        assert(columns[k].meta.id != id);
    }
}

/// `col_index_of` depends only on the columns' identities, not on their
/// contents.
pub proof fn lemma_col_index_same_ids(c1: Seq<Column>, c2: Seq<Column>, id: u32)
    requires
        c1.len() == c2.len(),
        forall|i: int| 0 <= i < c1.len() ==> c1[i].meta.id == c2[i].meta.id,
    ensures
        col_index_of(c1, id) == col_index_of(c2, id),
{
    lemma_col_index_of(c1, id);
    lemma_col_index_of(c2, id);
    let r1 = col_index_of(c1, id);
    let r2 = col_index_of(c2, id);
    if r1 >= 0 {
        lemma_col_index_unique(c2, id, r1);
    } else if r2 >= 0 {
        assert(c1[r2].meta.id == id);
    }
}

/// How one stored row changes an archetype: the schema and every already
/// stored element are untouched, the entity identity is appended to the
/// row list, and every column gains exactly one element, the bytes of the
/// bundle record carrying that column's identity.
pub open spec fn row_added(
    pre: Archetype,
    post: Archetype,
    components: Seq<ErasedComponent>,
    entity: EntityId,
) -> bool {
    &&& post.mask == pre.mask
    &&& post.entities@ == pre.entities@.push(entity)
    &&& post.columns@.len() == pre.columns@.len()
    &&& forall|k: int|
        0 <= k < pre.columns@.len() ==> (#[trigger] post.columns@[k]).meta
            == pre.columns@[k].meta
    &&& forall|k: int|
        0 <= k < pre.columns@.len() ==> (#[trigger] post.columns@[k]).len
            == pre.columns@[k].len + 1
    &&& forall|k: int, i: int|
        0 <= k < pre.columns@.len() && 0 <= i < pre.columns@[k].len
            ==> post.columns@[k].element(i) == pre.columns@[k].element(i)
    &&& forall|k: int|
        0 <= k < pre.columns@.len() ==> (#[trigger] post.columns@[k]).element(
            pre.columns@[k].len as int,
        ) == record_data(components, pre.columns@[k].meta.id)
}

impl Archetype {
    /// Stores one row: pushes each record's bytes onto the column holding
    /// its identity and appends the entity identity to the row list. The
    /// bundle's schema must be exactly this archetype's schema, with one
    /// record per identity; a missing column would be an internal
    /// desynchronization, which well-formedness rules out.
    pub fn push_row(&mut self, components: &[ErasedComponent], entity: EntityId)
        requires
            old(self).wf(),
            old(self).can_push_row(),
            old(self).mask == mask_of(ids_of(components@)),
            forall|i: int, j: int|
                0 <= i < j < components@.len() ==> components@[i].id != components@[j].id,
            forall|i: int| 0 <= i < components@.len() ==> components@[i].id < 256,
            forall|i: int|
                0 <= i < components@.len() ==> {
                    let k = col_index_of(old(self).columns@, (#[trigger] components@[i]).id);
                    k >= 0 ==> old(self).columns@[k].meta.size == components@[i].data@.len()
                },
        ensures
            final(self).wf(),
            row_added(*old(self), *final(self), components@, entity),
    {
        let ghost pre = *self;
        proof {
            // Every record has its column: the bundle identity is a mask
            // bit, and well-formedness pairs every mask bit with a column.
            assert forall|i: int|
                0 <= i < components@.len() implies col_index_of(pre.columns@, components@[i].id)
                >= 0 by {
                assert(ids_of(components@)[i] == components@[i].id);
                lemma_mask_of_has(ids_of(components@), components@[i].id);
            }
            // Every column has its record.
            assert forall|k: int|
                0 <= k < pre.columns@.len() implies 0 <= rec_index_of(
                components@,
                (#[trigger] pre.columns@[k]).meta.id,
            ) < components@.len() by {
                let id = pre.columns@[k].meta.id;
                lemma_col_index_of(pre.columns@, id);
                if col_index_of(pre.columns@, id) < 0 {
                    assert(pre.columns@[k].meta.id != id);
                }
                assert(pre.mask.spec_has(id));
                lemma_mask_of_has(ids_of(components@), id);
                let w = choose|i: int|
                    0 <= i < ids_of(components@).len() && ids_of(components@)[i] == id;
                assert(components@[w].id == id);
                lemma_rec_index_of(components@, id);
                if rec_index_of(components@, id) < 0 {
                    assert(components@[w].id != id);
                }
            }
        }
        let n = components.len();
        let mut i: usize = 0;
        while i < n
            invariant
                i <= n,
                self.mask == pre.mask,
                self.entities@ == pre.entities@,
                self.columns@.len() == pre.columns@.len(),
                forall|k: int|
                    0 <= k < self.columns@.len() ==> (#[trigger] self.columns@[k]).meta
                        == pre.columns@[k].meta,
                forall|k: int|
                    0 <= k < self.columns@.len() ==> (#[trigger] self.columns@[k]).wf(),
                forall|k: int|
                    0 <= k < self.columns@.len() ==> {
                        let ri = rec_index_of(components@, pre.columns@[k].meta.id);
                        if 0 <= ri < i {
                            &&& (#[trigger] self.columns@[k]).len == pre.columns@[k].len + 1
                            &&& forall|t: int|
                                0 <= t < pre.columns@[k].len ==> self.columns@[k].element(t)
                                    == pre.columns@[k].element(t)
                            &&& self.columns@[k].element(pre.columns@[k].len as int)
                                == components@[ri].data@
                        } else {
                            self.columns@[k] == pre.columns@[k]
                        }
                    },
            decreases n - i,
        {
            let id = components[i].id;
            proof {
                lemma_col_index_of(pre.columns@, id);
                lemma_rec_index_of(components@, id);
                assert(rec_index_of(components@, id) == i) by {
                    let ri = rec_index_of(components@, id);
                    if ri < i {
                        assert(components@[ri].id == id);
                    } else if ri > i {
                        assert(components@[i as int].id != id);
                    }
                }
            }
            let nk = self.columns.len();
            let mut k: usize = 0;
            while k < nk && !(self.columns[k].meta.id == id)
                invariant
                    k <= nk,
                    forall|j: int| 0 <= j < k ==> self.columns@[j].meta.id != id,
                decreases nk - k,
            {
                k = k + 1;
            }
            proof {
                assert(ids_of(components@)[i as int] == id);
                assert(ids_of(components@).contains(id));
                lemma_mask_of_has(ids_of(components@), id);
                assert(pre.mask.spec_has(id));
                lemma_col_index_of(pre.columns@, id);
                let cidx = col_index_of(pre.columns@, id);
                assert(0 <= cidx < pre.columns@.len());
                assert(pre.columns@[cidx].meta.id == id);
                if k == nk {
                    assert(self.columns@[cidx].meta == pre.columns@[cidx].meta);
                    assert(false);
                }
                lemma_col_index_unique(pre.columns@, id, k as int);
            }
            let col = &mut self.columns[k];
            col.push_erased(&components[i]);
            proof {
                // Column `k` is the unique column of this record's
                // identity, so no other column's record was reached yet.
                assert forall|k2: int|
                    0 <= k2 < self.columns@.len() && k2 != k implies rec_index_of(
                    components@,
                    pre.columns@[k2].meta.id,
                ) != i by {
                    let id2 = pre.columns@[k2].meta.id;
                    lemma_rec_index_of(components@, id2);
                    if rec_index_of(components@, id2) == i {
                        assert(components@[i as int].id == id2);
                    }
                }
                assert(self.columns@[k as int].len == pre.columns@[k as int].len + 1);
                assert(self.columns@[k as int].element(pre.columns@[k as int].len as int)
                    == components@[i as int].data@);
            }
            i = i + 1;
        }
        self.entities.push(entity);
        proof {
            assert forall|id: u32| #[trigger]
                self.mask.spec_has(id) == (col_index_of(self.columns@, id) >= 0) by {
                lemma_col_index_same_ids(pre.columns@, self.columns@, id);
            }
            assert(self.entities@ == pre.entities@.push(entity));
        }
    }
}

/// The number of destructor runs the teardown of the columns before index
/// `upto` owes: one per live element of every externally-resourced column.
pub open spec fn drops_before(columns: Seq<Column>, upto: int) -> int
    decreases upto,
{
    if upto <= 0 {
        0
    } else {
        drops_before(columns, upto - 1) + if needs_drop(columns[upto - 1].meta.kind) {
            columns[upto - 1].len as int
        } else {
            0
        }
    }
}

/// `drops_before` grows with the column prefix.
pub proof fn lemma_drops_before_mono(columns: Seq<Column>, a: int, b: int)
    requires
        0 <= a <= b,
    ensures
        drops_before(columns, a) <= drops_before(columns, b),
    decreases b - a,
{
    if a < b {
        lemma_drops_before_mono(columns, a, b - 1);
    }
}

/// A live element of an externally-resourced column before index `k` has
/// its teardown record at an index below `drops_before(columns, k)`.
pub proof fn lemma_drop_entry_bound(columns: Seq<Column>, k2: int, i2: int, k: int)
    requires
        0 <= k2 < k,
        needs_drop(columns[k2].meta.kind),
        0 <= i2 < columns[k2].len,
    ensures
        0 <= drops_before(columns, k2) + i2 < drops_before(columns, k),
{
    lemma_drops_before_mono(columns, 0, k2);
    lemma_drops_before_mono(columns, k2 + 1, k);
}

/// The teardown record of element `i` of column `k` stands at its place
/// in the teardown list and carries the column's identity, the column's
/// classification, and that element's bytes.
pub open spec fn drop_entry_ok(
    columns: Seq<Column>,
    drops: Seq<ErasedComponent>,
    k: int,
    i: int,
) -> bool {
    let d = drops[drops_before(columns, k) + i];
    &&& d.id == columns[k].meta.id
    &&& d.kind == columns[k].meta.kind
    &&& d.data@ == columns[k].element(i)
}

impl Archetype {
    /// Tears the archetype down: hands back, column by column and in row
    /// order, one record per live element of every externally-resourced
    /// column — exactly once per element, never for plain-data columns —
    /// so the embedding application can run each destructor. This is the
    /// only cleanup path for stored rows.
    pub fn destroy(self) -> (drops: Vec<ErasedComponent>)
        requires
            self.wf(),
        ensures
            drops@.len() == drops_before(self.columns@, self.columns@.len() as int),
            forall|k: int, i: int|
                0 <= k < self.columns@.len() && needs_drop(self.columns@[k].meta.kind) && 0
                    <= i < self.columns@[k].len ==> #[trigger] drop_entry_ok(
                    self.columns@,
                    drops@,
                    k,
                    i,
                ),
    {
        let mut drops: Vec<ErasedComponent> = Vec::new();
        let nk = self.columns.len();
        let mut k: usize = 0;
        while k < nk
            invariant
                k <= nk,
                drops@.len() == drops_before(self.columns@, k as int),
                forall|k2: int, i2: int|
                    0 <= k2 < k && needs_drop(self.columns@[k2].meta.kind) && 0 <= i2
                        < self.columns@[k2].len ==> #[trigger] drop_entry_ok(
                        self.columns@,
                        drops@,
                        k2,
                        i2,
                    ),
            decreases nk - k,
        {
            let col = &self.columns[k];
            let run = match col.meta.kind {
                ComponentKind::Extern => true,
                ComponentKind::Pod => false,
            };
            if run {
                let rows = col.len;
                let mut i: usize = 0;
                while i < rows
                    invariant
                        i <= rows,
                        rows == self.columns@[k as int].len,
                        k < nk,
                        needs_drop(self.columns@[k as int].meta.kind),
                        drops@.len() == drops_before(self.columns@, k as int) + i,
                        forall|k2: int, i2: int|
                            0 <= k2 < k && needs_drop(self.columns@[k2].meta.kind) && 0 <= i2
                                < self.columns@[k2].len ==> #[trigger] drop_entry_ok(
                                self.columns@,
                                drops@,
                                k2,
                                i2,
                            ),
                        forall|i2: int|
                            0 <= i2 < i ==> #[trigger] drop_entry_ok(
                                self.columns@,
                                drops@,
                                k as int,
                                i2,
                            ),
                    decreases rows - i,
                {
                    let ghost before = drops@;
                    let data = self.columns[k].read(i);
                    drops.push(ErasedComponent { id: col.meta.id, data, kind: col.meta.kind });
                    proof {
                        lemma_drops_before_mono(self.columns@, 0, k as int);
                        assert(drop_entry_ok(self.columns@, drops@, k as int, i as int));
                        assert forall|k2: int, i2: int|
                            0 <= k2 < k && needs_drop(self.columns@[k2].meta.kind) && 0 <= i2
                                < self.columns@[k2].len implies #[trigger] drop_entry_ok(
                            self.columns@,
                            drops@,
                            k2,
                            i2,
                        ) by {
                            lemma_drop_entry_bound(self.columns@, k2, i2, k as int);
                            assert(drop_entry_ok(self.columns@, before, k2, i2));
                        }
                        assert forall|i2: int|
                            0 <= i2 < i + 1 implies #[trigger] drop_entry_ok(
                            self.columns@,
                            drops@,
                            k as int,
                            i2,
                        ) by {
                            if i2 < i {
                                assert(drop_entry_ok(self.columns@, before, k as int, i2));
                            }
                        }
                    }
                    i = i + 1;
                }
            }
            proof {
                assert(drops@.len() == drops_before(self.columns@, k + 1));
                assert forall|k2: int, i2: int|
                    0 <= k2 < k + 1 && needs_drop(self.columns@[k2].meta.kind) && 0 <= i2
                        < self.columns@[k2].len implies #[trigger] drop_entry_ok(
                    self.columns@,
                    drops@,
                    k2,
                    i2,
                ) by {
                    if k2 < k {
                        assert(drop_entry_ok(self.columns@, drops@, k2, i2));
                    }
                }
            }
            k = k + 1;
        }
        drops
    }
}

/// A zero-filled byte buffer of the given length.
fn alloc_bytes(total: usize) -> (data: Vec<u8>)
    ensures
        data@.len() == total,
{
    let mut data: Vec<u8> = Vec::new();
    let mut i: usize = 0;
    while i < total
        invariant
            data@.len() == i,
            i <= total,
        decreases total - i,
    {
        data.push(0u8);
        i = i + 1;
    }
    data
}

} // verus!
