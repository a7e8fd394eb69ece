//! Component identities and metadata.
//!
//! Every distinct component type is assigned a small integer identity the
//! first time it is seen, and keeps it for the life of the process. The
//! registry here is the table behind that assignment; the embedding
//! application wraps it in whatever process-wide cell and lock it uses and
//! hands each component type a stable key.

use vstd::prelude::*;

verus! {

/// Process-stable integer key for a component type. Identity `0` is a
/// reserved sentinel and is never assigned.
pub type ComponentId = u32;

/// Classification of a component type: plain data that can be freed as raw
/// bytes, or a type that owns external resources and must have its
/// destructor run when its storage is torn down.
#[derive(Debug, Clone, Copy, PartialEq, Eq, Structural)]
pub enum ComponentKind {
    Pod,
    Extern,
}

/// Whether values of this kind must be handed to a destructor on teardown.
pub open spec fn needs_drop(kind: ComponentKind) -> bool {
    kind == ComponentKind::Extern
}

/// Per-type storage metadata: the type's identity, its classification, and
/// the byte size of one value. A destructor capability exists exactly for
/// the externally-resourced classification.
#[derive(Debug, Clone, Copy, PartialEq, Eq, Structural)]
pub struct ComponentMeta {
    pub id: ComponentId,
    pub kind: ComponentKind,
    pub size: usize,
}

/// A component value with no static type at the call site: its identity,
/// its raw bytes, and its classification.
#[derive(Debug)]
pub struct ErasedComponent {
    pub id: ComponentId,
    pub data: Vec<u8>,
    pub kind: ComponentKind,
}

impl ErasedComponent {
    /// An identical record: same identity, same bytes, same classification.
    pub fn duplicate(&self) -> (r: ErasedComponent)
        ensures
            r.id == self.id,
            r.data@ == self.data@,
            r.kind == self.kind,
    {
        let mut data: Vec<u8> = Vec::new();
        let mut i: usize = 0;
        while i < self.data.len()
            invariant
                i <= self.data@.len(),
                data@ == self.data@.subrange(0, i as int),
            decreases self.data@.len() - i,
        {
            data.push(self.data[i]);
            i = i + 1;
            proof {
                assert(data@ =~= self.data@.subrange(0, i as int));
            }
        }
        proof {
            assert(data@ =~= self.data@);
        }
        ErasedComponent { id: self.id, data, kind: self.kind }
    }
}

/// What a component type must declare about itself so that a column can
/// store and destroy it: its identity, its layout, its classification, and
/// its raw representation. The embedding application implements this per
/// component type.
pub trait Component {
    fn id(&self) -> ComponentId;

    fn size(&self) -> usize;

    fn kind(&self) -> ComponentKind;

    fn bytes(&self) -> Vec<u8>;
}

/// Requested access to one component within a query.
#[derive(Debug, Clone, Copy)]
pub enum Access {
    Write,
    Read,
}

/// One (component identity, access mode) pair of a query request.
#[derive(Debug, Clone, Copy)]
pub struct ComponentQuery {
    #[allow(dead_code)]
    id: ComponentId,
    #[allow(dead_code)]
    access: Access,
}

/// The table behind identity assignment: the keys seen so far, in the order
/// they were first seen. The key at index `i` owns identity `i + 1`, so the
/// sentinel identity `0` is never handed out.
pub struct TypeRegistry {
    pub keys: Vec<u64>,
}

/// The index of the first occurrence of `key`, or `-1` when absent.
pub open spec fn first_index_of(keys: Seq<u64>, key: u64) -> int
    decreases keys.len(),
{
    if keys.len() == 0 {
        -1
    } else if keys[0] == key {
        0
    } else {
        let r = first_index_of(keys.subrange(1, keys.len() as int), key);
        if r < 0 {
            -1
        } else {
            r + 1
        }
    }
}

/// `first_index_of` finds the first occurrence: at its result the key is
/// present, before it the key is absent, and `-1` means absent everywhere.
pub proof fn lemma_first_index_of(keys: Seq<u64>, key: u64)
    ensures
        first_index_of(keys, key) < 0 ==> forall|i: int|
            0 <= i < keys.len() ==> keys[i] != key,
        first_index_of(keys, key) >= 0 ==> {
            &&& first_index_of(keys, key) < keys.len()
            &&& keys[first_index_of(keys, key)] == key
            &&& forall|i: int| 0 <= i < first_index_of(keys, key) ==> keys[i] != key
        },
    decreases keys.len(),
{
    if keys.len() == 0 {
    } else if keys[0] == key {
    } else {
        let rest = keys.subrange(1, keys.len() as int);
        lemma_first_index_of(rest, key);
        let r = first_index_of(rest, key);
        if r < 0 {
            assert forall|i: int| 0 <= i < keys.len() implies keys[i] != key by {
                if i >= 1 {
                    assert(rest[i - 1] == keys[i]);
                }
            }
        } else {
            assert(keys[r + 1] == rest[r]);
            assert forall|i: int| 0 <= i < r + 1 implies keys[i] != key by {
                if i >= 1 {
                    assert(rest[i - 1] == keys[i]);
                }
            }
        }
    }
}

impl TypeRegistry {
    pub open spec fn wf(self) -> bool {
        &&& self.keys@.len() < u32::MAX as int
        &&& forall|i: int, j: int|
            0 <= i < j < self.keys@.len() ==> self.keys@[i] != self.keys@[j]
    }

    /// An empty registry: no identity assigned yet.
    pub fn new() -> (r: TypeRegistry)
        ensures
            r.wf(),
            r.keys@.len() == 0,
    {
        TypeRegistry { keys: Vec::new() }
    }
}

/// The identity of the component type behind `key`: the identity already
/// assigned if the key was seen before, else the next free one, which is
/// recorded. Deterministic, memoizing, and never the sentinel `0`.
pub fn component_id(registry: &mut TypeRegistry, key: u64) -> (id: u32)
    requires
        old(registry).wf(),
        old(registry).keys@.len() + 1 < u32::MAX as int,
    ensures
        final(registry).wf(),
        id != 0,
        first_index_of(old(registry).keys@, key) >= 0 ==> {
            &&& final(registry).keys@ == old(registry).keys@
            &&& id == first_index_of(old(registry).keys@, key) + 1
        },
        first_index_of(old(registry).keys@, key) < 0 ==> {
            &&& final(registry).keys@ == old(registry).keys@.push(key)
            &&& id == old(registry).keys@.len() + 1
        },
{
    let n = registry.keys.len();
    let mut i: usize = 0;
    while i < n
        invariant
            i <= n,
            forall|j: int| 0 <= j < i ==> registry.keys@[j] != key,
        decreases n - i,
    {
        if registry.keys[i] == key {
            proof {
                lemma_first_index_of(registry.keys@, key);
                assert(first_index_of(registry.keys@, key) == i);
            }
            return (i + 1) as u32;
        }
        i = i + 1;
    }
    proof {
        lemma_first_index_of(registry.keys@, key);
        assert(first_index_of(registry.keys@, key) < 0);
    }
    registry.keys.push(key);
    proof {
        assert forall|a: int, b: int|
            0 <= a < b < registry.keys@.len() implies registry.keys@[a]
            != registry.keys@[b] by {
            if b < old(registry).keys@.len() {
                assert(registry.keys@[a] == old(registry).keys@[a]);
                assert(registry.keys@[b] == old(registry).keys@[b]);
            } else {
                assert(registry.keys@[a] == old(registry).keys@[a]);
                assert(registry.keys@[b] == key);
            }
        }
    }
    n as u32 + 1
}

/// Identity stability: the identity handed out when a key is first seen is
/// the one every later call finds, so repeated calls for the same component
/// type always return the same value.
pub proof fn lemma_identity_stable(keys: Seq<u64>, key: u64)
    requires
        first_index_of(keys, key) < 0,
    ensures
        first_index_of(keys.push(key), key) == keys.len(),
{
    lemma_first_index_of(keys, key);
    lemma_first_index_of(keys.push(key), key);
    let r = first_index_of(keys.push(key), key);
    if r < 0 {
        assert(keys.push(key)[keys.len() as int] == key);
    } else {
        if r < keys.len() {
            assert(keys.push(key)[r] == keys[r]);
        }
    }
}

/// No collision: two distinct keys present in a registry hold distinct
/// identities.
pub proof fn lemma_identities_distinct(keys: Seq<u64>, k1: u64, k2: u64)
    requires
        k1 != k2,
        first_index_of(keys, k1) >= 0,
        first_index_of(keys, k2) >= 0,
    ensures
        first_index_of(keys, k1) != first_index_of(keys, k2),
{
    lemma_first_index_of(keys, k1);
    lemma_first_index_of(keys, k2);
}

} // verus!
