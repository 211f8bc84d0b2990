//! Shared types: hash constants, the consumed reader and database
//! interfaces, trie identifiers, the change tracer, and error kinds.

use vstd::prelude::*;

verus! {

/// Length in bytes of a Keccak-256 hash.
pub const HASH_LENGTH: usize = 32;

/// Length in bytes of an account address.
pub const ADDRESS_LENGTH: u32 = 20;

/// The Keccak-256 hash of the RLP encoding of the empty string (`0x80`):
/// the root hash of an empty trie.
pub open spec fn empty_root_hash_spec() -> Seq<u8> {
    seq![
        0x56u8, 0xe8, 0x1f, 0x17, 0x1b, 0xcc, 0x55, 0xa6, 0xff, 0x83, 0x45, 0xe6, 0x92, 0xc0,
        0xf8, 0x6e, 0x5b, 0x48, 0xe0, 0x1b, 0x99, 0x6c, 0xad, 0xc0, 0x01, 0x62, 0x2f, 0xb5,
        0xe3, 0x63, 0xb4, 0x21,
    ]
}

/// The canonical empty-root hash as bytes.
pub fn empty_root_hash() -> (r: Vec<u8>)
    ensures
        r@ == empty_root_hash_spec(),
        r@.len() == 32,
{
    let r: Vec<u8> = vec![
        0x56u8, 0xe8, 0x1f, 0x17, 0x1b, 0xcc, 0x55, 0xa6, 0xff, 0x83, 0x45, 0xe6, 0x92, 0xc0,
        0xf8, 0x6e, 0x5b, 0x48, 0xe0, 0x1b, 0x99, 0x6c, 0xad, 0xc0, 0x01, 0x62, 0x2f, 0xb5,
        0xe3, 0x63, 0xb4, 0x21,
    ];
    proof {
        assert(r@ =~= empty_root_hash_spec());
    }
    r
}

/// An all-zero hash, which callers may present for "uninitialized".
pub fn zero_hash() -> (r: Vec<u8>)
    ensures
        r@ == Seq::new(32, |i: int| 0u8),
        r@.len() == 32,
{
    let mut r: Vec<u8> = Vec::new();
    let mut i: usize = 0;
    while i < 32
        invariant
            i <= 32,
            r@ =~= Seq::new(i as nat, |j: int| 0u8),
        decreases 32 - i,
    {
        r.push(0);
        proof {
            assert(r@ =~= Seq::new((i + 1) as nat, |j: int| 0u8));
        }
        i = i + 1;
    }
    r
}

/// Whether the bytes are all zero.
pub fn is_zero_hash(h: &[u8]) -> (r: bool)
    ensures
        r == (forall|i: int| 0 <= i < h@.len() ==> #[trigger] h@[i] == 0),
{
    let mut i: usize = 0;
    while i < h.len()
        invariant
            i <= h@.len(),
            forall|j: int| 0 <= j < i ==> #[trigger] h@[j] == 0,
        decreases h@.len() - i,
    {
        if h[i] != 0 {
            return false;
        }
        i = i + 1;
    }
    true
}

/// Compares two byte strings.
pub fn bytes_equal(a: &[u8], b: &[u8]) -> (r: bool)
    ensures
        r == (a@ == b@),
{
    if a.len() != b.len() {
        proof {
            assert(a@ != b@);
        }
        return false;
    }
    let mut i: usize = 0;
    while i < a.len()
        invariant
            i <= a@.len(),
            a@.len() == b@.len(),
            forall|j: int| 0 <= j < i ==> a@[j] == b@[j],
        decreases a@.len() - i,
    {
        if a[i] != b[i] {
            proof {
                assert(a@ != b@);
            }
            return false;
        }
        i = i + 1;
    }
    proof {
        assert(a@ =~= b@);
    }
    true
}

/// The write-only observer of trie changes. Functional correctness does not
/// depend on it; it is kept as a no-op record of the surface.
pub struct Tracer {
    inserts: u64,
    deletes: u64,
}

impl Tracer {
    /// A tracer with nothing recorded.
    pub fn new() -> (r: Tracer) {
        Tracer { inserts: 0, deletes: 0 }
    }

    /// Notes an insertion below the given path.
    pub fn on_insert(&mut self, path: &Vec<u8>) {
        self.inserts = self.inserts.wrapping_add(1);
    }

    /// Notes a deletion below the given path.
    pub fn on_delete(&mut self, path: &Vec<u8>) {
        self.deletes = self.deletes.wrapping_add(1);
    }
}

/// The backing node store, implemented by the database layer: returns the
/// RLP blob of the node stored under `hash` in the trie of `owner`, or an
/// error when it is missing. Nothing is assumed of implementations; whatever
/// they return is validated by the decoder.
pub trait Reader {
    /// Retrieves the blob for the node with the given path and hash.
    fn node(&self, owner: &Vec<u8>, path: &Vec<u8>, hash: &Vec<u8>) -> Result<Vec<u8>, ()>;
}

/// The identifier of a trie: the state root it belongs to, the owner
/// account hash (zero for the main state trie), and the trie's root hash.
pub struct Id {
    pub state_root: Vec<u8>,
    pub owner: Vec<u8>,
    pub root: Vec<u8>,
}

/// The backing database, implemented by the storage layer: hands out a
/// reader for the requested state.
pub trait Database {
    /// The reader type this database hands out.
    type Rd: Reader;

    /// Returns a node reader associated with the specific state, or an
    /// error when that state is not available.
    fn reader(&self, state_root: &Vec<u8>) -> Result<Self::Rd, ()>;
}

/// A node could not be loaded while resolving a hash reference.
#[derive(Debug)]
pub struct MissingNodeError {
    pub owner: Vec<u8>,
    pub node_hash: Vec<u8>,
    pub path: Vec<u8>,
}

impl MissingNodeError {
    /// A short human-readable account of the failure.
    pub fn describe(&self) -> (r: String)
        ensures
            r@ == "missing trie node"@,
    {
        let s: String = "missing trie node".to_owned();
        s
    }
}

/// What can go wrong in a trie operation: a malformed or non-canonical
/// blob, or a node the reader could not supply.
#[derive(Debug)]
pub enum TrieError {
    Decode,
    MissingNode(MissingNodeError),
}

} // verus!
