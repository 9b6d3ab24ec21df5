//! Replica placement: a ring of shards ordered by the hash of their
//! address. A key goes to the first shard whose hash is at least the key's,
//! wrapping round, and to the shards after it, up to the replication factor.

use vstd::prelude::*;
use vstd::string::StringSliceAdditionalSpecFns;

use crate::error::{Error, Result};

verus! {

#[verifier::external_type_specification]
#[verifier::external_body]
pub struct ExIoError(std::io::Error);

/// A shard on the ring: the hash of its address, and the address.
#[derive(Debug, Clone)]
pub struct Shard {
    pub hash: u32,
    pub address: String,
}

/// The 32-bit murmur3 hash, with seed 0, of a byte string.
pub uninterp spec fn murmur3_of(b: Seq<u8>) -> u32;

/// Relies on `murmur3::murmur3_32` with seed 0, reading the bytes from an
/// in-memory cursor, whose reads never fail: the result is the hash of
/// those bytes and of nothing else. It counts the bytes in a `u32`, so
/// longer input is left out.
#[verifier::external_body]
fn murmur3_hash(b: &[u8]) -> (r: core::result::Result<u32, std::io::Error>)
    requires
        b@.len() <= u32::MAX,
    ensures
        r is Ok,
        r matches Ok(h) ==> h == murmur3_of(b@),
{
    murmur3::murmur3_32(&mut std::io::Cursor::new(b), 0)
}

/// Hashes a key or an address onto the ring.
pub fn hash_string(s: &str) -> (r: Result<u32>)
    requires
        s.spec_bytes().len() <= u32::MAX,
    ensures
        r is Ok,
        r matches Ok(h) ==> h == murmur3_of(s.spec_bytes()),
{
    match murmur3_hash(s.as_bytes()) {
        Ok(h) => Ok(h),
        Err(_) => Err(Error::Hash),
    }
}

/// Relies on `slice::sort_unstable_by_key` with the shard's hash as key:
/// the shards end up in ascending order of hash, and are the same shards.
#[verifier::external_body]
fn sort_by_hash(v: &mut Vec<Shard>)
    ensures
        final(v)@.to_multiset() == old(v)@.to_multiset(),
        forall|i: int, j: int| 0 <= i < j < final(v)@.len() ==> (#[trigger] final(v)@[i]).hash <= (#[trigger] final(v)@[j]).hash,
{
    v.sort_unstable_by_key(|s| s.hash)
}

/// Whether `s` is the shard of address `a`: its hash and its address.
pub open spec fn shard_at(a: &str, s: Shard) -> bool {
    s.hash == murmur3_of(a.spec_bytes()) && s.address@ == a@
}

/// Whether some shard of `s` is the shard of address `a`.
pub open spec fn has_shard(s: Seq<Shard>, a: &str) -> bool {
    exists|p: int| 0 <= p < s.len() && shard_at(a, #[trigger] s[p])
}

/// Whether `s` is the shard of one of `addresses`.
pub open spec fn is_shard_of(addresses: Seq<&str>, s: Shard) -> bool {
    exists|i: int| 0 <= i < addresses.len() && shard_at(#[trigger] addresses[i], s)
}

/// Whether the shards ascend by hash.
pub open spec fn ring_sorted(s: Seq<Shard>) -> bool {
    forall|i: int, j: int| 0 <= i < j < s.len() ==> (#[trigger] s[i]).hash <= (#[trigger] s[j]).hash
}

/// Whether a key of hash `h` starts at position `p`: the first shard whose
/// hash is at least `h`, or the first shard when there is none.
pub open spec fn is_start(s: Seq<Shard>, h: u32, p: int) -> bool {
    ||| 0 <= p < s.len() && s[p].hash >= h && forall|j: int| 0 <= j < p ==> (#[trigger] s[j]).hash < h
    ||| p == 0 && forall|j: int| 0 <= j < s.len() ==> (#[trigger] s[j]).hash < h
}

/// The positions that own a key starting at `p`: from `p` on, wrapping
/// round, as many as the replication factor asks and the ring holds.
pub open spec fn owner_positions(len: nat, p: int, replicas: nat) -> Seq<int> {
    let n = if replicas < len { replicas } else { len };
    Seq::new(n, |i: int| if p + i < len { p + i } else { p + i - len })
}

/// The shards of a cluster on their ring.
pub struct HashRing {
    shards: Vec<Shard>,
    replication_factor: u32,
}

impl HashRing {
    pub closed spec fn shards(&self) -> Seq<Shard> {
        self.shards@
    }

    pub closed spec fn replicas(&self) -> nat {
        self.replication_factor as nat
    }

    pub closed spec fn wf(&self) -> bool {
        ring_sorted(self.shards@)
    }

    /// A ring of the given shards, put in order of hash.
    pub fn new(shards: Vec<Shard>, replication_factor: u32) -> (r: Self)
        ensures
            r.wf(),
            r.shards().to_multiset() == shards@.to_multiset(),
            r.replicas() == replication_factor,
    {
        let mut shards = shards;
        sort_by_hash(&mut shards);
        HashRing { shards, replication_factor }
    }

    /// A ring of shards at the given addresses, each placed by the hash of
    /// its address: one shard for each address.
    pub fn from_addresses(addresses: &Vec<&str>, replication_factor: u32) -> (r: Result<Self>)
        requires
            forall|i: int| 0 <= i < addresses@.len() ==> (#[trigger] addresses@[i]).spec_bytes().len() <= u32::MAX,
        ensures
            r is Ok,
            r matches Ok(ring) ==> {
                &&& ring.wf()
                &&& ring.replicas() == replication_factor
                &&& ring.shards().len() == addresses@.len()
                &&& forall|i: int| 0 <= i < addresses@.len() ==> has_shard(ring.shards(), #[trigger] addresses@[i])
                &&& forall|p: int| 0 <= p < ring.shards().len() ==> is_shard_of(addresses@, #[trigger] ring.shards()[p])
            },
    {
        let mut shards: Vec<Shard> = Vec::new();
        let mut i: usize = 0;
        while i < addresses.len()
            invariant
                i <= addresses@.len(),
                forall|i: int| 0 <= i < addresses@.len() ==> (#[trigger] addresses@[i]).spec_bytes().len() <= u32::MAX,
                shards@.len() == i,
                forall|k: int| 0 <= k < i ==> shard_at(addresses@[k], #[trigger] shards@[k]),
            decreases addresses@.len() - i,
        {
            let hash = hash_string(addresses[i])?;
            shards.push(Shard { hash, address: addresses[i].to_owned() });
            i = i + 1;
        }
        let ghost before = shards@;
        let ring = HashRing::new(shards, replication_factor);
        proof {
            broadcast use vstd::seq_lib::group_to_multiset_ensures;
            let after = ring.shards();
            assert(after.len() == before.len()) by {
                assert(after.to_multiset().len() == before.to_multiset().len());
            }
            assert forall|i: int| 0 <= i < addresses@.len() implies has_shard(after, #[trigger] addresses@[i]) by {
                assert(before.contains(before[i]));
                assert(after.to_multiset().count(before[i]) > 0);
                assert(after.contains(before[i]));
            }
            assert forall|p: int| 0 <= p < after.len() implies is_shard_of(addresses@, #[trigger] after[p]) by {
                assert(after.contains(after[p]));
                assert(before.to_multiset().count(after[p]) > 0);
                assert(before.contains(after[p]));
                let k = choose|k: int| 0 <= k < before.len() && before[k] == after[p];
                assert(shard_at(addresses@[k], after[p]));
            }
        }
        Ok(ring)
    }

    /// The number of shards.
    pub fn len(&self) -> (r: usize)
        ensures
            r == self.shards().len(),
    {
        self.shards.len()
    }

    /// The positions of the shards that own a key of hash `hash`, in the
    /// order to try them: distinct, and as many as the replication factor
    /// asks and the ring holds.
    pub fn owning_positions(&self, hash: u32) -> (r: Vec<usize>)
        requires
            self.wf(),
        ensures
            exists|p: int| #[trigger] is_start(self.shards(), hash, p)
                && r@.map_values(|x: usize| x as int) == owner_positions(self.shards().len(), p, self.replicas()),
            forall|i: int| 0 <= i < r@.len() ==> r@[i] < self.shards().len(),
    {
        let len = self.shards.len();
        if len == 0 {
            let r: Vec<usize> = Vec::new();
            assert(is_start(self.shards(), hash, 0));
            assert(r@.map_values(|x: usize| x as int) =~= owner_positions(0, 0, self.replicas()));
            return r;
        }
        let mut position: usize = 0;
        while position < len && self.shards[position].hash < hash
            invariant
                position <= len,
                len == self.shards@.len(),
                forall|j: int| 0 <= j < position ==> (#[trigger] self.shards@[j]).hash < hash,
            decreases len - position,
        {
            position = position + 1;
        }
        if position == len {
            position = 0;
        }
        assert(is_start(self.shards(), hash, position as int));
        let n: usize = if (self.replication_factor as u64) < len as u64 { self.replication_factor as usize } else { len };
        let mut owners: Vec<usize> = Vec::new();
        let mut i: usize = 0;
        while i < n
            invariant
                len == self.shards@.len(),
                position < len,
                n <= len,
                n == (if self.replicas() < len { self.replicas() } else { len as nat }),
                i <= n,
                owners@.len() == i,
                forall|k: int| 0 <= k < i ==> owners@[k] as int == (if position + k < len { position + k } else { position + k - len }),
                forall|k: int| 0 <= k < i ==> owners@[k] < len,
            decreases n - i,
        {
            let index = if i < len - position { position + i } else { i - (len - position) };
            owners.push(index);
            i = i + 1;
        }
        assert(owners@.map_values(|x: usize| x as int) =~= owner_positions(len as nat, position as int, self.replicas()));
        owners
    }

    /// The addresses of the shards that own `key`, in the order to try them.
    pub fn owners(&self, key: &str) -> (r: Result<Vec<String>>)
        requires
            self.wf(),
            key.spec_bytes().len() <= u32::MAX,
        ensures
            r is Ok,
            r matches Ok(a) ==> exists|p: int| #[trigger] is_start(self.shards(), murmur3_of(key.spec_bytes()), p)
                && a@.len() == owner_positions(self.shards().len(), p, self.replicas()).len()
                && forall|i: int| 0 <= i < a@.len() ==> #[trigger] a@[i] == self.shards()[owner_positions(self.shards().len(), p, self.replicas())[i]].address,
    {
        let hash = hash_string(key)?;
        let positions = self.owning_positions(hash);
        let ghost p = choose|p: int| #[trigger] is_start(self.shards(), hash, p)
            && positions@.map_values(|x: usize| x as int) == owner_positions(self.shards().len(), p, self.replicas());
        let mut out: Vec<String> = Vec::new();
        let mut i: usize = 0;
        while i < positions.len()
            invariant
                i <= positions@.len(),
                out@.len() == i,
                forall|k: int| 0 <= k < positions@.len() ==> positions@[k] < self.shards@.len(),
                forall|k: int| 0 <= k < i ==> #[trigger] out@[k] == self.shards@[positions@[k] as int].address,
            decreases positions@.len() - i,
        {
            let a = self.shards[positions[i]].address.clone();
            out.push(a);
            i = i + 1;
        }
        proof {
            assert forall|k: int| 0 <= k < out@.len() implies #[trigger] out@[k] == self.shards()[owner_positions(self.shards().len(), p, self.replicas())[k]].address by {
                assert(positions@.map_values(|x: usize| x as int)[k] == positions@[k] as int);
            }
        }
        Ok(out)
    }
}

/// Ring coverage: from any start on a ring of `len` shards, a key is placed
/// on exactly the smaller of the replication factor and `len` positions,
/// all distinct and all on the ring.
pub proof fn law_ring_coverage(len: nat, p: int, replicas: nat)
    requires
        0 <= p < len || (p == 0 && len == 0),
    ensures
        owner_positions(len, p, replicas).len() == (if replicas < len { replicas } else { len }),
        forall|i: int| 0 <= i < owner_positions(len, p, replicas).len() ==> 0 <= #[trigger] owner_positions(len, p, replicas)[i] < len,
        forall|i: int, j: int|
            0 <= i < j < owner_positions(len, p, replicas).len() ==> #[trigger] owner_positions(len, p, replicas)[i]
                != #[trigger] owner_positions(len, p, replicas)[j],
{
}

} // verus!
