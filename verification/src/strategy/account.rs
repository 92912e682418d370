//! Upstreams by request path, so that each account is always served by the
//! same upstream.
use crate::strategy::{pick, picked};
use std::collections::hash_map::DefaultHasher;
use std::hash::{Hash, Hasher};
use vstd::prelude::*;
use vstd::std_specs::hash::DefaultHasherAdditionalSpecFns;

verus! {

/// What `<str as Hash>::hash` feeds to a hasher for a string with
/// characters `path`.
pub uninterp spec fn str_hash_writes(path: Seq<char>) -> Seq<Seq<u8>>;

/// Feeds `path` to `hasher` by `<str as Hash>::hash`. Trusted: the writes
/// that this adds to the hasher are a function of the string alone.
#[verifier::external_body]
fn hash_path(path: &str, hasher: &mut DefaultHasher)
    ensures
        final(hasher)@ == old(hasher)@ + str_hash_writes(path@),
{
    path.hash(hasher)
}

/// The hash of `path` by a fresh `DefaultHasher`, as a `usize`.
pub open spec fn path_hash(path: Seq<char>) -> usize {
    DefaultHasher::spec_finish(str_hash_writes(path)) as usize
}

/// The address that serves the request path `path`.
pub open spec fn route(addrs: Seq<String>, path: Seq<char>) -> Seq<char> {
    picked(addrs, path_hash(path))
}

/// Picks the upstream by hashing the request path.
pub struct RinhaAccountBalancer {
    pub addrs: Vec<String>,
}

impl RinhaAccountBalancer {
    /// The address that serves `path`: the path's hash by a fresh
    /// `DefaultHasher`, modulo the number of addresses.
    pub fn next_server(&self, path: &str) -> (addr: String)
        requires
            self.addrs@.len() > 0,
        ensures
            addr@ == route(self.addrs@, path@),
            addr@ == self.addrs@[(DefaultHasher::spec_finish(str_hash_writes(path@)) as usize) as int
                % self.addrs@.len() as int]@,
    {
        let mut hasher = DefaultHasher::new();
        hash_path(path, &mut hasher);
        proof {
            assert(Seq::<Seq<u8>>::empty() + str_hash_writes(path@) =~= str_hash_writes(path@));
        }
        let hash: usize = hasher.finish() as usize;
        pick(&self.addrs, hash)
    }
}

/// The upstream that serves a path is one of the configured addresses: the
/// one at the path's full `DefaultHasher` hash (as a `usize`) modulo their
/// number. So a path whose hash leaves residue `i` goes to address `i`, and
/// every address serves the paths whose hashes leave its residue.
pub proof fn lemma_route_in_addrs(addrs: Seq<String>, path: Seq<char>)
    requires
        addrs.len() > 0,
    ensures
        0 <= ((DefaultHasher::spec_finish(str_hash_writes(path)) as usize) as int
            % addrs.len() as int) < addrs.len(),
        route(addrs, path) == addrs[(DefaultHasher::spec_finish(str_hash_writes(path)) as usize) as int
            % addrs.len() as int]@,
        forall|i: int|
            0 <= i < addrs.len() && (DefaultHasher::spec_finish(str_hash_writes(path)) as usize) as int
                % addrs.len() as int == i ==> route(addrs, path) == #[trigger] addrs[i]@,
{
    vstd::arithmetic::div_mod::lemma_mod_bound(
        (DefaultHasher::spec_finish(str_hash_writes(path)) as usize) as int,
        addrs.len() as int,
    );
}

} // verus!
