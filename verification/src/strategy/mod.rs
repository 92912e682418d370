//! How the load balancers choose an upstream: in turn, or by request path.
pub mod account;
pub mod round_robin;

pub use account::RinhaAccountBalancer;
pub use round_robin::RoundRobin;
use vstd::prelude::*;

verus! {

/// The address at position `n` modulo the number of addresses.
pub open spec fn picked(addrs: Seq<String>, n: usize) -> Seq<char> {
    addrs[n as int % addrs.len() as int]@
}

/// The address at position `n` modulo the number of addresses.
pub fn pick(addrs: &Vec<String>, n: usize) -> (addr: String)
    requires
        addrs@.len() > 0,
    ensures
        addr@ == picked(addrs@, n),
{
    addrs[n % addrs.len()].clone()
}

/// The TCP balancer's turns: each new connection is sent to the address at
/// the counter's value, and the counter then advances by one, so the first
/// connection goes to the first address.
pub struct TcpRoundRobin {
    pub addrs: Vec<String>,
    pub counter: usize,
}

impl TcpRoundRobin {
    /// The address for the next connection; the counter advances past it.
    pub fn next_server(&mut self) -> (addr: String)
        requires
            old(self).addrs@.len() > 0,
            old(self).counter < usize::MAX,
        ensures
            final(self).counter == old(self).counter + 1,
            final(self).addrs == old(self).addrs,
            addr@ == picked(old(self).addrs@, old(self).counter),
    {
        let addr = pick(&self.addrs, self.counter);
        self.counter = self.counter + 1;
        addr
    }
}

/// Over any `addrs.len()` consecutive counter values, starting anywhere,
/// every address is picked.
pub proof fn lemma_turns_cover_all(addrs: Seq<String>, start: usize, i: int)
    requires
        addrs.len() > 0,
        0 <= i < addrs.len(),
        start + addrs.len() <= usize::MAX,
    ensures
        exists|k: usize| start <= k < start + addrs.len() && #[trigger] picked(addrs, k) == addrs[i]@,
{
    let len: int = addrs.len() as int;
    let r: int = start as int % len;
    let k: int = if i >= r {
        start + (i - r)
    } else {
        start + (len - r + i)
    };
    vstd::arithmetic::div_mod::lemma_fundamental_div_mod(start as int, len);
    assert(k % len == i) by {
        let q: int = start as int / len;
        assert(k == q * len + i || k == (q + 1) * len + i) by (nonlinear_arith)
            requires
                start as int == q * len + r,
                k == if i >= r {
                    start + (i - r)
                } else {
                    start + (len - r + i)
                },
        ;
        if k == q * len + i {
            vstd::arithmetic::div_mod::lemma_mod_multiples_vanish(q, i, len);
        } else {
            vstd::arithmetic::div_mod::lemma_mod_multiples_vanish(q + 1, i, len);
        }
        vstd::arithmetic::div_mod::lemma_small_mod(i as nat, len as nat);
    }
    assert(picked(addrs, k as usize) == addrs[i]@);
}

} // verus!
