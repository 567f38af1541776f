//! A simulated process: its lifetime and the addresses it works with.
use vstd::prelude::*;
use rand::Rng;
use crate::pages::PAGE_SIZE;

verus! {

#[derive(Debug)]
pub struct Process {
    pub id: usize,
    /// Number of ticks the process lives, which is also the number of memory
    /// accesses it makes.
    pub lifetime: usize,
    /// The page-aligned addresses of its working set.
    pub used_addresses: Vec<usize>,
}

/// Relies on rand 0.7's `Rng::gen_range(low, high)` on the thread-local
/// generator: a value in `[low, high)`. It panics when `low >= high`.
#[verifier::external_body]
fn random_in(low: usize, high: usize) -> (r: usize)
    requires
        low < high,
    ensures
        low <= r < high,
{
    rand::thread_rng().gen_range(low, high)
}

impl Process {
    /// A process with a random lifetime in `1..=max_lifetime` and between 1
    /// and `max_addresses_num` random page-aligned addresses, each at least
    /// one page and below the last whole page under `max_address`.
    pub fn new(id: usize, max_lifetime: usize, max_address: usize, max_addresses_num: usize) -> (r:
        Process)
        requires
            1 <= max_lifetime < usize::MAX,
            1 <= max_addresses_num < usize::MAX,
            max_address / PAGE_SIZE >= 2,
        ensures
            r.id == id,
            1 <= r.lifetime <= max_lifetime,
            1 <= r.used_addresses@.len() <= max_addresses_num,
            forall|i: int|
                0 <= i < r.used_addresses@.len() ==> {
                    let a = #[trigger] r.used_addresses@[i];
                    &&& a % PAGE_SIZE == 0
                    &&& 1 <= a / PAGE_SIZE < max_address / PAGE_SIZE
                },
    {
        let lifetime = random_in(1, max_lifetime + 1);
        let count = random_in(1, max_addresses_num + 1);
        let pages = max_address / PAGE_SIZE;
        let mut used_addresses: Vec<usize> = Vec::new();
        let mut i: usize = 0;
        while i < count
            invariant
                i <= count,
                pages == max_address / PAGE_SIZE,
                pages >= 2,
                used_addresses@.len() == i,
                forall|j: int|
                    0 <= j < i ==> {
                        let a = #[trigger] used_addresses@[j];
                        &&& a % PAGE_SIZE == 0
                        &&& 1 <= a / PAGE_SIZE < pages
                    },
            decreases count - i,
        {
            let page = random_in(1, pages);
            proof {
                let (p, m, q) = (page as int, max_address as int, pages as int);
                assert(p * 4096 <= m) by (nonlinear_arith)
                    requires
                        p < q,
                        q == m / 4096,
                ;
                assert((p * 4096) % 4096 == 0 && (p * 4096) / 4096 == p) by (nonlinear_arith);
            }
            used_addresses.push(page * PAGE_SIZE);
            i = i + 1;
        }
        Process { id, lifetime, used_addresses }
    }
}

} // verus!
