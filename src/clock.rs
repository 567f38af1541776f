//! The clock (second-chance) replacement policy, stated over the flat
//! sequence of all virtual pages in registration order.
use vstd::prelude::*;
use crate::pages::VirtualPage;

verus! {

/// How many steps the scan that starts at `h` takes to reach position `g`
/// of a circular sequence of length `n`.
pub open spec fn scan_key(g: int, h: int, n: int) -> int {
    if g >= h {
        g - h
    } else {
        g + n - h
    }
}

/// Some page of `s` is resident.
pub open spec fn has_resident(s: Seq<VirtualPage>) -> bool {
    exists|g: int| 0 <= g < s.len() && #[trigger] s[g].presence
}

/// Every resident page of `s` has its reference bit set.
pub open spec fn all_referenced(s: Seq<VirtualPage>) -> bool {
    forall|g: int| 0 <= g < s.len() && #[trigger] s[g].presence ==> s[g].reference
}

/// `v` is the page that the clock evicts when its scan starts at `h`.
///
/// While some resident page is unreferenced, that is the first one the scan
/// reaches; every resident page passed on the way is referenced. When every
/// resident page is referenced, the first lap clears them all and the second
/// lap stops at the first resident page.
pub open spec fn is_victim(s: Seq<VirtualPage>, h: int, v: int) -> bool {
    let n = s.len() as int;
    &&& 0 <= v < n
    &&& s[v].presence
    &&& if all_referenced(s) {
        forall|g: int|
            0 <= g < n && scan_key(g, h, n) < scan_key(v, h, n) ==> !(#[trigger] s[g].presence)
    } else {
        &&& !s[v].reference
        &&& forall|g: int|
            0 <= g < n && #[trigger] s[g].presence && scan_key(g, h, n) < scan_key(v, h, n)
                ==> s[g].reference
    }
}

/// The page that the clock evicts when its scan starts at `h`.
pub open spec fn clock_victim(s: Seq<VirtualPage>, h: int) -> int {
    choose|v: int| is_victim(s, h, v)
}

/// The pages after a scan from `h` that stopped at `v`: each resident page it
/// passed has lost its reference bit (all of them, when all were referenced).
pub open spec fn swept(s: Seq<VirtualPage>, h: int, v: int) -> Seq<VirtualPage> {
    let n = s.len() as int;
    Seq::new(
        s.len(),
        |g: int|
            if s[g].presence && (all_referenced(s) || scan_key(g, h, n) < scan_key(v, h, n)) {
                s[g].cleared()
            } else {
                s[g]
            },
    )
}

/// Where the hand rests after the page at `v` was evicted: just past it.
pub open spec fn hand_after(v: int, n: int) -> int {
    if v + 1 < n {
        v + 1
    } else {
        0
    }
}

/// Two pages cannot both be the victim of one scan.
pub proof fn lemma_victim_unique(s: Seq<VirtualPage>, h: int, v1: int, v2: int)
    requires
        0 <= h < s.len(),
        is_victim(s, h, v1),
        is_victim(s, h, v2),
    ensures
        v1 == v2,
{
    let n = s.len() as int;
    if scan_key(v1, h, n) < scan_key(v2, h, n) {
        assert(s[v1].presence);
    } else if scan_key(v2, h, n) < scan_key(v1, h, n) {
        assert(s[v2].presence);
    }
}

/// Among the resident pages (the unreferenced ones, when `unreferenced`),
/// one is reached first by the scan.
proof fn lemma_first_reached(s: Seq<VirtualPage>, h: int, g: int, unreferenced: bool)
    requires
        0 <= h < s.len(),
        0 <= g < s.len(),
        s[g].presence,
        unreferenced ==> !s[g].reference,
    ensures
        exists|v: int|
            0 <= v < s.len() && #[trigger] s[v].presence && (unreferenced ==> !s[v].reference)
                && forall|g2: int|
                0 <= g2 < s.len() && #[trigger] s[g2].presence && (unreferenced
                    ==> !s[g2].reference) ==> scan_key(v, h, s.len() as int) <= scan_key(
                    g2,
                    h,
                    s.len() as int,
                ),
    decreases scan_key(g, h, s.len() as int),
{
    let n = s.len() as int;
    if exists|g2: int|
        0 <= g2 < n && #[trigger] s[g2].presence && (unreferenced ==> !s[g2].reference)
            && scan_key(g2, h, n) < scan_key(g, h, n) {
        let g2 = choose|g2: int|
            0 <= g2 < n && #[trigger] s[g2].presence && (unreferenced ==> !s[g2].reference)
                && scan_key(g2, h, n) < scan_key(g, h, n);
        lemma_first_reached(s, h, g2, unreferenced);
    } else {
        assert(s[g].presence);
    }
}

/// As long as some page is resident, the scan finds a victim.
pub proof fn lemma_victim_exists(s: Seq<VirtualPage>, h: int)
    requires
        0 <= h < s.len(),
        has_resident(s),
    ensures
        is_victim(s, h, clock_victim(s, h)),
{
    let n = s.len() as int;
    let g = choose|g: int| 0 <= g < n && #[trigger] s[g].presence;
    if all_referenced(s) {
        lemma_first_reached(s, h, g, false);
        let v = choose|v: int|
            0 <= v < n && #[trigger] s[v].presence && forall|g2: int|
                0 <= g2 < n && #[trigger] s[g2].presence ==> scan_key(v, h, n) <= scan_key(
                    g2,
                    h,
                    n,
                );
        assert(is_victim(s, h, v));
    } else {
        let u = choose|u: int| !(0 <= u < n && #[trigger] s[u].presence ==> s[u].reference);
        lemma_first_reached(s, h, u, true);
        let v = choose|v: int|
            0 <= v < n && #[trigger] s[v].presence && !s[v].reference && forall|g2: int|
                0 <= g2 < n && #[trigger] s[g2].presence && !s[g2].reference ==> scan_key(
                    v,
                    h,
                    n,
                ) <= scan_key(g2, h, n);
        assert(is_victim(s, h, v));
    }
}

/// Second chance: a resident page whose reference bit is set when the scan
/// passes it survives the scan with the bit cleared. The victim itself can
/// have had its bit set only when every resident page had, so that the first
/// lap cleared it and the second lap found it clear.
pub proof fn lemma_second_chance(s: Seq<VirtualPage>, h: int)
    requires
        0 <= h < s.len(),
        has_resident(s),
    ensures
        ({
            let v = clock_victim(s, h);
            let n = s.len() as int;
            &&& 0 <= v < n
            &&& s[v].presence
            &&& s[v].reference ==> all_referenced(s)
            &&& forall|u: int|
                0 <= u < n && u != v && #[trigger] s[u].presence ==> {
                    &&& swept(s, h, v)[u].presence
                    &&& swept(s, h, v)[u].frame == s[u].frame
                    &&& s[u].reference && scan_key(u, h, n) < scan_key(v, h, n)
                        ==> !swept(s, h, v)[u].reference
                }
        }),
{
    lemma_victim_exists(s, h);
}

} // verus!
