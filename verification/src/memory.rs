//! The region set: a single guest physical address space over possibly
//! disjoint mappings. Structurally immutable after construction,
//! normalized to ascending base order, with every access resolved to the
//! unique region that contains it; an access that would straddle two
//! regions is rejected, never stitched.

use vstd::prelude::*;
use crate::address::GuestAddress;
use crate::data_init::DataInit;
use crate::errors::{Error, MemResult};
use crate::mapping::{MemoryMapping, write_range};
use crate::stream::{ByteSink, ByteSource};

verus! {

/// A sequence of `n` zero bytes: the initial content of every region.
pub open spec fn zeros(n: nat) -> Seq<u8> {
    Seq::new(n, |j: int| 0u8)
}

/// One past the last guest address of a modelled region.
pub open spec fn region_end(r: (u64, Seq<u8>)) -> int {
    r.0 + r.1.len()
}

/// The shape every constructed region set has: regions are non-empty,
/// end within the 64-bit address space, and are sorted by base with no
/// two overlapping.
pub open spec fn wf_view(v: Seq<(u64, Seq<u8>)>) -> bool {
    &&& forall|i: int| 0 <= i < v.len() ==> (#[trigger] v[i]).1.len() > 0
    &&& forall|i: int| 0 <= i < v.len() ==> region_end(#[trigger] v[i]) <= u64::MAX
    &&& forall|i: int, j: int|
        0 <= i < j < v.len() ==> region_end(#[trigger] v[i]) <= (#[trigger] v[j]).0
}

/// Whether region `r` contains the single address `addr`.
pub open spec fn contains_addr(r: (u64, Seq<u8>), addr: u64) -> bool {
    r.0 <= addr < region_end(r)
}

/// Whether some region contains the address `addr` at all.
pub open spec fn addr_in_some_region(v: Seq<(u64, Seq<u8>)>, addr: u64) -> bool {
    exists|i: int| 0 <= i < v.len() && contains_addr(v[i], addr)
}

/// Whether region `i` carries the whole access `[addr, addr + len)`.
pub open spec fn resolves_at(v: Seq<(u64, Seq<u8>)>, addr: u64, len: int, i: int) -> bool {
    &&& 0 <= i < v.len()
    &&& contains_addr(v[i], addr)
    &&& addr + len <= region_end(v[i])
}

/// Whether the access `[addr, addr + len)` lies inside a single region.
pub open spec fn can_access(v: Seq<(u64, Seq<u8>)>, addr: u64, len: int) -> bool {
    exists|i: int| resolves_at(v, addr, len, i)
}

/// The index of the region containing `addr`; meaningful whenever some
/// region does, and unique on a well-formed view.
pub open spec fn region_index(v: Seq<(u64, Seq<u8>)>, addr: u64) -> int {
    choose|i: int| 0 <= i < v.len() && contains_addr(v[i], addr)
}

/// The `len` bytes of the address space starting at `addr`; meaningful
/// whenever the access resolves.
pub open spec fn spec_read(v: Seq<(u64, Seq<u8>)>, addr: u64, len: int) -> Seq<u8> {
    let i = region_index(v, addr);
    v[i].1.subrange(addr - v[i].0, addr - v[i].0 + len)
}

/// The address space after laying `data` over the bytes starting at
/// `addr`; the identity if the access does not resolve.
pub open spec fn spec_write(v: Seq<(u64, Seq<u8>)>, addr: u64, data: Seq<u8>) -> Seq<
    (u64, Seq<u8>),
> {
    if can_access(v, addr, data.len() as int) {
        let i = region_index(v, addr);
        v.update(i, (v[i].0, write_range(v[i].1, addr - v[i].0, data)))
    } else {
        v
    }
}

/// The number of bytes a region set holds in total: the sum of its
/// region sizes.
pub open spec fn total_len(v: Seq<(u64, Seq<u8>)>) -> int
    decreases v.len(),
{
    if v.len() == 0 {
        0
    } else {
        total_len(v.drop_last()) + v.last().1.len()
    }
}

/// At most one region carries any given access.
pub proof fn lemma_resolution_unique(v: Seq<(u64, Seq<u8>)>, addr: u64, i: int, j: int)
    requires
        wf_view(v),
        0 <= i < v.len(),
        0 <= j < v.len(),
        contains_addr(v[i], addr),
        contains_addr(v[j], addr),
    ensures
        i == j,
{
    if i < j {
        assert(region_end(v[i]) <= v[j].0);
    }
    if j < i {
        assert(region_end(v[j]) <= v[i].0);
    }
}

/// On a well-formed view, `region_index` picks exactly the region that
/// contains the address.
pub proof fn lemma_region_index_is(v: Seq<(u64, Seq<u8>)>, addr: u64, i: int)
    requires
        wf_view(v),
        0 <= i < v.len(),
        contains_addr(v[i], addr),
    ensures
        region_index(v, addr) == i,
{
    let w = region_index(v, addr);
    assert(0 <= w < v.len() && contains_addr(v[w], addr));
    lemma_resolution_unique(v, addr, w, i);
}

/// Whether the guest ranges of two requested regions intersect.
pub open spec fn ranges_overlap(a: (GuestAddress, usize), b: (GuestAddress, usize)) -> bool {
    a.0.0 < b.0.0 + b.1 && b.0.0 < a.0.0 + a.1
}

/// Whether a construction request holds two distinct entries whose
/// ranges intersect.
pub open spec fn has_overlapping_pair(rs: Seq<(GuestAddress, usize)>) -> bool {
    exists|k1: int, k2: int|
        0 <= k1 < rs.len() && 0 <= k2 < rs.len() && k1 != k2 && ranges_overlap(
            rs[k1],
            rs[k2],
        )
}

/// Whether a construction request holds a zero-length entry.
pub open spec fn has_zero_len(rs: Seq<(GuestAddress, usize)>) -> bool {
    exists|k: int| 0 <= k < rs.len() && (#[trigger] rs[k]).1 == 0
}

/// Whether a construction request holds an entry whose end does not fit
/// in a 64-bit address.
pub open spec fn has_end_overflow(rs: Seq<(GuestAddress, usize)>) -> bool {
    exists|k: int| 0 <= k < rs.len() && (#[trigger] rs[k]).0.0 + rs[k].1 > u64::MAX
}

/// Whether a freshly constructed region models the requested range:
/// same base, and as many zero bytes as the range is long.
pub open spec fn matches_range(reg: (u64, Seq<u8>), rng: (GuestAddress, usize)) -> bool {
    reg.0 == rng.0.0 && reg.1 == zeros(rng.1 as nat)
}

/// The (base, length) summary of each modelled region, in order.
pub open spec fn region_summary_seq(v: Seq<(u64, Seq<u8>)>) -> Seq<(u64, nat)> {
    Seq::new(v.len(), |i: int| ((v[i].0, v[i].1.len())))
}

/// The (base, length) summary of each requested range, in order.
pub open spec fn requested_summary_seq(rs: Seq<(GuestAddress, usize)>) -> Seq<(u64, nat)> {
    Seq::new(rs.len(), |k: int| ((rs[k].0.0, rs[k].1 as nat)))
}

/// Whether the modelled region set `v` is exactly the requested list
/// `rs`, normalized: same count, every region freshly zeroed, and the
/// same multiset of (base, size) pairs on both sides, so the set is a
/// permutation of the request, whatever order it arrived in.
pub open spec fn models_ranges(v: Seq<(u64, Seq<u8>)>, rs: Seq<(GuestAddress, usize)>) -> bool {
    &&& v.len() == rs.len()
    &&& forall|i: int| 0 <= i < v.len() ==> (#[trigger] v[i]).1 == zeros(v[i].1.len())
    &&& region_summary_seq(v).to_multiset() == requested_summary_seq(rs).to_multiset()
}

/// Inserting anywhere in a sequence inserts into its multiset.
proof fn lemma_to_multiset_insert<A>(s: Seq<A>, p: int, x: A)
    requires
        0 <= p <= s.len(),
    ensures
        s.insert(p, x).to_multiset() == s.to_multiset().insert(x),
{
    let a = s.subrange(0, p);
    let b = s.subrange(p, s.len() as int);
    assert(s.insert(p, x) == a.push(x) + b);
    vstd::seq_lib::lemma_multiset_commutative(a.push(x), b);
    assert(s =~= a + b);
    vstd::seq_lib::lemma_multiset_commutative(a, b);
    vstd::seq_lib::to_multiset_build(a, x);
    assert(s.insert(p, x).to_multiset() =~= s.to_multiset().insert(x));
}

/// Extending a well-formed region set with one more region that fits
/// strictly between its neighbours keeps it well formed; and because
/// every already-accepted request entry is modelled by some region, the
/// new entry overlaps none of them.
#[verifier::spinoff_prover]
#[verifier::rlimit(100)]
proof fn lemma_extend_region_set(
    s: Seq<(u64, Seq<u8>)>,
    s2: Seq<(u64, Seq<u8>)>,
    p: int,
    b: u64,
    size: usize,
    rs: Seq<(GuestAddress, usize)>,
    k: int,
    wit: Seq<int>,
)
    requires
        wf_view(s),
        0 <= p <= s.len(),
        s2.len() == s.len() + 1,
        forall|i: int| 0 <= i < p ==> #[trigger] s2[i] == s[i],
        s2[p] == (b, zeros(size as nat)),
        forall|i: int| p < i < s2.len() ==> #[trigger] s2[i] == s[i - 1],
        size > 0,
        b + size <= u64::MAX,
        p > 0 ==> region_end(s[p - 1]) <= b,
        p < s.len() ==> b + size <= s[p].0,
        forall|i: int| 0 <= i < p ==> (#[trigger] s[i]).0 <= b,
        0 <= k < rs.len(),
        rs[k].0.0 == b,
        rs[k].1 == size,
        wit.len() == k,
        forall|j: int| 0 <= j < k ==> 0 <= #[trigger] wit[j] < s.len(),
        forall|j: int| 0 <= j < k ==> matches_range(s[#[trigger] wit[j]], rs[j]),
    ensures
        wf_view(s2),
        forall|j: int|
            0 <= j < k ==> !ranges_overlap(#[trigger] rs[j], rs[k]) && !ranges_overlap(
                rs[k],
                #[trigger] rs[j],
            ),
{
    assert(zeros(size as nat).len() == size);
    assert forall|i: int| 0 <= i < p implies region_end(#[trigger] s[i]) <= b by {
        if i < p - 1 {
            assert(region_end(s[i]) <= s[p - 1].0);
            assert(s[p - 1].1.len() > 0);
        }
    }
    assert forall|i: int| p <= i < s.len() implies b + size <= (#[trigger] s[i]).0 by {
        if p < i {
            assert(region_end(s[p]) <= s[i].0);
            assert(s[p].1.len() > 0);
        }
    }
    assert forall|i: int| 0 <= i < s2.len() implies (#[trigger] s2[i]).1.len() > 0
        && region_end(s2[i]) <= u64::MAX by {
        if i < p {
            assert(s2[i] == s[i]);
        } else if i > p {
            assert(s2[i] == s[i - 1]);
        }
    }
    assert forall|i: int, j: int|
        0 <= i < j < s2.len() implies region_end(#[trigger] s2[i]) <= (#[trigger] s2[j]).0 by {
        if j < p {
            assert(s2[i] == s[i] && s2[j] == s[j]);
        } else if i < p && j == p {
            assert(s2[i] == s[i]);
            assert(region_end(s[i]) <= b);
        } else if i < p && j > p {
            assert(s2[i] == s[i] && s2[j] == s[j - 1]);
            assert(region_end(s[i]) <= b);
            assert(b < b + size);
            assert(b + size <= s[j - 1].0);
        } else if i == p {
            assert(s2[j] == s[j - 1]);
            assert(b + size <= s[j - 1].0);
        } else {
            assert(s2[i] == s[i - 1] && s2[j] == s[j - 1]);
        }
    }
    assert(wf_view(s2));

    assert forall|j: int| 0 <= j < k implies !ranges_overlap(#[trigger] rs[j], rs[k])
        && !ranges_overlap(rs[k], #[trigger] rs[j]) by {
        let i = wit[j];
        assert(matches_range(s[i], rs[j]));
        assert(s[i].1.len() == rs[j].1);
        if i < p {
            assert(region_end(s[i]) <= b);
        } else {
            assert(b + size <= s[i].0);
        }
    }
}

/// The length a best-effort access at `addr` is clipped to: the
/// requested length, or what is left of the containing region, whichever
/// is smaller. Meaningful whenever some region contains `addr`.
pub open spec fn clipped_len(v: Seq<(u64, Seq<u8>)>, addr: u64, len: int) -> int {
    let i = region_index(v, addr);
    if addr + len <= region_end(v[i]) {
        len
    } else {
        region_end(v[i]) - addr
    }
}

/// `spec_write` never changes the region structure: bases and lengths
/// stay as they were, and the set stays well formed.
pub proof fn lemma_spec_write_wf(v: Seq<(u64, Seq<u8>)>, addr: u64, data: Seq<u8>)
    requires
        wf_view(v),
    ensures
        wf_view(spec_write(v, addr, data)),
        spec_write(v, addr, data).len() == v.len(),
        forall|j: int|
            0 <= j < v.len() ==> (#[trigger] spec_write(v, addr, data)[j]).0 == v[j].0
                && spec_write(v, addr, data)[j].1.len() == v[j].1.len(),
{
    let v2 = spec_write(v, addr, data);
    if can_access(v, addr, data.len() as int) {
        let i = region_index(v, addr);
        assert(exists|j: int| 0 <= j < v.len() && contains_addr(v[j], addr)) by {
            let w = choose|j: int| resolves_at(v, addr, data.len() as int, j);
            assert(contains_addr(v[w], addr));
        }
        assert(0 <= i < v.len() && contains_addr(v[i], addr));
        assert(write_range(v[i].1, addr - v[i].0, data).len() == v[i].1.len());
        assert forall|j: int|
            0 <= j < v.len() implies (#[trigger] v2[j]).0 == v[j].0 && v2[j].1.len()
            == v[j].1.len() by {
            if j != i {
                assert(v2[j] == v[j]);
            }
        }
        assert(wf_view(v2));
    }
}

/// Writing through a resolved access changes exactly the bytes of the
/// containing region and neither the region structure nor any other
/// region, so the result is `spec_write` and stays well formed.
proof fn lemma_update_is_spec_write(
    vold: Seq<(u64, Seq<u8>)>,
    vnew: Seq<(u64, Seq<u8>)>,
    addr: u64,
    data: Seq<u8>,
    i: int,
)
    requires
        wf_view(vold),
        resolves_at(vold, addr, data.len() as int, i),
        vnew.len() == vold.len(),
        forall|j: int| 0 <= j < vold.len() && j != i ==> #[trigger] vnew[j] == vold[j],
        vnew[i] == (vold[i].0, write_range(vold[i].1, addr - vold[i].0, data)),
    ensures
        vnew == spec_write(vold, addr, data),
        wf_view(vnew),
{
    assert(can_access(vold, addr, data.len() as int));
    lemma_region_index_is(vold, addr, i);
    assert(write_range(vold[i].1, addr - vold[i].0, data).len() == vold[i].1.len());
    assert(vnew =~= spec_write(vold, addr, data));
    assert forall|j: int| 0 <= j < vnew.len() implies (#[trigger] vnew[j]).1.len() > 0
        && region_end(vnew[j]) <= u64::MAX && vnew[j].0 == vold[j].0 && vnew[j].1.len()
        == vold[j].1.len() by {
        if j != i {
            assert(vnew[j] == vold[j]);
        }
    }
    assert(wf_view(vnew));
}

/// One region of the set: a base address and the mapping backing it.
#[derive(Debug)]
struct MemoryRegion {
    base: u64,
    mapping: MemoryMapping,
}

/// The model of a sequence of regions: each as its base and its bytes.
spec fn regions_view(rs: Seq<MemoryRegion>) -> Seq<(u64, Seq<u8>)> {
    Seq::new(rs.len(), |i: int| (rs[i].base, rs[i].mapping@))
}

/// How the model of a region sequence changes under `insert`: entries
/// below the insertion point keep their index, the new entry models the
/// inserted region, entries above shift up by one.
#[verifier::spinoff_prover]
proof fn lemma_view_of_insert(
    old_rs: Seq<MemoryRegion>,
    new_rs: Seq<MemoryRegion>,
    p: int,
    reg: MemoryRegion,
)
    requires
        0 <= p <= old_rs.len(),
        new_rs == old_rs.insert(p, reg),
    ensures
        regions_view(new_rs).len() == regions_view(old_rs).len() + 1,
        forall|i: int|
            0 <= i < p ==> #[trigger] regions_view(new_rs)[i] == regions_view(old_rs)[i],
        regions_view(new_rs)[p] == (reg.base, reg.mapping@),
        forall|i: int|
            p < i < new_rs.len() ==> #[trigger] regions_view(new_rs)[i] == regions_view(
                old_rs,
            )[i - 1],
{
    old_rs.insert_ensures(p, reg);
}

/// Validates one more requested region against the regions accepted so
/// far, maps it, and inserts it at its sorted position, which it
/// returns. Fails with `Overlap` exactly when the new range intersects
/// an accepted one.
#[verifier::spinoff_prover]
#[verifier::rlimit(100)]
fn insert_next_region(
    regions: &mut Vec<MemoryRegion>,
    gbase: GuestAddress,
    size: usize,
    Ghost(rs): Ghost<Seq<(GuestAddress, usize)>>,
    Ghost(k): Ghost<int>,
    Ghost(wit): Ghost<Seq<int>>,
    Ghost(rwit): Ghost<Seq<int>>,
) -> (r: MemResult<usize>)
    requires
        0 <= k < rs.len(),
        rs[k].0 == gbase,
        rs[k].1 == size,
        size != 0,
        gbase.0 + size <= u64::MAX,
        old(regions)@.len() == k,
        wf_view(regions_view(old(regions)@)),
        wit.len() == k,
        forall|j: int| 0 <= j < k ==> 0 <= #[trigger] wit[j] < k,
        forall|j: int|
            0 <= j < k ==> matches_range(regions_view(old(regions)@)[#[trigger] wit[j]], rs[j]),
        rwit.len() == k,
        forall|i: int| 0 <= i < k ==> 0 <= #[trigger] rwit[i] < k,
        forall|i: int|
            0 <= i < k ==> matches_range(regions_view(old(regions)@)[i], rs[#[trigger] rwit[i]]),
    ensures
        match r {
            Ok(p) => {
                &&& 0 <= p <= k
                &&& final(regions)@.len() == k + 1
                &&& regions_view(final(regions)@) == regions_view(old(regions)@).insert(
                    p as int,
                    (gbase.0, zeros(size as nat)),
                )
                &&& wf_view(regions_view(final(regions)@))
                &&& forall|j: int|
                    0 <= j < k ==> !ranges_overlap(#[trigger] rs[j], rs[k]) && !ranges_overlap(
                        rs[k],
                        #[trigger] rs[j],
                    )
            },
            Err(e) => e == Error::Overlap && has_overlapping_pair(rs),
        },
{
    let b = gbase.offset();

    let mut p: usize = 0;
    while p < regions.len() && regions[p].base <= b
        invariant
            0 <= p <= regions@.len(),
            regions@ == old(regions)@,
            forall|i: int| 0 <= i < p ==> (#[trigger] regions@[i]).base <= b,
        decreases regions@.len() - p,
    {
        p += 1;
    }

    let ghost v = regions_view(regions@);
    if p > 0 {
        let prev_base = regions[p - 1].base;
        let prev_size = regions[p - 1].mapping.size();
        proof {
            assert(v[p - 1] == (regions@[p - 1].base, regions@[p - 1].mapping@));
            assert(region_end(v[p - 1]) <= u64::MAX);
        }
        if prev_base + prev_size as u64 > b {
            proof {
                let i = p - 1;
                let j = rwit[i];
                assert(matches_range(v[i], rs[j]));
                assert(v[i].1.len() == rs[j].1);
                assert(ranges_overlap(rs[j], rs[k]));
                assert(has_overlapping_pair(rs));
            }
            return Err(Error::Overlap);
        }
    }
    if p < regions.len() {
        let next_base = regions[p].base;
        proof {
            assert(v[p as int] == (regions@[p as int].base, regions@[p as int].mapping@));
        }
        if b + size as u64 > next_base {
            proof {
                let i = p as int;
                let j = rwit[i];
                assert(matches_range(v[i], rs[j]));
                assert(v[i].1.len() == rs[j].1);
                assert(ranges_overlap(rs[j], rs[k]));
                assert(has_overlapping_pair(rs));
            }
            return Err(Error::Overlap);
        }
    }

    let mapping = match MemoryMapping::new(size) {
        Ok(m) => m,
        Err(_) => {
            proof {
                assert(false);
            }
            return Err(Error::Overlap);
        },
    };
    let region = MemoryRegion { base: b, mapping };
    let ghost region_snap = region;
    let ghost old_regions = regions@;
    regions.insert(p, region);

    proof {
        lemma_view_of_insert(old_regions, regions@, p as int, region_snap);
        let s = regions_view(old_regions);
        let s2 = regions_view(regions@);
        assert(s2[p as int] == (b, zeros(size as nat)));
        assert forall|i: int| 0 <= i < p implies (#[trigger] s[i]).0 <= b by {
            assert(s[i] == (old_regions[i].base, old_regions[i].mapping@));
            assert(old_regions[i].base <= b);
        }
        lemma_extend_region_set(s, s2, p as int, b, size, rs, k, wit);
        assert(s2 =~= s.insert(p as int, (b, zeros(size as nat))));
    }
    Ok(p)
}

/// An ordered collection of non-overlapping regions presenting one guest
/// physical address space.
#[derive(Debug)]
pub struct GuestMemory {
    regions: Vec<MemoryRegion>,
}

impl View for GuestMemory {
    type V = Seq<(u64, Seq<u8>)>;

    closed spec fn view(&self) -> Seq<(u64, Seq<u8>)> {
        regions_view(self.regions@)
    }
}

impl GuestMemory {
    /// Structural well-formedness; established by construction and never
    /// given up, since the region list is immutable afterwards.
    pub open spec fn wf(&self) -> bool {
        wf_view(self@)
    }

    /// Builds a region set from an unordered list of `(base, size)`
    /// pairs: validates every entry, maps each, and normalizes to
    /// ascending base order. All-or-nothing: on any validation failure
    /// no region set exists. Succeeds exactly when no entry is
    /// zero-length, no entry's end overflows the address space, and no
    /// two entries overlap; the three failures are reported in that
    /// order of precedence.
    #[verifier::spinoff_prover]
    #[verifier::rlimit(100)]
    pub fn new(ranges: &Vec<(GuestAddress, usize)>) -> (r: MemResult<GuestMemory>)
        ensures
            match r {
                Ok(gm) => {
                    &&& !has_zero_len(ranges@)
                    &&& !has_end_overflow(ranges@)
                    &&& !has_overlapping_pair(ranges@)
                    &&& gm.wf()
                    &&& models_ranges(gm@, ranges@)
                },
                Err(e) => {
                    ||| (e == Error::ZeroSize && has_zero_len(ranges@))
                    ||| (e == Error::AddressOverflow && !has_zero_len(ranges@)
                        && has_end_overflow(ranges@))
                    ||| (e == Error::Overlap && !has_zero_len(ranges@) && !has_end_overflow(
                        ranges@,
                    ) && has_overlapping_pair(ranges@))
                },
            },
    {
        let n = ranges.len();

        let mut k: usize = 0;
        while k < n
            invariant
                0 <= k <= n,
                n == ranges@.len(),
                forall|j: int| 0 <= j < k ==> (#[trigger] ranges@[j]).1 != 0,
            decreases n - k,
        {
            if ranges[k].1 == 0 {
                return Err(Error::ZeroSize);
            }
            k += 1;
        }

        let mut k: usize = 0;
        while k < n
            invariant
                0 <= k <= n,
                n == ranges@.len(),
                forall|j: int| 0 <= j < n ==> (#[trigger] ranges@[j]).1 != 0,
                forall|j: int| 0 <= j < k ==> (#[trigger] ranges@[j]).0.0 + ranges@[j].1
                    <= u64::MAX,
            decreases n - k,
        {
            let (base, size) = ranges[k];
            if base.checked_add(size as u64).is_none() {
                return Err(Error::AddressOverflow);
            }
            k += 1;
        }

        let mut regions: Vec<MemoryRegion> = Vec::new();
        let ghost mut wit: Seq<int> = Seq::empty();
        let ghost mut rwit: Seq<int> = Seq::empty();
        proof {
            assert(region_summary_seq(regions_view(regions@)) =~= Seq::<(u64, nat)>::empty());
            assert(requested_summary_seq(ranges@.take(0)) =~= Seq::<(u64, nat)>::empty());
        }
        let mut k: usize = 0;
        while k < n
            invariant
                0 <= k <= n,
                n == ranges@.len(),
                forall|j: int| 0 <= j < n ==> (#[trigger] ranges@[j]).1 != 0,
                forall|j: int| 0 <= j < n ==> (#[trigger] ranges@[j]).0.0 + ranges@[j].1
                    <= u64::MAX,
                regions@.len() == k,
                wf_view(regions_view(regions@)),
                wit.len() == k,
                forall|j: int| 0 <= j < k ==> 0 <= #[trigger] wit[j] < k,
                forall|j: int|
                    0 <= j < k ==> matches_range(
                        regions_view(regions@)[#[trigger] wit[j]],
                        ranges@[j],
                    ),
                rwit.len() == k,
                forall|i: int| 0 <= i < k ==> 0 <= #[trigger] rwit[i] < k,
                forall|i: int|
                    0 <= i < k ==> matches_range(
                        regions_view(regions@)[i],
                        ranges@[#[trigger] rwit[i]],
                    ),
                forall|j1: int, j2: int|
                    0 <= j1 < k && 0 <= j2 < k && j1 != j2 ==> !ranges_overlap(
                        #[trigger] ranges@[j1],
                        #[trigger] ranges@[j2],
                    ),
                region_summary_seq(regions_view(regions@)).to_multiset() == requested_summary_seq(
                    ranges@.take(k as int),
                ).to_multiset(),
            decreases n - k,
        {
            let (gbase, size) = ranges[k];
            let ghost sold = regions_view(regions@);
            let pp = match insert_next_region(
                &mut regions,
                gbase,
                size,
                Ghost(ranges@),
                Ghost(k as int),
                Ghost(wit),
                Ghost(rwit),
            ) {
                Ok(pp) => pp,
                Err(e) => {
                    return Err(e);
                },
            };
            proof {
                let x = (gbase.0, zeros(size as nat));
                let snew = regions_view(regions@);
                sold.insert_ensures(pp as int, x);
                assert(snew == sold.insert(pp as int, x));
                let wit_old = wit;
                let rwit_old = rwit;
                wit = Seq::new(
                    (k + 1) as nat,
                    |j: int|
                        if j == k {
                            pp as int
                        } else if wit_old[j] >= pp {
                            wit_old[j] + 1
                        } else {
                            wit_old[j]
                        },
                );
                rwit = rwit_old.insert(pp as int, k as int);
                rwit_old.insert_ensures(pp as int, k as int);
                assert forall|j: int| 0 <= j < k + 1 implies 0 <= #[trigger] wit[j] < k + 1 by {}
                assert forall|j: int|
                    0 <= j < k + 1 implies matches_range(
                    snew[#[trigger] wit[j]],
                    ranges@[j],
                ) by {
                    if j == k {
                        assert(snew[pp as int] == x);
                    } else if wit_old[j] >= pp {
                        assert(snew[wit_old[j] + 1] == sold[wit_old[j]]);
                    } else {
                        assert(snew[wit_old[j]] == sold[wit_old[j]]);
                    }
                }
                assert forall|i: int| 0 <= i < k + 1 implies 0 <= #[trigger] rwit[i] < k + 1 by {
                    if i < pp {
                        assert(rwit[i] == rwit_old[i]);
                    } else if i == pp {
                        assert(rwit[i] == k);
                    } else {
                        assert(rwit[i] == rwit_old[i - 1]);
                    }
                }
                assert forall|i: int|
                    0 <= i < k + 1 implies matches_range(
                    snew[i],
                    ranges@[#[trigger] rwit[i]],
                ) by {
                    if i < pp {
                        assert(rwit[i] == rwit_old[i]);
                        assert(snew[i] == sold[i]);
                    } else if i == pp {
                        assert(rwit[i] == k);
                        assert(snew[pp as int] == x);
                    } else {
                        assert(rwit[i] == rwit_old[i - 1]);
                        assert(snew[i] == sold[i - 1]);
                    }
                }
                assert forall|j1: int, j2: int|
                    0 <= j1 < k + 1 && 0 <= j2 < k + 1 && j1 != j2 implies !ranges_overlap(
                    #[trigger] ranges@[j1],
                    #[trigger] ranges@[j2],
                ) by {
                    if j1 == k || j2 == k {
                    }
                }
                let xsum = (gbase.0, size as nat);
                assert(region_summary_seq(snew) =~= region_summary_seq(sold).insert(
                    pp as int,
                    xsum,
                ));
                lemma_to_multiset_insert(region_summary_seq(sold), pp as int, xsum);
                let t_old = ranges@.take(k as int);
                let t_new = ranges@.take(k + 1);
                assert(requested_summary_seq(t_new) =~= requested_summary_seq(t_old).push(xsum));
                vstd::seq_lib::to_multiset_build(requested_summary_seq(t_old), xsum);
                assert(region_summary_seq(snew).to_multiset() == requested_summary_seq(
                    t_new,
                ).to_multiset());
            }
            k += 1;
        }

        proof {
            assert(!has_zero_len(ranges@)) by {
                if has_zero_len(ranges@) {
                    let j0 = choose|j0: int|
                        0 <= j0 < ranges@.len() && (#[trigger] ranges@[j0]).1 == 0;
                    assert(ranges@[j0].1 != 0);
                }
            }
            assert(!has_end_overflow(ranges@)) by {
                if has_end_overflow(ranges@) {
                    let j0 = choose|j0: int|
                        0 <= j0 < ranges@.len() && (#[trigger] ranges@[j0]).0.0 + ranges@[j0].1
                            > u64::MAX;
                    assert(ranges@[j0].0.0 + ranges@[j0].1 <= u64::MAX);
                }
            }
            assert(!has_overlapping_pair(ranges@)) by {
                if has_overlapping_pair(ranges@) {
                    let (j1, j2) = choose|j1: int, j2: int|
                        0 <= j1 < ranges@.len() && 0 <= j2 < ranges@.len() && j1 != j2
                            && ranges_overlap(#[trigger] ranges@[j1], #[trigger] ranges@[j2]);
                    assert(!ranges_overlap(ranges@[j1], ranges@[j2]));
                }
            }
        }
        let ghost rv = regions_view(regions@);
        let gm = GuestMemory { regions };
        proof {
            assert forall|i: int| 0 <= i < rv.len() implies (#[trigger] rv[i]).1 == zeros(
                rv[i].1.len(),
            ) by {
                let j = rwit[i];
                assert(matches_range(rv[i], ranges@[j]));
                assert(zeros(ranges@[j].1 as nat).len() == ranges@[j].1);
            }
            assert(ranges@.take(n as int) =~= ranges@);
            assert(gm@ == rv);
            assert(models_ranges(gm@, ranges@));
        }
        Ok(gm)
    }

    /// How many regions the set holds.
    pub fn num_regions(&self) -> (n: usize)
        ensures
            n == self@.len(),
    {
        self.regions.len()
    }

    /// The total number of guest bytes the set addresses. Because the
    /// regions are disjoint ranges of the 64-bit address space, the sum
    /// cannot overflow.
    pub fn memory_size(&self) -> (n: u64)
        requires
            self.wf(),
        ensures
            n == total_len(self@),
    {
        let mut sum: u64 = 0;
        let mut i: usize = 0;
        while i < self.regions.len()
            invariant
                self.wf(),
                0 <= i <= self@.len(),
                self@.len() == self.regions@.len(),
                sum == total_len(self@.take(i as int)),
                i > 0 ==> sum <= region_end(self@[i - 1]),
            decreases self@.len() - i,
        {
            let sz = self.regions[i].mapping.size();
            proof {
                assert(self@[i as int] == (
                    self.regions@[i as int].base,
                    self.regions@[i as int].mapping@,
                ));
                assert(region_end(self@[i as int]) <= u64::MAX);
                if i > 0 {
                    assert(region_end(self@[i - 1]) <= self@[i as int].0);
                }
                let t = self@.take(i + 1);
                assert(t.drop_last() =~= self@.take(i as int));
                assert(t.last() == self@[i as int]);
            }
            sum = sum + sz as u64;
            i += 1;
        }
        proof {
            assert(self@.take(self@.len() as int) =~= self@);
        }
        sum
    }

    /// One past the last addressable guest byte, or address zero for an
    /// empty set.
    pub fn end_addr(&self) -> (r: GuestAddress)
        requires
            self.wf(),
        ensures
            self@.len() == 0 ==> r.0 == 0,
            self@.len() > 0 ==> r.0 == region_end(self@.last()),
    {
        let n = self.regions.len();
        if n == 0 {
            GuestAddress(0)
        } else {
            let base = self.regions[n - 1].base;
            let size = self.regions[n - 1].mapping.size();
            proof {
                assert(self@[n - 1] == (
                    self.regions@[n - 1].base,
                    self.regions@[n - 1].mapping@,
                ));
                assert(region_end(self@[n - 1]) <= u64::MAX);
            }
            GuestAddress(base + size as u64)
        }
    }

    /// The index of the region containing `addr`, found by binary search
    /// over the sorted region list; `None` when no region contains it.
    fn find_region(&self, addr: u64) -> (r: Option<usize>)
        requires
            self.wf(),
        ensures
            match r {
                Some(i) => i < self@.len() && contains_addr(self@[i as int], addr),
                None => !addr_in_some_region(self@, addr),
            },
    {
        let mut lo: usize = 0;
        let mut hi: usize = self.regions.len();
        while lo < hi
            invariant
                self.wf(),
                0 <= lo <= hi <= self@.len(),
                self@.len() == self.regions@.len(),
                forall|i: int| 0 <= i < lo ==> !contains_addr(#[trigger] self@[i], addr),
                forall|i: int| hi <= i < self@.len() ==> !contains_addr(#[trigger] self@[i], addr),
            decreases hi - lo,
        {
            let mid = lo + (hi - lo) / 2;
            let base = self.regions[mid].base;
            let size = self.regions[mid].mapping.size();
            proof {
                assert(self@[mid as int] == (
                    self.regions@[mid as int].base,
                    self.regions@[mid as int].mapping@,
                ));
                assert(region_end(self@[mid as int]) <= u64::MAX);
            }
            if base <= addr {
                if addr - base < size as u64 {
                    return Some(mid);
                }
                proof {
                    assert forall|i: int| 0 <= i < mid + 1 implies !contains_addr(
                        #[trigger] self@[i],
                        addr,
                    ) by {
                        if i < mid {
                            assert(region_end(self@[i]) <= self@[mid as int].0);
                        }
                    }
                }
                lo = mid + 1;
            } else {
                proof {
                    assert forall|i: int| mid <= i < self@.len() implies !contains_addr(
                        #[trigger] self@[i],
                        addr,
                    ) by {
                        if mid < i {
                            assert(region_end(self@[mid as int]) <= self@[i].0);
                            assert(self@[mid as int].1.len() > 0);
                        }
                    }
                }
                hi = mid;
            }
        }
        None
    }

    /// Whether some region contains the address.
    pub fn address_in_range(&self, addr: GuestAddress) -> (r: bool)
        requires
            self.wf(),
        ensures
            r == addr_in_some_region(self@, addr.0),
    {
        self.find_region(addr.0).is_some()
    }

    /// Resolves the access `[addr, addr + len)` to the unique region that
    /// carries it wholly, returning the region's index and the offset of
    /// `addr` within it. `None` when no region contains `addr`, or the
    /// access would run past the containing region's end.
    fn resolve(&self, addr: u64, len: usize) -> (r: Option<(usize, usize)>)
        requires
            self.wf(),
        ensures
            match r {
                Some(io) => {
                    &&& resolves_at(self@, addr, len as int, io.0 as int)
                    &&& io.1 == addr - self@[io.0 as int].0
                    &&& region_index(self@, addr) == io.0
                },
                None => !can_access(self@, addr, len as int),
            },
    {
        match self.find_region(addr) {
            Some(i) => {
                let base = self.regions[i].base;
                let size = self.regions[i].mapping.size();
                proof {
                    assert(self@[i as int] == (
                        self.regions@[i as int].base,
                        self.regions@[i as int].mapping@,
                    ));
                    lemma_region_index_is(self@, addr, i as int);
                }
                let off = (addr - base) as usize;
                if len <= size && off <= size - len {
                    Some((i, off))
                } else {
                    proof {
                        assert forall|j: int|
                            !resolves_at(self@, addr, len as int, j) by {
                            if resolves_at(self@, addr, len as int, j) {
                                lemma_resolution_unique(self@, addr, i as int, j);
                            }
                        }
                    }
                    None
                }
            },
            None => {
                proof {
                    assert forall|j: int|
                        !resolves_at(self@, addr, len as int, j) by {
                        if resolves_at(self@, addr, len as int, j) {
                            assert(contains_addr(self@[j], addr));
                        }
                    }
                }
                None
            },
        }
    }

    /// The `len` bytes at `addr`, which must lie inside one region.
    pub fn read_exact_at_addr(&self, addr: GuestAddress, len: usize) -> (r: MemResult<Vec<u8>>)
        requires
            self.wf(),
        ensures
            match r {
                Ok(v) => can_access(self@, addr.0, len as int) && v@ == spec_read(
                    self@,
                    addr.0,
                    len as int,
                ),
                Err(e) => !can_access(self@, addr.0, len as int) && e == Error::OutOfBounds,
            },
    {
        match self.resolve(addr.0, len) {
            Some((i, off)) => {
                proof {
                    assert(self@[i as int] == (
                        self.regions@[i as int].base,
                        self.regions@[i as int].mapping@,
                    ));
                }
                match self.regions[i].mapping.read_slice(off, len) {
                    Ok(v) => Ok(v),
                    Err(e) => {
                        proof {
                            assert(false);
                        }
                        Err(e)
                    },
                }
            },
            None => Err(Error::OutOfBounds),
        }
    }

    /// Up to `len` bytes at `addr`, clipped to the end of the region
    /// containing `addr`; fails only when no region contains `addr`.
    pub fn read_at_addr(&self, addr: GuestAddress, len: usize) -> (r: MemResult<Vec<u8>>)
        requires
            self.wf(),
        ensures
            match r {
                Ok(v) => addr_in_some_region(self@, addr.0) && v@ == spec_read(
                    self@,
                    addr.0,
                    clipped_len(self@, addr.0, len as int),
                ),
                Err(e) => !addr_in_some_region(self@, addr.0) && e == Error::OutOfBounds,
            },
    {
        match self.find_region(addr.0) {
            Some(i) => {
                let base = self.regions[i].base;
                let size = self.regions[i].mapping.size();
                proof {
                    assert(self@[i as int] == (
                        self.regions@[i as int].base,
                        self.regions@[i as int].mapping@,
                    ));
                    lemma_region_index_is(self@, addr.0, i as int);
                }
                let off = (addr.0 - base) as usize;
                let avail = size - off;
                let n = if len <= avail {
                    len
                } else {
                    avail
                };
                match self.regions[i].mapping.read_slice(off, n) {
                    Ok(v) => Ok(v),
                    Err(e) => {
                        proof {
                            assert(false);
                        }
                        Err(e)
                    },
                }
            },
            None => Err(Error::OutOfBounds),
        }
    }

    /// Lays all of `buf` over the bytes at `addr`, which must lie inside
    /// one region; on failure nothing changes.
    pub fn write_all_at_addr(&mut self, buf: &[u8], addr: GuestAddress) -> (r: MemResult<()>)
        requires
            old(self).wf(),
        ensures
            final(self).wf(),
            match r {
                Ok(()) => can_access(old(self)@, addr.0, buf@.len() as int) && final(self)@
                    == spec_write(old(self)@, addr.0, buf@),
                Err(e) => !can_access(old(self)@, addr.0, buf@.len() as int) && e
                    == Error::OutOfBounds && final(self)@ == old(self)@,
            },
    {
        let ghost vold = self@;
        match self.resolve(addr.0, buf.len()) {
            Some((i, off)) => {
                proof {
                    assert(vold[i as int] == (
                        self.regions@[i as int].base,
                        self.regions@[i as int].mapping@,
                    ));
                }
                let region = &mut self.regions[i];
                let res = region.mapping.write_slice(buf, off);
                match res {
                    Ok(()) => {
                        proof {
                            let vnew = self@;
                            assert forall|j: int|
                                0 <= j < vold.len() && j != i implies #[trigger] vnew[j]
                                == vold[j] by {
                                assert(self.regions@[j] == old(self).regions@[j]);
                            }
                            assert(vnew[i as int] == (
                                vold[i as int].0,
                                write_range(vold[i as int].1, off as int, buf@),
                            ));
                            lemma_update_is_spec_write(vold, vnew, addr.0, buf@, i as int);
                        }
                        Ok(())
                    },
                    Err(e) => {
                        proof {
                            assert(false);
                        }
                        Err(e)
                    },
                }
            },
            None => Err(Error::OutOfBounds),
        }
    }

    /// Lays a prefix of `buf` over the bytes at `addr`, clipped to the
    /// end of the region containing `addr`, and reports how many bytes
    /// were written; fails only when no region contains `addr`.
    pub fn write_at_addr(&mut self, buf: &[u8], addr: GuestAddress) -> (r: MemResult<usize>)
        requires
            old(self).wf(),
        ensures
            final(self).wf(),
            match r {
                Ok(n) => {
                    &&& addr_in_some_region(old(self)@, addr.0)
                    &&& n == clipped_len(old(self)@, addr.0, buf@.len() as int)
                    &&& final(self)@ == spec_write(old(self)@, addr.0, buf@.take(n as int))
                },
                Err(e) => !addr_in_some_region(old(self)@, addr.0) && e == Error::OutOfBounds
                    && final(self)@ == old(self)@,
            },
    {
        let ghost vold = self@;
        match self.find_region(addr.0) {
            Some(i) => {
                let base = self.regions[i].base;
                let size = self.regions[i].mapping.size();
                proof {
                    assert(vold[i as int] == (
                        self.regions@[i as int].base,
                        self.regions@[i as int].mapping@,
                    ));
                    lemma_region_index_is(vold, addr.0, i as int);
                }
                let off = (addr.0 - base) as usize;
                let avail = size - off;
                let n = if buf.len() <= avail {
                    buf.len()
                } else {
                    avail
                };
                let chunk = vstd::slice::slice_subrange(buf, 0, n);
                let region = &mut self.regions[i];
                let res = region.mapping.write_slice(chunk, off);
                match res {
                    Ok(()) => {
                        proof {
                            let vnew = self@;
                            assert forall|j: int|
                                0 <= j < vold.len() && j != i implies #[trigger] vnew[j]
                                == vold[j] by {
                                assert(self.regions@[j] == old(self).regions@[j]);
                            }
                            assert(chunk@ == buf@.take(n as int));
                            assert(vnew[i as int] == (
                                vold[i as int].0,
                                write_range(vold[i as int].1, off as int, chunk@),
                            ));
                            lemma_update_is_spec_write(vold, vnew, addr.0, chunk@, i as int);
                        }
                        Ok(n)
                    },
                    Err(e) => {
                        proof {
                            assert(false);
                        }
                        Err(e)
                    },
                }
            },
            None => Err(Error::OutOfBounds),
        }
    }

    /// The typed value whose encoding sits at `addr`; the whole encoding
    /// must lie inside one region.
    pub fn read_obj_from_addr<T: DataInit>(&self, addr: GuestAddress) -> (r: MemResult<T>)
        requires
            self.wf(),
        ensures
            match r {
                Ok(val) => can_access(self@, addr.0, T::byte_len() as int) && val.as_bytes()
                    == spec_read(self@, addr.0, T::byte_len() as int),
                Err(e) => !can_access(self@, addr.0, T::byte_len() as int) && e
                    == Error::OutOfBounds,
            },
    {
        let sz = T::size();
        match self.resolve(addr.0, sz) {
            Some((i, off)) => {
                proof {
                    assert(self@[i as int] == (
                        self.regions@[i as int].base,
                        self.regions@[i as int].mapping@,
                    ));
                }
                match self.regions[i].mapping.read_obj::<T>(off) {
                    Ok(val) => Ok(val),
                    Err(e) => {
                        proof {
                            assert(false);
                        }
                        Err(e)
                    },
                }
            },
            None => Err(Error::OutOfBounds),
        }
    }

    /// Lays the encoding of `val` over the bytes at `addr`; the whole
    /// encoding must lie inside one region. On failure nothing changes.
    pub fn write_obj_at_addr<T: DataInit>(&mut self, val: T, addr: GuestAddress) -> (r: MemResult<
        (),
    >)
        requires
            old(self).wf(),
        ensures
            final(self).wf(),
            match r {
                Ok(()) => can_access(old(self)@, addr.0, T::byte_len() as int) && final(self)@
                    == spec_write(old(self)@, addr.0, val.as_bytes()),
                Err(e) => !can_access(old(self)@, addr.0, T::byte_len() as int) && e
                    == Error::OutOfBounds && final(self)@ == old(self)@,
            },
    {
        proof {
            val.lemma_encoding_width();
        }
        let b = val.to_bytes();
        match self.write_all_at_addr(b.as_slice(), addr) {
            Ok(()) => Ok(()),
            Err(e) => Err(e),
        }
    }

    /// Fills `[addr, addr + count)` from `src`, best effort on the
    /// stream side: moves `min(count, src remaining)` bytes and reports
    /// how many. The whole range must lie inside one region.
    pub fn read_from<S: ByteSource>(&mut self, addr: GuestAddress, src: &mut S, count: usize) -> (r:
        MemResult<usize>)
        requires
            old(self).wf(),
        ensures
            final(self).wf(),
            match r {
                Ok(n) => {
                    &&& can_access(old(self)@, addr.0, count as int)
                    &&& n == if count <= old(src).remaining().len() {
                        count as int
                    } else {
                        old(src).remaining().len() as int
                    }
                    &&& final(self)@ == spec_write(
                        old(self)@,
                        addr.0,
                        old(src).remaining().take(n as int),
                    )
                    &&& final(src).remaining() == old(src).remaining().skip(n as int)
                },
                Err(e) => {
                    &&& !can_access(old(self)@, addr.0, count as int)
                    &&& e == Error::OutOfBounds
                    &&& final(self)@ == old(self)@
                    &&& final(src).remaining() == old(src).remaining()
                },
            },
    {
        let ghost vold = self@;
        match self.resolve(addr.0, count) {
            Some((i, off)) => {
                proof {
                    assert(vold[i as int] == (
                        self.regions@[i as int].base,
                        self.regions@[i as int].mapping@,
                    ));
                }
                let region = &mut self.regions[i];
                let res = region.mapping.read_from(off, src, count);
                match res {
                    Ok(n) => {
                        proof {
                            let vnew = self@;
                            assert forall|j: int|
                                0 <= j < vold.len() && j != i implies #[trigger] vnew[j]
                                == vold[j] by {
                                assert(self.regions@[j] == old(self).regions@[j]);
                            }
                            assert(vnew[i as int] == (
                                vold[i as int].0,
                                write_range(
                                    vold[i as int].1,
                                    off as int,
                                    old(src).remaining().take(n as int),
                                ),
                            ));
                            lemma_update_is_spec_write(
                                vold,
                                vnew,
                                addr.0,
                                old(src).remaining().take(n as int),
                                i as int,
                            );
                        }
                        Ok(n)
                    },
                    Err(e) => {
                        proof {
                            assert(false);
                        }
                        Err(e)
                    },
                }
            },
            None => Err(Error::OutOfBounds),
        }
    }

    /// Drains `[addr, addr + count)` into `dst`, best effort on the
    /// stream side: moves `min(count, dst room)` bytes and reports how
    /// many. The whole range must lie inside one region.
    pub fn write_to<S: ByteSink>(&self, addr: GuestAddress, dst: &mut S, count: usize) -> (r:
        MemResult<usize>)
        requires
            self.wf(),
        ensures
            match r {
                Ok(n) => {
                    &&& can_access(self@, addr.0, count as int)
                    &&& n == if count <= old(dst).room() {
                        count as int
                    } else {
                        old(dst).room() as int
                    }
                    &&& final(dst).accepted() == old(dst).accepted() + spec_read(
                        self@,
                        addr.0,
                        n as int,
                    )
                    &&& final(dst).room() == old(dst).room() - n
                },
                Err(e) => {
                    &&& !can_access(self@, addr.0, count as int)
                    &&& e == Error::OutOfBounds
                    &&& final(dst).accepted() == old(dst).accepted()
                    &&& final(dst).room() == old(dst).room()
                },
            },
    {
        match self.resolve(addr.0, count) {
            Some((i, off)) => {
                proof {
                    assert(self@[i as int] == (
                        self.regions@[i as int].base,
                        self.regions@[i as int].mapping@,
                    ));
                }
                let res = self.regions[i].mapping.write_to(off, dst, count);
                match res {
                    Ok(n) => Ok(n),
                    Err(e) => {
                        proof {
                            assert(false);
                        }
                        Err(e)
                    },
                }
            },
            None => Err(Error::OutOfBounds),
        }
    }

    /// Fills `[addr, addr + count)` from `src`, exactly: if the source
    /// runs dry first, what it did supply is written and the call
    /// reports `ShortIo` rather than success. The whole range must lie
    /// inside one region.
    pub fn read_to_memory<S: ByteSource>(
        &mut self,
        addr: GuestAddress,
        src: &mut S,
        count: usize,
    ) -> (r: MemResult<()>)
        requires
            old(self).wf(),
        ensures
            final(self).wf(),
            match r {
                Ok(()) => {
                    &&& can_access(old(self)@, addr.0, count as int)
                    &&& old(src).remaining().len() >= count
                    &&& final(self)@ == spec_write(
                        old(self)@,
                        addr.0,
                        old(src).remaining().take(count as int),
                    )
                    &&& final(src).remaining() == old(src).remaining().skip(count as int)
                },
                Err(e) => {
                    ||| {
                        &&& e == Error::OutOfBounds
                        &&& !can_access(old(self)@, addr.0, count as int)
                        &&& final(self)@ == old(self)@
                        &&& final(src).remaining() == old(src).remaining()
                    }
                    ||| {
                        &&& e == (Error::ShortIo {
                            expected: count,
                            completed: old(src).remaining().len() as usize,
                        })
                        &&& can_access(old(self)@, addr.0, count as int)
                        &&& old(src).remaining().len() < count
                        &&& final(self)@ == spec_write(old(self)@, addr.0, old(src).remaining())
                        &&& final(src).remaining() == Seq::<u8>::empty()
                    }
                },
            },
    {
        let ghost start_remaining = src.remaining();
        match self.read_from(addr, src, count) {
            Ok(n) => {
                if n == count {
                    Ok(())
                } else {
                    proof {
                        assert(start_remaining.take(n as int) =~= start_remaining);
                        assert(start_remaining.skip(n as int) =~= Seq::<u8>::empty());
                    }
                    Err(Error::ShortIo { expected: count, completed: n })
                }
            },
            Err(e) => Err(e),
        }
    }

    /// Drains `[addr, addr + count)` into `dst`, exactly: if the sink
    /// runs out of room first, what it did accept stands and the call
    /// reports `ShortIo` rather than success. The whole range must lie
    /// inside one region.
    pub fn write_from_memory<S: ByteSink>(
        &self,
        addr: GuestAddress,
        dst: &mut S,
        count: usize,
    ) -> (r: MemResult<()>)
        requires
            self.wf(),
        ensures
            match r {
                Ok(()) => {
                    &&& can_access(self@, addr.0, count as int)
                    &&& old(dst).room() >= count
                    &&& final(dst).accepted() == old(dst).accepted() + spec_read(
                        self@,
                        addr.0,
                        count as int,
                    )
                    &&& final(dst).room() == old(dst).room() - count
                },
                Err(e) => {
                    ||| {
                        &&& e == Error::OutOfBounds
                        &&& !can_access(self@, addr.0, count as int)
                        &&& final(dst).accepted() == old(dst).accepted()
                        &&& final(dst).room() == old(dst).room()
                    }
                    ||| {
                        &&& e == (Error::ShortIo {
                            expected: count,
                            completed: old(dst).room() as usize,
                        })
                        &&& can_access(self@, addr.0, count as int)
                        &&& old(dst).room() < count
                        &&& final(dst).accepted() == old(dst).accepted() + spec_read(
                            self@,
                            addr.0,
                            old(dst).room() as int,
                        )
                        &&& final(dst).room() == 0
                    }
                },
            },
    {
        match self.write_to(addr, dst, count) {
            Ok(n) => {
                if n == count {
                    Ok(())
                } else {
                    Err(Error::ShortIo { expected: count, completed: n })
                }
            },
            Err(e) => Err(e),
        }
    }
}

} // verus!
