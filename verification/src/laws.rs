//! The guarantees of the region set, stated and proved once over its
//! mathematical model: distinct regions never share an address, a write
//! followed by a read of the same range gives back what was written, a
//! write never touches bytes outside its own range, disjoint writes
//! commute, and a streamed-out range reads back unchanged.

use vstd::prelude::*;
use crate::data_init::DataInit;
use crate::mapping::write_range;
use crate::memory::{
    can_access, contains_addr, lemma_region_index_is, lemma_resolution_unique,
    lemma_spec_write_wf, resolves_at, spec_read, spec_write, wf_view,
};

verus! {

/// No address lies in two distinct regions of a well-formed region set:
/// their `[base, base + size)` ranges are pairwise disjoint.
pub proof fn lemma_regions_disjoint(v: Seq<(u64, Seq<u8>)>, i: int, j: int, a: u64)
    requires
        wf_view(v),
        0 <= i < v.len(),
        0 <= j < v.len(),
        i != j,
    ensures
        !(contains_addr(v[i], a) && contains_addr(v[j], a)),
{
    if contains_addr(v[i], a) && contains_addr(v[j], a) {
        lemma_resolution_unique(v, a, i, j);
    }
}

/// Read-after-write: writing `data` at `addr` and reading the same
/// range back yields `data`, for every range that lies inside one
/// region.
pub proof fn lemma_read_after_write(v: Seq<(u64, Seq<u8>)>, addr: u64, data: Seq<u8>)
    requires
        wf_view(v),
        can_access(v, addr, data.len() as int),
    ensures
        can_access(spec_write(v, addr, data), addr, data.len() as int),
        spec_read(spec_write(v, addr, data), addr, data.len() as int) == data,
{
    let i = choose|i: int| resolves_at(v, addr, data.len() as int, i);
    lemma_region_index_is(v, addr, i);
    lemma_spec_write_wf(v, addr, data);
    let v2 = spec_write(v, addr, data);
    assert(v2[i] == (v[i].0, write_range(v[i].1, addr - v[i].0, data)));
    assert(resolves_at(v2, addr, data.len() as int, i));
    lemma_region_index_is(v2, addr, i);
    assert(spec_read(v2, addr, data.len() as int) =~= data);
}

/// Typed read-after-write: a plain-data value written at `addr` is the
/// only value whose encoding the same range then holds, so reading the
/// same type back yields the value itself.
pub proof fn lemma_obj_round_trip<T: DataInit>(v: Seq<(u64, Seq<u8>)>, addr: u64, val: T, r: T)
    requires
        wf_view(v),
        can_access(v, addr, T::byte_len() as int),
        r.as_bytes() == spec_read(
            spec_write(v, addr, val.as_bytes()),
            addr,
            T::byte_len() as int,
        ),
    ensures
        r == val,
{
    val.lemma_encoding_width();
    lemma_read_after_write(v, addr, val.as_bytes());
    T::lemma_encoding_injective(r, val);
}

/// A write touches only its own byte range: any resolvable read of a
/// range disjoint from the written one sees the same bytes before and
/// after the write, whatever the interleaving of such accesses.
pub proof fn lemma_write_frame(
    v: Seq<(u64, Seq<u8>)>,
    waddr: u64,
    data: Seq<u8>,
    raddr: u64,
    rlen: int,
)
    requires
        wf_view(v),
        can_access(v, waddr, data.len() as int),
        can_access(v, raddr, rlen),
        rlen >= 0,
        raddr + rlen <= waddr || waddr + data.len() <= raddr,
    ensures
        spec_read(spec_write(v, waddr, data), raddr, rlen) == spec_read(v, raddr, rlen),
{
    let iw = choose|i: int| resolves_at(v, waddr, data.len() as int, i);
    lemma_region_index_is(v, waddr, iw);
    let ir = choose|i: int| resolves_at(v, raddr, rlen, i);
    lemma_region_index_is(v, raddr, ir);
    lemma_spec_write_wf(v, waddr, data);
    let v2 = spec_write(v, waddr, data);
    assert(contains_addr(v2[ir], raddr));
    lemma_region_index_is(v2, raddr, ir);
    if ir != iw {
        assert(v2[ir] == v[ir]);
        assert(spec_read(v2, raddr, rlen) =~= spec_read(v, raddr, rlen));
    } else {
        assert(v2[ir] == (v[ir].0, write_range(v[ir].1, waddr - v[ir].0, data)));
        assert(spec_read(v2, raddr, rlen) =~= spec_read(v, raddr, rlen));
    }
}

/// Writes to disjoint byte ranges commute: the final contents do not
/// depend on the order in which the two writes land.
pub proof fn lemma_disjoint_writes_commute(
    v: Seq<(u64, Seq<u8>)>,
    a1: u64,
    d1: Seq<u8>,
    a2: u64,
    d2: Seq<u8>,
)
    requires
        wf_view(v),
        can_access(v, a1, d1.len() as int),
        can_access(v, a2, d2.len() as int),
        a1 + d1.len() <= a2 || a2 + d2.len() <= a1,
    ensures
        spec_write(spec_write(v, a1, d1), a2, d2) == spec_write(spec_write(v, a2, d2), a1, d1),
{
    let i1 = choose|i: int| resolves_at(v, a1, d1.len() as int, i);
    lemma_region_index_is(v, a1, i1);
    let i2 = choose|i: int| resolves_at(v, a2, d2.len() as int, i);
    lemma_region_index_is(v, a2, i2);
    lemma_spec_write_wf(v, a1, d1);
    lemma_spec_write_wf(v, a2, d2);
    let w1 = spec_write(v, a1, d1);
    let w2 = spec_write(v, a2, d2);
    assert(resolves_at(w1, a2, d2.len() as int, i2));
    lemma_region_index_is(w1, a2, i2);
    assert(resolves_at(w2, a1, d1.len() as int, i1));
    lemma_region_index_is(w2, a1, i1);
    let lhs = spec_write(w1, a2, d2);
    let rhs = spec_write(w2, a1, d1);
    assert forall|j: int| 0 <= j < v.len() implies lhs[j] == rhs[j] by {
        if j == i1 || j == i2 {
            assert(lhs[j].1 =~= rhs[j].1);
            assert(lhs[j].0 == rhs[j].0);
            assert(lhs[j] == rhs[j]);
        }
    }
    assert(lhs =~= rhs);
}

/// Streaming round-trip: the bytes `write_to` hands a destination are
/// appended behind whatever the destination already held; pulling them
/// back from that position reproduces the memory bytes exactly.
pub proof fn lemma_stream_round_trip(prefix: Seq<u8>, v: Seq<(u64, Seq<u8>)>, addr: u64, len: int)
    requires
        wf_view(v),
        can_access(v, addr, len),
        len >= 0,
    ensures
        (prefix + spec_read(v, addr, len)).skip(prefix.len() as int) == spec_read(v, addr, len),
{
    let i = choose|j: int| resolves_at(v, addr, len, j);
    lemma_region_index_is(v, addr, i);
    assert(spec_read(v, addr, len).len() == len);
    assert((prefix + spec_read(v, addr, len)).skip(prefix.len() as int) =~= spec_read(
        v,
        addr,
        len,
    ));
}

} // verus!
