//! Scheduling regions: which are wanted, and in which order they are derived so
//! that whoever writes a bus comes before whoever reads it.

use crate::edge::Edge;
use crate::flow;
use crate::graph::Graph;
use crate::node::ToNodeDsp;
use crate::region::{self, RegionBus};
use crate::topo;
use crate::walk;
use vstd::prelude::*;

verus! {

/// What arrives at every node: where each signal comes from.
pub type Arrivals = Vec<Vec<(Option<RegionBus>, (usize, usize))>>;

/// Whether `arr` lists what arrives at every node.
pub open spec fn lists_arrivals<N: ToNodeDsp>(
    g: Graph<N, Edge>,
    arr: Seq<Vec<(Option<RegionBus>, (usize, usize))>>,
) -> bool {
    &&& arr.len() == g.nodes@.len()
    &&& forall|n: usize| n < arr.len() ==> (#[trigger] arr[n as int])@ == region::arrives(g, n)
}

/// What arrives at every node.
pub fn all_arrivals<N: ToNodeDsp>(
    g: &Graph<N, Edge>,
    srcs: &Vec<Vec<Vec<(usize, usize)>>>,
    all: &Vec<Vec<(RegionBus, (usize, usize))>>,
) -> (r: Arrivals)
    requires
        flow::all_lists(srcs@) == flow::sources(*g),
        region::lists_buses(*g, all@),
    ensures
        lists_arrivals(*g, r@),
{
    let mut r: Arrivals = Vec::new();
    let mut n: usize = 0;
    proof {
        assert(flow::all_lists(srcs@).len() == srcs@.len());
    }
    while n < srcs.len()
        invariant
            flow::all_lists(srcs@) == flow::sources(*g),
            region::lists_buses(*g, all@),
            srcs@.len() == g.nodes@.len(),
            n <= srcs@.len(),
            r@.len() == n,
            forall|j: usize| j < n ==> (#[trigger] r@[j as int])@ == region::arrives(*g, j),
        decreases srcs@.len() - n,
    {
        let f = flow::flatten(&srcs[n]);
        assert(flow::all_lists(srcs@)[n as int] == flow::lists(srcs@[n as int]@));
        r.push(region::lower_summands(g, all, &f));
        n = n + 1;
    }
    r
}

/// Regions are nodes of the graph.
pub proof fn lemma_region_in_range<N: ToNodeDsp>(g: Graph<N, Edge>, comp: Seq<Option<usize>>, n: usize)
    requires
        region::labels(g, comp),
        n < comp.len(),
        comp[n as int] is Some,
    ensures
        comp[n as int]->0 < comp.len(),
        region::inner(g, comp[n as int]->0),
        region::region_of(g, comp[n as int]->0) == comp[n as int],
{
    let l = comp[n as int]->0;
    let step = region::joined(g);
    assert(region::leads(g, n, l));
    let s = |x: usize| region::inner(g, x);
    assert(s(n));
    walk::lemma_closed(step, s, n, l);
    assert(region::inner(g, l));
    assert(region::leads(g, l, l)) by {
        walk::lemma_reaches_self(step, l);
        assert forall|m: usize| #[trigger] walk::reaches(step, l, m) implies l <= m by {
            walk::lemma_reaches_trans(step, n, l, m);
        }
    }
    let k = choose|k: usize| region::leads(g, l, k);
    assert(walk::reaches(step, l, k) && walk::reaches(step, l, l));
}

/// For every region, the regions it reads from.
pub fn region_deps<N: ToNodeDsp>(g: &Graph<N, Edge>, comp: &Vec<Option<usize>>, arr: &Arrivals) -> (r: Vec<
    Vec<usize>,
>)
    requires
        region::labels(*g, comp@),
        lists_arrivals(*g, arr@),
    ensures
        r@.len() == g.nodes@.len(),
        topo::depends(topo::views(r@)) == region::reads_from(*g),
        topo::in_range(topo::views(r@)),
{
    let count: usize = comp.len();
    let mut r: Vec<Vec<usize>> = Vec::new();
    let mut c: usize = 0;
    while c < count
        invariant
            region::labels(*g, comp@),
            lists_arrivals(*g, arr@),
            count == comp@.len(),
            c <= count,
            r@.len() == c,
            forall|x: usize, y: usize|
                x < c ==> (#[trigger] r@[x as int]@.contains(y) <==> region::reads_from(*g)(x, y)),
            forall|x: int, k: int|
                0 <= x < c && 0 <= k < r@[x]@.len() ==> #[trigger] r@[x]@[k] < count,
        decreases count - c,
    {
        let list = reads_of(g, comp, arr, c);
        r.push(list);
        c = c + 1;
    }
    proof {
        let v = topo::views(r@);
        assert forall|x: usize, y: usize| #[trigger]
            topo::depends(v)(x, y) == region::reads_from(*g)(x, y) by {
            if x < count {
                assert(v[x as int] == r@[x as int]@);
                assert(r@[x as int]@.contains(y) <==> region::reads_from(*g)(x, y));
            } else {
                if region::reads_from(*g)(x, y) {
                    let (n, k) = choose|n: usize, k: int|
                        region::inner(*g, n) && region::region_of(*g, n) == Some(x) && 0 <= k
                            < region::arrives(*g, n).len() && region::foreign(
                            *g,
                            x,
                            #[trigger] region::arrives(*g, n)[k],
                        ) && region::region_of(*g, region::arrives(*g, n)[k].1.0) == Some(y);
                    region::lemma_labels(*g, comp@, n);
                    lemma_region_in_range(*g, comp@, n);
                }
            }
        }
        assert(topo::depends(v) =~= region::reads_from(*g));
        assert forall|x: int, k: int| 0 <= x < v.len() && 0 <= k < v[x].len() implies #[trigger] v[x][k]
            < v.len() by {
            assert(r@[x]@[k] < count);
        }
    }
    r
}

/// Whether one of the first `k` signals that arrive at `n` comes from region `w`
/// over a bus that region `c` does not write.
spec fn reads_upto<N: ToNodeDsp>(g: Graph<N, Edge>, c: usize, n: usize, k: int, w: usize) -> bool {
    exists|j: int|
        0 <= j < k && region::foreign(g, c, #[trigger] region::arrives(g, n)[j])
            && region::region_of(g, region::arrives(g, n)[j].1.0) == Some(w)
}

fn reads_of<N: ToNodeDsp>(g: &Graph<N, Edge>, comp: &Vec<Option<usize>>, arr: &Arrivals, c: usize) -> (list: Vec<
    usize,
>)
    requires
        region::labels(*g, comp@),
        lists_arrivals(*g, arr@),
        c < comp@.len(),
    ensures
        forall|y: usize| #[trigger] list@.contains(y) <==> region::reads_from(*g)(c, y),
        forall|k: int| 0 <= k < list@.len() ==> #[trigger] list@[k] < comp@.len(),
{
    let count: usize = comp.len();
    let mut list: Vec<usize> = Vec::new();
    let mut n: usize = 0;
    while n < count
        invariant
            region::labels(*g, comp@),
            lists_arrivals(*g, arr@),
            count == comp@.len(),
            c < count,
            n <= count,
            forall|y: usize| #[trigger]
                list@.contains(y) <==> exists|m: usize|
                    m < n && #[trigger] region::region_of(*g, m) == Some(c) && reads_upto(
                        *g,
                        c,
                        m,
                        region::arrives(*g, m).len() as int,
                        y,
                    ),
            forall|k: int| 0 <= k < list@.len() ==> #[trigger] list@[k] < count,
        decreases count - n,
    {
        let mine = match comp[n] {
            Some(r) => r == c,
            None => false,
        };
        proof {
            region::lemma_labels(*g, comp@, n);
        }
        let ghost list0 = list@;
        if mine {
            let a = &arr[n];
            assert(a@ == region::arrives(*g, n));
            let mut k: usize = 0;
            while k < a.len()
                invariant
                    region::labels(*g, comp@),
                    count == comp@.len(),
                    a@ == region::arrives(*g, n),
                    k <= a@.len(),
                    forall|y: usize| #[trigger]
                        list@.contains(y) <==> list0.contains(y) || reads_upto(
                            *g,
                            c,
                            n,
                            k as int,
                            y,
                        ),
                    forall|k: int| 0 <= k < list@.len() ==> #[trigger] list@[k] < count,
                decreases a@.len() - k,
            {
                let ghost before = list@;
                let x = a[k];
                let w: Option<usize> = if x.1.0 < count {
                    comp[x.1.0]
                } else {
                    None
                };
                proof {
                    region::lemma_labels(*g, comp@, x.1.0);
                }
                let mut pushed: Option<usize> = None;
                if x.0.is_some() {
                    if let Some(wr) = w {
                        if wr != c {
                            proof {
                                lemma_region_in_range(*g, comp@, x.1.0);
                            }
                            list.push(wr);
                            pushed = Some(wr);
                        }
                    }
                }
                proof {
                    assert(region::arrives(*g, n)[k as int] == x);
                    assert forall|y: usize| #[trigger]
                        list@.contains(y) <==> list0.contains(y) || reads_upto(
                            *g,
                            c,
                            n,
                            k + 1,
                            y,
                        ) by {
                        let here = pushed == Some(y);
                        assert(here == (region::foreign(*g, c, region::arrives(*g, n)[k as int])
                            && region::region_of(*g, region::arrives(*g, n)[k as int].1.0) == Some(
                            y,
                        )));
                        assert(reads_upto(*g, c, n, k + 1, y) == (reads_upto(
                            *g,
                            c,
                            n,
                            k as int,
                            y,
                        ) || here)) by {
                            if reads_upto(*g, c, n, k + 1, y) {
                                let j = choose|j: int|
                                    0 <= j < k + 1 && region::foreign(
                                        *g,
                                        c,
                                        #[trigger] region::arrives(*g, n)[j],
                                    ) && region::region_of(*g, region::arrives(*g, n)[j].1.0)
                                        == Some(y);
                                if j < k {
                                    assert(reads_upto(*g, c, n, k as int, y));
                                }
                            }
                        }
                        if pushed is Some {
                            assert(list@ == before.push(pushed->0));
                            if before.contains(y) {
                                let j = choose|j: int| 0 <= j < before.len() && before[j] == y;
                                assert(list@[j] == y);
                            }
                            if here {
                                assert(list@[before.len() as int] == y);
                            }
                            if list@.contains(y) {
                                let j = choose|j: int| 0 <= j < list@.len() && list@[j] == y;
                                if j < before.len() {
                                    assert(before[j] == y);
                                }
                            }
                        }
                    }
                }
                k = k + 1;
            }
        }
        proof {
            assert forall|y: usize| #[trigger]
                list@.contains(y) <==> exists|m: usize|
                    m < n + 1 && #[trigger] region::region_of(*g, m) == Some(c) && reads_upto(
                        *g,
                        c,
                        m,
                        region::arrives(*g, m).len() as int,
                        y,
                    ) by {
                let here = mine && reads_upto(
                    *g,
                    c,
                    n,
                    region::arrives(*g, n).len() as int,
                    y,
                );
                assert(list@.contains(y) <==> list0.contains(y) || here);
                if here {
                    assert(region::region_of(*g, n) == Some(c));
                }
            }
        }
        n = n + 1;
    }
    proof {
        assert forall|y: usize| #[trigger] list@.contains(y) <==> region::reads_from(*g)(c, y) by {
            if list@.contains(y) {
                let m = choose|m: usize|
                    m < n && #[trigger] region::region_of(*g, m) == Some(c) && reads_upto(
                        *g,
                        c,
                        m,
                        region::arrives(*g, m).len() as int,
                        y,
                    );
                let j = choose|j: int|
                    0 <= j < region::arrives(*g, m).len() && region::foreign(
                        *g,
                        c,
                        #[trigger] region::arrives(*g, m)[j],
                    ) && region::region_of(*g, region::arrives(*g, m)[j].1.0) == Some(y);
                assert(region::inner(*g, m));
                assert(region::reads_from(*g)(c, y));
            }
            if region::reads_from(*g)(c, y) {
                let (m, j) = choose|m: usize, j: int|
                    region::inner(*g, m) && region::region_of(*g, m) == Some(c) && 0 <= j
                        < region::arrives(*g, m).len() && region::foreign(
                        *g,
                        c,
                        #[trigger] region::arrives(*g, m)[j],
                    ) && region::region_of(*g, region::arrives(*g, m)[j].1.0) == Some(y);
                assert(m < count);
                assert(reads_upto(*g, c, m, region::arrives(*g, m).len() as int, y));
            }
        }
    }
    list
}

/// Which regions hold a sink or write, directly or through others, what such a
/// region reads.
pub fn wanted_regions<N: ToNodeDsp>(
    g: &Graph<N, Edge>,
    comp: &Vec<Option<usize>>,
    cdeps: &Vec<Vec<usize>>,
    sinks: &Vec<usize>,
) -> (r: Vec<bool>)
    requires
        region::labels(*g, comp@),
        cdeps@.len() == g.nodes@.len(),
        topo::depends(topo::views(cdeps@)) == region::reads_from(*g),
        topo::in_range(topo::views(cdeps@)),
        sinks@ == flow::sinks(*g),
    ensures
        r@.len() == g.nodes@.len(),
        forall|c: usize| c < r@.len() ==> #[trigger] r@[c as int] == region::wanted(*g, c),
        forall|c: usize| #[trigger] region::wanted(*g, c) ==> c < r@.len(),
{
    let ghost step = region::reads_from(*g);
    let mut seeds: Vec<usize> = Vec::new();
    let mut i: usize = 0;
    while i < sinks.len()
        invariant
            region::labels(*g, comp@),
            sinks@ == flow::sinks(*g),
            i <= sinks@.len(),
            forall|k: int| 0 <= k < seeds@.len() ==> #[trigger] seeds@[k] < comp@.len(),
            forall|k: int|
                0 <= k < seeds@.len() ==> exists|j: int|
                    0 <= j < i && region::region_of(*g, #[trigger] flow::sinks(*g)[j]) == Some(
                        #[trigger] seeds@[k],
                    ),
            forall|j: int|
                0 <= j < i && region::region_of(*g, #[trigger] flow::sinks(*g)[j]) is Some
                    ==> seeds@.contains(region::region_of(*g, flow::sinks(*g)[j])->0),
        decreases sinks@.len() - i,
    {
        let s: usize = sinks[i];
        let ghost before = seeds@;
        proof {
            region::lemma_labels(*g, comp@, s);
        }
        let c: Option<usize> = if s < comp.len() {
            comp[s]
        } else {
            None
        };
        if let Some(l) = c {
            proof {
                lemma_region_in_range(*g, comp@, s);
            }
            seeds.push(l);
            proof {
                assert(seeds@[before.len() as int] == l);
                assert forall|j: int|
                    0 <= j < i + 1 && region::region_of(*g, #[trigger] flow::sinks(*g)[j]) is Some
                    implies seeds@.contains(region::region_of(*g, flow::sinks(*g)[j])->0) by {
                    if j < i {
                        let x = region::region_of(*g, flow::sinks(*g)[j])->0;
                        assert(before.contains(x));
                        let k = choose|k: int| 0 <= k < before.len() && before[k] == x;
                        assert(seeds@[k] == x);
                    }
                }
                assert forall|k: int| 0 <= k < seeds@.len() implies exists|j: int|
                    0 <= j < i + 1 && region::region_of(*g, #[trigger] flow::sinks(*g)[j]) == Some(
                        #[trigger] seeds@[k],
                    ) by {
                    if k < before.len() {
                        assert(seeds@[k] == before[k]);
                        let j = choose|j: int|
                            0 <= j < i && region::region_of(*g, #[trigger] flow::sinks(*g)[j])
                                == Some(before[k]);
                        assert(region::region_of(*g, flow::sinks(*g)[j]) == Some(seeds@[k]));
                    } else {
                        assert(region::region_of(*g, flow::sinks(*g)[i as int]) == Some(seeds@[k]));
                    }
                }
            }
        }
        i = i + 1;
    }
    proof {
        assert(topo::views(cdeps@).len() == cdeps@.len());
    }
    let list = topo::post_order(cdeps, &seeds);
    let r = region::flags(cdeps.len(), &list);
    proof {
        assert forall|c: usize| #[trigger] list@.contains(c) <==> region::wanted(*g, c) by {
            if list@.contains(c) {
                let k = choose|k: int|
                    0 <= k < seeds@.len() && #[trigger] walk::reaches(step, seeds@[k], c);
                let j = choose|j: int|
                    0 <= j < i && region::region_of(*g, #[trigger] flow::sinks(*g)[j]) == Some(
                        seeds@[k],
                    );
                assert(region::wanted(*g, c));
            }
            if region::wanted(*g, c) {
                let j = choose|j: int|
                    0 <= j < flow::sinks(*g).len() && region::region_of(
                        *g,
                        #[trigger] flow::sinks(*g)[j],
                    ) is Some && walk::reaches(
                        step,
                        region::region_of(*g, flow::sinks(*g)[j])->0,
                        c,
                    );
                let x = region::region_of(*g, flow::sinks(*g)[j])->0;
                assert(seeds@.contains(x));
                let k = choose|k: int| 0 <= k < seeds@.len() && seeds@[k] == x;
                assert(walk::reaches(step, seeds@[k], c));
                assert(topo::needed(topo::views(cdeps@), seeds@, c));
            }
        }
        assert forall|c: usize| #[trigger] region::wanted(*g, c) implies c < r@.len() by {
            assert(list@.contains(c));
            let k = choose|k: int|
                0 <= k < seeds@.len() && #[trigger] walk::reaches(step, seeds@[k], c);
            let s = |x: usize| x < cdeps@.len();
            assert forall|x: usize, y: usize| s(x) && #[trigger] step(x, y) implies s(y) by {
                assert(topo::depends(topo::views(cdeps@))(x, y));
                let v = topo::views(cdeps@);
                let q = choose|q: int| 0 <= q < v[x as int].len() && v[x as int][q] == y;
                assert(v[x as int][q] < v.len());
            }
            walk::lemma_closed(step, s, seeds@[k], c);
        }
    }
    r
}

/// What wanted regions read from is wanted.
proof fn lemma_wanted_step<N: ToNodeDsp>(g: Graph<N, Edge>, r: usize, w: usize)
    requires
        region::wanted(g, r),
        region::reads_from(g)(r, w),
    ensures
        region::wanted(g, w),
{
    let k = choose|k: int|
        0 <= k < flow::sinks(g).len() && region::region_of(g, #[trigger] flow::sinks(g)[k]) is Some
            && walk::reaches(
            region::reads_from(g),
            region::region_of(g, flow::sinks(g)[k])->0,
            r,
        );
    walk::lemma_reaches_step(
        region::reads_from(g),
        region::region_of(g, flow::sinks(g)[k])->0,
        r,
        w,
    );
    assert(region::region_of(g, flow::sinks(g)[k]) is Some);
}

/// Where regions are stuck, each waiting for another of them, there is a cycle.
proof fn lemma_stuck<N: ToNodeDsp>(
    g: Graph<N, Edge>,
    placed: Seq<usize>,
    rank: spec_fn(usize) -> nat,
    c: usize,
)
    requires
        forall|x: usize| !#[trigger] region::ready(g, placed, x),
        region::wanted(g, c),
        !placed.contains(c),
    ensures
        !region::bus_ranked(g, rank),
    decreases rank(c),
{
    assert(!region::ready(g, placed, c));
    let w = choose|w: usize| #[trigger] region::reads_from(g)(c, w) && !placed.contains(w);
    assert(region::reads_from(g)(c, w) && !placed.contains(w));
    if region::bus_ranked(g, rank) {
        lemma_wanted_step(g, c, w);
        assert(rank(w) < rank(c));
        lemma_stuck(g, placed, rank, w);
    }
}

/// An order that places every wanted region behind those it reads from leaves no
/// cycle.
/// Regions that are listed writers first form no cycle, and none is listed twice.
pub proof fn lemma_ordered<N: ToNodeDsp>(g: Graph<N, Edge>, order: Seq<usize>)
    requires
        region::writers_first(g, order),
        forall|c: usize| #[trigger] region::wanted(g, c) ==> order.contains(c),
    ensures
        region::no_bus_cycle(g),
        order.no_duplicates(),
{
    assert forall|i: int, j: int| 0 <= i < order.len() && 0 <= j < order.len() && i != j
        implies order[i] != order[j] by {
        if order[i] == order[j] {
            let (a, b) = if i < j {
                (i, j)
            } else {
                (j, i)
            };
            assert(region::ready(g, order.take(b), order[b]));
            assert(order.take(b)[a] == order[b]);
        }
    }
    let rank = |c: usize| order.index_of(c) as nat;
    assert forall|r: usize, w: usize| #[trigger]
        region::reads_from(g)(r, w) && region::wanted(g, r) implies rank(w) < rank(r) by {
        let k = order.index_of(r);
        assert(order.contains(r));
        assert(order[k] == r);
        assert(region::ready(g, order.take(k), order[k]));
        assert(order.take(k).contains(w));
        let j = choose|j: int| 0 <= j < order.take(k).len() && order.take(k)[j] == w;
        assert(order[j] == w);
        assert(order.contains(w));
        assert(order[order.index_of(w)] == w);
        assert(order.index_of(w) == j);
    }
    assert(region::bus_ranked(g, rank));
}

/// Whether all of `list` are marked.
fn all_marked(list: &Vec<usize>, placed: &Vec<bool>) -> (r: bool)
    requires
        forall|k: int| 0 <= k < list@.len() ==> #[trigger] list@[k] < placed@.len(),
    ensures
        r == forall|w: usize| #[trigger] list@.contains(w) ==> placed@[w as int],
{
    let mut i: usize = 0;
    while i < list.len()
        invariant
            forall|k: int| 0 <= k < list@.len() ==> #[trigger] list@[k] < placed@.len(),
            i <= list@.len(),
            forall|k: int| 0 <= k < i ==> placed@[#[trigger] list@[k] as int],
        decreases list@.len() - i,
    {
        if !placed[list[i]] {
            assert(list@.contains(list@[i as int]));
            return false;
        }
        i = i + 1;
    }
    proof {
        assert forall|w: usize| #[trigger] list@.contains(w) implies placed@[w as int] by {
            let k = choose|k: int| 0 <= k < list@.len() && list@[k] == w;
            assert(placed@[list@[k] as int]);
        }
    }
    true
}

/// The least region that can come next, if one can.
fn next_region<N: ToNodeDsp>(
    g: &Graph<N, Edge>,
    cdeps: &Vec<Vec<usize>>,
    want: &Vec<bool>,
    placed: &Vec<bool>,
    order: &Vec<usize>,
) -> (r: Option<usize>)
    requires
        cdeps@.len() == g.nodes@.len(),
        topo::depends(topo::views(cdeps@)) == region::reads_from(*g),
        topo::in_range(topo::views(cdeps@)),
        want@.len() == g.nodes@.len(),
        placed@.len() == g.nodes@.len(),
        forall|c: usize| c < want@.len() ==> #[trigger] want@[c as int] == region::wanted(*g, c),
        forall|c: usize| #[trigger] region::wanted(*g, c) ==> c < want@.len(),
        forall|c: usize| c < placed@.len() ==> #[trigger] placed@[c as int] == order@.contains(c),
    ensures
        match r {
            Some(c) => c < placed@.len() && region::ready(*g, order@, c) && forall|x: usize|
                x < c ==> !#[trigger] region::ready(*g, order@, x),
            None => forall|x: usize| !#[trigger] region::ready(*g, order@, x),
        },
{
    let mut c: usize = 0;
    while c < want.len()
        invariant
            cdeps@.len() == g.nodes@.len(),
            topo::depends(topo::views(cdeps@)) == region::reads_from(*g),
            topo::in_range(topo::views(cdeps@)),
            want@.len() == g.nodes@.len(),
            placed@.len() == g.nodes@.len(),
            forall|c: usize|
                c < want@.len() ==> #[trigger] want@[c as int] == region::wanted(*g, c),
            forall|c: usize|
                c < placed@.len() ==> #[trigger] placed@[c as int] == order@.contains(c),
            c <= want@.len(),
            forall|x: usize| x < c ==> !#[trigger] region::ready(*g, order@, x),
        decreases want@.len() - c,
    {
        let ghost v = topo::views(cdeps@);
        proof {
            assert(v[c as int] == cdeps@[c as int]@);
            assert forall|k: int| 0 <= k < cdeps@[c as int]@.len() implies #[trigger] cdeps@[c as int]@[k]
                < placed@.len() by {
                assert(v[c as int][k] < v.len());
            }
        }
        let done = all_marked(&cdeps[c], placed);
        proof {
            assert forall|w: usize| cdeps@[c as int]@.contains(w) == #[trigger] region::reads_from(
                *g,
            )(c, w) by {
                assert(topo::depends(v)(c, w) == region::reads_from(*g)(c, w));
            }
            assert(done == forall|w: usize| #[trigger]
                region::reads_from(*g)(c, w) ==> order@.contains(w)) by {
                if done {
                    assert forall|w: usize| #[trigger]
                        region::reads_from(*g)(c, w) implies order@.contains(w) by {
                        assert(cdeps@[c as int]@.contains(w));
                        assert(placed@[w as int]);
                        let k = choose|k: int|
                            0 <= k < cdeps@[c as int]@.len() && cdeps@[c as int]@[k] == w;
                        assert(cdeps@[c as int]@[k] < placed@.len());
                    }
                } else {
                    let w = choose|w: usize| #[trigger]
                        cdeps@[c as int]@.contains(w) && !placed@[w as int];
                    assert(cdeps@[c as int]@.contains(w) && !placed@[w as int]);
                    let k = choose|k: int|
                        0 <= k < cdeps@[c as int]@.len() && cdeps@[c as int]@[k] == w;
                    assert(cdeps@[c as int]@[k] < placed@.len());
                    assert(region::reads_from(*g)(c, w) && !order@.contains(w));
                }
            }
        }
        if want[c] && !placed[c] && done {
            return Some(c);
        }
        c = c + 1;
    }
    None
}

/// The wanted regions in the order they are derived: whoever writes a bus before
/// whoever reads it, and of those that can come next always the least. `None`
/// where the buses form a cycle.
pub fn region_order<N: ToNodeDsp>(g: &Graph<N, Edge>, cdeps: &Vec<Vec<usize>>, want: &Vec<bool>) -> (r:
    Option<Vec<usize>>)
    requires
        cdeps@.len() == g.nodes@.len(),
        topo::depends(topo::views(cdeps@)) == region::reads_from(*g),
        topo::in_range(topo::views(cdeps@)),
        want@.len() == g.nodes@.len(),
        forall|c: usize| c < want@.len() ==> #[trigger] want@[c as int] == region::wanted(*g, c),
        forall|c: usize| #[trigger] region::wanted(*g, c) ==> c < want@.len(),
    ensures
        match r {
            Some(order) => region::writers_first(*g, order@) && region::no_bus_cycle(*g)
                && order@.no_duplicates() && forall|c: usize| #[trigger]
                region::wanted(*g, c) ==> order@.contains(c),
            None => !region::no_bus_cycle(*g),
        },
{
    let count: usize = want.len();
    let none: Vec<usize> = Vec::new();
    let mut order: Vec<usize> = Vec::new();
    let mut placed = region::flags(count, &none);
    loop
        invariant
            cdeps@.len() == g.nodes@.len(),
            topo::depends(topo::views(cdeps@)) == region::reads_from(*g),
            topo::in_range(topo::views(cdeps@)),
            want@.len() == g.nodes@.len(),
            count == want@.len(),
            placed@.len() == count,
            forall|c: usize|
                c < want@.len() ==> #[trigger] want@[c as int] == region::wanted(*g, c),
            forall|c: usize| #[trigger] region::wanted(*g, c) ==> c < want@.len(),
            forall|c: usize|
                c < placed@.len() ==> #[trigger] placed@[c as int] == order@.contains(c),
            region::writers_first(*g, order@),
        decreases topo::unseen(placed@),
    {
        match next_region(g, cdeps, want, &placed, &order) {
            Some(c) => {
                let ghost before = order@;
                proof {
                    assert(!placed@[c as int]);
                    topo::lemma_unseen_mark(placed@, c as int);
                }
                placed.set(c, true);
                order.push(c);
                proof {
                    assert forall|x: usize| x < placed@.len() implies #[trigger] placed@[x as int]
                        == order@.contains(x) by {
                        if before.contains(x) {
                            let k = choose|k: int| 0 <= k < before.len() && before[k] == x;
                            assert(order@[k] == x);
                        }
                        if x == c {
                            assert(order@[before.len() as int] == x);
                        }
                        if order@.contains(x) {
                            let k = choose|k: int| 0 <= k < order@.len() && order@[k] == x;
                            if k < before.len() {
                                assert(before[k] == x);
                            }
                        }
                    }
                    assert forall|k: int| 0 <= k < order@.len() implies region::ready(
                        *g,
                        order@.take(k),
                        #[trigger] order@[k],
                    ) && forall|x: usize|
                        x < order@[k] ==> !#[trigger] region::ready(*g, order@.take(k), x) by {
                        if k < before.len() {
                            assert(order@[k] == before[k]);
                            assert(order@.take(k) =~= before.take(k));
                        } else {
                            assert(order@.take(k) =~= before);
                        }
                    }
                }
            },
            None => {
                let mut i: usize = 0;
                while i < count
                    invariant
                        want@.len() == g.nodes@.len(),
                        count == want@.len(),
                        placed@.len() == count,
                        i <= count,
                        forall|c: usize|
                            c < want@.len() ==> #[trigger] want@[c as int] == region::wanted(
                                *g,
                                c,
                            ),
                        forall|c: usize|
                            c < placed@.len() ==> #[trigger] placed@[c as int] == order@.contains(
                                c,
                            ),
                        forall|x: usize| !#[trigger] region::ready(*g, order@, x),
                        forall|c: usize|
                            c < i && #[trigger] region::wanted(*g, c) ==> order@.contains(c),
                    decreases count - i,
                {
                    if want[i] && !placed[i] {
                        proof {
                            if region::no_bus_cycle(*g) {
                                let rank = choose|rank: spec_fn(usize) -> nat| #[trigger]
                                    region::bus_ranked(*g, rank);
                                lemma_stuck(*g, order@, rank, i);
                            }
                        }
                        return None;
                    }
                    i = i + 1;
                }
                proof {
                    lemma_ordered(*g, order@);
                }
                return Some(order);
            },
        }
    }
}

} // verus!
