//! Network coordinates: a spring relaxation that places nodes so that distances approach measured
//! round-trip times. The same nodes, edges and seed give the same layout.

use crate::api::{MeshEdge, MeshEdgeView, NodeId};
use crate::binary64::Binary64;
use crate::prng::{self, Mulberry32};
use crate::roster;
use crate::text;
use vstd::prelude::*;

verus! {

/// Tuning of the relaxation.
#[derive(Debug, Clone, Copy)]
pub struct EmbeddingOptions {
    /// Number of coordinates per node.
    pub dimensions: usize,
    /// Relaxation sweeps.
    pub iterations: usize,
    /// Fraction of the error that the first sweep corrects.
    pub initial_step: Binary64,
    /// Fraction that the last sweep corrects.
    pub min_step: Binary64,
    /// Layout seed.
    pub seed: u32,
}

impl EmbeddingOptions {
    pub open spec fn standard(self) -> bool {
        &&& self.dimensions == 2
        &&& self.iterations == 300
        &&& self.initial_step == Binary64::fraction(25, 100)
        &&& self.min_step == Binary64::fraction(1, 100)
        &&& self.seed == 1
    }

    /// At least one coordinate.
    pub open spec fn dims(self) -> nat {
        if self.dimensions > 1 {
            self.dimensions as nat
        } else {
            1
        }
    }

    /// At least one sweep.
    pub open spec fn sweeps(self) -> nat {
        if self.iterations > 1 {
            self.iterations as nat
        } else {
            1
        }
    }

    /// The step of sweep `it`, which falls linearly from the first to the last.
    pub open spec fn step(self, it: int) -> Binary64 {
        let last = if self.sweeps() > 2 { self.sweeps() - 1 } else { 1 };
        self.initial_step.minus(
            self.initial_step.minus(self.min_step).times(
                Binary64::fraction(it, 1).over(Binary64::fraction(last, 1)),
            ),
        )
    }
}

impl Default for EmbeddingOptions {
    fn default() -> (r: EmbeddingOptions)
        ensures
            r.standard(),
    {
        EmbeddingOptions {
            dimensions: 2,
            iterations: 300,
            initial_step: Binary64::ratio(25, 100),
            min_step: Binary64::ratio(1, 100),
            seed: 1,
        }
    }
}

/// Half, the offset of the initial layout and of the nudge that parts coincident points.
pub open spec fn half() -> Binary64 {
    Binary64::fraction(1, 2)
}

/// The sum of squared differences of the first `n` coordinates.
pub open spec fn squares(a: Seq<Binary64>, b: Seq<Binary64>, n: nat) -> Binary64
    decreases n,
{
    if n == 0 {
        Binary64::zero()
    } else {
        let d = a[n - 1].minus(b[n - 1]);
        squares(a, b, (n - 1) as nat).plus(d.times(d))
    }
}

/// Euclidean distance.
pub open spec fn distance(a: Seq<Binary64>, b: Seq<Binary64>) -> Binary64 {
    squares(a, b, a.len()).root()
}

/// The sum of round-trip times.
pub open spec fn rtt_sum(edges: Seq<MeshEdgeView>) -> Binary64
    decreases edges.len(),
{
    if edges.len() == 0 {
        Binary64::zero()
    } else {
        rtt_sum(edges.drop_last()).plus(edges.last().rtt_ms)
    }
}

/// The mean round-trip time; 50 without edges.
pub open spec fn mean_rtt(edges: Seq<MeshEdgeView>) -> Binary64 {
    if edges.len() > 0 {
        rtt_sum(edges).over(Binary64::fraction(edges.len() as int, 1))
    } else {
        Binary64::fraction(50, 1)
    }
}

/// The generator's state after `n` draws.
pub open spec fn state_after(seed: u32, n: nat) -> u32
    decreases n,
{
    if n == 0 {
        seed
    } else {
        prng::advance(state_after(seed, (n - 1) as nat))
    }
}

/// The initial coordinate that the `n`-th draw gives.
pub open spec fn initial_coordinate(seed: u32, n: nat, mean: Binary64) -> Binary64 {
    prng::drawn(state_after(seed, n + 1)).minus(half()).times(mean)
}

/// The initial layout: draws in order of nodes, then coordinates.
pub open spec fn initial_layout(count: nat, dims: nat, seed: u32, mean: Binary64) -> Seq<Seq<Binary64>> {
    Seq::new(
        count,
        |i: int| Seq::new(dims, |k: int| initial_coordinate(seed, (i * dims + k) as nat, mean)),
    )
}

/// A spring between two nodes.
pub struct SpringView {
    pub i: int,
    pub j: int,
    /// The round-trip time that the distance should approach.
    pub rest: Binary64,
    /// How far the measurement is trusted.
    pub confidence: Binary64,
}

/// The trust in a measurement with the given number of samples.
pub open spec fn confidence(samples: u64) -> Binary64 {
    if samples > 0 {
        let s = Binary64::fraction(samples as int, 1);
        s.over(s.plus(Binary64::fraction(4, 1)))
    } else {
        Binary64::fraction(25, 100)
    }
}

/// The springs between listed nodes, in order of edges.
pub open spec fn springs(ids: Seq<Seq<char>>, edges: Seq<MeshEdgeView>) -> Seq<SpringView>
    decreases edges.len(),
{
    if edges.len() == 0 {
        Seq::empty()
    } else {
        let before = springs(ids, edges.drop_last());
        let e = edges.last();
        match (roster::position(ids, e.a), roster::position(ids, e.b)) {
            (Some(i), Some(j)) => if i == j {
                before
            } else {
                before.push(
                    SpringView {
                        i,
                        j,
                        rest: e.rtt_ms.greater_of(Binary64::fraction(1, 1000)),
                        confidence: confidence(e.samples),
                    },
                )
            },
            _ => before,
        }
    }
}

/// The layout after one spring has acted.
pub open spec fn pulled(pos: Seq<Seq<Binary64>>, s: SpringView, step: Binary64, dims: nat) -> Seq<Seq<Binary64>> {
    let a = pos[s.i];
    let b = pos[s.j];
    let d = distance(a, b);
    if d.less(Binary64::fraction(1, 1_000_000_000)) {
        let axis = (s.i + s.j) % dims as int;
        pos.update(s.i, a.update(axis, a[axis].minus(half()))).update(s.j, b.update(axis, b[axis].plus(half())))
    } else {
        let force = step.times(s.confidence).times(d.minus(s.rest));
        pos.update(s.i, Seq::new(dims, |k: int| a[k].minus(force.times(a[k].minus(b[k]).over(d))))).update(
            s.j,
            Seq::new(dims, |k: int| b[k].plus(force.times(a[k].minus(b[k]).over(d)))),
        )
    }
}

/// The layout after the first `n` springs have acted in turn.
pub open spec fn swept(
    pos: Seq<Seq<Binary64>>,
    springs: Seq<SpringView>,
    step: Binary64,
    dims: nat,
    n: nat,
) -> Seq<Seq<Binary64>>
    decreases n,
{
    if n == 0 {
        pos
    } else {
        pulled(swept(pos, springs, step, dims, (n - 1) as nat), springs[n - 1], step, dims)
    }
}

/// The layout after `it` sweeps.
pub open spec fn relaxed(
    pos: Seq<Seq<Binary64>>,
    springs: Seq<SpringView>,
    options: EmbeddingOptions,
    it: nat,
) -> Seq<Seq<Binary64>>
    decreases it,
{
    if it == 0 {
        pos
    } else {
        swept(
            relaxed(pos, springs, options, (it - 1) as nat),
            springs,
            options.step(it - 1),
            options.dims(),
            springs.len(),
        )
    }
}

/// The layout of distinct ids.
pub open spec fn layout(ids: Seq<Seq<char>>, edges: Seq<MeshEdgeView>, options: EmbeddingOptions) -> Seq<Seq<Binary64>> {
    relaxed(
        initial_layout(ids.len(), options.dims(), options.seed, mean_rtt(edges)),
        springs(ids, edges),
        options,
        options.sweeps(),
    )
}

/// Coordinate lists as sequences.
pub open spec fn vectors(s: Seq<Vec<Binary64>>) -> Seq<Seq<Binary64>> {
    s.map_values(|v: Vec<Binary64>| v@)
}

/// Euclidean distance between two coordinates of equal length.
pub fn vec_distance(a: &Vec<Binary64>, b: &Vec<Binary64>) -> (r: Binary64)
    requires
        a.len() == b.len(),
    ensures
        r == distance(a@, b@),
{
    let mut sum = Binary64 { bits: 0 };
    for i in 0..a.len()
        invariant
            a.len() == b.len(),
            sum == squares(a@, b@, i as nat),
    {
        let d = a[i].sub(b[i]);
        sum = sum.add(d.mul(d));
    }
    sum.sqrt()
}

struct Spring {
    i: usize,
    j: usize,
    rest: Binary64,
    confidence: Binary64,
}

spec fn spring_view(s: Spring) -> SpringView {
    SpringView { i: s.i as int, j: s.j as int, rest: s.rest, confidence: s.confidence }
}

spec fn spring_views(s: Seq<Spring>) -> Seq<SpringView> {
    s.map_values(|x: Spring| spring_view(x))
}

fn find_springs(ids: &Vec<String>, edges: &[MeshEdge]) -> (r: Vec<Spring>)
    ensures
        spring_views(r@) == springs(text::texts(ids@), edges@.map_values(|e: MeshEdge| e@)),
        forall|n: int|
            0 <= n < r.len() ==> (#[trigger] r@[n]).i < ids.len() && r@[n].j < ids.len() && r@[n].i != r@[n].j,
{
    let ghost all = edges@.map_values(|e: MeshEdge| e@);
    let ghost names = text::texts(ids@);
    let mut r: Vec<Spring> = Vec::new();
    proof {
        assert(spring_views(r@) =~= springs(names, all.take(0)));
    }
    for n in 0..edges.len()
        invariant
            all == edges@.map_values(|e: MeshEdge| e@),
            names == text::texts(ids@),
            spring_views(r@) == springs(names, all.take(n as int)),
            forall|k: int|
                0 <= k < r.len() ==> (#[trigger] r@[k]).i < ids.len() && r@[k].j < ids.len() && r@[k].i != r@[k].j,
    {
        let e = &edges[n];
        proof {
            assert(all.take(n + 1).drop_last() =~= all.take(n as int));
            assert(all.take(n + 1).last() == e@);
        }
        match (roster::find(ids, e.a.as_str()), roster::find(ids, e.b.as_str())) {
            (Some(i), Some(j)) => {
                if i != j {
                    let confidence = if e.samples > 0 {
                        let s = Binary64::from_u64(e.samples);
                        s.div(s.add(Binary64::from_u64(4)))
                    } else {
                        Binary64::ratio(25, 100)
                    };
                    let s = Spring { i, j, rest: e.rtt_ms.max(Binary64::ratio(1, 1000)), confidence };
                    let ghost before = spring_views(r@);
                    r.push(s);
                    proof {
                        assert(spring_views(r@) =~= before.push(spring_view(s)));
                    }
                }
            },
            _ => {},
        }
    }
    proof {
        assert(all.take(edges.len() as int) =~= all);
    }
    r
}

/// Lets one spring act on the layout.
fn pull(pos: &mut Vec<Vec<Binary64>>, s: &Spring, step: Binary64, dims: usize)
    requires
        dims > 0,
        s.i < old(pos).len(),
        s.j < old(pos).len(),
        s.i != s.j,
        forall|n: int| 0 <= n < old(pos).len() ==> (#[trigger] old(pos)@[n]).len() == dims,
    ensures
        vectors(final(pos)@) == pulled(vectors(old(pos)@), spring_view(*s), step, dims as nat),
        final(pos).len() == old(pos).len(),
        forall|n: int| 0 <= n < final(pos).len() ==> (#[trigger] final(pos)@[n]).len() == dims,
{
    let ghost start = vectors(pos@);
    let ghost a = pos@[s.i as int]@;
    let ghost b = pos@[s.j as int]@;
    let half = Binary64::ratio(1, 2);
    let d = vec_distance(&pos[s.i], &pos[s.j]);
    let mut p: Vec<Binary64> = Vec::new();
    let mut q: Vec<Binary64> = Vec::new();
    if d.lt(Binary64::ratio(1, 1_000_000_000)) {
        let axis: usize = ((s.i as u128 + s.j as u128) % dims as u128) as usize;
        for k in 0..dims
            invariant
                pos@ == old(pos)@,
                s.i < pos.len(),
                s.j < pos.len(),
                a == pos@[s.i as int]@,
                b == pos@[s.j as int]@,
                a.len() == dims,
                b.len() == dims,
                axis < dims,
                half == self::half(),
                p.len() == k,
                q.len() == k,
                forall|n: int| 0 <= n < k ==> #[trigger] p@[n] == if n == axis { a[n].minus(half) } else { a[n] },
                forall|n: int| 0 <= n < k ==> #[trigger] q@[n] == if n == axis { b[n].plus(half) } else { b[n] },
        {
            let x = pos[s.i][k];
            let y = pos[s.j][k];
            p.push(if k == axis { x.sub(half) } else { x });
            q.push(if k == axis { y.add(half) } else { y });
        }
        proof {
            assert(p@ =~= a.update(axis as int, a[axis as int].minus(half)));
            assert(q@ =~= b.update(axis as int, b[axis as int].plus(half)));
        }
    } else {
        let force = step.mul(s.confidence).mul(d.sub(s.rest));
        for k in 0..dims
            invariant
                pos@ == old(pos)@,
                s.i < pos.len(),
                s.j < pos.len(),
                a == pos@[s.i as int]@,
                b == pos@[s.j as int]@,
                a.len() == dims,
                b.len() == dims,
                p.len() == k,
                q.len() == k,
                forall|n: int|
                    0 <= n < k ==> #[trigger] p@[n] == a[n].minus(force.times(a[n].minus(b[n]).over(d))),
                forall|n: int|
                    0 <= n < k ==> #[trigger] q@[n] == b[n].plus(force.times(a[n].minus(b[n]).over(d))),
        {
            let x = pos[s.i][k];
            let y = pos[s.j][k];
            let unit = x.sub(y).div(d);
            p.push(x.sub(force.mul(unit)));
            q.push(y.add(force.mul(unit)));
        }
        proof {
            assert(p@ =~= Seq::new(dims as nat, |k: int| a[k].minus(force.times(a[k].minus(b[k]).over(d)))));
            assert(q@ =~= Seq::new(dims as nat, |k: int| b[k].plus(force.times(a[k].minus(b[k]).over(d)))));
        }
    }
    pos.set(s.i, p);
    pos.set(s.j, q);
    proof {
        assert(vectors(pos@) =~= start.update(s.i as int, p@).update(s.j as int, q@));
    }
}

fn find_mean_rtt(edges: &[MeshEdge]) -> (r: Binary64)
    ensures
        r == mean_rtt(edges@.map_values(|e: MeshEdge| e@)),
{
    let ghost all = edges@.map_values(|e: MeshEdge| e@);
    if edges.len() == 0 {
        return Binary64::from_u64(50);
    }
    let mut sum = Binary64 { bits: 0 };
    for n in 0..edges.len()
        invariant
            all == edges@.map_values(|e: MeshEdge| e@),
            sum == rtt_sum(all.take(n as int)),
    {
        proof {
            assert(all.take(n + 1).drop_last() =~= all.take(n as int));
            assert(all.take(n + 1).last() == edges@[n as int]@);
        }
        sum = sum.add(edges[n].rtt_ms);
    }
    proof {
        assert(all.take(edges.len() as int) =~= all);
    }
    sum.div(Binary64::from_u64(edges.len() as u64))
}

fn find_initial_layout(count: usize, dims: usize, seed: u32, mean: Binary64) -> (pos: Vec<Vec<Binary64>>)
    ensures
        vectors(pos@) == initial_layout(count as nat, dims as nat, seed, mean),
        pos.len() == count,
        forall|n: int| 0 <= n < pos.len() ==> (#[trigger] pos@[n]).len() == dims,
{
    let half = Binary64::ratio(1, 2);
    let mut rand = Mulberry32::new(seed);
    let mut pos: Vec<Vec<Binary64>> = Vec::new();
    proof {
        vstd::arithmetic::mul::lemma_mul_basics(dims as int);
    }
    for i in 0..count
        invariant
            half == self::half(),
            rand@ == state_after(seed, (i * dims) as nat),
            pos.len() == i,
            forall|n: int| 0 <= n < i ==> (#[trigger] pos@[n]).len() == dims,
            forall|n: int| 0 <= n < i ==> (#[trigger] pos@[n])@ == initial_layout(count as nat, dims as nat, seed, mean)[n],
    {
        let mut v: Vec<Binary64> = Vec::new();
        for k in 0..dims
            invariant
                half == self::half(),
                rand@ == state_after(seed, (i * dims + k) as nat),
                v.len() == k,
                forall|n: int|
                    0 <= n < k ==> #[trigger] v@[n] == initial_coordinate(seed, (i * dims + n) as nat, mean),
        {
            proof {
                vstd::arithmetic::mul::lemma_mul_nonnegative(i as int, dims as int);
            }
            v.push(rand.next().sub(half).mul(mean));
        }
        proof {
            assert((i + 1) * dims == i * dims + dims) by (nonlinear_arith);
            assert(v@ =~= initial_layout(count as nat, dims as nat, seed, mean)[i as int]);
        }
        pos.push(v);
    }
    proof {
        assert(vectors(pos@) =~= initial_layout(count as nat, dims as nat, seed, mean));
    }
    pos
}

/// The layout of distinct ids.
pub(crate) fn lay_out(ids: &Vec<String>, edges: &[MeshEdge], options: &EmbeddingOptions) -> (pos: Vec<Vec<Binary64>>)
    ensures
        vectors(pos@) == layout(text::texts(ids@), edges@.map_values(|e: MeshEdge| e@), *options),
        pos.len() == ids.len(),
        forall|n: int| 0 <= n < pos.len() ==> (#[trigger] pos@[n]).len() == options.dims(),
{
    let dims: usize = if options.dimensions > 1 { options.dimensions } else { 1 };
    let sweeps: usize = if options.iterations > 1 { options.iterations } else { 1 };
    let mean = find_mean_rtt(edges);
    let mut pos = find_initial_layout(ids.len(), dims, options.seed, mean);
    let ghost start = vectors(pos@);
    let list = find_springs(ids, edges);
    let last: usize = if sweeps > 2 { sweeps - 1 } else { 1 };
    for it in 0..sweeps
        invariant
            dims == options.dims(),
            sweeps == options.sweeps(),
            last == if options.sweeps() > 2 { options.sweeps() - 1 } else { 1 },
            pos.len() == ids.len(),
            forall|n: int| 0 <= n < pos.len() ==> (#[trigger] pos@[n]).len() == dims,
            forall|n: int|
                0 <= n < list.len() ==> (#[trigger] list@[n]).i < ids.len() && list@[n].j < ids.len() && list@[n].i
                    != list@[n].j,
            vectors(pos@) == relaxed(start, spring_views(list@), *options, it as nat),
    {
        let step = options.initial_step.sub(
            options.initial_step.sub(options.min_step).mul(
                Binary64::from_u64(it as u64).div(Binary64::from_u64(last as u64)),
            ),
        );
        let ghost here = vectors(pos@);
        for n in 0..list.len()
            invariant
                dims == options.dims(),
                    pos.len() == ids.len(),
                forall|k: int| 0 <= k < pos.len() ==> (#[trigger] pos@[k]).len() == dims,
                forall|k: int|
                    0 <= k < list.len() ==> (#[trigger] list@[k]).i < ids.len() && list@[k].j < ids.len()
                        && list@[k].i != list@[k].j,
                vectors(pos@) == swept(here, spring_views(list@), step, dims as nat, n as nat),
        {
            pull(&mut pos, &list[n], step, dims);
        }
    }
    pos
}

/// Coordinates for every node. A node without edges still gets a seeded random coordinate, so the
/// result covers every node, each once, in order of first occurrence.
pub fn embed(nodes: &[NodeId], edges: &[MeshEdge], options: &EmbeddingOptions) -> (r: Vec<(NodeId, Vec<Binary64>)>)
    ensures
        ({
            let ids = roster::first_occurrences(text::texts(nodes@));
            &&& r.len() == ids.len()
            &&& forall|i: int|
                0 <= i < r.len() ==> (#[trigger] r@[i]).0@ == ids[i] && r@[i].1@ == layout(
                    ids,
                    edges@.map_values(|e: MeshEdge| e@),
                    *options,
                )[i]
        }),
{
    let ghost all = text::texts(nodes@);
    let mut ids: Vec<String> = Vec::new();
    proof {
        assert(text::texts(ids@) =~= roster::first_occurrences(all.take(0)));
    }
    for i in 0..nodes.len()
        invariant
            all == text::texts(nodes@),
            ids.len() <= i,
            text::texts(ids@) == roster::first_occurrences(all.take(i as int)),
    {
        let ghost before = text::texts(ids@);
        proof {
            assert(all.take(i + 1).drop_last() =~= all.take(i as int));
            assert(all.take(i + 1).last() == nodes@[i as int]@);
            roster::lemma_position(before, nodes@[i as int]@);
        }
        if roster::find(&ids, nodes[i].as_str()).is_none() {
            ids.push(nodes[i].clone());
            proof {
                assert(text::texts(ids@) =~= before.push(nodes@[i as int]@));
            }
        }
    }
    proof {
        assert(all.take(nodes.len() as int) =~= all);
    }
    let ghost names = text::texts(ids@);
    let pos = lay_out(&ids, edges, options);
    let ghost laid = vectors(pos@);
    let mut r: Vec<(NodeId, Vec<Binary64>)> = Vec::new();
    for i in 0..ids.len()
        invariant
            names == text::texts(ids@),
            laid == vectors(pos@),
            pos.len() == ids.len(),
            r.len() == i,
            forall|j: int| 0 <= j < i ==> (#[trigger] r@[j]).0@ == names[j] && r@[j].1@ == laid[j],
    {
        let mut v: Vec<Binary64> = Vec::new();
        let n: usize = pos[i].len();
        for k in 0..n
            invariant
                i < pos.len(),
                n == pos@[i as int].len(),
                v.len() == k,
                forall|j: int| 0 <= j < k ==> #[trigger] v@[j] == pos@[i as int]@[j],
        {
            v.push(pos[i][k]);
        }
        proof {
            assert(v@ =~= laid[i as int]);
        }
        r.push((ids[i].clone(), v));
    }
    r
}

// ---- laws ----

/// The coordinates of `count` nodes, each of the same length.
pub open spec fn shaped(pos: Seq<Seq<Binary64>>, count: nat, dims: nat) -> bool {
    &&& pos.len() == count
    &&& forall|i: int| 0 <= i < pos.len() ==> (#[trigger] pos[i]).len() == dims
}

proof fn lemma_springs_in_range(ids: Seq<Seq<char>>, edges: Seq<MeshEdgeView>)
    ensures
        forall|n: int|
            0 <= n < springs(ids, edges).len() ==> 0 <= (#[trigger] springs(ids, edges)[n]).i < ids.len() && 0
                <= springs(ids, edges)[n].j < ids.len(),
    decreases edges.len(),
{
    if edges.len() > 0 {
        lemma_springs_in_range(ids, edges.drop_last());
        roster::lemma_position(ids, edges.last().a);
        roster::lemma_position(ids, edges.last().b);
        let rest = springs(ids, edges.drop_last());
        let all = springs(ids, edges);
        assert forall|n: int| 0 <= n < all.len() implies 0 <= (#[trigger] all[n]).i < ids.len() && 0 <= all[n].j
            < ids.len() by {
            if n < rest.len() {
                assert(all[n] == rest[n]);
            }
        }
    }
}

proof fn lemma_swept_shaped(pos: Seq<Seq<Binary64>>, all: Seq<SpringView>, step: Binary64, count: nat, dims: nat, n: nat)
    requires
        shaped(pos, count, dims),
        dims > 0,
        n <= all.len(),
        forall|k: int| 0 <= k < all.len() ==> 0 <= (#[trigger] all[k]).i < count && 0 <= all[k].j < count,
    ensures
        shaped(swept(pos, all, step, dims, n), count, dims),
    decreases n,
{
    if n > 0 {
        lemma_swept_shaped(pos, all, step, count, dims, (n - 1) as nat);
        let s = all[n - 1];
        let axis = (s.i + s.j) % dims as int;
        assert(0 <= axis < dims);
    }
}

proof fn lemma_relaxed_shaped(
    pos: Seq<Seq<Binary64>>,
    all: Seq<SpringView>,
    options: EmbeddingOptions,
    count: nat,
    it: nat,
)
    requires
        shaped(pos, count, options.dims()),
        forall|k: int| 0 <= k < all.len() ==> 0 <= (#[trigger] all[k]).i < count && 0 <= all[k].j < count,
    ensures
        shaped(relaxed(pos, all, options, it), count, options.dims()),
    decreases it,
{
    if it > 0 {
        lemma_relaxed_shaped(pos, all, options, count, (it - 1) as nat);
        lemma_swept_shaped(
            relaxed(pos, all, options, (it - 1) as nat),
            all,
            options.step(it - 1),
            count,
            options.dims(),
            all.len(),
        );
    }
}

/// A layout covers every node, and gives each the same number of coordinates.
pub proof fn lemma_layout_shaped(ids: Seq<Seq<char>>, edges: Seq<MeshEdgeView>, options: EmbeddingOptions)
    ensures
        shaped(layout(ids, edges, options), ids.len(), options.dims()),
{
    lemma_springs_in_range(ids, edges);
    lemma_relaxed_shaped(
        initial_layout(ids.len(), options.dims(), options.seed, mean_rtt(edges)),
        springs(ids, edges),
        options,
        ids.len(),
        options.sweeps(),
    );
}

} // verus!
