use itertools::Itertools;
use vstd::prelude::*;

use crate::chance::random_u64;
use crate::forces::{is_jitter, repulse_force, repulse_spec, spring_force, spring_spec};
use crate::vec2::{Vec2, clamp, clamp_i128, div_toward_zero, minus_spec, plus_spec, tdiv, zero};
use crate::KeyPress;

verus! {

/// Two presses closer together than this many microseconds are linked by a spring.
pub const LINK_GAP: u32 = 200_000;

/// Exclusive upper bound of each coordinate of a freshly placed body.
pub const SPAWN_RANGE: u64 = 50_000;

/// A named point mass.
#[derive(Debug)]
pub struct Body {
    pub name: String,
    pub position: Vec2,
    pub speed: Vec2,
    pub force: Vec2,
}

impl Body {
    pub open spec fn wf(self) -> bool {
        self.position.wf() && self.speed.wf() && self.force.wf()
    }
}

/// The bodies, in order of first appearance of their names.
#[derive(Debug)]
pub struct Layout {
    pub bodies: Vec<Body>,
}

pub open spec fn names(bs: Seq<Body>) -> Seq<Seq<char>> {
    bs.map_values(|b: Body| b.name@)
}

pub open spec fn positions(bs: Seq<Body>) -> Seq<Vec2> {
    bs.map_values(|b: Body| b.position)
}

/// No two of the points coincide.
pub open spec fn distinct_points(ps: Seq<Vec2>) -> bool {
    forall|i: int, j: int| 0 <= i < ps.len() && 0 <= j < ps.len() && i != j ==> ps[i] != ps[j]
}

/// No two bodies stand on the same point.
pub open spec fn distinct_positions(bs: Seq<Body>) -> bool {
    distinct_points(positions(bs))
}

/// Index of the first occurrence of `key` at or after `i`, or -1.
pub open spec fn find_name(names: Seq<Seq<char>>, key: Seq<char>, i: int) -> int
    decreases names.len() - i,
{
    if i < 0 || i >= names.len() {
        -1
    } else if names[i] == key {
        i
    } else {
        find_name(names, key, i + 1)
    }
}

/// Names after registering the keys of `keys[k..]` in order, each new one appended.
pub open spec fn register_names(names: Seq<Seq<char>>, keys: Seq<KeyPress>, k: int) -> Seq<
    Seq<char>,
>
    decreases keys.len() - k,
{
    if k < 0 || k >= keys.len() {
        names
    } else {
        let key = keys[k].key@;
        let next = if names.contains(key) {
            names
        } else {
            names.push(key)
        };
        register_names(next, keys, k + 1)
    }
}

/// The body made for a name seen for the first time.
pub open spec fn spawned(name: String, position: Vec2) -> Body {
    Body { name, position, speed: zero(), force: zero() }
}

/// Adds `f` to the force on `i` and takes it from the force on `j`.
pub open spec fn apply_pair(fs: Seq<Vec2>, i: int, j: int, f: Vec2) -> Seq<Vec2> {
    let fs1 = fs.update(i, plus_spec(fs[i], f));
    fs1.update(j, minus_spec(fs1[j], f))
}

/// Every unordered pair of indices below `n` whose first index is at least `i`,
/// in lexicographic order.
pub open spec fn pairs_from(i: int, n: int) -> Seq<(usize, usize)>
    decreases n - i,
{
    if i < 0 || i >= n {
        Seq::empty()
    } else {
        Seq::new((n - i - 1) as nat, |k: int| (i as usize, (i + 1 + k) as usize)) + pairs_from(
            i + 1,
            n,
        )
    }
}

/// Force of the pair `(p, q)` on `p`: the drawn jitter `j` when they
/// coincide, else the inverse-square repulsion.
pub open spec fn pair_repulse(p: Vec2, q: Vec2, j: Vec2) -> Vec2 {
    if p == q {
        j
    } else {
        repulse_spec(p, q)
    }
}

/// Force of a spring from `p` to `q` on `p`: the drawn jitter `j` when they
/// coincide, else the spring force.
pub open spec fn pair_spring(p: Vec2, q: Vec2, j: Vec2) -> Vec2 {
    if p == q {
        j
    } else {
        spring_spec(p, q)
    }
}

/// `js` holds `n` jitter draws.
pub open spec fn jitters(js: Seq<Vec2>, n: int) -> bool {
    js.len() == n && forall|k: int| 0 <= k < js.len() ==> is_jitter(#[trigger] js[k])
}

/// Forces after repulsion over the first `k` pairs, `js[m]` being the jitter
/// drawn for pair `m` should it be coincident.
pub open spec fn repulse_upto(ps: Seq<Vec2>, f0: Seq<Vec2>, pairs: Seq<(usize, usize)>, js: Seq<Vec2>, k: int) -> Seq<Vec2>
    decreases k,
{
    if k <= 0 {
        f0
    } else {
        let prev = repulse_upto(ps, f0, pairs, js, k - 1);
        let (i, j) = pairs[k - 1];
        apply_pair(prev, i as int, j as int, pair_repulse(ps[i as int], ps[j as int], js[k - 1]))
    }
}

/// Two presses at these times are close enough to be linked.
pub open spec fn close(t1: u32, t2: u32) -> bool {
    t1 <= t2 && t2 - t1 < LINK_GAP
}

/// Number of adjacent press pairs in a history.
pub open spec fn link_count(keys: Seq<KeyPress>) -> int {
    if keys.len() > 1 {
        keys.len() - 1
    } else {
        0
    }
}

/// Forces after the spring between the bodies of presses `k` and `k + 1`, if
/// they are close in time. Two presses of one key would link a body to itself,
/// where action and reaction cancel: no force is added.
pub open spec fn spring_step(ps: Seq<Vec2>, names: Seq<Seq<char>>, keys: Seq<KeyPress>, j: Vec2, fs: Seq<Vec2>, k: int) -> Seq<Vec2> {
    let i1 = find_name(names, keys[k].key@, 0);
    let i2 = find_name(names, keys[k + 1].key@, 0);
    if close(keys[k].time, keys[k + 1].time) && i1 != i2 {
        apply_pair(fs, i1, i2, pair_spring(ps[i1], ps[i2], j))
    } else {
        fs
    }
}

/// Forces after the springs of the first `k` adjacent press pairs, `js[m]`
/// being the jitter drawn for pair `m` should its bodies coincide.
pub open spec fn spring_upto(ps: Seq<Vec2>, names: Seq<Seq<char>>, keys: Seq<KeyPress>, js: Seq<Vec2>, f0: Seq<Vec2>, k: int) -> Seq<Vec2>
    decreases k,
{
    if k <= 0 {
        f0
    } else {
        spring_step(ps, names, keys, js[k - 1], spring_upto(ps, names, keys, js, f0, k - 1), k - 1)
    }
}

/// Net force on each body: zero, then repulsion between all pairs, then
/// springs; `rj` and `sj` are the jitters drawn in each pass.
pub open spec fn net_forces(bs: Seq<Body>, keys: Seq<KeyPress>, rj: Seq<Vec2>, sj: Seq<Vec2>) -> Seq<Vec2> {
    let ps = positions(bs);
    let f0 = Seq::new(bs.len(), |i: int| zero());
    let pairs = pairs_from(0, bs.len() as int);
    let f1 = repulse_upto(ps, f0, pairs, rj, pairs.len() as int);
    spring_upto(ps, names(bs), keys, sj, f1, link_count(keys))
}

/// Velocity `(v + f * 0.01) * 0.9`, rounded toward zero and saturated.
pub open spec fn next_speed(v: Vec2, f: Vec2) -> Vec2 {
    Vec2 {
        x: clamp(tdiv(9 * (100 * v.x + f.x), 1000)) as i64,
        y: clamp(tdiv(9 * (100 * v.y + f.y), 1000)) as i64,
    }
}

/// Position `p + v * 0.01`, rounded toward zero and saturated.
pub open spec fn next_position(p: Vec2, v: Vec2) -> Vec2 {
    Vec2 { x: clamp(p.x + tdiv(v.x as int, 100)) as i64, y: clamp(p.y + tdiv(v.y as int, 100)) as i64 }
}

/// A body after one integration step under force `f`.
pub open spec fn advance(b: Body, f: Vec2) -> Body {
    let v = next_speed(b.speed, f);
    Body { name: b.name, position: next_position(b.position, v), speed: v, force: f }
}

/// `rj` and `sj` are possible draws of jitter for the repulsion pass and the
/// spring pass of a tick over `bs` and `keys`: one per pair, one per link.
pub open spec fn drawn(bs: Seq<Body>, keys: Seq<KeyPress>, rj: Seq<Vec2>, sj: Seq<Vec2>) -> bool {
    jitters(rj, pairs_from(0, bs.len() as int).len() as int) && jitters(sj, link_count(keys))
}

/// The bodies after one tick over the press history `keys`, with the jitters
/// `rj` and `sj` drawn.
pub open spec fn tick(bs: Seq<Body>, keys: Seq<KeyPress>, rj: Seq<Vec2>, sj: Seq<Vec2>) -> Seq<Body> {
    let fs = net_forces(bs, keys, rj, sj);
    Seq::new(bs.len(), |i: int| advance(bs[i], fs[i]))
}

/// Every key of the history names a body.
pub open spec fn all_registered(bs: Seq<Body>, keys: Seq<KeyPress>) -> bool {
    forall|k: int| 0 <= k < keys.len() ==> names(bs).contains(#[trigger] keys[k].key@)
}

impl Layout {
    pub open spec fn wf(self) -> bool {
        &&& forall|i: int| 0 <= i < self.bodies@.len() ==> (#[trigger] self.bodies@[i]).wf()
        &&& names(self.bodies@).no_duplicates()
    }

    /// An empty layout.
    pub fn new() -> (r: Layout)
        ensures
            r.bodies@.len() == 0,
            r.wf(),
    {
        Layout { bodies: Vec::new() }
    }
}


/// `mid` is `start` with a fresh body appended, in order, for each name of
/// `keys` not seen before: at rest, at a spawn point.
pub open spec fn registration(start: Seq<Body>, keys: Seq<KeyPress>, mid: Seq<Body>) -> bool {
    &&& names(mid) == register_names(names(start), keys, 0)
    &&& start.len() <= mid.len()
    &&& forall|i: int| 0 <= i < start.len() ==> mid[i] == start[i]
    &&& forall|i: int| start.len() <= i < mid.len() ==> is_fresh(#[trigger] mid[i])
}

/// A body as it is first placed.
pub open spec fn is_fresh(b: Body) -> bool {
    &&& b.speed == zero()
    &&& b.force == zero()
    &&& 0 <= b.position.x < SPAWN_RANGE
    &&& 0 <= b.position.y < SPAWN_RANGE
}

pub proof fn lemma_find_name(names: Seq<Seq<char>>, key: Seq<char>, i: int)
    requires
        0 <= i <= names.len(),
    ensures
        find_name(names, key, i) == -1 <==> (forall|j: int| i <= j < names.len() ==> names[j] != key),
        find_name(names, key, i) != -1 ==> i <= find_name(names, key, i) < names.len() && names[find_name(names, key, i)] == key,
    decreases names.len() - i,
{
    if i < names.len() {
        lemma_find_name(names, key, i + 1);
    }
}

/// A registered key is found, at its one place.
proof fn lemma_find_contained(names: Seq<Seq<char>>, key: Seq<char>)
    requires
        names.contains(key),
    ensures
        0 <= find_name(names, key, 0) < names.len(),
        names[find_name(names, key, 0)] == key,
{
    lemma_find_name(names, key, 0);
}

proof fn lemma_pairs_from(i: int, n: int, k: int)
    requires
        0 <= i,
        n <= usize::MAX,
        0 <= k < pairs_from(i, n).len(),
    ensures
        i <= pairs_from(i, n)[k].0 < pairs_from(i, n)[k].1 < n,
    decreases n - i,
{
    if i < n {
        let row = Seq::new((n - i - 1) as nat, |m: int| (i as usize, (i + 1 + m) as usize));
        assert(pairs_from(i, n) == row + pairs_from(i + 1, n));
        if k >= row.len() {
            lemma_pairs_from(i + 1, n, k - row.len());
            assert(pairs_from(i, n)[k] == pairs_from(i + 1, n)[k - row.len()]);
        } else {
            assert(pairs_from(i, n)[k] == row[k]);
        }
    }
}

/// Relies on itertools::Itertools::combinations: on a range it yields the
/// 2-element combinations in lexicographic order.
#[verifier::external_body]
fn index_pairs(n: usize) -> (r: Vec<(usize, usize)>)
    ensures
        r@ == pairs_from(0, n as int),
{
    (0..n).combinations(2).map(|c| (c[0], c[1])).collect()
}

proof fn lemma_repulse_upto_agree(ps: Seq<Vec2>, f0: Seq<Vec2>, pairs: Seq<(usize, usize)>, js1: Seq<Vec2>, js2: Seq<Vec2>, k: int)
    requires
        k <= js1.len(),
        k <= js2.len(),
        forall|m: int| 0 <= m < k ==> js1[m] == js2[m],
    ensures
        repulse_upto(ps, f0, pairs, js1, k) == repulse_upto(ps, f0, pairs, js2, k),
    decreases k,
{
    if k > 0 {
        lemma_repulse_upto_agree(ps, f0, pairs, js1, js2, k - 1);
    }
}

proof fn lemma_spring_upto_agree(ps: Seq<Vec2>, names: Seq<Seq<char>>, keys: Seq<KeyPress>, js1: Seq<Vec2>, js2: Seq<Vec2>, f0: Seq<Vec2>, k: int)
    requires
        k <= js1.len(),
        k <= js2.len(),
        forall|m: int| 0 <= m < k ==> js1[m] == js2[m],
    ensures
        spring_upto(ps, names, keys, js1, f0, k) == spring_upto(ps, names, keys, js2, f0, k),
    decreases k,
{
    if k > 0 {
        lemma_spring_upto_agree(ps, names, keys, js1, js2, f0, k - 1);
    }
}

/// Repulsion over every pair of bodies, in lexicographic order of the pairs.
fn update_forces_repulse(ps: &Vec<Vec2>, fs: &mut Vec<Vec2>)
    requires
        old(fs)@.len() == ps@.len(),
        forall|i: int| 0 <= i < ps@.len() ==> (#[trigger] ps@[i]).wf(),
        forall|i: int| 0 <= i < old(fs)@.len() ==> (#[trigger] old(fs)@[i]).wf(),
    ensures
        final(fs)@.len() == ps@.len(),
        forall|i: int| 0 <= i < final(fs)@.len() ==> (#[trigger] final(fs)@[i]).wf(),
        exists|js: Seq<Vec2>|
            jitters(js, pairs_from(0, ps@.len() as int).len() as int) && final(fs)@
                == #[trigger] repulse_upto(ps@, old(fs)@, pairs_from(0, ps@.len() as int), js, pairs_from(0, ps@.len() as int).len() as int),
{
    let ghost f0 = fs@;
    let ghost mut js: Seq<Vec2> = Seq::empty();
    let n: usize = ps.len();
    let pairs = index_pairs(n);
    let mut k: usize = 0;
    while k < pairs.len()
        invariant
            n == ps@.len(),
            pairs@ == pairs_from(0, ps@.len() as int),
            k <= pairs@.len(),
            fs@.len() == ps@.len(),
            forall|i: int| 0 <= i < ps@.len() ==> (#[trigger] ps@[i]).wf(),
            forall|i: int| 0 <= i < fs@.len() ==> (#[trigger] fs@[i]).wf(),
            jitters(js, k as int),
            fs@ == repulse_upto(ps@, f0, pairs@, js, k as int),
        decreases pairs@.len() - k,
    {
        let (i, j) = pairs[k];
        proof {
            lemma_pairs_from(0, ps@.len() as int, k as int);
        }
        let f = repulse_force(&ps[i], &ps[j]);
        let fi = fs[i].plus(f);
        fs.set(i, fi);
        let fj = fs[j].minus(f);
        fs.set(j, fj);
        proof {
            let jk = if ps@[i as int] == ps@[j as int] { f } else { zero() };
            let js2 = js.push(jk);
            lemma_repulse_upto_agree(ps@, f0, pairs@, js, js2, k as int);
            js = js2;
            assert(fs@ == repulse_upto(ps@, f0, pairs@, js, k + 1));
        }
        k += 1;
    }
    assert(jitters(js, pairs@.len() as int) && fs@ == repulse_upto(ps@, f0, pairs@, js, pairs@.len() as int));
}

fn speed_component(v: i64, f: i64) -> (r: i64)
    requires
        -1_000_000_000_000 <= v <= 1_000_000_000_000,
        -1_000_000_000_000 <= f <= 1_000_000_000_000,
    ensures
        r == clamp(tdiv(9 * (100 * v + f), 1000)),
{
    clamp_i128(div_toward_zero(9 * (100 * v as i128 + f as i128), 1000))
}

fn position_component(p: i64, v: i64) -> (r: i64)
    requires
        -1_000_000_000_000 <= p <= 1_000_000_000_000,
        -1_000_000_000_000 <= v <= 1_000_000_000_000,
    ensures
        r == clamp(p + tdiv(v as int, 100)),
{
    let q = div_toward_zero(v as i128, 100);
    assert(-1_000_000_000_000 <= q <= 1_000_000_000_000);
    clamp_i128(p as i128 + q)
}

impl Layout {
    /// Index of the body named `key`, if there is one.
    pub fn index_of(&self, key: &String) -> (r: Option<usize>)
        ensures
            r.is_none() <==> find_name(names(self.bodies@), key@, 0) < 0,
            r.is_some() ==> r.unwrap() as int == find_name(names(self.bodies@), key@, 0),
    {
        let mut i: usize = 0;
        while i < self.bodies.len()
            invariant
                i <= self.bodies@.len(),
                find_name(names(self.bodies@), key@, 0) == find_name(names(self.bodies@), key@, i as int),
            decreases self.bodies@.len() - i,
        {
            if self.bodies[i].name == *key {
                return Some(i);
            }
            i += 1;
        }
        None
    }

    /// Adds a body named `key` at rest at `position`, unless that name is
    /// already registered; returns the new body's index.
    pub fn try_insert_at(&mut self, key: String, position: Vec2) -> (r: Option<usize>)
        requires
            old(self).wf(),
            position.wf(),
        ensures
            final(self).wf(),
            names(old(self).bodies@).contains(key@) ==> r.is_none() && final(self).bodies@ == old(self).bodies@,
            !names(old(self).bodies@).contains(key@) ==> r == Some(old(self).bodies@.len() as usize)
                && final(self).bodies@ == old(self).bodies@.push(spawned(key, position)),
    {
        let found = self.index_of(&key);
        proof {
            lemma_find_name(names(self.bodies@), key@, 0);
        }
        if found.is_some() {
            return None;
        }
        let ghost before = self.bodies@;
        let index = self.bodies.len();
        self.insert_body(Body { name: key, position, speed: Vec2::new(), force: Vec2::new() });
        proof {
            assert(names(self.bodies@) =~= names(before).push(key@));
        }
        Some(index)
    }

    fn insert_body(&mut self, body: Body)
        ensures
            final(self).bodies@ == old(self).bodies@.push(body),
    {
        self.bodies.push(body);
    }

    /// Adds a body named `key` at rest at a random spawn point, unless that
    /// name is already registered; returns the new body's index.
    pub fn try_insert(&mut self, key: String) -> (r: Option<usize>)
        requires
            old(self).wf(),
        ensures
            final(self).wf(),
            names(old(self).bodies@).contains(key@) ==> r.is_none() && final(self).bodies@ == old(self).bodies@,
            !names(old(self).bodies@).contains(key@) ==> r == Some(old(self).bodies@.len() as usize)
                && final(self).bodies@.len() == old(self).bodies@.len() + 1
                && final(self).bodies@.drop_last() == old(self).bodies@
                && final(self).bodies@.last().name == key
                && is_fresh(final(self).bodies@.last()),
    {
        let position = spawn_from(random_u64(), random_u64());
        let r = self.try_insert_at(key, position);
        proof {
            if r.is_some() {
                assert(self.bodies@.drop_last() =~= old(self).bodies@);
            }
        }
        r
    }

    /// Registers, in order, each key of `keys` not seen before.
    fn register_keys(&mut self, keys: &Vec<KeyPress>)
        requires
            old(self).wf(),
        ensures
            final(self).wf(),
            registration(old(self).bodies@, keys@, final(self).bodies@),
            all_registered(final(self).bodies@, keys@),
    {
        let ghost start = self.bodies@;
        let mut k: usize = 0;
        while k < keys.len()
            invariant
                k <= keys@.len(),
                self.wf(),
                register_names(names(self.bodies@), keys@, k as int) == register_names(names(start), keys@, 0),
                start.len() <= self.bodies@.len(),
                forall|i: int| 0 <= i < start.len() ==> self.bodies@[i] == start[i],
                forall|i: int| start.len() <= i < self.bodies@.len() ==> is_fresh(#[trigger] self.bodies@[i]),
                forall|kk: int| 0 <= kk < k ==> names(self.bodies@).contains(#[trigger] keys@[kk].key@),
            decreases keys@.len() - k,
        {
            let ghost before = self.bodies@;
            let key = keys[k].key.clone();
            let r = self.try_insert(key);
            proof {
                if r.is_some() {
                    let after = self.bodies@;
                    assert(names(after) =~= names(before).push(keys@[k as int].key@)) by {
                        assert forall|i: int| 0 <= i < before.len() implies after[i] == before[i] by {
                            assert(after.drop_last()[i] == after[i]);
                        }
                    }
                    assert forall|kk: int| 0 <= kk <= k implies names(after).contains(#[trigger] keys@[kk].key@) by {
                        if kk < k {
                            let w = choose|w: int| 0 <= w < names(before).len() && names(before)[w] == keys@[kk].key@;
                            assert(names(after)[w] == keys@[kk].key@);
                        } else {
                            assert(names(after)[before.len() as int] == keys@[kk].key@);
                        }
                    }
                    assert forall|i: int| 0 <= i < start.len() implies self.bodies@[i] == start[i] by {
                        assert(after.drop_last()[i] == after[i]);
                    }
                    assert forall|i: int| start.len() <= i < after.len() implies is_fresh(#[trigger] after[i]) by {
                        if i < before.len() {
                            assert(after.drop_last()[i] == after[i]);
                        }
                    }
                }
            }
            k += 1;
        }
    }
}

/// The spawn point made of two raw draws.
pub fn spawn_from(u: u64, v: u64) -> (p: Vec2)
    ensures
        p.x == u % SPAWN_RANGE,
        p.y == v % SPAWN_RANGE,
        p.wf(),
{
    Vec2 { x: (u % SPAWN_RANGE) as i64, y: (v % SPAWN_RANGE) as i64 }
}

impl Layout {
    /// Springs between the bodies of adjacent presses that are close in time.
    fn update_forces_key_attract(&self, ps: &Vec<Vec2>, fs: &mut Vec<Vec2>, keys: &Vec<KeyPress>)
        requires
            self.wf(),
            ps@ == positions(self.bodies@),
            old(fs)@.len() == ps@.len(),
            forall|i: int| 0 <= i < old(fs)@.len() ==> (#[trigger] old(fs)@[i]).wf(),
            keys@.len() > 1 ==> all_registered(self.bodies@, keys@),
        ensures
            final(fs)@.len() == ps@.len(),
            forall|i: int| 0 <= i < final(fs)@.len() ==> (#[trigger] final(fs)@[i]).wf(),
            keys@.len() < 2 ==> final(fs)@ == old(fs)@,
            exists|js: Seq<Vec2>|
                jitters(js, link_count(keys@)) && final(fs)@ == #[trigger] spring_upto(ps@, names(self.bodies@), keys@, js, old(fs)@, link_count(keys@)),
    {
        let ghost f0 = fs@;
        let ghost ns = names(self.bodies@);
        let ghost mut js: Seq<Vec2> = Seq::empty();
        if keys.len() > 1 {
            let mut k: usize = 0;
            while k < keys.len() - 1
                invariant
                    keys@.len() > 1,
                    k <= keys@.len() - 1,
                    self.wf(),
                    ns == names(self.bodies@),
                    ps@ == positions(self.bodies@),
                    fs@.len() == ps@.len(),
                    forall|i: int| 0 <= i < fs@.len() ==> (#[trigger] fs@[i]).wf(),
                    all_registered(self.bodies@, keys@),
                    jitters(js, k as int),
                    fs@ == spring_upto(ps@, ns, keys@, js, f0, k as int),
                decreases keys@.len() - 1 - k,
            {
                let key1 = &keys[k];
                let key2 = &keys[k + 1];
                proof {
                    lemma_find_contained(ns, key1.key@);
                    lemma_find_contained(ns, key2.key@);
                }
                let oi = self.index_of(&key1.key);
                let oj = self.index_of(&key2.key);
                let i = oi.unwrap();
                let j = oj.unwrap();
                let ghost before = fs@;
                let ghost mut jk = zero();
                assert(i as int == find_name(ns, keys@[k as int].key@, 0));
                assert(j as int == find_name(ns, keys@[k + 1].key@, 0));
                if key1.time <= key2.time && key2.time - key1.time < LINK_GAP && i != j {
                    let f = spring_force(&ps[i], &ps[j]);
                    proof {
                        if ps@[i as int] == ps@[j as int] {
                            jk = f;
                        }
                    }
                    let fi = fs[i].plus(f);
                    fs.set(i, fi);
                    let fj = fs[j].minus(f);
                    fs.set(j, fj);
                }
                proof {
                    let js2 = js.push(jk);
                    lemma_spring_upto_agree(ps@, ns, keys@, js, js2, f0, k as int);
                    js = js2;
                    assert(fs@ == spring_step(ps@, ns, keys@, jk, before, k as int));
                    assert(fs@ == spring_upto(ps@, ns, keys@, js, f0, k + 1));
                }
                k += 1;
            }
        }
        assert(jitters(js, link_count(keys@)) && fs@ == spring_upto(ps@, ns, keys@, js, f0, link_count(keys@)));
    }

    /// Net force on each body for the history `keys`.
    fn update_forces(&self, keys: &Vec<KeyPress>) -> (fs: Vec<Vec2>)
        requires
            self.wf(),
            keys@.len() > 1 ==> all_registered(self.bodies@, keys@),
        ensures
            fs@.len() == self.bodies@.len(),
            forall|i: int| 0 <= i < fs@.len() ==> (#[trigger] fs@[i]).wf(),
            exists|rj: Seq<Vec2>, sj: Seq<Vec2>|
                drawn(self.bodies@, keys@, rj, sj) && fs@ == #[trigger] net_forces(self.bodies@, keys@, rj, sj),
    {
        let mut ps: Vec<Vec2> = Vec::new();
        let mut fs: Vec<Vec2> = Vec::new();
        let mut i: usize = 0;
        while i < self.bodies.len()
            invariant
                i <= self.bodies@.len(),
                self.wf(),
                ps@ == positions(self.bodies@).take(i as int),
                fs@ == Seq::new(i as nat, |m: int| zero()),
            decreases self.bodies@.len() - i,
        {
            ps.push(self.bodies[i].position);
            fs.push(Vec2::new());
            proof {
                assert(positions(self.bodies@).take(i + 1) =~= positions(self.bodies@).take(i as int).push(self.bodies@[i as int].position));
                assert(Seq::new((i + 1) as nat, |m: int| zero()) =~= Seq::new(i as nat, |m: int| zero()).push(zero()));
            }
            i += 1;
        }
        proof {
            assert(ps@ =~= positions(self.bodies@));
            assert forall|m: int| 0 <= m < ps@.len() implies (#[trigger] ps@[m]).wf() by {
                assert(self.bodies@[m].wf());
            }
        }
        let ghost f0 = fs@;
        update_forces_repulse(&ps, &mut fs);
        let ghost f1 = fs@;
        self.update_forces_key_attract(&ps, &mut fs, keys);
        proof {
            let n = ps@.len() as int;
            let rj = choose|js: Seq<Vec2>|
                jitters(js, pairs_from(0, n).len() as int) && f1 == #[trigger] repulse_upto(ps@, f0, pairs_from(0, n), js, pairs_from(0, n).len() as int);
            let sj = choose|js: Seq<Vec2>|
                jitters(js, link_count(keys@)) && fs@ == #[trigger] spring_upto(ps@, names(self.bodies@), keys@, js, f1, link_count(keys@));
            assert(f0 =~= Seq::new(self.bodies@.len(), |i: int| zero()));
            assert(drawn(self.bodies@, keys@, rj, sj) && fs@ == net_forces(self.bodies@, keys@, rj, sj));
        }
        fs
    }
}

/// The body with its force set to `f` and its velocity integrated.
pub open spec fn with_speed(b: Body, f: Vec2) -> Body {
    Body { name: b.name, position: b.position, speed: next_speed(b.speed, f), force: f }
}

/// The body with its position integrated.
pub open spec fn with_position(b: Body) -> Body {
    Body { name: b.name, position: next_position(b.position, b.speed), speed: b.speed, force: b.force }
}

impl Layout {
    /// Stores each body's force and integrates its velocity, with damping.
    fn update_speeds(&mut self, fs: &Vec<Vec2>)
        requires
            old(self).wf(),
            fs@.len() == old(self).bodies@.len(),
            forall|i: int| 0 <= i < fs@.len() ==> (#[trigger] fs@[i]).wf(),
        ensures
            final(self).wf(),
            final(self).bodies@ == Seq::new(old(self).bodies@.len(), |i: int| with_speed(old(self).bodies@[i], fs@[i])),
    {
        let ghost start = self.bodies@;
        let mut out: Vec<Body> = Vec::new();
        let mut i: usize = 0;
        while i < self.bodies.len()
            invariant
                self.bodies@ == start,
                fs@.len() == start.len(),
                forall|m: int| 0 <= m < fs@.len() ==> (#[trigger] fs@[m]).wf(),
                forall|m: int| 0 <= m < start.len() ==> (#[trigger] start[m]).wf(),
                i <= start.len(),
                out@ == Seq::new(i as nat, |m: int| with_speed(start[m], fs@[m])),
            decreases start.len() - i,
        {
            let b = &self.bodies[i];
            assert(b.wf());
            let f = fs[i];
            let v = Vec2 { x: speed_component(b.speed.x, f.x), y: speed_component(b.speed.y, f.y) };
            out.push(Body { name: b.name.clone(), position: b.position, speed: v, force: f });
            proof {
                assert(out@ =~= Seq::new((i + 1) as nat, |m: int| with_speed(start[m], fs@[m])));
            }
            i += 1;
        }
        self.bodies = out;
        proof {
            assert(names(self.bodies@) =~= names(start));
        }
    }

    /// Integrates each body's position.
    fn update_positions(&mut self)
        requires
            old(self).wf(),
        ensures
            final(self).wf(),
            final(self).bodies@ == Seq::new(old(self).bodies@.len(), |i: int| with_position(old(self).bodies@[i])),
    {
        let ghost start = self.bodies@;
        let mut out: Vec<Body> = Vec::new();
        let mut i: usize = 0;
        while i < self.bodies.len()
            invariant
                self.bodies@ == start,
                forall|m: int| 0 <= m < start.len() ==> (#[trigger] start[m]).wf(),
                i <= start.len(),
                out@ == Seq::new(i as nat, |m: int| with_position(start[m])),
            decreases start.len() - i,
        {
            let b = &self.bodies[i];
            assert(b.wf());
            let p = Vec2 {
                x: position_component(b.position.x, b.speed.x),
                y: position_component(b.position.y, b.speed.y),
            };
            out.push(Body { name: b.name.clone(), position: p, speed: b.speed, force: b.force });
            proof {
                assert(out@ =~= Seq::new((i + 1) as nat, |m: int| with_position(start[m])));
            }
            i += 1;
        }
        self.bodies = out;
        proof {
            assert(names(self.bodies@) =~= names(start));
        }
    }

    /// One tick over the registered bodies: forces, then velocities, then
    /// positions. Coincident pairs take a random jitter; everything else is
    /// determined by the bodies and the history.
    pub fn step(&mut self, keys: &Vec<KeyPress>)
        requires
            old(self).wf(),
            keys@.len() > 1 ==> all_registered(old(self).bodies@, keys@),
        ensures
            final(self).wf(),
            names(final(self).bodies@) == names(old(self).bodies@),
            exists|rj: Seq<Vec2>, sj: Seq<Vec2>|
                drawn(old(self).bodies@, keys@, rj, sj) && final(self).bodies@ == #[trigger] tick(old(self).bodies@, keys@, rj, sj),
    {
        let ghost start = self.bodies@;
        let fs = self.update_forces(keys);
        let ghost fsv = fs@;
        self.update_speeds(&fs);
        self.update_positions();
        proof {
            assert(names(self.bodies@) =~= names(start));
            let (rj, sj) = choose|rj: Seq<Vec2>, sj: Seq<Vec2>|
                drawn(start, keys@, rj, sj) && fsv == #[trigger] net_forces(start, keys@, rj, sj);
            assert(self.bodies@ =~= tick(start, keys@, rj, sj));
        }
    }

    /// Registers the keys of the history not seen before, at random spawn
    /// points, then runs one tick.
    pub fn update(&mut self, keys: &Vec<KeyPress>)
        requires
            old(self).wf(),
        ensures
            final(self).wf(),
            names(final(self).bodies@) == register_names(names(old(self).bodies@), keys@, 0),
            exists|mid: Seq<Body>, rj: Seq<Vec2>, sj: Seq<Vec2>|
                registration(old(self).bodies@, keys@, mid) && drawn(mid, keys@, rj, sj)
                    && final(self).bodies@ == #[trigger] tick(mid, keys@, rj, sj),
    {
        self.register_keys(keys);
        let ghost mid = self.bodies@;
        self.step(keys);
        proof {
            let (rj, sj) = choose|rj: Seq<Vec2>, sj: Seq<Vec2>|
                drawn(mid, keys@, rj, sj) && self.bodies@ == #[trigger] tick(mid, keys@, rj, sj);
            assert(registration(old(self).bodies@, keys@, mid) && drawn(mid, keys@, rj, sj) && self.bodies@ == tick(mid, keys@, rj, sj));
        }
    }

    /// The bodies, in order of registration.
    pub fn bodies(&self) -> (r: &Vec<Body>)
        ensures
            r@ == self.bodies@,
    {
        &self.bodies
    }
}

/// The names that a history mentions.
pub open spec fn key_set(keys: Seq<KeyPress>) -> Set<Seq<char>> {
    keys.map_values(|kp: KeyPress| kp.key@).to_set()
}

proof fn lemma_register_rest(names: Seq<Seq<char>>, keys: Seq<KeyPress>, k: int)
    requires
        names.no_duplicates(),
        0 <= k <= keys.len(),
    ensures
        register_names(names, keys, k).no_duplicates(),
        forall|x: Seq<char>|
            #![trigger register_names(names, keys, k).contains(x)]
            register_names(names, keys, k).contains(x) <==> (names.contains(x) || exists|j: int|
                k <= j < keys.len() && #[trigger] keys[j].key@ == x),
    decreases keys.len() - k,
{
    if k < keys.len() {
        let key = keys[k].key@;
        let next = if names.contains(key) {
            names
        } else {
            names.push(key)
        };
        assert(next.no_duplicates());
        lemma_register_rest(next, keys, k + 1);
        assert(register_names(names, keys, k) == register_names(next, keys, k + 1));
        assert forall|x: Seq<char>|
            register_names(names, keys, k).contains(x) implies (names.contains(x) || exists|j: int|
                k <= j < keys.len() && #[trigger] keys[j].key@ == x) by {
            if next.contains(x) && !names.contains(x) {
                assert(keys[k].key@ == x);
            }
        }
        assert forall|x: Seq<char>|
            (names.contains(x) || exists|j: int| k <= j < keys.len() && #[trigger] keys[j].key@ == x)
            implies register_names(names, keys, k).contains(x) by {
            if names.contains(x) {
                let w = choose|w: int| 0 <= w < names.len() && names[w] == x;
                assert(next[w] == x);
            } else {
                let j = choose|j: int| k <= j < keys.len() && #[trigger] keys[j].key@ == x;
                if j == k {
                    if !names.contains(x) {
                        assert(next[names.len() as int] == x);
                    }
                    assert(next.contains(x));
                } else {
                    assert(k + 1 <= j < keys.len() && keys[j].key@ == x);
                }
            }
        }
    }
}

proof fn lemma_register_known(names: Seq<Seq<char>>, keys: Seq<KeyPress>, k: int)
    requires
        0 <= k <= keys.len(),
        forall|j: int| k <= j < keys.len() ==> names.contains(#[trigger] keys[j].key@),
    ensures
        register_names(names, keys, k) == names,
    decreases keys.len() - k,
{
    if k < keys.len() {
        lemma_register_known(names, keys, k + 1);
    }
}

/// Registration is idempotent and never duplicates a body: registering a
/// history twice gives what registering it once gives, and the names
/// registered are exactly the earlier ones and those of the history, each
/// once. From no bodies, there is one body per distinct key.
pub proof fn lemma_registration_idempotent(names: Seq<Seq<char>>, keys: Seq<KeyPress>)
    requires
        names.no_duplicates(),
    ensures
        register_names(register_names(names, keys, 0), keys, 0) == register_names(names, keys, 0),
        register_names(names, keys, 0).no_duplicates(),
        register_names(names, keys, 0).to_set() == names.to_set() + key_set(keys),
        names.len() == 0 ==> register_names(names, keys, 0).len() == key_set(keys).len(),
{
    let r = register_names(names, keys, 0);
    lemma_register_rest(names, keys, 0);
    assert forall|j: int| 0 <= j < keys.len() implies r.contains(#[trigger] keys[j].key@) by {
        let x = keys[j].key@;
        assert(exists|jj: int| 0 <= jj < keys.len() && #[trigger] keys[jj].key@ == x);
    }
    lemma_register_known(r, keys, 0);
    let ks = keys.map_values(|kp: KeyPress| kp.key@);
    assert forall|x: Seq<char>| r.to_set().contains(x) <==> (names.to_set() + key_set(keys)).contains(x) by {
        if exists|j: int| 0 <= j < keys.len() && #[trigger] keys[j].key@ == x {
            let j = choose|j: int| 0 <= j < keys.len() && #[trigger] keys[j].key@ == x;
            assert(ks[j] == x);
        }
        if ks.contains(x) {
            let j = choose|j: int| 0 <= j < ks.len() && ks[j] == x;
            assert(keys[j].key@ == x);
        }
    }
    assert(r.to_set() =~= names.to_set() + key_set(keys));
    r.unique_seq_to_set();
    if names.len() == 0 {
        assert(names.to_set() + key_set(keys) =~= key_set(keys));
    }
}

/// A body at rest with no net force stays where it is, at rest: a fixed point
/// of the integrator, whatever the number of ticks.
pub proof fn lemma_rest_is_fixed_point(b: Body)
    requires
        b.wf(),
        b.speed == zero(),
    ensures
        advance(b, zero()).position == b.position,
        advance(b, zero()).speed == zero(),
        advance(b, zero()).name == b.name,
        advance(advance(b, zero()), zero()) == advance(b, zero()),
{
}

/// A tick depends on nothing but the bodies, the history and the jitters
/// drawn: equal inputs give equal trajectories.
pub proof fn lemma_tick_deterministic(b1: Seq<Body>, b2: Seq<Body>, keys: Seq<KeyPress>, rj: Seq<Vec2>, sj: Seq<Vec2>)
    requires
        b1 == b2,
    ensures
        tick(b1, keys, rj, sj) == tick(b2, keys, rj, sj),
{
}

proof fn lemma_repulse_jitter_free(ps: Seq<Vec2>, f0: Seq<Vec2>, n: int, js1: Seq<Vec2>, js2: Seq<Vec2>, k: int)
    requires
        n == ps.len(),
        n <= usize::MAX,
        distinct_points(ps),
        0 <= k <= pairs_from(0, n).len(),
    ensures
        repulse_upto(ps, f0, pairs_from(0, n), js1, k) == repulse_upto(ps, f0, pairs_from(0, n), js2, k),
    decreases k,
{
    if k > 0 {
        lemma_repulse_jitter_free(ps, f0, n, js1, js2, k - 1);
        lemma_pairs_from(0, n, k - 1);
        let (i, j) = pairs_from(0, n)[k - 1];
        assert(ps[i as int] != ps[j as int]);
    }
}

proof fn lemma_spring_jitter_free(ps: Seq<Vec2>, bs: Seq<Body>, keys: Seq<KeyPress>, js1: Seq<Vec2>, js2: Seq<Vec2>, f0: Seq<Vec2>, k: int)
    requires
        ps == positions(bs),
        distinct_points(ps),
        all_registered(bs, keys),
        0 <= k <= link_count(keys),
    ensures
        spring_upto(ps, names(bs), keys, js1, f0, k) == spring_upto(ps, names(bs), keys, js2, f0, k),
    decreases k,
{
    if k > 0 {
        lemma_spring_jitter_free(ps, bs, keys, js1, js2, f0, k - 1);
        let m = k - 1;
        let ns = names(bs);
        assert(ns.contains(keys[m].key@));
        assert(ns.contains(keys[m + 1].key@));
        lemma_find_contained(ns, keys[m].key@);
        lemma_find_contained(ns, keys[m + 1].key@);
    }
}

/// With no two bodies on one point and every key registered, a tick draws no
/// jitter that matters: its outcome is the same whatever was drawn, so equal
/// layouts fed equal histories follow bit-identical trajectories.
pub proof fn lemma_tick_jitter_free(bs: Seq<Body>, keys: Seq<KeyPress>, rj1: Seq<Vec2>, sj1: Seq<Vec2>, rj2: Seq<Vec2>, sj2: Seq<Vec2>)
    requires
        bs.len() <= usize::MAX,
        distinct_positions(bs),
        all_registered(bs, keys),
    ensures
        tick(bs, keys, rj1, sj1) == tick(bs, keys, rj2, sj2),
{
    let ps = positions(bs);
    let n = bs.len() as int;
    let f0 = Seq::new(bs.len(), |i: int| zero());
    let pairs = pairs_from(0, n);
    lemma_repulse_jitter_free(ps, f0, n, rj1, rj2, pairs.len() as int);
    let f1 = repulse_upto(ps, f0, pairs, rj1, pairs.len() as int);
    lemma_spring_jitter_free(ps, bs, keys, sj1, sj2, f1, link_count(keys));
    assert(net_forces(bs, keys, rj1, sj1) == net_forces(bs, keys, rj2, sj2));
}

} // verus!
