//! Every nuclide, and an index from (Z, N) into it.

use vstd::prelude::*;
use crate::nuclide::{Nuclide, main_of};
use crate::decay::{Decay, step_of};

verus! {

/// The largest Z or N the table holds. The chart walks Z and N with signed
/// 32-bit steps (daughters, cursor moves, distances), and this keeps every
/// such sum and difference inside that range.
pub const LIMIT: u32 = 0x3fff_ffff;

/// A nuclide whose Z and N the chart can walk.
pub open spec fn fits(nuc: Nuclide) -> bool {
    nuc.z <= LIMIT && nuc.n <= LIMIT
}

/// The position of the last nuclide at (Z, N): a later line of the table
/// overrides an earlier one for the same place.
pub open spec fn last_at(s: Seq<Nuclide>, z: int, n: int) -> Option<int>
    decreases s.len(),
{
    if s.len() == 0 {
        None
    } else if s.last().z == z && s.last().n == n {
        Some(s.len() - 1)
    } else {
        last_at(s.drop_last(), z, n)
    }
}

/// The largest Z in `s`, 0 for none.
pub open spec fn max_z(s: Seq<Nuclide>) -> u32
    decreases s.len(),
{
    if s.len() == 0 {
        0
    } else if max_z(s.drop_last()) < s.last().z {
        s.last().z
    } else {
        max_z(s.drop_last())
    }
}

/// The largest N in `s`, 0 for none.
pub open spec fn max_n(s: Seq<Nuclide>) -> u32
    decreases s.len(),
{
    if s.len() == 0 {
        0
    } else if max_n(s.drop_last()) < s.last().n {
        s.last().n
    } else {
        max_n(s.drop_last())
    }
}

/// What `last_at` says, and that nothing later matches.
pub proof fn lemma_last_at(s: Seq<Nuclide>, z: int, n: int)
    ensures
        last_at(s, z, n) matches Some(i) ==> 0 <= i < s.len() && s[i].z == z && s[i].n == n
            && forall|j: int| i < j < s.len() ==> !(s[j].z == z && s[j].n == n),
        last_at(s, z, n) is None ==> forall|j: int| 0 <= j < s.len() ==> !(s[j].z == z && s[j].n
            == n),
    decreases s.len(),
{
    if s.len() > 0 {
        lemma_last_at(s.drop_last(), z, n);
        assert forall|j: int| 0 <= j < s.len() - 1 implies s.drop_last()[j] == s[j] by {}
    }
}

/// A position held as a machine word, read as a number.
pub open spec fn widen(o: Option<usize>) -> Option<int> {
    match o {
        Some(i) => Some(i as int),
        None => None,
    }
}

/// Every Z and N in `s` is at most its maximum.
pub proof fn lemma_max(s: Seq<Nuclide>)
    ensures
        forall|j: int| 0 <= j < s.len() ==> s[j].z <= max_z(s) && s[j].n <= max_n(s),
        (forall|j: int| 0 <= j < s.len() ==> fits(s[j])) ==> max_z(s) <= LIMIT && max_n(s)
            <= LIMIT,
    decreases s.len(),
{
    if s.len() > 0 {
        lemma_max(s.drop_last());
        assert forall|j: int| 0 <= j < s.len() - 1 implies s.drop_last()[j] == s[j] by {}
    }
}

/// Every nuclide, and an index from (Z, N) into it.
pub struct Table {
    pub all: Vec<Nuclide>,
    /// `idx[z][n]` is the position in `all` of the nuclide at (z, n), kept
    /// in step with `all` by [`Table::new`].
    pub idx: Vec<Vec<Option<usize>>>,
    pub z_max: u32,
    pub n_max: u32,
}

impl Table {
    /// The position of the nuclide at (Z, N), if the table has one.
    pub open spec fn at(&self, z: int, n: int) -> Option<int> {
        last_at(self.all@, z, n)
    }

    /// The isotopes of element `z` with N below `k`, by increasing N.
    pub open spec fn isos(&self, z: int, k: int) -> Seq<int>
        decreases k,
    {
        if k <= 0 {
            seq![]
        } else {
            self.isos(z, k - 1) + match self.at(z, k - 1) {
                Some(i) => seq![i],
                None => seq![],
            }
        }
    }

    /// Every nuclide of element `z`, lightest first.
    pub open spec fn isotopes(&self, z: int) -> Seq<int> {
        self.isos(z, self.n_max + 1)
    }

    /// The next link of a decay chain from nuclide `cur`: where its main
    /// decay mode puts the daughter, and the mode, when there is a single
    /// daughter, it is in the table, and it is not `cur` itself.
    pub open spec fn daughter(&self, cur: int) -> Option<(int, Decay)> {
        let nuc = self.all@[cur];
        if nuc.stable {
            None
        } else {
            let mode = main_of(nuc);
            match step_of(mode) {
                None => None,
                Some((dz, dn)) => {
                    let z = nuc.z + dz;
                    let n = nuc.n + dn;
                    if z < 0 || n < 0 {
                        None
                    } else {
                        match self.at(z, n) {
                            None => None,
                            Some(next) => if next == cur {
                                None
                            } else {
                                Some((next, mode))
                            },
                        }
                    }
                },
            }
        }
    }

    /// The links that follow `cur`, at most `fuel` of them.
    pub open spec fn trail(&self, cur: int, fuel: nat) -> Seq<(int, Decay)>
        decreases fuel,
    {
        if fuel == 0 {
            seq![]
        } else {
            match self.daughter(cur) {
                None => seq![],
                Some((next, mode)) => seq![(next, mode)] + self.trail(next, (fuel - 1) as nat),
            }
        }
    }

    /// The decay chain from `start`: `start` itself, then each daughter and
    /// the mode that made it, for at most forty links.
    pub open spec fn chain_of(&self, start: int) -> Seq<(int, Decay)> {
        seq![(start, Decay::Stable)] + self.trail(start, 40)
    }

    /// The index agrees with the list.
    pub open spec fn index_ok(&self) -> bool {
        &&& self.idx@.len() == self.z_max + 1
        &&& forall|z: int|
            #![trigger self.idx@[z]]
            0 <= z <= self.z_max ==> self.idx@[z]@.len() == self.n_max + 1
        &&& forall|z: int, n: int|
            #![trigger self.idx@[z]@[n]]
            0 <= z <= self.z_max && 0 <= n <= self.n_max ==> widen(self.idx@[z]@[n]) == self.at(z, n)
    }

    /// A table built by [`Table::new`]: its index agrees with its list, its
    /// bounds are the largest Z and N, and every nuclide fits the chart.
    pub open spec fn wf(&self) -> bool {
        &&& self.index_ok()
        &&& self.z_max == max_z(self.all@)
        &&& self.n_max == max_n(self.all@)
        &&& forall|i: int| 0 <= i < self.all@.len() ==> #[trigger] fits(self.all@[i])
        &&& self.z_max <= LIMIT
        &&& self.n_max <= LIMIT
    }

    /// What `at` says of a well-formed table.
    pub proof fn lemma_at(&self, z: int, n: int)
        requires
            self.wf(),
        ensures
            self.at(z, n) matches Some(i) ==> 0 <= i < self.all@.len() && self.all@[i].z == z
                && self.all@[i].n == n,
            self.at(z, n) is None ==> forall|j: int|
                0 <= j < self.all@.len() ==> !(self.all@[j].z == z && self.all@[j].n == n),
            (z < 0 || z > self.z_max || n < 0 || n > self.n_max) ==> self.at(z, n) is None,
    {
        lemma_last_at(self.all@, z, n);
        lemma_max(self.all@);
        if z < 0 || z > self.z_max || n < 0 || n > self.n_max {
            if let Some(i) = last_at(self.all@, z, n) {
                assert(self.all@[i].z <= self.z_max && self.all@[i].n <= self.n_max);
            }
        }
    }

    /// Builds the index over `all`. A later nuclide at the same (Z, N)
    /// takes the place of an earlier one.
    pub fn new(all: Vec<Nuclide>) -> (t: Table)
        requires
            forall|i: int| 0 <= i < all@.len() ==> #[trigger] fits(all@[i]),
        ensures
            t.wf(),
            t.all@ == all@,
    {
        let len = all.len();
        let mut z_max: u32 = 0;
        let mut n_max: u32 = 0;
        let mut i: usize = 0;
        while i < len
            invariant
                len == all@.len(),
                i <= len,
                z_max == max_z(all@.take(i as int)),
                n_max == max_n(all@.take(i as int)),
            decreases len - i,
        {
            assert(all@.take(i + 1).drop_last() =~= all@.take(i as int));
            if z_max < all[i].z {
                z_max = all[i].z;
            }
            if n_max < all[i].n {
                n_max = all[i].n;
            }
            i = i + 1;
        }
        assert(all@.take(len as int) =~= all@);
        proof {
            lemma_max(all@);
        }
        let mut idx: Vec<Vec<Option<usize>>> = Vec::new();
        let mut z: usize = 0;
        let zs = z_max as usize + 1;
        let ns = n_max as usize + 1;
        while z < zs
            invariant
                zs == z_max + 1,
                ns == n_max + 1,
                z <= zs,
                idx@.len() == z,
                forall|y: int| 0 <= y < z ==> (#[trigger] idx@[y])@.len() == ns,
                forall|y: int, x: int|
                    0 <= y < z && 0 <= x < ns ==> (#[trigger] idx@[y]@[x]) is None,
            decreases zs - z,
        {
            let mut row: Vec<Option<usize>> = Vec::new();
            let mut x: usize = 0;
            while x < ns
                invariant
                    x <= ns,
                    row@.len() == x,
                    forall|k: int| 0 <= k < x ==> (#[trigger] row@[k]) is None,
                decreases ns - x,
            {
                row.push(None);
                x = x + 1;
            }
            idx.push(row);
            z = z + 1;
        }
        let mut i: usize = 0;
        while i < len
            invariant
                len == all@.len(),
                i <= len,
                z_max == max_z(all@),
                n_max == max_n(all@),
                forall|j: int| 0 <= j < all@.len() ==> #[trigger] fits(all@[j]),
                forall|j: int|
                    0 <= j < all@.len() ==> all@[j].z <= z_max && all@[j].n <= n_max,
                idx@.len() == z_max + 1,
                forall|y: int| 0 <= y <= z_max ==> (#[trigger] idx@[y])@.len() == n_max + 1,
                forall|y: int, x: int|
                    #![trigger idx@[y]@[x]]
                    0 <= y <= z_max && 0 <= x <= n_max ==> widen(idx@[y]@[x]) == last_at(
                        all@.take(i as int),
                        y,
                        x,
                    ),
            decreases len - i,
        {
            let zi = all[i].z as usize;
            let ni = all[i].n as usize;
            let ghost before = idx@;
            let mut row: Vec<Option<usize>> = Vec::new();
            idx.set_and_swap(zi, &mut row);
            row.set(ni, Some(i));
            idx.set_and_swap(zi, &mut row);
            proof {
                let s1 = all@.take(i + 1);
                assert(s1.drop_last() =~= all@.take(i as int));
                assert(s1.last() == all@[i as int]);
                assert forall|y: int, x: int|
                    0 <= y <= z_max && 0 <= x <= n_max implies widen(#[trigger] idx@[y]@[x])
                    == last_at(s1, y, x) by {
                    if y == zi as int && x == ni as int {
                    } else if y == zi as int {
                        assert(idx@[y]@[x] == before[y]@[x]);
                    } else {
                        assert(idx@[y] == before[y]);
                    }
                }
            }
            i = i + 1;
        }
        assert(all@.take(len as int) =~= all@);
        Table { all, idx, z_max, n_max }
    }

    /// The position of the nuclide at (Z, N).
    pub fn index(&self, z: u32, n: u32) -> (r: Option<usize>)
        requires
            self.wf(),
        ensures
            widen(r) == self.at(z as int, n as int),
            r matches Some(i) ==> i < self.all@.len() && self.all@[i as int].z == z
                && self.all@[i as int].n == n,
    {
        proof {
            self.lemma_at(z as int, n as int);
        }
        let zi = z as usize;
        let ni = n as usize;
        if zi < self.idx.len() {
            let row = &self.idx[zi];
            if ni < row.len() {
                return row[ni];
            }
        }
        None
    }

    /// The nuclide at (Z, N).
    pub fn get(&self, z: u32, n: u32) -> (r: Option<&Nuclide>)
        requires
            self.wf(),
        ensures
            match self.at(z as int, n as int) {
                Some(i) => r == Some(&self.all@[i]),
                None => r is None,
            },
    {
        match self.index(z, n) {
            Some(i) => Some(&self.all[i]),
            None => None,
        }
    }

    /// Every nuclide of one element, lightest first.
    pub fn isotopes_of(&self, z: u32) -> (r: Vec<usize>)
        requires
            self.wf(),
        ensures
            r@.len() == self.isotopes(z as int).len(),
            forall|k: int| 0 <= k < r@.len() ==> r@[k] as int == #[trigger] self.isotopes(z as int)[k],
    {
        let mut r: Vec<usize> = Vec::new();
        let zi = z as usize;
        if zi < self.idx.len() {
            let row = &self.idx[zi];
            let mut x: usize = 0;
            while x < row.len()
                invariant
                    self.wf(),
                    zi == z,
                    zi < self.idx@.len(),
                    *row == self.idx@[zi as int],
                    row@.len() == self.n_max + 1,
                    x <= row@.len(),
                    r@.len() == self.isos(z as int, x as int).len(),
                    forall|k: int| 0 <= k < r@.len() ==> r@[k] as int == #[trigger] self.isos(z as int, x as int)[k],
                decreases row@.len() - x,
            {
                assert(widen(row@[x as int]) == self.at(z as int, x as int));
                match row[x] {
                    Some(i) => {
                        r.push(i);
                    },
                    None => {},
                }
                x = x + 1;
            }
        } else {
            proof {
                self.lemma_isos_none(z as int, self.n_max + 1);
            }
        }
        r
    }

    /// Past the last element, every row is empty.
    proof fn lemma_isos_none(&self, z: int, k: int)
        requires
            self.wf(),
            z > self.z_max,
        ensures
            self.isos(z, k) == Seq::<int>::empty(),
        decreases k,
    {
        if k > 0 {
            self.lemma_isos_none(z, k - 1);
            self.lemma_at(z, k - 1);
        }
    }

    /// The decay chain from here down to something stable, or until the
    /// trail goes cold. Each step is (nuclide, how it got there).
    ///
    /// Fission and unknown modes end a chain: there is no single
    /// daughter to follow.
    pub fn chain(&self, start: usize) -> (r: Vec<(usize, Decay)>)
        requires
            self.wf(),
            start < self.all@.len(),
        ensures
            r@.len() == self.chain_of(start as int).len(),
            forall|k: int|
                0 <= k < r@.len() ==> r@[k].0 as int == (#[trigger] self.chain_of(start as int)[k]).0
                    && r@[k].1 == self.chain_of(start as int)[k].1,
            forall|k: int| 0 <= k < r@.len() ==> (#[trigger] r@[k]).0 < self.all@.len(),
    {
        let mut out: Vec<(usize, Decay)> = Vec::new();
        out.push((start, Decay::Stable));
        let mut cur = start;
        let mut left: usize = 40;
        let ghost done: Seq<(int, Decay)> = seq![(start as int, Decay::Stable)];
        while left > 0
            invariant
                self.wf(),
                cur < self.all@.len(),
                left <= 40,
                forall|k: int| 0 <= k < out@.len() ==> (#[trigger] out@[k]).0 < self.all@.len(),
                out@.len() == done.len(),
                forall|k: int| 0 <= k < out@.len() ==> out@[k].0 as int == (#[trigger] done[k]).0 && out@[k].1 == done[k].1,
                done + self.trail(cur as int, left as nat) == self.chain_of(start as int),
            ensures
                cur < self.all@.len(),
                forall|k: int| 0 <= k < out@.len() ==> (#[trigger] out@[k]).0 < self.all@.len(),
                out@.len() == done.len(),
                forall|k: int| 0 <= k < out@.len() ==> out@[k].0 as int == (#[trigger] done[k]).0 && out@[k].1 == done[k].1,
                done + self.trail(cur as int, left as nat) == self.chain_of(start as int),
                left == 0 || self.daughter(cur as int) is None,
            decreases left,
        {
            let nuc = &self.all[cur];
            proof {
                assert(fits(self.all@[cur as int]));
            }
            if nuc.is_stable() {
                break;
            }
            let mode = nuc.main_decay();
            let st = mode.step();
            if st.is_none() {
                break;
            }
            let (dz, dn) = st.unwrap();
            let z = nuc.z as i32 + dz;
            let n = nuc.n as i32 + dn;
            if z < 0 || n < 0 {
                break;
            }
            let next_opt = self.index(z as u32, n as u32);
            if next_opt.is_none() {
                break;
            }
            let next = next_opt.unwrap();
            if next == cur {
                break;
            }
            out.push((next, mode));
            proof {
                assert(self.daughter(cur as int) == Some((next as int, mode)));
                let old_done = done;
                done = done.push((next as int, mode));
                assert(done + self.trail(next as int, (left - 1) as nat) =~= old_done + self.trail(cur as int, left as nat));
            }
            cur = next;
            left = left - 1;
        }
        proof {
            assert(done + self.trail(cur as int, left as nat) =~= done) by {
                if left > 0 {
                }
            }
        }
        out
    }

    /// `next` is the daughter of `prev` by `mode`: `prev` is not stable,
    /// `mode` is its main decay mode, and the daughter sits where that mode's
    /// step puts it.
    pub open spec fn is_link(&self, prev: int, next: int, mode: Decay) -> bool {
        &&& 0 <= next < self.all@.len()
        &&& next != prev
        &&& !self.all@[prev].stable
        &&& mode == main_of(self.all@[prev])
        &&& step_of(mode) is Some
        &&& self.all@[next].z == self.all@[prev].z + step_of(mode).unwrap().0
        &&& self.all@[next].n == self.all@[prev].n + step_of(mode).unwrap().1
    }

    /// A daughter is a link.
    pub proof fn lemma_daughter(&self, cur: int)
        requires
            self.wf(),
            0 <= cur < self.all@.len(),
        ensures
            self.daughter(cur) matches Some((next, mode)) ==> self.is_link(cur, next, mode),
    {
        let nuc = self.all@[cur];
        if !nuc.stable {
            if let Some((dz, dn)) = step_of(main_of(nuc)) {
                self.lemma_at(nuc.z + dz, nuc.n + dn);
            }
        }
    }

    /// What a trail of links looks like.
    pub proof fn lemma_trail(&self, cur: int, fuel: nat)
        requires
            self.wf(),
            0 <= cur < self.all@.len(),
        ensures
            self.trail(cur, fuel).len() <= fuel,
            self.trail(cur, fuel).len() > 0 ==> self.trail(cur, fuel)[0] == self.daughter(
                cur,
            ).unwrap() && self.daughter(cur) is Some,
            forall|k: int|
                1 <= k < self.trail(cur, fuel).len() ==> self.daughter(
                    self.trail(cur, fuel)[k - 1].0,
                ) == Some(#[trigger] self.trail(cur, fuel)[k]),
            forall|k: int|
                0 <= k < self.trail(cur, fuel).len() ==> 0 <= (#[trigger] self.trail(
                    cur,
                    fuel,
                )[k]).0 < self.all@.len(),
            self.trail(cur, fuel).len() < fuel ==> self.daughter(
                if self.trail(cur, fuel).len() == 0 {
                    cur
                } else {
                    self.trail(cur, fuel).last().0
                },
            ) is None,
        decreases fuel,
    {
        self.lemma_daughter(cur);
        if fuel > 0 {
            if let Some((next, mode)) = self.daughter(cur) {
                self.lemma_trail(next, (fuel - 1) as nat);
                let rest = self.trail(next, (fuel - 1) as nat);
                let tr = self.trail(cur, fuel);
                assert(tr == seq![(next, mode)] + rest);
                assert forall|k: int| 1 <= k < tr.len() implies self.daughter(tr[k - 1].0) == Some(
                    #[trigger] tr[k],
                ) by {
                    assert(tr[k] == rest[k - 1]);
                    if k >= 2 {
                        assert(tr[k - 1] == rest[k - 2]);
                    }
                }
                assert forall|k: int| 0 <= k < tr.len() implies 0 <= (#[trigger] tr[k]).0
                    < self.all@.len() by {
                    if k >= 1 {
                        assert(tr[k] == rest[k - 1]);
                    }
                }
                if rest.len() > 0 {
                    assert(tr.last() == rest.last());
                }
            }
        }
    }
}

/// The index finds every nuclide where it sits: the entry at its (Z, N)
/// is a nuclide at that place no earlier in the list than it, and is the
/// nuclide itself when no later one shares its place.
pub proof fn index_law(t: &Table, i: int)
    requires
        t.wf(),
        0 <= i < t.all@.len(),
    ensures
        t.at(t.all@[i].z as int, t.all@[i].n as int) matches Some(j) && i <= j < t.all@.len()
            && t.all@[j].z == t.all@[i].z && t.all@[j].n == t.all@[i].n,
        (forall|k: int|
            i < k < t.all@.len() ==> !(t.all@[k].z == t.all@[i].z && t.all@[k].n == t.all@[i].n))
            ==> t.at(t.all@[i].z as int, t.all@[i].n as int) == Some(i),
{
    lemma_last_at(t.all@, t.all@[i].z as int, t.all@[i].n as int);
}

/// The isotopes of element `z` are nuclides of that element, in order of
/// increasing N, and every nuclide of the element is among them.
pub proof fn isotopes_law(t: &Table, z: int)
    requires
        t.wf(),
    ensures
        forall|j: int|
            0 <= j < t.isotopes(z).len() ==> 0 <= #[trigger] t.isotopes(z)[j] < t.all@.len()
                && t.all@[t.isotopes(z)[j]].z == z,
        forall|j1: int, j2: int|
            0 <= j1 < j2 < t.isotopes(z).len() ==> t.all@[#[trigger] t.isotopes(z)[j1]].n
                < t.all@[#[trigger] t.isotopes(z)[j2]].n,
        forall|n: int|
            #![trigger t.at(z, n)]
            t.at(z, n) is Some ==> t.isotopes(z).contains(t.at(z, n).unwrap()),
        forall|j: int|
            0 <= j < t.isotopes(z).len() ==> t.at(z, t.all@[#[trigger] t.isotopes(z)[j]].n as int)
                == Some(t.isotopes(z)[j]),
{
    lemma_isos(t, z, t.n_max + 1);
    assert forall|n: int| #![trigger t.at(z, n)] t.at(z, n) is Some implies t.isotopes(z).contains(
        t.at(z, n).unwrap(),
    ) by {
        t.lemma_at(z, n);
    }
}

proof fn lemma_isos(t: &Table, z: int, k: int)
    requires
        t.wf(),
        0 <= k <= t.n_max + 1,
    ensures
        forall|j: int|
            0 <= j < t.isos(z, k).len() ==> 0 <= #[trigger] t.isos(z, k)[j] < t.all@.len()
                && t.all@[t.isos(z, k)[j]].z == z && t.all@[t.isos(z, k)[j]].n < k,
        forall|j1: int, j2: int|
            0 <= j1 < j2 < t.isos(z, k).len() ==> t.all@[#[trigger] t.isos(z, k)[j1]].n
                < t.all@[#[trigger] t.isos(z, k)[j2]].n,
        forall|n: int| 0 <= n < k && t.at(z, n) is Some ==> t.isos(z, k).contains(t.at(z, n).unwrap()),
        forall|j: int|
            0 <= j < t.isos(z, k).len() ==> t.at(z, t.all@[#[trigger] t.isos(z, k)[j]].n as int)
                == Some(t.isos(z, k)[j]),
    decreases k,
{
    if k > 0 {
        lemma_isos(t, z, k - 1);
        t.lemma_at(z, k - 1);
        let p = t.isos(z, k - 1);
        let s = t.isos(z, k);
        assert forall|n: int| 0 <= n < k && t.at(z, n) is Some implies s.contains(t.at(z, n).unwrap()) by {
            if n < k - 1 {
                let j = choose|j: int| 0 <= j < p.len() && p[j] == t.at(z, n).unwrap();
                assert(s[j] == p[j]);
            } else {
                assert(s[s.len() - 1] == t.at(z, n).unwrap());
            }
        }
        assert forall|j: int| 0 <= j < s.len() implies 0 <= #[trigger] s[j] < t.all@.len()
            && t.all@[s[j]].z == z && t.all@[s[j]].n < k && t.at(z, t.all@[s[j]].n as int) == Some(s[j]) by {
            if j < p.len() {
                assert(s[j] == p[j]);
            }
        }
        assert forall|j1: int, j2: int| 0 <= j1 < j2 < s.len() implies t.all@[#[trigger] s[j1]].n
            < t.all@[#[trigger] s[j2]].n by {
            assert(s[j1] == p[j1]);
            if j2 < p.len() {
                assert(s[j2] == p[j2]);
            }
        }
    }
}

/// A decay chain starts at its nuclide, marked stable for want of a mode
/// that made it, and runs for at most forty links; each link is the
/// daughter of the one before by that one's main decay mode; and a chain
/// shorter than its limit ends where the trail goes cold: at a stable
/// nuclide, a mode with no single daughter (fission, unknown, isomeric),
/// or a daughter the table does not hold.
pub proof fn chain_law(t: &Table, start: int)
    requires
        t.wf(),
        0 <= start < t.all@.len(),
    ensures
        t.chain_of(start)[0] == (start, Decay::Stable),
        1 <= t.chain_of(start).len() <= 41,
        forall|k: int|
            1 <= k < t.chain_of(start).len() ==> t.is_link(
                t.chain_of(start)[k - 1].0,
                (#[trigger] t.chain_of(start)[k]).0,
                t.chain_of(start)[k].1,
            ),
        forall|k: int|
            0 <= k < t.chain_of(start).len() ==> 0 <= (#[trigger] t.chain_of(start)[k]).0
                < t.all@.len(),
        t.chain_of(start).len() < 41 ==> t.daughter(t.chain_of(start).last().0) is None,
{
    t.lemma_trail(start, 40);
    let c = t.chain_of(start);
    let tr = t.trail(start, 40);
    assert forall|k: int| 1 <= k < c.len() implies t.is_link(
        c[k - 1].0,
        (#[trigger] c[k]).0,
        c[k].1,
    ) by {
        assert(c[k] == tr[k - 1]);
        t.lemma_daughter(c[k - 1].0);
        if k >= 2 {
            assert(c[k - 1] == tr[k - 2]);
        }
    }
    assert forall|k: int| 0 <= k < c.len() implies 0 <= (#[trigger] c[k]).0 < t.all@.len() by {
        if k >= 1 {
            assert(c[k] == tr[k - 1]);
        }
    }
    if tr.len() > 0 {
        assert(c.last() == tr.last());
    }
}


/// A decay chain follows each nuclide's main decay mode to the place it
/// leads, (Z + dZ, N + dN): every link after the first is the nuclide the
/// table holds there. A chain shorter than its limit of forty links stops
/// only at a nuclide that is stable, whose main mode has no single step,
/// whose daughter's place would be negative, where the table holds no
/// nuclide at that place, or where the place is the nuclide itself; so
/// whenever the table holds another nuclide where the last one decays to,
/// the chain goes on to it.
pub proof fn chain_follows_law(t: &Table, start: int)
    requires
        t.wf(),
        0 <= start < t.all@.len(),
    ensures
        forall|k: int|
            1 <= k < t.chain_of(start).len() ==> ({
                let p = t.all@[t.chain_of(start)[k - 1].0];
                &&& !p.stable
                &&& (#[trigger] t.chain_of(start)[k]).1 == main_of(p)
                &&& step_of(main_of(p)) matches Some((dz, dn)) && t.at(p.z + dz, p.n + dn) == Some(
                    t.chain_of(start)[k].0,
                )
            }),
        t.chain_of(start).len() < 41 ==> ({
            let i = t.chain_of(start).last().0;
            let l = t.all@[i];
            ||| l.stable
            ||| step_of(main_of(l)) is None
            ||| (step_of(main_of(l)) matches Some((dz, dn)) && (l.z + dz < 0 || l.n + dn < 0 || t.at(
                l.z + dz,
                l.n + dn,
            ) is None || t.at(l.z + dz, l.n + dn) == Some(i)))
        }),
{
    chain_law(t, start);
    t.lemma_trail(start, 40);
    let c = t.chain_of(start);
    let tr = t.trail(start, 40);
    assert forall|k: int| 1 <= k < c.len() implies ({
        let p = t.all@[c[k - 1].0];
        &&& !p.stable
        &&& (#[trigger] c[k]).1 == main_of(p)
        &&& step_of(main_of(p)) matches Some((dz, dn)) && t.at(p.z + dz, p.n + dn) == Some(c[k].0)
    }) by {
        assert(c[k] == tr[k - 1]);
        if k >= 2 {
            assert(c[k - 1] == tr[k - 2]);
        }
        assert(t.daughter(c[k - 1].0) == Some(c[k]));
        lemma_daughter_place(t, c[k - 1].0);
    }
    if c.len() < 41 {
        lemma_daughter_place(t, c.last().0);
    }
}

/// Where a daughter is found, and why there is none.
proof fn lemma_daughter_place(t: &Table, cur: int)
    requires
        t.wf(),
        0 <= cur < t.all@.len(),
    ensures
        t.daughter(cur) matches Some((next, mode)) ==> ({
            let p = t.all@[cur];
            &&& !p.stable
            &&& mode == main_of(p)
            &&& step_of(main_of(p)) matches Some((dz, dn)) && t.at(p.z + dz, p.n + dn) == Some(next)
        }),
        t.daughter(cur) is None ==> ({
            let l = t.all@[cur];
            ||| l.stable
            ||| step_of(main_of(l)) is None
            ||| (step_of(main_of(l)) matches Some((dz, dn)) && (l.z + dz < 0 || l.n + dn < 0 || t.at(
                l.z + dz,
                l.n + dn,
            ) is None || t.at(l.z + dz, l.n + dn) == Some(cur)))
        }),
{
}

} // verus!
