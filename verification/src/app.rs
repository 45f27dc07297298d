//! The cursor on the chart: where it is, how the keys move it, and the
//! window of the chart that keeps it in view.

use vstd::prelude::*;
use crate::nuclide::Nuclide;
use crate::table::{Table, LIMIT, fits, isotopes_law};
use crate::text::same;

verus! {

/// Which of the two views is on screen.
#[derive(Clone, Copy, PartialEq, Eq, Structural, Debug)]
pub enum Screen {
    Chart,
    Overview,
}

/// The state of the chart browser.
pub struct App {
    /// Where the cursor is, as a real nuclide.
    pub z: u32,
    pub n: u32,
    /// The colour mode, an index into the list of modes.
    pub mode: usize,
    pub view: Screen,
    /// Top-left of the visible window into the chart.
    pub top_z: u32,
    pub left_n: u32,
    /// The window the last frame was drawn with. When the chart slides,
    /// every cell on screen means something different, and anything the
    /// new frame does not cover has to go.
    pub drawn_at: Option<(u32, u32, u16, u16)>,
    /// The questions asked so far, each with its answer.
    pub chat: Vec<(String, String)>,
    /// A line for the status bar, with its colour.
    pub status: Option<(String, (u8, u8, u8))>,
}

/// The absolute value.
pub open spec fn abs(x: int) -> int {
    if x < 0 {
        -x
    } else {
        x
    }
}

/// The absolute value of an `i32` other than its minimum.
pub fn abs_i32(x: i32) -> (r: i32)
    requires
        x > i32::MIN,
    ensures
        r == abs(x as int),
{
    if x < 0 {
        -x
    } else {
        x
    }
}

/// The sign of an `i32`: 1, -1 or 0.
pub fn sign_i32(x: i32) -> (r: i32)
    ensures
        r == sign(x as int),
{
    if x > 0 {
        1
    } else if x < 0 {
        -1
    } else {
        0
    }
}

/// The sign of a step: 1, -1 or 0.
pub open spec fn sign(d: int) -> int {
    if d > 0 {
        1
    } else if d < 0 {
        -1
    } else {
        0
    }
}

/// How far nuclide `i` lies from N = `n`.
pub open spec fn distance(t: &Table, i: int, n: int) -> int {
    abs(t.all@[i].n - n)
}

/// The first of `s` at the least distance from N = `n`.
pub open spec fn nearest(t: &Table, s: Seq<int>, n: int) -> int
    decreases s.len(),
{
    if s.len() <= 1 {
        s[0]
    } else {
        let b = nearest(t, s.drop_last(), n);
        if distance(t, s.last(), n) < distance(t, b, n) {
            s.last()
        } else {
            b
        }
    }
}

/// Where `goto(z, n)` leaves a cursor that stood at `from`: on (z, n) if
/// the table holds it, else on the isotope of element z nearest in N, else
/// where it was.
pub open spec fn goto_target(t: &Table, z: int, n: int, from: (u32, u32)) -> (u32, u32) {
    if t.at(z, n) is Some {
        (z as u32, n as u32)
    } else if t.isotopes(z).len() > 0 {
        let i = nearest(t, t.isotopes(z), n);
        (t.all@[i].z, t.all@[i].n)
    } else {
        from
    }
}

/// Walking along element `z` from N = `n` in steps of `dir`: the first N
/// the table holds, unless the walk leaves 0..=n_max or `fuel` runs out.
pub open spec fn walk_n(t: &Table, z: int, n: int, dir: int, fuel: nat) -> Option<int>
    decreases fuel,
{
    if fuel == 0 {
        None
    } else {
        let m = n + dir;
        if m < 0 || m > t.n_max {
            None
        } else if t.at(z, m) is Some {
            Some(m)
        } else {
            walk_n(t, z, m, dir, (fuel - 1) as nat)
        }
    }
}

/// Walking across elements from Z = `z` in steps of `s`: the first element
/// with any isotopes, unless the walk leaves 0..=z_max or `fuel` runs out.
pub open spec fn walk_z(t: &Table, z: int, s: int, fuel: nat) -> Option<int>
    decreases fuel,
{
    if fuel == 0 {
        None
    } else {
        let y = z + s;
        if y < 0 || y > t.z_max {
            None
        } else if t.isotopes(y).len() > 0 {
            Some(y)
        } else {
            walk_z(t, y, s, (fuel - 1) as nat)
        }
    }
}

/// Where `step_z(dir)` leaves a cursor at (z, n): one element at a time in
/// the direction of `dir`, each time landing as near the same N as exists,
/// |dir| times or until there is no element left that way.
pub open spec fn step_z_target(t: &Table, z: u32, n: u32, dir: int) -> (u32, u32)
    decreases abs(dir),
{
    match walk_z(t, z as int, sign(dir), (t.z_max + 2) as nat) {
        None => (z, n),
        Some(y) => {
            let (z2, n2) = goto_target(t, y, n as int, (z, n));
            if abs(dir) > 1 {
                step_z_target(t, z2, n2, dir - sign(dir))
            } else {
                (z2, n2)
            }
        },
    }
}

/// The first stable nuclide among `s`.
pub open spec fn first_stable(t: &Table, s: Seq<int>) -> Option<int>
    decreases s.len(),
{
    if s.len() == 0 {
        None
    } else if t.all@[s[0]].stable {
        Some(s[0])
    } else {
        first_stable(t, s.drop_first())
    }
}

/// Walking across elements from Z = `z` in steps of `dir`: the first stable
/// nuclide met, unless the walk leaves 1..=z_max or `fuel` runs out.
pub open spec fn walk_stable(t: &Table, z: int, dir: int, fuel: nat) -> Option<int>
    decreases fuel,
{
    if fuel == 0 {
        None
    } else {
        let y = z + dir;
        if y < 1 || y > t.z_max {
            None
        } else {
            match first_stable(t, t.isotopes(y)) {
                Some(i) => Some(i),
                None => walk_stable(t, y, dir, (fuel - 1) as nat),
            }
        }
    }
}

impl App {
    /// Everything but the cursor is as in `other`.
    pub open spec fn same_but_cursor(&self, other: &App) -> bool {
        &&& self.mode == other.mode
        &&& self.view == other.view
        &&& self.top_z == other.top_z
        &&& self.left_n == other.left_n
        &&& self.drawn_at == other.drawn_at
        &&& self.chat@ == other.chat@
        &&& self.status == other.status
    }

    /// What [`App::cur`] gives: the nuclide at the cursor, or the table's
    /// first.
    pub open spec fn cur_spec(&self, t: &Table) -> Nuclide {
        match t.at(self.z as int, self.n as int) {
            Some(i) => t.all@[i],
            None => t.all@[0],
        }
    }

    /// The nuclide under the cursor, or the first of the table if the
    /// cursor is on an empty place.
    pub fn cur<'a>(&self, t: &'a Table) -> (r: &'a Nuclide)
        requires
            t.wf(),
            t.all@.len() > 0,
        ensures
            *r == self.cur_spec(t),
    {
        match t.get(self.z, self.n) {
            Some(nuc) => nuc,
            None => &t.all[0],
        }
    }

    /// Puts a message on the status line.
    pub fn say(&mut self, msg: &str, rgb: (u8, u8, u8))
        ensures
            final(self).status matches Some((m, c)) && m@ == msg@ && c == rgb,
            final(self).z == old(self).z,
            final(self).n == old(self).n,
            final(self).mode == old(self).mode,
            final(self).view == old(self).view,
            final(self).top_z == old(self).top_z,
            final(self).left_n == old(self).left_n,
            final(self).drawn_at == old(self).drawn_at,
            final(self).chat@ == old(self).chat@,
    {
        self.status = Some((String::from_str(msg), rgb));
    }

    /// Moves to (Z, N); if the table has no such nuclide, to the isotope of
    /// element Z nearest in N; if the element has none, nowhere.
    pub fn goto(&mut self, t: &Table, z: u32, n: u32)
        requires
            t.wf(),
            n <= i32::MAX,
        ensures
            (final(self).z, final(self).n) == goto_target(t, z as int, n as int, (old(self).z, old(self).n)),
            final(self).same_but_cursor(old(self)),
    {
        if t.get(z, n).is_some() {
            self.z = z;
            self.n = n;
            return;
        }
        // Land on the nearest nuclide of that element instead of nowhere.
        let iso = t.isotopes_of(z);
        proof {
            isotopes_law(t, z as int);
        }
        if iso.len() > 0 {
            let ghost s = t.isotopes(z as int);
            let mut best = iso[0];
            proof {
                assert(iso@[0] as int == s[0]);
                assert(fits(t.all@[best as int]));
            }
            let mut best_d = abs_i32(t.all[best].n as i32 - n as i32);
            let mut k: usize = 1;
            while k < iso.len()
                invariant
                    t.wf(),
                    n <= i32::MAX,
                    iso@.len() == s.len(),
                    s == t.isotopes(z as int),
                    forall|j: int| 0 <= j < iso@.len() ==> iso@[j] as int == #[trigger] s[j],
                    forall|j: int| 0 <= j < s.len() ==> 0 <= #[trigger] s[j] < t.all@.len(),
                    1 <= k <= iso@.len(),
                    best as int == nearest(t, s.take(k as int), n as int),
                    best < t.all@.len(),
                    best_d as int == distance(t, best as int, n as int),
                decreases iso@.len() - k,
            {
                let i = iso[k];
                proof {
                    assert(iso@[k as int] as int == s[k as int]);
                    assert(fits(t.all@[i as int]));
                    assert(s.take(k + 1).drop_last() =~= s.take(k as int));
                }
                let d = abs_i32(t.all[i].n as i32 - n as i32);
                if d < best_d {
                    best = i;
                    best_d = d;
                }
                k = k + 1;
            }
            proof {
                assert(s.take(iso@.len() as int) =~= s);
            }
            self.z = t.all[best].z;
            self.n = t.all[best].n;
        }
    }

    /// Along an element's isotopes, skipping the gaps: the next N in the
    /// direction of `dir` (in steps of `dir`) that the table holds; the
    /// cursor stays if the walk leaves the chart first. A step of one place
    /// either way, from a place on the chart, lands on the nearest N that
    /// way the table holds for the element, or stays if there is none.
    pub fn step_n(&mut self, t: &Table, dir: i32)
        requires
            t.wf(),
            old(self).n <= LIMIT,
            i32::MIN <= old(self).n + dir <= i32::MAX,
        ensures
            final(self).n == match walk_n(t, old(self).z as int, old(self).n as int, dir as int, (t.n_max + 2) as nat) {
                Some(m) => m as u32,
                None => old(self).n,
            },
            (dir == 1 || dir == -1) && old(self).n <= t.n_max ==> lands_along(
                t,
                old(self).z as int,
                old(self).n as int,
                dir as int,
                final(self).n as int,
            ),
            final(self).z == old(self).z,
            final(self).same_but_cursor(old(self)),
    {
        self.walk_along(t, dir);
        proof {
            if (dir == 1 || dir == -1) && old(self).n <= t.n_max {
                step_n_law(t, old(self).z as int, old(self).n as int, dir as int);
                lemma_walk_n(t, old(self).z as int, old(self).n as int, dir as int, (t.n_max + 2) as nat);
            }
        }
    }

    /// The walk along N that `step_n` makes.
    fn walk_along(&mut self, t: &Table, dir: i32)
        requires
            t.wf(),
            old(self).n <= LIMIT,
            i32::MIN <= old(self).n + dir <= i32::MAX,
        ensures
            final(self).n == match walk_n(t, old(self).z as int, old(self).n as int, dir as int, (t.n_max + 2) as nat) {
                Some(m) => m as u32,
                None => old(self).n,
            },
            final(self).z == old(self).z,
            final(self).same_but_cursor(old(self)),
    {
        let mut n: i32 = self.n as i32;
        let rounds = t.n_max + 2;
        let mut k: u32 = 0;
        while k < rounds
            invariant
                t.wf(),
                rounds == t.n_max + 2,
                k <= rounds,
                self.n == old(self).n,
                self.z == old(self).z,
                self.same_but_cursor(old(self)),
                k == 0 ==> n == self.n,
                k > 0 ==> 0 <= n <= t.n_max && (dir > 0 ==> dir <= t.n_max),
                i32::MIN <= old(self).n + dir <= i32::MAX,
                walk_n(t, self.z as int, old(self).n as int, dir as int, (t.n_max + 2) as nat)
                    == walk_n(t, self.z as int, n as int, dir as int, (rounds - k) as nat),
            decreases rounds - k,
        {
            n = n + dir;
            if n < 0 || n > t.n_max as i32 {
                return;
            }
            if t.get(self.z, n as u32).is_some() {
                self.n = n as u32;
                return;
            }
            k = k + 1;
        }
    }

    /// Up or down an element, keeping as close to the same N as exists:
    /// |dir| elements that have isotopes, one at a time, or as many as
    /// there are that way.
    pub fn step_z(&mut self, t: &Table, dir: i32)
        requires
            t.wf(),
            old(self).z <= LIMIT,
            old(self).n <= LIMIT,
            dir > i32::MIN,
        ensures
            (final(self).z, final(self).n) == step_z_target(t, old(self).z, old(self).n, dir as int),
            final(self).z <= LIMIT,
            final(self).n <= LIMIT,
            final(self).same_but_cursor(old(self)),
        decreases abs(dir as int),
    {
        let mut z: i32 = self.z as i32;
        let s = sign_i32(dir);
        let rounds = t.z_max + 2;
        let mut k: u32 = 0;
        while k < rounds
            invariant
                t.wf(),
                rounds == t.z_max + 2,
                k <= rounds,
                s == sign(dir as int),
                dir > i32::MIN,
                self.z == old(self).z,
                self.n == old(self).n,
                self.z <= LIMIT,
                self.n <= LIMIT,
                self.same_but_cursor(old(self)),
                k == 0 ==> z == self.z,
                k > 0 ==> 0 <= z <= t.z_max,
                walk_z(t, self.z as int, s as int, (t.z_max + 2) as nat)
                    == walk_z(t, z as int, s as int, (rounds - k) as nat),
            decreases rounds - k,
        {
            z = z + s;
            if z < 0 || z > t.z_max as i32 {
                return;
            }
            if t.isotopes_of(z as u32).len() > 0 {
                let want = self.n;
                proof {
                    isotopes_law(t, z as int);
                    assert(t.isotopes(z as int).len() > 0);
                    let i = nearest(t, t.isotopes(z as int), want as int);
                    lemma_nearest_in(t, t.isotopes(z as int), want as int);
                    assert(fits(t.all@[i]));
                }
                self.goto(t, z as u32, want);
                if abs_i32(dir) > 1 {
                    self.step_z(t, dir - s);
                }
                return;
            }
            k = k + 1;
        }
    }

    /// To the lightest or, with `last`, the heaviest isotope of this element.
    pub fn jump_edge(&mut self, t: &Table, last: bool)
        requires
            t.wf(),
        ensures
            final(self).n == if t.isotopes(old(self).z as int).len() == 0 {
                old(self).n
            } else if last {
                t.all@[t.isotopes(old(self).z as int).last()].n
            } else {
                t.all@[t.isotopes(old(self).z as int)[0]].n
            },
            final(self).z == old(self).z,
            final(self).same_but_cursor(old(self)),
    {
        let iso = t.isotopes_of(self.z);
        proof {
            isotopes_law(t, self.z as int);
        }
        if iso.len() > 0 {
            let i = if last {
                iso[iso.len() - 1]
            } else {
                iso[0]
            };
            proof {
                assert(iso@[iso@.len() - 1] as int == t.isotopes(self.z as int)[iso@.len() - 1]);
                assert(iso@[0] as int == t.isotopes(self.z as int)[0]);
            }
            self.n = t.all[i].n;
        }
    }

    /// The next stable nuclide up or down the chart, element by element in
    /// steps of `dir`: a quick way to walk the valley floor. The cursor
    /// stays if there is none that way. One element at a time either way,
    /// from a place on the chart, it lands on the nearest element that way
    /// with a stable nuclide, on its lightest stable one.
    pub fn next_stable(&mut self, t: &Table, dir: i32)
        requires
            t.wf(),
            old(self).z <= LIMIT,
            i32::MIN <= old(self).z + dir <= i32::MAX,
        ensures
            (final(self).z, final(self).n) == match walk_stable(t, old(self).z as int, dir as int, (t.z_max + 2) as nat) {
                Some(i) => (t.all@[i].z, t.all@[i].n),
                None => (old(self).z, old(self).n),
            },
            (dir == 1 || dir == -1) && old(self).z <= t.z_max ==> lands_stable(
                t,
                old(self).z as int,
                old(self).n as int,
                dir as int,
                final(self).z as int,
                final(self).n as int,
            ),
            final(self).same_but_cursor(old(self)),
    {
        self.walk_to_stable(t, dir);
        proof {
            if (dir == 1 || dir == -1) && old(self).z <= t.z_max {
                next_stable_law(t, old(self).z as int, old(self).n as int, dir as int);
            }
        }
    }

    /// The walk across elements that `next_stable` makes.
    fn walk_to_stable(&mut self, t: &Table, dir: i32)
        requires
            t.wf(),
            old(self).z <= LIMIT,
            i32::MIN <= old(self).z + dir <= i32::MAX,
        ensures
            (final(self).z, final(self).n) == match walk_stable(t, old(self).z as int, dir as int, (t.z_max + 2) as nat) {
                Some(i) => (t.all@[i].z, t.all@[i].n),
                None => (old(self).z, old(self).n),
            },
            final(self).same_but_cursor(old(self)),
    {
        let mut z: i32 = self.z as i32;
        let rounds = t.z_max + 2;
        let mut k: u32 = 0;
        while k < rounds
            invariant
                t.wf(),
                rounds == t.z_max + 2,
                k <= rounds,
                self.z == old(self).z,
                self.n == old(self).n,
                self.same_but_cursor(old(self)),
                k == 0 ==> z == self.z,
                k > 0 ==> 1 <= z <= t.z_max && (dir > 0 ==> dir <= t.z_max),
                i32::MIN <= old(self).z + dir <= i32::MAX,
                walk_stable(t, self.z as int, dir as int, (t.z_max + 2) as nat)
                    == walk_stable(t, z as int, dir as int, (rounds - k) as nat),
            decreases rounds - k,
        {
            z = z + dir;
            if z < 1 || z > t.z_max as i32 {
                return;
            }
            let iso = t.isotopes_of(z as u32);
            proof {
                isotopes_law(t, z as int);
            }
            let ghost s = t.isotopes(z as int);
            let ghost goal = walk_stable(t, old(self).z as int, dir as int, (t.z_max + 2) as nat);
            proof {
                assert(s.skip(0) =~= s);
                assert(goal == match first_stable(t, s) {
                    Some(i) => Some(i),
                    None => walk_stable(t, z as int, dir as int, (rounds - k - 1) as nat),
                });
            }
            let mut j: usize = 0;
            while j < iso.len()
                invariant
                    t.wf(),
                    s == t.isotopes(z as int),
                    iso@.len() == s.len(),
                    forall|q: int| 0 <= q < iso@.len() ==> iso@[q] as int == #[trigger] s[q],
                    forall|q: int| 0 <= q < s.len() ==> 0 <= #[trigger] s[q] < t.all@.len(),
                    j <= iso@.len(),
                    first_stable(t, s) == first_stable(t, s.skip(j as int)),
                    self.z == old(self).z,
                    self.n == old(self).n,
                    self.same_but_cursor(old(self)),
                    goal == walk_stable(t, old(self).z as int, dir as int, (t.z_max + 2) as nat),
                    goal == match first_stable(t, s) {
                        Some(i) => Some(i),
                        None => walk_stable(t, z as int, dir as int, (rounds - k - 1) as nat),
                    },
                decreases iso@.len() - j,
            {
                let i = iso[j];
                proof {
                    assert(iso@[j as int] as int == s[j as int]);
                    assert(s.skip(j as int)[0] == s[j as int]);
                    assert(s.skip(j as int).drop_first() =~= s.skip(j + 1));
                }
                if t.all[i].is_stable() {
                    self.z = t.all[i].z;
                    self.n = t.all[i].n;
                    return;
                }
                j = j + 1;
            }
            proof {
                assert(s.skip(iso@.len() as int) =~= Seq::<int>::empty());
            }
            k = k + 1;
        }
    }
}

/// How many colour modes there are.
pub const MODE_COUNT: usize = 5;

/// What the program around the browser does after a key: the outside work
/// the key asks for, before the next frame is drawn.
#[derive(Clone, Copy, PartialEq, Eq, Structural, Debug)]
pub enum Action {
    /// Nothing but drawing the next frame.
    Draw,
    /// Leave the program.
    Quit,
    /// Clear the screen, then draw.
    Clear,
    /// Show the decay chain of the nuclide under the cursor.
    ShowChain,
    /// Ask for a nuclide to find.
    Find,
    /// Ask for a question to put to the assistant.
    Ask,
    /// Write the table out as CSV.
    Export,
    /// Show the help.
    Help,
}

/// Where a key moves the cursor from (z, n).
pub open spec fn cursor_after(t: &Table, z: u32, n: u32, key: Seq<char>) -> (u32, u32) {
    let along = |dir: int|
        match walk_n(t, z as int, n as int, dir, (t.n_max + 2) as nat) {
            Some(m) => (z, m as u32),
            None => (z, n),
        };
    let edge = |last: bool|
        if t.isotopes(z as int).len() == 0 {
            (z, n)
        } else if last {
            (z, t.all@[t.isotopes(z as int).last()].n)
        } else {
            (z, t.all@[t.isotopes(z as int)[0]].n)
        };
    let stable = |dir: int|
        match walk_stable(t, z as int, dir, (t.z_max + 2) as nat) {
            Some(i) => (t.all@[i].z, t.all@[i].n),
            None => (z, n),
        };
    if key == "RIGHT"@ || key == "l"@ {
        along(1)
    } else if key == "LEFT"@ || key == "h"@ {
        along(-1)
    } else if key == "UP"@ || key == "k"@ {
        step_z_target(t, z, n, 1)
    } else if key == "DOWN"@ || key == "j"@ {
        step_z_target(t, z, n, -1)
    } else if key == "PgUP"@ || key == "K"@ {
        step_z_target(t, z, n, 10)
    } else if key == "PgDOWN"@ || key == "J"@ {
        step_z_target(t, z, n, -10)
    } else if key == "HOME"@ {
        edge(false)
    } else if key == "END"@ {
        edge(true)
    } else if key == "g"@ {
        goto_target(t, 1, 0, (z, n))
    } else if key == "G"@ {
        goto_target(t, t.z_max as int, 0, (z, n))
    } else if key == "TAB"@ {
        stable(1)
    } else if key == "S-TAB"@ {
        stable(-1)
    } else {
        (z, n)
    }
}

/// The colour mode after a key: a digit picks one, `m` and `M` cycle
/// forward and back.
pub open spec fn mode_after(mode: usize, key: Seq<char>) -> usize {
    if key == "1"@ {
        0
    } else if key == "2"@ {
        1
    } else if key == "3"@ {
        2
    } else if key == "4"@ {
        3
    } else if key == "5"@ {
        4
    } else if key == "m"@ {
        ((mode + 1) % (MODE_COUNT as int)) as usize
    } else if key == "M"@ {
        ((mode + MODE_COUNT - 1) % (MODE_COUNT as int)) as usize
    } else {
        mode
    }
}

/// What the program does after a key.
pub open spec fn action_of(key: Seq<char>) -> Action {
    if key == "q"@ || key == "Q"@ {
        Action::Quit
    } else if key == "z"@ || key == "r"@ || key == "C-L"@ || key == "RESIZE"@ {
        Action::Clear
    } else if key == "ENTER"@ {
        Action::ShowChain
    } else if key == "/"@ {
        Action::Find
    } else if key == "c"@ {
        Action::Ask
    } else if key == "e"@ {
        Action::Export
    } else if key == "?"@ {
        Action::Help
    } else {
        Action::Draw
    }
}

impl App {
    /// One key: moves the cursor, switches the colour mode or the view,
    /// and says what outside work comes next. `z` swaps the chart and the
    /// overview; it and `r` (or `C-L`) forget the window last drawn, so
    /// the next frame starts clean.
    pub fn on_key(&mut self, t: &Table, key: &str) -> (a: Action)
        requires
            t.wf(),
            old(self).z <= LIMIT,
            old(self).n <= LIMIT,
            old(self).mode + MODE_COUNT <= usize::MAX,
        ensures
            a == action_of(key@),
            (final(self).z, final(self).n) == cursor_after(t, old(self).z, old(self).n, key@),
            final(self).mode == mode_after(old(self).mode, key@),
            final(self).view == if key@ == "z"@ {
                if old(self).view == Screen::Chart {
                    Screen::Overview
                } else {
                    Screen::Chart
                }
            } else {
                old(self).view
            },
            final(self).drawn_at == if key@ == "z"@ || key@ == "r"@ || key@ == "C-L"@ {
                None
            } else {
                old(self).drawn_at
            },
            final(self).top_z == old(self).top_z,
            final(self).left_n == old(self).left_n,
            final(self).chat@ == old(self).chat@,
            final(self).status == old(self).status,
    {
        if same(key, "RIGHT") || same(key, "l") {
            self.step_n(t, 1);
        } else if same(key, "LEFT") || same(key, "h") {
            self.step_n(t, -1);
        } else if same(key, "UP") || same(key, "k") {
            self.step_z(t, 1);
        } else if same(key, "DOWN") || same(key, "j") {
            self.step_z(t, -1);
        } else if same(key, "PgUP") || same(key, "K") {
            self.step_z(t, 10);
        } else if same(key, "PgDOWN") || same(key, "J") {
            self.step_z(t, -10);
        } else if same(key, "HOME") {
            self.jump_edge(t, false);
        } else if same(key, "END") {
            self.jump_edge(t, true);
        } else if same(key, "g") {
            self.goto(t, 1, 0);
        } else if same(key, "G") {
            self.goto(t, t.z_max, 0);
        } else if same(key, "TAB") {
            self.next_stable(t, 1);
        } else if same(key, "S-TAB") {
            self.next_stable(t, -1);
        }
        if same(key, "1") {
            self.mode = 0;
        } else if same(key, "2") {
            self.mode = 1;
        } else if same(key, "3") {
            self.mode = 2;
        } else if same(key, "4") {
            self.mode = 3;
        } else if same(key, "5") {
            self.mode = 4;
        } else if same(key, "m") {
            self.mode = (self.mode + 1) % MODE_COUNT;
        } else if same(key, "M") {
            self.mode = (self.mode + MODE_COUNT - 1) % MODE_COUNT;
        }
        if same(key, "z") {
            self.view = if self.view == Screen::Chart {
                Screen::Overview
            } else {
                Screen::Chart
            };
            self.drawn_at = None;
        } else if same(key, "r") || same(key, "C-L") {
            self.drawn_at = None;
        }
        if same(key, "q") || same(key, "Q") {
            Action::Quit
        } else if same(key, "z") || same(key, "r") || same(key, "C-L") || same(key, "RESIZE") {
            Action::Clear
        } else if same(key, "ENTER") {
            Action::ShowChain
        } else if same(key, "/") {
            Action::Find
        } else if same(key, "c") {
            Action::Ask
        } else if same(key, "e") {
            Action::Export
        } else if same(key, "?") {
            Action::Help
        } else {
            Action::Draw
        }
    }
}

/// The arrow keys and Tab, from a place on the chart: Right (or `l`) and
/// Left (or `h`) keep the element and land on the nearest N above, or
/// below, that the table holds for it, or stay where there is none; Tab
/// and Shift-Tab land on the nearest element up, or down, with a stable
/// nuclide, on its lightest stable one, or stay where there is none.
pub proof fn arrow_keys_law(t: &Table, z: u32, n: u32)
    requires
        t.wf(),
        z <= t.z_max,
        n <= t.n_max,
    ensures
        cursor_after(t, z, n, "RIGHT"@).0 == z && lands_along(t, z as int, n as int, 1, cursor_after(t, z, n, "RIGHT"@).1 as int),
        cursor_after(t, z, n, "l"@).0 == z && lands_along(t, z as int, n as int, 1, cursor_after(t, z, n, "l"@).1 as int),
        cursor_after(t, z, n, "LEFT"@).0 == z && lands_along(t, z as int, n as int, -1, cursor_after(t, z, n, "LEFT"@).1 as int),
        cursor_after(t, z, n, "h"@).0 == z && lands_along(t, z as int, n as int, -1, cursor_after(t, z, n, "h"@).1 as int),
        lands_stable(
            t,
            z as int,
            n as int,
            1,
            cursor_after(t, z, n, "TAB"@).0 as int,
            cursor_after(t, z, n, "TAB"@).1 as int,
        ),
        lands_stable(
            t,
            z as int,
            n as int,
            -1,
            cursor_after(t, z, n, "S-TAB"@).0 as int,
            cursor_after(t, z, n, "S-TAB"@).1 as int,
        ),
        lands_across(t, z as int, n as int, 1, cursor_after(t, z, n, "UP"@).0 as int, cursor_after(t, z, n, "UP"@).1 as int),
        lands_across(t, z as int, n as int, 1, cursor_after(t, z, n, "k"@).0 as int, cursor_after(t, z, n, "k"@).1 as int),
        lands_across(t, z as int, n as int, -1, cursor_after(t, z, n, "DOWN"@).0 as int, cursor_after(t, z, n, "DOWN"@).1 as int),
        lands_across(t, z as int, n as int, -1, cursor_after(t, z, n, "j"@).0 as int, cursor_after(t, z, n, "j"@).1 as int),
{
    reveal_strlit("RIGHT");
    reveal_strlit("l");
    reveal_strlit("LEFT");
    reveal_strlit("h");
    reveal_strlit("UP");
    reveal_strlit("k");
    reveal_strlit("DOWN");
    reveal_strlit("j");
    reveal_strlit("PgUP");
    reveal_strlit("K");
    reveal_strlit("PgDOWN");
    reveal_strlit("J");
    reveal_strlit("HOME");
    reveal_strlit("END");
    reveal_strlit("g");
    reveal_strlit("G");
    reveal_strlit("TAB");
    reveal_strlit("S-TAB");
    assert("LEFT"@.len() != "RIGHT"@.len());
    assert("LEFT"@.len() != "l"@.len());
    assert("h"@.len() != "RIGHT"@.len());
    assert("h"@[0] != "l"@[0]);
    assert("h"@.len() != "LEFT"@.len());
    assert("TAB"@.len() != "RIGHT"@.len());
    assert("TAB"@.len() != "l"@.len());
    assert("TAB"@.len() != "LEFT"@.len());
    assert("TAB"@.len() != "h"@.len());
    assert("TAB"@.len() != "UP"@.len());
    assert("TAB"@.len() != "k"@.len());
    assert("TAB"@.len() != "DOWN"@.len());
    assert("TAB"@.len() != "j"@.len());
    assert("TAB"@.len() != "PgUP"@.len());
    assert("TAB"@.len() != "K"@.len());
    assert("TAB"@.len() != "PgDOWN"@.len());
    assert("TAB"@.len() != "J"@.len());
    assert("TAB"@.len() != "HOME"@.len());
    assert("TAB"@[0] != "END"@[0]);
    assert("TAB"@.len() != "g"@.len());
    assert("TAB"@.len() != "G"@.len());
    assert("S-TAB"@[0] != "RIGHT"@[0]);
    assert("S-TAB"@.len() != "l"@.len());
    assert("S-TAB"@.len() != "LEFT"@.len());
    assert("S-TAB"@.len() != "h"@.len());
    assert("S-TAB"@.len() != "UP"@.len());
    assert("S-TAB"@.len() != "k"@.len());
    assert("S-TAB"@.len() != "DOWN"@.len());
    assert("S-TAB"@.len() != "j"@.len());
    assert("S-TAB"@.len() != "PgUP"@.len());
    assert("S-TAB"@.len() != "K"@.len());
    assert("S-TAB"@.len() != "PgDOWN"@.len());
    assert("S-TAB"@.len() != "J"@.len());
    assert("S-TAB"@.len() != "HOME"@.len());
    assert("S-TAB"@.len() != "END"@.len());
    assert("S-TAB"@.len() != "g"@.len());
    assert("S-TAB"@.len() != "G"@.len());
    assert("S-TAB"@.len() != "TAB"@.len());
    step_n_law(t, z as int, n as int, 1);
    step_n_law(t, z as int, n as int, -1);
    lemma_walk_n(t, z as int, n as int, 1, (t.n_max + 2) as nat);
    lemma_walk_n(t, z as int, n as int, -1, (t.n_max + 2) as nat);
    next_stable_law(t, z as int, n as int, 1);
    next_stable_law(t, z as int, n as int, -1);
    assert("UP"@.len() != "RIGHT"@.len());
    assert("UP"@.len() != "l"@.len());
    assert("UP"@.len() != "LEFT"@.len());
    assert("UP"@.len() != "h"@.len());
    assert("k"@.len() != "RIGHT"@.len());
    assert("k"@[0] != "l"@[0]);
    assert("k"@.len() != "LEFT"@.len());
    assert("k"@[0] != "h"@[0]);
    assert("k"@.len() != "UP"@.len());
    assert("DOWN"@.len() != "RIGHT"@.len());
    assert("DOWN"@.len() != "l"@.len());
    assert("DOWN"@[0] != "LEFT"@[0]);
    assert("DOWN"@.len() != "h"@.len());
    assert("DOWN"@.len() != "UP"@.len());
    assert("DOWN"@.len() != "k"@.len());
    assert("j"@.len() != "RIGHT"@.len());
    assert("j"@[0] != "l"@[0]);
    assert("j"@.len() != "LEFT"@.len());
    assert("j"@[0] != "h"@[0]);
    assert("j"@.len() != "UP"@.len());
    assert("j"@[0] != "k"@[0]);
    assert("j"@.len() != "DOWN"@.len());
    step_z_law(t, z, n, 1);
    step_z_law(t, z, n, -1);
}

/// The nearest isotope is one of the candidates.
pub proof fn lemma_nearest_in(t: &Table, s: Seq<int>, n: int)
    requires
        s.len() > 0,
    ensures
        s.contains(nearest(t, s, n)),
    decreases s.len(),
{
    if s.len() > 1 {
        lemma_nearest_in(t, s.drop_last(), n);
        let b = nearest(t, s.drop_last(), n);
        if b != nearest(t, s, n) {
            assert(s[s.len() - 1] == s.last());
        } else {
            let j = choose|j: int| 0 <= j < s.drop_last().len() && s.drop_last()[j] == b;
            assert(s[j] == b);
        }
    } else {
        assert(s[0] == nearest(t, s, n));
    }
}

/// The nearest isotope is no farther in N than any other candidate.
pub proof fn lemma_nearest_min(t: &Table, s: Seq<int>, n: int)
    requires
        s.len() > 0,
    ensures
        forall|j: int| 0 <= j < s.len() ==> distance(t, nearest(t, s, n), n) <= distance(t, #[trigger] s[j], n),
    decreases s.len(),
{
    if s.len() > 1 {
        lemma_nearest_min(t, s.drop_last(), n);
        lemma_nearest_in(t, s.drop_last(), n);
        let p = s.drop_last();
        assert forall|j: int| 0 <= j < s.len() implies distance(t, nearest(t, s, n), n) <= distance(t, #[trigger] s[j], n) by {
            if j < p.len() {
                assert(p[j] == s[j]);
            }
        }
    }
}

/// `goto` lands on the place asked for when the table holds it; otherwise
/// on a nuclide of the element asked for, no farther in N from the place
/// asked for than any other isotope of it; and it leaves the cursor where
/// it was only when the element has no isotopes at all.
pub proof fn goto_law(t: &Table, z: int, n: int, from: (u32, u32))
    requires
        t.wf(),
        0 <= z,
        0 <= n,
    ensures
        t.at(z, n) is Some ==> goto_target(t, z, n, from) == (z as u32, n as u32),
        t.isotopes(z).len() > 0 ==> goto_target(t, z, n, from).0 == z && t.at(
            z,
            goto_target(t, z, n, from).1 as int,
        ) is Some,
        t.at(z, n) is None && t.isotopes(z).len() > 0 ==> forall|j: int|
            0 <= j < t.isotopes(z).len() ==> abs(goto_target(t, z, n, from).1 - n) <= abs(
                t.all@[#[trigger] t.isotopes(z)[j]].n - n,
            ),
        t.isotopes(z).len() == 0 ==> goto_target(t, z, n, from) == from,
{
    isotopes_law(t, z);
    t.lemma_at(z, n);
    if t.at(z, n) is Some {
        let i = t.at(z, n).unwrap();
        assert(t.isotopes(z).contains(i));
    }
    if t.isotopes(z).len() > 0 && t.at(z, n) is None {
        let s = t.isotopes(z);
        lemma_nearest_in(t, s, n);
        lemma_nearest_min(t, s, n);
        let q = choose|q: int| 0 <= q < s.len() && s[q] == nearest(t, s, n);
        assert(t.at(z, t.all@[s[q]].n as int) == Some(s[q]));
    }
}

/// Every move keeps a cursor that stands on a nuclide on one: `goto`, a
/// step along N, a step across Z, a jump to either end of an element, and
/// a jump to the next stable nuclide (which is stable).
pub proof fn cursor_stays_on_chart_law(t: &Table, z: u32, n: u32, dir: int, z2: int, n2: int)
    requires
        t.wf(),
        t.at(z as int, n as int) is Some,
        0 <= z2,
        0 <= n2,
    ensures
        t.at(goto_target(t, z2, n2, (z, n)).0 as int, goto_target(t, z2, n2, (z, n)).1 as int) is Some,
        walk_n(t, z as int, n as int, dir, (t.n_max + 2) as nat) matches Some(m) ==> t.at(z as int, m) is Some,
        t.at(step_z_target(t, z, n, dir).0 as int, step_z_target(t, z, n, dir).1 as int) is Some,
        t.isotopes(z as int).len() > 0,
        t.at(z as int, t.all@[t.isotopes(z as int)[0]].n as int) is Some,
        t.at(z as int, t.all@[t.isotopes(z as int).last()].n as int) is Some,
        walk_stable(t, z as int, dir, (t.z_max + 2) as nat) matches Some(i) ==> 0 <= i < t.all@.len()
            && t.all@[i].stable && t.at(t.all@[i].z as int, t.all@[i].n as int) == Some(i),
{
    goto_law(t, z2, n2, (z, n));
    lemma_walk_n(t, z as int, n as int, dir, (t.n_max + 2) as nat);
    lemma_step_z(t, z, n, dir);
    isotopes_law(t, z as int);
    assert(t.isotopes(z as int).contains(t.at(z as int, n as int).unwrap()));
    lemma_walk_stable(t, z as int, dir, (t.z_max + 2) as nat);
}

proof fn lemma_walk_n(t: &Table, z: int, n: int, dir: int, fuel: nat)
    ensures
        walk_n(t, z, n, dir, fuel) matches Some(m) ==> t.at(z, m) is Some && 0 <= m <= t.n_max,
    decreases fuel,
{
    if fuel > 0 {
        lemma_walk_n(t, z, n + dir, dir, (fuel - 1) as nat);
    }
}

proof fn lemma_step_z(t: &Table, z: u32, n: u32, dir: int)
    requires
        t.wf(),
        t.at(z as int, n as int) is Some,
    ensures
        t.at(step_z_target(t, z, n, dir).0 as int, step_z_target(t, z, n, dir).1 as int) is Some,
    decreases abs(dir),
{
    lemma_walk_z(t, z as int, sign(dir), (t.z_max + 2) as nat);
    match walk_z(t, z as int, sign(dir), (t.z_max + 2) as nat) {
        None => {},
        Some(y) => {
            goto_law(t, y, n as int, (z, n));
            let (z2, n2) = goto_target(t, y, n as int, (z, n));
            if abs(dir) > 1 {
                lemma_step_z(t, z2, n2, dir - sign(dir));
            }
        },
    }
}

proof fn lemma_walk_z(t: &Table, z: int, s: int, fuel: nat)
    ensures
        walk_z(t, z, s, fuel) matches Some(y) ==> 0 <= y <= t.z_max && t.isotopes(y).len() > 0,
    decreases fuel,
{
    if fuel > 0 {
        lemma_walk_z(t, z + s, s, (fuel - 1) as nat);
    }
}

/// Element `y` has a nuclide in the table.
pub open spec fn held(t: &Table, y: int) -> bool {
    exists|m: int| #[trigger] t.at(y, m) is Some
}

/// (`z2`, `n2`) is where a step of one element from (`z`, `n`) in the
/// direction of `dir` lands: on the nearest element that way that the table
/// holds any nuclide of, on a nuclide of it no farther in N from `n` than any
/// other; or on (`z`, `n`) itself when no element that way has one.
pub open spec fn lands_across(t: &Table, z: int, n: int, dir: int, z2: int, n2: int) -> bool {
    if exists|y: int| 0 <= y <= t.z_max && beyond(z, y, dir) && #[trigger] held(t, y) {
        &&& 0 <= z2 <= t.z_max
        &&& beyond(z, z2, dir)
        &&& t.at(z2, n2) is Some
        &&& forall|y: int| 0 <= y <= t.z_max && beyond(z, y, dir) && beyond(y, z2, dir) ==> !#[trigger] held(t, y)
        &&& forall|m: int| #[trigger] t.at(z2, m) is Some ==> abs(n2 - n) <= abs(m - n)
    } else {
        z2 == z && n2 == n
    }
}

/// Element `y` has isotopes exactly when the table holds a nuclide of it.
proof fn lemma_held(t: &Table, y: int)
    requires
        t.wf(),
    ensures
        held(t, y) <==> t.isotopes(y).len() > 0,
{
    isotopes_law(t, y);
    if t.isotopes(y).len() > 0 {
        let i = t.isotopes(y)[0];
        assert(t.at(y, t.all@[i].n as int) is Some);
    }
    if held(t, y) {
        let m = choose|m: int| #[trigger] t.at(y, m) is Some;
        assert(t.isotopes(y).contains(t.at(y, m).unwrap()));
    }
}

proof fn lemma_walk_z_nearest(t: &Table, z: int, dir: int, fuel: nat)
    requires
        t.wf(),
        -1 <= z <= t.z_max + 1,
        dir == 1 || dir == -1,
        dir == 1 ==> z + fuel > t.z_max,
        dir == -1 ==> z - fuel < 0,
    ensures
        walk_z(t, z, dir, fuel) matches Some(y) ==> 0 <= y <= t.z_max && beyond(z, y, dir) && held(t, y)
            && forall|y2: int| 0 <= y2 <= t.z_max && beyond(z, y2, dir) && beyond(y2, y, dir) ==> !#[trigger] held(t, y2),
        walk_z(t, z, dir, fuel) is None ==> forall|y2: int|
            0 <= y2 <= t.z_max && beyond(z, y2, dir) ==> !#[trigger] held(t, y2),
    decreases fuel,
{
    if fuel > 0 {
        let y = z + dir;
        if 0 <= y <= t.z_max {
            lemma_held(t, y);
            if t.isotopes(y).len() == 0 {
                lemma_walk_z_nearest(t, y, dir, (fuel - 1) as nat);
                assert forall|y2: int| 0 <= y2 <= t.z_max && beyond(z, y2, dir) && !beyond(y, y2, dir)
                    implies !#[trigger] held(t, y2) by {
                    assert(y2 == y);
                }
            }
        }
    }
}

/// A step of one element up or down, from a place on the chart, lands on
/// the nearest element that way that the table holds a nuclide of, as near
/// the same N as that element has; when none is held that way, the cursor
/// stays.
pub proof fn step_z_law(t: &Table, z: u32, n: u32, dir: int)
    requires
        t.wf(),
        z <= t.z_max,
        dir == 1 || dir == -1,
    ensures
        lands_across(t, z as int, n as int, dir, step_z_target(t, z, n, dir).0 as int, step_z_target(t, z, n, dir).1 as int),
{
    lemma_walk_z_nearest(t, z as int, dir, (t.z_max + 2) as nat);
    assert(sign(dir) == dir);
    match walk_z(t, z as int, dir, (t.z_max + 2) as nat) {
        None => {},
        Some(y) => {
            goto_law(t, y, n as int, (z, n));
            isotopes_law(t, y);
            t.lemma_at(y, n as int);
            let (z2, n2) = goto_target(t, y, n as int, (z, n));
            assert(z2 as int == y);
            assert forall|m: int| #[trigger] t.at(y, m) is Some implies abs(n2 - n) <= abs(m - n) by {
                t.lemma_at(y, m);
                let i = t.at(y, m).unwrap();
                assert(t.isotopes(y).contains(i));
                let q = choose|q: int| 0 <= q < t.isotopes(y).len() && t.isotopes(y)[q] == i;
                assert(t.all@[t.isotopes(y)[q]].n == m);
            }
        },
    }
}

proof fn lemma_first_stable(t: &Table, s: Seq<int>)
    ensures
        first_stable(t, s) matches Some(i) ==> s.contains(i) && t.all@[i].stable,
    decreases s.len(),
{
    if s.len() > 0 && !t.all@[s[0]].stable {
        lemma_first_stable(t, s.drop_first());
        if let Some(i) = first_stable(t, s.drop_first()) {
            let q = choose|q: int| 0 <= q < s.drop_first().len() && s.drop_first()[q] == i;
            assert(s[q + 1] == i);
        }
    } else if s.len() > 0 {
        assert(s[0] == s[0]);
    }
}

proof fn lemma_walk_stable(t: &Table, z: int, dir: int, fuel: nat)
    requires
        t.wf(),
    ensures
        walk_stable(t, z, dir, fuel) matches Some(i) ==> 0 <= i < t.all@.len() && t.all@[i].stable
            && t.at(t.all@[i].z as int, t.all@[i].n as int) == Some(i),
    decreases fuel,
{
    if fuel > 0 {
        let y = z + dir;
        if 1 <= y <= t.z_max {
            isotopes_law(t, y);
            lemma_first_stable(t, t.isotopes(y));
            match first_stable(t, t.isotopes(y)) {
                Some(i) => {
                    let q = choose|q: int| 0 <= q < t.isotopes(y).len() && t.isotopes(y)[q] == i;
                    assert(t.at(y, t.all@[t.isotopes(y)[q]].n as int) == Some(t.isotopes(y)[q]));
                },
                None => {
                    lemma_walk_stable(t, y, dir, (fuel - 1) as nat);
                },
            }
        }
    }
}

/// The nearest isotope is the first of the nearest: every candidate before
/// it is strictly farther.
proof fn lemma_nearest_first(t: &Table, s: Seq<int>, n: int) -> (k: int)
    requires
        s.len() > 0,
    ensures
        0 <= k < s.len(),
        s[k] == nearest(t, s, n),
        forall|j: int| 0 <= j < k ==> distance(t, #[trigger] s[j], n) > distance(t, s[k], n),
    decreases s.len(),
{
    if s.len() == 1 {
        0
    } else {
        let p = s.drop_last();
        let kb = lemma_nearest_first(t, p, n);
        lemma_nearest_min(t, p, n);
        if distance(t, s.last(), n) < distance(t, nearest(t, p, n), n) {
            assert forall|j: int| 0 <= j < s.len() - 1 implies distance(t, #[trigger] s[j], n) > distance(
                t,
                s[s.len() - 1],
                n,
            ) by {
                assert(p[j] == s[j]);
            }
            s.len() - 1
        } else {
            assert forall|j: int| 0 <= j < kb implies distance(t, #[trigger] s[j], n) > distance(t, s[kb], n) by {
                assert(p[j] == s[j]);
            }
            assert(p[kb] == s[kb]);
            kb
        }
    }
}

/// Where `goto` finds no nuclide at the place asked for, it lands on the
/// lightest of the isotopes of the element that are nearest in N.
pub proof fn goto_lightest_law(t: &Table, z: int, n: int, from: (u32, u32))
    requires
        t.wf(),
        0 <= z,
        0 <= n,
        t.at(z, n) is None,
        t.isotopes(z).len() > 0,
    ensures
        forall|j: int|
            0 <= j < t.isotopes(z).len() && abs(t.all@[#[trigger] t.isotopes(z)[j]].n - n) == abs(
                goto_target(t, z, n, from).1 - n,
            ) ==> goto_target(t, z, n, from).1 <= t.all@[t.isotopes(z)[j]].n,
{
    isotopes_law(t, z);
    let s = t.isotopes(z);
    let k = lemma_nearest_first(t, s, n);
    assert forall|j: int|
        0 <= j < s.len() && abs(t.all@[#[trigger] s[j]].n - n) == abs(goto_target(t, z, n, from).1 - n)
        implies goto_target(t, z, n, from).1 <= t.all@[s[j]].n by {
        if j < k {
            assert(distance(t, s[j], n) > distance(t, s[k], n));
        } else if j > k {
            assert(t.all@[s[k]].n < t.all@[s[j]].n);
        }
    }
}

/// `m` lies beyond `n` in the direction of `dir`.
pub open spec fn beyond(n: int, m: int, dir: int) -> bool {
    if dir > 0 {
        m > n
    } else {
        m < n
    }
}

/// A step along N of one place either way, from a place on the chart, lands
/// on the nearest N that way that the table holds for the element, skipping
/// the gaps; when it holds none that way, the cursor stays.
pub proof fn step_n_law(t: &Table, z: int, n: int, dir: int)
    requires
        t.wf(),
        0 <= n <= t.n_max,
        dir == 1 || dir == -1,
    ensures
        lands_along(
            t,
            z,
            n,
            dir,
            match walk_n(t, z, n, dir, (t.n_max + 2) as nat) {
                Some(m) => m,
                None => n,
            },
        ),
        walk_n(t, z, n, dir, (t.n_max + 2) as nat) matches Some(m) ==> t.at(z, m) is Some && beyond(
            n,
            m,
            dir,
        ) && forall|m2: int| beyond(n, m2, dir) && beyond(m2, m, dir) ==> #[trigger] t.at(z, m2) is None,
        walk_n(t, z, n, dir, (t.n_max + 2) as nat) is None ==> forall|m2: int|
            beyond(n, m2, dir) ==> #[trigger] t.at(z, m2) is None,
{
    lemma_walk_n_nearest(t, z, n, dir, (t.n_max + 2) as nat);
    match walk_n(t, z, n, dir, (t.n_max + 2) as nat) {
        Some(m) => {
            assert(beyond(n, m, dir) && t.at(z, m) is Some);
        },
        None => {},
    }
}

/// `m` is where a step from N = `n` along element `z` in the direction of
/// `dir` lands: the nearest N beyond `n` that way that the table holds,
/// or `n` itself when it holds none that way.
pub open spec fn lands_along(t: &Table, z: int, n: int, dir: int, m: int) -> bool {
    if exists|m2: int| beyond(n, m2, dir) && #[trigger] t.at(z, m2) is Some {
        &&& t.at(z, m) is Some
        &&& beyond(n, m, dir)
        &&& forall|m2: int| beyond(n, m2, dir) && beyond(m2, m, dir) ==> #[trigger] t.at(z, m2) is None
    } else {
        m == n
    }
}

proof fn lemma_walk_n_nearest(t: &Table, z: int, n: int, dir: int, fuel: nat)
    requires
        t.wf(),
        -1 <= n <= t.n_max + 1,
        dir == 1 || dir == -1,
        dir == 1 ==> n + fuel > t.n_max,
        dir == -1 ==> n - fuel < 0,
    ensures
        walk_n(t, z, n, dir, fuel) matches Some(m) ==> t.at(z, m) is Some && beyond(n, m, dir) && forall|
            m2: int,
        | beyond(n, m2, dir) && beyond(m2, m, dir) ==> #[trigger] t.at(z, m2) is None,
        walk_n(t, z, n, dir, fuel) is None ==> forall|m2: int| beyond(n, m2, dir) ==> #[trigger] t.at(z, m2)
            is None,
    decreases fuel,
{
    if fuel == 0 {
        assert forall|m2: int| beyond(n, m2, dir) implies #[trigger] t.at(z, m2) is None by {
            t.lemma_at(z, m2);
        }
    } else {
        let m = n + dir;
        t.lemma_at(z, m);
        if m < 0 || m > t.n_max {
            assert forall|m2: int| beyond(n, m2, dir) implies #[trigger] t.at(z, m2) is None by {
                t.lemma_at(z, m2);
            }
        } else if t.at(z, m) is None {
            lemma_walk_n_nearest(t, z, m, dir, (fuel - 1) as nat);
            assert forall|m2: int| beyond(n, m2, dir) && !beyond(m, m2, dir) implies #[trigger] t.at(z, m2)
                is None by {
                assert(m2 == m);
            }
        }
    }
}

/// No place of element `y` holds a stable nuclide.
pub open spec fn none_stable(t: &Table, y: int) -> bool {
    forall|m: int| #[trigger] t.at(y, m) matches Some(j) ==> !t.all@[j].stable
}

/// A jump to the next stable nuclide, one element at a time either way,
/// from a place on the chart, lands on the nearest element that way (from
/// Z = 1 up) with a stable nuclide, on its lightest stable nuclide; when
/// there is none that way, the cursor stays.
pub proof fn next_stable_law(t: &Table, z: int, n: int, dir: int)
    requires
        t.wf(),
        0 <= z <= t.z_max,
        dir == 1 || dir == -1,
    ensures
        ({
            let (z2, n2) = match walk_stable(t, z, dir, (t.z_max + 2) as nat) {
                Some(i) => (t.all@[i].z as int, t.all@[i].n as int),
                None => (z, n),
            };
            lands_stable(t, z, n, dir, z2, n2)
        }),
        walk_stable(t, z, dir, (t.z_max + 2) as nat) matches Some(i) ==> {
            let y = t.all@[i].z as int;
            &&& 0 <= i < t.all@.len()
            &&& t.all@[i].stable
            &&& t.at(y, t.all@[i].n as int) == Some(i)
            &&& 1 <= y <= t.z_max
            &&& beyond(z, y, dir)
            &&& forall|y2: int| 1 <= y2 <= t.z_max && beyond(z, y2, dir) && beyond(y2, y, dir) ==> none_stable(t, y2)
            &&& forall|m: int| #[trigger] t.at(y, m) matches Some(j) && t.all@[j].stable ==> t.all@[i].n <= m
        },
        walk_stable(t, z, dir, (t.z_max + 2) as nat) is None ==> forall|y2: int|
            1 <= y2 <= t.z_max && beyond(z, y2, dir) ==> none_stable(t, y2),
{
    lemma_walk_stable_nearest(t, z, dir, (t.z_max + 2) as nat);
    match walk_stable(t, z, dir, (t.z_max + 2) as nat) {
        Some(i) => {
            let y = t.all@[i].z as int;
            assert(t.at(y, t.all@[i].n as int) == Some(i));
            assert(!none_stable(t, y));
        },
        None => {},
    }
}

/// (`z2`, `n2`) is where a jump from (`z`, `n`) to the next stable nuclide
/// in the direction of `dir` lands: on the nearest element that way (from
/// Z = 1 up) with a stable nuclide, on its lightest stable one; or on
/// (`z`, `n`) itself when no element that way has one.
pub open spec fn lands_stable(t: &Table, z: int, n: int, dir: int, z2: int, n2: int) -> bool {
    if exists|y: int| 1 <= y <= t.z_max && beyond(z, y, dir) && !#[trigger] none_stable(t, y) {
        &&& 1 <= z2 <= t.z_max
        &&& beyond(z, z2, dir)
        &&& (t.at(z2, n2) matches Some(j) && t.all@[j].stable)
        &&& forall|y: int| 1 <= y <= t.z_max && beyond(z, y, dir) && beyond(y, z2, dir) ==> #[trigger] none_stable(t, y)
        &&& forall|m: int| #[trigger] t.at(z2, m) matches Some(j) && t.all@[j].stable ==> n2 <= m
    } else {
        z2 == z && n2 == n
    }
}

/// The first stable nuclide of an element's isotopes is its lightest stable
/// one; and when there is none, no place of the element holds one.
proof fn lemma_first_stable_lightest(t: &Table, y: int, s: Seq<int>, k: int)
    requires
        t.wf(),
        0 <= k <= t.isotopes(y).len(),
        s == t.isotopes(y).skip(k),
        forall|q: int| 0 <= q < k ==> !t.all@[#[trigger] t.isotopes(y)[q]].stable,
    ensures
        first_stable(t, s) matches Some(i) ==> 0 <= i < t.all@.len() && t.all@[i].stable && t.all@[i].z
            == y && t.at(y, t.all@[i].n as int) == Some(i) && forall|m: int| #[trigger] t.at(y, m) matches Some(j)
            && t.all@[j].stable ==> t.all@[i].n <= m,
        first_stable(t, s) is None ==> none_stable(t, y),
    decreases s.len(),
{
    isotopes_law(t, y);
    let iso = t.isotopes(y);
    if s.len() == 0 {
        assert forall|m: int| #[trigger] t.at(y, m) is Some implies !t.all@[t.at(y, m).unwrap()].stable by {
            let j = t.at(y, m).unwrap();
            let q = choose|q: int| 0 <= q < iso.len() && iso[q] == j;
            assert(q < k);
        }
    } else if t.all@[s[0]].stable {
        assert(s[0] == iso[k]);
        let i = iso[k];
        assert forall|m: int| #[trigger] t.at(y, m) is Some && t.all@[t.at(y, m).unwrap()].stable implies t.all@[i].n <= m by {
            let j = t.at(y, m).unwrap();
            t.lemma_at(y, m);
            let q = choose|q: int| 0 <= q < iso.len() && iso[q] == j;
            if q < k {
            } else if q > k {
                assert(t.all@[iso[k]].n < t.all@[iso[q]].n);
            }
        }
    } else {
        assert(s[0] == iso[k]);
        assert(s.drop_first() =~= iso.skip(k + 1));
        lemma_first_stable_lightest(t, y, s.drop_first(), k + 1);
    }
}

proof fn lemma_walk_stable_nearest(t: &Table, z: int, dir: int, fuel: nat)
    requires
        t.wf(),
        0 <= z <= t.z_max + 1,
        dir == 1 || dir == -1,
        dir == 1 ==> z + fuel > t.z_max,
        dir == -1 ==> z - fuel < 1,
    ensures
        walk_stable(t, z, dir, fuel) matches Some(i) ==> {
            let y = t.all@[i].z as int;
            &&& 0 <= i < t.all@.len()
            &&& t.all@[i].stable
            &&& t.at(y, t.all@[i].n as int) == Some(i)
            &&& 1 <= y <= t.z_max
            &&& beyond(z, y, dir)
            &&& forall|y2: int| 1 <= y2 <= t.z_max && beyond(z, y2, dir) && beyond(y2, y, dir) ==> none_stable(t, y2)
            &&& forall|m: int| #[trigger] t.at(y, m) matches Some(j) && t.all@[j].stable ==> t.all@[i].n <= m
        },
        walk_stable(t, z, dir, fuel) is None ==> forall|y2: int|
            1 <= y2 <= t.z_max && beyond(z, y2, dir) ==> none_stable(t, y2),
    decreases fuel,
{
    if fuel > 0 {
        let y = z + dir;
        if 1 <= y <= t.z_max {
            let iso = t.isotopes(y);
            assert(iso.skip(0) =~= iso);
            lemma_first_stable_lightest(t, y, iso, 0);
            if first_stable(t, iso) is None {
                lemma_walk_stable_nearest(t, y, dir, (fuel - 1) as nat);
                assert forall|y2: int| 1 <= y2 <= t.z_max && beyond(z, y2, dir) && !beyond(y, y2, dir)
                    implies none_stable(t, y2) by {
                    assert(y2 == y);
                }
            }
        }
    }
}

/// Room for the element symbol down the left edge.
pub const AXIS_W: u16 = 4;

/// Clamped below at zero.
pub open spec fn floor0(x: int) -> int {
    if x < 0 {
        0
    } else {
        x
    }
}

/// The margin kept between the cursor and the edge of a window `vis` wide.
pub open spec fn margin(vis: int) -> int {
    if vis / 6 > 2 {
        vis / 6
    } else {
        2
    }
}

/// The leftmost N shown after scrolling a window `vis` columns wide, that
/// started at `left`, to the cursor at `n`.
pub open spec fn window_n(n: int, left: int, vis: int) -> int {
    let m = margin(vis);
    let l1 = if n < left + m {
        floor0(n - m)
    } else {
        left
    };
    if n + m >= l1 + vis {
        floor0(n + m + 1 - vis)
    } else {
        l1
    }
}

/// The topmost Z shown after scrolling a window `vis` rows high, that
/// started at `top`, to the cursor at `z`, on a chart of `z_max` elements.
pub open spec fn window_z(z: int, top: int, vis: int, z_max: int) -> int {
    let m = margin(vis);
    let t1 = if z + m > top {
        if z + m < z_max {
            z + m
        } else {
            z_max
        }
    } else {
        top
    };
    let t2 = if z + vis < t1 + m {
        floor0(z + vis - m)
    } else {
        t1
    };
    let t3 = if t2 < floor0(vis - 1) {
        floor0(vis - 1)
    } else {
        t2
    };
    if t3 < z_max {
        t3
    } else {
        z_max
    }
}

/// Below this, a coordinate leaves room to add a screen's width to it.
pub open spec fn roomy(x: u32) -> bool {
    x as int + 0x20000 <= u32::MAX
}

/// Keep the cursor inside the window, with a margin so it never sits on
/// the very edge. The chart is `cols` columns wide, the axis included, and
/// `chart_h` rows high; the top row shows Z = `top_z` and the rows count
/// down from it.
pub fn scroll_to(app: &mut App, t: &Table, cols: u16, chart_h: u16)
    requires
        roomy(old(app).n),
        roomy(old(app).left_n),
        roomy(old(app).z),
        roomy(old(app).top_z),
    ensures
        final(app).left_n == window_n(old(app).n as int, old(app).left_n as int, floor0(cols - AXIS_W)),
        final(app).top_z == window_z(old(app).z as int, old(app).top_z as int, chart_h as int, t.z_max as int),
        final(app).z == old(app).z,
        final(app).n == old(app).n,
        final(app).mode == old(app).mode,
        final(app).view == old(app).view,
        final(app).drawn_at == old(app).drawn_at,
        final(app).chat@ == old(app).chat@,
        final(app).status == old(app).status,
{
    let vis_n = cols.saturating_sub(AXIS_W) as u32;
    let vis_z = chart_h as u32;
    let margin_n = if vis_n / 6 > 2 {
        vis_n / 6
    } else {
        2
    };
    let margin_z = if vis_z / 6 > 2 {
        vis_z / 6
    } else {
        2
    };
    if app.n < app.left_n + margin_n {
        app.left_n = app.n.saturating_sub(margin_n);
    }
    if app.n + margin_n >= app.left_n + vis_n {
        app.left_n = (app.n + margin_n + 1).saturating_sub(vis_n);
    }
    // top_z is the highest Z on screen; the chart counts down from it.
    if app.z + margin_z > app.top_z {
        app.top_z = if app.z + margin_z < t.z_max {
            app.z + margin_z
        } else {
            t.z_max
        };
    }
    if app.z + vis_z < app.top_z + margin_z {
        app.top_z = (app.z + vis_z).saturating_sub(margin_z);
    }
    let floor = vis_z.saturating_sub(1);
    if app.top_z < floor {
        app.top_z = floor;
    }
    if app.top_z > t.z_max {
        app.top_z = t.z_max;
    }
}

/// After scrolling, a window at least three columns wide shows the
/// cursor's column, with the margin to its right; one wide enough for both
/// margins keeps the left one too (or starts at N = 0). A window at least
/// two rows high shows the cursor's row, so long as the cursor is on the
/// chart.
pub proof fn scroll_law(n: int, left: int, vis_n: int, z: int, top: int, vis_z: int, z_max: int)
    requires
        0 <= n,
        0 <= left,
        0 <= z <= z_max,
        0 <= top,
    ensures
        vis_n >= 3 ==> window_n(n, left, vis_n) <= n < window_n(n, left, vis_n) + vis_n,
        vis_n >= 3 ==> n + margin(vis_n) < window_n(n, left, vis_n) + vis_n,
        vis_n >= 2 * margin(vis_n) + 1 ==> (window_n(n, left, vis_n) == 0 || window_n(
            n,
            left,
            vis_n,
        ) + margin(vis_n) <= n),
        vis_z >= 2 ==> window_z(z, top, vis_z, z_max) - vis_z < z <= window_z(
            z,
            top,
            vis_z,
            z_max,
        ),
{
    if vis_n >= 3 {
        assert(vis_n / 6 * 2 + 1 <= vis_n) by (nonlinear_arith)
            requires
                vis_n >= 3,
        ;
    }
    if vis_z >= 2 {
        assert(vis_z / 6 <= vis_z) by (nonlinear_arith)
            requires
                vis_z >= 2,
        ;
    }
}

} // verus!
