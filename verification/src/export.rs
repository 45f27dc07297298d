//! The table written out as CSV: the order of the rows under each colour
//! mode, and the text of each row.

use vstd::prelude::*;
use crate::nuclide::{Real, ZERO_BITS, INFINITY_BITS, Nuclide, name_of};
use crate::search::rank_or;
use crate::table::{Table, fits};
use crate::ask::mode_text;
use crate::text::{decimal, push_decimal, joined};

verus! {

/// A year of discovery, with 9999 standing in for a missing one.
pub open spec fn year_or_late(y: Option<u32>) -> int {
    match y {
        Some(v) => v as int,
        None => 9999,
    }
}

/// Under colour mode `mode`, nuclide `a` goes strictly ahead of nuclide
/// `b`: longest half-life first (an unmeasured one counting as infinite),
/// most bound first, most abundant first (a missing value counting as
/// zero), earliest reported first (a missing year counting as 9999), and
/// otherwise by Z, then N.
pub open spec fn ahead(t: &Table, mode: usize, a: int, b: int) -> bool {
    let x = t.all@[a];
    let y = t.all@[b];
    if mode == 1 {
        rank_or(x.half_life_s, INFINITY_BITS) > rank_or(y.half_life_s, INFINITY_BITS)
    } else if mode == 2 {
        rank_or(x.binding, ZERO_BITS) > rank_or(y.binding, ZERO_BITS)
    } else if mode == 3 {
        rank_or(x.abundance, ZERO_BITS) > rank_or(y.abundance, ZERO_BITS)
    } else if mode == 4 {
        year_or_late(x.discovery) < year_or_late(y.discovery)
    } else {
        x.z < y.z || (x.z == y.z && x.n < y.n)
    }
}

/// In the export, nuclide `a` comes before nuclide `b`: it goes ahead, or
/// neither goes ahead and it came first in the table.
pub open spec fn comes_before(t: &Table, mode: usize, a: int, b: int) -> bool {
    ahead(t, mode, a, b) || (!ahead(t, mode, b, a) && a < b)
}

fn rank_or_exec(r: Option<Real>, fallback: u64) -> (k: i64)
    ensures
        k as int == rank_or(r, fallback),
{
    match r {
        Some(x) => x.rank(),
        None => (Real { bits: fallback }).rank(),
    }
}

/// Does nuclide `a` go strictly ahead of nuclide `b` under `mode`?
pub fn goes_ahead(t: &Table, mode: usize, a: usize, b: usize) -> (r: bool)
    requires
        a < t.all@.len(),
        b < t.all@.len(),
    ensures
        r == ahead(t, mode, a as int, b as int),
{
    let x = &t.all[a];
    let y = &t.all[b];
    if mode == 1 {
        rank_or_exec(x.half_life_s, INFINITY_BITS) > rank_or_exec(y.half_life_s, INFINITY_BITS)
    } else if mode == 2 {
        rank_or_exec(x.binding, ZERO_BITS) > rank_or_exec(y.binding, ZERO_BITS)
    } else if mode == 3 {
        rank_or_exec(x.abundance, ZERO_BITS) > rank_or_exec(y.abundance, ZERO_BITS)
    } else if mode == 4 {
        let xy: u32 = match x.discovery {
            Some(v) => v,
            None => 9999,
        };
        let yy: u32 = match y.discovery {
            Some(v) => v,
            None => 9999,
        };
        xy < yy
    } else {
        x.z < y.z || (x.z == y.z && x.n < y.n)
    }
}

/// In the export under each colour mode, a row that comes before another
/// is no worse by that mode's measure: under mode 1 its half-life is no
/// shorter (an unmeasured or stable one counting as infinite), under mode 2
/// its binding energy no smaller, under mode 3 its natural abundance no
/// smaller (a missing one counting as zero), under mode 4 its year of
/// discovery no later (a missing one counting as 9999); under any other
/// mode it sits no later on the chart, by Z and then N. All in the total
/// order of doubles.
pub proof fn export_order_law(t: &Table, mode: usize, a: int, b: int)
    requires
        comes_before(t, mode, a, b),
    ensures
        mode == 1 ==> rank_or(t.all@[a].half_life_s, INFINITY_BITS) >= rank_or(
            t.all@[b].half_life_s,
            INFINITY_BITS,
        ),
        mode == 2 ==> rank_or(t.all@[a].binding, ZERO_BITS) >= rank_or(t.all@[b].binding, ZERO_BITS),
        mode == 3 ==> rank_or(t.all@[a].abundance, ZERO_BITS) >= rank_or(t.all@[b].abundance, ZERO_BITS),
        mode == 4 ==> (match t.all@[a].discovery {
            Some(y) => y as int,
            None => 9999,
        }) <= (match t.all@[b].discovery {
            Some(y) => y as int,
            None => 9999,
        }),
        !(1 <= mode <= 4) ==> t.all@[a].z < t.all@[b].z || (t.all@[a].z == t.all@[b].z && t.all@[a].n
            <= t.all@[b].n),
{
}

/// The positions of the table's nuclides in the order they are written
/// out under colour mode `mode`: every position exactly once, sorted by the
/// mode's key, ties kept in table order.
pub fn export_order(t: &Table, mode: usize) -> (r: Vec<usize>)
    ensures
        r@.len() == t.all@.len(),
        forall|k: int| 0 <= k < r@.len() ==> r@[k] < t.all@.len(),
        forall|j: usize| j < t.all@.len() ==> #[trigger] r@.contains(j),
        forall|k1: int, k2: int|
            0 <= k1 < k2 < r@.len() ==> comes_before(t, mode, r@[k1] as int, r@[k2] as int),
        mode == 3 ==> forall|k1: int, k2: int|
            0 <= k1 < k2 < r@.len() ==> rank_or(t.all@[#[trigger] r@[k1] as int].abundance, ZERO_BITS)
                >= rank_or(t.all@[#[trigger] r@[k2] as int].abundance, ZERO_BITS),
        mode == 2 ==> forall|k1: int, k2: int|
            0 <= k1 < k2 < r@.len() ==> rank_or(t.all@[#[trigger] r@[k1] as int].binding, ZERO_BITS)
                >= rank_or(t.all@[#[trigger] r@[k2] as int].binding, ZERO_BITS),
        mode == 1 ==> forall|k1: int, k2: int|
            0 <= k1 < k2 < r@.len() ==> rank_or(t.all@[#[trigger] r@[k1] as int].half_life_s, INFINITY_BITS)
                >= rank_or(t.all@[#[trigger] r@[k2] as int].half_life_s, INFINITY_BITS),
{
    let len = t.all.len();
    let mut r: Vec<usize> = Vec::new();
    let mut i: usize = 0;
    while i < len
        invariant
            len == t.all@.len(),
            i <= len,
            r@.len() == i,
            forall|k: int| 0 <= k < r@.len() ==> r@[k] < i,
            forall|j: usize| j < i ==> #[trigger] r@.contains(j),
            forall|k1: int, k2: int|
                0 <= k1 < k2 < r@.len() ==> comes_before(t, mode, r@[k1] as int, r@[k2] as int),
        decreases len - i,
    {
        let mut p: usize = 0;
        while p < r.len() && !goes_ahead(t, mode, i, r[p])
            invariant
                len == t.all@.len(),
                i < len,
                p <= r@.len(),
                forall|k: int| 0 <= k < r@.len() ==> r@[k] < i,
                forall|k: int| 0 <= k < p ==> !ahead(t, mode, i as int, #[trigger] r@[k] as int),
            decreases r@.len() - p,
        {
            p = p + 1;
        }
        let ghost old_r = r@;
        proof {
            assert forall|k: int| p <= k < old_r.len() implies ahead(t, mode, i as int, #[trigger] old_r[k] as int) by {
                if k > p {
                    assert(comes_before(t, mode, old_r[p as int] as int, old_r[k] as int));
                }
            }
        }
        r.insert(p, i);
        proof {
            assert forall|j: usize| j < i + 1 implies #[trigger] r@.contains(j) by {
                if j == i {
                    assert(r@[p as int] == i);
                } else {
                    assert(old_r.contains(j));
                    let k = choose|k: int| 0 <= k < old_r.len() && old_r[k] == j;
                    if k < p {
                        assert(r@[k] == old_r[k]);
                    } else {
                        assert(r@[k + 1] == old_r[k]);
                    }
                }
            }
            assert forall|k1: int, k2: int| 0 <= k1 < k2 < r@.len() implies comes_before(
                t,
                mode,
                r@[k1] as int,
                r@[k2] as int,
            ) by {
                if k1 < p && k2 < p {
                    assert(r@[k1] == old_r[k1] && r@[k2] == old_r[k2]);
                } else if k1 < p && k2 == p {
                    assert(r@[k1] == old_r[k1]);
                } else if k1 < p {
                    assert(r@[k1] == old_r[k1] && r@[k2] == old_r[k2 - 1]);
                } else if k1 == p {
                    assert(r@[k2] == old_r[k2 - 1]);
                } else {
                    assert(r@[k1] == old_r[k1 - 1] && r@[k2] == old_r[k2 - 1]);
                }
            }
        }
        i = i + 1;
    }
    proof {
        assert forall|k1: int, k2: int| 0 <= k1 < k2 < r@.len() implies {
            &&& mode == 3 ==> rank_or(t.all@[r@[k1] as int].abundance, ZERO_BITS) >= rank_or(
                t.all@[r@[k2] as int].abundance,
                ZERO_BITS,
            )
            &&& mode == 2 ==> rank_or(t.all@[r@[k1] as int].binding, ZERO_BITS) >= rank_or(
                t.all@[r@[k2] as int].binding,
                ZERO_BITS,
            )
            &&& mode == 1 ==> rank_or(t.all@[r@[k1] as int].half_life_s, INFINITY_BITS) >= rank_or(
                t.all@[r@[k2] as int].half_life_s,
                INFINITY_BITS,
            )
        } by {
            export_order_law(t, mode, r@[k1] as int, r@[k2] as int);
        }
    }
    r
}

/// The real-valued fields of a nuclide as the CSV writes them, each empty
/// where there is no value; turning the numbers into text is done by the
/// program around the library.
pub struct CsvFields {
    /// The half-life in seconds.
    pub half_life_s: String,
    /// The half-life in a unit a human reads.
    pub half_life: String,
    /// Each decay mode's branching percentage, in the order of the modes.
    pub branchings: Vec<Option<String>>,
    /// Natural abundance in percent.
    pub abundance: String,
    /// Binding energy per nucleon, keV, to two decimals.
    pub binding: String,
    /// Mass excess, keV, to two decimals.
    pub mass_excess: String,
}

/// The first line of the CSV, naming its columns.
pub open spec fn csv_header_text() -> Seq<char> {
    "nuclide,z,n,a,half_life_s,half_life,decays,abundance_pct,binding_kev_per_a,mass_excess_kev,spin_parity,discovered\n"@
}

/// The first line of the CSV.
pub fn csv_header() -> (s: String)
    ensures
        s@ == csv_header_text(),
{
    String::from_str(
        "nuclide,z,n,a,half_life_s,half_life,decays,abundance_pct,binding_kev_per_a,mass_excess_kev,spin_parity,discovered\n",
    )
}

/// The decay modes of a row: each code with its branching, ` | ` between.
pub open spec fn csv_modes_text(nuc: Nuclide, branchings: Seq<Option<String>>) -> Seq<char> {
    joined(Seq::new(nuc.decays@.len(), |k: int| mode_text(nuc.decays@[k].1@, branchings[k])), " | "@)
}

/// The row of the CSV for nuclide `nuc`: name, Z, N, A, half-life in
/// seconds and in words, the decay modes quoted, abundance, binding energy,
/// mass excess, spin and parity quoted, year of discovery.
pub open spec fn csv_row_text(nuc: Nuclide, f: CsvFields) -> Seq<char> {
    name_of(nuc) + ","@ + decimal(nuc.z as nat) + ","@ + decimal(nuc.n as nat) + ","@ + decimal(
        (nuc.z + nuc.n) as nat,
    ) + ","@ + f.half_life_s@ + ","@ + f.half_life@ + ",\""@ + csv_modes_text(nuc, f.branchings@)
        + "\","@ + f.abundance@ + ","@ + f.binding@ + ","@ + f.mass_excess@ + ",\""@ + nuc.jp@
        + "\","@ + match nuc.discovery {
        Some(y) => decimal(y as nat),
        None => seq![],
    } + "\n"@
}

/// The row of the CSV for `nuc`, its real-valued fields written as `fields`.
pub fn csv_row(nuc: &Nuclide, fields: &CsvFields) -> (s: String)
    requires
        fits(*nuc),
        fields.branchings@.len() == nuc.decays@.len(),
    ensures
        s@ == csv_row_text(*nuc, *fields),
{
    let mut s = nuc.name();
    s.append(",");
    push_decimal(&mut s, nuc.z as u64);
    s.append(",");
    push_decimal(&mut s, nuc.n as u64);
    s.append(",");
    push_decimal(&mut s, nuc.a() as u64);
    s.append(",");
    s.append(fields.half_life_s.as_str());
    s.append(",");
    s.append(fields.half_life.as_str());
    s.append(",\"");
    let ghost before = s@;
    let ghost parts = Seq::new(
        nuc.decays@.len(),
        |k: int| mode_text(nuc.decays@[k].1@, fields.branchings@[k]),
    );
    let len = nuc.decays.len();
    let mut k: usize = 0;
    while k < len
        invariant
            len == nuc.decays@.len(),
            fields.branchings@.len() == len,
            k <= len,
            parts == Seq::new(
                nuc.decays@.len(),
                |k: int| mode_text(nuc.decays@[k].1@, fields.branchings@[k]),
            ),
            s@ == before + joined(parts.take(k as int), " | "@),
        decreases len - k,
    {
        if k > 0 {
            s.append(" | ");
        }
        s.append(nuc.decays[k].1.as_str());
        match &fields.branchings[k] {
            Some(p) => {
                s.append(" ");
                s.append(p.as_str());
                s.append("%");
            },
            None => {},
        }
        proof {
            assert(parts.take(k + 1).drop_last() =~= parts.take(k as int));
            assert(parts.take(k + 1).last() == parts[k as int]);
            if k == 0 {
                assert(parts.take(1).len() == 1);
            }
        }
        k = k + 1;
    }
    assert(parts.take(len as int) =~= parts);
    s.append("\",");
    s.append(fields.abundance.as_str());
    s.append(",");
    s.append(fields.binding.as_str());
    s.append(",");
    s.append(fields.mass_excess.as_str());
    s.append(",\"");
    s.append(nuc.jp.as_str());
    s.append("\",");
    match nuc.discovery {
        Some(y) => push_decimal(&mut s, y as u64),
        None => {},
    }
    s.append("\n");
    s
}

} // verus!
