//! One nuclide, as the table describes it.

use vstd::prelude::*;
use crate::decay::Decay;
use crate::text::{
    decimal, push_char, push_decimal, joined, strip_end, strip_end_char, is_prefix, lemma_joined_end,
};

verus! {

/// A real number as the table gives it (a half-life, an abundance, a binding
/// energy), held by the bit pattern of the IEEE-754 double it was read into.
/// The library only orders such numbers; reading and printing them is left
/// to the program around it.
#[derive(Clone, Copy, PartialEq, Eq, Structural, Debug)]
pub struct Real {
    pub bits: u64,
}

/// Where a double falls in IEEE-754's total order (the order of
/// `f64::total_cmp`): negative numbers below positive ones, `-0` below `+0`,
/// the NaNs at the two ends.
pub open spec fn rank(bits: u64) -> int {
    if bits < 0x8000_0000_0000_0000 {
        bits as int
    } else {
        0x7fff_ffff_ffff_ffff - bits
    }
}

/// The bit pattern of `0.0`.
pub const ZERO_BITS: u64 = 0;

/// The bit pattern of positive infinity.
pub const INFINITY_BITS: u64 = 0x7ff0_0000_0000_0000;

/// The bit pattern of `0.01`.
pub const HUNDREDTH_BITS: u64 = 0x3f84_7ae1_47ae_147b;

/// The bit pattern is one of the NaNs.
pub open spec fn is_nan(bits: u64) -> bool {
    (bits & 0x7ff0_0000_0000_0000) == 0x7ff0_0000_0000_0000 && (bits & 0x000f_ffff_ffff_ffff) != 0
}

/// The number is at least 0.01, as the comparison `>=` of doubles says:
/// never for a NaN, else by the total order.
pub open spec fn at_least_hundredth(bits: u64) -> bool {
    !is_nan(bits) && rank(bits) >= rank(HUNDREDTH_BITS)
}

impl Real {
    /// Is the number at least 0.01?
    pub fn at_least_hundredth(&self) -> (b: bool)
        ensures
            b == at_least_hundredth(self.bits),
    {
        let nan = (self.bits & 0x7ff0_0000_0000_0000) == 0x7ff0_0000_0000_0000 && (self.bits
            & 0x000f_ffff_ffff_ffff) != 0;
        !nan && self.rank() >= (Real { bits: HUNDREDTH_BITS }).rank()
    }

    /// Where this number falls in the total order.
    pub fn rank(&self) -> (r: i64)
        ensures
            r as int == rank(self.bits),
    {
        if self.bits < 0x8000_0000_0000_0000 {
            self.bits as i64
        } else {
            -1 - ((self.bits - 0x8000_0000_0000_0000) as i64)
        }
    }
}

/// One nuclide.
#[derive(Clone, Debug)]
pub struct Nuclide {
    pub z: u32,
    pub n: u32,
    pub symbol: String,
    /// Spin and parity, as the evaluators wrote it.
    pub jp: String,
    /// Natural abundance in percent, for the ones that occur on Earth.
    pub abundance: Option<Real>,
    /// Half-life in seconds. `None` when the evaluators have no value,
    /// which is not the same as stable: many nuclides are known to exist
    /// without anyone having measured how long they last.
    pub half_life_s: Option<Real>,
    /// Stable as far as anybody can tell.
    pub stable: bool,
    /// Half-life as the table gives it, with its unit: "4.468E9 Y".
    pub half_life_text: String,
    /// Decay modes with the code as written and the branching percentage,
    /// strongest first.
    pub decays: Vec<(Decay, String, Option<Real>)>,
    /// Binding energy per nucleon, keV.
    pub binding: Option<Real>,
    /// Mass excess, keV.
    pub mass_excess: Option<Real>,
    /// Year it was first reported.
    pub discovery: Option<u32>,
}

/// The mode a nuclide mostly decays by: stable for the stable ones, else
/// the strongest listed mode, else unknown.
pub open spec fn main_of(nuc: Nuclide) -> Decay {
    if nuc.stable {
        Decay::Stable
    } else if nuc.decays@.len() > 0 {
        nuc.decays@[0].0
    } else {
        Decay::Unknown
    }
}

/// The mass number.
pub open spec fn mass_of(nuc: Nuclide) -> int {
    nuc.z + nuc.n
}

/// `U-238`: the symbol, a hyphen, the mass number.
pub open spec fn name_of(nuc: Nuclide) -> Seq<char> {
    nuc.symbol@ + seq!['-'] + decimal((nuc.z + nuc.n) as nat)
}

/// `99.2742` rather than `99.274200`, `100` rather than `100.0000`: a
/// number written to four places without its trailing zeros and point.
pub open spec fn trim_zeros(s: Seq<char>) -> Seq<char> {
    strip_end(strip_end(s, '0'), '.')
}

/// The `k`-th of the four-place texts, if there is one.
pub open spec fn fixed_at(fixed: Seq<Option<String>>, k: int) -> Seq<char> {
    if 0 <= k < fixed.len() && fixed[k] is Some {
        fixed[k].unwrap()@
    } else {
        seq![]
    }
}

/// One decay mode in the summary: its code, with its branching when it is
/// at least a hundredth of a percent, "tiny" when it is less.
pub open spec fn branch_text(code: Seq<char>, pct: Option<Real>, fixed: Seq<char>) -> Seq<char> {
    match pct {
        Some(p) => if at_least_hundredth(p.bits) {
            code + " "@ + trim_zeros(fixed) + "%"@
        } else {
            code + " tiny"@
        },
        None => code,
    }
}

/// The pieces of the summary: at most `max` modes, then an ellipsis if
/// there are more.
pub open spec fn summary_parts(nuc: Nuclide, max: int, fixed: Seq<Option<String>>) -> Seq<Seq<char>> {
    let len = nuc.decays@.len() as int;
    let shown = if max < len { max } else { len };
    Seq::new(
        shown as nat,
        |k: int| branch_text(nuc.decays@[k].1@, nuc.decays@[k].2, fixed_at(fixed, k)),
    ) + if len > max {
        seq!["…"@]
    } else {
        seq![]
    }
}

/// The decay modes as a short line.
pub open spec fn summary_of(nuc: Nuclide, max: int, fixed: Seq<Option<String>>) -> Seq<char> {
    if nuc.stable {
        "stable"@
    } else if nuc.decays@.len() == 0 {
        "unknown"@
    } else {
        joined(summary_parts(nuc, max, fixed), ", "@)
    }
}

/// The half-life as a word, where a word says it: "stable" for a stable
/// nuclide, "unknown" for one whose half-life nobody has measured; none
/// when there is a number to put in human units.
pub open spec fn life_word(nuc: Nuclide) -> Option<Seq<char>> {
    if nuc.stable {
        Some("stable"@)
    } else if nuc.half_life_s is None {
        Some("unknown"@)
    } else {
        None
    }
}

impl Nuclide {
    /// The half-life as a word where a word says it: "stable", or
    /// "unknown" for an unmeasured one; `None` when there is a number to
    /// write in a unit a human reads.
    pub fn half_life_word(&self) -> (w: Option<&'static str>)
        ensures
            w matches Some(s) ==> life_word(*self) == Some(s@),
            w is None <==> life_word(*self) is None,
    {
        if self.stable {
            Some("stable")
        } else if self.half_life_s.is_none() {
            Some("unknown")
        } else {
            None
        }
    }

    /// The mass number, Z + N.
    pub fn a(&self) -> (a: u32)
        requires
            self.z + self.n <= u32::MAX,
        ensures
            a == mass_of(*self),
    {
        self.z + self.n
    }

    /// `U-238`.
    pub fn name(&self) -> (s: String)
        requires
            self.z + self.n <= u32::MAX,
        ensures
            s@ == name_of(*self),
    {
        let mut s = self.symbol.clone();
        push_char(&mut s, '-');
        push_decimal(&mut s, self.a() as u64);
        s
    }

    pub fn is_stable(&self) -> (b: bool)
        ensures
            b == self.stable,
    {
        self.stable
    }

    /// The mode it mostly decays by, which is what the chart colours.
    pub fn main_decay(&self) -> (d: Decay)
        ensures
            d == main_of(*self),
    {
        if self.is_stable() {
            return Decay::Stable;
        }
        if self.decays.len() > 0 {
            self.decays[0].0
        } else {
            Decay::Unknown
        }
    }

    /// The decay modes as a short line: at most `max` of them, and
    /// branchings below a hundredth of a percent said as "tiny" rather
    /// than printed as twelve zeroes. Uranium-234 really does emit
    /// magnesium, once in about ten trillion decays. `fixed[k]` is the
    /// branching of the `k`-th mode written to four decimal places.
    pub fn decay_summary(&self, max: usize, fixed: &Vec<Option<String>>) -> (s: String)
        ensures
            s@ == summary_of(*self, max as int, fixed@),
    {
        if self.is_stable() {
            return String::from_str("stable");
        }
        let len = self.decays.len();
        if len == 0 {
            return String::from_str("unknown");
        }
        let shown = if max < len {
            max
        } else {
            len
        };
        let ghost parts = summary_parts(*self, max as int, fixed@);
        let mut s = String::new();
        let mut k: usize = 0;
        while k < shown
            invariant
                len == self.decays@.len(),
                len > 0,
                shown == if max < len { max } else { len },
                k <= shown,
                parts == summary_parts(*self, max as int, fixed@),
                s@ == joined(parts.take(k as int), ", "@),
            decreases shown - k,
        {
            if k > 0 {
                s.append(", ");
            }
            let (_, code, pct) = &self.decays[k];
            s.append(code.as_str());
            match pct {
                Some(p) => {
                    if p.at_least_hundredth() {
                        let f = if k < fixed.len() {
                            match &fixed[k] {
                                Some(f) => f.clone(),
                                None => String::new(),
                            }
                        } else {
                            String::new()
                        };
                        let t1 = strip_end_char(f.as_str(), '0');
                        let t2 = strip_end_char(t1.as_str(), '.');
                        s.append(" ");
                        s.append(t2.as_str());
                        s.append("%");
                    } else {
                        s.append(" tiny");
                    }
                },
                None => {},
            }
            proof {
                assert(parts.take(k + 1).drop_last() =~= parts.take(k as int));
                assert(parts.take(k + 1).last() == parts[k as int]);
            }
            k = k + 1;
        }
        if len > max {
            if shown > 0 {
                s.append(", ");
            }
            s.append("…");
            proof {
                assert(parts.take(shown + 1).drop_last() =~= parts.take(shown as int));
                assert(parts.take(shown + 1) =~= parts);
            }
        } else {
            assert(parts.take(shown as int) =~= parts);
        }
        s
    }
}

/// The text ends with an ellipsis.
pub open spec fn ends_cut(s: Seq<char>) -> bool {
    s.len() > 0 && s.last() == '…'
}

/// The summary of a nuclide that is not stable and has decay modes lists
/// its first `max` modes (all of them when there are no more), in their
/// order, comma-separated, each its code followed by its branching, by
/// "tiny" for one below a hundredth of a percent, or by nothing when the
/// table gives none; and it ends with an ellipsis exactly when modes were
/// left out. (It ends with one too when all the modes are shown and the
/// last, with no branching, has a code that itself ends with one; that
/// input is left out.)
pub proof fn summary_law(nuc: Nuclide, max: int, fixed: Seq<Option<String>>)
    requires
        !nuc.stable,
        nuc.decays@.len() > 0,
        0 <= max,
        nuc.decays@.len() <= max ==> !(nuc.decays@.last().2 is None && ends_cut(nuc.decays@.last().1@)),
    ensures
        ({
            let len = nuc.decays@.len() as int;
            let shown = if max < len { max } else { len };
            let parts = summary_parts(nuc, max, fixed);
            &&& summary_of(nuc, max, fixed) == joined(parts, ", "@)
            &&& parts.len() == if len > max { shown + 1 } else { shown }
            &&& forall|k: int| 0 <= k < shown ==> #[trigger] parts[k] == branch_text(
                nuc.decays@[k].1@,
                nuc.decays@[k].2,
                fixed_at(fixed, k),
            )
            &&& forall|k: int| 0 <= k < shown ==> is_prefix(nuc.decays@[k].1@, #[trigger] parts[k])
            &&& forall|k: int| 0 <= k < shown && nuc.decays@[k].2 is None ==> #[trigger] parts[k]
                == nuc.decays@[k].1@
            &&& forall|k: int|
                0 <= k < shown && (nuc.decays@[k].2 matches Some(p) && !at_least_hundredth(p.bits))
                    ==> #[trigger] parts[k] == nuc.decays@[k].1@ + " tiny"@
            &&& len > max ==> parts.last() == "…"@
            &&& ends_cut(summary_of(nuc, max, fixed)) <==> len > max
        }),
{
    reveal_strlit("…");
    reveal_strlit(" tiny");
    reveal_strlit("%");
    reveal_strlit(", ");
    let len = nuc.decays@.len() as int;
    let shown = if max < len { max } else { len };
    let parts = summary_parts(nuc, max, fixed);
    assert forall|k: int| 0 <= k < shown implies is_prefix(nuc.decays@[k].1@, #[trigger] parts[k]) by {
        let code = nuc.decays@[k].1@;
        let p = parts[k];
        match nuc.decays@[k].2 {
            Some(x) => {
                if at_least_hundredth(x.bits) {
                    assert(p == code + (" "@ + trim_zeros(fixed_at(fixed, k)) + "%"@));
                } else {
                }
            },
            None => {},
        }
        assert(p.subrange(0, code.len() as int) =~= code);
    }
    if len > max {
        lemma_joined_end(parts, ", "@);
    } else {
        assert(parts.len() == len);
        lemma_joined_end(parts, ", "@);
        let last = parts.last();
        let code = nuc.decays@[len - 1].1@;
        assert(last == parts[len - 1]);
        match nuc.decays@[len - 1].2 {
            Some(x) => {
                if at_least_hundredth(x.bits) {
                    let t = code + " "@ + trim_zeros(fixed_at(fixed, len - 1)) + "%"@;
                    assert(last == t);
                    assert(t.last() == '%');
                } else {
                    assert(last.last() == 'y');
                }
            },
            None => {
                assert(last == code);
            },
        }
    }
}

/// An unmeasured half-life is not the same as stable: a nuclide's
/// half-life reads "stable" exactly when the table says it is stable, and
/// "unknown" exactly when it is not and has no half-life; and, when no
/// decay mode of it is itself marked stable (none read from the table is),
/// it is coloured as stable exactly when the table says it is.
pub proof fn stable_law(nuc: Nuclide)
    ensures
        (life_word(nuc) == Some("stable"@)) <==> nuc.stable,
        (life_word(nuc) == Some("unknown"@)) <==> (!nuc.stable && nuc.half_life_s is None),
        (forall|k: int| 0 <= k < nuc.decays@.len() ==> (#[trigger] nuc.decays@[k]).0 != Decay::Stable)
            ==> ((main_of(nuc) == Decay::Stable) <==> nuc.stable),
{
    reveal_strlit("stable");
    reveal_strlit("unknown");
    assert("stable"@[0] != "unknown"@[0]);
}

} // verus!
