//! Finding a nuclide by what a person types.

use vstd::prelude::*;
use crate::nuclide::{Real, rank, ZERO_BITS, INFINITY_BITS, mass_of};
use crate::table::Table;
use crate::text::{
    Keep, kept, keep, lemma_kept, lowercase, to_lower, trimmed, trim, value_of, parse_digits,
    same, is_digit, is_ascii, ascii_lower, lemma_ascii_kept, lemma_kept_lower,
    lemma_kept_unseparated, lemma_kept_trimmed, lemma_kept_add, lemma_kept_none, is_space, keeps,
    lemma_space_kept,
};

verus! {

/// The query as the search reads it: trimmed, without the separators a
/// person types (`-`, ` `, `_`), in lower case.
pub open spec fn query_key(q: Seq<char>) -> Seq<char> {
    lowercase(kept(trimmed(q), Keep::Unseparated))
}

/// The same for a query in ASCII, whose lower case is ASCII's.
pub open spec fn ascii_key(q: Seq<char>) -> Seq<char> {
    ascii_lower(kept(trimmed(q), Keep::Unseparated))
}

/// The text of each of a list of strings.
pub open spec fn texts(v: Seq<String>) -> Seq<Seq<char>> {
    Seq::new(v.len(), |i: int| v[i]@)
}

/// Where a number's bit pattern falls in the total order, with `fallback`
/// standing in for a missing one.
pub open spec fn rank_or(r: Option<Real>, fallback: u64) -> int {
    match r {
        Some(x) => rank(x.bits),
        None => rank(fallback),
    }
}

impl Table {
    /// The element symbol of each nuclide, in lower case.
    pub open spec fn lower_syms(&self) -> Seq<Seq<char>> {
        Seq::new(self.all@.len(), |i: int| lowercase(self.all@[i].symbol@))
    }

    /// Nuclide `i` is of the element whose lower-case symbol is `sym`, by
    /// the lower-case symbols `syms`.
    pub open spec fn of_element(&self, syms: Seq<Seq<char>>, i: int, sym: Seq<char>) -> bool {
        syms[i] == sym
    }

    /// How much an isotope is worth opening on, first by natural abundance
    /// (none counts as zero), then by half-life (stable counts as infinite,
    /// unmeasured as zero), both in the total order of doubles.
    pub open spec fn worth(&self, i: int) -> (int, int) {
        let nuc = self.all@[i];
        (
            rank_or(nuc.abundance, ZERO_BITS),
            if nuc.stable {
                rank(INFINITY_BITS)
            } else {
                rank_or(nuc.half_life_s, ZERO_BITS)
            },
        )
    }

    /// Isotope `i` is worth at least as much as isotope `j`.
    pub open spec fn at_least(&self, i: int, j: int) -> bool {
        self.worth(i).0 > self.worth(j).0 || (self.worth(i).0 == self.worth(j).0 && self.worth(
            i,
        ).1 >= self.worth(j).1)
    }

    /// Among the first `k` nuclides, the last of those of element `sym` that
    /// are worth the most.
    pub open spec fn best_below(&self, syms: Seq<Seq<char>>, sym: Seq<char>, k: int) -> Option<int>
        decreases k,
    {
        if k <= 0 {
            None
        } else {
            let b = self.best_below(syms, sym, k - 1);
            if self.of_element(syms, k - 1, sym) {
                match b {
                    None => Some(k - 1),
                    Some(j) => if self.at_least(k - 1, j) {
                        Some(k - 1)
                    } else {
                        Some(j)
                    },
                }
            } else {
                b
            }
        }
    }

    /// The isotope of element `sym` worth opening on.
    pub open spec fn best_spec(&self, syms: Seq<Seq<char>>, sym: Seq<char>) -> Option<int> {
        self.best_below(syms, sym, self.all@.len() as int)
    }

    /// The first nuclide of element `sym` with mass number `a`.
    pub open spec fn first_with(&self, syms: Seq<Seq<char>>, sym: Seq<char>, a: int, k: int) -> Option<int>
        decreases k,
    {
        if k <= 0 {
            None
        } else {
            match self.first_with(syms, sym, a, k - 1) {
                Some(i) => Some(i),
                None => if self.of_element(syms, k - 1, sym) && mass_of(self.all@[k - 1]) == a {
                    Some(k - 1)
                } else {
                    None
                },
            }
        }
    }

    /// Once found, the first match stays the first.
    pub proof fn lemma_first_with_stays(&self, syms: Seq<Seq<char>>, sym: Seq<char>, a: int, k: int, k2: int)
        requires
            k <= k2,
            self.first_with(syms, sym, a, k) is Some,
        ensures
            self.first_with(syms, sym, a, k2) == self.first_with(syms, sym, a, k),
        decreases k2 - k,
    {
        if k < k2 {
            self.lemma_first_with_stays(syms, sym, a, k, k2 - 1);
        }
    }

    /// What the search finds for a key already trimmed, unseparated and in
    /// lower case, by the lower-case symbols `syms`: nothing without a
    /// letter; the element's best isotope without a digit; nothing for a
    /// mass number beyond a `u32`; else the first isotope of the element
    /// with that mass number, or failing one the element's best.
    pub open spec fn found_key(&self, syms: Seq<Seq<char>>, key: Seq<char>) -> Option<int> {
        let digits = kept(key, Keep::Digits);
        let letters = kept(key, Keep::Letters);
        if letters.len() == 0 {
            None
        } else if digits.len() == 0 {
            self.best_spec(syms, letters)
        } else if value_of(digits) > u32::MAX {
            None
        } else {
            match self.first_with(syms, letters, value_of(digits) as int, self.all@.len() as int) {
                Some(i) => Some(i),
                None => self.best_spec(syms, letters),
            }
        }
    }

    /// What `find` gives for a query.
    pub open spec fn found(&self, q: Seq<char>) -> Option<int> {
        self.found_key(self.lower_syms(), query_key(q))
    }

    /// What `find` gives for a query in ASCII.
    pub open spec fn found_ascii(&self, q: Seq<char>) -> Option<int> {
        self.found_key(self.lower_syms(), ascii_key(q))
    }

    /// The element symbol of each nuclide in lower case, by
    /// `str::to_lowercase`.
    pub fn lower_symbols(&self) -> (v: Vec<String>)
        ensures
            v@.len() == self.all@.len(),
            texts(v@) == self.lower_syms(),
    {
        let len = self.all.len();
        let mut v: Vec<String> = Vec::new();
        let mut i: usize = 0;
        while i < len
            invariant
                len == self.all@.len(),
                i <= len,
                v@.len() == i,
                forall|j: int| 0 <= j < i ==> (#[trigger] v@[j])@ == lowercase(self.all@[j].symbol@),
            decreases len - i,
        {
            let sym = to_lower(self.all[i].symbol.as_str());
            v.push(sym);
            i = i + 1;
        }
        assert(texts(v@) =~= self.lower_syms());
        v
    }

    /// Find a nuclide by what a person would type: `U238`, `u-238`,
    /// `238U`, `Fe 56`. A bare element symbol lands on the isotope you
    /// would actually meet: the most abundant one, or failing that the
    /// longest-lived, which is what `isotopes Fe` should open on.
    pub fn find(&self, query: &str) -> (r: Option<usize>)
        requires
            self.wf(),
        ensures
            crate::table::widen(r) == self.found(query@),
            is_ascii(query@) ==> crate::table::widen(r) == self.found_ascii(query@),
            r matches Some(i) ==> i < self.all@.len() && lowercase(self.all@[i as int].symbol@) == kept(
                query_key(query@),
                Keep::Letters,
            ),
            kept(query_key(query@), Keep::Letters).len() == 0 ==> r is None,
            is_ascii(query@) ==> (r matches Some(i) ==> lowercase(self.all@[i as int].symbol@)
                == ascii_lower(kept(query@, Keep::Letters))),
            is_ascii(query@) && kept(query@, Keep::Letters).len() == 0 ==> r is None,
    {
        proof {
            find_law(self, self.lower_syms(), query_key(query@));
            find_law(self, self.lower_syms(), ascii_key(query@));
            lemma_ascii_key(query@);
            assert(ascii_lower(kept(query@, Keep::Letters)).len() == kept(query@, Keep::Letters).len());
        }
        let t = trim(query);
        let u = keep(t.as_str(), Keep::Unseparated);
        proof {
            if is_ascii(query@) {
                lemma_ascii_kept(query@, Keep::Unseparated);
                lemma_ascii_kept(t@, Keep::Unseparated);
            }
        }
        let q = to_lower(u.as_str());
        let syms = self.lower_symbols();
        self.find_key(q.as_str(), &syms)
    }

    /// Find a nuclide by a key already trimmed, unseparated and in lower
    /// case, with the lower-case symbol of each nuclide in `lower_symbols`.
    pub fn find_key(&self, key: &str, lower_symbols: &Vec<String>) -> (r: Option<usize>)
        requires
            self.wf(),
            lower_symbols@.len() == self.all@.len(),
        ensures
            crate::table::widen(r) == self.found_key(texts(lower_symbols@), key@),
    {
        let ghost syms = texts(lower_symbols@);
        let digits = keep(key, Keep::Digits);
        let letters = keep(key, Keep::Letters);
        if letters.as_str().unicode_len() == 0 {
            return None;
        }
        if digits.as_str().unicode_len() == 0 {
            return self.best_of(letters.as_str(), lower_symbols);
        }
        proof {
            lemma_kept(key@, Keep::Digits);
            assert forall|j: int| 0 <= j < digits@.len() implies is_digit(#[trigger] digits@[j]) by {
            }
        }
        let a = match parse_digits(digits.as_str()) {
            Some(a) => a,
            None => return None,
        };
        let len = self.all.len();
        let mut i: usize = 0;
        #[verifier::loop_isolation(false)]
        while i < len
            invariant
                self.wf(),
                len == self.all@.len(),
                lower_symbols@.len() == len,
                syms == texts(lower_symbols@),
                i <= len,
                self.first_with(syms, letters@, a as int, i as int) is None,
            decreases len - i,
        {
            let nuc = &self.all[i];
            proof {
                assert(crate::table::fits(self.all@[i as int]));
            }
            if same(lower_symbols[i].as_str(), letters.as_str()) && nuc.a() == a {
                proof {
                    assert(syms[i as int] == lower_symbols@[i as int]@);
                    assert(self.first_with(syms, letters@, a as int, i as int + 1) == Some(i as int));
                    self.lemma_first_with_stays(syms, letters@, a as int, i as int + 1, len as int);
                }
                return Some(i);
            }
            i = i + 1;
        }
        self.best_of(letters.as_str(), lower_symbols)
    }

    /// The isotope of an element worth opening on: the most abundant, then
    /// the longest-lived, the last of them on a tie. `symbol` is the
    /// element's symbol in lower case, and `lower_symbols` that of each
    /// nuclide.
    pub fn best_of(&self, symbol: &str, lower_symbols: &Vec<String>) -> (r: Option<usize>)
        requires
            lower_symbols@.len() == self.all@.len(),
        ensures
            crate::table::widen(r) == self.best_spec(texts(lower_symbols@), symbol@),
            r is None <==> forall|j: int| 0 <= j < self.all@.len() ==> (#[trigger] lower_symbols@[j])@
                != symbol@,
            r matches Some(b) ==> b < self.all@.len() && lower_symbols@[b as int]@ == symbol@ && forall|j: int|
                0 <= j < self.all@.len() && (#[trigger] lower_symbols@[j])@ == symbol@ ==> self.at_least(
                    b as int,
                    j,
                ),
    {
        let ghost syms = texts(lower_symbols@);
        let len = self.all.len();
        let mut best: Option<usize> = None;
        let mut i: usize = 0;
        while i < len
            invariant
                len == self.all@.len(),
                lower_symbols@.len() == len,
                syms == texts(lower_symbols@),
                i <= len,
                crate::table::widen(best) == self.best_below(syms, symbol@, i as int),
                best matches Some(b) ==> b < i,
            decreases len - i,
        {
            let nuc = &self.all[i];
            if same(lower_symbols[i].as_str(), symbol) {
                match best {
                    None => {
                        best = Some(i);
                    },
                    Some(b) => {
                        let x = &self.all[b];
                        let ax = match nuc.abundance {
                            Some(v) => v.rank(),
                            None => (Real { bits: ZERO_BITS }).rank(),
                        };
                        let ay = match x.abundance {
                            Some(v) => v.rank(),
                            None => (Real { bits: ZERO_BITS }).rank(),
                        };
                        let hx = if nuc.stable {
                            (Real { bits: INFINITY_BITS }).rank()
                        } else {
                            match nuc.half_life_s {
                                Some(v) => v.rank(),
                                None => (Real { bits: ZERO_BITS }).rank(),
                            }
                        };
                        let hy = if x.stable {
                            (Real { bits: INFINITY_BITS }).rank()
                        } else {
                            match x.half_life_s {
                                Some(v) => v.rank(),
                                None => (Real { bits: ZERO_BITS }).rank(),
                            }
                        };
                        if ax > ay || (ax == ay && hx >= hy) {
                            best = Some(i);
                        }
                    },
                }
            }
            i = i + 1;
        }
        proof {
            best_law(self, texts(lower_symbols@), symbol@);
            assert forall|j: int| 0 <= j < lower_symbols@.len() implies texts(lower_symbols@)[j]
                == (#[trigger] lower_symbols@[j])@ by {}
            if best is None {
                assert forall|j: int| 0 <= j < self.all@.len() implies (#[trigger] lower_symbols@[j])@ != symbol@ by {
                    assert(!self.of_element(texts(lower_symbols@), j, symbol@));
                    assert(texts(lower_symbols@)[j] == lower_symbols@[j]@);
                }
            }
            if forall|j: int| 0 <= j < self.all@.len() ==> (#[trigger] lower_symbols@[j])@ != symbol@ {
                assert forall|j: int| 0 <= j < self.all@.len() implies !self.of_element(
                    texts(lower_symbols@),
                    j,
                    symbol@,
                ) by {
                    assert(texts(lower_symbols@)[j] == lower_symbols@[j]@);
                }
            }
        }
        best
    }
}

impl Table {
    proof fn lemma_best_below(&self, syms: Seq<Seq<char>>, sym: Seq<char>, k: int)
        requires
            0 <= k <= self.all@.len(),
        ensures
            self.best_below(syms, sym, k) matches Some(i) ==> 0 <= i < k && self.of_element(syms, i, sym)
                && forall|j: int| 0 <= j < k && self.of_element(syms, j, sym) ==> self.at_least(i, j),
            self.best_below(syms, sym, k) is None ==> forall|j: int| 0 <= j < k ==> !self.of_element(syms, j, sym),
        decreases k,
    {
        if k > 0 {
            self.lemma_best_below(syms, sym, k - 1);
            if let Some(i) = self.best_below(syms, sym, k) {
                assert forall|j: int| 0 <= j < k && self.of_element(syms, j, sym) implies self.at_least(i, j) by {
                    let b = self.best_below(syms, sym, k - 1);
                    if j < k - 1 {
                        let bb = b.unwrap();
                        assert(self.at_least(bb, j));
                        if i != bb {
                            assert(self.at_least(i, bb));
                        }
                    }
                }
            }
        }
    }

    proof fn lemma_first_with(&self, syms: Seq<Seq<char>>, sym: Seq<char>, a: int, k: int)
        requires
            0 <= k <= self.all@.len(),
        ensures
            self.first_with(syms, sym, a, k) matches Some(i) ==> 0 <= i < k && self.of_element(syms, i, sym)
                && mass_of(self.all@[i]) == a && forall|j: int| 0 <= j < i ==> !(self.of_element(syms, j, sym)
                && mass_of(self.all@[j]) == a),
            self.first_with(syms, sym, a, k) is None ==> forall|j: int| 0 <= j < k ==> !(self.of_element(syms, j, sym)
                && mass_of(self.all@[j]) == a),
        decreases k,
    {
        if k > 0 {
            self.lemma_first_with(syms, sym, a, k - 1);
        }
    }
}

/// A bare element symbol lands on the isotope you would actually meet: the
/// isotope of that element that no other outranks, first in natural
/// abundance, then in half-life (stable ones counting as longest-lived); and
/// only an element with no isotopes in the table finds nothing.
pub proof fn best_law(t: &Table, syms: Seq<Seq<char>>, sym: Seq<char>)
    ensures
        t.best_spec(syms, sym) matches Some(i) ==> 0 <= i < t.all@.len() && t.of_element(syms, i, sym)
            && forall|j: int| 0 <= j < t.all@.len() && t.of_element(syms, j, sym) ==> t.at_least(i, j),
        t.best_spec(syms, sym) is None <==> forall|j: int| 0 <= j < t.all@.len() ==> !t.of_element(syms, j, sym),
{
    t.lemma_best_below(syms, sym, t.all@.len() as int);
}

/// The isotope of an element worth opening on is its most abundant one (a
/// missing abundance counting as zero, in the total order of doubles);
/// half-life decides only between isotopes of equal abundance, the longer
/// first, a stable one counting as infinitely long and an unmeasured one as
/// zero. So a query of letters alone, with no digits, finds the element's
/// most abundant isotope.
pub proof fn best_is_most_abundant_law(t: &Table, syms: Seq<Seq<char>>, sym: Seq<char>, key: Seq<char>)
    ensures
        t.best_spec(syms, sym) matches Some(i) ==> 0 <= i < t.all@.len() && syms[i] == sym && forall|j: int|
            0 <= j < t.all@.len() && #[trigger] syms[j] == sym ==> {
                &&& rank_or(t.all@[i].abundance, ZERO_BITS) >= rank_or(t.all@[j].abundance, ZERO_BITS)
                &&& rank_or(t.all@[i].abundance, ZERO_BITS) == rank_or(t.all@[j].abundance, ZERO_BITS) ==> (
                if t.all@[i].stable {
                    rank(INFINITY_BITS)
                } else {
                    rank_or(t.all@[i].half_life_s, ZERO_BITS)
                }) >= (if t.all@[j].stable {
                    rank(INFINITY_BITS)
                } else {
                    rank_or(t.all@[j].half_life_s, ZERO_BITS)
                })
            },
        kept(key, Keep::Digits).len() == 0 ==> (t.found_key(syms, key) matches Some(i) ==> forall|j: int|
            0 <= j < t.all@.len() && #[trigger] syms[j] == kept(key, Keep::Letters) ==> rank_or(
                t.all@[i].abundance,
                ZERO_BITS,
            ) >= rank_or(t.all@[j].abundance, ZERO_BITS)),
{
    best_law(t, syms, sym);
    best_law(t, syms, kept(key, Keep::Letters));
    if let Some(i) = t.best_spec(syms, sym) {
        assert forall|j: int| 0 <= j < t.all@.len() && #[trigger] syms[j] == sym implies {
            &&& rank_or(t.all@[i].abundance, ZERO_BITS) >= rank_or(t.all@[j].abundance, ZERO_BITS)
            &&& rank_or(t.all@[i].abundance, ZERO_BITS) == rank_or(t.all@[j].abundance, ZERO_BITS) ==> (
            if t.all@[i].stable {
                rank(INFINITY_BITS)
            } else {
                rank_or(t.all@[i].half_life_s, ZERO_BITS)
            }) >= (if t.all@[j].stable {
                rank(INFINITY_BITS)
            } else {
                rank_or(t.all@[j].half_life_s, ZERO_BITS)
            })
        } by {
            assert(t.of_element(syms, j, sym));
            assert(t.at_least(i, j));
        }
    }
    if kept(key, Keep::Digits).len() == 0 {
        if let Some(i) = t.found_key(syms, key) {
            let l = kept(key, Keep::Letters);
            assert forall|j: int| 0 <= j < t.all@.len() && #[trigger] syms[j] == l implies rank_or(
                t.all@[i].abundance,
                ZERO_BITS,
            ) >= rank_or(t.all@[j].abundance, ZERO_BITS) by {
                assert(t.of_element(syms, j, l));
                assert(t.at_least(i, j));
            }
        }
    }
}

/// Search finds a nuclide of the element typed: the first with the mass
/// number typed, when there is one; otherwise, or when no number was typed,
/// the isotope of that element worth opening on. A key without a letter
/// finds nothing, nor does a mass number too large for a `u32`.
pub proof fn find_law(t: &Table, syms: Seq<Seq<char>>, key: Seq<char>)
    ensures
        ({
            let digits = kept(key, Keep::Digits);
            let letters = kept(key, Keep::Letters);
            &&& t.found_key(syms, key) matches Some(i) ==> 0 <= i < t.all@.len() && t.of_element(syms, i, letters)
            &&& letters.len() > 0 && digits.len() > 0 && value_of(digits) <= u32::MAX && (exists|j: int|
                0 <= j < t.all@.len() && t.of_element(syms, j, letters) && mass_of(t.all@[j]) == value_of(digits))
                ==> (t.found_key(syms, key) matches Some(i) && mass_of(t.all@[i]) == value_of(digits))
            &&& letters.len() > 0 && digits.len() > 0 && value_of(digits) <= u32::MAX && !(exists|j: int|
                0 <= j < t.all@.len() && t.of_element(syms, j, letters) && mass_of(t.all@[j]) == value_of(digits))
                ==> t.found_key(syms, key) == t.best_spec(syms, letters)
            &&& letters.len() > 0 && digits.len() > 0 && value_of(digits) > u32::MAX ==> t.found_key(syms, key) is None
            &&& letters.len() == 0 ==> t.found_key(syms, key) is None
        }),
{
    let digits = kept(key, Keep::Digits);
    let letters = kept(key, Keep::Letters);
    t.lemma_best_below(syms, letters, t.all@.len() as int);
    t.lemma_first_with(syms, letters, value_of(digits) as int, t.all@.len() as int);
}

/// The letters and digits of an ASCII key: those of the query, the letters
/// in lower case.
proof fn lemma_ascii_key(q: Seq<char>)
    ensures
        kept(ascii_key(q), Keep::Letters) == ascii_lower(kept(q, Keep::Letters)),
        kept(ascii_key(q), Keep::Digits) == kept(q, Keep::Digits),
{
    let x = kept(trimmed(q), Keep::Unseparated);
    lemma_kept_lower(x);
    lemma_kept_unseparated(trimmed(q));
    lemma_kept_trimmed(q);
}

/// Of a query in ASCII, search reads only the letters, in either case, and
/// the digits: two queries with the same letters, case aside, and the same
/// digits find the same nuclide. So case does not matter, nor do the
/// separators `-`, ` `, `_`, nor white space around the query, nor whether
/// the number comes before the symbol or after it.
pub proof fn search_reads_letters_and_digits_law(t: &Table, q1: Seq<char>, q2: Seq<char>)
    requires
        ascii_lower(kept(q1, Keep::Letters)) == ascii_lower(kept(q2, Keep::Letters)),
        kept(q1, Keep::Digits) == kept(q2, Keep::Digits),
    ensures
        t.found_ascii(q1) == t.found_ascii(q2),
{
    lemma_ascii_key(q1);
    lemma_ascii_key(q2);
}

/// The cases of the law above that a person meets: a query finds what the
/// same query finds in lower case, without its separators, trimmed, or
/// padded with white space.
pub proof fn search_ignores_case_and_separators_law(t: &Table, q: Seq<char>, pad1: Seq<char>, pad2: Seq<char>)
    requires
        forall|i: int| 0 <= i < pad1.len() ==> is_space(#[trigger] pad1[i]),
        forall|i: int| 0 <= i < pad2.len() ==> is_space(#[trigger] pad2[i]),
    ensures
        t.found_ascii(q) == t.found_ascii(ascii_lower(q)),
        t.found_ascii(q) == t.found_ascii(kept(q, Keep::Unseparated)),
        t.found_ascii(q) == t.found_ascii(trimmed(q)),
        t.found_ascii(q) == t.found_ascii(pad1 + q + pad2),
{
    lemma_kept_lower(q);
    lemma_kept_lower(kept(q, Keep::Letters));
    search_reads_letters_and_digits_law(t, q, ascii_lower(q));
    lemma_kept_unseparated(q);
    search_reads_letters_and_digits_law(t, q, kept(q, Keep::Unseparated));
    lemma_kept_trimmed(q);
    search_reads_letters_and_digits_law(t, q, trimmed(q));
    assert forall|i: int| 0 <= i < pad1.len() implies !keeps(Keep::Letters, #[trigger] pad1[i])
        && !keeps(Keep::Digits, pad1[i]) by {
        lemma_space_kept(pad1[i]);
    }
    assert forall|i: int| 0 <= i < pad2.len() implies !keeps(Keep::Letters, #[trigger] pad2[i])
        && !keeps(Keep::Digits, pad2[i]) by {
        lemma_space_kept(pad2[i]);
    }
    lemma_kept_none(pad1, Keep::Letters);
    lemma_kept_none(pad1, Keep::Digits);
    lemma_kept_none(pad2, Keep::Letters);
    lemma_kept_none(pad2, Keep::Digits);
    lemma_kept_add(pad1, q, Keep::Letters);
    lemma_kept_add(pad1, q, Keep::Digits);
    lemma_kept_add(pad1 + q, pad2, Keep::Letters);
    lemma_kept_add(pad1 + q, pad2, Keep::Digits);
    assert(kept(pad1 + q + pad2, Keep::Letters) =~= kept(q, Keep::Letters));
    assert(kept(pad1 + q + pad2, Keep::Digits) =~= kept(q, Keep::Digits));
    search_reads_letters_and_digits_law(t, q, pad1 + q + pad2);
}

/// A query in ASCII whose mass number no isotope of the element has finds
/// what the element's symbol alone finds; one whose mass number is too
/// large for a `u32` finds nothing.
pub proof fn search_falls_back_law(t: &Table, q: Seq<char>)
    requires
        kept(q, Keep::Letters).len() > 0,
        kept(q, Keep::Digits).len() > 0,
    ensures
        value_of(kept(q, Keep::Digits)) <= u32::MAX && !(exists|j: int|
            0 <= j < t.all@.len() && t.of_element(t.lower_syms(), j, ascii_lower(kept(q, Keep::Letters)))
                && mass_of(t.all@[j]) == value_of(kept(q, Keep::Digits)))
            ==> t.found_ascii(q) == t.found_ascii(kept(q, Keep::Letters)),
        value_of(kept(q, Keep::Digits)) > u32::MAX ==> t.found_ascii(q) is None,
{
    lemma_ascii_key(q);
    let l = kept(q, Keep::Letters);
    lemma_ascii_key(l);
    lemma_kept(q, Keep::Letters);
    assert forall|i: int| 0 <= i < l.len() implies !keeps(Keep::Digits, #[trigger] l[i]) by {
        assert(keeps(Keep::Letters, l[i]));
    }
    lemma_kept_none(l, Keep::Digits);
    assert forall|i: int| 0 <= i < l.len() implies keeps(Keep::Letters, #[trigger] l[i]) by {}
    lemma_kept_all(l, Keep::Letters);
    find_law(t, t.lower_syms(), ascii_key(q));
    find_law(t, t.lower_syms(), ascii_key(l));
    assert(ascii_lower(l).len() == l.len());
}

/// A string all of whose characters `which` keeps is kept whole.
proof fn lemma_kept_all(s: Seq<char>, which: Keep)
    requires
        forall|i: int| 0 <= i < s.len() ==> keeps(which, #[trigger] s[i]),
    ensures
        kept(s, which) == s,
    decreases s.len(),
{
    if s.len() > 0 {
        lemma_kept_all(s.drop_last(), which);
        assert(s.drop_last().push(s.last()) =~= s);
    }
}

} // verus!
