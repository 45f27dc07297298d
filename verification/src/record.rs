//! One line of the evaluators' table, read into its fields.
//!
//! A line holds, comma-separated: Z, N, the element symbol, spin and parity,
//! natural abundance, half-life in seconds (or `STABLE`), the half-life as
//! written, the decay modes (`code:percent`, space-separated), binding energy
//! per nucleon, mass excess, and the year of discovery. Lines starting with
//! `#` are comments. The real-valued fields are kept as written.

use vstd::prelude::*;
use crate::decay::{Decay, family};
use crate::text::{is_prefix, is_space, space, push_char, u32_of, parse_u32, same};

verus! {

/// `s` cut at every `sep`, as `str::split` cuts it: one more piece than
/// there are separators, empty pieces included.
pub open spec fn split_on(s: Seq<char>, sep: char) -> Seq<Seq<char>>
    decreases s.len(),
{
    if s.len() == 0 {
        seq![seq![]]
    } else {
        let p = split_on(s.drop_last(), sep);
        if s.last() == sep {
            p.push(seq![])
        } else {
            p.update(p.len() - 1, p.last().push(s.last()))
        }
    }
}

/// The runs of non-white-space characters of `s`, as
/// `str::split_whitespace` gives them.
pub open spec fn words(s: Seq<char>) -> Seq<Seq<char>>
    decreases s.len(),
{
    if s.len() == 0 {
        seq![]
    } else {
        let p = words(s.drop_last());
        let c = s.last();
        if is_space(c) {
            p
        } else if s.drop_last().len() > 0 && !is_space(s.drop_last().last()) {
            p.update(p.len() - 1, p.last().push(c))
        } else {
            p.push(seq![c])
        }
    }
}

/// The position of the first `c` in `s`.
pub open spec fn first_index(s: Seq<char>, c: char) -> Option<int>
    decreases s.len(),
{
    if s.len() == 0 {
        None
    } else {
        match first_index(s.drop_last(), c) {
            Some(k) => Some(k),
            None => if s.last() == c {
                Some(s.len() - 1)
            } else {
                None
            },
        }
    }
}

/// A decay entry `code:percent` cut at its first colon; with no colon the
/// whole entry is the code and the percentage is empty.
pub open spec fn code_and_pct(d: Seq<char>) -> (Seq<char>, Seq<char>) {
    match first_index(d, ':') {
        Some(k) => (d.take(k), d.skip(k + 1)),
        None => (d, seq![]),
    }
}

/// One line of the table, read into its fields.
pub struct Record {
    pub z: u32,
    pub n: u32,
    pub symbol: String,
    pub jp: String,
    /// Natural abundance in percent, as written.
    pub abundance: String,
    /// Half-life in seconds as written, or `STABLE`.
    pub half_life: String,
    pub stable: bool,
    pub half_life_text: String,
    /// Each decay mode: its family, its code, its percentage as written.
    pub decays: Vec<(Decay, String, String)>,
    /// Binding energy per nucleon in keV, as written.
    pub binding: String,
    /// Mass excess in keV, as written.
    pub mass_excess: String,
    pub discovery: Option<u32>,
}

/// The line is a row of the table: not a comment, at least eleven fields,
/// and Z and N read as numbers.
pub open spec fn is_row(l: Seq<char>) -> bool {
    let f = split_on(l, ',');
    &&& !is_prefix(seq!['#'], l)
    &&& f.len() >= 11
    &&& u32_of(f[0]) is Some
    &&& u32_of(f[1]) is Some
}

/// `rec` holds the fields of row `l`.
pub open spec fn describes(rec: Record, l: Seq<char>) -> bool {
    let f = split_on(l, ',');
    &&& rec.z == u32_of(f[0]).unwrap()
    &&& rec.n == u32_of(f[1]).unwrap()
    &&& rec.symbol@ == f[2]
    &&& rec.jp@ == f[3]
    &&& rec.abundance@ == f[4]
    &&& rec.half_life@ == f[5]
    &&& rec.stable == (f[5] == seq!['S', 'T', 'A', 'B', 'L', 'E'])
    &&& rec.half_life_text@ == f[6]
    &&& rec.decays@.len() == words(f[7]).len()
    &&& forall|k: int|
        0 <= k < rec.decays@.len() ==> {
            let (code, pct) = code_and_pct(#[trigger] words(f[7])[k]);
            &&& rec.decays@[k].0 == family(code)
            &&& rec.decays@[k].1@ == code
            &&& rec.decays@[k].2@ == pct
        }
    &&& rec.binding@ == f[8]
    &&& rec.mass_excess@ == f[9]
    &&& rec.discovery == u32_of(f[10])
}

proof fn lemma_split_len(s: Seq<char>, sep: char)
    ensures
        split_on(s, sep).len() >= 1,
    decreases s.len(),
{
    if s.len() > 0 {
        lemma_split_len(s.drop_last(), sep);
    }
}

proof fn lemma_words_len(s: Seq<char>)
    ensures
        s.len() > 0 && !is_space(s.last()) ==> words(s).len() >= 1,
    decreases s.len(),
{
    if s.len() > 0 {
        lemma_words_len(s.drop_last());
    }
}

/// The characters `from..to` of `s`.
pub fn slice(s: &str, from: usize, to: usize) -> (r: String)
    requires
        from <= to <= s@.len(),
    ensures
        r@ == s@.subrange(from as int, to as int),
{
    let mut r = String::new();
    let mut k = from;
    while k < to
        invariant
            from <= k <= to <= s@.len(),
            r@ =~= s@.subrange(from as int, k as int),
        decreases to - k,
    {
        push_char(&mut r, s.get_char(k));
        k = k + 1;
    }
    r
}

/// `s` cut at every `sep`.
pub fn split(s: &str, sep: char) -> (r: Vec<String>)
    ensures
        r@.len() == split_on(s@, sep).len(),
        forall|j: int| 0 <= j < r@.len() ==> (#[trigger] r@[j])@ == split_on(s@, sep)[j],
{
    let len = s.unicode_len();
    let mut done: Vec<String> = Vec::new();
    let mut cur = String::new();
    let mut k: usize = 0;
    assert(s@.take(0) =~= Seq::<char>::empty());
    while k < len
        invariant
            len == s@.len(),
            k <= len,
            done@.len() + 1 == split_on(s@.take(k as int), sep).len(),
            forall|j: int| 0 <= j < done@.len() ==> (#[trigger] done@[j])@ == split_on(s@.take(k as int), sep)[j],
            cur@ == split_on(s@.take(k as int), sep).last(),
        decreases len - k,
    {
        let c = s.get_char(k);
        proof {
            assert(s@.take(k + 1).drop_last() =~= s@.take(k as int));
            lemma_split_len(s@.take(k as int), sep);
        }
        if c == sep {
            done.push(cur);
            cur = String::new();
        } else {
            push_char(&mut cur, c);
        }
        k = k + 1;
    }
    done.push(cur);
    assert(s@.take(len as int) =~= s@);
    done
}

/// The runs of non-white-space characters of `s`.
pub fn split_words(s: &str) -> (r: Vec<String>)
    ensures
        r@.len() == words(s@).len(),
        forall|j: int| 0 <= j < r@.len() ==> (#[trigger] r@[j])@ == words(s@)[j],
{
    let len = s.unicode_len();
    let mut done: Vec<String> = Vec::new();
    let mut cur = String::new();
    let mut in_word = false;
    let mut k: usize = 0;
    while k < len
        invariant
            len == s@.len(),
            k <= len,
            in_word ==> k > 0 && !is_space(s@[k - 1]),
            !in_word ==> k == 0 || is_space(s@[k - 1]),
            in_word ==> done@.len() + 1 == words(s@.take(k as int)).len(),
            in_word ==> cur@ == words(s@.take(k as int)).last(),
            !in_word ==> done@.len() == words(s@.take(k as int)).len(),
            forall|j: int| 0 <= j < done@.len() ==> (#[trigger] done@[j])@ == words(s@.take(k as int))[j],
        decreases len - k,
    {
        let c = s.get_char(k);
        proof {
            assert(s@.take(k + 1).drop_last() =~= s@.take(k as int));
            lemma_words_len(s@.take(k as int));
        }
        if space(c) {
            if in_word {
                done.push(cur);
                cur = String::new();
                in_word = false;
            }
        } else {
            if !in_word {
                cur = String::new();
                in_word = true;
            }
            push_char(&mut cur, c);
        }
        k = k + 1;
    }
    if in_word {
        done.push(cur);
    }
    assert(s@.take(len as int) =~= s@);
    done
}

/// A decay entry cut at its first colon into code and percentage.
pub fn split_entry(d: &str) -> (r: (String, String))
    ensures
        r.0@ == code_and_pct(d@).0,
        r.1@ == code_and_pct(d@).1,
{
    let len = d.unicode_len();
    let mut k: usize = 0;
    while k < len
        invariant
            len == d@.len(),
            k <= len,
            first_index(d@.take(k as int), ':') is None,
        decreases len - k,
    {
        assert(d@.take(k + 1).drop_last() =~= d@.take(k as int));
        if d.get_char(k) == ':' {
            proof {
                lemma_first_index_stays(d@, k as int + 1);
            }
            return (slice(d, 0, k), slice(d, k + 1, len));
        }
        k = k + 1;
    }
    assert(d@.take(len as int) =~= d@);
    (slice(d, 0, len), String::new())
}

proof fn lemma_first_index_stays(s: Seq<char>, k: int)
    requires
        0 < k <= s.len(),
        first_index(s.take(k), ':') is Some,
    ensures
        first_index(s, ':') == first_index(s.take(k), ':'),
    decreases s.len() - k,
{
    if k < s.len() {
        assert(s.take(k + 1).drop_last() =~= s.take(k));
        lemma_first_index_stays(s, k + 1);
    } else {
        assert(s.take(k) =~= s);
    }
}

/// Reads one line of the table; `None` for a comment or a line that is not
/// a row.
pub fn read_line(line: &str) -> (r: Option<Record>)
    ensures
        r is Some <==> is_row(line@),
        r matches Some(rec) ==> describes(rec, line@),
{
    proof {
        reveal_strlit("STABLE");
        assert("STABLE"@ =~= seq!['S', 'T', 'A', 'B', 'L', 'E']);
    }
    if line.unicode_len() > 0 && line.get_char(0) == '#' {
        assert(line@.subrange(0, 1) =~= seq!['#']);
        return None;
    }
    proof {
        if is_prefix(seq!['#'], line@) {
            assert(line@.subrange(0, 1)[0] == line@[0]);
        }
    }
    let f = split(line, ',');
    if f.len() < 11 {
        return None;
    }
    let z = match parse_u32(f[0].as_str()) {
        Some(z) => z,
        None => return None,
    };
    let n = match parse_u32(f[1].as_str()) {
        Some(n) => n,
        None => return None,
    };
    let entries = split_words(f[7].as_str());
    let mut decays: Vec<(Decay, String, String)> = Vec::new();
    let mut k: usize = 0;
    while k < entries.len()
        invariant
            k <= entries@.len(),
            f@.len() >= 11,
            entries@.len() == words(f@[7]@).len(),
            forall|j: int| 0 <= j < entries@.len() ==> (#[trigger] entries@[j])@ == words(f@[7]@)[j],
            decays@.len() == k,
            forall|j: int|
                0 <= j < k ==> {
                    let (code, pct) = code_and_pct(#[trigger] words(f@[7]@)[j]);
                    &&& decays@[j].0 == family(code)
                    &&& decays@[j].1@ == code
                    &&& decays@[j].2@ == pct
                },
        decreases entries@.len() - k,
    {
        let (code, pct) = split_entry(entries[k].as_str());
        let mode = Decay::parse(code.as_str());
        decays.push((mode, code, pct));
        k = k + 1;
    }
    Some(
        Record {
            z,
            n,
            symbol: f[2].clone(),
            jp: f[3].clone(),
            abundance: f[4].clone(),
            half_life: f[5].clone(),
            stable: same(f[5].as_str(), "STABLE"),
            half_life_text: f[6].clone(),
            decays,
            binding: f[8].clone(),
            mass_excess: f[9].clone(),
            discovery: parse_u32(f[10].as_str()),
        },
    )
}

/// No decay mode read from the table is marked stable: stability is the
/// half-life field's word alone.
pub proof fn record_law_no_stable_mode(rec: Record, l: Seq<char>)
    requires
        describes(rec, l),
    ensures
        forall|k: int| 0 <= k < rec.decays@.len() ==> (#[trigger] rec.decays@[k]).0 != Decay::Stable,
{
    assert forall|k: int| 0 <= k < rec.decays@.len() implies (#[trigger] rec.decays@[k]).0 != Decay::Stable by {
        crate::decay::parse_law_unknown_and_stable(code_and_pct(words(split_on(l, ',')[7])[k]).0);
    }
}

} // verus!
