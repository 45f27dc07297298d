//! What is told about the nuclide under the cursor when a question is put
//! to the assistant: its facts, its decay chain, the conversation so far,
//! and the question.

use vstd::prelude::*;
use crate::app::App;
use crate::decay::{Decay, short_of};
use crate::nuclide::{Nuclide, name_of};
use crate::table::{Table, fits};
use crate::text::{decimal, push_decimal, joined, trimmed, trim};
use crate::record::{first_index, slice};

verus! {

/// The real-valued facts of a nuclide as a person reads them; turning the
/// numbers into text is done by the program around the library.
pub struct Readout {
    /// The half-life in a unit a human reads ("4.468 Gy", "stable").
    pub half_life: String,
    /// Each decay mode's branching percentage, in the order of the modes.
    pub branchings: Vec<Option<String>>,
    /// Binding energy per nucleon, keV, to one decimal.
    pub binding: Option<String>,
    /// Mass excess, keV, to one decimal.
    pub mass_excess: Option<String>,
    /// Natural abundance in percent.
    pub abundance: Option<String>,
}

/// One decay mode: its code, and its branching if there is one.
pub open spec fn mode_text(code: Seq<char>, pct: Option<String>) -> Seq<char> {
    match pct {
        Some(p) => code + " "@ + p@ + "%"@,
        None => code,
    }
}

/// The decay modes; where none is listed, that it is stable, or, for a
/// nuclide that is not stable, that its modes are unknown.
pub open spec fn modes_text(nuc: Nuclide, branchings: Seq<Option<String>>) -> Seq<char> {
    if nuc.decays@.len() == 0 {
        if nuc.stable {
            "none, it is stable"@
        } else {
            "unknown"@
        }
    } else {
        joined(
            Seq::new(
                nuc.decays@.len(),
                |k: int| mode_text(nuc.decays@[k].1@, branchings[k]),
            ),
            ", "@,
        )
    }
}

/// A known value, or "unknown".
pub open spec fn or_unknown(v: Option<String>) -> Seq<char> {
    match v {
        Some(s) => s@,
        None => "unknown"@,
    }
}

/// One link of a chain as the assistant is told it: the nuclide's name,
/// preceded by the mode that made it unless it is where the chain starts.
pub open spec fn link_text(t: &Table, link: (int, Decay)) -> Seq<char> {
    if link.1 == Decay::Stable {
        name_of(t.all@[link.0])
    } else {
        short_of(link.1) + " "@ + name_of(t.all@[link.0])
    }
}

/// The conversation so far.
pub open spec fn chat_from(chat: Seq<(String, String)>) -> Seq<char>
    decreases chat.len(),
{
    if chat.len() == 0 {
        seq![]
    } else {
        chat_from(chat.drop_last()) + "User: "@ + chat.last().0@ + "\nYou: "@ + chat.last().1@
            + "\n\n"@
    }
}

/// `p` followed by the first line of facts: name, Z, N, A.
pub open spec fn identity_after(p: Seq<char>, nuc: Nuclide) -> Seq<char> {
    p + "Nuclide: "@ + name_of(nuc) + " — "@ + decimal(nuc.z as nat) + " protons, "@ + decimal(
        nuc.n as nat,
    ) + " neutrons, mass number "@ + decimal((nuc.z + nuc.n) as nat)
}

/// Spin and parity, or "unknown".
pub open spec fn jp_text(nuc: Nuclide) -> Seq<char> {
    if nuc.jp@.len() == 0 {
        "unknown"@
    } else {
        nuc.jp@
    }
}

/// `p` followed by half-life, decay modes, spin and parity, binding energy
/// and mass excess.
pub open spec fn physics_after(p: Seq<char>, nuc: Nuclide, r: Readout) -> Seq<char> {
    p + ".\nHalf-life: "@ + r.half_life@ + ". Decay modes: "@ + modes_text(nuc, r.branchings@)
        + ".\nSpin/parity: "@ + jp_text(nuc) + ". Binding energy: "@ + or_unknown(r.binding)
        + " keV per nucleon. Mass excess: "@ + or_unknown(r.mass_excess) + " keV.\n"@
}

/// `p` followed by abundance and year of discovery, where known.
pub open spec fn history_after(p: Seq<char>, nuc: Nuclide, r: Readout) -> Seq<char> {
    let p1 = match r.abundance {
        Some(a) => p + "Natural abundance: "@ + a@ + "% of this element on Earth.\n"@,
        None => p,
    };
    match nuc.discovery {
        Some(y) => p1 + "First reported: "@ + decimal(y as nat) + ".\n"@,
        None => p1,
    }
}

/// `p` followed by the decay chain line, for a chain of more than one
/// nuclide.
pub open spec fn chain_after(p: Seq<char>, t: &Table, chain: Seq<(int, Decay)>) -> Seq<char> {
    if chain.len() > 1 {
        p + "Decay chain: "@ + joined(Seq::new(chain.len(), |k: int| link_text(t, chain[k])), " → "@)
            + "\n"@
    } else {
        p
    }
}

/// `p` followed by the conversation so far, introduced, if there is any.
pub open spec fn conversation_after(p: Seq<char>, chat: Seq<(String, String)>) -> Seq<char> {
    if chat.len() > 0 {
        p + "\nEarlier in this conversation:\n"@ + chat_from(chat)
    } else {
        p
    }
}

/// The whole context put to the assistant about nuclide `nuc`, with the
/// chain from it: the facts, the chain, the conversation, the question.
pub open spec fn context_text(
    t: &Table,
    app: &App,
    nuc: Nuclide,
    r: Readout,
    chain: Seq<(int, Decay)>,
    question: Seq<char>,
) -> Seq<char> {
    conversation_after(
        chain_after(history_after(physics_after(identity_after(seq![], nuc), nuc, r), nuc, r), t, chain),
        app.chat@,
    ) + "\nQuestion: "@ + question + "\n"@
}

/// Appends the first line of facts.
fn append_identity(s: &mut String, nuc: &Nuclide)
    requires
        fits(*nuc),
    ensures
        final(s)@ == identity_after(old(s)@, *nuc),
{
    s.append("Nuclide: ");
    let name = nuc.name();
    s.append(name.as_str());
    s.append(" — ");
    push_decimal(s, nuc.z as u64);
    s.append(" protons, ");
    push_decimal(s, nuc.n as u64);
    s.append(" neutrons, mass number ");
    push_decimal(s, nuc.a() as u64);
}

/// Appends half-life, decay modes, spin and parity, binding energy and
/// mass excess.
fn append_physics(s: &mut String, nuc: &Nuclide, readout: &Readout)
    requires
        readout.branchings@.len() == nuc.decays@.len(),
    ensures
        final(s)@ == physics_after(old(s)@, *nuc, *readout),
{
    s.append(".\nHalf-life: ");
    s.append(readout.half_life.as_str());
    s.append(". Decay modes: ");
    if nuc.decays.len() == 0 {
        if nuc.stable {
            s.append("none, it is stable");
        } else {
            s.append("unknown");
        }
    } else {
        append_modes(s, nuc, &readout.branchings);
    }
    s.append(".\nSpin/parity: ");
    if nuc.jp.as_str().unicode_len() == 0 {
        s.append("unknown");
    } else {
        s.append(nuc.jp.as_str());
    }
    s.append(". Binding energy: ");
    match &readout.binding {
        Some(b) => s.append(b.as_str()),
        None => s.append("unknown"),
    }
    s.append(" keV per nucleon. Mass excess: ");
    match &readout.mass_excess {
        Some(m) => s.append(m.as_str()),
        None => s.append("unknown"),
    }
    s.append(" keV.\n");
}

/// Appends abundance and year of discovery, where known.
fn append_history(s: &mut String, nuc: &Nuclide, readout: &Readout)
    ensures
        final(s)@ == history_after(old(s)@, *nuc, *readout),
{
    match &readout.abundance {
        Some(a) => {
            s.append("Natural abundance: ");
            s.append(a.as_str());
            s.append("% of this element on Earth.\n");
        },
        None => {},
    }
    match nuc.discovery {
        Some(y) => {
            s.append("First reported: ");
            push_decimal(s, y as u64);
            s.append(".\n");
        },
        None => {},
    }
}

/// Appends the decay modes, comma-separated, each with its branching.
fn append_modes(s: &mut String, nuc: &Nuclide, branchings: &Vec<Option<String>>)
    requires
        branchings@.len() == nuc.decays@.len(),
        nuc.decays@.len() > 0,
    ensures
        final(s)@ == old(s)@ + modes_text(*nuc, branchings@),
{
    let len = nuc.decays.len();
    let ghost parts = Seq::new(
        nuc.decays@.len(),
        |k: int| mode_text(nuc.decays@[k].1@, branchings@[k]),
    );
    let mut k: usize = 0;
    while k < len
        invariant
            len == nuc.decays@.len(),
            branchings@.len() == len,
            len > 0,
            k <= len,
            parts == Seq::new(
                nuc.decays@.len(),
                |k: int| mode_text(nuc.decays@[k].1@, branchings@[k]),
            ),
            s@ == old(s)@ + joined(parts.take(k as int), ", "@),
        decreases len - k,
    {
        if k > 0 {
            s.append(", ");
        }
        s.append(nuc.decays[k].1.as_str());
        match &branchings[k] {
            Some(p) => {
                s.append(" ");
                s.append(p.as_str());
                s.append("%");
            },
            None => {},
        }
        proof {
            assert(parts.take(k + 1).drop_last() =~= parts.take(k as int));
            assert(parts.take(k + 1).last() == parts[k as int]);
            if k == 0 {
                assert(parts.take(1).len() == 1);
            }
        }
        k = k + 1;
    }
    assert(parts.take(len as int) =~= parts);
}

/// Appends the decay chain line.
fn append_chain(s: &mut String, t: &Table, chain: &Vec<(usize, Decay)>, Ghost(links): Ghost<Seq<(int, Decay)>>)
    requires
        t.wf(),
        chain@.len() == links.len(),
        forall|k: int| 0 <= k < chain@.len() ==> (#[trigger] chain@[k]).0 < t.all@.len(),
        forall|k: int| 0 <= k < chain@.len() ==> (#[trigger] chain@[k]).0 as int == links[k].0 && chain@[k].1 == links[k].1,
    ensures
        final(s)@ == chain_after(old(s)@, t, links),
{
    let len = chain.len();
    if len <= 1 {
        return;
    }
    let ghost parts = Seq::new(links.len(), |k: int| link_text(t, links[k]));
    s.append("Decay chain: ");
    let mut k: usize = 0;
    while k < len
        invariant
            t.wf(),
            len == chain@.len(),
            len > 1,
            k <= len,
            forall|k: int| 0 <= k < chain@.len() ==> (#[trigger] chain@[k]).0 < t.all@.len(),
            forall|k: int| 0 <= k < chain@.len() ==> (#[trigger] chain@[k]).0 as int == links[k].0 && chain@[k].1 == links[k].1,
            chain@.len() == links.len(),
            parts == Seq::new(links.len(), |k: int| link_text(t, links[k])),
            s@ == old(s)@ + "Decay chain: "@ + joined(parts.take(k as int), " → "@),
        decreases len - k,
    {
        if k > 0 {
            s.append(" → ");
        }
        let (i, m) = chain[k];
        proof {
            assert(fits(t.all@[i as int]));
        }
        if m != Decay::Stable {
            s.append(m.short());
            s.append(" ");
        }
        let name = t.all[i].name();
        s.append(name.as_str());
        proof {
            assert(chain@[k as int] == (i, m));
            assert(links[k as int] == (i as int, m));
            assert(parts.take(k + 1).drop_last() =~= parts.take(k as int));
            assert(parts.take(k + 1).last() == parts[k as int]);
        }
        k = k + 1;
    }
    assert(parts.take(len as int) =~= parts);
    s.append("\n");
}

/// Appends the conversation so far.
fn append_chat(s: &mut String, chat: &Vec<(String, String)>)
    ensures
        final(s)@ == old(s)@ + chat_from(chat@),
{
    let len = chat.len();
    let mut k: usize = 0;
    while k < len
        invariant
            len == chat@.len(),
            k <= len,
            s@ == old(s)@ + chat_from(chat@.take(k as int)),
        decreases len - k,
    {
        s.append("User: ");
        s.append(chat[k].0.as_str());
        s.append("\nYou: ");
        s.append(chat[k].1.as_str());
        s.append("\n\n");
        assert(chat@.take(k + 1).drop_last() =~= chat@.take(k as int));
        k = k + 1;
    }
    assert(chat@.take(len as int) =~= chat@);
}

/// What is told about the nuclide under the cursor when `question` is put
/// to the assistant: its name, Z, N and A, half-life and decay modes, spin
/// and parity, binding energy and mass excess, abundance and year of
/// discovery where known, its decay chain if it has one, the conversation
/// so far, and the question. `readout` holds the real-valued facts of that
/// nuclide as a person reads them.
pub fn ask_context(t: &Table, app: &App, readout: &Readout, question: &str) -> (s: String)
    requires
        t.wf(),
        t.all@.len() > 0,
        readout.branchings@.len() == app.cur_spec(t).decays@.len(),
    ensures
        s@ == context_text(
            t,
            app,
            app.cur_spec(t),
            *readout,
            t.chain_of(
                match t.at(app.cur_spec(t).z as int, app.cur_spec(t).n as int) {
                    Some(i) => i,
                    None => 0,
                },
            ),
            question@,
        ),
{
    let nuc = app.cur(t);
    proof {
        if let Some(i) = t.at(app.z as int, app.n as int) {
            t.lemma_at(app.z as int, app.n as int);
        }
        assert(fits(*nuc));
    }
    let mut s = String::new();
    append_identity(&mut s, nuc);
    append_physics(&mut s, nuc, readout);
    append_history(&mut s, nuc, readout);
    let start = match t.index(nuc.z, nuc.n) {
        Some(i) => i,
        None => 0,
    };
    let chain = t.chain(start);
    let ghost links = t.chain_of(start as int);
    append_chain(&mut s, t, &chain, Ghost(links));
    if app.chat.len() > 0 {
        s.append("\nEarlier in this conversation:\n");
        append_chat(&mut s, &app.chat);
    }
    s.append("\nQuestion: ");
    s.append(question);
    s.append("\n");
    s
}

/// The first line of `s`, as `str::lines` gives it: up to the first line
/// feed, without a carriage return just before it; none for empty text.
pub open spec fn first_line(s: Seq<char>) -> Option<Seq<char>> {
    if s.len() == 0 {
        None
    } else {
        match first_index(s, '\n') {
            Some(k) => {
                let l = s.take(k);
                Some(
                    if l.len() > 0 && l.last() == '\r' {
                        l.drop_last()
                    } else {
                        l
                    },
                )
            },
            None => Some(s),
        }
    }
}

/// At most the first `k` characters of `s`.
pub open spec fn at_most(s: Seq<char>, k: int) -> Seq<char> {
    if s.len() <= k {
        s
    } else {
        s.take(k)
    }
}

/// What the assistant's run comes to: on success its output, trimmed; on
/// failure the first line of what it wrote to its error stream, at most
/// eighty characters, or "(no message)" when it wrote nothing.
pub open spec fn reply_of(ok: bool, out: Seq<char>, err: Seq<char>) -> Result<Seq<char>, Seq<char>> {
    if ok {
        Ok(trimmed(out))
    } else {
        match first_line(err) {
            Some(l) => Err(at_most(l, 80)),
            None => Err(at_most("(no message)"@, 80)),
        }
    }
}

/// The assistant's reply from how its run ended, `ok`, and what it wrote to
/// its output, `out`, and to its error stream, `err`.
pub fn reply(ok: bool, out: &str, err: &str) -> (r: Result<String, String>)
    ensures
        match (r, reply_of(ok, out@, err@)) {
            (Ok(a), Ok(b)) => a@ == b,
            (Err(a), Err(b)) => a@ == b,
            _ => false,
        },
{
    if ok {
        return Ok(trim(out));
    }
    let len = err.unicode_len();
    if len == 0 {
        let m = String::from_str("(no message)");
        proof {
            reveal_strlit("(no message)");
        }
        return Err(m);
    }
    let mut k: usize = 0;
    while k < len && err.get_char(k) != '\n'
        invariant
            len == err@.len(),
            k <= len,
            first_index(err@.take(k as int), '\n') is None,
        decreases len - k,
    {
        assert(err@.take(k + 1).drop_last() =~= err@.take(k as int));
        k = k + 1;
    }
    let mut end0 = k;
    if k < len {
        proof {
            lemma_first_index_at(err@, k as int);
        }
        if k > 0 && err.get_char(k - 1) == '\r' {
            end0 = k - 1;
        }
    } else {
        assert(err@.take(len as int) =~= err@);
    }
    let ghost l = match first_line(err@) {
        Some(l) => l,
        None => seq![],
    };
    assert(l =~= err@.subrange(0, end0 as int));
    let end = if end0 > 80 {
        80
    } else {
        end0
    };
    let line = slice(err, 0, end);
    assert(line@ =~= at_most(l, 80));
    Err(line)
}

/// The first line feed found at `k` is the first of the whole text.
proof fn lemma_first_index_at(s: Seq<char>, k: int)
    requires
        0 <= k < s.len(),
        s[k] == '\n',
        first_index(s.take(k), '\n') is None,
    ensures
        first_index(s, '\n') == Some(k),
    decreases s.len() - k,
{
    if k + 1 < s.len() {
        assert(s.drop_last().take(k) =~= s.take(k));
        lemma_first_index_at(s.drop_last(), k);
    } else {
        assert(s.drop_last() =~= s.take(k));
    }
}

/// The status line after a question: nothing when there is an answer to
/// show; a note that the assistant returned nothing for an empty one; the
/// error, introduced, when the run failed.
pub open spec fn reply_note_of(r: Result<Seq<char>, Seq<char>>) -> Option<Seq<char>> {
    match r {
        Ok(a) => if a.len() > 0 {
            None
        } else {
            Some("the assistant returned nothing"@)
        },
        Err(e) => Some("assistant: "@ + e),
    }
}

/// The status line after a question, if any.
pub fn reply_note(r: &Result<String, String>) -> (m: Option<String>)
    ensures
        m matches Some(x) ==> reply_note_of(
            match r {
                Ok(a) => Ok(a@),
                Err(e) => Err(e@),
            },
        ) == Some(x@),
        m is None <==> reply_note_of(
            match r {
                Ok(a) => Ok(a@),
                Err(e) => Err(e@),
            },
        ) is None,
{
    match r {
        Ok(a) => if a.unicode_len() > 0 {
            None
        } else {
            Some(String::from_str("the assistant returned nothing"))
        },
        Err(e) => {
            let mut m = String::from_str("assistant: ");
            m.append(e.as_str());
            Some(m)
        },
    }
}

} // verus!
