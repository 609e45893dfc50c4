//! Deterministic rendering of the assembled configuration as a TOML
//! document: one `[target."<triple>"]` table per entry, holding the
//! optional `ar` and `linker` strings and the `rustflags` array.

use vstd::prelude::*;
use vstd::string::StrSliceExecFns;
use vstd::string::StringExecFns;
use crate::config::{CargoTarget, TargetView};

verus! {

/// A character that can stand inside a rendered quoted string: printable
/// characters directly; tab, line feed and carriage return through their
/// escape sequences. Other control characters have no representation here.
pub open spec fn char_ok(c: char) -> bool {
    ((c as u32) >= 32 && (c as u32) != 127) || c == '\n' || c == '\t' || c == '\r'
}

/// Every character of the sequence is representable.
pub open spec fn seq_ok(s: Seq<char>) -> bool {
    forall|j: int| 0 <= j < s.len() ==> char_ok(#[trigger] s[j])
}

/// How one character is written inside a quoted string.
pub open spec fn escape_char(c: char) -> Seq<char> {
    if c == '"' {
        "\\\""@
    } else if c == '\\' {
        "\\\\"@
    } else if c == '\n' {
        "\\n"@
    } else if c == '\t' {
        "\\t"@
    } else if c == '\r' {
        "\\r"@
    } else {
        seq![c]
    }
}

/// The escaped body of a quoted string.
pub open spec fn escape_seq(s: Seq<char>) -> Seq<char>
    decreases s.len(),
{
    if s.len() == 0 {
        Seq::empty()
    } else {
        escape_seq(s.drop_last()) + escape_char(s.last())
    }
}

/// A quoted string: the escaped text between double quotes.
pub open spec fn quoted(s: Seq<char>) -> Seq<char> {
    "\""@ + escape_seq(s) + "\""@
}

/// The body of a `rustflags` array: the quoted flags, comma-separated.
pub open spec fn render_flags(fl: Seq<Seq<char>>) -> Seq<char>
    decreases fl.len(),
{
    if fl.len() == 0 {
        Seq::empty()
    } else if fl.len() == 1 {
        quoted(fl[0])
    } else {
        render_flags(fl.drop_last()) + ", "@ + quoted(fl.last())
    }
}

/// The key-value lines of one target table: `ar` and `linker` lines only
/// when the field is set, then always the `rustflags` array.
pub open spec fn render_target(t: TargetView) -> Seq<char> {
    (match t.ar {
        Some(a) => "ar = "@ + quoted(a) + "\n"@,
        None => Seq::empty(),
    }) + (match t.linker {
        Some(l) => "linker = "@ + quoted(l) + "\n"@,
        None => Seq::empty(),
    }) + ("rustflags = ["@ + render_flags(t.rustflags) + "]\n"@)
}

/// One target table: header line, the table's lines, a separating blank
/// line.
pub open spec fn render_entry(triple: Seq<char>, t: TargetView) -> Seq<char> {
    "[target.\""@ + escape_seq(triple) + "\"]\n"@ + render_target(t) + "\n"@
}

/// The whole document: the entries' tables in the order given.
pub open spec fn render_config(e: Seq<(String, CargoTarget)>) -> Seq<char>
    decreases e.len(),
{
    if e.len() == 0 {
        Seq::empty()
    } else {
        render_config(e.drop_last()) + render_entry(e.last().0@, e.last().1@)
    }
}

/// Every string of the override is representable.
pub open spec fn target_ok(t: TargetView) -> bool {
    &&& (t.ar matches Some(a) ==> seq_ok(a))
    &&& (t.linker matches Some(l) ==> seq_ok(l))
    &&& (forall|j: int| 0 <= j < t.rustflags.len() ==> seq_ok(#[trigger] t.rustflags[j]))
}

/// Every string of every entry is representable.
pub open spec fn entries_ok(e: Seq<(String, CargoTarget)>) -> bool {
    forall|j: int| 0 <= j < e.len() ==> seq_ok(#[trigger] e[j].0@) && target_ok(e[j].1@)
}

/// Relies on `String::push`: appends exactly the one character.
#[verifier::external_body]
fn push_char(s: &mut String, c: char)
    ensures
        final(s)@ == old(s)@.push(c),
{
    s.push(c);
}

/// Escapes a string for inclusion in quotes, or reports that it holds an
/// unrepresentable character.
pub fn escape_str(s: &str) -> (r: Option<String>)
    ensures
        r is Some <==> seq_ok(s@),
        r matches Some(out) ==> out@ == escape_seq(s@),
{
    let len = s.unicode_len();
    let mut out = String::new();
    let mut i: usize = 0;
    while i < len
        invariant
            len == s@.len(),
            i <= len,
            out@ == escape_seq(s@.take(i as int)),
            forall|j: int| 0 <= j < i ==> char_ok(#[trigger] s@[j]),
        decreases len - i,
    {
        let c = s.get_char(i);
        proof {
            assert(s@.take(i + 1).drop_last() =~= s@.take(i as int));
            assert(s@.take(i + 1).last() == s@[i as int]);
        }
        if c == '"' {
            out.append("\\\"");
        } else if c == '\\' {
            out.append("\\\\");
        } else if c == '\n' {
            out.append("\\n");
        } else if c == '\t' {
            out.append("\\t");
        } else if c == '\r' {
            out.append("\\r");
        } else {
            let u = c as u32;
            if u < 32 || u == 127 {
                return None;
            }
            push_char(&mut out, c);
            proof {
                assert(out@ =~= escape_seq(s@.take(i as int)) + escape_char(c));
            }
        }
        i += 1;
    }
    proof {
        assert(s@.take(len as int) =~= s@);
    }
    Some(out)
}

/// Renders the body of the `rustflags` array, or reports a flag that holds
/// an unrepresentable character.
pub fn render_flags_str(flags: &Vec<String>) -> (r: Option<String>)
    ensures
        r is Some <==> (forall|j: int| 0 <= j < flags@.len() ==> seq_ok(#[trigger] flags@[j]@)),
        r matches Some(out) ==> out@ == render_flags(flags@.map_values(|f: String| f@)),
{
    let ghost fv = flags@.map_values(|f: String| f@);
    let mut out = String::new();
    let n = flags.len();
    let mut i: usize = 0;
    while i < n
        invariant
            n == flags@.len(),
            fv == flags@.map_values(|f: String| f@),
            fv.len() == n,
            i <= n,
            out@ == render_flags(fv.take(i as int)),
            forall|j: int| 0 <= j < i ==> seq_ok(#[trigger] flags@[j]@),
        decreases n - i,
    {
        proof {
            assert(fv[i as int] == flags@[i as int]@);
        }
        let piece = match escape_str(flags[i].as_str()) {
            Some(s) => s,
            None => {
                return None;
            },
        };
        if i > 0 {
            out.append(", ");
        }
        out.append("\"");
        out.append(piece.as_str());
        out.append("\"");
        proof {
            assert(fv.take(i + 1).drop_last() =~= fv.take(i as int));
            assert(fv.take(i + 1).last() == fv[i as int]);
            assert(out@ =~= render_flags(fv.take(i + 1)));
        }
        i += 1;
    }
    proof {
        assert(fv.take(n as int) =~= fv);
    }
    Some(out)
}

/// Renders the lines of one target table, or reports an override that holds
/// an unrepresentable character.
pub fn render_target_str(t: &CargoTarget) -> (r: Option<String>)
    ensures
        r is Some <==> target_ok(t@),
        r matches Some(out) ==> out@ == render_target(t@),
{
    let mut out = String::new();
    match &t.ar {
        Some(a) => {
            let piece = match escape_str(a.as_str()) {
                Some(s) => s,
                None => {
                    return None;
                },
            };
            out.append("ar = ");
            out.append("\"");
            out.append(piece.as_str());
            out.append("\"");
            out.append("\n");
        },
        None => {},
    }
    match &t.linker {
        Some(l) => {
            let piece = match escape_str(l.as_str()) {
                Some(s) => s,
                None => {
                    return None;
                },
            };
            out.append("linker = ");
            out.append("\"");
            out.append(piece.as_str());
            out.append("\"");
            out.append("\n");
        },
        None => {},
    }
    let body = match render_flags_str(&t.rustflags) {
        Some(b) => b,
        None => {
            proof {
                let j = choose|j: int|
                    0 <= j < t.rustflags@.len() && !seq_ok(#[trigger] t.rustflags@[j]@);
                assert(t@.rustflags[j] == t.rustflags@[j]@);
            }
            return None;
        },
    };
    out.append("rustflags = [");
    out.append(body.as_str());
    out.append("]\n");
    proof {
        assert forall|j: int| 0 <= j < t@.rustflags.len() implies seq_ok(
            #[trigger] t@.rustflags[j],
        ) by {
            assert(t@.rustflags[j] == t.rustflags@[j]@);
        }
        assert(out@ =~= render_target(t@));
    }
    Some(out)
}

/// Renders one complete target table, or reports an entry that holds an
/// unrepresentable character.
pub fn render_entry_str(triple: &String, t: &CargoTarget) -> (r: Option<String>)
    ensures
        r is Some <==> seq_ok(triple@) && target_ok(t@),
        r matches Some(out) ==> out@ == render_entry(triple@, t@),
{
    let etriple = match escape_str(triple.as_str()) {
        Some(e) => e,
        None => {
            return None;
        },
    };
    let body = match render_target_str(t) {
        Some(b) => b,
        None => {
            return None;
        },
    };
    let mut out = String::new();
    out.append("[target.\"");
    out.append(etriple.as_str());
    out.append("\"]\n");
    out.append(body.as_str());
    out.append("\n");
    proof {
        assert(out@ =~= render_entry(triple@, t@));
    }
    Some(out)
}

} // verus!
