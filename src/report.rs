//! Text renderings of stored records for the query layer.

use crate::store::{FileChangeRecord, SaveEventSummary, ScaffoldRecord};
use crate::time::{render_utc, utc_text};
use vstd::prelude::*;
use vstd::string::StringExecFns;

verus! {

/// The digit for `d` (below ten).
pub open spec fn digit_char(d: nat) -> char {
    if d == 0 { '0' }
    else if d == 1 { '1' }
    else if d == 2 { '2' }
    else if d == 3 { '3' }
    else if d == 4 { '4' }
    else if d == 5 { '5' }
    else if d == 6 { '6' }
    else if d == 7 { '7' }
    else if d == 8 { '8' }
    else { '9' }
}

/// The decimal digits of `n`, most significant first, with no leading zero.
pub open spec fn digits(n: nat) -> Seq<char>
    decreases n,
{
    if n < 10 {
        seq![digit_char(n)]
    } else {
        digits(n / 10).push(digit_char(n % 10))
    }
}

/// `n` in decimal, with a leading `-` when negative.
pub open spec fn decimal_text(n: int) -> Seq<char> {
    if n < 0 {
        seq!['-'] + digits((-n) as nat)
    } else {
        digits(n as nat)
    }
}

fn digit(d: u64) -> (c: char)
    requires
        d < 10,
    ensures
        c == digit_char(d as nat),
{
    if d == 0 { '0' }
    else if d == 1 { '1' }
    else if d == 2 { '2' }
    else if d == 3 { '3' }
    else if d == 4 { '4' }
    else if d == 5 { '5' }
    else if d == 6 { '6' }
    else if d == 7 { '7' }
    else if d == 8 { '8' }
    else { '9' }
}

fn push_digits(m: u64, out: &mut Vec<char>)
    ensures
        final(out)@ == old(out)@ + digits(m as nat),
    decreases m,
{
    if m >= 10 {
        push_digits(m / 10, out);
    }
    out.push(digit(m % 10));
    assert(digits(m as nat) == if m < 10 { seq![digit_char(m as nat)] } else { digits((m / 10) as nat).push(digit_char((m % 10) as nat)) });
}

/// `n` in decimal.
pub fn decimal(n: i64) -> (r: String)
    ensures
        r@ == decimal_text(n as int),
{
    let mut out: Vec<char> = Vec::new();
    if n < 0 {
        out.push('-');
        let m: u64 = ((-(n + 1)) as u64) + 1;
        push_digits(m, &mut out);
    } else {
        push_digits(n as u64, &mut out);
    }
    crate::text::string_of(out.as_slice())
}

/// `parts` joined by `sep`.
pub open spec fn joined(parts: Seq<Seq<char>>, sep: Seq<char>) -> Seq<char>
    decreases parts.len(),
{
    if parts.len() == 0 {
        Seq::empty()
    } else if parts.len() == 1 {
        parts[0]
    } else {
        joined(parts.drop_last(), sep) + sep + parts.last()
    }
}

/// The separator between rendered items.
pub open spec fn item_separator() -> Seq<char> {
    "\n\n---\n\n"@
}

/// `msg` when there are no items, else the rendering of each item by `f`,
/// joined by a rule.
pub fn join_or_empty<T, F: Fn(&T) -> String>(items: &[T], msg: &str, f: F) -> (r: String)
    requires
        forall|i: int| 0 <= i < items@.len() ==> f.requires((&items@[i],)),
    ensures
        items@.len() == 0 ==> r@ == msg@,
        items@.len() > 0 ==> exists|outs: Seq<String>|
            {
                &&& outs.len() == items@.len()
                &&& forall|i: int| 0 <= i < items@.len() ==> f.ensures((&items@[i],), #[trigger] outs[i])
                &&& r@ == joined(outs.map_values(|s: String| s@), item_separator())
            },
{
    if items.len() == 0 {
        return String::from_str(msg);
    }
    let mut r = String::new();
    let ghost mut outs: Seq<String> = Seq::empty();
    let mut i: usize = 0;
    while i < items.len()
        invariant
            i <= items@.len(),
            forall|j: int| 0 <= j < items@.len() ==> f.requires((&items@[j],)),
            outs.len() == i,
            forall|j: int| 0 <= j < i ==> f.ensures((&items@[j],), #[trigger] outs[j]),
            r@ == joined(outs.map_values(|s: String| s@), item_separator()),
        decreases items@.len() - i,
    {
        let s = f(&items[i]);
        if i > 0 {
            r.append("\n\n---\n\n");
        }
        r.append(s.as_str());
        proof {
            let prev = outs;
            outs = outs.push(s);
            assert(outs.map_values(|s: String| s@).drop_last() == prev.map_values(|s: String| s@));
            assert(outs.map_values(|s: String| s@).last() == s@);
            if i == 0 {
                assert(prev.map_values(|s: String| s@).len() == 0);
            }
        }
        i = i + 1;
    }
    r
}

impl ScaffoldRecord {
    /// `**ID <id>**: <description>` and the scaffold text below it.
    pub fn format_changes(&self) -> (r: String)
        ensures
            r@ == "**ID "@ + decimal_text(self.id as int) + "**: "@ + self.description@ + "\n"@
                + self.content@,
    {
        let mut r = String::from_str("**ID ");
        r.append(decimal(self.id).as_str());
        r.append("**: ");
        r.append(self.description.as_str());
        r.append("\n");
        r.append(self.content.as_str());
        r
    }

    /// `**ID <id>** (<time>): <description>` and the scaffold text below it.
    pub fn format_detail(&self) -> (r: String)
        ensures
            r@ == "**ID "@ + decimal_text(self.id as int) + "** ("@ + utc_text(
                self.created_at.secs,
                self.created_at.nanos,
            ) + "): "@ + self.description@ + "\n"@ + self.content@,
    {
        let mut r = String::from_str("**ID ");
        r.append(decimal(self.id).as_str());
        r.append("** (");
        r.append(render_utc(self.created_at).as_str());
        r.append("): ");
        r.append(self.description.as_str());
        r.append("\n");
        r.append(self.content.as_str());
        r
    }
}

impl FileChangeRecord {
    /// The hunk's identifier, file and time, its position in both versions,
    /// and its removed and added lines.
    pub fn format_changes(&self) -> (r: String)
        ensures
            r@ == "**ID "@ + decimal_text(self.id as int) + "** `"@ + self.file_path@ + "` ("@
                + utc_text(self.changed_at.secs, self.changed_at.nanos) + "):\n\n@@ -"@
                + decimal_text(self.old_start as int) + ","@ + decimal_text(self.old_count as int)
                + " +"@ + decimal_text(self.new_start as int) + ","@ + decimal_text(
                self.new_count as int,
            ) + " @@\n\nBefore:\n```\n"@ + self.before_lines@ + "\n```\n\nAfter:\n```\n"@
                + self.after_lines@ + "\n```"@,
    {
        let mut r = String::from_str("**ID ");
        r.append(decimal(self.id).as_str());
        r.append("** `");
        r.append(self.file_path.as_str());
        r.append("` (");
        r.append(render_utc(self.changed_at).as_str());
        r.append("):\n\n@@ -");
        r.append(decimal(self.old_start).as_str());
        r.append(",");
        r.append(decimal(self.old_count).as_str());
        r.append(" +");
        r.append(decimal(self.new_start).as_str());
        r.append(",");
        r.append(decimal(self.new_count).as_str());
        r.append(" @@\n\nBefore:\n```\n");
        r.append(self.before_lines.as_str());
        r.append("\n```\n\nAfter:\n```\n");
        r.append(self.after_lines.as_str());
        r.append("\n```");
        r
    }
}

impl SaveEventSummary {
    /// The group's identifier, file and time, and how many hunks it has.
    pub fn format_summary(&self) -> (r: String)
        ensures
            r@ == "**ID "@ + self.change_id@ + "** `"@ + self.file_path@ + "` ("@ + utc_text(
                self.changed_at.secs,
                self.changed_at.nanos,
            ) + "):\n\n"@ + decimal_text(self.hunk_count as int) + " hunk"@ + (if self.hunk_count
                == 1 {
                ""@
            } else {
                "s"@
            }),
    {
        let mut r = String::from_str("**ID ");
        r.append(self.change_id.as_str());
        r.append("** `");
        r.append(self.file_path.as_str());
        r.append("` (");
        r.append(render_utc(self.changed_at).as_str());
        r.append("):\n\n");
        r.append(decimal(self.hunk_count).as_str());
        r.append(" hunk");
        if self.hunk_count == 1 {
            r.append("");
        } else {
            r.append("s");
        }
        r
    }
}

} // verus!
