use vstd::prelude::*;
use crate::error::{decimal, decimal_chars};
use crate::text::{chars_string, push_all, push_str, split_chars, split_on, str_chars, views};

verus! {

/// The lines for index `i` of the old and the new text: one line with ` ` where they agree,
/// else `-` for the old line and `+` for the new one, each line present.
pub open spec fn diff_row(old_lines: Seq<Seq<char>>, new_lines: Seq<Seq<char>>, i: int) -> Seq<char> {
    if i < old_lines.len() && i < new_lines.len() {
        if old_lines[i] == new_lines[i] {
            " "@ + old_lines[i] + "\n"@
        } else {
            "-"@ + old_lines[i] + "\n"@ + "+"@ + new_lines[i] + "\n"@
        }
    } else if i < old_lines.len() {
        "-"@ + old_lines[i] + "\n"@
    } else if i < new_lines.len() {
        "+"@ + new_lines[i] + "\n"@
    } else {
        Seq::empty()
    }
}

/// The rows for indices `[0, n)`.
pub open spec fn diff_rows(old_lines: Seq<Seq<char>>, new_lines: Seq<Seq<char>>, n: nat) -> Seq<char>
    decreases n,
{
    if n == 0 {
        Seq::empty()
    } else {
        diff_rows(old_lines, new_lines, (n - 1) as nat) + diff_row(old_lines, new_lines, n - 1)
    }
}

/// A line-by-line diff of two versions of the file `path`: a header with both line counts, then
/// one row per line index.
pub open spec fn diff_text(path: Seq<char>, old: Seq<char>, new: Seq<char>) -> Seq<char> {
    let o = split_on(old, '\n');
    let n = split_on(new, '\n');
    let max = if o.len() >= n.len() {
        o.len()
    } else {
        n.len()
    };
    "--- "@ + path + "\n"@ + "+++ "@ + path + "\n"@ + "@@ -1,"@ + decimal(o.len()) + " +1,"@
        + decimal(n.len()) + " @@\n"@ + diff_rows(o, n, max)
}

/// A line-by-line diff of two versions of the file `path`.
pub fn unified_diff(path: &str, old: &str, new: &str) -> (out: String)
    ensures
        out@ == diff_text(path@, old@, new@),
{
    let old_chars = str_chars(old);
    let new_chars = str_chars(new);
    let old_lines = split_chars(&old_chars, '\n');
    let new_lines = split_chars(&new_chars, '\n');
    let ghost o = views(old_lines@);
    let ghost n = views(new_lines@);
    let max = if old_lines.len() >= new_lines.len() {
        old_lines.len()
    } else {
        new_lines.len()
    };
    let mut out: Vec<char> = Vec::new();
    push_str(&mut out, "--- ");
    push_str(&mut out, path);
    push_str(&mut out, "\n");
    push_str(&mut out, "+++ ");
    push_str(&mut out, path);
    push_str(&mut out, "\n");
    push_str(&mut out, "@@ -1,");
    let a = decimal_chars(old_lines.len());
    push_all(&mut out, &a);
    push_str(&mut out, " +1,");
    let b = decimal_chars(new_lines.len());
    push_all(&mut out, &b);
    push_str(&mut out, " @@\n");
    let ghost header = out@;
    let mut i: usize = 0;
    while i < max
        invariant
            i <= max,
            o == views(old_lines@),
            n == views(new_lines@),
            out@ == header + diff_rows(o, n, i as nat),
        decreases max - i,
    {
        let ghost before = out@;
        if i < old_lines.len() && i < new_lines.len() {
            let a = &old_lines[i];
            let b = &new_lines[i];
            if crate::lexer::same_chars(a, b) {
                push_str(&mut out, " ");
                push_all(&mut out, a);
                push_str(&mut out, "\n");
            } else {
                push_str(&mut out, "-");
                push_all(&mut out, a);
                push_str(&mut out, "\n");
                push_str(&mut out, "+");
                push_all(&mut out, b);
                push_str(&mut out, "\n");
            }
        } else if i < old_lines.len() {
            push_str(&mut out, "-");
            push_all(&mut out, &old_lines[i]);
            push_str(&mut out, "\n");
        } else if i < new_lines.len() {
            push_str(&mut out, "+");
            push_all(&mut out, &new_lines[i]);
            push_str(&mut out, "\n");
        }
        assert(out@ =~= before + diff_row(o, n, i as int));
        i += 1;
    }
    chars_string(&out)
}

} // verus!
