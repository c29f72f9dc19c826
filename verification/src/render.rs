//! Small renderers shared by the views: coloured tags, short ids, tree
//! prefixes, proportional bars, truncation and relative ages.

use crate::colors::{fg, paint_dimmed, paint_green, paint_red, paint_yellow};
use crate::model::{ConstraintSeverity, ConstraintStatus, ObjectId};
use crate::text::{decimal, decimal_string, lemma_decimal_injective, lemma_same_suffix, push_decimal, push_repeated, repeat_seq, repeat_str};
use crate::time::Timestamp;
use vstd::prelude::*;
use vstd::string::*;
use vstd::utf8::*;

verus! {

/// The plain name of a status.
pub open spec fn status_name(status: ConstraintStatus) -> Seq<char> {
    match status {
        ConstraintStatus::Active => "Active"@,
        ConstraintStatus::Superseded => "Superseded"@,
        ConstraintStatus::Deprecated => "Deprecated"@,
    }
}

/// A status name coloured green (active), yellow (superseded) or red (deprecated).
pub open spec fn status_colored(status: ConstraintStatus) -> Seq<char> {
    match status {
        ConstraintStatus::Active => fg("\u{1b}[32m"@, "Active"@),
        ConstraintStatus::Superseded => fg("\u{1b}[33m"@, "Superseded"@),
        ConstraintStatus::Deprecated => fg("\u{1b}[31m"@, "Deprecated"@),
    }
}

/// Color a constraint status string.
pub fn colored_status(status: &ConstraintStatus) -> (res: String)
    ensures
        res@ == status_colored(*status),
{
    match status {
        ConstraintStatus::Active => paint_green("Active"),
        ConstraintStatus::Superseded => paint_yellow("Superseded"),
        ConstraintStatus::Deprecated => paint_red("Deprecated"),
    }
}

/// The word inside a severity tag.
pub open spec fn severity_label(severity: ConstraintSeverity) -> Seq<char> {
    match severity {
        ConstraintSeverity::Must => "Must"@,
        ConstraintSeverity::Should => "Should"@,
        ConstraintSeverity::Prefer => "Prefer"@,
    }
}

/// The spaces after a severity tag.
pub open spec fn severity_padding(severity: ConstraintSeverity) -> Seq<char> {
    match severity {
        ConstraintSeverity::Must => "  "@,
        _ => Seq::empty(),
    }
}

/// The label painted: red for Must, yellow for Should, dim for Prefer.
pub open spec fn severity_painted(severity: ConstraintSeverity) -> Seq<char> {
    match severity {
        ConstraintSeverity::Must => fg("\u{1b}[31m"@, "Must"@),
        ConstraintSeverity::Should => fg("\u{1b}[33m"@, "Should"@),
        ConstraintSeverity::Prefer => "\u{1b}[2m"@ + "Prefer"@ + "\u{1b}[0m"@,
    }
}

/// A severity tag: `[`, the painted label, `]`, then the padding.
pub open spec fn severity_tag(severity: ConstraintSeverity) -> Seq<char> {
    "["@ + severity_painted(severity) + "]"@ + severity_padding(severity)
}

/// Color a severity tag like [Must], [Should], [Prefer].
/// Padded to 8 visible characters for alignment.
pub fn colored_severity(severity: &ConstraintSeverity) -> (res: String)
    ensures
        res@ == severity_tag(*severity),
{
    let mut res = String::from_str("[");
    match severity {
        ConstraintSeverity::Must => {
            let painted = paint_red("Must");
            res.append(painted.as_str());
            res.append("]");
            res.append("  ");
        },
        ConstraintSeverity::Should => {
            let painted = paint_yellow("Should");
            res.append(painted.as_str());
            res.append("]");
        },
        ConstraintSeverity::Prefer => {
            let painted = paint_dimmed("Prefer");
            res.append(painted.as_str());
            res.append("]");
        },
    }
    proof {
        reveal_strlit("");
    }
    res
}

/// Every severity tag shows eight characters once its colour codes are left
/// out: the brackets, the label and the padding.
pub proof fn lemma_severity_tag_visible_width(severity: ConstraintSeverity)
    ensures
        "["@.len() + severity_label(severity).len() + "]"@.len() + severity_padding(severity).len() == 8,
{
    reveal_strlit("[");
    reveal_strlit("]");
    reveal_strlit("Must");
    reveal_strlit("Should");
    reveal_strlit("Prefer");
    reveal_strlit("  ");
}

/// Return first 7 hex chars of an ObjectId (like git short hash).
pub fn short_id(id: &ObjectId) -> (res: String)
    ensures
        res@ == id@.take(7),
{
    id.short_hex().to_string()
}

/// The column drawn under an ancestor: blank when it was the last child,
/// a vertical bar otherwise.
pub open spec fn column(is_last: bool) -> Seq<char> {
    if is_last { "   "@ } else { "│  "@ }
}

/// The branch drawn before a node: a corner for the last child, a tee otherwise.
pub open spec fn branch(is_last: bool) -> Seq<char> {
    if is_last { "└─ "@ } else { "├─ "@ }
}

/// The columns for a nesting path.
pub open spec fn continuation_text(levels: Seq<bool>) -> Seq<char>
    decreases levels.len(),
{
    if levels.len() == 0 {
        Seq::empty()
    } else {
        continuation_text(levels.drop_last()) + column(levels.last())
    }
}

/// The columns of the ancestors, then the branch of the node itself.
pub open spec fn prefix_text(levels: Seq<bool>) -> Seq<char> {
    if levels.len() == 0 {
        Seq::empty()
    } else {
        continuation_text(levels.drop_last()) + branch(levels.last())
    }
}

/// Return tree-drawing prefix for a node at the given nesting path.
/// `levels[i]` indicates whether the ancestor at depth i is the last child.
pub fn tree_prefix(levels: &[bool]) -> (res: String)
    ensures
        res@ == prefix_text(levels@),
{
    if levels.len() == 0 {
        return String::new();
    }
    let n = levels.len() - 1;
    let mut prefix = String::new();
    let mut i: usize = 0;
    while i < n
        invariant
            n == levels@.len() - 1,
            i <= n,
            prefix@ == continuation_text(levels@.take(i as int)),
        decreases n - i,
    {
        assert(levels@.take(i + 1).drop_last() == levels@.take(i as int));
        if levels[i] {
            prefix.append("   ");
        } else {
            prefix.append("│  ");
        }
        i = i + 1;
    }
    assert(levels@.take(n as int) == levels@.drop_last());
    if levels[n] {
        prefix.append("└─ ");
    } else {
        prefix.append("├─ ");
    }
    prefix
}

/// Return continuation prefix (no branch character) for content under a tree node.
pub fn tree_continuation(levels: &[bool]) -> (res: String)
    ensures
        res@ == continuation_text(levels@),
{
    let mut prefix = String::new();
    let mut i: usize = 0;
    while i < levels.len()
        invariant
            i <= levels@.len(),
            prefix@ == continuation_text(levels@.take(i as int)),
        decreases levels@.len() - i,
    {
        assert(levels@.take(i + 1).drop_last() == levels@.take(i as int));
        if levels[i] {
            prefix.append("   ");
        } else {
            prefix.append("│  ");
        }
        i = i + 1;
    }
    assert(levels@.take(levels@.len() as int) == levels@);
    prefix
}

/// Every column and every branch is three characters wide.
pub proof fn lemma_glyph_widths(is_last: bool)
    ensures
        column(is_last).len() == 3,
        branch(is_last).len() == 3,
{
    reveal_strlit("   ");
    reveal_strlit("│  ");
    reveal_strlit("└─ ");
    reveal_strlit("├─ ");
}

/// The continuation under a node is three characters per level of nesting.
pub proof fn lemma_continuation_width(levels: Seq<bool>)
    ensures
        continuation_text(levels).len() == 3 * levels.len(),
    decreases levels.len(),
{
    if levels.len() > 0 {
        lemma_continuation_width(levels.drop_last());
        lemma_glyph_widths(levels.last());
    }
}

/// A node's prefix and the continuation of its content are equally wide,
/// and both repeat the columns of its ancestors: content under a node lines
/// up with the node's own text.
pub proof fn lemma_prefix_aligns_with_continuation(levels: Seq<bool>)
    requires
        levels.len() > 0,
    ensures
        prefix_text(levels).len() == continuation_text(levels).len(),
        prefix_text(levels).len() == 3 * levels.len(),
        prefix_text(levels).take(3 * (levels.len() - 1)) == continuation_text(levels.drop_last()),
        continuation_text(levels).take(3 * (levels.len() - 1)) == continuation_text(levels.drop_last()),
{
    lemma_continuation_width(levels.drop_last());
    lemma_continuation_width(levels);
    lemma_glyph_widths(levels.last());
    let c = continuation_text(levels.drop_last());
    assert((c + branch(levels.last())).take(c.len() as int) == c);
    assert((c + column(levels.last())).take(c.len() as int) == c);
}

/// Adding one level extends the continuation by that level's column.
pub proof fn lemma_continuation_extends(levels: Seq<bool>, is_last: bool)
    ensures
        continuation_text(levels.push(is_last)) == continuation_text(levels) + column(is_last),
{
    assert(levels.push(is_last).drop_last() == levels);
}

/// The number of filled cells of a bar: `count / max` of the width rounded
/// up, at most the width.
pub open spec fn filled_cells(count: nat, max: nat, width: nat) -> nat {
    let f = ((count * width + max - 1) / (max as int)) as nat;
    if f < width { f } else { width }
}

/// A bar of `width` cells, the filled ones first.
pub open spec fn bar_text(count: nat, max: nat, width: nat) -> Seq<char> {
    if max == 0 {
        repeat_seq("░"@, width)
    } else {
        repeat_seq("█"@, filled_cells(count, max, width)) + repeat_seq(
            "░"@,
            (width - filled_cells(count, max, width)) as nat,
        )
    }
}

/// Render a proportional bar like `████░░░░`.
pub fn bar(count: usize, max: usize, width: usize) -> (res: String)
    requires
        max == 0 || count * width + max - 1 <= usize::MAX,
    ensures
        res@ == bar_text(count as nat, max as nat, width as nat),
{
    if max == 0 {
        return repeat_str("░", width);
    }
    let scaled = (count * width + (max - 1)) / max;
    let filled = if scaled < width { scaled } else { width };
    let empty = width - filled;
    let mut res = repeat_str("█", filled);
    push_repeated(&mut res, "░", empty);
    res
}

/// `s` repeated `n` times has `n` times the length of `s`.
pub proof fn lemma_repeat_len(s: Seq<char>, n: nat)
    ensures
        repeat_seq(s, n).len() == n * s.len(),
    decreases n,
{
    if n > 0 {
        lemma_repeat_len(s, (n - 1) as nat);
        assert(n * s.len() == (n - 1) * s.len() + s.len()) by (nonlinear_arith);
    } else {
        assert(n * s.len() == 0) by (nonlinear_arith)
            requires n == 0;
    }
}

/// A bar is always exactly `width` characters wide.
pub proof fn lemma_bar_width(count: nat, max: nat, width: nat)
    ensures
        bar_text(count, max, width).len() == width,
{
    reveal_strlit("░");
    reveal_strlit("█");
    lemma_repeat_len("░"@, width);
    if max > 0 {
        let f = filled_cells(count, max, width);
        lemma_repeat_len("█"@, f);
        lemma_repeat_len("░"@, (width - f) as nat);
    }
}

/// With a positive maximum, a count of zero fills no cell, a count of at
/// least the maximum fills every cell, and any positive count fills at least
/// one cell of a bar that has cells.
pub proof fn lemma_bar_extremes(count: nat, max: nat, width: nat)
    requires
        max > 0,
    ensures
        count == 0 ==> filled_cells(count, max, width) == 0,
        count >= max ==> filled_cells(count, max, width) == width,
        count > 0 && width > 0 ==> filled_cells(count, max, width) >= 1,
{
    let num = count * width + max - 1;
    if count == 0 {
        assert(count * width == 0) by (nonlinear_arith)
            requires count == 0;
        assert((max - 1) / (max as int) == 0) by (nonlinear_arith)
            requires max > 0;
    }
    if count >= max {
        assert(count * width >= max * width) by (nonlinear_arith)
            requires count >= max;
        assert((count * width + max - 1) / (max as int) >= width) by (nonlinear_arith)
            requires count * width >= max * width, max > 0;
    }
    if count > 0 && width > 0 {
        assert(count * width >= 1) by (nonlinear_arith)
            requires count > 0, width > 0;
        assert((count * width + max - 1) / (max as int) >= 1) by (nonlinear_arith)
            requires count * width >= 1, max > 0;
    }
}

/// A bar's filled cells never decrease as the count grows.
pub proof fn lemma_bar_monotone(c1: nat, c2: nat, max: nat, width: nat)
    requires
        max > 0,
        c1 <= c2,
    ensures
        filled_cells(c1, max, width) <= filled_cells(c2, max, width),
{
    assert(c1 * width <= c2 * width) by (nonlinear_arith)
        requires c1 <= c2;
    assert((c1 * width + max - 1) / (max as int) <= (c2 * width + max - 1) / (max as int)) by (nonlinear_arith)
        requires c1 * width <= c2 * width, max > 0;
}

/// The UTF-8 bytes of `a + b` are those of `a`, then those of `b`.
pub proof fn lemma_encode_concat(a: Seq<char>, b: Seq<char>)
    ensures
        encode_utf8(a + b) == encode_utf8(a) + encode_utf8(b),
    decreases a.len(),
{
    if a.len() > 0 {
        assert((a + b).drop_first() == a.drop_first() + b);
        lemma_encode_concat(a.drop_first(), b);
    } else {
        assert(a + b == b);
    }
}

/// When a string of `len` bytes is cut to at most `width` bytes, the byte
/// index at which its text is cut: all of it when it fits, `width` when the
/// width leaves no room for an ellipsis, `width - 3` otherwise.
pub open spec fn truncation_point(len: nat, width: nat) -> nat {
    if len <= width {
        len
    } else if width <= 3 {
        width
    } else {
        (width - 3) as nat
    }
}

/// What `truncate` yields: the characters of the first bytes up to the
/// truncation point, followed by `...` when the text was cut and the width
/// leaves room for it.
pub open spec fn truncated_text(s: Seq<char>, width: nat) -> Seq<char> {
    let bytes = encode_utf8(s);
    if bytes.len() <= width {
        s
    } else if width <= 3 {
        decode_utf8(bytes.take(width as int))
    } else {
        decode_utf8(bytes.take(width - 3)) + "..."@
    }
}

/// Truncate a string with ellipsis if it exceeds `width`.
///
/// Lengths are counted in bytes, and the cut must fall on a character
/// boundary (slicing elsewhere panics).
pub fn truncate(s: &str, width: usize) -> (res: String)
    requires
        is_char_boundary(
            s.spec_bytes(),
            truncation_point(s.spec_bytes().len(), width as nat) as int,
        ),
    ensures
        res@ == truncated_text(s@, width as nat),
        encode_utf8(res@).len() <= width,
{
    let ghost bytes = s.spec_bytes();
    proof {
        broadcast use vstd::utf8::group_utf8_lib;
        reveal_strlit("...");
        vstd::utf8::is_ascii_chars_encode_utf8("..."@);
    }
    let len = s.as_bytes().len();
    if len <= width {
        assert(truncated_text(s@, width as nat) == s@);
        String::from_str(s)
    } else if width <= 3 {
        let (head, _) = s.split_at(width);
        proof {
            assert(bytes.subrange(0, width as int) == bytes.take(width as int));
            assert(encode_utf8(head@) == bytes.take(width as int));
            assert(decode_utf8(encode_utf8(head@)) == head@);
            assert(decode_utf8(bytes.take(width as int)) == head@);
            assert(truncated_text(s@, width as nat) == head@);
        }
        String::from_str(head)
    } else {
        let (head, _) = s.split_at(width - 3);
        proof {
            assert(bytes.subrange(0, width - 3) == bytes.take(width - 3));
            assert(decode_utf8(encode_utf8(head@)) == head@);
            lemma_encode_concat(head@, "..."@);
        }
        String::from_str(head).concat("...")
    }
}

/// Return a bullet character for constraint status.
pub fn status_bullet(status: &ConstraintStatus) -> (res: &'static str)
    ensures
        res@ == (if *status == ConstraintStatus::Active { "●"@ } else { "○"@ }),
{
    match status {
        ConstraintStatus::Active => "●",
        _ => "○",
    }
}

/// A relative age for an elapsed time of `secs` seconds.
pub open spec fn age_text(secs: int) -> Seq<char> {
    let mins = secs / 60;
    let hours = secs / 3600;
    let days = secs / 86400;
    if secs < 60 {
        "just now"@
    } else if mins < 60 {
        decimal(mins as nat) + "m ago"@
    } else if hours < 24 {
        decimal(hours as nat) + "h ago"@
    } else if days < 7 {
        decimal(days as nat) + "d ago"@
    } else if days < 30 {
        decimal((days / 7) as nat) + "w ago"@
    } else {
        decimal((days / 30) as nat) + "mo ago"@
    }
}

/// The unit an age is shown in, and how many of it: under a minute it is
/// "just now"; otherwise the count `n` of whole units elapsed
/// (`n` units <= the age < `n + 1` units) of the largest unit among
/// minutes, hours, days, weeks (from seven days) and months of thirty days
/// (from thirty days) that the age reaches.
pub proof fn lemma_age_units(secs: int, n: nat)
    ensures
        secs < 60 ==> age_text(secs) == "just now"@,
        60 <= secs < 3600 && n * 60 <= secs < (n + 1) * 60 ==> age_text(secs) == decimal(n) + "m ago"@,
        3600 <= secs < 86400 && n * 3600 <= secs < (n + 1) * 3600 ==> age_text(secs) == decimal(n) + "h ago"@,
        86400 <= secs < 7 * 86400 && n * 86400 <= secs < (n + 1) * 86400 ==> age_text(secs) == decimal(n)
            + "d ago"@,
        7 * 86400 <= secs < 30 * 86400 && n * (7 * 86400) <= secs < (n + 1) * (7 * 86400) ==> age_text(secs)
            == decimal(n) + "w ago"@,
        30 * 86400 <= secs && n * (30 * 86400) <= secs < (n + 1) * (30 * 86400) ==> age_text(secs) == decimal(n)
            + "mo ago"@,
{
    if secs >= 60 {
        vstd::arithmetic::div_mod::lemma_div_denominator(secs, 86400, 7);
        vstd::arithmetic::div_mod::lemma_div_denominator(secs, 86400, 30);
        let q = n as int;
        if 60 <= secs < 3600 && q * 60 <= secs < (q + 1) * 60 {
            vstd::arithmetic::div_mod::lemma_div_pos_is_pos(secs, 60);
            assert(secs / 60 == q) by (nonlinear_arith)
                requires q * 60 <= secs < (q + 1) * 60;
        }
        if 3600 <= secs < 86400 && q * 3600 <= secs < (q + 1) * 3600 {
            assert(secs / 60 >= 60) by (nonlinear_arith)
                requires secs >= 3600;
            assert(secs / 3600 == q) by (nonlinear_arith)
                requires q * 3600 <= secs < (q + 1) * 3600;
        }
        if 86400 <= secs < 7 * 86400 && q * 86400 <= secs < (q + 1) * 86400 {
            assert(secs / 60 >= 60 && secs / 3600 >= 24) by (nonlinear_arith)
                requires secs >= 86400;
            assert(secs / 86400 == q) by (nonlinear_arith)
                requires q * 86400 <= secs < (q + 1) * 86400;
        }
        if 7 * 86400 <= secs < 30 * 86400 && q * (7 * 86400) <= secs < (q + 1) * (7 * 86400) {
            assert(secs / 60 >= 60 && secs / 3600 >= 24 && secs / 86400 >= 7 && secs / 86400 < 30) by (nonlinear_arith)
                requires 7 * 86400 <= secs < 30 * 86400;
            assert(secs / (86400int * 7) == q) by (nonlinear_arith)
                requires q * (7 * 86400) <= secs < (q + 1) * (7 * 86400);
        }
        if 30 * 86400 <= secs && q * (30 * 86400) <= secs < (q + 1) * (30 * 86400) {
            assert(secs / 60 >= 60 && secs / 3600 >= 24 && secs / 86400 >= 30) by (nonlinear_arith)
                requires 30 * 86400 <= secs;
            assert(secs / (86400int * 30) == q) by (nonlinear_arith)
                requires q * (30 * 86400) <= secs < (q + 1) * (30 * 86400);
        }
    }
}

/// Once an age is shown in months, the month count shown never decreases
/// as the age grows.
pub proof fn lemma_age_months_monotone(s1: int, s2: int, n1: nat, n2: nat)
    requires
        30 * 86400 <= s1 <= s2,
        age_text(s1) == decimal(n1) + "mo ago"@,
        age_text(s2) == decimal(n2) + "mo ago"@,
    ensures
        n1 <= n2,
{
    let d: int = 2592000;
    let q1: int = s1 / d;
    let q2: int = s2 / d;
    assert(0 <= q1 && q1 * d <= s1 < (q1 + 1) * d) by (nonlinear_arith)
        requires q1 == s1 / d, s1 >= 0, d > 0;
    assert(0 <= q2 && q2 * d <= s2 < (q2 + 1) * d) by (nonlinear_arith)
        requires q2 == s2 / d, s2 >= 0, d > 0;
    assert(q1 <= q2) by (nonlinear_arith)
        requires q1 == s1 / d, q2 == s2 / d, 0 <= s1 <= s2, d > 0;
    let m1 = q1 as nat;
    let m2 = q2 as nat;
    lemma_age_units(s1, m1);
    lemma_age_units(s2, m2);
    lemma_same_suffix(decimal(n1), decimal(m1), "mo ago"@);
    lemma_decimal_injective(n1, m1);
    lemma_same_suffix(decimal(n2), decimal(m2), "mo ago"@);
    lemma_decimal_injective(n2, m2);
}

/// The relative age ("3d ago", "2w ago", ...) of an elapsed time in whole seconds.
pub fn age_label(secs: i64) -> (res: String)
    ensures
        res@ == age_text(secs as int),
{
    if secs < 60 {
        return String::from_str("just now");
    }
    let s = secs as u64;
    let mins = s / 60;
    let hours = s / 3600;
    let days = s / 86400;
    let mut res = String::new();
    if mins < 60 {
        push_decimal(&mut res, mins);
        res.append("m ago");
    } else if hours < 24 {
        push_decimal(&mut res, hours);
        res.append("h ago");
    } else if days < 7 {
        push_decimal(&mut res, days);
        res.append("d ago");
    } else if days < 30 {
        push_decimal(&mut res, days / 7);
        res.append("w ago");
    } else {
        push_decimal(&mut res, days / 30);
        res.append("mo ago");
    }
    res
}

/// Format a timestamp as relative age at the instant `now`.
pub fn format_age_at(timestamp: &Timestamp, now: &Timestamp) -> (res: String)
    ensures
        res@ == age_text(timestamp.seconds_until(*now) as int),
{
    age_label(timestamp.seconds_until_exec(now))
}

/// Format a timestamp as relative age ("3d ago", "2w ago", etc.).
///
/// The age is measured against the system clock, so the result is the age
/// at some instant.
pub fn format_age(timestamp: &Timestamp) -> (res: String)
    ensures
        exists|now: Timestamp| res@ == age_text(#[trigger] timestamp.seconds_until(now) as int),
{
    let now = Timestamp::now();
    format_age_at(timestamp, &now)
}

} // verus!
