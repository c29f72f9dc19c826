//! The timeline view: constraints oldest first, with when each was created,
//! superseded or deprecated, and how many are in each state.

use crate::model::{texts, Constraint, ConstraintStatus, ConstraintView, ObjectId, opt_text};
use crate::render::{age_text, colored_severity, format_age, format_age_at, severity_tag, short_id};
use crate::text::{decimal, push_decimal, str_eq, trim_end_matches, trim_suffix_all};
use crate::time::Timestamp;
use vstd::prelude::*;

verus! {

/// The ids and views of a list of constraints.
pub open spec fn item_views(items: Seq<(ObjectId, Constraint)>) -> Seq<(Seq<char>, ConstraintView)> {
    items.map_values(|x: (ObjectId, Constraint)| (x.0@, x.1@))
}

/// Whether the constraint lists the impact tag.
pub open spec fn has_impact(c: ConstraintView, tag: Seq<char>) -> bool {
    c.impacts.contains(tag)
}

/// The constraints that carry the tag (all of them when there is no tag),
/// in order.
pub open spec fn with_impact(items: Seq<(Seq<char>, ConstraintView)>, tag: Option<Seq<char>>) -> Seq<(Seq<char>, ConstraintView)>
    decreases items.len(),
{
    if items.len() == 0 {
        items
    } else {
        with_impact(items.drop_last(), tag) + (if tag is None || has_impact(items.last().1, tag.unwrap()) {
            seq![items.last()]
        } else {
            Seq::empty()
        })
    }
}

/// Filtering by an impact tag keeps a constraint exactly when the tag is
/// one of its impacts, at whatever position it is listed; without a tag
/// every constraint is kept. Nothing else enters, and the kept ones stay in
/// the order given.
pub proof fn lemma_impact_filter(items: Seq<(Seq<char>, ConstraintView)>, tag: Seq<char>)
    ensures
        with_impact(items, None) == items,
        forall|j: int|
            0 <= j < items.len() && (exists|i: int| 0 <= i < items[j].1.impacts.len() && items[j].1.impacts[i] == tag)
                ==> #[trigger] with_impact(items, Some(tag)).contains(items[j]),
        forall|x: (Seq<char>, ConstraintView)|
            #[trigger] with_impact(items, Some(tag)).contains(x) ==> items.contains(x) && exists|i: int|
                0 <= i < x.1.impacts.len() && x.1.impacts[i] == tag,
        with_impact(items, Some(tag)).len() <= items.len(),
    decreases items.len(),
{
    if items.len() > 0 {
        let p = items.drop_last();
        let l = items.last();
        lemma_impact_filter(p, tag);
        let fp = with_impact(p, Some(tag));
        let f = with_impact(items, Some(tag));
        assert(with_impact(items, None) == with_impact(p, None) + seq![l]);
        assert(items == p.push(l));
        assert forall|j: int|
            0 <= j < items.len() && (exists|i: int| 0 <= i < items[j].1.impacts.len() && items[j].1.impacts[i] == tag)
                implies #[trigger] f.contains(items[j]) by {
            if j < items.len() - 1 {
                assert(items[j] == p[j]);
                assert(fp.contains(p[j]));
                let k = choose|k: int| 0 <= k < fp.len() && fp[k] == p[j];
                assert(f[k] == fp[k]);
            } else {
                let i = choose|i: int| 0 <= i < items[j].1.impacts.len() && items[j].1.impacts[i] == tag;
                assert(l.1.impacts.contains(tag));
                assert(f[f.len() - 1] == l);
            }
        }
        assert forall|x: (Seq<char>, ConstraintView)| #[trigger] f.contains(x) implies items.contains(x) && exists|i: int|
            0 <= i < x.1.impacts.len() && x.1.impacts[i] == tag by {
            let k = choose|k: int| 0 <= k < f.len() && f[k] == x;
            if k < fp.len() {
                assert(fp[k] == x);
                assert(fp.contains(x));
                let m = choose|m: int| 0 <= m < p.len() && p[m] == x;
                assert(items[m] == x);
            } else {
                assert(x == l);
                assert(has_impact(l.1, tag));
                let i = choose|i: int| 0 <= i < l.1.impacts.len() && l.1.impacts[i] == tag;
                assert(items[items.len() - 1] == x);
            }
        }
    }
}

/// Places `x` after the leading constraints that are not newer than it.
pub open spec fn insert_by_time(s: Seq<(Seq<char>, ConstraintView)>, x: (Seq<char>, ConstraintView)) -> Seq<(Seq<char>, ConstraintView)>
    decreases s.len(),
{
    if s.len() == 0 {
        seq![x]
    } else if s[0].1.timestamp.spec_le(x.1.timestamp) {
        seq![s[0]] + insert_by_time(s.drop_first(), x)
    } else {
        seq![x] + s
    }
}

/// Constraints oldest first; constraints of the same instant keep their
/// order (a stable sort).
pub open spec fn sort_by_time(s: Seq<(Seq<char>, ConstraintView)>) -> Seq<(Seq<char>, ConstraintView)>
    decreases s.len(),
{
    if s.len() == 0 {
        s
    } else {
        insert_by_time(sort_by_time(s.drop_last()), s.last())
    }
}

fn has_impact_exec(c: &Constraint, tag: &str) -> (res: bool)
    ensures
        res == has_impact(c@, tag@),
{
    let mut i: usize = 0;
    while i < c.impacts.len()
        invariant
            i <= c.impacts@.len(),
            forall|k: int| 0 <= k < i ==> c.impacts@[k]@ != tag@,
        decreases c.impacts@.len() - i,
    {
        if str_eq(c.impacts[i].as_str(), tag) {
            proof {
                assert(texts(c.impacts@)[i as int] == tag@);
            }
            return true;
        }
        i = i + 1;
    }
    proof {
        assert forall|k: int| 0 <= k < texts(c.impacts@).len() implies texts(c.impacts@)[k] != tag@ by {
            assert(texts(c.impacts@)[k] == c.impacts@[k]@);
        }
    }
    false
}

fn clone_item(x: &(ObjectId, Constraint)) -> (res: (ObjectId, Constraint))
    ensures
        res.0@ == x.0@,
        res.1@ == x.1@,
{
    (x.0.clone(), x.1.clone())
}

proof fn lemma_insert_by_time_at(s: Seq<(Seq<char>, ConstraintView)>, x: (Seq<char>, ConstraintView), k: int)
    requires
        0 <= k <= s.len(),
        forall|i: int| 0 <= i < k ==> (#[trigger] s[i]).1.timestamp.spec_le(x.1.timestamp),
        k < s.len() ==> !s[k].1.timestamp.spec_le(x.1.timestamp),
    ensures
        insert_by_time(s, x) == s.insert(k, x),
    decreases s.len(),
{
    if s.len() > 0 {
        if k > 0 {
            assert forall|i: int| 0 <= i < k - 1 implies (#[trigger] s.drop_first()[i]).1.timestamp.spec_le(x.1.timestamp) by {
                assert(s.drop_first()[i] == s[i + 1]);
            }
            lemma_insert_by_time_at(s.drop_first(), x, k - 1);
            assert(seq![s[0]] + s.drop_first().insert(k - 1, x) == s.insert(k, x));
        } else {
            assert(seq![x] + s == s.insert(0, x));
        }
    }
}

/// The constraints to show: those with the impact tag when one is given,
/// oldest first.
pub fn select_timeline(constraints: &Vec<(ObjectId, Constraint)>, impact: &Option<String>) -> (res: Vec<(ObjectId, Constraint)>)
    ensures
        item_views(res@) == sort_by_time(with_impact(item_views(constraints@), opt_text(*impact))),
{
    let ghost tag = opt_text(*impact);
    let ghost all = item_views(constraints@);
    let mut kept: Vec<(ObjectId, Constraint)> = Vec::new();
    let mut i: usize = 0;
    assert(all.take(0) == Seq::<(Seq<char>, ConstraintView)>::empty());
    assert(item_views(kept@) == Seq::<(Seq<char>, ConstraintView)>::empty());
    while i < constraints.len()
        invariant
            i <= constraints@.len(),
            all == item_views(constraints@),
            tag == opt_text(*impact),
            item_views(kept@) == with_impact(all.take(i as int), tag),
        decreases constraints@.len() - i,
    {
        let keep = match impact {
            Some(t) => has_impact_exec(&constraints[i].1, t.as_str()),
            None => true,
        };
        proof {
            assert(all.take(i + 1).drop_last() == all.take(i as int));
            assert(all.take(i + 1).last() == all[i as int]);
            assert(all[i as int] == (constraints@[i as int].0@, constraints@[i as int].1@));
        }
        if keep {
            let x = clone_item(&constraints[i]);
            let ghost before = item_views(kept@);
            kept.push(x);
            assert(item_views(kept@) == before.push((x.0@, x.1@)));
        } else {
            assert(item_views(kept@) == item_views(kept@) + Seq::<(Seq<char>, ConstraintView)>::empty());
        }
        i = i + 1;
    }
    assert(all.take(constraints@.len() as int) == all);
    let ghost filtered = item_views(kept@);
    let mut res: Vec<(ObjectId, Constraint)> = Vec::new();
    let mut j: usize = 0;
    assert(filtered.take(0) == Seq::<(Seq<char>, ConstraintView)>::empty());
    assert(item_views(res@) == Seq::<(Seq<char>, ConstraintView)>::empty());
    while j < kept.len()
        invariant
            j <= kept@.len(),
            filtered == item_views(kept@),
            item_views(res@) == sort_by_time(filtered.take(j as int)),
        decreases kept@.len() - j,
    {
        let x = clone_item(&kept[j]);
        let mut k: usize = 0;
        while k < res.len() && res[k].1.timestamp.le(&x.1.timestamp)
            invariant
                k <= res@.len(),
                forall|q: int| 0 <= q < k ==> (#[trigger] res@[q]).1.timestamp.spec_le(x.1.timestamp),
            decreases res@.len() - k,
        {
            k = k + 1;
        }
        proof {
            let rv = item_views(res@);
            assert forall|q: int| 0 <= q < k implies (#[trigger] rv[q]).1.timestamp.spec_le(x.1@.timestamp) by {
                assert(rv[q].1 == res@[q].1@);
            }
            if k < res.len() {
                assert(rv[k as int].1 == res@[k as int].1@);
            }
            lemma_insert_by_time_at(rv, (x.0@, x.1@), k as int);
            assert(filtered.take(j + 1).drop_last() == filtered.take(j as int));
            assert(filtered.take(j + 1).last() == (x.0@, x.1@));
        }
        let ghost before = res@;
        res.insert(k, x);
        assert(item_views(res@) == item_views(before).insert(k as int, (x.0@, x.1@)));
        j = j + 1;
    }
    assert(filtered.take(kept@.len() as int) == filtered);
    res
}

/// How many constraints are in the given state.
pub open spec fn status_count(items: Seq<(Seq<char>, ConstraintView)>, status: ConstraintStatus) -> nat
    decreases items.len(),
{
    if items.len() == 0 {
        0
    } else {
        status_count(items.drop_last(), status) + (if items.last().1.status == status { 1nat } else { 0nat })
    }
}

/// The number of active, superseded and deprecated constraints.
pub fn status_counts(items: &Vec<(ObjectId, Constraint)>) -> (res: (usize, usize, usize))
    ensures
        res.0 == status_count(item_views(items@), ConstraintStatus::Active),
        res.1 == status_count(item_views(items@), ConstraintStatus::Superseded),
        res.2 == status_count(item_views(items@), ConstraintStatus::Deprecated),
        res.0 + res.1 + res.2 == items@.len(),
{
    let ghost v = item_views(items@);
    let mut a: usize = 0;
    let mut su: usize = 0;
    let mut d: usize = 0;
    let mut i: usize = 0;
    while i < items.len()
        invariant
            i <= items@.len(),
            v == item_views(items@),
            a == status_count(v.take(i as int), ConstraintStatus::Active),
            su == status_count(v.take(i as int), ConstraintStatus::Superseded),
            d == status_count(v.take(i as int), ConstraintStatus::Deprecated),
            a + su + d == i,
        decreases items@.len() - i,
    {
        proof {
            assert(v.take(i + 1).drop_last() == v.take(i as int));
            assert(v.take(i + 1).last() == v[i as int]);
            assert(v[i as int].1 == items@[i as int].1@);
        }
        match items[i].1.status {
            ConstraintStatus::Active => { a = a + 1; },
            ConstraintStatus::Superseded => { su = su + 1; },
            ConstraintStatus::Deprecated => { d = d + 1; },
        }
        i = i + 1;
    }
    assert(v.take(items@.len() as int) == v);
    (a, su, d)
}

/// Each constraint is counted in exactly one state.
pub proof fn lemma_status_counts_partition(items: Seq<(Seq<char>, ConstraintView)>)
    ensures
        status_count(items, ConstraintStatus::Active) + status_count(items, ConstraintStatus::Superseded)
            + status_count(items, ConstraintStatus::Deprecated) == items.len(),
    decreases items.len(),
{
    if items.len() > 0 {
        lemma_status_counts_partition(items.drop_last());
    }
}

/// The last constraint with the given id, as a map built from the list
/// finds it.
pub open spec fn lookup_last(items: Seq<(Seq<char>, ConstraintView)>, id: Seq<char>) -> Option<ConstraintView>
    decreases items.len(),
{
    if items.len() == 0 {
        None
    } else if items.last().0 == id {
        Some(items.last().1)
    } else {
        lookup_last(items.drop_last(), id)
    }
}

/// `"text"`.
pub open spec fn quoted(s: Seq<char>) -> Seq<char> {
    "\""@ + s + "\""@
}

/// A state line: the marker, the date, two spaces, the author's email.
pub open spec fn event_line(marker: Seq<char>, c: ConstraintView) -> Seq<char> {
    marker + c.timestamp.date_text() + "  "@ + c.author.email
}

/// What follows a superseded constraint's creation line.
pub open spec fn superseded_lines(sup: Option<Seq<char>>, all: Seq<(Seq<char>, ConstraintView)>) -> Seq<Seq<char>> {
    match sup {
        Some(id) => (match lookup_last(all, id) {
            Some(t) => seq![event_line("  ▲ Superseded  "@, t)],
            None => seq!["  ▲ Superseded"@],
        }) + seq!["    └─ by "@ + id.take(7)],
        None => seq!["  ▲ Superseded"@],
    }
}

/// The lines of one constraint, `now` being the instant its age is taken at.
pub open spec fn timeline_entry(item: (Seq<char>, ConstraintView), all: Seq<(Seq<char>, ConstraintView)>, now: Timestamp) -> Seq<Seq<char>> {
    let c = item.1;
    seq![item.0.take(7) + " "@ + severity_tag(c.severity) + " "@ + quoted(c.statement)] + match c.status {
        ConstraintStatus::Active => seq![
            event_line("  ● Created     "@, c),
            "    (active "@ + trim_suffix_all(age_text(c.timestamp.seconds_until(now) as int), " ago"@) + ")"@,
        ],
        ConstraintStatus::Superseded => seq![event_line("  ● Created     "@, c)] + superseded_lines(c.superseded_by, all),
        ConstraintStatus::Deprecated => seq![event_line("  ✕ Deprecated  "@, c)] + match c.deprecation_reason {
            Some(r) => seq!["    └─ reason: "@ + quoted(r)],
            None => Seq::empty(),
        },
    } + seq![Seq::empty()]
}

/// The lines of the first `k` constraints, the `i`-th aged at `nows[i]`.
pub open spec fn timeline_entries(all: Seq<(Seq<char>, ConstraintView)>, nows: Seq<Timestamp>, k: nat) -> Seq<Seq<char>>
    decreases k,
{
    if k == 0 || k > all.len() {
        Seq::empty()
    } else {
        timeline_entries(all, nows, (k - 1) as nat) + timeline_entry(all[k - 1], all, nows[k - 1])
    }
}

/// The counts line.
pub open spec fn counts_line(all: Seq<(Seq<char>, ConstraintView)>) -> Seq<char> {
    "Active: "@ + decimal(status_count(all, ConstraintStatus::Active)) + "  Superseded: "@ + decimal(
        status_count(all, ConstraintStatus::Superseded),
    ) + "  Deprecated: "@ + decimal(status_count(all, ConstraintStatus::Deprecated))
}

/// The timeline of the constraints as given (already selected and ordered),
/// the `i`-th aged at `nows[i]`.
pub open spec fn timeline_text(all: Seq<(Seq<char>, ConstraintView)>, nows: Seq<Timestamp>) -> Seq<Seq<char>> {
    if all.len() == 0 {
        seq!["No constraints found."@]
    } else {
        seq!["Constraint Timeline"@, "───────────────────"@, Seq::empty()] + timeline_entries(
            all,
            nows,
            all.len(),
        ) + seq![counts_line(all)]
    }
}

fn push_line(out: &mut Vec<String>, line: String)
    ensures
        texts(final(out)@) == texts(old(out)@).push(line@),
{
    out.push(line);
    assert(texts(out@) == texts(old(out)@).push(line@));
}

fn event_line_exec(marker: &str, c: &Constraint) -> (res: String)
    ensures
        res@ == event_line(marker@, c@),
{
    let mut line = String::from_str(marker);
    let d = c.timestamp.date();
    line.append(d.as_str());
    line.append("  ");
    line.append(c.author.email.as_str());
    assert(line@ =~= event_line(marker@, c@));
    line
}

fn find_last(items: &Vec<(ObjectId, Constraint)>, id: &ObjectId) -> (res: Option<usize>)
    ensures
        match res {
            Some(k) => k < items@.len() && lookup_last(item_views(items@), id@) == Some(items@[k as int].1@),
            None => lookup_last(item_views(items@), id@) is None,
        },
{
    let ghost v = item_views(items@);
    let mut i: usize = items.len();
    assert(v.take(v.len() as int) == v);
    while i > 0
        invariant
            i <= items@.len(),
            v == item_views(items@),
            lookup_last(v, id@) == lookup_last(v.take(i as int), id@),
        decreases i,
    {
        proof {
            assert(v.take(i as int).drop_last() == v.take(i - 1));
            assert(v.take(i as int).last() == v[i - 1]);
            assert(v[i - 1] == (items@[i - 1].0@, items@[i - 1].1@));
        }
        if items[i - 1].0.same(id) {
            return Some(i - 1);
        }
        i = i - 1;
    }
    assert(v.take(0) == Seq::<(Seq<char>, ConstraintView)>::empty());
    None
}

/// Appends the lines of one constraint; its age is taken at `fixed` when
/// given, otherwise at the clock's current instant, which is returned.
fn push_timeline_entry(
    out: &mut Vec<String>,
    k: usize,
    items: &Vec<(ObjectId, Constraint)>,
    fixed: Option<&Timestamp>,
) -> (now: Ghost<Timestamp>)
    requires
        k < items@.len(),
    ensures
        texts(final(out)@) == texts(old(out)@) + timeline_entry(item_views(items@)[k as int], item_views(items@), now@),
        fixed matches Some(t) ==> now@ == *t,
{
    let ghost all = item_views(items@);
    let ghost start = texts(out@);
    let id = &items[k].0;
    let c = &items[k].1;
    proof {
        assert(all[k as int] == (id@, c@));
    }
    let mut head = short_id(id);
    head.append(" ");
    let sev = colored_severity(&c.severity);
    head.append(sev.as_str());
    head.append(" ");
    head.append("\"");
    head.append(c.statement.as_str());
    head.append("\"");
    assert(head@ =~= all[k as int].0.take(7) + " "@ + severity_tag(c@.severity) + " "@ + quoted(c@.statement));
    push_line(out, head);
    let ghost h = texts(out@);
    assert(h == start + seq![all[k as int].0.take(7) + " "@ + severity_tag(c@.severity) + " "@ + quoted(c@.statement)]);
    let ghost mut now: Timestamp = match fixed { Some(t) => *t, None => c.timestamp };
    match c.status {
        ConstraintStatus::Active => {
            push_line(out, event_line_exec("  ● Created     ", c));
            let age = match fixed {
                Some(t) => {
                    proof {
                        now = *t;
                    }
                    format_age_at(&c.timestamp, t)
                },
                None => {
                    let a = format_age(&c.timestamp);
                    proof {
                        let n = choose|n: Timestamp| a@ == age_text(#[trigger] c.timestamp.seconds_until(n) as int);
                        now = n;
                    }
                    a
                },
            };
            let duration = trim_end_matches(age.as_str(), " ago");
            let mut line = String::from_str("    (active ");
            line.append(duration.as_str());
            line.append(")");
            assert(line@ =~= "    (active "@ + trim_suffix_all(age_text(c@.timestamp.seconds_until(now) as int), " ago"@) + ")"@);
            push_line(out, line);
        },
        ConstraintStatus::Superseded => {
            push_line(out, event_line_exec("  ● Created     ", c));
            match &c.superseded_by {
                Some(sup_id) => {
                    match find_last(items, sup_id) {
                        Some(t) => {
                            push_line(out, event_line_exec("  ▲ Superseded  ", &items[t].1));
                        },
                        None => {
                            push_line(out, String::from_str("  ▲ Superseded"));
                        },
                    }
                    let mut line = String::from_str("    └─ by ");
                    let short = short_id(sup_id);
                    line.append(short.as_str());
                    push_line(out, line);
                },
                None => {
                    push_line(out, String::from_str("  ▲ Superseded"));
                },
            }
        },
        ConstraintStatus::Deprecated => {
            push_line(out, event_line_exec("  ✕ Deprecated  ", c));
            match &c.deprecation_reason {
                Some(reason) => {
                    let mut line = String::from_str("    └─ reason: ");
                    line.append("\"");
                    line.append(reason.as_str());
                    line.append("\"");
                    assert(line@ =~= "    └─ reason: "@ + quoted(reason@));
                    push_line(out, line);
                },
                None => {},
            }
        },
    }
    proof {
        let cv = c@;
        let body: Seq<Seq<char>> = match cv.status {
            ConstraintStatus::Active => seq![
                event_line("  ● Created     "@, cv),
                "    (active "@ + trim_suffix_all(age_text(cv.timestamp.seconds_until(now) as int), " ago"@) + ")"@,
            ],
            ConstraintStatus::Superseded => seq![event_line("  ● Created     "@, cv)] + superseded_lines(cv.superseded_by, all),
            ConstraintStatus::Deprecated => seq![event_line("  ✕ Deprecated  "@, cv)] + match cv.deprecation_reason {
                Some(r) => seq!["    └─ reason: "@ + quoted(r)],
                None => Seq::empty(),
            },
        };
        assert(texts(out@) == h + body);
    }
    push_line(out, String::new());
    proof {
        reveal_strlit("");
    }
    Ghost(now)
}

fn timeline_lines_with(items: &Vec<(ObjectId, Constraint)>, fixed: Option<&Timestamp>) -> (res: (Vec<String>, Ghost<Seq<Timestamp>>))
    ensures
        res.1@.len() == items@.len(),
        texts(res.0@) == timeline_text(item_views(items@), res.1@),
        fixed matches Some(t) ==> forall|i: int| 0 <= i < items@.len() ==> res.1@[i] == *t,
{
    let ghost all = item_views(items@);
    let mut out: Vec<String> = Vec::new();
    let ghost mut nows: Seq<Timestamp> = Seq::empty();
    if items.len() == 0 {
        push_line(&mut out, String::from_str("No constraints found."));
        return (out, Ghost(nows));
    }
    push_line(&mut out, String::from_str("Constraint Timeline"));
    push_line(&mut out, String::from_str("───────────────────"));
    push_line(&mut out, String::new());
    let ghost head = texts(out@);
    let mut k: usize = 0;
    while k < items.len()
        invariant
            k <= items@.len(),
            all == item_views(items@),
            nows.len() == k,
            fixed matches Some(t) ==> forall|i: int| 0 <= i < k ==> nows[i] == *t,
            texts(out@) == head + timeline_entries(all, nows, k as nat),
        decreases items@.len() - k,
    {
        let now = push_timeline_entry(&mut out, k, items, fixed);
        proof {
            let old_nows = nows;
            nows = nows.push(now@);
            assert forall|q: nat| q <= k implies timeline_entries(all, nows, q) == timeline_entries(all, old_nows, q) by {
                lemma_entries_prefix(all, old_nows, nows, q);
            }
        }
        k = k + 1;
    }
    let (a, su, d) = status_counts(items);
    let mut line = String::from_str("Active: ");
    push_decimal(&mut line, a as u64);
    line.append("  Superseded: ");
    push_decimal(&mut line, su as u64);
    line.append("  Deprecated: ");
    push_decimal(&mut line, d as u64);
    push_line(&mut out, line);
    proof {
        reveal_strlit("");
    }
    (out, Ghost(nows))
}

proof fn lemma_entries_prefix(all: Seq<(Seq<char>, ConstraintView)>, a: Seq<Timestamp>, b: Seq<Timestamp>, q: nat)
    requires
        q <= a.len(),
        a.len() <= b.len(),
        forall|i: int| 0 <= i < a.len() ==> a[i] == b[i],
    ensures
        timeline_entries(all, a, q) == timeline_entries(all, b, q),
    decreases q,
{
    if q > 0 {
        lemma_entries_prefix(all, a, b, (q - 1) as nat);
    }
}

/// The timeline of constraints already selected and ordered, every age
/// taken at the instant `now`.
pub fn timeline_lines_at(items: &Vec<(ObjectId, Constraint)>, now: &Timestamp) -> (res: Vec<String>)
    ensures
        texts(res@) == timeline_text(item_views(items@), Seq::new(items@.len(), |i: int| *now)),
{
    let (out, nows) = timeline_lines_with(items, Some(now));
    assert(nows@ =~= Seq::new(items@.len(), |i: int| *now));
    out
}

/// The timeline of constraints already selected and ordered, each age taken
/// from the system clock when its line is written.
pub fn timeline_lines(items: &Vec<(ObjectId, Constraint)>) -> (res: Vec<String>)
    ensures
        exists|nows: Seq<Timestamp>|
            nows.len() == items@.len() && texts(res@) == #[trigger] timeline_text(item_views(items@), nows),
{
    let (out, nows) = timeline_lines_with(items, None);
    out
}

/// The timeline view of all constraints: those with the impact tag when
/// one is given, oldest first, each age taken from the system clock.
pub fn timeline_report(constraints: &Vec<(ObjectId, Constraint)>, impact: &Option<String>) -> (res: Vec<String>)
    ensures
        exists|nows: Seq<Timestamp>|
            nows.len() == sort_by_time(with_impact(item_views(constraints@), opt_text(*impact))).len()
                && texts(res@) == #[trigger] timeline_text(
                sort_by_time(with_impact(item_views(constraints@), opt_text(*impact))),
                nows,
            ),
{
    let selected = select_timeline(constraints, impact);
    timeline_lines(&selected)
}

/// A stably sorted list is in chronological order.
pub open spec fn chronological(s: Seq<(Seq<char>, ConstraintView)>) -> bool {
    forall|i: int, j: int| 0 <= i < j < s.len() ==> (#[trigger] s[i]).1.timestamp.spec_le((#[trigger] s[j]).1.timestamp)
}

proof fn lemma_le_total(a: Timestamp, b: Timestamp)
    ensures
        a.spec_le(b) || b.spec_le(a),
{
}

proof fn lemma_insert_by_time_props(s: Seq<(Seq<char>, ConstraintView)>, x: (Seq<char>, ConstraintView))
    requires
        chronological(s),
    ensures
        chronological(insert_by_time(s, x)),
        insert_by_time(s, x).to_multiset() =~= s.to_multiset().insert(x),
    decreases s.len(),
{
    broadcast use vstd::seq_lib::group_to_multiset_ensures, vstd::seq_lib::lemma_multiset_commutative, vstd::multiset::group_multiset_axioms;

    let r = insert_by_time(s, x);
    assert(seq![x] == Seq::<(Seq<char>, ConstraintView)>::empty().push(x));
    if s.len() > 0 {
        assert(seq![s[0]] == Seq::<(Seq<char>, ConstraintView)>::empty().push(s[0]));
        assert(s == seq![s[0]] + s.drop_first());
        if s[0].1.timestamp.spec_le(x.1.timestamp) {
            let t = s.drop_first();
            assert forall|i: int, j: int| 0 <= i < j < t.len() implies (#[trigger] t[i]).1.timestamp.spec_le((#[trigger] t[j]).1.timestamp) by {
                assert(t[i] == s[i + 1]);
                assert(t[j] == s[j + 1]);
            }
            lemma_insert_by_time_props(t, x);
            let rt = insert_by_time(t, x);
            assert(rt.to_multiset().contains(x));
            assert forall|i: int, j: int| 0 <= i < j < r.len() implies (#[trigger] r[i]).1.timestamp.spec_le((#[trigger] r[j]).1.timestamp) by {
                assert(r[j] == rt[j - 1]);
                if i == 0 {
                    assert(rt.to_multiset().contains(rt[j - 1]));
                    assert(t.to_multiset().insert(x).contains(rt[j - 1]));
                    if rt[j - 1] != x {
                        assert(t.to_multiset().contains(rt[j - 1]));
                        assert(t.contains(rt[j - 1]));
                        let k = choose|k: int| 0 <= k < t.len() && t[k] == rt[j - 1];
                        assert(s[k + 1] == t[k]);
                    }
                } else {
                    assert(r[i] == rt[i - 1]);
                }
            }
        } else {
            assert forall|i: int, j: int| 0 <= i < j < r.len() implies (#[trigger] r[i]).1.timestamp.spec_le((#[trigger] r[j]).1.timestamp) by {
                assert(r[j] == s[j - 1]);
                if i > 0 {
                    assert(r[i] == s[i - 1]);
                } else {
                    lemma_le_total(s[0].1.timestamp, x.1.timestamp);
                    if j - 1 > 0 {
                        assert(s[0].1.timestamp.spec_le(s[j - 1].1.timestamp));
                    }
                }
            }
        }
    }
}

/// The timeline lists constraints oldest first, and it lists exactly the
/// selected constraints, each as often as it was given.
pub proof fn lemma_sort_by_time_chronological(s: Seq<(Seq<char>, ConstraintView)>)
    ensures
        chronological(sort_by_time(s)),
        sort_by_time(s).to_multiset() =~= s.to_multiset(),
    decreases s.len(),
{
    broadcast use vstd::seq_lib::group_to_multiset_ensures;

    if s.len() > 0 {
        lemma_sort_by_time_chronological(s.drop_last());
        lemma_insert_by_time_props(sort_by_time(s.drop_last()), s.last());
        assert(s == s.drop_last().push(s.last()));
    }
}

/// Constraints of the same instant keep the order they were given in.
pub proof fn lemma_sort_by_time_stable(s: Seq<(Seq<char>, ConstraintView)>, x: (Seq<char>, ConstraintView))
    requires
        chronological(s),
        forall|i: int| 0 <= i < s.len() ==> (#[trigger] s[i]).1.timestamp.spec_le(x.1.timestamp),
    ensures
        insert_by_time(s, x) == s.push(x),
    decreases s.len(),
{
    if s.len() > 0 {
        let t = s.drop_first();
        assert forall|i: int, j: int| 0 <= i < j < t.len() implies (#[trigger] t[i]).1.timestamp.spec_le((#[trigger] t[j]).1.timestamp) by {
            assert(t[i] == s[i + 1]);
            assert(t[j] == s[j + 1]);
        }
        assert forall|i: int| 0 <= i < t.len() implies (#[trigger] t[i]).1.timestamp.spec_le(x.1.timestamp) by {
            assert(t[i] == s[i + 1]);
        }
        lemma_sort_by_time_stable(t, x);
        assert(seq![s[0]] + t.push(x) == s.push(x));
    } else {
        assert(seq![x] == s.push(x));
    }
}

/// Each state's count is the number of constraints in that state.
pub proof fn lemma_status_count_is_filter(items: Seq<(Seq<char>, ConstraintView)>, status: ConstraintStatus)
    ensures
        status_count(items, status) == items.filter(|x: (Seq<char>, ConstraintView)| x.1.status == status).len(),
    decreases items.len(),
{
    reveal(Seq::filter);
    if items.len() > 0 {
        lemma_status_count_is_filter(items.drop_last(), status);
    }
}

/// The successor's details come from the last listed constraint with its
/// id: there is none exactly when no constraint has that id, and otherwise
/// it is the one at the last position holding the id.
pub proof fn lemma_lookup_last(items: Seq<(Seq<char>, ConstraintView)>, id: Seq<char>)
    ensures
        lookup_last(items, id) is None <==> forall|j: int| 0 <= j < items.len() ==> (#[trigger] items[j]).0 != id,
        lookup_last(items, id) is Some ==> exists|j: int|
            0 <= j < items.len() && (#[trigger] items[j]).0 == id && lookup_last(items, id) == Some(items[j].1)
                && forall|k: int| j < k < items.len() ==> (#[trigger] items[k]).0 != id,
    decreases items.len(),
{
    if items.len() > 0 {
        let p = items.drop_last();
        lemma_lookup_last(p, id);
        let n = items.len() - 1;
        if items.last().0 == id {
            assert(items[n] == items.last());
        } else {
            assert forall|j: int| 0 <= j < p.len() implies p[j] == items[j] by {}
            if lookup_last(p, id) is Some {
                let j = choose|j: int|
                    0 <= j < p.len() && (#[trigger] p[j]).0 == id && lookup_last(p, id) == Some(p[j].1)
                        && forall|k: int| j < k < p.len() ==> (#[trigger] p[k]).0 != id;
                assert(items[j] == p[j]);
                assert forall|k: int| j < k < items.len() implies (#[trigger] items[k]).0 != id by {
                    if k < n {
                        assert(items[k] == p[k]);
                    }
                }
            } else {
                assert forall|j: int| 0 <= j < items.len() implies (#[trigger] items[j]).0 != id by {
                    if j < n {
                        assert(items[j] == p[j]);
                    }
                }
            }
        }
    }
}

} // verus!
