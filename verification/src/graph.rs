//! The graph view: each intent with its constraints (and their code
//! bindings or successor) and its decisions, drawn as a small tree.

use crate::impact::{bullet, decision_views, intent_views};
use crate::model::{
    texts, BindingView, CodeBinding, Constraint, ConstraintStatus, ConstraintView, DecisionRecord, DecisionView,
    Intent, IntentView, ObjectId,
};
use crate::render::{
    colored_severity, continuation_text, prefix_text, severity_tag, short_id, status_bullet, tree_continuation,
    tree_prefix,
};
use crate::text::{join_seq, join_strings};
use crate::timeline::{item_views, quoted};
use vstd::prelude::*;

verus! {

/// The constraints recorded against the intent, in the order given.
pub open spec fn constraints_of(all: Seq<(Seq<char>, ConstraintView)>, intent: Seq<char>) -> Seq<(Seq<char>, ConstraintView)>
    decreases all.len(),
{
    if all.len() == 0 {
        Seq::empty()
    } else {
        constraints_of(all.drop_last(), intent) + (if all.last().1.source_intent == intent {
            seq![all.last()]
        } else {
            Seq::empty()
        })
    }
}

/// The code bindings bound to the object, in the order given.
pub open spec fn bindings_of(all: Seq<BindingView>, object: Seq<char>) -> Seq<BindingView>
    decreases all.len(),
{
    if all.len() == 0 {
        Seq::empty()
    } else {
        bindings_of(all.drop_last(), object) + (if all.last().bound_object == object {
            seq![all.last()]
        } else {
            Seq::empty()
        })
    }
}

/// The text after a constraint's id that names a state other than active.
pub open spec fn status_tag(status: ConstraintStatus) -> Seq<char> {
    match status {
        ConstraintStatus::Active => Seq::empty(),
        ConstraintStatus::Superseded => "  (superseded)"@,
        ConstraintStatus::Deprecated => "  (deprecated)"@,
    }
}

/// The line of a code binding under a constraint.
pub open spec fn binding_line(cont: Seq<char>, b: BindingView, is_last: bool) -> Seq<char> {
    cont + (if is_last { "└─"@ } else { "├─"@ }) + " "@ + b.path + match b.symbol {
        Some(s) => " :: "@ + s,
        None => Seq::empty(),
    }
}

/// The lines of the bindings.
pub open spec fn binding_lines(cont: Seq<char>, bs: Seq<BindingView>) -> Seq<Seq<char>> {
    Seq::new(bs.len(), |k: int| binding_line(cont, bs[k], k == bs.len() - 1))
}

/// The lines of a constraint, child of an intent.
pub open spec fn constraint_block(
    item: (Seq<char>, ConstraintView),
    bindings: Seq<BindingView>,
    is_last: bool,
    depth: nat,
) -> Seq<Seq<char>> {
    let c = item.1;
    let prefix = prefix_text(seq![is_last]);
    let cont = continuation_text(seq![is_last]);
    seq![
        prefix + severity_tag(c.severity) + " "@ + bullet(c.status) + " constraint "@ + item.0.take(7) + status_tag(c.status),
        cont + quoted(c.statement),
    ] + (if depth >= 2 {
        if c.status == ConstraintStatus::Superseded {
            match c.superseded_by {
                Some(sup) => seq![cont + "└─ superseded by "@ + sup.take(7)],
                None => Seq::empty(),
            }
        } else {
            binding_lines(cont, bindings_of(bindings, item.0))
        }
    } else {
        Seq::empty()
    }) + (if !is_last { seq!["│"@] } else { Seq::empty() })
}

/// The lines of a decision, child of an intent.
pub open spec fn decision_block(item: (Seq<char>, DecisionView), is_last: bool) -> Seq<Seq<char>> {
    let d = item.1;
    let prefix = prefix_text(seq![is_last]);
    let cont = continuation_text(seq![is_last]);
    seq![prefix + "decision "@ + item.0.take(7), cont + "Q: "@ + d.question, cont + "A: "@ + d.decision] + (if d.alternatives.len() > 0 {
        seq![cont + "Rejected: "@ + join_seq(d.alternatives, ", "@)]
    } else {
        Seq::empty()
    })
}

/// The lines of the first `k` constraints of an intent that has `total`
/// children.
pub open spec fn constraint_blocks(
    cs: Seq<(Seq<char>, ConstraintView)>,
    bindings: Seq<BindingView>,
    total: nat,
    depth: nat,
    k: nat,
) -> Seq<Seq<char>>
    decreases k,
{
    if k == 0 || k > cs.len() {
        Seq::empty()
    } else {
        constraint_blocks(cs, bindings, total, depth, (k - 1) as nat) + constraint_block(
            cs[k - 1],
            bindings,
            k == total,
            depth,
        )
    }
}

/// The lines of the first `k` decisions of an intent whose children before
/// them number `before`, of `total`.
pub open spec fn decision_blocks(ds: Seq<(Seq<char>, DecisionView)>, before: nat, total: nat, k: nat) -> Seq<Seq<char>>
    decreases k,
{
    if k == 0 || k > ds.len() {
        Seq::empty()
    } else {
        decision_blocks(ds, before, total, (k - 1) as nat) + decision_block(ds[k - 1], before + k == total)
    }
}

/// The impacts of an intent, or `none`.
pub open spec fn impacts_text(impacts: Seq<Seq<char>>) -> Seq<char> {
    if impacts.len() == 0 { "none"@ } else { join_seq(impacts, ", "@) }
}

/// The lines of one intent: its statement, who recorded it when and what
/// it impacts, then (from depth one on) its constraints and decisions.
pub open spec fn intent_block(
    item: (Seq<char>, IntentView),
    constraints: Seq<(Seq<char>, ConstraintView)>,
    bindings: Seq<BindingView>,
    decisions: Seq<(Seq<char>, DecisionView)>,
    depth: nat,
) -> Seq<Seq<char>> {
    let i = item.1;
    let head = seq![
        "Intent "@ + item.0.take(7) + " "@ + quoted(i.statement),
        "│ "@ + i.author.email + " · "@ + i.timestamp.date_text() + " · impacts: "@ + impacts_text(i.impacts),
        "│"@,
    ];
    if depth < 1 {
        head + seq![Seq::empty()]
    } else {
        let cs = constraints_of(constraints, item.0);
        let total = cs.len() + decisions.len();
        head + constraint_blocks(cs, bindings, total, depth, cs.len()) + decision_blocks(
            decisions,
            cs.len(),
            total,
            decisions.len(),
        ) + seq![Seq::empty()]
    }
}

/// The lines of the first `k` intents, the `i`-th with `decisions[i]`.
pub open spec fn intent_blocks(
    intents: Seq<(Seq<char>, IntentView)>,
    constraints: Seq<(Seq<char>, ConstraintView)>,
    bindings: Seq<BindingView>,
    decisions: Seq<Seq<(Seq<char>, DecisionView)>>,
    depth: nat,
    k: nat,
) -> Seq<Seq<char>>
    decreases k,
{
    if k == 0 || k > intents.len() {
        Seq::empty()
    } else {
        intent_blocks(intents, constraints, bindings, decisions, depth, (k - 1) as nat) + intent_block(
            intents[k - 1],
            constraints,
            bindings,
            decisions[k - 1],
            depth,
        )
    }
}

/// The depth shown: the one asked for, or all of it.
pub open spec fn depth_or_all(depth: Option<usize>) -> nat {
    match depth {
        Some(d) => d as nat,
        None => usize::MAX as nat,
    }
}

/// The text of the graph view.
pub open spec fn graph_text(
    intents: Seq<(Seq<char>, IntentView)>,
    constraints: Seq<(Seq<char>, ConstraintView)>,
    bindings: Seq<BindingView>,
    decisions: Seq<Seq<(Seq<char>, DecisionView)>>,
    depth: Option<usize>,
) -> Seq<Seq<char>> {
    if intents.len() == 0 {
        seq!["No intents found."@]
    } else {
        intent_blocks(intents, constraints, bindings, decisions, depth_or_all(depth), intents.len())
    }
}

/// The views of a list of bindings.
pub open spec fn binding_views(bs: Seq<CodeBinding>) -> Seq<BindingView> {
    bs.map_values(|b: CodeBinding| b@)
}

/// The views of the decisions of each intent.
pub open spec fn decision_groups(ds: Seq<Vec<(ObjectId, DecisionRecord)>>) -> Seq<Seq<(Seq<char>, DecisionView)>> {
    ds.map_values(|d: Vec<(ObjectId, DecisionRecord)>| decision_views(d@))
}

fn push_line(out: &mut Vec<String>, line: String)
    ensures
        texts(final(out)@) == texts(old(out)@).push(line@),
{
    out.push(line);
    assert(texts(out@) == texts(old(out)@).push(line@));
}

/// The constraints recorded against the intent, in the order given.
pub fn constraints_for(all: &Vec<(ObjectId, Constraint)>, intent: &ObjectId) -> (res: Vec<(ObjectId, Constraint)>)
    ensures
        item_views(res@) == constraints_of(item_views(all@), intent@),
{
    let ghost av = item_views(all@);
    let mut res: Vec<(ObjectId, Constraint)> = Vec::new();
    let mut i: usize = 0;
    assert(av.take(0) == Seq::<(Seq<char>, ConstraintView)>::empty());
    assert(item_views(res@) == Seq::<(Seq<char>, ConstraintView)>::empty());
    while i < all.len()
        invariant
            i <= all@.len(),
            av == item_views(all@),
            item_views(res@) == constraints_of(av.take(i as int), intent@),
        decreases all@.len() - i,
    {
        proof {
            assert(av.take(i + 1).drop_last() == av.take(i as int));
            assert(av.take(i + 1).last() == av[i as int]);
            assert(av[i as int] == (all@[i as int].0@, all@[i as int].1@));
        }
        if all[i].1.source_intent.same(intent) {
            let ghost before = item_views(res@);
            let x = (all[i].0.clone(), all[i].1.clone());
            res.push(x);
            assert(item_views(res@) == before.push((x.0@, x.1@)));
        } else {
            assert(item_views(res@) == item_views(res@) + Seq::<(Seq<char>, ConstraintView)>::empty());
        }
        i = i + 1;
    }
    assert(av.take(all@.len() as int) == av);
    res
}

/// The code bindings bound to the object, in the order given.
pub fn bindings_for(all: &Vec<CodeBinding>, object: &ObjectId) -> (res: Vec<CodeBinding>)
    ensures
        binding_views(res@) == bindings_of(binding_views(all@), object@),
{
    let ghost av = binding_views(all@);
    let mut res: Vec<CodeBinding> = Vec::new();
    let mut i: usize = 0;
    assert(av.take(0) == Seq::<BindingView>::empty());
    assert(binding_views(res@) == Seq::<BindingView>::empty());
    while i < all.len()
        invariant
            i <= all@.len(),
            av == binding_views(all@),
            binding_views(res@) == bindings_of(av.take(i as int), object@),
        decreases all@.len() - i,
    {
        proof {
            assert(av.take(i + 1).drop_last() == av.take(i as int));
            assert(av.take(i + 1).last() == av[i as int]);
            assert(av[i as int] == all@[i as int]@);
        }
        if all[i].bound_object.same(object) {
            let ghost before = binding_views(res@);
            let x = all[i].clone();
            res.push(x);
            assert(binding_views(res@) == before.push(x@));
        } else {
            assert(binding_views(res@) == binding_views(res@) + Seq::<BindingView>::empty());
        }
        i = i + 1;
    }
    assert(av.take(all@.len() as int) == av);
    res
}

fn push_constraint_block(
    out: &mut Vec<String>,
    id: &ObjectId,
    c: &Constraint,
    bindings: &Vec<CodeBinding>,
    is_last: bool,
    depth: usize,
)
    ensures
        texts(final(out)@) == texts(old(out)@) + constraint_block(
            (id@, c@),
            binding_views(bindings@),
            is_last,
            depth as nat,
        ),
{
    let ghost start = texts(out@);
    let levels = [is_last];
    let level_slice = levels.as_slice();
    assert(level_slice@ == seq![is_last]);
    let prefix = tree_prefix(level_slice);
    let cont = tree_continuation(level_slice);
    let mut l1 = prefix.clone();
    let sev = colored_severity(&c.severity);
    l1.append(sev.as_str());
    l1.append(" ");
    l1.append(status_bullet(&c.status));
    l1.append(" constraint ");
    let short = short_id(id);
    l1.append(short.as_str());
    match c.status {
        ConstraintStatus::Active => {},
        ConstraintStatus::Superseded => { l1.append("  (superseded)"); },
        ConstraintStatus::Deprecated => { l1.append("  (deprecated)"); },
    }
    proof {
        reveal_strlit("");
    }
    assert(l1@ =~= prefix_text(seq![is_last]) + severity_tag(c@.severity) + " "@ + bullet(c@.status) + " constraint "@ + id@.take(7) + status_tag(c@.status));
    push_line(out, l1);
    let mut l2 = cont.clone();
    l2.append("\"");
    l2.append(c.statement.as_str());
    l2.append("\"");
    assert(l2@ =~= continuation_text(seq![is_last]) + quoted(c@.statement));
    push_line(out, l2);
    let ghost mid = texts(out@);
    let ghost cont_v = continuation_text(seq![is_last]);
    if depth >= 2 {
        if c.status == ConstraintStatus::Superseded {
            match &c.superseded_by {
                Some(sup) => {
                    let mut l = cont.clone();
                    l.append("└─ superseded by ");
                    let s = short_id(sup);
                    l.append(s.as_str());
                    push_line(out, l);
                },
                None => {},
            }
        } else {
            let bs = bindings_for(bindings, id);
            let ghost bv = binding_views(bs@);
            let ghost all = binding_lines(cont_v, bv);
            let mut k: usize = 0;
            while k < bs.len()
                invariant
                    k <= bs@.len(),
                    bv == binding_views(bs@),
                    all == binding_lines(cont_v, bv),
                    cont@ == cont_v,
                    texts(out@) == mid + all.take(k as int),
                decreases bs@.len() - k,
            {
                let b = &bs[k];
                assert(bv[k as int] == b@);
                let mut l = cont.clone();
                if k + 1 == bs.len() {
                    l.append("└─");
                } else {
                    l.append("├─");
                }
                l.append(" ");
                l.append(b.path.as_str());
                match &b.symbol {
                    Some(sym) => {
                        l.append(" :: ");
                        l.append(sym.as_str());
                    },
                    None => {},
                }
                assert(l@ =~= all[k as int]);
                assert(all.take(k + 1) == all.take(k as int).push(all[k as int]));
                push_line(out, l);
                k = k + 1;
            }
            assert(all.take(bs@.len() as int) == all);
        }
    }
    if !is_last {
        push_line(out, String::from_str("│"));
    }
}

fn push_decision_block(out: &mut Vec<String>, id: &ObjectId, d: &DecisionRecord, is_last: bool)
    ensures
        texts(final(out)@) == texts(old(out)@) + decision_block((id@, d@), is_last),
{
    let levels = [is_last];
    let level_slice = levels.as_slice();
    assert(level_slice@ == seq![is_last]);
    let prefix = tree_prefix(level_slice);
    let cont = tree_continuation(level_slice);
    let mut l1 = prefix.clone();
    l1.append("decision ");
    let short = short_id(id);
    l1.append(short.as_str());
    push_line(out, l1);
    let mut l2 = cont.clone();
    l2.append("Q: ");
    l2.append(d.question.as_str());
    push_line(out, l2);
    let mut l3 = cont.clone();
    l3.append("A: ");
    l3.append(d.decision.as_str());
    push_line(out, l3);
    if d.alternatives.len() > 0 {
        let mut rejected: Vec<String> = Vec::new();
        let mut k: usize = 0;
        while k < d.alternatives.len()
            invariant
                k <= d.alternatives@.len(),
                rejected@.map_values(|p: String| p@) == d@.alternatives.take(k as int),
            decreases d.alternatives@.len() - k,
        {
            let ghost before = rejected@.map_values(|p: String| p@);
            rejected.push(d.alternatives[k].description.clone());
            assert(rejected@.map_values(|p: String| p@) == before.push(d.alternatives@[k as int].description@));
            assert(d@.alternatives.take(k + 1) == d@.alternatives.take(k as int).push(d@.alternatives[k as int]));
            k = k + 1;
        }
        assert(d@.alternatives.take(d.alternatives@.len() as int) == d@.alternatives);
        let joined = join_strings(&rejected, ", ");
        let mut l4 = cont.clone();
        l4.append("Rejected: ");
        l4.append(joined.as_str());
        push_line(out, l4);
    }
}

fn push_intent_block(
    out: &mut Vec<String>,
    id: &ObjectId,
    intent: &Intent,
    constraints: &Vec<(ObjectId, Constraint)>,
    bindings: &Vec<CodeBinding>,
    decisions: &Vec<(ObjectId, DecisionRecord)>,
    depth: usize,
)
    ensures
        texts(final(out)@) == texts(old(out)@) + intent_block(
            (id@, intent@),
            item_views(constraints@),
            binding_views(bindings@),
            decision_views(decisions@),
            depth as nat,
        ),
{
    let ghost start = texts(out@);
    let mut l1 = String::from_str("Intent ");
    let short = short_id(id);
    l1.append(short.as_str());
    l1.append(" ");
    l1.append("\"");
    l1.append(intent.statement.as_str());
    l1.append("\"");
    assert(l1@ =~= "Intent "@ + id@.take(7) + " "@ + quoted(intent@.statement));
    push_line(out, l1);
    let mut l2 = String::from_str("│ ");
    l2.append(intent.author.email.as_str());
    l2.append(" · ");
    let date = intent.timestamp.date();
    l2.append(date.as_str());
    l2.append(" · impacts: ");
    if intent.impacts.len() == 0 {
        l2.append("none");
    } else {
        let joined = join_strings(&intent.impacts, ", ");
        l2.append(joined.as_str());
    }
    assert(l2@ =~= "│ "@ + intent@.author.email + " · "@ + intent@.timestamp.date_text() + " · impacts: "@
        + impacts_text(intent@.impacts));
    push_line(out, l2);
    push_line(out, String::from_str("│"));
    let ghost head = seq![
        "Intent "@ + id@.take(7) + " "@ + quoted(intent@.statement),
        "│ "@ + intent@.author.email + " · "@ + intent@.timestamp.date_text() + " · impacts: "@ + impacts_text(intent@.impacts),
        "│"@,
    ];
    assert(texts(out@) =~= start + head);
    if depth < 1 {
        push_line(out, String::new());
        proof {
            reveal_strlit("");
        }
        return;
    }
    let cs = constraints_for(constraints, id);
    let ghost csv = item_views(cs@);
    let ghost dv = decision_views(decisions@);
    let nc = cs.len();
    let nd = decisions.len();
    let ghost total = (nc + nd) as nat;
    let ghost base = texts(out@);
    let mut k: usize = 0;
    while k < nc
        invariant
            k <= nc,
            nc == cs@.len(),
            nd == decisions@.len(),
            csv == item_views(cs@),
            total == nc + nd,
            texts(out@) == base + constraint_blocks(csv, binding_views(bindings@), total, depth as nat, k as nat),
        decreases nc - k,
    {
        assert(csv[k as int] == (cs@[k as int].0@, cs@[k as int].1@));
        let is_last = k + 1 == nc && nd == 0;
        push_constraint_block(out, &cs[k].0, &cs[k].1, bindings, is_last, depth);
        k = k + 1;
    }
    let ghost mid = texts(out@);
    let mut q: usize = 0;
    while q < nd
        invariant
            q <= nd,
            nc == cs@.len(),
            nd == decisions@.len(),
            dv == decision_views(decisions@),
            total == nc + nd,
            texts(out@) == mid + decision_blocks(dv, nc as nat, total, q as nat),
        decreases nd - q,
    {
        assert(dv[q as int] == (decisions@[q as int].0@, decisions@[q as int].1@));
        let is_last = q + 1 == nd;
        push_decision_block(out, &decisions[q].0, &decisions[q].1, is_last);
        q = q + 1;
    }
    push_line(out, String::new());
    proof {
        reveal_strlit("");
    }
}

/// The graph view as lines of text: for each intent, its statement, who
/// recorded it when and what it impacts; to depth one its constraints and
/// decisions, to depth two also each constraint's bindings (or successor).
pub fn graph_lines(
    intents: &Vec<(ObjectId, Intent)>,
    constraints: &Vec<(ObjectId, Constraint)>,
    bindings: &Vec<CodeBinding>,
    decisions: &Vec<Vec<(ObjectId, DecisionRecord)>>,
    depth: Option<usize>,
) -> (res: Vec<String>)
    requires
        decisions@.len() == intents@.len(),
    ensures
        texts(res@) == graph_text(
            intent_views(intents@),
            item_views(constraints@),
            binding_views(bindings@),
            decision_groups(decisions@),
            depth,
        ),
{
    let ghost iv = intent_views(intents@);
    let ghost dg = decision_groups(decisions@);
    let mut out: Vec<String> = Vec::new();
    if intents.len() == 0 {
        push_line(&mut out, String::from_str("No intents found."));
        return out;
    }
    let max_depth = match depth {
        Some(d) => d,
        None => usize::MAX,
    };
    let mut k: usize = 0;
    assert(texts(out@) == Seq::<Seq<char>>::empty());
    while k < intents.len()
        invariant
            k <= intents@.len(),
            decisions@.len() == intents@.len(),
            iv == intent_views(intents@),
            dg == decision_groups(decisions@),
            max_depth as nat == depth_or_all(depth),
            texts(out@) == intent_blocks(
                iv,
                item_views(constraints@),
                binding_views(bindings@),
                dg,
                max_depth as nat,
                k as nat,
            ),
        decreases intents@.len() - k,
    {
        assert(iv[k as int] == (intents@[k as int].0@, intents@[k as int].1@));
        assert(dg[k as int] == decision_views(decisions@[k as int]@));
        push_intent_block(&mut out, &intents[k].0, &intents[k].1, constraints, bindings, &decisions[k], max_depth);
        k = k + 1;
    }
    out
}

/// The text after a binding's path: ` :: ` and the symbol, when it has one.
pub open spec fn symbol_suffix(symbol: Option<Seq<char>>) -> Seq<char> {
    match symbol {
        Some(s) => " :: "@ + s,
        None => Seq::empty(),
    }
}

/// The bindings of an object are exactly those bound to it, in the order
/// given: every binding bound to it is listed, and each listed one is one
/// of the given bindings and is bound to it.
pub proof fn lemma_bindings_of_members(all: Seq<BindingView>, object: Seq<char>)
    ensures
        forall|j: int| 0 <= j < all.len() && all[j].bound_object == object ==> #[trigger] bindings_of(all, object).contains(all[j]),
        forall|x: BindingView| #[trigger] bindings_of(all, object).contains(x) ==> all.contains(x) && x.bound_object == object,
    decreases all.len(),
{
    if all.len() > 0 {
        let p = all.drop_last();
        lemma_bindings_of_members(p, object);
        let bp = bindings_of(p, object);
        let b = bindings_of(all, object);
        assert(b.subrange(0, bp.len() as int) == bp);
        assert forall|j: int| 0 <= j < all.len() && all[j].bound_object == object implies #[trigger] b.contains(all[j]) by {
            if j < all.len() - 1 {
                assert(all[j] == p[j]);
                assert(bp.contains(p[j]));
                let k = choose|k: int| 0 <= k < bp.len() && bp[k] == p[j];
                assert(b[k] == bp[k]);
            } else {
                assert(b[b.len() - 1] == all[j]);
            }
        }
        assert forall|x: BindingView| #[trigger] b.contains(x) implies all.contains(x) && x.bound_object == object by {
            let k = choose|k: int| 0 <= k < b.len() && b[k] == x;
            if k < bp.len() {
                assert(bp[k] == x);
                assert(bp.contains(x));
                let m = choose|m: int| 0 <= m < p.len() && p[m] == x;
                assert(all[m] == x);
            } else {
                assert(all[all.len() - 1] == x);
            }
        }
    }
}

/// What a constraint's block holds below its two lines: to depth one
/// nothing; from depth two on, for an active or deprecated constraint one
/// line per binding bound to it, for a superseded one the line naming its
/// successor (when it has one). A separator line follows unless it is the
/// intent's last child.
pub proof fn lemma_constraint_block_depth(
    item: (Seq<char>, ConstraintView),
    bindings: Seq<BindingView>,
    is_last: bool,
    depth: nat,
)
    ensures
        depth <= 1 ==> constraint_block(item, bindings, is_last, depth).len() == 2 + (if is_last { 0int } else { 1int }),
        depth >= 2 && item.1.status != ConstraintStatus::Superseded ==> {
            let bs = bindings_of(bindings, item.0);
            let block = constraint_block(item, bindings, is_last, depth);
            &&& block.len() == 2 + bs.len() + (if is_last { 0int } else { 1int })
            &&& forall|k: int| 0 <= k < bs.len() ==> #[trigger] block[2 + k] == continuation_text(seq![is_last])
                + (if k == bs.len() - 1 { "└─"@ } else { "├─"@ }) + " "@ + bs[k].path + symbol_suffix(bs[k].symbol)
        },
        depth >= 2 && item.1.status == ConstraintStatus::Superseded && item.1.superseded_by is Some ==> {
            let block = constraint_block(item, bindings, is_last, depth);
            &&& block.len() == 3 + (if is_last { 0int } else { 1int })
            &&& block[2] == continuation_text(seq![is_last]) + "└─ superseded by "@ + item.1.superseded_by.unwrap().take(7)
        },
        depth >= 2 && item.1.status == ConstraintStatus::Superseded && item.1.superseded_by is None
            ==> constraint_block(item, bindings, is_last, depth).len() == 2 + (if is_last { 0int } else { 1int }),
{
    let bs = bindings_of(bindings, item.0);
    let cont = continuation_text(seq![is_last]);
    let block = constraint_block(item, bindings, is_last, depth);
    if depth >= 2 && item.1.status != ConstraintStatus::Superseded {
        let lines = binding_lines(cont, bs);
        assert forall|k: int| 0 <= k < bs.len() implies #[trigger] block[2 + k] == cont
            + (if k == bs.len() - 1 { "└─"@ } else { "├─"@ }) + " "@ + bs[k].path + symbol_suffix(bs[k].symbol) by {
            assert(block[2 + k] == lines[k]);
        }
    }
}

/// The lines of the `j`-th constraint are among those of the first `k`.
proof fn lemma_constraint_blocks_contain(
    cs: Seq<(Seq<char>, ConstraintView)>,
    bindings: Seq<BindingView>,
    total: nat,
    depth: nat,
    k: nat,
    j: int,
    line: Seq<char>,
)
    requires
        0 <= j < k <= cs.len(),
        constraint_block(cs[j], bindings, j + 1 == total, depth).contains(line),
    ensures
        constraint_blocks(cs, bindings, total, depth, k).contains(line),
    decreases k,
{
    let prev = constraint_blocks(cs, bindings, total, depth, (k - 1) as nat);
    let blk = constraint_block(cs[k - 1], bindings, k == total, depth);
    assert(constraint_blocks(cs, bindings, total, depth, k) == prev + blk);
    if j == k - 1 {
        let m = choose|m: int| 0 <= m < blk.len() && blk[m] == line;
        assert((prev + blk)[prev.len() + m] == line);
    } else {
        lemma_constraint_blocks_contain(cs, bindings, total, depth, (k - 1) as nat, j, line);
        let m = choose|m: int| 0 <= m < prev.len() && prev[m] == line;
        assert((prev + blk)[m] == line);
    }
}

/// The lines of the `i`-th intent are among those of the first `k`.
proof fn lemma_intent_blocks_contain(
    intents: Seq<(Seq<char>, IntentView)>,
    constraints: Seq<(Seq<char>, ConstraintView)>,
    bindings: Seq<BindingView>,
    decisions: Seq<Seq<(Seq<char>, DecisionView)>>,
    depth: nat,
    k: nat,
    i: int,
    line: Seq<char>,
)
    requires
        0 <= i < k <= intents.len(),
        intent_block(intents[i], constraints, bindings, decisions[i], depth).contains(line),
    ensures
        intent_blocks(intents, constraints, bindings, decisions, depth, k).contains(line),
    decreases k,
{
    let prev = intent_blocks(intents, constraints, bindings, decisions, depth, (k - 1) as nat);
    let blk = intent_block(intents[k - 1], constraints, bindings, decisions[k - 1], depth);
    assert(intent_blocks(intents, constraints, bindings, decisions, depth, k) == prev + blk);
    if i == k - 1 {
        let m = choose|m: int| 0 <= m < blk.len() && blk[m] == line;
        assert((prev + blk)[prev.len() + m] == line);
    } else {
        lemma_intent_blocks_contain(intents, constraints, bindings, decisions, depth, (k - 1) as nat, i, line);
        let m = choose|m: int| 0 <= m < prev.len() && prev[m] == line;
        assert((prev + blk)[m] == line);
    }
}

/// A line of a constraint's block appears in the graph when the depth is
/// at least one.
proof fn lemma_graph_contains_block_line(
    intents: Seq<(Seq<char>, IntentView)>,
    constraints: Seq<(Seq<char>, ConstraintView)>,
    bindings: Seq<BindingView>,
    decisions: Seq<Seq<(Seq<char>, DecisionView)>>,
    d: usize,
    i: int,
    j: int,
    line: Seq<char>,
)
    requires
        d >= 1,
        decisions.len() == intents.len(),
        0 <= i < intents.len(),
        0 <= j < constraints_of(constraints, intents[i].0).len(),
        constraint_block(
            constraints_of(constraints, intents[i].0)[j],
            bindings,
            j + 1 == constraints_of(constraints, intents[i].0).len() + decisions[i].len(),
            d as nat,
        ).contains(line),
    ensures
        graph_text(intents, constraints, bindings, decisions, Some(d)).contains(line),
{
    let cs = constraints_of(constraints, intents[i].0);
    let total = cs.len() + decisions[i].len();
    lemma_constraint_blocks_contain(cs, bindings, total, d as nat, cs.len(), j, line);
    let cb = constraint_blocks(cs, bindings, total, d as nat, cs.len());
    let m = choose|m: int| 0 <= m < cb.len() && cb[m] == line;
    let head = seq![
        "Intent "@ + intents[i].0.take(7) + " "@ + quoted(intents[i].1.statement),
        "│ "@ + intents[i].1.author.email + " · "@ + intents[i].1.timestamp.date_text() + " · impacts: "@
            + impacts_text(intents[i].1.impacts),
        "│"@,
    ];
    let db = decision_blocks(decisions[i], cs.len(), total, decisions[i].len());
    let blk = intent_block(intents[i], constraints, bindings, decisions[i], d as nat);
    assert(blk == head + cb + db + seq![Seq::<char>::empty()]);
    assert(blk[3 + m] == line);
    lemma_intent_blocks_contain(intents, constraints, bindings, decisions, d as nat, intents.len(), i, line);
}

/// From depth two on, the graph shows under each active or deprecated
/// constraint of an intent one line per code binding bound to it: its path
/// and symbol, after a tee or (for the last) a corner.
pub proof fn lemma_graph_shows_bindings(
    intents: Seq<(Seq<char>, IntentView)>,
    constraints: Seq<(Seq<char>, ConstraintView)>,
    bindings: Seq<BindingView>,
    decisions: Seq<Seq<(Seq<char>, DecisionView)>>,
    d: usize,
    i: int,
    j: int,
    k: int,
)
    requires
        d >= 2,
        decisions.len() == intents.len(),
        0 <= i < intents.len(),
        0 <= j < constraints_of(constraints, intents[i].0).len(),
        constraints_of(constraints, intents[i].0)[j].1.status != ConstraintStatus::Superseded,
        0 <= k < bindings_of(bindings, constraints_of(constraints, intents[i].0)[j].0).len(),
    ensures
        graph_text(intents, constraints, bindings, decisions, Some(d)).contains(
            continuation_text(seq![j + 1 == constraints_of(constraints, intents[i].0).len() + decisions[i].len()])
                + (if k == bindings_of(bindings, constraints_of(constraints, intents[i].0)[j].0).len() - 1 {
                "└─"@
            } else {
                "├─"@
            }) + " "@ + bindings_of(bindings, constraints_of(constraints, intents[i].0)[j].0)[k].path + symbol_suffix(
                bindings_of(bindings, constraints_of(constraints, intents[i].0)[j].0)[k].symbol,
            ),
        ),
{
    let cs = constraints_of(constraints, intents[i].0);
    let is_last = j + 1 == cs.len() + decisions[i].len();
    let block = constraint_block(cs[j], bindings, is_last, d as nat);
    lemma_constraint_block_depth(cs[j], bindings, is_last, d as nat);
    assert(block[2 + k] == block[2 + k]);
    let line = block[2 + k];
    assert(block.contains(line));
    lemma_graph_contains_block_line(intents, constraints, bindings, decisions, d, i, j, line);
}

/// From depth two on, the graph shows under each superseded constraint of
/// an intent that has a successor the line `└─ superseded by` and the
/// successor's short id.
pub proof fn lemma_graph_shows_successor(
    intents: Seq<(Seq<char>, IntentView)>,
    constraints: Seq<(Seq<char>, ConstraintView)>,
    bindings: Seq<BindingView>,
    decisions: Seq<Seq<(Seq<char>, DecisionView)>>,
    d: usize,
    i: int,
    j: int,
)
    requires
        d >= 2,
        decisions.len() == intents.len(),
        0 <= i < intents.len(),
        0 <= j < constraints_of(constraints, intents[i].0).len(),
        constraints_of(constraints, intents[i].0)[j].1.status == ConstraintStatus::Superseded,
        constraints_of(constraints, intents[i].0)[j].1.superseded_by is Some,
    ensures
        graph_text(intents, constraints, bindings, decisions, Some(d)).contains(
            continuation_text(seq![j + 1 == constraints_of(constraints, intents[i].0).len() + decisions[i].len()])
                + "└─ superseded by "@ + constraints_of(constraints, intents[i].0)[j].1.superseded_by.unwrap().take(7),
        ),
{
    let cs = constraints_of(constraints, intents[i].0);
    let is_last = j + 1 == cs.len() + decisions[i].len();
    let block = constraint_block(cs[j], bindings, is_last, d as nat);
    lemma_constraint_block_depth(cs[j], bindings, is_last, d as nat);
    assert(block.contains(block[2]));
    lemma_graph_contains_block_line(intents, constraints, bindings, decisions, d, i, j, block[2]);
}

/// The constraints shown under an intent are exactly those whose source
/// intent it is, in the order given; the bindings shown under a constraint
/// are exactly those bound to it, in the order given.
pub proof fn lemma_children_are_filters(
    constraints: Seq<(Seq<char>, ConstraintView)>,
    intent: Seq<char>,
    bindings: Seq<BindingView>,
    object: Seq<char>,
)
    ensures
        constraints_of(constraints, intent) == constraints.filter(
            |c: (Seq<char>, ConstraintView)| c.1.source_intent == intent,
        ),
        bindings_of(bindings, object) == bindings.filter(|b: BindingView| b.bound_object == object),
    decreases constraints.len() + bindings.len(),
{
    reveal(Seq::filter);
    if constraints.len() > 0 {
        lemma_children_are_filters(constraints.drop_last(), intent, bindings, object);
        let f = |c: (Seq<char>, ConstraintView)| c.1.source_intent == intent;
        let p = constraints.drop_last().filter(f);
        assert(p + seq![constraints.last()] == p.push(constraints.last()));
        assert(p + Seq::<(Seq<char>, ConstraintView)>::empty() == p);
    }
    if bindings.len() > 0 {
        lemma_children_are_filters(constraints, intent, bindings.drop_last(), object);
        let g = |b: BindingView| b.bound_object == object;
        let q = bindings.drop_last().filter(g);
        assert(q + seq![bindings.last()] == q.push(bindings.last()));
        assert(q + Seq::<BindingView>::empty() == q);
    }
}

} // verus!
