//! The impact view: which constraints bind a file, a directory or a commit,
//! the intents they serve, and the decisions recorded for those intents.

use crate::model::{
    opt_text, texts, BindingView, CodeBinding, Constraint, ConstraintView, DecisionRecord, DecisionView,
    Intent, IntentView, ObjectId,
};
use crate::coverage::plural;
use crate::render::{colored_severity, severity_tag, short_id, status_bullet};
use crate::text::{line_items, split_char, split_on, strip_cr_exec, lemma_split_nonempty, decimal, push_decimal, push_repeated, repeat_seq, str_eq, trim_end_matches, trim_suffix_all};
use crate::timeline::quoted;
use crate::model::ConstraintStatus;
use vstd::utf8::encode_utf8;
use vstd::string::*;
use vstd::prelude::*;

verus! {

/// A constraint found for the target, with how it was found.
pub struct ConstraintHit {
    pub id: ObjectId,
    pub constraint: Constraint,
    pub symbol: Option<String>,
    pub binding_type: String,
}

#[verifier::ext_equal]
pub struct HitView {
    pub id: Seq<char>,
    pub constraint: ConstraintView,
    pub symbol: Option<Seq<char>>,
    pub binding_type: Seq<char>,
}

impl View for ConstraintHit {
    type V = HitView;

    open spec fn view(&self) -> HitView {
        HitView {
            id: self.id@,
            constraint: self.constraint@,
            symbol: opt_text(self.symbol),
            binding_type: self.binding_type@,
        }
    }
}

impl Clone for ConstraintHit {
    fn clone(&self) -> (res: Self)
        ensures
            res@ == self@,
    {
        ConstraintHit {
            id: self.id.clone(),
            constraint: self.constraint.clone(),
            symbol: match &self.symbol {
                Some(s) => Some(s.clone()),
                None => None,
            },
            binding_type: self.binding_type.clone(),
        }
    }
}

/// What the repository holds for one path-index entry of a file: the
/// entry's binding type, the code binding its id names (when the id parses
/// and names a code binding), and the constraint that binding is bound to
/// (when the bound object is a constraint).
pub struct IndexHit {
    pub binding_type: Option<String>,
    pub binding: Option<CodeBinding>,
    pub constraint: Option<Constraint>,
}

#[verifier::ext_equal]
pub struct IndexHitView {
    pub binding_type: Option<Seq<char>>,
    pub binding: Option<BindingView>,
    pub constraint: Option<ConstraintView>,
}

impl View for IndexHit {
    type V = IndexHitView;

    open spec fn view(&self) -> IndexHitView {
        IndexHitView {
            binding_type: opt_text(self.binding_type),
            binding: match self.binding {
                Some(b) => Some(b@),
                None => None,
            },
            constraint: match self.constraint {
                Some(c) => Some(c@),
                None => None,
            },
        }
    }
}

/// The views of a list.
pub open spec fn hit_views(hits: Seq<ConstraintHit>) -> Seq<HitView> {
    hits.map_values(|h: ConstraintHit| h@)
}

pub open spec fn index_views(entries: Seq<IndexHit>) -> Seq<IndexHitView> {
    entries.map_values(|e: IndexHit| e@)
}

/// The texts of a list of ids.
pub open spec fn id_views(ids: Seq<ObjectId>) -> Seq<Seq<char>> {
    ids.map_values(|i: ObjectId| i@)
}

/// The objects bound by the entries' code bindings, in order.
pub open spec fn bound_ids(entries: Seq<IndexHitView>) -> Seq<Seq<char>>
    decreases entries.len(),
{
    if entries.len() == 0 {
        Seq::empty()
    } else {
        bound_ids(entries.drop_last()) + match entries.last().binding {
            Some(b) => seq![b.bound_object],
            None => Seq::empty(),
        }
    }
}

/// The constraints bound to a file: for each entry with a code binding
/// whose bound object no earlier entry's binding named, that object when it
/// is a constraint, with the binding's symbol and the entry's binding type
/// (`file` when it has none).
pub open spec fn file_hits(entries: Seq<IndexHitView>) -> Seq<HitView>
    decreases entries.len(),
{
    if entries.len() == 0 {
        Seq::empty()
    } else {
        let e = entries.last();
        file_hits(entries.drop_last()) + match e.binding {
            Some(b) => if bound_ids(entries.drop_last()).contains(b.bound_object) {
                Seq::empty()
            } else {
                match e.constraint {
                    Some(c) => seq![
                        HitView {
                            id: b.bound_object,
                            constraint: c,
                            symbol: b.symbol,
                            binding_type: match e.binding_type {
                                Some(t) => t,
                                None => "file"@,
                            },
                        },
                    ],
                    None => Seq::empty(),
                }
            },
            None => Seq::empty(),
        }
    }
}

/// Whether the entry's code binding is bound to `x`.
pub open spec fn binds(e: IndexHitView, x: Seq<char>) -> bool {
    e.binding is Some && e.binding.unwrap().bound_object == x
}

/// The hits of a file name each constraint once: no two hits share an id,
/// every hit's id is the object bound by some entry's code binding, and the
/// first entry to bind an object gives a hit for it when that object is a
/// constraint. A later entry binding the same object adds nothing.
pub proof fn lemma_file_hits_once(entries: Seq<IndexHitView>)
    ensures
        hit_ids(file_hits(entries)).no_duplicates(),
        forall|x: Seq<char>| #[trigger] hit_ids(file_hits(entries)).contains(x) ==> exists|j: int|
            0 <= j < entries.len() && #[trigger] binds(entries[j], x),
        forall|j: int|
            0 <= j < entries.len() && #[trigger] entries[j].binding is Some && entries[j].constraint is Some
                && (forall|k: int| 0 <= k < j ==> !binds(entries[k], entries[j].binding.unwrap().bound_object))
                ==> hit_ids(file_hits(entries)).contains(entries[j].binding.unwrap().bound_object),
    decreases entries.len(),
{
    if entries.len() > 0 {
        let p = entries.drop_last();
        let e = entries.last();
        lemma_file_hits_once(p);
        lemma_hits_within_bound(p);
        let hp = hit_ids(file_hits(p));
        let h = hit_ids(file_hits(entries));
        assert(file_hits(entries).subrange(0, file_hits(p).len() as int) == file_hits(p));
        assert(h.subrange(0, hp.len() as int) == hp);
        lemma_bound_ids_members(p);
        match e.binding {
            Some(b) => {
                if !bound_ids(p).contains(b.bound_object) && e.constraint is Some {
                    assert(h == hp.push(b.bound_object));
                    assert(!hp.contains(b.bound_object));
                } else {
                    assert(h == hp);
                }
            },
            None => {
                assert(h == hp);
            },
        }
        assert forall|x: Seq<char>| #[trigger] h.contains(x) implies exists|j: int|
            0 <= j < entries.len() && #[trigger] binds(entries[j], x) by {
            let k = choose|k: int| 0 <= k < h.len() && h[k] == x;
            if k < hp.len() {
                assert(hp[k] == x);
                assert(hp.contains(x));
                let j = choose|j: int| 0 <= j < p.len() && #[trigger] binds(p[j], x);
                assert(entries[j] == p[j]);
            } else {
                assert(entries[entries.len() - 1] == e);
                assert(binds(entries[entries.len() - 1], x));
            }
        }
        assert forall|j: int|
            0 <= j < entries.len() && #[trigger] entries[j].binding is Some && entries[j].constraint is Some
                && (forall|k: int| 0 <= k < j ==> !binds(entries[k], entries[j].binding.unwrap().bound_object))
                implies h.contains(entries[j].binding.unwrap().bound_object) by {
            let b = entries[j].binding.unwrap();
            if j < entries.len() - 1 {
                assert(entries[j] == p[j]);
                assert forall|k: int| 0 <= k < j implies !binds(p[k], b.bound_object) by {
                    assert(entries[k] == p[k]);
                }
                assert(hp.contains(b.bound_object));
                let k = choose|k: int| 0 <= k < hp.len() && hp[k] == b.bound_object;
                assert(h[k] == hp[k]);
            } else {
                assert(entries[j] == e);
                if bound_ids(p).contains(b.bound_object) {
                    let m = choose|m: int| 0 <= m < p.len() && #[trigger] binds(p[m], b.bound_object);
                    assert(entries[m] == p[m]);
                    assert(false);
                } else {
                    assert(h[h.len() - 1] == b.bound_object);
                }
            }
        }
    }
}

/// Each hit's id is one of the bound objects.
proof fn lemma_hits_within_bound(entries: Seq<IndexHitView>)
    ensures
        forall|x: Seq<char>| #[trigger] hit_ids(file_hits(entries)).contains(x) ==> bound_ids(entries).contains(x),
    decreases entries.len(),
{
    if entries.len() > 0 {
        let p = entries.drop_last();
        lemma_hits_within_bound(p);
        let hp = hit_ids(file_hits(p));
        let h = hit_ids(file_hits(entries));
        let bp = bound_ids(p);
        let bi = bound_ids(entries);
        assert(bi.subrange(0, bp.len() as int) == bp);
        assert(file_hits(entries).subrange(0, file_hits(p).len() as int) == file_hits(p));
        assert forall|x: Seq<char>| #[trigger] h.contains(x) implies bi.contains(x) by {
            let k = choose|k: int| 0 <= k < h.len() && h[k] == x;
            if k < hp.len() {
                assert(hp[k] == x);
                assert(hp.contains(x));
                let m = choose|m: int| 0 <= m < bp.len() && bp[m] == x;
                assert(bi[m] == bp[m]);
            } else {
                assert(bi[bi.len() - 1] == x);
            }
        }
    }
}

/// The bound objects are those of the entries that have a code binding.
proof fn lemma_bound_ids_members(entries: Seq<IndexHitView>)
    ensures
        forall|x: Seq<char>| #[trigger] bound_ids(entries).contains(x) <==> exists|j: int|
            0 <= j < entries.len() && #[trigger] binds(entries[j], x),
    decreases entries.len(),
{
    if entries.len() > 0 {
        let p = entries.drop_last();
        let e = entries.last();
        lemma_bound_ids_members(p);
        let bp = bound_ids(p);
        let bi = bound_ids(entries);
        assert(bi.subrange(0, bp.len() as int) == bp);
        assert forall|x: Seq<char>| #[trigger] bi.contains(x) <==> exists|j: int|
            0 <= j < entries.len() && #[trigger] binds(entries[j], x) by {
            if bi.contains(x) {
                let k = choose|k: int| 0 <= k < bi.len() && bi[k] == x;
                if k < bp.len() {
                    assert(bp[k] == x);
                    assert(bp.contains(x));
                    let j = choose|j: int| 0 <= j < p.len() && #[trigger] binds(p[j], x);
                    assert(entries[j] == p[j]);
                } else {
                    assert(entries[entries.len() - 1] == e);
                    assert(e.binding is Some);
                    assert(binds(entries[entries.len() - 1], x));
                }
            }
            if exists|j: int| 0 <= j < entries.len() && #[trigger] binds(entries[j], x) {
                let j = choose|j: int| 0 <= j < entries.len() && #[trigger] binds(entries[j], x);
                if j < entries.len() - 1 {
                    assert(entries[j] == p[j]);
                    assert(bp.contains(x));
                    let k = choose|k: int| 0 <= k < bp.len() && bp[k] == x;
                    assert(bi[k] == bp[k]);
                } else {
                    assert(entries[j] == e);
                    assert(bi[bi.len() - 1] == x);
                }
            }
        }
    }
}

/// Whether one of the ids is `id`.
pub fn contains_id(ids: &Vec<ObjectId>, id: &ObjectId) -> (res: bool)
    ensures
        res == id_views(ids@).contains(id@),
{
    let mut i: usize = 0;
    while i < ids.len()
        invariant
            i <= ids@.len(),
            forall|k: int| 0 <= k < i ==> ids@[k]@ != id@,
        decreases ids@.len() - i,
    {
        if ids[i].same(id) {
            assert(id_views(ids@)[i as int] == id@);
            return true;
        }
        i = i + 1;
    }
    assert forall|k: int| 0 <= k < id_views(ids@).len() implies id_views(ids@)[k] != id@ by {
        assert(id_views(ids@)[k] == ids@[k]@);
    }
    false
}

fn push_hit(out: &mut Vec<ConstraintHit>, hit: ConstraintHit)
    ensures
        hit_views(final(out)@) == hit_views(old(out)@).push(hit@),
{
    out.push(hit);
    assert(hit_views(out@) == hit_views(old(out)@).push(hit@));
}

fn push_id(out: &mut Vec<ObjectId>, id: ObjectId)
    ensures
        id_views(final(out)@) == id_views(old(out)@).push(id@),
{
    out.push(id);
    assert(id_views(out@) == id_views(old(out)@).push(id@));
}

/// The constraints bound to a file, from what the repository holds for
/// the file's index entries (see `file_hits`).
pub fn collect_file_hits(entries: &Vec<IndexHit>) -> (res: Vec<ConstraintHit>)
    ensures
        hit_views(res@) == file_hits(index_views(entries@)),
{
    let ghost ev = index_views(entries@);
    let mut hits: Vec<ConstraintHit> = Vec::new();
    let mut seen: Vec<ObjectId> = Vec::new();
    let mut i: usize = 0;
    assert(ev.take(0) == Seq::<IndexHitView>::empty());
    assert(hit_views(hits@) == Seq::<HitView>::empty());
    assert(id_views(seen@) == Seq::<Seq<char>>::empty());
    while i < entries.len()
        invariant
            i <= entries@.len(),
            ev == index_views(entries@),
            hit_views(hits@) == file_hits(ev.take(i as int)),
            id_views(seen@) == bound_ids(ev.take(i as int)),
        decreases entries@.len() - i,
    {
        let e = &entries[i];
        proof {
            assert(ev.take(i + 1).drop_last() == ev.take(i as int));
            assert(ev.take(i + 1).last() == ev[i as int]);
            assert(ev[i as int] == e@);
        }
        match &e.binding {
            Some(cb) => {
                let bound = &cb.bound_object;
                if !contains_id(&seen, bound) {
                    match &e.constraint {
                        Some(c) => {
                            let binding_type = match &e.binding_type {
                                Some(t) => t.clone(),
                                None => String::from_str("file"),
                            };
                            let symbol = match &cb.symbol {
                                Some(s) => Some(s.clone()),
                                None => None,
                            };
                            push_hit(
                                &mut hits,
                                ConstraintHit { id: bound.clone(), constraint: c.clone(), symbol, binding_type },
                            );
                        },
                        None => {},
                    }
                }
                push_id(&mut seen, bound.clone());
            },
            None => {},
        }
        i = i + 1;
    }
    assert(ev.take(entries@.len() as int) == ev);
    hits
}

/// The ids of hits.
pub open spec fn hit_ids(hits: Seq<HitView>) -> Seq<Seq<char>> {
    hits.map_values(|h: HitView| h.id)
}

/// The hits whose id no earlier hit has, in order.
pub open spec fn first_hits(hits: Seq<HitView>) -> Seq<HitView>
    decreases hits.len(),
{
    if hits.len() == 0 {
        Seq::empty()
    } else {
        first_hits(hits.drop_last()) + (if hit_ids(hits.drop_last()).contains(hits.last().id) {
            Seq::empty()
        } else {
            seq![hits.last()]
        })
    }
}

/// The hits of every file, one file after another.
pub open spec fn concat_hits(groups: Seq<Seq<HitView>>) -> Seq<HitView>
    decreases groups.len(),
{
    if groups.len() == 0 {
        Seq::empty()
    } else {
        concat_hits(groups.drop_last()) + groups.last()
    }
}

/// The views of the hits of each file.
pub open spec fn group_views(groups: Seq<Vec<ConstraintHit>>) -> Seq<Seq<HitView>> {
    groups.map_values(|g: Vec<ConstraintHit>| hit_views(g@))
}

/// The hits of a directory: the hits of its files, one file after another,
/// each constraint once (where it is first found).
pub fn merge_hits(groups: &Vec<Vec<ConstraintHit>>) -> (res: Vec<ConstraintHit>)
    ensures
        hit_views(res@) == first_hits(concat_hits(group_views(groups@))),
{
    let ghost gv = group_views(groups@);
    let mut flat: Vec<ConstraintHit> = Vec::new();
    let mut g: usize = 0;
    assert(gv.take(0) == Seq::<Seq<HitView>>::empty());
    assert(hit_views(flat@) == Seq::<HitView>::empty());
    while g < groups.len()
        invariant
            g <= groups@.len(),
            gv == group_views(groups@),
            hit_views(flat@) == concat_hits(gv.take(g as int)),
        decreases groups@.len() - g,
    {
        let group = &groups[g];
        let ghost base = hit_views(flat@);
        assert(gv[g as int] == hit_views(group@));
        let mut j: usize = 0;
        assert(hit_views(group@).take(0) == Seq::<HitView>::empty());
        while j < group.len()
            invariant
                j <= group@.len(),
                hit_views(flat@) == base + hit_views(group@).take(j as int),
            decreases group@.len() - j,
        {
            assert(hit_views(group@).take(j + 1) == hit_views(group@).take(j as int).push(group@[j as int]@));
            push_hit(&mut flat, group[j].clone());
            j = j + 1;
        }
        assert(hit_views(group@).take(group@.len() as int) == hit_views(group@));
        assert(gv.take(g + 1).drop_last() == gv.take(g as int));
        assert(gv.take(g + 1).last() == gv[g as int]);
        g = g + 1;
    }
    assert(gv.take(groups@.len() as int) == gv);
    let ghost fv = hit_views(flat@);
    let mut res: Vec<ConstraintHit> = Vec::new();
    let mut seen: Vec<ObjectId> = Vec::new();
    let mut i: usize = 0;
    assert(fv.take(0) == Seq::<HitView>::empty());
    assert(hit_views(res@) == Seq::<HitView>::empty());
    assert(id_views(seen@) == Seq::<Seq<char>>::empty());
    while i < flat.len()
        invariant
            i <= flat@.len(),
            fv == hit_views(flat@),
            hit_views(res@) == first_hits(fv.take(i as int)),
            id_views(seen@) == hit_ids(fv.take(i as int)),
        decreases flat@.len() - i,
    {
        let h = &flat[i];
        proof {
            assert(fv.take(i + 1).drop_last() == fv.take(i as int));
            assert(fv.take(i + 1).last() == fv[i as int]);
            assert(fv[i as int] == h@);
            assert(hit_ids(fv.take(i + 1)) == hit_ids(fv.take(i as int)).push(h.id@));
        }
        if !contains_id(&seen, &h.id) {
            push_hit(&mut res, h.clone());
        } else {
            assert(hit_views(res@) + Seq::<HitView>::empty() == hit_views(res@));
        }
        push_id(&mut seen, h.id.clone());
        i = i + 1;
    }
    assert(fv.take(flat@.len() as int) == fv);
    res
}

/// The ids in order, each once (where it first occurs).
pub open spec fn unique_ids(ids: Seq<Seq<char>>) -> Seq<Seq<char>>
    decreases ids.len(),
{
    if ids.len() == 0 {
        Seq::empty()
    } else {
        unique_ids(ids.drop_last()) + (if ids.drop_last().contains(ids.last()) {
            Seq::empty()
        } else {
            seq![ids.last()]
        })
    }
}

/// The intents the hits' constraints were recorded against.
pub open spec fn source_intents(hits: Seq<HitView>) -> Seq<Seq<char>> {
    hits.map_values(|h: HitView| h.constraint.source_intent)
}

/// The intents to read for the hits: their constraints' source intents, in
/// order, each once.
pub fn intent_ids(hits: &Vec<ConstraintHit>) -> (res: Vec<ObjectId>)
    ensures
        id_views(res@) == unique_ids(source_intents(hit_views(hits@))),
{
    let ghost sv = source_intents(hit_views(hits@));
    let mut res: Vec<ObjectId> = Vec::new();
    let mut seen: Vec<ObjectId> = Vec::new();
    let mut i: usize = 0;
    assert(sv.take(0) == Seq::<Seq<char>>::empty());
    assert(id_views(res@) == Seq::<Seq<char>>::empty());
    assert(id_views(seen@) == Seq::<Seq<char>>::empty());
    while i < hits.len()
        invariant
            i <= hits@.len(),
            sv == source_intents(hit_views(hits@)),
            id_views(res@) == unique_ids(sv.take(i as int)),
            id_views(seen@) == sv.take(i as int),
        decreases hits@.len() - i,
    {
        let id = &hits[i].constraint.source_intent;
        proof {
            assert(sv.take(i + 1).drop_last() == sv.take(i as int));
            assert(sv.take(i + 1).last() == sv[i as int]);
            assert(sv[i as int] == id@);
        }
        if !contains_id(&seen, id) {
            push_id(&mut res, id.clone());
        } else {
            assert(id_views(res@) + Seq::<Seq<char>>::empty() == id_views(res@));
        }
        push_id(&mut seen, id.clone());
        i = i + 1;
    }
    assert(sv.take(hits@.len() as int) == sv);
    res
}

/// The label of a directory target: the path without trailing slashes, a
/// slash, and how many files were listed.
pub open spec fn directory_label_text(dir: Seq<char>, files: nat) -> Seq<char> {
    trim_suffix_all(dir, "/"@) + "/ ("@ + decimal(files) + " files)"@
}

/// The label of a directory target.
pub fn directory_label(dir: &str, files: usize) -> (res: String)
    ensures
        res@ == directory_label_text(dir@, files as nat),
{
    let mut label = trim_end_matches(dir, "/");
    label.append("/ (");
    push_decimal(&mut label, files as u64);
    label.append(" files)");
    label
}

/// The label of a commit target.
pub fn commit_label(sha: &str) -> (res: String)
    ensures
        res@ == "commit "@ + sha@,
{
    String::from_str("commit ").concat(sha)
}

/// An object a changeset names, with what reading it gave when it is of
/// the kind the changeset lists it under.
pub enum CommitObject {
    Constraint(ObjectId, Option<Constraint>),
    Intent(ObjectId, Option<Intent>),
    Decision(ObjectId, Option<DecisionRecord>),
}

pub enum CommitObjectView {
    Constraint(Seq<char>, Option<ConstraintView>),
    Intent(Seq<char>, Option<IntentView>),
    Decision(Seq<char>, Option<DecisionView>),
}

impl View for CommitObject {
    type V = CommitObjectView;

    open spec fn view(&self) -> CommitObjectView {
        match self {
            CommitObject::Constraint(id, c) => CommitObjectView::Constraint(
                id@,
                match c {
                    Some(c) => Some(c@),
                    None => None,
                },
            ),
            CommitObject::Intent(id, i) => CommitObjectView::Intent(
                id@,
                match i {
                    Some(i) => Some(i@),
                    None => None,
                },
            ),
            CommitObject::Decision(id, d) => CommitObjectView::Decision(
                id@,
                match d {
                    Some(d) => Some(d@),
                    None => None,
                },
            ),
        }
    }
}

/// What one changeset names: its constraints, intents and decisions.
pub struct ChangesetObjects {
    pub constraints: Vec<(ObjectId, Option<Constraint>)>,
    pub intents: Vec<(ObjectId, Option<Intent>)>,
    pub decisions: Vec<(ObjectId, Option<DecisionRecord>)>,
}

/// The objects of a changeset in the order they are visited: constraints,
/// then intents, then decisions.
pub open spec fn changeset_objects(c: ChangesetObjects) -> Seq<CommitObjectView> {
    c.constraints@.map_values(
        |x: (ObjectId, Option<Constraint>)|
            CommitObjectView::Constraint(
                x.0@,
                match x.1 {
                    Some(c) => Some(c@),
                    None => None,
                },
            ),
    ) + c.intents@.map_values(
        |x: (ObjectId, Option<Intent>)|
            CommitObjectView::Intent(
                x.0@,
                match x.1 {
                    Some(i) => Some(i@),
                    None => None,
                },
            ),
    ) + c.decisions@.map_values(
        |x: (ObjectId, Option<DecisionRecord>)|
            CommitObjectView::Decision(
                x.0@,
                match x.1 {
                    Some(d) => Some(d@),
                    None => None,
                },
            ),
    )
}

/// The objects of all changesets, one changeset after another.
pub open spec fn commit_objects(cs: Seq<ChangesetObjects>) -> Seq<CommitObjectView>
    decreases cs.len(),
{
    if cs.len() == 0 {
        Seq::empty()
    } else {
        commit_objects(cs.drop_last()) + changeset_objects(cs.last())
    }
}

/// The id of a named object.
pub open spec fn object_id(o: CommitObjectView) -> Seq<char> {
    match o {
        CommitObjectView::Constraint(id, _) => id,
        CommitObjectView::Intent(id, _) => id,
        CommitObjectView::Decision(id, _) => id,
    }
}

pub open spec fn object_ids(os: Seq<CommitObjectView>) -> Seq<Seq<char>> {
    os.map_values(|o: CommitObjectView| object_id(o))
}

/// Whether no earlier object has the same id (ids are shared across kinds).
pub open spec fn is_first(os: Seq<CommitObjectView>, k: int) -> bool {
    !object_ids(os.take(k)).contains(object_id(os[k]))
}

/// The constraints of a commit: each named constraint seen first and read
/// as a constraint, found by its changeset.
pub open spec fn commit_hits(os: Seq<CommitObjectView>) -> Seq<HitView>
    decreases os.len(),
{
    if os.len() == 0 {
        Seq::empty()
    } else {
        commit_hits(os.drop_last()) + (if !is_first(os, os.len() - 1) {
            Seq::empty()
        } else {
            match os.last() {
                CommitObjectView::Constraint(id, Some(c)) => seq![
                    HitView { id, constraint: c, symbol: None, binding_type: "changeset"@ },
                ],
                _ => Seq::empty(),
            }
        })
    }
}

/// The intents of a commit: each named intent seen first and read as an intent.
pub open spec fn commit_intents(os: Seq<CommitObjectView>) -> Seq<(Seq<char>, IntentView)>
    decreases os.len(),
{
    if os.len() == 0 {
        Seq::empty()
    } else {
        commit_intents(os.drop_last()) + (if !is_first(os, os.len() - 1) {
            Seq::empty()
        } else {
            match os.last() {
                CommitObjectView::Intent(id, Some(i)) => seq![(id, i)],
                _ => Seq::empty(),
            }
        })
    }
}

/// The decisions of a commit: each named decision seen first and read as one.
pub open spec fn commit_decisions(os: Seq<CommitObjectView>) -> Seq<(Seq<char>, DecisionView)>
    decreases os.len(),
{
    if os.len() == 0 {
        Seq::empty()
    } else {
        commit_decisions(os.drop_last()) + (if !is_first(os, os.len() - 1) {
            Seq::empty()
        } else {
            match os.last() {
                CommitObjectView::Decision(id, Some(d)) => seq![(id, d)],
                _ => Seq::empty(),
            }
        })
    }
}

/// The views of `(id, intent)` pairs.
pub open spec fn intent_views(v: Seq<(ObjectId, Intent)>) -> Seq<(Seq<char>, IntentView)> {
    v.map_values(|x: (ObjectId, Intent)| (x.0@, x.1@))
}

/// The views of `(id, decision)` pairs.
pub open spec fn decision_views(v: Seq<(ObjectId, DecisionRecord)>) -> Seq<(Seq<char>, DecisionView)> {
    v.map_values(|x: (ObjectId, DecisionRecord)| (x.0@, x.1@))
}

/// What a commit's changesets bring to the impact view.
pub struct CommitSelection {
    pub hits: Vec<ConstraintHit>,
    pub intents: Vec<(ObjectId, Intent)>,
    pub decisions: Vec<(ObjectId, DecisionRecord)>,
}

fn object_of_constraint(x: &(ObjectId, Option<Constraint>)) -> (res: CommitObject)
    ensures
        res@ == CommitObjectView::Constraint(x.0@, match x.1 { Some(c) => Some(c@), None => None }),
{
    CommitObject::Constraint(x.0.clone(), match &x.1 {
        Some(c) => Some(c.clone()),
        None => None,
    })
}

fn object_of_intent(x: &(ObjectId, Option<Intent>)) -> (res: CommitObject)
    ensures
        res@ == CommitObjectView::Intent(x.0@, match x.1 { Some(i) => Some(i@), None => None }),
{
    CommitObject::Intent(x.0.clone(), match &x.1 {
        Some(i) => Some(i.clone()),
        None => None,
    })
}

fn object_of_decision(x: &(ObjectId, Option<DecisionRecord>)) -> (res: CommitObject)
    ensures
        res@ == CommitObjectView::Decision(x.0@, match x.1 { Some(d) => Some(d@), None => None }),
{
    CommitObject::Decision(x.0.clone(), match &x.1 {
        Some(d) => Some(d.clone()),
        None => None,
    })
}

pub open spec fn object_views(os: Seq<CommitObject>) -> Seq<CommitObjectView> {
    os.map_values(|o: CommitObject| o@)
}

fn push_object(out: &mut Vec<CommitObject>, o: CommitObject)
    ensures
        object_views(final(out)@) == object_views(old(out)@).push(o@),
{
    out.push(o);
    assert(object_views(out@) == object_views(old(out)@).push(o@));
}

/// The objects of all changesets in visiting order.
pub fn flatten_changesets(changesets: &Vec<ChangesetObjects>) -> (res: Vec<CommitObject>)
    ensures
        object_views(res@) == commit_objects(changesets@),
{
    let mut out: Vec<CommitObject> = Vec::new();
    let mut g: usize = 0;
    assert(changesets@.take(0) == Seq::<ChangesetObjects>::empty());
    assert(object_views(out@) == Seq::<CommitObjectView>::empty());
    while g < changesets.len()
        invariant
            g <= changesets@.len(),
            object_views(out@) == commit_objects(changesets@.take(g as int)),
        decreases changesets@.len() - g,
    {
        let c = &changesets[g];
        let ghost base = object_views(out@);
        let ghost cv = changeset_objects(*c);
        let ghost n1 = c.constraints@.len();
        let ghost n2 = c.intents@.len();
        let mut j: usize = 0;
        while j < c.constraints.len()
            invariant
                j <= c.constraints@.len(),
                cv == changeset_objects(*c),
                n1 == c.constraints@.len(),
                object_views(out@) == base + cv.take(j as int),
            decreases c.constraints@.len() - j,
        {
            let o = object_of_constraint(&c.constraints[j]);
            assert(cv.take(j + 1) == cv.take(j as int).push(cv[j as int]));
            push_object(&mut out, o);
            j = j + 1;
        }
        let mut j: usize = 0;
        while j < c.intents.len()
            invariant
                j <= c.intents@.len(),
                cv == changeset_objects(*c),
                n1 == c.constraints@.len(),
                n2 == c.intents@.len(),
                object_views(out@) == base + cv.take(n1 + j),
            decreases c.intents@.len() - j,
        {
            let o = object_of_intent(&c.intents[j]);
            assert(cv.take(n1 + j + 1) == cv.take(n1 + j).push(cv[n1 + j]));
            push_object(&mut out, o);
            j = j + 1;
        }
        let mut j: usize = 0;
        while j < c.decisions.len()
            invariant
                j <= c.decisions@.len(),
                cv == changeset_objects(*c),
                n1 == c.constraints@.len(),
                n2 == c.intents@.len(),
                object_views(out@) == base + cv.take(n1 + n2 + j),
            decreases c.decisions@.len() - j,
        {
            let o = object_of_decision(&c.decisions[j]);
            assert(cv.take(n1 + n2 + j + 1) == cv.take(n1 + n2 + j).push(cv[n1 + n2 + j]));
            push_object(&mut out, o);
            j = j + 1;
        }
        assert(cv.take((n1 + n2 + c.decisions@.len()) as int) == cv);
        assert(changesets@.take(g + 1).drop_last() == changesets@.take(g as int));
        assert(changesets@.take(g + 1).last() == changesets@[g as int]);
        g = g + 1;
    }
    assert(changesets@.take(changesets@.len() as int) == changesets@);
    out
}

fn object_id_of(o: &CommitObject) -> (res: &ObjectId)
    ensures
        res@ == object_id(o@),
{
    match o {
        CommitObject::Constraint(id, _) => id,
        CommitObject::Intent(id, _) => id,
        CommitObject::Decision(id, _) => id,
    }
}

/// The constraints, intents and decisions of a commit's changesets, each
/// object once (ids are shared across kinds), as described at
/// `commit_hits`, `commit_intents` and `commit_decisions`.
pub fn select_commit(changesets: &Vec<ChangesetObjects>) -> (res: CommitSelection)
    ensures
        hit_views(res.hits@) == commit_hits(commit_objects(changesets@)),
        intent_views(res.intents@) == commit_intents(commit_objects(changesets@)),
        decision_views(res.decisions@) == commit_decisions(commit_objects(changesets@)),
{
    let objects = flatten_changesets(changesets);
    let ghost os = object_views(objects@);
    let mut hits: Vec<ConstraintHit> = Vec::new();
    let mut intents: Vec<(ObjectId, Intent)> = Vec::new();
    let mut decisions: Vec<(ObjectId, DecisionRecord)> = Vec::new();
    let mut seen: Vec<ObjectId> = Vec::new();
    let mut i: usize = 0;
    assert(os.take(0) == Seq::<CommitObjectView>::empty());
    assert(hit_views(hits@) == Seq::<HitView>::empty());
    assert(intent_views(intents@) == Seq::<(Seq<char>, IntentView)>::empty());
    assert(decision_views(decisions@) == Seq::<(Seq<char>, DecisionView)>::empty());
    assert(id_views(seen@) == Seq::<Seq<char>>::empty());
    while i < objects.len()
        invariant
            i <= objects@.len(),
            os == object_views(objects@),
            hit_views(hits@) == commit_hits(os.take(i as int)),
            intent_views(intents@) == commit_intents(os.take(i as int)),
            decision_views(decisions@) == commit_decisions(os.take(i as int)),
            id_views(seen@) == object_ids(os.take(i as int)),
        decreases objects@.len() - i,
    {
        let o = &objects[i];
        let id = object_id_of(o);
        let ghost t = os.take(i + 1);
        proof {
            assert(t.drop_last() == os.take(i as int));
            assert(t.last() == os[i as int]);
            assert(os[i as int] == o@);
            assert(t.take(t.len() - 1) == os.take(i as int));
            assert(object_ids(t) == object_ids(os.take(i as int)).push(id@));
        }
        let first = !contains_id(&seen, id);
        if first {
            match o {
                CommitObject::Constraint(cid, Some(c)) => {
                    push_hit(
                        &mut hits,
                        ConstraintHit {
                            id: cid.clone(),
                            constraint: c.clone(),
                            symbol: None,
                            binding_type: String::from_str("changeset"),
                        },
                    );
                    assert(intent_views(intents@) == intent_views(intents@) + Seq::<(Seq<char>, IntentView)>::empty());
                    assert(decision_views(decisions@) == decision_views(decisions@) + Seq::<(Seq<char>, DecisionView)>::empty());
                },
                CommitObject::Intent(iid, Some(intent)) => {
                    let ghost before = intent_views(intents@);
                    intents.push((iid.clone(), intent.clone()));
                    assert(intent_views(intents@) == before.push((iid@, intent@)));
                    assert(hit_views(hits@) == hit_views(hits@) + Seq::<HitView>::empty());
                    assert(decision_views(decisions@) == decision_views(decisions@) + Seq::<(Seq<char>, DecisionView)>::empty());
                },
                CommitObject::Decision(did, Some(d)) => {
                    let ghost before = decision_views(decisions@);
                    decisions.push((did.clone(), d.clone()));
                    assert(decision_views(decisions@) == before.push((did@, d@)));
                    assert(hit_views(hits@) == hit_views(hits@) + Seq::<HitView>::empty());
                    assert(intent_views(intents@) == intent_views(intents@) + Seq::<(Seq<char>, IntentView)>::empty());
                },
                _ => {
                    assert(hit_views(hits@) == hit_views(hits@) + Seq::<HitView>::empty());
                    assert(intent_views(intents@) == intent_views(intents@) + Seq::<(Seq<char>, IntentView)>::empty());
                    assert(decision_views(decisions@) == decision_views(decisions@) + Seq::<(Seq<char>, DecisionView)>::empty());
                },
            }
        } else {
            assert(hit_views(hits@) == hit_views(hits@) + Seq::<HitView>::empty());
            assert(intent_views(intents@) == intent_views(intents@) + Seq::<(Seq<char>, IntentView)>::empty());
            assert(decision_views(decisions@) == decision_views(decisions@) + Seq::<(Seq<char>, DecisionView)>::empty());
        }
        push_id(&mut seen, id.clone());
        i = i + 1;
    }
    assert(os.take(objects@.len() as int) == os);
    CommitSelection { hits, intents, decisions }
}

/// What a constraint is bound to: the symbol, with `()` for a function, or
/// the whole file.
pub open spec fn bound_to(h: HitView) -> Seq<char> {
    match h.symbol {
        Some(sym) => if h.binding_type == "function"@ { sym + "()"@ } else { sym },
        None => "file"@,
    }
}

/// The status bullet: filled for an active constraint, hollow otherwise.
pub open spec fn bullet(status: ConstraintStatus) -> Seq<char> {
    if status == ConstraintStatus::Active { "●"@ } else { "○"@ }
}

/// The two lines of a constraint.
pub open spec fn hit_lines(h: HitView) -> Seq<Seq<char>> {
    seq![
        "  "@ + severity_tag(h.constraint.severity) + " "@ + bullet(h.constraint.status) + " "@ + quoted(
            h.constraint.statement,
        ),
        "             constraint "@ + h.id.take(7) + " · bound to "@ + bound_to(h),
    ]
}

/// The lines of the first `k` constraints.
pub open spec fn hits_block(hits: Seq<HitView>, k: nat) -> Seq<Seq<char>>
    decreases k,
{
    if k == 0 || k > hits.len() {
        Seq::empty()
    } else {
        hits_block(hits, (k - 1) as nat) + hit_lines(hits[k - 1])
    }
}

/// How many of the decisions belong to the intent.
pub open spec fn decisions_for(decisions: Seq<(Seq<char>, DecisionView)>, intent: Seq<char>) -> nat
    decreases decisions.len(),
{
    if decisions.len() == 0 {
        0
    } else {
        decisions_for(decisions.drop_last(), intent) + (if decisions.last().1.intent_id == intent {
            1nat
        } else {
            0nat
        })
    }
}

/// The lines of an intent: its statement, and how many decisions it has
/// when it has any.
pub open spec fn intent_lines(item: (Seq<char>, IntentView), decisions: Seq<(Seq<char>, DecisionView)>) -> Seq<Seq<char>> {
    let n = decisions_for(decisions, item.0);
    seq!["  intent "@ + item.0.take(7) + " "@ + quoted(item.1.statement)] + (if n > 0 {
        seq!["  └─ "@ + decimal(n) + " decision"@ + plural(n) + " recorded"@]
    } else {
        Seq::empty()
    })
}

/// The lines of the first `k` intents.
pub open spec fn intents_block(intents: Seq<(Seq<char>, IntentView)>, decisions: Seq<(Seq<char>, DecisionView)>, k: nat) -> Seq<Seq<char>>
    decreases k,
{
    if k == 0 || k > intents.len() {
        Seq::empty()
    } else {
        intents_block(intents, decisions, (k - 1) as nat) + intent_lines(intents[k - 1], decisions)
    }
}

/// One line per decision.
pub open spec fn decisions_block(decisions: Seq<(Seq<char>, DecisionView)>) -> Seq<Seq<char>> {
    Seq::new(decisions.len(), |k: int| "  decision "@ + decisions[k].0.take(7) + " "@ + quoted(decisions[k].1.decision))
}

/// A section heading with its item count.
pub open spec fn heading(title: Seq<char>, n: nat) -> Seq<char> {
    title + " ("@ + decimal(n) + "):"@
}

/// The text of the impact view.
pub open spec fn impact_text(
    target: Seq<char>,
    hits: Seq<HitView>,
    intents: Seq<(Seq<char>, IntentView)>,
    decisions: Seq<(Seq<char>, DecisionView)>,
) -> Seq<Seq<char>> {
    let head = seq![
        "Impact: "@ + target,
        repeat_seq("─"@, encode_utf8(target).len() + 8),
        Seq::empty(),
    ];
    if hits.len() == 0 && intents.len() == 0 && decisions.len() == 0 {
        head + seq!["  No constraints or bindings found."@]
    } else {
        head + (if hits.len() > 0 {
            seq![heading("Constraints"@, hits.len())] + hits_block(hits, hits.len()) + seq![Seq::empty()]
        } else {
            Seq::empty()
        }) + (if intents.len() > 0 {
            seq![heading("Intents"@, intents.len())] + intents_block(intents, decisions, intents.len()) + seq![
                Seq::empty(),
            ]
        } else {
            Seq::empty()
        }) + (if decisions.len() > 0 {
            seq![heading("Decisions"@, decisions.len())] + decisions_block(decisions)
        } else {
            Seq::empty()
        })
    }
}

fn push_line(out: &mut Vec<String>, line: String)
    ensures
        texts(final(out)@) == texts(old(out)@).push(line@),
{
    out.push(line);
    assert(texts(out@) == texts(old(out)@).push(line@));
}

fn heading_exec(title: &str, n: usize) -> (res: String)
    ensures
        res@ == heading(title@, n as nat),
{
    let mut line = String::from_str(title);
    line.append(" (");
    push_decimal(&mut line, n as u64);
    line.append("):");
    line
}

fn count_decisions_for(decisions: &Vec<(ObjectId, DecisionRecord)>, intent: &ObjectId) -> (res: usize)
    ensures
        res == decisions_for(decision_views(decisions@), intent@),
{
    let ghost dv = decision_views(decisions@);
    let mut n: usize = 0;
    let mut i: usize = 0;
    assert(dv.take(0) == Seq::<(Seq<char>, DecisionView)>::empty());
    while i < decisions.len()
        invariant
            i <= decisions@.len(),
            dv == decision_views(decisions@),
            n == decisions_for(dv.take(i as int), intent@),
            n <= i,
        decreases decisions@.len() - i,
    {
        proof {
            assert(dv.take(i + 1).drop_last() == dv.take(i as int));
            assert(dv.take(i + 1).last() == dv[i as int]);
            assert(dv[i as int].1 == decisions@[i as int].1@);
        }
        if decisions[i].1.intent_id.same(intent) {
            n = n + 1;
        }
        i = i + 1;
    }
    assert(dv.take(decisions@.len() as int) == dv);
    n
}

/// The impact view as lines of text.
pub fn impact_lines(
    target: &str,
    hits: &Vec<ConstraintHit>,
    intents: &Vec<(ObjectId, Intent)>,
    decisions: &Vec<(ObjectId, DecisionRecord)>,
) -> (res: Vec<String>)
    requires
        target.spec_bytes().len() + 8 <= usize::MAX,
    ensures
        texts(res@) == impact_text(target@, hit_views(hits@), intent_views(intents@), decision_views(decisions@)),
{
    let ghost hv = hit_views(hits@);
    let ghost iv = intent_views(intents@);
    let ghost dv = decision_views(decisions@);
    let mut out: Vec<String> = Vec::new();
    let mut line = String::from_str("Impact: ");
    line.append(target);
    push_line(&mut out, line);
    let width = target.as_bytes().len() + 8;
    let mut rule = String::new();
    push_repeated(&mut rule, "─", width);
    push_line(&mut out, rule);
    push_line(&mut out, String::new());
    proof {
        reveal_strlit("");
    }
    let ghost head = texts(out@);
    if hits.len() == 0 && intents.len() == 0 && decisions.len() == 0 {
        push_line(&mut out, String::from_str("  No constraints or bindings found."));
        return out;
    }
    if hits.len() > 0 {
        push_line(&mut out, heading_exec("Constraints", hits.len()));
        let ghost base = texts(out@);
        let mut k: usize = 0;
        while k < hits.len()
            invariant
                k <= hits@.len(),
                hv == hit_views(hits@),
                texts(out@) == base + hits_block(hv, k as nat),
            decreases hits@.len() - k,
        {
            let h = &hits[k];
            assert(hv[k as int] == h@);
            let c = &h.constraint;
            let mut l1 = String::from_str("  ");
            let sev = colored_severity(&c.severity);
            l1.append(sev.as_str());
            l1.append(" ");
            l1.append(status_bullet(&c.status));
            l1.append(" ");
            l1.append("\"");
            l1.append(c.statement.as_str());
            l1.append("\"");
            assert(l1@ =~= hit_lines(h@)[0]);
            push_line(&mut out, l1);
            let mut l2 = String::from_str("             constraint ");
            let short = short_id(&h.id);
            l2.append(short.as_str());
            l2.append(" · bound to ");
            match &h.symbol {
                Some(sym) => {
                    l2.append(sym.as_str());
                    if str_eq(h.binding_type.as_str(), "function") {
                        l2.append("()");
                    }
                },
                None => {
                    l2.append("file");
                },
            }
            assert(l2@ =~= hit_lines(h@)[1]);
            push_line(&mut out, l2);
            k = k + 1;
        }
        push_line(&mut out, String::new());
    }
    let ghost after_hits = texts(out@);
    if intents.len() > 0 {
        push_line(&mut out, heading_exec("Intents", intents.len()));
        let ghost base = texts(out@);
        let mut k: usize = 0;
        while k < intents.len()
            invariant
                k <= intents@.len(),
                iv == intent_views(intents@),
                dv == decision_views(decisions@),
                texts(out@) == base + intents_block(iv, dv, k as nat),
            decreases intents@.len() - k,
        {
            let (id, intent) = (&intents[k].0, &intents[k].1);
            assert(iv[k as int] == (id@, intent@));
            let n = count_decisions_for(decisions, id);
            let mut l1 = String::from_str("  intent ");
            let short = short_id(id);
            l1.append(short.as_str());
            l1.append(" ");
            l1.append("\"");
            l1.append(intent.statement.as_str());
            l1.append("\"");
            assert(l1@ =~= intent_lines(iv[k as int], dv)[0]);
            push_line(&mut out, l1);
            if n > 0 {
                let mut l2 = String::from_str("  └─ ");
                push_decimal(&mut l2, n as u64);
                l2.append(" decision");
                if n != 1 {
                    l2.append("s");
                }
                l2.append(" recorded");
                proof {
                    reveal_strlit("");
                }
                assert(l2@ =~= "  └─ "@ + decimal(n as nat) + " decision"@ + plural(n as nat) + " recorded"@);
                push_line(&mut out, l2);
            }
            assert(intents_block(iv, dv, (k + 1) as nat) =~= intents_block(iv, dv, k as nat) + intent_lines(iv[k as int], dv));
            k = k + 1;
        }
        push_line(&mut out, String::new());
    }
    if decisions.len() > 0 {
        push_line(&mut out, heading_exec("Decisions", decisions.len()));
        let ghost base = texts(out@);
        let ghost all = decisions_block(dv);
        let mut k: usize = 0;
        while k < decisions.len()
            invariant
                k <= decisions@.len(),
                dv == decision_views(decisions@),
                all == decisions_block(dv),
                texts(out@) == base + all.take(k as int),
            decreases decisions@.len() - k,
        {
            let (id, d) = (&decisions[k].0, &decisions[k].1);
            assert(dv[k as int] == (id@, d@));
            let mut l = String::from_str("  decision ");
            let short = short_id(id);
            l.append(short.as_str());
            l.append(" ");
            l.append("\"");
            l.append(d.decision.as_str());
            l.append("\"");
            assert(l@ =~= all[k as int]);
            assert(all.take(k + 1) == all.take(k as int).push(all[k as int]));
            push_line(&mut out, l);
            k = k + 1;
        }
        assert(all.take(decisions@.len() as int) == all);
    }
    proof {
        reveal_strlit("");
    }
    out
}

/// The ids, each once: no id repeats, and every id given is kept.
pub proof fn lemma_unique_ids(ids: Seq<Seq<char>>)
    ensures
        unique_ids(ids).no_duplicates(),
        forall|x: Seq<char>| #[trigger] unique_ids(ids).contains(x) <==> ids.contains(x),
    decreases ids.len(),
{
    if ids.len() > 0 {
        let p = ids.drop_last();
        lemma_unique_ids(p);
        let u = unique_ids(p);
        let r = unique_ids(ids);
        assert(r == u + (if p.contains(ids.last()) { Seq::<Seq<char>>::empty() } else { seq![ids.last()] }));
        assert forall|x: Seq<char>| #[trigger] r.contains(x) <==> ids.contains(x) by {
            if ids.contains(x) {
                let k = choose|k: int| 0 <= k < ids.len() && ids[k] == x;
                if k < ids.len() - 1 {
                    assert(p[k] == x);
                    assert(u.contains(x));
                    let m = choose|m: int| 0 <= m < u.len() && u[m] == x;
                    assert(r[m] == x);
                } else if !p.contains(x) {
                    assert(r[r.len() - 1] == x);
                } else {
                    assert(u.contains(x));
                    let m = choose|m: int| 0 <= m < u.len() && u[m] == x;
                    assert(r[m] == x);
                }
            }
            if r.contains(x) {
                let m = choose|m: int| 0 <= m < r.len() && r[m] == x;
                if m < u.len() {
                    assert(u[m] == x);
                    assert(u.contains(x));
                    assert(p.contains(x));
                    let k = choose|k: int| 0 <= k < p.len() && p[k] == x;
                    assert(ids[k] == x);
                } else {
                    assert(ids[ids.len() - 1] == x);
                }
            }
        }
        assert forall|a: int, b: int| 0 <= a < r.len() && 0 <= b < r.len() && a != b implies r[a] != r[b] by {
            if a < u.len() && b < u.len() {
                assert(r[a] == u[a] && r[b] == u[b]);
            } else if a < u.len() {
                assert(r[a] == u[a]);
                assert(u.contains(u[a]));
            } else {
                assert(r[b] == u[b]);
                assert(u.contains(u[b]));
            }
        }
    }
}

/// Each constraint is listed once: no two kept hits share an id, and every
/// id found is kept.
pub proof fn lemma_first_hits_distinct(hits: Seq<HitView>)
    ensures
        hit_ids(first_hits(hits)) == unique_ids(hit_ids(hits)),
    decreases hits.len(),
{
    if hits.len() > 0 {
        lemma_first_hits_distinct(hits.drop_last());
        assert(hit_ids(hits).drop_last() == hit_ids(hits.drop_last()));
        assert(hit_ids(hits).last() == hits.last().id);
        let f = first_hits(hits.drop_last());
        if !hit_ids(hits.drop_last()).contains(hits.last().id) {
            assert(hit_ids(f + seq![hits.last()]) == hit_ids(f).push(hits.last().id));
        } else {
            assert(f + Seq::<HitView>::empty() == f);
        }
    }
}

/// The non-empty lines, in order.
pub open spec fn nonempty_lines(lines: Seq<Seq<char>>) -> Seq<Seq<char>>
    decreases lines.len(),
{
    if lines.len() == 0 {
        Seq::empty()
    } else {
        nonempty_lines(lines.drop_last()) + (if lines.last().len() > 0 {
            seq![lines.last()]
        } else {
            Seq::empty()
        })
    }
}

/// The files of a `git ls-files` listing: its non-empty lines.
pub fn listed_files(listing: &str) -> (res: Vec<String>)
    ensures
        texts(res@) == nonempty_lines(line_items(listing@)),
{
    let pieces = split_on(listing, '\n');
    let ghost items = line_items(listing@);
    let mut res: Vec<String> = Vec::new();
    let mut i: usize = 0;
    proof {
        lemma_split_nonempty(listing@, '\n');
        assert(items.take(0) == Seq::<Seq<char>>::empty());
        assert(texts(res@) == Seq::<Seq<char>>::empty());
    }
    while i < pieces.len()
        invariant
            i <= pieces@.len(),
            pieces@.map_values(|p: String| p@) == split_char(listing@, '\n'),
            items == line_items(listing@),
            items.len() == pieces@.len(),
            texts(res@) == nonempty_lines(items.take(i as int)),
        decreases pieces@.len() - i,
    {
        let piece = pieces[i].clone();
        let line = if i + 1 < pieces.len() {
            strip_cr_exec(piece)
        } else {
            piece
        };
        proof {
            assert(pieces@.map_values(|p: String| p@)[i as int] == pieces@[i as int]@);
            assert(line@ == items[i as int]);
            assert(items.take(i + 1).drop_last() == items.take(i as int));
            assert(items.take(i + 1).last() == items[i as int]);
        }
        if line.as_str().unicode_len() > 0 {
            push_line(&mut res, line);
        } else {
            assert(texts(res@) + Seq::<Seq<char>>::empty() == texts(res@));
        }
        i = i + 1;
    }
    assert(items.take(pieces@.len() as int) == items);
    res
}

/// What the impact view says when no changeset records the commit.
pub fn no_changeset_line(sha: &str) -> (res: String)
    ensures
        res@ == "No changeset found for commit "@ + sha@,
{
    String::from_str("No changeset found for commit ").concat(sha)
}

/// The decision count shown under an intent is the number of decisions
/// recorded for that intent.
pub proof fn lemma_decisions_for_is_filter(decisions: Seq<(Seq<char>, DecisionView)>, intent: Seq<char>)
    ensures
        decisions_for(decisions, intent) == decisions.filter(
            |d: (Seq<char>, DecisionView)| d.1.intent_id == intent,
        ).len(),
    decreases decisions.len(),
{
    reveal(Seq::filter);
    if decisions.len() > 0 {
        lemma_decisions_for_is_filter(decisions.drop_last(), intent);
    }
}

/// The rule under the impact heading is as many `─` as the target has
/// bytes, plus eight.
pub proof fn lemma_impact_rule_width(
    target: Seq<char>,
    hits: Seq<HitView>,
    intents: Seq<(Seq<char>, IntentView)>,
    decisions: Seq<(Seq<char>, DecisionView)>,
)
    ensures
        impact_text(target, hits, intents, decisions)[1].len() == encode_utf8(target).len() + 8,
        forall|k: int|
            0 <= k < encode_utf8(target).len() + 8 ==> #[trigger] impact_text(target, hits, intents, decisions)[1][k]
                == '─',
{
    reveal_strlit("─");
    let n: nat = encode_utf8(target).len() + 8;
    lemma_repeat_chars(n);
    let t = impact_text(target, hits, intents, decisions);
    assert(t[1] == repeat_seq("─"@, n));
}

proof fn lemma_repeat_chars(n: nat)
    ensures
        repeat_seq("─"@, n).len() == n,
        forall|k: int| 0 <= k < n ==> #[trigger] repeat_seq("─"@, n)[k] == '─',
    decreases n,
{
    reveal_strlit("─");
    if n > 0 {
        lemma_repeat_chars((n - 1) as nat);
    }
}

} // verus!
