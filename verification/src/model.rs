//! The Telos objects that the views read: object ids, constraints with their
//! severity and status, intents, decision records and code bindings.

use crate::time::Timestamp;
use vstd::prelude::*;
use vstd::string::*;

verus! {

/// A lowercase hexadecimal digit.
pub open spec fn is_hex_digit(c: char) -> bool {
    ('0' <= c && c <= '9') || ('a' <= c && c <= 'f')
}

/// A content id written as lowercase hexadecimal, at least seven digits long
/// (the short form shows its first seven).
pub struct ObjectId {
    hex: String,
}

impl View for ObjectId {
    type V = Seq<char>;

    closed spec fn view(&self) -> Seq<char> {
        self.hex@
    }
}

/// What an object id's text must be.
pub open spec fn valid_hex_id(s: Seq<char>) -> bool {
    s.len() >= 7 && forall|i: int| 0 <= i < s.len() ==> is_hex_digit(#[trigger] s[i])
}

impl ObjectId {
    #[verifier::type_invariant]
    spec fn well_formed(self) -> bool {
        valid_hex_id(self.hex@)
    }

    /// The id written as `hex`, if it is at least seven lowercase hex digits.
    pub fn from_hex(hex: &str) -> (res: Option<ObjectId>)
        ensures
            res is Some <==> valid_hex_id(hex@),
            res matches Some(id) ==> id@ == hex@,
    {
        let n = hex.unicode_len();
        if n < 7 {
            return None;
        }
        let mut i: usize = 0;
        while i < n
            invariant
                n == hex@.len(),
                i <= n,
                forall|j: int| 0 <= j < i ==> is_hex_digit(#[trigger] hex@[j]),
            decreases n - i,
        {
            let c = hex.get_char(i);
            if !(('0' <= c && c <= '9') || ('a' <= c && c <= 'f')) {
                return None;
            }
            i = i + 1;
        }
        Some(ObjectId { hex: hex.to_string() })
    }

    /// The full hexadecimal text.
    pub fn hex(&self) -> (res: &str)
        ensures
            res@ == self@,
    {
        self.hex.as_str()
    }

    /// Whether two ids are the same.
    pub fn same(&self, other: &ObjectId) -> (res: bool)
        ensures
            res == (self@ == other@),
    {
        self.hex == other.hex
    }

    /// The first seven hex digits (the short form, like a short git hash).
    pub fn short_hex(&self) -> (res: &str)
        ensures
            res@ == self@.take(7),
    {
        proof {
            use_type_invariant(self);
        }
        let h = self.hex.as_str();
        proof {
            assert(vstd::string::is_ascii(h)) by {
                assert forall|i: int| 0 <= i < h@.len() implies '\0' <= #[trigger] h@[i] <= '\u{7f}' by {
                    assert(is_hex_digit(self.hex@[i]));
                }
            }
        }
        h.substring_ascii(0, 7)
    }
}

impl Clone for ObjectId {
    fn clone(&self) -> (res: Self)
        ensures
            res == *self,
    {
        proof {
            use_type_invariant(self);
        }
        ObjectId { hex: self.hex.clone() }
    }
}

/// How strongly a constraint binds.
#[derive(Clone, Copy, Debug, PartialEq, Eq, Structural)]
pub enum ConstraintSeverity {
    Must,
    Should,
    Prefer,
}

/// Where a constraint stands in its life.
#[derive(Clone, Copy, Debug, PartialEq, Eq, Structural)]
pub enum ConstraintStatus {
    Active,
    Superseded,
    Deprecated,
}

/// The texts of a list of strings.
pub open spec fn texts(v: Seq<String>) -> Seq<Seq<char>> {
    v.map_values(|s: String| s@)
}

/// The text of an optional string.
pub open spec fn opt_text(v: Option<String>) -> Option<Seq<char>> {
    match v {
        Some(s) => Some(s@),
        None => None,
    }
}

/// The text of an optional id.
pub open spec fn opt_id(v: Option<ObjectId>) -> Option<Seq<char>> {
    match v {
        Some(s) => Some(s@),
        None => None,
    }
}

/// Who recorded an object.
pub struct Author {
    pub name: String,
    pub email: String,
}

#[verifier::ext_equal]
pub struct AuthorView {
    pub name: Seq<char>,
    pub email: Seq<char>,
}

impl View for Author {
    type V = AuthorView;

    open spec fn view(&self) -> AuthorView {
        AuthorView { name: self.name@, email: self.email@ }
    }
}

/// A rule recorded against an intent.
pub struct Constraint {
    pub statement: String,
    pub severity: ConstraintSeverity,
    pub status: ConstraintStatus,
    pub author: Author,
    pub timestamp: Timestamp,
    pub impacts: Vec<String>,
    pub source_intent: ObjectId,
    pub superseded_by: Option<ObjectId>,
    pub deprecation_reason: Option<String>,
}

#[verifier::ext_equal]
pub struct ConstraintView {
    pub statement: Seq<char>,
    pub severity: ConstraintSeverity,
    pub status: ConstraintStatus,
    pub author: AuthorView,
    pub timestamp: Timestamp,
    pub impacts: Seq<Seq<char>>,
    pub source_intent: Seq<char>,
    pub superseded_by: Option<Seq<char>>,
    pub deprecation_reason: Option<Seq<char>>,
}

impl View for Constraint {
    type V = ConstraintView;

    open spec fn view(&self) -> ConstraintView {
        ConstraintView {
            statement: self.statement@,
            severity: self.severity,
            status: self.status,
            author: self.author@,
            timestamp: self.timestamp,
            impacts: texts(self.impacts@),
            source_intent: self.source_intent@,
            superseded_by: opt_id(self.superseded_by),
            deprecation_reason: opt_text(self.deprecation_reason),
        }
    }
}

/// A recorded goal.
pub struct Intent {
    pub statement: String,
    pub author: Author,
    pub timestamp: Timestamp,
    pub impacts: Vec<String>,
}

#[verifier::ext_equal]
pub struct IntentView {
    pub statement: Seq<char>,
    pub author: AuthorView,
    pub timestamp: Timestamp,
    pub impacts: Seq<Seq<char>>,
}

impl View for Intent {
    type V = IntentView;

    open spec fn view(&self) -> IntentView {
        IntentView {
            statement: self.statement@,
            author: self.author@,
            timestamp: self.timestamp,
            impacts: texts(self.impacts@),
        }
    }
}

/// An option that a decision rejected.
pub struct Alternative {
    pub description: String,
}

/// A question answered for an intent.
pub struct DecisionRecord {
    pub intent_id: ObjectId,
    pub question: String,
    pub decision: String,
    pub alternatives: Vec<Alternative>,
}

#[verifier::ext_equal]
pub struct DecisionView {
    pub intent_id: Seq<char>,
    pub question: Seq<char>,
    pub decision: Seq<char>,
    /// The descriptions of the rejected alternatives.
    pub alternatives: Seq<Seq<char>>,
}

impl View for DecisionRecord {
    type V = DecisionView;

    open spec fn view(&self) -> DecisionView {
        DecisionView {
            intent_id: self.intent_id@,
            question: self.question@,
            decision: self.decision@,
            alternatives: self.alternatives@.map_values(|a: Alternative| a.description@),
        }
    }
}

/// A link from a code location to an object.
pub struct CodeBinding {
    pub bound_object: ObjectId,
    pub path: String,
    pub symbol: Option<String>,
}

#[verifier::ext_equal]
pub struct BindingView {
    pub bound_object: Seq<char>,
    pub path: Seq<char>,
    pub symbol: Option<Seq<char>>,
}

impl View for CodeBinding {
    type V = BindingView;

    open spec fn view(&self) -> BindingView {
        BindingView { bound_object: self.bound_object@, path: self.path@, symbol: opt_text(self.symbol) }
    }
}

fn clone_strings(v: &Vec<String>) -> (res: Vec<String>)
    ensures
        texts(res@) == texts(v@),
{
    let mut res: Vec<String> = Vec::new();
    let mut i: usize = 0;
    while i < v.len()
        invariant
            i <= v.len(),
            res@ == v@.take(i as int),
        decreases v.len() - i,
    {
        res.push(v[i].clone());
        i = i + 1;
    }
    assert(res@ == v@);
    res
}

fn clone_opt_string(v: &Option<String>) -> (res: Option<String>)
    ensures
        res == *v,
{
    match v {
        Some(s) => Some(s.clone()),
        None => None,
    }
}

fn clone_opt_id(v: &Option<ObjectId>) -> (res: Option<ObjectId>)
    ensures
        res == *v,
{
    match v {
        Some(s) => Some(s.clone()),
        None => None,
    }
}

impl Clone for Author {
    fn clone(&self) -> (res: Self)
        ensures
            res == *self,
    {
        Author { name: self.name.clone(), email: self.email.clone() }
    }
}

impl Clone for Constraint {
    fn clone(&self) -> (res: Self)
        ensures
            res@ == self@,
    {
        Constraint {
            statement: self.statement.clone(),
            severity: self.severity,
            status: self.status,
            author: self.author.clone(),
            timestamp: self.timestamp.clone(),
            impacts: clone_strings(&self.impacts),
            source_intent: self.source_intent.clone(),
            superseded_by: clone_opt_id(&self.superseded_by),
            deprecation_reason: clone_opt_string(&self.deprecation_reason),
        }
    }
}

impl Clone for Intent {
    fn clone(&self) -> (res: Self)
        ensures
            res@ == self@,
    {
        Intent {
            statement: self.statement.clone(),
            author: self.author.clone(),
            timestamp: self.timestamp.clone(),
            impacts: clone_strings(&self.impacts),
        }
    }
}

impl Clone for Alternative {
    fn clone(&self) -> (res: Self)
        ensures
            res == *self,
    {
        Alternative { description: self.description.clone() }
    }
}

impl Clone for DecisionRecord {
    fn clone(&self) -> (res: Self)
        ensures
            res@ == self@,
    {
        let mut alternatives: Vec<Alternative> = Vec::new();
        let mut i: usize = 0;
        while i < self.alternatives.len()
            invariant
                i <= self.alternatives.len(),
                alternatives@ == self.alternatives@.take(i as int),
            decreases self.alternatives.len() - i,
        {
            alternatives.push(self.alternatives[i].clone());
            i = i + 1;
        }
        assert(alternatives@ == self.alternatives@);
        DecisionRecord {
            intent_id: self.intent_id.clone(),
            question: self.question.clone(),
            decision: self.decision.clone(),
            alternatives,
        }
    }
}

impl Clone for CodeBinding {
    fn clone(&self) -> (res: Self)
        ensures
            res@ == self@,
    {
        CodeBinding {
            bound_object: self.bound_object.clone(),
            path: self.path.clone(),
            symbol: clone_opt_string(&self.symbol),
        }
    }
}

} // verus!
