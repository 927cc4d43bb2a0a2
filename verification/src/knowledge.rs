//! Art knowledge: concepts and their relations, references with explicit
//! roles, and world rules attached to an artwork.
use std::collections::{BTreeMap, BTreeSet};
use vstd::prelude::*;

use crate::ids::fresh_id;
use crate::ordered::{ascending_of, sorted_elements, sorted_keys};
use crate::text::{
    contains_text, lemma_text_lt_irreflexive, lemma_text_lt_total, lemma_text_lt_transitive,
    lowercased, normalize, occurs_in, text_less, text_lt, trimmed,
};

verus! {

broadcast use vstd::std_specs::btree::group_btree_axioms;

/// The domain a concept belongs to.
#[derive(Debug, Clone, PartialEq, Eq)]
pub enum ConceptKind {
    Technique,
    Style,
    Material,
    Texture,
    ColorTheory,
    Artist,
    Movement,
    Fashion,
    Architecture,
    Composition,
    Context,
    Anatomy,
    Photography,
    Cinema,
    ProductDesign,
    Symbol,
    Custom(String),
}

/// How one concept relates to another.
#[derive(Debug, Clone, PartialEq, Eq)]
pub enum RelationKind {
    Influences,
    Uses,
    SimilarTo,
    ContrastsWith,
    AppearsIn,
    Requires,
    AssociatedWith,
    DerivedFrom,
    Custom(String),
}

/// What a reference image is used for.
#[derive(Debug, Clone, Eq)]
pub enum ReferenceRole {
    Pose,
    Color,
    Material,
    Texture,
    Fashion,
    Lighting,
    Composition,
    Architecture,
    Anatomy,
    Context,
    Style,
    Perspective,
    Custom(String),
}

/// Two roles are the same role: the same variant, with equal text for
/// custom roles.
pub open spec fn same_role(a: ReferenceRole, b: ReferenceRole) -> bool {
    match (a, b) {
        (ReferenceRole::Custom(x), ReferenceRole::Custom(y)) => x@ == y@,
        (ReferenceRole::Custom(_), _) => false,
        (_, ReferenceRole::Custom(_)) => false,
        _ => a == b,
    }
}

impl PartialEq for ReferenceRole {
    fn eq(&self, other: &Self) -> (r: bool) {
        match (self, other) {
            (ReferenceRole::Custom(x), ReferenceRole::Custom(y)) => *x == *y,
            (ReferenceRole::Pose, ReferenceRole::Pose) => true,
            (ReferenceRole::Color, ReferenceRole::Color) => true,
            (ReferenceRole::Material, ReferenceRole::Material) => true,
            (ReferenceRole::Texture, ReferenceRole::Texture) => true,
            (ReferenceRole::Fashion, ReferenceRole::Fashion) => true,
            (ReferenceRole::Lighting, ReferenceRole::Lighting) => true,
            (ReferenceRole::Composition, ReferenceRole::Composition) => true,
            (ReferenceRole::Architecture, ReferenceRole::Architecture) => true,
            (ReferenceRole::Anatomy, ReferenceRole::Anatomy) => true,
            (ReferenceRole::Context, ReferenceRole::Context) => true,
            (ReferenceRole::Style, ReferenceRole::Style) => true,
            (ReferenceRole::Perspective, ReferenceRole::Perspective) => true,
            _ => false,
        }
    }
}

impl vstd::std_specs::cmp::PartialEqSpecImpl for ReferenceRole {
    open spec fn obeys_eq_spec() -> bool {
        true
    }

    open spec fn eq_spec(&self, other: &Self) -> bool {
        same_role(*self, *other)
    }
}

/// Whether a rule is binding canon or only a suggestion.
#[derive(Debug, Clone, Copy, PartialEq, Eq, Structural)]
pub enum RuleStrength {
    Suggestion,
    Canon,
}

/// A named idea of art knowledge with normalized tags.
#[derive(Debug, Clone)]
pub struct Concept {
    pub id: u128,
    pub name: String,
    pub kind: ConceptKind,
    pub description: String,
    /// Normalized tags in ascending order, none occurring twice.
    pub tags: Vec<String>,
}

/// The texts of a list of strings.
pub open spec fn texts(v: Seq<String>) -> Seq<Seq<char>> {
    v.map_values(|s: String| s@)
}

/// Texts in strictly ascending order (see `text_lt`); nothing occurs twice.
pub open spec fn texts_ascending(t: Seq<Seq<char>>) -> bool {
    forall|i: int, j: int| 0 <= i < j < t.len() ==> text_lt(#[trigger] t[i], #[trigger] t[j])
}

/// Adds `t` to the ascending strings `v` at its place in the order, unless
/// it is already there.
fn insert_text_sorted(v: &mut Vec<String>, t: String)
    ensures
        texts_ascending(texts(old(v)@)) ==> {
            &&& texts_ascending(texts(final(v)@))
            &&& texts(final(v)@).to_set() == texts(old(v)@).to_set().insert(t@)
        },
{
    let ghost before = texts(v@);
    let mut p: usize = 0;
    while p < v.len() && text_less(v[p].as_str(), t.as_str())
        invariant
            p <= v@.len(),
            before == texts(v@),
            forall|k: int| 0 <= k < p ==> text_lt(#[trigger] before[k], t@),
        decreases v@.len() - p,
    {
        p = p + 1;
    }
    if p < v.len() && v[p] == t {
        proof {
            assert(before[p as int] == t@);
            assert(before.to_set().insert(t@) =~= before.to_set());
        }
        return;
    }
    let ghost tv = t@;
    v.insert(p, t);
    proof {
        let after = texts(v@);
        assert(after =~= before.insert(p as int, tv));
        if texts_ascending(before) {
            if p < before.len() {
                assert(before[p as int] != tv);
                lemma_text_lt_total(before[p as int], tv);
            }
            assert forall|i: int, j: int| 0 <= i < j < after.len() implies text_lt(#[trigger] after[i], #[trigger] after[j]) by {
                if j < p {
                    assert(after[i] == before[i] && after[j] == before[j]);
                } else if j == p {
                    assert(after[i] == before[i] && after[j] == tv);
                } else if i == p {
                    assert(after[j] == before[j - 1]);
                    if j - 1 > p {
                        lemma_text_lt_transitive(tv, before[p as int], before[j - 1]);
                    }
                } else if i < p {
                    assert(after[i] == before[i] && after[j] == before[j - 1]);
                } else {
                    assert(after[i] == before[i - 1] && after[j] == before[j - 1]);
                }
            }
            assert forall|x: Seq<char>| after.to_set().contains(x) <==> before.to_set().insert(tv).contains(x) by {
                if after.contains(x) {
                    let i = choose|i: int| 0 <= i < after.len() && after[i] == x;
                    if i < p {
                        assert(before[i] == x);
                    } else if i > p {
                        assert(before[i - 1] == x);
                    }
                }
                if before.contains(x) {
                    let i = choose|i: int| 0 <= i < before.len() && before[i] == x;
                    if i < p {
                        assert(after[i] == x);
                    } else {
                        assert(after[i + 1] == x);
                    }
                }
                if x == tv {
                    assert(after[p as int] == x);
                }
            }
            assert(after.to_set() =~= before.to_set().insert(tv));
        }
    }
}

impl Concept {
    /// A concept with a fresh id, no description and no tags.
    pub fn new(name: String, kind: ConceptKind) -> (c: Concept)
        ensures
            c.name@ == name@,
            c.kind == kind,
            c.description@ == Seq::<char>::empty(),
            c.tags@.len() == 0,
    {
        Concept { id: fresh_id(), name, kind, description: String::new(), tags: Vec::new() }
    }

    /// The concept with `description`.
    pub fn with_description(self, description: String) -> (c: Concept)
        ensures
            c.id == self.id,
            c.name == self.name,
            c.kind == self.kind,
            c.description@ == description@,
            c.tags == self.tags,
    {
        Concept { description, ..self }
    }

    /// The concept with the normalized `tag` added at its place in the tag
    /// order, unless it is already there.
    pub fn tag(self, tag: String) -> (c: Concept)
        ensures
            c.id == self.id,
            c.name == self.name,
            c.kind == self.kind,
            c.description == self.description,
            texts_ascending(texts(self.tags@)) ==> {
                &&& texts_ascending(texts(c.tags@))
                &&& texts(c.tags@).to_set() == texts(self.tags@).to_set().insert(lowercased(trimmed(tag@)))
            },
    {
        let normalized = normalize(tag);
        let mut concept = self;
        insert_text_sorted(&mut concept.tags, normalized);
        concept
    }
}

/// A rule of the artwork's world, binding or suggested.
#[derive(Debug, Clone)]
pub struct WorldRule {
    pub id: u128,
    pub key: String,
    pub value: String,
    pub rationale: Option<String>,
    pub strength: RuleStrength,
}

impl WorldRule {
    /// A rule with a fresh id and no rationale.
    pub fn new(key: String, value: String, strength: RuleStrength) -> (r: WorldRule)
        ensures
            r.key@ == key@,
            r.value@ == value@,
            r.rationale is None,
            r.strength == strength,
    {
        WorldRule { id: fresh_id(), key, value, rationale: None, strength }
    }
}

/// A reference image with the roles it serves and the concepts it shows.
#[derive(Debug, Clone)]
pub struct ArtReference {
    pub id: u128,
    pub label: String,
    pub source: Option<String>,
    /// Roles in ascending order (`role_lt`), no role occurring twice.
    pub roles: Vec<ReferenceRole>,
    pub concept_ids: BTreeSet<u128>,
    pub note: Option<String>,
}

/// `roles` holds a role equal to `role`.
pub open spec fn has_role(roles: Seq<ReferenceRole>, role: ReferenceRole) -> bool {
    exists|i: int| 0 <= i < roles.len() && same_role(#[trigger] roles[i], role)
}

/// Some entry of `roles`, at any position, is the same role as `role`.
pub open spec fn lists_role(roles: Seq<ReferenceRole>, role: ReferenceRole) -> bool {
    exists|i: int| 0 <= i < roles.len() && same_role(#[trigger] roles[i], role)
}

/// Where a role sorts: the position of its variant in the declaration, and
/// the text of a custom role (empty for the others).
pub open spec fn role_key(role: ReferenceRole) -> (int, Seq<char>) {
    match role {
        ReferenceRole::Pose => (0, Seq::empty()),
        ReferenceRole::Color => (1, Seq::empty()),
        ReferenceRole::Material => (2, Seq::empty()),
        ReferenceRole::Texture => (3, Seq::empty()),
        ReferenceRole::Fashion => (4, Seq::empty()),
        ReferenceRole::Lighting => (5, Seq::empty()),
        ReferenceRole::Composition => (6, Seq::empty()),
        ReferenceRole::Architecture => (7, Seq::empty()),
        ReferenceRole::Anatomy => (8, Seq::empty()),
        ReferenceRole::Context => (9, Seq::empty()),
        ReferenceRole::Style => (10, Seq::empty()),
        ReferenceRole::Perspective => (11, Seq::empty()),
        ReferenceRole::Custom(text) => (12, text@),
    }
}

/// `a` sorts before `b`: an earlier variant, or two custom roles in text order.
pub open spec fn role_lt(a: ReferenceRole, b: ReferenceRole) -> bool {
    let (ra, ta) = role_key(a);
    let (rb, tb) = role_key(b);
    ra < rb || (ra == rb && text_lt(ta, tb))
}

/// Roles in strictly ascending order; no role occurs twice.
pub open spec fn roles_ascending(roles: Seq<ReferenceRole>) -> bool {
    forall|i: int, j: int| 0 <= i < j < roles.len() ==> role_lt(#[trigger] roles[i], #[trigger] roles[j])
}

/// The sort keys of a list of roles, identifying each role up to `same_role`.
pub open spec fn role_keys(roles: Seq<ReferenceRole>) -> Seq<(int, Seq<char>)> {
    roles.map_values(|r: ReferenceRole| role_key(r))
}

proof fn lemma_same_role_key(a: ReferenceRole, b: ReferenceRole)
    ensures
        same_role(a, b) <==> role_key(a) == role_key(b),
{
}

proof fn lemma_role_lt_transitive(a: ReferenceRole, b: ReferenceRole, c: ReferenceRole)
    requires
        role_lt(a, b),
        role_lt(b, c),
    ensures
        role_lt(a, c),
{
    if role_key(a).0 == role_key(b).0 && role_key(b).0 == role_key(c).0 {
        lemma_text_lt_transitive(role_key(a).1, role_key(b).1, role_key(c).1);
    }
}

proof fn lemma_role_lt_total(a: ReferenceRole, b: ReferenceRole)
    requires
        role_key(a) != role_key(b),
    ensures
        role_lt(a, b) || role_lt(b, a),
{
    if role_key(a).0 == role_key(b).0 {
        lemma_text_lt_total(role_key(a).1, role_key(b).1);
    }
}

fn role_rank(role: &ReferenceRole) -> (k: u8)
    ensures
        k == role_key(*role).0,
{
    match role {
        ReferenceRole::Pose => 0,
        ReferenceRole::Color => 1,
        ReferenceRole::Material => 2,
        ReferenceRole::Texture => 3,
        ReferenceRole::Fashion => 4,
        ReferenceRole::Lighting => 5,
        ReferenceRole::Composition => 6,
        ReferenceRole::Architecture => 7,
        ReferenceRole::Anatomy => 8,
        ReferenceRole::Context => 9,
        ReferenceRole::Style => 10,
        ReferenceRole::Perspective => 11,
        ReferenceRole::Custom(_) => 12,
    }
}

fn role_less(a: &ReferenceRole, b: &ReferenceRole) -> (r: bool)
    ensures
        r == role_lt(*a, *b),
{
    let ra = role_rank(a);
    let rb = role_rank(b);
    if ra != rb {
        return ra < rb;
    }
    match (a, b) {
        (ReferenceRole::Custom(x), ReferenceRole::Custom(y)) => text_less(x.as_str(), y.as_str()),
        _ => {
            proof {
                lemma_text_lt_irreflexive(Seq::<char>::empty());
            }
            false
        },
    }
}

fn contains_role(roles: &Vec<ReferenceRole>, role: &ReferenceRole) -> (b: bool)
    ensures
        b == has_role(roles@, *role),
{
    let mut i: usize = 0;
    while i < roles.len()
        invariant
            i <= roles@.len(),
            forall|k: int| 0 <= k < i ==> !same_role(#[trigger] roles@[k], *role),
        decreases roles@.len() - i,
    {
        if roles[i] == *role {
            return true;
        }
        i = i + 1;
    }
    false
}

/// Adds `role` to the ascending roles `v` at its place in the order, unless
/// an equal role is already there.
fn insert_role_sorted(v: &mut Vec<ReferenceRole>, role: ReferenceRole)
    ensures
        roles_ascending(old(v)@) ==> {
            &&& roles_ascending(final(v)@)
            &&& role_keys(final(v)@).to_set() == role_keys(old(v)@).to_set().insert(role_key(role))
        },
{
    let ghost before = v@;
    let mut p: usize = 0;
    while p < v.len() && role_less(&v[p], &role)
        invariant
            p <= v@.len(),
            before == v@,
            forall|k: int| 0 <= k < p ==> role_lt(#[trigger] before[k], role),
        decreases v@.len() - p,
    {
        p = p + 1;
    }
    if p < v.len() && v[p] == role {
        proof {
            lemma_same_role_key(before[p as int], role);
            assert(role_keys(before)[p as int] == role_key(role));
            assert(role_keys(before).to_set().insert(role_key(role)) =~= role_keys(before).to_set());
        }
        return;
    }
    let ghost r = role;
    v.insert(p, role);
    proof {
        let after = v@;
        let ka = role_keys(after);
        let kb = role_keys(before);
        assert(after =~= before.insert(p as int, r));
        assert(ka =~= kb.insert(p as int, role_key(r)));
        if roles_ascending(before) {
            if p < before.len() {
                lemma_same_role_key(before[p as int], r);
                lemma_role_lt_total(before[p as int], r);
            }
            assert forall|i: int, j: int| 0 <= i < j < after.len() implies role_lt(#[trigger] after[i], #[trigger] after[j]) by {
                if j < p {
                    assert(after[i] == before[i] && after[j] == before[j]);
                } else if j == p {
                    assert(after[i] == before[i] && after[j] == r);
                } else if i == p {
                    assert(after[j] == before[j - 1]);
                    if j - 1 > p {
                        lemma_role_lt_transitive(r, before[p as int], before[j - 1]);
                    }
                } else if i < p {
                    assert(after[i] == before[i] && after[j] == before[j - 1]);
                } else {
                    assert(after[i] == before[i - 1] && after[j] == before[j - 1]);
                }
            }
            let x0 = role_key(r);
            assert forall|x: (int, Seq<char>)| ka.to_set().contains(x) <==> kb.to_set().insert(x0).contains(x) by {
                if ka.contains(x) {
                    let i = choose|i: int| 0 <= i < ka.len() && ka[i] == x;
                    if i < p {
                        assert(kb[i] == x);
                    } else if i > p {
                        assert(kb[i - 1] == x);
                    }
                }
                if kb.contains(x) {
                    let i = choose|i: int| 0 <= i < kb.len() && kb[i] == x;
                    if i < p {
                        assert(ka[i] == x);
                    } else {
                        assert(ka[i + 1] == x);
                    }
                }
                if x == x0 {
                    assert(ka[p as int] == x);
                }
            }
            assert(ka.to_set() =~= kb.to_set().insert(x0));
        }
    }
}

impl ArtReference {
    /// A reference with a fresh id and no roles or concepts.
    pub fn new(label: String) -> (r: ArtReference)
        ensures
            r.label@ == label@,
            r.source is None,
            r.roles@.len() == 0,
            r.concept_ids@ == Set::<u128>::empty(),
            r.note is None,
    {
        ArtReference {
            id: fresh_id(),
            label,
            source: None,
            roles: Vec::new(),
            concept_ids: BTreeSet::new(),
            note: None,
        }
    }

    /// The reference with `role` added at its place in the role order,
    /// unless an equal role is already there.
    pub fn role(self, role: ReferenceRole) -> (r: ArtReference)
        ensures
            r.id == self.id,
            r.label == self.label,
            r.source == self.source,
            r.note == self.note,
            r.concept_ids@ == self.concept_ids@,
            roles_ascending(self.roles@) ==> {
                &&& roles_ascending(r.roles@)
                &&& role_keys(r.roles@).to_set() == role_keys(self.roles@).to_set().insert(role_key(role))
            },
    {
        let mut reference = self;
        insert_role_sorted(&mut reference.roles, role);
        reference
    }

    /// The reference with `concept_id` among its concepts.
    pub fn concept(self, concept_id: u128) -> (r: ArtReference)
        ensures
            r.id == self.id,
            r.label == self.label,
            r.source == self.source,
            r.note == self.note,
            r.roles == self.roles,
            r.concept_ids@ == self.concept_ids@.insert(concept_id),
    {
        let mut reference = self;
        reference.concept_ids.insert(concept_id);
        reference
    }
}


/// Why a knowledge operation was refused.
#[derive(Debug, Clone, Copy, PartialEq, Eq, Structural)]
pub enum KnowledgeError {
    MissingConcept(u128),
}

/// A directed relation between two concepts, weighted by `strength`.
#[derive(Debug, Clone)]
pub struct Relation<W> {
    pub id: u128,
    pub from: u128,
    pub to: u128,
    pub kind: RelationKind,
    pub strength: W,
    pub note: Option<String>,
}

/// Concepts and the relations between them, both keyed by id.
#[derive(Debug, Clone)]
pub struct KnowledgeGraph<W> {
    pub concepts: BTreeMap<u128, Concept>,
    pub relations: BTreeMap<u128, Relation<W>>,
}

/// The concept at the other end of relation `k` when it touches `id`
/// (checking the `from` end first), if that concept exists.
pub open spec fn other_end<W>(concepts: Map<u128, Concept>, relations: Map<u128, Relation<W>>, id: u128) -> spec_fn(
    u128,
) -> Option<Concept> {
    |k: u128|
        {
            let r = relations[k];
            if r.from == id {
                if concepts.contains_key(r.to) {
                    Some(concepts[r.to])
                } else {
                    None
                }
            } else if r.to == id {
                if concepts.contains_key(r.from) {
                    Some(concepts[r.from])
                } else {
                    None
                }
            } else {
                None
            }
        }
}

/// A concept matches a normalized query when the query occurs in its
/// normalized name, its normalized description or one of its tags.
pub open spec fn matches_query(c: Concept, q: Seq<char>) -> bool {
    ||| occurs_in(q, lowercased(trimmed(c.name@)))
    ||| occurs_in(q, lowercased(trimmed(c.description@)))
    ||| exists|i: int| 0 <= i < c.tags@.len() && occurs_in(q, #[trigger] c.tags@[i]@)
}

/// The concept with id `k` when it matches `q`.
pub open spec fn match_of(concepts: Map<u128, Concept>, q: Seq<char>) -> spec_fn(u128) -> Option<Concept> {
    |k: u128| if matches_query(concepts[k], q) { Some(concepts[k]) } else { None }
}

/// The normalized query `q` occurs in the normalized name or description
/// of `c`, or in one of its tags.
pub open spec fn mentions(c: Concept, q: Seq<char>) -> bool {
    ||| occurs_in(q, lowercased(trimmed(c.name@)))
    ||| occurs_in(q, lowercased(trimmed(c.description@)))
    ||| exists|t: int| 0 <= t < c.tags@.len() && occurs_in(q, #[trigger] c.tags@[t]@)
}

/// Keeping the elements that `f` maps to a value keeps every such value.
proof fn lemma_filter_map_keeps<A, B>(s: Seq<A>, f: spec_fn(A) -> Option<B>, i: int)
    requires
        0 <= i < s.len(),
        f(s[i]) is Some,
    ensures
        s.filter_map(f).contains(f(s[i])->0),
    decreases s.len(),
{
    let rest = s.drop_last();
    if i == s.len() - 1 {
        assert(s.filter_map(f) == rest.filter_map(f) + seq![f(s[i])->0]);
        assert(s.filter_map(f)[rest.filter_map(f).len() as int] == f(s[i])->0);
    } else {
        assert(rest[i] == s[i]);
        lemma_filter_map_keeps(rest, f, i);
        let fm = rest.filter_map(f);
        let j = choose|j: int| 0 <= j < fm.len() && fm[j] == f(s[i])->0;
        match f(s.last()) {
            Some(v) => {
                assert(s.filter_map(f) == fm + seq![v]);
                assert(s.filter_map(f)[j] == fm[j]);
            },
            None => {
                assert(s.filter_map(f) == fm);
            },
        }
    }
}

/// Concepts matching the normalized query, in id order; nothing for a query
/// that is empty after normalization.
pub open spec fn search_spec(concepts: Map<u128, Concept>, query: Seq<char>) -> Seq<Concept> {
    let q = lowercased(trimmed(query));
    if q.len() == 0 {
        Seq::empty()
    } else {
        ascending_of(concepts.dom()).filter_map(match_of(concepts, q))
    }
}

/// The concepts behind a list of concept references.
pub open spec fn deref_concepts(v: Seq<&Concept>) -> Seq<Concept> {
    v.map_values(|c: &Concept| *c)
}

impl<W> Default for KnowledgeGraph<W> {
    fn default() -> (g: KnowledgeGraph<W>)
        ensures
            g.concepts@ == Map::<u128, Concept>::empty(),
            g.relations@ == Map::<u128, Relation<W>>::empty(),
    {
        KnowledgeGraph { concepts: BTreeMap::new(), relations: BTreeMap::new() }
    }
}

impl<W> KnowledgeGraph<W> {
    /// Adds (or replaces) the concept under its id and returns the id.
    pub fn add_concept(&mut self, concept: Concept) -> (id: u128)
        ensures
            id == concept.id,
            final(self).concepts@ == old(self).concepts@.insert(id, concept),
            final(self).relations@ == old(self).relations@,
    {
        let id = concept.id;
        self.concepts.insert(id, concept);
        id
    }

    fn require_concept(&self, id: u128) -> (r: Result<(), KnowledgeError>)
        ensures
            r is Ok <==> self.concepts@.contains_key(id),
            r is Err ==> r == Err::<(), KnowledgeError>(KnowledgeError::MissingConcept(id)),
    {
        if self.concepts.contains_key(&id) {
            Ok(())
        } else {
            Err(KnowledgeError::MissingConcept(id))
        }
    }

    /// Records a relation from `from` to `to` under a fresh id; both concepts
    /// must exist (`from` is checked first).
    pub fn relate(&mut self, from: u128, to: u128, kind: RelationKind, strength: W) -> (r: Result<u128, KnowledgeError>)
        ensures
            final(self).concepts@ == old(self).concepts@,
            match r {
                Ok(id) => {
                    &&& old(self).concepts@.contains_key(from)
                    &&& old(self).concepts@.contains_key(to)
                    &&& final(self).relations@.dom() == old(self).relations@.dom().insert(id)
                    &&& final(self).relations@.remove(id) == old(self).relations@.remove(id)
                    &&& final(self).relations@[id].id == id
                    &&& final(self).relations@[id].from == from
                    &&& final(self).relations@[id].to == to
                    &&& final(self).relations@[id].kind == kind
                    &&& final(self).relations@[id].strength == strength
                    &&& final(self).relations@[id].note is None
                },
                Err(KnowledgeError::MissingConcept(id)) => {
                    &&& final(self).relations@ == old(self).relations@
                    &&& if old(self).concepts@.contains_key(from) {
                        id == to && !old(self).concepts@.contains_key(to)
                    } else {
                        id == from
                    }
                },
            },
    {
        match self.require_concept(from) {
            Ok(()) => {},
            Err(e) => return Err(e),
        }
        match self.require_concept(to) {
            Ok(()) => {},
            Err(e) => return Err(e),
        }
        let relation = Relation { id: fresh_id(), from, to, kind, strength, note: None };
        let id = relation.id;
        self.relations.insert(id, relation);
        assert(self.relations@.dom() =~= old(self).relations@.dom().insert(id));
        assert(self.relations@.remove(id) =~= old(self).relations@.remove(id));
        Ok(id)
    }

    /// The concepts at the other end of every relation that touches
    /// `concept_id`, in relation id order; fails for an unknown concept.
    pub fn related(&self, concept_id: u128) -> (r: Result<Vec<&Concept>, KnowledgeError>)
        ensures
            match r {
                Ok(found) => self.concepts@.contains_key(concept_id) && deref_concepts(found@)
                    == ascending_of(self.relations@.dom()).filter_map(
                    other_end(self.concepts@, self.relations@, concept_id),
                ),
                Err(e) => !self.concepts@.contains_key(concept_id) && e == KnowledgeError::MissingConcept(
                    concept_id,
                ),
            },
    {
        match self.require_concept(concept_id) {
            Ok(()) => {},
            Err(e) => return Err(e),
        }
        let keys = sorted_keys(&self.relations);
        let ghost f = other_end(self.concepts@, self.relations@, concept_id);
        let mut found: Vec<&Concept> = Vec::new();
        let mut i: usize = 0;
        while i < keys.len()
            invariant
                i <= keys@.len(),
                keys@.to_set() == self.relations@.dom(),
                f == other_end(self.concepts@, self.relations@, concept_id),
                deref_concepts(found@) == keys@.take(i as int).filter_map(f),
            decreases keys@.len() - i,
        {
            proof {
                keys@.lemma_filter_map_take_succ(f, i as int);
                assert(keys@.to_set().contains(keys@[i as int]));
            }
            let relation = self.relations.get(&keys[i]).unwrap();
            let ghost before = found@;
            if relation.from == concept_id {
                match self.concepts.get(&relation.to) {
                    Some(c) => found.push(c),
                    None => {},
                }
            } else if relation.to == concept_id {
                match self.concepts.get(&relation.from) {
                    Some(c) => found.push(c),
                    None => {},
                }
            }
            assert(deref_concepts(found@) =~= keys@.take(i + 1).filter_map(f));
            i = i + 1;
        }
        assert(keys@.take(keys@.len() as int) =~= keys@);
        Ok(found)
    }

    /// Concepts whose normalized name or description contains the normalized
    /// query, or that carry a tag containing it, in id order; an empty query
    /// matches nothing.
    pub fn search(&self, query: &str) -> (found: Vec<&Concept>)
        ensures
            deref_concepts(found@) == search_spec(self.concepts@, query@),
            lowercased(trimmed(query@)).len() == 0 ==> found@.len() == 0,
            forall|k: u128|
                #[trigger] self.concepts@.contains_key(k) && lowercased(trimmed(query@)).len() > 0 && mentions(
                    self.concepts@[k],
                    lowercased(trimmed(query@)),
                ) ==> deref_concepts(found@).contains(self.concepts@[k]),
            forall|j: int|
                0 <= j < found@.len() ==> mentions(*#[trigger] found@[j], lowercased(trimmed(query@))),
    {
        let q = normalize(query.to_string());
        let mut found: Vec<&Concept> = Vec::new();
        if q.as_str().unicode_len() == 0 {
            assert(deref_concepts(found@) =~= Seq::<Concept>::empty());
            return found;
        }
        let keys = sorted_keys(&self.concepts);
        let ghost f = match_of(self.concepts@, q@);
        let mut i: usize = 0;
        while i < keys.len()
            invariant
                i <= keys@.len(),
                keys@ == ascending_of(self.concepts@.dom()),
                keys@.to_set() == self.concepts@.dom(),
                f == match_of(self.concepts@, q@),
                deref_concepts(found@) == keys@.take(i as int).filter_map(f),
            decreases keys@.len() - i,
        {
            proof {
                keys@.lemma_filter_map_take_succ(f, i as int);
                assert(keys@.to_set().contains(keys@[i as int]));
            }
            let concept = self.concepts.get(&keys[i]).unwrap();
            if concept_matches(concept, &q) {
                found.push(concept);
            }
            assert(deref_concepts(found@) =~= keys@.take(i + 1).filter_map(f));
            i = i + 1;
        }
        assert(keys@.take(keys@.len() as int) =~= keys@);
        proof {
            let qs = lowercased(trimmed(query@));
            assert(qs == q@);
            let out = deref_concepts(found@);
            assert forall|k: u128|
                #[trigger] self.concepts@.contains_key(k) && mentions(self.concepts@[k], qs) implies out.contains(
                self.concepts@[k],
            ) by {
                assert(keys@.to_set().contains(k));
                assert(matches_query(self.concepts@[k], qs));
                let i = choose|i: int| 0 <= i < keys@.len() && keys@[i] == k;
                assert(f(keys@[i]) == Some(self.concepts@[k]));
                lemma_filter_map_keeps(keys@, f, i);
            }
            assert forall|j: int| 0 <= j < found@.len() implies mentions(*#[trigger] found@[j], qs) by {
                assert(out[j] == *found@[j]);
                assert(out.contains(out[j]));
                keys@.lemma_filter_map_contains(f, out[j]);
                let key = choose|key: u128| #[trigger] keys@.contains(key) && f(key) == Some(out[j]);
                assert(matches_query(self.concepts@[key], qs));
            }
        }
        found
    }
}

fn concept_matches(concept: &Concept, q: &String) -> (b: bool)
    ensures
        b == matches_query(*concept, q@),
{
    if contains_text(normalize(concept.name.clone()).as_str(), q.as_str()) {
        return true;
    }
    if contains_text(normalize(concept.description.clone()).as_str(), q.as_str()) {
        return true;
    }
    let mut i: usize = 0;
    while i < concept.tags.len()
        invariant
            i <= concept.tags@.len(),
            forall|k: int| 0 <= k < i ==> !occurs_in(q@, #[trigger] concept.tags@[k]@),
        decreases concept.tags@.len() - i,
    {
        if contains_text(concept.tags[i].as_str(), q.as_str()) {
            return true;
        }
        i = i + 1;
    }
    false
}


/// Knowledge attached to one artwork: concepts, references, a style genome
/// and the rules of its world.
#[derive(Debug, Clone)]
pub struct ArtworkKnowledge<G> {
    pub concept_ids: BTreeSet<u128>,
    pub references: BTreeMap<u128, ArtReference>,
    pub style_genome: G,
    pub world_rules: BTreeMap<u128, WorldRule>,
}

/// The reference with id `k` when it serves `role`.
pub open spec fn serving(references: Map<u128, ArtReference>, role: ReferenceRole) -> spec_fn(u128) -> Option<
    ArtReference,
> {
    |k: u128| if has_role(references[k].roles@, role) { Some(references[k]) } else { None }
}

/// The references behind a list of reference references.
pub open spec fn deref_references(v: Seq<&ArtReference>) -> Seq<ArtReference> {
    v.map_values(|r: &ArtReference| *r)
}

impl<G> ArtworkKnowledge<G> {
    /// Empty artwork knowledge with the given style genome.
    pub fn new(style_genome: G) -> (k: ArtworkKnowledge<G>)
        ensures
            k.concept_ids@ == Set::<u128>::empty(),
            k.references@ == Map::<u128, ArtReference>::empty(),
            k.style_genome == style_genome,
            k.world_rules@ == Map::<u128, WorldRule>::empty(),
    {
        ArtworkKnowledge {
            concept_ids: BTreeSet::new(),
            references: BTreeMap::new(),
            style_genome,
            world_rules: BTreeMap::new(),
        }
    }

    /// Attaches a concept that exists in `graph`.
    pub fn attach_concept<W>(&mut self, graph: &KnowledgeGraph<W>, concept_id: u128) -> (r: Result<(), KnowledgeError>)
        ensures
            final(self).references@ == old(self).references@,
            final(self).world_rules@ == old(self).world_rules@,
            final(self).style_genome == old(self).style_genome,
            match r {
                Ok(()) => graph.concepts@.contains_key(concept_id) && final(self).concept_ids@
                    == old(self).concept_ids@.insert(concept_id),
                Err(e) => !graph.concepts@.contains_key(concept_id) && e == KnowledgeError::MissingConcept(
                    concept_id,
                ) && final(self).concept_ids@ == old(self).concept_ids@,
            },
    {
        match graph.require_concept(concept_id) {
            Ok(()) => {},
            Err(e) => return Err(e),
        }
        self.concept_ids.insert(concept_id);
        Ok(())
    }

    /// Adds a reference whose concepts all exist in `graph`; otherwise
    /// reports the smallest id among its concepts that the graph lacks.
    pub fn add_reference<W>(&mut self, graph: &KnowledgeGraph<W>, reference: ArtReference) -> (r: Result<u128, KnowledgeError>)
        ensures
            final(self).concept_ids@ == old(self).concept_ids@,
            final(self).world_rules@ == old(self).world_rules@,
            final(self).style_genome == old(self).style_genome,
            match r {
                Ok(id) => {
                    &&& forall|c: u128| reference.concept_ids@.contains(c) ==> graph.concepts@.contains_key(c)
                    &&& id == reference.id
                    &&& final(self).references@ == old(self).references@.insert(id, reference)
                },
                Err(KnowledgeError::MissingConcept(c)) => {
                    &&& reference.concept_ids@.contains(c)
                    &&& !graph.concepts@.contains_key(c)
                    &&& forall|d: u128| reference.concept_ids@.contains(d) && d < c ==> graph.concepts@.contains_key(d)
                    &&& final(self).references@ == old(self).references@
                },
            },
    {
        let ids = sorted_elements(&reference.concept_ids);
        let mut i: usize = 0;
        while i < ids.len()
            invariant
                i <= ids@.len(),
                crate::ordered::ascending(ids@),
                ids@.to_set() == reference.concept_ids@,
                forall|k: int| 0 <= k < i ==> graph.concepts@.contains_key(#[trigger] ids@[k]),
            decreases ids@.len() - i,
        {
            match graph.require_concept(ids[i]) {
                Ok(()) => {},
                Err(e) => {
                    proof {
                        assert(ids@.to_set().contains(ids@[i as int]));
                        assert forall|d: u128| reference.concept_ids@.contains(d) && d < ids@[i as int] implies graph.concepts@.contains_key(d) by {
                            assert(ids@.to_set().contains(d));
                            let k = choose|k: int| 0 <= k < ids@.len() && ids@[k] == d;
                            if k >= i {
                                if k > i {
                                    assert(ids@[i as int] < ids@[k]);
                                }
                            }
                        }
                    }
                    return Err(e);
                },
            }
            i = i + 1;
        }
        proof {
            assert forall|c: u128| reference.concept_ids@.contains(c) implies graph.concepts@.contains_key(c) by {
                assert(ids@.to_set().contains(c));
                let k = choose|k: int| 0 <= k < ids@.len() && ids@[k] == c;
            }
        }
        let id = reference.id;
        self.references.insert(id, reference);
        Ok(id)
    }

    /// The references that serve `role`, in id order.
    pub fn references_for_role(&self, role: &ReferenceRole) -> (found: Vec<&ArtReference>)
        ensures
            deref_references(found@) == ascending_of(self.references@.dom()).filter_map(
                serving(self.references@, *role),
            ),
            forall|k: u128|
                #[trigger] self.references@.contains_key(k) && lists_role(self.references@[k].roles@, *role)
                    ==> deref_references(found@).contains(self.references@[k]),
            forall|j: int| 0 <= j < found@.len() ==> lists_role((*#[trigger] found@[j]).roles@, *role),
    {
        let keys = sorted_keys(&self.references);
        let ghost f = serving(self.references@, *role);
        let mut found: Vec<&ArtReference> = Vec::new();
        let mut i: usize = 0;
        while i < keys.len()
            invariant
                i <= keys@.len(),
                keys@ == ascending_of(self.references@.dom()),
                keys@.to_set() == self.references@.dom(),
                f == serving(self.references@, *role),
                deref_references(found@) == keys@.take(i as int).filter_map(f),
            decreases keys@.len() - i,
        {
            proof {
                keys@.lemma_filter_map_take_succ(f, i as int);
                assert(keys@.to_set().contains(keys@[i as int]));
            }
            let reference = self.references.get(&keys[i]).unwrap();
            if contains_role(&reference.roles, role) {
                found.push(reference);
            }
            assert(deref_references(found@) =~= keys@.take(i + 1).filter_map(f));
            i = i + 1;
        }
        assert(keys@.take(keys@.len() as int) =~= keys@);
        proof {
            let out = deref_references(found@);
            assert forall|k: u128|
                #[trigger] self.references@.contains_key(k) && lists_role(self.references@[k].roles@, *role)
                    implies out.contains(self.references@[k]) by {
                assert(keys@.to_set().contains(k));
                assert(has_role(self.references@[k].roles@, *role));
                let i = choose|i: int| 0 <= i < keys@.len() && keys@[i] == k;
                assert(f(keys@[i]) == Some(self.references@[k]));
                lemma_filter_map_keeps(keys@, f, i);
            }
            assert forall|j: int| 0 <= j < found@.len() implies lists_role((*#[trigger] found@[j]).roles@, *role) by {
                assert(out[j] == *found@[j]);
                assert(out.contains(out[j]));
                keys@.lemma_filter_map_contains(f, out[j]);
                let key = choose|key: u128| #[trigger] keys@.contains(key) && f(key) == Some(out[j]);
                assert(has_role(self.references@[key].roles@, *role));
            }
        }
        found
    }

    /// Adds (or replaces) a world rule under its id and returns the id.
    pub fn add_world_rule(&mut self, rule: WorldRule) -> (id: u128)
        ensures
            id == rule.id,
            final(self).world_rules@ == old(self).world_rules@.insert(id, rule),
            final(self).concept_ids@ == old(self).concept_ids@,
            final(self).references@ == old(self).references@,
            final(self).style_genome == old(self).style_genome,
    {
        let id = rule.id;
        self.world_rules.insert(id, rule);
        id
    }
}

} // verus!
