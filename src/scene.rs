//! A hierarchical world document and the questions asked of it.
use vstd::prelude::*;

use crate::sentence::{NounClause, NounView, Sentence, SentenceView};

verus! {

/// A JSON-like document node. Numbers keep their text.
#[derive(Debug, PartialEq, Eq)]
pub enum Value {
    Null,
    Bool(bool),
    Number(String),
    String(String),
    Array(Vec<Value>),
    Object(Vec<(String, Value)>),
}

/// The mathematical value of a `Value`.
pub enum Json {
    Null,
    Bool(bool),
    Number(Seq<char>),
    Str(Seq<char>),
    Array(Seq<Json>),
    Object(Seq<(Seq<char>, Json)>),
}

/// The value of a document node.
pub open spec fn json_of(v: &Value) -> Json
    decreases v,
{
    match v {
        Value::Null => Json::Null,
        Value::Bool(b) => Json::Bool(*b),
        Value::Number(n) => Json::Number(n@),
        Value::String(s) => Json::Str(s@),
        Value::Array(xs) => Json::Array(jsons_of(xs@)),
        Value::Object(es) => Json::Object(entries_of(es@)),
    }
}

/// The values of a list of nodes.
pub open spec fn jsons_of(xs: Seq<Value>) -> Seq<Json>
    decreases xs,
{
    if xs.len() == 0 {
        Seq::empty()
    } else {
        jsons_of(xs.drop_last()).push(json_of(&xs.last()))
    }
}

/// The values of the fields of an object.
pub open spec fn entries_of(es: Seq<(String, Value)>) -> Seq<(Seq<char>, Json)>
    decreases es,
{
    if es.len() == 0 {
        Seq::empty()
    } else {
        entries_of(es.drop_last()).push((es.last().0@, json_of(&es.last().1)))
    }
}

impl View for Value {
    type V = Json;

    open spec fn view(&self) -> Json {
        json_of(self)
    }
}

proof fn lemma_jsons_of_index(xs: Seq<Value>)
    ensures
        jsons_of(xs).len() == xs.len(),
        forall|i: int| 0 <= i < xs.len() ==> #[trigger] jsons_of(xs)[i] == json_of(&xs[i]),
    decreases xs.len(),
{
    if xs.len() > 0 {
        lemma_jsons_of_index(xs.drop_last());
        assert forall|i: int| 0 <= i < xs.len() implies #[trigger] jsons_of(xs)[i] == json_of(&xs[i]) by {
            if i < xs.len() - 1 {
                assert(xs.drop_last()[i] == xs[i]);
            }
        }
    }
}

proof fn lemma_entries_of_index(es: Seq<(String, Value)>)
    ensures
        entries_of(es).len() == es.len(),
        forall|i: int|
            0 <= i < es.len() ==> #[trigger] entries_of(es)[i] == (es[i].0@, json_of(&es[i].1)),
    decreases es.len(),
{
    if es.len() > 0 {
        lemma_entries_of_index(es.drop_last());
        assert forall|i: int| 0 <= i < es.len() implies #[trigger] entries_of(es)[i] == (
            es[i].0@,
            json_of(&es[i].1),
        ) by {
            if i < es.len() - 1 {
                assert(es.drop_last()[i] == es[i]);
            }
        }
    }
}

proof fn lemma_jsons_of_push(xs: Seq<Value>, x: Value)
    ensures
        jsons_of(xs.push(x)) == jsons_of(xs).push(json_of(&x)),
{
    assert(xs.push(x).drop_last() =~= xs);
}

/// The position of the first entry with key `k`.
pub open spec fn key_pos(es: Seq<(Seq<char>, Json)>, k: Seq<char>) -> Option<int>
    decreases es.len(),
{
    if es.len() == 0 {
        None
    } else {
        match key_pos(es.drop_last(), k) {
            Some(i) => Some(i),
            None => if es.last().0 == k {
                Some(es.len() - 1)
            } else {
                None
            },
        }
    }
}

/// `key_pos` finds an entry with the key, and only fails when there is none.
pub proof fn lemma_key_pos(es: Seq<(Seq<char>, Json)>, k: Seq<char>)
    ensures
        match key_pos(es, k) {
            Some(i) => 0 <= i < es.len() && es[i].0 == k,
            None => forall|j: int| 0 <= j < es.len() ==> es[j].0 != k,
        },
    decreases es.len(),
{
    if es.len() > 0 {
        lemma_key_pos(es.drop_last(), k);
        if key_pos(es.drop_last(), k) is None {
            assert forall|j: int| 0 <= j < es.len() - 1 implies es[j].0 != k by {
                assert(es.drop_last()[j] == es[j]);
            }
        }
    }
}

/// The value of the field `k` of an object: `Null` when absent or when `v`
/// is not an object.
pub open spec fn field(v: Json, k: Seq<char>) -> Json {
    match v {
        Json::Object(es) => match key_pos(es, k) {
            Some(i) => es[i].1,
            None => Json::Null,
        },
        _ => Json::Null,
    }
}

/// Whether `a` is an array holding the string `s`.
pub open spec fn has_string(a: Json, s: Seq<char>) -> bool {
    match a {
        Json::Array(xs) => exists|i: int| 0 <= i < xs.len() && xs[i] == Json::Str(s),
        _ => false,
    }
}

/// Whether a node fits a noun clause: its `noun` is the clause's noun and,
/// if the clause has an adjective, its `adjectives` hold it.
pub open spec fn matches(nc: NounView, v: Json) -> bool {
    match field(v, "noun"@) {
        Json::Str(n) => n == nc.noun && match nc.adjective {
            Some(a) => has_string(field(v, "adjectives"@), a),
            None => true,
        },
        _ => false,
    }
}

/// Whether a node's `is` list holds `edible`.
pub open spec fn is_edible(v: Json) -> bool {
    has_string(field(v, "is"@), "edible"@)
}

/// A test on document nodes.
#[derive(Clone, Copy, Debug, PartialEq, Eq, Structural)]
pub enum Predicate {
    /// Holds of every node.
    Exist,
    /// Holds of the nodes whose `is` list holds `edible`.
    Edible,
    /// Holds of no node; as a transform it removes what it is applied to.
    Remove,
}

/// Whether predicate `p` holds of `v`.
pub open spec fn holds(p: Predicate, v: Json) -> bool {
    match p {
        Predicate::Exist => true,
        Predicate::Edible => is_edible(v),
        Predicate::Remove => false,
    }
}

/// Whether every predicate of `fs` holds of `v`.
pub open spec fn passes(fs: Seq<Predicate>, v: Json) -> bool {
    forall|i: int| 0 <= i < fs.len() ==> holds(#[trigger] fs[i], v)
}

/// The predicate that answers questions of kind `name`.
pub open spec fn predicate_named(name: Seq<char>) -> Option<Predicate> {
    if name == "exist"@ {
        Some(Predicate::Exist)
    } else if name == "edible"@ {
        Some(Predicate::Edible)
    } else {
        None
    }
}

/// Whether a node is selected: it fits the clause and passes every filter.
pub open spec fn selected(nc: NounView, fs: Seq<Predicate>, v: Json) -> bool {
    matches(nc, v) && passes(fs, v)
}

/// Visiting the children of a node, pre-order: the selected nodes found (as
/// they were before any rewrite) and the children kept. With a transform, a
/// child that fits the clause is kept only if it passes every filter and the
/// transform; a child that does not fit is kept. Every kept child is itself
/// rewritten, and the children of a dropped one are still visited.
pub open spec fn visit_list(nc: NounView, fs: Seq<Predicate>, t: Option<Predicate>, cs: Seq<Json>) -> (
    Seq<Json>,
    Seq<Json>,
)
    decreases cs,
{
    if cs.len() == 0 {
        (Seq::empty(), Seq::empty())
    } else {
        let (found, kept) = visit_list(nc, fs, t, cs.drop_last());
        let c = cs.last();
        let hit = selected(nc, fs, c);
        let (below, c2) = visit(nc, fs, t, c);
        let found = if hit {
            found.push(c) + below
        } else {
            found + below
        };
        let keep = match t {
            Some(p) => !matches(nc, c) || (hit && holds(p, c)),
            None => true,
        };
        (found, if keep {
            kept.push(c2)
        } else {
            kept
        })
    }
}

/// Visiting the descendants of `v` (never `v` itself): the selected nodes
/// found, in pre-order, and `v` rewritten. Only with a transform, and only
/// where `children` is present and not null, is the children list replaced
/// by the children kept.
pub open spec fn visit(nc: NounView, fs: Seq<Predicate>, t: Option<Predicate>, v: Json) -> (
    Seq<Json>,
    Json,
)
    decreases v,
{
    match v {
        Json::Object(es) => match key_pos(es, "children"@) {
            Some(i) => {
                let kids = es[i].1;
                let (found, kept) = match kids {
                    Json::Array(cs) => {
                        proof {
                            lemma_key_pos(es, "children"@);
                            assert(decreases_to!(v => v->Object_0));
                            assert(decreases_to!(es => es[i]));
                            assert(decreases_to!(es[i] => es[i].1));
                            assert(decreases_to!(kids => kids->Array_0));
                        }
                        visit_list(nc, fs, t, cs)
                    },
                    _ => (Seq::empty(), Seq::empty()),
                };
                if t is Some && kids != Json::Null {
                    (found, Json::Object(es.update(i, (es[i].0, Json::Array(kept)))))
                } else {
                    (found, v)
                }
            },
            None => (Seq::empty(), v),
        },
        _ => (Seq::empty(), v),
    }
}

/// The answer to a question, if it can be asked: the kind of question picks
/// the predicate; a place narrows the search to the first node found there
/// (a place with no node answers no); the answer is whether some node under
/// the search root fits the subject and the predicate.
pub open spec fn ask(s: SentenceView, doc: Json) -> Option<bool> {
    match s.q_type {
        None => None,
        Some(q) => {
            let root = match s.prep {
                Some(p) => {
                    let found = visit(p.noun_clause, Seq::empty(), None, doc).0;
                    if found.len() == 0 {
                        None
                    } else {
                        Some(found[0])
                    }
                },
                None => Some(doc),
            };
            match root {
                None => Some(false),
                Some(r) => match predicate_named(q) {
                    Some(f) => Some(visit(s.subject, seq![f], None, r).0.len() > 0),
                    None => None,
                },
            }
        },
    }
}

/// The answer to a question: false when it cannot be asked.
pub open spec fn answer(s: SentenceView, doc: Json) -> bool {
    match ask(s, doc) {
        Some(b) => b,
        None => false,
    }
}

impl Value {
    /// A copy of the value.
    pub fn copy(&self) -> (r: Value)
        ensures
            r@ == self@,
        decreases self,
    {
        match self {
            Value::Null => Value::Null,
            Value::Bool(b) => Value::Bool(*b),
            Value::Number(n) => Value::Number(n.clone()),
            Value::String(s) => Value::String(s.clone()),
            Value::Array(xs) => {
                let mut out: Vec<Value> = Vec::new();
                let mut i: usize = 0;
                proof {
                    lemma_jsons_of_index(xs@);
                    assert(jsons_of(out@) =~= jsons_of(xs@).take(0));
                }
                while i < xs.len()
                    invariant
                        *self == Value::Array(*xs),
                        i <= xs@.len(),
                        jsons_of(xs@).len() == xs@.len(),
                        forall|k: int| 0 <= k < xs@.len() ==> #[trigger] jsons_of(xs@)[k] == json_of(&xs@[k]),
                        jsons_of(out@) == jsons_of(xs@).take(i as int),
                    decreases xs.len() - i,
                {
                    proof {
                        assert(decreases_to!(*self => (*self)->Array_0));
                        assert(decreases_to!(*xs => xs@));
                        assert(decreases_to!(xs@ => xs@[i as int]));
                    }
                    let c = xs[i].copy();
                    proof {
                        lemma_jsons_of_push(out@, c);
                        assert(jsons_of(xs@).take(i + 1) =~= jsons_of(xs@).take(i as int).push(c@));
                    }
                    out.push(c);
                    i = i + 1;
                }
                proof {
                    assert(jsons_of(xs@).take(xs@.len() as int) =~= jsons_of(xs@));
                }
                Value::Array(out)
            },
            Value::Object(es) => {
                let mut out: Vec<(String, Value)> = Vec::new();
                let mut i: usize = 0;
                proof {
                    lemma_entries_of_index(es@);
                    assert(entries_of(out@) =~= entries_of(es@).take(0));
                }
                while i < es.len()
                    invariant
                        *self == Value::Object(*es),
                        i <= es@.len(),
                        entries_of(es@).len() == es@.len(),
                        forall|k: int|
                            0 <= k < es@.len() ==> #[trigger] entries_of(es@)[k] == (
                                es@[k].0@,
                                json_of(&es@[k].1),
                            ),
                        entries_of(out@) == entries_of(es@).take(i as int),
                    decreases es.len() - i,
                {
                    proof {
                        assert(decreases_to!(*self => (*self)->Object_0));
                        assert(decreases_to!(*es => es@));
                        assert(decreases_to!(es@ => es@[i as int]));
                        assert(decreases_to!(es@[i as int] => es@[i as int].1));
                    }
                    let c = es[i].1.copy();
                    let k = es[i].0.clone();
                    let ghost before = out@;
                    out.push((k, c));
                    proof {
                        assert(out@.drop_last() =~= before);
                        assert(entries_of(es@).take(i + 1) =~= entries_of(es@).take(i as int).push(
                            (k@, c@),
                        ));
                    }
                    i = i + 1;
                }
                proof {
                    assert(entries_of(es@).take(es@.len() as int) =~= entries_of(es@));
                }
                Value::Object(out)
            },
        }
    }
}

/// The position of the first entry with key `key`.
fn key_position(es: &Vec<(String, Value)>, key: &String) -> (r: Option<usize>)
    ensures
        match r {
            Some(i) => key_pos(entries_of(es@), key@) == Some(i as int),
            None => key_pos(entries_of(es@), key@) is None,
        },
{
    let ghost ev = entries_of(es@);
    proof {
        lemma_entries_of_index(es@);
        assert(ev.take(0) =~= Seq::<(Seq<char>, Json)>::empty());
    }
    let mut found: Option<usize> = None;
    let mut j: usize = 0;
    while j < es.len()
        invariant
            ev == entries_of(es@),
            ev.len() == es@.len(),
            forall|k: int| 0 <= k < es@.len() ==> #[trigger] ev[k] == (es@[k].0@, json_of(&es@[k].1)),
            j <= es@.len(),
            match found {
                Some(i) => key_pos(ev.take(j as int), key@) == Some(i as int),
                None => key_pos(ev.take(j as int), key@) is None,
            },
        decreases es.len() - j,
    {
        proof {
            assert(ev.take(j + 1).drop_last() =~= ev.take(j as int));
        }
        if found.is_none() && es[j].0 == *key {
            found = Some(j);
        }
        j = j + 1;
    }
    proof {
        assert(ev.take(es@.len() as int) =~= ev);
    }
    found
}

/// The field `key` of an object, if present.
fn get_field<'a>(v: &'a Value, key: &str) -> (r: Option<&'a Value>)
    ensures
        match r {
            Some(x) => field(v@, key@) == x@,
            None => field(v@, key@) == Json::Null,
        },
{
    match v {
        Value::Object(es) => {
            let k = String::from_str(key);
            match key_position(es, &k) {
                Some(i) => {
                    proof {
                        lemma_entries_of_index(es@);
                        lemma_key_pos(entries_of(es@), k@);
                    }
                    Some(&es[i].1)
                },
                None => None,
            }
        },
        _ => None,
    }
}

/// Whether `a` is an array holding the string `s`.
fn contains_string(a: Option<&Value>, s: &String) -> (r: bool)
    ensures
        r == match a {
            Some(x) => has_string(x@, s@),
            None => false,
        },
{
    match a {
        Some(v) => match v {
            Value::Array(xs) => {
                proof {
                    lemma_jsons_of_index(xs@);
                }
                let mut i: usize = 0;
                while i < xs.len()
                    invariant
                        a == Some(v),
                        *v == Value::Array(*xs),
                        i <= xs@.len(),
                        jsons_of(xs@).len() == xs@.len(),
                        forall|k: int| 0 <= k < xs@.len() ==> #[trigger] jsons_of(xs@)[k] == json_of(&xs@[k]),
                        forall|k: int| 0 <= k < i ==> jsons_of(xs@)[k] != Json::Str(s@),
                    decreases xs.len() - i,
                {
                    if let Value::String(x) = &xs[i] {
                        if *x == *s {
                            proof {
                                assert(jsons_of(xs@)[i as int] == Json::Str(s@));
                            }
                            return true;
                        }
                    }
                    i = i + 1;
                }
                false
            },
            _ => false,
        },
        None => false,
    }
}

/// Whether a node's `is` list holds `edible`.
pub fn edible(item: &Value) -> (r: bool)
    ensures
        r == is_edible(item@),
{
    let edible_word = String::from_str("edible");
    contains_string(get_field(item, "is"), &edible_word)
}

impl Predicate {
    /// Whether the predicate holds of `v`.
    pub fn test(&self, v: &Value) -> (r: bool)
        ensures
            r == holds(*self, v@),
    {
        match self {
            Predicate::Exist => true,
            Predicate::Edible => edible(v),
            Predicate::Remove => false,
        }
    }

    /// The predicate that answers questions of kind `name`.
    pub fn from_name(name: &str) -> (r: Option<Predicate>)
        ensures
            r == predicate_named(name@),
    {
        let name = String::from_str(name);
        if name == String::from_str("exist") {
            Some(Predicate::Exist)
        } else if name == String::from_str("edible") {
            Some(Predicate::Edible)
        } else {
            None
        }
    }
}

/// Whether every predicate of `filters` holds of `v`.
fn passes_all(filters: &Vec<Predicate>, v: &Value) -> (r: bool)
    ensures
        r == passes(filters@, v@),
{
    let mut i: usize = 0;
    while i < filters.len()
        invariant
            i <= filters@.len(),
            forall|k: int| 0 <= k < i ==> holds(#[trigger] filters@[k], v@),
        decreases filters.len() - i,
    {
        if !filters[i].test(v) {
            return false;
        }
        i = i + 1;
    }
    true
}

impl NounClause {
    /// Whether a node fits the clause (see `matches`).
    pub fn matches(&self, value: &Value) -> (r: bool)
        ensures
            r == matches(self@, value@),
    {
        match get_field(value, "noun") {
            Some(Value::String(noun)) => {
                if self.noun != *noun {
                    return false;
                }
            },
            _ => {
                return false;
            },
        }
        match &self.adjective {
            None => true,
            Some(desired) => contains_string(get_field(value, "adjectives"), desired),
        }
    }
}

/// A world document that questions are asked of.
pub struct Scene {
    root: Value,
}

impl View for Scene {
    type V = Json;

    closed spec fn view(&self) -> Json {
        self.root@
    }
}

impl Scene {
    /// A scene holding the document `root`.
    pub fn new(root: Value) -> (r: Scene)
        ensures
            r@ == root@,
    {
        Scene { root: root }
    }

    /// The document.
    pub fn root(&self) -> (r: &Value)
        ensures
            r@ == self@,
    {
        &self.root
    }

    /// Answers a question about the document (see `answer`); the document
    /// does not change.
    pub fn ask_question(&mut self, sentence: &Sentence) -> (r: bool)
        ensures
            final(self)@ == old(self)@,
            r == answer(sentence@, old(self)@),
    {
        match self.ask_question_helper(sentence) {
            Some(result) => result,
            None => false,
        }
    }

    fn ask_question_helper(&self, sentence: &Sentence) -> (r: Option<bool>)
        ensures
            r == ask(sentence@, self@),
    {
        let q_type = match &sentence.q_type {
            Some(q) => q,
            None => {
                return None;
            },
        };
        let unfiltered: Vec<Predicate> = Vec::new();
        proof {
            assert(unfiltered@ =~= Seq::<Predicate>::empty());
        }
        let location: Option<Value> = match &sentence.prep {
            Some(prep) => {
                let found = Self::select_custom_root(&prep.noun_clause, &unfiltered, &self.root);
                proof {
                    lemma_jsons_of_index(found@);
                }
                if found.len() == 0 {
                    return Some(false);
                }
                Some(found[0].copy())
            },
            None => None,
        };
        let filter = match Predicate::from_name(q_type.as_str()) {
            Some(f) => f,
            None => {
                return None;
            },
        };
        let filters = vec![filter];
        proof {
            assert(filters@ =~= seq![filter]);
        }
        let subjects = match &location {
            Some(loc) => Self::select_custom_root(&sentence.subject, &filters, loc),
            None => Self::select_custom_root(&sentence.subject, &filters, &self.root),
        };
        proof {
            lemma_jsons_of_index(subjects@);
        }
        Some(subjects.len() >= 1)
    }

    /// The nodes under the document (never the document itself) that fit
    /// `noun_clause` and pass every filter, in pre-order, as they were
    /// before the call. With a transform, a node that fits the clause is
    /// removed from its parent's children unless it passes every filter and
    /// the transform; the nodes that do not fit stay. Without one the
    /// document does not change.
    pub fn select(
        &mut self,
        noun_clause: &NounClause,
        filters: &Vec<Predicate>,
        transform: Option<Predicate>,
    ) -> (r: Vec<Value>)
        ensures
            jsons_of(r@) == visit(noun_clause@, filters@, transform, old(self)@).0,
            final(self)@ == visit(noun_clause@, filters@, transform, old(self)@).1,
    {
        let mut results: Vec<Value> = Vec::new();
        let new_root = Self::select_helper(&mut results, noun_clause, filters, transform, &self.root);
        proof {
            assert(jsons_of(results@) =~= Seq::<Json>::empty() + visit(
                noun_clause@,
                filters@,
                transform,
                self.root@,
            ).0);
        }
        if transform.is_some() {
            self.root = new_root;
        }
        results
    }

    /// The nodes under `root` that fit `noun_clause` and pass every filter.
    fn select_custom_root(noun_clause: &NounClause, filters: &Vec<Predicate>, root: &Value) -> (r:
        Vec<Value>)
        ensures
            jsons_of(r@) == visit(noun_clause@, filters@, None, root@).0,
    {
        let mut results: Vec<Value> = Vec::new();
        let _ = Self::select_helper(&mut results, noun_clause, filters, None, root);
        proof {
            assert(jsons_of(results@) =~= Seq::<Json>::empty() + visit(
                noun_clause@,
                filters@,
                None,
                root@,
            ).0);
        }
        results
    }

    /// Visits the descendants of `value` (see `visit`): appends the nodes
    /// found to `results` and returns `value` rewritten.
    fn select_helper(
        results: &mut Vec<Value>,
        noun_clause: &NounClause,
        filters: &Vec<Predicate>,
        transform: Option<Predicate>,
        value: &Value,
    ) -> (r: Value)
        ensures
            jsons_of(final(results)@) == jsons_of(old(results)@) + visit(
                noun_clause@,
                filters@,
                transform,
                value@,
            ).0,
            r@ == visit(noun_clause@, filters@, transform, value@).1,
        decreases value,
    {
        let ghost r0 = jsons_of(results@);
        match value {
            Value::Object(es) => {
                let key = String::from_str("children");
                match key_position(es, &key) {
                    None => {
                        proof {
                            assert(jsons_of(results@) =~= r0 + Seq::<Json>::empty());
                        }
                        value.copy()
                    },
                    Some(i) => {
                        proof {
                            lemma_entries_of_index(es@);
                            lemma_key_pos(entries_of(es@), key@);
                        }
                        let kids = &es[i].1;
                        let kept: Vec<Value> = match kids {
                            Value::Array(cs) => {
                                proof {
                                    assert(decreases_to!(*value => (*value)->Object_0));
                                    assert(decreases_to!(*es => es@));
                                    assert(decreases_to!(es@ => es@[i as int]));
                                    assert(decreases_to!(es@[i as int] => es@[i as int].1));
                                    assert(decreases_to!(*kids => (*kids)->Array_0));
                                }
                                Self::select_children(results, noun_clause, filters, transform, cs)
                            },
                            _ => {
                                proof {
                                    assert(jsons_of(results@) =~= r0 + Seq::<Json>::empty());
                                }
                                Vec::new()
                            },
                        };
                        let is_null = match kids {
                            Value::Null => true,
                            _ => false,
                        };
                        if transform.is_some() && !is_null {
                            let mut out: Vec<(String, Value)> = Vec::new();
                            let mut j: usize = 0;
                            proof {
                                assert(entries_of(out@) =~= entries_of(es@).take(0));
                            }
                            while j < es.len()
                                invariant
                                    i < es@.len(),
                                    j <= es@.len(),
                                    entries_of(es@).len() == es@.len(),
                                    forall|k: int|
                                        0 <= k < es@.len() ==> #[trigger] entries_of(es@)[k] == (
                                            es@[k].0@,
                                            json_of(&es@[k].1),
                                        ),
                                    entries_of(out@) == entries_of(es@).take(j as int),
                                decreases es.len() - j,
                            {
                                let c = es[j].1.copy();
                                let k = es[j].0.clone();
                                let ghost before = out@;
                                out.push((k, c));
                                proof {
                                    assert(out@.drop_last() =~= before);
                                    assert(entries_of(es@).take(j + 1) =~= entries_of(es@).take(
                                        j as int,
                                    ).push((k@, c@)));
                                }
                                j = j + 1;
                            }
                            let ghost kept_view = jsons_of(kept@);
                            proof {
                                assert(entries_of(es@).take(es@.len() as int) =~= entries_of(es@));
                                lemma_entries_of_index(out@);
                            }
                            let name = es[i].0.clone();
                            let ghost before = out@;
                            out.set(i, (name, Value::Array(kept)));
                            proof {
                                assert(entries_of(es@).take(es@.len() as int) =~= entries_of(es@));
                                lemma_entries_of_index(before);
                                lemma_entries_of_index(out@);
                                assert(entries_of(out@) =~= entries_of(es@).update(
                                    i as int,
                                    (es@[i as int].0@, Json::Array(kept_view)),
                                ));
                            }
                            Value::Object(out)
                        } else {
                            value.copy()
                        }
                    },
                }
            },
            _ => {
                proof {
                    assert(jsons_of(results@) =~= r0 + Seq::<Json>::empty());
                }
                value.copy()
            },
        }
    }

    /// Visits a list of children (see `visit_list`): appends the nodes found
    /// to `results` and returns the children kept.
    fn select_children(
        results: &mut Vec<Value>,
        noun_clause: &NounClause,
        filters: &Vec<Predicate>,
        transform: Option<Predicate>,
        cs: &Vec<Value>,
    ) -> (kept: Vec<Value>)
        ensures
            jsons_of(final(results)@) == jsons_of(old(results)@) + visit_list(
                noun_clause@,
                filters@,
                transform,
                jsons_of(cs@),
            ).0,
            jsons_of(kept@) == visit_list(noun_clause@, filters@, transform, jsons_of(cs@)).1,
        decreases cs,
    {
        let ghost r0 = jsons_of(results@);
        let ghost xs = jsons_of(cs@);
        let ghost nc = noun_clause@;
        let ghost fs = filters@;
        let mut kept: Vec<Value> = Vec::new();
        proof {
            lemma_jsons_of_index(cs@);
            assert(xs.take(0) =~= Seq::<Json>::empty());
            assert(jsons_of(results@) =~= r0 + Seq::<Json>::empty());
            assert(jsons_of(kept@) =~= Seq::<Json>::empty());
        }
        let mut j: usize = 0;
        while j < cs.len()
            invariant
                xs == jsons_of(cs@),
                nc == noun_clause@,
                fs == filters@,
                xs.len() == cs@.len(),
                forall|k: int| 0 <= k < cs@.len() ==> #[trigger] xs[k] == json_of(&cs@[k]),
                j <= cs@.len(),
                jsons_of(results@) == r0 + visit_list(nc, fs, transform, xs.take(j as int)).0,
                jsons_of(kept@) == visit_list(nc, fs, transform, xs.take(j as int)).1,
            decreases cs.len() - j,
        {
            let c = &cs[j];
            let ghost prev = visit_list(nc, fs, transform, xs.take(j as int));
            let ghost below = visit(nc, fs, transform, c@);
            proof {
                assert(xs.take(j + 1).drop_last() =~= xs.take(j as int));
                assert(xs.take(j + 1).last() == c@);
            }
            let matched = noun_clause.matches(c);
            let hit = matched && passes_all(filters, c);
            if hit {
                let snapshot = c.copy();
                proof {
                    lemma_jsons_of_push(results@, snapshot);
                }
                results.push(snapshot);
            }
            let keep = match transform {
                Some(p) => !matched || (hit && p.test(c)),
                None => true,
            };
            proof {
                assert(decreases_to!(*cs => cs@));
                assert(decreases_to!(cs@ => cs@[j as int]));
            }
            let rewritten = Self::select_helper(results, noun_clause, filters, transform, c);
            proof {
                if hit {
                    assert(jsons_of(results@) =~= r0 + (prev.0.push(c@) + below.0));
                } else {
                    assert(jsons_of(results@) =~= r0 + (prev.0 + below.0));
                }
            }
            if keep {
                proof {
                    lemma_jsons_of_push(kept@, rewritten);
                }
                kept.push(rewritten);
            }
            j = j + 1;
        }
        proof {
            assert(xs.take(cs@.len() as int) =~= xs);
        }
        kept
    }
}

proof fn lemma_key_pos_update(es: Seq<(Seq<char>, Json)>, i: int, x: Json, k: Seq<char>)
    requires
        0 <= i < es.len(),
    ensures
        key_pos(es.update(i, (es[i].0, x)), k) == key_pos(es, k),
    decreases es.len(),
{
    let es2 = es.update(i, (es[i].0, x));
    if i < es.len() - 1 {
        assert(es2.drop_last() =~= es.drop_last().update(i, (es.drop_last()[i].0, x)));
        lemma_key_pos_update(es.drop_last(), i, x, k);
    } else {
        assert(es2.drop_last() =~= es.drop_last());
    }
}

/// A rewrite by `visit` changes no field but `children`.
proof fn lemma_visit_keeps_fields(nc: NounView, fs: Seq<Predicate>, t: Option<Predicate>, v: Json, k: Seq<char>)
    requires
        k != "children"@,
    ensures
        field(visit(nc, fs, t, v).1, k) == field(v, k),
{
    if let Json::Object(es) = v {
        if let Some(i) = key_pos(es, "children"@) {
            lemma_key_pos(es, "children"@);
            let kids = es[i].1;
            if t is Some && kids != Json::Null {
                let kept = visit(nc, fs, t, v).1->Object_0[i].1;
                lemma_key_pos_update(es, i, kept, k);
                lemma_key_pos(es, k);
            }
        }
    }
}

/// A rewrite by `visit` keeps whether a node fits a clause.
proof fn lemma_visit_keeps_matches(nc: NounView, fs: Seq<Predicate>, t: Option<Predicate>, v: Json)
    ensures
        matches(nc, visit(nc, fs, t, v).1) == matches(nc, v),
{
    reveal_strlit("children");
    reveal_strlit("noun");
    reveal_strlit("adjectives");
    assert("noun"@.len() != "children"@.len());
    assert("adjectives"@.len() != "children"@.len());
    lemma_visit_keeps_fields(nc, fs, t, v, "noun"@);
    lemma_visit_keeps_fields(nc, fs, t, v, "adjectives"@);
}

proof fn lemma_removed_list_clear(nc: NounView, fs: Seq<Predicate>, fs2: Seq<Predicate>, cs: Seq<Json>)
    ensures
        visit_list(nc, fs2, None, visit_list(nc, fs, Some(Predicate::Remove), cs).1).0.len() == 0,
    decreases cs,
{
    if cs.len() > 0 {
        let c = cs.last();
        let prev = visit_list(nc, fs, Some(Predicate::Remove), cs.drop_last()).1;
        lemma_removed_list_clear(nc, fs, fs2, cs.drop_last());
        if !matches(nc, c) {
            let c2 = visit(nc, fs, Some(Predicate::Remove), c).1;
            lemma_removed_clear(nc, fs, fs2, c);
            lemma_visit_keeps_matches(nc, fs, Some(Predicate::Remove), c);
            assert(prev.push(c2).drop_last() =~= prev);
        }
    }
}

proof fn lemma_removed_clear(nc: NounView, fs: Seq<Predicate>, fs2: Seq<Predicate>, v: Json)
    ensures
        visit(nc, fs2, None, visit(nc, fs, Some(Predicate::Remove), v).1).0.len() == 0,
    decreases v,
{
    if let Json::Object(es) = v {
        if let Some(i) = key_pos(es, "children"@) {
            lemma_key_pos(es, "children"@);
            let kids = es[i].1;
            if kids != Json::Null {
                let kept = match kids {
                    Json::Array(cs) => {
                        assert(decreases_to!(v => v->Object_0));
                        assert(decreases_to!(es => es[i]));
                        assert(decreases_to!(es[i] => es[i].1));
                        assert(decreases_to!(kids => kids->Array_0));
                        lemma_removed_list_clear(nc, fs, fs2, cs);
                        visit_list(nc, fs, Some(Predicate::Remove), cs).1
                    },
                    _ => Seq::empty(),
                };
                lemma_key_pos_update(es, i, Json::Array(kept), "children"@);
            }
        }
    }
}

/// After a selection with the `Remove` transform, no node under the
/// document fits the clause: a later selection with that clause finds
/// nothing, whatever its filters.
pub proof fn lemma_remove_selected(nc: NounView, fs: Seq<Predicate>, fs2: Seq<Predicate>, doc: Json)
    ensures
        visit(nc, fs2, None, visit(nc, fs, Some(Predicate::Remove), doc).1).0.len() == 0,
{
    lemma_removed_clear(nc, fs, fs2, doc);
}

/// A selection without a transform leaves the document as it is, so doing
/// it twice finds the same nodes both times.
pub proof fn lemma_select_without_transform(nc: NounView, fs: Seq<Predicate>, doc: Json)
    ensures
        visit(nc, fs, None, doc).1 == doc,
        visit(nc, fs, None, visit(nc, fs, None, doc).1).0 == visit(nc, fs, None, doc).0,
{
}

} // verus!
