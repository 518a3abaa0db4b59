//! The meaning of a parsed sentence: subject, verb, place and question.
use vstd::prelude::*;

use crate::ast::{Tree, AST};
use crate::ast_search::{find_child, terminal_in, ASTSearch};
use crate::text::opt_view;

verus! {

/// The mathematical value of a `NounClause`.
pub struct NounView {
    pub noun: Seq<char>,
    pub count: Option<Seq<char>>,
    pub adjective: Option<Seq<char>>,
}

/// The mathematical value of a `PrepClause`.
pub struct PrepView {
    pub prep: Seq<char>,
    pub noun_clause: NounView,
}

/// The mathematical value of a `Sentence`.
pub struct SentenceView {
    pub verb: Seq<char>,
    pub subject: NounView,
    pub prep: Option<PrepView>,
    pub q_type: Option<Seq<char>>,
    pub is_question: bool,
}

/// The first of three optional values that is present.
pub open spec fn first_of(
    a: Option<Seq<char>>,
    b: Option<Seq<char>>,
    c: Option<Seq<char>>,
) -> Option<Seq<char>> {
    if a is Some {
        a
    } else if b is Some {
        b
    } else {
        c
    }
}

/// The noun clause read from a view: its noun is required; its count is a
/// number or an article; its adjective is optional.
pub open spec fn noun_clause_of(t: Option<Tree>) -> Option<NounView> {
    match terminal_in(t, "noun"@) {
        Some(noun) => Some(
            NounView {
                noun: noun,
                count: first_of(
                    terminal_in(t, "number"@),
                    terminal_in(t, "definiteArticle"@),
                    terminal_in(t, "indefiniteArticle"@),
                ),
                adjective: terminal_in(t, "adjective"@),
            },
        ),
        None => None,
    }
}

/// The prepositional clause read from a view: a preposition and the noun
/// clause below it, both required.
pub open spec fn prep_clause_of(t: Option<Tree>) -> Option<PrepView> {
    match (terminal_in(t, "prep"@), noun_clause_of(find_child(t, "NounClause"@))) {
        (Some(prep), Some(nc)) => Some(PrepView { prep: prep, noun_clause: nc }),
        _ => None,
    }
}

/// The sentence read from a tree. Without a `verb` it is a question, whose
/// verb is its `qVerb` and whose kind is its `type`.
pub open spec fn sentence_of(t: Tree) -> Option<SentenceView> {
    let root = Some(t);
    let subject = noun_clause_of(find_child(root, "NounClause"@));
    let verb = terminal_in(root, "verb"@);
    let prep = prep_clause_of(find_child(root, "PrepClause"@));
    let is_question = verb is None;
    let verb = if is_question {
        terminal_in(root, "qVerb"@)
    } else {
        verb
    };
    let q_type = if is_question {
        terminal_in(root, "type"@)
    } else {
        None
    };
    match (subject, verb) {
        (Some(subject), Some(verb)) => Some(
            SentenceView {
                verb: verb,
                subject: subject,
                prep: prep,
                q_type: q_type,
                is_question: is_question,
            },
        ),
        _ => None,
    }
}

/// An optional word as text: the word, or `None`.
pub open spec fn opt_text(o: Option<Seq<char>>) -> Seq<char> {
    match o {
        Some(s) => s,
        None => "None"@,
    }
}

/// The text of a noun clause: `NounClause(noun, count, adjective)`.
pub open spec fn noun_text(n: NounView) -> Seq<char> {
    "NounClause("@ + n.noun + ", "@ + opt_text(n.count) + ", "@ + opt_text(n.adjective) + ")"@
}

/// The text of a prepositional clause: `PrepClause(prep, noun clause)`.
pub open spec fn prep_text(p: PrepView) -> Seq<char> {
    "PrepClause("@ + p.prep + ", "@ + noun_text(p.noun_clause) + ")"@
}

/// The text of a sentence: `Sentence(subject, verb, prep, type, question)`.
pub open spec fn sentence_text(s: SentenceView) -> Seq<char> {
    "Sentence("@ + noun_text(s.subject) + ", "@ + s.verb + ", "@ + match s.prep {
        Some(p) => prep_text(p),
        None => "None"@,
    } + ", "@ + opt_text(s.q_type) + ", "@ + if s.is_question {
        "true"@
    } else {
        "false"@
    } + ")"@
}

/// A noun with an optional count (article or number) and adjective.
#[derive(Debug)]
pub struct NounClause {
    pub noun: String,
    pub count: Option<String>,
    pub adjective: Option<String>,
}

impl View for NounClause {
    type V = NounView;

    open spec fn view(&self) -> NounView {
        NounView { noun: self.noun@, count: opt_view(self.count), adjective: opt_view(self.adjective) }
    }
}

/// A preposition with the noun clause it governs.
#[derive(Debug)]
pub struct PrepClause {
    pub prep: String,
    pub noun_clause: NounClause,
}

impl View for PrepClause {
    type V = PrepView;

    open spec fn view(&self) -> PrepView {
        PrepView { prep: self.prep@, noun_clause: self.noun_clause@ }
    }
}

/// The meaning of a sentence or question.
#[derive(Debug)]
pub struct Sentence {
    pub verb: String,
    pub subject: NounClause,
    pub prep: Option<PrepClause>,
    pub q_type: Option<String>,
    pub is_question: bool,
}

/// The view of an optional prepositional clause.
pub open spec fn opt_prep_view(p: Option<PrepClause>) -> Option<PrepView> {
    match p {
        Some(p) => Some(p@),
        None => None,
    }
}

impl View for Sentence {
    type V = SentenceView;

    open spec fn view(&self) -> SentenceView {
        SentenceView {
            verb: self.verb@,
            subject: self.subject@,
            prep: opt_prep_view(self.prep),
            q_type: opt_view(self.q_type),
            is_question: self.is_question,
        }
    }
}

/// Appends an optional word, or `None`, to `out`.
fn optional_write(out: &mut String, o_str: &Option<String>)
    ensures
        final(out)@ == old(out)@ + opt_text(opt_view(*o_str)),
{
    if let Some(o_str) = o_str {
        out.append(o_str.as_str());
    } else {
        out.append("None");
    }
}

impl NounClause {
    pub fn new(noun: String, count: Option<String>, adjective: Option<String>) -> (r: NounClause)
        ensures
            r@ == (NounView { noun: noun@, count: opt_view(count), adjective: opt_view(adjective) }),
    {
        NounClause { noun: noun, count: count, adjective: adjective }
    }

    /// Reads a noun clause from a view; `None` without a noun.
    pub fn from_ast<'ast>(search: ASTSearch<'ast>) -> (r: Option<NounClause>)
        ensures
            match r {
                Some(n) => noun_clause_of(search@) == Some(n@),
                None => noun_clause_of(search@) is None,
            },
    {
        let noun = search.get_terminal("noun");
        let noun = match noun {
            Some(n) => n,
            None => {
                return None;
            },
        };
        let number = search.get_terminal("number");
        let definite = search.get_terminal("definiteArticle");
        let indefinite = search.get_terminal("indefiniteArticle");
        let count = if number.is_some() {
            number
        } else if definite.is_some() {
            definite
        } else {
            indefinite
        };
        let adjective = search.get_terminal("adjective");
        Some(NounClause::new(noun, count, adjective))
    }

    /// The text of the clause (see `noun_text`).
    pub fn to_string(&self) -> (r: String)
        ensures
            r@ == noun_text(self@),
    {
        let mut out = String::from_str("NounClause(");
        out.append(self.noun.as_str());
        out.append(", ");
        optional_write(&mut out, &self.count);
        out.append(", ");
        optional_write(&mut out, &self.adjective);
        out.append(")");
        proof {
            assert(out@ =~= noun_text(self@));
        }
        out
    }
}

impl PrepClause {
    pub fn new(prep: String, noun_clause: NounClause) -> (r: PrepClause)
        ensures
            r@ == (PrepView { prep: prep@, noun_clause: noun_clause@ }),
    {
        PrepClause { prep: prep, noun_clause: noun_clause }
    }

    /// Reads a prepositional clause from a view; `None` unless both the
    /// preposition and its noun clause are there.
    pub fn from_ast<'ast>(search: ASTSearch<'ast>) -> (r: Option<PrepClause>)
        ensures
            match r {
                Some(p) => prep_clause_of(search@) == Some(p@),
                None => prep_clause_of(search@) is None,
            },
    {
        let prep = match search.get_terminal("prep") {
            Some(p) => p,
            None => {
                return None;
            },
        };
        let noun_clause = match NounClause::from_ast(search.child_tree("NounClause")) {
            Some(n) => n,
            None => {
                return None;
            },
        };
        Some(PrepClause::new(prep, noun_clause))
    }

    /// The text of the clause (see `prep_text`).
    pub fn to_string(&self) -> (r: String)
        ensures
            r@ == prep_text(self@),
    {
        let mut out = String::from_str("PrepClause(");
        out.append(self.prep.as_str());
        out.append(", ");
        let inner = self.noun_clause.to_string();
        out.append(inner.as_str());
        out.append(")");
        proof {
            assert(out@ =~= prep_text(self@));
        }
        out
    }
}

impl Sentence {
    pub fn new(
        subject: NounClause,
        verb: String,
        prep: Option<PrepClause>,
        q_type: Option<String>,
        is_question: bool,
    ) -> (r: Sentence)
        ensures
            r@ == (SentenceView {
                verb: verb@,
                subject: subject@,
                prep: opt_prep_view(prep),
                q_type: opt_view(q_type),
                is_question: is_question,
            }),
    {
        Sentence { subject: subject, verb: verb, prep: prep, q_type: q_type, is_question: is_question }
    }

    /// Reads the meaning of a parsed sentence; `None` without a subject or a verb.
    pub fn from_ast(ast: &AST) -> (r: Option<Sentence>)
        ensures
            match r {
                Some(s) => sentence_of(ast@) == Some(s@),
                None => sentence_of(ast@) is None,
            },
    {
        let search = ASTSearch::new(Some(ast));
        let subject = match NounClause::from_ast(search.child_tree("NounClause")) {
            Some(s) => s,
            None => {
                return None;
            },
        };
        let mut verb = search.get_terminal("verb");
        let prep = PrepClause::from_ast(search.child_tree("PrepClause"));
        let mut is_question = false;
        let mut q_type = None;
        if verb.is_none() {
            is_question = true;
            verb = search.get_terminal("qVerb");
            q_type = search.get_terminal("type");
        }
        let verb = match verb {
            Some(v) => v,
            None => {
                return None;
            },
        };
        Some(Sentence::new(subject, verb, prep, q_type, is_question))
    }

    /// The text of the sentence (see `sentence_text`).
    pub fn to_string(&self) -> (r: String)
        ensures
            r@ == sentence_text(self@),
    {
        let mut out = String::from_str("Sentence(");
        let subject = self.subject.to_string();
        out.append(subject.as_str());
        out.append(", ");
        out.append(self.verb.as_str());
        out.append(", ");
        match &self.prep {
            Some(prep) => {
                let p = prep.to_string();
                out.append(p.as_str());
            },
            None => {
                out.append("None");
            },
        }
        out.append(", ");
        optional_write(&mut out, &self.q_type);
        out.append(", ");
        if self.is_question {
            out.append("true");
        } else {
            out.append("false");
        }
        out.append(")");
        proof {
            assert(out@ =~= sentence_text(self@));
        }
        out
    }
}

} // verus!
