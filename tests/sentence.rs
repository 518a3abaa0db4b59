use wander::ast_search::ASTSearch;
use wander::lang::Lang;
use wander::sentence::{NounClause, PrepClause, Sentence};

const RULES: &str = "S: Verb NounClause
S: Verb NounClause PrepClause
S: QVerb NounClause Type
S: QVerb NounClause PrepClause Type
NounClause: Count ANoun
ANoun: Adjective Noun | noun
PrepClause: Prep NounClause
Count: definiteArticle | indefiniteArticle | number
Verb: verb
QVerb: qVerb
Type: type
Adjective: adjective
Noun: noun
Prep: prep
";

const WORDS: &str = "eat verb
does qVerb
is qVerb
the definiteArticle
a indefiniteArticle
two number
green adjective
red adjective
apple noun
table noun
on prep
exist type
edible type
";

fn make_lang() -> Lang {
    let mut lang = Lang::new();
    lang.init_rules(RULES);
    lang.init_words(WORDS);
    lang
}

#[test]
fn test_sentence_from_ast() {
    let lang = make_lang();
    let test = "eat the green apple on a table";
    let ast = lang.parse_sentence(test).unwrap();
    let sentence = Sentence::from_ast(&ast).unwrap();
    assert_eq!(
        "Sentence(NounClause(apple, the, green), eat, PrepClause(on, NounClause(table, a, None)), None, false)",
        sentence.to_string()
    );
}

#[test]
fn test_question_sentence_from_ast() {
    let lang = make_lang();
    let test = "does the green apple on a table exist";
    let ast = lang.parse_sentence(test).unwrap();
    let sentence = Sentence::from_ast(&ast).unwrap();
    assert_eq!(
        "Sentence(NounClause(apple, the, green), does, PrepClause(on, NounClause(table, a, None)), exist, true)",
        sentence.to_string()
    );
}

#[test]
fn sentence_fields_from_ast() {
    let lang = make_lang();
    let ast = lang.parse_sentence("eat the green apple on a table").unwrap();
    let sentence = Sentence::from_ast(&ast).unwrap();
    assert_eq!("apple", sentence.subject.noun);
    assert_eq!(Some("the".to_string()), sentence.subject.count);
    assert_eq!(Some("green".to_string()), sentence.subject.adjective);
    assert_eq!("eat", sentence.verb);
    let prep = sentence.prep.as_ref().unwrap();
    assert_eq!("on", prep.prep);
    assert_eq!("table", prep.noun_clause.noun);
    assert_eq!(Some("a".to_string()), prep.noun_clause.count);
    assert_eq!(None, prep.noun_clause.adjective);
    assert_eq!(None, sentence.q_type);
    assert!(!sentence.is_question);
}

#[test]
fn question_without_place() {
    let lang = make_lang();
    let ast = lang.parse_sentence("is a red apple edible").unwrap();
    let sentence = Sentence::from_ast(&ast).unwrap();
    assert!(sentence.is_question);
    assert_eq!("is", sentence.verb);
    assert_eq!(Some("edible".to_string()), sentence.q_type);
    assert!(sentence.prep.is_none());
    assert_eq!(
        "Sentence(NounClause(apple, a, red), is, None, edible, true)",
        sentence.to_string()
    );
}

#[test]
fn count_may_be_a_number() {
    let lang = make_lang();
    let ast = lang.parse_sentence("eat two apple").unwrap();
    let sentence = Sentence::from_ast(&ast).unwrap();
    assert_eq!("NounClause(apple, two, None)", sentence.subject.to_string());
}

#[test]
fn tree_without_subject_is_not_a_sentence() {
    let mut lang = Lang::new();
    lang.init_rules("S: Verb Noun\nVerb: verb\nNoun: noun\n");
    lang.init_words("eat verb\napple noun\n");
    let ast = lang.parse_sentence("eat apple").unwrap();
    assert!(Sentence::from_ast(&ast).is_none());
}

#[test]
fn tree_without_verb_is_not_a_sentence() {
    let mut lang = Lang::new();
    lang.init_rules("S: Type NounClause\nType: type\nNounClause: noun\n");
    lang.init_words("exist type\napple noun\n");
    let ast = lang.parse_sentence("exist apple").unwrap();
    assert!(Sentence::from_ast(&ast).is_none());
}

#[test]
fn search_views() {
    let lang = make_lang();
    let ast = lang.parse_sentence("eat the green apple on a table").unwrap();
    let search = ASTSearch::new(Some(&ast));
    assert_eq!(Some("eat".to_string()), search.get_terminal("verb"));
    assert_eq!(Some("apple".to_string()), search.get_terminal("noun"));
    assert_eq!(None, search.get_terminal("qVerb"));
    let prep = search.get_tree("PrepClause");
    assert_eq!(Some("table".to_string()), prep.get_terminal("noun"));
    let nested = prep.child_tree("NounClause");
    assert_eq!(Some("a".to_string()), nested.get_terminal("indefiniteArticle"));
    // one level only: the NounClause inside the PrepClause is not a child of the root
    let missing = search.child_tree("Prep");
    assert_eq!(None, missing.get_terminal("prep"));
    let empty = ASTSearch::new(None);
    assert_eq!(None, empty.get_terminal("noun"));
    assert_eq!(None, empty.get_tree("NounClause").get_terminal("noun"));
    assert_eq!(None, empty.child_tree("NounClause").get_terminal("noun"));
}

#[test]
fn clause_constructors() {
    let nc = NounClause::new("apple".to_string(), None, Some("red".to_string()));
    assert_eq!("NounClause(apple, None, red)", nc.to_string());
    let pc = PrepClause::new("on".to_string(), nc);
    assert_eq!("PrepClause(on, NounClause(apple, None, red))", pc.to_string());
    let subject = NounClause::new("table".to_string(), Some("a".to_string()), None);
    let s = Sentence::new(subject, "eat".to_string(), Some(pc), None, false);
    assert_eq!(
        "Sentence(NounClause(table, a, None), eat, PrepClause(on, NounClause(apple, None, red)), None, false)",
        s.to_string()
    );
}

#[test]
fn noun_clause_from_empty_view() {
    assert!(NounClause::from_ast(ASTSearch::new(None)).is_none());
    assert!(PrepClause::from_ast(ASTSearch::new(None)).is_none());
}
