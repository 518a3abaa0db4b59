//! A context-free grammar compiled from rule text and a lexicon, with a
//! CYK parser that turns sentences into syntax trees.
use vstd::prelude::*;

use crate::ast::{lemma_trees_of_pair, tree_wf, trees_of, Tree, AST};
use crate::table::{
    append_value, find_key, has_key, key_index, keys_unique, lemma_lookup_at, lemma_put_unique,
    list_table_view, lookup, name_table_view, push_to_list, put, put_absent, put_name_absent,
};
use crate::text::{
    filled_lines, first_char_lowercase, first_char_uppercase, nonempty_lines, split_char,
    opt_view, split_on, split_words, starts_lower, starts_upper, views, words_of,
};

verus! {

/// The mathematical value of a compiled grammar.
pub struct Grammar {
    /// Terminal category to the non-terminals that produce it.
    pub terminals: Seq<(Seq<char>, Seq<Seq<char>>)>,
    /// Pair key (see `key_of`) to the non-terminals that produce the pair.
    pub pairs: Seq<(Seq<char>, Seq<Seq<char>>)>,
    /// Word of the lexicon to its terminal category.
    pub words: Seq<(Seq<char>, Seq<char>)>,
    /// How many symbols were generated to break up longer rules.
    pub generated: nat,
    /// Generated symbol to the non-terminal it stands in for.
    pub origins: Seq<(Seq<char>, Seq<char>)>,
}

/// The grammar with no rules and no words.
pub open spec fn empty_grammar() -> Grammar {
    Grammar {
        terminals: Seq::empty(),
        pairs: Seq::empty(),
        words: Seq::empty(),
        generated: 0,
        origins: Seq::empty(),
    }
}

/// The key under which the rules producing `a` followed by `b` are stored.
pub open spec fn key_of(a: Seq<char>, b: Seq<char>) -> Seq<char> {
    a + "::"@ + b
}

/// The digits used to write numbers.
pub open spec fn digit_char(d: nat) -> char {
    "0123456789"@[d as int]
}

/// `n` written in decimal.
pub open spec fn decimal(n: nat) -> Seq<char>
    decreases n,
{
    if n < 10 {
        seq![digit_char(n)]
    } else {
        decimal(n / 10).push(digit_char(n % 10))
    }
}

/// The name of the `k`-th generated symbol; the leading `_` marks it as generated.
pub open spec fn gen_name(k: nat) -> Seq<char> {
    "__"@ + decimal(k)
}

/// Registers `lhs` as a producer of the terminal category `t`.
pub open spec fn add_terminal(g: Grammar, lhs: Seq<char>, t: Seq<char>) -> Grammar {
    Grammar { terminals: append_value(g.terminals, t, lhs), ..g }
}

/// Registers `lhs` as a producer of `a` followed by `b`.
pub open spec fn add_pair(g: Grammar, lhs: Seq<char>, a: Seq<char>, b: Seq<char>) -> Grammar {
    Grammar { pairs: append_value(g.pairs, key_of(a, b), lhs), ..g }
}

/// Generates a fresh symbol standing in for `lhs`.
pub open spec fn next_gen(g: Grammar, lhs: Seq<char>) -> (Grammar, Seq<char>) {
    let k = g.generated + 1;
    let name = gen_name(k);
    (Grammar { generated: k, origins: put_absent(g.origins, name, lhs), ..g }, name)
}

/// The first `k` links of the chain for a rule `lhs : names[0] names[1] ...`:
/// the grammar afterwards and the last symbol generated.
pub open spec fn gen_chain(g: Grammar, lhs: Seq<char>, names: Seq<Seq<char>>, k: nat) -> (
    Grammar,
    Seq<char>,
)
    decreases k,
{
    if k <= 1 {
        let (g1, name) = next_gen(g, lhs);
        (add_pair(g1, name, names[0], names[1]), name)
    } else {
        let (g1, prev) = gen_chain(g, lhs, names, (k - 1) as nat);
        let (g2, name) = next_gen(g1, lhs);
        (add_pair(g2, name, prev, names[k as int]), name)
    }
}

/// Whether every name starts with an uppercase character.
pub open spec fn all_upper(names: Seq<Seq<char>>) -> bool {
    forall|i: int| 0 <= i < names.len() ==> starts_upper(#[trigger] names[i])
}

/// A rule with three or more symbols, chained into pair rules through
/// generated symbols; skipped if a symbol is not a non-terminal or the
/// counter of generated symbols would overflow.
pub open spec fn n_pair_rule(g: Grammar, lhs: Seq<char>, names: Seq<Seq<char>>) -> Grammar {
    if all_upper(names) && g.generated + names.len() - 2 <= u64::MAX {
        let (g1, last) = gen_chain(g, lhs, names, (names.len() - 2) as nat);
        add_pair(g1, lhs, last, names.last())
    } else {
        g
    }
}

/// One alternative `value` of a rule for `lhs`; a malformed one is skipped.
pub open spec fn rule_value(g: Grammar, lhs: Seq<char>, value: Seq<char>) -> Grammar {
    let names = words_of(value);
    if names.len() == 0 {
        g
    } else if names.len() > 2 {
        n_pair_rule(g, lhs, names)
    } else if names.len() == 2 {
        if starts_upper(names[0]) && starts_upper(names[1]) {
            add_pair(g, lhs, names[0], names[1])
        } else {
            g
        }
    } else if starts_lower(names[0]) {
        add_terminal(g, lhs, names[0])
    } else {
        g
    }
}

/// The alternatives of a rule for `lhs`, in order.
pub open spec fn rule_values(g: Grammar, lhs: Seq<char>, values: Seq<Seq<char>>) -> Grammar
    decreases values.len(),
{
    if values.len() == 0 {
        g
    } else {
        rule_value(rule_values(g, lhs, values.drop_last()), lhs, values.last())
    }
}

/// One rule line `LHS : alt | alt ...`; a line without exactly one `:` is skipped.
pub open spec fn rule_line(g: Grammar, line: Seq<char>) -> Grammar {
    let parts = split_on(line, ':');
    if parts.len() == 2 {
        rule_values(g, parts[0], split_on(parts[1], '|'))
    } else {
        g
    }
}

/// Rule lines, in order.
pub open spec fn rule_lines(g: Grammar, lines: Seq<Seq<char>>) -> Grammar
    decreases lines.len(),
{
    if lines.len() == 0 {
        g
    } else {
        rule_line(rule_lines(g, lines.drop_last()), lines.last())
    }
}

/// One lexicon line `word category`; a word keeps its first category.
pub open spec fn word_line(g: Grammar, line: Seq<char>) -> Grammar {
    let ts = words_of(line);
    if ts.len() >= 2 {
        Grammar { words: put_absent(g.words, ts[0], ts[1]), ..g }
    } else {
        g
    }
}

/// Lexicon lines, in order.
pub open spec fn word_lines(g: Grammar, lines: Seq<Seq<char>>) -> Grammar
    decreases lines.len(),
{
    if lines.len() == 0 {
        g
    } else {
        word_line(word_lines(g, lines.drop_last()), lines.last())
    }
}

/// The position of the first name that does not start with an uppercase
/// character.
pub open spec fn first_lower(names: Seq<Seq<char>>) -> Option<int>
    decreases names.len(),
{
    if names.len() == 0 {
        None
    } else {
        match first_lower(names.drop_last()) {
            Some(i) => Some(i),
            None => if !starts_upper(names.last()) {
                Some(names.len() - 1)
            } else {
                None
            },
        }
    }
}

proof fn lemma_first_lower_prefix(names: Seq<Seq<char>>, i: int)
    requires
        0 <= i <= names.len(),
        first_lower(names.take(i)) is Some,
    ensures
        first_lower(names) == first_lower(names.take(i)),
    decreases names.len(),
{
    if names.len() > i {
        assert(names.drop_last().take(i) =~= names.take(i));
        lemma_first_lower_prefix(names.drop_last(), i);
    } else {
        assert(names.take(i) =~= names);
    }
}

/// The message for a skipped alternative `value` of a rule for `lhs`.
pub open spec fn bad_rule_text(lhs: Seq<char>, value: Seq<char>, reason: Seq<char>) -> Seq<char> {
    "[Ignored] Bad rule "@ + lhs + ": "@ + value + "\nReason: "@ + reason
}

/// The message for a skipped rule line.
pub open spec fn badly_formatted_text(line: Seq<char>) -> Seq<char> {
    "[Ignored] Badly formatted rule \""@ + line + "\""@
}

/// An optional message as a list of zero or one messages.
pub open spec fn opt_list(o: Option<Seq<char>>) -> Seq<Seq<char>> {
    match o {
        Some(m) => seq![m],
        None => Seq::empty(),
    }
}

/// The message for a rule of three or more symbols, if one is not a
/// non-terminal: it names the first such symbol.
pub open spec fn n_pair_issue(lhs: Seq<char>, names: Seq<Seq<char>>) -> Seq<Seq<char>> {
    match first_lower(names) {
        Some(i) => seq![bad_rule_text(lhs, names[i], "Unions must be between non-terminal vars"@)],
        None => Seq::empty(),
    }
}

/// The message, if any, for one alternative `value` of a rule for `lhs`.
pub open spec fn value_issue(lhs: Seq<char>, value: Seq<char>) -> Seq<Seq<char>> {
    let names = words_of(value);
    if names.len() == 0 {
        seq![bad_rule_text(lhs, value, "Length must be >=1 for rule"@)]
    } else if names.len() > 2 {
        n_pair_issue(lhs, names)
    } else if names.len() == 2 {
        if starts_upper(names[0]) && starts_upper(names[1]) {
            Seq::empty()
        } else {
            seq![bad_rule_text(lhs, value, "Unions must be between non-terminal vars"@)]
        }
    } else if starts_lower(names[0]) {
        Seq::empty()
    } else {
        seq![bad_rule_text(lhs, value, "No unit rules"@)]
    }
}

/// The messages for the alternatives of a rule for `lhs`, in order.
pub open spec fn value_issues(lhs: Seq<char>, values: Seq<Seq<char>>) -> Seq<Seq<char>>
    decreases values.len(),
{
    if values.len() == 0 {
        Seq::empty()
    } else {
        value_issues(lhs, values.drop_last()) + value_issue(lhs, values.last())
    }
}

/// The messages for one rule line.
pub open spec fn line_issues(line: Seq<char>) -> Seq<Seq<char>> {
    let parts = split_on(line, ':');
    if parts.len() == 2 {
        value_issues(parts[0], split_on(parts[1], '|'))
    } else {
        seq![badly_formatted_text(line)]
    }
}

/// The messages for rule lines, in order.
pub open spec fn rule_issues(lines: Seq<Seq<char>>) -> Seq<Seq<char>>
    decreases lines.len(),
{
    if lines.len() == 0 {
        Seq::empty()
    } else {
        rule_issues(lines.drop_last()) + line_issues(lines.last())
    }
}

/// The message for a skipped alternative of a rule.
fn rule_parsing_error(reason: &str, rule_type: &str, value: &str) -> (r: String)
    ensures
        r@ == bad_rule_text(rule_type@, value@, reason@),
{
    let mut message = String::from_str("[Ignored] Bad rule ");
    message.append(rule_type);
    message.append(": ");
    message.append(value);
    message.append("\nReason: ");
    message.append(reason);
    message
}

/// A grammar: its rule tables and its lexicon.
pub struct Lang {
    terminals: Vec<(String, Vec<String>)>,
    pairs: Vec<(String, Vec<String>)>,
    words: Vec<(String, String)>,
    gen: u64,
    gen_lookup: Vec<(String, String)>,
}

impl View for Lang {
    type V = Grammar;

    closed spec fn view(&self) -> Grammar {
        Grammar {
            terminals: list_table_view(self.terminals@),
            pairs: list_table_view(self.pairs@),
            words: name_table_view(self.words@),
            generated: self.gen as nat,
            origins: name_table_view(self.gen_lookup@),
        }
    }
}

/// The well-formedness of a grammar: no table has a key twice.
pub open spec fn grammar_wf(g: Grammar) -> bool {
    &&& keys_unique(g.terminals)
    &&& keys_unique(g.pairs)
    &&& keys_unique(g.words)
    &&& keys_unique(g.origins)
}

/// The key under which the rules producing `k1` followed by `k2` are stored.
pub fn key_of_pair_rule(k1: &str, k2: &str) -> (r: String)
    ensures
        r@ == key_of(k1@, k2@),
{
    let mut key = String::from_str(k1);
    key.append("::");
    key.append(k2);
    key
}

/// `n` written in decimal.
fn decimal_string(n: u64) -> (r: String)
    ensures
        r@ == decimal(n as nat),
    decreases n,
{
    let digits = "0123456789";
    proof {
        reveal_strlit("0123456789");
    }
    let d = (n % 10) as usize;
    let last = digits.substring_char(d, d + 1);
    proof {
        assert(last@ =~= seq![digit_char(d as nat)]);
    }
    if n < 10 {
        String::from_str(last)
    } else {
        let mut s = decimal_string(n / 10);
        s.append(last);
        s
    }
}

impl Lang {
    /// An empty grammar.
    pub fn new() -> (r: Lang)
        ensures
            r@ == empty_grammar(),
            grammar_wf(r@),
    {
        let r = Lang {
            terminals: Vec::new(),
            pairs: Vec::new(),
            words: Vec::new(),
            gen: 0,
            gen_lookup: Vec::new(),
        };
        proof {
            assert(r@.terminals =~= Seq::empty());
            assert(r@.pairs =~= Seq::empty());
            assert(r@.words =~= Seq::empty());
            assert(r@.origins =~= Seq::empty());
        }
        r
    }

    /// Compiles the rule lines of `rules` into the grammar. A malformed rule
    /// is skipped, the others still apply, and a message saying what was
    /// ignored and why is returned for it, in order.
    pub fn init_rules(&mut self, rules: &str) -> (ignored: Vec<String>)
        requires
            grammar_wf(old(self)@),
        ensures
            grammar_wf(final(self)@),
            final(self)@ == rule_lines(old(self)@, filled_lines(rules@)),
            views(ignored@) == rule_issues(filled_lines(rules@)),
    {
        let lines = nonempty_lines(rules);
        let ghost g0 = self@;
        let ghost ls = views(lines@);
        let mut ignored: Vec<String> = Vec::new();
        let mut i: usize = 0;
        proof {
            assert(ls.take(0) =~= Seq::<Seq<char>>::empty());
            assert(views(ignored@) =~= Seq::<Seq<char>>::empty());
        }
        while i < lines.len()
            invariant
                ls == views(lines@),
                ls == filled_lines(rules@),
                i <= lines@.len(),
                grammar_wf(self@),
                self@ == rule_lines(g0, ls.take(i as int)),
                views(ignored@) == rule_issues(ls.take(i as int)),
            decreases lines.len() - i,
        {
            let line = lines[i].as_str();
            let parts = split_char(line, ':');
            let ghost before = views(ignored@);
            if parts.len() == 2 {
                let values = split_char(parts[1].as_str(), '|');
                let ghost g1 = self@;
                let mut j: usize = 0;
                proof {
                    assert(views(values@).take(0) =~= Seq::<Seq<char>>::empty());
                    assert(views(ignored@) =~= before + value_issues(
                        views(parts@)[0],
                        views(values@).take(0),
                    ));
                }
                while j < values.len()
                    invariant
                        parts@.len() == 2,
                        j <= values@.len(),
                        grammar_wf(self@),
                        self@ == rule_values(g1, views(parts@)[0], views(values@).take(j as int)),
                        views(ignored@) == before + value_issues(
                            views(parts@)[0],
                            views(values@).take(j as int),
                        ),
                    decreases values.len() - j,
                {
                    let issue = self.parse_rule_value(parts[0].as_str(), values[j].as_str());
                    let ghost mid = views(ignored@);
                    if let Some(message) = issue {
                        ignored.push(message);
                    }
                    proof {
                        assert(views(parts@)[0] == parts@[0]@);
                        assert(views(values@)[j as int] == values@[j as int]@);
                        assert(views(values@).take(j + 1).drop_last() =~= views(values@).take(
                            j as int,
                        ));
                        assert(views(values@).take(j + 1).last() == values@[j as int]@);
                        assert(views(ignored@) =~= mid + value_issue(
                            parts@[0]@,
                            values@[j as int]@,
                        ));
                    }
                    j = j + 1;
                }
                proof {
                    assert(views(values@).take(values@.len() as int) =~= views(values@));
                    assert(views(parts@)[1] == parts@[1]@);
                }
            } else {
                let mut message = String::from_str("[Ignored] Badly formatted rule \"");
                message.append(line);
                message.append("\"");
                ignored.push(message);
                proof {
                    assert(views(ignored@) =~= before + seq![badly_formatted_text(line@)]);
                }
            }
            proof {
                assert(line@ == ls[i as int]);
                assert(ls.take(i + 1).drop_last() =~= ls.take(i as int));
                assert(views(ignored@) =~= rule_issues(ls.take(i + 1)));
            }
            i = i + 1;
        }
        proof {
            assert(ls.take(lines@.len() as int) =~= ls);
        }
        ignored
    }

    /// Compiles one alternative `value` of the rule for `rule_type`; a
    /// malformed one is skipped and the message for it returned.
    fn parse_rule_value(&mut self, rule_type: &str, value: &str) -> (issue: Option<String>)
        requires
            grammar_wf(old(self)@),
        ensures
            grammar_wf(final(self)@),
            final(self)@ == rule_value(old(self)@, rule_type@, value@),
            opt_list(opt_view(issue)) == value_issue(rule_type@, value@),
    {
        let names = split_words(value);
        let len_names = names.len();
        if len_names == 0 {
            return Some(rule_parsing_error("Length must be >=1 for rule", rule_type, value));
        }
        if len_names > 2 {
            return self.new_n_pair_rule(rule_type, &names);
        }
        if len_names == 2 {
            if first_char_uppercase(names[0].as_str()) && first_char_uppercase(names[1].as_str()) {
                self.new_pair_rule(rule_type, names[0].as_str(), names[1].as_str());
                return None;
            }
            return Some(
                rule_parsing_error("Unions must be between non-terminal vars", rule_type, value),
            );
        }
        if first_char_lowercase(names[0].as_str()) {
            self.new_terminal_rule(rule_type, names[0].as_str());
            None
        } else {
            Some(rule_parsing_error("No unit rules", rule_type, value))
        }
    }

    /// Compiles a rule of three or more symbols into a chain of pair rules;
    /// a symbol that is not a non-terminal skips the rule, with a message.
    fn new_n_pair_rule(&mut self, rule_type: &str, vals: &Vec<String>) -> (issue: Option<String>)
        requires
            grammar_wf(old(self)@),
            vals@.len() > 2,
        ensures
            grammar_wf(final(self)@),
            final(self)@ == n_pair_rule(old(self)@, rule_type@, views(vals@)),
            opt_list(opt_view(issue)) == n_pair_issue(rule_type@, views(vals@)),
    {
        let ghost names = views(vals@);
        let ghost g0 = self@;
        let mut k: usize = 0;
        proof {
            assert(names.take(0) =~= Seq::<Seq<char>>::empty());
        }
        while k < vals.len()
            invariant
                k <= vals@.len(),
                names == views(vals@),
                forall|i: int| 0 <= i < k ==> starts_upper(#[trigger] names[i]),
                first_lower(names.take(k as int)) is None,
                self@ == g0,
                grammar_wf(g0),
            decreases vals.len() - k,
        {
            proof {
                assert(names.take(k + 1).drop_last() =~= names.take(k as int));
                assert(vals@[k as int]@ == names[k as int]);
            }
            if !first_char_uppercase(vals[k].as_str()) {
                proof {
                    assert(!all_upper(names));
                    lemma_first_lower_prefix(names, k + 1);
                }
                return Some(
                    rule_parsing_error(
                        "Unions must be between non-terminal vars",
                        rule_type,
                        vals[k].as_str(),
                    ),
                );
            }
            k = k + 1;
        }
        proof {
            assert(names.take(vals@.len() as int) =~= names);
        }
        let steps = (vals.len() - 2) as u64;
        if self.gen > u64::MAX - steps {
            return None;
        }
        let mut gname = self.next_gen_name(rule_type);
        self.new_pair_rule(gname.as_str(), vals[0].as_str(), vals[1].as_str());
        let mut i: usize = 2;
        while i < vals.len() - 1
            invariant
                names == views(vals@),
                all_upper(names),
                2 <= i <= vals@.len() - 1,
                g0.generated + names.len() - 2 <= u64::MAX,
                grammar_wf(self@),
                self@.generated == g0.generated + i - 1,
                (self@, gname@) == gen_chain(g0, rule_type@, names, (i - 1) as nat),
            decreases vals.len() - i,
        {
            let next = self.next_gen_name(rule_type);
            self.new_pair_rule(next.as_str(), gname.as_str(), vals[i].as_str());
            gname = next;
            i = i + 1;
        }
        let last = vals.len() - 1;
        self.new_pair_rule(rule_type, gname.as_str(), vals[last].as_str());
        None
    }

    /// Registers `rule_type` as a producer of `k1` followed by `k2`.
    fn new_pair_rule(&mut self, rule_type: &str, k1: &str, k2: &str)
        requires
            grammar_wf(old(self)@),
        ensures
            grammar_wf(final(self)@),
            final(self)@ == add_pair(old(self)@, rule_type@, k1@, k2@),
    {
        let key = key_of_pair_rule(k1, k2);
        push_to_list(&mut self.pairs, key, String::from_str(rule_type));
    }

    /// Registers `rule_type` as a producer of the terminal category `terminal`.
    fn new_terminal_rule(&mut self, rule_type: &str, terminal: &str)
        requires
            grammar_wf(old(self)@),
        ensures
            grammar_wf(final(self)@),
            final(self)@ == add_terminal(old(self)@, rule_type@, terminal@),
    {
        push_to_list(&mut self.terminals, String::from_str(terminal), String::from_str(rule_type));
    }

    /// Generates a fresh symbol standing in for `rule_type`.
    fn next_gen_name(&mut self, rule_type: &str) -> (r: String)
        requires
            grammar_wf(old(self)@),
            old(self)@.generated < u64::MAX,
        ensures
            grammar_wf(final(self)@),
            (final(self)@, r@) == next_gen(old(self)@, rule_type@),
    {
        self.gen = self.gen + 1;
        let mut name = String::from_str("__");
        let digits = decimal_string(self.gen);
        name.append(digits.as_str());
        put_name_absent(&mut self.gen_lookup, name.clone(), String::from_str(rule_type));
        name
    }

    /// Adds the lexicon lines of `words` (`word category`); a word already
    /// known keeps its first category.
    pub fn init_words(&mut self, words: &str)
        requires
            grammar_wf(old(self)@),
        ensures
            grammar_wf(final(self)@),
            final(self)@ == word_lines(old(self)@, filled_lines(words@)),
    {
        let lines = nonempty_lines(words);
        let ghost g0 = self@;
        let ghost ls = views(lines@);
        let mut i: usize = 0;
        proof {
            assert(ls.take(0) =~= Seq::<Seq<char>>::empty());
        }
        while i < lines.len()
            invariant
                ls == views(lines@),
                ls == filled_lines(words@),
                i <= lines@.len(),
                grammar_wf(self@),
                self@ == word_lines(g0, ls.take(i as int)),
            decreases lines.len() - i,
        {
            let pair = split_words(lines[i].as_str());
            if pair.len() >= 2 {
                put_name_absent(&mut self.words, pair[0].clone(), pair[1].clone());
            }
            proof {
                assert(ls.take(i + 1).drop_last() =~= ls.take(i as int));
            }
            i = i + 1;
        }
        proof {
            assert(ls.take(lines@.len() as int) =~= ls);
        }
    }
}


/// What a chart cell records for a symbol.
pub enum Fact {
    /// The symbol produces the word: its category and the word itself.
    Leaf(Seq<char>, Seq<char>),
    /// The symbol produces `.0` over the first `.2` words of the span
    /// followed by `.1` over the rest.
    Split(Seq<char>, Seq<char>, nat),
}

/// A chart cell: each symbol derivable over one span, with how.
pub type Cell = Seq<(Seq<char>, Fact)>;

/// The non-terminals that produce the terminal category `cat`.
pub open spec fn producers(g: Grammar, cat: Seq<char>) -> Seq<Seq<char>> {
    match lookup(g.terminals, cat) {
        Some(xs) => xs,
        None => Seq::empty(),
    }
}

/// The non-terminals that produce `a` followed by `b`.
pub open spec fn pair_producers(g: Grammar, a: Seq<char>, b: Seq<char>) -> Seq<Seq<char>> {
    match lookup(g.pairs, key_of(a, b)) {
        Some(xs) => xs,
        None => Seq::empty(),
    }
}

/// `c` after recording `f` for each symbol of `xs` in turn.
pub open spec fn put_all(c: Cell, xs: Seq<Seq<char>>, f: Fact) -> Cell
    decreases xs.len(),
{
    if xs.len() == 0 {
        c
    } else {
        put(put_all(c, xs.drop_last(), f), xs.last(), f)
    }
}

/// `c` after combining the left symbol `a` with each symbol of `right` in turn,
/// split after `p` words.
pub open spec fn add_right(g: Grammar, c: Cell, a: Seq<char>, right: Cell, p: nat) -> Cell
    decreases right.len(),
{
    if right.len() == 0 {
        c
    } else {
        let b = right.last().0;
        put_all(add_right(g, c, a, right.drop_last(), p), pair_producers(g, a, b), Fact::Split(a, b, p))
    }
}

/// `c` after combining each symbol of `left` with each symbol of `right`,
/// split after `p` words.
pub open spec fn add_left(g: Grammar, c: Cell, left: Cell, right: Cell, p: nat) -> Cell
    decreases left.len(),
{
    if left.len() == 0 {
        c
    } else {
        add_right(g, add_left(g, c, left.drop_last(), right, p), left.last().0, right, p)
    }
}

/// The chart cell of the span of `l` words starting at word `s`, where each
/// word of `ws` comes as its category and itself. Later derivations of a
/// symbol replace earlier ones.
pub open spec fn chart_cell(g: Grammar, ws: Seq<(Seq<char>, Seq<char>)>, l: nat, s: nat) -> Cell
    decreases l, 1nat, 0nat,
{
    if l <= 1 {
        put_all(Seq::empty(), producers(g, ws[s as int].0), Fact::Leaf(ws[s as int].0, ws[s as int].1))
    } else {
        splits(g, ws, l, s, (l - 1) as nat)
    }
}

/// The cell of the span of `l` words at `s` after the split points `1..=k`.
pub open spec fn splits(g: Grammar, ws: Seq<(Seq<char>, Seq<char>)>, l: nat, s: nat, k: nat) -> Cell
    decreases l, 0nat, k,
{
    if k == 0 || l <= k {
        Seq::empty()
    } else {
        add_left(
            g,
            splits(g, ws, l, s, (k - 1) as nat),
            chart_cell(g, ws, k, s),
            chart_cell(g, ws, (l - k) as nat, s + k),
            k,
        )
    }
}

/// Whether `sym` is a generated symbol.
pub open spec fn is_generated(sym: Seq<char>) -> bool {
    sym.len() > 0 && sym[0] == '_'
}

/// The tree for `a` over `lt` followed by `b` over `rt`; the pieces of a
/// generated chain are gathered into one list.
pub open spec fn join_split(a: Seq<char>, b: Seq<char>, lt: Tree, rt: Tree) -> Tree {
    let right = Tree::Tagged(b, Box::new(rt));
    match lt {
        Tree::Rule(xs) => if is_generated(a) {
            Tree::Rule(xs.push(right))
        } else {
            Tree::Rule(seq![Tree::Tagged(a, Box::new(lt)), right])
        },
        _ => Tree::Rule(seq![Tree::Tagged(a, Box::new(lt)), right]),
    }
}

/// The tree of `sym` over the span of `l` words at `s`, read back from the chart.
pub open spec fn derive(g: Grammar, ws: Seq<(Seq<char>, Seq<char>)>, l: nat, s: nat, sym: Seq<char>) -> Option<Tree>
    decreases l,
{
    match lookup(chart_cell(g, ws, l, s), sym) {
        Some(Fact::Leaf(cat, origin)) => Some(Tree::Word(cat, origin)),
        Some(Fact::Split(a, b, p)) => if 1 <= p < l {
            match (derive(g, ws, p, s, a), derive(g, ws, (l - p) as nat, s + p, b)) {
                (Some(lt), Some(rt)) => Some(join_split(a, b, lt, rt)),
                _ => None,
            }
        } else {
            None
        },
        None => None,
    }
}

/// Whether a fact recorded in the cell of the span of `l` words at `s` points
/// at symbols present in the two smaller cells it splits into.
pub open spec fn fact_ok(g: Grammar, ws: Seq<(Seq<char>, Seq<char>)>, l: nat, s: nat, f: Fact) -> bool {
    match f {
        Fact::Leaf(_, _) => true,
        Fact::Split(a, b, p) => 1 <= p < l && has_key(chart_cell(g, ws, p, s), a) && has_key(
            chart_cell(g, ws, (l - p) as nat, s + p),
            b,
        ),
    }
}

/// Whether every fact of `c` is `fact_ok`.
pub open spec fn cell_facts_ok(g: Grammar, ws: Seq<(Seq<char>, Seq<char>)>, l: nat, s: nat, c: Cell) -> bool {
    forall|i: int| 0 <= i < c.len() ==> fact_ok(g, ws, l, s, #[trigger] c[i].1)
}

proof fn lemma_put_facts_ok(
    g: Grammar,
    ws: Seq<(Seq<char>, Seq<char>)>,
    l: nat,
    s: nat,
    c: Cell,
    k: Seq<char>,
    f: Fact,
)
    requires
        cell_facts_ok(g, ws, l, s, c),
        fact_ok(g, ws, l, s, f),
    ensures
        cell_facts_ok(g, ws, l, s, put(c, k, f)),
{
    let r = put(c, k, f);
    assert forall|i: int| 0 <= i < r.len() implies fact_ok(g, ws, l, s, #[trigger] r[i].1) by {
        if i < c.len() && r[i] == c[i] {
        } else {
            assert(r[i].1 == f);
        }
    }
}

proof fn lemma_put_all_facts_ok(
    g: Grammar,
    ws: Seq<(Seq<char>, Seq<char>)>,
    l: nat,
    s: nat,
    c: Cell,
    xs: Seq<Seq<char>>,
    f: Fact,
)
    requires
        cell_facts_ok(g, ws, l, s, c),
        fact_ok(g, ws, l, s, f),
    ensures
        cell_facts_ok(g, ws, l, s, put_all(c, xs, f)),
    decreases xs.len(),
{
    if xs.len() > 0 {
        lemma_put_all_facts_ok(g, ws, l, s, c, xs.drop_last(), f);
        lemma_put_facts_ok(g, ws, l, s, put_all(c, xs.drop_last(), f), xs.last(), f);
    }
}

proof fn lemma_add_right_facts_ok(
    g: Grammar,
    ws: Seq<(Seq<char>, Seq<char>)>,
    l: nat,
    s: nat,
    c: Cell,
    a: Seq<char>,
    right: Cell,
    p: nat,
)
    requires
        cell_facts_ok(g, ws, l, s, c),
        1 <= p < l,
        has_key(chart_cell(g, ws, p, s), a),
        forall|j: int|
            0 <= j < right.len() ==> has_key(
                chart_cell(g, ws, (l - p) as nat, s + p),
                #[trigger] right[j].0,
            ),
    ensures
        cell_facts_ok(g, ws, l, s, add_right(g, c, a, right, p)),
    decreases right.len(),
{
    if right.len() > 0 {
        let rest = right.drop_last();
        assert forall|j: int| 0 <= j < rest.len() implies has_key(
            chart_cell(g, ws, (l - p) as nat, s + p),
            #[trigger] rest[j].0,
        ) by {
            assert(rest[j] == right[j]);
        }
        lemma_add_right_facts_ok(g, ws, l, s, c, a, rest, p);
        let b = right.last().0;
        assert(has_key(chart_cell(g, ws, (l - p) as nat, s + p), right[right.len() - 1].0));
        lemma_put_all_facts_ok(
            g,
            ws,
            l,
            s,
            add_right(g, c, a, rest, p),
            pair_producers(g, a, b),
            Fact::Split(a, b, p),
        );
    }
}

proof fn lemma_add_left_facts_ok(
    g: Grammar,
    ws: Seq<(Seq<char>, Seq<char>)>,
    l: nat,
    s: nat,
    c: Cell,
    left: Cell,
    p: nat,
)
    requires
        cell_facts_ok(g, ws, l, s, c),
        1 <= p < l,
        forall|j: int| 0 <= j < left.len() ==> has_key(chart_cell(g, ws, p, s), #[trigger] left[j].0),
    ensures
        cell_facts_ok(
            g,
            ws,
            l,
            s,
            add_left(g, c, left, chart_cell(g, ws, (l - p) as nat, s + p), p),
        ),
    decreases left.len(),
{
    let right = chart_cell(g, ws, (l - p) as nat, s + p);
    if left.len() > 0 {
        let rest = left.drop_last();
        assert forall|j: int| 0 <= j < rest.len() implies has_key(
            chart_cell(g, ws, p, s),
            #[trigger] rest[j].0,
        ) by {
            assert(rest[j] == left[j]);
        }
        lemma_add_left_facts_ok(g, ws, l, s, c, rest, p);
        assert(has_key(chart_cell(g, ws, p, s), left[left.len() - 1].0));
        assert forall|j: int| 0 <= j < right.len() implies has_key(right, #[trigger] right[j].0) by {}
        lemma_add_right_facts_ok(g, ws, l, s, add_left(g, c, rest, right, p), left.last().0, right, p);
    }
}

proof fn lemma_splits_facts_ok(g: Grammar, ws: Seq<(Seq<char>, Seq<char>)>, l: nat, s: nat, k: nat)
    ensures
        cell_facts_ok(g, ws, l, s, splits(g, ws, l, s, k)),
    decreases k,
{
    if k > 0 && k < l {
        lemma_splits_facts_ok(g, ws, l, s, (k - 1) as nat);
        let left = chart_cell(g, ws, k, s);
        assert forall|j: int| 0 <= j < left.len() implies has_key(left, #[trigger] left[j].0) by {}
        lemma_add_left_facts_ok(g, ws, l, s, splits(g, ws, l, s, (k - 1) as nat), left, k);
    }
}

proof fn lemma_chart_cell_facts_ok(g: Grammar, ws: Seq<(Seq<char>, Seq<char>)>, l: nat, s: nat)
    ensures
        cell_facts_ok(g, ws, l, s, chart_cell(g, ws, l, s)),
{
    if l <= 1 {
        let f = Fact::Leaf(ws[s as int].0, ws[s as int].1);
        lemma_put_all_facts_ok(g, ws, l, s, Seq::empty(), producers(g, ws[s as int].0), f);
    } else {
        lemma_splits_facts_ok(g, ws, l, s, (l - 1) as nat);
    }
}

/// Every symbol recorded in a chart cell reads back as a tree: the pointers
/// of the chart always lead to smaller cells that hold the symbols named.
pub proof fn lemma_derive_total(g: Grammar, ws: Seq<(Seq<char>, Seq<char>)>, l: nat, s: nat, sym: Seq<char>)
    requires
        has_key(chart_cell(g, ws, l, s), sym),
    ensures
        derive(g, ws, l, s, sym) is Some,
    decreases l,
{
    let c = chart_cell(g, ws, l, s);
    lemma_chart_cell_facts_ok(g, ws, l, s);
    let i = key_index(c, sym);
    assert(fact_ok(g, ws, l, s, c[i].1));
    if let Fact::Split(a, b, p) = c[i].1 {
        lemma_derive_total(g, ws, p, s, a);
        lemma_derive_total(g, ws, (l - p) as nat, s + p, b);
    }
}

proof fn lemma_join_wf(a: Seq<char>, b: Seq<char>, lt: Tree, rt: Tree)
    requires
        tree_wf(lt),
        tree_wf(rt),
    ensures
        tree_wf(join_split(a, b, lt, rt)),
{
    let right = Tree::Tagged(b, Box::new(rt));
    let pair = seq![Tree::Tagged(a, Box::new(lt)), right];
    assert(tree_wf(pair[0]) && tree_wf(pair[1]));
    if let Tree::Rule(xs) = lt {
        if is_generated(a) {
            let ys = xs.push(right);
            assert forall|i: int| 0 <= i < ys.len() implies tree_wf(#[trigger] ys[i]) by {
                if i < xs.len() {
                    assert(ys[i] == xs[i]);
                }
            }
        }
    }
}

/// Every tree read back from the chart has a child under each tagged node
/// and each list node.
pub proof fn lemma_derive_wf(g: Grammar, ws: Seq<(Seq<char>, Seq<char>)>, l: nat, s: nat, sym: Seq<char>)
    ensures
        derive(g, ws, l, s, sym) matches Some(t) ==> tree_wf(t),
    decreases l,
{
    if let Some(Fact::Split(a, b, p)) = lookup(chart_cell(g, ws, l, s), sym) {
        if 1 <= p < l {
            lemma_derive_wf(g, ws, p, s, a);
            lemma_derive_wf(g, ws, (l - p) as nat, s + p, b);
            if let (Some(lt), Some(rt)) = (derive(g, ws, p, s, a), derive(g, ws, (l - p) as nat, s + p, b)) {
                lemma_join_wf(a, b, lt, rt);
            }
        }
    }
}

/// Why a sentence was not parsed.
#[derive(Debug)]
pub enum ParseError {
    /// The sentence has no words.
    EmptySentence,
    /// The words missing from the lexicon, in the order of the sentence.
    UnknownWords(Vec<String>),
    /// A category of the lexicon that no rule produces.
    UnusableWord(String),
    /// No derivation of `S` covers the sentence.
    BadGrammar,
}

/// The mathematical value of a `ParseError`.
pub enum ParseFailure {
    EmptySentence,
    UnknownWords(Seq<Seq<char>>),
    UnusableWord(Seq<char>),
    BadGrammar,
}

impl View for ParseError {
    type V = ParseFailure;

    open spec fn view(&self) -> ParseFailure {
        match self {
            ParseError::EmptySentence => ParseFailure::EmptySentence,
            ParseError::UnknownWords(v) => ParseFailure::UnknownWords(views(v@)),
            ParseError::UnusableWord(w) => ParseFailure::UnusableWord(w@),
            ParseError::BadGrammar => ParseFailure::BadGrammar,
        }
    }
}

/// The mathematical value of a parse result.
pub open spec fn parse_view(r: Result<AST, ParseError>) -> Result<Tree, ParseFailure> {
    match r {
        Ok(a) => Ok(a@),
        Err(e) => Err(e@),
    }
}

/// The category of a word of the lexicon.
pub open spec fn category(g: Grammar, t: Seq<char>) -> Seq<char> {
    match lookup(g.words, t) {
        Some(c) => c,
        None => t,
    }
}

/// The test for a word missing from the lexicon.
pub open spec fn unknown_word(g: Grammar) -> spec_fn(Seq<char>) -> bool {
    |t: Seq<char>| !has_key(g.words, t)
}

/// Each word with its category: `(category, word)`.
pub open spec fn tagged_words(g: Grammar, toks: Seq<Seq<char>>) -> Seq<(Seq<char>, Seq<char>)> {
    toks.map_values(|t: Seq<char>| (category(g, t), t))
}

/// Whether no rule produces the category of the `i`-th word.
pub open spec fn unusable(g: Grammar, ws: Seq<(Seq<char>, Seq<char>)>, i: int) -> bool {
    !has_key(g.terminals, ws[i].0)
}

/// What parsing `text` gives: no words; the words missing from the
/// lexicon; the first category that no rule produces; no `S` over the whole
/// sentence; or the tree of `S` read back from the chart.
pub open spec fn parse(g: Grammar, text: Seq<char>) -> Result<Tree, ParseFailure> {
    let toks = words_of(text);
    let n = toks.len();
    let ws = tagged_words(g, toks);
    if n == 0 {
        Err(ParseFailure::EmptySentence)
    } else if exists|i: int| 0 <= i < n && #[trigger] unknown_word(g)(toks[i]) {
        Err(ParseFailure::UnknownWords(toks.filter(unknown_word(g))))
    } else if exists|i: int| 0 <= i < n && #[trigger] unusable(g, ws, i) {
        let i = choose|i: int|
            0 <= i < n && #[trigger] unusable(g, ws, i) && forall|j: int| 0 <= j < i ==> !unusable(g, ws, j);
        Err(ParseFailure::UnusableWord(ws[i].0))
    } else if !has_key(chart_cell(g, ws, n, 0), "S"@) {
        Err(ParseFailure::BadGrammar)
    } else {
        Ok(derive(g, ws, n, 0, "S"@)->0)
    }
}

/// A chart entry: the word a symbol produces, or the two symbols it splits
/// into and after how many words.
enum CYKIntermediate {
    Word((String, String)),
    Derivation((String, String, usize)),
}

impl View for CYKIntermediate {
    type V = Fact;

    closed spec fn view(&self) -> Fact {
        match self {
            CYKIntermediate::Word(p) => Fact::Leaf(p.0@, p.1@),
            CYKIntermediate::Derivation(d) => Fact::Split(d.0@, d.1@, d.2 as nat),
        }
    }
}

/// The value of a chart cell.
spec fn cell_view(c: Seq<(String, CYKIntermediate)>) -> Cell {
    c.map_values(|e: (String, CYKIntermediate)| (e.0@, e.1@))
}

/// A chart cell: symbols with their entries, in insertion order.
type ChartCell = Vec<(String, CYKIntermediate)>;

/// The cell of row `r` (spans of `r + 1` words) at start `s` is the one
/// that `chart_cell` describes, with no symbol twice.
spec fn cell_ok(
    g: Grammar,
    ws: Seq<(Seq<char>, Seq<char>)>,
    chart: Seq<Vec<ChartCell>>,
    r: int,
    s: int,
) -> bool {
    &&& cell_view(chart[r]@[s]@) == chart_cell(g, ws, (r + 1) as nat, s as nat)
    &&& keys_unique(cell_view(chart[r]@[s]@))
}

/// Each filled row of the chart has a cell per start position, each as
/// `chart_cell` describes.
spec fn chart_ok(g: Grammar, ws: Seq<(Seq<char>, Seq<char>)>, chart: Seq<Vec<ChartCell>>) -> bool {
    &&& chart.len() <= ws.len()
    &&& forall|r: int| 0 <= r < chart.len() ==> (#[trigger] chart[r])@.len() == ws.len() - r
    &&& forall|r: int, s: int|
        0 <= r < chart.len() && 0 <= s < ws.len() - r ==> #[trigger] cell_ok(g, ws, chart, r, s)
}

/// Records `e` for the symbol `k` in a chart cell.
fn put_entry(cell: &mut ChartCell, k: String, e: CYKIntermediate)
    requires
        keys_unique(cell_view(old(cell)@)),
    ensures
        keys_unique(cell_view(final(cell)@)),
        cell_view(final(cell)@) == put(cell_view(old(cell)@), k@, e@),
{
    let ghost c0 = cell_view(cell@);
    let ghost kv = k@;
    let ghost ev = e@;
    match find_key(cell, &k) {
        Some(i) => {
            proof {
                lemma_lookup_at(c0, kv, i as int);
            }
            cell.set(i, (k, e));
            proof {
                assert(cell_view(cell@) =~= c0.update(i as int, (kv, ev)));
            }
        },
        None => {
            proof {
                assert(!has_key(c0, kv));
            }
            cell.push((k, e));
            proof {
                assert(cell_view(cell@) =~= c0.push((kv, ev)));
            }
        },
    }
    proof {
        lemma_put_unique(c0, kv, ev);
    }
}

impl Lang {
    /// Records a copy of `e` for each symbol of `syms` in turn.
    fn put_each(cell: &mut ChartCell, syms: &Vec<String>, e: &CYKIntermediate)
        requires
            keys_unique(cell_view(old(cell)@)),
        ensures
            keys_unique(cell_view(final(cell)@)),
            cell_view(final(cell)@) == put_all(cell_view(old(cell)@), views(syms@), e@),
    {
        let ghost c0 = cell_view(cell@);
        let ghost xs = views(syms@);
        let mut m: usize = 0;
        proof {
            assert(xs.take(0) =~= Seq::<Seq<char>>::empty());
        }
        while m < syms.len()
            invariant
                xs == views(syms@),
                m <= syms@.len(),
                keys_unique(cell_view(cell@)),
                cell_view(cell@) == put_all(c0, xs.take(m as int), e@),
            decreases syms.len() - m,
        {
            let entry = match e {
                CYKIntermediate::Word(p) => CYKIntermediate::Word((p.0.clone(), p.1.clone())),
                CYKIntermediate::Derivation(d) => CYKIntermediate::Derivation(
                    (d.0.clone(), d.1.clone(), d.2),
                ),
            };
            put_entry(cell, syms[m].clone(), entry);
            proof {
                assert(xs.take(m + 1).drop_last() =~= xs.take(m as int));
            }
            m = m + 1;
        }
        proof {
            assert(xs.take(syms@.len() as int) =~= xs);
        }
    }

    /// Combines every symbol of `left` with every symbol of `right` through
    /// the pair rules, recording the results in `cell`.
    fn cyk_add_pairs_to_matrix(
        &self,
        cell: &mut ChartCell,
        left: &ChartCell,
        right: &ChartCell,
        p: usize,
    )
        requires
            grammar_wf(self@),
            keys_unique(cell_view(old(cell)@)),
        ensures
            keys_unique(cell_view(final(cell)@)),
            cell_view(final(cell)@) == add_left(
                self@,
                cell_view(old(cell)@),
                cell_view(left@),
                cell_view(right@),
                p as nat,
            ),
    {
        let ghost g = self@;
        let ghost c0 = cell_view(cell@);
        let ghost lv = cell_view(left@);
        let ghost rv = cell_view(right@);
        let mut i: usize = 0;
        proof {
            assert(lv.take(0) =~= Seq::<(Seq<char>, Fact)>::empty());
        }
        while i < left.len()
            invariant
                g == self@,
                grammar_wf(g),
                lv == cell_view(left@),
                rv == cell_view(right@),
                i <= left@.len(),
                keys_unique(cell_view(cell@)),
                cell_view(cell@) == add_left(g, c0, lv.take(i as int), rv, p as nat),
            decreases left.len() - i,
        {
            let ghost c1 = cell_view(cell@);
            let ghost a = lv[i as int].0;
            let mut j: usize = 0;
            proof {
                assert(rv.take(0) =~= Seq::<(Seq<char>, Fact)>::empty());
            }
            while j < right.len()
                invariant
                    g == self@,
                    grammar_wf(g),
                    lv == cell_view(left@),
                    rv == cell_view(right@),
                    i < left@.len(),
                    a == left@[i as int].0@,
                    j <= right@.len(),
                    keys_unique(cell_view(cell@)),
                    cell_view(cell@) == add_right(g, c1, a, rv.take(j as int), p as nat),
                decreases right.len() - j,
            {
                let l_sym = &left[i].0;
                let r_sym = &right[j].0;
                let key = key_of_pair_rule(l_sym.as_str(), r_sym.as_str());
                proof {
                    assert(rv.take(j + 1).drop_last() =~= rv.take(j as int));
                    assert(rv.take(j + 1).last().0 == r_sym@);
                }
                match find_key(&self.pairs, &key) {
                    Some(k) => {
                        proof {
                            lemma_lookup_at(g.pairs, key@, k as int);
                        }
                        let derivation = CYKIntermediate::Derivation(
                            (l_sym.clone(), r_sym.clone(), p),
                        );
                        Self::put_each(cell, &self.pairs[k].1, &derivation);
                    },
                    None => {
                        proof {
                            assert(!has_key(g.pairs, key@));
                            assert(pair_producers(g, a, r_sym@) =~= Seq::<Seq<char>>::empty());
                        }
                    },
                }
                j = j + 1;
            }
            proof {
                assert(rv.take(right@.len() as int) =~= rv);
                assert(lv.take(i + 1).drop_last() =~= lv.take(i as int));
            }
            i = i + 1;
        }
        proof {
            assert(lv.take(left@.len() as int) =~= lv);
        }
    }
}


/// Builds the tree for `a` over `lt` followed by `b` over `rt`.
fn join_derivations(a: &String, b: &String, lt: AST, rt: AST) -> (r: AST)
    ensures
        r@ == join_split(a@, b@, lt@, rt@),
{
    let right = AST::Tagged(b.clone(), Box::new(rt));
    let generated = a.as_str().unicode_len() > 0 && a.as_str().get_char(0) == '_';
    assert(generated == is_generated(a@));
    let ghost lt_tree = lt@;
    let ghost right_tree = right@;
    match lt {
        AST::Rule(v) => {
            if generated {
                let mut v = v;
                let ghost before = v@;
                let ghost rt_tree = right@;
                v.push(right);
                proof {
                    assert(v@.drop_last() =~= before);
                    assert(trees_of(v@) == trees_of(before).push(rt_tree));
                    assert(lt_tree == Tree::Rule(trees_of(before)));
                    assert(AST::Rule(v)@ == Tree::Rule(trees_of(before).push(right_tree)));
                }
                AST::Rule(v)
            } else {
                let inner = AST::Rule(v);
                assert(inner@ == lt_tree);
                let left = AST::Tagged(a.clone(), Box::new(inner));
                let pair = vec![left, right];
                proof {
                    lemma_trees_of_pair(left, right);
                }
                AST::Rule(pair)
            }
        },
        other => {
            let left = AST::Tagged(a.clone(), Box::new(other));
            let pair = vec![left, right];
            proof {
                lemma_trees_of_pair(left, right);
            }
            AST::Rule(pair)
        },
    }
}

/// The mathematical value of an optional tree.
pub open spec fn option_tree(r: Option<AST>) -> Option<Tree> {
    match r {
        Some(a) => Some(a@),
        None => None,
    }
}

impl Lang {
    /// Reads back the tree of `sym` over the span of `l` words at `s`.
    fn derive_answer(
        &self,
        chart: &Vec<Vec<ChartCell>>,
        ws: Ghost<Seq<(Seq<char>, Seq<char>)>>,
        l: usize,
        s: usize,
        sym: &String,
    ) -> (r: Option<AST>)
        requires
            chart_ok(self@, ws@, chart@),
            chart@.len() == ws@.len(),
            1 <= l,
            s + l <= ws@.len(),
            s + l <= usize::MAX,
        ensures
            option_tree(r) == derive(self@, ws@, l as nat, s as nat, sym@),
        decreases l,
    {
        let ghost g = self@;
        proof {
            assert(cell_ok(g, ws@, chart@, l - 1, s as int));
        }
        let cell = &chart[l - 1][s];
        match find_key(cell, sym) {
            None => {
                proof {
                    assert(!has_key(cell_view(cell@), sym@));
                }
                None
            },
            Some(i) => {
                proof {
                    lemma_lookup_at(cell_view(cell@), sym@, i as int);
                }
                match &cell[i].1 {
                    CYKIntermediate::Word(w) => Some(AST::Word((w.0.clone(), w.1.clone()))),
                    CYKIntermediate::Derivation(d) => {
                        let p = d.2;
                        proof {
                            lemma_chart_cell_facts_ok(g, ws@, l as nat, s as nat);
                            assert(fact_ok(g, ws@, l as nat, s as nat, cell_view(cell@)[i as int].1));
                        }
                        let left = self.derive_answer(chart, ws, p, s, &d.0);
                        let right = self.derive_answer(chart, ws, l - p, s + p, &d.1);
                        match (left, right) {
                            (Some(lt), Some(rt)) => Some(join_derivations(&d.0, &d.1, lt, rt)),
                            _ => None,
                        }
                    },
                }
            },
        }
    }

    /// Parses `sentence` with the CYK algorithm: the tree of the start
    /// symbol `S` over all its words, or why there is none.
    pub fn parse_sentence(&self, sentence: &str) -> (r: Result<AST, ParseError>)
        requires
            grammar_wf(self@),
        ensures
            parse_view(r) == parse(self@, sentence@),
            r matches Ok(t) ==> tree_wf(t@),
    {
        let ghost g = self@;
        let toks = split_words(sentence);
        let ghost tv = views(toks@);
        let n = toks.len();
        if n == 0 {
            return Err(ParseError::EmptySentence);
        }
        // Report every unknown word.
        let ghost unknown_pred = unknown_word(g);
        let mut unknown: Vec<String> = Vec::new();
        let mut positions: Vec<usize> = Vec::new();
        let mut any_unknown = false;
        let mut i: usize = 0;
        proof {
            reveal(Seq::filter);
            assert(tv.take(0) =~= Seq::<Seq<char>>::empty());
            assert(views(unknown@) =~= tv.take(0).filter(unknown_pred));
        }
        while i < n
            invariant
                g == self@,
                grammar_wf(g),
                tv == views(toks@),
                tv == words_of(sentence@),
                n == toks@.len(),
                unknown_pred == unknown_word(g),
                i <= n,
                views(unknown@) == tv.take(i as int).filter(unknown_pred),
                any_unknown == exists|j: int| 0 <= j < i && #[trigger] unknown_pred(tv[j]),
                !any_unknown ==> positions@.len() == i,
                !any_unknown ==> forall|j: int|
                    0 <= j < i ==> positions@[j] < self.words@.len() && self.words@[#[trigger] positions@[j] as int].0@ == tv[j],
            decreases n - i,
        {
            let found = find_key(&self.words, &toks[i]);
            if let Some(k) = found {
                positions.push(k);
            }
            proof {
                tv.take(i as int).lemma_filter_push(tv[i as int], unknown_pred);
                assert(tv.take(i + 1) =~= tv.take(i as int).push(tv[i as int]));
                match found {
                    Some(k) => {
                        lemma_lookup_at(g.words, tv[i as int], k as int);
                    },
                    None => {
                        assert(!has_key(g.words, tv[i as int]));
                    },
                }
            }
            if found.is_none() {
                let ghost before = views(unknown@);
                unknown.push(toks[i].clone());
                any_unknown = true;
                proof {
                    assert(views(unknown@) =~= before.push(tv[i as int]));
                }
            }
            proof {
                if !any_unknown {
                    assert forall|j: int| 0 <= j < i + 1 implies !#[trigger] unknown_pred(tv[j]) by {
                        if j < i {
                            assert(!unknown_pred(tv[j]));
                        }
                    }
                }
            }
            i = i + 1;
        }
        proof {
            assert(tv.take(n as int) =~= tv);
        }
        if any_unknown {
            return Err(ParseError::UnknownWords(unknown));
        }
        // Initialize the chart with the words.
        let ghost ws = tagged_words(g, tv);
        let mut row: Vec<ChartCell> = Vec::new();
        let mut i: usize = 0;
        while i < n
            invariant
                g == self@,
                grammar_wf(g),
                tv == views(toks@),
                n == toks@.len(),
                ws == tagged_words(g, tv),
                tv == words_of(sentence@),
                forall|j: int| 0 <= j < n ==> !#[trigger] unknown_word(g)(tv[j]),
                positions@.len() == n,
                forall|j: int|
                    0 <= j < n ==> positions@[j] < self.words@.len() && self.words@[#[trigger] positions@[j] as int].0@ == tv[j],
                i <= n,
                row@.len() == i,
                forall|j: int| 0 <= j < i ==> !#[trigger] unusable(g, ws, j),
                forall|j: int|
                    0 <= j < i ==> cell_view(#[trigger] row@[j]@) == chart_cell(g, ws, 1, j as nat)
                        && keys_unique(cell_view(row@[j]@)),
            decreases n - i,
        {
            let wi = positions[i];
            proof {
                lemma_lookup_at(g.words, tv[i as int], wi as int);
                assert(ws[i as int] == (self.words@[wi as int].1@, tv[i as int]));
            }
            let cat = &self.words[wi].1;
            match find_key(&self.terminals, cat) {
                None => {
                    proof {
                        assert(unusable(g, ws, i as int));
                        let c = choose|c: int|
                            0 <= c < n && #[trigger] unusable(g, ws, c) && forall|j: int|
                                0 <= j < c ==> !unusable(g, ws, j);
                        assert(c == i) by {
                            if c < i {
                                assert(!unusable(g, ws, c));
                            }
                            if c > i {
                                assert(!unusable(g, ws, i as int));
                            }
                        }
                        assert(!(exists|j: int| 0 <= j < n && #[trigger] unknown_word(g)(tv[j])));
                    }
                    return Err(ParseError::UnusableWord(cat.clone()));
                },
                Some(ti) => {
                    proof {
                        lemma_lookup_at(g.terminals, cat@, ti as int);
                    }
                    let mut cell: ChartCell = Vec::new();
                    let leaf = CYKIntermediate::Word((cat.clone(), toks[i].clone()));
                    proof {
                        assert(keys_unique(cell_view(cell@)));
                        assert(cell_view(cell@) =~= Seq::<(Seq<char>, Fact)>::empty());
                    }
                    Self::put_each(&mut cell, &self.terminals[ti].1, &leaf);
                    row.push(cell);
                },
            }
            i = i + 1;
        }
        let mut chart: Vec<Vec<ChartCell>> = Vec::new();
        chart.push(row);
        proof {
            assert forall|r: int, s: int|
                0 <= r < chart@.len() && 0 <= s < ws.len() - r implies #[trigger] cell_ok(
                g,
                ws,
                chart@,
                r,
                s,
            ) by {
                assert(chart@[r]@[s] == row@[s]);
            }
        }
        // Fill the chart by increasing span length.
        let mut filled: usize = 1;
        while filled < n
            invariant
                g == self@,
                grammar_wf(g),
                n == ws.len(),
                1 <= filled <= n,
                chart@.len() == filled,
                chart_ok(g, ws, chart@),
            decreases n - filled,
        {
            let l = filled + 1;
            let mut row: Vec<ChartCell> = Vec::new();
            let mut s: usize = 0;
            while s <= n - l
                invariant
                    g == self@,
                    grammar_wf(g),
                    n == ws.len(),
                    2 <= l <= n,
                    chart@.len() == l - 1,
                    chart_ok(g, ws, chart@),
                    row@.len() == s,
                    s + l <= n + 1,
                    forall|j: int|
                        0 <= j < s ==> cell_view(#[trigger] row@[j]@) == chart_cell(
                            g,
                            ws,
                            l as nat,
                            j as nat,
                        ) && keys_unique(cell_view(row@[j]@)),
                decreases n + 1 - s - l,
            {
                let mut cell: ChartCell = Vec::new();
                let mut p: usize = 1;
                proof {
                    assert(cell_view(cell@) =~= Seq::<(Seq<char>, Fact)>::empty());
                }
                while p < l
                    invariant
                        g == self@,
                        grammar_wf(g),
                        n == ws.len(),
                        2 <= l <= n,
                        s + l <= n,
                        chart@.len() == l - 1,
                        chart_ok(g, ws, chart@),
                        1 <= p <= l,
                        keys_unique(cell_view(cell@)),
                        cell_view(cell@) == splits(g, ws, l as nat, s as nat, (p - 1) as nat),
                    decreases l - p,
                {
                    proof {
                        assert(cell_ok(g, ws, chart@, p - 1, s as int));
                        assert(cell_ok(g, ws, chart@, (l - p - 1) as int, (s + p) as int));
                    }
                    self.cyk_add_pairs_to_matrix(
                        &mut cell,
                        &chart[p - 1][s],
                        &chart[l - p - 1][s + p],
                        p,
                    );
                    p = p + 1;
                }
                row.push(cell);
                s = s + 1;
            }
            let ghost old_chart = chart@;
            chart.push(row);
            proof {
                assert forall|r: int, s: int|
                    0 <= r < chart@.len() && 0 <= s < ws.len() - r implies #[trigger] cell_ok(
                    g,
                    ws,
                    chart@,
                    r,
                    s,
                ) by {
                    if r < old_chart.len() {
                        assert(chart@[r] == old_chart[r]);
                        assert(cell_ok(g, ws, old_chart, r, s));
                    } else {
                        assert(chart@[r] == row);
                    }
                }
                assert forall|r: int| 0 <= r < chart@.len() implies (#[trigger] chart@[r])@.len() == ws.len() - r by {
                    if r < old_chart.len() {
                        assert(chart@[r] == old_chart[r]);
                    }
                }
            }
            filled = l;
        }
        // Derive the tree of the start symbol over the whole sentence.
        let start = String::from_str("S");
        let answer = self.derive_answer(&chart, Ghost(ws), n, 0, &start);
        proof {
            if has_key(chart_cell(g, ws, n as nat, 0), start@) {
                lemma_derive_total(g, ws, n as nat, 0, start@);
            }
            lemma_derive_wf(g, ws, n as nat, 0, start@);
        }
        match answer {
            Some(ast) => Ok(ast),
            None => Err(ParseError::BadGrammar),
        }
    }
}

/// Parsing is deterministic: any two results of `parse_sentence` for the
/// same grammar and sentence are the same tree, or the same failure.
pub proof fn lemma_parse_deterministic(
    g: Grammar,
    sentence: Seq<char>,
    r1: Result<AST, ParseError>,
    r2: Result<AST, ParseError>,
)
    requires
        parse_view(r1) == parse(g, sentence),
        parse_view(r2) == parse(g, sentence),
    ensures
        parse_view(r1) == parse_view(r2),
{
}

/// One line per unknown word: `\nNot a word: w`.
pub open spec fn unknown_lines(ws: Seq<Seq<char>>) -> Seq<char>
    decreases ws.len(),
{
    if ws.len() == 0 {
        Seq::empty()
    } else {
        unknown_lines(ws.drop_last()) + "\nNot a word: "@ + ws.last()
    }
}

/// The message shown for a parse failure.
pub open spec fn failure_text(e: ParseFailure) -> Seq<char> {
    match e {
        ParseFailure::EmptySentence => "Zero length sentence"@,
        ParseFailure::UnknownWords(ws) => "Unknown words:"@ + unknown_lines(ws),
        ParseFailure::UnusableWord(w) => "Unusable word "@ + w,
        ParseFailure::BadGrammar => "Bad grammar"@,
    }
}

impl ParseError {
    /// The message shown for the failure (see `failure_text`).
    pub fn to_string(&self) -> (r: String)
        ensures
            r@ == failure_text(self@),
    {
        match self {
            ParseError::EmptySentence => String::from_str("Zero length sentence"),
            ParseError::UnknownWords(ws) => {
                let mut out = String::from_str("Unknown words:");
                let ghost wv = views(ws@);
                let mut i: usize = 0;
                proof {
                    assert(wv.take(0) =~= Seq::<Seq<char>>::empty());
                    assert(out@ =~= "Unknown words:"@ + unknown_lines(wv.take(0)));
                }
                while i < ws.len()
                    invariant
                        wv == views(ws@),
                        i <= ws@.len(),
                        out@ == "Unknown words:"@ + unknown_lines(wv.take(i as int)),
                    decreases ws.len() - i,
                {
                    out.append("\nNot a word: ");
                    out.append(ws[i].as_str());
                    proof {
                        assert(wv.take(i + 1).drop_last() =~= wv.take(i as int));
                        assert(out@ =~= "Unknown words:"@ + unknown_lines(wv.take(i + 1)));
                    }
                    i = i + 1;
                }
                proof {
                    assert(wv.take(ws@.len() as int) =~= wv);
                }
                out
            },
            ParseError::UnusableWord(w) => {
                let mut out = String::from_str("Unusable word ");
                out.append(w.as_str());
                out
            },
            ParseError::BadGrammar => String::from_str("Bad grammar"),
        }
    }
}

} // verus!
