//! Splitting text into lines, fields and whitespace-separated words.
use vstd::prelude::*;

verus! {

/// Whether a character has Unicode's White_Space property.
pub open spec fn is_space(c: char) -> bool {
    let u = c as u32;
    (0x9 <= u <= 0xD) || u == 0x20 || u == 0x85 || u == 0xA0 || u == 0x1680 || (0x2000 <= u
        <= 0x200A) || u == 0x2028 || u == 0x2029 || u == 0x202F || u == 0x205F || u == 0x3000
}

/// Whether a character has Unicode's Uppercase property.
pub uninterp spec fn is_upper(c: char) -> bool;

/// Whether a character has Unicode's Lowercase property.
pub uninterp spec fn is_lower(c: char) -> bool;

/// Relies on `char::is_whitespace`: true exactly for the characters with the
/// White_Space property (tab to carriage return, space, U+0085, U+00A0,
/// U+1680, U+2000 to U+200A, U+2028, U+2029, U+202F, U+205F, U+3000).
#[verifier::external_body]
pub(crate) fn whitespace(c: char) -> (r: bool)
    ensures
        r == is_space(c),
{
    c.is_whitespace()
}

/// Relies on `char::is_uppercase`: true exactly for the characters with the
/// Uppercase property.
#[verifier::external_body]
pub(crate) fn uppercase(c: char) -> (r: bool)
    ensures
        r == is_upper(c),
{
    c.is_uppercase()
}

/// Relies on `char::is_lowercase`: true exactly for the characters with the
/// Lowercase property.
#[verifier::external_body]
pub(crate) fn lowercase(c: char) -> (r: bool)
    ensures
        r == is_lower(c),
{
    c.is_lowercase()
}

/// The views of a sequence of strings.
pub open spec fn views(v: Seq<String>) -> Seq<Seq<char>> {
    v.map_values(|x: String| x@)
}

/// The view of an optional string.
pub open spec fn opt_view(o: Option<String>) -> Option<Seq<char>> {
    match o {
        Some(s) => Some(s@),
        None => None,
    }
}

/// The pieces of `s` between occurrences of `sep`; there is always at least one.
pub open spec fn split_on(s: Seq<char>, sep: char) -> Seq<Seq<char>>
    decreases s.len(),
{
    if s.len() == 0 {
        seq![Seq::empty()]
    } else {
        let prev = split_on(s.drop_last(), sep);
        if s.last() == sep {
            prev.push(Seq::empty())
        } else {
            prev.update(prev.len() - 1, prev.last().push(s.last()))
        }
    }
}

/// The maximal runs of non-whitespace characters of `s`, in order.
pub open spec fn words_of(s: Seq<char>) -> Seq<Seq<char>>
    decreases s.len(),
{
    if s.len() == 0 {
        Seq::empty()
    } else {
        let prev = words_of(s.drop_last());
        let c = s.last();
        if is_space(c) {
            prev
        } else if s.len() >= 2 && !is_space(s[s.len() - 2]) {
            prev.update(prev.len() - 1, prev.last().push(c))
        } else {
            prev.push(seq![c])
        }
    }
}

/// A line without the carriage return of a `\r\n` ending.
pub open spec fn strip_cr(l: Seq<char>) -> Seq<char> {
    if l.len() > 0 && l.last() == '\r' {
        l.drop_last()
    } else {
        l
    }
}

/// The lines of `s`: pieces between `\n`, each line that a `\n` ends losing
/// a `\r` before it.
pub open spec fn lines_of(s: Seq<char>) -> Seq<Seq<char>> {
    let parts = split_on(s, '\n');
    Seq::new(
        parts.len(),
        |i: int|
            if i + 1 < parts.len() {
                strip_cr(parts[i])
            } else {
                parts[i]
            },
    )
}

/// The lines of `s` that are not empty.
pub open spec fn filled_lines(s: Seq<char>) -> Seq<Seq<char>> {
    lines_of(s).filter(is_filled())
}

/// The test that keeps a line.
pub open spec fn is_filled() -> spec_fn(Seq<char>) -> bool {
    |l: Seq<char>| l.len() > 0
}

/// Whether `s` starts with an uppercase character.
pub open spec fn starts_upper(s: Seq<char>) -> bool {
    s.len() > 0 && is_upper(s[0])
}

/// Whether `s` starts with a lowercase character.
pub open spec fn starts_lower(s: Seq<char>) -> bool {
    s.len() > 0 && is_lower(s[0])
}

proof fn lemma_split_on_nonempty(s: Seq<char>, sep: char)
    ensures
        split_on(s, sep).len() >= 1,
    decreases s.len(),
{
    if s.len() > 0 {
        lemma_split_on_nonempty(s.drop_last(), sep);
    }
}

/// Splits `s` at every occurrence of `sep`.
pub fn split_char(s: &str, sep: char) -> (r: Vec<String>)
    ensures
        views(r@) == split_on(s@, sep),
{
    let n = s.unicode_len();
    let mut out: Vec<String> = Vec::new();
    let mut start: usize = 0;
    let mut i: usize = 0;
    proof {
        assert(s@.take(0) =~= Seq::<char>::empty());
        assert(views(out@).push(s@.subrange(0, 0)) =~= seq![Seq::<char>::empty()]);
    }
    while i < n
        invariant
            n == s@.len(),
            start <= i <= n,
            split_on(s@.take(i as int), sep) == views(out@).push(s@.subrange(start as int, i as int)),
        decreases n - i,
    {
        let c = s.get_char(i);
        let ghost prev = views(out@).push(s@.subrange(start as int, i as int));
        proof {
            assert(s@.take(i + 1).drop_last() =~= s@.take(i as int));
            assert(s@.take(i + 1).last() == c);
        }
        if c == sep {
            let piece = String::from_str(s.substring_char(start, i));
            out.push(piece);
            start = i + 1;
            proof {
                assert(views(out@) =~= prev);
                assert(s@.subrange(start as int, i + 1) =~= Seq::<char>::empty());
            }
        } else {
            proof {
                assert(s@.subrange(start as int, i + 1) =~= s@.subrange(start as int, i as int).push(c));
                assert(prev.update(prev.len() - 1, prev.last().push(c)) =~= views(out@).push(
                    s@.subrange(start as int, i + 1),
                ));
            }
        }
        i = i + 1;
    }
    let last = String::from_str(s.substring_char(start, n));
    let ghost before = views(out@);
    out.push(last);
    proof {
        assert(s@.take(n as int) =~= s@);
        assert(views(out@) =~= before.push(s@.subrange(start as int, n as int)));
    }
    out
}

/// Splits `s` into its whitespace-separated words.
pub fn split_words(s: &str) -> (r: Vec<String>)
    ensures
        views(r@) == words_of(s@),
{
    let n = s.unicode_len();
    let mut out: Vec<String> = Vec::new();
    let mut start: usize = 0;
    let mut in_word = false;
    let mut i: usize = 0;
    proof {
        assert(s@.take(0) =~= Seq::<char>::empty());
        assert(views(out@) =~= Seq::<Seq<char>>::empty());
    }
    while i < n
        invariant
            n == s@.len(),
            start <= i <= n,
            in_word == (i > 0 && !is_space(s@[i - 1])),
            in_word ==> start < i && words_of(s@.take(i as int)) == views(out@).push(
                s@.subrange(start as int, i as int),
            ),
            !in_word ==> words_of(s@.take(i as int)) == views(out@),
        decreases n - i,
    {
        let c = s.get_char(i);
        let sp = whitespace(c);
        let ghost t = s@.take(i + 1);
        proof {
            assert(t.drop_last() =~= s@.take(i as int));
            assert(t.last() == c);
            if i > 0 {
                assert(t[t.len() - 2] == s@[i - 1]);
            }
        }
        if sp {
            if in_word {
                let ghost before = views(out@);
                out.push(String::from_str(s.substring_char(start, i)));
                proof {
                    assert(views(out@) =~= before.push(s@.subrange(start as int, i as int)));
                }
            }
            in_word = false;
        } else {
            if in_word {
                proof {
                    let prev = views(out@).push(s@.subrange(start as int, i as int));
                    assert(s@.subrange(start as int, i + 1) =~= s@.subrange(start as int, i as int).push(c));
                    assert(prev.update(prev.len() - 1, prev.last().push(c)) =~= views(out@).push(
                        s@.subrange(start as int, i + 1),
                    ));
                }
            } else {
                start = i;
                proof {
                    assert(s@.subrange(start as int, i + 1) =~= seq![c]);
                }
            }
            in_word = true;
        }
        i = i + 1;
    }
    proof {
        assert(s@.take(n as int) =~= s@);
    }
    if in_word {
        let ghost before = views(out@);
        out.push(String::from_str(s.substring_char(start, n)));
        proof {
            assert(views(out@) =~= before.push(s@.subrange(start as int, n as int)));
        }
    }
    out
}

/// The lines of `s` that are not empty, in order.
pub fn nonempty_lines(s: &str) -> (r: Vec<String>)
    ensures
        views(r@) == filled_lines(s@),
{
    let parts = split_char(s, '\n');
    let ghost lines = lines_of(s@);
    let ghost pred = is_filled();
    proof {
        lemma_split_on_nonempty(s@, '\n');
        assert(lines.take(0) =~= Seq::<Seq<char>>::empty());
    }
    let mut out: Vec<String> = Vec::new();
    proof {
        reveal(Seq::filter);
        assert(views(out@) =~= lines.take(0).filter(pred));
    }
    let mut i: usize = 0;
    while i < parts.len()
        invariant
            views(parts@) == split_on(s@, '\n'),
            lines == lines_of(s@),
            pred == is_filled(),
            lines.len() == parts@.len(),
            i <= parts@.len(),
            views(out@) == lines.take(i as int).filter(pred),
        decreases parts.len() - i,
    {
        let part = &parts[i];
        let len = part.as_str().unicode_len();
        let line: String = if i + 1 < parts.len() && len > 0 && part.as_str().get_char(len - 1)
            == '\r' {
            String::from_str(part.as_str().substring_char(0, len - 1))
        } else {
            part.clone()
        };
        proof {
            assert(part@ == views(parts@)[i as int]);
            assert(line@ == lines[i as int]);
            assert(lines.take(i + 1) =~= lines.take(i as int).push(lines[i as int]));
            lines.take(i as int).lemma_filter_push(lines[i as int], pred);
            assert(pred(lines[i as int]) == (line@.len() > 0));
        }
        if line.as_str().unicode_len() > 0 {
            let ghost before = views(out@);
            out.push(line);
            proof {
                assert(views(out@) =~= before.push(line@));
            }
        }
        i = i + 1;
    }
    proof {
        assert(lines.take(parts@.len() as int) =~= lines);
    }
    out
}

/// Whether `s` starts with an uppercase character.
pub fn first_char_uppercase(s: &str) -> (r: bool)
    ensures
        r == starts_upper(s@),
{
    if s.unicode_len() == 0 {
        false
    } else {
        uppercase(s.get_char(0))
    }
}

/// Whether `s` starts with a lowercase character.
pub fn first_char_lowercase(s: &str) -> (r: bool)
    ensures
        r == starts_lower(s@),
{
    if s.unicode_len() == 0 {
        false
    } else {
        lowercase(s.get_char(0))
    }
}

} // verus!
