//! Text values as sequences of characters: white space handling and tokens.

use vstd::prelude::*;

verus! {

/// The characters of a string.
pub fn to_chars(s: &str) -> (v: Vec<char>)
    ensures
        v@ == s@,
{
    let mut v: Vec<char> = Vec::new();
    for c in it: s.chars()
        invariant
            v@ == it.seq().take(it.index()),
    {
        v.push(c);
    }
    v
}

/// How a type wants white space treated before its facets are checked.
#[derive(Clone, Copy, PartialEq, Eq, Structural, Debug)]
pub enum WhiteSpace {
    /// The text stands as it is.
    Preserve,
    /// Each tab, line feed and carriage return becomes a space.
    Replace,
    /// As `Replace`; then runs of spaces shrink to one, and those at the ends go.
    Collapse,
}

pub open spec fn is_space(c: char) -> bool {
    c == ' ' || c == '\t' || c == '\n' || c == '\r'
}

pub fn space(c: char) -> (b: bool)
    ensures
        b == is_space(c),
{
    c == ' ' || c == '\t' || c == '\n' || c == '\r'
}

/// The text with each white space character turned into a space.
pub open spec fn replaced(s: Seq<char>) -> Seq<char> {
    Seq::new(s.len(), |i: int| if is_space(s[i]) { ' ' } else { s[i] })
}

/// The words closed within the first `n` characters, and the word still open.
pub open spec fn scan(s: Seq<char>, n: int) -> (Seq<Seq<char>>, Seq<char>)
    decreases n,
{
    if n <= 0 || n > s.len() {
        (Seq::empty(), Seq::empty())
    } else {
        let (done, word) = scan(s, n - 1);
        if is_space(s[n - 1]) {
            if word.len() > 0 {
                (done.push(word), Seq::empty())
            } else {
                (done, word)
            }
        } else {
            (done, word.push(s[n - 1]))
        }
    }
}

/// The maximal runs of characters that are not white space, in order.
pub open spec fn tokens(s: Seq<char>) -> Seq<Seq<char>> {
    let (done, word) = scan(s, s.len() as int);
    if word.len() > 0 {
        done.push(word)
    } else {
        done
    }
}

/// The first `n` words with one space between neighbours.
pub open spec fn joined(words: Seq<Seq<char>>, n: int) -> Seq<char>
    decreases n,
{
    if n <= 0 || n > words.len() {
        Seq::empty()
    } else if n == 1 {
        words[0]
    } else {
        joined(words, n - 1).push(' ') + words[n - 1]
    }
}

pub open spec fn collapsed(s: Seq<char>) -> Seq<char> {
    joined(tokens(s), tokens(s).len() as int)
}

pub open spec fn normalized(s: Seq<char>, mode: WhiteSpace) -> Seq<char> {
    match mode {
        WhiteSpace::Preserve => s,
        WhiteSpace::Replace => replaced(s),
        WhiteSpace::Collapse => collapsed(s),
    }
}

/// The view of a vector of words.
pub open spec fn words_view(words: Seq<Vec<char>>) -> Seq<Seq<char>> {
    Seq::new(words.len(), |i: int| words[i]@)
}

pub fn copy_chars(text: &Vec<char>) -> (v: Vec<char>)
    ensures
        v@ == text@,
{
    let mut v: Vec<char> = Vec::new();
    let mut i: usize = 0;
    while i < text.len()
        invariant
            i <= text.len(),
            v@ == text@.take(i as int),
        decreases text.len() - i,
    {
        v.push(text[i]);
        assert(v@ =~= text@.take(i + 1));
        i += 1;
    }
    assert(text@.take(text@.len() as int) =~= text@);
    v
}

/// Splits a text at white space.
pub fn split(text: &Vec<char>) -> (words: Vec<Vec<char>>)
    ensures
        words_view(words@) == tokens(text@),
{
    let mut words: Vec<Vec<char>> = Vec::new();
    let mut word: Vec<char> = Vec::new();
    let mut i: usize = 0;
    assert(words_view(words@) =~= scan(text@, 0).0);
    while i < text.len()
        invariant
            i <= text.len(),
            words_view(words@) == scan(text@, i as int).0,
            word@ == scan(text@, i as int).1,
        decreases text.len() - i,
    {
        let c = text[i];
        if space(c) {
            if word.len() > 0 {
                let ghost before = words_view(words@);
                words.push(word);
                assert(words_view(words@) =~= before.push(word@));
                word = Vec::new();
            }
        } else {
            word.push(c);
        }
        i += 1;
    }
    if word.len() > 0 {
        let ghost before = words_view(words@);
        words.push(word);
        assert(words_view(words@) =~= before.push(word@));
    }
    words
}

/// Treats the white space of a text as the mode asks.
pub fn normalize(text: &Vec<char>, mode: WhiteSpace) -> (v: Vec<char>)
    ensures
        v@ == normalized(text@, mode),
{
    match mode {
        WhiteSpace::Preserve => copy_chars(text),
        WhiteSpace::Replace => {
            let mut v: Vec<char> = Vec::new();
            let mut i: usize = 0;
            while i < text.len()
                invariant
                    i <= text.len(),
                    v@ == replaced(text@).take(i as int),
                decreases text.len() - i,
            {
                let c = text[i];
                v.push(if space(c) { ' ' } else { c });
                assert(v@ =~= replaced(text@).take(i + 1));
                i += 1;
            }
            assert(replaced(text@).take(text@.len() as int) =~= replaced(text@));
            v
        },
        WhiteSpace::Collapse => {
            let words = split(text);
            let mut v: Vec<char> = Vec::new();
            let mut k: usize = 0;
            while k < words.len()
                invariant
                    k <= words.len(),
                    v@ == joined(words_view(words@), k as int),
                decreases words.len() - k,
            {
                if k > 0 {
                    v.push(' ');
                }
                let ghost head = v@;
                let word = &words[k];
                let mut i: usize = 0;
                while i < word.len()
                    invariant
                        i <= word.len(),
                        v@ == head + word@.take(i as int),
                    decreases word.len() - i,
                {
                    v.push(word[i]);
                    assert(v@ =~= head + word@.take(i + 1));
                    i += 1;
                }
                assert(word@.take(word@.len() as int) =~= word@);
                assert(v@ =~= joined(words_view(words@), k + 1));
                k += 1;
            }
            v
        },
    }
}


/// The characters of the first `n` words, one more counted for each word.
pub open spec fn weight(words: Seq<Seq<char>>, n: int) -> int
    decreases n,
{
    if n <= 0 || n > words.len() {
        0
    } else {
        weight(words, n - 1) + words[n - 1].len() + 1
    }
}

proof fn lemma_weight_push(words: Seq<Seq<char>>, word: Seq<char>, n: int)
    requires
        0 <= n <= words.len(),
    ensures
        weight(words.push(word), n) == weight(words, n),
    decreases n,
{
    if n > 0 {
        lemma_weight_push(words, word, n - 1);
    }
}

proof fn lemma_scan_weight(s: Seq<char>, n: int)
    requires
        0 <= n <= s.len(),
    ensures
        weight(scan(s, n).0, scan(s, n).0.len() as int) + scan(s, n).1.len() <= n,
    decreases n,
{
    if n > 0 {
        lemma_scan_weight(s, n - 1);
        let (done, word) = scan(s, n - 1);
        if is_space(s[n - 1]) && word.len() > 0 {
            lemma_weight_push(done, word, done.len() as int);
        }
    }
}

proof fn lemma_joined_len(words: Seq<Seq<char>>, n: int)
    requires
        1 <= n <= words.len(),
    ensures
        joined(words, n).len() + 1 == weight(words, n),
    decreases n,
{
    if n > 1 {
        lemma_joined_len(words, n - 1);
    } else {
        assert(weight(words, 0) == 0);
    }
}

/// The words of a text together, with a separator each, are no longer than the text and one.
pub proof fn lemma_tokens_weight(s: Seq<char>)
    ensures
        weight(tokens(s), tokens(s).len() as int) <= s.len() + 1,
{
    lemma_scan_weight(s, s.len() as int);
    let (done, word) = scan(s, s.len() as int);
    if word.len() > 0 {
        lemma_weight_push(done, word, done.len() as int);
    }
}

/// Treating white space never makes a text longer.
pub proof fn lemma_normalized_len(s: Seq<char>, mode: WhiteSpace)
    ensures
        normalized(s, mode).len() <= s.len(),
{
    if mode == WhiteSpace::Collapse {
        lemma_tokens_weight(s);
        if tokens(s).len() > 0 {
            lemma_joined_len(tokens(s), tokens(s).len() as int);
        }
    }
}

} // verus!
