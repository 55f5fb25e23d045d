//! Text as sequences of characters: what the line grammars share.

use vstd::prelude::*;

verus! {

/// Whether a character is white space: a character with the Unicode
/// property `White_Space`.
pub open spec fn is_space(c: char) -> bool {
    let code = c as u32;
    ||| 0x09 <= code <= 0x0d
    ||| code == 0x20
    ||| code == 0x85
    ||| code == 0xa0
    ||| code == 0x1680
    ||| 0x2000 <= code <= 0x200a
    ||| code == 0x2028
    ||| code == 0x2029
    ||| code == 0x202f
    ||| code == 0x205f
    ||| code == 0x3000
}

/// Whether a character is white space.
pub fn is_whitespace(c: char) -> (space: bool)
    ensures
        space == is_space(c),
{
    let code: u32 = c as u32;
    (0x09 <= code && code <= 0x0d) || code == 0x20 || code == 0x85 || code == 0xa0 || code == 0x1680
        || (0x2000 <= code && code <= 0x200a) || code == 0x2028 || code == 0x2029 || code == 0x202f
        || code == 0x205f || code == 0x3000
}

/// Whether a text holds nothing but white space.
pub open spec fn is_blank(text: Seq<char>) -> bool {
    forall|i: int| 0 <= i < text.len() ==> is_space(#[trigger] text[i])
}

/// The first position at or after `from` that holds no white space, or the
/// length of the text if there is none.
pub open spec fn word_start(text: Seq<char>, from: int) -> int
    decreases text.len() - from,
{
    if from < 0 || from >= text.len() {
        text.len() as int
    } else if !is_space(text[from]) {
        from
    } else {
        word_start(text, from + 1)
    }
}

/// The first position at or after `from` that holds white space, or the
/// length of the text if there is none.
pub open spec fn word_end(text: Seq<char>, from: int) -> int
    decreases text.len() - from,
{
    if from < 0 || from >= text.len() {
        text.len() as int
    } else if is_space(text[from]) {
        from
    } else {
        word_end(text, from + 1)
    }
}

/// Where the word of index `k` stands: its first position and the position
/// after its last. A word is a longest run of characters without white
/// space. Where the text has no such word, both are the length of the text.
pub open spec fn word_bounds(text: Seq<char>, k: nat) -> (int, int)
    decreases k,
{
    let from = if k == 0 {
        0
    } else {
        word_bounds(text, (k - 1) as nat).1
    };
    let start = word_start(text, from);
    (start, word_end(text, start))
}

/// The first `n` words of a text, joined by single spaces. A text with
/// fewer words gives them all.
pub open spec fn leading_words(text: Seq<char>, n: nat) -> Seq<char>
    decreases n,
{
    if n == 0 {
        Seq::empty()
    } else {
        let k = (n - 1) as nat;
        let before = leading_words(text, k);
        let (start, end) = word_bounds(text, k);
        if start >= text.len() {
            before
        } else if k == 0 {
            text.subrange(start, end)
        } else {
            before + seq![' '] + text.subrange(start, end)
        }
    }
}

/// The characters of a text, in order.
pub fn chars_of(text: &str) -> (chars: Vec<char>)
    ensures
        chars@ == text@,
{
    let mut chars: Vec<char> = Vec::new();
    for c in it: text.chars()
        invariant
            it.seq() == text@,
            chars@ == it.seq().take(it.index() as int),
    {
        chars.push(c);
        assert(it.seq().take(it.index() + 1) =~= it.seq().take(it.index() as int).push(c));
    }
    assert(text@.take(text@.len() as int) =~= text@);
    chars
}

/// Whether a text holds nothing but white space.
pub fn blank(chars: &Vec<char>) -> (b: bool)
    ensures
        b == is_blank(chars@),
{
    let mut i: usize = 0;
    while i < chars.len()
        invariant
            i <= chars@.len(),
            forall|j: int| 0 <= j < i ==> is_space(#[trigger] chars@[j]),
        decreases chars@.len() - i,
    {
        if !is_whitespace(chars[i]) {
            return false;
        }
        i = i + 1;
    }
    true
}

proof fn lemma_word_start(text: Seq<char>, from: int)
    requires
        0 <= from <= text.len(),
    ensures
        from <= word_start(text, from) <= text.len(),
        word_start(text, from) < text.len() ==> !is_space(text[word_start(text, from)]),
    decreases text.len() - from,
{
    if from < text.len() && is_space(text[from]) {
        lemma_word_start(text, from + 1);
    }
}

proof fn lemma_word_end(text: Seq<char>, from: int)
    requires
        0 <= from <= text.len(),
    ensures
        from <= word_end(text, from) <= text.len(),
        from < text.len() && !is_space(text[from]) ==> from < word_end(text, from),
    decreases text.len() - from,
{
    if from < text.len() && !is_space(text[from]) {
        lemma_word_end(text, from + 1);
    }
}

/// The bounds of every word lie within the text, and a text that lacks the
/// word of some index lacks the next one too.
pub proof fn lemma_word_bounds(text: Seq<char>, k: nat)
    ensures
        0 <= word_bounds(text, k).0 <= word_bounds(text, k).1 <= text.len(),
        word_bounds(text, k).0 < text.len() ==> word_bounds(text, k).0 < word_bounds(text, k).1,
        word_bounds(text, k).0 >= text.len() ==> word_bounds(text, k + 1).0 >= text.len(),
    decreases k,
{
    let from: int = if k == 0 {
        0
    } else {
        lemma_word_bounds(text, (k - 1) as nat);
        word_bounds(text, (k - 1) as nat).1
    };
    lemma_word_start(text, from);
    let start = word_start(text, from);
    lemma_word_end(text, start);
    let end = word_end(text, start);
    lemma_word_start(text, end);
}

/// Skips white space: finds the start of the next word at or after `from`.
fn skip_space(chars: &Vec<char>, from: usize) -> (at: usize)
    requires
        from <= chars@.len(),
    ensures
        at == word_start(chars@, from as int),
        from <= at <= chars@.len(),
{
    let mut at: usize = from;
    while at < chars.len() && is_whitespace(chars[at])
        invariant
            from <= at <= chars@.len(),
            word_start(chars@, from as int) == word_start(chars@, at as int),
        decreases chars@.len() - at,
    {
        at = at + 1;
    }
    at
}

/// Skips a word: finds the next white space at or after `from`.
fn skip_word(chars: &Vec<char>, from: usize) -> (at: usize)
    requires
        from <= chars@.len(),
    ensures
        at == word_end(chars@, from as int),
        from <= at <= chars@.len(),
{
    let mut at: usize = from;
    while at < chars.len() && !is_whitespace(chars[at])
        invariant
            from <= at <= chars@.len(),
            word_end(chars@, from as int) == word_end(chars@, at as int),
        decreases chars@.len() - at,
    {
        at = at + 1;
    }
    at
}

/// The first `n` words of a text, joined by single spaces.
pub fn first_words(text: &str, n: usize) -> (joined: String)
    ensures
        joined@ == leading_words(text@, n as nat),
{
    let chars = chars_of(text);
    let mut joined = String::new();
    let mut from: usize = 0;
    let mut k: usize = 0;
    while k < n
        invariant
            chars@ == text@,
            k <= n,
            from <= chars@.len(),
            from == if k == 0 {
                0
            } else {
                word_bounds(text@, (k - 1) as nat).1
            },
            joined@ == leading_words(text@, k as nat),
        decreases n - k,
    {
        let start = skip_space(&chars, from);
        let end = skip_word(&chars, start);
        proof {
            lemma_word_bounds(text@, k as nat);
            assert(word_bounds(text@, k as nat) == (start as int, end as int));
        }
        if start >= chars.len() {
            proof {
                lemma_no_more_words(text@, k as nat, n as nat);
            }
            return joined;
        }
        if k > 0 {
            proof {
                reveal_strlit(" ");
            }
            joined.append(" ");
            assert(" "@ =~= seq![' ']);
        }
        joined.append(text.substring_char(start, end));
        proof {
            assert(joined@ =~= leading_words(text@, (k + 1) as nat));
        }
        from = end;
        k = k + 1;
    }
    joined
}

/// Once a text has run out of words, asking for more words gives no more.
proof fn lemma_no_more_words(text: Seq<char>, k: nat, n: nat)
    requires
        k <= n,
        word_bounds(text, k).0 >= text.len(),
    ensures
        leading_words(text, n) == leading_words(text, k),
    decreases n - k,
{
    if k < n {
        lemma_missing_word(text, k, (n - 1) as nat);
        lemma_no_more_words(text, k, (n - 1) as nat);
    }
}

/// A text that lacks the word of index `k` lacks every later one.
proof fn lemma_missing_word(text: Seq<char>, k: nat, m: nat)
    requires
        k <= m,
        word_bounds(text, k).0 >= text.len(),
    ensures
        word_bounds(text, m).0 >= text.len(),
    decreases m - k,
{
    if k < m {
        lemma_missing_word(text, k, (m - 1) as nat);
        lemma_word_bounds(text, (m - 1) as nat);
    }
}

} // verus!
