//! Character sequences: the white space, search and splitting rules that the
//! script grammar is made of.
//!
//! The executable functions work on slices of characters, so that a line is
//! decoded once and every part of it is a subslice.

use vstd::prelude::*;
use vstd::slice::slice_subrange;

verus! {

/// `String::push` appends the character to the end of the string.
pub assume_specification[ String::push ](s: &mut String, c: char)
    ensures
        final(s)@ == old(s)@.push(c),
;

/// The characters with Unicode's `White_Space` property.
pub open spec fn is_space(c: char) -> bool {
    let n = c as u32;
    ||| 0x9 <= n <= 0xd
    ||| n == 0x20
    ||| n == 0x85
    ||| n == 0xa0
    ||| n == 0x1680
    ||| 0x2000 <= n <= 0x200a
    ||| n == 0x2028
    ||| n == 0x2029
    ||| n == 0x202f
    ||| n == 0x205f
    ||| n == 0x3000
}

/// `s` without its leading white space.
pub open spec fn trim_start(s: Seq<char>) -> Seq<char>
    decreases s.len(),
{
    if s.len() > 0 && is_space(s[0]) {
        trim_start(s.skip(1))
    } else {
        s
    }
}

/// `s` without its trailing white space.
pub open spec fn trim_end(s: Seq<char>) -> Seq<char>
    decreases s.len(),
{
    if s.len() > 0 && is_space(s.last()) {
        trim_end(s.drop_last())
    } else {
        s
    }
}

/// `s` without white space at either end.
pub open spec fn trim(s: Seq<char>) -> Seq<char> {
    trim_end(trim_start(s))
}

/// `s` without any `c` at its end.
pub open spec fn trim_end_char(s: Seq<char>, c: char) -> Seq<char>
    decreases s.len(),
{
    if s.len() > 0 && s.last() == c {
        trim_end_char(s.drop_last(), c)
    } else {
        s
    }
}

/// `s` without the copies of `prefix` that it starts with.
pub open spec fn trim_start_text(s: Seq<char>, prefix: Seq<char>) -> Seq<char>
    decreases s.len(),
{
    if prefix.len() > 0 && prefix.is_prefix_of(s) {
        trim_start_text(s.skip(prefix.len() as int), prefix)
    } else {
        s
    }
}

/// The length of the longest white-space-free prefix of `s`.
pub open spec fn word_len(s: Seq<char>) -> nat
    decreases s.len(),
{
    if s.len() == 0 || is_space(s[0]) {
        0
    } else {
        1 + word_len(s.skip(1))
    }
}

/// The maximal white-space-free runs of `s`, in order.
pub open spec fn words(s: Seq<char>) -> Seq<Seq<char>>
    decreases s.len(),
    via words_decreases
{
    let t = trim_start(s);
    if t.len() == 0 {
        seq![]
    } else {
        seq![t.take(word_len(t) as int)] + words(t.skip(word_len(t) as int))
    }
}

#[via_fn]
proof fn words_decreases(s: Seq<char>) {
    lemma_trim_start(s);
    lemma_word_len(trim_start(s));
}

/// The parts joined with `sep` between each two.
pub open spec fn join(parts: Seq<Seq<char>>, sep: Seq<char>) -> Seq<char>
    decreases parts.len(),
{
    if parts.len() == 0 {
        seq![]
    } else if parts.len() == 1 {
        parts[0]
    } else {
        join(parts.drop_last(), sep) + sep + parts.last()
    }
}

/// The position of the first `c` in `s`.
pub open spec fn find_char(s: Seq<char>, c: char) -> Option<int>
    decreases s.len(),
{
    if s.len() == 0 {
        None
    } else if s[0] == c {
        Some(0)
    } else {
        match find_char(s.skip(1), c) {
            Some(i) => Some(i + 1),
            None => None,
        }
    }
}

/// The position of the last occurrence of `pattern` in `s`.
pub open spec fn rfind(s: Seq<char>, pattern: Seq<char>) -> Option<int>
    decreases s.len(),
{
    if s.len() < pattern.len() {
        None
    } else if s.skip(s.len() - pattern.len()) == pattern {
        Some(s.len() - pattern.len())
    } else if s.len() == 0 {
        None
    } else {
        rfind(s.drop_last(), pattern)
    }
}

/// `pattern` stands in `s` at position `i`.
pub open spec fn occurs_at(s: Seq<char>, pattern: Seq<char>, i: int) -> bool {
    0 <= i && i + pattern.len() <= s.len() && s.subrange(i, i + pattern.len()) == pattern
}

/// `pattern` stands somewhere in `s`.
pub open spec fn contains(s: Seq<char>, pattern: Seq<char>) -> bool {
    exists|i: int| occurs_at(s, pattern, i)
}

/// The texts that a list of slices holds.
pub open spec fn texts(parts: Seq<&[char]>) -> Seq<Seq<char>> {
    Seq::new(parts.len(), |i: int| parts[i]@)
}

/// Trimming at the start leaves a suffix that does not start with white space.
pub proof fn lemma_trim_start(s: Seq<char>)
    ensures
        trim_start(s).len() <= s.len(),
        trim_start(s) == s.skip(s.len() - trim_start(s).len()),
        trim_start(s).len() > 0 ==> !is_space(trim_start(s)[0]),
    decreases s.len(),
{
    if s.len() > 0 && is_space(s[0]) {
        lemma_trim_start(s.skip(1));
    }
}

/// Trimming at the end leaves a prefix that does not end with white space.
pub proof fn lemma_trim_end(s: Seq<char>)
    ensures
        trim_end(s).len() <= s.len(),
        trim_end(s) == s.take(trim_end(s).len() as int),
        trim_end(s).len() > 0 ==> !is_space(trim_end(s).last()),
    decreases s.len(),
{
    if s.len() > 0 && is_space(s.last()) {
        lemma_trim_end(s.drop_last());
    }
}

/// A text that holds more than white space is not trimmed away.
pub proof fn lemma_trim_keeps(s: Seq<char>, i: int)
    requires
        0 <= i < s.len(),
        !is_space(s[i]),
    ensures
        trim(s).len() > 0,
    decreases s.len(),
{
    if is_space(s[0]) {
        lemma_trim_keeps(s.skip(1), i - 1);
    } else {
        lemma_trim_end_keeps(s);
    }
}

proof fn lemma_trim_end_keeps(s: Seq<char>)
    requires
        s.len() > 0,
        !is_space(s[0]),
    ensures
        trim_end(s).len() > 0,
    decreases s.len(),
{
    if is_space(s.last()) {
        lemma_trim_end_keeps(s.drop_last());
    }
}

/// Indentation is trimmed from a text that neither starts nor ends with white
/// space, and nothing else.
pub proof fn lemma_trim_indented(indent: Seq<char>, s: Seq<char>)
    requires
        forall|i: int| 0 <= i < indent.len() ==> is_space(#[trigger] indent[i]),
        s.len() > 0,
        !is_space(s[0]),
        !is_space(s.last()),
    ensures
        trim(indent + s) == s,
    decreases indent.len(),
{
    if indent.len() == 0 {
        assert(indent + s == s);
    } else {
        let t = indent.skip(1);
        assert forall|i: int| 0 <= i < t.len() implies is_space(#[trigger] t[i]) by {
            assert(t[i] == indent[i + 1]);
        }
        lemma_trim_indented(t, s);
        assert((indent + s).skip(1) == t + s);
        assert((indent + s)[0] == indent[0]);
    }
}

/// A word ends where white space follows.
pub proof fn lemma_first_word(word: Seq<char>, tail: Seq<char>)
    requires
        forall|i: int| 0 <= i < word.len() ==> !is_space(#[trigger] word[i]),
        tail.len() > 0,
        is_space(tail[0]),
    ensures
        word_len(word + tail) == word.len(),
    decreases word.len(),
{
    if word.len() == 0 {
        assert(word + tail == tail);
    } else {
        let t = word.skip(1);
        assert forall|i: int| 0 <= i < t.len() implies !is_space(#[trigger] t[i]) by {
            assert(t[i] == word[i + 1]);
        }
        lemma_first_word(t, tail);
        assert((word + tail).skip(1) == t + tail);
        assert((word + tail)[0] == word[0]);
    }
}

/// `find_char` finds the first occurrence, and finds one where there is one.
pub proof fn lemma_find_char(s: Seq<char>, c: char)
    ensures
        match find_char(s, c) {
            Some(i) => 0 <= i < s.len() && s[i] == c && forall|j: int|
                0 <= j < i ==> #[trigger] s[j] != c,
            None => forall|j: int| 0 <= j < s.len() ==> #[trigger] s[j] != c,
        },
    decreases s.len(),
{
    if s.len() > 0 && s[0] != c {
        let t = s.skip(1);
        lemma_find_char(t, c);
        assert forall|j: int| 0 < j < s.len() implies #[trigger] s[j] == t[j - 1] by {}
    }
}

/// The first word is a prefix, it ends where the text does or before white
/// space, and it is empty only in front of white space.
pub proof fn lemma_word_len(s: Seq<char>)
    ensures
        word_len(s) <= s.len(),
        forall|i: int| 0 <= i < word_len(s) ==> !is_space(#[trigger] s[i]),
        word_len(s) < s.len() ==> is_space(s[word_len(s) as int]),
        s.len() > 0 && !is_space(s[0]) ==> word_len(s) > 0,
    decreases s.len(),
{
    if s.len() > 0 && !is_space(s[0]) {
        let t = s.skip(1);
        lemma_word_len(t);
        assert forall|i: int| 0 <= i < word_len(s) implies !is_space(#[trigger] s[i]) by {
            if i > 0 {
                assert(s[i] == t[i - 1]);
            }
        }
    }
}

/// Whether `c` is white space.
pub fn char_is_space(c: char) -> (r: bool)
    ensures
        r == is_space(c),
{
    let n: u32 = c as u32;
    (0x9 <= n && n <= 0xd) || n == 0x20 || n == 0x85 || n == 0xa0 || n == 0x1680 || (0x2000 <= n
        && n <= 0x200a) || n == 0x2028 || n == 0x2029 || n == 0x202f || n == 0x205f || n == 0x3000
}

/// The characters of a string.
pub fn to_chars(s: &str) -> (r: Vec<char>)
    ensures
        r@ == s@,
{
    let mut r: Vec<char> = Vec::new();
    for c in it: s.chars()
        invariant
            it.seq() == s@,
            r@ == s@.take(it.index() as int),
    {
        r.push(c);
    }
    assert(s@.take(s@.len() as int) == s@);
    r
}

/// Appends the characters of a slice to a string.
pub fn push_chars(out: &mut String, s: &[char])
    ensures
        final(out)@ == old(out)@ + s@,
{
    let ghost before = out@;
    for i in 0..s.len()
        invariant
            out@ == before + s@.take(i as int),
    {
        out.push(s[i]);
        assert(s@.take(i + 1) == s@.take(i as int).push(s@[i as int]));
    }
    assert(s@.take(s@.len() as int) == s@);
}

/// The string that a slice of characters spells.
pub fn to_text(s: &[char]) -> (r: String)
    ensures
        r@ == s@,
{
    let mut r = String::new();
    push_chars(&mut r, s);
    r
}

/// Whether two texts are the same.
pub fn same_text(a: &[char], b: &[char]) -> (r: bool)
    ensures
        r == (a@ == b@),
{
    if a.len() != b.len() {
        return false;
    }
    for i in 0..a.len()
        invariant
            a@.len() == b@.len(),
            forall|j: int| 0 <= j < i ==> a@[j] == b@[j],
    {
        if a[i] != b[i] {
            return false;
        }
    }
    assert(a@ =~= b@);
    true
}

/// Whether `s` starts with `prefix`.
pub fn starts_with(s: &[char], prefix: &[char]) -> (r: bool)
    ensures
        r == prefix@.is_prefix_of(s@),
{
    if s.len() < prefix.len() {
        return false;
    }
    let head = slice_subrange(s, 0, prefix.len());
    let r = same_text(head, prefix);
    proof {
        if prefix@.is_prefix_of(s@) {
            assert(head@ == prefix@);
        }
    }
    r
}

/// Leading white space removed.
pub fn trim_start_chars(s: &[char]) -> (r: &[char])
    ensures
        r@ == trim_start(s@),
{
    let mut i: usize = 0;
    assert(s@.skip(0) == s@);
    while i < s.len() && char_is_space(s[i])
        invariant
            i <= s@.len(),
            trim_start(s@) == trim_start(s@.skip(i as int)),
        decreases s@.len() - i,
    {
        assert(s@.skip(i as int).skip(1) == s@.skip(i + 1));
        i = i + 1;
    }
    slice_subrange(s, i, s.len())
}

/// Trailing white space removed.
pub fn trim_end_chars(s: &[char]) -> (r: &[char])
    ensures
        r@ == trim_end(s@),
{
    let mut n: usize = s.len();
    assert(s@.take(n as int) == s@);
    while n > 0 && char_is_space(s[n - 1])
        invariant
            n <= s@.len(),
            trim_end(s@) == trim_end(s@.take(n as int)),
        decreases n,
    {
        assert(s@.take(n as int).drop_last() == s@.take(n - 1));
        n = n - 1;
    }
    slice_subrange(s, 0, n)
}

/// White space removed at both ends.
pub fn trim_chars(s: &[char]) -> (r: &[char])
    ensures
        r@ == trim(s@),
{
    trim_end_chars(trim_start_chars(s))
}

/// Every `c` at the end removed.
pub fn trim_end_char_chars(s: &[char], c: char) -> (r: &[char])
    ensures
        r@ == trim_end_char(s@, c),
{
    let mut n: usize = s.len();
    assert(s@.take(n as int) == s@);
    while n > 0 && s[n - 1] == c
        invariant
            n <= s@.len(),
            trim_end_char(s@, c) == trim_end_char(s@.take(n as int), c),
        decreases n,
    {
        assert(s@.take(n as int).drop_last() == s@.take(n - 1));
        n = n - 1;
    }
    slice_subrange(s, 0, n)
}

/// Every copy of `prefix` at the start removed.
pub fn trim_start_text_chars<'a>(s: &'a [char], prefix: &[char]) -> (r: &'a [char])
    requires
        prefix@.len() > 0,
    ensures
        r@ == trim_start_text(s@, prefix@),
{
    let mut i: usize = 0;
    assert(s@.skip(0) == s@);
    while starts_with(slice_subrange(s, i, s.len()), prefix)
        invariant
            prefix@.len() > 0,
            i <= s@.len(),
            trim_start_text(s@, prefix@) == trim_start_text(s@.skip(i as int), prefix@),
        decreases s@.len() - i,
    {
        assert(s@.skip(i as int).skip(prefix@.len() as int) == s@.skip(i + prefix@.len()));
        i = i + prefix.len();
    }
    slice_subrange(s, i, s.len())
}

/// The length of the first word.
pub fn first_word_len(s: &[char]) -> (r: usize)
    ensures
        r == word_len(s@),
        r <= s@.len(),
{
    let mut i: usize = 0;
    assert(s@.skip(0) == s@);
    while i < s.len() && !char_is_space(s[i])
        invariant
            i <= s@.len(),
            word_len(s@) == i + word_len(s@.skip(i as int)),
        decreases s@.len() - i,
    {
        assert(s@.skip(i as int).skip(1) == s@.skip(i + 1));
        i = i + 1;
    }
    i
}

/// The words of a text.
pub fn split_words<'a>(s: &'a [char]) -> (r: Vec<&'a [char]>)
    ensures
        texts(r@) == words(s@),
{
    let mut r: Vec<&'a [char]> = Vec::new();
    let mut rest: &'a [char] = trim_start_chars(s);
    proof {
        lemma_trim_start(s@);
        assert(texts(r@) + words(rest@) == words(rest@));
        lemma_words_trim_start(s@);
    }
    while rest.len() > 0
        invariant
            words(s@) == texts(r@) + words(rest@),
            rest@.len() > 0 ==> !is_space(rest@[0]),
        decreases rest@.len(),
    {
        let n: usize = first_word_len(rest);
        let word: &'a [char] = slice_subrange(rest, 0, n);
        let tail: &'a [char] = slice_subrange(rest, n, rest.len());
        let ghost before = r@;
        r.push(word);
        proof {
            lemma_word_len(rest@);
            assert(trim_start(rest@) == rest@);
            assert(word@ == rest@.take(n as int));
            assert(tail@ == rest@.skip(n as int));
            assert(texts(r@) == texts(before).push(word@));
            assert(texts(before) + words(rest@) == texts(r@) + words(tail@));
            lemma_words_trim_start(tail@);
            lemma_trim_start(tail@);
        }
        rest = trim_start_chars(tail);
    }
    assert(words(rest@) == Seq::<Seq<char>>::empty());
    assert(texts(r@) + words(rest@) == texts(r@));
    r
}

/// Leading white space does not change the words.
pub proof fn lemma_words_trim_start(s: Seq<char>)
    ensures
        words(trim_start(s)) == words(s),
{
    lemma_trim_start(s);
    assert(trim_start(trim_start(s)) == trim_start(s));
}

/// Trimming in front of a text that holds more than white space.
pub proof fn lemma_trim_start_concat(s: Seq<char>, more: Seq<char>)
    requires
        trim_start(s).len() > 0 || more.len() > 0 && !is_space(more[0]),
    ensures
        trim_start(s + more) == trim_start(s) + more,
    decreases s.len(),
{
    if s.len() == 0 {
        assert(s + more == more);
    } else {
        assert((s + more)[0] == s[0]);
        if is_space(s[0]) {
            assert((s + more).skip(1) == s.skip(1) + more);
            lemma_trim_start_concat(s.skip(1), more);
        }
    }
}

/// A word ends where it did before, where white space follows the text.
pub proof fn lemma_word_len_concat(s: Seq<char>, more: Seq<char>)
    requires
        more.len() > 0,
        is_space(more[0]),
    ensures
        word_len(s + more) == word_len(s),
    decreases s.len(),
{
    if s.len() == 0 {
        assert(s + more == more);
    } else {
        assert((s + more)[0] == s[0]);
        assert((s + more).skip(1) == s.skip(1) + more);
        lemma_word_len_concat(s.skip(1), more);
    }
}

/// A word that stands alone is the only one.
pub proof fn lemma_one_word(word: Seq<char>)
    requires
        word.len() > 0,
        forall|i: int| 0 <= i < word.len() ==> !is_space(#[trigger] word[i]),
    ensures
        words(word) == seq![word],
{
    lemma_word_len(word);
    assert(!is_space(word[0]));
    assert(word_len(word) == word.len());
    assert(word.take(word.len() as int) == word);
    assert(word.skip(word.len() as int) == Seq::<char>::empty());
    assert(words(Seq::<char>::empty()) == Seq::<Seq<char>>::empty());
}

/// A word behind a space is one word more.
pub proof fn lemma_words_push(s: Seq<char>, word: Seq<char>)
    requires
        word.len() > 0,
        forall|i: int| 0 <= i < word.len() ==> !is_space(#[trigger] word[i]),
    ensures
        words(s + seq![' '] + word) == words(s).push(word),
    decreases s.len(),
{
    let more = seq![' '] + word;
    let t = trim_start(s);
    lemma_trim_start(s);
    lemma_one_word(word);
    assert(!is_space(word[0]));
    if t.len() == 0 {
        let u = s + seq![' '];
        assert(s + seq![' '] + word == u + word);
        lemma_blank(s);
        lemma_all_blank(u);
        lemma_trim_start_concat(u, word);
        assert(trim_start(u) + word == word);
        lemma_words_trim_start(u + word);
        assert(words(s) == Seq::<Seq<char>>::empty());
        assert(words(s).push(word) == seq![word]);
    } else {
        let n = word_len(t) as int;
        lemma_word_len(t);
        lemma_trim_start_concat(s, more);
        lemma_word_len_concat(t, more);
        assert(s + seq![' '] + word == s + more);
        assert((t + more).take(n) == t.take(n));
        assert((t + more).skip(n) == t.skip(n) + seq![' '] + word);
        lemma_words_push(t.skip(n), word);
        assert(seq![t.take(n)] + words(t.skip(n)).push(word) == (seq![t.take(n)] + words(
            t.skip(n),
        )).push(word));
    }
}

/// A text of which nothing is left is white space.
pub proof fn lemma_blank(s: Seq<char>)
    requires
        trim_start(s).len() == 0,
    ensures
        forall|i: int| 0 <= i < s.len() ==> is_space(#[trigger] s[i]),
    decreases s.len(),
{
    if s.len() > 0 {
        let t = s.skip(1);
        lemma_blank(t);
        assert forall|i: int| 0 <= i < s.len() implies is_space(#[trigger] s[i]) by {
            if i > 0 {
                assert(s[i] == t[i - 1]);
            }
        }
    }
}

/// Nothing is left of white space.
pub proof fn lemma_all_blank(s: Seq<char>)
    requires
        forall|i: int| 0 <= i < s.len() ==> is_space(#[trigger] s[i]),
    ensures
        trim_start(s) == Seq::<char>::empty(),
    decreases s.len(),
{
    if s.len() > 0 {
        let t = s.skip(1);
        assert forall|i: int| 0 <= i < t.len() implies is_space(#[trigger] t[i]) by {
            assert(t[i] == s[i + 1]);
        }
        lemma_all_blank(t);
        assert(is_space(s[0]));
    } else {
        assert(s == Seq::<char>::empty());
    }
}

/// White space at the end is trimmed.
pub proof fn lemma_trim_push(s: Seq<char>, c: char)
    requires
        is_space(c),
    ensures
        trim(s.push(c)) == trim(s),
{
    let t = trim_start(s);
    assert(s.push(c) == s + seq![c]);
    if t.len() > 0 {
        lemma_trim_start_concat(s, seq![c]);
        assert(t + seq![c] == t.push(c));
        assert(t.push(c).drop_last() == t);
    } else {
        lemma_blank(s);
        lemma_all_blank(s.push(c));
        assert(t == Seq::<char>::empty());
    }
}

/// A word: it holds something, and no white space.
pub open spec fn is_word(s: Seq<char>) -> bool {
    s.len() > 0 && forall|i: int| 0 <= i < s.len() ==> !is_space(#[trigger] s[i])
}

/// Words that are joined with spaces are told apart again.
pub proof fn joined_words_split_again(parts: Seq<Seq<char>>)
    requires
        forall|i: int| 0 <= i < parts.len() ==> is_word(#[trigger] parts[i]),
    ensures
        words(join(parts, seq![' '])) == parts,
        parts.len() > 0 ==> join(parts, seq![' ']).len() > 0 && join(parts, seq![' '])[0]
            == parts[0][0] && join(parts, seq![' ']).last() == parts.last().last(),
    decreases parts.len(),
{
    if parts.len() == 0 {
        assert(words(Seq::<char>::empty()) == Seq::<Seq<char>>::empty());
    } else {
        let t = parts.drop_last();
        assert(is_word(parts[parts.len() - 1]));
        assert forall|i: int| 0 <= i < t.len() implies is_word(#[trigger] t[i]) by {
            assert(t[i] == parts[i]);
        }
        joined_words_split_again(t);
        if parts.len() == 1 {
            lemma_one_word(parts[0]);
            assert(seq![parts[0]] == parts);
        } else {
            lemma_words_push(join(t, seq![' ']), parts.last());
            assert(t.push(parts.last()) == parts);
        }
    }
}

/// A character that no part and no separator holds is not in what is joined.
pub proof fn lemma_join_without(parts: Seq<Seq<char>>, sep: Seq<char>, c: char)
    requires
        !sep.contains(c),
        forall|i: int| 0 <= i < parts.len() ==> !(#[trigger] parts[i]).contains(c),
    ensures
        !join(parts, sep).contains(c),
    decreases parts.len(),
{
    if parts.len() > 1 {
        let t = parts.drop_last();
        assert forall|i: int| 0 <= i < t.len() implies !(#[trigger] t[i]).contains(c) by {
            assert(t[i] == parts[i]);
        }
        lemma_join_without(t, sep, c);
        assert(!parts[parts.len() - 1].contains(c));
        let before = join(t, sep);
        let all = join(parts, sep);
        if all.contains(c) {
            let i = all.index_of(c);
            if i < before.len() {
                assert(before[i] == c);
            } else if i < before.len() + sep.len() {
                assert(sep[i - before.len()] == c);
            } else {
                assert(parts.last()[i - before.len() - sep.len()] == c);
            }
        }
    } else if parts.len() == 1 {
        assert(!parts[0].contains(c));
    }
}

/// The first `c` is found behind a text that holds none.
pub proof fn lemma_find_char_at(before: Seq<char>, c: char, after: Seq<char>)
    requires
        !before.contains(c),
    ensures
        find_char(before + (seq![c] + after), c) == Some(before.len() as int),
{
    let s = before + (seq![c] + after);
    lemma_find_char(s, c);
    assert(s[before.len() as int] == c);
    if let Some(i) = find_char(s, c) {
        if i < before.len() {
            assert(before[i] == c);
        }
    }
}

/// Indentation does not change the words.
pub proof fn lemma_words_indented(indent: Seq<char>, s: Seq<char>)
    requires
        forall|i: int| 0 <= i < indent.len() ==> is_space(#[trigger] indent[i]),
        s.len() > 0,
        !is_space(s[0]),
    ensures
        words(indent + s) == words(s),
    decreases indent.len(),
{
    if indent.len() == 0 {
        assert(indent + s == s);
    } else {
        let t = indent.skip(1);
        assert forall|i: int| 0 <= i < t.len() implies is_space(#[trigger] t[i]) by {
            assert(t[i] == indent[i + 1]);
        }
        lemma_words_indented(t, s);
        assert((indent + s).skip(1) == t + s);
        assert((indent + s)[0] == indent[0]);
        lemma_words_trim_start(indent + s);
        lemma_words_trim_start(t + s);
    }
}

/// The parts joined with `sep`.
pub fn join_chars(parts: &[&[char]], sep: char) -> (r: Vec<char>)
    ensures
        r@ == join(texts(parts@), seq![sep]),
{
    let mut r: Vec<char> = Vec::new();
    let ghost all = texts(parts@);
    for i in 0..parts.len()
        invariant
            all == texts(parts@),
            r@ == join(all.take(i as int), seq![sep]),
    {
        let ghost before = r@;
        if i > 0 {
            r.push(sep);
        }
        let ghost mid = r@;
        let part: &[char] = parts[i];
        for j in 0..part.len()
            invariant
                r@ == mid + part@.take(j as int),
        {
            r.push(part[j]);
            assert(part@.take(j + 1) == part@.take(j as int).push(part@[j as int]));
        }
        proof {
            assert(part@.take(part@.len() as int) == part@);
            let now = all.take(i + 1);
            assert(now.last() == part@);
            assert(now.drop_last() == all.take(i as int));
            if i > 0 {
                assert(r@ == before + seq![sep] + part@);
            } else {
                assert(before == Seq::<char>::empty());
                assert(r@ == part@);
            }
        }
    }
    assert(all.take(parts@.len() as int) == all);
    r
}

/// The position of the first `c`.
pub fn position_of(s: &[char], c: char) -> (r: Option<usize>)
    ensures
        match r {
            Some(i) => i < s@.len() && find_char(s@, c) == Some(i as int),
            None => find_char(s@, c) is None,
        },
{
    assert(s@.skip(0) == s@);
    for i in 0..s.len()
        invariant
            match find_char(s@.skip(i as int), c) {
                Some(j) => find_char(s@, c) == Some(i + j),
                None => find_char(s@, c) is None,
            },
    {
        if s[i] == c {
            return Some(i);
        }
        assert(s@.skip(i as int).skip(1) == s@.skip(i + 1));
    }
    None
}

/// The position of the last occurrence of `pattern`.
pub fn last_position_of(s: &[char], pattern: &[char]) -> (r: Option<usize>)
    ensures
        match r {
            Some(i) => i + pattern@.len() <= s@.len() && rfind(s@, pattern@) == Some(i as int),
            None => rfind(s@, pattern@) is None,
        },
{
    let mut n: usize = s.len();
    assert(s@.take(n as int) == s@);
    while n >= pattern.len()
        invariant
            n <= s@.len(),
            rfind(s@, pattern@) == rfind(s@.take(n as int), pattern@),
        decreases n,
    {
        let start: usize = n - pattern.len();
        assert(s@.take(n as int).skip(start as int) == s@.subrange(start as int, n as int));
        if same_text(slice_subrange(s, start, n), pattern) {
            return Some(start);
        }
        if n == 0 {
            return None;
        }
        assert(s@.take(n as int).drop_last() == s@.take(n - 1));
        n = n - 1;
    }
    None
}

/// `rfind` finds the last occurrence, and finds one where there is one.
pub proof fn lemma_rfind(s: Seq<char>, pattern: Seq<char>)
    ensures
        match rfind(s, pattern) {
            Some(i) => occurs_at(s, pattern, i) && forall|j: int| #[trigger]
                occurs_at(s, pattern, j) ==> j <= i,
            None => !contains(s, pattern),
        },
    decreases s.len(),
{
    if s.len() < pattern.len() {
    } else if s.skip(s.len() - pattern.len()) == pattern {
        let i = s.len() - pattern.len();
        assert(s.skip(i) == s.subrange(i, i + pattern.len()));
    } else if s.len() == 0 {
        assert(s.skip(0) == pattern);
    } else {
        let t = s.drop_last();
        lemma_rfind(t, pattern);
        assert forall|j: int| occurs_at(s, pattern, j) implies occurs_at(t, pattern, j) by {
            if j + pattern.len() == s.len() {
                assert(s.skip(j) == s.subrange(j, j + pattern.len()));
            } else {
                assert(t.subrange(j, j + pattern.len()) == s.subrange(j, j + pattern.len()));
            }
        }
        if let Some(i) = rfind(t, pattern) {
            assert(t.subrange(i, i + pattern.len()) == s.subrange(i, i + pattern.len()));
        }
    }
}

/// An occurrence with none behind it is the one that `rfind` finds.
pub proof fn lemma_rfind_at(s: Seq<char>, pattern: Seq<char>, i: int)
    requires
        occurs_at(s, pattern, i),
        forall|j: int| i < j ==> !#[trigger] occurs_at(s, pattern, j),
    ensures
        rfind(s, pattern) == Some(i),
{
    lemma_rfind(s, pattern);
}

/// Whether `pattern` stands somewhere in `s`.
pub fn contains_chars(s: &[char], pattern: &[char]) -> (r: bool)
    ensures
        r == contains(s@, pattern@),
{
    proof {
        lemma_rfind(s@, pattern@);
    }
    last_position_of(s, pattern).is_some()
}

} // verus!
