//! What trimming, splitting, joining and searching do, for all texts.

use vstd::prelude::*;

use crate::text;

verus! {

/// Nothing but white space.
pub open spec fn blank(s: Seq<char>) -> bool {
    forall|i: int| 0 <= i < s.len() ==> text::is_space(#[trigger] s[i])
}

/// A text that neither starts nor ends with white space.
pub open spec fn tight(s: Seq<char>) -> bool {
    s.len() > 0 ==> !text::is_space(s[0]) && !text::is_space(s.last())
}

/// Trimming takes the white space around a text, all of it and nothing else.
pub proof fn trimming_takes_the_padding(before: Seq<char>, core: Seq<char>, after: Seq<char>)
    requires
        blank(before),
        blank(after),
        tight(core),
    ensures
        text::trim(before + core + after) == core,
    decreases after.len(),
{
    if after.len() == 0 {
        assert(before + core + after == before + core);
        if core.len() == 0 {
            assert(before + core == before);
            text::lemma_all_blank(before);
            assert(core == Seq::<char>::empty());
        } else {
            text::lemma_trim_indented(before, core);
        }
    } else {
        let shorter = after.drop_last();
        assert(blank(shorter)) by {
            assert forall|i: int| 0 <= i < shorter.len() implies text::is_space(
                #[trigger] shorter[i],
            ) by {
                assert(shorter[i] == after[i]);
            }
        }
        trimming_takes_the_padding(before, core, shorter);
        assert(text::is_space(after[after.len() - 1]));
        assert(before + core + after == (before + core + shorter).push(after.last()));
        text::lemma_trim_push(before + core + shorter, after.last());
    }
}

/// Every text is a core that is kept, with white space around it.
pub proof fn trimming_splits_a_text(s: Seq<char>) -> (r: (Seq<char>, Seq<char>))
    ensures
        blank(r.0),
        blank(r.1),
        tight(text::trim(s)),
        s == r.0 + text::trim(s) + r.1,
{
    let a = lemma_start(s);
    let t = text::trim_start(s);
    let b = lemma_end(t);
    text::lemma_trim_start(s);
    text::lemma_trim_end(t);
    assert(s == a + text::trim(s) + b);
    if text::trim(s).len() > 0 {
        assert(text::trim(s)[0] == t[0]);
    }
    (a, b)
}

proof fn lemma_start(s: Seq<char>) -> (a: Seq<char>)
    ensures
        blank(a),
        s == a + text::trim_start(s),
    decreases s.len(),
{
    if s.len() > 0 && text::is_space(s[0]) {
        let a = lemma_start(s.skip(1));
        let r = seq![s[0]] + a;
        assert(blank(r)) by {
            assert forall|i: int| 0 <= i < r.len() implies text::is_space(#[trigger] r[i]) by {
                if i > 0 {
                    assert(r[i] == a[i - 1]);
                }
            }
        }
        assert(s == seq![s[0]] + s.skip(1));
        assert(s == r + text::trim_start(s));
        r
    } else {
        assert(s == Seq::<char>::empty() + s);
        seq![]
    }
}

proof fn lemma_end(s: Seq<char>) -> (b: Seq<char>)
    ensures
        blank(b),
        s == text::trim_end(s) + b,
    decreases s.len(),
{
    if s.len() > 0 && text::is_space(s.last()) {
        let b = lemma_end(s.drop_last());
        let r = b.push(s.last());
        assert(blank(r)) by {
            assert forall|i: int| 0 <= i < r.len() implies text::is_space(#[trigger] r[i]) by {
                if i < b.len() {
                    assert(r[i] == b[i]);
                }
            }
        }
        assert(s == s.drop_last().push(s.last()));
        assert(s == text::trim_end(s) + r);
        r
    } else {
        assert(s == s + Seq::<char>::empty());
        seq![]
    }
}

/// A character is trimmed from the end as often as it stands there.
pub proof fn every_copy_is_trimmed(core: Seq<char>, c: char, n: nat)
    requires
        core.len() > 0 ==> core.last() != c,
    ensures
        text::trim_end_char(core + Seq::new(n, |i: int| c), c) == core,
    decreases n,
{
    let copies = Seq::new(n, |i: int| c);
    if n == 0 {
        assert(core + copies == core);
    } else {
        let fewer = Seq::new((n - 1) as nat, |i: int| c);
        every_copy_is_trimmed(core, c, (n - 1) as nat);
        assert((core + copies).drop_last() == core + fewer);
        assert((core + copies).last() == c);
    }
}

/// A prefix is trimmed as often as it stands at the start, and nothing else is.
pub proof fn every_prefix_is_trimmed(prefix: Seq<char>, s: Seq<char>)
    requires
        prefix.len() > 0,
    ensures
        text::trim_start_text(prefix + s, prefix) == text::trim_start_text(s, prefix),
        !prefix.is_prefix_of(s) ==> text::trim_start_text(s, prefix) == s,
{
    assert(prefix.is_prefix_of(prefix + s));
    assert((prefix + s).skip(prefix.len() as int) == s);
}

/// White space in front does not change the words.
proof fn lemma_words_blank(a: Seq<char>, s: Seq<char>)
    requires
        blank(a),
    ensures
        text::trim_start(a + s) == text::trim_start(s),
    decreases a.len(),
{
    if a.len() == 0 {
        assert(a + s == s);
    } else {
        let t = a.skip(1);
        assert(blank(t)) by {
            assert forall|i: int| 0 <= i < t.len() implies text::is_space(#[trigger] t[i]) by {
                assert(t[i] == a[i + 1]);
            }
        }
        lemma_words_blank(t, s);
        assert((a + s)[0] == a[0]);
        assert((a + s).skip(1) == t + s);
    }
}

/// Text is split at white space: the words of two texts with white space between
/// them are those of the first, then those of the second.
pub proof fn words_are_split_at_white_space(a: Seq<char>, c: char, b: Seq<char>)
    requires
        text::is_space(c),
    ensures
        text::words(a + seq![c] + b) == text::words(a) + text::words(b),
    decreases a.len(),
{
    let more = seq![c] + b;
    let t = text::trim_start(a);
    assert(a + seq![c] + b == a + more);
    text::lemma_trim_start(a);
    if t.len() == 0 {
        text::lemma_blank(a);
        let pad = a + seq![c];
        assert(blank(pad)) by {
            assert forall|i: int| 0 <= i < pad.len() implies text::is_space(#[trigger] pad[i]) by {
                if i < a.len() {
                    assert(pad[i] == a[i]);
                }
            }
        }
        lemma_words_blank(pad, b);
        text::lemma_words_trim_start(pad + b);
        text::lemma_words_trim_start(b);
        assert(text::words(a) == Seq::<Seq<char>>::empty());
        assert(text::words(a) + text::words(b) == text::words(b));
    } else {
        let n = text::word_len(t) as int;
        text::lemma_word_len(t);
        text::lemma_trim_start_concat(a, more);
        text::lemma_word_len_concat(t, more);
        assert((t + more).take(n) == t.take(n));
        assert((t + more).skip(n) == t.skip(n) + seq![c] + b);
        words_are_split_at_white_space(t.skip(n), c, b);
        assert(seq![t.take(n)] + (text::words(t.skip(n)) + text::words(b)) == (seq![t.take(n)]
            + text::words(t.skip(n))) + text::words(b));
    }
}

/// A text without white space is one word, and no text is no word.
pub proof fn words_hold_no_white_space(s: Seq<char>)
    requires
        forall|i: int| 0 <= i < s.len() ==> !text::is_space(#[trigger] s[i]),
    ensures
        text::words(s) == if s.len() == 0 {
            Seq::<Seq<char>>::empty()
        } else {
            seq![s]
        },
{
    if s.len() > 0 {
        text::lemma_one_word(s);
    } else {
        assert(s == Seq::<char>::empty());
    }
}

/// Joining puts the separator between the parts, all of them, in their order.
pub proof fn joining_keeps_every_part(
    a: Seq<Seq<char>>,
    b: Seq<Seq<char>>,
    sep: Seq<char>,
)
    requires
        a.len() > 0,
        b.len() > 0,
    ensures
        text::join(a + b, sep) == text::join(a, sep) + sep + text::join(b, sep),
    decreases b.len(),
{
    let all = a + b;
    assert(all.last() == b.last());
    if b.len() == 1 {
        assert(all.drop_last() == a);
    } else {
        joining_keeps_every_part(a, b.drop_last(), sep);
        assert(all.drop_last() == a + b.drop_last());
        assert(text::join(a, sep) + sep + (text::join(b.drop_last(), sep) + sep + b.last())
            == text::join(a, sep) + sep + text::join(b.drop_last(), sep) + sep + b.last());
    }
}

/// One part stands alone, and no part is no text.
pub proof fn joining_one_part_adds_nothing(part: Seq<char>, sep: Seq<char>)
    ensures
        text::join(seq![part], sep) == part,
        text::join(seq![], sep) == Seq::<char>::empty(),
{
}

/// A text holds a pattern exactly where it is something, the pattern, and
/// something.
pub proof fn a_pattern_is_held_where_it_stands(
    s: Seq<char>,
    before: Seq<char>,
    pattern: Seq<char>,
    after: Seq<char>,
)
    ensures
        text::contains(before + pattern + after, pattern),
        text::contains(s, pattern) ==> exists|a: Seq<char>, b: Seq<char>|
            #[trigger] (a + pattern + b) == s,
{
    let t = before + pattern + after;
    let n = before.len() as int;
    assert(t.subrange(n, n + pattern.len()) == pattern);
    assert(text::occurs_at(t, pattern, n));
    if text::contains(s, pattern) {
        let i = choose|i: int| text::occurs_at(s, pattern, i);
        let a = s.take(i);
        let b = s.skip(i + pattern.len());
        assert(a + pattern + b == s);
    }
}

/// The first character that is looked for is found, wherever it stands.
pub proof fn the_first_character_is_found(before: Seq<char>, c: char, after: Seq<char>)
    requires
        !before.contains(c),
    ensures
        text::find_char(before + (seq![c] + after), c) == Some(before.len() as int),
        text::find_char(before, c) is None,
{
    text::lemma_find_char_at(before, c, after);
    text::lemma_find_char(before, c);
    if let Some(i) = text::find_char(before, c) {
        assert(before[i] == c);
    }
}

/// The last occurrence of a pattern is found, wherever it stands; where there is
/// none, none is found.
pub proof fn the_last_occurrence_is_found(s: Seq<char>, pattern: Seq<char>)
    ensures
        match text::rfind(s, pattern) {
            Some(i) => 0 <= i <= s.len() - pattern.len() && s.subrange(i, i + pattern.len())
                == pattern && forall|j: int|
                #![trigger s.subrange(j, j + pattern.len())]
                i < j <= s.len() - pattern.len() ==> s.subrange(j, j + pattern.len()) != pattern,
            None => forall|j: int|
                #![trigger s.subrange(j, j + pattern.len())]
                0 <= j <= s.len() - pattern.len() ==> s.subrange(j, j + pattern.len()) != pattern,
        },
{
    text::lemma_rfind(s, pattern);
    match text::rfind(s, pattern) {
        Some(i) => {
            assert forall|j: int|
                #![trigger s.subrange(j, j + pattern.len())]
                i < j <= s.len() - pattern.len() implies s.subrange(j, j + pattern.len())
                != pattern by {
                assert(!text::occurs_at(s, pattern, j));
            }
        },
        None => {
            assert forall|j: int|
                #![trigger s.subrange(j, j + pattern.len())]
                0 <= j <= s.len() - pattern.len() implies s.subrange(j, j + pattern.len())
                != pattern by {
                if s.subrange(j, j + pattern.len()) == pattern {
                    assert(text::occurs_at(s, pattern, j));
                }
            }
        },
    }
}

} // verus!
